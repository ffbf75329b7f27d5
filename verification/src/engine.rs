//! Choosing an engine, what a caller may ask of it, and how it describes itself.

use crate::chars::law_decimal2_injective;
use crate::error::MoEError;
use crate::text::{decimal, decimal2, push_decimal, push_decimal2, same_text, text_views};
use vstd::prelude::*;
use vstd::string::*;

verus! {

/// The switch for measurements at engine level; off at first.
pub struct TelemetrySwitch {
    pub on: bool,
}

impl TelemetrySwitch {
    /// A switch that is off.
    pub fn new() -> (r: TelemetrySwitch)
        ensures
            !r.on,
    {
        TelemetrySwitch { on: false }
    }
}

/// Turns measurements on or off.
pub fn set_record_telemetry(switch: &mut TelemetrySwitch, on: bool)
    ensures
        final(switch).on == on,
{
    switch.on = on;
}

/// Whether measurements are on: what was set last.
pub fn record_telemetry(switch: &TelemetrySwitch) -> (r: bool)
    ensures
        r == switch.on,
{
    switch.on
}

/// The variants of the fused engine.
#[derive(Clone, Copy, PartialEq, Eq, Structural, Debug)]
pub enum EngineKind {
    Fused4bit,
    Fused4bitExp1,
    Fused4bitExp2,
    Fused4bitExp3,
}

/// The model that an engine is made for.
#[derive(Clone, Copy, PartialEq, Eq, Structural, Debug)]
pub enum ModelSize {
    Full,
    Stripped,
}

/// The engine with a name.
pub open spec fn kind_of(name: Seq<char>) -> Option<EngineKind> {
    if name == "Qwen35MoEFused4bit"@ {
        Some(EngineKind::Fused4bit)
    } else if name == "Qwen35MoEFused4bitExp1"@ {
        Some(EngineKind::Fused4bitExp1)
    } else if name == "Qwen35MoEFused4bitExp2"@ {
        Some(EngineKind::Fused4bitExp2)
    } else if name == "Qwen35MoEFused4bitExp3"@ {
        Some(EngineKind::Fused4bitExp3)
    } else {
        None
    }
}

/// The model with an architecture.
pub open spec fn size_of_arch(arch: Seq<char>) -> Option<ModelSize> {
    if arch == "Qwen3_5MoeForConditionalGeneration"@ {
        Some(ModelSize::Full)
    } else if arch == "Qwen3_5MoeForConditionalGeneration_Stripped"@ {
        Some(ModelSize::Stripped)
    } else {
        None
    }
}

fn engine_kind(name: &str) -> (r: Option<EngineKind>)
    ensures
        r == kind_of(name@),
{
    if same_text(name, "Qwen35MoEFused4bit") {
        Some(EngineKind::Fused4bit)
    } else if same_text(name, "Qwen35MoEFused4bitExp1") {
        Some(EngineKind::Fused4bitExp1)
    } else if same_text(name, "Qwen35MoEFused4bitExp2") {
        Some(EngineKind::Fused4bitExp2)
    } else if same_text(name, "Qwen35MoEFused4bitExp3") {
        Some(EngineKind::Fused4bitExp3)
    } else {
        None
    }
}

fn model_size(arch: &str) -> (r: Option<ModelSize>)
    ensures
        r == size_of_arch(arch@),
{
    if same_text(arch, "Qwen3_5MoeForConditionalGeneration") {
        Some(ModelSize::Full)
    } else if same_text(arch, "Qwen3_5MoeForConditionalGeneration_Stripped") {
        Some(ModelSize::Stripped)
    } else {
        None
    }
}

/// What the standard library prints for a text in debug form: quotes around it, and escapes inside
/// for quotes, backslashes and characters that cannot be printed.
pub uninterp spec fn debug_form(s: Seq<char>) -> Seq<char>;

/// Calls `format!` with `{:?}` on a text (`<str as std::fmt::Debug>::fmt`). The result is taken to
/// depend on the text alone; which characters are escaped is not stated.
#[verifier::external_body]
fn debug_text(s: &str) -> (r: String)
    ensures
        r@ == debug_form(s@),
{
    format!("{:?}", s)
}

/// The message for an engine that is not known, with both names in debug form.
pub open spec fn unknown_engine(engine_type: Seq<char>, arch: Seq<char>) -> Seq<char> {
    "Unknown engine: engine_type="@ + engine_type + ", arch="@ + arch
}

/// Forms the message for an engine that is not known from both names in debug form.
pub fn unknown_engine_text(engine_type: &str, arch: &str) -> (r: String)
    ensures
        r@ == unknown_engine(engine_type@, arch@),
{
    let mut s: String = "Unknown engine: engine_type=".to_owned();
    s.append(engine_type);
    s.append(", arch=");
    s.append(arch);
    s
}

/// An engine and the model it is made for.
pub struct DynEngine {
    pub kind: EngineKind,
    pub size: ModelSize,
}

impl DynEngine {
    /// The engine with a name, for a model with an architecture.
    pub fn new(engine_type: &str, arch: &str) -> (r: Result<DynEngine, MoEError>)
        ensures
            match r {
                Ok(e) => kind_of(engine_type@) == Some(e.kind) && size_of_arch(arch@) == Some(
                    e.size,
                ),
                Err(MoEError::Config(m)) => {
                    &&& kind_of(engine_type@) is None || size_of_arch(arch@) is None
                    &&& m@ == unknown_engine(debug_form(engine_type@), debug_form(arch@))
                },
                Err(_) => false,
            },
    {
        match (engine_kind(engine_type), model_size(arch)) {
            (Some(kind), Some(size)) => Ok(DynEngine { kind, size }),
            _ => {
                let a: String = debug_text(engine_type);
                let b: String = debug_text(arch);
                Err(MoEError::Config(unknown_engine_text(a.as_str(), b.as_str())))
            },
        }
    }
}

/// The first of the architectures that a configuration lists; the empty text where it lists none
/// or the first is not a text.
pub open spec fn arch_of(list: Option<Seq<Option<Seq<char>>>>) -> Seq<char> {
    match list {
        Some(l) => if l.len() > 0 {
            match l[0] {
                Some(s) => s,
                None => Seq::empty(),
            }
        } else {
            Seq::empty()
        },
        None => Seq::empty(),
    }
}

/// The first of the architectures that a configuration lists.
pub fn architecture(list: &Option<Vec<Option<String>>>) -> (r: String)
    ensures
        r@ == arch_of(
            match list {
                Some(l) => Some(text_views(l@)),
                None => None,
            },
        ),
{
    match list {
        Some(l) => {
            if l.len() > 0 {
                match &l[0] {
                    Some(s) => {
                        return s.clone();
                    },
                    None => {},
                }
            }
            String::new()
        },
        None => String::new(),
    }
}

/// How tokens go through the layers.
#[derive(Clone, Copy, PartialEq, Eq, Structural, Debug)]
pub enum PipelineMode {
    Cpu,
    FusedExp,
    FusedWoods,
}

/// The mode with a name.
pub open spec fn mode_of(name: Seq<char>) -> Option<PipelineMode> {
    if name == "Cpu"@ || name == "CpuOnly"@ {
        Some(PipelineMode::Cpu)
    } else if name == "FusedExp"@ {
        Some(PipelineMode::FusedExp)
    } else if name == "FusedWoods"@ {
        Some(PipelineMode::FusedWoods)
    } else {
        None
    }
}

/// The mode with a name; the error names the text that is none.
pub fn pipeline_mode(name: &str) -> (r: Result<PipelineMode, MoEError>)
    ensures
        match r {
            Ok(m) => mode_of(name@) == Some(m),
            Err(MoEError::Config(e)) => mode_of(name@) is None && e@ == "Unknown pipeline mode: "@
                + name@,
            Err(_) => false,
        },
{
    if same_text(name, "Cpu") || same_text(name, "CpuOnly") {
        Ok(PipelineMode::Cpu)
    } else if same_text(name, "FusedExp") {
        Ok(PipelineMode::FusedExp)
    } else if same_text(name, "FusedWoods") {
        Ok(PipelineMode::FusedWoods)
    } else {
        let mut s: String = "Unknown pipeline mode: ".to_owned();
        s.append(name);
        Err(MoEError::Config(s))
    }
}

/// The number of experts for each token when `k` is asked for: the model's where it is zero.
pub open spec fn experts_asked(k: usize, num_experts_per_tok: usize) -> usize {
    if k == 0 {
        num_experts_per_tok
    } else {
        k
    }
}

/// The message for a mode that is not known.
pub open spec fn unknown_mode(name: Seq<char>) -> Seq<char> {
    "Unknown pipeline_mode: "@ + name + ". Use Cpu|FusedExp|FusedWoods"@
}

/// The message for more experts than the model has for each token.
pub open spec fn too_many_experts(k: int, most: int) -> Seq<char> {
    "k ("@ + decimal(k) + ") must not exceed model's num_experts_per_tok ("@ + decimal(most) + ")"@
}

/// Checks what a caller asks of an engine: a mode by its name, and a number of experts for each
/// token. The mode is looked at first.
pub fn engine_request(name: &str, k: usize, num_experts_per_tok: usize) -> (r: Result<
    (PipelineMode, usize),
    String,
>)
    ensures
        match r {
            Ok((m, n)) => {
                &&& mode_of(name@) == Some(m)
                &&& n == experts_asked(k, num_experts_per_tok)
                &&& n <= num_experts_per_tok
            },
            Err(e) => if mode_of(name@) is None {
                e@ == unknown_mode(name@)
            } else {
                &&& k > num_experts_per_tok
                &&& e@ == too_many_experts(k as int, num_experts_per_tok as int)
            },
        },
{
    match pipeline_mode(name) {
        Err(_) => {
            let mut s: String = "Unknown pipeline_mode: ".to_owned();
            s.append(name);
            s.append(". Use Cpu|FusedExp|FusedWoods");
            Err(s)
        },
        Ok(m) => {
            let n: usize = if k == 0 {
                num_experts_per_tok
            } else {
                k
            };
            if n > num_experts_per_tok {
                let mut s: String = "k (".to_owned();
                push_decimal(&mut s, n as u64);
                s.append(") must not exceed model's num_experts_per_tok (");
                push_decimal(&mut s, num_experts_per_tok as u64);
                s.append(")");
                return Err(s);
            }
            Ok((m, n))
        },
    }
}

/// Where the tokens that a cache has not seen begin in a list of all tokens. A list that is not
/// longer than what the cache has seen is taken whole.
pub fn first_new_token(pos: usize, len: usize) -> (r: usize)
    ensures
        r == if pos < len {
            pos
        } else {
            0
        },
        r <= len,
{
    if pos < len {
        pos
    } else {
        0
    }
}

/// How a model describes itself.
pub fn model_text(num_layers: usize, hidden_dim: usize) -> (r: String)
    ensures
        r@ == "Model("@ + decimal(num_layers as int) + " layers, hidden="@ + decimal(
            hidden_dim as int,
        ) + ")"@,
{
    let mut s: String = "Model(".to_owned();
    push_decimal(&mut s, num_layers as u64);
    s.append(" layers, hidden=");
    push_decimal(&mut s, hidden_dim as u64);
    s.append(")");
    s
}

/// How an engine describes itself.
pub fn engine_text(num_layers: usize, hidden_dim: usize) -> (r: String)
    ensures
        r@ == "Engine(loaded: "@ + decimal(num_layers as int) + " layers, hidden="@ + decimal(
            hidden_dim as int,
        ) + ")"@,
{
    let mut s: String = "Engine(loaded: ".to_owned();
    push_decimal(&mut s, num_layers as u64);
    s.append(" layers, hidden=");
    push_decimal(&mut s, hidden_dim as u64);
    s.append(")");
    s
}

/// How a cache describes itself.
pub fn cache_text(pos: usize) -> (r: String)
    ensures
        r@ == "Cache(pos="@ + decimal(pos as int) + ")"@,
{
    let mut s: String = "Cache(pos=".to_owned();
    push_decimal(&mut s, pos as u64);
    s.append(")");
    s
}

/// The name of the file with the experts of a layer.
pub fn expert_file_name(layer: usize) -> (r: String)
    ensures
        r@ == "layer_"@ + decimal2(layer as int) + ".bin"@,
{
    let mut s: String = "layer_".to_owned();
    push_decimal2(&mut s, layer as u64);
    s.append(".bin");
    s
}

/// The experts of different layers lie in different files.
pub proof fn law_expert_files_differ(a: int, b: int)
    requires
        0 <= a,
        0 <= b,
        "layer_"@ + decimal2(a) + ".bin"@ == "layer_"@ + decimal2(b) + ".bin"@,
    ensures
        a == b,
{
    let (x, y) = ("layer_"@ + decimal2(a) + ".bin"@, "layer_"@ + decimal2(b) + ".bin"@);
    let (n, m) = ("layer_"@.len() as int, ".bin"@.len() as int);
    assert(decimal2(a) =~= x.subrange(n, x.len() - m));
    assert(decimal2(b) =~= y.subrange(n, y.len() - m));
    law_decimal2_injective(a, b);
}

/// Names and engines belong together one to one, and so do architectures and models.
pub proof fn law_engine_names(name: Seq<char>)
    ensures
        kind_of(name) == Some(EngineKind::Fused4bit) <==> name == "Qwen35MoEFused4bit"@,
        kind_of(name) == Some(EngineKind::Fused4bitExp1) <==> name == "Qwen35MoEFused4bitExp1"@,
        kind_of(name) == Some(EngineKind::Fused4bitExp2) <==> name == "Qwen35MoEFused4bitExp2"@,
        kind_of(name) == Some(EngineKind::Fused4bitExp3) <==> name == "Qwen35MoEFused4bitExp3"@,
        size_of_arch(name) == Some(ModelSize::Full) <==> name
            == "Qwen3_5MoeForConditionalGeneration"@,
        size_of_arch(name) == Some(ModelSize::Stripped) <==> name
            == "Qwen3_5MoeForConditionalGeneration_Stripped"@,
        mode_of(name) == Some(PipelineMode::Cpu) <==> name == "Cpu"@ || name == "CpuOnly"@,
        mode_of(name) == Some(PipelineMode::FusedExp) <==> name == "FusedExp"@,
        mode_of(name) == Some(PipelineMode::FusedWoods) <==> name == "FusedWoods"@,
{
    reveal_strlit("Qwen35MoEFused4bit");
    reveal_strlit("Qwen35MoEFused4bitExp1");
    reveal_strlit("Qwen35MoEFused4bitExp2");
    reveal_strlit("Qwen35MoEFused4bitExp3");
    reveal_strlit("Qwen3_5MoeForConditionalGeneration");
    reveal_strlit("Qwen3_5MoeForConditionalGeneration_Stripped");
    reveal_strlit("Cpu");
    reveal_strlit("CpuOnly");
    reveal_strlit("FusedExp");
    reveal_strlit("FusedWoods");
    assert("Qwen35MoEFused4bitExp1"@[21] == '1');
    assert("Qwen35MoEFused4bitExp2"@[21] == '2');
    assert("Qwen35MoEFused4bitExp3"@[21] == '3');
    assert("Qwen35MoEFused4bit"@.len() == 18);
    assert("Qwen3_5MoeForConditionalGeneration"@.len()
        < "Qwen3_5MoeForConditionalGeneration_Stripped"@.len());
    assert("Cpu"@.len() == 3 && "CpuOnly"@.len() == 7);
    assert("FusedExp"@.len() == 8 && "FusedWoods"@.len() == 10);
}

/// The architecture is the first that is listed, whatever follows it; one that is not a text, and a
/// list without any, give the empty text.
pub proof fn law_first_architecture(first: Seq<char>, rest: Seq<Option<Seq<char>>>)
    ensures
        arch_of(Some(seq![Some(first)] + rest)) == first,
        arch_of(Some(seq![None::<Seq<char>>] + rest)) == Seq::<char>::empty(),
        arch_of(Some(Seq::empty())) == Seq::<char>::empty(),
        arch_of(None) == Seq::<char>::empty(),
{
}

/// A caller gets as many experts for each token as it asks for, and the model's number where it
/// asks for none.
pub proof fn law_experts_asked(k: usize, most: usize)
    ensures
        experts_asked(0, most) == most,
        k > 0 ==> experts_asked(k, most) == k,
{
}

} // verus!
