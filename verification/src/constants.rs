//! Sizes that every model shares, and the check of a configuration against a model's sizes.

use crate::float::F32;
use crate::text::{decimal, join, joined, push_decimal, views};
use vstd::prelude::*;
use vstd::string::*;

pub mod qwen35_35b;
pub mod qwen35_35b_stripped;

verus! {

/// Output rows of a thread group.
pub const ROWS_PER_TG: u32 = 8;

/// Threads of a thread group.
pub const TG_SIZE: u32 = 256;

/// The longest sequence that a cache has room for.
pub const MAX_SEQ: usize = 4096;

/// Every so many layers, one has full attention.
pub const FULL_ATTN_INTERVAL: usize = 4;

/// Inputs that a step of the convolution looks at.
pub const CONV_KERNEL_SIZE: usize = 4;

/// `1e-6`, added to the mean square before its root is taken.
#[verifier::allow_in_spec]
pub fn rms_norm_eps() -> F32
    returns
        (F32 { bits: 0x3586_37BD }),
{
    F32 { bits: 0x3586_37BD }
}

/// A size of a configuration that differs from the model's, in words.
pub open spec fn complaint(name: Seq<char>, config: int, constant: int) -> Seq<char> {
    name + ": config="@ + decimal(config) + ", const="@ + decimal(constant)
}

/// The sizes that differ, in words, of the first `n` of the given names, configured sizes and
/// model sizes.
pub open spec fn complaints(
    names: Seq<Seq<char>>,
    config: Seq<int>,
    constants: Seq<int>,
    n: int,
) -> Seq<Seq<char>>
    decreases n,
{
    if n <= 0 {
        Seq::empty()
    } else {
        let before = complaints(names, config, constants, n - 1);
        if config[n - 1] == constants[n - 1] {
            before
        } else {
            before.push(complaint(names[n - 1], config[n - 1], constants[n - 1]))
        }
    }
}

/// The names of the sizes that are compared, in order.
pub open spec fn size_names() -> Seq<Seq<char>> {
    seq![
        "hidden_dim"@,
        "num_layers"@,
        "num_experts"@,
        "num_experts_per_tok"@,
        "moe_intermediate"@,
        "shared_intermediate"@,
        "num_attn_heads"@,
        "num_kv_heads"@,
        "head_dim"@,
        "vocab_size"@,
        "linear_num_v_heads"@,
        "linear_num_k_heads"@,
        "linear_total_key"@,
        "linear_total_value"@,
    ]
}

/// The result of comparing the configured sizes with those of a model: success where all agree,
/// else all differences in words.
pub open spec fn agreement(config: Seq<int>, constants: Seq<int>, r: Result<(), String>) -> bool {
    match r {
        Ok(_) => forall|i: int| 0 <= i < 14 ==> #[trigger] config[i] == constants[i],
        Err(e) => {
            let all = complaints(size_names(), config, constants, 14);
            &&& exists|i: int| 0 <= i < 14 && #[trigger] config[i] != constants[i]
            &&& e@ == joined(all, "; "@, all.len() as int)
        },
    }
}

fn compare(errs: &mut Vec<String>, name: &str, config: usize, constant: usize)
    ensures
        views(final(errs)@) == if config == constant {
            views(old(errs)@)
        } else {
            views(old(errs)@).push(complaint(name@, config as int, constant as int))
        },
{
    if config != constant {
        let mut text: String = name.to_owned();
        text.append(": config=");
        push_decimal(&mut text, config as u64);
        text.append(", const=");
        push_decimal(&mut text, constant as u64);
        let ghost before = errs@;
        errs.push(text);
        assert(views(errs@) =~= views(before).push(
            complaint(name@, config as int, constant as int),
        ));
    }
}

fn size_name(i: usize) -> (r: &'static str)
    requires
        i < 14,
    ensures
        r@ == size_names()[i as int],
{
    if i == 0 {
        "hidden_dim"
    } else if i == 1 {
        "num_layers"
    } else if i == 2 {
        "num_experts"
    } else if i == 3 {
        "num_experts_per_tok"
    } else if i == 4 {
        "moe_intermediate"
    } else if i == 5 {
        "shared_intermediate"
    } else if i == 6 {
        "num_attn_heads"
    } else if i == 7 {
        "num_kv_heads"
    } else if i == 8 {
        "head_dim"
    } else if i == 9 {
        "vocab_size"
    } else if i == 10 {
        "linear_num_v_heads"
    } else if i == 11 {
        "linear_num_k_heads"
    } else if i == 12 {
        "linear_total_key"
    } else {
        "linear_total_value"
    }
}

/// The sizes as integers.
pub open spec fn sizes(s: Seq<usize>) -> Seq<int> {
    Seq::new(s.len(), |i: int| s[i] as int)
}

/// Compares configured sizes with those of a model, in the order of [`size_names`].
pub fn compare_sizes(config: &Vec<usize>, constants: &Vec<usize>) -> (r: Result<(), String>)
    requires
        config@.len() == 14,
        constants@.len() == 14,
    ensures
        agreement(sizes(config@), sizes(constants@), r),
{
    let mut errs: Vec<String> = Vec::new();
    let ghost (a, b) = (sizes(config@), sizes(constants@));
    assert(views(errs@) =~= complaints(size_names(), a, b, 0));
    for i in 0..14usize
        invariant
            config@.len() == 14,
            constants@.len() == 14,
            a == sizes(config@),
            b == sizes(constants@),
            views(errs@) == complaints(size_names(), a, b, i as int),
            errs@.len() == 0 <==> forall|k: int| 0 <= k < i ==> #[trigger] a[k] == b[k],
    {
        let name: &str = size_name(i);
        let ghost before = errs@;
        compare(&mut errs, name, config[i], constants[i]);
        proof {
            assert(views(before).len() == before.len());
            assert(views(errs@).len() == errs@.len());
            if a[i as int] != b[i as int] {
                assert(errs@.len() > 0);
            }
        }
    }
    if errs.len() == 0 {
        Ok(())
    } else {
        Err(join(&errs, "; "))
    }
}

proof fn lemma_complaints(
    names: Seq<Seq<char>>,
    config: Seq<int>,
    constants: Seq<int>,
    i: int,
    n: int,
)
    requires
        0 <= i < names.len(),
        0 <= n <= names.len(),
        config.len() == names.len(),
        constants.len() == names.len(),
        forall|k: int| 0 <= k < names.len() ==> (#[trigger] config[k] != constants[k] <==> k == i),
    ensures
        complaints(names, config, constants, n) == if i < n {
            seq![complaint(names[i], config[i], constants[i])]
        } else {
            Seq::empty()
        },
    decreases n,
{
    if n > 0 {
        lemma_complaints(names, config, constants, i, n - 1);
        assert(config[n - 1] != constants[n - 1] <==> n - 1 == i);
        let text = complaint(names[i], config[i], constants[i]);
        assert(Seq::<Seq<char>>::empty().push(text) =~= seq![text]);
    }
}

proof fn lemma_more_complaints(
    a: (Seq<Seq<char>>, Seq<int>, Seq<int>),
    b: (Seq<Seq<char>>, Seq<int>, Seq<int>),
    n: int,
)
    requires
        forall|k: int| 0 <= k < n ==> #[trigger] a.0[k] == b.0[k],
        forall|k: int| 0 <= k < n ==> #[trigger] a.1[k] == b.1[k],
        forall|k: int| 0 <= k < n ==> #[trigger] a.2[k] == b.2[k],
    ensures
        complaints(a.0, a.1, a.2, n) == complaints(b.0, b.1, b.2, n),
    decreases n,
{
    if n > 0 {
        lemma_more_complaints(a, b, n - 1);
        assert(a.0[n - 1] == b.0[n - 1]);
        assert(a.1[n - 1] == b.1[n - 1]);
        assert(a.2[n - 1] == b.2[n - 1]);
    }
}

/// Sizes are compared in order: one more pair of sizes adds one complaint behind the others where
/// the two differ, with the name, the configured size and the size of the model, and none where
/// they agree.
pub proof fn law_complaints(
    names: Seq<Seq<char>>,
    config: Seq<int>,
    constants: Seq<int>,
    name: Seq<char>,
    a: int,
    b: int,
)
    requires
        config.len() == names.len(),
        constants.len() == names.len(),
    ensures
        ({
            let n = names.len() as int;
            let before = complaints(names, config, constants, n);
            complaints(names.push(name), config.push(a), constants.push(b), n + 1) == if a == b {
                before
            } else {
                before.push(name + ": config="@ + decimal(a) + ", const="@ + decimal(b))
            }
        }),
{
    lemma_more_complaints(
        (names.push(name), config.push(a), constants.push(b)),
        (names, config, constants),
        names.len() as int,
    );
}

/// Where exactly one size differs, the comparison fails and says which one, with the configured
/// size before that of the model. Where none differs, it succeeds.
pub proof fn law_one_difference(
    config: Seq<usize>,
    constants: Seq<usize>,
    i: int,
    r: Result<(), String>,
)
    requires
        config.len() == 14,
        constants.len() == 14,
        0 <= i < 14,
        forall|k: int| 0 <= k < 14 && k != i ==> #[trigger] config[k] == constants[k],
        agreement(sizes(config), sizes(constants), r),
    ensures
        r is Ok <==> config[i] == constants[i],
        r matches Err(e) ==> e@ == size_names()[i] + ": config="@ + decimal(config[i] as int)
            + ", const="@ + decimal(constants[i] as int),
{
    let (a, b) = (sizes(config), sizes(constants));
    assert forall|k: int| 0 <= k < 14 && k != i implies #[trigger] a[k] == b[k] by {
        assert(config[k] == constants[k]);
    }
    assert(a[i] == config[i] && b[i] == constants[i]);
    if r is Err {
        lemma_complaints(size_names(), a, b, i, 14);
        let all = complaints(size_names(), a, b, 14);
        assert(joined(all, "; "@, 1) == all[0]);
    } else {
        assert(a[i] == b[i]);
    }
}

} // verus!
