//! The order of work when text is generated, and when a list of tokens is run.

use vstd::prelude::*;

verus! {

/// The token that ends a message.
pub const EOS_TOKEN_1: usize = 248046;

/// The token that ends a text.
pub const EOS_TOKEN_2: usize = 248044;

/// A token ends the generation.
pub open spec fn ends(t: usize) -> bool {
    t == EOS_TOKEN_1 || t == EOS_TOKEN_2
}

/// What is to be done next.
#[derive(Clone, Copy, PartialEq, Eq, Structural, Debug)]
pub enum GenAction {
    /// Run a token of the prompt, given by its place, through all layers.
    RunPrompt(usize),
    /// Compute the logits and pick the best token.
    Logits,
    /// Send the text of a token.
    Emit(usize),
    /// Run a token that was sent through all layers.
    RunToken(usize),
    /// Run the token that ends the generation through all layers.
    RunLast(usize),
    /// Say that the generation is over.
    Finish,
}

/// What has happened.
#[derive(Clone, Copy, PartialEq, Eq, Structural, Debug)]
pub enum GenEvent {
    /// A token went through all layers.
    Ran,
    /// The best token.
    Token(usize),
    /// Text was sent, or could not be sent.
    Sent(bool),
}

/// A generation: its limits, the next action, the position of the next token, the number of tokens
/// that were sent, and the number of tokens that were considered.
#[derive(Clone, Copy)]
pub struct Generation {
    pub prompt_len: usize,
    pub max_tokens: usize,
    pub action: GenAction,
    pub pos: usize,
    pub gen_count: usize,
    pub rounds: usize,
}

/// A generation at its start.
pub open spec fn gen_start(prompt_len: usize, max_tokens: usize) -> Generation {
    Generation {
        prompt_len,
        max_tokens,
        action: if prompt_len > 0 {
            GenAction::RunPrompt(0)
        } else {
            GenAction::Logits
        },
        pos: 0,
        gen_count: 0,
        rounds: 0,
    }
}

/// A generation after an event. The tokens of the prompt run one after the other. Then, as long as
/// fewer tokens than the limit were considered, the best token is considered: one that ends the
/// generation is run and no position is taken for it; any other is sent, and run where it could be
/// sent. An event that does not belong to the action changes nothing.
pub open spec fn gen_after(g: Generation, e: GenEvent) -> Generation {
    match (g.action, e) {
        (GenAction::RunPrompt(i), GenEvent::Ran) => Generation {
            action: if i + 1 < g.prompt_len {
                GenAction::RunPrompt((i + 1) as usize)
            } else {
                GenAction::Logits
            },
            pos: (g.pos + 1) as usize,
            ..g
        },
        (GenAction::Logits, GenEvent::Token(t)) => if g.rounds >= g.max_tokens {
            Generation { action: GenAction::Finish, ..g }
        } else {
            Generation {
                action: if ends(t) {
                    GenAction::RunLast(t)
                } else {
                    GenAction::Emit(t)
                },
                rounds: (g.rounds + 1) as usize,
                ..g
            }
        },
        (GenAction::Emit(t), GenEvent::Sent(ok)) => if ok {
            Generation {
                action: GenAction::RunToken(t),
                gen_count: (g.gen_count + 1) as usize,
                ..g
            }
        } else {
            Generation { action: GenAction::Finish, ..g }
        },
        (GenAction::RunToken(_), GenEvent::Ran) => Generation {
            action: GenAction::Logits,
            pos: (g.pos + 1) as usize,
            ..g
        },
        (GenAction::RunLast(_), GenEvent::Ran) => Generation { action: GenAction::Finish, ..g },
        _ => g,
    }
}

impl Generation {
    /// A generation at its start.
    pub fn start(prompt_len: usize, max_tokens: usize) -> (r: Generation)
        ensures
            r == gen_start(prompt_len, max_tokens),
    {
        Generation {
            prompt_len,
            max_tokens,
            action: if prompt_len > 0 {
                GenAction::RunPrompt(0)
            } else {
                GenAction::Logits
            },
            pos: 0,
            gen_count: 0,
            rounds: 0,
        }
    }

    /// Takes an event in.
    pub fn step(&mut self, e: GenEvent)
        requires
            old(self).pos < usize::MAX,
            old(self).gen_count < usize::MAX,
        ensures
            *final(self) == gen_after(*old(self), e),
    {
        match (self.action, e) {
            (GenAction::RunPrompt(i), GenEvent::Ran) => {
                self.action = if i < self.prompt_len && i + 1 < self.prompt_len {
                    GenAction::RunPrompt(i + 1)
                } else {
                    GenAction::Logits
                };
                self.pos = self.pos + 1;
            },
            (GenAction::Logits, GenEvent::Token(t)) => {
                if self.rounds >= self.max_tokens {
                    self.action = GenAction::Finish;
                } else {
                    self.rounds = self.rounds + 1;
                    self.action = if t == EOS_TOKEN_1 || t == EOS_TOKEN_2 {
                        GenAction::RunLast(t)
                    } else {
                        GenAction::Emit(t)
                    };
                }
            },
            (GenAction::Emit(t), GenEvent::Sent(ok)) => {
                if ok {
                    self.gen_count = self.gen_count + 1;
                    self.action = GenAction::RunToken(t);
                } else {
                    self.action = GenAction::Finish;
                }
            },
            (GenAction::RunToken(_), GenEvent::Ran) => {
                self.action = GenAction::Logits;
                self.pos = self.pos + 1;
            },
            (GenAction::RunLast(_), GenEvent::Ran) => {
                self.action = GenAction::Finish;
            },
            _ => {},
        }
    }
}

/// The generation after the first `n` events.
pub open spec fn gen_run(g: Generation, events: Seq<GenEvent>, n: int) -> Generation
    decreases n,
{
    if n <= 0 {
        g
    } else {
        gen_after(gen_run(g, events, n - 1), events[n - 1])
    }
}

/// What holds of every generation: sent tokens and considered tokens stay within the limit, only
/// tokens that do not end the generation are sent or run behind the prompt, and the position is
/// the number of tokens that were run before.
pub open spec fn gen_inv(g: Generation) -> bool {
    &&& g.gen_count <= g.rounds <= g.max_tokens
    &&& match g.action {
        GenAction::RunPrompt(i) => i < g.prompt_len && g.pos == i && g.rounds == 0,
        GenAction::Logits => g.pos == g.prompt_len + g.gen_count && g.rounds == g.gen_count,
        GenAction::Emit(t) => !ends(t) && g.pos == g.prompt_len + g.gen_count && g.rounds
            == g.gen_count + 1,
        GenAction::RunToken(t) => !ends(t) && g.pos + 1 == g.prompt_len + g.gen_count && g.rounds
            == g.gen_count,
        GenAction::RunLast(t) => ends(t) && g.pos == g.prompt_len + g.gen_count && g.rounds
            == g.gen_count + 1,
        GenAction::Finish => g.pos == g.prompt_len + g.gen_count,
    }
}

/// A generation never sends more tokens than its limit, never sends a token that ends it, and runs
/// each token at the position behind all tokens before it.
pub proof fn law_generation(prompt_len: usize, max_tokens: usize, events: Seq<GenEvent>, n: int)
    requires
        0 <= n <= events.len(),
        prompt_len + max_tokens <= usize::MAX,
    ensures
        gen_inv(gen_run(gen_start(prompt_len, max_tokens), events, n)),
        gen_run(gen_start(prompt_len, max_tokens), events, n).prompt_len == prompt_len,
        gen_run(gen_start(prompt_len, max_tokens), events, n).max_tokens == max_tokens,
    decreases n,
{
    if n > 0 {
        law_generation(prompt_len, max_tokens, events, n - 1);
    }
}

/// A generation that is over stays as it is.
pub proof fn law_finish_is_final(g: Generation, e: GenEvent)
    requires
        g.action == GenAction::Finish,
    ensures
        gen_after(g, e) == g,
{
}

/// What an engine does next with a list of tokens.
#[derive(Clone, Copy, PartialEq, Eq, Structural, Debug)]
pub enum RunAction {
    /// Look up a token, given by its place.
    Embed(usize),
    /// Ask, before a layer, whether to stop.
    CheckSignal(usize),
    /// Run a layer.
    Layer(usize),
    /// Move to the next position and compute the logits of a token, given by its place.
    Logits(usize),
    /// All tokens are done.
    Done,
    /// The run was stopped.
    Interrupted,
}

/// A run of tokens through the layers.
#[derive(Clone, Copy)]
pub struct Run {
    pub tokens: usize,
    pub layers: usize,
    pub token: usize,
    pub action: RunAction,
}

/// The action before layer `l` of a token: before every fourth layer the engine asks whether to
/// stop; behind the last layer come the logits.
pub open spec fn before_layer(token: usize, l: int, layers: int) -> RunAction {
    if l >= layers {
        RunAction::Logits(token)
    } else if l % 4 == 0 {
        RunAction::CheckSignal(l as usize)
    } else {
        RunAction::Layer(l as usize)
    }
}

/// The action before a token: done where there is none left.
pub open spec fn before_token(token: int, tokens: int) -> RunAction {
    if token >= tokens {
        RunAction::Done
    } else {
        RunAction::Embed(token as usize)
    }
}

/// A run at its start.
pub open spec fn run_start(tokens: usize, layers: usize) -> Run {
    Run { tokens, layers, token: 0, action: before_token(0, tokens as int) }
}

/// A run after its action is done; `stop` is the answer where the engine asked.
pub open spec fn run_after(r: Run, stop: bool) -> Run {
    match r.action {
        RunAction::Embed(_) => Run { action: before_layer(r.token, 0, r.layers as int), ..r },
        RunAction::CheckSignal(l) => Run {
            action: if stop {
                RunAction::Interrupted
            } else {
                RunAction::Layer(l)
            },
            ..r
        },
        RunAction::Layer(l) => Run { action: before_layer(r.token, l + 1, r.layers as int), ..r },
        RunAction::Logits(_) => Run {
            token: (r.token + 1) as usize,
            action: before_token(r.token + 1, r.tokens as int),
            ..r
        },
        _ => r,
    }
}

fn action_before_layer(token: usize, l: usize, layers: usize) -> (r: RunAction)
    ensures
        r == before_layer(token, l as int, layers as int),
{
    if l >= layers {
        RunAction::Logits(token)
    } else if l % 4 == 0 {
        RunAction::CheckSignal(l)
    } else {
        RunAction::Layer(l)
    }
}

impl Run {
    /// A run at its start.
    pub fn start(tokens: usize, layers: usize) -> (r: Run)
        ensures
            r == run_start(tokens, layers),
    {
        Run {
            tokens,
            layers,
            token: 0,
            action: if tokens == 0 {
                RunAction::Done
            } else {
                RunAction::Embed(0)
            },
        }
    }

    /// Notes that the action is done.
    pub fn step(&mut self, stop: bool)
        requires
            old(self).token < usize::MAX,
            old(self).action matches RunAction::Layer(l) ==> l < usize::MAX,
        ensures
            *final(self) == run_after(*old(self), stop),
    {
        match self.action {
            RunAction::Embed(_) => {
                self.action = action_before_layer(self.token, 0, self.layers);
            },
            RunAction::CheckSignal(l) => {
                self.action = if stop {
                    RunAction::Interrupted
                } else {
                    RunAction::Layer(l)
                };
            },
            RunAction::Layer(l) => {
                self.action = action_before_layer(self.token, l + 1, self.layers);
            },
            RunAction::Logits(_) => {
                self.token = self.token + 1;
                self.action = if self.token >= self.tokens {
                    RunAction::Done
                } else {
                    RunAction::Embed(self.token)
                };
            },
            _ => {},
        }
    }
}

/// A run after `n` actions, none of which stopped it.
pub open spec fn run_on(r: Run, n: int) -> Run
    decreases n,
{
    if n <= 0 {
        r
    } else {
        run_after(run_on(r, n - 1), false)
    }
}

/// The actions from the first layer of a token up to layer `l`: the layers before it, and one
/// question before every fourth of them.
pub open spec fn actions_to(l: int) -> int {
    l + (l + 3) / 4
}

/// A token goes through all layers in order, each once, with one question before every fourth
/// layer and none else, and then its logits are computed.
pub proof fn law_layers_in_order(r: Run, l: int)
    requires
        r.action == RunAction::Embed(r.token),
        0 <= l <= r.layers,
    ensures
        run_on(r, 1 + actions_to(l)) == (Run {
            action: before_layer(r.token, l, r.layers as int),
            ..r
        }),
        l < r.layers ==> run_on(
            r,
            1 + actions_to(l) + if l % 4 == 0 {
                1int
            } else {
                0int
            },
        ) == (Run { action: RunAction::Layer(l as usize), ..r }),
    decreases l,
{
    let n = 1 + actions_to(l);
    if l > 0 {
        let m = l - 1;
        law_layers_in_order(r, m);
        let a = 1 + actions_to(m) + if m % 4 == 0 {
            1int
        } else {
            0int
        };
        assert(a + 1 == n);
        assert(run_on(r, n) == run_after(run_on(r, a), false));
    } else {
        assert(run_on(r, 0) == r);
        assert(run_on(r, 1) == run_after(run_on(r, 0), false));
    }
    if l < r.layers && l % 4 == 0 {
        assert(run_on(r, n + 1) == run_after(run_on(r, n), false));
    }
}

/// After its logits, a token makes way for the next, and the run is done behind the last.
pub proof fn law_tokens_in_order(r: Run)
    requires
        r.action == RunAction::Embed(r.token),
        r.token < r.tokens,
    ensures
        run_on(r, 2 + actions_to(r.layers as int)) == (Run {
            token: (r.token + 1) as usize,
            action: before_token(r.token + 1, r.tokens as int),
            ..r
        }),
{
    let n = 1 + actions_to(r.layers as int);
    law_layers_in_order(r, r.layers as int);
    assert(run_on(r, n + 1) == run_after(run_on(r, n), false));
}

/// A run after as many actions as there are answers; an answer counts only where the engine asked.
pub open spec fn run_with(r: Run, answers: Seq<bool>) -> Run
    decreases answers.len(),
{
    if answers.len() == 0 {
        r
    } else {
        run_after(run_with(r, answers.drop_last()), answers.last())
    }
}

/// How often a run moved to the next position.
pub open spec fn moves(r: Run, answers: Seq<bool>) -> int
    decreases answers.len(),
{
    if answers.len() == 0 {
        0
    } else {
        moves(r, answers.drop_last()) + if run_with(r, answers.drop_last()).action is Logits {
            1int
        } else {
            0int
        }
    }
}

/// Whatever the answers, a run has moved on by one position for each token that it finished: by
/// all tokens where it is done, and by those before the token it was at where it was stopped. It
/// is stopped only by an answer, and a run without tokens is done before its first action.
pub proof fn law_position(tokens: usize, layers: usize, answers: Seq<bool>)
    ensures
        ({
            let r = run_with(run_start(tokens, layers), answers);
            &&& r.tokens == tokens && r.layers == layers
            &&& r.token == moves(run_start(tokens, layers), answers)
            &&& r.action is Done <==> r.token == tokens
            &&& r.token <= tokens
            &&& r.action is Interrupted ==> exists|i: int|
                0 <= i < answers.len() && #[trigger] answers[i]
        }),
    decreases answers.len(),
{
    if answers.len() > 0 {
        law_position(tokens, layers, answers.drop_last());
        let before = run_with(run_start(tokens, layers), answers.drop_last());
        if before.action is Interrupted {
            let i = choose|i: int|
                0 <= i < answers.drop_last().len() && #[trigger] answers.drop_last()[i];
            assert(answers[i]);
        } else if before.action is CheckSignal && answers.last() {
            assert(answers[answers.len() - 1]);
        }
    }
}

/// The order of a generation, over a place `i` of the prompt and a token `t`. The tokens of the
/// prompt run in order, each once, and behind the last of them a token is picked. A token is sent
/// exactly where it was just found to be the best, the limit is not reached and it does not end the
/// generation; behind the prompt it is run exactly where it was sent, and then another is picked. A
/// token that ends the generation is run and never sent. The position moves by one for each token
/// that was run, except the one that ends the generation, and the count by one for each that was
/// sent.
pub proof fn law_generation_order(g: Generation, e: GenEvent, i: usize, t: usize)
    requires
        gen_inv(g),
        g.prompt_len + g.max_tokens < usize::MAX,
    ensures
        ({
            let h = gen_after(g, e);
            let last = t == 248046 || t == 248044;
            let picked = g.action == GenAction::Logits && e == GenEvent::Token(t) && g.rounds
                < g.max_tokens;
            let ran = e == GenEvent::Ran;
            &&& h.action == GenAction::RunPrompt(i) && g.action != h.action <==> ran && 0 < i
                < g.prompt_len && g.action == GenAction::RunPrompt((i - 1) as usize)
            &&& h.action == GenAction::Emit(t) && g.action != h.action <==> picked && !last
            &&& h.action == GenAction::RunLast(t) && g.action != h.action <==> picked && last
            &&& h.action == GenAction::RunToken(t) && g.action != h.action <==> g.action
                == GenAction::Emit(t) && e == GenEvent::Sent(true)
            &&& h.action == GenAction::Logits && g.action != h.action <==> ran && (g.action
                is RunToken || g.prompt_len > 0 && g.action == GenAction::RunPrompt(
                (g.prompt_len - 1) as usize,
            ))
            &&& h.action == GenAction::Finish && g.action != h.action <==> {
                ||| g.action == GenAction::Logits && e is Token && g.rounds == g.max_tokens
                ||| g.action is Emit && e == GenEvent::Sent(false)
                ||| g.action is RunLast && ran
            }
            &&& h.pos == g.pos + if ran && (g.action is RunPrompt || g.action is RunToken) {
                1int
            } else {
                0int
            }
            &&& h.gen_count == g.gen_count + if g.action is Emit && e == GenEvent::Sent(true) {
                1int
            } else {
                0int
            }
            &&& h.prompt_len == g.prompt_len && h.max_tokens == g.max_tokens
        }),
{
}

/// At its start a generation runs the first token of the prompt, or picks a token where there is
/// no prompt; nothing was sent yet.
pub proof fn law_generation_start(prompt_len: usize, max_tokens: usize)
    ensures
        ({
            let g = gen_start(prompt_len, max_tokens);
            &&& g.action == (if prompt_len > 0 {
                GenAction::RunPrompt(0)
            } else {
                GenAction::Logits
            })
            &&& g.pos == 0 && g.gen_count == 0 && g.rounds == 0
            &&& g.prompt_len == prompt_len && g.max_tokens == max_tokens
        }),
{
}

} // verus!
