//! Chat requests: what a request asks for, and the prompt made from its messages.

use crate::generate::{Generation, gen_start};
use crate::http::{
    EMPTY_PROMPT_RESPONSE, INVALID_JSON_RESPONSE, MISSING_MODEL_RESPONSE, body_of, request_body,
};
use crate::json::{
    json_error, json_fault, json_number, json_number_of, json_pairs, json_pairs_of, json_text,
    json_text_of, pair_views, text_view,
};
use vstd::prelude::*;
use vstd::string::*;

verus! {

/// A message: who speaks, and what.
pub struct Message {
    pub role: String,
    pub content: String,
}

/// Roles and contents.
pub open spec fn message_views(v: Seq<Message>) -> Seq<(Seq<char>, Seq<char>)> {
    Seq::new(v.len(), |i: int| (v[i].role@, v[i].content@))
}

/// A chat request.
pub struct ChatRequest {
    pub model: String,
    pub max_tokens: usize,
    pub messages: Vec<Message>,
}

/// The prompt of the system and of the first `n` messages.
pub open spec fn prompt_start(m: Seq<(Seq<char>, Seq<char>)>, n: int) -> Seq<char>
    decreases n,
{
    if n <= 0 {
        "<|im_start|>system\n"@ + "You are a helpful assistant. /think"@ + "<|im_end|>\n"@
    } else {
        prompt_start(m, n - 1) + "<|im_start|>"@ + m[n - 1].0 + "\n"@ + m[n - 1].1
            + "<|im_end|>\n"@
    }
}

/// The prompt for messages: the system message, the messages, and the start of the answer.
pub open spec fn prompt_of(m: Seq<(Seq<char>, Seq<char>)>) -> Seq<char> {
    prompt_start(m, m.len() as int) + "<|im_start|>assistant\n<think>\n"@
}

/// Makes the prompt for messages.
pub fn chat_prompt(messages: &Vec<Message>) -> (r: String)
    ensures
        r@ == prompt_of(message_views(messages@)),
{
    let mut s: String = "<|im_start|>system\n".to_owned();
    s.append("You are a helpful assistant. /think");
    s.append("<|im_end|>\n");
    for i in 0..messages.len()
        invariant
            s@ == prompt_start(message_views(messages@), i as int),
    {
        s.append("<|im_start|>");
        s.append(messages[i].role.as_str());
        s.append("\n");
        s.append(messages[i].content.as_str());
        s.append("<|im_end|>\n");
    }
    s.append("<|im_start|>assistant\n<think>\n");
    s
}

/// A message from its fields: a message without a role is the user's, one without a content is
/// empty.
pub open spec fn message_of(f: (Option<Seq<char>>, Option<Seq<char>>)) -> (Seq<char>, Seq<char>) {
    (
        match f.0 {
            Some(r) => r,
            None => "user"@,
        },
        match f.1 {
            Some(c) => c,
            None => Seq::empty(),
        },
    )
}

/// The messages from their fields; none where there is no list.
pub open spec fn messages_of(f: Option<Seq<(Option<Seq<char>>, Option<Seq<char>>)>>) -> Seq<
    (Seq<char>, Seq<char>),
> {
    match f {
        Some(l) => Seq::new(l.len(), |i: int| message_of(l[i])),
        None => Seq::empty(),
    }
}

/// What a request asks for, or the response that refuses it: a body that is not valid comes first,
/// then a model without a name.
pub open spec fn chat_result(
    fault: Option<Seq<char>>,
    model: Option<Seq<char>>,
    max_tokens: Option<u64>,
    fields: Option<Seq<(Option<Seq<char>>, Option<Seq<char>>)>>,
    r: Result<ChatRequest, &'static str>,
) -> bool {
    match r {
        Err(e) => if fault is Some {
            e@ == INVALID_JSON_RESPONSE@
        } else {
            &&& model is None || model->0.len() == 0
            &&& e@ == MISSING_MODEL_RESPONSE@
        },
        Ok(q) => {
            &&& fault is None
            &&& model == Some(q.model@)
            &&& q.model@.len() > 0
            &&& q.max_tokens == match max_tokens {
                Some(n) => n as usize,
                None => 1024,
            }
            &&& message_views(q.messages@) == messages_of(fields)
        },
    }
}

fn messages_from(fields: Option<Vec<(Option<String>, Option<String>)>>) -> (r: Vec<Message>)
    ensures
        message_views(r@) == messages_of(
            match fields {
                Some(v) => Some(pair_views(v@)),
                None => None,
            },
        ),
{
    let mut out: Vec<Message> = Vec::new();
    match fields {
        None => {
            assert(message_views(out@) =~= Seq::empty());
        },
        Some(v) => {
            let ghost target = messages_of(Some(pair_views(v@)));
            for i in 0..v.len()
                invariant
                    target == messages_of(Some(pair_views(v@))),
                    out@.len() == i,
                    forall|k: int|
                        0 <= k < i ==> message_views(out@)[k] == #[trigger] target[k],
            {
                let role: String = match &v[i].0 {
                    Some(s) => s.clone(),
                    None => "user".to_owned(),
                };
                let content: String = match &v[i].1 {
                    Some(s) => s.clone(),
                    None => String::new(),
                };
                let ghost before = out@;
                proof {
                    reveal_strlit("");
                    assert(content@ =~= target[i as int].1);
                }
                out.push(Message { role, content });
                assert forall|k: int| 0 <= k < i + 1 implies message_views(out@)[k]
                    == #[trigger] target[k] by {
                    if k < i {
                        assert(message_views(out@)[k] == message_views(before)[k]);
                    }
                }
            }
            assert(message_views(out@) =~= target);
        },
    }
    out
}

/// What a request asks for, from the fields of its body.
pub fn chat_request_from(
    fault: Option<String>,
    model: Option<String>,
    max_tokens: Option<u64>,
    fields: Option<Vec<(Option<String>, Option<String>)>>,
) -> (r: Result<ChatRequest, &'static str>)
    ensures
        chat_result(
            text_view(fault),
            text_view(model),
            max_tokens,
            match fields {
                Some(v) => Some(pair_views(v@)),
                None => None,
            },
            r,
        ),
{
    if fault.is_some() {
        return Err(INVALID_JSON_RESPONSE);
    }
    match model {
        None => Err(MISSING_MODEL_RESPONSE),
        Some(name) => {
            if name.as_str().unicode_len() == 0 {
                return Err(MISSING_MODEL_RESPONSE);
            }
            let limit: usize = match max_tokens {
                Some(n) => n as usize,
                None => 1024,
            };
            Ok(ChatRequest { model: name, max_tokens: limit, messages: messages_from(fields) })
        },
    }
}

/// Reads a chat request from the text of an HTTP request; the error is the response that refuses
/// it.
pub fn chat_request(request: &str) -> (r: Result<ChatRequest, &'static str>)
    ensures
        ({
            let body = body_of(request@);
            chat_result(
                json_fault(body),
                json_text_of(body, "model"@),
                json_number_of(body, "max_tokens"@),
                json_pairs_of(body, "messages"@, "role"@, "content"@),
                r,
            )
        }),
{
    let body: String = request_body(request);
    let fault: Option<String> = json_error(body.as_str());
    let model: Option<String> = json_text(body.as_str(), "model");
    let max_tokens: Option<u64> = json_number(body.as_str(), "max_tokens");
    let fields: Option<Vec<(Option<String>, Option<String>)>> = json_pairs(
        body.as_str(),
        "messages",
        "role",
        "content",
    );
    chat_request_from(fault, model, max_tokens, fields)
}

/// Starts a generation once the prompt is tokenized; the error is the response that refuses a
/// prompt without tokens.
pub fn begin_generation(prompt_tokens: usize, max_tokens: usize) -> (r: Result<
    Generation,
    &'static str,
>)
    ensures
        match r {
            Ok(g) => prompt_tokens > 0 && g == gen_start(prompt_tokens, max_tokens),
            Err(e) => prompt_tokens == 0 && e@ == EMPTY_PROMPT_RESPONSE@,
        },
{
    if prompt_tokens == 0 {
        Err(EMPTY_PROMPT_RESPONSE)
    } else {
        Ok(Generation::start(prompt_tokens, max_tokens))
    }
}

/// A prompt begins with the system message and ends with the start of the answer, whatever the
/// messages are.
pub proof fn law_prompt_frame(m: Seq<(Seq<char>, Seq<char>)>)
    ensures
        ({
            let head = prompt_start(m, 0);
            let tail = "<|im_start|>assistant\n<think>\n"@;
            let p = prompt_of(m);
            &&& head.len() + tail.len() <= p.len()
            &&& p.take(head.len() as int) == head
            &&& p.skip(p.len() - tail.len()) == tail
        }),
{
    lemma_prompt_head(m, m.len() as int);
    let head = prompt_start(m, 0);
    let tail = "<|im_start|>assistant\n<think>\n"@;
    let p = prompt_of(m);
    assert(p.take(head.len() as int) =~= head) by {
        assert(prompt_start(m, m.len() as int).take(head.len() as int) =~= head);
    }
    assert(p.skip(p.len() - tail.len()) =~= tail);
}

proof fn lemma_prompt_head(m: Seq<(Seq<char>, Seq<char>)>, n: int)
    requires
        0 <= n,
    ensures
        prompt_start(m, 0).len() <= prompt_start(m, n).len(),
        prompt_start(m, n).take(prompt_start(m, 0).len() as int) == prompt_start(m, 0),
    decreases n,
{
    let head = prompt_start(m, 0);
    if n > 0 {
        lemma_prompt_head(m, n - 1);
        assert(prompt_start(m, n).take(head.len() as int) =~= prompt_start(m, n - 1).take(
            head.len() as int,
        ));
    } else {
        assert(head.take(head.len() as int) =~= head);
    }
}

proof fn lemma_prompt_prefix(a: Seq<Message>, m: Message, n: int)
    requires
        0 <= n <= a.len(),
    ensures
        prompt_start(message_views(a.push(m)), n) == prompt_start(message_views(a), n),
    decreases n,
{
    if n > 0 {
        lemma_prompt_prefix(a, m, n - 1);
        assert(message_views(a.push(m))[n - 1] == message_views(a)[n - 1]);
    }
}

/// Messages stand in the prompt in the order of the request: one more message at the end of the
/// list comes behind all others, with its role before its content, and before the start of the
/// answer.
pub proof fn law_prompt_order(messages: Seq<Message>, m: Message)
    ensures
        ({
            let close = "<|im_start|>assistant\n<think>\n"@;
            let p = prompt_of(message_views(messages));
            prompt_of(message_views(messages.push(m))) == p.take(p.len() - close.len())
                + "<|im_start|>"@ + m.role@ + "\n"@ + m.content@ + "<|im_end|>\n"@ + close
        }),
{
    let close = "<|im_start|>assistant\n<think>\n"@;
    let n = messages.len() as int;
    let v = message_views(messages);
    let p = prompt_of(v);
    lemma_prompt_prefix(messages, m, n);
    assert(p.take(p.len() - close.len()) =~= prompt_start(v, n));
    assert(message_views(messages.push(m))[n] == (m.role@, m.content@));
}

/// Without messages the prompt is the system message and the start of the answer.
pub proof fn law_prompt_without_messages()
    ensures
        prompt_of(message_views(Seq::empty()))
            == "<|im_start|>system\nYou are a helpful assistant. /think<|im_end|>\n<|im_start|>assistant\n<think>\n"@,
{
    reveal_strlit("<|im_start|>system\n");
    reveal_strlit("You are a helpful assistant. /think");
    reveal_strlit("<|im_end|>\n");
    reveal_strlit("<|im_start|>assistant\n<think>\n");
    reveal_strlit(
        "<|im_start|>system\nYou are a helpful assistant. /think<|im_end|>\n<|im_start|>assistant\n<think>\n",
    );
    assert(prompt_of(message_views(Seq::empty()))
        =~= "<|im_start|>system\nYou are a helpful assistant. /think<|im_end|>\n<|im_start|>assistant\n<think>\n"@);
}

/// What comes of a request: it is refused exactly where the body is not valid, or else where the
/// model has no name, each with its own response. Otherwise model, limit and messages are those of
/// the body, in its order: a message without a role is the user's, one without a content is empty,
/// and without a limit it is 1024.
pub proof fn law_chat_request(
    fault: Option<Seq<char>>,
    model: Option<Seq<char>>,
    max_tokens: Option<u64>,
    fields: Option<Seq<(Option<Seq<char>>, Option<Seq<char>>)>>,
    r: Result<ChatRequest, &'static str>,
)
    requires
        chat_result(fault, model, max_tokens, fields, r),
    ensures
        r is Err <==> fault is Some || model is None || model->0.len() == 0,
        r matches Err(e) ==> e@ == if fault is Some {
            INVALID_JSON_RESPONSE@
        } else {
            MISSING_MODEL_RESPONSE@
        },
        r matches Ok(q) ==> {
            &&& model == Some(q.model@)
            &&& q.max_tokens == match max_tokens {
                Some(n) => n as usize,
                None => 1024,
            }
            &&& q.messages@.len() == match fields {
                Some(f) => f.len(),
                None => 0,
            }
            &&& forall|i: int|
                0 <= i < q.messages@.len() ==> (#[trigger] q.messages@[i]).role@
                    == match fields->0[i].0 {
                    Some(s) => s,
                    None => "user"@,
                }
            &&& forall|i: int|
                0 <= i < q.messages@.len() ==> (#[trigger] q.messages@[i]).content@
                    == match fields->0[i].1 {
                    Some(s) => s,
                    None => Seq::empty(),
                }
        },
{
    if let Ok(q) = r {
        let (v, m) = (message_views(q.messages@), messages_of(fields));
        assert(v.len() == q.messages@.len());
        assert forall|i: int| 0 <= i < q.messages@.len() implies (#[trigger] q.messages@[i]).role@
            == m[i].0 && q.messages@[i].content@ == m[i].1 by {
            assert(v[i] == m[i]);
        }
    }
}

} // verus!
