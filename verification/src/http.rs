//! Requests and responses of the server.

use crate::chars::{
    chars_of, drop_spaces, end_of_word, find, find_char, parse_number, parsed, skip_space,
    skip_spaces, text_of, trim_end, word_end,
};
use crate::text::{decimal, join, joined, push_decimal, same_text, views};
use vstd::prelude::*;
use vstd::string::*;
use vstd::utf8::{decode_utf8, valid_utf8};

verus! {

/// The most bytes that the head of a request may have.
pub const MAX_HEAD: usize = 1048576;

/// The bytes end with an empty line.
pub open spec fn head_ends(b: Seq<u8>) -> bool {
    let n = b.len() as int;
    &&& n >= 4
    &&& b[n - 4] == 13
    &&& b[n - 3] == 10
    &&& b[n - 2] == 13
    &&& b[n - 1] == 10
}

/// What follows after a byte of the head was read.
#[derive(Clone, Copy, PartialEq, Eq, Structural, Debug)]
pub enum HeadStatus {
    /// The head is complete.
    Complete,
    /// The head is too large.
    TooLarge,
    /// One more byte is to be read.
    More,
}

/// What follows after the bytes so far.
pub open spec fn head_status(b: Seq<u8>) -> HeadStatus {
    if head_ends(b) {
        HeadStatus::Complete
    } else if b.len() > 1048576 {
        HeadStatus::TooLarge
    } else {
        HeadStatus::More
    }
}

/// Takes in a byte of the head. A head that is complete is taken whatever its size.
pub fn push_head_byte(buf: &mut Vec<u8>, byte: u8) -> (r: HeadStatus)
    ensures
        final(buf)@ == old(buf)@.push(byte),
        r == head_status(final(buf)@),
{
    buf.push(byte);
    let len: usize = buf.len();
    if len >= 4 && buf[len - 4] == 13 && buf[len - 3] == 10 && buf[len - 2] == 13 && buf[len - 1]
        == 10 {
        HeadStatus::Complete
    } else if len > MAX_HEAD {
        HeadStatus::TooLarge
    } else {
        HeadStatus::More
    }
}

/// What the standard library makes of bytes as text, with replacement characters for bytes that
/// are not valid.
pub uninterp spec fn lossy_text(b: Seq<u8>) -> Seq<char>;

/// Calls `String::from_utf8_lossy`. Bytes that are valid give the text that they encode; of other
/// bytes only that the result depends on them alone.
#[verifier::external_body]
pub(crate) fn utf8_lossy(b: &[u8]) -> (r: String)
    ensures
        r@ == lossy_text(b@),
        valid_utf8(b@) ==> r@ == decode_utf8(b@),
{
    String::from_utf8_lossy(b).into_owned()
}

/// The end of the line that begins at `i`, before the characters that end it.
pub open spec fn line_stop(s: Seq<char>, i: int) -> int {
    let e = find_char(s, i, '\n');
    if e < s.len() && e > i && s[e - 1] == '\r' {
        e - 1
    } else {
        e
    }
}

/// A character in lower case, as far as it is an ASCII letter.
pub open spec fn lower(c: char) -> char {
    if 'A' <= c <= 'Z' {
        (c as u32 + 32) as char
    } else {
        c
    }
}

/// The line from `i` up to `e` begins with a word, whatever the case of its letters.
pub open spec fn begins_with(s: Seq<char>, i: int, e: int, word: Seq<char>) -> bool {
    &&& i + word.len() <= e
    &&& forall|k: int| 0 <= k < word.len() ==> lower(s[i + k]) == #[trigger] word[k]
}

/// Where the first line from `i` on begins that carries the length of the body; the end where none
/// does.
pub open spec fn length_line(s: Seq<char>, i: int) -> int
    decreases s.len() - i,
{
    if i < 0 || i >= s.len() {
        s.len() as int
    } else if begins_with(s, i, line_stop(s, i), "content-length:"@) {
        i
    } else {
        let e = find_char(s, i, '\n');
        if e < i || e >= s.len() {
            s.len() as int
        } else {
            length_line(s, e + 1)
        }
    }
}

/// The length of the body that the head of a request announces: the number between the first colon
/// of the line and the next, without white space around it.
pub open spec fn announced_length(s: Seq<char>) -> Option<int> {
    let i = length_line(s, 0);
    if i >= s.len() {
        None
    } else {
        let stop = line_stop(s, i);
        let colon = find_char(s, i + 15, ':');
        let e = if colon < stop {
            colon
        } else {
            stop
        };
        let from = skip_to(s, i + 15, e);
        parsed(s, from, trim_end(s, from, e))
    }
}

/// The first place from `i` on that is not white space, up to `e`.
pub open spec fn skip_to(s: Seq<char>, i: int, e: int) -> int {
    let k = skip_space(s, i);
    if k < e {
        k
    } else {
        e
    }
}

fn lower_char(c: char) -> (r: char)
    ensures
        r == lower(c),
{
    if 'A' <= c && c <= 'Z' {
        ((c as u8) + 32) as char
    } else {
        c
    }
}

fn stop_of_line(c: &Vec<char>, i: usize) -> (r: usize)
    requires
        i <= c@.len(),
    ensures
        r == line_stop(c@, i as int),
        i <= r <= c@.len(),
{
    let e: usize = find(c, i, '\n');
    if e < c.len() && e > i && c[e - 1] == '\r' {
        e - 1
    } else {
        e
    }
}

fn line_begins(c: &Vec<char>, i: usize, e: usize, word: &Vec<char>) -> (r: bool)
    requires
        i <= e <= c@.len(),
    ensures
        r == begins_with(c@, i as int, e as int, word@),
{
    if word.len() > e - i {
        return false;
    }
    for k in 0..word.len()
        invariant
            i + word@.len() <= e <= c@.len(),
            forall|j: int| 0 <= j < k ==> lower(c@[i + j]) == #[trigger] word@[j],
    {
        if lower_char(c[i + k]) != word[k] {
            assert(lower(c@[i + k]) != word@[k as int]);
            return false;
        }
    }
    true
}

/// Reads the length of the body from the head of a request.
pub fn content_length(head: &str) -> (r: Option<usize>)
    ensures
        match r {
            Some(n) => announced_length(head@) == Some(n as int),
            None => announced_length(head@) is None,
        },
{
    let c: Vec<char> = chars_of(head);
    let word: Vec<char> = chars_of("content-length:");
    proof {
        reveal_strlit("content-length:");
    }
    let mut i: usize = 0;
    while i < c.len()
        invariant
            i <= c@.len(),
            c@ == head@,
            word@ == "content-length:"@,
            "content-length:"@.len() == 15,
            length_line(c@, 0) == length_line(c@, i as int),
        decreases c@.len() - i,
    {
        let stop: usize = stop_of_line(&c, i);
        if line_begins(&c, i, stop, &word) {
            let colon: usize = find(&c, i + 15, ':');
            let e: usize = if colon < stop {
                colon
            } else {
                stop
            };
            let k: usize = skip_spaces(&c, i + 15);
            let from: usize = if k < e {
                k
            } else {
                e
            };
            let to: usize = drop_spaces(&c, from, e);
            return parse_number(&c, from, to);
        }
        let e: usize = find(&c, i, '\n');
        if e == c.len() {
            i = e;
        } else {
            i = e + 1;
        }
    }
    None
}

/// Reads the length of the body from the bytes of the head of a request.
pub fn body_length(head: &[u8]) -> (r: Option<usize>)
    ensures
        match r {
            Some(n) => announced_length(lossy_text(head@)) == Some(n as int),
            None => announced_length(lossy_text(head@)) is None,
        },
        valid_utf8(head@) ==> match r {
            Some(n) => announced_length(decode_utf8(head@)) == Some(n as int),
            None => announced_length(decode_utf8(head@)) is None,
        },
{
    let text: String = utf8_lossy(head);
    content_length(text.as_str())
}

/// What a request asks for.
#[derive(Clone, Copy, PartialEq, Eq, Structural, Debug)]
pub enum Route {
    Options,
    Health,
    Models,
    Chat,
    NotFound,
}

/// The first word of the first line of a request.
pub open spec fn method_of(s: Seq<char>) -> Seq<char> {
    let line = s.subrange(0, line_stop(s, 0));
    let a = skip_space(line, 0);
    line.subrange(a, word_end(line, a))
}

/// The second word of the first line of a request.
pub open spec fn path_of(s: Seq<char>) -> Seq<char> {
    let line = s.subrange(0, line_stop(s, 0));
    let a = skip_space(line, word_end(line, skip_space(line, 0)));
    line.subrange(a, word_end(line, a))
}

/// What a method and a path ask for.
pub open spec fn route_of(method: Seq<char>, path: Seq<char>) -> Route {
    if method == "OPTIONS"@ {
        Route::Options
    } else if method == "GET"@ && path == "/health"@ {
        Route::Health
    } else if method == "GET"@ && path == "/v1/models"@ {
        Route::Models
    } else if method == "POST"@ && path == "/v1/chat/completions"@ {
        Route::Chat
    } else {
        Route::NotFound
    }
}

/// Finds what a request asks for.
pub fn request_route(request: &str) -> (r: Route)
    ensures
        r == route_of(method_of(request@), path_of(request@)),
{
    let c: Vec<char> = chars_of(request);
    let stop: usize = stop_of_line(&c, 0);
    let first: String = text_of(&c, 0, stop);
    let line: Vec<char> = chars_of(first.as_str());
    let a: usize = skip_spaces(&line, 0);
    let b: usize = end_of_word(&line, a);
    let method: String = text_of(&line, a, b);
    let d: usize = skip_spaces(&line, b);
    let e: usize = end_of_word(&line, d);
    let path: String = text_of(&line, d, e);
    let m: &str = method.as_str();
    let p: &str = path.as_str();
    if same_text(m, "OPTIONS") {
        Route::Options
    } else if same_text(m, "GET") && same_text(p, "/health") {
        Route::Health
    } else if same_text(m, "GET") && same_text(p, "/v1/models") {
        Route::Models
    } else if same_text(m, "POST") && same_text(p, "/v1/chat/completions") {
        Route::Chat
    } else {
        Route::NotFound
    }
}

/// The text of a request and what it asks for, from its bytes.
pub fn read_request(bytes: &[u8]) -> (r: (String, Route))
    ensures
        r.0@ == lossy_text(bytes@),
        valid_utf8(bytes@) ==> r.0@ == decode_utf8(bytes@),
        r.1 == route_of(method_of(r.0@), path_of(r.0@)),
{
    let text: String = utf8_lossy(bytes);
    let route: Route = request_route(text.as_str());
    (text, route)
}

/// Where the body of a request begins, looking from `i` on: behind the first empty line, and at the
/// start where there is none.
pub open spec fn body_from(s: Seq<char>, i: int) -> int
    decreases s.len() - i,
{
    if i < 0 || i + 4 > s.len() {
        0
    } else if s[i] == '\r' && s[i + 1] == '\n' && s[i + 2] == '\r' && s[i + 3] == '\n' {
        i + 4
    } else {
        body_from(s, i + 1)
    }
}

/// The body of a request.
pub open spec fn body_of(s: Seq<char>) -> Seq<char> {
    s.skip(body_from(s, 0))
}

/// The body of a request.
pub fn request_body(request: &str) -> (r: String)
    ensures
        r@ == body_of(request@),
{
    let c: Vec<char> = chars_of(request);
    let n: usize = c.len();
    let mut i: usize = 0;
    let mut start: usize = 0;
    let mut done: bool = false;
    while !done && i < n && n - i >= 4
        invariant
            n == c@.len(),
            i <= n,
            start <= n,
            !done ==> start == 0 && body_from(c@, 0) == body_from(c@, i as int),
            done ==> start == body_from(c@, 0),
        decreases n - i, (if done { 0int } else { 1int }),
    {
        if c[i] == '\r' && c[i + 1] == '\n' && c[i + 2] == '\r' && c[i + 3] == '\n' {
            start = i + 4;
            done = true;
        } else {
            i = i + 1;
        }
    }
    assert(start == body_from(c@, 0));
    assert(c@.subrange(start as int, n as int) =~= c@.skip(start as int));
    text_of(&c, start, n)
}

/// The head of a response that streams events.
pub const SSE_HEADERS: &'static str = "HTTP/1.1 200 OK\r\nContent-Type: text/event-stream\r\nCache-Control: no-cache\r\nConnection: close\r\nAccess-Control-Allow-Origin: *\r\n\r\n";

/// The response to a question for the allowed methods.
pub const CORS_RESPONSE: &'static str = "HTTP/1.1 204 No Content\r\nAccess-Control-Allow-Origin: *\r\nAccess-Control-Allow-Methods: GET, POST, OPTIONS\r\nAccess-Control-Allow-Headers: Content-Type, Authorization\r\nAccess-Control-Max-Age: 86400\r\n\r\n";

/// The response to a question whether the server is well.
pub const HEALTH_RESPONSE: &'static str = "HTTP/1.1 200 OK\r\nContent-Type: application/json\r\nConnection: close\r\n\r\n{\"status\":\"ok\"}\n";

/// The response to a request that asks for nothing known.
pub const NOT_FOUND_RESPONSE: &'static str = "HTTP/1.1 404 Not Found\r\nContent-Type: application/json\r\nAccess-Control-Allow-Origin: *\r\nConnection: close\r\n\r\n{\"error\":\"not found\"}\n";

/// The response to a request whose body is not valid.
pub const INVALID_JSON_RESPONSE: &'static str = "HTTP/1.1 400 Bad Request\r\nContent-Type: application/json\r\nConnection: close\r\n\r\n{\"error\":\"invalid json\"}\n";

/// The response to a request that names no model.
pub const MISSING_MODEL_RESPONSE: &'static str = "HTTP/1.1 400 Bad Request\r\nContent-Type: application/json\r\nConnection: close\r\n\r\n{\"error\":\"missing model\"}\n";

/// The response to a request whose prompt has no tokens.
pub const EMPTY_PROMPT_RESPONSE: &'static str = "HTTP/1.1 400 Bad Request\r\nContent-Type: application/json\r\nConnection: close\r\n\r\n{\"error\":\"empty prompt\"}\n";

/// What comes before the message in a response that reports an error of the server.
pub const SERVER_ERROR_HEAD: &'static str = "HTTP/1.1 500 Internal Server Error\r\nContent-Type: application/json\r\nConnection: close\r\n\r\n{\"error\":\"";

/// The response that reports an error of the server.
pub fn server_error(message: &str) -> (r: String)
    ensures
        r@ == SERVER_ERROR_HEAD@ + message@ + "\"}\n"@,
{
    let mut s: String = SERVER_ERROR_HEAD.to_owned();
    s.append(message);
    s.append("\"}\n");
    s
}

/// The response for a model that cannot be loaded.
pub fn load_error(model: &str, error: &str) -> (r: String)
    ensures
        r@ == SERVER_ERROR_HEAD@ + ("failed to load model "@ + model@ + ": "@ + error@)
            + "\"}\n"@,
{
    let mut m: String = "failed to load model ".to_owned();
    m.append(model);
    m.append(": ");
    m.append(error);
    server_error(m.as_str())
}

/// A model in the list of models.
pub open spec fn model_entry(name: Seq<char>) -> Seq<char> {
    "{\"id\":\""@ + name + "\",\"object\":\"model\"}"@
}

/// The models in the list of models.
pub open spec fn model_entries(names: Seq<Seq<char>>) -> Seq<Seq<char>> {
    Seq::new(names.len(), |i: int| model_entry(names[i]))
}

/// The response that lists the models.
pub open spec fn models_text(names: Seq<Seq<char>>) -> Seq<char> {
    "HTTP/1.1 200 OK\r\nContent-Type: application/json\r\nConnection: close\r\n\r\n"@
        + ("{\"object\":\"list\",\"data\":["@ + joined(
        model_entries(names),
        ","@,
        names.len() as int,
    ) + "]}"@) + "\n"@
}

/// The response that lists the models.
pub fn models_response(names: &Vec<String>) -> (r: String)
    ensures
        r@ == models_text(views(names@)),
{
    let mut entries: Vec<String> = Vec::new();
    for i in 0..names.len()
        invariant
            views(entries@) == model_entries(views(names@)).take(i as int),
    {
        let mut e: String = "{\"id\":\"".to_owned();
        e.append(names[i].as_str());
        e.append("\",\"object\":\"model\"}");
        let ghost before = entries@;
        let ghost target = model_entries(views(names@));
        assert(e@ == target[i as int]);
        assert(views(before).len() == before.len());
        entries.push(e);
        assert forall|k: int| 0 <= k < i + 1 implies views(entries@)[k] == target.take(i + 1)[k] by {
            if k < i {
                assert(views(entries@)[k] == views(before)[k]);
                assert(views(before)[k] == target.take(i as int)[k]);
            }
        }
        assert(views(entries@) =~= target.take(i + 1));
    }
    assert(model_entries(views(names@)).take(names@.len() as int) =~= model_entries(
        views(names@),
    ));
    assert(views(entries@).len() == entries@.len());
    let list: String = join(&entries, ",");
    let mut json: String = "{\"object\":\"list\",\"data\":[".to_owned();
    json.append(list.as_str());
    json.append("]}");
    let mut s: String =
        "HTTP/1.1 200 OK\r\nContent-Type: application/json\r\nConnection: close\r\n\r\n".to_owned();
    s.append(json.as_str());
    s.append("\n");
    s
}

/// The identifier of a request.
pub fn request_id(n: u64) -> (r: String)
    ensures
        r@ == "req-"@ + decimal(n as int),
{
    let mut s: String = "req-".to_owned();
    push_decimal(&mut s, n);
    s
}

/// A character inside a quoted text.
pub open spec fn escaped_char(c: char) -> Seq<char> {
    if c == '\\' {
        seq!['\\', '\\']
    } else if c == '"' {
        seq!['\\', '"']
    } else if c == '\n' {
        seq!['\\', 'n']
    } else if c == '\r' {
        seq!['\\', 'r']
    } else if c == '\t' {
        seq!['\\', 't']
    } else {
        seq![c]
    }
}

/// The first `n` characters inside a quoted text.
pub open spec fn escaped(s: Seq<char>, n: int) -> Seq<char>
    decreases n,
{
    if n <= 0 {
        Seq::empty()
    } else {
        escaped(s, n - 1) + escaped_char(s[n - 1])
    }
}

/// A text inside quotes: backslash, quote, line feed, carriage return and tab are escaped.
pub fn escape(s: &str) -> (r: String)
    ensures
        r@ == escaped(s@, s@.len() as int),
{
    let c: Vec<char> = chars_of(s);
    let mut out: String = String::new();
    proof {
        reveal_strlit("");
    }
    for i in 0..c.len()
        invariant
            c@ == s@,
            out@ == escaped(s@, i as int),
    {
        let x: char = c[i];
        let ghost before = out@;
        if x == '\\' {
            out.push('\\');
            out.push('\\');
        } else if x == '"' {
            out.push('\\');
            out.push('"');
        } else if x == '\n' {
            out.push('\\');
            out.push('n');
        } else if x == '\r' {
            out.push('\\');
            out.push('r');
        } else if x == '\t' {
            out.push('\\');
            out.push('t');
        } else {
            out.push(x);
        }
        assert(out@ =~= before + escaped_char(x));
    }
    out
}

/// An event that carries the text of a token.
pub open spec fn delta_text(id: Seq<char>, text: Seq<char>) -> Seq<char> {
    "data: {\"id\":\""@ + id
        + "\",\"object\":\"chat.completion.chunk\",\"choices\":[{\"index\":0,\"delta\":{\"content\":\""@
        + escaped(text, text.len() as int) + "\"},\"finish_reason\":null}]}\n\n"@
}

/// An event that carries the text of a token.
pub fn sse_delta(request_id: &str, token_text: &str) -> (r: String)
    ensures
        r@ == delta_text(request_id@, token_text@),
{
    let e: String = escape(token_text);
    let mut s: String = "data: {\"id\":\"".to_owned();
    s.append(request_id);
    s.append(
        "\",\"object\":\"chat.completion.chunk\",\"choices\":[{\"index\":0,\"delta\":{\"content\":\"",
    );
    s.append(e.as_str());
    s.append("\"},\"finish_reason\":null}]}\n\n");
    s
}

/// The events that end a stream.
pub fn sse_done(request_id: &str) -> (r: String)
    ensures
        r@ == "data: {\"id\":\""@ + request_id@
            + "\",\"object\":\"chat.completion.chunk\",\"choices\":[{\"index\":0,\"delta\":{},\"finish_reason\":\"stop\"}]}\n\ndata: [DONE]\n\n"@,
{
    let mut s: String = "data: {\"id\":\"".to_owned();
    s.append(request_id);
    s.append(
        "\",\"object\":\"chat.completion.chunk\",\"choices\":[{\"index\":0,\"delta\":{},\"finish_reason\":\"stop\"}]}\n\ndata: [DONE]\n\n",
    );
    s
}

/// The text that an escaped text stands for, read from `i` on.
pub open spec fn unescaped(s: Seq<char>, i: int) -> Seq<char>
    decreases s.len() - i,
{
    if i < 0 || i >= s.len() {
        Seq::empty()
    } else if s[i] == '\\' && i + 1 < s.len() {
        let x = s[i + 1];
        let c = if x == 'n' {
            '\n'
        } else if x == 'r' {
            '\r'
        } else if x == 't' {
            '\t'
        } else {
            x
        };
        seq![c] + unescaped(s, i + 2)
    } else {
        seq![s[i]] + unescaped(s, i + 1)
    }
}

proof fn lemma_unescape(t: Seq<char>, n: int, k: int)
    requires
        0 <= k <= n == t.len(),
    ensures
        escaped(t, k).len() <= escaped(t, n).len(),
        escaped(t, n).take(escaped(t, k).len() as int) == escaped(t, k),
    decreases n - k,
{
    if k < n {
        lemma_unescape(t, n, k + 1);
        let (a, b, all) = (escaped(t, k), escaped(t, k + 1), escaped(t, n));
        assert(all.take(a.len() as int) =~= b.take(a.len() as int));
        assert(b.take(a.len() as int) =~= a);
    } else {
        assert(escaped(t, n).take(escaped(t, n).len() as int) =~= escaped(t, n));
    }
}

proof fn lemma_unescape_from(t: Seq<char>, k: int)
    requires
        0 <= k <= t.len(),
    ensures
        unescaped(escaped(t, t.len() as int), escaped(t, k).len() as int) == t.skip(k),
    decreases t.len() - k,
{
    let n = t.len() as int;
    let all = escaped(t, n);
    let at = escaped(t, k).len() as int;
    lemma_unescape(t, n, k);
    if k < n {
        lemma_unescape_from(t, k + 1);
        lemma_unescape(t, n, k + 1);
        let part = escaped_char(t[k]);
        assert(escaped(t, k + 1) == escaped(t, k) + part);
        assert(all[at] == part[0]) by {
            assert(all.take(escaped(t, k + 1).len() as int)[at] == part[0]);
        }
        if part.len() == 2 {
            assert(all[at + 1] == part[1]) by {
                assert(all.take(escaped(t, k + 1).len() as int)[at + 1] == part[1]);
            }
        }
        assert(t.skip(k) =~= seq![t[k]] + t.skip(k + 1));
    } else {
        assert(t.skip(k) =~= Seq::<char>::empty());
    }
}

/// Reading an escaped text gives the text back.
pub proof fn law_escape_round_trip(t: Seq<char>)
    ensures
        unescaped(escaped(t, t.len() as int), 0) == t,
{
    lemma_unescape_from(t, 0);
    assert(escaped(t, 0).len() == 0);
    assert(t.skip(0) =~= t);
}

/// An escaped text has no line feed, carriage return or tab, so the text of a token never ends its
/// event early.
pub proof fn law_escaped_stays_on_line(t: Seq<char>, n: int, i: int)
    requires
        0 <= n <= t.len(),
        0 <= i < escaped(t, n).len(),
    ensures
        escaped(t, n)[i] != '\n',
        escaped(t, n)[i] != '\r',
        escaped(t, n)[i] != '\t',
    decreases n,
{
    if n > 0 {
        let before = escaped(t, n - 1);
        if i < before.len() {
            law_escaped_stays_on_line(t, n - 1, i);
        } else {
            assert(escaped(t, n)[i] == escaped_char(t[n - 1])[i - before.len()]);
        }
    }
}

} // verus!
