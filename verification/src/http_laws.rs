//! What holds of requests and responses.

use crate::chars::{
    all_digits, find_char, is_digit, is_space, law_first_places, law_trim_end, lemma_number_shift,
    number_of, parsed, skip_space, trim_end, word_end,
};
use crate::http::{
    announced_length, begins_with, body_from, body_of, escaped, escaped_char, head_status,
    length_line, line_stop, lower, method_of, model_entries, models_text, path_of, route_of,
    HeadStatus, Route,
};
use crate::text::{joined, law_joined, views};
use vstd::prelude::*;

verus! {

proof fn lemma_word(s: Seq<char>, i: int, e: int)
    requires
        0 <= i <= e <= s.len(),
        forall|j: int| i <= j < e ==> !is_space(#[trigger] s[j]),
        e < s.len() ==> is_space(s[e]),
    ensures
        word_end(s, i) == e,
{
    law_first_places(s, i, ' ');
    if word_end(s, i) < e {
        assert(!is_space(s[word_end(s, i)]));
    }
}

proof fn lemma_gap(s: Seq<char>, i: int, e: int)
    requires
        0 <= i <= e <= s.len(),
        forall|j: int| i <= j < e ==> is_space(#[trigger] s[j]),
        e < s.len() ==> !is_space(s[e]),
    ensures
        skip_space(s, i) == e,
{
    law_first_places(s, i, ' ');
    if skip_space(s, i) < e {
        assert(is_space(s[skip_space(s, i)]));
    }
}

proof fn lemma_found(s: Seq<char>, i: int, e: int, x: char)
    requires
        0 <= i <= e <= s.len(),
        forall|j: int| i <= j < e ==> #[trigger] s[j] != x,
        e < s.len() ==> s[e] == x,
    ensures
        find_char(s, i, x) == e,
{
    law_first_places(s, i, x);
    if find_char(s, i, x) < e {
        assert(s[find_char(s, i, x)] != x);
    }
}

proof fn lemma_trimmed(s: Seq<char>, from: int, m: int, to: int)
    requires
        0 <= from < m <= to <= s.len(),
        forall|j: int| m <= j < to ==> is_space(#[trigger] s[j]),
        !is_space(s[m - 1]),
    ensures
        trim_end(s, from, to) == m,
{
    law_trim_end(s, from, to);
    let t = trim_end(s, from, to);
    if t > m {
        assert(is_space(s[t - 1]));
    }
}

/// The route of a request whose first line begins with a method and a path, with one space between
/// them and white space behind, or nothing: the method alone decides for the options, and the
/// method and the path together for all else.
pub proof fn law_request_route(m: Seq<char>, p: Seq<char>, rest: Seq<char>)
    requires
        m.len() > 0,
        p.len() > 0,
        forall|i: int| 0 <= i < m.len() ==> !is_space(#[trigger] m[i]),
        forall|i: int| 0 <= i < p.len() ==> !is_space(#[trigger] p[i]),
        rest.len() > 0 ==> is_space(rest[0]),
    ensures
        ({
            let text = m + seq![' '] + p + rest;
            let r = route_of(method_of(text), path_of(text));
            &&& method_of(text) == m
            &&& path_of(text) == p
            &&& r == Route::Options <==> m == "OPTIONS"@
            &&& r == Route::Health <==> m == "GET"@ && p == "/health"@
            &&& r == Route::Models <==> m == "GET"@ && p == "/v1/models"@
            &&& r == Route::Chat <==> m == "POST"@ && p == "/v1/chat/completions"@
        }),
{
    let text = m + seq![' '] + p + rest;
    let a = m.len() as int;
    let b = a + 1 + p.len();
    law_first_places(text, 0, '\n');
    let e = find_char(text, 0, '\n');
    assert(is_space('\n') && is_space(' ') && is_space('\r'));
    assert forall|j: int| 0 <= j < a implies !is_space(#[trigger] text[j]) by {
        assert(text[j] == m[j]);
    }
    assert forall|j: int| a < j < b implies !is_space(#[trigger] text[j]) by {
        assert(text[j] == p[j - a - 1]);
    }
    assert(text[a] == ' ');
    assert(b < text.len() ==> text[b] == rest[0]);
    if e < b {
        assert(text[e] == '\n');
    }
    if e == b && b < text.len() {
        assert(!is_space(text[e - 1]));
    }
    let stop = line_stop(text, 0);
    assert(b <= stop <= text.len());
    let line = text.subrange(0, stop);
    assert(line[0] == text[0]);
    lemma_gap(line, 0, 0);
    lemma_word(line, 0, a);
    assert(line[a + 1] == text[a + 1]);
    lemma_gap(line, a, a + 1);
    lemma_word(line, a + 1, b);
    assert(line.subrange(0, a) =~= m);
    assert(line.subrange(a + 1, b) =~= p);
    reveal_strlit("OPTIONS");
    reveal_strlit("GET");
    reveal_strlit("POST");
    reveal_strlit("/health");
    reveal_strlit("/v1/models");
    reveal_strlit("/v1/chat/completions");
    assert("/health"@.len() != "/v1/models"@.len());
    assert("OPTIONS"@.len() != "GET"@.len() && "POST"@.len() != "GET"@.len());
}

/// An empty line stands at a place of a text.
pub open spec fn empty_line_at(s: Seq<char>, i: int) -> bool {
    0 <= i && i + 4 <= s.len() && s.subrange(i, i + 4) == seq!['\r', '\n', '\r', '\n']
}

proof fn lemma_body_from(s: Seq<char>, i: int, e: int)
    requires
        0 <= i <= e,
        forall|j: int| i <= j < e ==> !#[trigger] empty_line_at(s, j),
        empty_line_at(s, e) || e + 4 > s.len(),
    ensures
        body_from(s, i) == if empty_line_at(s, e) {
            e + 4
        } else {
            0
        },
    decreases e - i,
{
    if i + 4 <= s.len() {
        let cut = s.subrange(i, i + 4);
        assert(cut[0] == s[i] && cut[1] == s[i + 1] && cut[2] == s[i + 2] && cut[3] == s[i + 3]);
        if s[i] == '\r' && s[i + 1] == '\n' && s[i + 2] == '\r' && s[i + 3] == '\n' {
            assert(cut =~= seq!['\r', '\n', '\r', '\n']);
            assert(empty_line_at(s, i));
        } else {
            assert(!empty_line_at(s, i));
            assert(i < e);
            lemma_body_from(s, i + 1, e);
        }
    }
}

/// A text with an empty line behind it.
pub open spec fn with_empty_line(s: Seq<char>) -> Seq<char> {
    s + seq!['\r', '\n', '\r', '\n']
}

/// The body of a request is what follows the first empty line, whatever it holds.
pub proof fn law_request_body(head: Seq<char>, body: Seq<char>)
    requires
        forall|i: int|
            0 <= i < head.len() ==> !#[trigger] empty_line_at(with_empty_line(head), i),
    ensures
        body_of(with_empty_line(head) + body) == body,
{
    let h = with_empty_line(head);
    let s = h + body;
    let n = head.len() as int;
    assert forall|j: int| 0 <= j < n implies !#[trigger] empty_line_at(s, j) by {
        assert(!empty_line_at(h, j));
        assert(s.subrange(j, j + 4) =~= h.subrange(j, j + 4));
    }
    assert(s.subrange(n, n + 4) =~= seq!['\r', '\n', '\r', '\n']);
    assert(empty_line_at(s, n));
    lemma_body_from(s, 0, n);
    assert(s.skip(n + 4) =~= body);
}

/// A request without an empty line is all body.
pub proof fn law_request_without_head(s: Seq<char>)
    requires
        forall|i: int| 0 <= i < s.len() ==> !#[trigger] empty_line_at(s, i),
    ensures
        body_of(s) == s,
{
    lemma_body_from(s, 0, s.len() as int);
    assert(s.skip(0) =~= s);
}

/// A head is complete exactly where it ends with an empty line, whatever stands before that; one
/// that is not complete is too large from one byte above the limit on.
pub proof fn law_head(b: Seq<u8>)
    ensures
        head_status(b + seq![13u8, 10u8, 13u8, 10u8]) == HeadStatus::Complete,
        head_status(b) == HeadStatus::Complete ==> b.len() >= 4 && b == b.take(b.len() - 4) + seq![
            13u8,
            10u8,
            13u8,
            10u8,
        ],
        head_status(b) == HeadStatus::TooLarge ==> b.len() > 1048576,
        head_status(b) == HeadStatus::More ==> b.len() <= 1048576,
{
    if head_status(b) == HeadStatus::Complete {
        assert(b =~= b.take(b.len() - 4) + seq![13u8, 10u8, 13u8, 10u8]);
    }
}

proof fn lemma_find_shift(p: Seq<char>, s: Seq<char>, i: int, x: char)
    requires
        0 <= i <= s.len(),
    ensures
        find_char(p + s, p.len() + i, x) == p.len() + find_char(s, i, x),
        skip_space(p + s, p.len() + i) == p.len() + skip_space(s, i),
    decreases s.len() - i,
{
    if i < s.len() {
        assert((p + s)[p.len() + i] == s[i]);
        lemma_find_shift(p, s, i + 1, x);
    }
}

proof fn lemma_trim_shift(p: Seq<char>, s: Seq<char>, from: int, to: int)
    requires
        0 <= from <= to <= s.len(),
    ensures
        trim_end(p + s, p.len() + from, p.len() + to) == p.len() + trim_end(s, from, to),
    decreases to - from,
{
    if from < to {
        assert((p + s)[p.len() + to - 1] == s[to - 1]);
        lemma_trim_shift(p, s, from, to - 1);
    }
}

proof fn lemma_parsed_shift(p: Seq<char>, s: Seq<char>, from: int, to: int)
    requires
        0 <= from <= to <= s.len(),
    ensures
        parsed(p + s, p.len() + from, p.len() + to) == parsed(s, from, to),
{
    let t = p + s;
    let n = p.len() as int;
    if from < to {
        assert(t[n + from] == s[from]);
    }
    let start = if from < to && s[from] == '+' {
        from + 1
    } else {
        from
    };
    lemma_number_shift(p, s, start, to);
    if all_digits(s, start, to) {
        assert forall|i: int| n + start <= i < n + to implies is_digit(#[trigger] t[i]) by {
            assert(t[i] == s[i - n]);
        }
    } else {
        let i = choose|i: int| start <= i < to && !is_digit(#[trigger] s[i]);
        assert(t[n + i] == s[i]);
    }
}

proof fn lemma_stop_shift(p: Seq<char>, s: Seq<char>, i: int)
    requires
        0 <= i <= s.len(),
    ensures
        line_stop(p + s, p.len() + i) == p.len() + line_stop(s, i),
        i <= line_stop(s, i) <= s.len(),
{
    lemma_find_shift(p, s, i, '\n');
    law_first_places(s, i, '\n');
    let e = find_char(s, i, '\n');
    if e > i {
        assert((p + s)[p.len() + e - 1] == s[e - 1]);
    }
}

proof fn lemma_line_shift(p: Seq<char>, s: Seq<char>, i: int)
    requires
        0 <= i <= s.len(),
    ensures
        length_line(p + s, p.len() + i) == p.len() + length_line(s, i),
        i <= length_line(s, i) <= s.len(),
    decreases s.len() - i,
{
    if i < s.len() {
        let t = p + s;
        let n = p.len() as int;
        let word = "content-length:"@;
        lemma_stop_shift(p, s, i);
        lemma_find_shift(p, s, i, '\n');
        law_first_places(s, i, '\n');
        let stop = line_stop(s, i);
        if begins_with(s, i, stop, word) {
            assert forall|k: int| 0 <= k < word.len() implies lower(t[n + i + k])
                == #[trigger] word[k] by {
                assert(t[n + i + k] == s[i + k]);
            }
        } else if i + word.len() <= stop {
            let k = choose|k: int| 0 <= k < word.len() && lower(s[i + k]) != #[trigger] word[k];
            assert(t[n + i + k] == s[i + k]);
        }
        let e = find_char(s, i, '\n');
        if e < s.len() {
            lemma_line_shift(p, s, e + 1);
        }
    }
}

/// Two texts have the same characters, up to the case of ASCII letters: as far as a character is
/// an ASCII letter in upper case, the letter in lower case stands for it.
pub open spec fn same_but_case(a: Seq<char>, b: Seq<char>) -> bool {
    &&& a.len() == b.len()
    &&& forall|i: int|
        0 <= i < a.len() ==> {
            ||| #[trigger] a[i] == b[i]
            ||| 'A' <= a[i] <= 'Z' && b[i] as int == a[i] as int + 32
        }
}

/// A line is not about the length of the body.
pub open spec fn other_line(line: Seq<char>) -> bool {
    line.len() >= 15 ==> !same_but_case(line.take(15), "content-length:"@)
}

proof fn lemma_lower(c: char, d: char)
    requires
        !('A' <= d <= 'Z'),
    ensures
        lower(c) == d <==> c == d || 'A' <= c <= 'Z' && d as int == c as int + 32,
{
    if 'A' <= c <= 'Z' {
        assert(lower(c) as int == c as int + 32);
    }
}

proof fn lemma_name()
    ensures
        "content-length:"@.len() == 15,
        forall|k: int|
            0 <= k < 15 ==> !('A' <= #[trigger] "content-length:"@[k] <= 'Z')
                && "content-length:"@[k] != '\n' && "content-length:"@[k] != '\r',
{
    reveal_strlit("content-length:");
}

/// Lines before the one about the length of the body do not matter: a request that begins with
/// another line announces what the rest of it announces, and one without lines announces nothing.
pub proof fn law_other_lines(line: Seq<char>, rest: Seq<char>)
    requires
        forall|i: int| 0 <= i < line.len() ==> #[trigger] line[i] != '\n',
        other_line(line),
    ensures
        announced_length(line + seq!['\n'] + rest) == announced_length(rest),
        announced_length(Seq::empty()) is None,
{
    let p = line + seq!['\n'];
    let t = p + rest;
    let n = p.len() as int;
    let word = "content-length:"@;
    lemma_name();
    assert forall|j: int| 0 <= j < line.len() implies #[trigger] t[j] != '\n' by {
        assert(t[j] == line[j]);
    }
    assert(t[n - 1] == '\n');
    lemma_found(t, 0, n - 1, '\n');
    let stop = line_stop(t, 0);
    if begins_with(t, 0, stop, word) {
        let cut = line.take(15);
        assert forall|i: int| 0 <= i < 15 implies {
            ||| #[trigger] cut[i] == word[i]
            ||| 'A' <= cut[i] <= 'Z' && word[i] as int == cut[i] as int + 32
        } by {
            assert(t[0 + i] == line[i]);
            lemma_lower(line[i], word[i]);
        }
        assert(same_but_case(cut, word));
        assert(false);
    }
    assert(length_line(t, 0) == length_line(t, n));
    lemma_line_shift(p, rest, 0);
    let i = length_line(rest, 0);
    if i < rest.len() {
        lemma_length_within(rest, 0);
        lemma_stop_shift(p, rest, i);
        let stop = line_stop(rest, i);
        lemma_find_shift(p, rest, i + 15, ':');
        law_first_places(rest, i + 15, ':');
        let colon = find_char(rest, i + 15, ':');
        let e = if colon < stop {
            colon
        } else {
            stop
        };
        let k = skip_space(rest, i + 15);
        let from = if k < e {
            k
        } else {
            e
        };
        lemma_trim_shift(p, rest, from, e);
        law_trim_end(rest, from, e);
        lemma_parsed_shift(p, rest, from, trim_end(rest, from, e));
    }
}

proof fn lemma_length_within(s: Seq<char>, i: int)
    requires
        0 <= i <= s.len(),
        length_line(s, i) < s.len(),
    ensures
        i <= length_line(s, i),
        length_line(s, i) + 15 <= line_stop(s, length_line(s, i)) <= s.len(),
    decreases s.len() - i,
{
    lemma_name();
    lemma_stop_shift(Seq::empty(), s, i);
    law_first_places(s, i, '\n');
    if !begins_with(s, i, line_stop(s, i), "content-length:"@) {
        lemma_length_within(s, find_char(s, i, '\n') + 1);
    }
}

/// The length of the body is read from its line: the number behind the name, whatever the case of
/// the name, without white space around it, up to the end of the line or to a second colon. What
/// is no number announces nothing.
pub proof fn law_content_length(
    name: Seq<char>,
    before: Seq<char>,
    word: Seq<char>,
    behind: Seq<char>,
    rest: Seq<char>,
)
    requires
        same_but_case(name, "content-length:"@),
        forall|i: int|
            0 <= i < before.len() ==> is_space(#[trigger] before[i]) && before[i] != '\n',
        forall|i: int|
            0 <= i < behind.len() ==> is_space(#[trigger] behind[i]) && behind[i] != '\n',
        word.len() > 0,
        !is_space(word[0]),
        !is_space(word.last()),
        forall|i: int| 0 <= i < word.len() ==> #[trigger] word[i] != '\n' && word[i] != ':',
        rest.len() > 0 ==> rest[0] == '\n' || rest[0] == ':',
    ensures
        announced_length(name + before + word + behind + rest) == parsed(
            word,
            0,
            word.len() as int,
        ),
{
    let t = name + before + word + behind + rest;
    let a = 15int;
    let b = a + before.len();
    let c = b + word.len();
    let d = c + behind.len();
    lemma_name();
    let key = "content-length:"@;
    assert(is_space('\n') && is_space('\r') && !is_space(':'));
    assert forall|i: int| 0 <= i < 15 implies #[trigger] t[i] == name[i] && t[i] != '\n'
        && lower(t[0 + i]) == key[i] by {
        assert(name[i] == name[i]);
        lemma_lower(name[i], key[i]);
    }
    assert forall|i: int| a <= i < b implies is_space(#[trigger] t[i]) && t[i] != '\n' by {
        assert(t[i] == before[i - a]);
    }
    assert forall|i: int| b <= i < c implies #[trigger] t[i] != '\n' && t[i] != ':' by {
        assert(t[i] == word[i - b]);
    }
    assert forall|i: int| c <= i < d implies is_space(#[trigger] t[i]) && t[i] != '\n' by {
        assert(t[i] == behind[i - c]);
    }
    assert(d < t.len() ==> t[d] == rest[0]);
    assert(t[b] == word[0] && t[c - 1] == word.last());
    law_first_places(t, 0, '\n');
    let q = find_char(t, 0, '\n');
    assert(q >= d) by {
        if q < d {
            assert(t[q] == '\n');
        }
    }
    let stop = line_stop(t, 0);
    assert(c <= stop <= t.len());
    assert(begins_with(t, 0, stop, key)) by {
        assert forall|k: int| 0 <= k < key.len() implies lower(t[0 + k]) == #[trigger] key[k] by {
            assert(t[k] == name[k]);
        }
    }
    assert(length_line(t, 0) == 0);
    law_first_places(t, a, ':');
    let colon = find_char(t, a, ':');
    assert(colon >= d) by {
        if colon < d {
            assert(t[colon] == ':');
        }
    }
    let e = if colon < stop {
        colon
    } else {
        stop
    };
    assert(c <= e <= d) by {
        if d < t.len() && rest[0] == ':' {
            lemma_found(t, a, d, ':');
            if stop <= d {
                assert(q > d);
                assert(stop == d);
                assert(t[q - 1] == '\r');
            }
        } else if d < t.len() {
            lemma_found(t, 0, d, '\n');
        }
    }
    lemma_gap(t, a, b);
    lemma_trimmed(t, b, c, e);
    let p = name + before;
    let s = word + behind + rest;
    assert(t =~= p + s);
    lemma_parsed_shift(p, s, 0, word.len() as int);
    lemma_parsed_prefix(word, behind + rest);
    assert(s =~= word + (behind + rest));
}

/// A line about the length of the body that has nothing but white space before its end or before a
/// second colon announces nothing.
pub proof fn law_content_length_missing(name: Seq<char>, before: Seq<char>, rest: Seq<char>)
    requires
        same_but_case(name, "content-length:"@),
        forall|i: int|
            0 <= i < before.len() ==> is_space(#[trigger] before[i]) && before[i] != '\n',
        rest.len() > 0 ==> rest[0] == '\n' || rest[0] == ':',
    ensures
        announced_length(name + before + rest) is None,
{
    let t = name + before + rest;
    let b = 15int + before.len();
    let key = "content-length:"@;
    lemma_name();
    assert(is_space('\n') && is_space('\r') && !is_space(':'));
    assert forall|i: int| 0 <= i < 15 implies #[trigger] t[i] == name[i] && t[i] != '\n' && t[i]
        != '\r' && lower(t[0 + i]) == key[i] by {
        assert(name[i] == name[i]);
        lemma_lower(name[i], key[i]);
    }
    assert forall|i: int| 15 <= i < b implies is_space(#[trigger] t[i]) && t[i] != '\n' by {
        assert(t[i] == before[i - 15]);
    }
    assert(b < t.len() ==> t[b] == rest[0]);
    law_first_places(t, 0, '\n');
    let q = find_char(t, 0, '\n');
    assert(q >= b) by {
        if q < b {
            assert(t[q] == '\n');
        }
    }
    let stop = line_stop(t, 0);
    assert(15 <= stop <= t.len());
    assert(begins_with(t, 0, stop, key)) by {
        assert forall|k: int| 0 <= k < key.len() implies lower(t[0 + k]) == #[trigger] key[k] by {
            assert(t[k] == name[k]);
        }
    }
    assert(length_line(t, 0) == 0);
    law_first_places(t, 15, ':');
    let colon = find_char(t, 15, ':');
    let e = if colon < stop {
        colon
    } else {
        stop
    };
    assert(e <= b) by {
        if b < t.len() && rest[0] == ':' {
            lemma_found(t, 15, b, ':');
        } else if b < t.len() {
            lemma_found(t, 0, b, '\n');
        }
    }
    let k = skip_space(t, 15);
    law_first_places(t, 15, ' ');
    assert(k >= b) by {
        if k < b {
            assert(is_space(t[k]));
        }
    }
}

proof fn lemma_parsed_prefix(w: Seq<char>, rest: Seq<char>)
    ensures
        parsed(w + rest, 0, w.len() as int) == parsed(w, 0, w.len() as int),
{
    let t = w + rest;
    let n = w.len() as int;
    let start = if 0 < n && w[0] == '+' {
        1int
    } else {
        0int
    };
    assert(0 < n ==> t[0] == w[0]);
    lemma_number_same(t, w, start, n);
    if all_digits(w, start, n) {
        assert forall|i: int| start <= i < n implies is_digit(#[trigger] t[i]) by {
            assert(t[i] == w[i]);
        }
    } else {
        let i = choose|i: int| start <= i < n && !is_digit(#[trigger] w[i]);
        assert(t[i] == w[i]);
    }
}

proof fn lemma_number_same(a: Seq<char>, b: Seq<char>, from: int, to: int)
    requires
        0 <= from,
        to <= a.len(),
        to <= b.len(),
        forall|i: int| from <= i < to ==> #[trigger] a[i] == b[i],
    ensures
        number_of(a, from, to) == number_of(b, from, to),
    decreases to - from,
{
    if from < to {
        lemma_number_same(a, b, from, to - 1);
        assert(a[to - 1] == b[to - 1]);
    }
}

proof fn lemma_escaped(t: Seq<char>, c: char, n: int)
    requires
        0 <= n <= t.len(),
    ensures
        escaped(t.push(c), n) == escaped(t, n),
    decreases n,
{
    if n > 0 {
        lemma_escaped(t, c, n - 1);
    }
}

/// Characters are escaped one after the other: five of them become a backslash and a letter or
/// sign, and any other stays as it is.
pub proof fn law_escape_each(t: Seq<char>, c: char)
    ensures
        ({
            let n = t.len() as int;
            let all = escaped(t.push(c), n + 1);
            let before = escaped(t, n);
            &&& escaped(Seq::empty(), 0) == Seq::<char>::empty()
            &&& c == '\\' ==> all == before + seq!['\\', '\\']
            &&& c == '"' ==> all == before + seq!['\\', '"']
            &&& c == '\n' ==> all == before + seq!['\\', 'n']
            &&& c == '\r' ==> all == before + seq!['\\', 'r']
            &&& c == '\t' ==> all == before + seq!['\\', 't']
            &&& c != '\\' && c != '"' && c != '\n' && c != '\r' && c != '\t' ==> all
                == before.push(c)
        }),
{
    let n = t.len() as int;
    lemma_escaped(t, c, n);
    assert(escaped(t.push(c), n + 1) == escaped(t, n) + escaped_char(c));
    assert(escaped(t, n) + seq![c] =~= escaped(t, n).push(c));
}

/// Models are listed in order: one more model stands behind the others, with a comma between, in
/// an object with its name and its kind.
pub proof fn law_models_listed(names: Seq<String>, name: String)
    ensures
        ({
            let head = "HTTP/1.1 200 OK\r\nContent-Type: application/json\r\nConnection: close\r\n\r\n"@
                + "{\"object\":\"list\",\"data\":["@;
            let tail = "]}"@ + "\n"@;
            let entry = "{\"id\":\""@ + name@ + "\",\"object\":\"model\"}"@;
            let n = models_text(views(names)).len() - tail.len();
            &&& models_text(Seq::empty()) == head + tail
            &&& models_text(views(names)).skip(n) == tail
            &&& models_text(views(names.push(name))) == models_text(views(names)).take(n) + (if
            names.len() == 0 {
                Seq::empty()
            } else {
                ","@
            }) + entry + tail
        }),
{
    let start =
        "HTTP/1.1 200 OK\r\nContent-Type: application/json\r\nConnection: close\r\n\r\n"@;
    let list = "{\"object\":\"list\",\"data\":["@;
    let tail = "]}"@ + "\n"@;
    let entry = "{\"id\":\""@ + name@ + "\",\"object\":\"model\"}"@;
    let (old_names, new_names) = (views(names), views(names.push(name)));
    assert(new_names =~= old_names.push(name@));
    let (a, b) = (model_entries(old_names), model_entries(new_names));
    assert(b =~= a.push(entry));
    law_joined(a, entry, ","@);
    let inner = joined(a, ","@, a.len() as int);
    assert(models_text(old_names) =~= start + list + inner + tail);
    let n = models_text(old_names).len() - tail.len();
    assert(models_text(old_names).skip(n) =~= tail);
    assert(models_text(old_names).take(n) =~= start + list + inner);
    let outer = joined(b, ","@, b.len() as int);
    assert(models_text(new_names) =~= start + list + outer + tail);
    if a.len() == 0 {
        assert(inner =~= Seq::<char>::empty());
        assert(models_text(new_names) =~= models_text(old_names).take(n) + Seq::<char>::empty()
            + entry + tail);
    } else {
        assert(models_text(new_names) =~= models_text(old_names).take(n) + ","@ + entry + tail);
    }
    let none = Seq::<Seq<char>>::empty();
    assert(model_entries(none) =~= none);
    assert(joined(model_entries(none), ","@, 0) =~= Seq::<char>::empty());
    assert(models_text(none) =~= start + list + tail);
}

} // verus!
