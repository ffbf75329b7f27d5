//! Texts as lists of characters: lines, words, numbers.

use crate::text::{decimal, decimal2, digit};
use vstd::prelude::*;

verus! {

/// `String::push` of the standard library: the character becomes the last one of the text.
pub assume_specification[ String::push ](s: &mut String, ch: char)
    ensures
        final(s)@ == old(s)@.push(ch),
;

/// The characters of a text.
pub fn chars_of(s: &str) -> (r: Vec<char>)
    ensures
        r@ == s@,
{
    broadcast use vstd::string::axiom_spec_iter;

    let mut out: Vec<char> = Vec::new();
    for c in it: s.chars()
        invariant
            it.seq() == s@,
            out@ == s@.take(it.index()),
    {
        out.push(c);
        assert(s@.take(it.index() + 1) =~= s@.take(it.index()).push(s@[it.index()]));
    }
    assert(s@.take(s@.len() as int) =~= s@);
    out
}

/// The text of the characters from `from` up to `to`.
pub fn text_of(c: &Vec<char>, from: usize, to: usize) -> (r: String)
    requires
        from <= to <= c@.len(),
    ensures
        r@ == c@.subrange(from as int, to as int),
{
    let mut out: String = String::new();
    proof {
        reveal_strlit("");
    }
    assert(out@ =~= c@.subrange(from as int, from as int));
    for i in from..to
        invariant
            from <= i <= to <= c@.len(),
            out@ == c@.subrange(from as int, i as int),
    {
        out.push(c[i]);
        assert(c@.subrange(from as int, i + 1) =~= c@.subrange(from as int, i as int).push(
            c@[i as int],
        ));
    }
    out
}

/// A character is white space: tab to carriage return, space, next line, and the wide and narrow
/// spaces and separators of Unicode.
pub open spec fn is_space(c: char) -> bool {
    let u = c as u32;
    ||| 0x9 <= u <= 0xD
    ||| u == 0x20
    ||| u == 0x85
    ||| u == 0xA0
    ||| u == 0x1680
    ||| 0x2000 <= u <= 0x200A
    ||| u == 0x2028
    ||| u == 0x2029
    ||| u == 0x202F
    ||| u == 0x205F
    ||| u == 0x3000
}

fn space(c: char) -> (r: bool)
    ensures
        r == is_space(c),
{
    let u: u32 = c as u32;
    (0x9 <= u && u <= 0xD) || u == 0x20 || u == 0x85 || u == 0xA0 || u == 0x1680 || (0x2000 <= u
        && u <= 0x200A) || u == 0x2028 || u == 0x2029 || u == 0x202F || u == 0x205F || u == 0x3000
}

/// The first place from `i` on where a word begins, or the end.
pub open spec fn skip_space(s: Seq<char>, i: int) -> int
    decreases s.len() - i,
{
    if i < 0 || i >= s.len() || !is_space(s[i]) {
        i
    } else {
        skip_space(s, i + 1)
    }
}

/// The end of the word at `i`.
pub open spec fn word_end(s: Seq<char>, i: int) -> int
    decreases s.len() - i,
{
    if i < 0 || i >= s.len() || is_space(s[i]) {
        i
    } else {
        word_end(s, i + 1)
    }
}

/// Skips white space.
pub fn skip_spaces(c: &Vec<char>, from: usize) -> (r: usize)
    requires
        from <= c@.len(),
    ensures
        r == skip_space(c@, from as int),
        from <= r <= c@.len(),
{
    let mut i: usize = from;
    while i < c.len() && space(c[i])
        invariant
            from <= i <= c@.len(),
            skip_space(c@, from as int) == skip_space(c@, i as int),
        decreases c@.len() - i,
    {
        i = i + 1;
    }
    i
}

/// Finds the end of a word.
pub fn end_of_word(c: &Vec<char>, from: usize) -> (r: usize)
    requires
        from <= c@.len(),
    ensures
        r == word_end(c@, from as int),
        from <= r <= c@.len(),
{
    let mut i: usize = from;
    while i < c.len() && !space(c[i])
        invariant
            from <= i <= c@.len(),
            word_end(c@, from as int) == word_end(c@, i as int),
        decreases c@.len() - i,
    {
        i = i + 1;
    }
    i
}

/// The place before the white space that ends a text.
pub open spec fn trim_end(s: Seq<char>, from: int, to: int) -> int
    decreases to - from,
{
    if to <= from || !is_space(s[to - 1]) {
        to
    } else {
        trim_end(s, from, to - 1)
    }
}

/// Drops the white space at the end.
pub fn drop_spaces(c: &Vec<char>, from: usize, to: usize) -> (r: usize)
    requires
        from <= to <= c@.len(),
    ensures
        r == trim_end(c@, from as int, to as int),
        from <= r <= to,
{
    let mut i: usize = to;
    while i > from && space(c[i - 1])
        invariant
            from <= i <= to <= c@.len(),
            trim_end(c@, from as int, to as int) == trim_end(c@, from as int, i as int),
        decreases i,
    {
        i = i - 1;
    }
    i
}

/// The first place from `i` on that holds a character, or the end.
pub open spec fn find_char(s: Seq<char>, i: int, x: char) -> int
    decreases s.len() - i,
{
    if i < 0 || i >= s.len() || s[i] == x {
        i
    } else {
        find_char(s, i + 1, x)
    }
}

/// Finds a character.
pub fn find(c: &Vec<char>, from: usize, x: char) -> (r: usize)
    requires
        from <= c@.len(),
    ensures
        r == find_char(c@, from as int, x),
        from <= r <= c@.len(),
{
    let mut i: usize = from;
    while i < c.len() && c[i] != x
        invariant
            from <= i <= c@.len(),
            find_char(c@, from as int, x) == find_char(c@, i as int, x),
        decreases c@.len() - i,
    {
        i = i + 1;
    }
    i
}

/// A character is a decimal digit.
pub open spec fn is_digit(c: char) -> bool {
    '0' <= c <= '9'
}

/// The number that the digits from `from` up to `to` stand for.
pub open spec fn number_of(s: Seq<char>, from: int, to: int) -> int
    decreases to - from,
{
    if to <= from {
        0
    } else {
        10 * number_of(s, from, to - 1) + (s[to - 1] as int - '0' as int)
    }
}

/// All characters from `from` up to `to` are digits.
pub open spec fn all_digits(s: Seq<char>, from: int, to: int) -> bool {
    forall|i: int| from <= i < to ==> is_digit(#[trigger] s[i])
}

/// The number that a text stands for: at least one digit, with a plus sign before them or none, and
/// not too large for the machine.
pub open spec fn parsed(s: Seq<char>, from: int, to: int) -> Option<int> {
    let start = if from < to && s[from] == '+' {
        from + 1
    } else {
        from
    };
    if start < to && all_digits(s, start, to) && number_of(s, start, to) <= usize::MAX {
        Some(number_of(s, start, to))
    } else {
        None
    }
}

proof fn lemma_number_grows(s: Seq<char>, from: int, a: int, b: int)
    requires
        from <= a <= b,
        all_digits(s, from, b),
    ensures
        0 <= number_of(s, from, a) <= number_of(s, from, b),
    decreases b - from,
{
    if a < b {
        lemma_number_grows(s, from, a, b - 1);
        assert(is_digit(s[b - 1]));
    } else if from < b {
        lemma_number_grows(s, from, a - 1, b - 1);
        assert(is_digit(s[b - 1]));
    }
}

/// Reads a number.
pub fn parse_number(c: &Vec<char>, from: usize, to: usize) -> (r: Option<usize>)
    requires
        from <= to <= c@.len(),
    ensures
        match r {
            Some(n) => parsed(c@, from as int, to as int) == Some(n as int),
            None => parsed(c@, from as int, to as int) is None,
        },
{
    let start: usize = if from < to && c[from] == '+' {
        from + 1
    } else {
        from
    };
    if start >= to {
        return None;
    }
    let mut n: usize = 0;
    for i in start..to
        invariant
            start <= i <= to <= c@.len(),
            start == if from < to && c@[from as int] == '+' {
                from + 1
            } else {
                from as int
            },
            start < to,
            all_digits(c@, start as int, i as int),
            n == number_of(c@, start as int, i as int),
    {
        let x: char = c[i];
        if !('0' <= x && x <= '9') {
            assert(!is_digit(c@[i as int]));
            return None;
        }
        let d: usize = (x as u32 - '0' as u32) as usize;
        assert(number_of(c@, start as int, i + 1) == 10 * n + d);
        if n > (usize::MAX - d) / 10 {
            proof {
                if all_digits(c@, start as int, to as int) {
                    lemma_number_grows(c@, start as int, i + 1, to as int);
                    assert(10 * n + d > usize::MAX);
                }
            }
            return None;
        }
        n = 10 * n + d;
    }
    Some(n)
}

/// A number written in decimal is made of digits, at least one, and their value is the number.
pub proof fn lemma_decimal(n: int)
    requires
        0 <= n,
    ensures
        decimal(n).len() > 0,
        all_digits(decimal(n), 0, decimal(n).len() as int),
        number_of(decimal(n), 0, decimal(n).len() as int) == n,
    decreases n,
{
    let s = decimal(n);
    let k = s.len() as int;
    if n < 10 {
        assert(number_of(s, 0, 0) == 0);
        assert(s[0] as int - '0' as int == n);
        assert(number_of(s, 0, 1) == n);
    } else {
        lemma_decimal(n / 10);
        let p = decimal(n / 10);
        assert(s == p.push(digit(n % 10)));
        lemma_number_prefix(p, s, p.len() as int);
        assert(s[k - 1] as int - '0' as int == n % 10);
        assert forall|i: int| 0 <= i < k implies is_digit(#[trigger] s[i]) by {
            if i < k - 1 {
                assert(is_digit(p[i]));
            }
        }
    }
}

proof fn lemma_number_prefix(a: Seq<char>, b: Seq<char>, n: int)
    requires
        0 <= n <= a.len(),
        n <= b.len(),
        forall|i: int| 0 <= i < n ==> a[i] == b[i],
    ensures
        number_of(a, 0, n) == number_of(b, 0, n),
    decreases n,
{
    if n > 0 {
        lemma_number_prefix(a, b, n - 1);
    }
}

/// Reading a number that was written in decimal gives the number back.
pub proof fn law_decimal_round_trip(n: int)
    requires
        0 <= n <= usize::MAX,
    ensures
        parsed(decimal(n), 0, decimal(n).len() as int) == Some(n),
{
    lemma_decimal(n);
    assert(is_digit(decimal(n)[0]));
}

/// No two numbers are written the same.
pub proof fn law_decimal_injective(a: int, b: int)
    requires
        0 <= a,
        0 <= b,
        decimal(a) == decimal(b),
    ensures
        a == b,
{
    lemma_decimal(a);
    lemma_decimal(b);
}

proof fn lemma_decimal2(n: int)
    requires
        0 <= n,
    ensures
        number_of(decimal2(n), 0, decimal2(n).len() as int) == n,
{
    lemma_decimal(n);
    if n < 10 {
        let s = decimal2(n);
        assert(number_of(s, 0, 0) == 0);
        assert(number_of(s, 0, 1) == 0);
        assert(s[1] as int - '0' as int == n);
        assert(number_of(s, 0, 2) == n);
    }
}

/// No two numbers are written the same with a leading zero.
pub proof fn law_decimal2_injective(a: int, b: int)
    requires
        0 <= a,
        0 <= b,
        decimal2(a) == decimal2(b),
    ensures
        a == b,
{
    lemma_decimal2(a);
    lemma_decimal2(b);
}

/// Where a search ends: the place is the first one from `i` on that holds what is looked for, and
/// the end where there is none.
pub proof fn law_first_places(s: Seq<char>, i: int, x: char)
    requires
        0 <= i <= s.len(),
    ensures
        i <= find_char(s, i, x) <= s.len(),
        forall|j: int| i <= j < find_char(s, i, x) ==> #[trigger] s[j] != x,
        find_char(s, i, x) < s.len() ==> s[find_char(s, i, x)] == x,
        i <= skip_space(s, i) <= s.len(),
        forall|j: int| i <= j < skip_space(s, i) ==> is_space(#[trigger] s[j]),
        skip_space(s, i) < s.len() ==> !is_space(s[skip_space(s, i)]),
        i <= word_end(s, i) <= s.len(),
        forall|j: int| i <= j < word_end(s, i) ==> !is_space(#[trigger] s[j]),
        word_end(s, i) < s.len() ==> is_space(s[word_end(s, i)]),
    decreases s.len() - i,
{
    if i < s.len() {
        law_first_places(s, i + 1, x);
    }
}

/// White space at an end: what is dropped is white space, and what stays does not end with any.
pub proof fn law_trim_end(s: Seq<char>, from: int, to: int)
    requires
        0 <= from <= to <= s.len(),
    ensures
        from <= trim_end(s, from, to) <= to,
        forall|j: int| trim_end(s, from, to) <= j < to ==> is_space(#[trigger] s[j]),
        from < trim_end(s, from, to) ==> !is_space(s[trim_end(s, from, to) - 1]),
    decreases to - from,
{
    if from < to && is_space(s[to - 1]) {
        law_trim_end(s, from, to - 1);
    }
}

/// Digits stand for a number in base ten: one more digit behind them is worth its own value, and
/// makes the others worth ten times as much. A plus sign before them changes nothing.
pub proof fn law_digits_read(w: Seq<char>, d: char)
    requires
        w.len() > 0,
        all_digits(w, 0, w.len() as int),
    ensures
        ({
            let n = w.len() as int;
            &&& parsed(w, 0, n) is None <==> number_of(w, 0, n) > usize::MAX
            &&& parsed(w, 0, n) matches Some(v) ==> v == number_of(w, 0, n)
            &&& parsed(seq!['+'] + w, 0, n + 1) == parsed(w, 0, n)
            &&& number_of(w.push(d), 0, n + 1) == 10 * number_of(w, 0, n) + (d as int - 48)
            &&& number_of(seq![d], 0, 1) == d as int - 48
            &&& !('0' <= d <= '9') ==> parsed(w.push(d), 0, n + 1) is None
            &&& parsed(Seq::empty(), 0, 0) is None
            &&& parsed(seq!['+'], 0, 1) is None
        }),
{
    let n = w.len() as int;
    assert(is_digit(w[0]));
    let p = seq!['+'] + w;
    lemma_number_shift(seq!['+'], w, 0, n);
    if all_digits(p, 1, n + 1) {
    } else {
        let i = choose|i: int| 1 <= i < n + 1 && !is_digit(#[trigger] p[i]);
        assert(p[i] == w[i - 1]);
    }
    lemma_number_prefix(w, w.push(d), n);
    assert(number_of(seq![d], 0, 0) == 0);
    assert(number_of(seq![d], 0, 1) == d as int - 48);
    assert(w.push(d)[0] == w[0]);
    assert(w.push(d)[n] == d);
}

pub(crate) proof fn lemma_number_shift(p: Seq<char>, s: Seq<char>, from: int, to: int)
    requires
        0 <= from,
        to <= s.len(),
    ensures
        number_of(p + s, p.len() + from, p.len() + to) == number_of(s, from, to),
    decreases to - from,
{
    if from < to {
        lemma_number_shift(p, s, from, to - 1);
        assert((p + s)[p.len() + to - 1] == s[to - 1]);
    }
}

} // verus!
