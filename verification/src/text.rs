//! Small operations on text.

use vstd::prelude::*;
use vstd::string::*;

verus! {

/// Two texts hold the same characters.
pub fn same_text(a: &str, b: &str) -> (r: bool)
    ensures
        r == (a@ == b@),
{
    a.to_owned() == b.to_owned()
}

/// The decimal digit of a number below ten.
pub open spec fn digit(d: int) -> char {
    if d == 0 {
        '0'
    } else if d == 1 {
        '1'
    } else if d == 2 {
        '2'
    } else if d == 3 {
        '3'
    } else if d == 4 {
        '4'
    } else if d == 5 {
        '5'
    } else if d == 6 {
        '6'
    } else if d == 7 {
        '7'
    } else if d == 8 {
        '8'
    } else {
        '9'
    }
}

/// A number in decimal, without leading zeros.
pub open spec fn decimal(n: int) -> Seq<char>
    decreases n,
{
    if n < 10 {
        seq![digit(n)]
    } else {
        decimal(n / 10).push(digit(n % 10))
    }
}

/// A number in decimal, with a leading zero where it has one digit.
pub open spec fn decimal2(n: int) -> Seq<char> {
    if n < 10 {
        seq!['0', digit(n)]
    } else {
        decimal(n)
    }
}

fn digit_text(d: u64) -> (r: &'static str)
    requires
        d < 10,
    ensures
        r@ == seq![digit(d as int)],
{
    proof {
        reveal_strlit("0");
        reveal_strlit("1");
        reveal_strlit("2");
        reveal_strlit("3");
        reveal_strlit("4");
        reveal_strlit("5");
        reveal_strlit("6");
        reveal_strlit("7");
        reveal_strlit("8");
        reveal_strlit("9");
    }
    let r: &'static str = if d == 0 {
        "0"
    } else if d == 1 {
        "1"
    } else if d == 2 {
        "2"
    } else if d == 3 {
        "3"
    } else if d == 4 {
        "4"
    } else if d == 5 {
        "5"
    } else if d == 6 {
        "6"
    } else if d == 7 {
        "7"
    } else if d == 8 {
        "8"
    } else {
        "9"
    };
    assert(r@ =~= seq![digit(d as int)]);
    r
}

/// Appends a number in decimal.
pub fn push_decimal(out: &mut String, n: u64)
    ensures
        final(out)@ == old(out)@ + decimal(n as int),
    decreases n,
{
    let ghost before = out@;
    if n >= 10 {
        push_decimal(out, n / 10);
    }
    let ghost middle = out@;
    out.append(digit_text(n % 10));
    proof {
        let d = seq![digit(n as int % 10)];
        if n >= 10 {
            assert(middle + d =~= before + decimal(n as int));
        } else {
            assert(decimal(n as int) == d);
        }
    }
}

/// Appends a number in decimal, with a leading zero where it has one digit.
pub fn push_decimal2(out: &mut String, n: u64)
    ensures
        final(out)@ == old(out)@ + decimal2(n as int),
{
    let ghost before = out@;
    if n < 10 {
        proof {
            reveal_strlit("0");
        }
        out.append("0");
        assert(out@ =~= before.push('0'));
        push_decimal(out, n);
        assert(out@ =~= before + decimal2(n as int));
    } else {
        push_decimal(out, n);
    }
}

/// The characters of each text.
pub open spec fn views(v: Seq<String>) -> Seq<Seq<char>> {
    Seq::new(v.len(), |i: int| v[i]@)
}

/// The texts of a list, where its entries are texts.
pub open spec fn text_views(l: Seq<Option<String>>) -> Seq<Option<Seq<char>>> {
    Seq::new(
        l.len(),
        |i: int|
            match l[i] {
                Some(s) => Some(s@),
                None => None,
            },
    )
}

/// The first `n` texts with a separator between neighbours.
pub open spec fn joined(parts: Seq<Seq<char>>, sep: Seq<char>, n: int) -> Seq<char>
    decreases n,
{
    if n <= 0 {
        Seq::empty()
    } else if n == 1 {
        parts[0]
    } else {
        joined(parts, sep, n - 1) + sep + parts[n - 1]
    }
}

/// The texts with a separator between neighbours.
pub fn join(parts: &Vec<String>, sep: &str) -> (r: String)
    ensures
        r@ == joined(views(parts@), sep@, parts@.len() as int),
{
    let mut out: String = String::new();
    proof {
        reveal_strlit("");
    }
    for i in 0..parts.len()
        invariant
            out@ == joined(views(parts@), sep@, i as int),
    {
        let ghost before = out@;
        if i > 0 {
            out.append(sep);
        }
        out.append(parts[i].as_str());
        assert(out@ =~= joined(views(parts@), sep@, i + 1));
    }
    out
}

proof fn lemma_joined(parts: Seq<Seq<char>>, p: Seq<char>, sep: Seq<char>, n: int)
    requires
        0 <= n <= parts.len(),
    ensures
        joined(parts.push(p), sep, n) == joined(parts, sep, n),
    decreases n,
{
    if n > 1 {
        lemma_joined(parts, p, sep, n - 1);
    }
}

/// Texts are joined in order: one more text comes behind the others, with one separator between,
/// and without a separator where it is the first.
pub proof fn law_joined(parts: Seq<Seq<char>>, p: Seq<char>, sep: Seq<char>)
    ensures
        joined(Seq::empty(), sep, 0) == Seq::<char>::empty(),
        joined(parts.push(p), sep, parts.len() as int + 1) == if parts.len() == 0 {
            p
        } else {
            joined(parts, sep, parts.len() as int) + sep + p
        },
{
    lemma_joined(parts, p, sep, parts.len() as int);
}

/// Digits of a number: the last digit is the remainder of ten, the others are those of the rest;
/// with two digits at least, a number below ten has a zero before it.
pub proof fn law_digits(n: int)
    requires
        0 <= n,
    ensures
        decimal(n).last() as int == '0' as int + n % 10,
        n < 10 ==> decimal(n).len() == 1,
        n >= 10 ==> decimal(n).drop_last() == decimal(n / 10),
        decimal2(n) == if n < 10 {
            seq!['0'] + decimal(n)
        } else {
            decimal(n)
        },
{
    assert(n >= 10 ==> decimal(n).drop_last() =~= decimal(n / 10));
    assert(n < 10 ==> decimal2(n) =~= seq!['0'] + decimal(n));
}

/// The texts of a list stand at the places of the list.
pub proof fn law_views(v: Seq<String>, i: int)
    requires
        0 <= i < v.len(),
    ensures
        views(v).len() == v.len(),
        views(v)[i] == v[i]@,
{
}

} // verus!
