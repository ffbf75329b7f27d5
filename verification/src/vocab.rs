//! The texts of tokens.

use crate::http::{lossy_text, utf8_lossy};
use crate::text::views;
use vstd::prelude::*;

verus! {

/// A token of a tokenizer: its number and the bytes of its text.
pub struct TokenEntry {
    pub id: u32,
    pub str_bytes: Vec<u8>,
}

/// One entry comes before another: a smaller number, or the same number and an earlier place.
pub open spec fn precedes(a: (u32, usize), b: (u32, usize)) -> bool {
    a.0 < b.0 || (a.0 == b.0 && a.1 < b.1)
}

/// Each entry comes before those behind it.
pub open spec fn ordered(v: Seq<(u32, usize)>) -> bool {
    forall|i: int, j: int| 0 <= i < j < v.len() ==> precedes(#[trigger] v[i], #[trigger] v[j])
}

fn comes_first(a: (u32, usize), b: (u32, usize)) -> (r: bool)
    ensures
        r == precedes(a, b),
{
    a.0 < b.0 || (a.0 == b.0 && a.1 < b.1)
}

/// No two entries have the same place.
pub open spec fn places_differ(v: Seq<(u32, usize)>) -> bool {
    forall|i: int, j: int|
        0 <= i < j < v.len() ==> (#[trigger] v[i]).1 != (#[trigger] v[j]).1
}

/// Merges two ordered lists whose entries all have different places.
fn merge(a: &Vec<(u32, usize)>, b: &Vec<(u32, usize)>) -> (r: Vec<(u32, usize)>)
    requires
        ordered(a@),
        ordered(b@),
        forall|i: int, j: int|
            0 <= i < a@.len() && 0 <= j < b@.len() ==> (#[trigger] a@[i]).1 != (#[trigger] b@[j]).1,
    ensures
        ordered(r@),
        r@.to_multiset() == a@.to_multiset().add(b@.to_multiset()),
        r@.len() == a@.len() + b@.len(),
{
    broadcast use vstd::seq_lib::group_to_multiset_ensures;

    let mut out: Vec<(u32, usize)> = Vec::new();
    let mut i: usize = 0;
    let mut j: usize = 0;
    let (n, m) = (a.len(), b.len());
    assert(a@.take(0) =~= Seq::empty() && b@.take(0) =~= Seq::empty());
    assert(out@.to_multiset() =~= a@.take(0).to_multiset().add(b@.take(0).to_multiset()));
    while i < n || j < m
        invariant
            n == a@.len(),
            m == b@.len(),
            i <= n,
            j <= m,
            ordered(a@),
            ordered(b@),
            forall|x: int, y: int|
                0 <= x < a@.len() && 0 <= y < b@.len() ==> (#[trigger] a@[x]).1 != (
                #[trigger] b@[y]).1,
            ordered(out@),
            out@.len() == i + j,
            out@.to_multiset() == a@.take(i as int).to_multiset().add(
                b@.take(j as int).to_multiset(),
            ),
            forall|k: int, x: int|
                0 <= k < out@.len() && i <= x < n ==> precedes(#[trigger] out@[k], #[trigger] a@[x]),
            forall|k: int, y: int|
                0 <= k < out@.len() && j <= y < m ==> precedes(#[trigger] out@[k], #[trigger] b@[y]),
        decreases (n - i) + (m - j),
    {
        let from_a: bool = j >= m || (i < n && comes_first(a[i], b[j]));
        let ghost before = out@;
        if from_a {
            out.push(a[i]);
            proof {
                assert(a@.take(i + 1) =~= a@.take(i as int).push(a@[i as int]));
                vstd::seq_lib::to_multiset_build(before, a@[i as int]);
                vstd::seq_lib::to_multiset_build(a@.take(i as int), a@[i as int]);
                assert(out@.to_multiset() =~= a@.take(i + 1).to_multiset().add(
                    b@.take(j as int).to_multiset(),
                ));
                if j < m {
                    assert forall|y: int| j <= y < m implies precedes(
                        a@[i as int],
                        #[trigger] b@[y],
                    ) by {
                        if y > j {
                            assert(precedes(b@[j as int], b@[y]));
                        }
                    }
                }
            }
            i = i + 1;
        } else {
            out.push(b[j]);
            proof {
                assert(b@.take(j + 1) =~= b@.take(j as int).push(b@[j as int]));
                vstd::seq_lib::to_multiset_build(before, b@[j as int]);
                vstd::seq_lib::to_multiset_build(b@.take(j as int), b@[j as int]);
                assert(out@.to_multiset() =~= a@.take(i as int).to_multiset().add(
                    b@.take(j + 1).to_multiset(),
                ));
                if i < n {
                    assert(a@[i as int].1 != b@[j as int].1);
                    assert forall|x: int| i <= x < n implies precedes(
                        b@[j as int],
                        #[trigger] a@[x],
                    ) by {
                        if x > i {
                            assert(precedes(a@[i as int], a@[x]));
                        }
                    }
                }
            }
            j = j + 1;
        }
    }
    assert(a@.take(n as int) =~= a@ && b@.take(m as int) =~= b@);
    out
}

proof fn lemma_same_entries(a: Seq<(u32, usize)>, b: Seq<(u32, usize)>, i: int)
    requires
        a.to_multiset() == b.to_multiset(),
        0 <= i < a.len(),
    ensures
        b.contains(a[i]),
{
    broadcast use vstd::seq_lib::group_to_multiset_ensures;

    assert(a.contains(a[i]));
    assert(a.to_multiset().count(a[i]) > 0);
    assert(b.to_multiset().count(a[i]) > 0);
}

/// Orders a list whose entries all have different places.
fn sort_entries(v: &Vec<(u32, usize)>, from: usize, to: usize) -> (r: Vec<(u32, usize)>)
    requires
        from <= to <= v@.len(),
        places_differ(v@),
    ensures
        ordered(r@),
        r@.len() == to - from,
        r@.to_multiset() == v@.subrange(from as int, to as int).to_multiset(),
    decreases to - from,
{
    broadcast use vstd::seq_lib::group_to_multiset_ensures;

    if to - from <= 1 {
        let mut out: Vec<(u32, usize)> = Vec::new();
        if to > from {
            out.push(v[from]);
        }
        assert(out@ =~= v@.subrange(from as int, to as int));
        return out;
    }
    let mid: usize = from + (to - from) / 2;
    let a: Vec<(u32, usize)> = sort_entries(v, from, mid);
    let b: Vec<(u32, usize)> = sort_entries(v, mid, to);
    proof {
        let (va, vb) = (
            v@.subrange(from as int, mid as int),
            v@.subrange(mid as int, to as int),
        );
        assert forall|i: int, j: int| 0 <= i < a@.len() && 0 <= j < b@.len() implies (
        #[trigger] a@[i]).1 != (#[trigger] b@[j]).1 by {
            lemma_same_entries(a@, va, i);
            lemma_same_entries(b@, vb, j);
            let x = va.index_of(a@[i]);
            let y = vb.index_of(b@[j]);
            assert(v@[from + x] == a@[i]);
            assert(v@[mid + y] == b@[j]);
        }
        assert(v@.subrange(from as int, to as int) =~= va + vb);
        vstd::seq_lib::lemma_multiset_commutative(va, vb);
    }
    merge(&a, &b)
}

/// A list of places that goes through `n` entries, each once, ordered by number and then by place.
pub open spec fn id_order(ids: Seq<u32>, p: Seq<int>) -> bool {
    &&& p.len() == ids.len()
    &&& forall|i: int| 0 <= i < p.len() ==> 0 <= #[trigger] p[i] < ids.len()
    &&& forall|i: int, j: int|
        0 <= i < j < p.len() ==> {
            let (a, b) = (#[trigger] p[i], #[trigger] p[j]);
            ids[a] < ids[b] || (ids[a] == ids[b] && a < b)
        }
}

/// The order goes through every entry.
pub proof fn law_order_is_complete(ids: Seq<u32>, p: Seq<int>, k: int)
    requires
        id_order(ids, p),
        0 <= k < ids.len(),
    ensures
        p.contains(k),
{
    let all = vstd::set_lib::set_int_range(0, ids.len() as int);
    vstd::set_lib::lemma_int_range(0, ids.len() as int);
    assert(p.no_duplicates()) by {
        assert forall|i: int, j: int| 0 <= i < p.len() && 0 <= j < p.len() && i != j implies p[i]
            != p[j] by {
            if i < j {
                let (a, b) = (p[i], p[j]);
            } else {
                let (a, b) = (p[j], p[i]);
            }
        }
    }
    p.unique_seq_to_set();
    assert(p.to_set().subset_of(all)) by {
        assert forall|x: int| p.to_set().contains(x) implies all.contains(x) by {
            let i = p.index_of(x);
            assert(p[i] == x);
        }
    }
    vstd::set_lib::lemma_subset_equality(p.to_set(), all);
    assert(p.to_set().contains(k));
}

/// The numbers of tokens, those of the vocabulary before the added ones.
pub open spec fn all_ids(vocab: Seq<TokenEntry>, added: Seq<TokenEntry>) -> Seq<u32> {
    Seq::new(
        vocab.len() + added.len(),
        |i: int|
            if i < vocab.len() {
                vocab[i].id
            } else {
                added[i - vocab.len()].id
            },
    )
}

/// The texts of tokens, those of the vocabulary before the added ones.
pub open spec fn all_texts(vocab: Seq<TokenEntry>, added: Seq<TokenEntry>) -> Seq<Seq<char>> {
    Seq::new(
        vocab.len() + added.len(),
        |i: int|
            if i < vocab.len() {
                lossy_text(vocab[i].str_bytes@)
            } else {
                lossy_text(added[i - vocab.len()].str_bytes@)
            },
    )
}

/// The texts of tokens by their places.
pub struct Vocabulary {
    pub tokens: Vec<String>,
}

/// Puts texts in the order of their numbers; texts with the same number keep their order.
pub fn order_texts(ids: &Vec<u32>, texts: &Vec<String>) -> (r: Vec<String>)
    requires
        ids@.len() == texts@.len(),
    ensures
        exists|p: Seq<int>| #[trigger]
            id_order(ids@, p) && views(r@) == Seq::new(p.len(), |i: int| texts@[p[i]]@),
{
    let mut v: Vec<(u32, usize)> = Vec::new();
    for i in 0..ids.len()
        invariant
            v@.len() == i,
            forall|k: int| 0 <= k < i ==> #[trigger] v@[k] == (ids@[k], k as usize),
    {
        v.push((ids[i], i));
    }
    let n: usize = v.len();
    let s: Vec<(u32, usize)> = sort_entries(&v, 0, n);
    let ghost p = Seq::new(n as nat, |i: int| s@[i].1 as int);
    proof {
        assert(v@.subrange(0, n as int) =~= v@);
        assert forall|i: int| 0 <= i < n implies (#[trigger] s@[i]).1 < n && s@[i].0
            == ids@[s@[i].1 as int] by {
            lemma_same_entries(s@, v@, i);
            let k = v@.index_of(s@[i]);
            assert(v@[k] == s@[i]);
        }
        assert(id_order(ids@, p)) by {
            assert forall|i: int, j: int| 0 <= i < j < p.len() implies {
                let (a, b) = (#[trigger] p[i], #[trigger] p[j]);
                ids@[a] < ids@[b] || (ids@[a] == ids@[b] && a < b)
            } by {
                assert(precedes(s@[i], s@[j]));
            }
        }
    }
    let mut out: Vec<String> = Vec::new();
    for i in 0..n
        invariant
            n == s@.len() == p.len() == texts@.len(),
            p == Seq::new(n as nat, |i: int| s@[i].1 as int),
            forall|k: int| 0 <= k < n ==> (#[trigger] s@[k]).1 < n,
            out@.len() == i,
            forall|k: int| 0 <= k < i ==> (#[trigger] out@[k])@ == texts@[p[k]]@,
    {
        let e: usize = s[i].1;
        assert(s@[i as int].1 < n);
        out.push(texts[e].clone());
    }
    assert(views(out@) =~= Seq::new(p.len(), |i: int| texts@[p[i]]@));
    out
}

impl Vocabulary {
    /// The texts of the tokens of a tokenizer, with the added ones, in the order of their numbers.
    pub fn from_tokenizer(vocab: &Vec<TokenEntry>, added: &Vec<TokenEntry>) -> (r: Self)
        ensures
            exists|p: Seq<int>| #[trigger]
                id_order(all_ids(vocab@, added@), p) && views(r.tokens@) == Seq::new(
                    p.len(),
                    |i: int| all_texts(vocab@, added@)[p[i]],
                ),
    {
        let mut ids: Vec<u32> = Vec::new();
        let mut texts: Vec<String> = Vec::new();
        let ghost (want_ids, want_texts) = (
            all_ids(vocab@, added@),
            all_texts(vocab@, added@),
        );
        for i in 0..vocab.len()
            invariant
                want_ids == all_ids(vocab@, added@),
                want_texts == all_texts(vocab@, added@),
                ids@.len() == i,
                texts@.len() == i,
                forall|k: int| 0 <= k < i ==> #[trigger] ids@[k] == want_ids[k],
                forall|k: int| 0 <= k < i ==> (#[trigger] texts@[k])@ == want_texts[k],
        {
            ids.push(vocab[i].id);
            texts.push(utf8_lossy(vocab[i].str_bytes.as_slice()));
        }
        for i in 0..added.len()
            invariant
                want_ids == all_ids(vocab@, added@),
                want_texts == all_texts(vocab@, added@),
                ids@.len() == vocab@.len() + i,
                texts@.len() == vocab@.len() + i,
                forall|k: int| 0 <= k < ids@.len() ==> #[trigger] ids@[k] == want_ids[k],
                forall|k: int| 0 <= k < texts@.len() ==> (#[trigger] texts@[k])@ == want_texts[k],
        {
            ids.push(added[i].id);
            texts.push(utf8_lossy(added[i].str_bytes.as_slice()));
        }
        assert(ids@ =~= want_ids);
        let tokens: Vec<String> = order_texts(&ids, &texts);
        proof {
            let p = choose|p: Seq<int>| #[trigger]
                id_order(ids@, p) && views(tokens@) == Seq::new(
                    p.len(),
                    |i: int| texts@[p[i]]@,
                );
            assert(Seq::new(p.len(), |i: int| texts@[p[i]]@) =~= Seq::new(
                p.len(),
                |i: int| want_texts[p[i]],
            ));
            assert(id_order(want_ids, p));
        }
        Vocabulary { tokens }
    }

    /// The text of the token at a place, and a mark where there is none.
    pub fn decode(&self, token_id: usize) -> (r: &str)
        ensures
            r@ == if token_id < self.tokens@.len() {
                self.tokens@[token_id as int]@
            } else {
                "<unk>"@
            },
    {
        if token_id < self.tokens.len() {
            self.tokens[token_id].as_str()
        } else {
            "<unk>"
        }
    }
}

/// Where the numbers of the tokens are the places from zero on, in any order, the text at a place
/// is the text of the token with that number.
pub proof fn law_decode_finds_token(ids: Seq<u32>, p: Seq<int>, k: int)
    requires
        id_order(ids, p),
        0 <= k < ids.len(),
        forall|i: int| 0 <= i < ids.len() ==> #[trigger] ids[i] < ids.len(),
        forall|i: int, j: int|
            0 <= i < j < ids.len() ==> #[trigger] ids[i] != #[trigger] ids[j],
    ensures
        ids[p[k]] == k,
{
    lemma_at_least(ids, p, k);
    lemma_at_most(ids, p, k);
}

proof fn lemma_at_least(ids: Seq<u32>, p: Seq<int>, k: int)
    requires
        id_order(ids, p),
        0 <= k < ids.len(),
        forall|i: int, j: int|
            0 <= i < j < ids.len() ==> #[trigger] ids[i] != #[trigger] ids[j],
    ensures
        ids[p[k]] >= k,
    decreases k,
{
    if k > 0 {
        lemma_at_least(ids, p, k - 1);
        let (a, b) = (p[k - 1], p[k]);
        assert(ids[a] != ids[b]);
    }
}

proof fn lemma_at_most(ids: Seq<u32>, p: Seq<int>, k: int)
    requires
        id_order(ids, p),
        0 <= k < ids.len(),
        forall|i: int| 0 <= i < ids.len() ==> #[trigger] ids[i] < ids.len(),
        forall|i: int, j: int|
            0 <= i < j < ids.len() ==> #[trigger] ids[i] != #[trigger] ids[j],
    ensures
        ids[p[k]] <= k,
    decreases ids.len() - k,
{
    let n = ids.len() as int;
    if k == n - 1 {
        assert(ids[p[k]] < n);
    } else {
        lemma_at_most(ids, p, k + 1);
        let (a, b) = (p[k], p[k + 1]);
        assert(ids[a] != ids[b]);
    }
}

/// The entries of a vocabulary and the added ones in one list: each keeps its number and its text,
/// and the added ones stand behind the others.
pub proof fn law_token_entries(vocab: Seq<TokenEntry>, added: Seq<TokenEntry>, i: int)
    requires
        0 <= i < vocab.len() + added.len(),
    ensures
        all_ids(vocab, added).len() == vocab.len() + added.len(),
        all_texts(vocab, added).len() == vocab.len() + added.len(),
        all_ids(vocab, added)[i] == (vocab + added)[i].id,
        all_texts(vocab, added)[i] == lossy_text((vocab + added)[i].str_bytes@),
{
}

/// Where the numbers of all tokens are the places from zero on, in any order, the number of every
/// token finds the text of its bytes.
pub proof fn law_token_text(
    vocab: Seq<TokenEntry>,
    added: Seq<TokenEntry>,
    p: Seq<int>,
    k: int,
)
    requires
        id_order(all_ids(vocab, added), p),
        0 <= k < vocab.len() + added.len(),
        forall|i: int|
            0 <= i < vocab.len() + added.len() ==> (#[trigger] (vocab + added)[i]).id < vocab.len()
                + added.len(),
        forall|i: int, j: int|
            0 <= i < j < vocab.len() + added.len() ==> (#[trigger] (vocab + added)[i]).id != (
            #[trigger] (vocab + added)[j]).id,
    ensures
        ({
            let e = (vocab + added)[k];
            Seq::new(p.len(), |i: int| all_texts(vocab, added)[p[i]])[e.id as int] == lossy_text(
                e.str_bytes@,
            )
        }),
{
    let all = vocab + added;
    let ids = all_ids(vocab, added);
    assert forall|i: int| 0 <= i < ids.len() implies #[trigger] ids[i] == all[i].id by {
        law_token_entries(vocab, added, i);
    }
    assert forall|i: int, j: int| 0 <= i < j < ids.len() implies #[trigger] ids[i]
        != #[trigger] ids[j] by {
        assert(all[i].id != all[j].id);
    }
    assert forall|i: int| 0 <= i < ids.len() implies #[trigger] ids[i] < ids.len() by {
        assert(all[i].id < ids.len());
    }
    let at = all[k].id as int;
    law_decode_finds_token(ids, p, at);
    let q = p[at];
    assert(ids[q] == ids[k]);
    if q < k {
        assert(ids[q] != ids[k]);
    } else if k < q {
        assert(ids[k] != ids[q]);
    }
    law_token_entries(vocab, added, k);
}

} // verus!
