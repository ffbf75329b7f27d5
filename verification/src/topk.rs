//! Choosing the `k` largest of a list of scores with a heap whose root is the smallest chosen.

use crate::float::{F32, flt, key, nan};
use vstd::prelude::*;

verus! {

/// A list with two places exchanged.
pub open spec fn swapped<T>(h: Seq<T>, a: int, b: int) -> Seq<T> {
    h.update(a, h[b]).update(b, h[a])
}

/// Moves the entry at `pos` up while it is smaller than its parent.
pub open spec fn sift_up(h: Seq<(F32, int)>, pos: int) -> Seq<(F32, int)>
    decreases pos,
{
    let parent = (pos - 1) / 2;
    if pos > 0 && flt(h[pos].0, h[parent].0) {
        sift_up(swapped(h, pos, parent), parent)
    } else {
        h
    }
}

/// The place of the smallest of an entry and its children among the first `k` entries; the entry
/// itself, else the left child, where several are smallest.
pub open spec fn smallest_of(h: Seq<(F32, int)>, pos: int, k: int) -> int {
    let (left, right) = (2 * pos + 1, 2 * pos + 2);
    let s = if left < k && flt(h[left].0, h[pos].0) {
        left
    } else {
        pos
    };
    if right < k && flt(h[right].0, h[s].0) {
        right
    } else {
        s
    }
}

/// Moves the entry at `pos` down while a child is smaller.
pub open spec fn sift_down(h: Seq<(F32, int)>, pos: int, k: int) -> Seq<(F32, int)>
    decreases k - pos,
{
    let s = smallest_of(h, pos, k);
    if pos < 0 || s <= pos {
        h
    } else {
        sift_down(swapped(h, pos, s), s, k)
    }
}

/// The heap after score number `i`: the first `k` scores are put in; after that a score that is
/// larger than the root takes its place.
pub open spec fn topk_step(h: Seq<(F32, int)>, scores: Seq<F32>, k: int, i: int) -> Seq<
    (F32, int),
> {
    if i < k {
        sift_up(h.update(i, (scores[i], i)), i)
    } else if flt(h[0].0, scores[i]) {
        sift_down(h.update(0, (scores[i], i)), 0, k)
    } else {
        h
    }
}

/// The heap after the first `n` scores.
pub open spec fn topk_of(h: Seq<(F32, int)>, scores: Seq<F32>, k: int, n: int) -> Seq<(F32, int)>
    decreases n,
{
    if n <= 0 {
        h
    } else {
        topk_step(topk_of(h, scores, k, n - 1), scores, k, n - 1)
    }
}

/// Values and indices side by side, as far as both go.
pub open spec fn entries(values: Seq<F32>, indices: Seq<usize>) -> Seq<(F32, int)> {
    let n = if values.len() <= indices.len() {
        values.len()
    } else {
        indices.len()
    };
    Seq::new(n, |j: int| (values[j], indices[j] as int))
}

/// Two lists agree from place `k` on, and at least from place one on.
pub open spec fn same_behind<T>(a: Seq<T>, b: Seq<T>, k: int) -> bool {
    &&& a.len() == b.len()
    &&& forall|j: int| k <= j < a.len() && 1 <= j ==> #[trigger] a[j] == b[j]
}

/// Puts the `k` largest scores and their places into the first `k` places of `values` and
/// `indices`.
pub fn cpu_topk(scores: &[F32], k: usize, indices: &mut Vec<usize>, values: &mut Vec<F32>)
    requires
        k <= old(values)@.len(),
        k <= old(indices)@.len(),
        k <= usize::MAX / 2 - 1,
        scores@.len() > 0 ==> old(values)@.len() > 0 && old(indices)@.len() > 0,
    ensures
        same_behind(final(values)@, old(values)@, k as int),
        same_behind(final(indices)@, old(indices)@, k as int),
        entries(final(values)@, final(indices)@) == topk_of(
            entries(old(values)@, old(indices)@),
            scores@,
            k as int,
            scores@.len() as int,
        ),
{
    let ghost start = entries(values@, indices@);
    let ghost (v0, i0) = (values@, indices@);
    let len: usize = if values.len() <= indices.len() {
        values.len()
    } else {
        indices.len()
    };
    for i in 0..scores.len()
        invariant
            same_behind(values@, v0, k as int),
            same_behind(indices@, i0, k as int),
            len <= v0.len(),
            len <= i0.len(),
            len == v0.len() || len == i0.len(),
            k <= len,
            k <= usize::MAX / 2 - 1,
            scores@.len() > 0 ==> len > 0,
            entries(values@, indices@) == topk_of(start, scores@, k as int, i as int),
    {
        let score: F32 = scores[i];
        let ghost before = entries(values@, indices@);
        if i < k {
            let ghost target = topk_step(before, scores@, k as int, i as int);
            let ghost x = (score, i as int);
            let mut pos: usize = i;
            assert(entries(values@, indices@).update(i as int, x) == before.update(i as int, x));
            while pos > 0 && score.less(values[(pos - 1) / 2])
                invariant
                    same_behind(values@, v0, k as int),
                    same_behind(indices@, i0, k as int),
                    len <= v0.len(),
                    len <= i0.len(),
                    len == v0.len() || len == i0.len(),
                    pos < k <= len,
                    x.0 == score,
                    target == sift_up(entries(values@, indices@).update(pos as int, x), pos as int),
                decreases pos,
            {
                let parent: usize = (pos - 1) / 2;
                let ghost here = entries(values@, indices@);
                let v: F32 = values[parent];
                let ix: usize = indices[parent];
                values.set(pos, v);
                indices.set(pos, ix);
                proof {
                    let h = here.update(pos as int, x);
                    assert(entries(values@, indices@).update(parent as int, x) =~= swapped(
                        h,
                        pos as int,
                        parent as int,
                    ));
                }
                pos = parent;
            }
            proof {
                let h = entries(values@, indices@).update(pos as int, x);
                if pos > 0 {
                    assert(h[(pos - 1) / 2] == entries(values@, indices@)[(pos - 1) / 2]);
                }
                assert(target == h);
            }
            let ghost here = entries(values@, indices@);
            values.set(pos, score);
            indices.set(pos, i);
            assert(entries(values@, indices@) =~= here.update(pos as int, x));
        } else if values[0].less(score) {
            let ghost target = topk_step(before, scores@, k as int, i as int);
            values.set(0, score);
            indices.set(0, i);
            assert(entries(values@, indices@) =~= before.update(0, (score, i as int)));
            let mut pos: usize = 0;
            let mut done: bool = false;
            while !done
                invariant
                    same_behind(values@, v0, k as int),
                    same_behind(indices@, i0, k as int),
                    len <= v0.len(),
                    len <= i0.len(),
                    len == v0.len() || len == i0.len(),
                    k <= len,
                    k <= usize::MAX / 2 - 1,
                    pos < len,
                    pos < k || pos == 0,
                    !done ==> target == sift_down(entries(values@, indices@), pos as int, k as int),
                    done ==> target == entries(values@, indices@),
                decreases len - pos, (if done { 0int } else { 1int }),
            {
                let left: usize = 2 * pos + 1;
                let right: usize = 2 * pos + 2;
                let mut smallest: usize = pos;
                if left < k && values[left].less(values[smallest]) {
                    smallest = left;
                }
                if right < k && values[right].less(values[smallest]) {
                    smallest = right;
                }
                assert(smallest == smallest_of(entries(values@, indices@), pos as int, k as int));
                if smallest == pos {
                    done = true;
                } else {
                    let ghost here = entries(values@, indices@);
                    let (va, vb) = (values[pos], values[smallest]);
                    let (ia, ib) = (indices[pos], indices[smallest]);
                    values.set(pos, vb);
                    values.set(smallest, va);
                    indices.set(pos, ib);
                    indices.set(smallest, ia);
                    assert(entries(values@, indices@) =~= swapped(
                        here,
                        pos as int,
                        smallest as int,
                    ));
                    pos = smallest;
                }
            }
        }
    }
}

proof fn lemma_up_len(h: Seq<(F32, int)>, pos: int)
    requires
        0 <= pos < h.len(),
    ensures
        sift_up(h, pos).len() == h.len(),
    decreases pos,
{
    let parent = (pos - 1) / 2;
    if pos > 0 && flt(h[pos].0, h[parent].0) {
        lemma_up_len(swapped(h, pos, parent), parent);
    }
}

proof fn lemma_down_len(h: Seq<(F32, int)>, pos: int, k: int)
    requires
        0 <= pos < h.len(),
        k <= h.len(),
    ensures
        sift_down(h, pos, k).len() == h.len(),
    decreases k - pos,
{
    let s = smallest_of(h, pos, k);
    if pos >= 0 && s > pos {
        lemma_down_len(swapped(h, pos, s), s, k);
    }
}

/// A score does not change the number of entries.
pub proof fn lemma_step_len(h: Seq<(F32, int)>, scores: Seq<F32>, k: int, i: int)
    requires
        0 <= i,
        k <= h.len(),
        0 < h.len(),
    ensures
        topk_step(h, scores, k, i).len() == h.len(),
{
    if i < k {
        lemma_up_len(h.update(i, (scores[i], i)), i);
    }
    lemma_down_len(h.update(0, (scores[i], i)), 0, k);
}

/// The entry at `j` is at least its parent.
pub open spec fn in_order(h: Seq<(F32, int)>, j: int) -> bool {
    key(h[(j - 1) / 2].0) <= key(h[j].0)
}

/// Each of the first `n` entries is at least its parent.
pub open spec fn is_heap(h: Seq<(F32, int)>, n: int) -> bool {
    forall|j: int| 0 < j < n ==> #[trigger] in_order(h, j)
}

/// Place `i` is among the first `n` entries.
pub open spec fn is_in(h: Seq<(F32, int)>, n: int, i: int) -> bool {
    exists|j: int| 0 <= j < n && (#[trigger] h[j]).1 == i
}

/// A score is at most each of the first `n` entries.
pub open spec fn below(h: Seq<(F32, int)>, n: int, s: F32) -> bool {
    forall|j: int| 0 <= j < n ==> key(s) <= key((#[trigger] h[j]).0)
}

/// The first `n` entries are scores with their places, no place occurs twice, and a score among
/// the first `p` that is not there is at most each of them.
pub open spec fn chosen(h: Seq<(F32, int)>, n: int, scores: Seq<F32>, p: int) -> bool {
    &&& forall|j: int|
        0 <= j < n ==> 0 <= (#[trigger] h[j]).1 < p && h[j].0 == scores[h[j].1]
    &&& forall|a: int, b: int| 0 <= a < b < n ==> (#[trigger] h[a]).1 != (#[trigger] h[b]).1
    &&& forall|i: int| 0 <= i < p ==> #[trigger] is_in(h, n, i) || below(h, n, scores[i])
}

proof fn lemma_swap_chosen(h: Seq<(F32, int)>, n: int, scores: Seq<F32>, p: int, a: int, b: int)
    requires
        chosen(h, n, scores, p),
        n <= h.len(),
        0 <= a < n,
        0 <= b < n,
    ensures
        chosen(swapped(h, a, b), n, scores, p),
        forall|i: int| is_in(h, n, i) ==> #[trigger] is_in(swapped(h, a, b), n, i),
{
    let g = swapped(h, a, b);
    assert forall|i: int| is_in(h, n, i) implies #[trigger] is_in(g, n, i) by {
        let j = choose|j: int| 0 <= j < n && (#[trigger] h[j]).1 == i;
        let t = if j == a {
            b
        } else if j == b {
            a
        } else {
            j
        };
        assert(g[t].1 == i);
    }
    assert forall|i: int| 0 <= i < p implies #[trigger] is_in(g, n, i) || below(g, n, scores[i]) by {
        if !is_in(g, n, i) {
            assert(!is_in(h, n, i));
            assert(below(h, n, scores[i]));
        }
    }
}

proof fn lemma_up_chosen(h: Seq<(F32, int)>, n: int, scores: Seq<F32>, p: int, pos: int)
    requires
        0 <= pos < n <= h.len(),
        chosen(h, n, scores, p),
    ensures
        chosen(sift_up(h, pos), n, scores, p),
        sift_up(h, pos).len() == h.len(),
        forall|i: int| is_in(h, n, i) ==> #[trigger] is_in(sift_up(h, pos), n, i),
    decreases pos,
{
    let parent = (pos - 1) / 2;
    if pos > 0 && flt(h[pos].0, h[parent].0) {
        lemma_swap_chosen(h, n, scores, p, pos, parent);
        lemma_up_chosen(swapped(h, pos, parent), n, scores, p, parent);
    }
}

proof fn lemma_down_chosen(h: Seq<(F32, int)>, n: int, scores: Seq<F32>, p: int, pos: int)
    requires
        0 <= pos < n <= h.len(),
        chosen(h, n, scores, p),
    ensures
        chosen(sift_down(h, pos, n), n, scores, p),
        sift_down(h, pos, n).len() == h.len(),
    decreases n - pos,
{
    let s = smallest_of(h, pos, n);
    if s > pos {
        lemma_swap_chosen(h, n, scores, p, pos, s);
        lemma_down_chosen(swapped(h, pos, s), n, scores, p, s);
    }
}

/// Every entry is at least its parent, but for the one at `pos`, which may be smaller than its
/// parent, while its children are at least its parent.
spec fn heap_but_up(h: Seq<(F32, int)>, n: int, pos: int) -> bool {
    &&& forall|j: int| 0 < j < n && j != pos ==> #[trigger] in_order(h, j)
    &&& pos > 0 && 2 * pos + 1 < n ==> key(h[(pos - 1) / 2].0) <= key(h[2 * pos + 1].0)
    &&& pos > 0 && 2 * pos + 2 < n ==> key(h[(pos - 1) / 2].0) <= key(h[2 * pos + 2].0)
}

proof fn lemma_up(h: Seq<(F32, int)>, n: int, pos: int)
    requires
        0 <= pos < n <= h.len(),
        forall|j: int| 0 <= j < n ==> !nan((#[trigger] h[j]).0),
        heap_but_up(h, n, pos),
    ensures
        is_heap(sift_up(h, pos), n),
    decreases pos,
{
    let parent = (pos - 1) / 2;
    if pos > 0 && flt(h[pos].0, h[parent].0) {
        let g = swapped(h, pos, parent);
        assert forall|j: int| 0 < j < n && j != parent implies #[trigger] in_order(g, j) by {
            if j != pos {
                assert(in_order(h, j));
                if (j - 1) / 2 == pos {
                    assert(j == 2 * pos + 1 || j == 2 * pos + 2);
                }
            }
        }
        if parent > 0 {
            assert(in_order(h, parent));
            let (a, b) = (2 * parent + 1, 2 * parent + 2);
            assert(pos == a || pos == b);
            if a < n && a != pos {
                assert(in_order(h, a));
            }
            if b < n && b != pos {
                assert(in_order(h, b));
            }
        }
        lemma_up(g, n, parent);
    } else {
        assert forall|j: int| 0 < j < n implies #[trigger] in_order(h, j) by {
            if j == pos {
                assert(key(h[parent].0) <= key(h[pos].0));
            }
        }
    }
}

/// Every entry is at least its parent, but for the children of `pos`, which are at least the
/// parent of `pos`.
spec fn heap_but_down(h: Seq<(F32, int)>, n: int, pos: int) -> bool {
    &&& forall|j: int| 0 < j < n && (j - 1) / 2 != pos ==> #[trigger] in_order(h, j)
    &&& pos > 0 && 2 * pos + 1 < n ==> key(h[(pos - 1) / 2].0) <= key(h[2 * pos + 1].0)
    &&& pos > 0 && 2 * pos + 2 < n ==> key(h[(pos - 1) / 2].0) <= key(h[2 * pos + 2].0)
}

proof fn lemma_down(h: Seq<(F32, int)>, n: int, pos: int)
    requires
        0 <= pos < n <= h.len(),
        forall|j: int| 0 <= j < n ==> !nan((#[trigger] h[j]).0),
        heap_but_down(h, n, pos),
    ensures
        is_heap(sift_down(h, pos, n), n),
    decreases n - pos,
{
    let s = smallest_of(h, pos, n);
    let (left, right) = (2 * pos + 1, 2 * pos + 2);
    if left < n {
        assert(!nan(h[left].0));
    }
    if right < n {
        assert(!nan(h[right].0));
    }
    assert(!nan(h[pos].0));
    assert(left < n ==> key(h[s].0) <= key(h[left].0));
    assert(right < n ==> key(h[s].0) <= key(h[right].0));
    if s <= pos {
        assert forall|j: int| 0 < j < n implies #[trigger] in_order(h, j) by {
            if (j - 1) / 2 == pos {
                assert(j == left || j == right);
            }
        }
    } else {
        let g = swapped(h, pos, s);
        assert((s - 1) / 2 == pos);
        assert forall|j: int| 0 < j < n && (j - 1) / 2 != s implies #[trigger] in_order(g, j) by {
            if (j - 1) / 2 == pos {
                assert(j == left || j == right);
            } else {
                assert(in_order(h, j));
            }
        }
        if 2 * s + 1 < n {
            assert(in_order(h, 2 * s + 1));
        }
        if 2 * s + 2 < n {
            assert(in_order(h, 2 * s + 2));
        }
        lemma_down(g, n, s);
    }
}

proof fn lemma_root(h: Seq<(F32, int)>, n: int, j: int)
    requires
        is_heap(h, n),
        0 <= j < n,
    ensures
        key(h[0].0) <= key(h[j].0),
    decreases j,
{
    if j > 0 {
        lemma_root(h, n, (j - 1) / 2);
        assert(in_order(h, j));
    }
}

proof fn lemma_insert(before: Seq<(F32, int)>, scores: Seq<F32>, i: int)
    requires
        0 <= i < before.len(),
        i < scores.len(),
        is_heap(before, i),
        chosen(before, i, scores, i),
        forall|t: int| 0 <= t < i ==> #[trigger] is_in(before, i, t),
        forall|t: int| 0 <= t <= i ==> !nan(#[trigger] scores[t]),
    ensures
        ({
            let r = sift_up(before.update(i, (scores[i], i)), i);
            &&& r.len() == before.len()
            &&& is_heap(r, i + 1)
            &&& chosen(r, i + 1, scores, i + 1)
            &&& forall|t: int| 0 <= t < i + 1 ==> #[trigger] is_in(r, i + 1, t)
        }),
{
    let g = before.update(i, (scores[i], i));
    let n = i + 1;
    assert forall|t: int| 0 <= t < n implies #[trigger] is_in(g, n, t) by {
        if t == i {
            assert(g[i].1 == t);
        } else {
            assert(is_in(before, i, t));
            let j = choose|j: int| 0 <= j < i && (#[trigger] before[j]).1 == t;
            assert(g[j].1 == t);
        }
    }
    assert(chosen(g, n, scores, n));
    assert forall|j: int| 0 < j < n && j != i implies #[trigger] in_order(g, j) by {
        assert(in_order(before, j));
    }
    assert forall|j: int| 0 <= j < n implies !nan((#[trigger] g[j]).0) by {
        assert(g[j].0 == scores[g[j].1]);
    }
    lemma_up_chosen(g, n, scores, n, i);
    lemma_up(g, n, i);
}

proof fn lemma_replace(before: Seq<(F32, int)>, scores: Seq<F32>, k: int, i: int)
    requires
        0 < k <= before.len(),
        0 <= i < scores.len(),
        is_heap(before, k),
        chosen(before, k, scores, i),
        forall|t: int| 0 <= t <= i ==> !nan(#[trigger] scores[t]),
        flt(before[0].0, scores[i]),
    ensures
        ({
            let r = sift_down(before.update(0, (scores[i], i)), 0, k);
            &&& r.len() == before.len()
            &&& is_heap(r, k)
            &&& chosen(r, k, scores, i + 1)
        }),
{
    let g = before.update(0, (scores[i], i));
    let n = i + 1;
    assert forall|t: int| 0 <= t < n implies #[trigger] is_in(g, k, t) || below(
        g,
        k,
        scores[t],
    ) by {
        if t == i {
            assert(g[0].1 == t);
        } else if is_in(before, k, t) {
            let j = choose|j: int| 0 <= j < k && (#[trigger] before[j]).1 == t;
            if j > 0 {
                assert(g[j].1 == t);
            } else {
                assert(before[0].0 == scores[t]);
                assert forall|c: int| 0 <= c < k implies key(scores[t]) <= key(
                    (#[trigger] g[c]).0,
                ) by {
                    lemma_root(before, k, c);
                }
            }
        } else {
            assert(below(before, k, scores[t]));
            assert(key(scores[t]) <= key(before[0].0));
            assert forall|c: int| 0 <= c < k implies key(scores[t]) <= key((#[trigger] g[c]).0) by {
                assert(key(scores[t]) <= key(before[c].0));
            }
        }
    }
    assert(chosen(g, k, scores, n));
    assert forall|j: int| 0 < j < k && (j - 1) / 2 != 0 implies #[trigger] in_order(g, j) by {
        assert(in_order(before, j));
    }
    assert forall|j: int| 0 <= j < k implies !nan((#[trigger] g[j]).0) by {
        assert(g[j].0 == scores[g[j].1]);
    }
    lemma_down_chosen(g, k, scores, n, 0);
    lemma_down(g, k, 0);
}

/// The number of entries in use after `n` scores.
pub open spec fn in_use(k: int, n: int) -> int {
    if n < k {
        n
    } else {
        k
    }
}

/// Of scores that are numbers, the result holds `k`, or all where there are fewer: each value with
/// its place, no place twice, none that is left out larger than one that is chosen, and no entry
/// smaller than its parent.
pub proof fn law_topk(h: Seq<(F32, int)>, scores: Seq<F32>, k: int, n: int)
    requires
        0 < k <= h.len(),
        0 <= n <= scores.len(),
        forall|i: int| 0 <= i < n ==> !nan(#[trigger] scores[i]),
    ensures
        topk_of(h, scores, k, n).len() == h.len(),
        is_heap(topk_of(h, scores, k, n), in_use(k, n)),
        chosen(topk_of(h, scores, k, n), in_use(k, n), scores, n),
        n <= k ==> forall|t: int| 0 <= t < n ==> #[trigger] is_in(topk_of(h, scores, k, n), n, t),
    decreases n,
{
    if n > 0 {
        law_topk(h, scores, k, n - 1);
        let before = topk_of(h, scores, k, n - 1);
        let i = n - 1;
        if i < k {
            lemma_insert(before, scores, i);
        } else if flt(before[0].0, scores[i]) {
            lemma_replace(before, scores, k, i);
        } else {
            assert(before[0].0 == scores[before[0].1]);
            assert(!nan(scores[i]) && !nan(before[0].0));
            assert forall|c: int| 0 <= c < k implies key(scores[i]) <= key((#[trigger] before[c]).0) by {
                lemma_root(before, k, c);
            }
            assert(below(before, k, scores[i]));
            assert forall|t: int| 0 <= t < n implies #[trigger] is_in(before, k, t) || below(
                before,
                k,
                scores[t],
            ) by {
            }
        }
    }
}

proof fn lemma_swap_entries(h: Seq<(F32, int)>, n: int, a: int, b: int)
    requires
        0 <= a < n <= h.len(),
        0 <= b < n,
    ensures
        swapped(h, a, b).take(n).to_multiset() == h.take(n).to_multiset(),
{
    broadcast use vstd::seq_lib::group_to_multiset_ensures;

    let t = h.take(n);
    let m = t.to_multiset();
    let u = t.update(a, t[b]);
    assert(swapped(h, a, b).take(n) =~= u.update(b, t[a]));
    assert(u.to_multiset() == m.insert(t[b]).remove(t[a]));
    assert(u.update(b, t[a]).to_multiset() == u.to_multiset().insert(t[a]).remove(u[b]));
    assert(u[b] == t[b]);
    assert(m.count(t[a]) > 0) by {
        assert(t.contains(t[a]));
    }
    assert(m.insert(t[b]).remove(t[a]).insert(t[a]).remove(t[b]) =~= m);
}

proof fn lemma_up_entries(h: Seq<(F32, int)>, n: int, pos: int)
    requires
        0 <= pos < n <= h.len(),
    ensures
        sift_up(h, pos).take(n).to_multiset() == h.take(n).to_multiset(),
    decreases pos,
{
    let parent = (pos - 1) / 2;
    if pos > 0 && flt(h[pos].0, h[parent].0) {
        lemma_swap_entries(h, n, pos, parent);
        lemma_up_entries(swapped(h, pos, parent), n, parent);
    }
}

proof fn lemma_down_entries(h: Seq<(F32, int)>, n: int, pos: int)
    requires
        0 <= pos < n <= h.len(),
    ensures
        sift_down(h, pos, n).take(n).to_multiset() == h.take(n).to_multiset(),
    decreases n - pos,
{
    let s = smallest_of(h, pos, n);
    if s > pos {
        lemma_swap_entries(h, n, pos, s);
        lemma_down_entries(swapped(h, pos, s), n, s);
    }
}

/// One more score. While there is room it comes in and none leaves. Then it comes in exactly where
/// it is larger than a score that is in, and one of the smallest leaves; a score that is only equal
/// to the smallest changes nothing, so of equal scores the earlier one stays.
pub proof fn law_one_more_score(h: Seq<(F32, int)>, scores: Seq<F32>, k: int, n: int)
    requires
        0 < k <= h.len(),
        0 <= n < scores.len(),
        forall|i: int| 0 <= i <= n ==> !nan(#[trigger] scores[i]),
    ensures
        ({
            let (before, after) = (topk_of(h, scores, k, n), topk_of(h, scores, k, n + 1));
            let new = (scores[n], n);
            let room = n < k;
            let larger = exists|j: int| 0 <= j < k && flt((#[trigger] before[j]).0, scores[n]);
            &&& room ==> after.take(n + 1).to_multiset() == before.take(n).to_multiset().insert(new)
            &&& !room && !larger ==> after == before
            &&& !room && larger ==> after.take(k).to_multiset() == before.take(
                k,
            ).to_multiset().remove(before[0]).insert(new)
            &&& !room ==> forall|j: int| 0 <= j < k ==> !flt((#[trigger] before[j]).0, before[0].0)
        }),
{
    broadcast use vstd::seq_lib::group_to_multiset_ensures;

    law_topk(h, scores, k, n);
    let before = topk_of(h, scores, k, n);
    let new = (scores[n], n);
    if n < k {
        let g = before.update(n, new);
        lemma_up_entries(g, n + 1, n);
        assert(g.take(n + 1) =~= before.take(n).push(new));
        vstd::seq_lib::to_multiset_build(before.take(n), new);
    } else {
        assert forall|j: int| 0 <= j < k implies !flt((#[trigger] before[j]).0, before[0].0) by {
            lemma_root(before, k, j);
            assert(before[j].0 == scores[before[j].1]);
            assert(before[0].0 == scores[before[0].1]);
        }
        if flt(before[0].0, scores[n]) {
            let g = before.update(0, new);
            lemma_down_entries(g, k, 0);
            let t = before.take(k);
            assert(g.take(k) =~= t.update(0, new));
            assert(t.update(0, new).to_multiset() == t.to_multiset().insert(new).remove(t[0]));
            assert(t.to_multiset().count(t[0]) > 0) by {
                assert(t.contains(t[0]));
            }
            assert(t.to_multiset().insert(new).remove(t[0]) =~= t.to_multiset().remove(
                t[0],
            ).insert(new));
        } else {
            assert forall|j: int| 0 <= j < k implies !flt((#[trigger] before[j]).0, scores[n]) by {
                lemma_root(before, k, j);
                assert(before[j].0 == scores[before[j].1]);
                assert(before[0].0 == scores[before[0].1]);
                assert(!nan(scores[n]));
            }
        }
    }
}

} // verus!
