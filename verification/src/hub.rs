//! Which files of a model are needed.

use crate::chars::chars_of;
use crate::json::{
    entry_views, json_entries, json_entries_of, json_error, json_fault, json_members,
    json_members_of, member_views, text_view,
};
use crate::text::{same_text, views};
use vstd::prelude::*;
use vstd::string::*;

verus! {

/// The weight map of an index, from its entries: a tensor whose file is not a text has the empty
/// name as its file.
pub open spec fn files_of(e: Seq<(Seq<char>, Option<Seq<char>>)>) -> Seq<(Seq<char>, Seq<char>)> {
    Seq::new(
        e.len(),
        |i: int|
            (
                e[i].0,
                match e[i].1 {
                    Some(f) => f,
                    None => Seq::empty(),
                },
            ),
    )
}

/// The weight map of an index, or why there is none: the index is not valid, or it has no map.
pub open spec fn weight_map_result(
    fault: Option<Seq<char>>,
    entries: Option<Seq<(Seq<char>, Option<Seq<char>>)>>,
    r: Result<Vec<(String, String)>, String>,
) -> bool {
    match r {
        Ok(m) => fault is None && entries is Some && member_views(m@) == files_of(entries->0),
        Err(e) => match fault {
            Some(f) => e@ == "parse index: "@ + f,
            None => entries is None && e@ == "no weight_map in index"@,
        },
    }
}

/// The weight map of an index from what was read of it.
pub fn weight_map_from(
    fault: Option<String>,
    entries: Option<Vec<(String, Option<String>)>>,
) -> (r: Result<Vec<(String, String)>, String>)
    ensures
        weight_map_result(
            text_view(fault),
            match entries {
                Some(v) => Some(entry_views(v@)),
                None => None,
            },
            r,
        ),
{
    match fault {
        Some(f) => {
            let mut s: String = "parse index: ".to_owned();
            s.append(f.as_str());
            return Err(s);
        },
        None => {},
    }
    match entries {
        None => Err("no weight_map in index".to_owned()),
        Some(v) => {
            let mut out: Vec<(String, String)> = Vec::new();
            let ghost target = files_of(entry_views(v@));
            for i in 0..v.len()
                invariant
                    target == files_of(entry_views(v@)),
                    out@.len() == i,
                    forall|k: int| 0 <= k < i ==> member_views(out@)[k] == #[trigger] target[k],
            {
                let file: String = match &v[i].1 {
                    Some(f) => f.clone(),
                    None => String::new(),
                };
                proof {
                    reveal_strlit("");
                    assert(file@ =~= target[i as int].1);
                }
                let ghost before = out@;
                out.push((v[i].0.clone(), file));
                assert forall|k: int| 0 <= k < i + 1 implies member_views(out@)[k]
                    == #[trigger] target[k] by {
                    if k < i {
                        assert(member_views(out@)[k] == member_views(before)[k]);
                    }
                }
            }
            assert(member_views(out@) =~= target);
            Ok(out)
        },
    }
}

/// No tensor occurs twice in a weight map.
pub open spec fn names_once(m: Seq<(Seq<char>, Seq<char>)>) -> bool {
    forall|i: int, j: int| 0 <= i < j < m.len() ==> (#[trigger] m[i]).0 != (#[trigger] m[j]).0
}

/// Reads the weight map from the text of an index.
pub fn weight_map(index: &str) -> (r: Result<Vec<(String, String)>, String>)
    ensures
        weight_map_result(json_fault(index@), json_entries_of(index@, "weight_map"@), r),
        r matches Ok(m) ==> names_once(member_views(m@)),
{
    let fault: Option<String> = json_error(index);
    let entries: Option<Vec<(String, Option<String>)>> = json_entries(index, "weight_map");
    let ghost read = entries;
    let r: Result<Vec<(String, String)>, String> = weight_map_from(fault, entries);
    proof {
        if r is Ok {
            let m = member_views(r->Ok_0@);
            let v = read->0@;
            assert forall|i: int, j: int| 0 <= i < j < m.len() implies (#[trigger] m[i]).0 != (
            #[trigger] m[j]).0 by {
                assert(m[i].0 == v[i].0@ && m[j].0 == v[j].0@);
            }
        }
    }
    r
}

/// What the index of a model says: which file holds which tensor, and the metadata, each with its
/// value as a JSON text.
pub struct ModelIndex {
    pub weight_map: Vec<(String, String)>,
    pub metadata: Vec<(String, String)>,
}

/// The metadata of an index: the members of its object, and none where there is no such object.
pub open spec fn metadata_of(members: Option<Seq<(Seq<char>, Seq<char>)>>) -> Seq<
    (Seq<char>, Seq<char>),
> {
    match members {
        Some(m) => m,
        None => Seq::empty(),
    }
}

/// What is read of an index, or why it cannot be read: only the weight map has to be there.
pub open spec fn index_result(
    fault: Option<Seq<char>>,
    entries: Option<Seq<(Seq<char>, Option<Seq<char>>)>>,
    members: Option<Seq<(Seq<char>, Seq<char>)>>,
    r: Result<ModelIndex, String>,
) -> bool {
    match r {
        Ok(index) => {
            &&& weight_map_result(fault, entries, Ok(index.weight_map))
            &&& member_views(index.metadata@) == metadata_of(members)
        },
        Err(e) => weight_map_result(fault, entries, Err(e)),
    }
}

/// The index from its weight map, or why there is none, and the members of its metadata.
pub fn index_from(
    weight_map: Result<Vec<(String, String)>, String>,
    members: Option<Vec<(String, String)>>,
) -> (r: Result<ModelIndex, String>)
    ensures
        match weight_map {
            Ok(m) => {
                &&& r matches Ok(index)
                &&& index.weight_map == m
                &&& match members {
                    Some(v) => index.metadata == v,
                    None => index.metadata@.len() == 0,
                }
            },
            Err(e) => r matches Err(f) && f == e,
        },
{
    match weight_map {
        Ok(m) => {
            let metadata: Vec<(String, String)> = match members {
                Some(v) => v,
                None => Vec::new(),
            };
            Ok(ModelIndex { weight_map: m, metadata })
        },
        Err(e) => Err(e),
    }
}

/// Reads the text of an index.
pub fn read_index(index: &str) -> (r: Result<ModelIndex, String>)
    ensures
        index_result(
            json_fault(index@),
            json_entries_of(index@, "weight_map"@),
            json_members_of(index@, "metadata"@),
            r,
        ),
        r matches Ok(i) ==> names_once(member_views(i.weight_map@)) && names_once(
            member_views(i.metadata@),
        ),
{
    let map: Result<Vec<(String, String)>, String> = weight_map(index);
    let members: Option<Vec<(String, String)>> = json_members(index, "metadata");
    let ghost read = members;
    let r: Result<ModelIndex, String> = index_from(map, members);
    proof {
        if r is Ok {
            let m = member_views(r->Ok_0.metadata@);
            assert(read is None ==> m =~= Seq::empty());
            assert forall|i: int, j: int| 0 <= i < j < m.len() implies (#[trigger] m[i]).0 != (
            #[trigger] m[j]).0 by {
                let v = read->0@;
                assert(m[i].0 == v[i].0@ && m[j].0 == v[j].0@);
            }
        }
    }
    r
}

/// One text comes before another in the order of characters, from place `i` on where both agree
/// before it. A text comes before those that continue it.
pub open spec fn less_from(a: Seq<char>, b: Seq<char>, i: int) -> bool
    decreases a.len() - i,
{
    if i >= b.len() {
        false
    } else if i < 0 || i >= a.len() {
        true
    } else if a[i] == b[i] {
        less_from(a, b, i + 1)
    } else {
        a[i] < b[i]
    }
}

/// One text comes before another.
pub open spec fn comes_before(a: Seq<char>, b: Seq<char>) -> bool {
    less_from(a, b, 0)
}

proof fn lemma_irreflexive(a: Seq<char>, i: int)
    requires
        0 <= i,
    ensures
        !less_from(a, a, i),
    decreases a.len() - i,
{
    if i < a.len() {
        lemma_irreflexive(a, i + 1);
    }
}

proof fn lemma_total(a: Seq<char>, b: Seq<char>, i: int)
    requires
        0 <= i <= a.len(),
        i <= b.len(),
        forall|k: int| 0 <= k < i ==> a[k] == b[k],
    ensures
        less_from(a, b, i) || less_from(b, a, i) || a == b,
    decreases a.len() - i,
{
    if i < a.len() && i < b.len() {
        if a[i] == b[i] {
            lemma_total(a, b, i + 1);
        }
    } else if a.len() == b.len() {
        assert(a =~= b);
    }
}

proof fn lemma_transitive(a: Seq<char>, b: Seq<char>, c: Seq<char>, i: int)
    requires
        0 <= i,
        less_from(a, b, i),
        less_from(b, c, i),
    ensures
        less_from(a, c, i),
    decreases a.len() - i,
{
    if i < a.len() && i < b.len() && i < c.len() && a[i] == b[i] && b[i] == c[i] {
        lemma_transitive(a, b, c, i + 1);
    }
}

/// The order of texts is a strict total order.
pub proof fn law_text_order(a: Seq<char>, b: Seq<char>, c: Seq<char>)
    ensures
        !comes_before(a, a),
        comes_before(a, b) || comes_before(b, a) || a == b,
        comes_before(a, b) && comes_before(b, c) ==> comes_before(a, c),
{
    lemma_irreflexive(a, 0);
    lemma_total(a, b, 0);
    if comes_before(a, b) && comes_before(b, c) {
        lemma_transitive(a, b, c, 0);
    }
}

fn text_less(a: &Vec<char>, b: &Vec<char>) -> (r: bool)
    ensures
        r == comes_before(a@, b@),
{
    let mut i: usize = 0;
    while i < a.len() && i < b.len() && a[i] == b[i]
        invariant
            i <= a@.len(),
            i <= b@.len(),
            comes_before(a@, b@) == less_from(a@, b@, i as int),
        decreases a@.len() - i,
    {
        i = i + 1;
    }
    if i >= b.len() {
        false
    } else if i >= a.len() {
        true
    } else {
        a[i] < b[i]
    }
}

/// Each text comes before those behind it.
pub open spec fn rising(v: Seq<Seq<char>>) -> bool {
    forall|i: int, j: int|
        0 <= i < j < v.len() ==> comes_before(#[trigger] v[i], #[trigger] v[j])
}

fn insert_text(v: &mut Vec<String>, x: &str)
    requires
        rising(views(old(v)@)),
    ensures
        rising(views(final(v)@)),
        forall|t: Seq<char>| #[trigger]
            views(final(v)@).contains(t) <==> views(old(v)@).contains(t) || t == x@,
{
    let cx: Vec<char> = chars_of(x);
    let n: usize = v.len();
    let mut i: usize = 0;
    let ghost before = views(v@);
    while i < n && text_less(&chars_of(v[i].as_str()), &cx)
        invariant
            n == v@.len(),
            i <= n,
            cx@ == x@,
            before == views(v@),
            forall|k: int| 0 <= k < i ==> comes_before(#[trigger] before[k], x@),
        decreases n - i,
    {
        i = i + 1;
    }
    if i < n && same_text(v[i].as_str(), x) {
        assert(before[i as int] == x@);
        return;
    }
    proof {
        if i < n {
            law_text_order(before[i as int], x@, x@);
            assert(comes_before(x@, before[i as int]));
        }
        assert forall|k: int| i <= k < n implies comes_before(x@, #[trigger] before[k]) by {
            if k > i {
                assert(comes_before(before[i as int], before[k]));
                law_text_order(x@, before[i as int], before[k]);
            }
        }
    }
    v.insert(i, x.to_owned());
    proof {
        let after = views(v@);
        assert(after =~= before.insert(i as int, x@));
        assert forall|a: int, b: int| 0 <= a < b < after.len() implies comes_before(
            #[trigger] after[a],
            #[trigger] after[b],
        ) by {
            if a < i && b > i {
                assert(comes_before(before[a], before[b - 1]));
            } else if a > i {
                assert(comes_before(before[a - 1], before[b - 1]));
            } else if b < i {
                assert(comes_before(before[a], before[b]));
            }
        }
        assert forall|t: Seq<char>| #[trigger]
            after.contains(t) <==> before.contains(t) || t == x@ by {
            if before.contains(t) {
                let k = before.index_of(t);
                if k < i {
                    assert(after[k] == t);
                } else {
                    assert(after[k + 1] == t);
                }
            }
            if t == x@ {
                assert(after[i as int] == t);
            }
            if after.contains(t) {
                let k = after.index_of(t);
                if k < i {
                    assert(before[k] == t);
                } else if k > i {
                    assert(before[k - 1] == t);
                }
            }
        }
    }
}

/// The file of a tensor: that of the first entry with its name, from entry `i` on.
pub open spec fn file_from(m: Seq<(Seq<char>, Seq<char>)>, name: Seq<char>, i: int) -> Option<
    Seq<char>,
>
    decreases m.len() - i,
{
    if i < 0 || i >= m.len() {
        None
    } else if m[i].0 == name {
        Some(m[i].1)
    } else {
        file_from(m, name, i + 1)
    }
}

/// A file holds one of the first `n` tensors.
pub open spec fn is_needed(
    m: Seq<(Seq<char>, Seq<char>)>,
    names: Seq<Seq<char>>,
    n: int,
    file: Seq<char>,
) -> bool {
    exists|i: int| 0 <= i < n && file_from(m, #[trigger] names[i], 0) == Some(file)
}

fn file_of(m: &Vec<(String, String)>, name: &str) -> (r: Option<usize>)
    ensures
        match r {
            Some(k) => k < m@.len() && file_from(member_views(m@), name@, 0) == Some(
                m@[k as int].1@,
            ),
            None => file_from(member_views(m@), name@, 0) is None,
        },
{
    let mut i: usize = 0;
    while i < m.len()
        invariant
            i <= m@.len(),
            file_from(member_views(m@), name@, 0) == file_from(member_views(m@), name@, i as int),
        decreases m@.len() - i,
    {
        if same_text(m[i].0.as_str(), name) {
            return Some(i);
        }
        i = i + 1;
    }
    None
}

/// The files that hold the named tensors: each once, in the order of their names. Tensors that the
/// map does not have are passed over.
pub fn shards_for(weight_map: &Vec<(String, String)>, tensor_names: &Vec<String>) -> (r: Vec<String>)
    ensures
        rising(views(r@)),
        forall|f: Seq<char>| #[trigger]
            views(r@).contains(f) <==> is_needed(
                member_views(weight_map@),
                views(tensor_names@),
                tensor_names@.len() as int,
                f,
            ),
{
    let mut out: Vec<String> = Vec::new();
    let ghost m = member_views(weight_map@);
    let ghost names = views(tensor_names@);
    assert(views(out@) =~= Seq::empty());
    for i in 0..tensor_names.len()
        invariant
            m == member_views(weight_map@),
            names == views(tensor_names@),
            rising(views(out@)),
            forall|f: Seq<char>| #[trigger]
                views(out@).contains(f) <==> is_needed(m, names, i as int, f),
    {
        let ghost before = views(out@);
        let name: &str = tensor_names[i].as_str();
        assert(names[i as int] == name@);
        match file_of(weight_map, name) {
            Some(k) => {
                insert_text(&mut out, weight_map[k].1.as_str());
            },
            None => {},
        }
        assert forall|f: Seq<char>| #[trigger]
            views(out@).contains(f) <==> is_needed(m, names, i + 1, f) by {
            assert(before.contains(f) <==> is_needed(m, names, i as int, f));
            if is_needed(m, names, i as int, f) {
                let k = choose|k: int|
                    0 <= k < i && file_from(m, #[trigger] names[k], 0) == Some(f);
                assert(file_from(m, names[k], 0) == Some(f));
            }
            if file_from(m, names[i as int], 0) == Some(f) {
                assert(is_needed(m, names, i + 1, f));
            }
        }
    }
    out
}

/// A text ends with another.
pub open spec fn ends_with(s: Seq<char>, end: Seq<char>) -> bool {
    end.len() <= s.len() && s.skip(s.len() - end.len()) == end
}

fn text_ends(s: &Vec<char>, end: &Vec<char>) -> (r: bool)
    ensures
        r == ends_with(s@, end@),
{
    if end.len() > s.len() {
        return false;
    }
    let n: usize = s.len();
    let off: usize = n - end.len();
    for i in 0..end.len()
        invariant
            off + end@.len() == s@.len(),
            s@.len() == n,
            forall|k: int| 0 <= k < i ==> s@[off + k] == #[trigger] end@[k],
    {
        if s[off + i] != end[i] {
            assert(s@.skip(off as int)[i as int] != end@[i as int]);
            return false;
        }
    }
    assert(s@.skip(off as int) =~= end@);
    true
}

/// The names that end with `.safetensors`, in order: the first `n` of them looked at.
pub open spec fn weight_files(names: Seq<Seq<char>>, n: int) -> Seq<Seq<char>>
    decreases n,
{
    if n <= 0 {
        Seq::empty()
    } else {
        let before = weight_files(names, n - 1);
        if ends_with(names[n - 1], ".safetensors"@) {
            before.push(names[n - 1])
        } else {
            before
        }
    }
}

/// The files of a repository that hold weights; all of them must be there for the model to be
/// cached.
pub fn shard_files(names: &Vec<String>) -> (r: Vec<String>)
    ensures
        views(r@) == weight_files(views(names@), names@.len() as int),
{
    let end: Vec<char> = chars_of(".safetensors");
    let mut out: Vec<String> = Vec::new();
    assert(views(out@) =~= Seq::empty());
    for i in 0..names.len()
        invariant
            end@ == ".safetensors"@,
            views(out@) == weight_files(views(names@), i as int),
    {
        if text_ends(&chars_of(names[i].as_str()), &end) {
            let ghost before = out@;
            out.push(names[i].clone());
            assert(views(out@) =~= views(before).push(names@[i as int]@));
        }
    }
    out
}

/// The name of the file that says which file holds which tensor.
pub const INDEX_FILE: &'static str = "model.safetensors.index.json";

/// The small files that say what a model is, in the order in which they are fetched: its
/// configuration, and the index.
pub fn meta_files() -> (r: Vec<String>)
    ensures
        views(r@) == seq!["config.json"@, INDEX_FILE@],
{
    let mut out: Vec<String> = Vec::new();
    out.push("config.json".to_owned());
    out.push(INDEX_FILE.to_owned());
    assert(views(out@) =~= seq!["config.json"@, INDEX_FILE@]);
    out
}

/// The files that a model wants, given the names of all its files: the index, and the weights in
/// the order of the list.
pub open spec fn wanted_files(names: Seq<Seq<char>>) -> Seq<Seq<char>> {
    seq![INDEX_FILE@] + weight_files(names, names.len() as int)
}

/// The files that a model wants, given the names of all its files.
pub fn files_to_check(names: &Vec<String>) -> (r: Vec<String>)
    ensures
        views(r@) == wanted_files(views(names@)),
{
    let shards: Vec<String> = shard_files(names);
    let mut out: Vec<String> = Vec::new();
    out.push(INDEX_FILE.to_owned());
    assert(views(out@) =~= seq![INDEX_FILE@] + views(shards@).take(0));
    for i in 0..shards.len()
        invariant
            views(out@) == seq![INDEX_FILE@] + views(shards@).take(i as int),
    {
        let ghost before = out@;
        out.push(shards[i].clone());
        assert(views(out@) =~= views(before).push(shards@[i as int]@));
        assert(views(shards@).take(i + 1) =~= views(shards@).take(i as int).push(
            views(shards@)[i as int],
        ));
    }
    assert(views(shards@).take(shards@.len() as int) =~= views(shards@));
    out
}

fn holds_text(list: &Vec<String>, name: &str) -> (r: bool)
    ensures
        r == views(list@).contains(name@),
{
    for i in 0..list.len()
        invariant
            forall|k: int| 0 <= k < i ==> #[trigger] list@[k]@ != name@,
    {
        if same_text(list[i].as_str(), name) {
            assert(views(list@)[i as int] == name@);
            return true;
        }
    }
    proof {
        if views(list@).contains(name@) {
            let k = views(list@).index_of(name@);
            assert(list@[k]@ == name@);
        }
    }
    false
}

/// All of some texts are in a list.
pub open spec fn all_in(wanted: Seq<Seq<char>>, list: Seq<Seq<char>>) -> bool {
    forall|i: int| 0 <= i < wanted.len() ==> list.contains(#[trigger] wanted[i])
}

fn holds_all(list: &Vec<String>, wanted: &Vec<String>) -> (r: bool)
    ensures
        r == all_in(views(wanted@), views(list@)),
{
    for i in 0..wanted.len()
        invariant
            forall|k: int| 0 <= k < i ==> views(list@).contains(#[trigger] views(wanted@)[k]),
    {
        if !holds_text(list, wanted[i].as_str()) {
            assert(!views(list@).contains(views(wanted@)[i as int]));
            return false;
        }
    }
    true
}

/// Whether a model is cached: its files could be listed, and the index and all files with weights
/// are among those that lie in the cache.
pub fn is_cached(listed: &Option<Vec<String>>, present: &Vec<String>) -> (r: bool)
    ensures
        r == (listed matches Some(names) && all_in(
            wanted_files(views(names@)),
            views(present@),
        )),
{
    match listed {
        None => false,
        Some(names) => holds_all(present, &files_to_check(names)),
    }
}

proof fn lemma_less_after(a: Seq<char>, b: Seq<char>, i: int, k: int)
    requires
        0 <= i <= k <= a.len(),
        k < b.len(),
        forall|j: int| i <= j < k ==> #[trigger] a[j] == b[j],
        k < a.len() ==> a[k] != b[k],
    ensures
        less_from(a, b, i) == (k == a.len() || a[k] < b[k]),
    decreases k - i,
{
    if i < k {
        assert(a[i] == b[i]);
        lemma_less_after(a, b, i + 1, k);
    }
}

/// Texts are ordered by the first character in which they differ, and a text comes before those
/// that continue it.
pub proof fn law_first_difference(
    p: Seq<char>,
    x: char,
    a: Seq<char>,
    y: char,
    b: Seq<char>,
)
    requires
        x != y,
    ensures
        comes_before(p + seq![x] + a, p + seq![y] + b) <==> x < y,
        comes_before(p, p + seq![x] + a),
        !comes_before(p + seq![x] + a, p),
{
    let (s, t) = (p + seq![x] + a, p + seq![y] + b);
    let k = p.len() as int;
    assert(s[k] == x && t[k] == y);
    assert forall|j: int| 0 <= j < k implies #[trigger] s[j] == t[j] by {
        assert(s[j] == p[j] && t[j] == p[j]);
    }
    lemma_less_after(s, t, 0, k);
    assert forall|j: int| 0 <= j < k implies #[trigger] p[j] == s[j] by {}
    lemma_less_after(p, s, 0, k);
    if comes_before(s, p) {
        law_text_order(p, s, p);
    }
}

proof fn lemma_file_from(m: Seq<(Seq<char>, Seq<char>)>, name: Seq<char>, i: int)
    requires
        0 <= i <= m.len(),
    ensures
        match file_from(m, name, i) {
            Some(f) => exists|k: int|
                i <= k < m.len() && (#[trigger] m[k]).0 == name && m[k].1 == f,
            None => forall|k: int| i <= k < m.len() ==> (#[trigger] m[k]).0 != name,
        },
    decreases m.len() - i,
{
    if i < m.len() {
        if m[i].0 != name {
            lemma_file_from(m, name, i + 1);
        }
    }
}

/// An entry of a map says where a tensor is.
pub open spec fn says(m: Seq<(Seq<char>, Seq<char>)>, name: Seq<char>, file: Seq<char>) -> bool {
    exists|k: int| 0 <= k < m.len() && #[trigger] m[k] == (name, file)
}

/// Where no tensor occurs twice, a tensor is found in the file that its entry names, whatever the
/// place of the entry; and a file is needed exactly where it holds one of the tensors.
pub proof fn law_needed_files(
    m: Seq<(Seq<char>, Seq<char>)>,
    names: Seq<Seq<char>>,
    name: Seq<char>,
    file: Seq<char>,
)
    requires
        names_once(m),
    ensures
        file_from(m, name, 0) == Some(file) <==> says(m, name, file),
        is_needed(m, names, names.len() as int, file) <==> exists|i: int|
            0 <= i < names.len() && says(m, #[trigger] names[i], file),
{
    lemma_found(m, name, file);
    if is_needed(m, names, names.len() as int, file) {
        let i = choose|i: int|
            0 <= i < names.len() && file_from(m, #[trigger] names[i], 0) == Some(file);
        lemma_found(m, names[i], file);
    }
    if exists|i: int| 0 <= i < names.len() && says(m, #[trigger] names[i], file) {
        let i = choose|i: int| 0 <= i < names.len() && says(m, #[trigger] names[i], file);
        lemma_found(m, names[i], file);
    }
}

proof fn lemma_found(m: Seq<(Seq<char>, Seq<char>)>, name: Seq<char>, file: Seq<char>)
    requires
        names_once(m),
    ensures
        file_from(m, name, 0) == Some(file) <==> says(m, name, file),
{
    lemma_file_from(m, name, 0);
    if file_from(m, name, 0) is Some {
        let f = file_from(m, name, 0)->0;
        let k = choose|k: int| 0 <= k < m.len() && (#[trigger] m[k]).0 == name && m[k].1 == f;
        assert(m[k] == (name, f));
        if says(m, name, file) {
            let j = choose|j: int| 0 <= j < m.len() && #[trigger] m[j] == (name, file);
            if j < k {
                assert(m[j].0 != m[k].0);
            } else if k < j {
                assert(m[k].0 != m[j].0);
            }
        }
    } else if says(m, name, file) {
        let j = choose|j: int| 0 <= j < m.len() && #[trigger] m[j] == (name, file);
        assert(m[j].0 != name);
    }
}

proof fn lemma_weight_files(names: Seq<Seq<char>>, name: Seq<char>, n: int)
    requires
        0 <= n <= names.len(),
    ensures
        weight_files(names.push(name), n) == weight_files(names, n),
    decreases n,
{
    if n > 0 {
        lemma_weight_files(names, name, n - 1);
    }
}

/// A name is that of a file with weights.
pub open spec fn names_weights(name: Seq<char>) -> bool {
    exists|stem: Seq<char>| name == #[trigger] (stem + ".safetensors"@)
}

proof fn lemma_names_weights(name: Seq<char>)
    ensures
        ends_with(name, ".safetensors"@) <==> names_weights(name),
{
    let end = ".safetensors"@;
    if ends_with(name, end) {
        let k = name.len() - end.len();
        assert(name =~= name.take(k) + end);
    }
    if names_weights(name) {
        let stem = choose|stem: Seq<char>| name == #[trigger] (stem + end);
        assert(name.skip(stem.len() as int) =~= end);
    }
}

/// The files that a model wants: the index first, and behind it the files with weights in the
/// order of the list. One more name in the list is one more file exactly where it is that of a
/// file with weights.
pub proof fn law_wanted_files(names: Seq<Seq<char>>, name: Seq<char>)
    ensures
        wanted_files(Seq::empty()) == seq!["model.safetensors.index.json"@],
        wanted_files(names.push(name)) == if names_weights(name) {
            wanted_files(names).push(name)
        } else {
            wanted_files(names)
        },
{
    lemma_weight_files(names, name, names.len() as int);
    lemma_names_weights(name);
    assert(wanted_files(Seq::empty()) =~= seq!["model.safetensors.index.json"@]);
    assert(wanted_files(names.push(name)) =~= if names_weights(name) {
        wanted_files(names).push(name)
    } else {
        wanted_files(names)
    });
}

proof fn lemma_wanted_in(names: Seq<Seq<char>>, present: Seq<Seq<char>>, n: int)
    requires
        0 <= n <= names.len(),
    ensures
        all_in(weight_files(names, n), present) <==> forall|i: int|
            0 <= i < n && names_weights(#[trigger] names[i]) ==> present.contains(names[i]),
    decreases n,
{
    if n > 0 {
        lemma_wanted_in(names, present, n - 1);
        lemma_names_weights(names[n - 1]);
        let (a, b) = (weight_files(names, n - 1), weight_files(names, n));
        if all_in(b, present) {
            assert forall|i: int| 0 <= i < a.len() implies present.contains(#[trigger] a[i]) by {
                assert(a[i] == b[i]);
            }
            if names_weights(names[n - 1]) {
                assert(b[b.len() - 1] == names[n - 1]);
            }
        }
    }
}

/// A model is cached exactly where the index and every listed file with weights lie in the cache,
/// in any order; other files do not matter.
pub proof fn law_cached(names: Seq<Seq<char>>, present: Seq<Seq<char>>)
    ensures
        all_in(wanted_files(names), present) <==> {
            &&& present.contains("model.safetensors.index.json"@)
            &&& forall|i: int|
                0 <= i < names.len() && names_weights(#[trigger] names[i]) ==> present.contains(
                    names[i],
                )
        },
{
    let all = weight_files(names, names.len() as int);
    let want = wanted_files(names);
    lemma_wanted_in(names, present, names.len() as int);
    assert(want[0] == "model.safetensors.index.json"@);
    if all_in(want, present) {
        assert forall|i: int| 0 <= i < all.len() implies present.contains(#[trigger] all[i]) by {
            assert(want[i + 1] == all[i]);
        }
    }
    if all_in(all, present) && present.contains(want[0]) {
        assert forall|i: int| 0 <= i < want.len() implies present.contains(#[trigger] want[i]) by {
            if i > 0 {
                assert(want[i] == all[i - 1]);
            }
        }
    }
}

/// What is read of an index: a fault is reported before all else, a missing weight map next;
/// otherwise every tensor stays at its place with its file, which is empty where it is no text, and
/// the metadata is that of the index or nothing.
pub proof fn law_index(
    fault: Option<String>,
    entries: Option<Vec<(String, Option<String>)>>,
    members: Option<Vec<(String, String)>>,
    r: Result<ModelIndex, String>,
    i: int,
)
    requires
        index_result(
            text_view(fault),
            match entries {
                Some(v) => Some(entry_views(v@)),
                None => None,
            },
            match members {
                Some(v) => Some(member_views(v@)),
                None => None,
            },
            r,
        ),
    ensures
        r is Ok <==> fault is None && entries is Some,
        r matches Err(e) ==> e@ == match fault {
            Some(f) => "parse index: "@ + f@,
            None => "no weight_map in index"@,
        },
        r matches Ok(x) ==> {
            let v = entries->0@;
            let w = x.weight_map@;
            &&& w.len() == v.len()
            &&& 0 <= i < v.len() ==> w[i].0@ == v[i].0@ && w[i].1@ == match v[i].1 {
                Some(f) => f@,
                None => Seq::empty(),
            }
            &&& x.metadata@.len() == match members {
                Some(n) => n@.len(),
                None => 0,
            }
            &&& members is Some && 0 <= i < members->0@.len() ==> x.metadata@[i].0@
                == members->0@[i].0@ && x.metadata@[i].1@ == members->0@[i].1@
        },
{
    if r is Ok {
        let x = r->Ok_0;
        let v = entries->0@;
        let w = x.weight_map@;
        assert(member_views(w).len() == w.len());
        assert(files_of(entry_views(v)).len() == v.len());
        if 0 <= i < v.len() {
            assert(member_views(w)[i] == files_of(entry_views(v))[i]);
        }
        assert(member_views(x.metadata@).len() == x.metadata@.len());
        if members is Some && 0 <= i < members->0@.len() {
            assert(member_views(x.metadata@)[i] == member_views(members->0@)[i]);
        }
    }
}

} // verus!
