//! The schema analysis: key-path flattening, frequency aggregation, global
//! key set, missing-key detection and key-combination ranking, all as pure
//! functions over a record sequence.

use vstd::prelude::*;
use vstd::relations::{sorted_by, total_ordering};
use crate::json::{JsonValue, flat_paths, obj_paths_from, arr_paths_from, row_paths, row_key_set, dataset_paths, dataset_paths_from, dataset_count, global_key_set};
use crate::text::{strings_view, lex_lt, lemma_lex_lt_total, lemma_lex_lt_trans, seq_lex_lt, lemma_seq_lex_lt_total, lemma_seq_lex_lt_trans, str_lt, dot_join, index_join};

verus! {

broadcast use vstd::seq_lib::group_to_multiset_ensures;

/// Collects into `keys` every key path of `v` under `prefix`, in traversal
/// order and with multiplicity.
#[verifier::loop_isolation(false)]
pub fn collect_keys_from_value(v: &JsonValue, prefix: &str, keys: &mut Vec<String>)
    ensures
        strings_view(final(keys)@) == strings_view(old(keys)@) + flat_paths(*v, prefix@),
    decreases *v,
{
    match v {
        JsonValue::Object(fields) => {
            let ghost start = strings_view(keys@);
            let mut i: usize = 0;
            while i < fields.len()
                invariant
                    i <= fields.len(),
                    strings_view(keys@) + obj_paths_from(fields@, prefix@, i as int) == start
                        + obj_paths_from(fields@, prefix@, 0),
                decreases fields.len() - i,
            {
                let full = dot_join(prefix, fields[i].0.as_str());
                let ghost before = strings_view(keys@);
                keys.push(full.clone());
                proof {
                    assert(strings_view(keys@) =~= before.push(full@));
                }
                collect_keys_from_value(&fields[i].1, full.as_str(), keys);
                proof {
                    assert(strings_view(keys@) + obj_paths_from(fields@, prefix@, i + 1) =~= start
                        + obj_paths_from(fields@, prefix@, 0));
                }
                i += 1;
            }
            proof {
                assert(strings_view(keys@) =~= start + obj_paths_from(fields@, prefix@, 0));
            }
        }
        JsonValue::Array(elems) => {
            let ghost start = strings_view(keys@);
            let mut i: usize = 0;
            while i < elems.len()
                invariant
                    i <= elems.len(),
                    strings_view(keys@) + arr_paths_from(elems@, prefix@, i as int) == start
                        + arr_paths_from(elems@, prefix@, 0),
                decreases elems.len() - i,
            {
                let elem_prefix = index_join(prefix, i);
                collect_keys_from_value(&elems[i], elem_prefix.as_str(), keys);
                proof {
                    assert(strings_view(keys@) + arr_paths_from(elems@, prefix@, i + 1) =~= start
                        + arr_paths_from(elems@, prefix@, 0));
                }
                i += 1;
            }
            proof {
                assert(strings_view(keys@) =~= start + arr_paths_from(elems@, prefix@, 0));
            }
        }
        _ => {
            proof {
                assert(strings_view(keys@) =~= strings_view(keys@) + flat_paths(*v, prefix@));
            }
        }
    }
}

/// Collects the key paths of every record in order: the dataset's paths,
/// with multiplicity.
pub fn collect_dataset_paths(rows: &Vec<JsonValue>) -> (r: Vec<String>)
    ensures
        strings_view(r@) == dataset_paths(rows@),
{
    let mut all: Vec<String> = Vec::new();
    proof {
        reveal_strlit("");
    }
    let mut i: usize = 0;
    while i < rows.len()
        invariant
            i <= rows.len(),
            ""@ =~= Seq::<char>::empty(),
            strings_view(all@) + dataset_paths_from(rows@, i as int) == dataset_paths(rows@),
        decreases rows.len() - i,
    {
        collect_keys_from_value(&rows[i], "", &mut all);
        proof {
            assert(flat_paths(rows@[i as int], ""@) == row_paths(rows@[i as int]));
            assert(strings_view(all@) + dataset_paths_from(rows@, i + 1) =~= dataset_paths(rows@));
        }
        i += 1;
    }
    proof {
        assert(strings_view(all@) =~= strings_view(all@) + dataset_paths_from(rows@, rows@.len() as int));
        assert(strings_view(all@) =~= dataset_paths(rows@));
    }
    all
}

/// The pair views behind a frequency-table vector.
pub open spec fn entries_view(s: Seq<(String, usize)>) -> Seq<(Seq<char>, usize)> {
    s.map_values(|e: (String, usize)| (e.0@, e.1))
}

/// `t` is a table of the occurrence counts of `paths`: one entry per
/// distinct path, each with its exact count, and nothing else.
pub open spec fn counts_match(t: Seq<(Seq<char>, usize)>, paths: Seq<Seq<char>>) -> bool {
    &&& forall|x: int|
        0 <= x < t.len() ==> (#[trigger] t[x]).1 as nat == paths.to_multiset().count(t[x].0)
    &&& forall|x: int| 0 <= x < t.len() ==> (#[trigger] t[x]).1 >= 1
    &&& forall|p: Seq<char>|
        #[trigger] paths.to_multiset().count(p) > 0 ==> exists|x: int|
            0 <= x < t.len() && (#[trigger] t[x]).0 == p
    &&& forall|x: int, y: int|
        0 <= x < y < t.len() ==> (#[trigger] t[x]).0 != (#[trigger] t[y]).0
}

/// The index of the entry of `t` whose key is `p`, if one exists.
fn find_key(t: &Vec<(String, usize)>, p: &String) -> (r: Option<usize>)
    ensures
        match r {
            Some(j) => j < t@.len() && t@[j as int].0@ == p@,
            None => forall|x: int| 0 <= x < t@.len() ==> (#[trigger] t@[x]).0@ != p@,
        },
{
    let mut j: usize = 0;
    while j < t.len()
        invariant
            j <= t@.len(),
            forall|x: int| 0 <= x < j ==> (#[trigger] t@[x]).0@ != p@,
        decreases t@.len() - j,
    {
        let e = &t[j];
        if e.0 == *p {
            return Some(j);
        }
        j += 1;
    }
    None
}

/// Tallies the occurrences of every distinct path in `paths`, in no
/// particular order.
#[verifier::loop_isolation(false)]
fn count_paths(paths: &Vec<String>) -> (r: Vec<(String, usize)>)
    ensures
        counts_match(entries_view(r@), strings_view(paths@)),
{
    let ghost pview = strings_view(paths@);
    let mut r: Vec<(String, usize)> = Vec::new();
    let mut t: usize = 0;
    while t < paths.len()
        invariant
            t <= paths@.len(),
            counts_match(entries_view(r@), pview.take(t as int)),
            forall|x: int| 0 <= x < r@.len() ==> (#[trigger] r@[x]).1 <= t,
        decreases paths@.len() - t,
    {
        let ghost old_view = entries_view(r@);
        let ghost mpre = pview.take(t as int);
        let ghost mpost = pview.take(t as int + 1);
        let ghost p = pview[t as int];
        proof {
            assert(mpost =~= mpre.push(p));
            assert(mpost.to_multiset() == mpre.to_multiset().insert(p));
        }
        match find_key(&r, &paths[t]) {
            Some(j) => {
                let cnt = r[j].1;
                let key = r.remove(j);
                r.insert(j, (key.0, cnt + 1));
                proof {
                    let new_view = entries_view(r@);
                    assert(new_view =~= old_view.update(j as int, (p, (cnt + 1) as usize)));
                    assert(old_view[j as int].0 == p);
                    assert(old_view[j as int].1 == cnt);
                    assert forall|x: int| 0 <= x < new_view.len() implies (#[trigger] new_view[x]).1
                        as nat == mpost.to_multiset().count(new_view[x].0) && new_view[x].1 >= 1 by {
                        if x == j {
                            assert(mpost.to_multiset().count(p) == mpre.to_multiset().count(p) + 1);
                        } else {
                            assert(new_view[x] == old_view[x]);
                            assert(old_view[x].0 != p);
                            assert(mpost.to_multiset().count(old_view[x].0) == mpre.to_multiset().count(
                                old_view[x].0,
                            ));
                        }
                    }
                    assert forall|q: Seq<char>| #[trigger] mpost.to_multiset().count(q) > 0
                        implies exists|x: int|
                        0 <= x < new_view.len() && (#[trigger] new_view[x]).0 == q by {
                        if q == p {
                            assert(new_view[j as int].0 == q);
                        } else {
                            assert(mpre.to_multiset().count(q) > 0);
                            let x = choose|x: int| 0 <= x < old_view.len() && (#[trigger] old_view[x]).0 == q;
                            assert(new_view[x].0 == q);
                        }
                    }
                }
            }
            None => {
                r.push((paths[t].clone(), 1));
                proof {
                    let new_view = entries_view(r@);
                    assert(new_view =~= old_view.push((p, 1usize)));
                    assert(mpre.to_multiset().count(p) == 0) by {
                        if mpre.to_multiset().count(p) > 0 {
                            let x = choose|x: int| 0 <= x < old_view.len() && (#[trigger] old_view[x]).0 == p;
                        }
                    }
                    assert forall|x: int| 0 <= x < new_view.len() implies (#[trigger] new_view[x]).1
                        as nat == mpost.to_multiset().count(new_view[x].0) && new_view[x].1 >= 1 by {
                        if x == old_view.len() {
                            assert(mpost.to_multiset().count(p) == mpre.to_multiset().count(p) + 1);
                        } else {
                            assert(new_view[x] == old_view[x]);
                            assert(old_view[x].0 != p);
                            assert(mpost.to_multiset().count(old_view[x].0) == mpre.to_multiset().count(
                                old_view[x].0,
                            ));
                        }
                    }
                    assert forall|q: Seq<char>| #[trigger] mpost.to_multiset().count(q) > 0
                        implies exists|x: int|
                        0 <= x < new_view.len() && (#[trigger] new_view[x]).0 == q by {
                        if q == p {
                            assert(new_view[old_view.len() as int].0 == q);
                        } else {
                            assert(mpre.to_multiset().count(q) > 0);
                            let x = choose|x: int| 0 <= x < old_view.len() && (#[trigger] old_view[x]).0 == q;
                            assert(new_view[x].0 == q);
                        }
                    }
                }
            }
        }
        t += 1;
    }
    proof {
        assert(pview.take(paths@.len() as int) =~= pview);
    }
    r
}

/// A strict order fit for ranking keys: asymmetric, trichotomous and
/// transitive.
pub open spec fn key_lt_ok<K>(klt: spec_fn(K, K) -> bool) -> bool {
    &&& forall|a: K, b: K| #[trigger] klt(a, b) ==> !klt(b, a) && a != b
    &&& forall|a: K, b: K| a != b ==> #[trigger] klt(a, b) || #[trigger] klt(b, a)
    &&& forall|a: K, b: K, c: K| #[trigger] klt(a, b) && #[trigger] klt(b, c) ==> klt(a, c)
}

/// The lexicographic key-path order as a first-class relation.
pub open spec fn lex_lt_fn() -> spec_fn(Seq<char>, Seq<char>) -> bool {
    |a: Seq<char>, b: Seq<char>| lex_lt(a, b)
}

/// The lexicographic order is a strict total order on key paths.
pub proof fn lemma_lex_lt_ok()
    ensures
        key_lt_ok(lex_lt_fn()),
{
    let klt = lex_lt_fn();
    assert forall|a: Seq<char>, b: Seq<char>| #[trigger] klt(a, b) implies !klt(b, a) && a != b by {
        lemma_lex_lt_total(a, b);
    }
    assert forall|a: Seq<char>, b: Seq<char>| a != b implies #[trigger] klt(a, b) || #[trigger] klt(
        b,
        a,
    ) by {
        lemma_lex_lt_total(a, b);
    }
    assert forall|a: Seq<char>, b: Seq<char>, c: Seq<char>|
        #[trigger] klt(a, b) && #[trigger] klt(b, c) implies klt(a, c) by {
        lemma_lex_lt_trans(a, b, c);
    }
}

/// Presentation order of ranked entries: larger count first, ties broken by
/// the key order `klt` ascending.
pub open spec fn ranked_lt<K>(klt: spec_fn(K, K) -> bool, a: (K, usize), b: (K, usize)) -> bool {
    b.1 < a.1 || (a.1 == b.1 && klt(a.0, b.0))
}

/// The matching non-strict order, as needed for sortedness claims.
pub open spec fn ranked_leq_fn<K>(klt: spec_fn(K, K) -> bool) -> spec_fn((K, usize), (K, usize)) -> bool {
    |a: (K, usize), b: (K, usize)| !ranked_lt(klt, b, a)
}

/// For a fit key order, the ranked order is total.
pub proof fn lemma_ranked_total_ordering<K>(klt: spec_fn(K, K) -> bool)
    requires
        key_lt_ok(klt),
    ensures
        total_ordering(ranked_leq_fn(klt)),
{
    let leq = ranked_leq_fn(klt);
    assert forall|a: (K, usize)| #[trigger] leq(a, a) by {
        assert(!klt(a.0, a.0));
    }
    assert forall|a: (K, usize), b: (K, usize)| #[trigger] leq(a, b) && #[trigger] leq(b, a)
        implies a == b by {
        assert(a.1 == b.1);
        assert(!klt(a.0, b.0) && !klt(b.0, a.0));
        assert(a.0 == b.0);
        assert(a =~= b);
    }
    assert forall|a: (K, usize), b: (K, usize), c: (K, usize)|
        #[trigger] leq(a, b) && #[trigger] leq(b, c) implies leq(a, c) by {
        if ranked_lt(klt, c, a) {
            assert(a.1 <= b.1 <= c.1);
            if a.1 < c.1 {
            } else {
                assert(a.1 == b.1 == c.1);
                assert(klt(c.0, a.0));
                assert(!klt(b.0, a.0) && !klt(c.0, b.0));
                if c.0 == b.0 {
                } else if b.0 == a.0 {
                } else {
                    assert(klt(a.0, b.0) || klt(b.0, a.0));
                    assert(klt(a.0, b.0));
                    assert(klt(b.0, c.0) || klt(c.0, b.0));
                    assert(klt(b.0, c.0));
                    assert(klt(a.0, c.0));
                }
            }
        }
    }
    assert forall|a: (K, usize), b: (K, usize)| #[trigger] leq(a, b) || #[trigger] leq(b, a) by {
        if ranked_lt(klt, b, a) && ranked_lt(klt, a, b) {
            assert(false);
        }
    }
}

/// Whether `a` is presented strictly before `b` in the frequency table:
/// higher count first, ties by ascending key path.
fn entry_before(a: &(String, usize), b: &(String, usize)) -> (r: bool)
    ensures
        r == ranked_lt(lex_lt_fn(), (a.0@, a.1), (b.0@, b.1)),
{
    if b.1 < a.1 {
        true
    } else if a.1 == b.1 {
        str_lt(a.0.as_str(), b.0.as_str())
    } else {
        false
    }
}

/// The position at which `e` belongs in the already-sorted prefix of `r`.
fn entry_position(r: &Vec<(String, usize)>, e: &(String, usize)) -> (j: usize)
    ensures
        j <= r@.len(),
        forall|x: int|
            0 <= x < j ==> ranked_lt(
                lex_lt_fn(),
                (#[trigger] entries_view(r@)[x]),
                (e.0@, e.1),
            ),
        j < r@.len() ==> !ranked_lt(lex_lt_fn(), entries_view(r@)[j as int], (e.0@, e.1)),
{
    let mut j: usize = 0;
    while j < r.len()
        invariant
            j <= r@.len(),
            forall|x: int|
                0 <= x < j ==> ranked_lt(
                    lex_lt_fn(),
                    (#[trigger] entries_view(r@)[x]),
                    (e.0@, e.1),
                ),
        decreases r@.len() - j,
    {
        if !entry_before(&r[j], e) {
            return j;
        }
        j += 1;
    }
    j
}

/// Sorts table entries into presentation order: by descending count, ties
/// broken by ascending lexicographic key path.
#[verifier::loop_isolation(false)]
fn sort_entries(src: &Vec<(String, usize)>) -> (r: Vec<(String, usize)>)
    ensures
        entries_view(r@).to_multiset() == entries_view(src@).to_multiset(),
        sorted_by(entries_view(r@), ranked_leq_fn(lex_lt_fn())),
{
    let ghost klt = lex_lt_fn();
    let ghost leq = ranked_leq_fn(klt);
    proof {
        lemma_lex_lt_ok();
        lemma_ranked_total_ordering(klt);
    }
    let mut r: Vec<(String, usize)> = Vec::new();
    let mut t: usize = 0;
    while t < src.len()
        invariant
            t <= src@.len(),
            entries_view(r@).to_multiset() == entries_view(src@.take(t as int)).to_multiset(),
            sorted_by(entries_view(r@), leq),
        decreases src@.len() - t,
    {
        let e = (src[t].0.clone(), src[t].1);
        let ghost ev = (e.0@, e.1);
        let ghost old_view = entries_view(r@);
        let j = entry_position(&r, &e);
        r.insert(j, e);
        proof {
            let new_view = entries_view(r@);
            assert(new_view =~= old_view.insert(j as int, ev));
            assert(entries_view(src@.take(t + 1)) =~= entries_view(src@.take(t as int)).push(ev));
            assert forall|x: int, y: int| 0 <= x < y < new_view.len() implies #[trigger] leq(
                new_view[x],
                new_view[y],
            ) by {
                if y < j {
                } else if x < j && y == j {
                    assert(ranked_lt(klt, old_view[x], ev));
                } else if x < j && y > j {
                    assert(leq(old_view[x], old_view[y - 1]));
                } else if x == j && y > j {
                    assert(leq(ev, old_view[j as int]));
                    if y - 1 > j {
                        assert(leq(old_view[j as int], old_view[y - 1]));
                    }
                } else {
                    assert(leq(old_view[x - 1], old_view[y - 1]));
                }
            }
        }
        t += 1;
    }
    proof {
        assert(src@.take(src@.len() as int) =~= src@);
    }
    r
}

/// Builds the ranked Frequency Table of a record sequence: every key path
/// that occurs anywhere, with its occurrence count, ordered by descending
/// count and then by ascending key path.
pub fn analyze_json_keys(rows: &Vec<JsonValue>) -> (r: Vec<(String, usize)>)
    ensures
        counts_match(entries_view(r@), dataset_paths(rows@)),
        sorted_by(entries_view(r@), ranked_leq_fn(lex_lt_fn())),
{
    let paths = collect_dataset_paths(rows);
    let counted = count_paths(&paths);
    let r = sort_entries(&counted);
    proof {
        lemma_counts_match_permutation(entries_view(counted@), entries_view(r@), strings_view(paths@));
    }
    r
}

/// A table stays a table under any permutation of its entries.
proof fn lemma_counts_match_permutation(
    t1: Seq<(Seq<char>, usize)>,
    t2: Seq<(Seq<char>, usize)>,
    paths: Seq<Seq<char>>,
)
    requires
        counts_match(t1, paths),
        t1.to_multiset() == t2.to_multiset(),
    ensures
        counts_match(t2, paths),
{
    assert forall|x: int| 0 <= x < t2.len() implies (#[trigger] t2[x]).1 as nat
        == paths.to_multiset().count(t2[x].0) && t2[x].1 >= 1 by {
        assert(t2.to_multiset().count(t2[x]) > 0);
        assert(t1.to_multiset().count(t2[x]) > 0);
        assert(t1.contains(t2[x]));
        let y = choose|y: int| 0 <= y < t1.len() && t1[y] == t2[x];
        assert(t1[y].1 as nat == paths.to_multiset().count(t1[y].0));
    }
    assert forall|p: Seq<char>| #[trigger] paths.to_multiset().count(p) > 0 implies exists|x: int|
        0 <= x < t2.len() && (#[trigger] t2[x]).0 == p by {
        let y = choose|y: int| 0 <= y < t1.len() && (#[trigger] t1[y]).0 == p;
        assert(t1.to_multiset().count(t1[y]) > 0);
        assert(t2.to_multiset().count(t1[y]) > 0);
        assert(t2.contains(t1[y]));
        let x = choose|x: int| 0 <= x < t2.len() && t2[x] == t1[y];
        assert(t2[x].0 == p);
    }
    assert forall|x: int, y: int| 0 <= x < y < t2.len() implies (#[trigger] t2[x]).0
        != (#[trigger] t2[y]).0 by {
        if t2[x].0 == t2[y].0 {
            assert(t2[x].1 as nat == paths.to_multiset().count(t2[x].0));
            assert(t2[y].1 as nat == paths.to_multiset().count(t2[y].0));
            assert(t2[x] =~= t2[y]);
            lemma_two_indices_needs_count_two(t2, x, y);
            assert(t1.to_multiset().count(t2[x]) >= 2);
            lemma_two_indices_of_count_two(t1, t2[x]);
            let (u, w) = choose|u: int, w: int|
                0 <= u < w < t1.len() && t1[u] == t2[x] && t1[w] == t2[x];
            assert(t1[u].0 == t1[w].0);
            assert(false);
        }
    }
}

/// A path occurs in the dataset's tally exactly when some record reaches it.
proof fn lemma_dataset_count_from(rows: Seq<JsonValue>, p: Seq<char>, i: int)
    requires
        0 <= i <= rows.len(),
    ensures
        dataset_paths_from(rows, i).to_multiset().count(p) > 0 <==> exists|k: int|
            i <= k < rows.len() && #[trigger] row_key_set(rows[k]).contains(p),
    decreases rows.len() - i,
{
    if i < rows.len() {
        lemma_dataset_count_from(rows, p, i + 1);
        vstd::seq_lib::lemma_multiset_commutative(row_paths(rows[i]), dataset_paths_from(rows, i + 1));
        assert(row_key_set(rows[i]).contains(p) <==> row_paths(rows[i]).to_multiset().count(p) > 0);
        if row_key_set(rows[i]).contains(p) {
            assert(dataset_paths_from(rows, i).to_multiset().count(p) > 0);
        }
    }
}

/// A path has a positive dataset count exactly when it is in the Global Key
/// Set.
pub proof fn lemma_dataset_count_iff_global(rows: Seq<JsonValue>, p: Seq<char>)
    ensures
        dataset_count(rows, p) > 0 <==> global_key_set(rows).contains(p),
{
    lemma_dataset_count_from(rows, p, 0);
}

/// The union of the Row Key Sets of the records `rows[i..]`.
pub open spec fn row_key_union_from(rows: Seq<JsonValue>, i: int) -> Set<Seq<char>>
    decreases rows.len() - i,
{
    if 0 <= i < rows.len() {
        row_key_set(rows[i]).union(row_key_union_from(rows, i + 1))
    } else {
        Set::empty()
    }
}

/// The Global Key Set is exactly the union, over all records, of their Row
/// Key Sets.
pub proof fn lemma_global_key_set_is_union(rows: Seq<JsonValue>)
    ensures
        global_key_set(rows) == row_key_union_from(rows, 0),
{
    lemma_global_union_from(rows, 0);
    assert(global_key_set(rows) =~= row_key_union_from(rows, 0));
}

proof fn lemma_global_union_from(rows: Seq<JsonValue>, i: int)
    requires
        0 <= i <= rows.len(),
    ensures
        forall|p: Seq<char>|
            #[trigger] row_key_union_from(rows, i).contains(p) <==> exists|k: int|
                i <= k < rows.len() && #[trigger] row_key_set(rows[k]).contains(p),
    decreases rows.len() - i,
{
    if i < rows.len() {
        lemma_global_union_from(rows, i + 1);
        assert forall|p: Seq<char>| #[trigger] row_key_union_from(rows, i).contains(p)
            implies exists|k: int|
            i <= k < rows.len() && #[trigger] row_key_set(rows[k]).contains(p) by {
            if row_key_set(rows[i]).contains(p) {
                assert(i <= i < rows.len() && row_key_set(rows[i]).contains(p));
            } else {
                assert(row_key_union_from(rows, i + 1).contains(p));
                let k = choose|k: int|
                    i + 1 <= k < rows.len() && #[trigger] row_key_set(rows[k]).contains(p);
                assert(i <= k < rows.len() && row_key_set(rows[k]).contains(p));
            }
        }
        assert forall|p: Seq<char>|
            exists|k: int| i <= k < rows.len() && #[trigger] row_key_set(rows[k]).contains(p)
            implies #[trigger] row_key_union_from(rows, i).contains(p) by {
            let k = choose|k: int|
                i <= k < rows.len() && #[trigger] row_key_set(rows[k]).contains(p);
            if k == i {
            } else {
                assert(row_key_union_from(rows, i + 1).contains(p));
            }
        }
    }
}

/// Every record's Row Key Set is contained in the Global Key Set.
pub proof fn lemma_row_subset_global(rows: Seq<JsonValue>, i: int)
    requires
        0 <= i < rows.len(),
    ensures
        row_key_set(rows[i]).subset_of(global_key_set(rows)),
{
}

/// The key paths reachable within one record; their set is the record's Row
/// Key Set.
pub fn get_keys_in_row(v: &JsonValue) -> (r: Vec<String>)
    ensures
        strings_view(r@) == row_paths(*v),
        strings_view(r@).to_set() == row_key_set(*v),
{
    let mut keys: Vec<String> = Vec::new();
    proof {
        reveal_strlit("");
        assert(""@ =~= Seq::<char>::empty());
    }
    collect_keys_from_value(v, "", &mut keys);
    proof {
        assert(strings_view(keys@) =~= flat_paths(*v, ""@));
    }
    keys
}

/// Every key path seen anywhere in the dataset, one entry per distinct
/// path: the Global Key Set, read off the Frequency Table's key column.
pub fn get_all_keys_seen_across_dataset(rows: &Vec<JsonValue>) -> (r: Vec<String>)
    ensures
        strings_view(r@).to_set() == global_key_set(rows@),
        forall|x: int, y: int|
            0 <= x < y < r@.len() ==> (#[trigger] r@[x])@ != (#[trigger] r@[y])@,
{
    let table = analyze_json_keys(rows);
    let mut keys: Vec<String> = Vec::new();
    let mut i: usize = 0;
    while i < table.len()
        invariant
            i <= table@.len(),
            strings_view(keys@) =~= entries_view(table@).take(i as int).map_values(
                |e: (Seq<char>, usize)| e.0,
            ),
        decreases table@.len() - i,
    {
        let ghost before = strings_view(keys@);
        keys.push(table[i].0.clone());
        proof {
            assert(strings_view(keys@) =~= before.push(entries_view(table@)[i as int].0));
            assert(strings_view(keys@) =~= entries_view(table@).take(i + 1).map_values(
                |e: (Seq<char>, usize)| e.0,
            ));
        }
        i += 1;
    }
    proof {
        let tview = entries_view(table@);
        assert(tview.take(tview.len() as int) =~= tview);
        let kview = strings_view(keys@);
        assert(kview =~= tview.map_values(|e: (Seq<char>, usize)| e.0));
        assert forall|p: Seq<char>| #[trigger] kview.to_set().contains(p) implies global_key_set(
            rows@,
        ).contains(p) by {
            let x = choose|x: int| 0 <= x < kview.len() && kview[x] == p;
            assert(tview[x].0 == p);
            assert(tview[x].1 as nat == dataset_paths(rows@).to_multiset().count(p));
            lemma_dataset_count_iff_global(rows@, p);
        }
        assert forall|p: Seq<char>| #[trigger] global_key_set(rows@).contains(p)
            implies kview.to_set().contains(p) by {
            lemma_dataset_count_iff_global(rows@, p);
            let x = choose|x: int| 0 <= x < tview.len() && (#[trigger] tview[x]).0 == p;
            assert(kview[x] == p);
            assert(kview.contains(p));
        }
        assert(kview.to_set() =~= global_key_set(rows@));
        assert forall|x: int, y: int| 0 <= x < y < keys@.len() implies (#[trigger] keys@[x])@
            != (#[trigger] keys@[y])@ by {
            assert(kview[x] == tview[x].0);
            assert(kview[y] == tview[y].0);
            assert(tview[x].0 != tview[y].0);
        }
    }
    keys
}

/// Whether the string sequence holds `s`.
pub(crate) fn contains_string(v: &Vec<String>, s: &String) -> (r: bool)
    ensures
        r == strings_view(v@).contains(s@),
{
    let mut j: usize = 0;
    while j < v.len()
        invariant
            j <= v@.len(),
            forall|x: int| 0 <= x < j ==> (#[trigger] v@[x])@ != s@,
        decreases v@.len() - j,
    {
        if v[j] == *s {
            proof {
                assert(strings_view(v@)[j as int] == s@);
            }
            return true;
        }
        j += 1;
    }
    proof {
        assert forall|x: int| 0 <= x < strings_view(v@).len() implies strings_view(v@)[x] != s@ by {
            assert((#[trigger] v@[x])@ != s@);
        }
    }
    false
}

/// The indices of the records whose Row Key Set falls short of the Global
/// Key Set, in ascending order.
#[verifier::loop_isolation(false)]
pub fn identify_rows_with_missing_keys(rows: &Vec<JsonValue>) -> (r: Vec<usize>)
    ensures
        forall|x: int| 0 <= x < r@.len() ==> (#[trigger] r@[x]) < rows@.len(),
        forall|x: int, y: int| 0 <= x < y < r@.len() ==> r@[x] < r@[y],
        forall|i: int|
            0 <= i < rows@.len() ==> (#[trigger] r@.contains(i as usize) <==> row_key_set(rows@[i])
                != global_key_set(rows@)),
{
    let all_keys = get_all_keys_seen_across_dataset(rows);
    let mut out: Vec<usize> = Vec::new();
    let mut i: usize = 0;
    while i < rows.len()
        invariant
            i <= rows@.len(),
            forall|x: int| 0 <= x < out@.len() ==> (#[trigger] out@[x]) < i,
            forall|x: int, y: int| 0 <= x < y < out@.len() ==> out@[x] < out@[y],
            forall|k: int|
                0 <= k < i ==> (#[trigger] out@.contains(k as usize) <==> row_key_set(rows@[k])
                    != global_key_set(rows@)),
        decreases rows@.len() - i,
    {
        let row_keys = get_keys_in_row(&rows[i]);
        let mut missing = false;
        let mut j: usize = 0;
        while j < all_keys.len()
            invariant
                j <= all_keys@.len(),
                missing ==> exists|x: int|
                    0 <= x < all_keys@.len() && !strings_view(row_keys@).contains(
                        #[trigger] strings_view(all_keys@)[x],
                    ),
                !missing ==> forall|x: int|
                    0 <= x < j ==> strings_view(row_keys@).contains(
                        #[trigger] strings_view(all_keys@)[x],
                    ),
            decreases all_keys@.len() - j,
        {
            if !contains_string(&row_keys, &all_keys[j]) {
                missing = true;
                proof {
                    assert(!strings_view(row_keys@).contains(strings_view(all_keys@)[j as int]));
                }
            }
            j += 1;
        }
        let ghost global = global_key_set(rows@);
        let ghost rset = row_key_set(rows@[i as int]);
        let ghost old_out = out@;
        proof {
            if missing {
                let x = choose|x: int|
                    0 <= x < all_keys@.len() && !strings_view(row_keys@).contains(
                        #[trigger] strings_view(all_keys@)[x],
                    );
                let p = strings_view(all_keys@)[x];
                assert(strings_view(all_keys@).to_set().contains(p));
                assert(global.contains(p) && !rset.contains(p));
                assert(rset != global);
            } else {
                assert forall|p: Seq<char>| #[trigger] global.contains(p) implies rset.contains(
                    p,
                ) by {
                    assert(strings_view(all_keys@).to_set().contains(p));
                    let x = choose|x: int|
                        0 <= x < strings_view(all_keys@).len() && strings_view(all_keys@)[x] == p;
                    assert(strings_view(row_keys@).contains(strings_view(all_keys@)[x]));
                }
                lemma_row_subset_global(rows@, i as int);
                assert(rset =~= global);
                assert(rset == global);
            }
        }
        if missing {
            out.push(i);
        }
        proof {
            assert forall|k: int|
                0 <= k < i + 1 implies (#[trigger] out@.contains(k as usize)
                <==> row_key_set(rows@[k]) != global_key_set(rows@)) by {
                if k < i {
                    if out@.contains(k as usize) {
                        let x = choose|x: int| 0 <= x < out@.len() && out@[x] == k as usize;
                        if x < old_out.len() {
                            assert(old_out[x] == k as usize);
                            assert(old_out.contains(k as usize));
                        } else {
                            assert(out@[x] == i);
                        }
                    }
                    if row_key_set(rows@[k]) != global_key_set(rows@) {
                        assert(old_out.contains(k as usize));
                        let x = choose|x: int| 0 <= x < old_out.len() && old_out[x] == k as usize;
                        assert(out@[x] == k as usize);
                    }
                } else {
                    if missing {
                        assert(out@[old_out.len() as int] == i);
                        assert(out@.contains(i));
                    } else {
                        if out@.contains(i) {
                            let x = choose|x: int| 0 <= x < out@.len() && out@[x] == i;
                            assert(out@[x] < i);
                        }
                    }
                }
            }
        }
        i += 1;
    }
    out
}

/// The matching non-strict key order, as needed for sortedness claims.
pub open spec fn key_leq_fn<K>(klt: spec_fn(K, K) -> bool) -> spec_fn(K, K) -> bool {
    |a: K, b: K| !klt(b, a)
}

/// For a fit strict key order, the non-strict order is total.
pub proof fn lemma_key_leq_total_ordering<K>(klt: spec_fn(K, K) -> bool)
    requires
        key_lt_ok(klt),
    ensures
        total_ordering(key_leq_fn(klt)),
{
    let leq = key_leq_fn(klt);
    assert forall|a: K| #[trigger] leq(a, a) by {
        assert(!klt(a, a));
    }
    assert forall|a: K, b: K| #[trigger] leq(a, b) && #[trigger] leq(b, a) implies a == b by {
        if a != b {
            assert(klt(a, b) || klt(b, a));
        }
    }
    assert forall|a: K, b: K, c: K| #[trigger] leq(a, b) && #[trigger] leq(b, c) implies leq(
        a,
        c,
    ) by {
        if klt(c, a) {
            if a == b {
            } else if b == c {
            } else {
                assert(klt(a, b) || klt(b, a));
                assert(klt(a, b));
                assert(klt(c, a) && klt(a, b) ==> klt(c, b));
            }
        }
    }
    assert forall|a: K, b: K| #[trigger] leq(a, b) || #[trigger] leq(b, a) by {
        if klt(b, a) && klt(a, b) {
            assert(false);
        }
    }
}

/// The order on sorted name sequences as a first-class relation.
pub open spec fn seq_lex_lt_fn() -> spec_fn(Seq<Seq<char>>, Seq<Seq<char>>) -> bool {
    |a: Seq<Seq<char>>, b: Seq<Seq<char>>| seq_lex_lt(a, b)
}

/// The order on name sequences is a strict total order.
pub proof fn lemma_seq_lex_lt_ok()
    ensures
        key_lt_ok(seq_lex_lt_fn()),
{
    let klt = seq_lex_lt_fn();
    assert forall|a: Seq<Seq<char>>, b: Seq<Seq<char>>| #[trigger] klt(a, b) implies !klt(b, a)
        && a != b by {
        lemma_seq_lex_lt_total(a, b);
    }
    assert forall|a: Seq<Seq<char>>, b: Seq<Seq<char>>| a != b implies #[trigger] klt(a, b)
        || #[trigger] klt(b, a) by {
        lemma_seq_lex_lt_total(a, b);
    }
    assert forall|a: Seq<Seq<char>>, b: Seq<Seq<char>>, c: Seq<Seq<char>>|
        #[trigger] klt(a, b) && #[trigger] klt(b, c) implies klt(a, c) by {
        lemma_seq_lex_lt_trans(a, b, c);
    }
}

/// Whether two string vectors hold the same text in the same order.
fn vec_str_eq(a: &Vec<String>, b: &Vec<String>) -> (r: bool)
    ensures
        r == (strings_view(a@) == strings_view(b@)),
{
    if a.len() != b.len() {
        proof {
            assert(strings_view(a@).len() != strings_view(b@).len());
        }
        return false;
    }
    let mut i: usize = 0;
    while i < a.len()
        invariant
            a@.len() == b@.len(),
            i <= a@.len(),
            forall|x: int| 0 <= x < i ==> (#[trigger] a@[x])@ == b@[x]@,
        decreases a@.len() - i,
    {
        if !(a[i] == b[i]) {
            proof {
                assert(strings_view(a@)[i as int] != strings_view(b@)[i as int]);
            }
            return false;
        }
        i += 1;
    }
    proof {
        assert(strings_view(a@) =~= strings_view(b@));
    }
    true
}

/// Whether `a` comes strictly before `b` in the order on name sequences.
fn vec_str_lt(a: &Vec<String>, b: &Vec<String>) -> (r: bool)
    ensures
        r == seq_lex_lt(strings_view(a@), strings_view(b@)),
{
    let ghost av = strings_view(a@);
    let ghost bv = strings_view(b@);
    let mut i: usize = 0;
    while i < a.len() && i < b.len()
        invariant
            av == strings_view(a@),
            bv == strings_view(b@),
            i <= av.len(),
            i <= bv.len(),
            forall|x: int| 0 <= x < i ==> av[x] == bv[x],
        decreases av.len() - i,
    {
        if !(a[i] == b[i]) {
            proof {
                assert(av[i as int] != bv[i as int]);
                lemma_seq_lex_lt_skip_eq(av, bv, i as int);
            }
            return str_lt(a[i].as_str(), b[i].as_str());
        }
        i += 1;
    }
    proof {
        lemma_seq_lex_lt_skip_eq(av, bv, i as int);
    }
    a.len() < b.len()
}

/// Dropping an equal prefix does not change the name-sequence comparison.
proof fn lemma_seq_lex_lt_skip_eq(a: Seq<Seq<char>>, b: Seq<Seq<char>>, i: int)
    requires
        0 <= i <= a.len(),
        i <= b.len(),
        forall|j: int| 0 <= j < i ==> a[j] == b[j],
    ensures
        seq_lex_lt(a, b) == seq_lex_lt(a.skip(i), b.skip(i)),
    decreases i,
{
    if i > 0 {
        assert(a[0] == b[0]);
        lemma_seq_lex_lt_skip_eq(a.drop_first(), b.drop_first(), i - 1);
        assert(a.drop_first().skip(i - 1) =~= a.skip(i));
        assert(b.drop_first().skip(i - 1) =~= b.skip(i));
    } else {
        assert(a.skip(0) =~= a);
        assert(b.skip(0) =~= b);
    }
}

/// Sorts key names ascending by the lexicographic order.
#[verifier::loop_isolation(false)]
fn sort_strings(src: &Vec<String>) -> (r: Vec<String>)
    ensures
        strings_view(r@) == strings_view(src@).sort_by(key_leq_fn(lex_lt_fn())),
{
    let ghost klt = lex_lt_fn();
    let ghost leq = key_leq_fn(klt);
    proof {
        lemma_lex_lt_ok();
        lemma_key_leq_total_ordering(klt);
    }
    let mut r: Vec<String> = Vec::new();
    let mut t: usize = 0;
    while t < src.len()
        invariant
            t <= src@.len(),
            strings_view(r@).to_multiset() == strings_view(src@.take(t as int)).to_multiset(),
            sorted_by(strings_view(r@), leq),
        decreases src@.len() - t,
    {
        let e = src[t].clone();
        let ghost ev = e@;
        let ghost old_view = strings_view(r@);
        let mut j: usize = 0;
        while j < r.len()
            invariant
                j <= r@.len(),
                forall|x: int| 0 <= x < j ==> lex_lt(#[trigger] strings_view(r@)[x], ev),
            decreases r@.len() - j,
        {
            if !str_lt(r[j].as_str(), e.as_str()) {
                break;
            }
            j += 1;
        }
        proof {
            assert(j < r@.len() ==> !lex_lt(strings_view(r@)[j as int], ev));
        }
        r.insert(j, e);
        proof {
            let new_view = strings_view(r@);
            assert(new_view =~= old_view.insert(j as int, ev));
            assert(strings_view(src@.take(t + 1)) =~= strings_view(src@.take(t as int)).push(ev));
            assert forall|x: int, y: int| 0 <= x < y < new_view.len() implies #[trigger] leq(
                new_view[x],
                new_view[y],
            ) by {
                if y < j {
                } else if x < j && y == j {
                    assert(lex_lt(old_view[x], ev));
                } else if x < j && y > j {
                    assert(leq(old_view[x], old_view[y - 1]));
                } else if x == j && y > j {
                    assert(leq(ev, old_view[j as int]));
                    if y - 1 > j {
                        assert(leq(old_view[j as int], old_view[y - 1]));
                    }
                } else {
                    assert(leq(old_view[x - 1], old_view[y - 1]));
                }
            }
        }
        t += 1;
    }
    proof {
        assert(src@.take(src@.len() as int) =~= src@);
        strings_view(src@).lemma_sort_by_ensures(leq);
        vstd::seq_lib::lemma_sorted_unique(
            strings_view(r@),
            strings_view(src@).sort_by(leq),
            leq,
        );
    }
    r
}

/// The direct field names of an object's field list, in order.
pub open spec fn field_names(fields: Seq<(String, JsonValue)>) -> Seq<Seq<char>> {
    fields.map_values(|f: (String, JsonValue)| f.0@)
}

/// A record's key-combination fingerprint: the sorted sequence of its
/// direct field names. Records that are not objects have none.
pub open spec fn fingerprint(v: JsonValue) -> Option<Seq<Seq<char>>> {
    match v {
        JsonValue::Object(fields) => Some(
            field_names(fields@).sort_by(key_leq_fn(lex_lt_fn())),
        ),
        _ => None,
    }
}

/// How many of the first `upto` records carry the fingerprint `f`.
pub open spec fn combo_count_upto(rows: Seq<JsonValue>, f: Seq<Seq<char>>, upto: int) -> nat
    decreases upto,
{
    if 0 < upto <= rows.len() {
        combo_count_upto(rows, f, upto - 1) + (if fingerprint(rows[upto - 1]) == Some(f) {
            1nat
        } else {
            0nat
        })
    } else {
        0
    }
}

/// How many records of the dataset carry the fingerprint `f`.
pub open spec fn combo_count(rows: Seq<JsonValue>, f: Seq<Seq<char>>) -> nat {
    combo_count_upto(rows, f, rows.len() as int)
}

/// The name-sequence views behind a combination-table vector.
pub open spec fn combos_view(s: Seq<(Vec<String>, usize)>) -> Seq<(Seq<Seq<char>>, usize)> {
    s.map_values(|e: (Vec<String>, usize)| (strings_view(e.0@), e.1))
}

/// `t` tallies the fingerprints of the first `upto` records exactly.
pub open spec fn combo_counts_match(
    t: Seq<(Seq<Seq<char>>, usize)>,
    rows: Seq<JsonValue>,
    upto: int,
) -> bool {
    &&& forall|x: int|
        0 <= x < t.len() ==> (#[trigger] t[x]).1 as nat == combo_count_upto(rows, t[x].0, upto)
    &&& forall|x: int| 0 <= x < t.len() ==> (#[trigger] t[x]).1 >= 1
    &&& forall|f: Seq<Seq<char>>|
        #[trigger] combo_count_upto(rows, f, upto) > 0 ==> exists|x: int|
            0 <= x < t.len() && (#[trigger] t[x]).0 == f
    &&& forall|x: int, y: int|
        0 <= x < y < t.len() ==> (#[trigger] t[x]).0 != (#[trigger] t[y]).0
}

/// A ranked combination table of a whole record sequence: every occurring
/// fingerprint with its exact record count, ordered by descending count and
/// then ascending name sequence.
pub open spec fn combo_table_ok(t: Seq<(Seq<Seq<char>>, usize)>, rows: Seq<JsonValue>) -> bool {
    &&& combo_counts_match(t, rows, rows.len() as int)
    &&& sorted_by(t, ranked_leq_fn(seq_lex_lt_fn()))
}

/// The index of the table entry with fingerprint equal to `f`, if any.
fn find_combo(t: &Vec<(Vec<String>, usize)>, f: &Vec<String>) -> (r: Option<usize>)
    ensures
        match r {
            Some(j) => j < t@.len() && strings_view(t@[j as int].0@) == strings_view(f@),
            None => forall|x: int|
                0 <= x < t@.len() ==> strings_view((#[trigger] t@[x]).0@) != strings_view(f@),
        },
{
    let mut j: usize = 0;
    while j < t.len()
        invariant
            j <= t@.len(),
            forall|x: int| 0 <= x < j ==> strings_view((#[trigger] t@[x]).0@) != strings_view(f@),
        decreases t@.len() - j,
    {
        if vec_str_eq(&t[j].0, f) {
            return Some(j);
        }
        j += 1;
    }
    None
}

/// A combination tally stays a tally under any permutation of its entries.
proof fn lemma_combo_match_permutation(
    t1: Seq<(Seq<Seq<char>>, usize)>,
    t2: Seq<(Seq<Seq<char>>, usize)>,
    rows: Seq<JsonValue>,
    upto: int,
)
    requires
        combo_counts_match(t1, rows, upto),
        t1.to_multiset() == t2.to_multiset(),
    ensures
        combo_counts_match(t2, rows, upto),
{
    assert forall|x: int| 0 <= x < t2.len() implies (#[trigger] t2[x]).1 as nat
        == combo_count_upto(rows, t2[x].0, upto) && t2[x].1 >= 1 by {
        assert(t2.to_multiset().count(t2[x]) > 0);
        assert(t1.to_multiset().count(t2[x]) > 0);
        assert(t1.contains(t2[x]));
        let y = choose|y: int| 0 <= y < t1.len() && t1[y] == t2[x];
        assert(t1[y].1 as nat == combo_count_upto(rows, t1[y].0, upto));
    }
    assert forall|f: Seq<Seq<char>>| #[trigger] combo_count_upto(rows, f, upto) > 0
        implies exists|x: int| 0 <= x < t2.len() && (#[trigger] t2[x]).0 == f by {
        let y = choose|y: int| 0 <= y < t1.len() && (#[trigger] t1[y]).0 == f;
        assert(t1.to_multiset().count(t1[y]) > 0);
        assert(t2.to_multiset().count(t1[y]) > 0);
        assert(t2.contains(t1[y]));
        let x = choose|x: int| 0 <= x < t2.len() && t2[x] == t1[y];
        assert(t2[x].0 == f);
    }
    assert forall|x: int, y: int| 0 <= x < y < t2.len() implies (#[trigger] t2[x]).0
        != (#[trigger] t2[y]).0 by {
        if t2[x].0 == t2[y].0 {
            assert(t2[x].1 as nat == combo_count_upto(rows, t2[x].0, upto));
            assert(t2[y].1 as nat == combo_count_upto(rows, t2[y].0, upto));
            assert(t2[x] =~= t2[y]);
            lemma_two_indices_needs_count_two(t2, x, y);
            assert(t1.to_multiset().count(t2[x]) >= 2);
            lemma_two_indices_of_count_two(t1, t2[x]);
            let (u, w) = choose|u: int, w: int|
                0 <= u < w < t1.len() && t1[u] == t2[x] && t1[w] == t2[x];
            assert(t1[u].0 == t1[w].0);
            assert(false);
        }
    }
}

/// Whether combination `a` is presented strictly before `b`: higher count
/// first, ties by ascending name sequence.
fn combo_before(a: &(Vec<String>, usize), b: &(Vec<String>, usize)) -> (r: bool)
    ensures
        r == ranked_lt(seq_lex_lt_fn(), (strings_view(a.0@), a.1), (strings_view(b.0@), b.1)),
{
    if b.1 < a.1 {
        true
    } else if a.1 == b.1 {
        vec_str_lt(&a.0, &b.0)
    } else {
        false
    }
}

/// Sorts a combination tally into presentation order.
#[verifier::loop_isolation(false)]
fn sort_combos(src: Vec<(Vec<String>, usize)>) -> (r: Vec<(Vec<String>, usize)>)
    ensures
        combos_view(r@).to_multiset() == combos_view(src@).to_multiset(),
        sorted_by(combos_view(r@), ranked_leq_fn(seq_lex_lt_fn())),
{
    let ghost klt = seq_lex_lt_fn();
    let ghost leq = ranked_leq_fn(klt);
    proof {
        lemma_seq_lex_lt_ok();
        lemma_ranked_total_ordering(klt);
    }
    let mut src = src;
    let mut r: Vec<(Vec<String>, usize)> = Vec::new();
    let ghost src_view = combos_view(src@);
    let mut t: usize = 0;
    while t < src.len()
        invariant
            t <= src@.len(),
            combos_view(src@) == src_view,
            combos_view(r@).to_multiset() == src_view.take(t as int).to_multiset(),
            sorted_by(combos_view(r@), leq),
        decreases src@.len() - t,
    {
        let names = &src[t].0;
        let mut key: Vec<String> = Vec::new();
        let mut c: usize = 0;
        while c < names.len()
            invariant
                c <= names@.len(),
                strings_view(key@) =~= strings_view(names@).take(c as int),
            decreases names@.len() - c,
        {
            let ghost before = strings_view(key@);
            key.push(names[c].clone());
            proof {
                assert(strings_view(key@) =~= before.push(names@[c as int]@));
                assert(strings_view(key@) =~= strings_view(names@).take(c + 1));
            }
            c += 1;
        }
        proof {
            assert(strings_view(key@) =~= strings_view(names@));
        }
        let e = (key, src[t].1);
        let ghost ev = (strings_view(names@), src@[t as int].1);
        let ghost old_view = combos_view(r@);
        let mut j: usize = 0;
        while j < r.len()
            invariant
                j <= r@.len(),
                forall|x: int| 0 <= x < j ==> ranked_lt(klt, #[trigger] combos_view(r@)[x], ev),
            decreases r@.len() - j,
        {
            if !combo_before(&r[j], &e) {
                break;
            }
            j += 1;
        }
        proof {
            assert(j < r@.len() ==> !ranked_lt(klt, combos_view(r@)[j as int], ev));
        }
        r.insert(j, e);
        proof {
            let new_view = combos_view(r@);
            assert(new_view =~= old_view.insert(j as int, ev));
            assert(src_view.take(t + 1) =~= src_view.take(t as int).push(ev));
            assert forall|x: int, y: int| 0 <= x < y < new_view.len() implies #[trigger] leq(
                new_view[x],
                new_view[y],
            ) by {
                if y < j {
                } else if x < j && y == j {
                    assert(ranked_lt(klt, old_view[x], ev));
                } else if x < j && y > j {
                    assert(leq(old_view[x], old_view[y - 1]));
                } else if x == j && y > j {
                    assert(leq(ev, old_view[j as int]));
                    if y - 1 > j {
                        assert(leq(old_view[j as int], old_view[y - 1]));
                    }
                } else {
                    assert(leq(old_view[x - 1], old_view[y - 1]));
                }
            }
        }
        t += 1;
    }
    proof {
        assert(src_view.take(src@.len() as int) =~= src_view);
    }
    r
}

/// Builds the full ranked key-combination table of a record sequence.
#[verifier::loop_isolation(false)]
pub fn combination_table(rows: &Vec<JsonValue>) -> (r: Vec<(Vec<String>, usize)>)
    ensures
        combo_table_ok(combos_view(r@), rows@),
{
    let mut tbl: Vec<(Vec<String>, usize)> = Vec::new();
    let mut i: usize = 0;
    while i < rows.len()
        invariant
            i <= rows@.len(),
            combo_counts_match(combos_view(tbl@), rows@, i as int),
            forall|x: int| 0 <= x < tbl@.len() ==> (#[trigger] tbl@[x]).1 <= i,
        decreases rows@.len() - i,
    {
        let ghost old_view = combos_view(tbl@);
        match &rows[i] {
            JsonValue::Object(fields) => {
                let mut names: Vec<String> = Vec::new();
                let mut c: usize = 0;
                while c < fields.len()
                    invariant
                        c <= fields@.len(),
                        strings_view(names@) =~= field_names(fields@).take(c as int),
                    decreases fields@.len() - c,
                {
                    let ghost before = strings_view(names@);
                    names.push(fields[c].0.clone());
                    proof {
                        assert(strings_view(names@) =~= before.push(fields@[c as int].0@));
                        assert(strings_view(names@) =~= field_names(fields@).take(c + 1));
                    }
                    c += 1;
                }
                let sorted_names = sort_strings(&names);
                let ghost fp = strings_view(sorted_names@);
                proof {
                    assert(strings_view(names@) =~= field_names(fields@));
                    assert(fingerprint(rows@[i as int]) == Some(fp));
                }
                match find_combo(&tbl, &sorted_names) {
                    Some(j) => {
                        let cnt = tbl[j].1;
                        let key = tbl.remove(j);
                        tbl.insert(j, (key.0, cnt + 1));
                        proof {
                            let new_view = combos_view(tbl@);
                            assert(new_view =~= old_view.update(j as int, (fp, (cnt + 1) as usize)));
                            assert(old_view[j as int].0 == fp);
                            lemma_combo_tally_step(old_view, new_view, rows@, i as int, fp, j as int);
                        }
                    }
                    None => {
                        tbl.push((sorted_names, 1));
                        proof {
                            let new_view = combos_view(tbl@);
                            assert(new_view =~= old_view.push((fp, 1usize)));
                            assert(combo_count_upto(rows@, fp, i as int) == 0) by {
                                if combo_count_upto(rows@, fp, i as int) > 0 {
                                    let x = choose|x: int|
                                        0 <= x < old_view.len() && (#[trigger] old_view[x]).0 == fp;
                                }
                            }
                            lemma_combo_tally_push(old_view, new_view, rows@, i as int, fp);
                        }
                    }
                }
            }
            _ => {
                proof {
                    assert(fingerprint(rows@[i as int]) is None);
                    assert forall|f: Seq<Seq<char>>|
                        #[trigger] combo_count_upto(rows@, f, i + 1) == combo_count_upto(
                            rows@,
                            f,
                            i as int,
                        ) by {
                        assert(fingerprint(rows@[i as int]) != Some(f));
                    }
                }
            }
        }
        i += 1;
    }
    let r = sort_combos(tbl);
    proof {
        lemma_combo_match_permutation(
            combos_view(tbl@),
            combos_view(r@),
            rows@,
            rows@.len() as int,
        );
    }
    r
}

/// Incrementing the matching entry keeps the tally exact one record on.
proof fn lemma_combo_tally_step(
    old_view: Seq<(Seq<Seq<char>>, usize)>,
    new_view: Seq<(Seq<Seq<char>>, usize)>,
    rows: Seq<JsonValue>,
    i: int,
    fp: Seq<Seq<char>>,
    j: int,
)
    requires
        0 <= i < rows.len(),
        fingerprint(rows[i]) == Some(fp),
        combo_counts_match(old_view, rows, i),
        0 <= j < old_view.len(),
        old_view[j].0 == fp,
        old_view[j].1 < usize::MAX,
        new_view == old_view.update(j, (fp, (old_view[j].1 + 1) as usize)),
    ensures
        combo_counts_match(new_view, rows, i + 1),
{
    assert forall|x: int| 0 <= x < new_view.len() implies (#[trigger] new_view[x]).1 as nat
        == combo_count_upto(rows, new_view[x].0, i + 1) && new_view[x].1 >= 1 by {
        if x == j {
        } else {
            assert(new_view[x] == old_view[x]);
            assert(old_view[x].0 != fp);
            assert(fingerprint(rows[i]) != Some(old_view[x].0));
        }
    }
    assert forall|f: Seq<Seq<char>>| #[trigger] combo_count_upto(rows, f, i + 1) > 0
        implies exists|x: int| 0 <= x < new_view.len() && (#[trigger] new_view[x]).0 == f by {
        if f == fp {
            assert(new_view[j].0 == f);
        } else {
            assert(combo_count_upto(rows, f, i) > 0);
            let x = choose|x: int| 0 <= x < old_view.len() && (#[trigger] old_view[x]).0 == f;
            assert(new_view[x].0 == f);
        }
    }
}

/// Appending a fresh entry keeps the tally exact one record on.
proof fn lemma_combo_tally_push(
    old_view: Seq<(Seq<Seq<char>>, usize)>,
    new_view: Seq<(Seq<Seq<char>>, usize)>,
    rows: Seq<JsonValue>,
    i: int,
    fp: Seq<Seq<char>>,
)
    requires
        0 <= i < rows.len(),
        fingerprint(rows[i]) == Some(fp),
        combo_counts_match(old_view, rows, i),
        combo_count_upto(rows, fp, i) == 0,
        forall|x: int| 0 <= x < old_view.len() ==> (#[trigger] old_view[x]).0 != fp,
        new_view == old_view.push((fp, 1usize)),
    ensures
        combo_counts_match(new_view, rows, i + 1),
{
    assert forall|x: int| 0 <= x < new_view.len() implies (#[trigger] new_view[x]).1 as nat
        == combo_count_upto(rows, new_view[x].0, i + 1) && new_view[x].1 >= 1 by {
        if x == old_view.len() {
            assert(new_view[x] == (fp, 1usize));
        } else {
            assert(new_view[x] == old_view[x]);
            assert(old_view[x].0 != fp);
            assert(fingerprint(rows[i]) != Some(old_view[x].0));
        }
    }
    assert forall|f: Seq<Seq<char>>| #[trigger] combo_count_upto(rows, f, i + 1) > 0
        implies exists|x: int| 0 <= x < new_view.len() && (#[trigger] new_view[x]).0 == f by {
        if f == fp {
            assert(new_view[old_view.len() as int].0 == f);
        } else {
            assert(combo_count_upto(rows, f, i) > 0);
            let x = choose|x: int| 0 <= x < old_view.len() && (#[trigger] old_view[x]).0 == f;
            assert(new_view[x].0 == f);
        }
    }
}

/// The `n` most frequent key combinations: the longest prefix of the full
/// ranked combination table that holds at most `n` entries.
pub fn get_top_key_combinations(rows: &Vec<JsonValue>, n: usize) -> (r: Vec<(Vec<String>, usize)>)
    ensures
        exists|full: Seq<(Seq<Seq<char>>, usize)>|
            #[trigger] combo_table_ok(full, rows@) && combos_view(r@) == full.take(
                if n as int <= full.len() {
                    n as int
                } else {
                    full.len() as int
                },
            ),
{
    let mut table = combination_table(rows);
    let ghost full = combos_view(table@);
    table.truncate(n);
    proof {
        let m: int = if n as int <= full.len() {
            n as int
        } else {
            full.len() as int
        };
        assert(combos_view(table@) =~= full.take(m));
    }
    table
}

/// Within any ranked table whose keys are distinct, earlier entries come
/// strictly before later ones: the presentation order is total.
pub proof fn lemma_table_order_strict<K>(klt: spec_fn(K, K) -> bool, t: Seq<(K, usize)>)
    requires
        key_lt_ok(klt),
        sorted_by(t, ranked_leq_fn(klt)),
        forall|x: int, y: int| 0 <= x < y < t.len() ==> (#[trigger] t[x]).0 != (#[trigger] t[y]).0,
    ensures
        forall|x: int, y: int|
            0 <= x < y < t.len() ==> ranked_lt(klt, #[trigger] t[x], #[trigger] t[y]),
{
    let leq = ranked_leq_fn(klt);
    assert forall|x: int, y: int| 0 <= x < y < t.len() implies ranked_lt(
        klt,
        #[trigger] t[x],
        #[trigger] t[y],
    ) by {
        assert(leq(t[x], t[y]));
        if t[x].1 == t[y].1 {
            assert(t[x].0 != t[y].0);
            assert(klt(t[x].0, t[y].0) || klt(t[y].0, t[x].0));
        }
    }
}

/// The Frequency Table's presentation order is a total order: in any table
/// that tallies a path sequence and is sorted for presentation, every
/// earlier entry strictly precedes every later one -- its count is higher,
/// or the counts tie and its key path is lexicographically smaller.
pub proof fn lemma_frequency_table_order(t: Seq<(Seq<char>, usize)>, paths: Seq<Seq<char>>)
    requires
        counts_match(t, paths),
        sorted_by(t, ranked_leq_fn(lex_lt_fn())),
    ensures
        forall|x: int, y: int|
            0 <= x < y < t.len() ==> ranked_lt(lex_lt_fn(), #[trigger] t[x], #[trigger] t[y]),
{
    lemma_lex_lt_ok();
    lemma_table_order_strict(lex_lt_fn(), t);
}

/// A value occurring twice in a sequence has multiset count at least two.
proof fn lemma_two_indices_needs_count_two<A>(s: Seq<A>, x: int, y: int)
    requires
        0 <= x < y < s.len(),
        s[x] == s[y],
    ensures
        s.to_multiset().count(s[x]) >= 2,
{
    let rest = s.remove(y);
    assert(s.to_multiset() == rest.to_multiset().insert(s[y]));
    assert(rest[x] == s[x]);
    assert(rest.to_multiset().count(s[x]) > 0) by {
        assert(rest.contains(s[x]));
    }
}

/// Conversely, multiset count two or more yields two distinct positions.
proof fn lemma_two_indices_of_count_two<A>(s: Seq<A>, a: A)
    requires
        s.to_multiset().count(a) >= 2,
    ensures
        exists|x: int, y: int| 0 <= x < y < s.len() && s[x] == a && s[y] == a,
{
    assert(s.to_multiset().count(a) > 0);
    assert(s.contains(a));
    let x = choose|x: int| 0 <= x < s.len() && s[x] == a;
    let rest = s.remove(x);
    assert(s.to_multiset() == rest.to_multiset().insert(a));
    assert(rest.to_multiset().count(a) >= 1);
    assert(rest.contains(a));
    let y0 = choose|y: int| 0 <= y < rest.len() && rest[y] == a;
    if y0 < x {
        assert(s[y0] == a);
        assert(s[y0] == a && s[x] == a && 0 <= y0 < x < s.len());
    } else {
        assert(s[y0 + 1] == a);
        assert(s[x] == a && s[y0 + 1] == a && 0 <= x < y0 + 1 < s.len());
    }
}


} // verus!
