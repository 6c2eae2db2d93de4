use vstd::prelude::*;
use vstd::set_lib::*;

verus! {

/// Source paths with their content hashes, as character sequences.
pub open spec fn pairs_view(v: Seq<(String, String)>) -> Seq<(Seq<char>, Seq<char>)> {
    v.map_values(|p: (String, String)| (p.0@, p.1@))
}

/// The paths of a list of (path, hash) pairs.
pub open spec fn paths_of(s: Seq<(Seq<char>, Seq<char>)>) -> Seq<Seq<char>> {
    s.map_values(|p: (Seq<char>, Seq<char>)| p.0)
}

/// No path occurs twice: the list is a map from paths to hashes.
pub open spec fn unique_paths(s: Seq<(Seq<char>, Seq<char>)>) -> bool {
    paths_of(s).no_duplicates()
}

/// The hash recorded for `path` (its last entry), if any.
pub open spec fn hash_of(s: Seq<(Seq<char>, Seq<char>)>, path: Seq<char>) -> Option<Seq<char>>
    decreases s.len(),
{
    if s.len() == 0 {
        None
    } else if s.last().0 == path {
        Some(s.last().1)
    } else {
        hash_of(s.drop_last(), path)
    }
}

/// The list as a map from path to hash.
pub open spec fn as_map(s: Seq<(Seq<char>, Seq<char>)>) -> Map<Seq<char>, Seq<char>> {
    Map::new(|p: Seq<char>| hash_of(s, p) is Some, |p: Seq<char>| hash_of(s, p)->0)
}

/// Whether the index must be refreshed: embeddings are missing, or some file was added,
/// removed or changed since it was indexed.
pub open spec fn stale_spec(
    needs_embedding: bool,
    indexed: Seq<(Seq<char>, Seq<char>)>,
    on_disk: Seq<(Seq<char>, Seq<char>)>,
) -> bool {
    ||| needs_embedding
    ||| on_disk.len() != indexed.len()
    ||| exists|i: int|
        0 <= i < on_disk.len() && hash_of(indexed, #[trigger] on_disk[i].0) != Some(on_disk[i].1)
}

/// Whether the index holds chunks but no embeddings, which calls for a full re-index.
pub fn embeddings_missing(chunk_count: i64, vector_count: i64) -> (missing: bool)
    ensures
        missing == (chunk_count > 0 && vector_count == 0),
{
    chunk_count > 0 && vector_count == 0
}

/// The position of the last entry for `path`, if any.
pub fn find_path(s: &Vec<(String, String)>, path: &String) -> (r: Option<usize>)
    ensures
        match r {
            Some(i) => i < s@.len() && s@[i as int].0@ == path@ && hash_of(pairs_view(s@), path@)
                == Some(s@[i as int].1@),
            None => hash_of(pairs_view(s@), path@) is None,
        },
{
    let ghost v = pairs_view(s@);
    let mut k: usize = s.len();
    assert(v.subrange(0, k as int) =~= v);
    while k > 0
        invariant
            k <= s@.len(),
            v == pairs_view(s@),
            hash_of(v, path@) == hash_of(v.subrange(0, k as int), path@),
        decreases k,
    {
        let ghost pre = v.subrange(0, k as int);
        assert(pre.drop_last() =~= v.subrange(0, k - 1));
        assert(pre.last() == v[k - 1]);
        if s[k - 1].0 == *path {
            return Some(k - 1);
        }
        k = k - 1;
    }
    None
}

/// Whether any indexed file is stale compared with the files on disk: true when embeddings
/// are missing, when the number of files differs, or when a file on disk is unindexed or
/// indexed with another hash.
pub fn has_stale_files(
    needs_embedding: bool,
    indexed: &Vec<(String, String)>,
    on_disk: &Vec<(String, String)>,
) -> (stale: bool)
    ensures
        stale == stale_spec(needs_embedding, pairs_view(indexed@), pairs_view(on_disk@)),
{
    if needs_embedding {
        return true;
    }
    if on_disk.len() != indexed.len() {
        return true;
    }
    let ghost ix = pairs_view(indexed@);
    let ghost od = pairs_view(on_disk@);
    let mut i: usize = 0;
    while i < on_disk.len()
        invariant
            i <= on_disk@.len(),
            ix == pairs_view(indexed@),
            od == pairs_view(on_disk@),
            forall|j: int| 0 <= j < i ==> hash_of(ix, #[trigger] od[j].0) == Some(od[j].1),
        decreases on_disk@.len() - i,
    {
        match find_path(indexed, &on_disk[i].0) {
            Some(k) => {
                if indexed[k].1 != on_disk[i].1 {
                    assert(hash_of(ix, od[i as int].0) != Some(od[i as int].1));
                    return true;
                }
            },
            None => {
                assert(hash_of(ix, od[i as int].0) != Some(od[i as int].1));
                return true;
            },
        }
        i = i + 1;
    }
    false
}

proof fn lemma_hash_of_found(s: Seq<(Seq<char>, Seq<char>)>, p: Seq<char>)
    ensures
        hash_of(s, p) is Some <==> paths_of(s).contains(p),
        hash_of(s, p) matches Some(h) ==> s.contains((p, h)),
    decreases s.len(),
{
    if s.len() > 0 {
        lemma_hash_of_found(s.drop_last(), p);
        let ps = paths_of(s);
        assert(paths_of(s.drop_last()) =~= ps.drop_last());
        assert(ps.last() == s.last().0);
        if ps.contains(p) {
            let i = choose|i: int| 0 <= i < ps.len() && ps[i] == p;
            if i < ps.len() - 1 {
                assert(ps.drop_last()[i] == p);
            }
        }
        if paths_of(s.drop_last()).contains(p) {
            let i = choose|i: int| 0 <= i < ps.len() - 1 && ps.drop_last()[i] == p;
            assert(ps[i] == p);
        }
        if s.last().0 == p {
            assert(s[s.len() - 1] == s.last());
        } else if let Some(h) = hash_of(s.drop_last(), p) {
            let i = choose|i: int| 0 <= i < s.len() - 1 && s.drop_last()[i] == (p, h);
            assert(s[i] == (p, h));
        }
    }
}

proof fn lemma_hash_of_entry(s: Seq<(Seq<char>, Seq<char>)>, i: int)
    requires
        unique_paths(s),
        0 <= i < s.len(),
    ensures
        hash_of(s, s[i].0) == Some(s[i].1),
    decreases s.len(),
{
    let ps = paths_of(s);
    if i < s.len() - 1 {
        assert(ps[i] == s[i].0 && ps[s.len() - 1] == s.last().0);
        assert(s.last().0 != s[i].0);
        assert(paths_of(s.drop_last()) =~= ps.drop_last());
        assert(unique_paths(s.drop_last()));
        lemma_hash_of_entry(s.drop_last(), i);
    }
}

proof fn lemma_map_dom(s: Seq<(Seq<char>, Seq<char>)>)
    ensures
        as_map(s).dom() =~= paths_of(s).to_set(),
        unique_paths(s) ==> as_map(s).dom().len() == s.len(),
        as_map(s).dom().finite(),
{
    assert forall|p: Seq<char>| as_map(s).dom().contains(p) <==> paths_of(s).to_set().contains(p) by {
        lemma_hash_of_found(s, p);
    }
    assert(as_map(s).dom() =~= paths_of(s).to_set());
    if unique_paths(s) {
        paths_of(s).unique_seq_to_set();
    }
    vstd::seq_lib::seq_to_set_is_finite(paths_of(s));
}

/// Two path-to-hash lists that are maps are stale relative to each other exactly when, as
/// maps, they differ (or embeddings are missing): an index is fresh iff it records every
/// file on disk with its current hash and no other file.
pub proof fn lemma_stale_iff_maps_differ(
    needs_embedding: bool,
    indexed: Seq<(Seq<char>, Seq<char>)>,
    on_disk: Seq<(Seq<char>, Seq<char>)>,
)
    requires
        unique_paths(indexed),
        unique_paths(on_disk),
    ensures
        stale_spec(needs_embedding, indexed, on_disk) == (needs_embedding || as_map(on_disk)
            != as_map(indexed)),
{
    lemma_map_dom(indexed);
    lemma_map_dom(on_disk);
    let mi = as_map(indexed);
    let md = as_map(on_disk);
    if !stale_spec(needs_embedding, indexed, on_disk) {
        assert forall|p: Seq<char>| md.dom().contains(p) implies mi.dom().contains(p) && mi[p]
            == md[p] by {
            lemma_hash_of_found(on_disk, p);
            let h = hash_of(on_disk, p)->0;
            let i = choose|i: int| 0 <= i < on_disk.len() && on_disk[i] == (p, h);
            assert(on_disk[i].0 == p);
            lemma_hash_of_entry(on_disk, i);
            assert(hash_of(indexed, on_disk[i].0) == Some(on_disk[i].1));
        }
        assert(md.dom().subset_of(mi.dom()));
        lemma_subset_equality(md.dom(), mi.dom());
        assert(md =~= mi);
    }
    if md == mi {
        assert forall|i: int| 0 <= i < on_disk.len() implies hash_of(
            indexed,
            #[trigger] on_disk[i].0,
        ) == Some(on_disk[i].1) by {
            lemma_hash_of_entry(on_disk, i);
            let p = on_disk[i].0;
            assert(md.dom().contains(p));
            assert(mi.dom().contains(p));
            assert(md[p] == on_disk[i].1);
            assert(mi[p] == md[p]);
        }
    }
}

/// The staleness check and the refresh plan agree: with embeddings in place, the index is
/// fresh exactly when the refresh plan deletes nothing and re-indexes nothing.
pub proof fn lemma_fresh_iff_plan_empty(
    indexed: Seq<(Seq<char>, Seq<char>)>,
    on_disk: Seq<(Seq<char>, Seq<char>)>,
)
    requires
        unique_paths(indexed),
        unique_paths(on_disk),
    ensures
        !stale_spec(false, indexed, on_disk) <==> (removed_spec(indexed, on_disk).len() == 0
            && changed_spec(indexed, on_disk).len() == 0),
{
    broadcast use vstd::seq_lib::group_filter_ensures;

    let gone = |p: Seq<char>| !paths_of(on_disk).contains(p);
    let stale = |e: (Seq<char>, Seq<char>)| hash_of(indexed, e.0) != Some(e.1);
    let del = removed_spec(indexed, on_disk);
    let re = changed_spec(indexed, on_disk);
    let mi = as_map(indexed);
    let md = as_map(on_disk);
    lemma_stale_iff_maps_differ(false, indexed, on_disk);
    if !stale_spec(false, indexed, on_disk) {
        if del.len() > 0 {
            assert(gone(del[0]));
            assert(del.contains(del[0]));
            paths_of(indexed).lemma_filter_contains_rev(gone, del[0]);
            lemma_hash_of_found(indexed, del[0]);
            lemma_hash_of_found(on_disk, del[0]);
            assert(mi.dom().contains(del[0]));
        }
        if re.len() > 0 {
            assert(stale(re[0]));
            assert(re.contains(re[0]));
            lemma_changed_on_disk(indexed, on_disk, re[0]);
            let k = choose|k: int| 0 <= k < on_disk.len() && on_disk[k] == re[0];
            assert(hash_of(indexed, on_disk[k].0) == Some(on_disk[k].1));
        }
    }
    if del.len() == 0 && re.len() == 0 {
        assert forall|p: Seq<char>| #[trigger] md.dom().contains(p) <==> mi.dom().contains(p) by {
            lemma_hash_of_found(on_disk, p);
            lemma_hash_of_found(indexed, p);
            if md.dom().contains(p) && !mi.dom().contains(p) {
                let h = hash_of(on_disk, p)->0;
                let k = choose|k: int| 0 <= k < on_disk.len() && on_disk[k] == (p, h);
                assert(stale(on_disk[k]));
                on_disk.lemma_filter_contains(stale, k);
            }
            if mi.dom().contains(p) && !md.dom().contains(p) {
                let k = choose|k: int| 0 <= k < paths_of(indexed).len() && paths_of(indexed)[k] == p;
                assert(gone(paths_of(indexed)[k]));
                paths_of(indexed).lemma_filter_contains(gone, k);
            }
        }
        assert forall|p: Seq<char>| #[trigger] md.dom().contains(p) implies mi[p] == md[p] by {
            lemma_hash_of_found(on_disk, p);
            let h = hash_of(on_disk, p)->0;
            let k = choose|k: int| 0 <= k < on_disk.len() && on_disk[k] == (p, h);
            if hash_of(indexed, p) != Some(h) {
                assert(stale(on_disk[k]));
                on_disk.lemma_filter_contains(stale, k);
            }
        }
        assert(md =~= mi);
    }
}

/// Indexed paths that are no longer on disk, in index order.
pub open spec fn removed_spec(
    indexed: Seq<(Seq<char>, Seq<char>)>,
    on_disk: Seq<(Seq<char>, Seq<char>)>,
) -> Seq<Seq<char>> {
    paths_of(indexed).filter(|p: Seq<char>| !paths_of(on_disk).contains(p))
}

/// Files on disk that are unindexed or indexed with another hash, in disk order.
pub open spec fn changed_spec(
    indexed: Seq<(Seq<char>, Seq<char>)>,
    on_disk: Seq<(Seq<char>, Seq<char>)>,
) -> Seq<(Seq<char>, Seq<char>)> {
    on_disk.filter(|e: (Seq<char>, Seq<char>)| hash_of(indexed, e.0) != Some(e.1))
}

/// What bringing the index up to date takes: the sources to delete and the files to
/// (re)index with their hashes.
pub struct RefreshPlan {
    pub delete: Vec<String>,
    pub reindex: Vec<(String, String)>,
}

/// Decides which indexed sources to delete (gone from disk) and which files to re-index
/// (new or changed), given the indexed and on-disk path hashes.
pub fn plan_refresh(indexed: &Vec<(String, String)>, on_disk: &Vec<(String, String)>) -> (plan:
    RefreshPlan)
    ensures
        plan.delete@.map_values(|p: String| p@) == removed_spec(
            pairs_view(indexed@),
            pairs_view(on_disk@),
        ),
        pairs_view(plan.reindex@) == changed_spec(pairs_view(indexed@), pairs_view(on_disk@)),
{
    broadcast use vstd::seq_lib::group_filter_ensures;

    let ghost ix = pairs_view(indexed@);
    let ghost od = pairs_view(on_disk@);
    let ghost gone = |p: Seq<char>| !paths_of(od).contains(p);
    let ghost stale = |e: (Seq<char>, Seq<char>)| hash_of(ix, e.0) != Some(e.1);
    let mut delete: Vec<String> = Vec::new();
    let mut i: usize = 0;
    while i < indexed.len()
        invariant
            i <= indexed@.len(),
            ix == pairs_view(indexed@),
            od == pairs_view(on_disk@),
            gone == (|p: Seq<char>| !paths_of(od).contains(p)),
            delete@.map_values(|p: String| p@) == paths_of(ix).subrange(0, i as int).filter(gone),
        decreases indexed@.len() - i,
    {
        let ghost pre = paths_of(ix).subrange(0, i + 1);
        proof {
            assert(pre.drop_last() =~= paths_of(ix).subrange(0, i as int));
            assert(pre.last() == indexed@[i as int].0@);
            reveal_with_fuel(Seq::filter, 1);
        }
        let found = find_path(on_disk, &indexed[i].0);
        proof {
            lemma_hash_of_found(od, indexed@[i as int].0@);
        }
        if found.is_none() {
            let ghost before = delete@;
            delete.push(indexed[i].0.clone());
            assert(delete@.map_values(|p: String| p@) =~= before.map_values(|p: String| p@).push(
                indexed@[i as int].0@,
            ));
        }
        i = i + 1;
    }
    assert(paths_of(ix).subrange(0, indexed@.len() as int) =~= paths_of(ix));
    let mut reindex: Vec<(String, String)> = Vec::new();
    let mut j: usize = 0;
    while j < on_disk.len()
        invariant
            j <= on_disk@.len(),
            ix == pairs_view(indexed@),
            od == pairs_view(on_disk@),
            stale == (|e: (Seq<char>, Seq<char>)| hash_of(ix, e.0) != Some(e.1)),
            pairs_view(reindex@) == od.subrange(0, j as int).filter(stale),
        decreases on_disk@.len() - j,
    {
        let ghost pre = od.subrange(0, j + 1);
        proof {
            assert(pre.drop_last() =~= od.subrange(0, j as int));
            assert(pre.last() == od[j as int]);
            reveal_with_fuel(Seq::filter, 1);
        }
        let changed = match find_path(indexed, &on_disk[j].0) {
            Some(k) => indexed[k].1 != on_disk[j].1,
            None => true,
        };
        if changed {
            let ghost before = reindex@;
            reindex.push((on_disk[j].0.clone(), on_disk[j].1.clone()));
            assert(pairs_view(reindex@) =~= pairs_view(before).push(od[j as int]));
        }
        j = j + 1;
    }
    assert(od.subrange(0, on_disk@.len() as int) =~= od);
    RefreshPlan { delete, reindex }
}

/// The index after a refresh: deleted sources removed, re-indexed files recorded with their
/// new hashes.
pub open spec fn apply_refresh(
    indexed: Map<Seq<char>, Seq<char>>,
    delete: Seq<Seq<char>>,
    reindex: Seq<(Seq<char>, Seq<char>)>,
) -> Map<Seq<char>, Seq<char>> {
    indexed.remove_keys(delete.to_set()).union_prefer_right(as_map(reindex))
}

proof fn lemma_changed_on_disk(
    indexed: Seq<(Seq<char>, Seq<char>)>,
    on_disk: Seq<(Seq<char>, Seq<char>)>,
    e: (Seq<char>, Seq<char>),
)
    requires
        changed_spec(indexed, on_disk).contains(e),
    ensures
        on_disk.contains(e),
{
    on_disk.lemma_filter_contains_rev(
        |e: (Seq<char>, Seq<char>)| hash_of(indexed, e.0) != Some(e.1),
        e,
    );
}

proof fn lemma_same_path_same_hash(s: Seq<(Seq<char>, Seq<char>)>, p: Seq<char>, x: Seq<char>)
    requires
        unique_paths(s),
        s.contains((p, x)),
    ensures
        hash_of(s, p) == Some(x),
{
    let i = choose|i: int| 0 <= i < s.len() && s[i] == (p, x);
    lemma_hash_of_entry(s, i);
}

/// Carrying out the refresh plan leaves the index recording exactly the files on disk,
/// each with its current hash.
pub proof fn lemma_refresh_makes_fresh(
    indexed: Seq<(Seq<char>, Seq<char>)>,
    on_disk: Seq<(Seq<char>, Seq<char>)>,
)
    requires
        unique_paths(indexed),
        unique_paths(on_disk),
    ensures
        apply_refresh(
            as_map(indexed),
            removed_spec(indexed, on_disk),
            changed_spec(indexed, on_disk),
        ) == as_map(on_disk),
{
    broadcast use vstd::seq_lib::group_filter_ensures;

    let gone = |p: Seq<char>| !paths_of(on_disk).contains(p);
    let stale = |e: (Seq<char>, Seq<char>)| hash_of(indexed, e.0) != Some(e.1);
    let del = removed_spec(indexed, on_disk);
    let re = changed_spec(indexed, on_disk);
    let result = apply_refresh(as_map(indexed), del, re);
    let target = as_map(on_disk);
    assert forall|p: Seq<char>| #[trigger] result.dom().contains(p) <==> target.dom().contains(p) by {
        lemma_hash_of_found(on_disk, p);
        lemma_hash_of_found(indexed, p);
        lemma_hash_of_found(re, p);
        if target.dom().contains(p) {
            let h = hash_of(on_disk, p)->0;
            assert(!del.to_set().contains(p));
            if hash_of(indexed, p) != Some(h) {
                assert(stale((p, h)));
                assert(re.contains((p, h)));
                let k = choose|k: int| 0 <= k < re.len() && re[k] == (p, h);
                assert(paths_of(re)[k] == p);
            }
        }
        if result.dom().contains(p) && !target.dom().contains(p) {
            if as_map(re).dom().contains(p) {
                let x = hash_of(re, p)->0;
                assert(re.contains((p, x)));
                lemma_changed_on_disk(indexed, on_disk, (p, x));
                let k = choose|k: int| 0 <= k < on_disk.len() && on_disk[k] == (p, x);
                assert(paths_of(on_disk)[k] == p);
            } else {
                assert(gone(p));
                let k = choose|k: int| 0 <= k < paths_of(indexed).len() && paths_of(indexed)[k] == p;
                assert(paths_of(indexed).contains(p));
                assert(del.contains(p));
            }
        }
    }
    assert forall|p: Seq<char>| #[trigger] target.dom().contains(p) implies result[p]
        == target[p] by {
        lemma_hash_of_found(on_disk, p);
        lemma_hash_of_found(re, p);
        let h = hash_of(on_disk, p)->0;
        if as_map(re).dom().contains(p) {
            let x = hash_of(re, p)->0;
            assert(re.contains((p, x)));
            lemma_changed_on_disk(indexed, on_disk, (p, x));
            lemma_same_path_same_hash(on_disk, p, x);
        } else {
            if hash_of(indexed, p) != Some(h) {
                assert(stale((p, h)));
                assert(re.contains((p, h)));
                let k = choose|k: int| 0 <= k < re.len() && re[k] == (p, h);
                assert(paths_of(re)[k] == p);
            }
        }
    }
    assert(result =~= target);
}

} // verus!
