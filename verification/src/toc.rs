use vstd::prelude::*;
use vstd::string::*;

use std::collections::HashMap;

use crate::format::Formatter;
use crate::render::{concat_blocks, lemma_concat_blocks_at, lines_view};
use crate::store::{
    ancestors_from_chunks, deref_map, lemma_parent_chain_fuel, parent_chain, strip_root_spec, Chunk,
};
use vstd::set_lib::lemma_len_subset;
use crate::text::{contains, contains_spec, lowercase, starts_with, to_lowercase};

verus! {

broadcast use vstd::std_specs::hash::group_hash_axioms;

/// The chunks whose source path starts with `path`; all of them when no path is given.
pub open spec fn chunks_under_spec(chunks: Seq<Chunk>, path: Option<Seq<char>>) -> Seq<Chunk> {
    match path {
        None => chunks,
        Some(p) => chunks.filter(|c: Chunk| p.is_prefix_of(c.source_path@)),
    }
}

/// Keeps the chunks of the files under `path` (every chunk when there is none), in order.
pub fn chunks_under(chunks: Vec<Chunk>, path: Option<&str>) -> (r: Vec<Chunk>)
    ensures
        r@ == chunks_under_spec(
            chunks@,
            match path {
                None => None,
                Some(p) => Some(p@),
            },
        ),
{
    match path {
        None => chunks,
        Some(p) => {
            let ghost all = chunks@;
            let ghost f = |c: Chunk| p@.is_prefix_of(c.source_path@);
            let mut kept: Vec<Chunk> = Vec::new();
            let mut i: usize = 0;
            while i < chunks.len()
                invariant
                    i <= all.len(),
                    all == chunks@,
                    f == (|c: Chunk| p@.is_prefix_of(c.source_path@)),
                    kept@ == all.subrange(0, i as int).filter(f),
                decreases all.len() - i,
            {
                proof {
                    let pre = all.subrange(0, i + 1);
                    assert(pre.drop_last() =~= all.subrange(0, i as int));
                    assert(pre.last() == all[i as int]);
                    reveal_with_fuel(Seq::filter, 1);
                }
                if starts_with(chunks[i].source_path.as_str(), p) {
                    kept.push(chunks[i].duplicate());
                }
                i = i + 1;
            }
            assert(all.subrange(0, all.len() as int) =~= all);
            kept
        },
    }
}

/// The id-to-chunk map built from `chunks` in order (a later chunk wins an id).
pub open spec fn chunk_map(chunks: Seq<Chunk>) -> Map<i64, Chunk>
    decreases chunks.len(),
{
    if chunks.len() == 0 {
        Map::empty()
    } else {
        chunk_map(chunks.drop_last()).insert(chunks.last().id, chunks.last())
    }
}

/// Maps each chunk id to its chunk.
pub fn build_chunk_map<'a>(chunks: &'a Vec<Chunk>) -> (m: HashMap<i64, &'a Chunk>)
    ensures
        deref_map(m@) == chunk_map(chunks@),
{
    let mut m: HashMap<i64, &'a Chunk> = HashMap::new();
    let mut i: usize = 0;
    while i < chunks.len()
        invariant
            i <= chunks@.len(),
            deref_map(m@) == chunk_map(chunks@.subrange(0, i as int)),
        decreases chunks@.len() - i,
    {
        let c = &chunks[i];
        m.insert(c.id, c);
        proof {
            let pre = chunks@.subrange(0, i + 1);
            assert(pre.drop_last() =~= chunks@.subrange(0, i as int));
            assert(pre.last() == chunks@[i as int]);
            assert(deref_map(m@) =~= chunk_map(pre));
        }
        i = i + 1;
    }
    assert(chunks@.subrange(0, chunks@.len() as int) =~= chunks@);
    m
}

/// Following parents from every chunk ends (at a chunk without parent or outside the map).
pub open spec fn chains_end(chunks: Seq<Chunk>) -> bool {
    forall|i: int|
        #![trigger chunks[i]]
        0 <= i < chunks.len() ==> exists|n: nat| #[trigger] parent_chain(
            chunk_map(chunks),
            chunks[i].parent_id,
            n,
        ) is Some
}

proof fn lemma_chain_step(m: Map<i64, Chunk>, p: i64, f: nat)
    requires
        m.contains_key(p),
        parent_chain(m, m[p].parent_id, f) is Some,
    ensures
        parent_chain(m, Some(p), f + 1) is Some,
{
}


/// Every key of `m` is the id of the chunk it maps to.
pub open spec fn keyed_by_id(m: Map<i64, Chunk>) -> bool {
    forall|k: i64| #[trigger] m.contains_key(k) ==> m[k].id == k
}

proof fn lemma_chunk_map_keys(chunks: Seq<Chunk>, k: i64)
    requires
        chunk_map(chunks).contains_key(k),
    ensures
        chunk_map(chunks)[k].id == k,
    decreases chunks.len(),
{
    if chunks.len() > 0 && chunks.last().id != k {
        lemma_chunk_map_keys(chunks.drop_last(), k);
    }
}

/// Each chunk of a parent chain is the chunk that the map gives for its id.
proof fn lemma_chain_members(m: Map<i64, Chunk>, s: Option<i64>, f: nat)
    requires
        keyed_by_id(m),
        parent_chain(m, s, f) is Some,
    ensures
        forall|i: int|
            0 <= i < parent_chain(m, s, f)->0.len() ==> m.contains_key(
                (#[trigger] parent_chain(m, s, f)->0[i]).id,
            ) && m[parent_chain(m, s, f)->0[i].id] == parent_chain(m, s, f)->0[i],
    decreases f,
{
    if let Some(p) = s {
        if m.contains_key(p) && f > 0 {
            let next = m[p].parent_id;
            lemma_chain_members(m, next, (f - 1) as nat);
            let c = parent_chain(m, s, f)->0;
            let r = parent_chain(m, next, (f - 1) as nat)->0;
            assert(c == seq![m[p]] + r);
            assert forall|i: int| 0 <= i < c.len() implies m.contains_key((#[trigger] c[i]).id)
                && m[c[i].id] == c[i] by {
                if i > 0 {
                    assert(c[i] == r[i - 1]);
                }
            }
        }
    }
}

/// A parent chain needs exactly as much fuel as it has chunks.
proof fn lemma_chain_exact_fuel(m: Map<i64, Chunk>, s: Option<i64>, f: nat)
    requires
        parent_chain(m, s, f) is Some,
    ensures
        parent_chain(m, s, parent_chain(m, s, f)->0.len()) == parent_chain(m, s, f),
    decreases f,
{
    if let Some(p) = s {
        if m.contains_key(p) && f > 0 {
            let next = m[p].parent_id;
            lemma_chain_exact_fuel(m, next, (f - 1) as nat);
            let r = parent_chain(m, next, (f - 1) as nat)->0;
            assert(parent_chain(m, s, f)->0.len() == r.len() + 1);
            assert(parent_chain(m, s, r.len() + 1) == parent_chain(m, s, f));
        }
    }
}

/// From the `j`-th chunk of a parent chain on, the chain is that chunk's own chain.
proof fn lemma_chain_suffix(m: Map<i64, Chunk>, s: Option<i64>, f: nat, j: int)
    requires
        keyed_by_id(m),
        parent_chain(m, s, f) is Some,
        0 <= j < parent_chain(m, s, f)->0.len(),
    ensures
        j < f,
        parent_chain(m, Some(parent_chain(m, s, f)->0[j].id), (f - j) as nat) == Some(
            parent_chain(m, s, f)->0.skip(j),
        ),
    decreases f,
{
    let c = parent_chain(m, s, f)->0;
    let p = s->0;
    assert(s is Some && m.contains_key(p) && f > 0);
    let next = m[p].parent_id;
    let r = parent_chain(m, next, (f - 1) as nat)->0;
    assert(c == seq![m[p]] + r);
    assert(m[p].id == p);
    if j == 0 {
        assert(c.skip(0) =~= c);
    } else {
        lemma_chain_suffix(m, next, (f - 1) as nat, j - 1);
        assert(c[j] == r[j - 1]);
        assert(c.skip(j) =~= r.skip(j - 1));
        assert((f - 1 - (j - 1)) as nat == (f - j) as nat);
    }
}

/// A terminating parent chain never visits an id twice.
proof fn lemma_chain_distinct(m: Map<i64, Chunk>, s: Option<i64>, f: nat)
    requires
        keyed_by_id(m),
        parent_chain(m, s, f) is Some,
    ensures
        forall|i: int, j: int|
            0 <= i < j < parent_chain(m, s, f)->0.len() ==> (#[trigger] parent_chain(m, s, f)->0[i]).id
                != (#[trigger] parent_chain(m, s, f)->0[j]).id,
    decreases f,
{
    if let Some(p) = s {
        if m.contains_key(p) && f > 0 {
            let next = m[p].parent_id;
            lemma_chain_distinct(m, next, (f - 1) as nat);
            let c = parent_chain(m, s, f)->0;
            let r = parent_chain(m, next, (f - 1) as nat)->0;
            assert(c == seq![m[p]] + r);
            assert(m[p].id == p);
            assert forall|i: int, j: int| 0 <= i < j < c.len() implies (#[trigger] c[i]).id != (
            #[trigger] c[j]).id by {
                assert(c[j] == r[j - 1]);
                if i > 0 {
                    assert(c[i] == r[i - 1]);
                } else if r[j - 1].id == p {
                    lemma_chain_suffix(m, next, (f - 1) as nat, j - 1);
                    lemma_parent_chain_fuel(m, Some(p), (f - j) as nat, f);
                    assert(r.skip(j - 1).len() == r.len() - (j - 1));
                    assert(false);
                }
            }
        }
    }
}

/// A parent chain that ends at all ends within as many steps as there are chunks.
proof fn lemma_chain_within(chunks: Seq<Chunk>, s: Option<i64>, f: nat)
    requires
        parent_chain(chunk_map(chunks), s, f) is Some,
    ensures
        parent_chain(chunk_map(chunks), s, chunks.len()) is Some,
{
    broadcast use vstd::seq_lib::seq_to_set_is_finite;

    let m = chunk_map(chunks);
    assert forall|k: i64| #[trigger] m.contains_key(k) implies m[k].id == k by {
        lemma_chunk_map_keys(chunks, k);
    }
    let c = parent_chain(m, s, f)->0;
    lemma_chain_members(m, s, f);
    lemma_chain_distinct(m, s, f);
    lemma_chain_exact_fuel(m, s, f);
    let ids = c.map_values(|x: Chunk| x.id);
    let all = chunks.map_values(|x: Chunk| x.id);
    assert(ids.no_duplicates()) by {
        assert forall|i: int, j: int| 0 <= i < ids.len() && 0 <= j < ids.len() && i != j implies ids[i]
            != ids[j] by {
            if i < j {
                assert(c[i].id != c[j].id);
            } else {
                assert(c[j].id != c[i].id);
            }
        }
    }
    ids.unique_seq_to_set();
    all.lemma_cardinality_of_set();
    assert(ids.to_set().subset_of(all.to_set())) by {
        assert forall|x: i64| ids.to_set().contains(x) implies all.to_set().contains(x) by {
            assert(ids.contains(x));
            let i = choose|i: int| 0 <= i < ids.len() && ids[i] == x;
            assert(m.contains_key(c[i].id));
            lemma_chunk_map_dom(chunks, x);
            let k = choose|k: int| 0 <= k < chunks.len() && #[trigger] chunks[k].id == x;
            assert(all[k] == x);
        }
    }
    lemma_len_subset(ids.to_set(), all.to_set());
    lemma_parent_chain_fuel(m, s, c.len(), chunks.len());
}

/// Whether following parents from `start` ends within `limit` + 1 steps.
fn walk_ends(map: &HashMap<i64, &Chunk>, start: Option<i64>, limit: usize) -> (b: bool)
    ensures
        b ==> exists|n: nat| #[trigger] parent_chain(deref_map(map@), start, n) is Some,
        parent_chain(deref_map(map@), start, limit as nat) is Some ==> b,
{
    let ghost m = deref_map(map@);
    let mut cur = start;
    let mut steps: usize = 0;
    while steps <= limit
        invariant
            m == deref_map(map@),
            steps <= limit,
            forall|f: nat|
                #[trigger] parent_chain(m, cur, f) is Some ==> parent_chain(
                    m,
                    start,
                    steps as nat + f,
                ) is Some,
            parent_chain(m, start, limit as nat) is Some ==> parent_chain(
                m,
                cur,
                (limit - steps) as nat,
            ) is Some,
        decreases limit + 1 - steps,
    {
        match cur {
            None => {
                assert(parent_chain(m, cur, 0) is Some);
                assert(parent_chain(m, start, steps as nat) is Some);
                return true;
            },
            Some(p) => {
                match map.get(&p) {
                    None => {
                        assert(!m.contains_key(p));
                        assert(parent_chain(m, cur, 0) is Some);
                        assert(parent_chain(m, start, steps as nat) is Some);
                        return true;
                    },
                    Some(c) => {
                        assert(m.contains_key(p) && m[p] == *c);
                        let next = c.parent_id;
                        proof {
                            assert forall|f: nat| #[trigger] parent_chain(m, next, f) is Some implies parent_chain(
                                m,
                                start,
                                (steps + 1) as nat + f,
                            ) is Some by {
                                lemma_chain_step(m, p, f);
                                assert(parent_chain(m, cur, f + 1) is Some);
                                assert(steps as nat + (f + 1) == (steps + 1) as nat + f);
                            }
                        }
                        cur = next;
                        if steps == limit {
                            return false;
                        }
                        steps = steps + 1;
                    },
                }
            },
        }
    }
    false
}

/// Whether parent links are free of cycles: following parents from each chunk reaches a
/// chunk without parent, or one outside the set.
pub fn chains_terminate(chunks: &Vec<Chunk>, map: &HashMap<i64, &Chunk>) -> (b: bool)
    requires
        deref_map(map@) == chunk_map(chunks@),
    ensures
        b == chains_end(chunks@),
{
    let n = chunks.len();
    let mut i: usize = 0;
    while i < n
        invariant
            i <= n,
            n == chunks@.len(),
            deref_map(map@) == chunk_map(chunks@),
            forall|k: int|
                #![trigger chunks@[k]]
                0 <= k < i ==> exists|f: nat| #[trigger] parent_chain(
                    chunk_map(chunks@),
                    chunks@[k].parent_id,
                    f,
                ) is Some,
        decreases n - i,
    {
        if !walk_ends(map, chunks[i].parent_id, n) {
            proof {
                if chains_end(chunks@) {
                    assert(chunks@[i as int] == chunks@[i as int]);
                    let f = choose|f: nat|
                        #[trigger] parent_chain(chunk_map(chunks@), chunks@[i as int].parent_id, f) is Some;
                    lemma_chain_within(chunks@, chunks@[i as int].parent_id, f);
                }
            }
            return false;
        }
        i = i + 1;
    }
    true
}

/// Whether a heading matches a grep keyword: the lowercased keyword occurs in the
/// lowercased heading.
pub open spec fn heading_matches(c: Chunk, keyword: Seq<char>) -> bool {
    contains_spec(lowercase(c.heading@), lowercase(keyword))
}

/// The chunks whose heading matches `keyword`, in order.
pub open spec fn grep_matches(chunks: Seq<Chunk>, keyword: Seq<char>) -> Seq<Chunk> {
    chunks.filter(|c: Chunk| heading_matches(c, keyword))
}

/// The distinct source paths of `s`, in order of first appearance.
pub open spec fn first_sources(s: Seq<Chunk>) -> Seq<Seq<char>>
    decreases s.len(),
{
    if s.len() == 0 {
        Seq::empty()
    } else {
        let f = first_sources(s.drop_last());
        if f.contains(s.last().source_path@) {
            f
        } else {
            f.push(s.last().source_path@)
        }
    }
}

/// Whether a chunk comes from source file `src`.
pub open spec fn from_source(src: Seq<char>) -> spec_fn(Chunk) -> bool {
    |c: Chunk| c.source_path@ == src
}

/// The chunks of `s` from file `src`, in order.
pub open spec fn group_of(s: Seq<Chunk>, src: Seq<char>) -> Seq<Chunk> {
    s.filter(from_source(src))
}

/// The heading ancestors of `c` within `m`, root first, file-level chunk excluded.
pub open spec fn ancestors_spec(m: Map<i64, Chunk>, c: Chunk) -> Seq<Chunk> {
    let n = choose|n: nat| #[trigger] parent_chain(m, c.parent_id, n) is Some;
    strip_root_spec(parent_chain(m, c.parent_id, n)->0.reverse())
}

/// One grep hit: tree connector, breadcrumb and slug.
pub open spec fn grep_item(f: Formatter, m: Map<i64, Chunk>, c: Chunk, is_last: bool) -> Seq<char> {
    f.tree_connector_spec(is_last) + f.breadcrumb_spec(ancestors_spec(m, c), c.heading@) + seq![' ']
        + f.slug_spec(c.slug@)
}

/// The lines for the `g`-th file with grep hits: a blank line between files, the file in
/// bold, then its hits.
pub open spec fn grep_block(
    f: Formatter,
    m: Map<i64, Chunk>,
    hits: Seq<Chunk>,
    sources: Seq<Seq<char>>,
    g: int,
) -> Seq<Seq<char>> {
    let group = group_of(hits, sources[g]);
    (if g > 0 {
        seq![Seq::<char>::empty()]
    } else {
        Seq::empty()
    }) + seq![f.bold_spec(sources[g])] + Seq::new(
        group.len(),
        |j: int| grep_item(f, m, group[j], j == group.len() - 1),
    )
}

/// `index -g keyword`: headings matching the keyword (case-insensitively), grouped by file
/// in order of first hit, each with its breadcrumb.
pub open spec fn index_grep_spec(f: Formatter, chunks: Seq<Chunk>, keyword: Seq<char>) -> Seq<
    Seq<char>,
> {
    let hits = grep_matches(chunks, keyword);
    let sources = first_sources(hits);
    concat_blocks(
        Seq::new(sources.len(), |g: int| grep_block(f, chunk_map(chunks), hits, sources, g)),
    )
}

proof fn lemma_first_sources(s: Seq<Chunk>)
    ensures
        first_sources(s).no_duplicates(),
        forall|src: Seq<char>|
            #[trigger] first_sources(s).contains(src) <==> exists|k: int|
                0 <= k < s.len() && s[k].source_path@ == src,
    decreases s.len(),
{
    if s.len() > 0 {
        lemma_first_sources(s.drop_last());
        let f = first_sources(s.drop_last());
        assert forall|src: Seq<char>|
            #[trigger] first_sources(s).contains(src) <==> exists|k: int|
                0 <= k < s.len() && s[k].source_path@ == src by {
            if first_sources(s).contains(src) {
                if f.contains(src) {
                    let k = choose|k: int| 0 <= k < s.len() - 1 && s.drop_last()[k].source_path@ == src;
                    assert(s[k] == s.drop_last()[k]);
                } else {
                    assert(first_sources(s) == f.push(s.last().source_path@));
                    let j = choose|j: int| 0 <= j < f.len() + 1 && f.push(s.last().source_path@)[j] == src;
                    if j < f.len() {
                        assert(f.contains(src));
                    }
                    assert(s[s.len() - 1].source_path@ == src);
                }
            }
            if exists|k: int| 0 <= k < s.len() && s[k].source_path@ == src {
                let k = choose|k: int| 0 <= k < s.len() && s[k].source_path@ == src;
                if k < s.len() - 1 {
                    assert(s.drop_last()[k] == s[k]);
                    assert(f.contains(src));
                    if !f.contains(s.last().source_path@) {
                        let i = choose|i: int| 0 <= i < f.len() && f[i] == src;
                        assert(f.push(s.last().source_path@)[i] == src);
                    }
                } else {
                    assert(src == s.last().source_path@);
                    if !f.contains(src) {
                        assert(f.push(src)[f.len() as int] == src);
                    }
                }
            }
        }
    }
}

proof fn lemma_group_empty(s: Seq<Chunk>, src: Seq<char>)
    requires
        forall|k: int| 0 <= k < s.len() ==> s[k].source_path@ != src,
    ensures
        group_of(s, src).len() == 0,
    decreases s.len(),
{
    reveal_with_fuel(Seq::filter, 1);
    if s.len() > 0 {
        lemma_group_empty(s.drop_last(), src);
        assert(s.last() == s[s.len() - 1]);
    }
}

/// The chunks at the given positions, in order.
pub open spec fn select(chunks: Seq<Chunk>, ix: Seq<usize>) -> Seq<Chunk> {
    ix.map_values(|k: usize| chunks[k as int])
}

/// The selected chunks grouped by file: the files in order of first appearance, and for
/// each the positions of its chunks.
fn group_by_source(chunks: &Vec<Chunk>, sel: &Vec<usize>) -> (r: (Vec<String>, Vec<Vec<usize>>))
    requires
        forall|j: int| 0 <= j < sel@.len() ==> #[trigger] sel@[j] < chunks@.len(),
    ensures
        ({
            let s = select(chunks@, sel@);
            let (sources, groups) = r;
            &&& sources@.map_values(|x: String| x@) == first_sources(s)
            &&& groups@.len() == sources@.len()
            &&& forall|g: int|
                0 <= g < groups@.len() ==> (forall|j: int|
                    0 <= j < groups@[g]@.len() ==> #[trigger] groups@[g]@[j] < chunks@.len())
                    && select(chunks@, groups@[g]@) == group_of(s, sources@[g]@)
        }),
{
    let mut sources: Vec<String> = Vec::new();
    let mut groups: Vec<Vec<usize>> = Vec::new();
    let n = chunks.len();
    let mut i: usize = 0;
    while i < sel.len()
        invariant
            i <= sel@.len(),
            n == chunks@.len(),
            forall|j: int| 0 <= j < sel@.len() ==> #[trigger] sel@[j] < n,
            sources@.map_values(|x: String| x@) == first_sources(
                select(chunks@, sel@.subrange(0, i as int)),
            ),
            groups@.len() == sources@.len(),
            forall|g: int|
                0 <= g < groups@.len() ==> (forall|j: int|
                    0 <= j < groups@[g]@.len() ==> #[trigger] groups@[g]@[j] < n) && select(
                    chunks@,
                    groups@[g]@,
                ) == group_of(select(chunks@, sel@.subrange(0, i as int)), sources@[g]@),
        decreases sel@.len() - i,
    {
        let ghost before = select(chunks@, sel@.subrange(0, i as int));
        let ghost srcs = sources@.map_values(|x: String| x@);
        let k = sel[i];
        let c = &chunks[k];
        let ghost after = before.push(chunks@[k as int]);
        proof {
            assert(select(chunks@, sel@.subrange(0, i + 1)) =~= after);
            lemma_first_sources(before);
            assert(after.drop_last() =~= before);
            assert(after.last() == chunks@[k as int]);
            reveal_with_fuel(Seq::filter, 1);
        }
        let mut g: usize = 0;
        let mut found = false;
        while g < sources.len() && !found
            invariant
                g <= sources@.len(),
                srcs == sources@.map_values(|x: String| x@),
                found ==> g > 0 && srcs[g - 1] == c.source_path@,
                !found ==> forall|h: int| 0 <= h < g ==> srcs[h] != c.source_path@,
            decreases sources@.len() - g, if found { 0int } else { 1int },
        {
            if sources[g] == c.source_path {
                found = true;
            }
            g = g + 1;
        }
        if found {
            let gi = g - 1;
            let ghost old_groups = groups@;
            let mut grp = groups.remove(gi);
            grp.push(k);
            groups.insert(gi, grp);
            proof {
                assert(first_sources(after) == srcs) by {
                    assert(srcs.contains(c.source_path@));
                }
                assert forall|h: int| 0 <= h < groups@.len() implies (forall|j: int|
                    0 <= j < groups@[h]@.len() ==> #[trigger] groups@[h]@[j] < n) && select(
                    chunks@,
                    groups@[h]@,
                ) == group_of(after, sources@[h]@) by {
                    if h == gi {
                        assert(groups@[h]@ == old_groups[h]@.push(k));
                        assert(select(chunks@, groups@[h]@) =~= select(chunks@, old_groups[h]@).push(
                            chunks@[k as int],
                        ));
                    } else {
                        assert(groups@[h] == old_groups[h]);
                        assert(srcs[h] != c.source_path@) by {
                            assert(srcs.no_duplicates());
                        }
                    }
                }
            }
        } else {
            let ghost old_groups = groups@;
            sources.push(c.source_path.clone());
            let mut grp: Vec<usize> = Vec::new();
            grp.push(k);
            groups.push(grp);
            proof {
                assert(!srcs.contains(c.source_path@));
                assert(sources@.map_values(|x: String| x@) =~= srcs.push(c.source_path@));
                assert forall|h: int| 0 <= h < groups@.len() implies (forall|j: int|
                    0 <= j < groups@[h]@.len() ==> #[trigger] groups@[h]@[j] < n) && select(
                    chunks@,
                    groups@[h]@,
                ) == group_of(after, sources@[h]@) by {
                    if h == old_groups.len() {
                        assert forall|q: int| 0 <= q < before.len() implies before[q].source_path@
                            != c.source_path@ by {
                            if before[q].source_path@ == c.source_path@ {
                                assert(first_sources(before).contains(c.source_path@));
                            }
                        }
                        lemma_group_empty(before, c.source_path@);
                        assert(select(chunks@, groups@[h]@) =~= seq![chunks@[k as int]]);
                        assert(group_of(after, sources@[h]@) =~= seq![chunks@[k as int]]);
                    } else {
                        assert(groups@[h] == old_groups[h]);
                        assert(sources@[h]@ == srcs[h]);
                        assert(srcs[h] != c.source_path@);
                    }
                }
            }
        }
        i = i + 1;
    }
    assert(sel@.subrange(0, sel@.len() as int) =~= sel@);
    (sources, groups)
}

/// The positions of the chunks whose heading matches `keyword`.
fn grep_positions(chunks: &Vec<Chunk>, keyword: &str) -> (ix: Vec<usize>)
    ensures
        forall|j: int| 0 <= j < ix@.len() ==> #[trigger] ix@[j] < chunks@.len(),
        select(chunks@, ix@) == grep_matches(chunks@, keyword@),
{
    let kw = to_lowercase(keyword);
    let ghost pred = |c: Chunk| heading_matches(c, keyword@);
    let mut ix: Vec<usize> = Vec::new();
    let mut i: usize = 0;
    while i < chunks.len()
        invariant
            i <= chunks@.len(),
            kw@ == lowercase(keyword@),
            pred == (|c: Chunk| heading_matches(c, keyword@)),
            forall|j: int| 0 <= j < ix@.len() ==> #[trigger] ix@[j] < chunks@.len(),
            select(chunks@, ix@) == chunks@.subrange(0, i as int).filter(pred),
        decreases chunks@.len() - i,
    {
        proof {
            let pre = chunks@.subrange(0, i + 1);
            assert(pre.drop_last() =~= chunks@.subrange(0, i as int));
            assert(pre.last() == chunks@[i as int]);
            reveal_with_fuel(Seq::filter, 1);
        }
        let heading = to_lowercase(chunks[i].heading.as_str());
        if contains(heading.as_str(), kw.as_str()) {
            let ghost before = ix@;
            ix.push(i);
            assert(select(chunks@, ix@) =~= select(chunks@, before).push(chunks@[i as int]));
        }
        i = i + 1;
    }
    assert(chunks@.subrange(0, chunks@.len() as int) =~= chunks@);
    ix
}

/// Grep hits grouped by file: the files in order of first hit, and for each the positions
/// of its hits.
fn group_hits(chunks: &Vec<Chunk>, keyword: &str) -> (r: (Vec<String>, Vec<Vec<usize>>))
    ensures
        ({
            let hits = grep_matches(chunks@, keyword@);
            let (sources, groups) = r;
            &&& sources@.map_values(|s: String| s@) == first_sources(hits)
            &&& groups@.len() == sources@.len()
            &&& forall|g: int|
                0 <= g < groups@.len() ==> (forall|j: int|
                    0 <= j < groups@[g]@.len() ==> #[trigger] groups@[g]@[j] < chunks@.len())
                    && groups@[g]@.map_values(|k: usize| chunks@[k as int]) == group_of(
                    hits,
                    sources@[g]@,
                )
        }),
{
    let ix = grep_positions(chunks, keyword);
    group_by_source(chunks, &ix)
}

fn tree_item(fmt: &Formatter, c: &Chunk, ancestors: &Vec<Chunk>, is_last: bool) -> (s: String)
    ensures
        s@ == fmt.tree_connector_spec(is_last) + fmt.breadcrumb_spec(ancestors@, c.heading@) + seq![
            ' ',
        ] + fmt.slug_spec(c.slug@),
{
    let prefix = fmt.tree_connector(is_last);
    let crumb = fmt.breadcrumb(ancestors.as_slice(), c.heading.as_str());
    let slug = fmt.slug(c.slug.as_str());
    let mut s = prefix;
    s.append(crumb.as_str());
    s.append(" ");
    s.append(slug.as_str());
    proof {
        reveal_strlit(" ");
    }
    s
}

/// The lines of `index -g keyword` over the (already path-scoped) chunks.
pub fn index_grep_lines(chunks: &Vec<Chunk>, keyword: &str, fmt: &Formatter) -> (lines: Vec<String>)
    requires
        chains_end(chunks@),
    ensures
        lines_view(lines@) == index_grep_spec(*fmt, chunks@, keyword@),
{
    let (sources, groups) = group_hits(chunks, keyword);
    let map = build_chunk_map(chunks);
    let ghost hits = grep_matches(chunks@, keyword@);
    let ghost srcs = first_sources(hits);
    let ghost m = chunk_map(chunks@);
    let ghost blocks = Seq::new(srcs.len(), |g: int| grep_block(*fmt, m, hits, srcs, g));
    let mut lines: Vec<String> = Vec::new();
    let mut g: usize = 0;
    while g < sources.len()
        invariant
            g <= sources@.len(),
            chains_end(chunks@),
            deref_map(map@) == m,
            m == chunk_map(chunks@),
            hits == grep_matches(chunks@, keyword@),
            srcs == first_sources(hits),
            sources@.map_values(|s: String| s@) == srcs,
            groups@.len() == sources@.len(),
            forall|h: int|
                0 <= h < groups@.len() ==> (forall|j: int|
                    0 <= j < groups@[h]@.len() ==> #[trigger] groups@[h]@[j] < chunks@.len())
                    && groups@[h]@.map_values(|k: usize| chunks@[k as int]) == group_of(
                    hits,
                    sources@[h]@,
                ),
            blocks == Seq::new(srcs.len(), |g: int| grep_block(*fmt, m, hits, srcs, g)),
            lines_view(lines@) == concat_blocks(blocks.take(g as int)),
        decreases sources@.len() - g,
    {
        let ghost start = lines_view(lines@);
        assert(srcs[g as int] == sources@[g as int]@);
        let ghost group = group_of(hits, srcs[g as int]);
        if g > 0 {
            lines.push(String::new());
        }
        lines.push(fmt.bold(sources[g].as_str()));
        let ghost head = lines_view(lines@);
        assert(head =~= start + (if g > 0 {
            seq![Seq::<char>::empty()]
        } else {
            Seq::empty()
        }) + seq![fmt.bold_spec(srcs[g as int])]);
        let grp = &groups[g];
        let ghost items = Seq::new(group.len(), |j: int| grep_item(*fmt, m, group[j], j == group.len() - 1));
        assert(grp@.len() == group.len());
        let mut j: usize = 0;
        while j < grp.len()
            invariant
                j <= grp@.len(),
                grp@.len() == group.len(),
                grp == groups@[g as int],
                forall|jj: int| 0 <= jj < grp@.len() ==> #[trigger] grp@[jj] < chunks@.len(),
                grp@.map_values(|k: usize| chunks@[k as int]) == group,
                chains_end(chunks@),
                deref_map(map@) == m,
                m == chunk_map(chunks@),
                items == Seq::new(group.len(), |j: int| grep_item(*fmt, m, group[j], j == group.len() - 1)),
                lines_view(lines@) == head + items.take(j as int),
            decreases grp@.len() - j,
        {
            let k = grp[j];
            let c = &chunks[k];
            assert(group[j as int] == chunks@[k as int]);
            assert(exists|n: nat| #[trigger] parent_chain(m, chunks@[k as int].parent_id, n) is Some);
            let ancestors = ancestors_from_chunks(c, &map);
            let is_last = j == grp.len() - 1;
            let line = tree_item(fmt, c, &ancestors, is_last);
            assert(ancestors@ == ancestors_spec(m, *c));
            let ghost before = lines@;
            lines.push(line);
            assert(lines_view(lines@) =~= lines_view(before).push(line@));
            assert(head + items.take(j + 1) =~= (head + items.take(j as int)).push(items[j as int]));
            j = j + 1;
        }
        proof {
            assert(items.take(group.len() as int) =~= items);
            assert(blocks.take(g + 1).drop_last() =~= blocks.take(g as int));
            assert(blocks[g as int] =~= grep_block(*fmt, m, hits, srcs, g as int));
            assert(lines_view(lines@) =~= concat_blocks(blocks.take(g + 1)));
        }
        g = g + 1;
    }
    assert(blocks.take(sources@.len() as int) =~= blocks);
    lines
}

/// Some chunk of `chunks` has id `id`.
pub open spec fn id_in(chunks: Seq<Chunk>, id: i64) -> bool {
    exists|k: int| 0 <= k < chunks.len() && #[trigger] chunks[k].id == id
}

/// The parent of `c` in the tree of `chunks`: its parent id where that parent is among
/// them; otherwise `c` is a root.
pub open spec fn tree_parent(chunks: Seq<Chunk>, c: Chunk) -> Option<i64> {
    match c.parent_id {
        Some(p) => if id_in(chunks, p) {
            Some(p)
        } else {
            None
        },
        None => None,
    }
}

/// The children of chunk `id`, in order.
pub open spec fn children_spec(chunks: Seq<Chunk>, id: i64) -> Seq<Chunk> {
    chunks.filter(|c: Chunk| tree_parent(chunks, c) == Some(id))
}

/// The roots of the tree, in order.
pub open spec fn roots_spec(chunks: Seq<Chunk>) -> Seq<Chunk> {
    chunks.filter(|c: Chunk| tree_parent(chunks, c) == None::<i64>)
}

/// No two chunks share an id: ids are the index's keys.
pub open spec fn ids_unique(chunks: Seq<Chunk>) -> bool {
    forall|i: int, j: int|
        0 <= i < j < chunks.len() ==> #[trigger] chunks[i].id != #[trigger] chunks[j].id
}

/// `path` is a walk down the tree of `chunks`, by position: it starts at a root and each
/// chunk on it is a child of the one before.
pub open spec fn root_path(chunks: Seq<Chunk>, path: Seq<int>) -> bool {
    &&& path.len() >= 1
    &&& forall|i: int| 0 <= i < path.len() ==> 0 <= #[trigger] path[i] < chunks.len()
    &&& tree_parent(chunks, chunks[path[0]]) == None::<i64>
    &&& forall|i: int|
        0 < i < path.len() ==> tree_parent(chunks, chunks[#[trigger] path[i]]) == Some(
            chunks[path[i - 1]].id,
        )
}

/// The indentation drawn for the open ancestor levels of a tree line.
pub open spec fn indent_spec(f: Formatter, prefixes: Seq<bool>) -> Seq<char>
    decreases prefixes.len(),
{
    if prefixes.len() == 0 {
        Seq::empty()
    } else {
        indent_spec(f, prefixes.drop_last()) + f.tree_indent_spec(prefixes.last())
    }
}

/// The tree line of a heading: indentation, connector, bold heading and slug.
pub open spec fn node_line(f: Formatter, c: Chunk, prefixes: Seq<bool>, is_last: bool) -> Seq<char> {
    indent_spec(f, prefixes) + f.tree_connector_spec(is_last) + f.bold_spec(c.heading@) + seq![' ']
        + f.slug_spec(c.slug@)
}

/// The lines of the subtree at `c`: its line, then its children's subtrees one level deeper,
/// drawing at most `depth` levels below `c`. No walk down the tree from a root is longer
/// than there are chunks (`lemma_root_path_bounded`), so from a root with `depth` at the
/// number of chunks the whole subtree is drawn.
pub open spec fn node_lines(
    f: Formatter,
    chunks: Seq<Chunk>,
    c: Chunk,
    prefixes: Seq<bool>,
    is_last: bool,
    depth: nat,
) -> Seq<Seq<char>>
    decreases depth, 0int,
{
    if depth == 0 {
        seq![node_line(f, c, prefixes, is_last)]
    } else {
        seq![node_line(f, c, prefixes, is_last)] + kids_lines(
            f,
            chunks,
            c.id,
            prefixes.push(!is_last),
            0,
            (depth - 1) as nat,
        )
    }
}

/// The subtrees of the children of `pid` from the `k`-th on, each drawn at most `depth`
/// levels deep.
pub open spec fn kids_lines(
    f: Formatter,
    chunks: Seq<Chunk>,
    pid: i64,
    prefixes: Seq<bool>,
    k: int,
    depth: nat,
) -> Seq<Seq<char>>
    decreases depth, children_spec(chunks, pid).len() - k,
{
    let kids = children_spec(chunks, pid);
    if k < 0 || k >= kids.len() {
        Seq::empty()
    } else {
        node_lines(f, chunks, kids[k], prefixes, k == kids.len() - 1, depth) + kids_lines(
            f,
            chunks,
            pid,
            prefixes,
            k + 1,
            depth,
        )
    }
}

/// The tree of one file: each of its roots with their subtrees.
pub open spec fn roots_lines(f: Formatter, chunks: Seq<Chunk>, roots: Seq<Chunk>) -> Seq<Seq<char>> {
    concat_blocks(
        Seq::new(
            roots.len(),
            |i: int|
                node_lines(f, chunks, roots[i], Seq::empty(), i == roots.len() - 1, chunks.len()),
        ),
    )
}

/// `index`: the heading tree, one block per file in order of its first root, the file in
/// bold and blocks separated by a blank line.
pub open spec fn index_tree_spec(f: Formatter, chunks: Seq<Chunk>) -> Seq<Seq<char>> {
    let roots = roots_spec(chunks);
    let srcs = first_sources(roots);
    concat_blocks(
        Seq::new(
            srcs.len(),
            |g: int|
                (if g > 0 {
                    seq![Seq::<char>::empty()]
                } else {
                    Seq::empty()
                }) + seq![f.bold_spec(srcs[g])] + roots_lines(f, chunks, group_of(roots, srcs[g])),
        ),
    )
}

proof fn lemma_chunk_map_dom(chunks: Seq<Chunk>, id: i64)
    ensures
        chunk_map(chunks).contains_key(id) <==> id_in(chunks, id),
    decreases chunks.len(),
{
    if chunks.len() > 0 {
        lemma_chunk_map_dom(chunks.drop_last(), id);
        if id_in(chunks.drop_last(), id) {
            let k = choose|k: int| 0 <= k < chunks.len() - 1 && #[trigger] chunks.drop_last()[k].id == id;
            assert(chunks[k].id == id);
        }
        if id_in(chunks, id) {
            let k = choose|k: int| 0 <= k < chunks.len() && #[trigger] chunks[k].id == id;
            if k < chunks.len() - 1 {
                assert(chunks.drop_last()[k].id == id);
            } else {
                assert(chunks.last().id == id);
            }
        }
    }
}

/// `lines` holds the tree line of `c` drawn `depth` levels deep (behind `depth` indentation
/// marks), with some connector.
pub open spec fn shows_at_depth(lines: Seq<Seq<char>>, f: Formatter, c: Chunk, depth: nat) -> bool {
    exists|j: int, ps: Seq<bool>, b: bool|
        0 <= j < lines.len() && ps.len() == depth && #[trigger] lines[j] == #[trigger] node_line(
            f,
            c,
            ps,
            b,
        )
}

/// `path` is a walk down the tree of `chunks`, by position, from any chunk: each chunk on
/// it is a child of the one before.
pub open spec fn down_path(chunks: Seq<Chunk>, path: Seq<int>) -> bool {
    &&& path.len() >= 1
    &&& forall|i: int| 0 <= i < path.len() ==> 0 <= #[trigger] path[i] < chunks.len()
    &&& forall|i: int|
        0 < i < path.len() ==> tree_parent(chunks, chunks[#[trigger] path[i]]) == Some(
            chunks[path[i - 1]].id,
        )
}

proof fn lemma_shows_shift(a: Seq<Seq<char>>, b: Seq<Seq<char>>, f: Formatter, c: Chunk, depth: nat)
    requires
        shows_at_depth(b, f, c, depth) || shows_at_depth(a, f, c, depth),
    ensures
        shows_at_depth(a + b, f, c, depth),
{
    if shows_at_depth(b, f, c, depth) {
        let (j, ps, bb) = choose|j: int, ps: Seq<bool>, bb: bool|
            0 <= j < b.len() && ps.len() == depth && #[trigger] b[j] == #[trigger] node_line(f, c, ps, bb);
        assert((a + b)[a.len() + j] == node_line(f, c, ps, bb));
    } else {
        let (j, ps, bb) = choose|j: int, ps: Seq<bool>, bb: bool|
            0 <= j < a.len() && ps.len() == depth && #[trigger] a[j] == #[trigger] node_line(f, c, ps, bb);
        assert((a + b)[j] == node_line(f, c, ps, bb));
    }
}

proof fn lemma_shows_concat(blocks: Seq<Seq<Seq<char>>>, i: int, f: Formatter, c: Chunk, depth: nat)
    requires
        0 <= i < blocks.len(),
        shows_at_depth(blocks[i], f, c, depth),
    ensures
        shows_at_depth(concat_blocks(blocks), f, c, depth),
{
    let (j, ps, bb) = choose|j: int, ps: Seq<bool>, bb: bool|
        0 <= j < blocks[i].len() && ps.len() == depth && #[trigger] blocks[i][j] == #[trigger] node_line(
            f,
            c,
            ps,
            bb,
        );
    lemma_concat_blocks_at(blocks, i, j);
    let o = concat_blocks(blocks.take(i)).len() as int;
    assert(concat_blocks(blocks)[o + j] == node_line(f, c, ps, bb));
}

proof fn lemma_kids_lines_show(
    f: Formatter,
    chunks: Seq<Chunk>,
    pid: i64,
    prefixes: Seq<bool>,
    m: int,
    k: int,
    d: nat,
    c: Chunk,
    depth: nat,
)
    requires
        0 <= m <= k < children_spec(chunks, pid).len(),
        shows_at_depth(
            node_lines(
                f,
                chunks,
                children_spec(chunks, pid)[k],
                prefixes,
                k == children_spec(chunks, pid).len() - 1,
                d,
            ),
            f,
            c,
            depth,
        ),
    ensures
        shows_at_depth(kids_lines(f, chunks, pid, prefixes, m, d), f, c, depth),
    decreases k - m,
{
    let kids = children_spec(chunks, pid);
    let here = node_lines(f, chunks, kids[m], prefixes, m == kids.len() - 1, d);
    let rest = kids_lines(f, chunks, pid, prefixes, m + 1, d);
    assert(kids_lines(f, chunks, pid, prefixes, m, d) == here + rest);
    if m < k {
        lemma_kids_lines_show(f, chunks, pid, prefixes, m + 1, k, d, c, depth);
    }
    lemma_shows_shift(here, rest, f, c, depth);
}

proof fn lemma_node_lines_show(
    f: Formatter,
    chunks: Seq<Chunk>,
    path: Seq<int>,
    prefixes: Seq<bool>,
    is_last: bool,
    d: nat,
)
    requires
        down_path(chunks, path),
        d + 1 >= path.len(),
    ensures
        shows_at_depth(
            node_lines(f, chunks, chunks[path[0]], prefixes, is_last, d),
            f,
            chunks[path.last()],
            (prefixes.len() + path.len() - 1) as nat,
        ),
    decreases path.len(),
{
    broadcast use vstd::seq_lib::group_filter_ensures;

    let c = chunks[path[0]];
    let line = node_line(f, c, prefixes, is_last);
    let all = node_lines(f, chunks, c, prefixes, is_last, d);
    if path.len() == 1 {
        assert(all[0] == line);
        assert(path.last() == path[0]);
    } else {
        let x = chunks[path[1]];
        let kids = children_spec(chunks, c.id);
        assert(tree_parent(chunks, x) == Some(c.id));
        chunks.lemma_filter_contains(|ch: Chunk| tree_parent(chunks, ch) == Some(c.id), path[1]);
        assert(kids.contains(x));
        let k = choose|k: int| 0 <= k < kids.len() && kids[k] == x;
        let tail = path.drop_first();
        assert(down_path(chunks, tail)) by {
            assert forall|i: int| 0 <= i < tail.len() implies 0 <= #[trigger] tail[i] < chunks.len() by {
                assert(tail[i] == path[i + 1]);
            }
            assert forall|i: int| 0 < i < tail.len() implies tree_parent(
                chunks,
                chunks[#[trigger] tail[i]],
            ) == Some(chunks[tail[i - 1]].id) by {
                assert(tail[i] == path[i + 1] && tail[i - 1] == path[i]);
            }
        }
        let inner = prefixes.push(!is_last);
        let below = (d - 1) as nat;
        lemma_node_lines_show(f, chunks, tail, inner, k == kids.len() - 1, below);
        assert(tail[0] == path[1]);
        assert(tail.last() == path.last());
        assert((inner.len() + tail.len() - 1) as nat == (prefixes.len() + path.len() - 1) as nat);
        lemma_kids_lines_show(
            f,
            chunks,
            c.id,
            inner,
            0,
            k,
            below,
            chunks[path.last()],
            (prefixes.len() + path.len() - 1) as nat,
        );
        assert(all == seq![line] + kids_lines(f, chunks, c.id, inner, 0, below));
        lemma_shows_shift(
            seq![line],
            kids_lines(f, chunks, c.id, inner, 0, below),
            f,
            chunks[path.last()],
            (prefixes.len() + path.len() - 1) as nat,
        );
    }
}

/// The heading tree shows every chunk that a walk down from a root reaches, however deep:
/// its heading and slug are drawn on a line indented by as many levels as the walk is
/// long.
pub proof fn lemma_tree_shows_every_reachable_chunk(f: Formatter, chunks: Seq<Chunk>, path: Seq<int>)
    requires
        ids_unique(chunks),
        root_path(chunks, path),
    ensures
        shows_at_depth(
            index_tree_spec(f, chunks),
            f,
            chunks[path.last()],
            (path.len() - 1) as nat,
        ),
{
    broadcast use vstd::seq_lib::group_filter_ensures;

    lemma_root_path_bounded(chunks, path);
    let n = chunks.len();
    let r = chunks[path[0]];
    let roots = roots_spec(chunks);
    chunks.lemma_filter_contains(|c: Chunk| tree_parent(chunks, c) == None::<i64>, path[0]);
    assert(roots.contains(r));
    let q = choose|q: int| 0 <= q < roots.len() && roots[q] == r;
    let src = r.source_path@;
    let srcs = first_sources(roots);
    lemma_first_sources(roots);
    assert(roots[q].source_path@ == src);
    assert(srcs.contains(src));
    let g = choose|g: int| 0 <= g < srcs.len() && srcs[g] == src;
    let group = group_of(roots, src);
    assert(from_source(src)(roots[q]));
    roots.lemma_filter_contains(from_source(src), q);
    assert(group.contains(r));
    let i = choose|i: int| 0 <= i < group.len() && group[i] == r;
    assert(down_path(chunks, path));
    lemma_node_lines_show(f, chunks, path, Seq::empty(), i == group.len() - 1, n);
    let nodes = Seq::new(
        group.len(),
        |i: int| node_lines(f, chunks, group[i], Seq::empty(), i == group.len() - 1, chunks.len()),
    );
    assert(nodes[i] == node_lines(f, chunks, r, Seq::empty(), i == group.len() - 1, n));
    let depth = (path.len() - 1) as nat;
    assert((Seq::<bool>::empty().len() + path.len() - 1) as nat == depth);
    lemma_shows_concat(nodes, i, f, chunks[path.last()], depth);
    assert(roots_lines(f, chunks, group) == concat_blocks(nodes));
    let blocks = Seq::new(
        srcs.len(),
        |g: int|
            (if g > 0 {
                seq![Seq::<char>::empty()]
            } else {
                Seq::empty()
            }) + seq![f.bold_spec(srcs[g])] + roots_lines(f, chunks, group_of(roots, srcs[g])),
    );
    let head = (if g > 0 {
        seq![Seq::<char>::empty()]
    } else {
        Seq::empty()
    }) + seq![f.bold_spec(srcs[g])];
    assert(blocks[g] == head + roots_lines(f, chunks, group));
    lemma_shows_shift(head, roots_lines(f, chunks, group), f, chunks[path.last()], depth);
    lemma_shows_concat(blocks, g, f, chunks[path.last()], depth);
    assert(index_tree_spec(f, chunks) == concat_blocks(blocks));
}


/// Every chunk's tree parent, by position.
fn tree_parents(chunks: &Vec<Chunk>, map: &HashMap<i64, &Chunk>) -> (tp: Vec<Option<i64>>)
    requires
        deref_map(map@) == chunk_map(chunks@),
    ensures
        tp@.len() == chunks@.len(),
        forall|i: int| 0 <= i < chunks@.len() ==> #[trigger] tp@[i] == tree_parent(chunks@, chunks@[i]),
{
    let mut tp: Vec<Option<i64>> = Vec::new();
    let mut i: usize = 0;
    while i < chunks.len()
        invariant
            i <= chunks@.len(),
            deref_map(map@) == chunk_map(chunks@),
            tp@.len() == i,
            forall|k: int| 0 <= k < i ==> #[trigger] tp@[k] == tree_parent(chunks@, chunks@[k]),
        decreases chunks@.len() - i,
    {
        let parent = match chunks[i].parent_id {
            Some(p) => {
                proof {
                    lemma_chunk_map_dom(chunks@, p);
                }
                if map.contains_key(&p) {
                    Some(p)
                } else {
                    None
                }
            },
            None => None,
        };
        tp.push(parent);
        i = i + 1;
    }
    tp
}

/// The positions of the chunks whose tree parent is `parent`, in order.
fn positions_with_parent(chunks: &Vec<Chunk>, tp: &Vec<Option<i64>>, parent: Option<i64>) -> (ix:
    Vec<usize>)
    requires
        tp@.len() == chunks@.len(),
        forall|i: int| 0 <= i < chunks@.len() ==> #[trigger] tp@[i] == tree_parent(chunks@, chunks@[i]),
    ensures
        forall|j: int| 0 <= j < ix@.len() ==> #[trigger] ix@[j] < chunks@.len(),
        select(chunks@, ix@) == chunks@.filter(|c: Chunk| tree_parent(chunks@, c) == parent),
{
    let ghost pred = |c: Chunk| tree_parent(chunks@, c) == parent;
    let mut ix: Vec<usize> = Vec::new();
    let mut i: usize = 0;
    while i < chunks.len()
        invariant
            i <= chunks@.len(),
            tp@.len() == chunks@.len(),
            forall|k: int| 0 <= k < chunks@.len() ==> #[trigger] tp@[k] == tree_parent(chunks@, chunks@[k]),
            pred == (|c: Chunk| tree_parent(chunks@, c) == parent),
            forall|j: int| 0 <= j < ix@.len() ==> #[trigger] ix@[j] < chunks@.len(),
            select(chunks@, ix@) == chunks@.subrange(0, i as int).filter(pred),
        decreases chunks@.len() - i,
    {
        proof {
            let pre = chunks@.subrange(0, i + 1);
            assert(pre.drop_last() =~= chunks@.subrange(0, i as int));
            assert(pre.last() == chunks@[i as int]);
            reveal_with_fuel(Seq::filter, 1);
        }
        if tp[i] == parent {
            let ghost before = ix@;
            ix.push(i);
            assert(select(chunks@, ix@) =~= select(chunks@, before).push(chunks@[i as int]));
        }
        i = i + 1;
    }
    assert(chunks@.subrange(0, chunks@.len() as int) =~= chunks@);
    ix
}

fn indent_string(fmt: &Formatter, prefixes: &Vec<bool>) -> (s: String)
    ensures
        s@ == indent_spec(*fmt, prefixes@),
{
    let mut s = String::new();
    let mut i: usize = 0;
    while i < prefixes.len()
        invariant
            i <= prefixes@.len(),
            s@ == indent_spec(*fmt, prefixes@.take(i as int)),
        decreases prefixes@.len() - i,
    {
        let piece = fmt.tree_indent(prefixes[i]);
        s.append(piece.as_str());
        assert(prefixes@.take(i + 1).drop_last() =~= prefixes@.take(i as int));
        i = i + 1;
    }
    assert(prefixes@.take(prefixes@.len() as int) =~= prefixes@);
    s
}

proof fn lemma_group_member(s: Seq<Chunk>, src: Seq<char>, x: Chunk)
    requires
        group_of(s, src).contains(x),
    ensures
        s.contains(x),
{
    s.lemma_filter_contains_rev(from_source(src), x);
}

proof fn lemma_root_member(chunks: Seq<Chunk>, r: int)
    requires
        0 <= r < roots_spec(chunks).len(),
    ensures
        tree_parent(chunks, roots_spec(chunks)[r]) == None::<i64>,
{
    broadcast use vstd::seq_lib::group_filter_ensures;

}

proof fn lemma_path_distinct(chunks: Seq<Chunk>, path: Seq<int>, i: int, j: int)
    requires
        ids_unique(chunks),
        root_path(chunks, path),
        0 <= i < j < path.len(),
    ensures
        path[i] != path[j],
    decreases i,
{
    if path[i] == path[j] {
        assert(tree_parent(chunks, chunks[path[j]]) == Some(chunks[path[j - 1]].id));
        if i > 0 {
            assert(tree_parent(chunks, chunks[path[i]]) == Some(chunks[path[i - 1]].id));
            let a = path[i - 1];
            let b = path[j - 1];
            assert(chunks[a].id == chunks[b].id);
            if a < b {
                assert(chunks[a].id != chunks[b].id);
            } else if b < a {
                assert(chunks[b].id != chunks[a].id);
            }
            lemma_path_distinct(chunks, path, i - 1, j - 1);
        }
    }
}

/// A walk down the tree from a root never meets a chunk twice, so it holds at most as many
/// chunks as there are: the tree drawn from the roots is finite even where parent links
/// elsewhere form a cycle.
pub proof fn lemma_root_path_bounded(chunks: Seq<Chunk>, path: Seq<int>)
    requires
        ids_unique(chunks),
        root_path(chunks, path),
    ensures
        path.no_duplicates(),
        path.len() <= chunks.len(),
{
    broadcast use vstd::seq_lib::seq_to_set_is_finite;

    assert(path.no_duplicates()) by {
        assert forall|i: int, j: int|
            0 <= i < path.len() && 0 <= j < path.len() && i != j implies path[i] != path[j] by {
            if i < j {
                lemma_path_distinct(chunks, path, i, j);
            } else {
                lemma_path_distinct(chunks, path, j, i);
            }
        }
    }
    path.unique_seq_to_set();
    let range = vstd::set_lib::set_int_range(0, chunks.len() as int);
    vstd::set_lib::lemma_int_range(0, chunks.len() as int);
    assert(path.to_set().subset_of(range)) by {
        assert forall|x: int| path.to_set().contains(x) implies range.contains(x) by {
            assert(path.contains(x));
            let i = choose|i: int| 0 <= i < path.len() && path[i] == x;
            assert(0 <= path[i] < chunks.len());
        }
    }
    lemma_len_subset(path.to_set(), range);
}

/// Whether no two chunks share an id.
pub fn ids_unique_check(chunks: &Vec<Chunk>) -> (b: bool)
    ensures
        b == ids_unique(chunks@),
{
    let n = chunks.len();
    let mut i: usize = 0;
    while i < n
        invariant
            i <= n,
            n == chunks@.len(),
            forall|a: int, b: int| 0 <= a < b < n && a < i ==> #[trigger] chunks@[a].id != #[trigger] chunks@[b].id,
        decreases n - i,
    {
        let mut j: usize = i + 1;
        while j < n
            invariant
                i < n,
                i + 1 <= j <= n,
                n == chunks@.len(),
                forall|b: int| i < b < j ==> chunks@[i as int].id != #[trigger] chunks@[b].id,
            decreases n - j,
        {
            if chunks[i].id == chunks[j].id {
                return false;
            }
            j = j + 1;
        }
        i = i + 1;
    }
    true
}

/// Appends the tree lines of the subtree at chunk `c`, reached from a root along `path`.
fn render_node(
    chunks: &Vec<Chunk>,
    tp: &Vec<Option<i64>>,
    fmt: &Formatter,
    c: usize,
    prefixes: &mut Vec<bool>,
    is_last: bool,
    lines: &mut Vec<String>,
    Ghost(path): Ghost<Seq<int>>,
    Ghost(depth): Ghost<nat>,
)
    requires
        c < chunks@.len(),
        ids_unique(chunks@),
        tp@.len() == chunks@.len(),
        forall|i: int| 0 <= i < chunks@.len() ==> #[trigger] tp@[i] == tree_parent(chunks@, chunks@[i]),
        root_path(chunks@, path),
        path.last() == c,
        depth + path.len() == chunks@.len() + 1,
    ensures
        final(prefixes)@ == old(prefixes)@,
        lines_view(final(lines)@) == lines_view(old(lines)@) + node_lines(
            *fmt,
            chunks@,
            chunks@[c as int],
            old(prefixes)@,
            is_last,
            depth,
        ),
    decreases depth,
{
    broadcast use vstd::seq_lib::group_filter_ensures;

    proof {
        lemma_root_path_bounded(chunks@, path);
    }
    let ghost start = lines_view(lines@);
    let ghost pre = prefixes@;
    let chunk = &chunks[c];
    let id = chunk.id;
    let mut line = indent_string(fmt, prefixes);
    let conn = fmt.tree_connector(is_last);
    line.append(conn.as_str());
    let heading = fmt.bold(chunk.heading.as_str());
    line.append(heading.as_str());
    line.append(" ");
    let slug = fmt.slug(chunk.slug.as_str());
    line.append(slug.as_str());
    proof {
        reveal_strlit(" ");
    }
    assert(line@ == node_line(*fmt, *chunk, pre, is_last));
    lines.push(line);
    assert(lines_view(lines@) =~= start.push(node_line(*fmt, *chunk, pre, is_last)));
    let kids = positions_with_parent(chunks, tp, Some(id));
    let ghost kid_chunks = children_spec(chunks@, id);
    let ghost below = (depth - 1) as nat;
    assert(select(chunks@, kids@) == kid_chunks);
    prefixes.push(!is_last);
    let ghost inner = pre.push(!is_last);
    let ghost head = lines_view(lines@);
    let mut j: usize = 0;
    while j < kids.len()
        invariant
            j <= kids@.len(),
            kids@.len() == kid_chunks.len(),
            forall|q: int| 0 <= q < kids@.len() ==> #[trigger] kids@[q] < chunks@.len(),
            select(chunks@, kids@) == kid_chunks,
            kid_chunks == children_spec(chunks@, id),
            id == chunks@[c as int].id,
            ids_unique(chunks@),
            tp@.len() == chunks@.len(),
            forall|i: int| 0 <= i < chunks@.len() ==> #[trigger] tp@[i] == tree_parent(chunks@, chunks@[i]),
            root_path(chunks@, path),
            path.last() == c,
            depth >= 1,
            below == depth - 1,
            below + path.len() + 1 == chunks@.len() + 1,
            prefixes@ == inner,
            lines_view(lines@) + kids_lines(*fmt, chunks@, id, inner, j as int, below) == head
                + kids_lines(*fmt, chunks@, id, inner, 0, below),
        decreases kids@.len() - j,
    {
        let k = kids[j];
        let ghost next = path.push(k as int);
        proof {
            assert(kid_chunks[j as int] == chunks@[k as int]);
            assert(tree_parent(chunks@, kid_chunks[j as int]) == Some(id));
            assert(root_path(chunks@, next)) by {
                assert forall|i: int| 0 <= i < next.len() implies 0 <= #[trigger] next[i]
                    < chunks@.len() by {
                    if i < path.len() {
                        assert(next[i] == path[i]);
                    }
                }
                assert forall|i: int| 0 < i < next.len() implies tree_parent(
                    chunks@,
                    chunks@[#[trigger] next[i]],
                ) == Some(chunks@[next[i - 1]].id) by {
                    if i < path.len() {
                        assert(next[i] == path[i] && next[i - 1] == path[i - 1]);
                    } else {
                        assert(next[i - 1] == path.last());
                    }
                }
                assert(next[0] == path[0]);
            }
        }
        let ghost mid = lines_view(lines@);
        render_node(
            chunks,
            tp,
            fmt,
            k,
            prefixes,
            j == kids.len() - 1,
            lines,
            Ghost(next),
            Ghost(below),
        );
        proof {
            assert(kids_lines(*fmt, chunks@, id, inner, j as int, below) == node_lines(
                *fmt,
                chunks@,
                kid_chunks[j as int],
                inner,
                j == kids@.len() - 1,
                below,
            ) + kids_lines(*fmt, chunks@, id, inner, j + 1, below));
            assert(lines_view(lines@) + kids_lines(*fmt, chunks@, id, inner, j + 1, below) =~= mid
                + kids_lines(*fmt, chunks@, id, inner, j as int, below));
        }
        j = j + 1;
    }
    assert(kids_lines(*fmt, chunks@, id, inner, j as int, below) == Seq::<Seq<char>>::empty());
    assert(lines_view(lines@) =~= head + kids_lines(*fmt, chunks@, id, inner, 0, below));
    prefixes.pop();
    assert(prefixes@ =~= pre);
}

/// The lines of `index`: the heading tree of the (already path-scoped) chunks, one block per
/// file.
pub fn index_tree_lines(chunks: &Vec<Chunk>, fmt: &Formatter) -> (lines: Vec<String>)
    requires
        ids_unique(chunks@),
    ensures
        lines_view(lines@) == index_tree_spec(*fmt, chunks@),
{
    let map = build_chunk_map(chunks);
    let tp = tree_parents(chunks, &map);
    let roots = positions_with_parent(chunks, &tp, None);
    let ghost rs = roots_spec(chunks@);
    assert(select(chunks@, roots@) =~= rs);
    let (sources, groups) = group_by_source(chunks, &roots);
    let ghost srcs = first_sources(rs);
    let ghost blocks = Seq::new(
        srcs.len(),
        |g: int|
            (if g > 0 {
                seq![Seq::<char>::empty()]
            } else {
                Seq::empty()
            }) + seq![fmt.bold_spec(srcs[g])] + roots_lines(*fmt, chunks@, group_of(rs, srcs[g])),
    );
    let mut lines: Vec<String> = Vec::new();
    let mut g: usize = 0;
    while g < sources.len()
        invariant
            g <= sources@.len(),
            ids_unique(chunks@),
            tp@.len() == chunks@.len(),
            forall|i: int| 0 <= i < chunks@.len() ==> #[trigger] tp@[i] == tree_parent(chunks@, chunks@[i]),
            rs == roots_spec(chunks@),
            srcs == first_sources(rs),
            sources@.map_values(|x: String| x@) == srcs,
            groups@.len() == sources@.len(),
            forall|h: int|
                0 <= h < groups@.len() ==> (forall|j: int|
                    0 <= j < groups@[h]@.len() ==> #[trigger] groups@[h]@[j] < chunks@.len())
                    && select(chunks@, groups@[h]@) == group_of(rs, sources@[h]@),
            blocks == Seq::new(
                srcs.len(),
                |g: int|
                    (if g > 0 {
                        seq![Seq::<char>::empty()]
                    } else {
                        Seq::empty()
                    }) + seq![fmt.bold_spec(srcs[g])] + roots_lines(
                        *fmt,
                        chunks@,
                        group_of(rs, srcs[g]),
                    ),
            ),
            lines_view(lines@) == concat_blocks(blocks.take(g as int)),
        decreases sources@.len() - g,
    {
        let ghost start = lines_view(lines@);
        assert(srcs[g as int] == sources@[g as int]@);
        let ghost group = group_of(rs, srcs[g as int]);
        if g > 0 {
            lines.push(String::new());
        }
        lines.push(fmt.bold(sources[g].as_str()));
        let ghost head = lines_view(lines@);
        assert(head =~= start + (if g > 0 {
            seq![Seq::<char>::empty()]
        } else {
            Seq::empty()
        }) + seq![fmt.bold_spec(srcs[g as int])]);
        let grp = &groups[g];
        let ghost nodes = Seq::new(
            group.len(),
            |i: int|
                node_lines(
                    *fmt,
                    chunks@,
                    group[i],
                    Seq::empty(),
                    i == group.len() - 1,
                    chunks@.len(),
                ),
        );
        let mut i: usize = 0;
        while i < grp.len()
            invariant
                i <= grp@.len(),
                grp == groups@[g as int],
                forall|q: int| 0 <= q < grp@.len() ==> #[trigger] grp@[q] < chunks@.len(),
                select(chunks@, grp@) == group,
                group == group_of(rs, srcs[g as int]),
                rs == roots_spec(chunks@),
                ids_unique(chunks@),
                tp@.len() == chunks@.len(),
                forall|q: int| 0 <= q < chunks@.len() ==> #[trigger] tp@[q] == tree_parent(chunks@, chunks@[q]),
                nodes == Seq::new(
                    group.len(),
                    |i: int|
                        node_lines(
                            *fmt,
                            chunks@,
                            group[i],
                            Seq::empty(),
                            i == group.len() - 1,
                            chunks@.len(),
                        ),
                ),
                lines_view(lines@) == head + concat_blocks(nodes.take(i as int)),
            decreases grp@.len() - i,
        {
            let mut prefixes: Vec<bool> = Vec::new();
            let ghost mid = lines_view(lines@);
            assert(group[i as int] == chunks@[grp@[i as int] as int]);
            let ghost root = seq![grp@[i as int] as int];
            proof {
                broadcast use vstd::seq_lib::group_filter_ensures;

                assert(group.contains(group[i as int]));
                lemma_group_member(rs, srcs[g as int], group[i as int]);
                let r = choose|r: int| 0 <= r < rs.len() && rs[r] == group[i as int];
                lemma_root_member(chunks@, r);
                assert(tree_parent(chunks@, rs[r]) == None::<i64>);
                assert(root[0] == grp@[i as int] as int);
                assert(root_path(chunks@, root));
            }
            render_node(
                chunks,
                &tp,
                fmt,
                grp[i],
                &mut prefixes,
                i == grp.len() - 1,
                &mut lines,
                Ghost(root),
                Ghost(chunks@.len()),
            );
            proof {
                assert(nodes.take(i + 1).drop_last() =~= nodes.take(i as int));
                assert(prefixes@ == Seq::<bool>::empty());
            }
            i = i + 1;
        }
        proof {
            assert(nodes.take(group.len() as int) =~= nodes);
            assert(blocks.take(g + 1).drop_last() =~= blocks.take(g as int));
            assert(lines_view(lines@) =~= concat_blocks(blocks.take(g + 1)));
        }
        g = g + 1;
    }
    assert(blocks.take(sources@.len() as int) =~= blocks);
    lines
}

} // verus!
