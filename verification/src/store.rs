use vstd::prelude::*;

use std::collections::HashMap;

use crate::text::starts_with;

verus! {

/// A chunk to be inserted: one markdown section of a source file.
pub struct NewChunk<'a> {
    pub source_path: &'a str,
    pub heading: &'a str,
    pub slug: &'a str,
    pub parent_id: Option<i64>,
    pub position: i32,
    pub content: &'a str,
}

/// An indexed chunk: one heading's direct content, linked to its parent heading.
#[derive(Debug, Clone)]
pub struct Chunk {
    pub id: i64,
    pub source_path: String,
    pub heading: String,
    pub slug: String,
    pub parent_id: Option<i64>,
    pub position: i32,
    pub content: String,
}

impl Chunk {
    /// A field-by-field copy of this chunk.
    pub fn duplicate(&self) -> (c: Chunk)
        ensures
            c == *self,
    {
        Chunk {
            id: self.id,
            source_path: self.source_path.clone(),
            heading: self.heading.clone(),
            slug: self.slug.clone(),
            parent_id: self.parent_id,
            position: self.position,
            content: self.content.clone(),
        }
    }
}

/// `ancestors` without its first chunk when that chunk is file-level (has no parent).
pub open spec fn strip_root_spec(ancestors: Seq<Chunk>) -> Seq<Chunk> {
    if ancestors.len() > 0 && ancestors[0].parent_id is None {
        ancestors.drop_first()
    } else {
        ancestors
    }
}

/// Removes the root (file-level) chunk from an ancestor chain: callers only need heading
/// ancestors.
pub fn strip_root_ancestor(ancestors: &mut Vec<Chunk>)
    ensures
        final(ancestors)@ == strip_root_spec(old(ancestors)@),
{
    if ancestors.len() > 0 && ancestors[0].parent_id.is_none() {
        ancestors.remove(0);
        assert(ancestors@ =~= strip_root_spec(old(ancestors)@));
    }
}

/// The chain of ancestors starting at `pid`, nearest first, followed through `chunks` until
/// a chunk without parent or a parent that is not in the map; `None` when the chain does
/// not end within `fuel` steps.
pub open spec fn parent_chain(chunks: Map<i64, Chunk>, pid: Option<i64>, fuel: nat) -> Option<
    Seq<Chunk>,
>
    decreases fuel,
{
    match pid {
        None => Some(Seq::empty()),
        Some(p) => if !chunks.contains_key(p) {
            Some(Seq::empty())
        } else if fuel == 0 {
            None
        } else {
            match parent_chain(chunks, chunks[p].parent_id, (fuel - 1) as nat) {
                Some(rest) => Some(seq![chunks[p]] + rest),
                None => None,
            }
        },
    }
}

pub(crate) proof fn lemma_parent_chain_fuel(chunks: Map<i64, Chunk>, pid: Option<i64>, n: nat, m: nat)
    requires
        parent_chain(chunks, pid, n) is Some,
        n <= m,
    ensures
        parent_chain(chunks, pid, m) == parent_chain(chunks, pid, n),
    decreases n,
{
    if let Some(p) = pid {
        if chunks.contains_key(p) && n > 0 {
            lemma_parent_chain_fuel(chunks, chunks[p].parent_id, (n - 1) as nat, (m - 1) as nat);
        }
    }
}

/// `v` in reverse order.
fn reversed(v: Vec<Chunk>) -> (r: Vec<Chunk>)
    ensures
        r@ == v@.reverse(),
{
    let ghost orig = v@;
    let mut v = v;
    let mut r: Vec<Chunk> = Vec::new();
    while v.len() > 0
        invariant
            v@ == orig.subrange(0, v@.len() as int),
            r@ == orig.subrange(v@.len() as int, orig.len() as int).reverse(),
            v@.len() <= orig.len(),
        decreases v@.len(),
    {
        let ghost n = v@.len();
        let x = v.pop().unwrap();
        r.push(x);
        assert(orig.subrange(n - 1, orig.len() as int).reverse() =~= orig.subrange(
            n as int,
            orig.len() as int,
        ).reverse().push(orig[n - 1]));
    }
    assert(orig.subrange(0, orig.len() as int).reverse() =~= orig.reverse());
    r
}

/// The chunks that an id-to-chunk reference map points to.
pub open spec fn deref_map(m: Map<i64, &Chunk>) -> Map<i64, Chunk> {
    m.map_values(|r: &Chunk| *r)
}

/// Builds a chunk's ancestor chain from an in-memory map from id to chunk, root first,
/// excluding the file-level root chunk. The chain stops at a parent missing from the map.
pub fn ancestors_from_chunks<'a>(chunk: &Chunk, id_to_chunk: &'a HashMap<i64, &'a Chunk>) -> (r:
    Vec<Chunk>)
    requires
        exists|n: nat| #[trigger] parent_chain(deref_map(id_to_chunk@), chunk.parent_id, n) is Some,
    ensures
        forall|n: nat|
            #[trigger] parent_chain(deref_map(id_to_chunk@), chunk.parent_id, n) matches Some(chain) ==> r@
                == strip_root_spec(chain.reverse()),
{
    broadcast use vstd::std_specs::hash::group_hash_axioms;

    let ghost m = deref_map(id_to_chunk@);
    let ghost n0 = choose|n: nat| #[trigger] parent_chain(m, chunk.parent_id, n) is Some;
    let ghost whole = parent_chain(m, chunk.parent_id, n0)->0;
    let mut ancestors: Vec<Chunk> = Vec::new();
    let mut pid = chunk.parent_id;
    let ghost mut fuel: nat = n0;
    let mut done = false;
    while !done
        invariant
            m == deref_map(id_to_chunk@),
            parent_chain(m, chunk.parent_id, n0) == Some(whole),
            done ==> ancestors@ == whole,
            !done ==> parent_chain(m, pid, fuel) is Some && whole == ancestors@ + parent_chain(
                m,
                pid,
                fuel,
            )->0,
        decreases fuel, if done { 0int } else { 1int },
    {
        match pid {
            None => {
                assert(ancestors@ + Seq::<Chunk>::empty() =~= ancestors@);
                done = true;
            },
            Some(p) => {
                match id_to_chunk.get(&p) {
                    Some(parent) => {
                        assert(m.contains_key(p) && m[p] == *parent);
                        let ghost rest = parent_chain(m, m[p].parent_id, (fuel - 1) as nat)->0;
                        pid = parent.parent_id;
                        let ghost before = ancestors@;
                        ancestors.push(parent.duplicate());
                        proof {
                            assert(whole =~= ancestors@ + rest);
                            fuel = (fuel - 1) as nat;
                        }
                    },
                    None => {
                        assert(!m.contains_key(p));
                        assert(ancestors@ + Seq::<Chunk>::empty() =~= ancestors@);
                        done = true;
                    },
                }
            },
        }
    }
    let mut ancestors = reversed(ancestors);
    strip_root_ancestor(&mut ancestors);
    proof {
        assert forall|n: nat| #[trigger] parent_chain(m, chunk.parent_id, n) is Some implies ancestors@
            == strip_root_spec(parent_chain(m, chunk.parent_id, n)->0.reverse()) by {
            if n <= n0 {
                lemma_parent_chain_fuel(m, chunk.parent_id, n, n0);
            } else {
                lemma_parent_chain_fuel(m, chunk.parent_id, n0, n);
            }
        }
    }
    ancestors
}

/// The results whose chunk lies under `path` (its source path starts with `path`).
pub open spec fn under_path<T>(results: Seq<(Chunk, T)>, path: Seq<char>) -> Seq<(Chunk, T)> {
    results.filter(|e: (Chunk, T)| path.is_prefix_of(e.0.source_path@))
}

/// How many nearest neighbours to fetch for `limit` results: five times as many when the
/// results are then filtered by path.
pub fn fetch_limit(limit: usize, scoped: bool) -> (n: usize)
    requires
        scoped ==> limit * 5 <= usize::MAX,
    ensures
        n == if scoped { limit * 5 } else { limit as int },
{
    if scoped {
        limit * 5
    } else {
        limit
    }
}

/// Post-filter of a path-scoped search: the first `limit` results under `path`, in order;
/// all results, unfiltered, when no path is given.
pub fn filter_by_path<T>(results: Vec<(Chunk, T)>, limit: usize, path: Option<&str>) -> (r: Vec<
    (Chunk, T),
>)
    ensures
        r@ == match path {
            None => results@,
            Some(p) => {
                let kept = under_path(results@, p@);
                kept.take(if limit < kept.len() { limit as int } else { kept.len() as int })
            },
        },
{
    match path {
        None => results,
        Some(p) => {
            let ghost all = results@;
            let total = results.len();
            let ghost f = |e: (Chunk, T)| p@.is_prefix_of(e.0.source_path@);
            let mut rest = reversed_pairs(results);
            let mut kept: Vec<(Chunk, T)> = Vec::new();
            let mut i: usize = 0;
            while rest.len() > 0 && kept.len() < limit
                invariant
                    i <= all.len(),
                    total == all.len(),
                    rest@ == all.subrange(i as int, all.len() as int).reverse(),
                    kept@ == all.subrange(0, i as int).filter(f),
                    f == (|e: (Chunk, T)| p@.is_prefix_of(e.0.source_path@)),
                    kept@.len() <= limit,
                decreases rest@.len(),
            {
                let ghost pre = all.subrange(0, i + 1);
                let e = rest.pop().unwrap();
                proof {
                    assert(all.subrange(i as int, all.len() as int).reverse().last() == all[i as int]);
                    assert(pre.drop_last() =~= all.subrange(0, i as int));
                    assert(pre.last() == all[i as int]);
                    reveal_with_fuel(Seq::filter, 1);
                    assert(rest@ =~= all.subrange(i + 1, all.len() as int).reverse());
                }
                if starts_with(e.0.source_path.as_str(), p) {
                    kept.push(e);
                } else {
                }
                i = i + 1;
            }
            proof {
                lemma_filter_prefix(all, f, i as int, limit as int);
            }
            kept
        },
    }
}

proof fn lemma_filter_prefix<A>(s: Seq<A>, f: spec_fn(A) -> bool, i: int, limit: int)
    requires
        0 <= i <= s.len(),
        0 <= limit,
        s.subrange(0, i).filter(f).len() <= limit,
        i == s.len() || s.subrange(0, i).filter(f).len() == limit,
    ensures
        ({
            let kept = s.filter(f);
            s.subrange(0, i).filter(f) == kept.take(
                if limit < kept.len() { limit } else { kept.len() as int },
            )
        }),
    decreases s.len() - i,
{
    if i == s.len() {
        assert(s.subrange(0, i) =~= s);
        assert(s.filter(f).take(s.filter(f).len() as int) =~= s.filter(f));
    } else {
        lemma_filter_prefix_extends(s, f, i);
    }
}

proof fn lemma_filter_prefix_extends<A>(s: Seq<A>, f: spec_fn(A) -> bool, i: int)
    requires
        0 <= i <= s.len(),
    ensures
        s.filter(f).len() >= s.subrange(0, i).filter(f).len(),
        s.subrange(0, i).filter(f) =~= s.filter(f).take(s.subrange(0, i).filter(f).len() as int),
    decreases s.len() - i,
{
    reveal_with_fuel(Seq::filter, 1);
    if i == s.len() {
        assert(s.subrange(0, i) =~= s);
    } else {
        lemma_filter_prefix_extends(s, f, i + 1);
        let a = s.subrange(0, i + 1);
        assert(a.drop_last() =~= s.subrange(0, i));
        if f(a.last()) {
            assert(a.filter(f) == s.subrange(0, i).filter(f).push(a.last()));
        } else {
            assert(a.filter(f) == s.subrange(0, i).filter(f));
        }
    }
}

fn reversed_pairs<T>(v: Vec<(Chunk, T)>) -> (r: Vec<(Chunk, T)>)
    ensures
        r@ == v@.reverse(),
{
    let ghost orig = v@;
    let mut v = v;
    let mut r: Vec<(Chunk, T)> = Vec::new();
    while v.len() > 0
        invariant
            v@ == orig.subrange(0, v@.len() as int),
            r@ == orig.subrange(v@.len() as int, orig.len() as int).reverse(),
            v@.len() <= orig.len(),
        decreases v@.len(),
    {
        let ghost n = v@.len();
        let x = v.pop().unwrap();
        r.push(x);
        assert(orig.subrange(n - 1, orig.len() as int).reverse() =~= orig.subrange(
            n as int,
            orig.len() as int,
        ).reverse().push(orig[n - 1]));
    }
    assert(orig.subrange(0, orig.len() as int).reverse() =~= orig.reverse());
    r
}

} // verus!
