use vstd::prelude::*;

verus! {

/// The id of the last stack entry whose level is below `level`; none for level 0.
pub open spec fn find_parent_spec(stack: Seq<(usize, i64)>, level: usize) -> Option<i64>
    decreases stack.len(),
{
    if level == 0 || stack.len() == 0 {
        None
    } else if stack.last().0 < level {
        Some(stack.last().1)
    } else {
        find_parent_spec(stack.drop_last(), level)
    }
}

/// The nearest parent of a section at `level` among the open sections on `parent_stack`:
/// the last entry with a lower level. File-level sections (level 0) have none.
pub fn find_parent(parent_stack: &[(usize, i64)], level: usize) -> (p: Option<i64>)
    ensures
        p == find_parent_spec(parent_stack@, level),
{
    if level == 0 {
        return None;
    }
    let mut k: usize = parent_stack.len();
    assert(parent_stack@.subrange(0, k as int) =~= parent_stack@);
    while k > 0
        invariant
            k <= parent_stack@.len(),
            level > 0,
            find_parent_spec(parent_stack@, level) == find_parent_spec(
                parent_stack@.subrange(0, k as int),
                level,
            ),
        decreases k,
    {
        let ghost pre = parent_stack@.subrange(0, k as int);
        assert(pre.drop_last() =~= parent_stack@.subrange(0, k - 1));
        let (lvl, id) = parent_stack[k - 1];
        if lvl < level {
            return Some(id);
        }
        k = k - 1;
    }
    None
}

/// The entries of `stack` below `level`, in order.
pub open spec fn entries_below(stack: Seq<(usize, i64)>, level: usize) -> Seq<(usize, i64)> {
    stack.filter(|e: (usize, i64)| e.0 < level)
}

/// Closes the open sections at `level` or deeper, then opens section `id` at `level`.
pub fn push_section(parent_stack: &mut Vec<(usize, i64)>, level: usize, id: i64)
    ensures
        final(parent_stack)@ == entries_below(old(parent_stack)@, level).push((level, id)),
{
    let ghost old_stack = parent_stack@;
    let mut kept: Vec<(usize, i64)> = Vec::new();
    let mut i: usize = 0;
    while i < parent_stack.len()
        invariant
            i <= old_stack.len(),
            parent_stack@ == old_stack,
            kept@ == entries_below(old_stack.subrange(0, i as int), level),
        decreases old_stack.len() - i,
    {
        let e = parent_stack[i];
        proof {
            let pre = old_stack.subrange(0, i + 1);
            assert(pre.drop_last() =~= old_stack.subrange(0, i as int));
            reveal_with_fuel(Seq::filter, 1);
        }
        if e.0 < level {
            kept.push(e);
        }
        i = i + 1;
    }
    assert(old_stack.subrange(0, old_stack.len() as int) =~= old_stack);
    kept.push((level, id));
    *parent_stack = kept;
}

/// The nearest section before `j` whose level is below `level`.
pub open spec fn last_below_before(levels: Seq<usize>, level: usize, j: int) -> Option<int>
    decreases j,
{
    if j <= 0 {
        None
    } else if levels[j - 1] < level {
        Some(j - 1)
    } else {
        last_below_before(levels, level, j - 1)
    }
}

/// The parent of section `i` in a file whose sections have the given heading levels:
/// the nearest earlier section with a lower level; none for the file-level section.
pub open spec fn parent_of(levels: Seq<usize>, i: int) -> Option<int> {
    if levels[i] == 0 {
        None
    } else {
        last_below_before(levels, levels[i], i)
    }
}

/// No section strictly between `j` and `i` has a level at or below that of `j`.
pub open spec fn still_open(levels: Seq<usize>, j: int, i: int) -> bool {
    forall|k: int| j < k < i ==> #[trigger] levels[k] > levels[j]
}

/// The stack holds exactly the sections before `i` that are still open, in document order.
pub open spec fn stack_inv(stack: Seq<(usize, i64)>, levels: Seq<usize>, i: int) -> bool {
    &&& forall|p: int|
        0 <= p < stack.len() ==> {
            let j = (#[trigger] stack[p]).1 as int;
            &&& 0 <= j < i
            &&& stack[p].0 == levels[j]
            &&& still_open(levels, j, i)
        }
    &&& ids_increasing(stack)
    &&& forall|j: int|
        0 <= j < i && #[trigger] still_open(levels, j, i) ==> exists|p: int|
            0 <= p < stack.len() && #[trigger] stack[p].1 == j
}

proof fn lemma_find_parent_some(stack: Seq<(usize, i64)>, level: usize, p: int)
    requires
        level > 0,
        0 <= p < stack.len(),
        stack[p].0 < level,
        forall|q: int| p < q < stack.len() ==> #[trigger] stack[q].0 >= level,
    ensures
        find_parent_spec(stack, level) == Some(stack[p].1),
    decreases stack.len(),
{
    if p < stack.len() - 1 {
        assert(stack.last() == stack[stack.len() - 1]);
        lemma_find_parent_some(stack.drop_last(), level, p);
    }
}

proof fn lemma_find_parent_none(stack: Seq<(usize, i64)>, level: usize)
    requires
        forall|q: int| 0 <= q < stack.len() ==> #[trigger] stack[q].0 >= level,
    ensures
        find_parent_spec(stack, level) == None::<i64>,
    decreases stack.len(),
{
    if stack.len() > 0 {
        assert(stack.last() == stack[stack.len() - 1]);
        lemma_find_parent_none(stack.drop_last(), level);
    }
}

proof fn lemma_last_below_none(levels: Seq<usize>, level: usize, i: int)
    requires
        0 <= i <= levels.len(),
        last_below_before(levels, level, i) is None,
    ensures
        forall|k: int| 0 <= k < i ==> #[trigger] levels[k] >= level,
    decreases i,
{
    if i > 0 {
        lemma_last_below_none(levels, level, i - 1);
    }
}

proof fn lemma_last_below_some(levels: Seq<usize>, level: usize, i: int)
    requires
        0 <= i <= levels.len(),
        last_below_before(levels, level, i) is Some,
    ensures
        ({
            let j = last_below_before(levels, level, i)->0;
            &&& 0 <= j < i
            &&& levels[j] < level
            &&& forall|k: int| j < k < i ==> #[trigger] levels[k] >= level
        }),
    decreases i,
{
    if i > 0 && levels[i - 1] >= level {
        lemma_last_below_some(levels, level, i - 1);
    }
}

/// The sections form a tree that mirrors the heading hierarchy: a section's parent comes
/// before it with a lower level, no section between them has a level below it, and a heading
/// without a parent has no earlier section of lower level.
pub proof fn lemma_parent_is_enclosing_heading(levels: Seq<usize>, i: int)
    requires
        0 <= i < levels.len(),
    ensures
        parent_of(levels, i) matches Some(j) ==> {
            &&& 0 <= j < i
            &&& levels[j] < levels[i]
            &&& forall|k: int| j < k < i ==> #[trigger] levels[k] >= levels[i]
        },
        parent_of(levels, i) is None && levels[i] > 0 ==> forall|k: int|
            0 <= k < i ==> #[trigger] levels[k] >= levels[i],
{
    if levels[i] > 0 {
        if last_below_before(levels, levels[i], i) is Some {
            lemma_last_below_some(levels, levels[i], i);
        } else {
            lemma_last_below_none(levels, levels[i], i);
        }
    }
}

/// With a file-level section (level 0) at the start of a file, no heading is left without
/// a parent: every later heading has one.
pub proof fn lemma_file_section_encloses_headings(levels: Seq<usize>, i: int)
    requires
        0 < i < levels.len(),
        levels[0] == 0,
        levels[i] > 0,
    ensures
        parent_of(levels, i) is Some,
{
    lemma_parent_is_enclosing_heading(levels, i);
    if parent_of(levels, i) is None {
        assert(levels[0] >= levels[i]);
    }
}

/// The parent found on the stack is the nearest earlier section with a lower level.
proof fn lemma_stack_parent(stack: Seq<(usize, i64)>, levels: Seq<usize>, i: int)
    requires
        0 <= i < levels.len(),
        stack_inv(stack, levels, i),
    ensures
        find_parent_spec(stack, levels[i]) == match parent_of(levels, i) {
            Some(j) => Some(j as i64),
            None => None::<i64>,
        },
{
    let level = levels[i];
    if level == 0 {
    } else {
        match last_below_before(levels, level, i) {
            Some(j) => {
                lemma_last_below_some(levels, level, i);
                assert(still_open(levels, j, i));
                let p = choose|p: int| 0 <= p < stack.len() && #[trigger] stack[p].1 == j;
                assert forall|q: int| p < q < stack.len() implies #[trigger] stack[q].0 >= level by {
                    assert(stack[p].1 < stack[q].1);
                    let jq = stack[q].1 as int;
                    assert(j < jq < i);
                    assert(levels[jq] >= level);
                }
                lemma_find_parent_some(stack, level, p);
            },
            None => {
                lemma_last_below_none(levels, level, i);
                assert forall|q: int| 0 <= q < stack.len() implies #[trigger] stack[q].0 >= level by {
                    let jq = stack[q].1 as int;
                    assert(levels[jq] >= level);
                }
                lemma_find_parent_none(stack, level);
            },
        }
    }
}

/// Entry ids strictly increase along the stack.
pub open spec fn ids_increasing(s: Seq<(usize, i64)>) -> bool {
    forall|p: int, q: int| 0 <= p < q < s.len() ==> #[trigger] s[p].1 < #[trigger] s[q].1
}

proof fn lemma_filter_increasing(s: Seq<(usize, i64)>, f: spec_fn((usize, i64)) -> bool)
    requires
        ids_increasing(s),
    ensures
        ids_increasing(s.filter(f)),
        forall|x: (usize, i64)| #[trigger] s.filter(f).contains(x) ==> s.contains(x) && f(x),
        forall|x: (usize, i64)| s.contains(x) && f(x) ==> #[trigger] s.filter(f).contains(x),
    decreases s.len(),
{
    broadcast use vstd::seq_lib::group_filter_ensures;

    reveal_with_fuel(Seq::filter, 1);
    if s.len() > 0 {
        let d = s.drop_last();
        assert(ids_increasing(d));
        lemma_filter_increasing(d, f);
        let t = d.filter(f);
        if f(s.last()) {
            assert(s.filter(f) == t.push(s.last()));
            assert forall|p: int, q: int| 0 <= p < q < s.filter(f).len() implies #[trigger] s.filter(
                f,
            )[p].1 < #[trigger] s.filter(f)[q].1 by {
                if q == t.len() {
                    assert(t.contains(t[p]));
                    let a = choose|a: int| 0 <= a < d.len() && d[a] == t[p];
                    assert(s[a] == t[p]);
                    assert(s[s.len() - 1] == s.last());
                }
            }
            assert forall|x: (usize, i64)| s.contains(x) && f(x) implies #[trigger] s.filter(f).contains(x) by {
                let a = choose|a: int| 0 <= a < s.len() && s[a] == x;
                if a < s.len() - 1 {
                    assert(d[a] == x);
                    assert(t.contains(x));
                    let b = choose|b: int| 0 <= b < t.len() && t[b] == x;
                    assert(s.filter(f)[b] == x);
                } else {
                    assert(s.filter(f)[t.len() as int] == x);
                }
            }
            assert forall|x: (usize, i64)| #[trigger] s.filter(f).contains(x) implies s.contains(x) && f(x) by {
                let b = choose|b: int| 0 <= b < s.filter(f).len() && s.filter(f)[b] == x;
                if b < t.len() {
                    assert(t[b] == x);
                    assert(t.contains(x));
                    let a = choose|a: int| 0 <= a < d.len() && d[a] == x;
                    assert(s[a] == x);
                } else {
                    assert(s[s.len() - 1] == x);
                }
            }
        } else {
            assert(s.filter(f) == t);
            assert forall|x: (usize, i64)| s.contains(x) && f(x) implies #[trigger] s.filter(f).contains(x) by {
                let a = choose|a: int| 0 <= a < s.len() && s[a] == x;
                assert(a < s.len() - 1);
                assert(d[a] == x);
            }
            assert forall|x: (usize, i64)| #[trigger] s.filter(f).contains(x) implies s.contains(x) && f(x) by {
                let a = choose|a: int| 0 <= a < d.len() && d[a] == x;
                assert(s[a] == x);
            }
        }
    }
}

/// Opening section `i` on a stack of the sections still open before it gives the sections
/// still open before `i + 1`.
proof fn lemma_stack_push(stack: Seq<(usize, i64)>, levels: Seq<usize>, i: int)
    requires
        0 <= i < levels.len(),
        i < i64::MAX,
        stack_inv(stack, levels, i),
    ensures
        stack_inv(entries_below(stack, levels[i]).push((levels[i], i as i64)), levels, i + 1),
{
    let level = levels[i];
    let f = |e: (usize, i64)| e.0 < level;
    let kept = stack.filter(f);
    let next = kept.push((level, i as i64));
    lemma_filter_increasing(stack, f);
    assert forall|p: int| 0 <= p < next.len() implies {
        let j = (#[trigger] next[p]).1 as int;
        &&& 0 <= j < i + 1
        &&& next[p].0 == levels[j]
        &&& still_open(levels, j, i + 1)
    } by {
        if p < kept.len() {
            assert(kept.contains(kept[p]));
            assert(stack.contains(next[p]));
            let a = choose|a: int| 0 <= a < stack.len() && stack[a] == next[p];
            assert(stack[a].0 < level);
        }
    }
    assert forall|p: int, q: int| 0 <= p < q < next.len() implies #[trigger] next[p].1
        < #[trigger] next[q].1 by {
        if q < kept.len() {
            assert(kept[p].1 < kept[q].1);
        } else {
            assert(kept.contains(kept[p]));
            let a = choose|a: int| 0 <= a < stack.len() && stack[a] == kept[p];
            assert(stack[a].1 < i);
        }
    }
    assert forall|j: int| 0 <= j < i + 1 && #[trigger] still_open(levels, j, i + 1) implies exists|p: int|
        0 <= p < next.len() && #[trigger] next[p].1 == j by {
        if j == i {
            assert(next[kept.len() as int].1 == j);
        } else {
            assert(still_open(levels, j, i));
            let a = choose|a: int| 0 <= a < stack.len() && #[trigger] stack[a].1 == j;
            assert(levels[i] > levels[j]);
            assert(f(stack[a]));
            assert(stack.contains(stack[a]));
            assert(kept.contains(stack[a]));
            let p = choose|p: int| 0 <= p < kept.len() && kept[p] == stack[a];
            assert(next[p].1 == j);
        }
    }
}

/// The parent of each section, by position, for sections with the given heading levels.
pub fn section_parents(levels: &Vec<usize>) -> (parents: Vec<Option<i64>>)
    requires
        levels@.len() < i64::MAX,
    ensures
        parents@.len() == levels@.len(),
        forall|i: int|
            0 <= i < levels@.len() ==> #[trigger] parents@[i] == match parent_of(levels@, i) {
                Some(j) => Some(j as i64),
                None => None::<i64>,
            },
{
    let mut stack: Vec<(usize, i64)> = Vec::new();
    let mut parents: Vec<Option<i64>> = Vec::new();
    let mut i: usize = 0;
    while i < levels.len()
        invariant
            i <= levels@.len(),
            levels@.len() < i64::MAX,
            parents@.len() == i,
            stack_inv(stack@, levels@, i as int),
            forall|k: int|
                0 <= k < i ==> #[trigger] parents@[k] == match parent_of(levels@, k) {
                    Some(j) => Some(j as i64),
                    None => None::<i64>,
                },
        decreases levels@.len() - i,
    {
        let level = levels[i];
        proof {
            lemma_stack_parent(stack@, levels@, i as int);
            lemma_stack_push(stack@, levels@, i as int);
        }
        let parent = find_parent(stack.as_slice(), level);
        parents.push(parent);
        push_section(&mut stack, level, i as i64);
        i = i + 1;
    }
    parents
}

} // verus!
