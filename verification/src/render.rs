use vstd::prelude::*;
use vstd::string::*;

use crate::format::Formatter;
use crate::store::Chunk;

verus! {

/// The printed lines, each as characters.
pub open spec fn lines_view(v: Seq<String>) -> Seq<Seq<char>> {
    v.map_values(|s: String| s@)
}

/// The blocks of lines, in order, as one list of lines.
pub open spec fn concat_blocks(blocks: Seq<Seq<Seq<char>>>) -> Seq<Seq<char>>
    decreases blocks.len(),
{
    if blocks.len() == 0 {
        Seq::empty()
    } else {
        concat_blocks(blocks.drop_last()) + blocks.last()
    }
}

/// A chunk with its heading ancestors, as listed in search results.
pub open spec fn entry_source(entries: Seq<(Chunk, Vec<Chunk>)>, i: int) -> Seq<char> {
    entries[i].0.source_path@
}

/// `heading [slug]` after its breadcrumb and tree connector: one listed search result.
pub open spec fn listing_item(f: Formatter, c: Chunk, ancestors: Seq<Chunk>, is_last: bool) -> Seq<
    char,
> {
    f.tree_connector_spec(is_last) + f.breadcrumb_spec(ancestors, c.heading@) + seq![' ']
        + f.slug_spec(c.slug@)
}

/// The lines printed for result `i` of a search listing: a bold file header where a new
/// group of adjacent results from one file begins (after a blank line, except for the
/// first group), then the result, drawn as the last of its group where the next result
/// comes from another file.
pub open spec fn listing_block(f: Formatter, entries: Seq<(Chunk, Vec<Chunk>)>, i: int) -> Seq<
    Seq<char>,
> {
    let src = entry_source(entries, i);
    let header = if i == 0 || src != entry_source(entries, i - 1) {
        (if i > 0 {
            seq![Seq::<char>::empty()]
        } else {
            Seq::empty()
        }) + seq![f.bold_spec(src)]
    } else {
        Seq::empty()
    };
    let is_last = i == entries.len() - 1 || entry_source(entries, i + 1) != src;
    header + seq![listing_item(f, entries[i].0, entries[i].1@, is_last)]
}

pub open spec fn search_listing_spec(f: Formatter, entries: Seq<(Chunk, Vec<Chunk>)>) -> Seq<
    Seq<char>,
> {
    concat_blocks(Seq::new(entries.len(), |i: int| listing_block(f, entries, i)))
}

fn push_line(lines: &mut Vec<String>, line: String)
    ensures
        lines_view(final(lines)@) == lines_view(old(lines)@).push(line@),
{
    let ghost before = lines@;
    lines.push(line);
    assert(lines_view(lines@) =~= lines_view(before).push(line@));
}

fn concat3(a: &str, b: &str, c: &str) -> (s: String)
    ensures
        s@ == a@ + b@ + c@,
{
    let mut s = a.to_owned();
    s.append(b);
    s.append(c);
    s
}

proof fn lemma_concat_blocks_step(blocks: Seq<Seq<Seq<char>>>, i: int)
    requires
        0 <= i < blocks.len(),
    ensures
        concat_blocks(blocks.take(i + 1)) == concat_blocks(blocks.take(i)) + blocks[i],
{
    assert(blocks.take(i + 1).drop_last() =~= blocks.take(i));
}

/// The lines before block `k` are a prefix of all the lines.
proof fn lemma_concat_prefix(blocks: Seq<Seq<Seq<char>>>, k: int)
    requires
        0 <= k <= blocks.len(),
    ensures
        concat_blocks(blocks.take(k)).len() <= concat_blocks(blocks).len(),
        forall|m: int|
            0 <= m < concat_blocks(blocks.take(k)).len() ==> #[trigger] concat_blocks(blocks)[m]
                == concat_blocks(blocks.take(k))[m],
    decreases blocks.len(),
{
    if k == blocks.len() {
        assert(blocks.take(k) =~= blocks);
    } else {
        let init = blocks.drop_last();
        lemma_concat_prefix(init, k);
        assert(init.take(k) =~= blocks.take(k));
    }
}

/// Line `j` of block `i` stands in the concatenation right after the lines of the blocks
/// before it.
pub(crate) proof fn lemma_concat_blocks_at(blocks: Seq<Seq<Seq<char>>>, i: int, j: int)
    requires
        0 <= i < blocks.len(),
        0 <= j < blocks[i].len(),
    ensures
        concat_blocks(blocks.take(i)).len() + j < concat_blocks(blocks).len(),
        concat_blocks(blocks)[concat_blocks(blocks.take(i)).len() + j] == blocks[i][j],
{
    lemma_concat_blocks_step(blocks, i);
    lemma_concat_prefix(blocks, i + 1);
    let o = concat_blocks(blocks.take(i)).len() as int;
    assert(concat_blocks(blocks.take(i + 1))[o + j] == blocks[i][j]);
}

/// The lines of a search listing: results grouped by adjacent source file, each group
/// under a bold file header, with tree connectors.
pub fn search_listing(entries: &Vec<(Chunk, Vec<Chunk>)>, fmt: &Formatter) -> (lines: Vec<String>)
    ensures
        lines_view(lines@) == search_listing_spec(*fmt, entries@),
{
    let ghost blocks = Seq::new(entries@.len(), |i: int| listing_block(*fmt, entries@, i));
    let mut lines: Vec<String> = Vec::new();
    let n = entries.len();
    let mut i: usize = 0;
    while i < n
        invariant
            i <= n,
            n == entries@.len(),
            blocks == Seq::new(entries@.len(), |i: int| listing_block(*fmt, entries@, i)),
            lines_view(lines@) == concat_blocks(blocks.take(i as int)),
        decreases n - i,
    {
        let ghost start = lines_view(lines@);
        let chunk = &entries[i].0;
        let new_group = i == 0 || !(chunk.source_path == entries[i - 1].0.source_path);
        if new_group {
            if i > 0 {
                push_line(&mut lines, String::new());
            }
            let header = fmt.bold(chunk.source_path.as_str());
            push_line(&mut lines, header);
        }
        let is_last = i == n - 1 || !(entries[i + 1].0.source_path == chunk.source_path);
        let prefix = fmt.tree_connector(is_last);
        let crumb = fmt.breadcrumb(entries[i].1.as_slice(), chunk.heading.as_str());
        let slug = fmt.slug(chunk.slug.as_str());
        let mut item = concat3(prefix.as_str(), crumb.as_str(), " ");
        item.append(slug.as_str());
        proof {
            reveal_strlit(" ");
        }
        assert(item@ == listing_item(*fmt, entries@[i as int].0, entries@[i as int].1@, is_last));
        assert(new_group == (i == 0 || entry_source(entries@, i as int) != entry_source(entries@, i - 1)));
        assert(is_last == (i == entries@.len() - 1 || entry_source(entries@, i + 1) != entry_source(entries@, i as int)));
        push_line(&mut lines, item);
        proof {
            lemma_concat_blocks_step(blocks, i as int);
            assert(blocks[i as int] == listing_block(*fmt, entries@, i as int));
            assert(lines_view(lines@) =~= start + blocks[i as int]);
        }
        i = i + 1;
    }
    assert(blocks.take(n as int) =~= blocks);
    lines
}

/// The lines printed for result `i` of a detailed search: a box-top banner where the
/// source differs from the previous result's (or, for the first, from the empty path),
/// the breadcrumb and slug, the content after a blank line where there is any, and a
/// blank line.
pub open spec fn detail_block(f: Formatter, entries: Seq<(Chunk, Vec<Chunk>)>, i: int) -> Seq<
    Seq<char>,
> {
    let c = entries[i].0;
    let prev = if i == 0 { Seq::empty() } else { entry_source(entries, i - 1) };
    let banner = if c.source_path@ != prev {
        seq![f.box_top_spec(c.source_path@)]
    } else {
        Seq::empty()
    };
    let body = if c.content@.len() > 0 {
        seq![Seq::empty(), c.content@]
    } else {
        Seq::empty()
    };
    banner + seq![f.breadcrumb_spec(entries[i].1@, c.heading@) + seq![' '] + f.slug_spec(c.slug@)]
        + body + seq![Seq::empty()]
}

pub open spec fn search_detail_spec(f: Formatter, entries: Seq<(Chunk, Vec<Chunk>)>) -> Seq<
    Seq<char>,
> {
    concat_blocks(Seq::new(entries.len(), |i: int| detail_block(f, entries, i)))
}

/// The lines of a detailed search: complete chunk content under a box-top banner per
/// source file.
pub fn search_detail(entries: &Vec<(Chunk, Vec<Chunk>)>, fmt: &Formatter) -> (lines: Vec<String>)
    ensures
        lines_view(lines@) == search_detail_spec(*fmt, entries@),
{
    let ghost blocks = Seq::new(entries@.len(), |i: int| detail_block(*fmt, entries@, i));
    let mut lines: Vec<String> = Vec::new();
    let n = entries.len();
    let mut last_source = String::new();
    let mut i: usize = 0;
    while i < n
        invariant
            i <= n,
            n == entries@.len(),
            blocks == Seq::new(entries@.len(), |i: int| detail_block(*fmt, entries@, i)),
            last_source@ == if i == 0 { Seq::empty() } else { entry_source(entries@, i - 1) },
            lines_view(lines@) == concat_blocks(blocks.take(i as int)),
        decreases n - i,
    {
        let ghost start = lines_view(lines@);
        let chunk = &entries[i].0;
        let ghost prev = last_source@;
        assert(prev == if i == 0 { Seq::<char>::empty() } else { entry_source(entries@, i - 1) });
        if !(chunk.source_path == last_source) {
            let banner = fmt.box_top(chunk.source_path.as_str());
            push_line(&mut lines, banner);
        }
        last_source = chunk.source_path.clone();
        let crumb = fmt.breadcrumb(entries[i].1.as_slice(), chunk.heading.as_str());
        let slug = fmt.slug(chunk.slug.as_str());
        let line = concat3(crumb.as_str(), " ", slug.as_str());
        proof {
            reveal_strlit(" ");
        }
        assert(line@ == fmt.breadcrumb_spec(entries@[i as int].1@, chunk.heading@) + seq![' '] + fmt.slug_spec(chunk.slug@));
        push_line(&mut lines, line);
        if !chunk.content.as_str().is_empty() {
            push_line(&mut lines, String::new());
            push_line(&mut lines, chunk.content.clone());
        }
        push_line(&mut lines, String::new());
        proof {
            lemma_concat_blocks_step(blocks, i as int);
            assert(blocks[i as int] == detail_block(*fmt, entries@, i as int));
            assert(lines_view(lines@) =~= start + blocks[i as int]);
        }
        i = i + 1;
    }
    assert(blocks.take(n as int) =~= blocks);
    lines
}

/// In a detailed search, a result that starts a new source file (the first result, when
/// its path is not empty, or one whose file differs from the previous result's) is printed
/// right under a box-top banner for its file; every result's breadcrumb line is printed.
pub proof fn lemma_detail_banner_before_new_file(
    f: Formatter,
    entries: Seq<(Chunk, Vec<Chunk>)>,
    i: int,
)
    requires
        0 <= i < entries.len(),
    ensures
        ({
            let out = search_detail_spec(f, entries);
            let c = entries[i].0;
            let crumb = f.breadcrumb_spec(entries[i].1@, c.heading@) + seq![' '] + f.slug_spec(
                c.slug@,
            );
            &&& exists|j: int| 0 <= j < out.len() && out[j] == crumb
            &&& ((i == 0 && c.source_path@.len() > 0) || (i > 0 && c.source_path@
                != entries[i - 1].0.source_path@)) ==> exists|j: int|
                0 <= j && j + 1 < out.len() && #[trigger] out[j] == f.box_top_spec(c.source_path@)
                    && out[j + 1] == crumb
        }),
{
    let blocks = Seq::new(entries.len(), |k: int| detail_block(f, entries, k));
    let out = search_detail_spec(f, entries);
    let c = entries[i].0;
    let o = concat_blocks(blocks.take(i)).len() as int;
    let b = blocks[i];
    assert(b == detail_block(f, entries, i));
    let new_file = (i == 0 && c.source_path@.len() > 0) || (i > 0 && c.source_path@
        != entries[i - 1].0.source_path@);
    if new_file {
        if i == 0 {
            assert(c.source_path@ != Seq::<char>::empty());
        }
        lemma_concat_blocks_at(blocks, i, 0);
        lemma_concat_blocks_at(blocks, i, 1);
        assert(out[o + 0] == b[0]);
        assert(out[o + 1] == b[1]);
    } else {
        let k: int = if c.source_path@ != (if i == 0 { Seq::<char>::empty() } else { entry_source(entries, i - 1) }) { 1 } else { 0 };
        lemma_concat_blocks_at(blocks, i, k);
        assert(out[o + k] == b[k]);
    }
    if new_file {
        lemma_concat_blocks_at(blocks, i, 1);
        assert(out[o + 1] == b[1]);
    }
}

/// `· heading [slug]`: a chunk listed under another.
pub open spec fn bullet_spec(f: Formatter, c: Chunk) -> Seq<char> {
    f.dim_spec("·"@) + seq![' '] + f.bold_spec(c.heading@) + seq![' '] + f.slug_spec(c.slug@)
}

fn bullet(fmt: &Formatter, c: &Chunk) -> (s: String)
    ensures
        s@ == bullet_spec(*fmt, *c),
{
    let dot = fmt.dim("·");
    let heading = fmt.bold(c.heading.as_str());
    let slug = fmt.slug(c.slug.as_str());
    let mut s = concat3(dot.as_str(), " ", heading.as_str());
    s.append(" ");
    s.append(slug.as_str());
    proof {
        reveal_strlit(" ");
    }
    s
}

fn push_bullets(lines: &mut Vec<String>, fmt: &Formatter, chunks: &Vec<Chunk>)
    ensures
        lines_view(final(lines)@) == lines_view(old(lines)@) + chunks@.map_values(
            |c: Chunk| bullet_spec(*fmt, c),
        ),
{
    let ghost start = lines_view(lines@);
    let ghost all = chunks@.map_values(|c: Chunk| bullet_spec(*fmt, c));
    let mut i: usize = 0;
    assert(start + all.take(0) =~= start);
    while i < chunks.len()
        invariant
            i <= chunks@.len(),
            all == chunks@.map_values(|c: Chunk| bullet_spec(*fmt, c)),
            lines_view(lines@) == start + all.take(i as int),
        decreases chunks@.len() - i,
    {
        let b = bullet(fmt, &chunks[i]);
        push_line(lines, b);
        assert(start + all.take(i + 1) =~= (start + all.take(i as int)).push(all[i as int]));
        i = i + 1;
    }
    assert(all.take(chunks@.len() as int) =~= all);
}

/// The heading block of `show`: banner, navigation breadcrumb, a blank line, then the
/// content and a blank line where there is any content.
pub open spec fn show_head_spec(f: Formatter, chunk: Chunk, ancestors: Seq<Chunk>) -> Seq<Seq<char>> {
    seq![
        f.box_top_spec(chunk.source_path@),
        f.breadcrumb_nav_spec(ancestors, chunk.heading@),
        Seq::empty(),
    ] + if chunk.content@.len() > 0 {
        seq![chunk.content@, Seq::empty()]
    } else {
        Seq::empty()
    }
}

fn show_head(lines: &mut Vec<String>, fmt: &Formatter, chunk: &Chunk, ancestors: &Vec<Chunk>)
    ensures
        lines_view(final(lines)@) == lines_view(old(lines)@) + show_head_spec(
            *fmt,
            *chunk,
            ancestors@,
        ),
{
    let ghost start = lines_view(lines@);
    let banner = fmt.box_top(chunk.source_path.as_str());
    push_line(lines, banner);
    let nav = fmt.breadcrumb_nav(ancestors.as_slice(), chunk.heading.as_str());
    push_line(lines, nav);
    push_line(lines, String::new());
    if !chunk.content.as_str().is_empty() {
        push_line(lines, chunk.content.clone());
        push_line(lines, String::new());
    }
    assert(lines_view(lines@) =~= start + show_head_spec(*fmt, *chunk, ancestors@));
}

pub open spec fn show_spec(f: Formatter, chunk: Chunk, ancestors: Seq<Chunk>, children: Seq<Chunk>) -> Seq<
    Seq<char>,
> {
    show_head_spec(f, chunk, ancestors) + children.map_values(|c: Chunk| bullet_spec(f, c))
}

/// The lines of `show` for a chunk: its banner, breadcrumb and content, then its child
/// headings with their slugs.
pub fn show_lines(chunk: &Chunk, ancestors: &Vec<Chunk>, children: &Vec<Chunk>, fmt: &Formatter) -> (lines:
    Vec<String>)
    ensures
        lines_view(lines@) == show_spec(*fmt, *chunk, ancestors@, children@),
{
    let mut lines: Vec<String> = Vec::new();
    show_head(&mut lines, fmt, chunk, ancestors);
    push_bullets(&mut lines, fmt, children);
    assert(lines_view(lines@) =~= show_spec(*fmt, *chunk, ancestors@, children@));
    lines
}

pub open spec fn show_source_spec(f: Formatter, target: Seq<char>, roots: Seq<Chunk>) -> Seq<
    Seq<char>,
> {
    seq![f.bold_spec(target)] + roots.map_values(|c: Chunk| bullet_spec(f, c))
}

/// The lines of `show` for a source path: the path in bold, then its top-level headings.
/// `None` where the file has no chunks (the target names no chunk and no file).
pub fn show_source_lines(target: &str, roots: &Vec<Chunk>, fmt: &Formatter) -> (lines: Option<
    Vec<String>,
>)
    ensures
        roots@.len() == 0 ==> lines is None,
        roots@.len() > 0 ==> (lines matches Some(l) && lines_view(l@) == show_source_spec(
            *fmt,
            target@,
            roots@,
        )),
{
    if roots.len() == 0 {
        return None;
    }
    let mut lines: Vec<String> = Vec::new();
    let title = fmt.bold(target);
    push_line(&mut lines, title);
    push_bullets(&mut lines, fmt, roots);
    assert(lines_view(lines@) =~= show_source_spec(*fmt, target@, roots@));
    Some(lines)
}

/// The lines for one descendant in `show --detail`: a section rule, the content after a
/// blank line where there is any, then a blank line; nothing for the shown chunk itself.
pub open spec fn subtree_block(f: Formatter, root_id: i64, c: Chunk) -> Seq<Seq<char>> {
    if c.id == root_id {
        Seq::empty()
    } else {
        seq![f.section_rule_spec(c.heading@)] + (if c.content@.len() > 0 {
            seq![Seq::empty(), c.content@]
        } else {
            Seq::empty()
        }) + seq![Seq::empty()]
    }
}

pub open spec fn show_detail_spec(
    f: Formatter,
    chunk: Chunk,
    ancestors: Seq<Chunk>,
    subtree: Seq<Chunk>,
) -> Seq<Seq<char>> {
    show_head_spec(f, chunk, ancestors) + concat_blocks(
        Seq::new(subtree.len(), |i: int| subtree_block(f, chunk.id, subtree[i])),
    )
}

/// The lines of `show --detail`: the chunk as `show` prints it, then every descendant in
/// document order with its content inlined.
pub fn show_detail_lines(
    chunk: &Chunk,
    ancestors: &Vec<Chunk>,
    subtree: &Vec<Chunk>,
    fmt: &Formatter,
) -> (lines: Vec<String>)
    ensures
        lines_view(lines@) == show_detail_spec(*fmt, *chunk, ancestors@, subtree@),
{
    let mut lines: Vec<String> = Vec::new();
    show_head(&mut lines, fmt, chunk, ancestors);
    let ghost head = lines_view(lines@);
    let ghost blocks = Seq::new(subtree@.len(), |i: int| subtree_block(*fmt, chunk.id, subtree@[i]));
    let mut i: usize = 0;
    while i < subtree.len()
        invariant
            i <= subtree@.len(),
            blocks == Seq::new(subtree@.len(), |i: int| subtree_block(*fmt, chunk.id, subtree@[i])),
            lines_view(lines@) == head + concat_blocks(blocks.take(i as int)),
        decreases subtree@.len() - i,
    {
        let ghost start = lines_view(lines@);
        let child = &subtree[i];
        if child.id != chunk.id {
            let rule = fmt.section_rule(child.heading.as_str());
            push_line(&mut lines, rule);
            if !child.content.as_str().is_empty() {
                push_line(&mut lines, String::new());
                push_line(&mut lines, child.content.clone());
            }
            push_line(&mut lines, String::new());
        }
        proof {
            lemma_concat_blocks_step(blocks, i as int);
            assert(lines_view(lines@) =~= start + blocks[i as int]);
        }
        i = i + 1;
    }
    assert(blocks.take(subtree@.len() as int) =~= blocks);
    lines
}

/// `show --detail` prints every chunk of the subtree other than the shown one, wherever it
/// sits below it: a section rule with its heading, followed (after a blank line) by its
/// content where it has any.
pub proof fn lemma_detail_shows_every_descendant(
    f: Formatter,
    chunk: Chunk,
    ancestors: Seq<Chunk>,
    subtree: Seq<Chunk>,
    k: int,
)
    requires
        0 <= k < subtree.len(),
        subtree[k].id != chunk.id,
    ensures
        ({
            let out = show_detail_spec(f, chunk, ancestors, subtree);
            exists|j: int|
                0 <= j < out.len() && #[trigger] out[j] == f.section_rule_spec(subtree[k].heading@) && (
                subtree[k].content@.len() > 0 ==> j + 2 < out.len() && out[j + 1]
                    == Seq::<char>::empty() && out[j + 2] == subtree[k].content@)
        }),
{
    let blocks = Seq::new(subtree.len(), |i: int| subtree_block(f, chunk.id, subtree[i]));
    let head = show_head_spec(f, chunk, ancestors);
    let rest = concat_blocks(blocks);
    let out = show_detail_spec(f, chunk, ancestors, subtree);
    assert(out == head + rest);
    let b = blocks[k];
    assert(b == subtree_block(f, chunk.id, subtree[k]));
    let o = concat_blocks(blocks.take(k)).len() as int;
    let h = head.len() as int;
    lemma_concat_blocks_at(blocks, k, 0);
    assert(out[h + o] == rest[o]);
    if subtree[k].content@.len() > 0 {
        lemma_concat_blocks_at(blocks, k, 1);
        lemma_concat_blocks_at(blocks, k, 2);
        assert(out[h + o + 1] == rest[o + 1]);
        assert(out[h + o + 2] == rest[o + 2]);
    }
    assert(out[h + o] == f.section_rule_spec(subtree[k].heading@));
}

} // verus!
