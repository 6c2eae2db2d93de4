use vstd::prelude::*;
use vstd::string::*;

use crate::store::Chunk;

verus! {

/// ANSI "dim" attribute.
pub const DIM: &'static str = "\x1b[2m";
/// ANSI "bold" attribute.
pub const BOLD: &'static str = "\x1b[1m";
/// ANSI attribute reset.
pub const RESET: &'static str = "\x1b[0m";
/// Width of a box-top rule, in characters.
pub const RULE_WIDTH: usize = 72;

pub const TREE_BRANCH: &'static str = "├─ ";
pub const TREE_LAST: &'static str = "└─ ";
pub const TREE_PIPE: &'static str = "│  ";
pub const TREE_SPACE: &'static str = "   ";

/// The parts joined in order, with `sep` between neighbours.
pub open spec fn join_spec(parts: Seq<Seq<char>>, sep: Seq<char>) -> Seq<char>
    decreases parts.len(),
{
    if parts.len() == 0 {
        Seq::empty()
    } else if parts.len() == 1 {
        parts[0]
    } else {
        join_spec(parts.drop_last(), sep) + sep + parts.last()
    }
}

/// The characters of each string.
pub open spec fn string_views(v: Seq<String>) -> Seq<Seq<char>> {
    v.map_values(|s: String| s@)
}

/// Joins `parts` with `sep` between neighbours.
pub fn join_strings(parts: &Vec<String>, sep: &str) -> (r: String)
    ensures
        r@ == join_spec(string_views(parts@), sep@),
{
    let mut r = String::new();
    let ghost views = string_views(parts@);
    let mut i: usize = 0;
    while i < parts.len()
        invariant
            i <= parts.len(),
            views == string_views(parts@),
            r@ == join_spec(views.take(i as int), sep@),
        decreases parts.len() - i,
    {
        if i > 0 {
            r.append(sep);
        }
        r.append(parts[i].as_str());
        assert(views.take(i + 1).drop_last() =~= views.take(i as int));
        assert(views.take(i + 1).last() == parts@[i as int]@);
        i = i + 1;
    }
    assert(views.take(parts.len() as int) =~= views);
    r
}

/// Renders text for the terminal: with ANSI attributes, or plain when output is piped.
pub struct Formatter {
    use_color: bool,
}

/// `text` wrapped in `code` and a reset when colour is on.
pub open spec fn styled(use_color: bool, code: Seq<char>, text: Seq<char>) -> Seq<char> {
    if use_color {
        code + text + RESET@
    } else {
        text
    }
}

/// Fill length of a box-top rule after a label of `label_len` characters.
pub open spec fn box_fill_len(label_len: int) -> int {
    let used = 3 + label_len + 1;
    let rest = if RULE_WIDTH >= used { RULE_WIDTH - used } else { 0 };
    if rest > 2 { rest } else { 2 }
}

/// `c` repeated `n` times.
pub open spec fn repeat_spec(c: Seq<char>, n: nat) -> Seq<char>
    decreases n,
{
    if n == 0 {
        Seq::empty()
    } else {
        repeat_spec(c, (n - 1) as nat) + c
    }
}

impl Formatter {
    /// Whether ANSI attributes are emitted.
    pub closed spec fn colored(&self) -> bool {
        self.use_color
    }

    /// A formatter that emits ANSI attributes exactly when `use_color` holds.
    pub fn new(use_color: bool) -> (f: Formatter)
        ensures
            f.colored() == use_color,
    {
        Formatter { use_color }
    }

    pub open spec fn dim_spec(&self, text: Seq<char>) -> Seq<char> {
        styled(self.colored(), DIM@, text)
    }

    pub open spec fn bold_spec(&self, text: Seq<char>) -> Seq<char> {
        styled(self.colored(), BOLD@, text)
    }

    pub open spec fn slug_spec(&self, slug: Seq<char>) -> Seq<char> {
        self.dim_spec(seq!['['] + slug + seq![']'])
    }

    pub open spec fn tree_connector_spec(&self, is_last: bool) -> Seq<char> {
        self.dim_spec(if is_last { TREE_LAST@ } else { TREE_BRANCH@ })
    }

    pub open spec fn tree_indent_spec(&self, has_more: bool) -> Seq<char> {
        self.dim_spec(if has_more { TREE_PIPE@ } else { TREE_SPACE@ })
    }

    pub open spec fn section_rule_spec(&self, heading: Seq<char>) -> Seq<char> {
        self.dim_spec("──"@) + seq![' '] + self.bold_spec(heading)
    }

    pub open spec fn box_top_spec(&self, source_path: Seq<char>) -> Seq<char> {
        self.dim_spec("──"@) + seq![' '] + self.bold_spec(source_path) + seq![' ']
            + self.dim_spec(repeat_spec("─"@, box_fill_len(source_path.len() as int) as nat))
    }

    /// Each ancestor heading in bold, then the heading in bold.
    pub open spec fn crumb_parts(&self, ancestors: Seq<Chunk>, heading: Seq<char>) -> Seq<Seq<char>> {
        ancestors.map_values(|a: Chunk| self.bold_spec(a.heading@)).push(self.bold_spec(heading))
    }

    pub open spec fn breadcrumb_spec(&self, ancestors: Seq<Chunk>, heading: Seq<char>) -> Seq<char> {
        join_spec(self.crumb_parts(ancestors, heading), self.dim_spec(" > "@))
    }

    /// Like `crumb_parts`, with the immediate parent followed by its slug.
    pub open spec fn nav_parts(&self, ancestors: Seq<Chunk>, heading: Seq<char>) -> Seq<Seq<char>> {
        Seq::new(
            ancestors.len(),
            |i: int|
                if i == ancestors.len() - 1 {
                    self.bold_spec(ancestors[i].heading@) + seq![' '] + self.slug_spec(
                        ancestors[i].slug@,
                    )
                } else {
                    self.bold_spec(ancestors[i].heading@)
                },
        ).push(self.bold_spec(heading))
    }

    pub open spec fn breadcrumb_nav_spec(&self, ancestors: Seq<Chunk>, heading: Seq<char>) -> Seq<
        char,
    > {
        join_spec(self.nav_parts(ancestors, heading), self.dim_spec(" > "@))
    }

    fn styled_exec(&self, code: &str, text: &str) -> (s: String)
        ensures
            s@ == styled(self.colored(), code@, text@),
    {
        if self.use_color {
            let mut s = String::new();
            s.append(code);
            s.append(text);
            s.append(RESET);
            s
        } else {
            text.to_owned()
        }
    }

    /// `text` in the dim attribute.
    pub fn dim(&self, text: &str) -> (s: String)
        ensures
            s@ == self.dim_spec(text@),
    {
        self.styled_exec(DIM, text)
    }

    /// `text` in the bold attribute.
    pub fn bold(&self, text: &str) -> (s: String)
        ensures
            s@ == self.bold_spec(text@),
    {
        self.styled_exec(BOLD, text)
    }

    /// `[slug]`, dimmed.
    pub fn slug(&self, slug: &str) -> (s: String)
        ensures
            s@ == self.slug_spec(slug@),
    {
        let mut t = String::new();
        t.append("[");
        t.append(slug);
        t.append("]");
        proof {
            reveal_strlit("[");
            reveal_strlit("]");
        }
        self.dim(t.as_str())
    }

    /// The branch drawn before a tree item.
    pub fn tree_connector(&self, is_last: bool) -> (s: String)
        ensures
            s@ == self.tree_connector_spec(is_last),
    {
        self.dim(if is_last { TREE_LAST } else { TREE_BRANCH })
    }

    /// The indentation drawn for an ancestor level of a tree item.
    pub fn tree_indent(&self, has_more: bool) -> (s: String)
        ensures
            s@ == self.tree_indent_spec(has_more),
    {
        self.dim(if has_more { TREE_PIPE } else { TREE_SPACE })
    }

    /// Leading rule: `── heading`.
    pub fn section_rule(&self, heading: &str) -> (s: String)
        ensures
            s@ == self.section_rule_spec(heading@),
    {
        let mut s = self.dim("──");
        s.append(" ");
        let b = self.bold(heading);
        s.append(b.as_str());
        proof {
            reveal_strlit(" ");
        }
        s
    }

    /// Box-top rule: `── source_path ─────────────`, rule dim and path bold.
    pub fn box_top(&self, source_path: &str) -> (s: String)
        ensures
            s@ == self.box_top_spec(source_path@),
    {
        let count = source_path.unicode_len();
        let fill_len: usize = if count < 66 { 68 - count } else { 2 };
        assert(fill_len == box_fill_len(count as int));
        let mut fill = String::new();
        let mut i: usize = 0;
        while i < fill_len
            invariant
                i <= fill_len,
                fill@ == repeat_spec("─"@, i as nat),
            decreases fill_len - i,
        {
            fill.append("─");
            i = i + 1;
        }
        let mut s = self.dim("──");
        s.append(" ");
        let label = self.bold(source_path);
        s.append(label.as_str());
        s.append(" ");
        let rule = self.dim(fill.as_str());
        s.append(rule.as_str());
        proof {
            reveal_strlit(" ");
        }
        s
    }

    /// Breadcrumb with bold headings and dim `>` separators.
    pub fn breadcrumb(&self, ancestors: &[Chunk], heading: &str) -> (s: String)
        ensures
            s@ == self.breadcrumb_spec(ancestors@, heading@),
    {
        let sep = self.dim(" > ");
        let mut parts: Vec<String> = Vec::new();
        let mut i: usize = 0;
        while i < ancestors.len()
            invariant
                i <= ancestors@.len(),
                parts@.len() == i,
                forall|k: int|
                    0 <= k < i ==> #[trigger] parts@[k]@ == self.bold_spec(ancestors@[k].heading@),
            decreases ancestors@.len() - i,
        {
            let b = self.bold(ancestors[i].heading.as_str());
            parts.push(b);
            i = i + 1;
        }
        let last = self.bold(heading);
        parts.push(last);
        assert(string_views(parts@) =~= self.crumb_parts(ancestors@, heading@));
        join_strings(&parts, sep.as_str())
    }

    /// Breadcrumb with the immediate parent's slug, for navigation.
    pub fn breadcrumb_nav(&self, ancestors: &[Chunk], heading: &str) -> (s: String)
        ensures
            s@ == self.breadcrumb_nav_spec(ancestors@, heading@),
    {
        let sep = self.dim(" > ");
        let mut parts: Vec<String> = Vec::new();
        let n = ancestors.len();
        let ghost expected = self.nav_parts(ancestors@, heading@);
        let mut i: usize = 0;
        while i < n
            invariant
                i <= n,
                n == ancestors@.len(),
                expected == self.nav_parts(ancestors@, heading@),
                parts@.len() == i,
                forall|k: int| 0 <= k < i ==> #[trigger] parts@[k]@ == expected[k],
            decreases n - i,
        {
            if i == n - 1 {
                let mut p = self.bold(ancestors[i].heading.as_str());
                p.append(" ");
                let sl = self.slug(ancestors[i].slug.as_str());
                p.append(sl.as_str());
                proof {
                    reveal_strlit(" ");
                }
                parts.push(p);
            } else {
                let p = self.bold(ancestors[i].heading.as_str());
                parts.push(p);
            }
            i = i + 1;
        }
        let last = self.bold(heading);
        parts.push(last);
        assert(string_views(parts@) =~= expected);
        join_strings(&parts, sep.as_str())
    }
}

/// The part of `t` after its last `#`; all of `t` where it holds none.
pub open spec fn after_last_hash(t: Seq<char>) -> Seq<char>
    decreases t.len(),
{
    if t.len() == 0 {
        t
    } else if t.last() == '#' {
        Seq::empty()
    } else {
        after_last_hash(t.drop_last()).push(t.last())
    }
}

/// `s` without one pair of enclosing square brackets, where it has them.
pub open spec fn unbracket(s: Seq<char>) -> Seq<char> {
    if s.len() >= 2 && s[0] == '[' && s.last() == ']' {
        s.subrange(1, s.len() - 1)
    } else {
        s
    }
}

/// The slug that a `show` target names: bare, `[slug]`, `path#slug` or `path#[slug]`.
pub open spec fn parse_slug_spec(target: Seq<char>) -> Seq<char> {
    unbracket(after_last_hash(target))
}

/// Strips slug delimiters so `show` accepts bare slugs, `[slug]`, or `path#slug`.
pub fn parse_slug(target: &str) -> (s: &str)
    ensures
        s@ == parse_slug_spec(target@),
{
    let n = target.unicode_len();
    let mut k: usize = n;
    assert(target@.subrange(0, n as int) =~= target@);
    assert(target@ + target@.subrange(n as int, n as int) =~= target@);
    while k > 0 && target.get_char(k - 1) != '#'
        invariant
            k <= n,
            n == target@.len(),
            after_last_hash(target@) == after_last_hash(target@.subrange(0, k as int))
                + target@.subrange(k as int, n as int),
        decreases k,
    {
        let ghost pre = target@.subrange(0, k as int);
        assert(pre.drop_last() =~= target@.subrange(0, k - 1));
        assert(target@.subrange(k - 1, n as int) =~= seq![pre.last()] + target@.subrange(
            k as int,
            n as int,
        ));
        assert(after_last_hash(pre) == after_last_hash(pre.drop_last()).push(pre.last()));
        assert(after_last_hash(pre.drop_last()).push(pre.last()) + target@.subrange(
            k as int,
            n as int,
        ) =~= after_last_hash(pre.drop_last()) + target@.subrange(k - 1, n as int));
        k = k - 1;
    }
    assert(after_last_hash(target@) =~= target@.subrange(k as int, n as int));
    let s = target.substring_char(k, n);
    let m = n - k;
    if m >= 2 && s.get_char(0) == '[' && s.get_char(m - 1) == ']' {
        s.substring_char(1, m - 1)
    } else {
        s
    }
}

/// A slug without `#` is accepted bare, unless it is itself enclosed in brackets.
pub proof fn lemma_parse_slug_bare(slug: Seq<char>)
    requires
        !slug.contains('#'),
        !(slug.len() >= 2 && slug[0] == '[' && slug.last() == ']'),
    ensures
        parse_slug_spec(slug) == slug,
{
    lemma_after_last_hash_no_hash(slug);
}

/// `[slug]` names `slug`, for any slug without `#`.
pub proof fn lemma_parse_slug_bracketed(slug: Seq<char>)
    requires
        !slug.contains('#'),
    ensures
        parse_slug_spec(seq!['['] + slug + seq![']']) == slug,
{
    let t = seq!['['] + slug + seq![']'];
    assert forall|i: int| 0 <= i < t.len() implies t[i] != '#' by {
        if 1 <= i < t.len() - 1 {
            assert(t[i] == slug[i - 1]);
        }
    }
    assert(!t.contains('#'));
    lemma_after_last_hash_no_hash(t);
    assert(t.subrange(1, t.len() - 1) =~= slug);
}

/// `path#target` names the same slug as `target`, whatever the path.
pub proof fn lemma_parse_slug_path(path: Seq<char>, target: Seq<char>)
    requires
        !target.contains('#'),
    ensures
        parse_slug_spec(path + seq!['#'] + target) == parse_slug_spec(target),
{
    lemma_after_last_hash_suffix(path + seq!['#'], target);
    lemma_after_last_hash_no_hash(target);
    let p = path + seq!['#'];
    assert(p.drop_last() =~= path);
    assert(after_last_hash(p) == Seq::<char>::empty());
    assert(Seq::<char>::empty() + target =~= target);
}

/// What a plain (uncoloured) formatter prints as a slug is accepted back by `show`.
pub proof fn lemma_parse_printed_slug(f: Formatter, slug: Seq<char>)
    requires
        !f.colored(),
        !slug.contains('#'),
    ensures
        parse_slug_spec(f.slug_spec(slug)) == slug,
{
    lemma_parse_slug_bracketed(slug);
}

proof fn lemma_repeat_len(c: Seq<char>, n: nat)
    requires
        c.len() == 1,
    ensures
        repeat_spec(c, n).len() == n,
    decreases n,
{
    if n > 0 {
        lemma_repeat_len(c, (n - 1) as nat);
    }
}

/// A plain box-top rule is as wide as the rule width, or, for a path too long to leave room,
/// the path with its frame and two rule characters.
pub proof fn lemma_box_top_width(f: Formatter, source_path: Seq<char>)
    requires
        !f.colored(),
    ensures
        f.box_top_spec(source_path).len() == if source_path.len() + 6 <= RULE_WIDTH {
            RULE_WIDTH as int
        } else {
            source_path.len() + 6int
        },
{
    reveal_strlit("──");
    reveal_strlit("─");
    lemma_repeat_len("─"@, box_fill_len(source_path.len() as int) as nat);
}

proof fn lemma_after_last_hash_no_hash(t: Seq<char>)
    requires
        !t.contains('#'),
    ensures
        after_last_hash(t) == t,
    decreases t.len(),
{
    if t.len() > 0 {
        assert(t.last() == t[t.len() - 1]);
        assert(!t.drop_last().contains('#')) by {
            assert forall|i: int| 0 <= i < t.drop_last().len() implies t.drop_last()[i] != '#' by {
                assert(t.drop_last()[i] == t[i]);
            }
        }
        lemma_after_last_hash_no_hash(t.drop_last());
        assert(t.drop_last().push(t.last()) =~= t);
    }
}

proof fn lemma_after_last_hash_suffix(p: Seq<char>, t: Seq<char>)
    requires
        !t.contains('#'),
    ensures
        after_last_hash(p + t) == after_last_hash(p) + t,
    decreases t.len(),
{
    if t.len() == 0 {
        assert(p + t =~= p);
        assert(after_last_hash(p) + t =~= after_last_hash(p));
    } else {
        let u = p + t;
        assert(u.last() == t.last());
        assert(t.last() == t[t.len() - 1]);
        assert(u.drop_last() =~= p + t.drop_last());
        assert(!t.drop_last().contains('#')) by {
            assert forall|i: int| 0 <= i < t.drop_last().len() implies t.drop_last()[i] != '#' by {
                assert(t.drop_last()[i] == t[i]);
            }
        }
        lemma_after_last_hash_suffix(p, t.drop_last());
        assert((after_last_hash(p) + t.drop_last()).push(t.last()) =~= after_last_hash(p) + t);
    }
}

} // verus!
