use vstd::prelude::*;
use vstd::string::*;
use vstd::utf8::*;

verus! {

broadcast use vstd::utf8::group_utf8_lib;

/// Unicode `White_Space`: the characters that `char::is_whitespace` accepts.
pub open spec fn is_white_space_spec(c: char) -> bool {
    ||| ('\u{9}' <= c && c <= '\u{d}')
    ||| c == ' '
    ||| c == '\u{85}'
    ||| c == '\u{a0}'
    ||| c == '\u{1680}'
    ||| ('\u{2000}' <= c && c <= '\u{200a}')
    ||| c == '\u{2028}'
    ||| c == '\u{2029}'
    ||| c == '\u{202f}'
    ||| c == '\u{205f}'
    ||| c == '\u{3000}'
}

/// Whether `c` has the Unicode `White_Space` property.
pub fn is_white_space(c: char) -> (b: bool)
    ensures
        b == is_white_space_spec(c),
{
    ('\u{9}' <= c && c <= '\u{d}') || c == ' ' || c == '\u{85}' || c == '\u{a0}' || c == '\u{1680}'
        || ('\u{2000}' <= c && c <= '\u{200a}') || c == '\u{2028}' || c == '\u{2029}' || c
        == '\u{202f}' || c == '\u{205f}' || c == '\u{3000}'
}

/// `s` without its leading white space.
pub open spec fn trim_start_spec(s: Seq<char>) -> Seq<char>
    decreases s.len(),
{
    if s.len() > 0 && is_white_space_spec(s[0]) {
        trim_start_spec(s.drop_first())
    } else {
        s
    }
}

/// `s` without its trailing white space.
pub open spec fn trim_end_spec(s: Seq<char>) -> Seq<char>
    decreases s.len(),
{
    if s.len() > 0 && is_white_space_spec(s.last()) {
        trim_end_spec(s.drop_last())
    } else {
        s
    }
}

/// `s` without leading and trailing white space.
pub open spec fn trim_spec(s: Seq<char>) -> Seq<char> {
    trim_end_spec(trim_start_spec(s))
}

/// Removes leading and trailing Unicode white space.
pub fn trim(s: &str) -> (t: &str)
    ensures
        t@ == trim_spec(s@),
{
    let n = s.unicode_len();
    let mut i: usize = 0;
    assert(s@.subrange(0, n as int) =~= s@);
    while i < n && is_white_space(s.get_char(i))
        invariant
            i <= n,
            n == s@.len(),
            trim_start_spec(s@) == trim_start_spec(s@.subrange(i as int, n as int)),
        decreases n - i,
    {
        assert(s@.subrange(i as int, n as int).drop_first() =~= s@.subrange(i + 1, n as int));
        i = i + 1;
    }
    assert(trim_start_spec(s@) == s@.subrange(i as int, n as int));
    let ghost front = s@.subrange(i as int, n as int);
    let mut j: usize = n;
    while j > i && is_white_space(s.get_char(j - 1))
        invariant
            i <= j <= n,
            n == s@.len(),
            front == s@.subrange(i as int, n as int),
            trim_end_spec(front) == trim_end_spec(s@.subrange(i as int, j as int)),
        decreases j - i,
    {
        assert(s@.subrange(i as int, j as int).drop_last() =~= s@.subrange(i as int, j - 1));
        j = j - 1;
    }
    s.substring_char(i, j)
}

/// The characters encoded by bytes `a..b` of the UTF-8 encoding of `s`, or nothing where
/// that range is not a slice of `s`.
pub open spec fn byte_range_spec(s: Seq<char>, a: int, b: int) -> Seq<char> {
    let bytes = encode_utf8(s);
    if 0 <= a <= b <= bytes.len() && is_char_boundary(bytes, a) && is_char_boundary(bytes, b) {
        decode_utf8(bytes.subrange(a, b))
    } else {
        Seq::empty()
    }
}

proof fn lemma_boundary_in_prefix(bytes: Seq<u8>, a: int, b: int)
    requires
        valid_utf8(bytes),
        0 <= a <= b <= bytes.len(),
        is_char_boundary(bytes, a),
        is_char_boundary(bytes, b),
    ensures
        valid_utf8(bytes.subrange(0, b)),
        is_char_boundary(bytes.subrange(0, b), a),
{
    broadcast use valid_utf8_split, is_char_boundary_iff_not_is_continuation_byte,
        is_char_boundary_start_end_of_seq;

    let pre = bytes.subrange(0, b);
    assert(valid_utf8(pre));
    if a == 0 {
    } else if a == b {
        assert(is_char_boundary(pre, pre.len() as int));
    } else {
        assert(pre[a] == bytes[a]);
        assert(!is_continuation_byte(bytes[a]));
        assert(is_char_boundary(pre, a));
    }
}

/// The slice of `s` between byte offsets `a` and `b`; empty where those offsets do not
/// delimit a slice of `s`.
pub fn byte_range(s: &str, a: usize, b: usize) -> (t: &str)
    ensures
        t@ == byte_range_spec(s@, a as int, b as int),
{
    let ghost bytes = s.spec_bytes();
    let len = s.as_bytes().len();
    if a <= b && b <= len && s.is_char_boundary(a) && s.is_char_boundary(b) {
        proof {
            lemma_boundary_in_prefix(bytes, a as int, b as int);
        }
        let (left, _) = s.split_at(b);
        let (_, mid) = left.split_at(a);
        assert(mid.spec_bytes() =~= bytes.subrange(a as int, b as int));
        assert(decode_utf8(encode_utf8(mid@)) == mid@);
        mid
    } else {
        proof {
            reveal_strlit("");
        }
        ""
    }
}

/// Whether `s` begins with `prefix`.
pub fn starts_with(s: &str, prefix: &str) -> (b: bool)
    ensures
        b == prefix@.is_prefix_of(s@),
{
    let n = s.unicode_len();
    let m = prefix.unicode_len();
    if m > n {
        return false;
    }
    let head = s.substring_char(0, m).to_owned();
    let p = prefix.to_owned();
    let eq = head == p;
    assert(eq == (s@.subrange(0, m as int) == prefix@));
    if !eq {
        assert(!(s@.subrange(0, m as int) =~= prefix@));
    }
    eq
}

/// The Unicode lowercase mapping of `s`, as `str::to_lowercase` computes it.
pub uninterp spec fn lowercase(s: Seq<char>) -> Seq<char>;

/// Computes `str::to_lowercase`: `s` with every character mapped to its Unicode lowercase
/// form. The contract names the result `lowercase(s)` and claims nothing more of it.
#[verifier::external_body]
pub(crate) fn to_lowercase(s: &str) -> (r: String)
    ensures
        r@ == lowercase(s@),
{
    s.to_lowercase()
}

/// `needle` occurs in `haystack` as a contiguous run of characters.
pub open spec fn contains_spec(haystack: Seq<char>, needle: Seq<char>) -> bool {
    exists|i: int|
        0 <= i <= haystack.len() - needle.len() && #[trigger] haystack.subrange(i, i + needle.len())
            == needle
}

/// Whether `needle` occurs in `haystack`.
pub fn contains(haystack: &str, needle: &str) -> (b: bool)
    ensures
        b == contains_spec(haystack@, needle@),
{
    let n = haystack.unicode_len();
    let m = needle.unicode_len();
    if m > n {
        return false;
    }
    if m == 0 {
        assert(haystack@.subrange(0, 0int + needle@.len()) =~= needle@);
        return true;
    }
    let target = needle.to_owned();
    let mut i: usize = 0;
    while i <= n - m
        invariant
            1 <= m <= n,
            n == haystack@.len(),
            m == needle@.len(),
            target@ == needle@,
            i <= n - m + 1,
            forall|j: int| 0 <= j < i ==> #[trigger] haystack@.subrange(j, j + m) != needle@,
        decreases n - m + 1 - i,
    {
        let window = haystack.substring_char(i, i + m).to_owned();
        if window == target {
            assert(haystack@.subrange(i as int, i + m) == needle@);
            return true;
        }
        i = i + 1;
    }
    false
}

} // verus!
