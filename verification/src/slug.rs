use vstd::prelude::*;
use vstd::string::*;
use vstd::utf8::*;
use vstd::wrapping::u64_specs;

use sha2::{Digest, Sha256};

use crate::format::{lemma_parse_printed_slug, lemma_parse_slug_bare, parse_slug_spec, Formatter};

verus! {

/// The base-36 alphabet, lowest digit first.
pub const BASE36_DIGITS: &'static str = "0123456789abcdefghijklmnopqrstuvwxyz";

/// The `len` lowest base-36 digits of `num`, least significant first.
pub open spec fn base36_spec(num: nat, len: nat) -> Seq<char>
    decreases len,
{
    if len == 0 {
        Seq::empty()
    } else {
        seq![BASE36_DIGITS@[(num % 36) as int]] + base36_spec(num / 36, (len - 1) as nat)
    }
}

/// Encodes the `len` lowest base-36 digits of `num`, least significant digit first.
pub fn to_base36(num: u64, len: usize) -> (s: String)
    ensures
        s@ == base36_spec(num as nat, len as nat),
{
    proof {
        reveal_strlit("0123456789abcdefghijklmnopqrstuvwxyz");
        assert(BASE36_DIGITS.is_ascii());
    }
    let mut result = String::new();
    let mut n = num;
    let mut i: usize = 0;
    while i < len
        invariant
            i <= len,
            BASE36_DIGITS@ == "0123456789abcdefghijklmnopqrstuvwxyz"@,
            BASE36_DIGITS@.len() == 36,
            BASE36_DIGITS.is_ascii(),
            result@ + base36_spec(n as nat, (len - i) as nat) == base36_spec(num as nat, len as nat),
        decreases len - i,
    {
        let d: usize = (n % 36) as usize;
        let digit = BASE36_DIGITS.substring_ascii(d, d + 1);
        let ghost before = result@;
        result.append(digit);
        assert(base36_spec(n as nat, (len - i) as nat) == seq![BASE36_DIGITS@[d as int]]
            + base36_spec((n / 36) as nat, (len - i - 1) as nat));
        assert(digit@ == seq![BASE36_DIGITS@[d as int]]);
        assert(result@ + base36_spec((n / 36) as nat, (len - i - 1) as nat) == before + (seq![BASE36_DIGITS@[d as int]] + base36_spec((n / 36) as nat, (len - i - 1) as nat)));
        n = n / 36;
        i = i + 1;
    }
    result
}

/// The SHA-256 digest of `data`.
pub uninterp spec fn sha256_spec(data: Seq<u8>) -> Seq<u8>;

/// Computes `<sha2::Sha256 as Digest>::digest(data)`: the 32-byte SHA-256 digest. The
/// contract names the digest `sha256_spec(data)` and states its length, which the crate
/// fixes at 32 bytes.
#[verifier::external_body]
fn sha256_digest(data: &[u8]) -> (d: Vec<u8>)
    ensures
        d@ == sha256_spec(data@),
        d@.len() == 32,
{
    <Sha256 as Digest>::digest(data).to_vec()
}

/// The lowercase hexadecimal digits.
pub const HEX_DIGITS: &'static str = "0123456789abcdef";

/// Lowercase hexadecimal encoding, two digits per byte, high digit first.
pub open spec fn hex_spec(bytes: Seq<u8>) -> Seq<char>
    decreases bytes.len(),
{
    if bytes.len() == 0 {
        Seq::empty()
    } else {
        hex_spec(bytes.drop_last()) + seq![
            HEX_DIGITS@[(bytes.last() / 16) as int],
            HEX_DIGITS@[(bytes.last() % 16) as int],
        ]
    }
}

/// Lowercase hexadecimal encoding of `bytes`.
pub fn to_hex(bytes: &[u8]) -> (s: String)
    ensures
        s@ == hex_spec(bytes@),
{
    proof {
        reveal_strlit("0123456789abcdef");
        assert(HEX_DIGITS.is_ascii());
    }
    let mut s = String::new();
    let mut i: usize = 0;
    while i < bytes.len()
        invariant
            i <= bytes@.len(),
            HEX_DIGITS@ == "0123456789abcdef"@,
            HEX_DIGITS@.len() == 16,
            HEX_DIGITS.is_ascii(),
            s@ == hex_spec(bytes@.subrange(0, i as int)),
        decreases bytes@.len() - i,
    {
        let b = bytes[i];
        let hi: usize = (b / 16) as usize;
        let lo: usize = (b % 16) as usize;
        s.append(HEX_DIGITS.substring_ascii(hi, hi + 1));
        s.append(HEX_DIGITS.substring_ascii(lo, lo + 1));
        let ghost pre = bytes@.subrange(0, i + 1);
        assert(pre.drop_last() =~= bytes@.subrange(0, i as int));
        assert(pre.last() == b);
        i = i + 1;
    }
    assert(bytes@.subrange(0, bytes@.len() as int) =~= bytes@);
    s
}

/// The SHA-256 digest of the UTF-8 encoding of `content`, in lowercase hexadecimal.
pub open spec fn sha256_hex_spec(content: Seq<char>) -> Seq<char> {
    hex_spec(sha256_spec(encode_utf8(content)))
}

/// Content hash of a source file: SHA-256 of its text, in lowercase hexadecimal.
pub fn sha256_hex(content: &str) -> (h: String)
    ensures
        h@ == sha256_hex_spec(content@),
        h@.len() == 64,
{
    let digest = sha256_digest(content.as_bytes());
    proof {
        lemma_hex_len(digest@);
    }
    to_hex(digest.as_slice())
}

proof fn lemma_hex_len(bytes: Seq<u8>)
    ensures
        hex_spec(bytes).len() == 2 * bytes.len(),
    decreases bytes.len(),
{
    if bytes.len() > 0 {
        lemma_hex_len(bytes.drop_last());
    }
}

/// The `n` lowest bytes of `v`, least significant first.
pub open spec fn le_bytes_spec(v: nat, n: nat) -> Seq<u8>
    decreases n,
{
    if n == 0 {
        Seq::empty()
    } else {
        seq![(v % 256) as u8] + le_bytes_spec(v / 256, (n - 1) as nat)
    }
}

/// The little-endian value of `b`.
pub open spec fn le_value(b: Seq<u8>) -> nat
    decreases b.len(),
{
    if b.len() == 0 {
        0
    } else {
        b[0] as nat + 256 * le_value(b.drop_first())
    }
}

fn push_le_bytes(buf: &mut Vec<u8>, v: u64)
    ensures
        final(buf)@ == old(buf)@ + le_bytes_spec(v as nat, 8),
{
    let ghost start = buf@;
    let mut x = v;
    let mut k: usize = 0;
    while k < 8
        invariant
            k <= 8,
            buf@ + le_bytes_spec(x as nat, (8 - k) as nat) == start + le_bytes_spec(v as nat, 8),
        decreases 8 - k,
    {
        let ghost before = buf@;
        buf.push((x % 256) as u8);
        assert(le_bytes_spec(x as nat, (8 - k) as nat) == seq![(x % 256) as u8] + le_bytes_spec(
            (x / 256) as nat,
            (8 - k - 1) as nat,
        ));
        assert(buf@ + le_bytes_spec((x / 256) as nat, (8 - k - 1) as nat) =~= before
            + le_bytes_spec(x as nat, (8 - k) as nat));
        x = x / 256;
        k = k + 1;
    }
    assert(buf@ + le_bytes_spec(x as nat, 0) =~= buf@);
}

fn push_bytes(buf: &mut Vec<u8>, bytes: &[u8])
    ensures
        final(buf)@ == old(buf)@ + bytes@,
{
    let ghost start = buf@;
    let mut i: usize = 0;
    while i < bytes.len()
        invariant
            i <= bytes@.len(),
            buf@ == start + bytes@.subrange(0, i as int),
        decreases bytes@.len() - i,
    {
        buf.push(bytes[i]);
        assert(start + bytes@.subrange(0, i + 1) =~= (start + bytes@.subrange(0, i as int)).push(
            bytes@[i as int],
        ));
        i = i + 1;
    }
    assert(bytes@.subrange(0, bytes@.len() as int) =~= bytes@);
}

proof fn lemma_le_value_step(b: Seq<u8>, k: int)
    requires
        0 <= k < b.len(),
    ensures
        le_value(b.subrange(k, b.len() as int)) == b[k] as nat + 256 * le_value(
            b.subrange(k + 1, b.len() as int),
        ),
{
    assert(b.subrange(k, b.len() as int).drop_first() =~= b.subrange(k + 1, b.len() as int));
}

/// 256 to the power `n`.
pub open spec fn pow256(n: nat) -> nat
    decreases n,
{
    if n == 0 {
        1
    } else {
        256 * pow256((n - 1) as nat)
    }
}

proof fn lemma_pow256_bound(n: nat)
    requires
        n <= 8,
    ensures
        pow256(n) <= 0x1_0000_0000_0000_0000,
    decreases 8 - n,
{
    reveal_with_fuel(pow256, 9);
    if n < 8 {
        lemma_pow256_bound((n + 1) as nat);
        assert(pow256((n + 1) as nat) == 256 * pow256(n));
    }
}

/// The little-endian `u64` in bytes `from..from + 8` of `b`.
fn read_le_u64(b: &[u8], from: usize) -> (v: u64)
    requires
        from + 8 <= b@.len(),
    ensures
        v as nat == le_value(b@.subrange(from as int, from + 8)),
{
    let ghost w = b@.subrange(from as int, from + 8);
    let total = b.len();
    let mut v: u64 = 0;
    let mut k: usize = 8;
    assert(w.subrange(8, 8) =~= Seq::<u8>::empty());
    while k > 0
        invariant
            k <= 8,
            from + 8 <= b@.len(),
            total == b@.len(),
            w == b@.subrange(from as int, from + 8),
            v as nat == le_value(w.subrange(k as int, 8)),
            v < pow256((8 - k) as nat),
        decreases k,
    {
        proof {
            lemma_le_value_step(w, k - 1);
            assert(w.subrange(k - 1, w.len() as int) == w.subrange(k - 1, 8));
            let p = pow256((8 - k) as nat);
            assert(pow256((9 - k) as nat) == 256 * p);
            lemma_pow256_bound((9 - k) as nat);
            assert(v * 256 + 255 < p * 256) by (nonlinear_arith)
                requires
                    v < p,
            ;
        }
        let byte = b[from + (k - 1)];
        v = v * 256 + byte as u64;
        k = k - 1;
    }
    assert(w.subrange(0, 8) =~= w);
    v
}

/// The bytes hashed to seed a chunk's slug: source path, heading, then the parent id
/// (-1 for none) as 8 little-endian bytes.
pub open spec fn slug_seed_bytes(source_path: Seq<char>, heading: Seq<char>, parent_id: Option<
    i64,
>) -> Seq<u8> {
    let p: i64 = match parent_id {
        Some(p) => p,
        None => -1i64,
    };
    encode_utf8(source_path) + encode_utf8(heading) + le_bytes_spec((p as u64) as nat, 8)
}

/// The start value and stride of a chunk's slug candidates: the first two little-endian
/// `u64` words of the SHA-256 digest of its seed bytes.
pub open spec fn slug_seed_spec(source_path: Seq<char>, heading: Seq<char>, parent_id: Option<i64>) -> (
    u64,
    u64,
) {
    let h = sha256_spec(slug_seed_bytes(source_path, heading, parent_id));
    (le_value(h.subrange(0, 8)) as u64, le_value(h.subrange(8, 16)) as u64)
}

/// The SHA-256 digest of a chunk's seed bytes.
fn seed_digest(source_path: &str, heading: &str, parent_id: Option<i64>) -> (d: Vec<u8>)
    ensures
        d@ == sha256_spec(slug_seed_bytes(source_path@, heading@, parent_id)),
        d@.len() == 32,
{
    let mut buf: Vec<u8> = Vec::new();
    push_bytes(&mut buf, source_path.as_bytes());
    push_bytes(&mut buf, heading.as_bytes());
    let p: i64 = match parent_id {
        Some(p) => p,
        None => -1,
    };
    push_le_bytes(&mut buf, p as u64);
    assert(buf@ =~= slug_seed_bytes(source_path@, heading@, parent_id));
    sha256_digest(buf.as_slice())
}

/// `start` advanced `k` times by `step`, wrapping.
pub open spec fn slug_num(start: u64, step: u64, k: nat) -> u64
    decreases k,
{
    if k == 0 {
        start
    } else {
        u64_specs::wrapping_add(slug_num(start, step, (k - 1) as nat), step)
    }
}

/// Number of slug candidates: five of lengths 4 to 8, then one 8-character candidate for
/// each `u64` offset.
pub open spec fn slug_candidate_count() -> nat {
    5 + 0x1_0000_0000_0000_0000
}

/// Slug candidate `k` for the seed `(start, step)`: lengths 4 to 8 first, each advanced by
/// `step`; then 8-character slugs at successive offsets.
pub open spec fn slug_candidate(start: u64, step: u64, k: nat) -> Seq<char> {
    if k < 5 {
        base36_spec(slug_num(start, step, k) as nat, (4 + k) as nat)
    } else {
        base36_spec(
            u64_specs::wrapping_add(slug_num(start, step, 5), (k - 5) as u64) as nat,
            8,
        )
    }
}

/// `exists_check` was called on `slug` and answered `out`.
pub open spec fn answered<E, F: Fn(&str) -> Result<bool, E>>(
    exists_check: F,
    slug: Seq<char>,
    out: Result<bool, E>,
) -> bool {
    exists|x: &str| x@ == slug && #[trigger] exists_check.ensures((x,), out)
}

/// Candidates `0..k` were all reported taken.
pub open spec fn all_taken<E, F: Fn(&str) -> Result<bool, E>>(
    exists_check: F,
    start: u64,
    step: u64,
    k: nat,
) -> bool {
    forall|j: nat| j < k ==> #[trigger] answered(exists_check, slug_candidate(start, step, j), Ok(true))
}

/// What the slug search returned: the first candidate reported free, after all earlier
/// ones were reported taken; the first error reported, likewise; or nothing when every
/// candidate was reported taken.
pub open spec fn slug_outcome<E, F: Fn(&str) -> Result<bool, E>>(
    exists_check: F,
    start: u64,
    step: u64,
    r: Result<Option<String>, E>,
) -> bool {
    match r {
        Ok(Some(slug)) => exists|k: nat|
            k < slug_candidate_count() && slug@ == #[trigger] slug_candidate(start, step, k)
                && answered(exists_check, slug@, Ok(false)) && all_taken(exists_check, start, step, k),
        Ok(None) => all_taken(exists_check, start, step, slug_candidate_count()),
        Err(e) => exists|k: nat|
            k < slug_candidate_count() && answered(
                exists_check,
                #[trigger] slug_candidate(start, step, k),
                Err(e),
            ) && all_taken(exists_check, start, step, k),
    }
}

/// The slug search on a seed digest: candidates derived from the first two little-endian
/// words of `digest` are tried in order, and the first that `slug_exists` reports free is
/// returned. `Ok(None)` means every candidate was taken; an error from `slug_exists` is
/// returned as is.
pub fn slug_from_digest<E, F: Fn(&str) -> Result<bool, E>>(slug_exists: F, digest: &[u8]) -> (r:
    Result<Option<String>, E>)
    requires
        forall|x: &str| #[trigger] slug_exists.requires((x,)),
        digest@.len() >= 16,
    ensures
        slug_outcome(
            slug_exists,
            le_value(digest@.subrange(0, 8)) as u64,
            le_value(digest@.subrange(8, 16)) as u64,
            r,
        ),
{
    let start = read_le_u64(digest, 0);
    let step = read_le_u64(digest, 8);
    let mut num = start;
    let mut len: usize = 4;
    while len <= 8
        invariant
            4 <= len <= 9,
            forall|x: &str| #[trigger] slug_exists.requires((x,)),
            start as nat == le_value(digest@.subrange(0, 8)),
            step as nat == le_value(digest@.subrange(8, 16)),
            num == slug_num(start, step, (len - 4) as nat),
            all_taken(slug_exists, start, step, (len - 4) as nat),
        decreases 9 - len,
    {
        let slug = to_base36(num, len);
        let ghost k = (len - 4) as nat;
        assert(slug@ == slug_candidate(start, step, k));
        let name = slug.as_str();
        let answer = slug_exists(name);
        assert(answered(slug_exists, slug_candidate(start, step, k), answer));
        match answer {
            Ok(false) => {
                assert(k < slug_candidate_count() && slug@ == slug_candidate(start, step, k)
                    && answered(slug_exists, slug@, Ok(false)) && all_taken(
                    slug_exists,
                    start,
                    step,
                    k,
                ));
                return Ok(Some(slug));
            },
            Ok(true) => {},
            Err(e) => {
                assert(k < slug_candidate_count() && answered(
                    slug_exists,
                    slug_candidate(start, step, k),
                    Err(e),
                ) && all_taken(slug_exists, start, step, k));
                return Err(e);
            },
        }
        assert(answered(slug_exists, slug_candidate(start, step, k), Ok(true)));
        num = num.wrapping_add(step);
        len = len + 1;
        assert forall|j: nat| j < k + 1 implies #[trigger] answered(
            slug_exists,
            slug_candidate(start, step, j),
            Ok(true),
        ) by {
            if j < k {
                assert(all_taken(slug_exists, start, step, k));
            }
        }
    }
    let mut i: u64 = 0;
    loop
        invariant
            forall|x: &str| #[trigger] slug_exists.requires((x,)),
            start as nat == le_value(digest@.subrange(0, 8)),
            step as nat == le_value(digest@.subrange(8, 16)),
            num == slug_num(start, step, 5),
            all_taken(slug_exists, start, step, (5 + i) as nat),
        decreases u64::MAX - i,
    {
        let slug = to_base36(num.wrapping_add(i), 8);
        let ghost k = (5 + i) as nat;
        assert(slug@ == slug_candidate(start, step, k));
        let name = slug.as_str();
        let answer = slug_exists(name);
        assert(answered(slug_exists, slug_candidate(start, step, k), answer));
        match answer {
            Ok(false) => {
                assert(k < slug_candidate_count() && slug@ == slug_candidate(start, step, k)
                    && answered(slug_exists, slug@, Ok(false)) && all_taken(
                    slug_exists,
                    start,
                    step,
                    k,
                ));
                return Ok(Some(slug));
            },
            Ok(true) => {},
            Err(e) => {
                assert(k < slug_candidate_count() && answered(
                    slug_exists,
                    slug_candidate(start, step, k),
                    Err(e),
                ) && all_taken(slug_exists, start, step, k));
                return Err(e);
            },
        }
        assert(answered(slug_exists, slug_candidate(start, step, k), Ok(true)));
        assert forall|j: nat| j < k + 1 implies #[trigger] answered(
            slug_exists,
            slug_candidate(start, step, j),
            Ok(true),
        ) by {
            if j < k {
                assert(all_taken(slug_exists, start, step, k));
            }
        }
        if i == u64::MAX {
            assert(k + 1 == slug_candidate_count());
            return Ok(None);
        }
        i = i + 1;
    }
}

/// Picks a short, deterministic slug for a chunk: the first candidate derived from the hash
/// of its source path, heading and parent that `slug_exists` reports free. `Ok(None)` means
/// every candidate was taken; an error from `slug_exists` is returned as is.
pub fn generate_slug<E, F: Fn(&str) -> Result<bool, E>>(
    slug_exists: F,
    source_path: &str,
    heading: &str,
    parent_id: Option<i64>,
) -> (r: Result<Option<String>, E>)
    requires
        forall|x: &str| #[trigger] slug_exists.requires((x,)),
    ensures
        slug_outcome(
            slug_exists,
            slug_seed_spec(source_path@, heading@, parent_id).0,
            slug_seed_spec(source_path@, heading@, parent_id).1,
            r,
        ),
{
    let digest = seed_digest(source_path, heading, parent_id);
    slug_from_digest(slug_exists, digest.as_slice())
}

/// A slug check that answers a name the same way however often it is asked.
pub open spec fn answers_consistently<E, F: Fn(&str) -> Result<bool, E>>(exists_check: F) -> bool {
    forall|x: &str, y: &str, o1: Result<bool, E>, o2: Result<bool, E>|
        x@ == y@ && #[trigger] exists_check.ensures((x,), o1) && #[trigger] exists_check.ensures(
            (y,),
            o2,
        ) ==> o1 == o2
}

/// Slugs are deterministic: for a check that answers consistently, the outcome of the slug
/// search is fixed by the seed (and so by source path, heading and parent).
pub proof fn lemma_slug_outcome_unique<E, F: Fn(&str) -> Result<bool, E>>(
    exists_check: F,
    start: u64,
    step: u64,
    r1: Result<Option<String>, E>,
    r2: Result<Option<String>, E>,
)
    requires
        answers_consistently(exists_check),
        slug_outcome(exists_check, start, step, r1),
        slug_outcome(exists_check, start, step, r2),
    ensures
        match (r1, r2) {
            (Ok(Some(a)), Ok(Some(b))) => a@ == b@,
            (Ok(None), Ok(None)) => true,
            (Err(a), Err(b)) => a == b,
            _ => false,
        },
{
    let f = exists_check;
    // The position at which each outcome stopped: the candidate that was found free or
    // failed, or the number of candidates when all were taken.
    let k1: nat = match r1 {
        Ok(Some(a)) => choose|k: nat|
            k < slug_candidate_count() && a@ == #[trigger] slug_candidate(start, step, k)
                && answered(f, a@, Ok(false)) && all_taken(f, start, step, k),
        Ok(None) => slug_candidate_count(),
        Err(e) => choose|k: nat|
            k < slug_candidate_count() && answered(f, #[trigger] slug_candidate(start, step, k), Err(e))
                && all_taken(f, start, step, k),
    };
    let k2: nat = match r2 {
        Ok(Some(a)) => choose|k: nat|
            k < slug_candidate_count() && a@ == #[trigger] slug_candidate(start, step, k)
                && answered(f, a@, Ok(false)) && all_taken(f, start, step, k),
        Ok(None) => slug_candidate_count(),
        Err(e) => choose|k: nat|
            k < slug_candidate_count() && answered(f, #[trigger] slug_candidate(start, step, k), Err(e))
                && all_taken(f, start, step, k),
    };
    // The answer that stopped an outcome at `k`.
    let stop1: Result<bool, E> = match r1 {
        Ok(_) => Ok(false),
        Err(e) => Err(e),
    };
    let stop2: Result<bool, E> = match r2 {
        Ok(_) => Ok(false),
        Err(e) => Err(e),
    };
    assert(r1 is Ok && r1->Ok_0 is None || (k1 < slug_candidate_count() && answered(
        f,
        slug_candidate(start, step, k1),
        stop1,
    )));
    assert(r2 is Ok && r2->Ok_0 is None || (k2 < slug_candidate_count() && answered(
        f,
        slug_candidate(start, step, k2),
        stop2,
    )));
    if k1 < k2 {
        assert(answered(f, slug_candidate(start, step, k1), Ok(true)));
        assert(answered(f, slug_candidate(start, step, k1), stop1));
        let x = choose|x: &str| x@ == slug_candidate(start, step, k1) && #[trigger] f.ensures((x,), Ok(true));
        let y = choose|y: &str| y@ == slug_candidate(start, step, k1) && #[trigger] f.ensures((y,), stop1);
        assert(f.ensures((x,), Ok(true)) && f.ensures((y,), stop1));
    } else if k2 < k1 {
        assert(answered(f, slug_candidate(start, step, k2), Ok(true)));
        assert(answered(f, slug_candidate(start, step, k2), stop2));
        let x = choose|x: &str| x@ == slug_candidate(start, step, k2) && #[trigger] f.ensures((x,), Ok(true));
        let y = choose|y: &str| y@ == slug_candidate(start, step, k2) && #[trigger] f.ensures((y,), stop2);
        assert(f.ensures((x,), Ok(true)) && f.ensures((y,), stop2));
    } else if k1 < slug_candidate_count() {
        assert(answered(f, slug_candidate(start, step, k1), stop1));
        assert(answered(f, slug_candidate(start, step, k1), stop2));
        let x = choose|x: &str| x@ == slug_candidate(start, step, k1) && #[trigger] f.ensures((x,), stop1);
        let y = choose|y: &str| y@ == slug_candidate(start, step, k1) && #[trigger] f.ensures((y,), stop2);
        assert(f.ensures((x,), stop1) && f.ensures((y,), stop2));
        assert(stop1 == stop2);
    }
}

proof fn lemma_base36_digits(num: nat, len: nat)
    ensures
        forall|i: int|
            0 <= i < base36_spec(num, len).len() ==> {
                let c = #[trigger] base36_spec(num, len)[i];
                ('0' <= c <= '9') || ('a' <= c <= 'z')
            },
        base36_spec(num, len).len() == len,
    decreases len,
{
    reveal_strlit("0123456789abcdefghijklmnopqrstuvwxyz");
    if len > 0 {
        lemma_base36_digits(num / 36, (len - 1) as nat);
        let rest = base36_spec(num / 36, (len - 1) as nat);
        let d = BASE36_DIGITS@[(num % 36) as int];
        assert('0' <= d <= '9' || 'a' <= d <= 'z');
        assert forall|i: int| 0 <= i < base36_spec(num, len).len() implies {
            let c = #[trigger] base36_spec(num, len)[i];
            ('0' <= c <= '9') || ('a' <= c <= 'z')
        } by {
            if i > 0 {
                assert(base36_spec(num, len)[i] == rest[i - 1]);
            }
        }
    }
}

/// Every generated slug is accepted by `show` as it is, and as a plain formatter prints it
/// (`[slug]`): slug candidates use only digits and lowercase letters.
pub proof fn lemma_slug_candidates_round_trip(start: u64, step: u64, k: nat, f: Formatter)
    requires
        !f.colored(),
    ensures
        parse_slug_spec(slug_candidate(start, step, k)) == slug_candidate(start, step, k),
        parse_slug_spec(f.slug_spec(slug_candidate(start, step, k))) == slug_candidate(
            start,
            step,
            k,
        ),
{
    let s = slug_candidate(start, step, k);
    if k < 5 {
        lemma_base36_digits(slug_num(start, step, k) as nat, (4 + k) as nat);
    } else {
        lemma_base36_digits(
            u64_specs::wrapping_add(slug_num(start, step, 5), (k - 5) as u64) as nat,
            8,
        );
    }
    assert(!s.contains('#')) by {
        if s.contains('#') {
            let i = choose|i: int| 0 <= i < s.len() && s[i] == '#';
            assert(('0' <= s[i] <= '9') || ('a' <= s[i] <= 'z'));
        }
    }
    if s.len() >= 2 {
        assert(('0' <= s[0] <= '9') || ('a' <= s[0] <= 'z'));
    }
    lemma_parse_slug_bare(s);
    lemma_parse_printed_slug(f, s);
}

/// Slug candidates start at 4 characters and grow by one per collision up to 8; every
/// later candidate has 8 characters.
pub proof fn lemma_slug_candidate_length(start: u64, step: u64, k: nat)
    ensures
        slug_candidate(start, step, k).len() == if k < 5 {
            4 + k
        } else {
            8
        },
{
    if k < 5 {
        lemma_base36_digits(slug_num(start, step, k) as nat, (4 + k) as nat);
    } else {
        lemma_base36_digits(
            u64_specs::wrapping_add(slug_num(start, step, 5), (k - 5) as u64) as nat,
            8,
        );
    }
}

} // verus!
