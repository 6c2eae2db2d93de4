use vstd::prelude::*;
use vstd::string::*;

verus! {

/// Bump when parsing or indexing logic changes to trigger a full re-index.
pub const INDEX_VERSION: u32 = 1;

/// The decimal digits.
pub const DECIMAL_DIGITS: &'static str = "0123456789";

/// The decimal representation of `n`, without leading zeros ("0" for zero).
pub open spec fn decimal_spec(n: nat) -> Seq<char>
    decreases n,
{
    if n < 10 {
        seq![DECIMAL_DIGITS@[n as int]]
    } else {
        decimal_spec(n / 10).push(DECIMAL_DIGITS@[(n % 10) as int])
    }
}

/// Formats `n` in decimal.
pub fn decimal(n: u32) -> (s: String)
    ensures
        s@ == decimal_spec(n as nat),
    decreases n,
{
    proof {
        reveal_strlit("0123456789");
        assert(DECIMAL_DIGITS.is_ascii());
    }
    let d: usize = (n % 10) as usize;
    let digit = DECIMAL_DIGITS.substring_ascii(d, d + 1);
    if n < 10 {
        digit.to_owned()
    } else {
        let mut s = decimal(n / 10);
        s.append(digit);
        s
    }
}

/// Whether the index was built by this version of the indexing logic: the stored version
/// is the decimal form of `INDEX_VERSION`. Anything else calls for a full re-index.
pub fn index_version_is_current(stored: Option<&str>) -> (current: bool)
    ensures
        current == (stored matches Some(s) && s@ == decimal_spec(INDEX_VERSION as nat)),
{
    match stored {
        None => false,
        Some(s) => {
            let expected = decimal(INDEX_VERSION);
            let found = s.to_owned();
            found == expected
        },
    }
}

} // verus!
