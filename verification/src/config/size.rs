//! Byte quantities, written as a number or as a number with a unit.

use vstd::prelude::*;
use vstd::string::*;

use crate::text::{
    chars_of, is_letter, letter, lower_text, str_equal, text_between, to_lower_text, trim, trimmed,
};

verus! {

/// Byte quantity.
#[derive(Debug, Clone, Copy, PartialEq, Eq, Structural)]
pub struct ByteSize(pub u64);

impl Default for ByteSize {
    fn default() -> (r: Self)
        ensures
            r == ByteSize(0),
    {
        ByteSize(0)
    }
}

/// Position of the first letter; the length where there is none.
pub open spec fn unit_start(s: Seq<char>) -> int
    decreases s.len(),
{
    if s.len() == 0 || letter(s[0]) {
        0
    } else {
        1 + unit_start(s.skip(1))
    }
}

/// Splits a byte quantity into its number and its unit: what stands before the
/// first letter, and the rest, both without white space around them.
pub fn split_byte_size(s: &str) -> (r: (String, String))
    ensures
        0 <= unit_start(s@) <= s@.len(),
        r.0@ == trimmed(s@.take(unit_start(s@))),
        r.1@ == trimmed(s@.skip(unit_start(s@))),
{
    let c: Vec<char> = chars_of(s);
    let mut i: usize = 0;
    assert(c@.skip(0) =~= c@);
    while i < c.len() && !is_letter(c[i])
        invariant
            i <= c@.len(),
            c@ == s@,
            unit_start(s@) == i + unit_start(c@.skip(i as int)),
        decreases c@.len() - i,
    {
        assert(c@.skip(i as int).skip(1) =~= c@.skip(i + 1));
        i = i + 1;
    }
    assert(unit_start(s@) == i);
    let number: String = text_between(&c, 0, i);
    let unit: String = text_between(&c, i, c.len());
    assert(number@ =~= s@.take(i as int));
    assert(unit@ =~= s@.skip(i as int));
    (trim(number.as_str()), trim(unit.as_str()))
}

/// Bytes of a unit; `None` for a word that is no unit. The case of ASCII
/// letters does not matter.
pub open spec fn unit_bytes(unit: Seq<char>) -> Option<u64> {
    let u = lower_text(unit);
    if u == ""@ || u == "b"@ {
        Some(1)
    } else if u == "k"@ || u == "kb"@ || u == "kib"@ {
        Some(1024)
    } else if u == "m"@ || u == "mb"@ || u == "mib"@ {
        Some(1048576)
    } else if u == "g"@ || u == "gb"@ || u == "gib"@ {
        Some(1073741824)
    } else if u == "t"@ || u == "tb"@ || u == "tib"@ {
        Some(1099511627776)
    } else {
        None
    }
}

/// Bytes of a unit, such as `MB`; `None` for a word that is no unit.
pub fn unit_multiplier(unit: &str) -> (r: Option<u64>)
    ensures
        r == unit_bytes(unit@),
{
    let u: String = to_lower_text(unit);
    let w: &str = u.as_str();
    if str_equal(w, "") || str_equal(w, "b") {
        Some(1)
    } else if str_equal(w, "k") || str_equal(w, "kb") || str_equal(w, "kib") {
        Some(1024)
    } else if str_equal(w, "m") || str_equal(w, "mb") || str_equal(w, "mib") {
        Some(1048576)
    } else if str_equal(w, "g") || str_equal(w, "gb") || str_equal(w, "gib") {
        Some(1073741824)
    } else if str_equal(w, "t") || str_equal(w, "tb") || str_equal(w, "tib") {
        Some(1099511627776)
    } else {
        None
    }
}

} // verus!
