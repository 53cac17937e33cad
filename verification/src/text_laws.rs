//! What numerals, orders and trimmed text are.

use vstd::prelude::*;

use crate::text::{
    all_digits, decimal, digits_value, hex, lex_less, signed_decimal, signed_numeral, trim_back,
    trim_front, trimmed, unsigned_numeral, white_space,
};

verus! {

/// A number below ten is one digit; another one more digit at the end is ten
/// times the number and that digit. No numeral starts with a zero but zero's own,
/// and a minus sign stands in front of a negative number.
pub proof fn law_decimals_are_written(n: nat, d: nat)
    requires
        d < 10,
    ensures
        decimal(d) == seq![(0x30 + d) as u8],
        n > 0 ==> decimal(10 * n + d) == decimal(n).push((0x30 + d) as u8),
        n > 0 ==> decimal(n)[0] != 0x30,
        n > 0 ==> signed_decimal(-(n as int)) == seq![0x2du8] + decimal(n),
        signed_decimal(n as int) == decimal(n),
    decreases n,
{
    if n > 0 {
        let m = (10 * n + d) as nat;
        assert(m / 10 == n && m % 10 == d);
        if n >= 10 {
            law_decimals_are_written(n / 10, n % 10);
            assert(decimal(n)[0] == decimal(n / 10)[0]) by {
                assert(decimal(n / 10).len() > 0);
            }
        }
    }
}

/// A run of digits stands for the number that it is read as: each further digit
/// makes ten times the number before, and that digit. A plus sign in front changes
/// nothing, a minus sign changes the sign, and anything else is no number.
pub proof fn law_numerals_are_read(s: Seq<u8>, d: u8)
    requires
        0x30 <= d <= 0x39,
    ensures
        unsigned_numeral(seq![d]) == Some(d - 0x30),
        s.len() > 0 && all_digits(s) ==> {
            &&& unsigned_numeral(s) is Some
            &&& unsigned_numeral(s.push(d)) == Some(10 * unsigned_numeral(s)->0 + d - 0x30)
            &&& unsigned_numeral(seq![0x2bu8] + s) == unsigned_numeral(s)
            &&& signed_numeral(s) == unsigned_numeral(s)
            &&& signed_numeral(seq![0x2bu8] + s) == unsigned_numeral(s)
            &&& signed_numeral(seq![0x2du8] + s) == Some(-unsigned_numeral(s)->0)
        },
        unsigned_numeral(s) is Some ==> s.len() > 0 && forall|i: int|
            0 < i < s.len() ==> 0x30 <= #[trigger] s[i] <= 0x39,
        unsigned_numeral(s) is Some ==> s[0] == 0x2b || 0x30 <= s[0] <= 0x39,
{
    let one = seq![d];
    assert(one.drop_last() =~= Seq::empty());
    assert(digits_value(one.drop_last()) == 0);
    if s.len() > 0 && all_digits(s) {
        let t = s.push(d);
        assert(t.drop_last() =~= s);
        assert(s[0] != 43 && s[0] != 45);
        assert(t[0] == s[0]);
        let plus = seq![0x2bu8] + s;
        let minus = seq![0x2du8] + s;
        assert(plus.skip(1) =~= s);
        assert(minus.skip(1) =~= s);
        assert(plus[0] == 43 && minus[0] == 45);
    }
    if unsigned_numeral(s) is Some {
        assert forall|i: int| 0 < i < s.len() implies 0x30 <= #[trigger] s[i] <= 0x39 by {
            if s[0] == 43 {
                assert(s.skip(1)[i - 1] == s[i]);
            }
        }
    }
}

/// The last `width` hexadecimal digits of a number are those of a sixteenth of it,
/// and its remainder.
pub proof fn law_hex_digits_are_written(n: nat, d: nat, width: nat)
    requires
        d < 16,
    ensures
        hex(n, width).len() == width,
        hex((16 * n + d) as nat, width + 1) == hex(n, width).push(
            if d < 10 {
                (0x30 + d) as u8
            } else {
                (0x61 + d - 10) as u8
            },
        ),
    decreases width,
{
    let m = (16 * n + d) as nat;
    assert(m / 16 == n && m % 16 == d);
    if width > 0 {
        law_hex_digits_are_written(n / 16, n % 16, (width - 1) as nat);
    }
}

/// One byte string comes before another where the first byte in which they differ
/// is smaller, or where it ends first.
pub proof fn law_order_goes_by_the_first_difference(a: Seq<u8>, b: Seq<u8>, k: int)
    requires
        0 <= k <= a.len(),
        k <= b.len(),
        forall|i: int| 0 <= i < k ==> #[trigger] a[i] == b[i],
        k < a.len() && k < b.len() ==> a[k] != b[k],
    ensures
        lex_less(a, b) <==> (k == a.len() && k < b.len()) || (k < a.len() && k < b.len() && a[k]
            < b[k]),
    decreases k,
{
    if k > 0 {
        assert(a[0] == b[0]);
        assert forall|i: int| 0 <= i < k - 1 implies #[trigger] a.skip(1)[i] == b.skip(1)[i] by {
            assert(a[i + 1] == b[i + 1]);
        }
        law_order_goes_by_the_first_difference(a.skip(1), b.skip(1), k - 1);
    }
}

/// Trimming takes white space off both ends, and nothing else: what is left stands
/// between the places returned.
pub proof fn law_trimming_takes_white_space(s: Seq<char>) -> (r: (int, int))
    ensures
        0 <= r.0 <= r.1 <= s.len(),
        trimmed(s) == s.subrange(r.0, r.1),
        forall|i: int| 0 <= i < r.0 ==> white_space(#[trigger] s[i]),
        forall|i: int| r.1 <= i < s.len() ==> white_space(#[trigger] s[i]),
        r.0 < r.1 ==> !white_space(s[r.0]) && !white_space(s[r.1 - 1]),
{
    let from = lemma_front(s);
    let t = trim_front(s);
    let to = lemma_back(t);
    assert(t == s.skip(from));
    assert(trimmed(s) =~= s.subrange(from, from + to));
    assert forall|i: int| from + to <= i < s.len() implies white_space(#[trigger] s[i]) by {
        assert(t[i - from] == s[i]);
    }
    if 0 < to {
        assert(t[0] == s[from]);
        assert(t[to - 1] == s[from + to - 1]);
    }
    (from, from + to)
}

proof fn lemma_front(s: Seq<char>) -> (from: int)
    ensures
        0 <= from <= s.len(),
        trim_front(s) == s.skip(from),
        forall|i: int| 0 <= i < from ==> white_space(#[trigger] s[i]),
        from < s.len() ==> !white_space(s[from]),
    decreases s.len(),
{
    if s.len() > 0 && white_space(s[0]) {
        let rest = s.skip(1);
        let from = lemma_front(rest);
        assert(rest.skip(from) =~= s.skip(from + 1));
        assert forall|i: int| 0 <= i < from + 1 implies white_space(#[trigger] s[i]) by {
            if i > 0 {
                assert(rest[i - 1] == s[i]);
            }
        }
        if from < rest.len() {
            assert(rest[from] == s[from + 1]);
        }
        from + 1
    } else {
        assert(s.skip(0) =~= s);
        0
    }
}

proof fn lemma_back(s: Seq<char>) -> (to: int)
    ensures
        0 <= to <= s.len(),
        trim_back(s) == s.take(to),
        forall|i: int| to <= i < s.len() ==> white_space(#[trigger] s[i]),
        0 < to ==> !white_space(s[to - 1]),
    decreases s.len(),
{
    if s.len() > 0 && white_space(s.last()) {
        let rest = s.drop_last();
        let to = lemma_back(rest);
        assert(rest.take(to) =~= s.take(to));
        assert forall|i: int| to <= i < s.len() implies white_space(#[trigger] s[i]) by {
            if i < rest.len() {
                assert(rest[i] == s[i]);
            }
        }
        to
    } else {
        assert(s.take(s.len() as int) =~= s);
        s.len() as int
    }
}

} // verus!
