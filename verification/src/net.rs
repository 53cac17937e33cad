//! Network addresses as plain values, and their text form.

use vstd::prelude::*;
use vstd::string::*;

use crate::text::{ascii_chars, decimal, hex_digit, push_decimal};

verus! {

/// An IP address, as the number that its bytes spell in network order.
#[derive(Debug, Clone, Copy, PartialEq, Eq, Structural, Hash)]
pub enum IpAddr {
    V4(u32),
    V6(u128),
}

/// An IP address with a port.
#[derive(Debug, Clone, Copy, PartialEq, Eq, Structural, Hash)]
pub struct SocketAddr {
    pub ip: IpAddr,
    pub port: u16,
}

impl IpAddr {
    /// The IPv4 address `a.b.c.d`.
    pub fn v4(a: u8, b: u8, c: u8, d: u8) -> (r: Self)
        ensures
            r == IpAddr::V4((a * 0x100_0000 + b * 0x1_0000 + c * 0x100 + d) as u32),
    {
        IpAddr::V4(a as u32 * 0x100_0000 + b as u32 * 0x1_0000 + c as u32 * 0x100 + d as u32)
    }

    /// `127.0.0.1`.
    pub fn localhost() -> (r: Self)
        ensures
            r == IpAddr::V4(0x7f00_0001),
    {
        IpAddr::V4(0x7f00_0001)
    }
}

impl SocketAddr {
    /// An address with a port.
    pub fn new(ip: IpAddr, port: u16) -> (r: Self)
        ensures
            r == (SocketAddr { ip, port }),
    {
        SocketAddr { ip, port }
    }
}

// ---------------------------------------------------------------------------
// Text
// ---------------------------------------------------------------------------

/// Decimal digits as characters.
pub open spec fn number_text(n: int) -> Seq<char> {
    ascii_chars(decimal(n as nat))
}

/// Hexadecimal digits of `n`, without leading zeros.
pub open spec fn short_hex(n: nat) -> Seq<u8>
    decreases n,
{
    if n < 16 {
        seq![hex_digit(n as int)]
    } else {
        short_hex(n / 16).push(hex_digit((n % 16) as int))
    }
}

/// Dotted form of an IPv4 address.
pub open spec fn v4_text(bits: int) -> Seq<char> {
    number_text(bits / 0x100_0000) + "."@ + number_text(bits / 0x1_0000 % 256) + "."@
        + number_text(bits / 0x100 % 256) + "."@ + number_text(bits % 256)
}

/// Two to the power of sixteen, `k` times over.
pub open spec fn group_base(k: int) -> int
    decreases k,
{
    if k <= 0 {
        1
    } else {
        0x1_0000 * group_base(k - 1)
    }
}

/// The `i`-th of the eight groups of an IPv6 address, from the left.
pub open spec fn group(bits: int, i: int) -> int {
    bits / group_base(7 - i) % 0x1_0000
}

/// Groups `from..to`, joined by colons.
pub open spec fn groups_text(bits: int, from: int, to: int) -> Seq<char>
    decreases to - from,
{
    if from >= to {
        Seq::empty()
    } else if from + 1 == to {
        ascii_chars(short_hex(group(bits, from) as nat))
    } else {
        groups_text(bits, from, to - 1) + ":"@ + ascii_chars(
            short_hex(group(bits, to - 1) as nat),
        )
    }
}

/// Length of the run of zero groups that starts at `i`.
pub open spec fn zero_run(bits: int, i: int) -> int
    decreases 8 - i,
{
    if 0 <= i < 8 && group(bits, i) == 0 {
        1 + zero_run(bits, i + 1)
    } else {
        0
    }
}

/// Start of the longest run of zero groups among those that start before `n`;
/// the first one where several are longest.
pub open spec fn longest_run(bits: int, n: int) -> int
    decreases n,
{
    if n <= 1 {
        0
    } else {
        let best = longest_run(bits, n - 1);
        if zero_run(bits, n - 1) > zero_run(bits, best) {
            n - 1
        } else {
            best
        }
    }
}

/// Text of an IPv6 address: an IPv4-mapped address shows the IPv4 part; else
/// the first longest run of two or more zero groups is left out.
pub open spec fn v6_text(bits: int) -> Seq<char> {
    if bits / 0x1_0000_0000 == 0xffff {
        "::ffff:"@ + v4_text(bits % 0x1_0000_0000)
    } else {
        let start = longest_run(bits, 8);
        let len = zero_run(bits, start);
        if len > 1 {
            groups_text(bits, 0, start) + "::"@ + groups_text(bits, start + len, 8)
        } else {
            groups_text(bits, 0, 8)
        }
    }
}

/// Text of an address with a port; an IPv6 address stands in brackets.
pub open spec fn addr_text(a: SocketAddr) -> Seq<char> {
    match a.ip {
        IpAddr::V4(bits) => v4_text(bits as int) + ":"@ + number_text(a.port as int),
        IpAddr::V6(bits) => "["@ + v6_text(bits as int) + "]:"@ + number_text(a.port as int),
    }
}

fn push_v4(out: &mut String, bits: u32)
    ensures
        final(out)@ == old(out)@ + v4_text(bits as int),
{
    push_decimal(out, (bits / 0x100_0000) as u64);
    out.append(".");
    push_decimal(out, (bits / 0x1_0000 % 256) as u64);
    out.append(".");
    push_decimal(out, (bits / 0x100 % 256) as u64);
    out.append(".");
    push_decimal(out, (bits % 256) as u64);
    assert(out@ =~= old(out)@ + v4_text(bits as int));
}

fn push_short_hex(out: &mut String, n: u64)
    ensures
        final(out)@ == old(out)@ + ascii_chars(short_hex(n as nat)),
    decreases n,
{
    if n >= 16 {
        push_short_hex(out, n / 16);
    }
    let d: u8 = (n % 16) as u8;
    let c: u8 = if d < 10 {
        48 + d
    } else {
        87 + d
    };
    out.push(c as char);
    assert(out@ =~= old(out)@ + ascii_chars(short_hex(n as nat)));
}

fn group_of(bits: u128, i: usize) -> (r: u64)
    requires
        i < 8,
    ensures
        r == group(bits as int, i as int),
        r < 0x1_0000,
{
    proof {
        reveal_with_fuel(group_base, 9);
    }
    let base: u128 = if i == 0 {
        0x1_0000_0000_0000_0000_0000_0000_0000
    } else if i == 1 {
        0x1_0000_0000_0000_0000_0000_0000
    } else if i == 2 {
        0x1_0000_0000_0000_0000_0000
    } else if i == 3 {
        0x1_0000_0000_0000_0000
    } else if i == 4 {
        0x1_0000_0000_0000
    } else if i == 5 {
        0x1_0000_0000
    } else if i == 6 {
        0x1_0000
    } else {
        1
    };
    assert(base == group_base(7 - i));
    (bits / base % 0x1_0000) as u64
}

fn push_groups(out: &mut String, bits: u128, from: usize, to: usize)
    requires
        from <= to <= 8,
    ensures
        final(out)@ == old(out)@ + groups_text(bits as int, from as int, to as int),
{
    let mut i: usize = from;
    assert(out@ =~= old(out)@ + groups_text(bits as int, from as int, from as int));
    while i < to
        invariant
            from <= i <= to <= 8,
            out@ == old(out)@ + groups_text(bits as int, from as int, i as int),
        decreases to - i,
    {
        let ghost before = out@;
        if i > from {
            out.append(":");
        }
        push_short_hex(out, group_of(bits, i));
        i = i + 1;
        assert(out@ =~= old(out)@ + groups_text(bits as int, from as int, i as int));
    }
}

fn run_from(bits: u128, i: usize) -> (r: usize)
    requires
        i <= 8,
    ensures
        r == zero_run(bits as int, i as int),
        i + r <= 8,
    decreases 8 - i,
{
    if i < 8 && group_of(bits, i) == 0 {
        1 + run_from(bits, i + 1)
    } else {
        0
    }
}

fn push_v6(out: &mut String, bits: u128)
    ensures
        final(out)@ == old(out)@ + v6_text(bits as int),
{
    if bits / 0x1_0000_0000 == 0xffff {
        out.append("::ffff:");
        push_v4(out, (bits % 0x1_0000_0000) as u32);
        assert(out@ =~= old(out)@ + v6_text(bits as int));
        return;
    }
    let mut start: usize = 0;
    let mut i: usize = 1;
    while i < 8
        invariant
            1 <= i <= 8,
            start < i,
            start == longest_run(bits as int, i as int),
        decreases 8 - i,
    {
        if run_from(bits, i) > run_from(bits, start) {
            start = i;
        }
        i = i + 1;
    }
    let len: usize = run_from(bits, start);
    if len > 1 {
        push_groups(out, bits, 0, start);
        out.append("::");
        push_groups(out, bits, start + len, 8);
    } else {
        push_groups(out, bits, 0, 8);
    }
    assert(out@ =~= old(out)@ + v6_text(bits as int));
}

impl SocketAddr {
    /// The address as text, such as `10.0.1.3:3320` or `[::1]:3320`.
    pub fn to_text(&self) -> (r: String)
        ensures
            r@ == addr_text(*self),
    {
        let mut out: String = String::new();
        match self.ip {
            IpAddr::V4(bits) => {
                push_v4(&mut out, bits);
                out.append(":");
            },
            IpAddr::V6(bits) => {
                out.append("[");
                push_v6(&mut out, bits);
                out.append("]:");
            },
        }
        push_decimal(&mut out, self.port as u64);
        assert(out@ =~= addr_text(*self));
        out
    }
}

/// An IPv4 address is written as its four bytes, with dots between them.
pub proof fn law_four_bytes_are_dotted(a: u8, b: u8, c: u8, d: u8)
    ensures
        v4_text(a * 0x100_0000 + b * 0x1_0000 + c * 0x100 + d) == number_text(a as int) + "."@
            + number_text(b as int) + "."@ + number_text(c as int) + "."@ + number_text(d as int),
{
    lemma_four_bytes(a as int, b as int, c as int, d as int);
}

proof fn lemma_four_bytes(a: int, b: int, c: int, d: int)
    requires
        0 <= a < 256,
        0 <= b < 256,
        0 <= c < 256,
        0 <= d < 256,
    ensures
        ({
            let x = a * 0x100_0000 + b * 0x1_0000 + c * 0x100 + d;
            &&& x / 0x100_0000 == a
            &&& x / 0x1_0000 % 256 == b
            &&& x / 0x100 % 256 == c
            &&& x % 256 == d
        }),
{
    let x = a * 0x100_0000 + b * 0x1_0000 + c * 0x100 + d;
    assert(x / 0x1_0000 == a * 256 + b);
    assert(x / 0x100 == a * 0x1_0000 + b * 256 + c);
}

/// The zero groups that are left out of an IPv6 address are a longest run of them,
/// and the first where several are longest.
pub proof fn law_longest_run_is_left_out(bits: int, i: int)
    requires
        0 <= i < 8,
    ensures
        0 <= longest_run(bits, 8) < 8,
        zero_run(bits, i) <= zero_run(bits, longest_run(bits, 8)),
        i < longest_run(bits, 8) ==> zero_run(bits, i) < zero_run(bits, longest_run(bits, 8)),
{
    lemma_longest(bits, 8, i);
}

proof fn lemma_longest(bits: int, n: int, i: int)
    requires
        0 <= i < n <= 8,
    ensures
        0 <= longest_run(bits, n) < n,
        zero_run(bits, i) <= zero_run(bits, longest_run(bits, n)),
        i < longest_run(bits, n) ==> zero_run(bits, i) < zero_run(bits, longest_run(bits, n)),
    decreases n,
{
    if n > 1 {
        if i < n - 1 {
            lemma_longest(bits, n - 1, i);
        } else {
            lemma_longest(bits, n - 1, 0);
        }
    }
}

/// A run of zero groups goes on as long as the groups are zero.
pub proof fn law_runs_are_zero(bits: int, i: int)
    requires
        0 <= i <= 8,
    ensures
        0 <= zero_run(bits, i) <= 8 - i,
        forall|k: int| i <= k < i + zero_run(bits, i) ==> #[trigger] group(bits, k) == 0,
        i + zero_run(bits, i) < 8 ==> group(bits, i + zero_run(bits, i)) != 0,
    decreases 8 - i,
{
    if i < 8 && group(bits, i) == 0 {
        law_runs_are_zero(bits, i + 1);
    }
}

/// The groups of an address are its digits to the base of two to the power of
/// sixteen, the last one first.
pub proof fn law_groups_are_digits(high: int, low: int, i: int)
    requires
        0 <= high,
        0 <= low < 0x1_0000,
        0 <= i < 7,
    ensures
        group(high * 0x1_0000 + low, 7) == low,
        group(high * 0x1_0000 + low, i) == group(high, i + 1),
{
    let x = high * 0x1_0000 + low;
    lemma_base(6 - i);
    let b = group_base(6 - i);
    assert(group_base(7 - i) == 0x1_0000 * b);
    vstd::arithmetic::div_mod::lemma_div_denominator(x, 0x1_0000, b);
    assert(x / 0x1_0000 == high);
    assert(group_base(0) == 1);
    assert(x / 1 == x);
}

proof fn lemma_base(k: int)
    ensures
        group_base(k) >= 1,
    decreases k,
{
    if k > 0 {
        lemma_base(k - 1);
    }
}

/// A number is written in hexadecimal without leading zeros.
pub proof fn law_short_hex_has_no_leading_zeros(n: nat, d: nat)
    requires
        d < 16,
    ensures
        short_hex(d).len() == 1,
        n > 0 ==> short_hex((16 * n + d) as nat) == short_hex(n).push(hex_digit(d as int)),
        n > 0 ==> short_hex(n)[0] != 0x30,
    decreases n,
{
    if n > 0 {
        let m = (16 * n + d) as nat;
        assert(m / 16 == n && m % 16 == d);
        if n >= 16 {
            law_short_hex_has_no_leading_zeros(n / 16, n % 16);
            assert(short_hex(n / 16).len() > 0) by {
                reveal_with_fuel(short_hex, 2);
            }
        }
    }
}

/// An address shows its port behind a colon; one of the longer kind stands in
/// brackets, and shows the shorter kind where it stands for one. Else its groups
/// stand with colons between them, and two colons stand for the zero groups that
/// are left out.
pub proof fn law_addresses_are_shown(bits: u128, v4: u32, port: u16)
    ensures
        addr_text(SocketAddr { ip: IpAddr::V4(v4), port }) == v4_text(v4 as int) + ":"@
            + number_text(port as int),
        addr_text(SocketAddr { ip: IpAddr::V6(bits), port }) == "["@ + v6_text(bits as int) + "]:"@
            + number_text(port as int),
        v6_text(0xffff_0000_0000 + v4) == "::ffff:"@ + v4_text(v4 as int),
        bits as int / 0x1_0000_0000 != 0xffff ==> ({
            let at = longest_run(bits as int, 8);
            let n = zero_run(bits as int, at);
            &&& n >= 2 ==> v6_text(bits as int) == groups_text(bits as int, 0, at) + "::"@
                + groups_text(bits as int, at + n, 8)
            &&& n < 2 ==> v6_text(bits as int) == groups_text(bits as int, 0, 8)
        }),
        forall|from: int, to: int|
            from + 1 < to ==> #[trigger] groups_text(bits as int, from, to) == groups_text(
                bits as int,
                from,
                to - 1,
            ) + ":"@ + ascii_chars(short_hex(group(bits as int, to - 1) as nat)),
        forall|from: int|
            #[trigger] groups_text(bits as int, from, from + 1) == ascii_chars(
                short_hex(group(bits as int, from) as nat),
            ),
{
    assert((0xffff_0000_0000 + v4) / 0x1_0000_0000 == 0xffff);
    assert((0xffff_0000_0000 + v4) % 0x1_0000_0000 == v4);
}

} // verus!
