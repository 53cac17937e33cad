//! Numbers as bytes, least significant first.

use vstd::prelude::*;

verus! {

/// The bytes of `n`, least significant first.
pub open spec fn little_endian(n: u64, width: nat) -> Seq<u8>
    decreases width,
{
    if width == 0 {
        Seq::empty()
    } else {
        seq![(n % 256) as u8] + little_endian(n / 256, (width - 1) as nat)
    }
}

/// The number that bytes stand for, least significant first.
pub open spec fn little_endian_value(b: Seq<u8>) -> int
    decreases b.len(),
{
    if b.len() == 0 {
        0
    } else {
        b[0] + 256 * little_endian_value(b.skip(1))
    }
}

/// How many numbers fit `width` bytes.
pub open spec fn room(width: nat) -> int
    decreases width,
{
    if width == 0 {
        1
    } else {
        256 * room((width - 1) as nat)
    }
}

/// The bytes of a number that fits read back as that number.
pub proof fn lemma_little_endian(n: u64, width: nat)
    requires
        n < room(width),
    ensures
        little_endian(n, width).len() == width,
        little_endian_value(little_endian(n, width)) == n,
    decreases width,
{
    if width > 0 {
        let rest = little_endian(n / 256, (width - 1) as nat);
        lemma_little_endian(n / 256, (width - 1) as nat);
        assert(little_endian(n, width).skip(1) =~= rest);
    }
}

pub proof fn lemma_value_range(b: Seq<u8>)
    ensures
        0 <= little_endian_value(b) < room(b.len()),
    decreases b.len(),
{
    if b.len() > 0 {
        lemma_value_range(b.skip(1));
    }
}

/// The bytes of `n`, least significant first.
pub fn little_endian_bytes(n: u64, width: usize) -> (r: Vec<u8>)
    ensures
        r@ == little_endian(n, width as nat),
{
    let mut out: Vec<u8> = Vec::new();
    let mut rest: u64 = n;
    let mut i: usize = 0;
    while i < width
        invariant
            i <= width,
            little_endian(n, width as nat) == out@ + little_endian(rest, (width - i) as nat),
        decreases width - i,
    {
        let ghost before = out@;
        out.push((rest % 256) as u8);
        assert(before + little_endian(rest, (width - i) as nat) =~= out@ + little_endian(
            rest / 256,
            (width - i - 1) as nat,
        ));
        rest = rest / 256;
        i = i + 1;
    }
    assert(out@ + little_endian(rest, 0) =~= out@);
    out
}

/// Reads the number that `width` bytes from `from` on stand for.
pub fn read_little_endian(b: &[u8], from: usize, width: usize) -> (r: u64)
    requires
        from + width <= b@.len(),
        width <= 8,
    ensures
        r == little_endian_value(b@.subrange(from as int, from + width)),
        r < room(width as nat),
    decreases width,
{
    if width == 0 {
        return 0;
    }
    let low: u64 = b[from] as u64;
    let high: u64 = read_little_endian(b, from + 1, width - 1);
    proof {
        let s = b@.subrange(from as int, from + width);
        assert(s.skip(1) =~= b@.subrange(from + 1, from + width));
        lemma_value_range(s);
        lemma_room(width as nat);
    }
    low + 256 * high
}

pub proof fn lemma_room(width: nat)
    requires
        width <= 8,
    ensures
        room(width) <= u64::MAX + 1,
        width <= 4 ==> room(width) <= u32::MAX + 1,
        width == 8 ==> room(width) == u64::MAX + 1,
        width == 4 ==> room(width) == u32::MAX + 1,
{
    reveal_with_fuel(room, 9);
}

/// The 64 bits of a signed number, as an unsigned one.
pub open spec fn bits_of(n: i64) -> u64 {
    if n < 0 {
        (n + 0x1_0000_0000_0000_0000) as u64
    } else {
        n as u64
    }
}

/// The signed number with these 64 bits.
pub open spec fn signed_of(bits: u64) -> i64 {
    if bits > i64::MAX {
        (bits - 0x1_0000_0000_0000_0000) as i64
    } else {
        bits as i64
    }
}

/// The 64 bits of a signed number, as an unsigned one.
pub fn to_bits(n: i64) -> (r: u64)
    ensures
        r == bits_of(n),
{
    if n >= 0 {
        n as u64
    } else {
        ((n - i64::MIN) as u64) + 0x8000_0000_0000_0000
    }
}

/// The signed number with these 64 bits.
pub fn from_bits(bits: u64) -> (r: i64)
    ensures
        r == signed_of(bits),
{
    if bits <= i64::MAX as u64 {
        bits as i64
    } else {
        ((bits - 0x8000_0000_0000_0000) as i64) + i64::MIN
    }
}

/// The bits of a number are those of that number alone.
pub proof fn lemma_bits(n: i64)
    ensures
        signed_of(bits_of(n)) == n,
{
}

} // verus!
