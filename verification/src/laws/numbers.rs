//! Big-endian numbers, byte by byte.

use vstd::prelude::*;

use crate::wire;

verus! {

/// The low two bytes of an integer in two's complement, most significant first.
pub open spec fn two(i: int) -> Seq<u8> {
    seq![((i / 256) % 256) as u8, (i % 256) as u8]
}

/// The low four bytes of an integer in two's complement, most significant first.
pub open spec fn four(i: int) -> Seq<u8> {
    seq![
        ((i / 16777216) % 256) as u8,
        ((i / 65536) % 256) as u8,
        ((i / 256) % 256) as u8,
        (i % 256) as u8,
    ]
}

/// The low eight bytes of an integer in two's complement, most significant first.
pub open spec fn eight(i: int) -> Seq<u8> {
    four(i / 4294967296) + four(i)
}

proof fn lemma_four(n: nat)
    ensures
        wire::be_bytes(n, 4) == four(n as int),
{
    reveal_with_fuel(wire::be_bytes, 5);
    assert(n / 256 / 256 == n / 65536);
    assert(n / 256 / 256 / 256 == n / 16777216);
    assert(wire::be_bytes(n, 4) =~= four(n as int));
}

proof fn lemma_eight(n: nat)
    ensures
        wire::be_bytes(n, 8) == eight(n as int),
{
    lemma_four(n);
    lemma_four(n / 4294967296);
    let m = n / 256 / 256 / 256 / 256;
    assert(m == n / 4294967296);
    assert(wire::be_bytes(n, 8) =~= wire::be_bytes(m, 4) + wire::be_bytes(n, 4)) by {
        reveal_with_fuel(wire::be_bytes, 5);
        let a = wire::be_bytes(m, 4);
        let b = n / 256 / 256 / 256;
        let c = n / 256 / 256;
        let d = n / 256;
        assert(wire::be_bytes(b, 5) == a.push((b % 256) as u8));
        assert(wire::be_bytes(c, 6) == wire::be_bytes(b, 5).push((c % 256) as u8));
        assert(wire::be_bytes(d, 7) == wire::be_bytes(c, 6).push((d % 256) as u8));
        assert(wire::be_bytes(n, 8) == wire::be_bytes(d, 7).push((n % 256) as u8));
    }
}

proof fn lemma_narrow_numbers(i: int)
    ensures
        -128 <= i < 128 ==> wire::be_int_bytes(i, 1) == seq![(i % 256) as u8],
        -32768 <= i < 32768 ==> wire::be_int_bytes(i, 2) == two(i),
{
    wire::lemma_byte_ranges();
    reveal_with_fuel(wire::be_bytes, 3);
    let n = if i < 0 { (i + 256) as nat } else { i as nat };
    let m = if i < 0 { (i + 65536) as nat } else { i as nat };
    if -128 <= i < 128 {
        assert(n % 256 == i % 256);
        assert(wire::be_int_bytes(i, 1) =~= seq![(i % 256) as u8]);
    }
    if -32768 <= i < 32768 {
        assert(m % 256 == i % 256);
        assert((m / 256) % 256 == (i / 256) % 256);
        assert(wire::be_int_bytes(i, 2) =~= two(i));
    }
}

/// The low byte of an integer does not change with a multiple of what it holds.
proof fn lemma_low_byte(q: int, m: int)
    ensures
        (q + 256 * m) % 256 == q % 256,
{
}

/// Four bytes hold an integer up to a multiple of what they can hold.
proof fn lemma_four_wraps(i: int, m: int)
    ensures
        four(i + 4294967296 * m) == four(i),
{
    let j = i + 4294967296 * m;
    assert(j / 16777216 == i / 16777216 + 256 * m);
    assert(j / 65536 == i / 65536 + 256 * (256 * m));
    assert(j / 256 == i / 256 + 256 * (65536 * m));
    lemma_low_byte(i / 16777216, m);
    lemma_low_byte(i / 65536, 256 * m);
    lemma_low_byte(i / 256, 65536 * m);
    lemma_low_byte(i, 16777216 * m);
}

proof fn lemma_wide_numbers(i: int)
    ensures
        -2147483648 <= i < 2147483648 ==> wire::be_int_bytes(i, 4) == four(i),
        i64::MIN <= i <= i64::MAX ==> wire::be_int_bytes(i, 8) == eight(i),
{
    wire::lemma_byte_ranges();
    if -2147483648 <= i < 0 {
        lemma_four((i + 4294967296) as nat);
        lemma_four_wraps(i, 1);
    }
    if 0 <= i {
        lemma_four(i as nat);
        lemma_eight(i as nat);
    }
    if i64::MIN <= i < 0 {
        let n = i + 18446744073709551616;
        lemma_eight(n as nat);
        lemma_four_wraps(i, 4294967296);
        assert(n / 4294967296 == i / 4294967296 + 4294967296);
        lemma_four_wraps(i / 4294967296, 1);
    }
}

/// **Numbers are written most significant byte first**, in two's complement.
pub proof fn law_numbers_are_written_big_endian(i: int)
    ensures
        -128 <= i < 128 ==> wire::be_int_bytes(i, 1) == seq![(i % 256) as u8],
        -32768 <= i < 32768 ==> wire::be_int_bytes(i, 2) == two(i),
        -2147483648 <= i < 2147483648 ==> wire::be_int_bytes(i, 4) == four(i),
        i64::MIN <= i <= i64::MAX ==> wire::be_int_bytes(i, 8) == eight(i),
        0 <= i < 4294967296 ==> wire::be_bytes(i as nat, 4) == four(i),
{
    lemma_narrow_numbers(i);
    lemma_wide_numbers(i);
    if 0 <= i {
        lemma_four(i as nat);
    }
}

/// The two's complement number that two bytes of an input hold.
pub open spec fn i16_at(d: Seq<u8>, i: int) -> int {
    let n = d[i] * 256 + d[i + 1];
    if n < 32768 {
        n
    } else {
        n - 65536
    }
}

/// The natural number that four bytes of an input hold.
pub open spec fn u32_at(d: Seq<u8>, i: int) -> int {
    d[i] * 16777216 + d[i + 1] * 65536 + d[i + 2] * 256 + d[i + 3]
}

/// The two's complement number that four bytes of an input hold.
pub open spec fn i32_at(d: Seq<u8>, i: int) -> int {
    let n = u32_at(d, i);
    if n < 2147483648 {
        n
    } else {
        n - 4294967296
    }
}

/// The natural number that eight bytes of an input hold.
pub open spec fn u64_at(d: Seq<u8>, i: int) -> int {
    u32_at(d, i) * 4294967296 + u32_at(d, i + 4)
}

/// The two's complement number that eight bytes of an input hold.
pub open spec fn i64_at(d: Seq<u8>, i: int) -> int {
    let n = u64_at(d, i);
    if n < 9223372036854775808 {
        n
    } else {
        n - 18446744073709551616
    }
}

proof fn lemma_read_four(d: Seq<u8>)
    requires
        d.len() == 4,
    ensures
        wire::be_nat(d) == u32_at(d, 0),
        0 <= u32_at(d, 0) < 4294967296,
{
    reveal_with_fuel(wire::be_nat, 5);
}

proof fn lemma_read_eight(d: Seq<u8>)
    requires
        d.len() == 8,
    ensures
        wire::be_nat(d) == u64_at(d, 0),
        0 <= u64_at(d, 0) < 18446744073709551616,
{
    let a = d.drop_last();
    let b = a.drop_last();
    let c = b.drop_last();
    let e = c.drop_last();
    lemma_read_four(e);
    assert(wire::be_nat(c) == wire::be_nat(e) * 256 + d[4]);
    assert(wire::be_nat(b) == wire::be_nat(c) * 256 + d[5]);
    assert(wire::be_nat(a) == wire::be_nat(b) * 256 + d[6]);
    assert(wire::be_nat(d) == wire::be_nat(a) * 256 + d[7]);
    assert(u32_at(e, 0) == u32_at(d, 0));
}

/// **Numbers are read most significant byte first**, in two's complement where
/// they are signed.
pub proof fn law_numbers_are_read_big_endian(d: Seq<u8>)
    ensures
        d.len() == 1 ==> wire::be_int(d) == if d[0] < 128 { d[0] as int } else { d[0] - 256 },
        d.len() == 2 ==> wire::be_int(d) == i16_at(d, 0),
        d.len() == 4 ==> wire::be_nat(d) == u32_at(d, 0),
        d.len() == 4 ==> wire::be_int(d) == i32_at(d, 0),
        d.len() == 8 ==> wire::be_nat(d) == u64_at(d, 0),
        d.len() == 8 ==> wire::be_int(d) == i64_at(d, 0),
{
    wire::lemma_byte_ranges();
    if d.len() <= 2 {
        reveal_with_fuel(wire::be_nat, 3);
    }
    if d.len() == 4 {
        lemma_read_four(d);
    }
    if d.len() == 8 {
        lemma_read_eight(d);
    }
}

} // verus!
