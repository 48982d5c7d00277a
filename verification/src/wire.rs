//! Big-endian integers.

use vstd::prelude::*;

verus! {

/// The number of values that `width` bytes can hold.
pub open spec fn byte_range(width: nat) -> nat
    decreases width,
{
    if width == 0 {
        1
    } else {
        256 * byte_range((width - 1) as nat)
    }
}

/// The natural number that a big-endian byte string writes.
pub open spec fn be_nat(bytes: Seq<u8>) -> nat
    decreases bytes.len(),
{
    if bytes.len() == 0 {
        0
    } else {
        be_nat(bytes.drop_last()) * 256 + bytes.last() as nat
    }
}

/// The big-endian bytes of a natural number, most significant first.
pub open spec fn be_bytes(n: nat, width: nat) -> Seq<u8>
    decreases width,
{
    if width == 0 {
        Seq::empty()
    } else {
        be_bytes(n / 256, (width - 1) as nat).push((n % 256) as u8)
    }
}

/// The integer that a big-endian byte string writes in two's complement.
pub open spec fn be_int(bytes: Seq<u8>) -> int {
    if 2 * be_nat(bytes) < byte_range(bytes.len()) {
        be_nat(bytes) as int
    } else {
        be_nat(bytes) - byte_range(bytes.len())
    }
}

/// The big-endian bytes of an integer in two's complement.
pub open spec fn be_int_bytes(i: int, width: nat) -> Seq<u8> {
    be_bytes(
        if i < 0 {
            (i + byte_range(width)) as nat
        } else {
            i as nat
        },
        width,
    )
}

/// Whether `width` bytes can hold an integer in two's complement.
pub open spec fn int_fits(i: int, width: nat) -> bool {
    -(byte_range(width) as int) <= 2 * i < byte_range(width)
}

/// The sizes of the byte widths that the layouts use.
pub proof fn lemma_byte_ranges()
    ensures
        byte_range(1) == 0x100,
        byte_range(2) == 0x1_0000,
        byte_range(4) == 0x1_0000_0000,
        byte_range(8) == 0x1_0000_0000_0000_0000,
{
    reveal_with_fuel(byte_range, 9);
}

pub proof fn lemma_be_bytes_len(n: nat, width: nat)
    ensures
        be_bytes(n, width).len() == width,
    decreases width,
{
    if width > 0 {
        lemma_be_bytes_len(n / 256, (width - 1) as nat);
    }
}

/// Reading the bytes of a number gives the number back.
pub proof fn lemma_be_nat_of_bytes(n: nat, width: nat)
    requires
        n < byte_range(width),
    ensures
        be_nat(be_bytes(n, width)) == n,
    decreases width,
{
    if width > 0 {
        lemma_be_nat_of_bytes(n / 256, (width - 1) as nat);
        let bytes = be_bytes(n, width);
        assert(bytes.drop_last() =~= be_bytes(n / 256, (width - 1) as nat));
    }
}

/// Writing the number that bytes hold gives the bytes back.
pub proof fn lemma_be_bytes_of_nat(bytes: Seq<u8>)
    ensures
        be_nat(bytes) < byte_range(bytes.len()),
        be_bytes(be_nat(bytes), bytes.len()) == bytes,
    decreases bytes.len(),
{
    if bytes.len() > 0 {
        lemma_be_bytes_of_nat(bytes.drop_last());
        assert(be_nat(bytes) / 256 == be_nat(bytes.drop_last()));
        assert(be_nat(bytes) % 256 == bytes.last() as nat);
        assert(bytes =~= bytes.drop_last().push(bytes.last()));
    } else {
        assert(be_bytes(be_nat(bytes), bytes.len()) =~= bytes);
    }
}

/// Reading the bytes of an integer gives the integer back.
pub proof fn lemma_be_int_of_bytes(i: int, width: nat)
    requires
        int_fits(i, width),
    ensures
        be_int_bytes(i, width).len() == width,
        be_int(be_int_bytes(i, width)) == i,
{
    let n = if i < 0 {
        (i + byte_range(width)) as nat
    } else {
        i as nat
    };
    lemma_be_bytes_len(n, width);
    lemma_be_nat_of_bytes(n, width);
}

/// Writing the integer that bytes hold gives the bytes back.
pub proof fn lemma_be_bytes_of_int(bytes: Seq<u8>)
    ensures
        int_fits(be_int(bytes), bytes.len()),
        be_int_bytes(be_int(bytes), bytes.len()) == bytes,
{
    lemma_be_bytes_of_nat(bytes);
    if bytes.len() > 0 {
        assert(byte_range(bytes.len()) == 256 * byte_range((bytes.len() - 1) as nat));
    }
}

/// Reads a big-endian natural number of at most eight bytes.
pub fn read_nat(bytes: &[u8]) -> (n: u64)
    requires
        bytes@.len() <= 8,
    ensures
        n == be_nat(bytes@),
{
    let mut n: u64 = 0;
    let mut i: usize = 0;
    proof {
        assert(bytes@.take(0) =~= Seq::<u8>::empty());
    }
    while i < bytes.len()
        invariant
            i <= bytes@.len() <= 8,
            n == be_nat(bytes@.take(i as int)),
        decreases bytes@.len() - i,
    {
        proof {
            let head = bytes@.take(i as int);
            lemma_be_bytes_of_nat(head);
            reveal_with_fuel(byte_range, 9);
            assert(head.len() == i);
            assert(be_nat(head) * 256 + 255 < 0x1_0000_0000_0000_0000) by {
                assert(be_nat(head) < byte_range(i as nat));
                assert(byte_range(i as nat) <= byte_range(7)) by {
                    lemma_byte_range_monotone(i as nat, 7);
                }
            }
            assert(bytes@.take(i + 1).drop_last() =~= head);
        }
        n = n * 256 + bytes[i] as u64;
        i = i + 1;
    }
    proof {
        assert(bytes@.take(i as int) =~= bytes@);
    }
    n
}

proof fn lemma_byte_range_monotone(a: nat, b: nat)
    requires
        a <= b,
    ensures
        0 < byte_range(a) <= byte_range(b),
    decreases b,
{
    if a < b {
        lemma_byte_range_monotone(a, (b - 1) as nat);
    } else if a > 0 {
        lemma_byte_range_monotone((a - 1) as nat, (b - 1) as nat);
    }
}

/// Reads a big-endian `i8`.
pub fn read_i8(bytes: &[u8]) -> (i: i8)
    requires
        bytes@.len() == 1,
    ensures
        i == be_int(bytes@),
{
    proof {
        lemma_byte_ranges();
        lemma_be_bytes_of_nat(bytes@);
    }
    let n: u64 = read_nat(bytes);
    if n < 0x80 {
        n as i8
    } else {
        (n as i64 - 0x100) as i8
    }
}

/// Reads a big-endian `i16`.
pub fn read_i16(bytes: &[u8]) -> (i: i16)
    requires
        bytes@.len() == 2,
    ensures
        i == be_int(bytes@),
{
    proof {
        lemma_byte_ranges();
        lemma_be_bytes_of_nat(bytes@);
    }
    let n: u64 = read_nat(bytes);
    if n < 0x8000 {
        n as i16
    } else {
        (n as i64 - 0x1_0000) as i16
    }
}

/// Reads a big-endian `i32`.
pub fn read_i32(bytes: &[u8]) -> (i: i32)
    requires
        bytes@.len() == 4,
    ensures
        i == be_int(bytes@),
{
    proof {
        lemma_byte_ranges();
        lemma_be_bytes_of_nat(bytes@);
    }
    let n: u64 = read_nat(bytes);
    if n < 0x8000_0000 {
        n as i32
    } else {
        (n as i64 - 0x1_0000_0000) as i32
    }
}

/// Reads a big-endian `i64`.
pub fn read_i64(bytes: &[u8]) -> (i: i64)
    requires
        bytes@.len() == 8,
    ensures
        i == be_int(bytes@),
{
    proof {
        lemma_byte_ranges();
        lemma_be_bytes_of_nat(bytes@);
    }
    let n: u64 = read_nat(bytes);
    if n < 0x8000_0000_0000_0000 {
        n as i64
    } else {
        (n - 0x8000_0000_0000_0000) as i64 + i64::MIN
    }
}

/// Reads a big-endian `u32`.
pub fn read_u32(bytes: &[u8]) -> (n: u32)
    requires
        bytes@.len() == 4,
    ensures
        n == be_nat(bytes@),
{
    proof {
        lemma_byte_ranges();
        lemma_be_bytes_of_nat(bytes@);
    }
    read_nat(bytes) as u32
}

} // verus!
