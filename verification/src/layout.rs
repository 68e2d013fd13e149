//! Numbers as they lie in a scratch file.

use vstd::prelude::*;

verus! {

/// The order in which the bytes of a number lie in a file.
#[derive(Clone, Copy, Debug, PartialEq, Eq, Structural)]
pub enum ByteOrder {
    /// Least significant byte first.
    Little,
    /// Most significant byte first.
    Big,
}

/// `u16::from_ne_bytes` of std, on the bytes 1 and 0: 1 on a machine that puts
/// the least significant byte first, 256 on one that puts it last.
#[verifier::external_body]
fn native_probe() -> (r: u16)
    ensures
        r == 1 || r == 256,
{
    u16::from_ne_bytes([1, 0])
}

/// The number that two bytes stand for in the given order.
pub open spec fn spec_u16(b: Seq<u8>, order: ByteOrder) -> int
    recommends
        b.len() >= 2,
{
    match order {
        ByteOrder::Little => b[0] + b[1] * 0x100,
        ByteOrder::Big => b[1] + b[0] * 0x100,
    }
}

impl ByteOrder {
    /// The byte order in which the bytes 1 and 0 stand for the marker: the
    /// least significant byte comes first where they stand for 1, and last
    /// where they stand for 256, or for any other number.
    pub fn of_marker(marker: u16) -> (order: ByteOrder)
        ensures
            order == (if marker == 1 {
                ByteOrder::Little
            } else {
                ByteOrder::Big
            }),
            marker == 1 || marker == 256 ==> spec_u16(seq![1u8, 0u8], order) == marker,
    {
        if marker == 1 {
            ByteOrder::Little
        } else {
            ByteOrder::Big
        }
    }

    /// The byte order of the machine that runs this, which is the order of the
    /// files that its processes write.
    pub fn native() -> ByteOrder {
        ByteOrder::of_marker(native_probe())
    }
}

/// The number that four bytes stand for, least significant byte first.
pub open spec fn le32(b: Seq<u8>) -> int {
    b[0] + b[1] * 0x100 + b[2] * 0x1_0000 + b[3] * 0x100_0000
}

/// The number that eight bytes stand for, least significant byte first.
pub open spec fn le64(b: Seq<u8>) -> int {
    b[0] + b[1] * 0x100 + b[2] * 0x1_0000 + b[3] * 0x100_0000 + b[4] * 0x1_0000_0000 + b[5]
        * 0x100_0000_0000 + b[6] * 0x1_0000_0000_0000 + b[7] * 0x100_0000_0000_0000
}

/// The 32-bit number that the first four bytes of `b` stand for.
#[verifier::opaque]
pub open spec fn spec_u32(b: Seq<u8>, order: ByteOrder) -> u32
    recommends
        b.len() >= 4,
{
    match order {
        ByteOrder::Little => le32(b) as u32,
        ByteOrder::Big => le32(seq![b[3], b[2], b[1], b[0]]) as u32,
    }
}

/// The 64-bit number that the first eight bytes of `b` stand for.
#[verifier::opaque]
pub open spec fn spec_u64(b: Seq<u8>, order: ByteOrder) -> u64
    recommends
        b.len() >= 8,
{
    match order {
        ByteOrder::Little => le64(b) as u64,
        ByteOrder::Big => le64(seq![b[7], b[6], b[5], b[4], b[3], b[2], b[1], b[0]]) as u64,
    }
}

/// The four bytes of a 32-bit number, least significant first.
pub open spec fn le32_bytes(x: u32) -> Seq<u8> {
    seq![
        (x % 0x100) as u8,
        (x / 0x100 % 0x100) as u8,
        (x / 0x1_0000 % 0x100) as u8,
        (x / 0x100_0000 % 0x100) as u8,
    ]
}

/// The eight bytes of a 64-bit number, least significant first.
pub open spec fn le64_bytes(x: u64) -> Seq<u8> {
    seq![
        (x % 0x100) as u8,
        (x / 0x100 % 0x100) as u8,
        (x / 0x1_0000 % 0x100) as u8,
        (x / 0x100_0000 % 0x100) as u8,
        (x / 0x1_0000_0000 % 0x100) as u8,
        (x / 0x100_0000_0000 % 0x100) as u8,
        (x / 0x1_0000_0000_0000 % 0x100) as u8,
        (x / 0x100_0000_0000_0000 % 0x100) as u8,
    ]
}

/// The four bytes of a 32-bit number in the given order.
#[verifier::opaque]
pub open spec fn spec_u32_bytes(x: u32, order: ByteOrder) -> Seq<u8> {
    match order {
        ByteOrder::Little => le32_bytes(x),
        ByteOrder::Big => le32_bytes(x).reverse(),
    }
}

/// The eight bytes of a 64-bit number in the given order.
#[verifier::opaque]
pub open spec fn spec_u64_bytes(x: u64, order: ByteOrder) -> Seq<u8> {
    match order {
        ByteOrder::Little => le64_bytes(x),
        ByteOrder::Big => le64_bytes(x).reverse(),
    }
}

/// Reading back the bytes of a 32-bit number gives the number.
pub proof fn lemma_u32_round_trip(x: u32, order: ByteOrder)
    ensures
        spec_u32_bytes(x, order).len() == 4,
        spec_u32(spec_u32_bytes(x, order), order) == x,
{
    reveal(spec_u32);
    reveal(spec_u32_bytes);
    let b = le32_bytes(x);
    assert(le32(b) == x);
    assert(seq![b.reverse()[3], b.reverse()[2], b.reverse()[1], b.reverse()[0]] =~= b);
}

/// Reading back the bytes of a 64-bit number gives the number.
pub proof fn lemma_u64_round_trip(x: u64, order: ByteOrder)
    ensures
        spec_u64_bytes(x, order).len() == 8,
        spec_u64(spec_u64_bytes(x, order), order) == x,
{
    reveal(spec_u64);
    reveal(spec_u64_bytes);
    let b = le64_bytes(x);
    assert(x == (x % 0x100) + (x / 0x100 % 0x100) * 0x100 + (x / 0x1_0000 % 0x100) * 0x1_0000 + (x
        / 0x100_0000 % 0x100) * 0x100_0000 + (x / 0x1_0000_0000 % 0x100) * 0x1_0000_0000 + (x
        / 0x100_0000_0000 % 0x100) * 0x100_0000_0000 + (x / 0x1_0000_0000_0000 % 0x100)
        * 0x1_0000_0000_0000 + (x / 0x100_0000_0000_0000 % 0x100) * 0x100_0000_0000_0000)
        by (bit_vector);
    assert(le64(b) == x);
    let r = b.reverse();
    assert(seq![r[7], r[6], r[5], r[4], r[3], r[2], r[1], r[0]] =~= b);
}

/// Reads the 32-bit number at `pos`.
pub fn read_u32(data: &Vec<u8>, pos: usize, order: ByteOrder) -> (x: u32)
    requires
        pos + 4 <= data.len(),
    ensures
        x == spec_u32(data@.subrange(pos as int, pos + 4), order),
{
    let b0: u32 = data[pos] as u32;
    let b1: u32 = data[pos + 1] as u32;
    let b2: u32 = data[pos + 2] as u32;
    let b3: u32 = data[pos + 3] as u32;
    proof {
        reveal(spec_u32);
    }
    match order {
        ByteOrder::Little => b0 + b1 * 0x100 + b2 * 0x1_0000 + b3 * 0x100_0000,
        ByteOrder::Big => b3 + b2 * 0x100 + b1 * 0x1_0000 + b0 * 0x100_0000,
    }
}

/// Reads the 64-bit number at `pos`.
pub fn read_u64(data: &Vec<u8>, pos: usize, order: ByteOrder) -> (x: u64)
    requires
        pos + 8 <= data.len(),
    ensures
        x == spec_u64(data@.subrange(pos as int, pos + 8), order),
{
    let b0: u64 = data[pos] as u64;
    let b1: u64 = data[pos + 1] as u64;
    let b2: u64 = data[pos + 2] as u64;
    let b3: u64 = data[pos + 3] as u64;
    let b4: u64 = data[pos + 4] as u64;
    let b5: u64 = data[pos + 5] as u64;
    let b6: u64 = data[pos + 6] as u64;
    let b7: u64 = data[pos + 7] as u64;
    proof {
        reveal(spec_u64);
    }
    match order {
        ByteOrder::Little => b0 + b1 * 0x100 + b2 * 0x1_0000 + b3 * 0x100_0000 + b4
            * 0x1_0000_0000 + b5 * 0x100_0000_0000 + b6 * 0x1_0000_0000_0000 + b7
            * 0x100_0000_0000_0000,
        ByteOrder::Big => b7 + b6 * 0x100 + b5 * 0x1_0000 + b4 * 0x100_0000 + b3 * 0x1_0000_0000
            + b2 * 0x100_0000_0000 + b1 * 0x1_0000_0000_0000 + b0 * 0x100_0000_0000_0000,
    }
}

/// Appends the bytes of a 32-bit number.
pub fn write_u32(out: &mut Vec<u8>, x: u32, order: ByteOrder)
    ensures
        final(out)@ == old(out)@ + spec_u32_bytes(x, order),
{
    let b0: u8 = (x % 0x100) as u8;
    let b1: u8 = (x / 0x100 % 0x100) as u8;
    let b2: u8 = (x / 0x1_0000 % 0x100) as u8;
    let b3: u8 = (x / 0x100_0000 % 0x100) as u8;
    match order {
        ByteOrder::Little => {
            out.push(b0);
            out.push(b1);
            out.push(b2);
            out.push(b3);
        },
        ByteOrder::Big => {
            out.push(b3);
            out.push(b2);
            out.push(b1);
            out.push(b0);
        },
    }
    proof {
        reveal(spec_u32_bytes);
    }
    assert(out@ =~= old(out)@ + spec_u32_bytes(x, order));
}

/// Appends the bytes of a 64-bit number.
pub fn write_u64(out: &mut Vec<u8>, x: u64, order: ByteOrder)
    ensures
        final(out)@ == old(out)@ + spec_u64_bytes(x, order),
{
    let b0: u8 = (x % 0x100) as u8;
    let b1: u8 = (x / 0x100 % 0x100) as u8;
    let b2: u8 = (x / 0x1_0000 % 0x100) as u8;
    let b3: u8 = (x / 0x100_0000 % 0x100) as u8;
    let b4: u8 = (x / 0x1_0000_0000 % 0x100) as u8;
    let b5: u8 = (x / 0x100_0000_0000 % 0x100) as u8;
    let b6: u8 = (x / 0x1_0000_0000_0000 % 0x100) as u8;
    let b7: u8 = (x / 0x100_0000_0000_0000 % 0x100) as u8;
    match order {
        ByteOrder::Little => {
            out.push(b0);
            out.push(b1);
            out.push(b2);
            out.push(b3);
            out.push(b4);
            out.push(b5);
            out.push(b6);
            out.push(b7);
        },
        ByteOrder::Big => {
            out.push(b7);
            out.push(b6);
            out.push(b5);
            out.push(b4);
            out.push(b3);
            out.push(b2);
            out.push(b1);
            out.push(b0);
        },
    }
    proof {
        reveal(spec_u64_bytes);
    }
    assert(out@ =~= old(out)@ + spec_u64_bytes(x, order));
}

} // verus!
