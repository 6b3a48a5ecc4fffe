//! Byte sequences: copying, and integers as bytes in either order.

use vstd::prelude::*;
use vstd::slice::slice_subrange;
use vstd::slice::slice_to_vec;

verus! {

/// The number that the bytes `s` write in base 256, most significant byte first.
pub open spec fn be_nat(s: Seq<u8>) -> nat
    decreases s.len(),
{
    if s.len() == 0 {
        0
    } else {
        be_nat(s.drop_last()) * 256 + s.last() as nat
    }
}

/// The `width` lowest base-256 digits of `n`, most significant byte first.
pub open spec fn be_bytes(n: nat, width: nat) -> Seq<u8>
    decreases width,
{
    if width == 0 {
        seq![]
    } else {
        be_bytes(n / 256, (width - 1) as nat).push((n % 256) as u8)
    }
}

/// The `width` lowest base-256 digits of `n`, least significant byte first.
pub open spec fn le_bytes(n: nat, width: nat) -> Seq<u8>
    decreases width,
{
    if width == 0 {
        seq![]
    } else {
        seq![(n % 256) as u8] + le_bytes(n / 256, (width - 1) as nat)
    }
}

pub proof fn lemma_be_bytes_len(n: nat, width: nat)
    ensures
        be_bytes(n, width).len() == width,
    decreases width,
{
    if width > 0 {
        lemma_be_bytes_len(n / 256, (width - 1) as nat);
    }
}

/// Writing out the number that some bytes stand for gives the bytes back.
pub proof fn lemma_be_bytes_of_be_nat(s: Seq<u8>)
    ensures
        be_bytes(be_nat(s), s.len()) == s,
    decreases s.len(),
{
    if s.len() > 0 {
        let front = s.drop_last();
        let n = be_nat(s);
        lemma_be_bytes_of_be_nat(front);
        assert(n / 256 == be_nat(front) && n % 256 == s.last() as nat) by (nonlinear_arith)
            requires
                n == be_nat(front) * 256 + s.last() as nat,
                s.last() as nat <= 255,
        ;
        assert(front.push(s.last()) == s);
    }
}

/// The number that the bytes `s` write in base 256, least significant byte first.
pub open spec fn le_nat(s: Seq<u8>) -> nat
    decreases s.len(),
{
    if s.len() == 0 {
        0
    } else {
        s[0] as nat + 256 * le_nat(s.skip(1))
    }
}

/// The signed 32-bit value that four bytes write in two's complement, least significant first.
pub open spec fn le_signed_32(s: Seq<u8>) -> i32 {
    let n = le_nat(s);
    if n < 0x8000_0000 {
        n as i32
    } else {
        (n - 0x1_0000_0000) as i32
    }
}

/// The number that the first four of `bytes` write, least significant first.
pub fn read_le_u32(bytes: &[u8]) -> (value: u32)
    requires
        bytes@.len() >= 4,
    ensures
        value == le_nat(bytes@.take(4)),
{
    proof {
        let s = bytes@.take(4);
        reveal_with_fuel(le_nat, 5);
        assert(s.skip(1).skip(1) =~= s.skip(2));
        assert(s.skip(2).skip(1) =~= s.skip(3));
    }
    bytes[0] as u32 + 256 * (bytes[1] as u32 + 256 * (bytes[2] as u32 + 256 * (bytes[3] as u32)))
}

/// The four bytes of `value`, least significant first.
pub fn le_u32(value: u32) -> (bytes: [u8; 4])
    ensures
        bytes@ == le_bytes(value as nat, 4),
{
    let q1: u32 = value / 256;
    let q2: u32 = q1 / 256;
    let q3: u32 = q2 / 256;
    let bytes: [u8; 4] = [(value % 256) as u8, (q1 % 256) as u8, (q2 % 256) as u8, (q3 % 256) as u8];
    proof {
        reveal_with_fuel(le_bytes, 5);
        assert(le_bytes(value as nat, 4) =~= bytes@);
    }
    bytes
}

/// The number that `i` stands for as a signed 16-bit value in two's complement.
pub open spec fn twos_complement_16(i: i16) -> nat {
    (i as int % 0x1_0000) as nat
}

/// The number that `i` stands for as a signed 32-bit value in two's complement.
pub open spec fn twos_complement_32(i: i32) -> nat {
    (i as int % 0x1_0000_0000) as nat
}

/// The number that `i` stands for as a signed 64-bit value in two's complement.
pub open spec fn twos_complement_64(i: i64) -> nat {
    (i as int % 0x1_0000_0000_0000_0000) as nat
}

/// The two bytes of `value` in two's complement, least significant first.
pub fn le_i16(value: i16) -> (bytes: [u8; 2])
    ensures
        bytes@ == le_bytes(twos_complement_16(value), 2),
{
    let unsigned: u32 = if value < 0 {
        (value as i32 + 0x1_0000) as u32
    } else {
        value as u32
    };
    let bytes: [u8; 2] = [(unsigned % 256) as u8, (unsigned / 256) as u8];
    proof {
        assert(unsigned == twos_complement_16(value));
        reveal_with_fuel(le_bytes, 3);
        assert(le_bytes(unsigned as nat, 2) =~= bytes@);
    }
    bytes
}

/// A sequence of `len` zero bytes.
pub open spec fn zeros(len: nat) -> Seq<u8> {
    Seq::new(len, |i: int| 0u8)
}

/// Appends `len` zero bytes to `out`.
pub fn push_zeros(out: &mut Vec<u8>, len: usize)
    ensures
        final(out)@ == old(out)@ + zeros(len as nat),
{
    let tail: Vec<u8> = vec![0u8; len];
    assert(tail@ =~= zeros(len as nat));
    append(out, &tail);
}

/// Appends `tail` to `out`.
pub fn append(out: &mut Vec<u8>, tail: &[u8])
    ensures
        final(out)@ == old(out)@ + tail@,
{
    out.extend_from_slice(tail);
    assert(out@ =~= old(out)@ + tail@);
}

/// The bytes of `data` from `from` up to but not including `to`.
pub fn slice_copy(data: &[u8], from: usize, to: usize) -> (out: Vec<u8>)
    requires
        from <= to <= data@.len(),
    ensures
        out@ == data@.subrange(from as int, to as int),
{
    slice_to_vec(slice_subrange(data, from, to))
}

/// Whether the two byte strings are the same.
pub fn same_bytes(a: &[u8], b: &[u8]) -> (same: bool)
    ensures
        same == (a@ == b@),
{
    if a.len() != b.len() {
        return false;
    }
    let mut i: usize = 0;
    while i < a.len()
        invariant
            a@.len() == b@.len(),
            i <= a@.len(),
            forall|k: int| 0 <= k < i ==> a@[k] == b@[k],
        decreases a@.len() - i,
    {
        if a[i] != b[i] {
            return false;
        }
        i += 1;
    }
    assert(a@ =~= b@);
    true
}

/// How many numbers `width` bytes can write.
pub open spec fn numbers_of(width: nat) -> nat
    decreases width,
{
    if width == 0 {
        1
    } else {
        256 * numbers_of((width - 1) as nat)
    }
}

/// A number is read back from the bytes that write it, in either order, as far as it fits into
/// them; and there are as many bytes as asked for.
pub proof fn law_numbers_are_read_back(n: nat, width: nat)
    requires
        n < numbers_of(width),
    ensures
        le_bytes(n, width).len() == width,
        le_nat(le_bytes(n, width)) == n,
        be_bytes(n, width).len() == width,
        be_nat(be_bytes(n, width)) == n,
    decreases width,
{
    if width > 0 {
        let less = (width - 1) as nat;
        law_numbers_are_read_back(n / 256, less);
        let little = le_bytes(n, width);
        let big = be_bytes(n, width);
        assert(little.skip(1) =~= le_bytes(n / 256, less));
        assert(little[0] == (n % 256) as u8);
        assert(big.drop_last() =~= be_bytes(n / 256, less));
    }
}

/// The order of the bytes: the first of them is the least significant one or the most significant
/// one, and the other order is the same bytes backwards.
pub proof fn law_byte_orders_mirror_each_other(n: nat, width: nat)
    ensures
        be_bytes(n, width) == le_bytes(n, width).reverse(),
        width > 0 ==> le_bytes(n, width)[0] == n % 256,
    decreases width,
{
    if width > 0 {
        let less = (width - 1) as nat;
        law_byte_orders_mirror_each_other(n / 256, less);
        assert(le_bytes(n, width) =~= seq![(n % 256) as u8] + le_bytes(n / 256, less));
        assert(be_bytes(n, width) =~= le_bytes(n, width).reverse());
    } else {
        assert(be_bytes(n, width) =~= le_bytes(n, width).reverse());
    }
}

/// A signed number is read back from the four bytes that write it in two's complement.
pub proof fn law_signed_numbers_are_read_back(i: i32)
    ensures
        le_signed_32(le_bytes(twos_complement_32(i), 4)) == i,
{
    reveal_with_fuel(numbers_of, 5);
    law_numbers_are_read_back(twos_complement_32(i), 4);
}

} // verus!
