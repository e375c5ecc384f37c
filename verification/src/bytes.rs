//! Numbers as bytes.

use vstd::prelude::*;

verus! {

/// Appends bytes.
pub fn push_bytes(out: &mut Vec<u8>, bytes: &[u8])
    ensures
        final(out)@ == old(out)@ + bytes@,
{
    out.extend_from_slice(bytes);
    assert(out@ =~= old(out)@ + bytes@);
}

/// The four bytes of a number, highest first.
pub open spec fn be32(n: nat) -> Seq<u8> {
    seq![
        (n / 0x100_0000 % 256) as u8,
        (n / 0x1_0000 % 256) as u8,
        (n / 0x100 % 256) as u8,
        (n % 256) as u8,
    ]
}

/// The eight bytes of a number, highest first.
pub open spec fn be64(n: nat) -> Seq<u8> {
    be32(n / 0x1_0000_0000) + be32(n % 0x1_0000_0000)
}

/// The four bytes of a number, highest first.
pub fn to_be32(n: u32) -> (r: [u8; 4])
    ensures
        r@ == be32(n as nat),
{
    let r = [
        (n / 0x100_0000 % 256) as u8,
        (n / 0x1_0000 % 256) as u8,
        (n / 0x100 % 256) as u8,
        (n % 256) as u8,
    ];
    assert(r@ =~= be32(n as nat));
    r
}

/// Appends the eight bytes of a number, highest first.
pub fn push_be64(out: &mut Vec<u8>, n: u64)
    ensures
        final(out)@ == old(out)@ + be64(n as nat),
{
    push_bytes(out, &to_be32((n / 0x1_0000_0000) as u32));
    push_bytes(out, &to_be32((n % 0x1_0000_0000) as u32));
    assert(out@ =~= old(out)@ + be64(n as nat));
}

/// The number whose four bytes, highest first, begin the given ones.
pub open spec fn read_be32(bytes: Seq<u8>) -> nat {
    (bytes[0] * 0x100_0000 + bytes[1] * 0x1_0000 + bytes[2] * 0x100 + bytes[3]) as nat
}

/// The number whose eight bytes, highest first, begin the given ones.
pub open spec fn read_be64(bytes: Seq<u8>) -> nat {
    read_be32(bytes.take(4)) * 0x1_0000_0000 + read_be32(bytes.skip(4))
}

/// A number can be read back from its bytes.
pub proof fn lemma_be32_read_back(n: nat)
    requires
        n <= u32::MAX,
    ensures
        be32(n).len() == 4,
        read_be32(be32(n)) == n,
{
}

/// A number can be read back from its bytes.
pub proof fn lemma_be64_read_back(n: nat)
    requires
        n <= u64::MAX,
    ensures
        be64(n).len() == 8,
        read_be64(be64(n)) == n,
{
    lemma_be32_read_back(n / 0x1_0000_0000);
    lemma_be32_read_back(n % 0x1_0000_0000);
    assert(be64(n).take(4) =~= be32(n / 0x1_0000_0000));
    assert(be64(n).skip(4) =~= be32(n % 0x1_0000_0000));
}

/// The bytes of a number stand for its digits in base 256, the highest first.
pub proof fn lemma_be32_digits(a: u8, b: u8, c: u8, d: u8)
    ensures
        be32((a * 0x100_0000 + b * 0x1_0000 + c * 0x100 + d) as nat) == seq![a, b, c, d],
{
    let n = a * 0x100_0000 + b * 0x1_0000 + c * 0x100 + d;
    assert(n / 0x100_0000 == a);
    assert(n / 0x1_0000 == a * 0x100 + b);
    assert(n / 0x100 == a * 0x1_0000 + b * 0x100 + c);
    assert((a * 0x100 + b) % 256 == b);
    assert((a * 0x1_0000 + b * 0x100 + c) % 256 == c);
    assert(n % 256 == d);
}

/// The higher four bytes of a number come before its lower four.
pub proof fn lemma_be64_halves(high: nat, low: nat)
    requires
        low < 0x1_0000_0000,
    ensures
        be64(high * 0x1_0000_0000 + low) == be32(high) + be32(low),
{
    assert((high * 0x1_0000_0000 + low) / 0x1_0000_0000 == high);
    assert((high * 0x1_0000_0000 + low) % 0x1_0000_0000 == low);
}

} // verus!
