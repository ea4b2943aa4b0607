//! Big-endian numbers.

use vstd::prelude::*;

verus! {

/// The four bytes of a number, most significant first.
pub open spec fn be_bytes(n: u32) -> Seq<u8> {
    seq![
        (n / 0x100_0000) as u8,
        (n / 0x1_0000 % 0x100) as u8,
        (n / 0x100 % 0x100) as u8,
        (n % 0x100) as u8,
    ]
}

/// The number that bytes spell, most significant first.
pub open spec fn be_value(bytes: Seq<u8>) -> nat
    decreases bytes.len(),
{
    if bytes.len() == 0 {
        0
    } else {
        be_value(bytes.drop_last()) * 0x100 + bytes.last() as nat
    }
}

/// Writes a number as four bytes.
pub fn to_be(n: u32) -> (bytes: [u8; 4])
    ensures
        bytes@ == be_bytes(n),
{
    let bytes: [u8; 4] = [
        (n / 0x100_0000) as u8,
        (n / 0x1_0000 % 0x100) as u8,
        (n / 0x100 % 0x100) as u8,
        (n % 0x100) as u8,
    ];
    proof {
        assert(bytes@ =~= be_bytes(n));
    }
    bytes
}

proof fn lemma_be_value_4(bytes: Seq<u8>)
    requires
        bytes.len() == 4,
    ensures
        be_value(bytes) == bytes[0] * 0x100_0000 + bytes[1] * 0x1_0000 + bytes[2] * 0x100 + bytes[3],
{
    reveal_with_fuel(be_value, 5);
    assert(bytes.drop_last().drop_last().drop_last().drop_last().len() == 0);
}

/// Four bytes read back as the number that they were written from.
pub proof fn law_be_round_trip(n: u32)
    ensures
        be_value(be_bytes(n)) == n,
{
    lemma_be_value_4(be_bytes(n));
}

/// Reads four bytes as a number.
pub fn from_be(bytes: [u8; 4]) -> (n: u32)
    ensures
        n == be_value(bytes@),
{
    proof {
        lemma_be_value_4(bytes@);
    }
    bytes[0] as u32 * 0x100_0000 + bytes[1] as u32 * 0x1_0000 + bytes[2] as u32 * 0x100
        + bytes[3] as u32
}

/// Bytes spell a number below 256 to the power of their count.
pub proof fn lemma_be_value_bound(bytes: Seq<u8>, k: nat)
    requires
        bytes.len() == k,
    ensures
        be_value(bytes) < vstd::arithmetic::power::pow(0x100, k),
    decreases k,
{
    reveal(vstd::arithmetic::power::pow);
    if k > 0 {
        lemma_be_value_bound(bytes.drop_last(), (k - 1) as nat);
    }
}

/// Reads the first eight bytes of a digest as a number.
pub fn leading_u64(digest: &[u8; 32]) -> (n: u64)
    ensures
        n == be_value(digest@.take(8)),
{
    let mut n: u64 = 0;
    let mut i: usize = 0;
    while i < 8
        invariant
            i <= 8,
            digest@.len() == 32,
            n == be_value(digest@.take(i as int)),
        decreases 8 - i,
    {
        proof {
            let next = digest@.take(i as int + 1);
            assert(next.drop_last() == digest@.take(i as int));
            lemma_be_value_bound(next, (i + 1) as nat);
            vstd::arithmetic::power::lemma_pow_increases(0x100, (i + 1) as nat, 8);
            assert(vstd::arithmetic::power::pow(0x100, 8) == 0x1_0000_0000_0000_0000) by {
                reveal_with_fuel(vstd::arithmetic::power::pow, 9);
            }
        }
        n = n * 0x100 + digest[i] as u64;
        i += 1;
    }
    n
}

} // verus!
