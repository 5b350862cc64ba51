use vstd::prelude::*;

pub mod redun;

verus! {

/// SHA-1 digest of a block of bytes.
pub type Hash = [u8; 20];

/// The parity of two equally long inputs: byte-wise exclusive or.
pub open spec fn xor_bytes(a: Seq<u8>, b: Seq<u8>) -> Seq<u8>
    recommends
        a.len() == b.len(),
{
    Seq::new(a.len(), |i: int| a[i] ^ b[i])
}

/// The parity of two inputs of any lengths: the shorter input XORed with the
/// start of the longer one, followed by the rest of the longer one. When
/// both have the same length the first one counts as the longer.
pub open spec fn xor_copy(a: Seq<u8>, b: Seq<u8>) -> Seq<u8> {
    if a.len() < b.len() {
        xor_bytes(a, b.subrange(0, a.len() as int)) + b.subrange(a.len() as int, b.len() as int)
    } else {
        xor_bytes(b, a.subrange(0, b.len() as int)) + a.subrange(b.len() as int, a.len() as int)
    }
}

/// Writes the byte-wise exclusive or of `data1` and `data2` into `out`.
pub fn redundancy(data1: &[u8], data2: &[u8], out: &mut [u8])
    requires
        data1@.len() == data2@.len(),
        data1@.len() == old(out)@.len(),
    ensures
        final(out)@ == xor_bytes(data1@, data2@),
{
    let n = data1.len();
    let mut i: usize = 0;
    while i < n
        invariant
            n == data1@.len(),
            n == data2@.len(),
            out@.len() == n,
            i <= n,
            forall|j: int| 0 <= j < i ==> out@[j] == data1@[j] ^ data2@[j],
        decreases n - i,
    {
        out[i] = data1[i] ^ data2[i];
        i += 1;
    }
    assert(out@ =~= xor_bytes(data1@, data2@));
}

/// Writes the parity of two inputs of any lengths into `out`, which is as
/// long as the longer input (see `xor_copy`).
pub fn redundancy_copy(data1: &[u8], data2: &[u8], out: &mut [u8])
    requires
        old(out)@.len() == if data1@.len() < data2@.len() {
            data2@.len()
        } else {
            data1@.len()
        },
    ensures
        final(out)@ == xor_copy(data1@, data2@),
{
    let (short, long, short_len) = if data1.len() < data2.len() {
        (data1, data2, data1.len())
    } else {
        (data2, data1, data2.len())
    };
    let (long_xor, long_copy) = long.split_at(short_len);
    let (out_xor, out_copy) = out.split_at_mut(short_len);
    redundancy_copy_impl(short, long_xor, long_copy, out_xor, out_copy);
    assert(final(out)@ =~= xor_copy(data1@, data2@));
}

fn redundancy_copy_impl(
    short: &[u8],
    long_xor: &[u8],
    long_copy: &[u8],
    out_xor: &mut [u8],
    out_copy: &mut [u8],
)
    requires
        short@.len() == long_xor@.len(),
        short@.len() == old(out_xor)@.len(),
        long_copy@.len() == old(out_copy)@.len(),
    ensures
        final(out_xor)@ == xor_bytes(short@, long_xor@),
        final(out_copy)@ == long_copy@,
{
    redundancy(short, long_xor, out_xor);
    let n = long_copy.len();
    let mut i: usize = 0;
    while i < n
        invariant
            n == long_copy@.len(),
            out_copy@.len() == n,
            i <= n,
            forall|j: int| 0 <= j < i ==> out_copy@[j] == long_copy@[j],
        decreases n - i,
    {
        out_copy[i] = long_copy[i];
        i += 1;
    }
    assert(out_copy@ =~= long_copy@);
}

} // verus!
