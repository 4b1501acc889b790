//! Big-endian integers and a forward cursor over bytes.

use vstd::prelude::*;
use vstd::slice::slice_subrange;

verus! {

/// 256 to the power `n`.
pub open spec fn pow256(n: nat) -> nat
    decreases n,
{
    if n == 0 {
        1
    } else {
        256 * pow256((n - 1) as nat)
    }
}

/// The number that `bytes` spell in base 256, most significant byte first.
pub open spec fn be_value(bytes: Seq<u8>) -> nat
    decreases bytes.len(),
{
    if bytes.len() == 0 {
        0
    } else {
        be_value(bytes.drop_last()) * 256 + bytes.last() as nat
    }
}

/// The `width` lowest base-256 digits of `value`, most significant first.
pub open spec fn be_bytes(value: nat, width: nat) -> Seq<u8>
    decreases width,
{
    if width == 0 {
        Seq::empty()
    } else {
        be_bytes(value / 256, (width - 1) as nat).push((value % 256) as u8)
    }
}

/// Eight bytes hold exactly the 64-bit numbers.
pub proof fn lemma_pow256_eight()
    ensures
        pow256(1) == 0x100,
        pow256(8) == 0x1_0000_0000_0000_0000,
{
    reveal_with_fuel(pow256, 9);
}

/// A big-endian number of `n` bytes is below 256 to the `n`.
pub proof fn lemma_be_value_bound(bytes: Seq<u8>)
    ensures
        be_value(bytes) < pow256(bytes.len()),
    decreases bytes.len(),
{
    if bytes.len() > 0 {
        lemma_be_value_bound(bytes.drop_last());
    }
}

/// `be_bytes` gives as many bytes as it is asked for.
pub proof fn lemma_be_bytes_len(value: nat, width: nat)
    ensures
        be_bytes(value, width).len() == width,
    decreases width,
{
    if width > 0 {
        lemma_be_bytes_len(value / 256, (width - 1) as nat);
    }
}

/// Writing a number that fits in `width` bytes and reading it back gives
/// the number.
pub proof fn lemma_be_value_of_bytes(value: nat, width: nat)
    requires
        value < pow256(width),
    ensures
        be_value(be_bytes(value, width)) == value,
    decreases width,
{
    if width > 0 {
        let head = be_bytes(value / 256, (width - 1) as nat);
        lemma_be_value_of_bytes(value / 256, (width - 1) as nat);
        lemma_be_bytes_len(value / 256, (width - 1) as nat);
        let all = head.push((value % 256) as u8);
        assert(all.drop_last() =~= head);
        assert(all.last() == (value % 256) as u8);
    }
}

/// Reading bytes as a number and writing it back in the same width gives
/// the bytes.
pub proof fn lemma_be_bytes_of_value(bytes: Seq<u8>)
    ensures
        be_bytes(be_value(bytes), bytes.len()) == bytes,
    decreases bytes.len(),
{
    if bytes.len() > 0 {
        let front = bytes.drop_last();
        lemma_be_bytes_of_value(front);
        let v = be_value(bytes);
        assert(v / 256 == be_value(front));
        assert(v % 256 == bytes.last() as nat);
        assert(be_bytes(v, bytes.len()) =~= bytes);
    } else {
        assert(be_bytes(be_value(bytes), 0) =~= bytes);
    }
}

/// Reads at most eight bytes as one big-endian number.
pub fn be_decode(bytes: &[u8]) -> (value: u64)
    requires
        bytes@.len() <= 8,
    ensures
        value == be_value(bytes@),
{
    let mut value: u64 = 0;
    let mut i: usize = 0;
    while i < bytes.len()
        invariant
            i <= bytes@.len() <= 8,
            value == be_value(bytes@.take(i as int)),
        decreases bytes@.len() - i,
    {
        proof {
            let next = bytes@.take(i + 1);
            assert(next.drop_last() =~= bytes@.take(i as int));
            lemma_be_value_bound(next);
            lemma_pow256_monotone(next.len(), 8);
            lemma_pow256_eight();
        }
        value = value * 256 + bytes[i] as u64;
        i += 1;
    }
    assert(bytes@.take(i as int) =~= bytes@);
    value
}

/// A higher power of 256 is not smaller.
pub proof fn lemma_pow256_monotone(low: nat, high: nat)
    requires
        low <= high,
    ensures
        pow256(low) <= pow256(high),
        pow256(low) >= 1,
    decreases high,
{
    if low < high {
        lemma_pow256_monotone(low, (high - 1) as nat);
    } else if low > 0 {
        lemma_pow256_monotone((low - 1) as nat, (high - 1) as nat);
    }
}

/// Appends the `width` lowest base-256 digits of `value` to `out`, most
/// significant first.
pub fn be_encode(out: &mut Vec<u8>, value: u64, width: usize)
    ensures
        final(out)@ == old(out)@ + be_bytes(value as nat, width as nat),
    decreases width,
{
    if width > 0 {
        be_encode(out, value / 256, width - 1);
        out.push((value % 256) as u8);
        assert(final(out)@ =~= old(out)@ + be_bytes(value as nat, width as nat));
    } else {
        assert(out@ =~= old(out)@ + be_bytes(value as nat, 0));
    }
}

/// A cursor that walks over a byte slice from front to back.
pub struct ByteIter<'a> {
    bytes: &'a [u8],
    pos: usize,
}

impl<'a> ByteIter<'a> {
    #[verifier::type_invariant]
    spec fn in_bounds(self) -> bool {
        self.pos <= self.bytes@.len()
    }

    /// The bytes that have not been read yet.
    pub closed spec fn remaining(self) -> Seq<u8> {
        self.bytes@.skip(self.pos as int)
    }

    /// A cursor at the front of `bytes`.
    pub fn new(bytes: &'a [u8]) -> (iter: Self)
        ensures
            iter.remaining() == bytes@,
    {
        assert(bytes@.skip(0) =~= bytes@);
        ByteIter { bytes, pos: 0 }
    }

    /// How many bytes are left.
    pub fn len(&self) -> (n: usize)
        ensures
            n == self.remaining().len(),
    {
        proof {
            use_type_invariant(self);
        }
        self.bytes.len() - self.pos
    }

    /// Reads one byte, if one is left.
    pub fn next(&mut self) -> (byte: Option<u8>)
        ensures
            old(self).remaining().len() == 0 ==> byte is None
                && final(self).remaining() == old(self).remaining(),
            old(self).remaining().len() > 0 ==> byte == Some(old(self).remaining()[0])
                && final(self).remaining() == old(self).remaining().drop_first(),
    {
        proof {
            use_type_invariant(&*self);
        }
        if self.pos < self.bytes.len() {
            let byte = self.bytes[self.pos];
            self.pos = self.pos + 1;
            assert(final(self).remaining() =~= old(self).remaining().drop_first());
            Some(byte)
        } else {
            None
        }
    }

    /// Reads the next `n` bytes, or nothing where fewer are left.
    pub fn take(&mut self, n: usize) -> (taken: Option<&'a [u8]>)
        ensures
            old(self).remaining().len() < n ==> taken is None
                && final(self).remaining() == old(self).remaining(),
            old(self).remaining().len() >= n ==> taken is Some
                && taken->0@ == old(self).remaining().take(n as int)
                && final(self).remaining() == old(self).remaining().skip(n as int),
    {
        proof {
            use_type_invariant(&*self);
        }
        if n <= self.bytes.len() - self.pos {
            let start = self.pos;
            let taken = slice_subrange(self.bytes, start, start + n);
            self.pos = start + n;
            assert(taken@ =~= old(self).remaining().take(n as int));
            assert(final(self).remaining() =~= old(self).remaining().skip(n as int));
            Some(taken)
        } else {
            None
        }
    }

    /// All the bytes that are left; the cursor stays where it is.
    pub fn rest(&self) -> (bytes: &'a [u8])
        ensures
            bytes@ == self.remaining(),
    {
        proof {
            use_type_invariant(self);
        }
        let rest = slice_subrange(self.bytes, self.pos, self.bytes.len());
        assert(rest@ =~= self.remaining());
        rest
    }
}

} // verus!
