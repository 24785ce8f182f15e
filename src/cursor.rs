//! A read position over an immutable byte buffer, and the little-endian
//! field readers built on it.
use vstd::prelude::*;

verus! {

/// Why a decode failed.
#[derive(Clone, Copy, Debug, PartialEq, Eq, Structural)]
pub enum DecodeError {
    /// Fewer bytes were left than a fixed-size record needs.
    TruncatedInput,
    /// A load command declared a size smaller than its own 8-byte prefix.
    MalformedRecord,
    /// A segment command's declared size disagrees with the bytes that its
    /// descriptor and sections occupy.
    SizeMismatch,
}

/// The little-endian `u32` stored in `b[i..i + 4]`.
pub open spec fn u32_le(b: Seq<u8>, i: int) -> u32 {
    (b[i] as u32) | ((b[i + 1] as u32) << 8u32) | ((b[i + 2] as u32) << 16u32) | ((b[i + 3] as u32)
        << 24u32)
}

/// The little-endian `u64` stored in `b[i..i + 8]`.
pub open spec fn u64_le(b: Seq<u8>, i: int) -> u64 {
    (u32_le(b, i) as u64) | ((u32_le(b, i + 4) as u64) << 32u64)
}

/// The four bytes that store `x` little-endian.
pub open spec fn u32_bytes(x: u32) -> Seq<u8> {
    seq![x as u8, (x >> 8u32) as u8, (x >> 16u32) as u8, (x >> 24u32) as u8]
}

/// The eight bytes that store `x` little-endian.
pub open spec fn u64_bytes(x: u64) -> Seq<u8> {
    u32_bytes(x as u32) + u32_bytes((x >> 32u64) as u32)
}

/// Reading back the bytes of a `u32` gives the `u32`.
pub proof fn lemma_u32_round_trip(b: Seq<u8>, i: int, x: u32)
    requires
        0 <= i,
        i + 4 <= b.len(),
        b.subrange(i, i + 4) == u32_bytes(x),
    ensures
        u32_le(b, i) == x,
{
    assert(b[i] == b.subrange(i, i + 4)[0]);
    assert(b[i + 1] == b.subrange(i, i + 4)[1]);
    assert(b[i + 2] == b.subrange(i, i + 4)[2]);
    assert(b[i + 3] == b.subrange(i, i + 4)[3]);
    assert(((x as u8) as u32) | ((((x >> 8u32) as u8) as u32) << 8u32) | ((((x >> 16u32) as u8) as u32)
        << 16u32) | ((((x >> 24u32) as u8) as u32) << 24u32) == x) by (bit_vector);
}

/// Reading back the bytes of a `u64` gives the `u64`.
pub proof fn lemma_u64_round_trip(b: Seq<u8>, i: int, x: u64)
    requires
        0 <= i,
        i + 8 <= b.len(),
        b.subrange(i, i + 8) == u64_bytes(x),
    ensures
        u64_le(b, i) == x,
{
    assert(b.subrange(i, i + 4) =~= u32_bytes(x as u32)) by {
        assert forall|k: int| 0 <= k < 4 implies #[trigger] b.subrange(i, i + 4)[k] == u32_bytes(
            x as u32,
        )[k] by {
            assert(b.subrange(i, i + 4)[k] == b.subrange(i, i + 8)[k]);
        }
    }
    assert(b.subrange(i + 4, i + 8) =~= u32_bytes((x >> 32u64) as u32)) by {
        assert forall|k: int| 0 <= k < 4 implies #[trigger] b.subrange(i + 4, i + 8)[k] == u32_bytes(
            (x >> 32u64) as u32,
        )[k] by {
            assert(b.subrange(i + 4, i + 8)[k] == b.subrange(i, i + 8)[k + 4]);
        }
    }
    lemma_u32_round_trip(b, i, x as u32);
    lemma_u32_round_trip(b, i + 4, (x >> 32u64) as u32);
    assert((((x as u32) as u64) | ((((x >> 32u64) as u32) as u64) << 32u64)) == x) by (bit_vector);
}

/// A forward-only read position over a byte buffer.
pub struct ByteCursor {
    pub data: Vec<u8>,
    pub pos: usize,
}

impl ByteCursor {
    /// The position lies within the buffer.
    pub open spec fn wf(&self) -> bool {
        self.pos <= self.data@.len()
    }

    /// The bytes not read yet.
    pub open spec fn remaining_spec(&self) -> int {
        self.data@.len() - self.pos
    }

    /// Reading moved the position only, never the bytes.
    pub open spec fn same_source(&self, other: &ByteCursor) -> bool {
        self.data@ == other.data@ && other.wf()
    }

    /// A cursor at the start of `data`.
    pub fn new(data: Vec<u8>) -> (r: ByteCursor)
        ensures
            r.wf(),
            r.data@ == data@,
            r.pos == 0,
    {
        ByteCursor { data, pos: 0 }
    }

    /// How many bytes have been read.
    pub fn position(&self) -> (r: usize)
        ensures
            r == self.pos,
    {
        self.pos
    }

    /// How many bytes are left.
    pub fn remaining(&self) -> (r: usize)
        requires
            self.wf(),
        ensures
            r == self.remaining_spec(),
    {
        self.data.len() - self.pos
    }

    /// Takes the next `n` bytes, or fails without moving when fewer are left.
    pub fn read_exact(&mut self, n: usize) -> (r: Result<Vec<u8>, DecodeError>)
        requires
            old(self).wf(),
        ensures
            old(self).same_source(final(self)),
            r.is_ok() <==> n <= old(self).remaining_spec(),
            match r {
                Ok(v) => v@ == old(self).data@.subrange(old(self).pos as int, old(self).pos + n)
                    && final(self).pos == old(self).pos + n,
                Err(e) => e == DecodeError::TruncatedInput && final(self).pos == old(self).pos,
            },
    {
        if n > self.data.len() - self.pos {
            return Err(DecodeError::TruncatedInput);
        }
        let p = self.pos;
        let mut out: Vec<u8> = Vec::with_capacity(n);
        let mut k: usize = 0;
        while k < n
            invariant
                self.wf(),
                k <= n,
                self.pos == p,
                p + n <= self.data@.len() <= usize::MAX,
                out@ == self.data@.subrange(p as int, p + k),
            decreases n - k,
        {
            out.push(self.data[p + k]);
            k += 1;
            assert(out@ =~= self.data@.subrange(p as int, p + k));
        }
        self.pos = self.pos + n;
        Ok(out)
    }

    /// Discards the next `n` bytes whatever they hold, or fails without moving
    /// when fewer are left.
    pub fn skip(&mut self, n: usize) -> (r: Result<(), DecodeError>)
        requires
            old(self).wf(),
        ensures
            old(self).same_source(final(self)),
            r.is_ok() <==> n <= old(self).remaining_spec(),
            r.is_ok() ==> final(self).pos == old(self).pos + n,
            r.is_err() ==> r == Err::<(), DecodeError>(DecodeError::TruncatedInput) && final(self).pos
                == old(self).pos,
    {
        if n > self.data.len() - self.pos {
            return Err(DecodeError::TruncatedInput);
        }
        self.pos = self.pos + n;
        Ok(())
    }

    /// Reads a little-endian `u32`, or fails without moving when fewer than
    /// four bytes are left.
    pub fn read_u32(&mut self) -> (r: Result<u32, DecodeError>)
        requires
            old(self).wf(),
        ensures
            old(self).same_source(final(self)),
            r.is_ok() <==> 4 <= old(self).remaining_spec(),
            match r {
                Ok(v) => v == u32_le(old(self).data@, old(self).pos as int) && final(self).pos
                    == old(self).pos + 4,
                Err(e) => e == DecodeError::TruncatedInput && final(self).pos == old(self).pos,
            },
    {
        if self.data.len() - self.pos < 4 {
            return Err(DecodeError::TruncatedInput);
        }
        Ok(self.take_u32())
    }

    /// The next little-endian `u32`; the caller has checked that it is there.
    pub(crate) fn take_u32(&mut self) -> (r: u32)
        requires
            old(self).wf(),
            4 <= old(self).remaining_spec(),
        ensures
            old(self).same_source(final(self)),
            r == u32_le(old(self).data@, old(self).pos as int),
            final(self).pos == old(self).pos + 4,
    {
        let p = self.pos;
        // The buffer's length bounds every index below.
        let _len = self.data.len();
        let r = (self.data[p] as u32) | ((self.data[p + 1] as u32) << 8u32) | ((self.data[p
            + 2] as u32) << 16u32) | ((self.data[p + 3] as u32) << 24u32);
        self.pos = p + 4;
        r
    }

    /// The next little-endian `u64`; the caller has checked that it is there.
    pub(crate) fn take_u64(&mut self) -> (r: u64)
        requires
            old(self).wf(),
            8 <= old(self).remaining_spec(),
        ensures
            old(self).same_source(final(self)),
            r == u64_le(old(self).data@, old(self).pos as int),
            final(self).pos == old(self).pos + 8,
    {
        let lo = self.take_u32();
        let hi = self.take_u32();
        (lo as u64) | ((hi as u64) << 32u64)
    }

    /// The next 16 bytes as a fixed-size name; the caller has checked that
    /// they are there.
    pub(crate) fn take_name(&mut self) -> (r: [u8; 16])
        requires
            old(self).wf(),
            16 <= old(self).remaining_spec(),
        ensures
            old(self).same_source(final(self)),
            r@ == old(self).data@.subrange(old(self).pos as int, old(self).pos + 16),
            final(self).pos == old(self).pos + 16,
    {
        let p = self.pos;
        // The buffer's length bounds every index below.
        let _len = self.data.len();
        let mut name: [u8; 16] = [0u8; 16];
        let mut k: usize = 0;
        while k < 16
            invariant
                self.wf(),
                self.pos == p,
                p + 16 <= self.data@.len() <= usize::MAX,
                k <= 16,
                forall|j: int| 0 <= j < k ==> name@[j] == self.data@[p + j],
            decreases 16 - k,
        {
            name[k] = self.data[p + k];
            k += 1;
        }
        assert(name@ =~= self.data@.subrange(p as int, p + 16));
        self.pos = p + 16;
        name
    }
}

} // verus!
