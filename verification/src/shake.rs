//! SHAKE-256 as used throughout the library.
//!
//! The extendable-output function is modelled as an infinite byte stream that
//! depends only on the absorbed message: reading `n` bytes yields the first
//! `n` bytes of that stream. Everything the library hashes is first framed
//! into one message by verified code.

use vstd::prelude::*;
use sha3::digest::ExtendableOutput;

verus! {

/// Byte `index` of the SHAKE-256 output stream for message `msg`.
pub uninterp spec fn shake256_byte(msg: Seq<u8>, index: nat) -> u8;

/// The first `len` bytes of the SHAKE-256 output stream for `msg`.
pub open spec fn shake256_out(msg: Seq<u8>, len: nat) -> Seq<u8> {
    Seq::new(len, |k: int| shake256_byte(msg, k as nat))
}

/// The 32-byte SHAKE-256 digest of `msg`.
pub open spec fn shake256_digest(msg: Seq<u8>) -> Seq<u8> {
    shake256_out(msg, 32)
}

/// Calls `sha3::Shake256::digest_xof`: absorbs `msg` and squeezes `out_len`
/// bytes. The contract claims only that the output is the first `out_len`
/// bytes of the stream named by `shake256_byte`, which depends on `msg` alone.
#[verifier::external_body]
pub(crate) fn shake256_xof(msg: &[u8], out_len: usize) -> (out: Vec<u8>)
    ensures
        out@.len() == out_len,
        forall|k: int| 0 <= k < out_len ==> #[trigger] out@[k] == shake256_byte(msg@, k as nat),
        out@ == shake256_out(msg@, out_len as nat),
{
    let mut out = vec![0u8; out_len];
    sha3::Shake256::digest_xof(msg, &mut out);
    out
}

/// Computes the 32-byte SHAKE-256 digest of `msg` as an array.
pub fn shake256_32(msg: &[u8]) -> (out: [u8; 32])
    ensures
        out@ == shake256_digest(msg@),
{
    let v = shake256_xof(msg, 32);
    let mut out = [0u8; 32];
    let mut i: usize = 0;
    while i < 32
        invariant
            0 <= i <= 32,
            v@ == shake256_digest(msg@),
            forall|j: int| 0 <= j < i ==> out@[j] == v@[j],
        decreases 32 - i,
    {
        out[i] = v[i];
        i += 1;
    }
    assert(out@ =~= shake256_digest(msg@));
    out
}


/// Largest stream position a reader may reach.
pub const STREAM_LIMIT: usize = 0x4000_0000;

/// Sequential reader over the SHAKE-256 output stream of a fixed message.
///
/// Bytes already squeezed are kept in `buf`; when a read needs more, the
/// output is squeezed again at a larger length. Because the output is a
/// prefix-consistent stream, the reader returns exactly the stream bytes at
/// consecutive positions.
pub struct XofStream {
    pub(crate) msg: Vec<u8>,
    pub(crate) buf: Vec<u8>,
    pub(crate) pos: usize,
}

impl XofStream {
    /// The absorbed message.
    pub closed spec fn message(&self) -> Seq<u8> {
        self.msg@
    }

    /// Number of stream bytes consumed so far.
    pub closed spec fn position(&self) -> nat {
        self.pos as nat
    }

    /// The buffer holds a prefix of the stream that covers the position.
    pub closed spec fn wf(&self) -> bool {
        &&& self.buf@ == shake256_out(self.msg@, self.buf@.len())
        &&& self.pos <= self.buf@.len()
        &&& self.buf@.len() <= 2 * STREAM_LIMIT
    }

    /// Starts reading the stream of `msg` at position 0.
    pub fn new(msg: Vec<u8>) -> (s: XofStream)
        ensures
            s.wf(),
            s.message() == msg@,
            s.position() == 0,
    {
        let buf = shake256_xof(msg.as_slice(), 0);
        XofStream { msg, buf, pos: 0 }
    }

    /// Reads the next `n` bytes of the stream.
    pub fn read(&mut self, n: usize) -> (out: Vec<u8>)
        requires
            old(self).wf(),
            old(self).position() + n <= STREAM_LIMIT,
        ensures
            final(self).wf(),
            final(self).message() == old(self).message(),
            final(self).position() == old(self).position() + n,
            out@ == Seq::new(n as nat, |k: int| shake256_byte(old(self).message(), (old(self).position() + k) as nat)),
    {
        let end = self.pos + n;
        if end > self.buf.len() {
            let doubled = 2 * self.buf.len();
            let new_len = if doubled > end { doubled } else { end };
            let new_len = if new_len > 2 * STREAM_LIMIT { 2 * STREAM_LIMIT } else { new_len };
            self.buf = shake256_xof(self.msg.as_slice(), new_len);
        }
        let mut out: Vec<u8> = Vec::with_capacity(n);
        let mut i: usize = 0;
        while i < n
            invariant
                self.wf(),
                self.msg@ == old(self).msg@,
                self.pos == old(self).pos,
                self.pos + n <= self.buf@.len(),
                0 <= i <= n,
                out@.len() == i,
                forall|k: int| 0 <= k < i ==> #[trigger] out@[k] == shake256_byte(self.msg@, (self.pos + k) as nat),
            decreases n - i,
        {
            out.push(self.buf[self.pos + i]);
            i += 1;
        }
        self.pos = end;
        assert(out@ =~= Seq::new(n as nat, |k: int| shake256_byte(old(self).message(), (old(self).position() + k) as nat)));
        out
    }
}

} // verus!
