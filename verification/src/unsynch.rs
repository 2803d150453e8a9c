//! The unsynchronisation codec: the synchsafe integer transform and the
//! byte-stuffing stream filter.
//!
//! A tag embedded in an audio stream must not contain byte patterns that a
//! frame-sync detector could mistake for a sync marker.  Synchsafe integers
//! keep the top bit of every byte clear, and the stream filter inserts a
//! spurious zero byte after every `0xFF` that is followed by `0x00`, which the
//! decoder removes again.

use vstd::prelude::*;

verus! {

/// The synchsafe form of `n`: the 28 significant bits of `n` spread over the
/// low 7 bits of each of the 4 bytes, so the top bit of every byte is clear.
pub open spec fn synchsafe(n: u32) -> u32 {
    (n & 0x7F) | (((n >> 7) & 0x7F) << 8) | (((n >> 14) & 0x7F) << 16) | (((n >> 21) & 0x7F) << 24)
}

/// The inverse transform: the low 7 bits of each of the 4 bytes of `x`,
/// reassembled into one 28-bit value.
pub open spec fn unsynchsafe(x: u32) -> u32 {
    (x & 0x7F) | (((x >> 8) & 0x7F) << 7) | (((x >> 16) & 0x7F) << 14) | (((x >> 24) & 0x7F) << 21)
}

/// Returns the synchsafe variant of a `u32` value.
pub fn encode_u32(n: u32) -> (r: u32)
    requires
        n < 0x1000_0000,
    ensures
        r == synchsafe(n),
{
    let b0: u32 = n & 0x7F;
    let b1: u32 = (n >> 7) & 0x7F;
    let b2: u32 = (n >> 14) & 0x7F;
    let b3: u32 = (n >> 21) & 0x7F;
    b0 | (b1 << 8) | (b2 << 16) | (b3 << 24)
}

/// Returns the unsynchsafe variant of a `u32` value.
pub fn decode_u32(n: u32) -> (r: u32)
    ensures
        r == unsynchsafe(n),
{
    (n & 0x7F) | (((n >> 8) & 0x7F) << 7) | (((n >> 16) & 0x7F) << 14) | (((n >> 24) & 0x7F) << 21)
}

/// Decoding a synchsafe integer gives back the value it was encoded from.
pub proof fn lemma_synchsafe_roundtrip(n: u32)
    requires
        n < 0x1000_0000,
    ensures
        unsynchsafe(synchsafe(n)) == n,
{
    assert(unsynchsafe(synchsafe(n)) == n) by (bit_vector)
        requires
            n < 0x1000_0000,
    ;
}

/// The unsynchronisation of `s` given the state of the scan so far: `prev_ff`
/// says whether the byte just before `s` was `0xFF`.  Whenever a `0x00`
/// follows a `0xFF`, a stuffing `0x00` is inserted before it; the byte after
/// the pair is then scanned with a cleared flag, since the byte before it is
/// the genuine `0x00`.
pub open spec fn unsynch_encode(s: Seq<u8>, prev_ff: bool) -> Seq<u8>
    decreases s.len(),
{
    if s.len() == 0 {
        Seq::empty()
    } else if prev_ff && s[0] == 0x00 {
        seq![0x00u8, 0x00u8] + unsynch_encode(s.skip(1), false)
    } else {
        seq![s[0]] + unsynch_encode(s.skip(1), s[0] == 0xFF)
    }
}

/// The unsynchronisation-encoded form of `s`.
pub open spec fn encoded(s: Seq<u8>) -> Seq<u8> {
    unsynch_encode(s, false)
}

/// The decoding of the raw bytes `s` given the state of the stream so far:
/// `discard_null` says whether the byte just emitted was `0xFF`, in which
/// case a leading `0x00` is a stuffing byte and is dropped.
pub open spec fn unsynch_decode(s: Seq<u8>, discard_null: bool) -> Seq<u8>
    decreases s.len(),
{
    if s.len() == 0 {
        Seq::empty()
    } else if discard_null && s[0] == 0x00 {
        unsynch_decode(s.skip(1), false)
    } else {
        seq![s[0]] + unsynch_decode(s.skip(1), s[0] == 0xFF)
    }
}

/// The decoded form of the raw byte sequence `s`.
pub open spec fn decoded(s: Seq<u8>) -> Seq<u8> {
    unsynch_decode(s, false)
}

proof fn lemma_skip_one(s: Seq<u8>, i: int)
    requires
        0 <= i < s.len(),
    ensures
        s.skip(i).skip(1) =~= s.skip(i + 1),
        s.skip(i)[0] == s[i],
        s.skip(i).len() == s.len() - i,
{
}

/// Decoding undoes encoding whatever state the two scans start in, as long
/// as they agree on it.
proof fn lemma_unsynch_roundtrip_state(s: Seq<u8>, f: bool)
    ensures
        unsynch_decode(unsynch_encode(s, f), f) =~= s,
    decreases s.len(),
{
    if s.len() == 0 {
    } else if f && s[0] == 0x00 {
        let t = unsynch_encode(s.skip(1), false);
        lemma_unsynch_roundtrip_state(s.skip(1), false);
        let e = seq![0x00u8, 0x00u8] + t;
        assert(e.skip(1) =~= seq![0x00u8] + t);
        assert(unsynch_decode(e, f) == unsynch_decode(seq![0x00u8] + t, false));
        assert((seq![0x00u8] + t).skip(1) =~= t);
        assert(unsynch_decode(seq![0x00u8] + t, false) == seq![0x00u8] + unsynch_decode(t, false));
        assert(seq![0x00u8] + s.skip(1) =~= s);
    } else {
        let g = s[0] == 0xFF;
        let t = unsynch_encode(s.skip(1), g);
        lemma_unsynch_roundtrip_state(s.skip(1), g);
        let e = seq![s[0]] + t;
        assert(e.skip(1) =~= t);
        assert(unsynch_decode(e, f) =~= seq![s[0]] + unsynch_decode(t, g));
        assert(seq![s[0]] + s.skip(1) =~= s);
    }
}

/// Round-trip law: decoding the unsynchronisation-encoded form of any byte
/// sequence reproduces that sequence exactly.
pub proof fn lemma_unsynch_roundtrip(s: Seq<u8>)
    ensures
        decoded(encoded(s)) == s,
{
    lemma_unsynch_roundtrip_state(s, false);
}

/// On a byte sequence that contains no `0xFF`, encoding is the identity:
/// there is no pair to stuff.
pub proof fn lemma_encode_identity(s: Seq<u8>)
    requires
        forall|i: int| 0 <= i < s.len() ==> s[i] != 0xFF,
    ensures
        encoded(s) == s,
    decreases s.len(),
{
    if s.len() == 0 {
        assert(encoded(s) =~= s);
    } else {
        assert(forall|i: int| 0 <= i < s.skip(1).len() ==> s.skip(1)[i] != 0xFF);
        lemma_encode_identity(s.skip(1));
        assert(seq![s[0]] + s.skip(1) =~= s);
    }
}

/// Applies the unsynchronisation scheme to a byte buffer.
pub fn encode_vec(buffer: &mut Vec<u8>)
    ensures
        final(buffer)@ == encoded(old(buffer)@),
{
    let ghost orig = buffer@;
    let mut out: Vec<u8> = Vec::new();
    let mut prev_ff: bool = false;
    let mut i: usize = 0;
    proof {
        assert(orig.skip(0) =~= orig);
        assert(out@ + unsynch_encode(orig, false) =~= unsynch_encode(orig, false));
    }
    while i < buffer.len()
        invariant
            i <= buffer.len(),
            buffer@ == orig,
            encoded(orig) == out@ + unsynch_encode(orig.skip(i as int), prev_ff),
        decreases buffer.len() - i,
    {
        let b = buffer[i];
        proof {
            lemma_skip_one(orig, i as int);
        }
        if prev_ff && b == 0x00 {
            out.push(0x00);
            out.push(0x00);
            proof {
                assert(out@ + unsynch_encode(orig.skip(i + 1), false) =~= (out@.drop_last()
                    .drop_last() + (seq![0x00u8, 0x00u8] + unsynch_encode(
                    orig.skip(i + 1),
                    false,
                ))));
            }
            prev_ff = false;
        } else {
            out.push(b);
            proof {
                assert(out@ + unsynch_encode(orig.skip(i + 1), b == 0xFF) =~= (out@.drop_last()
                    + (seq![b] + unsynch_encode(orig.skip(i + 1), b == 0xFF))));
            }
            prev_ff = b == 0xFF;
        }
        i = i + 1;
    }
    proof {
        assert(unsynch_encode(orig.skip(i as int), prev_ff) =~= Seq::<u8>::empty());
        assert(encoded(orig) =~= out@);
    }
    *buffer = out;
}

/// Decoder for an unsynchronised stream of bytes.
///
/// The decoder holds the raw bytes still to be served and the one bit of
/// state the scheme needs: whether the byte it last emitted was `0xFF`, in
/// which case a following `0x00` is a stuffing byte and is dropped.
pub struct Reader {
    raw: Vec<u8>,
    next: usize,
    discard_next_null_byte: bool,
}

impl Reader {
    /// The reader never serves a byte it has already consumed.
    pub closed spec fn wf(&self) -> bool {
        self.next <= self.raw@.len()
    }

    /// The decoded bytes the reader has yet to emit.
    pub closed spec fn remaining(&self) -> Seq<u8> {
        unsynch_decode(self.raw@.skip(self.next as int), self.discard_next_null_byte)
    }

    /// A fresh decoder over the raw bytes `raw`.
    pub fn new(raw: Vec<u8>) -> (r: Reader)
        ensures
            r.wf(),
            r.remaining() == decoded(raw@),
    {
        let r = Reader { raw, next: 0, discard_next_null_byte: false };
        proof {
            assert(r.raw@.skip(0) =~= r.raw@);
        }
        r
    }

    /// Emits the next decoded bytes: as many as `n`, fewer only when the raw
    /// stream runs out first.
    pub fn read(&mut self, n: usize) -> (r: Vec<u8>)
        requires
            old(self).wf(),
        ensures
            final(self).wf(),
            r@.len() == vstd::math::min(n as int, old(self).remaining().len() as int),
            r@ == old(self).remaining().take(r@.len() as int),
            final(self).remaining() == old(self).remaining().skip(r@.len() as int),
    {
        let mut out: Vec<u8> = Vec::new();
        let ghost rem0 = self.remaining();
        proof {
            assert(out@ + rem0 =~= rem0);
        }
        while out.len() < n && self.next < self.raw.len()
            invariant
                self.wf(),
                out@.len() <= n,
                rem0 == out@ + self.remaining(),
                self.raw == old(self).raw,
            decreases self.raw@.len() - self.next,
        {
            proof {
                lemma_skip_one(self.raw@, self.next as int);
            }
            let b = self.raw[self.next];
            if self.discard_next_null_byte && b == 0x00 {
                self.discard_next_null_byte = false;
                self.next = self.next + 1;
            } else {
                out.push(b);
                proof {
                    assert(out@ + unsynch_decode(
                        self.raw@.skip(self.next + 1),
                        b == 0xFF,
                    ) =~= (out@.drop_last() + (seq![b] + unsynch_decode(
                        self.raw@.skip(self.next + 1),
                        b == 0xFF,
                    ))));
                }
                self.discard_next_null_byte = b == 0xFF;
                self.next = self.next + 1;
            }
        }
        proof {
            if self.next == self.raw@.len() {
                assert(self.raw@.skip(self.next as int) =~= Seq::<u8>::empty());
                assert(self.remaining() =~= Seq::<u8>::empty());
            }
            assert(out@ =~= rem0.take(out@.len() as int));
            assert(self.remaining() =~= rem0.skip(out@.len() as int));
        }
        out
    }
}

} // verus!
