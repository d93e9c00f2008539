//! Incremental frame decoding.
//!
//! A [`Decoder`] buffers unconsumed stream bytes together with the header of
//! the frame currently being assembled, if any.  Callers append whatever
//! bytes the transport produced and then pull complete frames out one at a
//! time until none is left.
//!
//! The behaviour is pinned down by the spec-level machine [`decode_run`]: it
//! consumes a header once twelve bytes are buffered, discards the whole
//! buffer when the header's magic field is wrong (full resynchronisation),
//! and emits a frame once the announced number of payload bytes is buffered.

use vstd::prelude::*;

use crate::wire::{
    be_bytes, be_val, lemma_be_bytes_len, lemma_be_bytes_val, lemma_be_val_bound, pow256,
    spec_frame, MAGIC_HEADER, SIZE_HEADER,
};

verus! {

/// A decoded frame: the header's type identifier plus the payload bytes.
#[derive(Clone, Debug, PartialEq, Eq)]
pub struct RawFrame {
    pub type_id: u16,
    pub payload: Vec<u8>,
}

/// Spec-level image of a decoded frame.
#[verifier::ext_equal]
pub ghost struct FrameView {
    pub type_id: u16,
    pub payload: Seq<u8>,
}

impl View for RawFrame {
    type V = FrameView;

    open spec fn view(&self) -> FrameView {
        FrameView { type_id: self.type_id, payload: self.payload@ }
    }
}

/// Spec-level image of a decoder: the pending header (type identifier and
/// announced payload length), if one has been consumed, and the buffered
/// bytes that follow it.
#[verifier::ext_equal]
pub ghost struct DecModel {
    pub pending: Option<(u16, nat)>,
    pub buf: Seq<u8>,
}

impl DecModel {
    /// A decoder that has seen nothing: no pending header, empty buffer.
    pub open spec fn empty() -> DecModel {
        DecModel { pending: None, buf: Seq::empty() }
    }

    /// The same decoder after the transport hands over `data`.
    pub open spec fn feed(self, data: Seq<u8>) -> DecModel {
        DecModel { pending: self.pending, buf: self.buf + data }
    }
}

/// Runs the decoder until no step applies: returns every frame that can be
/// completed from the buffered bytes, in stream order, and the state left
/// behind.
///
/// Steps, mirroring the wire format:
/// - no pending header and at least twelve bytes buffered: consume them as
///   `magic . type . length`; a wrong magic means the stream is out of sync,
///   so all buffered bytes are discarded and the state is reset;
/// - a pending header whose announced length is buffered: remove that many
///   bytes as the frame's payload and emit the frame.
pub open spec fn decode_run(s: DecModel) -> (Seq<FrameView>, DecModel)
    decreases s.buf.len(), (match s.pending {
        Some(_) => 1int,
        None => 0int,
    }),
{
    match s.pending {
        None => {
            if s.buf.len() < 12 {
                (Seq::empty(), s)
            } else {
                let magic = be_val(s.buf.subrange(0, 2));
                let t = be_val(s.buf.subrange(2, 4)) as u16;
                let l = be_val(s.buf.subrange(4, 12));
                if magic != MAGIC_HEADER as nat {
                    decode_run(DecModel::empty())
                } else {
                    decode_run(DecModel { pending: Some((t, l)), buf: s.buf.skip(12) })
                }
            }
        },
        Some((t, l)) => {
            if l <= s.buf.len() {
                let frame = FrameView { type_id: t, payload: s.buf.take(l as int) };
                let rest = decode_run(DecModel { pending: None, buf: s.buf.skip(l as int) });
                (seq![frame] + rest.0, rest.1)
            } else {
                (Seq::empty(), s)
            }
        },
    }
}

/// A decoder state left behind by [`decode_run`] is quiescent: running it
/// again completes no frame and moves nothing.
pub proof fn lemma_decode_run_fixpoint(s: DecModel)
    ensures
        decode_run(decode_run(s).1).0 == Seq::<FrameView>::empty(),
        decode_run(decode_run(s).1).1 == decode_run(s).1,
    decreases s.buf.len(), (match s.pending {
        Some(_) => 1int,
        None => 0int,
    }),
{
    match s.pending {
        None => {
            if s.buf.len() >= 12 {
                let magic = be_val(s.buf.subrange(0, 2));
                let t = be_val(s.buf.subrange(2, 4)) as u16;
                let l = be_val(s.buf.subrange(4, 12));
                if magic != MAGIC_HEADER as nat {
                    lemma_decode_run_fixpoint(DecModel::empty());
                } else {
                    lemma_decode_run_fixpoint(
                        DecModel { pending: Some((t, l)), buf: s.buf.skip(12) },
                    );
                }
            }
        },
        Some((t, l)) => {
            if l <= s.buf.len() {
                lemma_decode_run_fixpoint(DecModel { pending: None, buf: s.buf.skip(l as int) });
            }
        },
    }
}

/// Reassembles frames from a byte stream delivered in arbitrary chunks.
pub struct Decoder {
    buffer: Vec<u8>,
    header_pending: bool,
    msg_type: u16,
    msg_length: u64,
}

impl Decoder {
    /// The decoder's spec-level state.
    pub closed spec fn model(self) -> DecModel {
        DecModel {
            pending: if self.header_pending {
                Some((self.msg_type, self.msg_length as nat))
            } else {
                None
            },
            buf: self.buffer@,
        }
    }

    /// While no header is pending, the two header scalars sit at zero.
    pub closed spec fn wf(self) -> bool {
        !self.header_pending ==> self.msg_type == 0 && self.msg_length == 0
    }

    pub fn new() -> (d: Decoder)
        ensures
            d.model() == DecModel::empty(),
            d.wf(),
    {
        let d = Decoder { buffer: Vec::new(), header_pending: false, msg_type: 0, msg_length: 0 };
        proof {
            assert(d.model() =~= DecModel::empty());
        }
        d
    }

    /// Appends freshly received stream bytes to the buffer.
    pub fn feed(&mut self, data: &[u8])
        ensures
            final(self).model() == old(self).model().feed(data@),
            final(self).wf() == old(self).wf(),
    {
        self.buffer.extend_from_slice(data);
        proof {
            assert(final(self).model() =~= old(self).model().feed(data@));
        }
    }

    /// Removes the first `n` bytes of `v`.
    fn drop_front(v: &mut Vec<u8>, n: usize)
        requires
            n <= old(v)@.len(),
        ensures
            final(v)@ == old(v)@.skip(n as int),
    {
        let tail = v.split_off(n);
        *v = tail;
        proof {
            assert(final(v)@ =~= old(v)@.skip(n as int));
        }
    }

    /// Removes and returns the first `n` bytes of `v`.
    fn take_front(v: &mut Vec<u8>, n: usize) -> (front: Vec<u8>)
        requires
            n <= old(v)@.len(),
        ensures
            front@ == old(v)@.take(n as int),
            final(v)@ == old(v)@.skip(n as int),
    {
        let mut tail = v.split_off(n);
        core::mem::swap(v, &mut tail);
        proof {
            assert(tail@ =~= old(v)@.take(n as int));
            assert(final(v)@ =~= old(v)@.skip(n as int));
        }
        tail
    }

    /// Tries to complete one frame from the buffered bytes.
    ///
    /// `None` means no complete frame is buffered; the decoder has still
    /// consumed whatever header bytes it could (and has discarded the buffer
    /// on a magic mismatch), and is exactly the quiescent state that
    /// [`decode_run`] leaves behind.  `Some(frame)` hands out the earliest
    /// complete frame; callers keep calling until `None`, since one chunk of
    /// stream bytes may hold many frames.
    pub fn try_decode_one(&mut self) -> (r: Option<RawFrame>)
        requires
            old(self).wf(),
        ensures
            final(self).wf(),
            match r {
                Some(frame) => {
                    &&& decode_run(old(self).model()).0 == seq![frame@] + decode_run(
                        final(self).model(),
                    ).0
                    &&& decode_run(old(self).model()).1 == decode_run(final(self).model()).1
                },
                None => {
                    &&& final(self).model() == decode_run(old(self).model()).1
                    &&& decode_run(old(self).model()).0 == Seq::<FrameView>::empty()
                },
            },
    {
        if !self.header_pending {
            if self.buffer.len() < SIZE_HEADER {
                return None;
            }
            let magic = crate::wire::read_be16(&self.buffer, 0);
            let t = crate::wire::read_be16(&self.buffer, 2);
            let l = crate::wire::read_be64(&self.buffer, 4);
            Self::drop_front(&mut self.buffer, SIZE_HEADER);
            if magic != MAGIC_HEADER {
                // The stream is desynchronised: drop everything buffered and
                // start clean at the next bytes the transport delivers.
                self.buffer.clear();
                proof {
                    reveal_with_fuel(decode_run, 3);
                    assert(self.model() =~= DecModel::empty());
                    assert(decode_run(old(self).model()).1 =~= DecModel::empty());
                }
                return None;
            }
            self.header_pending = true;
            self.msg_type = t;
            self.msg_length = l;
            proof {
                reveal_with_fuel(decode_run, 2);
                let pre = old(self).model();
                crate::wire::lemma_be_val_bound(pre.buf.subrange(2, 4));
                assert(crate::wire::pow256(2) == 0x10000) by {
                    reveal_with_fuel(crate::wire::pow256, 3);
                }
                assert(t == be_val(pre.buf.subrange(2, 4)) as u16);
                assert(self.model() =~= (DecModel {
                    pending: Some((be_val(pre.buf.subrange(2, 4)) as u16, be_val(
                        pre.buf.subrange(4, 12),
                    ))),
                    buf: pre.buf.skip(12),
                }));
                assert(decode_run(pre) == decode_run(self.model()));
            }
        }
        proof {
            assert(decode_run(old(self).model()) == decode_run(self.model()));
        }
        if self.msg_length <= self.buffer.len() as u64 {
            let ghost mid = self.model();
            let ghost gl = self.msg_length as nat;
            let l = self.msg_length as usize;
            let payload = Self::take_front(&mut self.buffer, l);
            let frame = RawFrame { type_id: self.msg_type, payload };
            self.header_pending = false;
            self.msg_type = 0;
            self.msg_length = 0;
            proof {
                reveal_with_fuel(decode_run, 2);
                assert(self.model() =~= (DecModel { pending: None, buf: mid.buf.skip(gl as int) }));
                assert(frame@ =~= (FrameView {
                    type_id: frame.type_id,
                    payload: mid.buf.take(gl as int),
                }));
                assert(decode_run(mid).0 =~~= seq![frame@] + decode_run(self.model()).0);
                assert(decode_run(mid).1 == decode_run(self.model()).1);
            }
            return Some(frame);
        }
        None
    }
}

/// The wire bytes of one frame.
pub open spec fn wire_one(f: FrameView) -> Seq<u8> {
    spec_frame(f.type_id, f.payload)
}

/// The payload fits the header's 8-byte length field.
pub open spec fn frame_ok(f: FrameView) -> bool {
    f.payload.len() < pow256(8)
}

pub open spec fn frames_ok(fs: Seq<FrameView>) -> bool {
    forall|i: int| 0 <= i < fs.len() ==> frame_ok(#[trigger] fs[i])
}

/// The wire bytes of a frame sequence, in order.
pub open spec fn wire(fs: Seq<FrameView>) -> Seq<u8>
    decreases fs.len(),
{
    if fs.len() == 0 {
        Seq::empty()
    } else {
        wire_one(fs.first()) + wire(fs.drop_first())
    }
}

/// The decoder state reached after a clean start and `q` bytes of the first
/// frame of `fs`: still collecting the header below twelve bytes, past it
/// otherwise.
pub open spec fn aligned_state(fs: Seq<FrameView>, q: Seq<u8>) -> DecModel {
    if fs.len() == 0 || q.len() < 12 {
        DecModel { pending: None, buf: q }
    } else {
        DecModel { pending: Some((fs.first().type_id, fs.first().payload.len())), buf: q.skip(12) }
    }
}

/// `q` is a strict prefix of the first frame's bytes (or nothing is left).
pub open spec fn aligned_ok(fs: Seq<FrameView>, q: Seq<u8>) -> bool {
    if fs.len() == 0 {
        q.len() == 0
    } else {
        q.len() < wire_one(fs.first()).len() && q == wire_one(fs.first()).take(q.len() as int)
    }
}

/// The frames of `fs` wholly covered by the byte prefix `p`.
pub open spec fn frames_done(fs: Seq<FrameView>, p: Seq<u8>) -> Seq<FrameView>
    decreases fs.len(),
{
    if fs.len() == 0 || p.len() < wire_one(fs.first()).len() {
        Seq::empty()
    } else {
        seq![fs.first()] + frames_done(fs.drop_first(), p.skip(wire_one(fs.first()).len() as int))
    }
}

/// The frames of `fs` not wholly covered by `p`.
pub open spec fn frames_rem(fs: Seq<FrameView>, p: Seq<u8>) -> Seq<FrameView>
    decreases fs.len(),
{
    if fs.len() == 0 || p.len() < wire_one(fs.first()).len() {
        fs
    } else {
        frames_rem(fs.drop_first(), p.skip(wire_one(fs.first()).len() as int))
    }
}

/// What is left of `p` after the frames it wholly covers.
pub open spec fn bytes_rem(fs: Seq<FrameView>, p: Seq<u8>) -> Seq<u8>
    decreases fs.len(),
{
    if fs.len() == 0 || p.len() < wire_one(fs.first()).len() {
        p
    } else {
        bytes_rem(fs.drop_first(), p.skip(wire_one(fs.first()).len() as int))
    }
}

pub proof fn lemma_wire_one_len(f: FrameView)
    ensures
        wire_one(f).len() == 12 + f.payload.len(),
{
    lemma_be_bytes_len(MAGIC_HEADER as nat, 2);
    lemma_be_bytes_len(f.type_id as nat, 2);
    lemma_be_bytes_len(f.payload.len(), 8);
}

/// A byte sequence agreeing with `wire_one(f)` on the first twelve bytes
/// parses to `f`'s header fields.
proof fn lemma_header_fields(f: FrameView, p: Seq<u8>)
    requires
        frame_ok(f),
        p.len() >= 12,
        forall|i: int| 0 <= i < 12 ==> p[i] == #[trigger] wire_one(f)[i],
    ensures
        be_val(p.subrange(0, 2)) == MAGIC_HEADER as nat,
        be_val(p.subrange(2, 4)) == f.type_id as nat,
        be_val(p.subrange(4, 12)) == f.payload.len(),
{
    let a = be_bytes(MAGIC_HEADER as nat, 2);
    let b = be_bytes(f.type_id as nat, 2);
    let c = be_bytes(f.payload.len(), 8);
    lemma_be_bytes_len(MAGIC_HEADER as nat, 2);
    lemma_be_bytes_len(f.type_id as nat, 2);
    lemma_be_bytes_len(f.payload.len(), 8);
    assert(pow256(2) == 0x10000) by {
        reveal_with_fuel(pow256, 3);
    }
    assert(wire_one(f) == ((a + b) + c) + f.payload);
    assert forall|j: int| 0 <= j < 2 implies p.subrange(0, 2)[j] == a[j] by {
        assert(p[j] == wire_one(f)[j]);
        assert(wire_one(f)[j] == ((a + b) + c)[j]);
        assert(((a + b) + c)[j] == (a + b)[j]);
        assert((a + b)[j] == a[j]);
    }
    assert(p.subrange(0, 2) =~= a);
    assert forall|j: int| 0 <= j < 2 implies p.subrange(2, 4)[j] == b[j] by {
        assert(p[2 + j] == wire_one(f)[2 + j]);
        assert(wire_one(f)[2 + j] == ((a + b) + c)[2 + j]);
        assert(((a + b) + c)[2 + j] == (a + b)[2 + j]);
        assert((a + b)[2 + j] == b[j]);
    }
    assert(p.subrange(2, 4) =~= b);
    assert forall|j: int| 0 <= j < 8 implies p.subrange(4, 12)[j] == c[j] by {
        assert(p[4 + j] == wire_one(f)[4 + j]);
        assert(wire_one(f)[4 + j] == ((a + b) + c)[4 + j]);
        assert(((a + b) + c)[4 + j] == c[j]);
    }
    assert(p.subrange(4, 12) =~= c);
    lemma_be_bytes_val(MAGIC_HEADER as nat, 2);
    lemma_be_bytes_val(f.type_id as nat, 2);
    lemma_be_bytes_val(f.payload.len(), 8);
}

/// A byte sequence agreeing with `wire_one(f)` on all of it carries `f`'s
/// payload right after the twelve header bytes.
proof fn lemma_payload_bytes(f: FrameView, p: Seq<u8>)
    requires
        p.len() >= wire_one(f).len(),
        wire_one(f).len() == 12 + f.payload.len(),
        forall|i: int| 0 <= i < wire_one(f).len() ==> p[i] == #[trigger] wire_one(f)[i],
    ensures
        p.subrange(12, wire_one(f).len() as int) == f.payload,
{
    let a = be_bytes(MAGIC_HEADER as nat, 2);
    let b = be_bytes(f.type_id as nat, 2);
    let c = be_bytes(f.payload.len(), 8);
    lemma_be_bytes_len(MAGIC_HEADER as nat, 2);
    lemma_be_bytes_len(f.type_id as nat, 2);
    lemma_be_bytes_len(f.payload.len(), 8);
    assert(wire_one(f) == ((a + b) + c) + f.payload);
    assert forall|j: int| 0 <= j < f.payload.len() implies p.subrange(
        12,
        wire_one(f).len() as int,
    )[j] == f.payload[j] by {
        assert(p[12 + j] == wire_one(f)[12 + j]);
        assert((((a + b) + c) + f.payload)[12 + j] == f.payload[j]);
    }
    assert(p.subrange(12, wire_one(f).len() as int) =~= f.payload);
}

/// Feeding any next chunk `c` to a decoder aligned `q` bytes into the frame
/// stream `fs` completes exactly the frames now wholly covered and leaves
/// the decoder aligned at the remainder.
pub proof fn lemma_feed_aligned(fs: Seq<FrameView>, q: Seq<u8>, c: Seq<u8>)
    requires
        frames_ok(fs),
        aligned_ok(fs, q),
        (q + c).len() <= wire(fs).len(),
        q + c == wire(fs).take((q + c).len() as int),
    ensures
        decode_run(aligned_state(fs, q).feed(c)) == (frames_done(fs, q + c), aligned_state(
            frames_rem(fs, q + c),
            bytes_rem(fs, q + c),
        )),
        aligned_ok(frames_rem(fs, q + c), bytes_rem(fs, q + c)),
    decreases fs.len(),
{
    let p = q + c;
    if fs.len() == 0 {
        assert(p.len() == 0);
        assert(p =~= Seq::<u8>::empty());
        assert(aligned_state(fs, q).feed(c) =~~= (DecModel { pending: None, buf: p }));
        assert(decode_run(aligned_state(fs, q).feed(c)) =~~= (
            Seq::<FrameView>::empty(),
            DecModel { pending: None, buf: p },
        ));
    } else {
        let f0 = fs.first();
        let w0 = wire_one(f0);
        let fs1 = fs.drop_first();
        lemma_wire_one_len(f0);
        let n0 = w0.len() as int;
        assert(frame_ok(f0)) by {
            assert(fs[0] == f0);
        }
        assert(wire(fs) == w0 + wire(fs1));
        assert forall|i: int| 0 <= i < p.len() implies p[i] == wire(fs)[i] by {
            assert(p[i] == wire(fs).take(p.len() as int)[i]);
        }
        assert forall|i: int| 0 <= i < p.len() && i < n0 implies p[i] == w0[i] by {
            assert(p[i] == wire(fs)[i]);
            assert((w0 + wire(fs1))[i] == w0[i]);
        }
        if p.len() < 12 {
            assert(aligned_state(fs, q).feed(c) =~~= (DecModel { pending: None, buf: p }));
            assert(decode_run(aligned_state(fs, q).feed(c)) =~~= (
                Seq::<FrameView>::empty(),
                DecModel { pending: None, buf: p },
            ));
            assert(frames_done(fs, p) =~~= Seq::<FrameView>::empty());
            assert(frames_rem(fs, p) == fs);
            assert(bytes_rem(fs, p) == p);
            assert(aligned_state(fs, p) =~~= (DecModel { pending: None, buf: p }));
            assert(p =~= w0.take(p.len() as int));
        } else {
            let s2 = DecModel {
                pending: Some((f0.type_id, f0.payload.len())),
                buf: p.skip(12),
            };
            if q.len() < 12 {
                assert(aligned_state(fs, q).feed(c) =~~= (DecModel { pending: None, buf: p }));
                assert forall|i: int| 0 <= i < 12 implies p[i] == wire_one(f0)[i] by {
                    assert(p[i] == w0[i]);
                }
                lemma_header_fields(f0, p);
                assert(be_val(p.subrange(2, 4)) as u16 == f0.type_id);
                assert(decode_run(DecModel { pending: None, buf: p }) == decode_run(s2));
            } else {
                assert(aligned_state(fs, q) =~~= (DecModel {
                    pending: Some((f0.type_id, f0.payload.len())),
                    buf: q.skip(12),
                }));
                assert(q.skip(12) + c =~= p.skip(12));
                assert(aligned_state(fs, q).feed(c) =~~= s2);
            }
            assert(decode_run(aligned_state(fs, q).feed(c)) == decode_run(s2));
            if p.len() < n0 {
                // The first frame's payload is still incomplete.
                assert(p.skip(12).len() < f0.payload.len());
                assert(decode_run(s2) =~~= (Seq::<FrameView>::empty(), s2));
                assert(frames_done(fs, p) =~~= Seq::<FrameView>::empty());
                assert(frames_rem(fs, p) == fs);
                assert(bytes_rem(fs, p) == p);
                assert(aligned_state(fs, p) =~~= s2);
                assert(p =~= w0.take(p.len() as int));
            } else {
                // The first frame completes; recurse on the rest.
                assert forall|i: int| 0 <= i < n0 implies p[i] == wire_one(f0)[i] by {
                    assert(p[i] == w0[i]);
                }
                lemma_payload_bytes(f0, p);
                assert(p.skip(12).take(f0.payload.len() as int) =~= p.subrange(12, n0));
                let emitted = FrameView {
                    type_id: f0.type_id,
                    payload: p.skip(12).take(f0.payload.len() as int),
                };
                assert(emitted =~~= f0);
                let c1 = p.skip(n0);
                assert(p.skip(12).skip(f0.payload.len() as int) =~= c1);
                assert(decode_run(s2) =~~= (
                    seq![f0] + decode_run(DecModel { pending: None, buf: c1 }).0,
                    decode_run(DecModel { pending: None, buf: c1 }).1,
                ));
                assert(frames_ok(fs1)) by {
                    assert forall|i: int| 0 <= i < fs1.len() implies frame_ok(#[trigger] fs1[i]) by {
                        assert(fs1[i] == fs[i + 1]);
                    }
                }
                assert(aligned_ok(fs1, Seq::<u8>::empty())) by {
                    if fs1.len() > 0 {
                        lemma_wire_one_len(fs1.first());
                        assert(Seq::<u8>::empty() =~= wire_one(fs1.first()).take(0));
                    }
                }
                assert forall|j: int| 0 <= j < c1.len() implies c1[j] == wire(fs1)[j] by {
                    assert(c1[j] == p[n0 + j]);
                    assert(p[n0 + j] == wire(fs)[n0 + j]);
                    assert((w0 + wire(fs1))[n0 + j] == wire(fs1)[j]);
                }
                assert(Seq::<u8>::empty() + c1 =~= c1);
                assert(c1 =~= wire(fs1).take(c1.len() as int));
                lemma_feed_aligned(fs1, Seq::<u8>::empty(), c1);
                assert(aligned_state(fs1, Seq::<u8>::empty()).feed(c1) =~~= (DecModel {
                    pending: None,
                    buf: c1,
                }));
                assert(frames_done(fs, p) =~~= seq![f0] + frames_done(fs1, c1));
                assert(frames_rem(fs, p) == frames_rem(fs1, c1));
                assert(bytes_rem(fs, p) == bytes_rem(fs1, c1));
                assert(decode_run(aligned_state(fs, q).feed(c)) =~~= (
                    frames_done(fs, p),
                    aligned_state(frames_rem(fs, p), bytes_rem(fs, p)),
                ));
            }
        }
    }
}

/// A byte prefix of a frame stream splits it exactly: the covered frames,
/// then the remainder, with the bytes accounted for.
proof fn lemma_done_rem(fs: Seq<FrameView>, p: Seq<u8>)
    requires
        p.len() <= wire(fs).len(),
        p == wire(fs).take(p.len() as int),
    ensures
        frames_done(fs, p) + frames_rem(fs, p) == fs,
        wire(frames_done(fs, p)) + bytes_rem(fs, p) == p,
        wire(frames_done(fs, p)) + wire(frames_rem(fs, p)) == wire(fs),
    decreases fs.len(),
{
    if fs.len() == 0 || p.len() < wire_one(fs.first()).len() {
        assert(frames_done(fs, p) =~~= Seq::<FrameView>::empty());
        assert(Seq::<FrameView>::empty() + fs =~= fs);
        assert(wire(Seq::<FrameView>::empty()) + p =~= p);
        assert(wire(Seq::<FrameView>::empty()) + wire(fs) =~= wire(fs));
    } else {
        let f0 = fs.first();
        let w0 = wire_one(f0);
        let n0 = w0.len() as int;
        let fs1 = fs.drop_first();
        let p1 = p.skip(n0);
        assert(wire(fs) == w0 + wire(fs1));
        assert forall|i: int| 0 <= i < p.len() implies p[i] == wire(fs)[i] by {
            assert(p[i] == wire(fs).take(p.len() as int)[i]);
        }
        assert forall|j: int| 0 <= j < p1.len() implies p1[j] == wire(fs1)[j] by {
            assert(p1[j] == p[n0 + j]);
            assert((w0 + wire(fs1))[n0 + j] == wire(fs1)[j]);
        }
        assert(p1 =~= wire(fs1).take(p1.len() as int));
        lemma_done_rem(fs1, p1);
        let done1 = frames_done(fs1, p1);
        assert(frames_done(fs, p) == seq![f0] + done1);
        assert((seq![f0] + done1).drop_first() =~= done1);
        assert(wire(seq![f0] + done1) == w0 + wire(done1));
        assert(p =~= w0 + p1) by {
            assert forall|i: int| 0 <= i < p.len() implies p[i] == (w0 + p1)[i] by {
                if i < n0 {
                    assert(p[i] == wire(fs)[i]);
                    assert((w0 + wire(fs1))[i] == w0[i]);
                } else {
                    assert((w0 + p1)[i] == p1[i - n0]);
                }
            }
        }
        assert(seq![f0] + done1 + frames_rem(fs1, p1) =~= fs) by {
            assert(done1 + frames_rem(fs1, p1) == fs1);
            assert((seq![f0] + done1) + frames_rem(fs1, p1) =~= seq![f0] + (done1 + frames_rem(
                fs1,
                p1,
            )));
            assert(seq![f0] + fs1 =~= fs);
        }
        assert((w0 + wire(done1)) + bytes_rem(fs1, p1) =~= w0 + (wire(done1) + bytes_rem(
            fs1,
            p1,
        )));
        assert((w0 + wire(done1)) + wire(frames_rem(fs1, p1)) =~= w0 + (wire(done1) + wire(
            frames_rem(fs1, p1),
        )));
    }
}

/// All chunks laid end to end.
pub open spec fn chunks_concat(chunks: Seq<Seq<u8>>) -> Seq<u8>
    decreases chunks.len(),
{
    if chunks.len() == 0 {
        Seq::empty()
    } else {
        chunks.first() + chunks_concat(chunks.drop_first())
    }
}

/// Feeds each chunk in turn, draining the decoder completely after every
/// one, and collects the decoded frames in order.
pub open spec fn run_chunks(s: DecModel, chunks: Seq<Seq<u8>>) -> (Seq<FrameView>, DecModel)
    decreases chunks.len(),
{
    if chunks.len() == 0 {
        (Seq::empty(), s)
    } else {
        let step = decode_run(s.feed(chunks.first()));
        let rest = run_chunks(step.1, chunks.drop_first());
        (step.0 + rest.0, rest.1)
    }
}

proof fn lemma_run_chunks_aligned(fs: Seq<FrameView>, q: Seq<u8>, chunks: Seq<Seq<u8>>)
    requires
        frames_ok(fs),
        aligned_ok(fs, q),
        q + chunks_concat(chunks) == wire(fs),
    ensures
        run_chunks(aligned_state(fs, q), chunks) == (fs, DecModel::empty()),
    decreases chunks.len(),
{
    if chunks.len() == 0 {
        assert(q + chunks_concat(chunks) =~= q);
        if fs.len() > 0 {
            assert(wire(fs) == wire_one(fs.first()) + wire(fs.drop_first()));
            assert(q.len() < wire_one(fs.first()).len());
            assert(false);
        }
        assert(q.len() == 0);
        assert(aligned_state(fs, q) =~~= DecModel::empty());
        assert(run_chunks(aligned_state(fs, q), chunks) =~~= (fs, DecModel::empty()));
    } else {
        let c0 = chunks.first();
        let rest = chunks.drop_first();
        let p = q + c0;
        assert(q + chunks_concat(chunks) =~= p + chunks_concat(rest));
        assert(p.len() <= wire(fs).len());
        assert forall|i: int| 0 <= i < p.len() implies p[i] == wire(fs)[i] by {
            assert((p + chunks_concat(rest))[i] == p[i]);
        }
        assert(p =~= wire(fs).take(p.len() as int));
        lemma_feed_aligned(fs, q, c0);
        lemma_done_rem(fs, p);
        let done = frames_done(fs, p);
        let rem = frames_rem(fs, p);
        let brem = bytes_rem(fs, p);
        assert(frames_ok(rem)) by {
            assert forall|i: int| 0 <= i < rem.len() implies frame_ok(#[trigger] rem[i]) by {
                assert(rem[i] == (done + rem)[done.len() + i]);
                assert(fs[done.len() + i] == (done + rem)[done.len() + i]);
            }
        }
        assert(brem + chunks_concat(rest) =~= wire(rem)) by {
            let a = wire(done);
            assert(a + (brem + chunks_concat(rest)) =~= (a + brem) + chunks_concat(rest));
            assert((a + brem) + chunks_concat(rest) =~= p + chunks_concat(rest));
            assert(p + chunks_concat(rest) =~= wire(fs));
            assert(a + wire(rem) =~= wire(fs));
            assert forall|j: int| 0 <= j < wire(rem).len() implies (brem + chunks_concat(
                rest,
            ))[j] == wire(rem)[j] by {
                assert((a + (brem + chunks_concat(rest)))[a.len() + j] == (brem + chunks_concat(
                    rest,
                ))[j]);
                assert((a + wire(rem))[a.len() + j] == wire(rem)[j]);
            }
        }
        lemma_run_chunks_aligned(rem, brem, rest);
        assert(run_chunks(aligned_state(fs, q), chunks) =~~= (done + rem, DecModel::empty()));
        assert(done + rem =~= fs);
    }
}

/// Reassembly invariance: however a frame stream's bytes are cut into
/// chunks, feeding the chunks one call at a time decodes exactly the
/// original frames and ends in the clean state — the same outcome as
/// feeding all bytes in a single call.
pub proof fn lemma_reassembly(fs: Seq<FrameView>, chunks: Seq<Seq<u8>>)
    requires
        frames_ok(fs),
        chunks_concat(chunks) == wire(fs),
    ensures
        run_chunks(DecModel::empty(), chunks) == (fs, DecModel::empty()),
{
    assert(aligned_ok(fs, Seq::<u8>::empty())) by {
        if fs.len() > 0 {
            lemma_wire_one_len(fs.first());
            assert(Seq::<u8>::empty() =~= wire_one(fs.first()).take(0));
        }
    }
    assert(Seq::<u8>::empty() + chunks_concat(chunks) =~= wire(fs));
    lemma_run_chunks_aligned(fs, Seq::<u8>::empty(), chunks);
    assert(aligned_state(fs, Seq::<u8>::empty()) =~~= DecModel::empty());
}

/// Feeding a whole frame stream in one call decodes exactly its frames.
pub proof fn lemma_decode_wire(fs: Seq<FrameView>)
    requires
        frames_ok(fs),
    ensures
        decode_run(DecModel::empty().feed(wire(fs))) == (fs, DecModel::empty()),
{
    let chunks = seq![wire(fs)];
    reveal_with_fuel(chunks_concat, 3);
    reveal_with_fuel(run_chunks, 3);
    assert(chunks.drop_first() =~= Seq::<Seq<u8>>::empty());
    assert(chunks_concat(chunks) =~= wire(fs)) by {
        assert(chunks_concat(chunks.drop_first()) == chunks_concat(Seq::<Seq<u8>>::empty()));
    }
    lemma_reassembly(fs, chunks);
    let step = decode_run(DecModel::empty().feed(wire(fs)));
    assert(run_chunks(DecModel::empty(), chunks) == (
        step.0 + Seq::<FrameView>::empty(),
        step.1,
    )) by {
        assert(run_chunks(step.1, chunks.drop_first()) == run_chunks(
            step.1,
            Seq::<Seq<u8>>::empty(),
        ));
    }
    assert(step.0 + Seq::<FrameView>::empty() =~= step.0);
    assert(step.0 =~= fs);
}

/// Round trip: the wire bytes of one frame decode back to exactly that
/// frame, leaving the decoder clean.
pub proof fn lemma_frame_round_trip(f: FrameView)
    requires
        frame_ok(f),
    ensures
        decode_run(DecModel::empty().feed(wire_one(f))) == (seq![f], DecModel::empty()),
{
    let fs = seq![f];
    assert(frames_ok(fs)) by {
        assert(fs[0] == f);
    }
    reveal_with_fuel(wire, 3);
    assert(fs.drop_first() =~= Seq::<FrameView>::empty());
    assert(wire(fs) =~= wire_one(f)) by {
        assert(wire(fs.drop_first()) == wire(Seq::<FrameView>::empty()));
    }
    lemma_decode_wire(fs);
}

} // verus!
