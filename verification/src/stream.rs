//! Per-stream receive state and reassembly: merges STREAM frames that may
//! arrive out of order or duplicated into a contiguous byte sequence, and
//! offers a non-blocking pull interface for delivered bytes plus a push
//! interface for the send direction.
//!
//! The reassembly model: pending frames form a map from offset to payload;
//! `deliver` consumes the maximal contiguous run starting at the receive
//! cursor.  A frame is delivered only when its offset equals the cursor
//! exactly — a frame starting before the cursor but extending past it is
//! never trimmed, it simply is never selected again.

use vstd::prelude::*;
use vstd::slice::slice_to_vec;

use crate::error::QuicError;
use crate::frames::stream_frame::StreamFrame;
use crate::frames::stream_frame::StreamFrameModel;

verus! {

/// Receive-side lifecycle of a stream.  The transition to
/// `HalfClosedRemote` happens exactly when a delivered contiguous run ends
/// in a frame with the fin flag; the remaining transitions are driven by the
/// connection layer, which owns this field.
#[derive(Debug, Clone, Copy, PartialEq, Eq, Structural)]
pub enum StreamState {
    Idle,
    Open,
    HalfClosedLocal,
    HalfClosedRemote,
    Closed,
}

/// One pending frame's content: its payload bytes and fin flag.
pub type FrameEntry = (Seq<u8>, bool);

/// The pending-frame map of a queue: offset to payload and fin flag; a later
/// frame at an equal offset replaces an earlier one.
pub open spec fn queue_map(q: Seq<StreamFrame>) -> Map<int, FrameEntry>
    decreases q.len(),
{
    if q.len() == 0 {
        Map::empty()
    } else {
        queue_map(q.drop_last()).insert(
            q.last().offset as int,
            (q.last().stream_data@, q.last().fin),
        )
    }
}

/// The maximal contiguous run deliverable from pending map `m` at cursor
/// `c`: the bytes accumulated, the final cursor, and the fin flag of the
/// last frame consumed (or `fin0` when none is).
pub open spec fn deliver(m: Map<int, FrameEntry>, c: int, fin0: bool) -> (Seq<u8>, int, bool)
    decreases m.dom().len(),
        when m.dom().finite()
{
    if m.dom().contains(c) {
        let rest = deliver(m.remove(c), c + m[c].0.len(), m[c].1);
        (m[c].0 + rest.0, rest.1, rest.2)
    } else {
        (Seq::empty(), c, fin0)
    }
}

/// The delivery cursor never moves backwards.
pub proof fn lemma_deliver_cursor_mono(m: Map<int, FrameEntry>, c: int, fin0: bool)
    requires
        m.dom().finite(),
    ensures
        deliver(m, c, fin0).1 >= c,
    decreases m.dom().len(),
{
    if m.dom().contains(c) {
        lemma_deliver_cursor_mono(m.remove(c), c + m[c].0.len(), m[c].1);
    }
}

/// A pending frame strictly below the cursor can never be consumed: removing
/// it does not change what is delivered.
pub proof fn lemma_deliver_remove_low(m: Map<int, FrameEntry>, c: int, fin0: bool, k: int)
    requires
        m.dom().finite(),
        k < c,
    ensures
        deliver(m.remove(k), c, fin0) == deliver(m, c, fin0),
    decreases m.dom().len(),
{
    if m.dom().contains(c) {
        assert(m.remove(k).remove(c) =~= m.remove(c).remove(k));
        lemma_deliver_remove_low(m.remove(c), c + m[c].0.len(), m[c].1, k);
        lemma_deliver_cursor_mono(m.remove(c), c + m[c].0.len(), m[c].1);
    }
}

/// If the run ends at a cursor that is still a pending offset, that frame
/// must carry no bytes (a nonempty frame at the cursor would have been
/// consumed and moved the cursor past itself).
pub proof fn lemma_deliver_final_key(m: Map<int, FrameEntry>, c: int, fin0: bool)
    requires
        m.dom().finite(),
        m.dom().contains(deliver(m, c, fin0).1),
    ensures
        m[deliver(m, c, fin0).1].0.len() == 0,
    decreases m.dom().len(),
{
    let c2 = deliver(m, c, fin0).1;
    if m.dom().contains(c) {
        let l = m[c].0.len();
        let m2 = m.remove(c);
        lemma_deliver_cursor_mono(m2, c + l, m[c].1);
        if c2 == c {
            assert(c + l <= c2);
        } else {
            lemma_deliver_final_key(m2, c + l, m[c].1);
        }
    }
}

/// Inserting a fresh frame at or beyond the run's end either leaves the run
/// unchanged (strictly beyond) or extends it (exactly at the end).
pub proof fn lemma_deliver_insert(
    m: Map<int, FrameEntry>,
    c: int,
    fin0: bool,
    k: int,
    v: FrameEntry,
)
    requires
        m.dom().finite(),
        !m.dom().contains(k),
        k >= deliver(m, c, fin0).1,
        v.0.len() > 0,
    ensures
        ({
            let (b, c1, f1) = deliver(m, c, fin0);
            if k > c1 {
                deliver(m.insert(k, v), c, fin0) == (b, c1, f1)
            } else {
                let (b2, c2, f2) = deliver(m, c1 + v.0.len(), v.1);
                deliver(m.insert(k, v), c, fin0) == (b + (v.0 + b2), c2, f2)
            }
        }),
    decreases m.dom().len(),
{
    let (b, c1, f1) = deliver(m, c, fin0);
    if m.dom().contains(c) {
        let d = m[c].0;
        let ff = m[c].1;
        let m2 = m.remove(c);
        lemma_deliver_cursor_mono(m2, c + d.len(), ff);
        assert(k != c);
        assert(m.insert(k, v).remove(c) =~= m2.insert(k, v));
        lemma_deliver_insert(m2, c + d.len(), ff, k, v);
        if k == c1 {
            let l = v.0.len() as int;
            assert(c < c1 + l);
            lemma_deliver_remove_low(m, c1 + l, v.1, c);
            let (b2, c2, f2) = deliver(m, c1 + l, v.1);
            assert(deliver(m2, c1 + l, v.1) == (b2, c2, f2));
            let (br, c2r, f2r) = deliver(m2, c + d.len(), ff);
            assert(deliver(m2.insert(k, v), c + d.len(), ff) == (br + (v.0 + b2), c2, f2));
            assert(d + (br + (v.0 + b2)) =~= (d + br) + (v.0 + b2));
        }
    } else {
        assert(c1 == c);
        if k > c1 {
            assert(!m.insert(k, v).dom().contains(c));
        } else {
            assert(k == c);
            let l = v.0.len() as int;
            assert(m.insert(c, v).dom().contains(c));
            assert(m.insert(c, v).remove(c) =~= m);
            let (b2, c2, f2) = deliver(m, c + l, v.1);
            assert(deliver(m.insert(c, v), c, fin0) == (v.0 + b2, c2, f2));
            assert(Seq::<u8>::empty() + (v.0 + b2) =~= v.0 + b2);
        }
    }
}

/// Unique offsets in a frame queue.
pub open spec fn unique_offsets(q: Seq<StreamFrame>) -> bool {
    forall|i: int, j: int|
        0 <= i < j < q.len() ==> #[trigger] q[i].offset != #[trigger] q[j].offset
}

/// The pending map of a unique-offset queue contains exactly the queued
/// frames, keyed by offset.
pub proof fn lemma_queue_map_props(q: Seq<StreamFrame>)
    requires
        unique_offsets(q),
    ensures
        queue_map(q).dom().finite(),
        forall|i: int|
            0 <= i < q.len() ==> queue_map(q).dom().contains(#[trigger] q[i].offset as int)
                && queue_map(q)[q[i].offset as int] == (q[i].stream_data@, q[i].fin),
        forall|k: int|
            #[trigger] queue_map(q).dom().contains(k) ==> exists|i: int|
                0 <= i < q.len() && #[trigger] q[i].offset as int == k,
    decreases q.len(),
{
    if q.len() > 0 {
        let pre = q.drop_last();
        lemma_queue_map_props(pre);
        assert forall|i: int| 0 <= i < q.len() implies queue_map(q).dom().contains(
            #[trigger] q[i].offset as int,
        ) && queue_map(q)[q[i].offset as int] == (q[i].stream_data@, q[i].fin) by {
            if i < q.len() - 1 {
                assert(pre[i] == q[i]);
                assert(q[i].offset != q.last().offset);
            }
        }
        assert forall|k: int| #[trigger] queue_map(q).dom().contains(k) implies exists|i: int|
            0 <= i < q.len() && #[trigger] q[i].offset as int == k by {
            if k == q.last().offset as int {
                assert(q[q.len() - 1].offset as int == k);
            } else {
                let i = choose|i: int| 0 <= i < pre.len() && #[trigger] pre[i].offset as int == k;
                assert(q[i].offset as int == k);
            }
        }
    }
}

/// Every byte position the run advanced over lies inside some pending
/// frame's region.
pub proof fn lemma_deliver_run_cover(m: Map<int, FrameEntry>, c: int, fin0: bool, x: int)
    requires
        m.dom().finite(),
        c <= x < deliver(m, c, fin0).1,
    ensures
        exists|k: int|
            #![trigger m.dom().contains(k)]
            m.dom().contains(k) && k <= x < k + m[k].0.len(),
    decreases m.dom().len(),
{
    if m.dom().contains(c) {
        let l = m[c].0.len();
        if x < c + l {
            assert(m.dom().contains(c) && c <= x < c + m[c].0.len());
        } else {
            lemma_deliver_run_cover(m.remove(c), c + l, m[c].1, x);
            let k = choose|k: int|
                #![trigger m.remove(c).dom().contains(k)]
                m.remove(c).dom().contains(k) && k <= x < k + m.remove(c)[k].0.len();
            assert(m.dom().contains(k) && k <= x < k + m[k].0.len());
        }
    }
}

/// Strictly ascending offsets in a frame queue.
pub open spec fn sorted_queue(q: Seq<StreamFrame>) -> bool {
    forall|i: int, j: int|
        0 <= i < j < q.len() ==> (#[trigger] q[i]).offset < (#[trigger] q[j]).offset
}

/// Replacing the frame at `idx` by one with the same offset keeps the queue
/// sorted and overwrites that offset's entry in the pending map.
proof fn lemma_queue_replace(q0: Seq<StreamFrame>, q1: Seq<StreamFrame>, idx: int, nf: StreamFrame)
    requires
        sorted_queue(q0),
        0 <= idx < q0.len(),
        q0[idx].offset == nf.offset,
        q1 == q0.update(idx, nf),
    ensures
        sorted_queue(q1),
        queue_map(q1) == queue_map(q0).insert(nf.offset as int, (nf.stream_data@, nf.fin)),
{
    assert forall|i: int, j: int| 0 <= i < j < q1.len() implies (#[trigger] q1[i]).offset < (
    #[trigger] q1[j]).offset by {
        assert(q1[i].offset == q0[i].offset);
        assert(q1[j].offset == q0[j].offset);
    }
    assert(unique_offsets(q0));
    assert(unique_offsets(q1));
    lemma_queue_map_props(q0);
    lemma_queue_map_props(q1);
    let m1 = queue_map(q0).insert(nf.offset as int, (nf.stream_data@, nf.fin));
    assert forall|k: int| #[trigger] m1.dom().contains(k) implies queue_map(q1).dom().contains(k)
        && queue_map(q1)[k] == m1[k] by {
        if k == nf.offset as int {
            assert(q1[idx].offset as int == k);
        } else {
            let i = choose|i: int| 0 <= i < q0.len() && #[trigger] q0[i].offset as int == k;
            assert(i != idx);
            assert(q1[i] == q0[i]);
            assert(q1[i].offset as int == k);
        }
    }
    assert forall|k: int| #[trigger] queue_map(q1).dom().contains(k) implies m1.dom().contains(
        k,
    ) by {
        let i = choose|i: int| 0 <= i < q1.len() && #[trigger] q1[i].offset as int == k;
        if i != idx {
            assert(q1[i] == q0[i]);
            assert(queue_map(q0).dom().contains(k));
        }
    }
    assert(queue_map(q1) =~= m1);
}

/// Inserting a frame at its sorted position keeps the queue sorted and adds
/// its entry to the pending map.
proof fn lemma_queue_insert_at(
    q0: Seq<StreamFrame>,
    q1: Seq<StreamFrame>,
    idx: int,
    nf: StreamFrame,
)
    requires
        sorted_queue(q0),
        0 <= idx <= q0.len(),
        forall|j: int| 0 <= j < idx ==> (#[trigger] q0[j]).offset < nf.offset,
        idx < q0.len() ==> q0[idx].offset != nf.offset && !(q0[idx].offset < nf.offset),
        q1 == q0.insert(idx, nf),
    ensures
        sorted_queue(q1),
        queue_map(q1) == queue_map(q0).insert(nf.offset as int, (nf.stream_data@, nf.fin)),
{
    assert forall|i: int, j: int| 0 <= i < j < q1.len() implies (#[trigger] q1[i]).offset < (
    #[trigger] q1[j]).offset by {
        if i < idx && j == idx {
            assert(q1[i] == q0[i]);
        } else if i == idx && j > idx {
            assert(q1[j] == q0[j - 1]);
            if j - 1 > idx {
                assert(q0[idx].offset < q0[j - 1].offset);
            }
        } else if i < idx && j > idx {
            assert(q1[i] == q0[i]);
            assert(q1[j] == q0[j - 1]);
        } else if i > idx && j > idx {
            assert(q1[i] == q0[i - 1]);
            assert(q1[j] == q0[j - 1]);
        } else {
            assert(q1[i] == q0[i]);
            assert(q1[j] == q0[j]);
        }
    }
    assert(unique_offsets(q0));
    assert(unique_offsets(q1));
    lemma_queue_map_props(q0);
    lemma_queue_map_props(q1);
    let m1 = queue_map(q0).insert(nf.offset as int, (nf.stream_data@, nf.fin));
    assert forall|k: int| #[trigger] m1.dom().contains(k) implies queue_map(q1).dom().contains(k)
        && queue_map(q1)[k] == m1[k] by {
        if k == nf.offset as int {
            assert(q1[idx].offset as int == k);
        } else {
            let i = choose|i: int| 0 <= i < q0.len() && #[trigger] q0[i].offset as int == k;
            if i < idx {
                assert(q1[i] == q0[i]);
                assert(q1[i].offset as int == k);
            } else {
                assert(q1[i + 1] == q0[i]);
                assert(q1[i + 1].offset as int == k);
            }
        }
    }
    assert forall|k: int| #[trigger] queue_map(q1).dom().contains(k) implies m1.dom().contains(
        k,
    ) by {
        let i = choose|i: int| 0 <= i < q1.len() && #[trigger] q1[i].offset as int == k;
        if i != idx {
            if i < idx {
                assert(q1[i] == q0[i]);
                assert(queue_map(q0).dom().contains(k));
            } else {
                assert(q1[i] == q0[i - 1]);
                assert(queue_map(q0).dom().contains(k));
            }
        }
    }
    assert(queue_map(q1) =~= m1);
}

/// The pending submap of the queue's suffix at `i` holds the frame at `i`,
/// removing it yields the next suffix's map, and all of its keys lie at or
/// beyond that frame's offset.
proof fn lemma_submap_step(q: Seq<StreamFrame>, i: int)
    requires
        sorted_queue(q),
        0 <= i < q.len(),
    ensures
        queue_map(q.skip(i)).dom().finite(),
        queue_map(q.skip(i + 1)).dom().finite(),
        queue_map(q.skip(i)).dom().contains(q[i].offset as int),
        queue_map(q.skip(i))[q[i].offset as int] == (q[i].stream_data@, q[i].fin),
        queue_map(q.skip(i)).remove(q[i].offset as int) == queue_map(q.skip(i + 1)),
        !queue_map(q.skip(i + 1)).dom().contains(q[i].offset as int),
        forall|k: int| #[trigger] queue_map(q.skip(i)).dom().contains(k) ==> k >= q[i].offset,
{
    let sub = q.skip(i);
    let subn = q.skip(i + 1);
    assert forall|a: int, b: int| 0 <= a < b < sub.len() implies (#[trigger] sub[a]).offset != (
    #[trigger] sub[b]).offset by {
        assert(sub[a] == q[i + a]);
        assert(sub[b] == q[i + b]);
    }
    assert forall|a: int, b: int| 0 <= a < b < subn.len() implies (#[trigger] subn[a]).offset != (
    #[trigger] subn[b]).offset by {
        assert(subn[a] == q[i + 1 + a]);
        assert(subn[b] == q[i + 1 + b]);
    }
    lemma_queue_map_props(sub);
    lemma_queue_map_props(subn);
    assert(sub[0] == q[i]);
    assert forall|k: int| #[trigger] queue_map(sub).dom().contains(k) implies k >= q[i].offset by {
        let a = choose|a: int| 0 <= a < sub.len() && #[trigger] sub[a].offset as int == k;
        assert(sub[a] == q[i + a]);
        if a > 0 {
            assert(q[i].offset < q[i + a].offset);
        }
    }
    assert forall|k: int| #[trigger] queue_map(subn).dom().contains(k) implies queue_map(
        sub,
    ).dom().contains(k) && k != q[i].offset as int && queue_map(sub)[k] == queue_map(subn)[k] by {
        let a = choose|a: int| 0 <= a < subn.len() && #[trigger] subn[a].offset as int == k;
        assert(subn[a] == q[i + 1 + a]);
        assert(sub[a + 1] == q[i + 1 + a]);
        assert(q[i].offset != q[i + 1 + a].offset);
        assert(queue_map(sub)[k] == (sub[a + 1].stream_data@, sub[a + 1].fin));
        assert(queue_map(subn)[k] == (subn[a].stream_data@, subn[a].fin));
    }
    assert forall|k: int|
        #[trigger] queue_map(sub).dom().contains(k) && k != q[i].offset as int implies queue_map(
        subn,
    ).dom().contains(k) by {
        let a = choose|a: int| 0 <= a < sub.len() && #[trigger] sub[a].offset as int == k;
        assert(a != 0);
        assert(subn[a - 1] == q[i + a]);
        assert(subn[a - 1] == sub[a]);
        assert(subn[a - 1].offset as int == k);
    }
    assert(queue_map(sub).remove(q[i].offset as int) =~= queue_map(subn));
}

/// Extending a prefix of the queue by one frame adds that frame's entry to
/// the prefix's pending map.
proof fn lemma_queue_take_step(q: Seq<StreamFrame>, j: int)
    requires
        0 <= j < q.len(),
    ensures
        queue_map(q.take(j + 1)) == queue_map(q.take(j)).insert(
            q[j].offset as int,
            (q[j].stream_data@, q[j].fin),
        ),
{
    assert(q.take(j + 1).drop_last() =~= q.take(j));
    assert(q.take(j + 1).last() == q[j]);
}

/// Appends all bytes of `src` to `dst`.
fn append_bytes(dst: &mut Vec<u8>, src: &[u8])
    ensures
        final(dst)@ == old(dst)@ + src@,
{
    let n = src.len();
    let mut i: usize = 0;
    while i < n
        invariant
            i <= n == src@.len(),
            dst@ == old(dst)@ + src@.take(i as int),
        decreases n - i,
    {
        dst.push(src[i]);
        i = i + 1;
        proof {
            assert(src@.take(i as int) =~= src@.take(i - 1).push(src@[i - 1]));
            assert(dst@ =~= old(dst)@ + src@.take(i as int));
        }
    }
    proof {
        assert(src@.take(n as int) =~= src@);
    }
}

/// An owned copy of a frame with the same mathematical content.
fn copy_frame(f: &StreamFrame) -> (r: StreamFrame)
    ensures
        r.fin == f.fin,
        r.data_length_present == f.data_length_present,
        r.data_length == f.data_length,
        r.stream_id == f.stream_id,
        r.offset == f.offset,
        r.stream_data@ == f.stream_data@,
{
    StreamFrame {
        fin: f.fin,
        data_length_present: f.data_length_present,
        data_length: f.data_length,
        stream_id: f.stream_id,
        offset: f.offset,
        stream_data: slice_to_vec(f.stream_data.as_slice()),
    }
}

/// Result of polling the pull interface: delivered bytes, or not ready yet.
#[derive(Debug)]
pub enum PollResult {
    Ready(Vec<u8>),
    NotReady,
}

#[derive(Debug)]
pub struct QuicStream {
    pub id: u32,
    pub state: StreamState,
    pub max_data: u64,
    pub offset: u64,
    pub send_offset: u64,
    pub frame_queue: Vec<StreamFrame>,
    pub next_offset: u64,
    pub prepared_stream: Vec<u8>,
    pub frames_to_send: Vec<StreamFrame>,
}

impl QuicStream {
    /// Receive-queue invariant: offsets strictly ascending (so unique), every
    /// region fits the offset space, and any pending frame sitting exactly at
    /// the cursor carries no bytes (a nonempty one would have been delivered).
    pub open spec fn wf(&self) -> bool {
        &&& (forall|i: int, j: int|
            0 <= i < j < self.frame_queue@.len() ==> (#[trigger] self.frame_queue@[i]).offset < (
            #[trigger] self.frame_queue@[j]).offset)
        &&& (forall|i: int|
            0 <= i < self.frame_queue@.len() ==> (#[trigger] self.frame_queue@[i]).offset
                + self.frame_queue@[i].stream_data@.len() <= u64::MAX)
        &&& (forall|i: int|
            0 <= i < self.frame_queue@.len() && (#[trigger] self.frame_queue@[i]).offset
                == self.next_offset ==> self.frame_queue@[i].stream_data@.len() == 0)
    }

    /// The pending map of the receive queue.
    pub open spec fn pending(&self) -> Map<int, FrameEntry> {
        queue_map(self.frame_queue@)
    }

    /// Creates a stream in its initial state, with both cursors at zero and
    /// nothing pending, buffered or queued to send.
    pub fn new(id: u32, max_data: u64) -> (r: Result<QuicStream, QuicError>)
        ensures
            (r matches Ok(s) && {
                &&& s.id == id
                &&& s.state == StreamState::Idle
                &&& s.max_data == max_data
                &&& s.offset == 0
                &&& s.send_offset == 0
                &&& s.next_offset == 0
                &&& s.frame_queue@ == Seq::<StreamFrame>::empty()
                &&& s.prepared_stream@ == Seq::<u8>::empty()
                &&& s.frames_to_send@ == Seq::<StreamFrame>::empty()
                &&& s.wf()
            }),
            r is Ok,
    {
        Ok(
            QuicStream {
                id,
                state: StreamState::Idle,
                max_data,
                offset: 0,
                send_offset: 0,
                frame_queue: Vec::new(),
                next_offset: 0,
                prepared_stream: Vec::new(),
                frames_to_send: Vec::new(),
            },
        )
    }

    /// Merges one incoming frame.  The frame is keyed into the pending map
    /// by its offset (a later frame at an equal offset replaces the earlier
    /// one); the maximal contiguous run starting at the cursor is then
    /// delivered.  When nothing is deliverable the frame stays buffered and
    /// `None` is returned with no other change; otherwise the run's bytes
    /// are appended to the delivered buffer and returned, the cursor moves
    /// to the end of the run, consumed and stale frames are dropped, and a
    /// run ending in a fin-flagged frame half-closes the remote side.
    #[verifier::rlimit(100)]
    pub fn on_receive_frame(&mut self, frame: &StreamFrame) -> (r: Option<Vec<u8>>)
        requires
            old(self).wf(),
            frame.offset + frame.stream_data@.len() <= u64::MAX,
        ensures
            final(self).wf(),
            final(self).id == old(self).id,
            final(self).max_data == old(self).max_data,
            final(self).offset == old(self).offset,
            final(self).send_offset == old(self).send_offset,
            final(self).frames_to_send == old(self).frames_to_send,
            ({
                let m1 = queue_map(old(self).frame_queue@).insert(
                    frame.offset as int,
                    (frame.stream_data@, frame.fin),
                );
                let (bytes, c2, fin) = deliver(m1, old(self).next_offset as int, false);
                if bytes.len() == 0 {
                    &&& r is None
                    &&& final(self).next_offset == old(self).next_offset
                    &&& queue_map(final(self).frame_queue@) == m1
                    &&& final(self).prepared_stream == old(self).prepared_stream
                    &&& final(self).state == old(self).state
                } else {
                    &&& (r matches Some(v) && v@ == bytes)
                    &&& final(self).next_offset as int == c2
                    &&& queue_map(final(self).frame_queue@) == m1.restrict(
                        Set::new(|k: int| k >= c2),
                    )
                    &&& final(self).prepared_stream@ == old(self).prepared_stream@ + bytes
                    &&& final(self).state == (if fin {
                        StreamState::HalfClosedRemote
                    } else {
                        old(self).state
                    })
                }
            }),
            final(self).model() == receive_step(
                old(self).model(),
                frame.offset as int,
                frame.stream_data@,
                frame.fin,
            ),
    {
        let ghost q0 = self.frame_queue@;
        let ghost m1 = queue_map(q0).insert(frame.offset as int, (frame.stream_data@, frame.fin));
        // Insert the frame into the sorted queue, replacing an equal offset.
        let nf = copy_frame(frame);
        let mut idx: usize = 0;
        while idx < self.frame_queue.len() && self.frame_queue[idx].offset < frame.offset
            invariant
                idx <= self.frame_queue@.len(),
                *self == *old(self),
                forall|j: int|
                    0 <= j < idx ==> (#[trigger] self.frame_queue@[j]).offset < frame.offset,
            decreases self.frame_queue@.len() - idx,
        {
            idx = idx + 1;
        }
        let replace = idx < self.frame_queue.len() && self.frame_queue[idx].offset == frame.offset;
        if replace {
            self.frame_queue[idx] = nf;
            proof {
                lemma_queue_replace(q0, self.frame_queue@, idx as int, nf);
            }
        } else {
            self.frame_queue.insert(idx, nf);
            proof {
                lemma_queue_insert_at(q0, self.frame_queue@, idx as int, nf);
            }
        }
        let ghost q1 = self.frame_queue@;
        assert(queue_map(q1) == m1);
        // Scan the sorted queue for the contiguous run at the cursor.
        let c0 = self.next_offset;
        let mut cursor: u64 = c0;
        let mut acc: Vec<u8> = Vec::new();
        let mut last_fin: bool = false;
        let mut i: usize = 0;
        proof {
            assert(q1.skip(0) =~= q1);
            assert(Seq::<u8>::empty() + deliver(m1, c0 as int, false).0 =~= deliver(
                m1,
                c0 as int,
                false,
            ).0);
        }
        while i < self.frame_queue.len()
            invariant
                self.frame_queue@ == q1,
                self.next_offset == c0,
                queue_map(q1) == m1,
                sorted_queue(q1),
                forall|a: int|
                    0 <= a < q1.len() ==> (#[trigger] q1[a]).offset + q1[a].stream_data@.len()
                        <= u64::MAX,
                i <= q1.len(),
                c0 <= cursor,
                ({
                    let d = deliver(queue_map(q1.skip(i as int)), cursor as int, last_fin);
                    deliver(m1, c0 as int, false) == (acc@ + d.0, d.1, d.2)
                }),
            decreases q1.len() - i,
        {
            let ghost sub = queue_map(q1.skip(i as int));
            let ghost subn = queue_map(q1.skip(i as int + 1));
            proof {
                lemma_submap_step(q1, i as int);
            }
            let f_off = self.frame_queue[i].offset;
            if f_off == cursor {
                let data_len = self.frame_queue[i].stream_data.len();
                let ghost pre_acc = acc@;
                let ghost pre_fin = last_fin;
                append_bytes(&mut acc, self.frame_queue[i].stream_data.as_slice());
                cursor = cursor + data_len as u64;
                last_fin = self.frame_queue[i].fin;
                proof {
                    let d2 = deliver(subn, cursor as int, last_fin);
                    assert(deliver(sub, f_off as int, pre_fin) == (
                        q1[i as int].stream_data@ + d2.0,
                        d2.1,
                        d2.2,
                    ));
                    assert(acc@ + d2.0 =~= pre_acc + (q1[i as int].stream_data@ + d2.0));
                }
            } else {
                proof {
                    if f_off < cursor {
                        lemma_deliver_remove_low(sub, cursor as int, last_fin, f_off as int);
                    } else {
                        assert(!sub.dom().contains(cursor as int));
                        assert(!subn.dom().contains(cursor as int)) by {
                            if subn.dom().contains(cursor as int) {
                                assert(sub.remove(f_off as int) == subn);
                                assert(sub.dom().contains(cursor as int));
                            }
                        }
                        assert(deliver(sub, cursor as int, last_fin) == (
                            Seq::<u8>::empty(),
                            cursor as int,
                            last_fin,
                        ));
                        assert(deliver(subn, cursor as int, last_fin) == (
                            Seq::<u8>::empty(),
                            cursor as int,
                            last_fin,
                        ));
                    }
                }
            }
            i = i + 1;
        }
        proof {
            assert(q1.skip(q1.len() as int) =~= Seq::<StreamFrame>::empty());
            assert(queue_map(Seq::<StreamFrame>::empty()) =~= Map::<int, FrameEntry>::empty());
            assert(deliver(Map::<int, FrameEntry>::empty(), cursor as int, last_fin) == (
                Seq::<u8>::empty(),
                cursor as int,
                last_fin,
            ));
            assert(acc@ + Seq::<u8>::empty() =~= acc@);
            assert(deliver(m1, c0 as int, false) == (acc@, cursor as int, last_fin));
        }
        if acc.len() == 0 {
            proof {
                lemma_queue_map_props(q1);
                assert forall|a: int|
                    0 <= a < q1.len() && (#[trigger] q1[a]).offset
                        == self.next_offset implies q1[a].stream_data@.len() == 0 by {
                    assert(m1.dom().contains(q1[a].offset as int));
                    assert(m1[q1[a].offset as int].0 == q1[a].stream_data@);
                }
            }
            return None;
        }
        // Deliverable bytes: drop everything now behind the cursor.
        let ghost cset = Set::new(|k: int| k >= cursor as int);
        let mut kept: Vec<StreamFrame> = Vec::new();
        let mut j: usize = 0;
        proof {
            assert(q1.take(0) =~= Seq::<StreamFrame>::empty());
            assert(queue_map(Seq::<StreamFrame>::empty()) =~= Map::<int, FrameEntry>::empty());
            assert(Map::<int, FrameEntry>::empty().restrict(cset) =~= Map::<
                int,
                FrameEntry,
            >::empty());
            assert(queue_map(kept@) =~= queue_map(q1.take(0)).restrict(cset));
        }
        while j < self.frame_queue.len()
            invariant
                self.frame_queue@ == q1,
                j <= q1.len(),
                sorted_queue(q1),
                forall|a: int|
                    0 <= a < q1.len() ==> (#[trigger] q1[a]).offset + q1[a].stream_data@.len()
                        <= u64::MAX,
                queue_map(kept@) == queue_map(q1.take(j as int)).restrict(cset),
                cset == Set::new(|k: int| k >= cursor as int),
                forall|t: int|
                    0 <= t < kept@.len() ==> exists|a: int|
                        0 <= a < j && (#[trigger] kept@[t]).offset == q1[a].offset
                            && kept@[t].stream_data@ == q1[a].stream_data@,
                forall|t: int| 0 <= t < kept@.len() ==> (#[trigger] kept@[t]).offset >= cursor,
                forall|t1: int, t2: int|
                    0 <= t1 < t2 < kept@.len() ==> (#[trigger] kept@[t1]).offset < (
                    #[trigger] kept@[t2]).offset,
            decreases q1.len() - j,
        {
            let ghost pre_kept = kept@;
            let keep = self.frame_queue[j].offset >= cursor;
            if keep {
                let cf = copy_frame(&self.frame_queue[j]);
                proof {
                    assert forall|t: int| 0 <= t < pre_kept.len() implies (
                    #[trigger] pre_kept[t]).offset < cf.offset by {
                        let a = choose|a: int|
                            0 <= a < j && (#[trigger] pre_kept[t]).offset == q1[a].offset
                                && pre_kept[t].stream_data@ == q1[a].stream_data@;
                        assert(q1[a].offset < q1[j as int].offset);
                    }
                }
                kept.push(cf);
                proof {
                    assert(kept@.drop_last() =~= pre_kept);
                }
            }
            j = j + 1;
            proof {
                lemma_queue_take_step(q1, j - 1);
                if keep {
                    assert(queue_map(kept@) =~= queue_map(q1.take(j as int)).restrict(cset));
                } else {
                    assert(queue_map(kept@) =~= queue_map(q1.take(j as int)).restrict(cset));
                }
            }
        }
        proof {
            assert(q1.take(q1.len() as int) =~= q1);
        }
        self.frame_queue = kept;
        self.next_offset = cursor;
        if last_fin {
            self.state = StreamState::HalfClosedRemote;
        }
        let out = copy_bytes(&acc);
        append_bytes(&mut self.prepared_stream, acc.as_slice());
        proof {
            // A kept frame at the new cursor must be empty: the run ended
            // there, so anything pending at that offset carries no bytes.
            let q2 = self.frame_queue@;
            assert(unique_offsets(q2));
            lemma_queue_map_props(q2);
            assert(unique_offsets(q1));
            lemma_queue_map_props(q1);
            assert(m1.dom().finite());
            assert(queue_map(q2) == m1.restrict(cset));
            assert forall|a: int|
                0 <= a < q2.len() && (#[trigger] q2[a]).offset
                    == self.next_offset implies q2[a].stream_data@.len() == 0 by {
                assert(queue_map(q2).dom().contains(q2[a].offset as int));
                assert(m1.restrict(cset).dom().contains(cursor as int));
                assert(m1.dom().contains(cursor as int));
                lemma_deliver_final_key(m1, c0 as int, false);
                assert(queue_map(q2)[q2[a].offset as int].0 == q2[a].stream_data@);
            }
        }
        Some(out)
    }

    /// Non-blocking pull: hands over the delivered-byte buffer and clears it
    /// when nonempty, otherwise reports not ready.  Never blocks.
    pub fn poll(&mut self) -> (r: PollResult)
        ensures
            final(self).wf() == old(self).wf(),
            final(self).id == old(self).id,
            final(self).state == old(self).state,
            final(self).max_data == old(self).max_data,
            final(self).offset == old(self).offset,
            final(self).send_offset == old(self).send_offset,
            final(self).next_offset == old(self).next_offset,
            final(self).frame_queue == old(self).frame_queue,
            final(self).frames_to_send == old(self).frames_to_send,
            (if old(self).prepared_stream@.len() == 0 {
                &&& (r matches PollResult::NotReady)
                &&& final(self).prepared_stream == old(self).prepared_stream
            } else {
                &&& (r matches PollResult::Ready(v) && v@ == old(self).prepared_stream@)
                &&& final(self).prepared_stream@ == Seq::<u8>::empty()
            }),
    {
        if self.prepared_stream.len() == 0 {
            PollResult::NotReady
        } else {
            let out = copy_bytes(&self.prepared_stream);
            self.prepared_stream.clear();
            PollResult::Ready(out)
        }
    }

    /// Push interface for the send direction: wraps an outgoing chunk in a
    /// STREAM frame at the current send offset, advances the send offset by
    /// the chunk's length, and enqueues the frame for transmission.
    pub fn start_send(&mut self, item: Vec<u8>)
        requires
            old(self).send_offset + item@.len() <= u64::MAX,
            item@.len() <= 0xffff,
        ensures
            final(self).wf() == old(self).wf(),
            final(self).id == old(self).id,
            final(self).state == old(self).state,
            final(self).max_data == old(self).max_data,
            final(self).offset == old(self).offset,
            final(self).next_offset == old(self).next_offset,
            final(self).frame_queue == old(self).frame_queue,
            final(self).prepared_stream == old(self).prepared_stream,
            final(self).send_offset == old(self).send_offset + item@.len(),
            final(self).frames_to_send@.len() == old(self).frames_to_send@.len() + 1,
            forall|i: int|
                0 <= i < old(self).frames_to_send@.len() ==> final(self).frames_to_send@[i] == old(
                    self,
                ).frames_to_send@[i],
            ({
                let f = final(self).frames_to_send@.last();
                &&& f.fin == false
                &&& f.data_length_present == true
                &&& f.data_length == Some(item@.len() as u16)
                &&& f.stream_id == old(self).id
                &&& f.offset == old(self).send_offset
                &&& f.stream_data@ == item@
                &&& f.wf()
            }),
    {
        let data_length = item.len() as u16;
        let frame = StreamFrame {
            fin: false,
            data_length_present: true,
            data_length: Some(data_length),
            stream_id: self.id,
            offset: self.send_offset,
            stream_data: item,
        };
        self.send_offset = self.send_offset + data_length as u64;
        self.frames_to_send.push(frame);
    }
}

/// The reassembler's mathematical state: the pending map, the receive
/// cursor, the bytes made available to the consumer, and the lifecycle
/// state.
pub struct StreamModel {
    pub pending: Map<int, FrameEntry>,
    pub cursor: int,
    pub delivered: Seq<u8>,
    pub state: StreamState,
}

/// One reassembly step at the model level: exactly the transformation
/// `on_receive_frame` promises for one incoming frame.
pub open spec fn receive_step(m: StreamModel, off: int, d: Seq<u8>, fin: bool) -> StreamModel {
    let m1 = m.pending.insert(off, (d, fin));
    let (bytes, c2, f2) = deliver(m1, m.cursor, false);
    if bytes.len() == 0 {
        StreamModel { pending: m1, cursor: m.cursor, delivered: m.delivered, state: m.state }
    } else {
        StreamModel {
            pending: m1.restrict(Set::new(|k: int| k >= c2)),
            cursor: c2,
            delivered: m.delivered + bytes,
            state: if f2 {
                StreamState::HalfClosedRemote
            } else {
                m.state
            },
        }
    }
}

/// Folding `receive_step` over a delivery order.
pub open spec fn receive_all(m: StreamModel, fs: Seq<StreamFrameModel>) -> StreamModel
    decreases fs.len(),
{
    if fs.len() == 0 {
        m
    } else {
        receive_all(
            receive_step(m, fs[0].offset as int, fs[0].stream_data, fs[0].fin),
            fs.drop_first(),
        )
    }
}

pub proof fn lemma_receive_all_snoc(m: StreamModel, fs: Seq<StreamFrameModel>, f: StreamFrameModel)
    ensures
        receive_all(m, fs.push(f)) == receive_step(
            receive_all(m, fs),
            f.offset as int,
            f.stream_data,
            f.fin,
        ),
    decreases fs.len(),
{
    if fs.len() == 0 {
        assert(fs.push(f)[0] == f);
        assert(fs.push(f).drop_first() =~= Seq::<StreamFrameModel>::empty());
        let stepped = receive_step(m, f.offset as int, f.stream_data, f.fin);
        assert(receive_all(m, fs.push(f)) == receive_all(
            stepped,
            Seq::<StreamFrameModel>::empty(),
        ));
        assert(receive_all(stepped, Seq::<StreamFrameModel>::empty()) == stepped);
        assert(receive_all(m, fs) == m);
    } else {
        assert(fs.push(f).drop_first() =~= fs.drop_first().push(f));
        assert(fs.push(f)[0] == fs[0]);
        lemma_receive_all_snoc(
            receive_step(m, fs[0].offset as int, fs[0].stream_data, fs[0].fin),
            fs.drop_first(),
            f,
        );
    }
}

impl QuicStream {
    /// The stream's mathematical state.
    pub open spec fn model(&self) -> StreamModel {
        StreamModel {
            pending: queue_map(self.frame_queue@),
            cursor: self.next_offset as int,
            delivered: self.prepared_stream@,
            state: self.state,
        }
    }
}

/// A well-formed stream's model satisfies the laws' side conditions: its
/// pending map is finite and a pending entry at the cursor carries no bytes.
pub proof fn lemma_wf_model(s: &QuicStream)
    requires
        s.wf(),
    ensures
        s.model().pending.dom().finite(),
        s.model().pending.dom().contains(s.model().cursor) ==> s.model().pending[s.model().cursor].0.len()
            == 0,
{
    let q = s.frame_queue@;
    assert(unique_offsets(q));
    lemma_queue_map_props(q);
    if queue_map(q).dom().contains(s.next_offset as int) {
        let i = choose|i: int| 0 <= i < q.len() && #[trigger] q[i].offset as int == s.next_offset as int;
        assert(queue_map(q)[q[i].offset as int] == (q[i].stream_data@, q[i].fin));
    }
}

/// Reassembly gap-blocking: a frame whose offset lies strictly beyond the
/// cursor delivers nothing — it is only buffered, and neither the cursor nor
/// the delivered bytes nor the state change.
pub proof fn lemma_gap_blocking(m: StreamModel, off: int, d: Seq<u8>, fin: bool)
    requires
        m.pending.dom().finite(),
        m.pending.dom().contains(m.cursor) ==> m.pending[m.cursor].0.len() == 0,
        off > m.cursor,
    ensures
        receive_step(m, off, d, fin) == (StreamModel {
            pending: m.pending.insert(off, (d, fin)),
            cursor: m.cursor,
            delivered: m.delivered,
            state: m.state,
        }),
{
    let m1 = m.pending.insert(off, (d, fin));
    if m1.dom().contains(m.cursor) {
        assert(m1[m.cursor] == m.pending[m.cursor]);
        let m2 = m1.remove(m.cursor);
        assert(!m2.dom().contains(m.cursor));
        assert(deliver(m2, m.cursor + m1[m.cursor].0.len(), m1[m.cursor].1) == (
            Seq::<u8>::empty(),
            m.cursor,
            m1[m.cursor].1,
        ));
        assert(deliver(m1, m.cursor, false).0.len() == 0);
    } else {
        assert(deliver(m1, m.cursor, false).0.len() == 0);
    }
}

/// Duplicate suppression: delivering the same offset twice while it is still
/// buffered contributes at most once, and the later frame wins — the end
/// state is as if only the second frame had arrived.
pub proof fn lemma_duplicate_suppression(
    m: StreamModel,
    off: int,
    d1: Seq<u8>,
    fin1: bool,
    d2: Seq<u8>,
    fin2: bool,
)
    requires
        m.pending.dom().finite(),
        m.pending.dom().contains(m.cursor) ==> m.pending[m.cursor].0.len() == 0,
        off > m.cursor,
    ensures
        receive_step(receive_step(m, off, d1, fin1), off, d2, fin2) == receive_step(
            m,
            off,
            d2,
            fin2,
        ),
{
    lemma_gap_blocking(m, off, d1, fin1);
    let ma = receive_step(m, off, d1, fin1);
    assert(ma.pending.insert(off, (d2, fin2)) =~= m.pending.insert(off, (d2, fin2)));
}

/// Every frame in the list carries at least one byte.
pub open spec fn frames_nonempty(fs: Seq<StreamFrameModel>) -> bool {
    forall|i: int| 0 <= i < fs.len() ==> (#[trigger] fs[i]).stream_data.len() > 0
}

/// The frames' byte regions are pairwise disjoint (in particular, offsets of
/// nonempty frames are distinct).
pub open spec fn frames_disjoint(fs: Seq<StreamFrameModel>) -> bool {
    forall|i: int, j: int|
        0 <= i < j < fs.len() ==> (#[trigger] fs[i]).offset + fs[i].stream_data.len() <= (
        #[trigger] fs[j]).offset || fs[j].offset + fs[j].stream_data.len() <= fs[i].offset
}

/// Every frame's offset lies at or beyond the cursor `c`.
pub open spec fn frames_at_or_after(fs: Seq<StreamFrameModel>, c: int) -> bool {
    forall|i: int| 0 <= i < fs.len() ==> (#[trigger] fs[i]).offset as int >= c
}

/// The pending map a list of frames would build up, last write winning.
pub open spec fn frames_map(fs: Seq<StreamFrameModel>) -> Map<int, FrameEntry>
    decreases fs.len(),
{
    if fs.len() == 0 {
        Map::empty()
    } else {
        frames_map(fs.drop_last()).insert(
            fs.last().offset as int,
            (fs.last().stream_data, fs.last().fin),
        )
    }
}

/// The frame map of a distinct-offset list holds exactly those frames.
pub proof fn lemma_frames_map_props(fs: Seq<StreamFrameModel>)
    requires
        forall|i: int, j: int|
            0 <= i < j < fs.len() ==> (#[trigger] fs[i]).offset != (#[trigger] fs[j]).offset,
    ensures
        frames_map(fs).dom().finite(),
        forall|i: int|
            0 <= i < fs.len() ==> frames_map(fs).dom().contains(#[trigger] fs[i].offset as int)
                && frames_map(fs)[fs[i].offset as int] == (fs[i].stream_data, fs[i].fin),
        forall|k: int|
            #[trigger] frames_map(fs).dom().contains(k) ==> exists|i: int|
                0 <= i < fs.len() && #[trigger] fs[i].offset as int == k,
    decreases fs.len(),
{
    if fs.len() > 0 {
        let pre = fs.drop_last();
        lemma_frames_map_props(pre);
        assert forall|i: int| 0 <= i < fs.len() implies frames_map(fs).dom().contains(
            #[trigger] fs[i].offset as int,
        ) && frames_map(fs)[fs[i].offset as int] == (fs[i].stream_data, fs[i].fin) by {
            if i < fs.len() - 1 {
                assert(pre[i] == fs[i]);
                assert(fs[i].offset != fs.last().offset);
            }
        }
        assert forall|k: int| #[trigger] frames_map(fs).dom().contains(k) implies exists|i: int|
            0 <= i < fs.len() && #[trigger] fs[i].offset as int == k by {
            if k == fs.last().offset as int {
                assert(fs[fs.len() - 1].offset as int == k);
            } else {
                let i = choose|i: int| 0 <= i < pre.len() && #[trigger] pre[i].offset as int == k;
                assert(fs[i].offset as int == k);
            }
        }
    }
}

/// Keys below the cursor never matter: restricting them away leaves the
/// delivered run unchanged.
pub proof fn lemma_deliver_restrict_low(m: Map<int, FrameEntry>, c: int, fin0: bool, t: int)
    requires
        m.dom().finite(),
        t <= c,
    ensures
        deliver(m.restrict(Set::new(|k: int| k >= t)), c, fin0) == deliver(m, c, fin0),
    decreases m.dom().len(),
{
    let cs = Set::new(|k: int| k >= t);
    let r = m.restrict(cs);
    assert(r.dom() =~= m.dom().intersect(cs));
    vstd::set_lib::lemma_len_intersect::<int>(m.dom(), cs);
    assert(r.dom().finite()) by {
        vstd::set::axiom_set_intersect_finite(m.dom(), cs);
    }
    if m.dom().contains(c) {
        assert(r.dom().contains(c) && r[c] == m[c]);
        assert(m.remove(c).restrict(cs) =~= r.remove(c));
        lemma_deliver_cursor_mono(m.remove(c), c + m[c].0.len(), m[c].1);
        lemma_deliver_restrict_low(m.remove(c), c + m[c].0.len(), m[c].1, t);
    } else {
        assert(!r.dom().contains(c));
    }
}

/// Incremental reassembly equals batch reassembly: after any prefix of the
/// delivery order, the state is exactly what one delivery over the map of
/// all frames seen so far would produce.
proof fn lemma_batch_prefix(m0: StreamModel, fs: Seq<StreamFrameModel>, i: int)
    requires
        0 <= i <= fs.len(),
        m0.pending == Map::<int, FrameEntry>::empty(),
        frames_nonempty(fs),
        frames_disjoint(fs),
        frames_at_or_after(fs, m0.cursor),
    ensures
        ({
            let mi = frames_map(fs.take(i));
            let (b, c1, f1) = deliver(mi, m0.cursor, false);
            &&& receive_all(m0, fs.take(i)).pending == mi.restrict(Set::new(|k: int| k >= c1))
            &&& receive_all(m0, fs.take(i)).cursor == c1
            &&& receive_all(m0, fs.take(i)).delivered == m0.delivered + b
        }),
    decreases i,
{
    let c0 = m0.cursor;
    assert forall|a: int, b: int| 0 <= a < b < fs.len() implies (#[trigger] fs[a]).offset != (
    #[trigger] fs[b]).offset by {
        assert(fs[a].stream_data.len() > 0);
        assert(fs[b].stream_data.len() > 0);
    }
    if i == 0 {
        assert(fs.take(0) =~= Seq::<StreamFrameModel>::empty());
        assert(frames_map(Seq::<StreamFrameModel>::empty()) == Map::<int, FrameEntry>::empty());
        assert(!Map::<int, FrameEntry>::empty().dom().contains(c0));
        assert(deliver(Map::<int, FrameEntry>::empty(), c0, false) == (
            Seq::<u8>::empty(),
            c0,
            false,
        ));
        assert(receive_all(m0, fs.take(0)) == m0);
        assert(m0.pending =~= Map::<int, FrameEntry>::empty().restrict(
            Set::new(|k: int| k >= c0),
        ));
        assert(m0.delivered =~= m0.delivered + Seq::<u8>::empty());
    } else {
        lemma_batch_prefix(m0, fs, i - 1);
        let prefix = fs.take(i - 1);
        let prev = receive_all(m0, prefix);
        let mi1 = frames_map(prefix);
        let (b, c1, f1) = deliver(mi1, c0, false);
        let f = fs[i - 1];
        let off = f.offset as int;
        let v = (f.stream_data, f.fin);
        let l = f.stream_data.len() as int;
        let cs1 = Set::new(|k: int| k >= c1);
        assert forall|a: int, bb: int| 0 <= a < bb < prefix.len() implies (
        #[trigger] prefix[a]).offset != (#[trigger] prefix[bb]).offset by {
            assert(prefix[a] == fs[a]);
            assert(prefix[bb] == fs[bb]);
        }
        lemma_frames_map_props(prefix);
        assert(fs.take(i) =~= prefix.push(f));
        lemma_receive_all_snoc(m0, prefix, f);
        assert(receive_all(m0, fs.take(i)) == receive_step(prev, off, f.stream_data, f.fin));
        assert(fs.take(i).drop_last() =~= prefix);
        assert(fs.take(i).last() == f);
        let mi = frames_map(fs.take(i));
        assert(mi == mi1.insert(off, v));
        // The new frame's offset is fresh and lies at or beyond the run's end.
        assert(!mi1.dom().contains(off)) by {
            if mi1.dom().contains(off) {
                let a = choose|a: int|
                    0 <= a < prefix.len() && #[trigger] prefix[a].offset as int == off;
                assert(fs[a].offset == fs[i - 1].offset);
            }
        }
        lemma_deliver_cursor_mono(mi1, c0, false);
        assert(off >= c1) by {
            if off < c1 {
                lemma_deliver_run_cover(mi1, c0, false, off);
                let k = choose|k: int|
                    #![trigger mi1.dom().contains(k)]
                    mi1.dom().contains(k) && k <= off < k + mi1[k].0.len();
                let a = choose|a: int|
                    0 <= a < prefix.len() && #[trigger] prefix[a].offset as int == k;
                assert(mi1[k] == (fs[a].stream_data, fs[a].fin));
                assert(fs[a].offset as int + fs[a].stream_data.len() <= fs[i - 1].offset as int
                    || fs[i - 1].offset as int + fs[i - 1].stream_data.len() <= fs[a].offset as int);
                assert(fs[i - 1].stream_data.len() > 0);
            }
        }
        assert(!mi1.dom().contains(c1)) by {
            if mi1.dom().contains(c1) {
                lemma_deliver_final_key(mi1, c0, false);
                let a = choose|a: int|
                    0 <= a < prefix.len() && #[trigger] prefix[a].offset as int == c1;
                assert(mi1[c1] == (fs[a].stream_data, fs[a].fin));
                assert(fs[a].stream_data.len() > 0);
            }
        }
        let pp = prev.pending;
        assert(pp == mi1.restrict(cs1));
        assert(pp.dom() =~= mi1.dom().intersect(cs1));
        assert(pp.dom().finite()) by {
            vstd::set::axiom_set_intersect_finite(mi1.dom(), cs1);
        }
        assert(!pp.dom().contains(c1));
        assert(deliver(pp, c1, false) == (Seq::<u8>::empty(), c1, false));
        let m1 = pp.insert(off, v);
        assert(!pp.dom().contains(off));
        lemma_deliver_insert(pp, c1, false, off, v);
        lemma_deliver_insert(mi1, c0, false, off, v);
        if off > c1 {
            assert(deliver(m1, c1, false) == (Seq::<u8>::empty(), c1, false));
            assert(deliver(mi, c0, false) == (b, c1, f1));
            assert(receive_step(prev, off, f.stream_data, f.fin) == (StreamModel {
                pending: m1,
                cursor: c1,
                delivered: prev.delivered,
                state: prev.state,
            }));
            assert(m1 =~= mi.restrict(cs1));
        } else {
            assert(off == c1);
            lemma_deliver_restrict_low(mi1, c1 + l, v.1, c1);
            let (b2, c2, f2) = deliver(mi1, c1 + l, v.1);
            assert(deliver(pp, c1 + l, v.1) == (b2, c2, f2));
            assert(deliver(m1, c1, false) == (
                Seq::<u8>::empty() + (v.0 + b2),
                c2,
                f2,
            ));
            assert(deliver(mi, c0, false) == (b + (v.0 + b2), c2, f2));
            assert((Seq::<u8>::empty() + (v.0 + b2)).len() > 0);
            lemma_deliver_cursor_mono(mi1, c1 + l, v.1);
            let cs2 = Set::new(|k: int| k >= c2);
            assert(receive_step(prev, off, f.stream_data, f.fin).pending == m1.restrict(cs2));
            assert(m1 =~= mi.restrict(cs1));
            assert(mi.restrict(cs1).restrict(cs2) =~= mi.restrict(cs2));
            assert(receive_step(prev, off, f.stream_data, f.fin).delivered == prev.delivered + (
            Seq::<u8>::empty() + (v.0 + b2)));
            assert((m0.delivered + b) + (Seq::<u8>::empty() + (v.0 + b2)) =~= m0.delivered + (b + (
            v.0 + b2)));
        }
    }
}

/// Reassembly is order-independent: delivering the same set of
/// non-overlapping, nonempty frames in any order yields the same delivered
/// byte sequence, the same cursor, and the same pending leftovers.  (The
/// lifecycle state is not covered: which frame ends the final run, and so
/// whether its fin flag closes the stream, does depend on arrival order.)
pub proof fn lemma_reassembly_order_independence(
    m0: StreamModel,
    fs: Seq<StreamFrameModel>,
    gs: Seq<StreamFrameModel>,
)
    requires
        m0.pending == Map::<int, FrameEntry>::empty(),
        frames_nonempty(fs),
        frames_disjoint(fs),
        frames_at_or_after(fs, m0.cursor),
        frames_nonempty(gs),
        frames_disjoint(gs),
        frames_at_or_after(gs, m0.cursor),
        forall|f: StreamFrameModel| fs.contains(f) <==> gs.contains(f),
    ensures
        receive_all(m0, fs).delivered == receive_all(m0, gs).delivered,
        receive_all(m0, fs).cursor == receive_all(m0, gs).cursor,
        receive_all(m0, fs).pending == receive_all(m0, gs).pending,
{
    lemma_batch_prefix(m0, fs, fs.len() as int);
    lemma_batch_prefix(m0, gs, gs.len() as int);
    assert(fs.take(fs.len() as int) =~= fs);
    assert(gs.take(gs.len() as int) =~= gs);
    assert forall|a: int, b: int| 0 <= a < b < fs.len() implies (#[trigger] fs[a]).offset != (
    #[trigger] fs[b]).offset by {
        assert(fs[a].stream_data.len() > 0);
    }
    assert forall|a: int, b: int| 0 <= a < b < gs.len() implies (#[trigger] gs[a]).offset != (
    #[trigger] gs[b]).offset by {
        assert(gs[a].stream_data.len() > 0);
    }
    lemma_frames_map_props(fs);
    lemma_frames_map_props(gs);
    assert forall|k: int| #[trigger] frames_map(fs).dom().contains(k) implies frames_map(
        gs,
    ).dom().contains(k) && frames_map(gs)[k] == frames_map(fs)[k] by {
        let a = choose|a: int| 0 <= a < fs.len() && #[trigger] fs[a].offset as int == k;
        assert(fs.contains(fs[a]));
        assert(gs.contains(fs[a]));
        let j = choose|j: int| 0 <= j < gs.len() && gs[j] == fs[a];
        assert(gs[j].offset as int == k);
    }
    assert forall|k: int| #[trigger] frames_map(gs).dom().contains(k) implies frames_map(
        fs,
    ).dom().contains(k) by {
        let a = choose|a: int| 0 <= a < gs.len() && #[trigger] gs[a].offset as int == k;
        assert(gs.contains(gs[a]));
        assert(fs.contains(gs[a]));
        let j = choose|j: int| 0 <= j < fs.len() && fs[j] == gs[a];
        assert(fs[j].offset as int == k);
    }
    assert(frames_map(fs) =~= frames_map(gs));
}

/// The frames tile one contiguous byte range starting at `c0`: the first
/// frame sits exactly at `c0` and each next frame starts where the previous
/// one ends.
pub open spec fn contiguous_from(fs: Seq<StreamFrameModel>, c0: int) -> bool {
    &&& (fs.len() > 0 ==> fs[0].offset as int == c0)
    &&& (forall|i: int|
        0 <= i < fs.len() - 1 ==> (#[trigger] fs[i + 1]).offset as int == fs[i].offset
            + fs[i].stream_data.len())
}

/// The payload bytes of the frames, concatenated in order.
pub open spec fn concat_data(fs: Seq<StreamFrameModel>) -> Seq<u8>
    decreases fs.len(),
{
    if fs.len() == 0 {
        Seq::empty()
    } else {
        fs[0].stream_data + concat_data(fs.drop_first())
    }
}

/// In a contiguous tiling of nonempty frames, an earlier frame's region ends
/// at or before a later frame's start.
pub proof fn lemma_contiguous_ordered(fs: Seq<StreamFrameModel>, c0: int, i: int, j: int)
    requires
        contiguous_from(fs, c0),
        frames_nonempty(fs),
        0 <= i < j < fs.len(),
    ensures
        fs[i].offset + fs[i].stream_data.len() <= fs[j].offset,
    decreases j - i,
{
    if j == i + 1 {
        assert(fs[i + 1].offset as int == fs[i].offset + fs[i].stream_data.len());
    } else {
        lemma_contiguous_ordered(fs, c0, i, j - 1);
        assert(fs[(j - 1) + 1].offset as int == fs[j - 1].offset + fs[j - 1].stream_data.len());
    }
}

/// Delivering a contiguous tiling in its own order hands every byte over and
/// leaves nothing pending, moving the cursor to the end of the range.
proof fn lemma_contiguous_in_order(m0: StreamModel, fs: Seq<StreamFrameModel>)
    requires
        m0.pending == Map::<int, FrameEntry>::empty(),
        frames_nonempty(fs),
        contiguous_from(fs, m0.cursor),
    ensures
        receive_all(m0, fs).delivered == m0.delivered + concat_data(fs),
        receive_all(m0, fs).cursor == m0.cursor + concat_data(fs).len(),
        receive_all(m0, fs).pending == Map::<int, FrameEntry>::empty(),
    decreases fs.len(),
{
    if fs.len() == 0 {
        assert(m0.delivered + concat_data(fs) =~= m0.delivered);
    } else {
        let f = fs[0];
        let c0 = m0.cursor;
        let v = (f.stream_data, f.fin);
        let l = f.stream_data.len() as int;
        let m1 = m0.pending.insert(c0, v);
        assert(m1.dom() =~= Map::<int, FrameEntry>::empty().dom().insert(c0));
        assert(m1.dom().finite());
        assert(m1.remove(c0) =~= Map::<int, FrameEntry>::empty());
        assert(deliver(m1.remove(c0), c0 + l, f.fin) == (Seq::<u8>::empty(), c0 + l, f.fin));
        assert(deliver(m1, c0, false) == (v.0 + Seq::<u8>::empty(), c0 + l, f.fin));
        assert((v.0 + Seq::<u8>::empty()).len() > 0);
        let stepped = receive_step(m0, c0, f.stream_data, f.fin);
        assert(stepped.pending =~= Map::<int, FrameEntry>::empty());
        assert(stepped.cursor == c0 + l);
        assert(stepped.delivered == m0.delivered + (v.0 + Seq::<u8>::empty()));
        let rest = fs.drop_first();
        assert(contiguous_from(rest, c0 + l)) by {
            if rest.len() > 0 {
                assert(fs[1int].offset as int == fs[0].offset + fs[0].stream_data.len());
                assert(rest[0] == fs[1]);
                assert forall|i: int| 0 <= i < rest.len() - 1 implies (
                #[trigger] rest[i + 1]).offset as int == rest[i].offset
                    + rest[i].stream_data.len() by {
                    assert(rest[i] == fs[i + 1]);
                    assert(rest[i + 1] == fs[i + 2]);
                    assert(fs[(i + 1) + 1].offset as int == fs[i + 1].offset + fs[i
                        + 1].stream_data.len());
                }
            }
        }
        assert(frames_nonempty(rest)) by {
            assert forall|i: int| 0 <= i < rest.len() implies (
            #[trigger] rest[i]).stream_data.len() > 0 by {
                assert(rest[i] == fs[i + 1]);
            }
        }
        lemma_contiguous_in_order(stepped, rest);
        assert(receive_all(m0, fs) == receive_all(stepped, rest));
        assert((m0.delivered + (v.0 + Seq::<u8>::empty())) + concat_data(rest) =~= m0.delivered + (
        v.0 + concat_data(rest)));
        assert(concat_data(fs) == v.0 + concat_data(rest));
    }
}

/// Completeness of reassembly: a set of frames that tiles a contiguous byte
/// range, delivered in any order, yields exactly the range's bytes in
/// offset order and moves the cursor to the end of the range, with nothing
/// left pending.
pub proof fn lemma_contiguous_any_order(
    m0: StreamModel,
    fs: Seq<StreamFrameModel>,
    gs: Seq<StreamFrameModel>,
)
    requires
        m0.pending == Map::<int, FrameEntry>::empty(),
        frames_nonempty(fs),
        contiguous_from(fs, m0.cursor),
        frames_nonempty(gs),
        frames_disjoint(gs),
        frames_at_or_after(gs, m0.cursor),
        forall|f: StreamFrameModel| fs.contains(f) <==> gs.contains(f),
    ensures
        receive_all(m0, gs).delivered == m0.delivered + concat_data(fs),
        receive_all(m0, gs).cursor == m0.cursor + concat_data(fs).len(),
        receive_all(m0, gs).pending == Map::<int, FrameEntry>::empty(),
{
    assert(frames_disjoint(fs)) by {
        assert forall|i: int, j: int| 0 <= i < j < fs.len() implies (#[trigger] fs[i]).offset
            + fs[i].stream_data.len() <= (#[trigger] fs[j]).offset || fs[j].offset
            + fs[j].stream_data.len() <= fs[i].offset by {
            lemma_contiguous_ordered(fs, m0.cursor, i, j);
        }
    }
    assert(frames_at_or_after(fs, m0.cursor)) by {
        assert forall|i: int| 0 <= i < fs.len() implies (#[trigger] fs[i]).offset as int
            >= m0.cursor by {
            if i > 0 {
                lemma_contiguous_ordered(fs, m0.cursor, 0, i);
                assert(fs[0].stream_data.len() > 0);
            }
        }
    }
    lemma_reassembly_order_independence(m0, fs, gs);
    lemma_contiguous_in_order(m0, fs);
}

/// An owned copy of a byte vector.
fn copy_bytes(v: &Vec<u8>) -> (r: Vec<u8>)
    ensures
        r@ == v@,
{
    slice_to_vec(v.as_slice())
}

} // verus!
