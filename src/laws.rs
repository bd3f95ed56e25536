use vstd::prelude::*;

use crate::model::{
    consistent_with, deliver_all, frame_gain, frame_step, insert_segment,
    lemma_frame_step_wf, lemma_insert_segment, lemma_insert_segment_at, lemma_merge_walk,
    lemma_merge_walk_consistent, merge_walk, read_count, read_step, recv_empty, recv_wf, seg_end,
    sorted, FrameView, RecvState, SegView,
};

verus! {

/// Inserting a segment that the ascending list already holds changes nothing.
proof fn lemma_insert_present(segs: Seq<SegView>, q: int)
    requires
        sorted(segs),
        0 <= q < segs.len(),
    ensures
        insert_segment(segs, segs[q]) == segs,
{
    lemma_insert_segment_at(segs, segs[q], q);
    assert(segs.subrange(0, q) + seq![segs[q]] + segs.subrange(q + 1, segs.len() as int) =~= segs);
}

/// After a step, each segment of the list the frame went into has either been passed by the
/// cursor or is still pending.
proof fn lemma_step_keeps(m: RecvState, fin: bool, offset: int, data: Seq<u8>, x: SegView)
    requires
        recv_wf(m),
        insert_segment(m.segs, (offset, data)).contains(x),
    ensures
        seg_end(x) <= frame_step(m, fin, offset, data).rx || frame_step(
            m,
            fin,
            offset,
            data,
        ).segs.contains(x),
{
    let ins = insert_segment(m.segs, (offset, data));
    lemma_insert_segment(m.segs, (offset, data));
    lemma_merge_walk(m.rx, ins);
    let w = merge_walk(m.rx, ins);
    let p = choose|p: int| 0 <= p < ins.len() && ins[p] == x;
    if p >= w.2 {
        let rest = ins.subrange(w.2 as int, ins.len() as int);
        assert(rest[p - w.2] == x);
    }
}

/// Taking in the same frame a second time makes no byte available and leaves the state as
/// the first time left it.
pub proof fn lemma_duplicate_frame_idempotent(m: RecvState, fin: bool, offset: int, data: Seq<u8>)
    requires
        recv_wf(m),
    ensures
        frame_gain(frame_step(m, fin, offset, data), offset, data) == 0,
        frame_step(frame_step(m, fin, offset, data), fin, offset, data) == frame_step(
            m,
            fin,
            offset,
            data,
        ),
{
    let f = (offset, data);
    let m1 = frame_step(m, fin, offset, data);
    lemma_frame_step_wf(m, fin, offset, data);
    lemma_insert_segment(m.segs, f);
    lemma_step_keeps(m, fin, offset, data, f);
    let segs = m1.segs;
    let ins2 = insert_segment(segs, f);
    if segs.contains(f) {
        let q = choose|q: int| 0 <= q < segs.len() && segs[q] == f;
        lemma_insert_present(segs, q);
        assert(merge_walk(m1.rx, ins2) == (m1.rx, Seq::<u8>::empty(), 0nat)) by {
            assert(segs[0].0 > m1.rx);
        }
    } else {
        assert(seg_end(f) <= m1.rx);
        lemma_insert_segment_at(segs, f, 0);
        assert(ins2 =~= seq![f] + segs);
        assert(ins2.drop_first() =~= segs);
        assert(merge_walk(m1.rx, segs) == (m1.rx, Seq::<u8>::empty(), 0nat)) by {
            if segs.len() > 0 {
                assert(segs[0].0 > m1.rx);
            }
        }
        assert(merge_walk(m1.rx, ins2).1 =~= Seq::<u8>::empty());
    }
    let m2 = frame_step(m1, fin, offset, data);
    assert(m2.segs =~= m1.segs);
    assert(m2.ready =~= m1.ready);
}

/// The cursor never moves back, over any run of frames.
pub proof fn lemma_cursor_monotonic(m: RecvState, frames: Seq<FrameView>)
    requires
        recv_wf(m),
    ensures
        deliver_all(m, frames).rx >= m.rx,
        recv_wf(deliver_all(m, frames)),
    decreases frames.len(),
{
    if frames.len() > 0 {
        let f = frames[0];
        lemma_frame_step_wf(m, f.0, f.1, f.2);
        lemma_cursor_monotonic(frame_step(m, f.0, f.1, f.2), frames.drop_first());
    }
}

/// Reading at least as many bytes as are ready drops the readiness flag; a later frame that
/// makes bytes available raises it again.
pub proof fn lemma_drain_then_refill(m: RecvState, cap: int, fin: bool, offset: int, data: Seq<u8>)
    requires
        recv_wf(m),
        cap >= 0,
    ensures
        0 <= read_count(m, cap) <= cap,
        read_count(m, cap) <= m.ready.len(),
        cap >= m.ready.len() ==> !read_step(m, cap).readiness,
        recv_wf(read_step(m, cap)),
        frame_gain(read_step(m, cap), offset, data) > 0 ==> frame_step(
            read_step(m, cap),
            fin,
            offset,
            data,
        ).readiness,
{
}

/// What holds of a fresh stream fed only frames that carry the bytes of `b`: the ready bytes
/// are `b` up to the cursor, pending segments carry bytes of `b`, and each frame seen so far
/// is either passed by the cursor or pending.
pub open spec fn reassembly_inv(m: RecvState, b: Seq<u8>, seen: Seq<FrameView>) -> bool {
    &&& recv_wf(m)
    &&& m.rx <= b.len()
    &&& m.ready == b.subrange(0, m.rx)
    &&& forall|i: int| 0 <= i < m.segs.len() ==> consistent_with(#[trigger] m.segs[i], b)
    &&& forall|i: int|
        0 <= i < seen.len() ==> seg_end((#[trigger] seen[i].1, seen[i].2)) <= m.rx
            || m.segs.contains((seen[i].1, seen[i].2))
}

proof fn lemma_step_inv(m: RecvState, b: Seq<u8>, seen: Seq<FrameView>, f: FrameView)
    requires
        reassembly_inv(m, b, seen),
        consistent_with((f.1, f.2), b),
    ensures
        reassembly_inv(frame_step(m, f.0, f.1, f.2), b, seen.push(f)),
{
    let fs = (f.1, f.2);
    let m1 = frame_step(m, f.0, f.1, f.2);
    let ins = insert_segment(m.segs, fs);
    lemma_frame_step_wf(m, f.0, f.1, f.2);
    lemma_insert_segment(m.segs, fs);
    lemma_merge_walk(m.rx, ins);
    let w = merge_walk(m.rx, ins);
    assert forall|i: int| 0 <= i < ins.len() implies consistent_with(#[trigger] ins[i], b) by {
        assert(ins.contains(ins[i]));
        if ins[i] != fs {
            let k = choose|k: int| 0 <= k < m.segs.len() && m.segs[k] == ins[i];
            assert(consistent_with(m.segs[k], b));
        }
    }
    lemma_merge_walk_consistent(m.rx, ins, b);
    assert(m1.ready =~= b.subrange(0, m1.rx));
    assert forall|i: int| 0 <= i < m1.segs.len() implies consistent_with(#[trigger] m1.segs[i], b) by {
        assert(m1.segs[i] == ins[i + w.2]);
    }
    let seen2 = seen.push(f);
    assert forall|i: int| 0 <= i < seen2.len() implies seg_end((#[trigger] seen2[i].1, seen2[i].2))
        <= m1.rx || m1.segs.contains((seen2[i].1, seen2[i].2)) by {
        let g = (seen2[i].1, seen2[i].2);
        if i == seen.len() {
            lemma_step_keeps(m, f.0, f.1, f.2, fs);
        } else {
            assert(seen2[i] == seen[i]);
            if seg_end(g) > m.rx {
                assert(m.segs.contains(g));
                let k = choose|k: int| 0 <= k < m.segs.len() && m.segs[k] == g;
                assert(consistent_with(m.segs[k], b));
                if g.0 == fs.0 && seg_end(g) == seg_end(fs) {
                    assert(g == fs);
                }
                assert(ins.contains(g));
                lemma_step_keeps(m, f.0, f.1, f.2, g);
            }
        }
    }
}

proof fn lemma_deliver_inv(m: RecvState, b: Seq<u8>, seen: Seq<FrameView>, frames: Seq<FrameView>)
    requires
        reassembly_inv(m, b, seen),
        forall|i: int| 0 <= i < frames.len() ==> consistent_with((#[trigger] frames[i].1, frames[i].2), b),
    ensures
        reassembly_inv(deliver_all(m, frames), b, seen + frames),
    decreases frames.len(),
{
    if frames.len() == 0 {
        assert(seen + frames =~= seen);
    } else {
        let f = frames[0];
        assert(consistent_with((frames[0].1, frames[0].2), b));
        lemma_step_inv(m, b, seen, f);
        let tail = frames.drop_first();
        assert forall|i: int| 0 <= i < tail.len() implies consistent_with((#[trigger] tail[i].1, tail[i].2), b) by {
            assert(tail[i] == frames[i + 1]);
        }
        lemma_deliver_inv(frame_step(m, f.0, f.1, f.2), b, seen.push(f), tail);
        assert(seen.push(f) + tail =~= seen + frames);
    }
}

/// Some frame's range holds the byte offset `p`.
pub open spec fn covered(frames: Seq<FrameView>, p: int) -> bool {
    exists|i: int| 0 <= i < frames.len() && frames[i].1 <= p < seg_end((#[trigger] frames[i].1, frames[i].2))
}

/// Frames that each carry the bytes of `b` at their range and together cover all of it,
/// taken into a fresh stream in any order, make exactly `b` ready.
pub proof fn lemma_reassembly_yields_stream(b: Seq<u8>, frames: Seq<FrameView>)
    requires
        forall|i: int| 0 <= i < frames.len() ==> consistent_with((#[trigger] frames[i].1, frames[i].2), b),
        forall|p: int| 0 <= p < b.len() ==> #[trigger] covered(frames, p),
    ensures
        deliver_all(recv_empty(), frames).ready == b,
        deliver_all(recv_empty(), frames).rx == b.len(),
{
    let m0 = recv_empty();
    assert(m0.ready =~= b.subrange(0, 0));
    assert(Seq::<FrameView>::empty() + frames =~= frames);
    lemma_deliver_inv(m0, b, Seq::empty(), frames);
    let m = deliver_all(m0, frames);
    if m.rx < b.len() {
        assert(covered(frames, m.rx));
        let i = choose|i: int| 0 <= i < frames.len() && frames[i].1 <= m.rx < seg_end((#[trigger] frames[i].1, frames[i].2));
        let g = (frames[i].1, frames[i].2);
        assert(m.segs.contains(g));
        let k = choose|k: int| 0 <= k < m.segs.len() && m.segs[k] == g;
        assert(m.segs[k].0 > m.rx);
    }
    assert(m.ready =~= b);
}


/// Taking in the frames that tile a byte sequence, in any order, gives the same bytes as
/// taking them in order: the sequence itself.
pub proof fn lemma_order_independent(b: Seq<u8>, frames: Seq<FrameView>, reordered: Seq<FrameView>)
    requires
        forall|i: int| 0 <= i < frames.len() ==> consistent_with((#[trigger] frames[i].1, frames[i].2), b),
        forall|p: int| 0 <= p < b.len() ==> #[trigger] covered(frames, p),
        reordered.to_multiset() == frames.to_multiset(),
    ensures
        deliver_all(recv_empty(), reordered).ready == deliver_all(recv_empty(), frames).ready,
        deliver_all(recv_empty(), reordered).ready == b,
{
    reordered.to_multiset_ensures();
    frames.to_multiset_ensures();
    assert forall|i: int| 0 <= i < reordered.len() implies consistent_with(
        (#[trigger] reordered[i].1, reordered[i].2),
        b,
    ) by {
        assert(reordered.contains(reordered[i]));
        assert(reordered.to_multiset().count(reordered[i]) > 0);
        assert(frames.to_multiset().count(reordered[i]) > 0);
        assert(frames.contains(reordered[i]));
        let k = choose|k: int| 0 <= k < frames.len() && frames[k] == reordered[i];
        assert(consistent_with((frames[k].1, frames[k].2), b));
    }
    assert forall|p: int| 0 <= p < b.len() implies #[trigger] covered(reordered, p) by {
        assert(covered(frames, p));
        let i = choose|i: int| 0 <= i < frames.len() && frames[i].1 <= p < seg_end((#[trigger] frames[i].1, frames[i].2));
        assert(frames.contains(frames[i]));
        assert(frames.to_multiset().count(frames[i]) > 0);
        assert(reordered.to_multiset().count(frames[i]) > 0);
        assert(reordered.contains(frames[i]));
        let k = choose|k: int| 0 <= k < reordered.len() && reordered[k] == frames[i];
        assert(reordered[k].1 <= p < seg_end((reordered[k].1, reordered[k].2)));
    }
    lemma_reassembly_yields_stream(b, frames);
    lemma_reassembly_yields_stream(b, reordered);
}

} // verus!
