use vstd::prelude::*;

verus! {

/// A received frame or pending segment: its first byte offset and its payload.
pub type SegView = (int, Seq<u8>);

/// One past the last byte offset that a segment covers.
pub open spec fn seg_end(s: SegView) -> int {
    s.0 + s.1.len()
}

/// Segments are ordered by the key `(start, end)`, lexicographically.
pub open spec fn key_lt(a: SegView, b: SegView) -> bool {
    a.0 < b.0 || (a.0 == b.0 && seg_end(a) < seg_end(b))
}

pub open spec fn key_eq(a: SegView, b: SegView) -> bool {
    a.0 == b.0 && seg_end(a) == seg_end(b)
}

/// Strictly ascending by key: no two segments share a key.
pub open spec fn sorted(segs: Seq<SegView>) -> bool {
    forall|i: int, j: int| 0 <= i < j < segs.len() ==> key_lt(#[trigger] segs[i], #[trigger] segs[j])
}

/// Puts `s` into an ascending list at its place; a segment with an equal key is replaced.
pub open spec fn insert_segment(segs: Seq<SegView>, s: SegView) -> Seq<SegView>
    decreases segs.len(),
{
    if segs.len() == 0 {
        seq![s]
    } else if key_lt(s, segs[0]) {
        seq![s] + segs
    } else if key_eq(s, segs[0]) {
        seq![s] + segs.drop_first()
    } else {
        seq![segs[0]] + insert_segment(segs.drop_first(), s)
    }
}

/// The merge pass: walks the segments in order from `cursor`, delivering the bytes of each
/// one that reaches the cursor past the cursor, and stops at the first segment that starts
/// beyond it. Returns the new cursor, the delivered bytes and the number of segments visited.
pub open spec fn merge_walk(cursor: int, segs: Seq<SegView>) -> (int, Seq<u8>, nat)
    decreases segs.len(),
{
    if segs.len() == 0 || segs[0].0 > cursor {
        (cursor, Seq::empty(), 0)
    } else {
        let s = segs[0];
        let fresh = if cursor >= seg_end(s) {
            Seq::empty()
        } else {
            s.1.subrange(cursor - s.0, s.1.len() as int)
        };
        let next = if cursor >= seg_end(s) {
            cursor
        } else {
            seg_end(s)
        };
        let rest = merge_walk(next, segs.drop_first());
        (rest.0, fresh + rest.1, rest.2 + 1)
    }
}

/// The receive side of a stream, as values.
pub struct RecvState {
    /// Bytes delivered in order from the start of the stream.
    pub rx: int,
    /// Frames held until the cursor reaches them, ascending by key.
    pub segs: Seq<SegView>,
    /// The declared length of the stream, once a frame carried the end marker.
    pub terminal: Option<int>,
    /// Delivered bytes that the consumer has not read yet.
    pub ready: Seq<u8>,
    /// Whether bytes have become ready since the consumer last drained them all.
    pub readiness: bool,
}

/// The state of a fresh stream.
pub open spec fn recv_empty() -> RecvState {
    RecvState { rx: 0, segs: Seq::empty(), terminal: None, ready: Seq::empty(), readiness: false }
}

/// What holds between operations: segments ascending by key, every pending segment starting
/// past the cursor, and the readiness flag set exactly when ready bytes wait.
pub open spec fn recv_wf(m: RecvState) -> bool {
    &&& m.rx >= 0
    &&& sorted(m.segs)
    &&& forall|i: int| 0 <= i < m.segs.len() ==> (#[trigger] m.segs[i]).0 > m.rx
    &&& m.readiness == (m.ready.len() > 0)
}

/// The state after one inbound frame.
pub open spec fn frame_step(m: RecvState, fin: bool, offset: int, data: Seq<u8>) -> RecvState {
    let ins = insert_segment(m.segs, (offset, data));
    let w = merge_walk(m.rx, ins);
    RecvState {
        rx: w.0,
        segs: ins.subrange(w.2 as int, ins.len() as int),
        terminal: if fin { Some(offset + data.len()) } else { m.terminal },
        ready: m.ready + w.1,
        readiness: m.readiness || w.0 > m.rx,
    }
}

/// How many bytes one inbound frame makes newly available.
pub open spec fn frame_gain(m: RecvState, offset: int, data: Seq<u8>) -> int {
    merge_walk(m.rx, insert_segment(m.segs, (offset, data))).0 - m.rx
}

/// An inbound frame: end marker, offset, payload.
pub type FrameView = (bool, int, Seq<u8>);

/// The state after the frames, in the order given.
pub open spec fn deliver_all(m: RecvState, frames: Seq<FrameView>) -> RecvState
    decreases frames.len(),
{
    if frames.len() == 0 {
        m
    } else {
        let f = frames[0];
        deliver_all(frame_step(m, f.0, f.1, f.2), frames.drop_first())
    }
}


pub proof fn lemma_sorted_tail(segs: Seq<SegView>)
    requires
        sorted(segs),
        segs.len() > 0,
    ensures
        sorted(segs.drop_first()),
{
    assert forall|i: int, j: int| 0 <= i < j < segs.drop_first().len() implies key_lt(
        #[trigger] segs.drop_first()[i],
        #[trigger] segs.drop_first()[j],
    ) by {
        assert(segs.drop_first()[i] == segs[i + 1]);
        assert(segs.drop_first()[j] == segs[j + 1]);
    }
}

/// Inserting keeps the list ascending, adds `s`, and loses only a segment with the key of `s`.
pub proof fn lemma_insert_segment(segs: Seq<SegView>, s: SegView)
    requires
        sorted(segs),
    ensures
        sorted(insert_segment(segs, s)),
        insert_segment(segs, s).contains(s),
        forall|x: SegView| #[trigger]
            insert_segment(segs, s).contains(x) ==> x == s || segs.contains(x),
        forall|x: SegView| #[trigger] segs.contains(x) && !key_eq(x, s) ==> insert_segment(
            segs,
            s,
        ).contains(x),
    decreases segs.len(),
{
    let ins = insert_segment(segs, s);
    if segs.len() == 0 {
        assert(ins[0] == s);
    } else if key_lt(s, segs[0]) {
        assert(ins[0] == s);
        assert forall|x: SegView| #[trigger] ins.contains(x) implies x == s || segs.contains(x) by {
            let k = choose|k: int| 0 <= k < ins.len() && ins[k] == x;
            if k > 0 {
                assert(segs[k - 1] == x);
            }
        }
        assert forall|x: SegView| #[trigger] segs.contains(x) && !key_eq(x, s) implies ins.contains(x) by {
            let k = choose|k: int| 0 <= k < segs.len() && segs[k] == x;
            assert(ins[k + 1] == x);
        }
    } else if key_eq(s, segs[0]) {
        assert(ins[0] == s);
        lemma_sorted_tail(segs);
        assert forall|i: int, j: int| 0 <= i < j < ins.len() implies key_lt(
            #[trigger] ins[i],
            #[trigger] ins[j],
        ) by {
            if i == 0 {
                assert(key_lt(segs[0], segs[j]));
            } else {
                assert(ins[i] == segs[i]);
            }
        }
        assert forall|x: SegView| #[trigger] ins.contains(x) implies x == s || segs.contains(x) by {
            let k = choose|k: int| 0 <= k < ins.len() && ins[k] == x;
            if k > 0 {
                assert(segs[k] == x);
            }
        }
        assert forall|x: SegView| #[trigger] segs.contains(x) && !key_eq(x, s) implies ins.contains(x) by {
            let k = choose|k: int| 0 <= k < segs.len() && segs[k] == x;
            assert(k != 0);
            assert(ins[k] == x);
        }
    } else {
        let tail = segs.drop_first();
        lemma_sorted_tail(segs);
        lemma_insert_segment(tail, s);
        let ti = insert_segment(tail, s);
        assert(ins == seq![segs[0]] + ti);
        assert forall|i: int, j: int| 0 <= i < j < ins.len() implies key_lt(
            #[trigger] ins[i],
            #[trigger] ins[j],
        ) by {
            if i == 0 {
                assert(ins[j] == ti[j - 1]);
                assert(ti.contains(ti[j - 1]));
                if ti[j - 1] != s {
                    let k = choose|k: int| 0 <= k < tail.len() && tail[k] == ti[j - 1];
                    assert(segs[k + 1] == tail[k]);
                }
            } else {
                assert(ins[i] == ti[i - 1]);
                assert(ins[j] == ti[j - 1]);
            }
        }
        assert(ins.contains(s)) by {
            let k = choose|k: int| 0 <= k < ti.len() && ti[k] == s;
            assert(ins[k + 1] == s);
        };
        assert forall|x: SegView| #[trigger] ins.contains(x) implies x == s || segs.contains(x) by {
            let k = choose|k: int| 0 <= k < ins.len() && ins[k] == x;
            if k > 0 {
                assert(ti[k - 1] == x);
                assert(ti.contains(x));
                if x != s {
                    let m = choose|m: int| 0 <= m < tail.len() && tail[m] == x;
                    assert(segs[m + 1] == x);
                }
            }
        }
        assert forall|x: SegView| #[trigger] segs.contains(x) && !key_eq(x, s) implies ins.contains(x) by {
            let k = choose|k: int| 0 <= k < segs.len() && segs[k] == x;
            if k == 0 {
                assert(ins[0] == x);
            } else {
                assert(tail[k - 1] == x);
                assert(tail.contains(x));
                let m = choose|m: int| 0 <= m < ti.len() && ti[m] == x;
                assert(ins[m + 1] == x);
            }
        }
    }
}


/// The merge pass never moves the cursor back and delivers exactly the bytes it passes; on an
/// ascending list, every segment it visits ends at or before the new cursor and every other
/// one starts beyond it.
pub proof fn lemma_merge_walk(cursor: int, segs: Seq<SegView>)
    requires
        sorted(segs),
    ensures
        cursor <= merge_walk(cursor, segs).0,
        merge_walk(cursor, segs).1.len() == merge_walk(cursor, segs).0 - cursor,
        merge_walk(cursor, segs).2 <= segs.len(),
        forall|j: int|
            0 <= j < merge_walk(cursor, segs).2 ==> seg_end(#[trigger] segs[j]) <= merge_walk(
                cursor,
                segs,
            ).0,
        forall|j: int|
            merge_walk(cursor, segs).2 <= j < segs.len() ==> (#[trigger] segs[j]).0 > merge_walk(
                cursor,
                segs,
            ).0,
    decreases segs.len(),
{
    let w = merge_walk(cursor, segs);
    if segs.len() == 0 {
    } else if segs[0].0 > cursor {
        assert forall|j: int| 0 <= j < segs.len() implies (#[trigger] segs[j]).0 > w.0 by {
            if j > 0 {
                assert(key_lt(segs[0], segs[j]));
            }
        }
    } else {
        let s = segs[0];
        let next = if cursor >= seg_end(s) {
            cursor
        } else {
            seg_end(s)
        };
        let tail = segs.drop_first();
        lemma_sorted_tail(segs);
        lemma_merge_walk(next, tail);
        assert forall|j: int| 0 <= j < w.2 implies seg_end(#[trigger] segs[j]) <= w.0 by {
            if j > 0 {
                assert(segs[j] == tail[j - 1]);
            }
        }
        assert forall|j: int| w.2 <= j < segs.len() implies (#[trigger] segs[j]).0 > w.0 by {
            assert(segs[j] == tail[j - 1]);
        }
    }
}

/// Where every segment holds the bytes of `b` at its range, the merge pass delivers the bytes
/// of `b` between the old cursor and the new one.
pub proof fn lemma_merge_walk_consistent(cursor: int, segs: Seq<SegView>, b: Seq<u8>)
    requires
        0 <= cursor <= b.len(),
        forall|i: int| 0 <= i < segs.len() ==> consistent_with(#[trigger] segs[i], b),
    ensures
        cursor <= merge_walk(cursor, segs).0 <= b.len(),
        merge_walk(cursor, segs).1 == b.subrange(cursor, merge_walk(cursor, segs).0),
    decreases segs.len(),
{
    if segs.len() == 0 || segs[0].0 > cursor {
    } else {
        let s = segs[0];
        assert(consistent_with(s, b));
        let next = if cursor >= seg_end(s) {
            cursor
        } else {
            seg_end(s)
        };
        let tail = segs.drop_first();
        assert forall|i: int| 0 <= i < tail.len() implies consistent_with(#[trigger] tail[i], b) by {
            assert(tail[i] == segs[i + 1]);
        }
        lemma_merge_walk_consistent(next, tail, b);
        let rest = merge_walk(next, tail);
        let fresh = if cursor >= seg_end(s) {
            Seq::empty()
        } else {
            s.1.subrange(cursor - s.0, s.1.len() as int)
        };
        assert(fresh =~= b.subrange(cursor, next));
        assert(merge_walk(cursor, segs).1 == fresh + rest.1);
        assert(fresh + rest.1 =~= b.subrange(cursor, rest.0));
    }
}

/// A segment that holds the bytes of `b` over its range.
pub open spec fn consistent_with(s: SegView, b: Seq<u8>) -> bool {
    &&& 0 <= s.0
    &&& seg_end(s) <= b.len()
    &&& s.1 == b.subrange(s.0, seg_end(s))
}

/// A frame step keeps the state well formed and moves the cursor forward by the gain.
pub proof fn lemma_frame_step_wf(m: RecvState, fin: bool, offset: int, data: Seq<u8>)
    requires
        recv_wf(m),
    ensures
        recv_wf(frame_step(m, fin, offset, data)),
        frame_step(m, fin, offset, data).rx == m.rx + frame_gain(m, offset, data),
        frame_gain(m, offset, data) >= 0,
{
    let ins = insert_segment(m.segs, (offset, data));
    lemma_insert_segment(m.segs, (offset, data));
    lemma_merge_walk(m.rx, ins);
    let w = merge_walk(m.rx, ins);
    let n = frame_step(m, fin, offset, data);
    let rest = ins.subrange(w.2 as int, ins.len() as int);
    assert forall|i: int, j: int| 0 <= i < j < rest.len() implies key_lt(
        #[trigger] rest[i],
        #[trigger] rest[j],
    ) by {
        assert(rest[i] == ins[i + w.2]);
        assert(rest[j] == ins[j + w.2]);
    }
    assert forall|i: int| 0 <= i < rest.len() implies (#[trigger] rest[i]).0 > n.rx by {
        assert(rest[i] == ins[i + w.2]);
    }
}


/// The place of `s` in an ascending list is after every segment with a smaller key.
pub proof fn lemma_insert_segment_at(segs: Seq<SegView>, s: SegView, i: int)
    requires
        0 <= i <= segs.len(),
        forall|j: int| 0 <= j < i ==> key_lt(#[trigger] segs[j], s),
        i < segs.len() ==> !key_lt(segs[i], s),
    ensures
        i < segs.len() && key_eq(s, segs[i]) ==> insert_segment(segs, s) == segs.subrange(0, i)
            + seq![s] + segs.subrange(i + 1, segs.len() as int),
        !(i < segs.len() && key_eq(s, segs[i])) ==> insert_segment(segs, s) == segs.subrange(0, i)
            + seq![s] + segs.subrange(i, segs.len() as int),
    decreases i,
{
    if i == 0 {
        if segs.len() > 0 {
            assert(segs.drop_first() =~= segs.subrange(1, segs.len() as int));
        }
        assert(segs =~= segs.subrange(0, segs.len() as int));
        assert(segs.subrange(0, 0) + seq![s] =~= seq![s]);
    } else {
        let tail = segs.drop_first();
        assert(key_lt(segs[0], s));
        assert forall|j: int| 0 <= j < i - 1 implies key_lt(#[trigger] tail[j], s) by {
            assert(tail[j] == segs[j + 1]);
        }
        lemma_insert_segment_at(tail, s, i - 1);
        if i < segs.len() && key_eq(s, segs[i]) {
            assert(insert_segment(segs, s) =~= segs.subrange(0, i) + seq![s] + segs.subrange(
                i + 1,
                segs.len() as int,
            ));
        } else {
            assert(insert_segment(segs, s) =~= segs.subrange(0, i) + seq![s] + segs.subrange(
                i,
                segs.len() as int,
            ));
        }
    }
}


/// How many bytes a read into a buffer of `cap` bytes hands over.
pub open spec fn read_count(m: RecvState, cap: int) -> int {
    if m.ready.len() < cap {
        m.ready.len() as int
    } else {
        cap
    }
}

/// The state after a read into a buffer of `cap` bytes: the bytes handed over leave the
/// front of the ready bytes, and the readiness flag drops once none are left.
pub open spec fn read_step(m: RecvState, cap: int) -> RecvState {
    let rest = m.ready.subrange(read_count(m, cap), m.ready.len() as int);
    RecvState { ready: rest, readiness: if rest.len() == 0 { false } else { m.readiness }, ..m }
}

} // verus!
