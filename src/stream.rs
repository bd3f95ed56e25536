use std::collections::VecDeque;
use vstd::prelude::*;

use crate::model::{
    frame_gain, frame_step, insert_segment, key_eq, key_lt, lemma_frame_step_wf,
    lemma_insert_segment, lemma_insert_segment_at, lemma_merge_walk, merge_walk, read_count,
    read_step, recv_empty, recv_wf, seg_end, RecvState, SegView,
};

verus! {

/// Why an operation on a stream was refused.
#[derive(Debug, PartialEq, Eq, Structural)]
pub enum StreamError {
    /// The frame's last byte would lie beyond the largest offset a stream can have.
    FrameBeyondRange,
}

pub type Res<T> = Result<T, StreamError>;

/// A received frame waiting for the in-order cursor to reach it.
#[derive(Debug)]
pub struct Segment {
    start: u64,
    data: Vec<u8>,
}

impl Segment {
    pub closed spec fn view_seg(&self) -> SegView {
        (self.start as int, self.data@)
    }

    /// The segment's range fits in the offsets a stream can have.
    pub closed spec fn in_range(&self) -> bool {
        self.start + self.data@.len() <= u64::MAX
    }
}

pub closed spec fn segs_view(v: Seq<Segment>) -> Seq<SegView> {
    v.map_values(|s: Segment| s.view_seg())
}

/// The key order of segments, computed.
fn key_less(a_start: u64, a_end: u64, b_start: u64, b_end: u64) -> (r: bool)
    ensures
        r == (a_start < b_start || (a_start == b_start && a_end < b_end)),
{
    a_start < b_start || (a_start == b_start && a_end < b_end)
}

/// Puts a segment into the ascending list at its place, replacing one with an equal key.
fn insert_pending(segs: &mut Vec<Segment>, seg: Segment)
    requires
        seg.in_range(),
        forall|i: int| 0 <= i < old(segs)@.len() ==> (#[trigger] old(segs)@[i]).in_range(),
    ensures
        segs_view(final(segs)@) == insert_segment(segs_view(old(segs)@), seg.view_seg()),
        forall|i: int| 0 <= i < final(segs)@.len() ==> (#[trigger] final(segs)@[i]).in_range(),
{
    let ghost sv = seg.view_seg();
    let ghost old_view = segs_view(segs@);
    let end = seg.start + seg.data.len() as u64;
    let mut i: usize = 0;
    let mut found_place = false;
    while i < segs.len() && !found_place
        invariant
            i <= segs@.len(),
            segs@ == old(segs)@,
            old_view == segs_view(segs@),
            sv == seg.view_seg(),
            end == seg.start + seg.data@.len(),
            forall|k: int| 0 <= k < segs@.len() ==> (#[trigger] segs@[k]).in_range(),
            forall|j: int| 0 <= j < i ==> key_lt(#[trigger] old_view[j], sv),
            found_place ==> i < segs@.len() && !key_lt(old_view[i as int], sv),
        decreases segs@.len() - i + (if found_place { 0int } else { 1int }),
    {
        assert(segs@[i as int].in_range());
        let s_end = segs[i].start + segs[i].data.len() as u64;
        assert(old_view[i as int] == segs@[i as int].view_seg());
        if key_less(segs[i].start, s_end, seg.start, end) {
            i = i + 1;
        } else {
            found_place = true;
        }
    }
    proof {
        lemma_insert_segment_at(old_view, sv, i as int);
    }
    let replace = i < segs.len() && segs[i].start == seg.start && segs[i].data.len() == seg.data.len();
    if replace {
        assert(key_eq(sv, old_view[i as int]));
        segs.remove(i);
        segs.insert(i, seg);
        assert(segs_view(segs@) =~= old_view.subrange(0, i as int) + seq![sv] + old_view.subrange(
            i + 1,
            old_view.len() as int,
        ));
    } else {
        assert(!(i < old_view.len() && key_eq(sv, old_view[i as int])));
        segs.insert(i, seg);
        assert(segs_view(segs@) =~= old_view.subrange(0, i as int) + seq![sv] + old_view.subrange(
            i as int,
            old_view.len() as int,
        ));
    }
}

/// The merge pass over the ascending list: moves the cursor through every segment that
/// reaches it, appending the bytes past the cursor, and stops at the first gap. Returns
/// how many segments it visited.
fn merge_pending(segs: &Vec<Segment>, cursor: &mut u64, ready: &mut VecDeque<u8>) -> (visited:
    usize)
    requires
        forall|i: int| 0 <= i < segs@.len() ==> (#[trigger] segs@[i]).in_range(),
    ensures
        *final(cursor) == merge_walk(*old(cursor) as int, segs_view(segs@)).0,
        final(ready)@ == old(ready)@ + merge_walk(*old(cursor) as int, segs_view(segs@)).1,
        visited == merge_walk(*old(cursor) as int, segs_view(segs@)).2,
{
    let ghost ins = segs_view(segs@);
    let ghost c0 = *cursor as int;
    let ghost r0 = ready@;
    let mut i: usize = 0;
    let mut gap = false;
    assert(ins.subrange(0, ins.len() as int) =~= ins);
    while i < segs.len() && !gap
        invariant
            i <= segs@.len(),
            ins == segs_view(segs@),
            forall|k: int| 0 <= k < segs@.len() ==> (#[trigger] segs@[k]).in_range(),
            merge_walk(c0, ins).0 == merge_walk(*cursor as int, ins.subrange(i as int, ins.len() as int)).0,
            merge_walk(c0, ins).2 == i + merge_walk(*cursor as int, ins.subrange(i as int, ins.len() as int)).2,
            r0 + merge_walk(c0, ins).1 == ready@ + merge_walk(*cursor as int, ins.subrange(i as int, ins.len() as int)).1,
            gap ==> i < segs@.len() && ins[i as int].0 > *cursor,
        decreases segs@.len() - i + (if gap { 0int } else { 1int }),
    {
        let seg = &segs[i];
        let ghost rest = ins.subrange(i as int, ins.len() as int);
        let ghost c = *cursor as int;
        assert(rest[0] == seg.view_seg());
        assert(rest.drop_first() =~= ins.subrange(i + 1, ins.len() as int));
        assert(seg.in_range());
        let seg_end = seg.start + seg.data.len() as u64;
        if *cursor >= seg_end {
            i = i + 1;
        } else if *cursor >= seg.start {
            let ghost before = ready@;
            let skip = (*cursor - seg.start) as usize;
            let mut j: usize = skip;
            while j < seg.data.len()
                invariant
                    skip <= j <= seg.data@.len(),
                    ready@ == before + seg.data@.subrange(skip as int, j as int),
                decreases seg.data@.len() - j,
            {
                ready.push_back(seg.data[j]);
                j = j + 1;
                assert(ready@ =~= before + seg.data@.subrange(skip as int, j as int));
            }
            *cursor = seg_end;
            i = i + 1;
            assert(merge_walk(c, rest).1 == seg.data@.subrange(c - seg.start, seg.data@.len() as int)
                + merge_walk(*cursor as int, rest.drop_first()).1);
            assert(r0 + merge_walk(c0, ins).1 =~= ready@ + merge_walk(*cursor as int, ins.subrange(i as int, ins.len() as int)).1);
        } else {
            gap = true;
        }
    }
    proof {
        let rest = ins.subrange(i as int, ins.len() as int);
        assert(merge_walk(*cursor as int, rest).1 == Seq::<u8>::empty());
        assert(r0 + merge_walk(c0, ins).1 =~= ready@);
    }
    i
}

/// One direction pair of a transport stream: the bytes queued to send, and the reassembly
/// of received frames into an in-order byte sequence.
#[derive(Debug)]
pub struct Stream {
    next_tx_offset: u64,
    tx_queue: VecDeque<u8>,
    bytes_acked: u64,
    rx_offset: u64,
    ooo_data: Vec<Segment>,
    final_offset: Option<u64>,
    ready_to_go: VecDeque<u8>,
    data_ready: bool,
}

impl Stream {
    /// The receive side, as values.
    pub closed spec fn recv(&self) -> RecvState {
        RecvState {
            rx: self.rx_offset as int,
            segs: segs_view(self.ooo_data@),
            terminal: match self.final_offset {
                Some(t) => Some(t as int),
                None => None,
            },
            ready: self.ready_to_go@,
            readiness: self.data_ready,
        }
    }

    /// How many queued bytes the caller has taken for sending.
    pub closed spec fn tx_offset(&self) -> u64 {
        self.next_tx_offset
    }

    /// Every byte ever queued for sending, in order.
    pub closed spec fn tx_bytes(&self) -> Seq<u8> {
        self.tx_queue@
    }

    pub closed spec fn wf(&self) -> bool {
        &&& recv_wf(self.recv())
        &&& forall|i: int| 0 <= i < self.ooo_data@.len() ==> (#[trigger] self.ooo_data@[i]).in_range()
    }

    /// An empty stream: nothing queued, nothing received.
    pub fn new() -> (r: Stream)
        ensures
            r.wf(),
            r.recv() == recv_empty(),
            r.tx_offset() == 0,
            r.tx_bytes() == Seq::<u8>::empty(),
    {
        let r = Stream {
            next_tx_offset: 0,
            tx_queue: VecDeque::new(),
            bytes_acked: 0,
            rx_offset: 0,
            ooo_data: Vec::new(),
            final_offset: None,
            ready_to_go: VecDeque::new(),
            data_ready: false,
        };
        assert(segs_view(r.ooo_data@) =~= Seq::<SegView>::empty());
        r
    }

    /// Queues bytes to send.
    pub fn send(&mut self, buf: &[u8])
        ensures
            final(self).tx_bytes() == old(self).tx_bytes() + buf@,
            final(self).tx_offset() == old(self).tx_offset(),
            final(self).recv() == old(self).recv(),
            final(self).wf() == old(self).wf(),
    {
        let mut i: usize = 0;
        while i < buf.len()
            invariant
                i <= buf@.len(),
                self.tx_bytes() == old(self).tx_bytes() + buf@.subrange(0, i as int),
                self.tx_offset() == old(self).tx_offset(),
                self.recv() == old(self).recv(),
                self.wf() == old(self).wf(),
                self.ooo_data == old(self).ooo_data,
            decreases buf@.len() - i,
        {
            self.tx_queue.push_back(buf[i]);
            i = i + 1;
            assert(old(self).tx_bytes() + buf@.subrange(0, i as int) =~= self.tx_queue@);
        }
        assert(buf@.subrange(0, buf@.len() as int) =~= buf@);
    }

    /// The offset of the next byte to go out.
    pub fn next_tx_offset(&self) -> (r: u64)
        ensures
            r == self.tx_offset(),
    {
        self.next_tx_offset
    }

    /// Records that the caller took `add_to_offset` more queued bytes for sending.
    pub fn add_to_tx_offset(&mut self, add_to_offset: u64)
        requires
            old(self).tx_offset() + add_to_offset <= u64::MAX,
        ensures
            final(self).tx_offset() == old(self).tx_offset() + add_to_offset,
            final(self).tx_bytes() == old(self).tx_bytes(),
            final(self).recv() == old(self).recv(),
            final(self).wf() == old(self).wf(),
    {
        self.next_tx_offset = self.next_tx_offset + add_to_offset;
    }

    /// Whether bytes have become ready since the consumer last drained them all.
    pub fn data_ready(&self) -> (r: bool)
        requires
            self.wf(),
        ensures
            r == self.recv().readiness,
            r == (self.recv().ready.len() > 0),
    {
        self.data_ready
    }

    /// Takes in one frame: `data` at `offset`, with `fin` set where the frame ends the stream.
    /// Returns how many bytes became available in order because of it.
    ///
    /// The frame is held with the pending ones, ascending by `(start, end)` and replacing
    /// one of the same range. The merge pass then walks them from the cursor: a segment that
    /// ends at or before the cursor adds nothing, one that reaches it adds its bytes past the
    /// cursor, and the first one that starts beyond it stops the pass. Segments the cursor
    /// has passed are dropped. An end marker sets the terminal offset to the frame's end; a
    /// later one overwrites it.
    ///
    /// A frame whose end lies beyond the largest offset a stream can have is refused, and
    /// the stream is left as it was.
    pub fn inbound_stream_frame(&mut self, fin: bool, offset: u64, data: Vec<u8>) -> (r: Res<u64>)
        requires
            old(self).wf(),
        ensures
            final(self).wf(),
            final(self).tx_offset() == old(self).tx_offset(),
            final(self).tx_bytes() == old(self).tx_bytes(),
            offset + data@.len() > u64::MAX ==> r == Err::<u64, StreamError>(StreamError::FrameBeyondRange)
                && *final(self) == *old(self),
            offset + data@.len() <= u64::MAX ==> r == Ok::<u64, StreamError>(
                frame_gain(old(self).recv(), offset as int, data@) as u64,
            ) && final(self).recv() == frame_step(old(self).recv(), fin, offset as int, data@),
            final(self).recv().rx >= old(self).recv().rx,
    {
        let len = data.len() as u64;
        if offset > u64::MAX - len {
            return Err(StreamError::FrameBeyondRange);
        }
        let ghost m = self.recv();
        proof {
            lemma_frame_step_wf(m, fin, offset as int, data@);
            lemma_insert_segment(m.segs, (offset as int, data@));
        }
        if fin {
            self.final_offset = Some(offset + len);
        }
        insert_pending(&mut self.ooo_data, Segment { start: offset, data });
        let orig_rx_offset = self.rx_offset;
        let visited = merge_pending(&self.ooo_data, &mut self.rx_offset, &mut self.ready_to_go);
        let ghost ins = segs_view(self.ooo_data@);
        proof {
            lemma_merge_walk(orig_rx_offset as int, ins);
        }
        let ghost pre = self.ooo_data@;
        let rest = self.ooo_data.split_off(visited);
        self.ooo_data = rest;
        assert(segs_view(self.ooo_data@) =~= ins.subrange(visited as int, ins.len() as int));
        assert forall|i: int| 0 <= i < self.ooo_data@.len() implies (
        #[trigger] self.ooo_data@[i]).in_range() by {
            assert(self.ooo_data@[i] == pre[i + visited]);
        }
        let new_bytes_available = self.rx_offset - orig_rx_offset;
        if new_bytes_available != 0 {
            self.data_ready = true;
        }
        Ok(new_bytes_available)
    }

    /// Moves ready bytes into `buf`, as many as fit, from the front, and returns how many.
    /// Once no ready bytes are left, the readiness flag drops.
    pub fn read(&mut self, buf: &mut [u8]) -> (r: Res<u64>)
        requires
            old(self).wf(),
        ensures
            final(self).wf(),
            final(self).tx_offset() == old(self).tx_offset(),
            final(self).tx_bytes() == old(self).tx_bytes(),
            r == Ok::<u64, StreamError>(read_count(old(self).recv(), old(buf)@.len() as int) as u64),
            final(self).recv() == read_step(old(self).recv(), old(buf)@.len() as int),
            final(buf)@.len() == old(buf)@.len(),
            final(buf)@.subrange(0, read_count(old(self).recv(), old(buf)@.len() as int))
                == old(self).recv().ready.subrange(0, read_count(old(self).recv(), old(buf)@.len() as int)),
            final(buf)@.subrange(read_count(old(self).recv(), old(buf)@.len() as int), old(buf)@.len() as int)
                == old(buf)@.subrange(read_count(old(self).recv(), old(buf)@.len() as int), old(buf)@.len() as int),
    {
        let ret_bytes = if self.ready_to_go.len() < buf.len() {
            self.ready_to_go.len()
        } else {
            buf.len()
        };
        let ghost ready0 = self.ready_to_go@;
        let ghost buf0 = buf@;
        let mut i: usize = 0;
        while i < ret_bytes
            invariant
                i <= ret_bytes,
                ret_bytes <= ready0.len(),
                ret_bytes <= buf0.len(),
                buf@.len() == buf0.len(),
                self.ready_to_go@ == ready0.subrange(i as int, ready0.len() as int),
                buf@.subrange(0, i as int) == ready0.subrange(0, i as int),
                buf@.subrange(ret_bytes as int, buf0.len() as int) == buf0.subrange(ret_bytes as int, buf0.len() as int),
                self.rx_offset == old(self).rx_offset,
                self.ooo_data == old(self).ooo_data,
                self.final_offset == old(self).final_offset,
                self.data_ready == old(self).data_ready,
                self.tx_queue == old(self).tx_queue,
                self.next_tx_offset == old(self).next_tx_offset,
            decreases ret_bytes - i,
        {
            let b = match self.ready_to_go.pop_front() {
                Some(b) => b,
                None => 0,
            };
            assert(b == ready0[i as int]);
            let ghost prev = buf@;
            buf[i] = b;
            assert(buf@.subrange(0, i + 1) =~= prev.subrange(0, i as int).push(b));
            assert(ready0.subrange(0, i + 1) =~= ready0.subrange(0, i as int).push(b));
            assert(buf@.subrange(ret_bytes as int, buf0.len() as int) =~= prev.subrange(ret_bytes as int, buf0.len() as int));
            i = i + 1;
            assert(self.ready_to_go@ =~= ready0.subrange(i as int, ready0.len() as int));
        }
        if self.ready_to_go.len() == 0 {
            self.data_ready = false;
        }
        Ok(ret_bytes as u64)
    }
}


impl Default for Stream {
    fn default() -> (r: Stream)
        ensures
            r.wf(),
            r.recv() == recv_empty(),
            r.tx_offset() == 0,
            r.tx_bytes() == Seq::<u8>::empty(),
    {
        Stream::new()
    }
}

} // verus!
