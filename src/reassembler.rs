//! Reassembly of frames from fragments received in delivery order.
use vstd::prelude::*;

use crate::header::{has_more, parse_header, sequence_of};

verus! {

/// What a reassembly context holds, as values.
pub struct ContextView {
    /// True once a continuation fragment has started a frame that no
    /// terminal fragment has completed yet.
    pub in_progress: bool,
    /// Sequence number of the last accepted fragment of the frame in
    /// progress; zero while idle.
    pub last_sequence: u8,
    /// The bytes of the frame in progress collected so far.
    pub accumulated: Seq<u8>,
}

impl ContextView {
    /// The context of a reassembler with no frame in progress.
    pub open spec fn idle() -> ContextView {
        ContextView { in_progress: false, last_sequence: 0, accumulated: Seq::empty() }
    }

    /// An idle context holds nothing; sequence numbers have seven bits.
    pub open spec fn wf(self) -> bool {
        &&& !self.in_progress ==> self == ContextView::idle()
        &&& self.last_sequence < 128
    }
}

/// The effect of one fragment on a context: the next context, and the
/// completed frame if this fragment finished one.
pub open spec fn accept_step(c: ContextView, fragment: Seq<u8>) -> (ContextView, Option<Seq<u8>>)
    recommends
        fragment.len() >= 1,
{
    let seq = sequence_of(fragment[0]);
    let more = has_more(fragment[0]);
    let data = fragment.drop_first();
    if !c.in_progress {
        if seq == 0 && more {
            (ContextView { in_progress: true, last_sequence: 0, accumulated: data }, None)
        } else if seq == 0 {
            (c, Some(data))
        } else {
            (c, None)
        }
    } else if seq == c.last_sequence + 1 {
        if more {
            (
                ContextView {
                    in_progress: true,
                    last_sequence: seq as u8,
                    accumulated: c.accumulated + data,
                },
                None,
            )
        } else {
            (ContextView::idle(), Some(c.accumulated + data))
        }
    } else {
        (ContextView::idle(), None)
    }
}

/// The view of an optional byte vector.
pub open spec fn opt_view(r: Option<Vec<u8>>) -> Option<Seq<u8>> {
    match r {
        Some(v) => Some(v@),
        None => None,
    }
}

/// The single reassembly context: at most one frame in progress.
pub struct Packet {
    last_seq: u8,
    buffer: Vec<u8>,
    more: bool,
}

impl View for Packet {
    type V = ContextView;

    closed spec fn view(&self) -> ContextView {
        ContextView { in_progress: self.more, last_sequence: self.last_seq, accumulated: self.buffer@ }
    }
}

impl Packet {
    /// An idle context.
    pub fn new() -> (p: Packet)
        ensures
            p@ == ContextView::idle(),
            p@.wf(),
    {
        Packet { last_seq: 0, buffer: Vec::new(), more: false }
    }

    /// Drops whatever frame is in progress and returns to idle.
    pub fn reset(&mut self)
        ensures
            final(self)@ == ContextView::idle(),
            final(self)@.wf(),
    {
        self.last_seq = 0;
        self.more = false;
        self.buffer = Vec::new();
        assert(self.buffer@ =~= Seq::<u8>::empty());
    }

    /// Whether no frame is in progress.
    pub fn is_idle(&self) -> (r: bool)
        ensures
            r == !self@.in_progress,
    {
        !self.more
    }
}

/// Feeds one fragment received from the bus to the reassembler. Returns the
/// completed frame when `payload` finishes one, and `None` while a frame is
/// still incomplete, after a stray fragment, and after a fragment whose
/// sequence number breaks the order, which also drops the frame in progress.
pub fn assemble_algo(packet: &mut Packet, payload: Vec<u8>) -> (r: Option<Vec<u8>>)
    requires
        old(packet)@.wf(),
        payload@.len() >= 1,
    ensures
        (final(packet)@, opt_view(r)) == accept_step(old(packet)@, payload@),
        final(packet)@.wf(),
{
    let mut payload = payload;
    let ghost fragment = payload@;
    let header = payload.remove(0);
    assert(payload@ =~= fragment.drop_first());
    let (seq, more) = parse_header(header);
    if !packet.more {
        if seq == 0 && more {
            packet.buffer = payload;
            packet.last_seq = 0;
            packet.more = true;
            None
        } else if seq == 0 {
            Some(payload)
        } else {
            None
        }
    } else if seq == packet.last_seq + 1 {
        packet.buffer.append(&mut payload);
        if more {
            packet.last_seq = seq;
            None
        } else {
            let mut frame: Vec<u8> = Vec::new();
            frame.append(&mut packet.buffer);
            assert(frame@ =~= old(packet)@.accumulated + fragment.drop_first());
            packet.reset();
            Some(frame)
        }
    } else {
        packet.reset();
        None
    }
}

} // verus!
