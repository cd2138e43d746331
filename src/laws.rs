//! Properties that relate the fragmenter and the reassembler.
use vstd::prelude::*;

use crate::fragmenter::{fragment_count, fragments_from, fragments_of, lemma_fragment_count_bound, lemma_fragments_len};
use crate::header::{chunk_len, has_more, header_byte, sequence_of, MAX_FRAGMENT_DATA_LEN, MAX_FRAME_LEN};
use crate::reassembler::{accept_step, ContextView};

verus! {

/// Feeds `fragments` to a reassembler in context `c`, in order: the context
/// afterwards, and what each fragment returned.
pub open spec fn run(c: ContextView, fragments: Seq<Seq<u8>>) -> (ContextView, Seq<Option<Seq<u8>>>)
    decreases fragments.len(),
{
    if fragments.len() == 0 {
        (c, Seq::empty())
    } else {
        let (next, out) = accept_step(c, fragments[0]);
        let (last, outs) = run(next, fragments.drop_first());
        (last, seq![out] + outs)
    }
}

/// Every output but the last is `None`, and the last is `Some(frame)`.
pub open spec fn yields_at_end(outs: Seq<Option<Seq<u8>>>, frame: Seq<u8>) -> bool {
    &&& outs.len() >= 1
    &&& outs.last() == Some(frame)
    &&& forall|i: int| 0 <= i < outs.len() - 1 ==> #[trigger] outs[i] is None
}

proof fn lemma_header_byte(more: bool, seq: nat)
    requires
        seq < 128,
    ensures
        sequence_of(header_byte(more, seq)) == seq,
        has_more(header_byte(more, seq)) == more,
{
}

/// A reassembler that has accepted fragments up to number `k - 1` and
/// collected `acc` completes `acc + rest` on the fragments of `rest`
/// numbered from `k`, and returns to idle.
proof fn lemma_run_tail(acc: Seq<u8>, rest: Seq<u8>, k: nat)
    requires
        1 <= k,
        k + fragment_count(rest.len()) <= 128,
    ensures
        ({
            let c = ContextView { in_progress: true, last_sequence: (k - 1) as u8, accumulated: acc };
            let (last, outs) = run(c, fragments_from(rest, k));
            &&& last == ContextView::idle()
            &&& outs.len() == fragment_count(rest.len())
            &&& yields_at_end(outs, acc + rest)
        }),
    decreases rest.len(),
{
    let c = ContextView { in_progress: true, last_sequence: (k - 1) as u8, accumulated: acc };
    let fs = fragments_from(rest, k);
    if rest.len() >= MAX_FRAGMENT_DATA_LEN {
        let head = rest.take(chunk_len() as int);
        let tail = rest.skip(chunk_len() as int);
        lemma_header_byte(true, k);
        assert(fs[0].drop_first() =~= head);
        assert(fs.drop_first() =~= fragments_from(tail, k + 1));
        let c1 = ContextView { in_progress: true, last_sequence: k as u8, accumulated: acc + head };
        assert(accept_step(c, fs[0]) == (c1, None::<Seq<u8>>));
        lemma_run_tail(acc + head, tail, k + 1);
        assert(acc + head + tail =~= acc + rest);
        let (last, outs) = run(c, fs);
        let (_, outs2) = run(
            ContextView { in_progress: true, last_sequence: k as u8, accumulated: acc + head },
            fragments_from(tail, k + 1),
        );
        assert(outs == seq![None::<Seq<u8>>] + outs2);
        assert forall|i: int| 0 <= i < outs.len() - 1 implies #[trigger] outs[i] is None by {
            if i > 0 {
                assert(outs[i] == outs2[i - 1]);
            }
        }
    } else {
        lemma_header_byte(false, k);
        assert(fs[0].drop_first() =~= rest);
        assert(fs.drop_first() =~= Seq::<Seq<u8>>::empty());
        assert(accept_step(c, fs[0]) == (ContextView::idle(), Some(acc + rest)));
        assert(run(ContextView::idle(), fs.drop_first()) == (ContextView::idle(), Seq::<Option<Seq<u8>>>::empty()));
        let (last, outs) = run(c, fs);
        assert(outs =~= seq![Some(acc + rest)]);
    }
}

/// Feeding the fragments of a frame, in order, to an idle reassembler
/// returns nothing until the last fragment, which returns the frame itself;
/// the reassembler is idle again afterwards.
pub proof fn lemma_round_trip(frame: Seq<u8>)
    requires
        1 <= frame.len() <= MAX_FRAME_LEN,
    ensures
        ({
            let (last, outs) = run(ContextView::idle(), fragments_of(frame));
            &&& last == ContextView::idle()
            &&& outs.len() == fragments_of(frame).len()
            &&& yields_at_end(outs, frame)
        }),
{
    let fs = fragments_of(frame);
    lemma_fragment_count_bound(frame.len());
    lemma_fragments_len(frame, 0);
    if frame.len() >= MAX_FRAGMENT_DATA_LEN {
        let head = frame.take(chunk_len() as int);
        let tail = frame.skip(chunk_len() as int);
        lemma_header_byte(true, 0);
        assert(fs[0].drop_first() =~= head);
        assert(fs.drop_first() =~= fragments_from(tail, 1));
        let c1 = ContextView { in_progress: true, last_sequence: 0, accumulated: head };
        assert(accept_step(ContextView::idle(), fs[0]) == (c1, None::<Seq<u8>>));
        lemma_run_tail(head, tail, 1);
        assert(head + tail =~= frame);
        let (last, outs) = run(ContextView::idle(), fs);
        let (_, outs2) = run(
            ContextView { in_progress: true, last_sequence: 0, accumulated: head },
            fragments_from(tail, 1),
        );
        assert(outs == seq![None::<Seq<u8>>] + outs2);
        assert forall|i: int| 0 <= i < outs.len() - 1 implies #[trigger] outs[i] is None by {
            if i > 0 {
                assert(outs[i] == outs2[i - 1]);
            }
        }
    } else {
        lemma_header_byte(false, 0);
        assert(fs[0].drop_first() =~= frame);
        assert(fs.drop_first() =~= Seq::<Seq<u8>>::empty());
        assert(accept_step(ContextView::idle(), fs[0]) == (ContextView::idle(), Some(frame)));
        assert(run(ContextView::idle(), fs.drop_first()) == (ContextView::idle(), Seq::<Option<Seq<u8>>>::empty()));
        let (last, outs) = run(ContextView::idle(), fs);
        assert(outs =~= seq![Some(frame)]);
    }
}

/// A frame shorter than `MAX_FRAGMENT_DATA_LEN` travels as one fragment,
/// numbered zero and without the continuation flag; an idle reassembler
/// returns its data at once and stays as it was.
pub proof fn lemma_single_fragment(frame: Seq<u8>)
    requires
        1 <= frame.len() < MAX_FRAGMENT_DATA_LEN,
    ensures
        fragments_of(frame) == seq![seq![header_byte(false, 0)] + frame],
        sequence_of(fragments_of(frame)[0][0]) == 0,
        !has_more(fragments_of(frame)[0][0]),
        accept_step(ContextView::idle(), fragments_of(frame)[0]) == (
            ContextView::idle(),
            Some(frame),
        ),
{
    let f = fragments_of(frame)[0];
    lemma_header_byte(false, 0);
    assert(f.drop_first() =~= frame);
}

/// In a frame in progress, a fragment out of sequence returns nothing and
/// leaves the reassembler idle: a fragment numbered zero that follows is
/// taken exactly as by a fresh reassembler, as the start of a new frame.
pub proof fn lemma_sequence_violation(c: ContextView, bad: Seq<u8>, start: Seq<u8>)
    requires
        c.wf(),
        c.in_progress,
        bad.len() >= 1,
        sequence_of(bad[0]) != c.last_sequence + 1,
        start.len() >= 1,
        sequence_of(start[0]) == 0,
    ensures
        accept_step(c, bad) == (ContextView::idle(), None::<Seq<u8>>),
        accept_step(accept_step(c, bad).0, start) == accept_step(ContextView::idle(), start),
        has_more(start[0]) ==> accept_step(accept_step(c, bad).0, start) == (
            ContextView { in_progress: true, last_sequence: 0, accumulated: start.drop_first() },
            None::<Seq<u8>>,
        ),
{
}

/// After a fragment that completes a frame or breaks the order of one, the
/// reassembler is idle, exactly as when new, and takes every next fragment
/// as a fresh one would.
pub proof fn lemma_reset_after_end(c: ContextView, f: Seq<u8>, next: Seq<u8>)
    requires
        c.wf(),
        f.len() >= 1,
        accept_step(c, f).1 is Some || (c.in_progress && !accept_step(c, f).0.in_progress),
    ensures
        accept_step(c, f).0 == ContextView::idle(),
        accept_step(accept_step(c, f).0, next) == accept_step(ContextView::idle(), next),
{
}

/// One fragment keeps a well-formed context well formed.
pub proof fn lemma_accept_keeps_wf(c: ContextView, f: Seq<u8>)
    requires
        c.wf(),
        f.len() >= 1,
    ensures
        accept_step(c, f).0.wf(),
{
}

/// The data of `fragments`, headers dropped, joined in order.
pub open spec fn joined_data(fragments: Seq<Seq<u8>>) -> Seq<u8>
    decreases fragments.len(),
{
    if fragments.len() == 0 {
        Seq::empty()
    } else {
        fragments[0].drop_first() + joined_data(fragments.drop_first())
    }
}

/// Fragment `i` of a list numbered from `seq` carries number `seq + i`,
/// and only the last one lacks the continuation flag.
pub open spec fn well_numbered(fragments: Seq<Seq<u8>>, seq: nat) -> bool {
    forall|i: int|
        0 <= i < fragments.len() ==> {
            &&& (#[trigger] fragments[i]).len() >= 1
            &&& sequence_of(fragments[i][0]) == seq + i
            &&& has_more(fragments[i][0]) == (i < fragments.len() - 1)
        }
}

proof fn lemma_fragments_shape(rest: Seq<u8>, seq: nat)
    requires
        seq + fragment_count(rest.len()) <= 128,
    ensures
        joined_data(fragments_from(rest, seq)) == rest,
        well_numbered(fragments_from(rest, seq), seq),
    decreases rest.len(),
{
    let fs = fragments_from(rest, seq);
    lemma_fragments_len(rest, seq);
    if rest.len() >= MAX_FRAGMENT_DATA_LEN {
        let head = rest.take(chunk_len() as int);
        let tail = rest.skip(chunk_len() as int);
        lemma_header_byte(true, seq);
        lemma_fragments_shape(tail, seq + 1);
        lemma_fragments_len(tail, seq + 1);
        assert(fs[0].drop_first() =~= head);
        assert(fs.drop_first() =~= fragments_from(tail, seq + 1));
        assert(head + tail =~= rest);
        assert forall|i: int| 0 <= i < fs.len() implies {
            &&& (#[trigger] fs[i]).len() >= 1
            &&& sequence_of(fs[i][0]) == seq + i
            &&& has_more(fs[i][0]) == (i < fs.len() - 1)
        } by {
            if i > 0 {
                assert(fs[i] == fragments_from(tail, seq + 1)[i - 1]);
            }
        }
    } else {
        lemma_header_byte(false, seq);
        assert(fs[0].drop_first() =~= rest);
        assert(fs.drop_first() =~= Seq::<Seq<u8>>::empty());
        assert(joined_data(fs.drop_first()) == Seq::<u8>::empty());
        assert(rest + Seq::<u8>::empty() =~= rest);
    }
}

/// The fragments of a frame, data joined in order, give the frame back;
/// fragment `i` carries sequence number `i`; exactly one fragment lacks the
/// continuation flag, and it is the last.
pub proof fn lemma_fragments_rebuild_frame(frame: Seq<u8>)
    requires
        1 <= frame.len() <= MAX_FRAME_LEN,
    ensures
        joined_data(fragments_of(frame)) == frame,
        well_numbered(fragments_of(frame), 0),
        fragments_of(frame).len() >= 1,
{
    lemma_fragment_count_bound(frame.len());
    lemma_fragments_len(frame, 0);
    lemma_fragments_shape(frame, 0);
}

} // verus!
