//! Splitting a frame into an ordered list of headered fragments.
use vstd::prelude::*;

use crate::header::{
    chunk_len, header_byte, make_header, MAX_FRAGMENT_DATA_LEN, MAX_FRAME_LEN,
};

verus! {

/// The fragments that carry `rest`, numbered from `seq` on. While at least
/// `MAX_FRAGMENT_DATA_LEN` bytes remain, a continuation fragment takes the
/// next `MAX_FRAGMENT_DATA_LEN - 1` of them; the remainder goes into one
/// terminal fragment.
pub open spec fn fragments_from(rest: Seq<u8>, seq: nat) -> Seq<Seq<u8>>
    decreases rest.len(),
{
    if rest.len() >= MAX_FRAGMENT_DATA_LEN {
        seq![seq![header_byte(true, seq)] + rest.take(chunk_len() as int)]
            + fragments_from(rest.skip(chunk_len() as int), seq + 1)
    } else {
        seq![seq![header_byte(false, seq)] + rest]
    }
}

/// The fragments of a whole frame, numbered from zero.
pub open spec fn fragments_of(frame: Seq<u8>) -> Seq<Seq<u8>> {
    fragments_from(frame, 0)
}

/// The number of fragments that carry `n` bytes.
pub open spec fn fragment_count(n: nat) -> nat
    decreases n,
{
    if n >= MAX_FRAGMENT_DATA_LEN {
        1 + fragment_count((n - chunk_len()) as nat)
    } else {
        1
    }
}

/// The view of a list of byte vectors.
pub open spec fn views(v: Seq<Vec<u8>>) -> Seq<Seq<u8>> {
    v.map_values(|f: Vec<u8>| f@)
}

/// There are `fragment_count` fragments of `rest`, whatever number they
/// start from.
pub proof fn lemma_fragments_len(rest: Seq<u8>, seq: nat)
    ensures
        fragments_from(rest, seq).len() == fragment_count(rest.len()),
    decreases rest.len(),
{
    if rest.len() >= MAX_FRAGMENT_DATA_LEN {
        lemma_fragments_len(rest.skip(chunk_len() as int), seq + 1);
    }
}

/// A frame of at most `MAX_FRAME_LEN` bytes needs at most three fragments.
pub proof fn lemma_fragment_count_bound(n: nat)
    requires
        n <= MAX_FRAME_LEN,
    ensures
        1 <= fragment_count(n) <= 3,
{
    reveal_with_fuel(fragment_count, 4);
}

/// One fragment: `header` followed by `frame[start..end]`.
fn build_fragment(header: u8, frame: &[u8], start: usize, end: usize) -> (f: Vec<u8>)
    requires
        start <= end <= frame@.len(),
    ensures
        f@ == seq![header] + frame@.subrange(start as int, end as int),
{
    let mut f: Vec<u8> = Vec::new();
    f.push(header);
    let mut i: usize = start;
    while i < end
        invariant
            start <= i <= end <= frame@.len(),
            f@ == seq![header] + frame@.subrange(start as int, i as int),
        decreases end - i,
    {
        f.push(frame[i]);
        assert(frame@.subrange(start as int, i + 1) =~= frame@.subrange(start as int, i as int).push(frame@[i as int]));
        i = i + 1;
    }
    f
}

/// Splits `frame` into fragments ready for the bus, in the order in which
/// they must be sent. Continuation fragments carry
/// `MAX_FRAGMENT_DATA_LEN - 1` bytes each; the last fragment, the only one
/// without the continuation flag, carries what is left.
pub fn fragment(frame: &[u8]) -> (r: Vec<Vec<u8>>)
    requires
        1 <= frame@.len() <= MAX_FRAME_LEN,
    ensures
        views(r@) == fragments_of(frame@),
{
    let size = frame.len();
    let mut out: Vec<Vec<u8>> = Vec::new();
    let mut start: usize = 0;
    let mut seq: u8 = 0;
    proof {
        lemma_fragment_count_bound(size as nat);
        lemma_fragments_len(frame@, 0);
        assert(frame@.skip(0) =~= frame@);
        assert(views(out@) =~= Seq::<Seq<u8>>::empty());
        assert(views(out@) + fragments_of(frame@) =~= fragments_of(frame@));
    }
    while size - start >= MAX_FRAGMENT_DATA_LEN
        invariant
            size == frame@.len() <= MAX_FRAME_LEN,
            start <= size,
            seq as nat + fragment_count((size - start) as nat) <= 3,
            views(out@) + fragments_from(frame@.skip(start as int), seq as nat)
                == fragments_of(frame@),
        decreases size - start,
    {
        let end = start + (MAX_FRAGMENT_DATA_LEN - 1);
        let f = build_fragment(make_header(true, seq), frame, start, end);
        let ghost rest = frame@.skip(start as int);
        proof {
            assert(rest.take(chunk_len() as int) =~= frame@.subrange(start as int, end as int));
            assert(rest.skip(chunk_len() as int) =~= frame@.skip(end as int));
            assert(views(out@.push(f)) =~= views(out@).push(f@));
            assert(fragments_from(rest, seq as nat) == seq![f@] + fragments_from(
                frame@.skip(end as int),
                seq as nat + 1,
            ));
            assert(views(out@.push(f)) + fragments_from(frame@.skip(end as int), seq as nat + 1)
                =~= views(out@) + fragments_from(rest, seq as nat));
        }
        out.push(f);
        start = end;
        seq = seq + 1;
    }
    let f = build_fragment(make_header(false, seq), frame, start, size);
    proof {
        let rest = frame@.skip(start as int);
        assert(rest =~= frame@.subrange(start as int, size as int));
        assert(views(out@.push(f)) =~= views(out@) + seq![f@]);
    }
    out.push(f);
    out
}

} // verus!
