//! What a whole session outputs, over every way of cutting the document into chunks.
use vstd::prelude::*;
use crate::injection_point_locator::{first_close, index_from};
use crate::injector::{committed, injected_document, pending_of};

verus! {

/// The byte sequences `parts`, one after the other.
pub open spec fn flatten(parts: Seq<Seq<u8>>) -> Seq<u8>
    decreases parts.len(),
{
    if parts.len() == 0 {
        Seq::empty()
    } else {
        flatten(parts.drop_last()) + parts.last()
    }
}

/// `outs` and `tail` are what a session answers when `chunks` are written in order and the
/// session is then ended: each write releases what its chunk makes due (as `Injector::write`
/// ensures) and the end releases the rest (as `Injector::end` ensures).
pub open spec fn is_session_output(
    chunks: Seq<Seq<u8>>,
    outs: Seq<Seq<u8>>,
    tail: Seq<u8>,
    snippet: Seq<u8>,
) -> bool {
    &&& outs.len() == chunks.len()
    &&& forall|i: int|
        0 <= i < chunks.len() ==> committed(flatten(chunks.take(i)), snippet) + #[trigger] outs[i]
            == committed(flatten(chunks.take(i + 1)), snippet)
    &&& committed(flatten(chunks), snippet) + tail == injected_document(flatten(chunks), snippet)
}

/// Nothing is due before the first byte.
pub proof fn lemma_committed_empty(snippet: Seq<u8>)
    ensures
        committed(Seq::<u8>::empty(), snippet) == Seq::<u8>::empty(),
{
    assert(first_close(0, Seq::<u8>::empty()) is None);
    assert(index_from(0, Seq::<u8>::empty()) == 0);
    assert(pending_of(Seq::<u8>::empty()) == Seq::<u8>::empty());
}

/// After `i` writes, the session has output exactly what the first `i` chunks make due.
proof fn lemma_outputs_so_far(
    chunks: Seq<Seq<u8>>,
    outs: Seq<Seq<u8>>,
    tail: Seq<u8>,
    snippet: Seq<u8>,
    i: int,
)
    requires
        is_session_output(chunks, outs, tail, snippet),
        0 <= i <= chunks.len(),
    ensures
        flatten(outs.take(i)) == committed(flatten(chunks.take(i)), snippet),
    decreases i,
{
    if i == 0 {
        lemma_committed_empty(snippet);
        assert(outs.take(0) == Seq::<Seq<u8>>::empty());
        assert(chunks.take(0) == Seq::<Seq<u8>>::empty());
    } else {
        lemma_outputs_so_far(chunks, outs, tail, snippet, i - 1);
        assert(outs.take(i).drop_last() == outs.take(i - 1));
        assert(outs.take(i).last() == outs[i - 1]);
    }
}

/// Concatenating every slice that a session returns, call after call, gives the document with
/// the payload in front of its first `</head>` tag, or, when it has none, the document followed
/// by as many spaces as the payload has bytes.
pub proof fn lemma_concatenation_identity(
    chunks: Seq<Seq<u8>>,
    outs: Seq<Seq<u8>>,
    tail: Seq<u8>,
    snippet: Seq<u8>,
)
    requires
        is_session_output(chunks, outs, tail, snippet),
    ensures
        flatten(outs) + tail == injected_document(flatten(chunks), snippet),
{
    lemma_outputs_so_far(chunks, outs, tail, snippet, chunks.len() as int);
    assert(outs.take(chunks.len() as int) == outs);
    assert(chunks.take(chunks.len() as int) == chunks);
}

/// However a document is cut into chunks, empty ones included, a session outputs the same bytes.
pub proof fn lemma_chunking_invariance(
    chunks_a: Seq<Seq<u8>>,
    outs_a: Seq<Seq<u8>>,
    tail_a: Seq<u8>,
    chunks_b: Seq<Seq<u8>>,
    outs_b: Seq<Seq<u8>>,
    tail_b: Seq<u8>,
    snippet: Seq<u8>,
)
    requires
        is_session_output(chunks_a, outs_a, tail_a, snippet),
        is_session_output(chunks_b, outs_b, tail_b, snippet),
        flatten(chunks_a) == flatten(chunks_b),
    ensures
        flatten(outs_a) + tail_a == flatten(outs_b) + tail_b,
{
    lemma_concatenation_identity(chunks_a, outs_a, tail_a, snippet);
    lemma_concatenation_identity(chunks_b, outs_b, tail_b, snippet);
}

} // verus!
