//! The surface through which a host drives a session: an owned handle that is released once,
//! and results of at most four slots whose count and lengths are `u32`.
use vstd::prelude::*;
use crate::injector;
use crate::injector::{
    committed, end_parts, injected_document, lemma_non_empty_members, non_empty, pending_of,
    write_parts, Origin,
};
use crate::injection_point_locator::first_close;

verus! {

/// One slot of a result: `length` bytes from offset `start` of the storage that `origin` names.
#[derive(PartialEq, Eq, Structural, Clone, Copy, Debug)]
pub struct BytesSlice {
    pub length: u32,
    pub start: usize,
    pub origin: Origin,
    /// Whether the bytes belong to the chunk handed to the call.
    pub from_incoming_chunk: bool,
}

/// The slot that fills the unused places of a result.
pub open spec fn empty_slot() -> BytesSlice {
    BytesSlice { length: 0, start: 0, origin: Origin::Buffered, from_incoming_chunk: false }
}

/// Whether the range `s` fits a slot.
pub open spec fn fits_slot(s: injector::BytesSlice) -> bool {
    s.start <= s.end && s.end - s.start <= u32::MAX
}

/// The slot that stands for the range `s`.
pub open spec fn slot_of(s: injector::BytesSlice) -> BytesSlice {
    BytesSlice {
        length: (s.end - s.start) as u32,
        start: s.start,
        origin: s.origin,
        from_incoming_chunk: s.from_incoming_chunk,
    }
}

impl BytesSlice {
    /// A slot that holds no bytes.
    pub fn empty() -> (r: Self)
        ensures
            r == empty_slot(),
    {
        BytesSlice { length: 0, start: 0, origin: Origin::Buffered, from_incoming_chunk: false }
    }

    fn from(s: injector::BytesSlice) -> (r: Self)
        requires
            s.start <= s.end,
            s.end - s.start <= u32::MAX,
        ensures
            r == slot_of(s),
    {
        BytesSlice {
            length: (s.end - s.start) as u32,
            start: s.start,
            origin: s.origin,
            from_incoming_chunk: s.from_incoming_chunk,
        }
    }
}

/// The answer to one call: `slices_length` slots in use, in output order.
pub struct InjectorResult {
    pub slices_length: u32,
    pub slices: [BytesSlice; 4],
    /// Whether the payload has been emitted, by this call or an earlier one.
    pub injected: bool,
}

/// `res` carries the slices of `r`, in order.
pub open spec fn carries(res: InjectorResult, r: injector::Result) -> bool {
    &&& res.slices_length == r.length
    &&& res.injected == r.injected
    &&& forall|k: int| 0 <= k < r.length ==> res.slices@[k] == slot_of(#[trigger] r.slices@[k])
}

/// `res` holds, in order, a slot for each non-empty range of `ps`, and empty slots after them.
pub open spec fn slots_for(res: InjectorResult, ps: Seq<injector::BytesSlice>) -> bool {
    &&& res.slices_length == non_empty(ps).len()
    &&& forall|k: int|
        0 <= k < res.slices_length ==> res.slices@[k] == slot_of(#[trigger] non_empty(ps)[k])
    &&& forall|k: int| res.slices_length <= k < 4 ==> #[trigger] res.slices@[k] == empty_slot()
}

/// A result carried into slots keeps the slots of the ranges it was made of.
proof fn lemma_slots_for(res: InjectorResult, r: injector::Result, ps: Seq<injector::BytesSlice>)
    requires
        carries(res, r),
        forall|k: int| r.length <= k < 4 ==> #[trigger] res.slices@[k] == empty_slot(),
        r.slices@.take(r.length as int) == non_empty(ps),
        r.length <= 4,
    ensures
        slots_for(res, ps),
{
    assert forall|k: int| 0 <= k < res.slices_length implies res.slices@[k] == slot_of(
        #[trigger] non_empty(ps)[k],
    ) by {
        assert(r.slices@.take(r.length as int)[k] == r.slices@[k]);
    }
}

/// Ranges from the chunk or the payload, and others that fit a slot.
pub open spec fn slot_sized(ps: Seq<injector::BytesSlice>) -> bool {
    forall|j: int|
        0 <= j < ps.len() ==> (#[trigger] ps[j]).origin == Origin::IncomingChunk || ps[j].origin
            == Origin::Snippet || fits_slot(ps[j])
}

proof fn lemma_write_parts_sized(h: Seq<u8>, c: Seq<u8>, n: nat)
    requires
        pending_of(h).len() <= u32::MAX,
    ensures
        slot_sized(write_parts(h, c, n)),
{
}

proof fn lemma_end_parts_sized(h: Seq<u8>, n: nat)
    requires
        pending_of(h).len() <= u32::MAX,
        n <= u32::MAX,
    ensures
        slot_sized(end_parts(h, n)),
{
}

impl InjectorResult {
    fn new(result: injector::Result) -> (res: Self)
        requires
            result.length <= 4,
            forall|k: int|
                0 <= k < result.length ==> (#[trigger] result.slices@[k]).start
                    <= result.slices@[k].end && result.slices@[k].end - result.slices@[k].start
                    <= u32::MAX,
        ensures
            carries(res, result),
            forall|k: int| result.length <= k < 4 ==> #[trigger] res.slices@[k] == empty_slot(),
    {
        let e = BytesSlice::empty();
        let mut slices = [e, e, e, e];
        let mut k: usize = 0;
        while k < result.length
            invariant
                k <= result.length <= 4,
                forall|j: int|
                    0 <= j < result.length ==> (#[trigger] result.slices@[j]).start
                        <= result.slices@[j].end && result.slices@[j].end
                        - result.slices@[j].start <= u32::MAX,
                forall|j: int| 0 <= j < k ==> slices@[j] == slot_of(#[trigger] result.slices@[j]),
                forall|j: int| k <= j < 4 ==> #[trigger] slices@[j] == empty_slot(),
            decreases result.length - k,
        {
            slices[k] = BytesSlice::from(result.slices[k]);
            k = k + 1;
        }
        InjectorResult {
            slices_length: result.length as u32,
            slices,
            injected: result.injected,
        }
    }
}

/// A session as a host holds it: created once, driven by writes and one end, then released.
pub struct Injector {
    inner: injector::Injector,
}

impl Injector {
    /// The session behind the handle.
    pub closed spec fn session(&self) -> injector::Injector {
        self.inner
    }

    /// The session is well formed and its payload fits a slot.
    pub open spec fn wf(&self) -> bool {
        &&& self.session().wf()
        &&& self.session().snippet().len() <= u32::MAX
    }

    /// Every slice of a result of the session fits a slot, when the ranges it keeps do.
    proof fn lemma_slices_fit(&self, r: injector::Result, ps: Seq<injector::BytesSlice>, chunk: Seq<u8>)
        requires
            self.wf(),
            self.session().result_valid(r, chunk),
            self.session().buffer(Origin::Snippet) == self.session().snippet(),
            r.slices@.take(r.length as int) == non_empty(ps),
            slot_sized(ps),
            chunk.len() <= u32::MAX,
        ensures
            forall|k: int| 0 <= k < r.length ==> fits_slot(#[trigger] r.slices@[k]),
    {
        lemma_non_empty_members(ps);
        assert forall|k: int| 0 <= k < r.length implies fits_slot(#[trigger] r.slices@[k]) by {
            assert(r.slices@.take(r.length as int)[k] == r.slices@[k]);
            assert(non_empty(ps)[k] == r.slices@[k]);
            assert(self.session().part_ok(r.slices@[k], chunk));
        }
    }

    /// The bytes of slot `s`, `chunk` being the chunk handed to the call that returned it.
    pub open spec fn slot_view(&self, s: BytesSlice, chunk: Seq<u8>) -> Seq<u8> {
        self.session().source(s.origin, chunk).subrange(s.start as int, s.start + s.length)
    }

    /// The bytes of slots `ss`, one after the other.
    pub open spec fn slots_view(&self, ss: Seq<BytesSlice>, chunk: Seq<u8>) -> Seq<u8>
        decreases ss.len(),
    {
        if ss.len() == 0 {
            Seq::empty()
        } else {
            self.slots_view(ss.drop_last(), chunk) + self.slot_view(ss.last(), chunk)
        }
    }

    /// The bytes that `res` tells the host to forward.
    pub open spec fn output(&self, res: InjectorResult, chunk: Seq<u8>) -> Seq<u8> {
        self.slots_view(res.slices@.take(res.slices_length as int), chunk)
    }

    /// Every slot in use holds bytes of its storage, and is flagged as the chunk's exactly when
    /// it lies in the chunk.
    pub open spec fn result_valid(&self, res: InjectorResult, chunk: Seq<u8>) -> bool {
        &&& res.slices_length <= 4
        &&& forall|k: int|
            0 <= k < res.slices_length ==> {
                &&& 0 < (#[trigger] res.slices@[k]).length
                &&& res.slices@[k].start + res.slices@[k].length <= self.session().source(
                    res.slices@[k].origin,
                    chunk,
                ).len()
                &&& res.slices@[k].from_incoming_chunk == (res.slices@[k].origin
                    == Origin::IncomingChunk)
            }
    }

    proof fn lemma_carried_output(&self, res: InjectorResult, r: injector::Result, chunk: Seq<u8>)
        requires
            carries(res, r),
            self.session().result_valid(r, chunk),
            forall|k: int| 0 <= k < r.length ==> fits_slot(#[trigger] r.slices@[k]),
        ensures
            self.output(res, chunk) == self.session().output(r, chunk),
            self.result_valid(res, chunk),
    {
        self.lemma_carried_prefix(res, r, chunk, r.length as int);
        assert forall|k: int| 0 <= k < res.slices_length implies {
            &&& 0 < (#[trigger] res.slices@[k]).length
            &&& res.slices@[k].start + res.slices@[k].length <= self.session().source(
                res.slices@[k].origin,
                chunk,
            ).len()
            &&& res.slices@[k].from_incoming_chunk == (res.slices@[k].origin
                == Origin::IncomingChunk)
        } by {
            assert(self.session().part_ok(r.slices@[k], chunk));
        }
    }

    /// A result of at most one slice, taken from the chunk, stays so in slots.
    proof fn lemma_carried_pass_through(&self, res: InjectorResult, r: injector::Result, chunk: Seq<u8>)
        requires
            carries(res, r),
            self.session().result_valid(r, chunk),
            forall|k: int| 0 <= k < r.length ==> fits_slot(#[trigger] r.slices@[k]),
            r.length <= 1,
            self.session().output(r, chunk) == chunk,
            forall|k: int| 0 <= k < r.length ==> (#[trigger] r.slices@[k]).from_incoming_chunk,
        ensures
            res.slices_length <= 1,
            self.output(res, chunk) == chunk,
            forall|k: int| 0 <= k < res.slices_length ==> (#[trigger] res.slices@[k]).from_incoming_chunk,
    {
        self.lemma_carried_output(res, r, chunk);
        assert forall|k: int| 0 <= k < res.slices_length implies (#[trigger] res.slices@[k]).from_incoming_chunk by {
            assert(res.slices@[k] == slot_of(r.slices@[k]));
        }
    }

    proof fn lemma_carried_prefix(
        &self,
        res: InjectorResult,
        r: injector::Result,
        chunk: Seq<u8>,
        k: int,
    )
        requires
            carries(res, r),
            self.session().result_valid(r, chunk),
            forall|j: int| 0 <= j < r.length ==> fits_slot(#[trigger] r.slices@[j]),
            0 <= k <= r.length,
        ensures
            self.slots_view(res.slices@.take(k), chunk) == self.session().views(
                r.slices@.take(k),
                chunk,
            ),
        decreases k,
    {
        if k > 0 {
            self.lemma_carried_prefix(res, r, chunk, k - 1);
            assert(res.slices@.take(k).drop_last() == res.slices@.take(k - 1));
            assert(r.slices@.take(k).drop_last() == r.slices@.take(k - 1));
            assert(res.slices@.take(k).last() == slot_of(r.slices@[k - 1]));
            assert(self.session().part_ok(r.slices@[k - 1], chunk));
            assert(self.slot_view(slot_of(r.slices@[k - 1]), chunk) == self.session().slice_view(
                r.slices@[k - 1],
                chunk,
            ));
        } else {
            assert(res.slices@.take(0) == Seq::<BytesSlice>::empty());
            assert(r.slices@.take(0) == Seq::<injector::BytesSlice>::empty());
        }
    }

    /// The bytes of a slot of this handle's last result; `chunk` is the chunk handed to the
    /// call that returned it.
    pub fn bytes<'a>(&'a self, slice: &BytesSlice, chunk: &'a [u8]) -> (r: &'a [u8])
        requires
            self.wf(),
            slice.start + slice.length <= usize::MAX,
            slice.start + slice.length <= self.session().source(slice.origin, chunk@).len(),
            slice.from_incoming_chunk == (slice.origin == Origin::IncomingChunk),
        ensures
            r@ == self.slot_view(*slice, chunk@),
    {
        let range = injector::BytesSlice {
            origin: slice.origin,
            start: slice.start,
            end: slice.start + slice.length as usize,
            from_incoming_chunk: slice.from_incoming_chunk,
        };
        self.inner.bytes(&range, chunk)
    }
}

/// Creates a session for the payload `snippet`, which it copies.
pub fn injector_create(snippet: &[u8]) -> (r: Injector)
    requires
        snippet@.len() <= u32::MAX,
    ensures
        r.wf(),
        r.session().input() == Seq::<u8>::empty(),
        r.session().snippet() == snippet@,
        !r.session().is_injected(),
        !r.session().is_ended(),
{
    Injector { inner: injector::Injector::new(snippet) }
}

/// Releases a session and all the storage its results pointed to.
pub fn injector_cleanup(injector: Injector) {
    let Injector { inner: _ } = injector;
}

/// Writes the next chunk of the document. A slot's length is a `u32`, so the chunk and the bytes
/// held back so far must fit one.
pub fn injector_write(injector: &mut Injector, chunk: &[u8]) -> (res: InjectorResult)
    requires
        old(injector).wf(),
        !old(injector).session().is_ended(),
        chunk@.len() <= u32::MAX,
        pending_of(old(injector).session().input()).len() <= u32::MAX,
    ensures
        slots_for(
            res,
            write_parts(old(injector).session().input(), chunk@, old(injector).session().snippet().len()),
        ),
        final(injector).wf(),
        !final(injector).session().is_ended(),
        final(injector).session().input() == old(injector).session().input() + chunk@,
        final(injector).session().snippet() == old(injector).session().snippet(),
        final(injector).result_valid(res, chunk@),
        committed(old(injector).session().input(), old(injector).session().snippet())
            + final(injector).output(res, chunk@) == committed(
            final(injector).session().input(),
            old(injector).session().snippet(),
        ),
        res.injected == final(injector).session().is_injected(),
        final(injector).session().is_injected() == (first_close(0, final(injector).session().input()) is Some),
        old(injector).session().is_injected() ==> {
            &&& final(injector).session().is_injected()
            &&& res.slices_length <= 1
            &&& final(injector).output(res, chunk@) == chunk@
            &&& forall|k: int| 0 <= k < res.slices_length ==> (#[trigger] res.slices@[k]).from_incoming_chunk
        },
{
    let ghost h = injector.session().input();
    let ghost n = injector.session().snippet().len();
    let ghost was_injected = injector.session().is_injected();
    let result = injector.inner.write(chunk);
    proof {
        lemma_write_parts_sized(h, chunk@, n);
        injector.lemma_slices_fit(result, write_parts(h, chunk@, n), chunk@);
    }
    let res = InjectorResult::new(result);
    proof {
        injector.lemma_carried_output(res, result, chunk@);
        lemma_slots_for(res, result, write_parts(h, chunk@, n));
        if was_injected {
            injector.lemma_carried_pass_through(res, result, chunk@);
        }
    }
    res
}

/// Ends the document: releases the held-back bytes and, when no tag was found, as many spaces as
/// the payload has bytes.
pub fn injector_end(injector: &mut Injector) -> (res: InjectorResult)
    requires
        old(injector).wf(),
        !old(injector).session().is_ended(),
        pending_of(old(injector).session().input()).len() <= u32::MAX,
    ensures
        slots_for(
            res,
            end_parts(old(injector).session().input(), old(injector).session().snippet().len()),
        ),
        final(injector).wf(),
        final(injector).session().is_ended(),
        final(injector).session().input() == old(injector).session().input(),
        final(injector).result_valid(res, Seq::<u8>::empty()),
        committed(old(injector).session().input(), old(injector).session().snippet())
            + final(injector).output(res, Seq::<u8>::empty()) == injected_document(
            old(injector).session().input(),
            old(injector).session().snippet(),
        ),
        res.injected == old(injector).session().is_injected(),
        forall|k: int| 0 <= k < res.slices_length ==> !(#[trigger] res.slices@[k]).from_incoming_chunk,
{
    let ghost h = injector.session().input();
    let ghost n = injector.session().snippet().len();
    let result = injector.inner.end();
    proof {
        lemma_end_parts_sized(h, n);
        injector.lemma_slices_fit(result, end_parts(h, n), Seq::<u8>::empty());
    }
    let res = InjectorResult::new(result);
    proof {
        injector.lemma_carried_output(res, result, Seq::<u8>::empty());
        lemma_slots_for(res, result, end_parts(h, n));
    }
    res
}

} // verus!
