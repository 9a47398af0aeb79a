//! A session that injects a payload in front of the first `</head>` tag of a streamed
//! document, answering each chunk with an ordered list of byte ranges to forward.
use vstd::prelude::*;
use crate::injection_point_locator::{
    first_close, index_from, last_open, lemma_first_close_bounds, lemma_first_close_concat,
    lemma_idle_without_open, lemma_index_from_concat, lemma_last_open_bounds,
    lemma_last_open_concat, location_of, index_after_scan, InjectionPointLocator, Location,
    is_tag, lemma_close_is_tag, lemma_first_close_kept, lemma_tag_closes,
};

verus! {

/// Offset of the first `</head>` tag of document `s`: the last `<` before the byte at which a
/// scan from the start of `s` completes a tag. `lemma_tag_start_is_first_tag` shows that this is
/// the start of the tag of `s` that ends first.
pub open spec fn tag_start(s: Seq<u8>) -> Option<int> {
    match first_close(0, s) {
        Some(k) => last_open(s.take(k)),
        None => None,
    }
}

/// The payload goes in front of the tag of `s` that ends first: `tag_start(s)` is the start of a
/// tag that ends before every other tag of `s`, and it is `None` exactly when `s` holds no tag.
pub proof fn lemma_tag_start_is_first_tag(s: Seq<u8>)
    ensures
        tag_start(s) matches Some(i) ==> exists|j: int|
            i < j <= s.len() && #[trigger] is_tag(s.subrange(i, j)) && forall|i2: int, j2: int|
                0 <= i2 < j2 < j ==> !is_tag(#[trigger] s.subrange(i2, j2)),
        tag_start(s) is None ==> forall|i2: int, j2: int|
            0 <= i2 < j2 <= s.len() ==> !is_tag(#[trigger] s.subrange(i2, j2)),
{
    if first_close(0, s) is Some {
        lemma_close_is_tag(s);
        lemma_first_close_bounds(0, s);
        let k = first_close(0, s)->Some_0;
        lemma_last_open_bounds(s.take(k));
        let i = tag_start(s)->Some_0;
        assert forall|i2: int, j2: int| 0 <= i2 < j2 < k + 1 implies !is_tag(
            #[trigger] s.subrange(i2, j2),
        ) by {
            if is_tag(s.subrange(i2, j2)) {
                lemma_tag_closes(s, i2, j2);
                assert(s.take(k).take(j2) == s.take(j2));
                lemma_first_close_kept(0, s.take(j2), s.take(k));
            }
        }
        assert(i < k + 1 <= s.len() && is_tag(s.subrange(i, k + 1)));
    } else {
        assert forall|i2: int, j2: int| 0 <= i2 < j2 <= s.len() implies !is_tag(
            #[trigger] s.subrange(i2, j2),
        ) by {
            if is_tag(s.subrange(i2, j2)) {
                lemma_tag_closes(s, i2, j2);
                lemma_first_close_kept(0, s.take(j2), s);
            }
        }
    }
}

/// `n` ASCII spaces.
pub open spec fn spaces(n: nat) -> Seq<u8> {
    Seq::new(n, |_i: int| 32u8)
}

/// The complete output for document `s`: the payload in front of its first tag, or, without a
/// tag, the document followed by as many spaces as the payload has bytes.
pub open spec fn injected_document(s: Seq<u8>, snippet: Seq<u8>) -> Seq<u8> {
    match tag_start(s) {
        Some(i) => s.take(i) + snippet + s.skip(i),
        None => s + spaces(snippet.len()),
    }
}

/// The bytes of `s` held back: those of a tag that has begun and is not yet confirmed.
pub open spec fn pending_of(s: Seq<u8>) -> Seq<u8> {
    if first_close(0, s) is Some || index_from(0, s) == 0 {
        Seq::empty()
    } else {
        match last_open(s) {
            Some(i) => s.skip(i),
            None => Seq::empty(),
        }
    }
}

/// The output due once the bytes `s` have been written: the whole output up to the end of `s`
/// once a tag is confirmed, else `s` without the bytes held back.
pub open spec fn committed(s: Seq<u8>, snippet: Seq<u8>) -> Seq<u8> {
    if first_close(0, s) is Some {
        injected_document(s, snippet)
    } else {
        s.take(s.len() - pending_of(s).len())
    }
}

/// Where the bytes of an output slice live.
#[derive(PartialEq, Eq, Structural, Clone, Copy, Debug)]
pub enum Origin {
    /// The chunk handed to the call that returned the slice.
    IncomingChunk,
    /// Bytes held back by the session and released by this call.
    Buffered,
    /// The payload.
    Snippet,
    /// The spaces that stand for the payload when no tag was found.
    Padding,
}

/// A range of bytes to forward, with where they live.
#[derive(PartialEq, Eq, Structural, Clone, Copy, Debug)]
pub struct BytesSlice {
    pub origin: Origin,
    pub start: usize,
    pub end: usize,
    /// Whether the bytes belong to the chunk handed to the call.
    pub from_incoming_chunk: bool,
}

/// The empty range that fills the unused slots of a result.
pub open spec fn empty_slice() -> BytesSlice {
    BytesSlice { origin: Origin::Buffered, start: 0, end: 0, from_incoming_chunk: false }
}

/// The range `start..end` of the bytes `origin` names, flagged as the chunk's exactly when it is.
pub open spec fn part(origin: Origin, start: int, end: int) -> BytesSlice {
    BytesSlice {
        origin,
        start: start as usize,
        end: end as usize,
        from_incoming_chunk: origin == Origin::IncomingChunk,
    }
}

/// The non-empty ranges of `ss`, in order.
pub open spec fn non_empty(ss: Seq<BytesSlice>) -> Seq<BytesSlice>
    decreases ss.len(),
{
    if ss.len() == 0 {
        Seq::empty()
    } else if ss.last().start < ss.last().end {
        non_empty(ss.drop_last()).push(ss.last())
    } else {
        non_empty(ss.drop_last())
    }
}

/// The ranges, empty ones included, that writing chunk `c` returns after the bytes `h`, in a
/// session whose payload has `n` bytes. After the payload, the chunk. Else, by what the scan
/// of `c` reports: the held-back bytes and the chunk; nothing; the held-back bytes and the chunk
/// up to the new `<`; the payload, the held-back bytes and the chunk; or the held-back bytes,
/// the chunk up to the tag, the payload and the rest of the chunk.
pub open spec fn write_parts(h: Seq<u8>, c: Seq<u8>, n: nat) -> Seq<BytesSlice> {
    let held = part(Origin::Buffered, 0, pending_of(h).len() as int);
    let whole = part(Origin::IncomingChunk, 0, c.len() as int);
    let payload = part(Origin::Snippet, 0, n as int);
    if first_close(0, h) is Some {
        seq![whole]
    } else {
        match location_of(index_from(0, h), c) {
            Location::Nothing => seq![held, whole],
            Location::PotentialFromPreviousChunk => Seq::empty(),
            Location::PotentialFromIndex(j) => seq![held, part(Origin::IncomingChunk, 0, j as int)],
            Location::MatchFromPreviousChunk => seq![payload, held, whole],
            Location::MatchFromIndex(j) => seq![
                held,
                part(Origin::IncomingChunk, 0, j as int),
                payload,
                part(Origin::IncomingChunk, j as int, c.len() as int),
            ],
        }
    }
}

/// The ranges, empty ones included, that ending a session returns after the bytes `h`, its
/// payload having `n` bytes: the held-back bytes, then, when no tag was found, `n` spaces.
pub open spec fn end_parts(h: Seq<u8>, n: nat) -> Seq<BytesSlice> {
    let held = part(Origin::Buffered, 0, pending_of(h).len() as int);
    if first_close(0, h) is Some {
        seq![held]
    } else {
        seq![held, part(Origin::Padding, 0, n as int)]
    }
}

impl BytesSlice {
    /// An empty range that refers to no chunk.
    pub fn empty() -> (r: BytesSlice)
        ensures
            r == empty_slice(),
    {
        BytesSlice { origin: Origin::Buffered, start: 0, end: 0, from_incoming_chunk: false }
    }

    fn of(origin: Origin, start: usize, end: usize) -> (r: BytesSlice)
        ensures
            r.origin == origin,
            r.start == start,
            r.end == end,
            r.from_incoming_chunk == (origin == Origin::IncomingChunk),
    {
        let from_incoming_chunk = match origin {
            Origin::IncomingChunk => true,
            _ => false,
        };
        BytesSlice { origin, start, end, from_incoming_chunk }
    }
}

/// The answer to one call: at most four non-empty slices, in output order.
pub struct Result {
    pub slices: [BytesSlice; 4],
    pub length: usize,
    /// Whether the payload has been emitted, by this call or an earlier one.
    pub injected: bool,
}

impl Result {
    /// The slices in use, in output order.
    pub fn iter(&self) -> (r: Vec<BytesSlice>)
        requires
            self.length <= 4,
        ensures
            r@ == self.slices@.take(self.length as int),
    {
        let mut r: Vec<BytesSlice> = Vec::new();
        let mut k: usize = 0;
        while k < self.length
            invariant
                k <= self.length <= 4,
                r@ == self.slices@.take(k as int),
            decreases self.length - k,
        {
            r.push(self.slices[k]);
            assert(self.slices@.take(k + 1) == self.slices@.take(k as int).push(self.slices@[k as int]));
            k = k + 1;
        }
        r
    }
}

/// Appends `c[from..]` to `v`.
fn append_from(v: &mut Vec<u8>, c: &[u8], from: usize)
    requires
        from <= c@.len(),
    ensures
        final(v)@ == old(v)@ + c@.skip(from as int),
{
    let mut j: usize = from;
    while j < c.len()
        invariant
            from <= j <= c@.len(),
            v@ == old(v)@ + c@.subrange(from as int, j as int),
        decreases c@.len() - j,
    {
        v.push(c[j]);
        assert(c@.subrange(from as int, j + 1) == c@.subrange(from as int, j as int).push(c@[j as int]));
        j = j + 1;
    }
    assert(c@.subrange(from as int, c@.len() as int) == c@.skip(from as int));
}

/// A session that injects a payload into one streamed document.
pub struct Injector {
    snippet: Vec<u8>,
    locator: InjectionPointLocator,
    injected: bool,
    ended: bool,
    /// Bytes held back because they may begin the tag.
    incomplete_data: Vec<u8>,
    /// Held-back bytes released by the last call; the slices of its result point here.
    incomplete_data_public_ref: Vec<u8>,
    /// Spaces standing for the payload when the document has no tag.
    padding_spaces: Vec<u8>,
    /// Every byte written so far.
    input: Ghost<Seq<u8>>,
}

impl Injector {
    /// The bytes written so far.
    pub closed spec fn input(&self) -> Seq<u8> {
        self.input@
    }

    /// The payload.
    pub closed spec fn snippet(&self) -> Seq<u8> {
        self.snippet@
    }

    pub closed spec fn is_injected(&self) -> bool {
        self.injected
    }

    pub closed spec fn is_ended(&self) -> bool {
        self.ended
    }

    /// The session's own bytes that a slice of origin `o` refers to.
    pub closed spec fn buffer(&self, o: Origin) -> Seq<u8> {
        match o {
            Origin::Buffered => self.incomplete_data_public_ref@,
            Origin::Snippet => self.snippet@,
            _ => self.padding_spaces@,
        }
    }

    /// The bytes that a slice of origin `o` refers to, `chunk` being the call's chunk.
    pub open spec fn source(&self, o: Origin, chunk: Seq<u8>) -> Seq<u8> {
        if o == Origin::IncomingChunk {
            chunk
        } else {
            self.buffer(o)
        }
    }

    /// A range within its source, flagged as the chunk's exactly when it lies in the chunk.
    pub open spec fn part_ok(&self, s: BytesSlice, chunk: Seq<u8>) -> bool {
        &&& s.start <= s.end <= self.source(s.origin, chunk).len()
        &&& s.from_incoming_chunk == (s.origin == Origin::IncomingChunk)
    }

    pub open spec fn slice_view(&self, s: BytesSlice, chunk: Seq<u8>) -> Seq<u8> {
        self.source(s.origin, chunk).subrange(s.start as int, s.end as int)
    }

    /// The bytes of slices `ss`, one after the other.
    pub open spec fn views(&self, ss: Seq<BytesSlice>, chunk: Seq<u8>) -> Seq<u8>
        decreases ss.len(),
    {
        if ss.len() == 0 {
            Seq::empty()
        } else {
            self.views(ss.drop_last(), chunk) + self.slice_view(ss.last(), chunk)
        }
    }

    /// Every slice in use is non-empty and valid.
    pub open spec fn result_valid(&self, r: Result, chunk: Seq<u8>) -> bool {
        &&& r.length <= 4
        &&& forall|k: int|
            0 <= k < r.length ==> {
                &&& self.part_ok(#[trigger] r.slices@[k], chunk)
                &&& r.slices@[k].start < r.slices@[k].end
            }
    }

    /// The bytes that result `r` tells the caller to forward.
    pub open spec fn output(&self, r: Result, chunk: Seq<u8>) -> Seq<u8> {
        self.views(r.slices@.take(r.length as int), chunk)
    }

    pub closed spec fn wf(&self) -> bool {
        &&& self.locator.wf()
        &&& self.incomplete_data_public_ref@.len() <= self.input@.len()
        &&& self.padding_spaces@.len() <= self.snippet@.len()
        &&& self.injected == (first_close(0, self.input@) is Some)
        &&& !self.ended ==> {
            &&& !self.injected ==> self.locator.position() == index_from(0, self.input@)
            &&& self.incomplete_data@ == pending_of(self.input@)
        }
    }

    /// What a well-formed session holds: the payload is emitted exactly when a tag has completed
    /// in the bytes written, and the session's own buffers are no longer than these bounds.
    pub proof fn lemma_session_facts(&self)
        requires
            self.wf(),
        ensures
            self.is_injected() == (first_close(0, self.input()) is Some),
            self.buffer(Origin::Buffered).len() <= self.input().len(),
            self.buffer(Origin::Snippet) == self.snippet(),
            self.buffer(Origin::Padding).len() <= self.snippet().len(),
    {
    }

    pub fn new(snippet: &[u8]) -> (r: Self)
        ensures
            r.wf(),
            r.input() == Seq::<u8>::empty(),
            r.snippet() == snippet@,
            !r.is_injected(),
            !r.is_ended(),
    {
        let mut copy: Vec<u8> = Vec::new();
        append_from(&mut copy, snippet, 0);
        assert(snippet@.skip(0) == snippet@);
        Injector {
            snippet: copy,
            locator: InjectionPointLocator::new(),
            injected: false,
            ended: false,
            incomplete_data: Vec::new(),
            incomplete_data_public_ref: Vec::new(),
            padding_spaces: Vec::new(),
            input: Ghost(Seq::empty()),
        }
    }

    /// Releases the held-back bytes into the public buffer.
    fn flush(&mut self)
        ensures
            final(self).incomplete_data_public_ref@ == old(self).incomplete_data@,
            final(self).incomplete_data@ == Seq::<u8>::empty(),
            final(self).snippet == old(self).snippet,
            final(self).locator == old(self).locator,
            final(self).injected == old(self).injected,
            final(self).ended == old(self).ended,
            final(self).padding_spaces == old(self).padding_spaces,
            final(self).input == old(self).input,
    {
        std::mem::swap(&mut self.incomplete_data, &mut self.incomplete_data_public_ref);
        self.incomplete_data.clear();
    }

    /// Packs the non-empty parts, in order, into a result.
    fn create_result(&self, parts: Vec<BytesSlice>, Ghost(chunk): Ghost<Seq<u8>>) -> (r: Result)
        requires
            parts@.len() <= 4,
            forall|k: int| 0 <= k < parts@.len() ==> self.part_ok(#[trigger] parts@[k], chunk),
        ensures
            self.result_valid(r, chunk),
            self.output(r, chunk) == self.views(parts@, chunk),
            r.injected == self.injected,
            r.length <= parts@.len(),
            (forall|j: int| 0 <= j < parts@.len() ==> (#[trigger] parts@[j]).from_incoming_chunk)
                ==> forall|k: int| 0 <= k < r.length ==> (#[trigger] r.slices@[k]).from_incoming_chunk,
            (forall|j: int| 0 <= j < parts@.len() ==> !(#[trigger] parts@[j]).from_incoming_chunk)
                ==> forall|k: int| 0 <= k < r.length ==> !(#[trigger] r.slices@[k]).from_incoming_chunk,
            r.slices@.take(r.length as int) == non_empty(parts@),
            forall|k: int| r.length <= k < 4 ==> #[trigger] r.slices@[k] == empty_slice(),
    {
        let e = BytesSlice::empty();
        let mut r = Result { slices: [e, e, e, e], length: 0, injected: self.injected };
        let mut k: usize = 0;
        while k < parts.len()
            invariant
                r.length <= k <= parts@.len() <= 4,
                forall|j: int| 0 <= j < parts@.len() ==> self.part_ok(#[trigger] parts@[j], chunk),
                self.result_valid(r, chunk),
                self.output(r, chunk) == self.views(parts@.take(k as int), chunk),
                r.injected == self.injected,
                (forall|j: int| 0 <= j < parts@.len() ==> (#[trigger] parts@[j]).from_incoming_chunk)
                    ==> forall|i: int| 0 <= i < r.length ==> (#[trigger] r.slices@[i]).from_incoming_chunk,
                (forall|j: int| 0 <= j < parts@.len() ==> !(#[trigger] parts@[j]).from_incoming_chunk)
                    ==> forall|i: int| 0 <= i < r.length ==> !(#[trigger] r.slices@[i]).from_incoming_chunk,
                r.slices@.take(r.length as int) == non_empty(parts@.take(k as int)),
                forall|i: int| r.length <= i < 4 ==> #[trigger] r.slices@[i] == empty_slice(),
            decreases parts@.len() - k,
        {
            let part = parts[k];
            let ghost before = r.slices@.take(r.length as int);
            assert(parts@.take(k + 1).drop_last() == parts@.take(k as int));
            assert(parts@.take(k + 1).last() == part);
            if part.start < part.end {
                r.slices[r.length] = part;
                assert(r.slices@.take(r.length + 1).drop_last() == before);
                r.length = r.length + 1;
            } else {
                assert(self.slice_view(part, chunk) == Seq::<u8>::empty());
                assert(self.views(parts@.take(k as int), chunk) + Seq::<u8>::empty()
                    == self.views(parts@.take(k as int), chunk));
            }
            k = k + 1;
        }
        assert(parts@.take(k as int) == parts@);
        r
    }
}

/// The non-empty ranges of `ss` are ranges of `ss`.
pub proof fn lemma_non_empty_members(ss: Seq<BytesSlice>)
    ensures
        forall|k: int|
            0 <= k < non_empty(ss).len() ==> (#[trigger] non_empty(ss)[k]).start
                < non_empty(ss)[k].end && exists|j: int|
                0 <= j < ss.len() && ss[j] == non_empty(ss)[k],
    decreases ss.len(),
{
    if ss.len() > 0 {
        let t = ss.drop_last();
        lemma_non_empty_members(t);
        assert forall|k: int| 0 <= k < non_empty(ss).len() implies (#[trigger] non_empty(
            ss,
        )[k]).start < non_empty(ss)[k].end && exists|j: int|
            0 <= j < ss.len() && ss[j] == non_empty(ss)[k] by {
            if k < non_empty(t).len() {
                assert(non_empty(ss)[k] == non_empty(t)[k]);
                let j = choose|j: int| 0 <= j < t.len() && t[j] == non_empty(t)[k];
                assert(ss[j] == t[j]);
            } else {
                assert(non_empty(ss)[k] == ss[ss.len() - 1]);
            }
        }
    }
}

/// A confirmed tag of `s` begins with a `<` of `s`.
proof fn lemma_tag_of_confirmed(s: Seq<u8>)
    requires
        first_close(0, s) is Some,
    ensures
        tag_start(s) matches Some(i) && 0 <= i < s.len(),
{
    lemma_first_close_bounds(0, s);
    let k = first_close(0, s)->Some_0;
    if last_open(s.take(k)) is None {
        lemma_idle_without_open(s.take(k));
    }
    lemma_last_open_bounds(s.take(k));
}

/// Writing more bytes after a confirmed tag only extends the output.
proof fn lemma_confirmed_extends(h: Seq<u8>, c: Seq<u8>, snippet: Seq<u8>)
    requires
        first_close(0, h) is Some,
    ensures
        first_close(0, h + c) == first_close(0, h),
        tag_start(h + c) == tag_start(h),
        injected_document(h + c, snippet) == injected_document(h, snippet) + c,
{
    lemma_first_close_concat(0, h, c);
    lemma_first_close_bounds(0, h);
    lemma_tag_of_confirmed(h);
    let k = first_close(0, h)->Some_0;
    assert((h + c).take(k) == h.take(k));
    let i = tag_start(h)->Some_0;
    assert((h + c).take(i) == h.take(i));
    assert((h + c).skip(i) == h.skip(i) + c);
}

/// Before a tag is confirmed, the output due and the held-back bytes make up the input.
proof fn lemma_committed_split(s: Seq<u8>, snippet: Seq<u8>)
    requires
        first_close(0, s) is None,
    ensures
        committed(s, snippet) + pending_of(s) == s,
        index_from(0, s) != 0 ==> (last_open(s) matches Some(i) && pending_of(s) == s.skip(i)
            && committed(s, snippet) == s.take(i) && 0 <= i < s.len()),
{
    lemma_last_open_bounds(s);
    if index_from(0, s) != 0 {
        if last_open(s) is None {
            lemma_idle_without_open(s);
        }
        let i = last_open(s)->Some_0;
        assert(s.skip(i).len() == s.len() - i);
    }
    assert(s.take(s.len() - pending_of(s).len()) + pending_of(s) == s);
}

/// Writing a chunk where no tag is confirmed and none begins releases the held-back bytes
/// and the whole chunk.
proof fn lemma_step_nothing(h: Seq<u8>, c: Seq<u8>, snippet: Seq<u8>)
    requires
        first_close(0, h) is None,
        location_of(index_from(0, h), c) == Location::Nothing,
    ensures
        first_close(0, h + c) is None,
        index_from(0, h + c) == index_after_scan(index_from(0, h), c),
        pending_of(h + c) == Seq::<u8>::empty(),
        committed(h, snippet) + pending_of(h) + c == committed(h + c, snippet),
{
    lemma_first_close_concat(0, h, c);
    lemma_index_from_concat(0, h, c);
    lemma_committed_split(h, snippet);
    lemma_committed_split(h + c, snippet);
}

/// Writing a chunk that continues an unconfirmed tag holds the whole chunk back.
proof fn lemma_step_potential_previous(h: Seq<u8>, c: Seq<u8>, snippet: Seq<u8>)
    requires
        first_close(0, h) is None,
        location_of(index_from(0, h), c) == Location::PotentialFromPreviousChunk,
    ensures
        first_close(0, h + c) is None,
        index_from(0, h + c) == index_after_scan(index_from(0, h), c),
        pending_of(h + c) == pending_of(h) + c,
        committed(h, snippet) == committed(h + c, snippet),
{
    lemma_first_close_concat(0, h, c);
    lemma_index_from_concat(0, h, c);
    lemma_last_open_concat(h, c);
    if index_from(0, h) == 0 {
        lemma_idle_without_open(c);
    }
    lemma_committed_split(h, snippet);
    lemma_committed_split(h + c, snippet);
    let i = last_open(h)->Some_0;
    assert((h + c).skip(i) == h.skip(i) + c);
    assert((h + c).take(i) == h.take(i));
}

/// Writing a chunk in which an unconfirmed tag begins at `j` releases what comes before it.
proof fn lemma_step_potential_index(h: Seq<u8>, c: Seq<u8>, snippet: Seq<u8>, j: usize)
    requires
        first_close(0, h) is None,
        location_of(index_from(0, h), c) == Location::PotentialFromIndex(j),
        c.len() <= usize::MAX,
    ensures
        j < c.len(),
        first_close(0, h + c) is None,
        index_from(0, h + c) == index_after_scan(index_from(0, h), c),
        pending_of(h + c) == c.skip(j as int),
        committed(h, snippet) + pending_of(h) + c.take(j as int) == committed(h + c, snippet),
{
    lemma_first_close_concat(0, h, c);
    lemma_index_from_concat(0, h, c);
    lemma_last_open_concat(h, c);
    lemma_last_open_bounds(c);
    assert(last_open(c) == Some(j as int));
    lemma_committed_split(h, snippet);
    lemma_committed_split(h + c, snippet);
    assert((h + c).take(h.len() + j) == h + c.take(j as int));
    assert((h + c).skip(h.len() + j) == c.skip(j as int));
}

/// Writing a chunk that confirms a tag begun earlier puts the payload before the held-back bytes.
proof fn lemma_step_match_previous(h: Seq<u8>, c: Seq<u8>, snippet: Seq<u8>)
    requires
        first_close(0, h) is None,
        location_of(index_from(0, h), c) == Location::MatchFromPreviousChunk,
    ensures
        first_close(0, h + c) is Some,
        committed(h, snippet) + snippet + pending_of(h) + c == committed(h + c, snippet),
{
    let p = index_from(0, h);
    lemma_first_close_concat(0, h, c);
    lemma_first_close_bounds(p, c);
    lemma_committed_split(h, snippet);
    let k = first_close(p, c)->Some_0;
    if p == 0 {
        lemma_idle_without_open(c.take(k));
    }
    lemma_last_open_concat(h, c.take(k));
    assert((h + c).take(h.len() + k) == h + c.take(k));
    let i = last_open(h)->Some_0;
    assert(tag_start(h + c) == Some(i));
    assert((h + c).take(i) == h.take(i));
    assert((h + c).skip(i) == h.skip(i) + c);
}

/// Writing a chunk in which a tag begins at `j` and is confirmed puts the payload at `j`.
proof fn lemma_step_match_index(h: Seq<u8>, c: Seq<u8>, snippet: Seq<u8>, j: usize)
    requires
        first_close(0, h) is None,
        location_of(index_from(0, h), c) == Location::MatchFromIndex(j),
        c.len() <= usize::MAX,
    ensures
        j <= c.len(),
        first_close(0, h + c) is Some,
        committed(h, snippet) + pending_of(h) + c.take(j as int) + snippet + c.skip(j as int)
            == committed(h + c, snippet),
{
    let p = index_from(0, h);
    lemma_first_close_concat(0, h, c);
    lemma_first_close_bounds(p, c);
    lemma_committed_split(h, snippet);
    let k = first_close(p, c)->Some_0;
    lemma_last_open_bounds(c.take(k));
    assert(last_open(c.take(k)) == Some(j as int));
    lemma_last_open_concat(h, c.take(k));
    assert((h + c).take(h.len() + k) == h + c.take(k));
    assert(c.take(k).take(j as int) == c.take(j as int));
    assert(tag_start(h + c) == Some(h.len() + j));
    assert((h + c).take(h.len() + j) == h + c.take(j as int));
    assert((h + c).skip(h.len() + j) == c.skip(j as int));
}

impl Injector {
    proof fn lemma_views_one(&self, a: BytesSlice, chunk: Seq<u8>)
        ensures
            self.views(seq![a], chunk) == self.slice_view(a, chunk),
    {
        assert(seq![a].len() == 1);
        assert(seq![a].last() == a);
        assert(seq![a].drop_last() == Seq::<BytesSlice>::empty());
        assert(self.views(Seq::<BytesSlice>::empty(), chunk) == Seq::<u8>::empty());
        assert(Seq::<u8>::empty() + self.slice_view(a, chunk) == self.slice_view(a, chunk));
    }

    proof fn lemma_views_two(&self, a: BytesSlice, b: BytesSlice, chunk: Seq<u8>)
        ensures
            self.views(seq![a, b], chunk) == self.slice_view(a, chunk) + self.slice_view(b, chunk),
    {
        assert(seq![a, b].last() == b);
        assert(seq![a, b].drop_last() == seq![a]);
        self.lemma_views_one(a, chunk);
    }

    proof fn lemma_views_three(&self, a: BytesSlice, b: BytesSlice, d: BytesSlice, chunk: Seq<u8>)
        ensures
            self.views(seq![a, b, d], chunk) == self.slice_view(a, chunk) + self.slice_view(b, chunk)
                + self.slice_view(d, chunk),
    {
        assert(seq![a, b, d].last() == d);
        assert(seq![a, b, d].drop_last() == seq![a, b]);
        self.lemma_views_two(a, b, chunk);
    }

    proof fn lemma_views_four(
        &self,
        a: BytesSlice,
        b: BytesSlice,
        d: BytesSlice,
        e: BytesSlice,
        chunk: Seq<u8>,
    )
        ensures
            self.views(seq![a, b, d, e], chunk) == self.slice_view(a, chunk) + self.slice_view(
                b,
                chunk,
            ) + self.slice_view(d, chunk) + self.slice_view(e, chunk),
    {
        assert(seq![a, b, d, e].last() == e);
        assert(seq![a, b, d, e].drop_last() == seq![a, b, d]);
        self.lemma_views_three(a, b, d, chunk);
    }

    /// Writes the next chunk of the document and returns the slices to forward, in order.
    pub fn write(&mut self, chunk: &[u8]) -> (r: Result)
        requires
            old(self).wf(),
            !old(self).is_ended(),
        ensures
            final(self).wf(),
            !final(self).is_ended(),
            final(self).input() == old(self).input() + chunk@,
            final(self).snippet() == old(self).snippet(),
            final(self).result_valid(r, chunk@),
            final(self).buffer(Origin::Buffered).len() <= old(self).input().len(),
            final(self).buffer(Origin::Snippet) == old(self).snippet(),
            r.slices@.take(r.length as int) == non_empty(
                write_parts(old(self).input(), chunk@, old(self).snippet().len()),
            ),
            forall|k: int| r.length <= k < 4 ==> #[trigger] r.slices@[k] == empty_slice(),
            first_close(0, old(self).input()) is None && location_of(
                index_from(0, old(self).input()),
                chunk@,
            ) != Location::PotentialFromPreviousChunk ==> final(self).buffer(Origin::Buffered)
                == pending_of(old(self).input()),
            committed(old(self).input(), old(self).snippet()) + final(self).output(r, chunk@)
                == committed(final(self).input(), old(self).snippet()),
            r.injected == final(self).is_injected(),
            chunk@.len() == 0 ==> r.length == 0 && final(self).is_injected() == old(self).is_injected(),
            final(self).is_injected() == (first_close(0, final(self).input()) is Some),
            old(self).is_injected() ==> {
                &&& final(self).is_injected()
                &&& r.length <= 1
                &&& final(self).output(r, chunk@) == chunk@
                &&& forall|k: int| 0 <= k < r.length ==> (#[trigger] r.slices@[k]).from_incoming_chunk
            },
    {
        let ghost h = self.input@;
        let r = if self.injected {
            self.pass_through(chunk)
        } else {
            self.scan_and_split(chunk)
        };
        proof {
            if chunk@.len() == 0 {
                assert(h + chunk@ == h);
                assert(chunk@.take(0) == chunk@);
                let ps = write_parts(h, chunk@, self.snippet@.len());
                assert(non_empty(ps).len() == 0) by {
                    if ps.len() > 0 {
                        assert(ps.last().start == ps.last().end);
                        if ps.len() > 1 {
                            assert(ps.drop_last() == seq![ps[0]]);
                            assert(seq![ps[0]].drop_last() == Seq::<BytesSlice>::empty());
                            assert(ps[0].start == ps[0].end);
                        } else {
                            assert(ps.drop_last() == Seq::<BytesSlice>::empty());
                        }
                    }
                }
            }
        }
        r
    }

    /// After the payload: the chunk goes out as it is.
    fn pass_through(&mut self, chunk: &[u8]) -> (r: Result)
        requires
            old(self).wf(),
            !old(self).is_ended(),
            old(self).is_injected(),
        ensures
            final(self).wf(),
            !final(self).is_ended(),
            final(self).input() == old(self).input() + chunk@,
            final(self).snippet() == old(self).snippet(),
            final(self).result_valid(r, chunk@),
            final(self).buffer(Origin::Buffered).len() <= old(self).input().len(),
            final(self).buffer(Origin::Snippet) == old(self).snippet(),
            r.slices@.take(r.length as int) == non_empty(
                write_parts(old(self).input(), chunk@, old(self).snippet().len()),
            ),
            forall|k: int| r.length <= k < 4 ==> #[trigger] r.slices@[k] == empty_slice(),
            first_close(0, old(self).input()) is None && location_of(
                index_from(0, old(self).input()),
                chunk@,
            ) != Location::PotentialFromPreviousChunk ==> final(self).buffer(Origin::Buffered)
                == pending_of(old(self).input()),
            committed(old(self).input(), old(self).snippet()) + final(self).output(r, chunk@)
                == committed(final(self).input(), old(self).snippet()),
            r.injected == final(self).is_injected(),
            final(self).is_injected() == (first_close(0, final(self).input()) is Some),
            final(self).is_injected(),
            r.length <= 1,
            final(self).output(r, chunk@) == chunk@,
            forall|k: int| 0 <= k < r.length ==> (#[trigger] r.slices@[k]).from_incoming_chunk,
    {
        let ghost h = self.input@;
        let ghost c = chunk@;
        let ghost snip = self.snippet@;
        let len = chunk.len();
        let whole = BytesSlice::of(Origin::IncomingChunk, 0, len);
        proof {
            assert(c.subrange(0, len as int) == c);
        }
        let parts = vec![whole];
        proof {
            assert(parts@ == seq![whole]);
            assert(parts@ == write_parts(h, c, snip.len()));
        }
        self.input = Ghost(h + c);
        let r = self.create_result(parts, Ghost(c));
        proof {
            lemma_confirmed_extends(h, c, snip);
            self.lemma_views_one(whole, c);
        }
        r
    }

    /// Before the payload: scan the chunk and release what cannot begin the tag.
    #[verifier::rlimit(40)]
    fn scan_and_split(&mut self, chunk: &[u8]) -> (r: Result)
        requires
            old(self).wf(),
            !old(self).is_ended(),
            !old(self).is_injected(),
        ensures
            final(self).wf(),
            !final(self).is_ended(),
            final(self).input() == old(self).input() + chunk@,
            final(self).snippet() == old(self).snippet(),
            final(self).result_valid(r, chunk@),
            final(self).buffer(Origin::Buffered).len() <= old(self).input().len(),
            final(self).buffer(Origin::Snippet) == old(self).snippet(),
            r.slices@.take(r.length as int) == non_empty(
                write_parts(old(self).input(), chunk@, old(self).snippet().len()),
            ),
            forall|k: int| r.length <= k < 4 ==> #[trigger] r.slices@[k] == empty_slice(),
            first_close(0, old(self).input()) is None && location_of(
                index_from(0, old(self).input()),
                chunk@,
            ) != Location::PotentialFromPreviousChunk ==> final(self).buffer(Origin::Buffered)
                == pending_of(old(self).input()),
            committed(old(self).input(), old(self).snippet()) + final(self).output(r, chunk@)
                == committed(final(self).input(), old(self).snippet()),
            r.injected == final(self).is_injected(),
            final(self).is_injected() == (first_close(0, final(self).input()) is Some),
    {
        let ghost h = self.input@;
        let ghost c = chunk@;
        let ghost snip = self.snippet@;
        let len = chunk.len();
        let whole = BytesSlice::of(Origin::IncomingChunk, 0, len);
        proof {
            assert(c.subrange(0, len as int) == c);
        }
        let location = self.locator.scan(chunk);
        self.input = Ghost(h + c);
        proof {
            lemma_committed_split(h, snip);
            assert(pending_of(h).len() <= h.len());
        }
        let r;
        match location {
            Location::Nothing => {
                self.flush();
                let held = BytesSlice::of(Origin::Buffered, 0, self.incomplete_data_public_ref.len());
                let parts = vec![held, whole];
                proof {
                    assert(parts@ == seq![held, whole]);
                    assert(parts@ == write_parts(h, c, snip.len()));
                }
                r = self.create_result(parts, Ghost(c));
                proof {
                    lemma_step_nothing(h, c, snip);
                    self.lemma_views_two(held, whole, c);
                    assert(self.slice_view(held, c) == pending_of(h));
                }
            },
            Location::PotentialFromPreviousChunk => {
                append_from(&mut self.incomplete_data, chunk, 0);
                r = self.create_result(vec![], Ghost(c));
                proof {
                    lemma_step_potential_previous(h, c, snip);
                    assert(c.skip(0) == c);
                    assert(self.views(Seq::<BytesSlice>::empty(), c) == Seq::<u8>::empty());
                    assert(committed(h, snip) + Seq::<u8>::empty() == committed(h, snip));
                }
            },
            Location::PotentialFromIndex(j) => {
                proof {
                    lemma_step_potential_index(h, c, snip, j);
                }
                self.flush();
                append_from(&mut self.incomplete_data, chunk, j);
                let held = BytesSlice::of(Origin::Buffered, 0, self.incomplete_data_public_ref.len());
                let before = BytesSlice::of(Origin::IncomingChunk, 0, j);
                let parts = vec![held, before];
                proof {
                    assert(parts@ == seq![held, before]);
                    assert(parts@ == write_parts(h, c, snip.len()));
                }
                r = self.create_result(parts, Ghost(c));
                proof {
                    self.lemma_views_two(held, before, c);
                    assert(self.slice_view(held, c) == pending_of(h));
                    assert(self.slice_view(before, c) == c.take(j as int));
                }
            },
            Location::MatchFromPreviousChunk => {
                self.flush();
                self.injected = true;
                let held = BytesSlice::of(Origin::Buffered, 0, self.incomplete_data_public_ref.len());
                let payload = BytesSlice::of(Origin::Snippet, 0, self.snippet.len());
                let parts = vec![payload, held, whole];
                proof {
                    assert(parts@ == seq![payload, held, whole]);
                    assert(parts@ == write_parts(h, c, snip.len()));
                }
                r = self.create_result(parts, Ghost(c));
                proof {
                    lemma_step_match_previous(h, c, snip);
                    self.lemma_views_three(payload, held, whole, c);
                    assert(self.slice_view(held, c) == pending_of(h));
                    assert(self.slice_view(payload, c) == snip);
                }
            },
            Location::MatchFromIndex(j) => {
                proof {
                    lemma_step_match_index(h, c, snip, j);
                }
                self.flush();
                self.injected = true;
                let held = BytesSlice::of(Origin::Buffered, 0, self.incomplete_data_public_ref.len());
                let before = BytesSlice::of(Origin::IncomingChunk, 0, j);
                let payload = BytesSlice::of(Origin::Snippet, 0, self.snippet.len());
                let after = BytesSlice::of(Origin::IncomingChunk, j, len);
                let parts = vec![held, before, payload, after];
                proof {
                    assert(parts@ == seq![held, before, payload, after]);
                    assert(parts@ == write_parts(h, c, snip.len()));
                }
                r = self.create_result(parts, Ghost(c));
                proof {
                    self.lemma_views_four(held, before, payload, after, c);
                    assert(self.slice_view(held, c) == pending_of(h));
                    assert(self.slice_view(before, c) == c.take(j as int));
                    assert(self.slice_view(payload, c) == snip);
                    assert(self.slice_view(after, c) == c.skip(j as int));
                }
            },
        }
        r
    }

    /// Ends the document. Releases the held-back bytes and, when no tag was found, as many
    /// spaces as the payload has bytes.
    pub fn end(&mut self) -> (r: Result)
        requires
            old(self).wf(),
            !old(self).is_ended(),
        ensures
            final(self).wf(),
            final(self).is_ended(),
            final(self).input() == old(self).input(),
            final(self).snippet() == old(self).snippet(),
            final(self).result_valid(r, Seq::<u8>::empty()),
            final(self).buffer(Origin::Buffered).len() <= old(self).input().len(),
            final(self).buffer(Origin::Snippet) == old(self).snippet(),
            final(self).buffer(Origin::Padding).len() <= old(self).snippet().len(),
            r.slices@.take(r.length as int) == non_empty(
                end_parts(old(self).input(), old(self).snippet().len()),
            ),
            forall|k: int| r.length <= k < 4 ==> #[trigger] r.slices@[k] == empty_slice(),
            final(self).buffer(Origin::Buffered) == pending_of(old(self).input()),
            first_close(0, old(self).input()) is None ==> final(self).buffer(Origin::Padding)
                == spaces(old(self).snippet().len()),
            committed(old(self).input(), old(self).snippet()) + final(self).output(
                r,
                Seq::<u8>::empty(),
            ) == injected_document(old(self).input(), old(self).snippet()),
            final(self).is_injected() == old(self).is_injected(),
            r.injected == old(self).is_injected(),
            forall|k: int| 0 <= k < r.length ==> !(#[trigger] r.slices@[k]).from_incoming_chunk,
    {
        let ghost h = self.input@;
        let ghost snip = self.snippet@;
        let ghost none = Seq::<u8>::empty();
        self.flush();
        self.ended = true;
        let held = BytesSlice::of(Origin::Buffered, 0, self.incomplete_data_public_ref.len());
        proof {
            assert(self.slice_view(held, none) == pending_of(h));
        }
        if self.injected {
            let parts = vec![held];
            proof {
                assert(parts@ == seq![held]);
                assert(parts@ == end_parts(h, snip.len()));
            }
            let r = self.create_result(parts, Ghost(none));
            proof {
                self.lemma_views_one(held, none);
                assert(committed(h, snip) + Seq::<u8>::empty() == committed(h, snip));
            }
            r
        } else {
            let n = self.snippet.len();
            let mut pad: Vec<u8> = Vec::new();
            let mut k: usize = 0;
            while k < n
                invariant
                    k <= n,
                    pad@ == spaces(k as nat),
                decreases n - k,
            {
                pad.push(32u8);
                assert(pad@ == spaces((k + 1) as nat));
                k = k + 1;
            }
            self.padding_spaces = pad;
            let spaces_slice = BytesSlice::of(Origin::Padding, 0, n);
            let parts = vec![held, spaces_slice];
            proof {
                assert(parts@ == seq![held, spaces_slice]);
                assert(parts@ == end_parts(h, snip.len()));
            }
            let r = self.create_result(parts, Ghost(none));
            proof {
                self.lemma_views_two(held, spaces_slice, none);
                assert(self.slice_view(spaces_slice, none) == spaces(snip.len()));
                lemma_committed_split(h, snip);
            }
            r
        }
    }

    /// The bytes of a slice of this session's last result; `chunk` is the chunk handed to the
    /// call that returned it (the slices of `end` never refer to it).
    pub fn bytes<'a>(&'a self, slice: &BytesSlice, chunk: &'a [u8]) -> (r: &'a [u8])
        requires
            self.part_ok(*slice, chunk@),
        ensures
            r@ == self.slice_view(*slice, chunk@),
    {
        match slice.origin {
            Origin::IncomingChunk => vstd::slice::slice_subrange(chunk, slice.start, slice.end),
            Origin::Buffered => vstd::slice::slice_subrange(
                self.incomplete_data_public_ref.as_slice(),
                slice.start,
                slice.end,
            ),
            Origin::Snippet => vstd::slice::slice_subrange(
                self.snippet.as_slice(),
                slice.start,
                slice.end,
            ),
            Origin::Padding => vstd::slice::slice_subrange(
                self.padding_spaces.as_slice(),
                slice.start,
                slice.end,
            ),
        }
    }
}

} // verus!
