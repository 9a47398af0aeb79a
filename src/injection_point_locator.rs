//! Incremental location of the `</head>` tag, chunk by chunk.
use vstd::prelude::*;

verus! {

/// ASCII lower case of a byte; other bytes are unchanged.
pub open spec fn lower(b: u8) -> u8 {
    if 65 <= b <= 90 {
        (b + 32) as u8
    } else {
        b
    }
}

/// ASCII whitespace: tab, line feed, form feed, carriage return and space.
pub open spec fn is_space(b: u8) -> bool {
    b == 9 || b == 10 || b == 12 || b == 13 || b == 32
}

/// The byte that a scan position `p` (1 to 5) expects next: `/`, `h`, `e`, `a`, `d`.
pub open spec fn expected_at(p: u8) -> u8 {
    if p == 1 {
        47u8
    } else if p == 2 {
        104u8
    } else if p == 3 {
        101u8
    } else if p == 4 {
        97u8
    } else {
        100u8
    }
}

/// Whether byte `b`, read at scan position `p`, completes a tag.
pub open spec fn completes(p: u8, b: u8) -> bool {
    p == 6 && b == 62
}

/// Whether `t` is a `</head>` tag whose `h` stands at offset `a`: `<`, `/`, whitespace, the
/// letters `head` in any case, whitespace, `>`.
pub open spec fn head_at(t: Seq<u8>, a: int) -> bool {
    &&& 2 <= a
    &&& a + 5 <= t.len()
    &&& t[0] == 60
    &&& t[1] == 47
    &&& forall|k: int| 2 <= k < a ==> is_space(#[trigger] t[k])
    &&& forall|k: int| a <= k < a + 4 ==> lower(#[trigger] t[k]) == expected_at((k - a + 2) as u8)
    &&& forall|k: int| a + 4 <= k < t.len() - 1 ==> is_space(#[trigger] t[k])
    &&& t.last() == 62
}

/// Whether `t` is a `</head>` tag.
pub open spec fn is_tag(t: Seq<u8>) -> bool {
    exists|a: int| head_at(t, a)
}

/// `u` is the start of a tag that a scan at position `q` has read, its `h` (if read) at `a`.
pub open spec fn partial_tag(u: Seq<u8>, q: u8, a: int) -> bool {
    &&& 1 <= q <= 6
    &&& u.len() >= 1
    &&& u[0] == 60
    &&& q == 1 ==> u.len() == 1
    &&& q >= 2 ==> {
        &&& u.len() >= 2
        &&& u[1] == 47
        &&& 2 <= a <= u.len()
        &&& forall|k: int| 2 <= k < a ==> is_space(#[trigger] u[k])
        &&& q <= 5 ==> u.len() == a + q - 2
        &&& q == 6 ==> a + 4 <= u.len()
        &&& forall|k: int|
            a <= k < a + 4 && k < u.len() && (q == 6 || k < a + q - 2) ==> lower(#[trigger] u[k])
                == expected_at((k - a + 2) as u8)
        &&& q == 6 ==> forall|k: int| a + 4 <= k < u.len() ==> is_space(#[trigger] u[k])
    }
}

/// The scan position after reading byte `b` at position `p`, when `b` completes no tag.
/// Beyond position 1 the byte is compared in lower case.
pub open spec fn next_index(p: u8, b: u8) -> u8 {
    let c = if p > 1 { lower(b) } else { b };
    if c == 60 {
        1
    } else if 1 <= p <= 5 && c == expected_at(p) {
        (p + 1) as u8
    } else if (p == 2 || p == 6) && is_space(c) {
        p
    } else {
        0
    }
}

/// The scan position after reading `c` from position `p`, ignoring completed tags.
pub open spec fn index_from(p: u8, c: Seq<u8>) -> u8
    decreases c.len(),
{
    if c.len() == 0 {
        p
    } else {
        next_index(index_from(p, c.drop_last()), c.last())
    }
}

/// The offset in `c` of the first byte that completes a tag, reading from position `p`.
pub open spec fn first_close(p: u8, c: Seq<u8>) -> Option<int>
    decreases c.len(),
{
    if c.len() == 0 {
        None
    } else {
        match first_close(p, c.drop_last()) {
            Some(k) => Some(k),
            None => if completes(index_from(p, c.drop_last()), c.last()) {
                Some(c.len() - 1)
            } else {
                None
            },
        }
    }
}

/// The offset of the last `<` in `c`.
pub open spec fn last_open(c: Seq<u8>) -> Option<int>
    decreases c.len(),
{
    if c.len() == 0 {
        None
    } else if c.last() == 60 {
        Some(c.len() - 1)
    } else {
        last_open(c.drop_last())
    }
}

/// The location that scanning `c` from position `p` reports.
pub open spec fn location_of(p: u8, c: Seq<u8>) -> Location {
    match first_close(p, c) {
        Some(k) => match last_open(c.take(k)) {
            Some(i) => Location::MatchFromIndex(i as usize),
            None => Location::MatchFromPreviousChunk,
        },
        None => pending_location(index_from(p, c), c),
    }
}

/// The location reported for `c` when no tag completes in it and the scan ends at position `q`.
pub open spec fn pending_location(q: u8, c: Seq<u8>) -> Location {
    if q == 0 {
        Location::Nothing
    } else {
        match last_open(c) {
            Some(i) => Location::PotentialFromIndex(i as usize),
            None => Location::PotentialFromPreviousChunk,
        }
    }
}

/// The scan position after scanning `c` from position `p`: back to idle once a tag completes.
pub open spec fn index_after_scan(p: u8, c: Seq<u8>) -> u8 {
    match first_close(p, c) {
        Some(_) => 0,
        None => index_from(p, c),
    }
}

/// The location of an injection point, as found in one chunk.
#[derive(PartialEq, Eq, Structural, Clone, Copy, Debug)]
pub enum Location {
    /// Nothing was found; a potential injection point notified before is dismissed.
    Nothing,
    /// A potential injection point starts at this offset of the chunk; more data is needed.
    PotentialFromIndex(usize),
    /// The potential injection point begun in a previous chunk is still unconfirmed.
    PotentialFromPreviousChunk,
    /// An injection point starts at this offset of the chunk.
    MatchFromIndex(usize),
    /// The potential injection point begun in a previous chunk is confirmed.
    MatchFromPreviousChunk,
}

/// Stateful scanner for the `</head>` tag: case insensitive, with whitespace allowed before
/// `head` and before `>`.
pub struct InjectionPointLocator {
    /// How many bytes of `</head>` have matched so far (0 to 6).
    index: u8,
}

impl InjectionPointLocator {
    /// How many bytes of `</head>` have matched so far.
    pub closed spec fn position(&self) -> u8 {
        self.index
    }

    /// The scan position never goes past the last letter of the tag.
    pub open spec fn wf(&self) -> bool {
        self.position() <= 6
    }

    pub fn new() -> (r: Self)
        ensures
            r.wf(),
            r.position() == 0,
    {
        InjectionPointLocator { index: 0 }
    }

    /// Scans one chunk and reports where an injection point starts or is confirmed.
    pub fn scan(&mut self, chunk: &[u8]) -> (r: Location)
        requires
            old(self).wf(),
        ensures
            final(self).wf(),
            r == location_of(old(self).position(), chunk@),
            final(self).position() == index_after_scan(old(self).position(), chunk@),
    {
        let ghost p = self.index;
        let mut location = if self.index > 0 {
            Location::PotentialFromPreviousChunk
        } else {
            Location::Nothing
        };
        let mut i: usize = 0;
        while i < chunk.len()
            invariant
                0 <= i <= chunk@.len(),
                p == old(self).index,
                self.index <= 6,
                first_close(p, chunk@.take(i as int)) is None,
                self.index == index_from(p, chunk@.take(i as int)),
                location == pending_location(self.index, chunk@.take(i as int)),
            decreases chunk@.len() - i,
        {
            let ghost prefix = chunk@.take(i as int);
            assert(chunk@.take(i + 1).drop_last() == prefix);
            assert(chunk@.take(i + 1).last() == chunk@[i as int]);
            let mut byte = chunk[i];
            if self.index > 1 && 65 <= byte && byte <= 90 {
                byte = byte + 32;
            }
            if byte == 60 {
                self.index = 1;
                location = Location::PotentialFromIndex(i);
            } else if (self.index == 1 && byte == 47) || (self.index == 2 && byte == 104) || (
            self.index == 3 && byte == 101) || (self.index == 4 && byte == 97) || (self.index == 5
                && byte == 100) {
                self.index = self.index + 1;
            } else if self.index == 6 && byte == 62 {
                self.index = 0;
                location = match location {
                    Location::PotentialFromIndex(start) => Location::MatchFromIndex(start),
                    _ => Location::MatchFromPreviousChunk,
                };
                proof {
                    assert(completes(index_from(p, prefix), chunk@[i as int]));
                    assert(first_close(p, chunk@.take(i + 1)) == Some(i as int));
                    assert(first_close(p, chunk@) == Some(i as int)) by {
                        lemma_first_close_kept(p, chunk@.take(i + 1), chunk@);
                    }
                    assert(chunk@.take(i as int) == prefix);
                }
                return location;
            } else if (self.index == 2 || self.index == 6) && (byte == 9 || byte == 10 || byte
                == 12 || byte == 13 || byte == 32) {
            } else {
                self.index = 0;
                location = Location::Nothing;
            }
            i = i + 1;
        }
        assert(chunk@.take(i as int) == chunk@);
        location
    }
}

/// A tag found in a prefix of `c` is the first one of `c`.
pub proof fn lemma_first_close_kept(p: u8, a: Seq<u8>, c: Seq<u8>)
    requires
        a.len() <= c.len(),
        a == c.take(a.len() as int),
        first_close(p, a) is Some,
    ensures
        first_close(p, c) == first_close(p, a),
    decreases c.len() - a.len(),
{
    if c.len() > a.len() {
        assert(c.drop_last().take(a.len() as int) == a);
        lemma_first_close_kept(p, a, c.drop_last());
    } else {
        assert(a == c);
    }
}

/// Scanning `a + b` from `p` ends where scanning `b` from the end of `a` does.
pub proof fn lemma_index_from_concat(p: u8, a: Seq<u8>, b: Seq<u8>)
    ensures
        index_from(p, a + b) == index_from(index_from(p, a), b),
    decreases b.len(),
{
    if b.len() == 0 {
        assert(a + b == a);
    } else {
        assert((a + b).drop_last() == a + b.drop_last());
        lemma_index_from_concat(p, a, b.drop_last());
    }
}

/// The first tag of `a + b` is the first tag of `a`, else the first of `b` read on from `a`.
pub proof fn lemma_first_close_concat(p: u8, a: Seq<u8>, b: Seq<u8>)
    ensures
        first_close(p, a + b) == match first_close(p, a) {
            Some(k) => Some(k),
            None => match first_close(index_from(p, a), b) {
                Some(k) => Some(a.len() + k),
                None => None,
            },
        },
    decreases b.len(),
{
    if b.len() == 0 {
        assert(a + b == a);
    } else {
        assert((a + b).drop_last() == a + b.drop_last());
        lemma_first_close_concat(p, a, b.drop_last());
        lemma_index_from_concat(p, a, b.drop_last());
    }
}

/// The last `<` of `a + b` is the last of `b`, else the last of `a`.
pub proof fn lemma_last_open_concat(a: Seq<u8>, b: Seq<u8>)
    ensures
        last_open(a + b) == match last_open(b) {
            Some(i) => Some(a.len() + i),
            None => last_open(a),
        },
    decreases b.len(),
{
    if b.len() == 0 {
        assert(a + b == a);
    } else {
        assert((a + b).drop_last() == a + b.drop_last());
        lemma_last_open_concat(a, b.drop_last());
    }
}

/// The last `<` of `c`, if any, is a `<` within `c`.
pub proof fn lemma_last_open_bounds(c: Seq<u8>)
    ensures
        last_open(c) matches Some(i) ==> 0 <= i < c.len() && c[i] == 60,
    decreases c.len(),
{
    if c.len() > 0 {
        lemma_last_open_bounds(c.drop_last());
    }
}

/// Without a `<`, a scan that starts idle stays idle.
pub proof fn lemma_idle_without_open(c: Seq<u8>)
    requires
        last_open(c) is None,
    ensures
        index_from(0, c) == 0,
    decreases c.len(),
{
    if c.len() > 0 {
        lemma_idle_without_open(c.drop_last());
    }
}

/// A completed tag lies within the bytes read.
pub proof fn lemma_first_close_bounds(p: u8, c: Seq<u8>)
    ensures
        first_close(p, c) matches Some(k) ==> 0 <= k < c.len() && index_from(p, c.take(k)) == 6
            && first_close(p, c.take(k)) is None && completes(6, c[k]),
    decreases c.len(),
{
    if c.len() > 0 {
        lemma_first_close_bounds(p, c.drop_last());
        if let Some(k) = first_close(p, c.drop_last()) {
            assert(c.drop_last().take(k) == c.take(k));
        } else {
            assert(c.drop_last() == c.take(c.len() - 1));
        }
    }
}

/// While no tag has completed, a non-idle scan has read the start of a tag, from the last `<`.
pub proof fn lemma_partial_tag(s: Seq<u8>) -> (a: int)
    requires
        first_close(0, s) is None,
        index_from(0, s) != 0,
    ensures
        last_open(s) matches Some(i) && partial_tag(s.skip(i), index_from(0, s), a),
    decreases s.len(),
{
    let q = index_from(0, s);
    let b = s.last();
    let t = s.drop_last();
    let p = index_from(0, t);
    assert(first_close(0, t) is None);
    if b == 60 {
        assert(s.skip(s.len() - 1) == seq![b]);
        0
    } else {
        assert(p != 0);
        let a0 = lemma_partial_tag(t);
        let i = last_open(t)->Some_0;
        lemma_last_open_bounds(t);
        let u = t.skip(i);
        let v = s.skip(i);
        assert(v == u.push(b));
        assert(!completes(p, b));
        if p == 1 {
            assert(q == 2);
            2
        } else if q == p && (p == 2 || p == 6) && is_space(lower(b)) && lower(b) != expected_at(p) {
            if p == 2 {
                assert(is_space(v[a0]));
                a0 + 1
            } else {
                a0
            }
        } else {
            a0
        }
    }
}

/// Where a tag completes, the bytes from the last `<` up to it form a tag.
pub proof fn lemma_close_is_tag(s: Seq<u8>)
    requires
        first_close(0, s) is Some,
    ensures
        first_close(0, s) matches Some(k) && last_open(s.take(k)) matches Some(i) && is_tag(
            s.subrange(i, k + 1),
        ),
{
    lemma_first_close_bounds(0, s);
    let k = first_close(0, s)->Some_0;
    let t = s.take(k);
    let a = lemma_partial_tag(t);
    let i = last_open(t)->Some_0;
    lemma_last_open_bounds(t);
    let w = s.subrange(i, k + 1);
    assert(w == t.skip(i).push(s[k]));
    assert(head_at(w, a));
}

/// The scan position after reading the first `d` bytes of a tag whose `h` stands at offset `a`.
pub open spec fn position_in_tag(d: int, a: int) -> u8 {
    if d <= 1 {
        1
    } else if d <= a {
        2
    } else if d < a + 4 {
        (2 + d - a) as u8
    } else {
        6
    }
}

/// Reading a tag that starts at `i` goes through its positions, unless a tag completed before.
proof fn lemma_tag_progress(s: Seq<u8>, i: int, j: int, a: int, m: int)
    requires
        0 <= i < j <= s.len(),
        head_at(s.subrange(i, j), a),
        i + 1 <= m <= j - 1,
    ensures
        first_close(0, s.take(m)) is Some || index_from(0, s.take(m)) == position_in_tag(m - i, a),
    decreases m,
{
    let t = s.subrange(i, j);
    assert(s.take(m).drop_last() == s.take(m - 1));
    assert(s.take(m).last() == t[m - 1 - i]);
    if m > i + 1 {
        lemma_tag_progress(s, i, j, a, m - 1);
        let d = m - 1 - i;
        let b = t[d];
        if 2 <= d < a {
            assert(is_space(b));
        } else if a <= d < a + 4 {
            assert(lower(b) == expected_at((d - a + 2) as u8));
        } else if d >= a + 4 {
            assert(is_space(b));
        }
    }
}

/// Every tag of `s` completes a scan of `s` no later than at its own `>`.
pub proof fn lemma_tag_closes(s: Seq<u8>, i: int, j: int)
    requires
        0 <= i < j <= s.len(),
        is_tag(s.subrange(i, j)),
    ensures
        first_close(0, s.take(j)) is Some,
{
    let a = choose|a: int| head_at(s.subrange(i, j), a);
    lemma_tag_progress(s, i, j, a, j - 1);
    assert(s.take(j).drop_last() == s.take(j - 1));
    assert(s.take(j).last() == s.subrange(i, j).last());
}

} // verus!
