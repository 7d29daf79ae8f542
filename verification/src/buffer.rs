//! The gap buffer itself: one owned byte allocation logically divided into
//! `[head][gap][tail]` by two indices. The logical content is `head ++ tail`;
//! the gap is never part of the observable content.

use vstd::prelude::*;
use vstd::pervasive::VecAdditionalExecFns;
use vstd::string::StrSliceExecFns;
use vstd::string::StringSliceAdditionalSpecFns;

verus! {

broadcast use vstd::std_specs::vec::group_vec_axioms;

/// Growth granularity in bytes: a reallocation extends the storage by a
/// multiple of this stride, to amortize how often growth happens.
pub const CHUNK_SIZE: usize = 32;

/// The logical content after inserting `data` at `offset`: the bytes before
/// `offset`, then `data`, then the bytes from `offset` on.
pub open spec fn spliced(content: Seq<u8>, offset: int, data: Seq<u8>) -> Seq<u8>
    recommends
        0 <= offset <= content.len(),
{
    content.subrange(0, offset) + data + content.subrange(offset, content.len() as int)
}

/// The logical content after removing the half-open range `[start, end)`.
pub open spec fn cut_out(content: Seq<u8>, start: int, end: int) -> Seq<u8>
    recommends
        0 <= start <= end <= content.len(),
{
    content.subrange(0, start) + content.subrange(end, content.len() as int)
}

/// The storage the buffer ends up with after an insertion of `extra` bytes:
/// unchanged when the gap already holds them, otherwise extended by the
/// shortfall rounded up to the chunk stride.
pub open spec fn grown_capacity(capacity: int, content_len: int, extra: int) -> int
    recommends
        0 <= content_len <= capacity,
{
    let gap = capacity - content_len;
    if extra <= gap {
        capacity
    } else {
        capacity + ((extra - gap + CHUNK_SIZE as int - 1) / (CHUNK_SIZE as int)) * (
        CHUNK_SIZE as int)
    }
}

/// The error returned when `remove` is given a range that is empty or reaches
/// past the logical content.
#[derive(Clone, Copy, Debug, PartialEq, Eq, Structural)]
pub struct InvalidRange;

/// Dynamic byte sequence that allows efficient insertion and removal
/// operations that are near the same location. Ideal for text editors.
///
/// The occupied bytes are `storage[0 .. gap_start)` (the head) and
/// `storage[gap_end .. storage.len())` (the tail); the bytes in between are
/// the gap. The view of the buffer is the logical content, `head ++ tail`.
pub struct GapBuffer {
    storage: Vec<u8>,
    gap_start: usize,
    gap_end: usize,
}

impl View for GapBuffer {
    type V = Seq<u8>;

    closed spec fn view(&self) -> Seq<u8> {
        self.storage@.subrange(0, self.gap_start as int) + self.storage@.subrange(
            self.gap_end as int,
            self.storage@.len() as int,
        )
    }
}

impl GapBuffer {
    /// The structural invariant: the gap is a (possibly empty) sub-range of
    /// the storage, so head, gap and tail partition the allocation.
    pub closed spec fn well_formed(&self) -> bool {
        self.gap_start <= self.gap_end <= self.storage@.len()
    }

    /// Total allocated storage in bytes.
    pub closed spec fn spec_capacity(&self) -> int {
        self.storage@.len() as int
    }

    /// The logical offset the gap sits at, which equals the length of the
    /// head segment.
    pub closed spec fn gap_at(&self) -> int {
        self.gap_start as int
    }

    /// Relates the derived quantities of a well-formed buffer: the gap offset
    /// lies within the content and the content fits in the storage.
    pub proof fn lemma_well_formed_bounds(&self)
        requires
            self.well_formed(),
        ensures
            0 <= self.gap_at() <= self@.len(),
            self@.len() <= self.spec_capacity(),
    {
    }

    /// Creates a new buffer with a `capacity` sized allocation. The whole
    /// allocation is initially gap: the logical content is empty.
    pub fn with_capacity(capacity: usize) -> (buffer: GapBuffer)
        ensures
            buffer.well_formed(),
            buffer@ == Seq::<u8>::empty(),
            buffer.spec_capacity() == capacity,
            buffer.gap_at() == 0,
    {
        let mut storage: Vec<u8> = Vec::new();
        storage.resize(capacity, 0u8);
        let buffer = GapBuffer { storage, gap_start: 0, gap_end: capacity };
        proof {
            assert(buffer@ =~= Seq::<u8>::empty());
        }
        buffer
    }

    /// Length of the logical content, in bytes.
    pub fn buf_len(&self) -> (n: usize)
        requires
            self.well_formed(),
        ensures
            n == self@.len(),
    {
        let head_len = self.gap_start;
        let tail_len = self.storage.len() - self.gap_end;
        head_len + tail_len
    }

    /// Unused capacity between head and tail.
    pub fn gap_len(&self) -> (n: usize)
        requires
            self.well_formed(),
        ensures
            n == self.spec_capacity() - self@.len(),
    {
        self.gap_end - self.gap_start
    }

    /// Empties the buffer: the whole allocation becomes gap. The capacity is
    /// kept.
    pub fn clear(&mut self)
        requires
            old(self).well_formed(),
        ensures
            final(self).well_formed(),
            final(self)@ == Seq::<u8>::empty(),
            final(self).spec_capacity() == old(self).spec_capacity(),
            final(self).gap_at() == 0,
    {
        self.gap_start = 0;
        self.gap_end = self.storage.len();
        proof {
            assert(self@ =~= Seq::<u8>::empty());
        }
    }

    /// Repositions the gap so that its start aligns with the logical
    /// `offset`, preserving the logical content. Bytes between the old and
    /// the new gap position change sides between head and tail; the move is
    /// safe for overlapping ranges because each byte is read before any write
    /// could reach it.
    fn move_gap_to(&mut self, offset: usize)
        requires
            old(self).well_formed(),
            offset <= old(self)@.len(),
        ensures
            final(self).well_formed(),
            final(self)@ == old(self)@,
            final(self).gap_at() == offset,
            final(self).spec_capacity() == old(self).spec_capacity(),
    {
        let ghost g1 = old(self).gap_start as int;
        let ghost g2 = old(self).gap_end as int;
        let ghost n = old(self).storage@.len() as int;
        proof {
            assert(self.storage.len() == self.storage@.len());
        }
        if offset < self.gap_start {
            // Moving left: the bytes in [offset, gap_start) transfer from
            // head to tail, into [gap_end - distance, gap_end). The copy runs
            // right to left, so no source byte is overwritten before it is
            // read.
            let distance = self.gap_start - offset;
            let mut moved: usize = 0;
            while moved < distance
                invariant
                    offset + distance == g1,
                    g1 == self.gap_start,
                    g2 == self.gap_end,
                    g1 <= g2 <= n <= usize::MAX,
                    n == self.storage@.len(),
                    moved <= distance <= g1,
                    forall|i: int|
                        0 <= i < n ==> #[trigger] self.storage@[i] == if g2 - moved <= i < g2 {
                            old(self).storage@[i - (g2 - g1)]
                        } else {
                            old(self).storage@[i]
                        },
                decreases distance - moved,
            {
                let byte = self.storage[self.gap_start - 1 - moved];
                self.storage.set(self.gap_end - 1 - moved, byte);
                moved = moved + 1;
            }
            self.gap_end = self.gap_end - distance;
            self.gap_start = offset;
            proof {
                assert(self@ =~= old(self)@);
            }
        } else if offset > self.gap_start {
            // Moving right: the bytes in [gap_end, gap_end + distance)
            // transfer from tail to head, into [gap_start, gap_start +
            // distance). The copy runs left to right, so again no source byte
            // is overwritten before it is read.
            let distance = offset - self.gap_start;
            let mut moved: usize = 0;
            while moved < distance
                invariant
                    g1 + distance == offset,
                    g1 == self.gap_start,
                    g2 == self.gap_end,
                    g1 <= g2 <= n <= usize::MAX,
                    n == self.storage@.len(),
                    moved <= distance <= n - g2,
                    forall|i: int|
                        0 <= i < n ==> #[trigger] self.storage@[i] == if g1 <= i < g1 + moved {
                            old(self).storage@[i + (g2 - g1)]
                        } else {
                            old(self).storage@[i]
                        },
                decreases distance - moved,
            {
                let byte = self.storage[self.gap_end + moved];
                self.storage.set(self.gap_start + moved, byte);
                moved = moved + 1;
            }
            self.gap_start = self.gap_start + distance;
            self.gap_end = self.gap_end + distance;
            proof {
                assert(self@ =~= old(self)@);
            }
        }
    }

    /// Extends the storage by `extra` bytes. The added bytes become part of
    /// the gap later; their values are never observable.
    fn allocate_extra(&mut self, extra: usize)
        requires
            old(self).storage@.len() + extra <= usize::MAX,
        ensures
            final(self).gap_start == old(self).gap_start,
            final(self).gap_end == old(self).gap_end,
            final(self).storage@.len() == old(self).storage@.len() + extra,
            final(self).storage@.subrange(0, old(self).storage@.len() as int) == old(self).storage@,
    {
        let new_size = self.storage.len() + extra;
        self.storage.resize(new_size, 0u8);
        proof {
            assert(self.storage@.subrange(0, old(self).storage@.len() as int) =~= old(
                self,
            ).storage@);
        }
    }

    /// Enlarges the gap so that it can absorb `size` bytes: the shortfall is
    /// rounded up to the chunk stride, the storage is extended by that much,
    /// and the tail moves to the new end of the storage so that the enlarged
    /// gap is contiguous between head and tail.
    fn grow_gap(&mut self, size: usize)
        requires
            old(self).well_formed(),
            old(self).spec_capacity() - old(self)@.len() < size,
            old(self)@.len() + size + CHUNK_SIZE <= usize::MAX,
        ensures
            final(self).well_formed(),
            final(self)@ == old(self)@,
            final(self).gap_at() == final(self)@.len(),
            final(self).spec_capacity() == grown_capacity(
                old(self).spec_capacity(),
                old(self)@.len() as int,
                size as int,
            ),
            final(self).spec_capacity() - final(self)@.len() >= size,
    {
        let ghost g1 = old(self).gap_start as int;
        let ghost g2 = old(self).gap_end as int;
        let ghost n = old(self).storage@.len() as int;
        proof {
            assert(self.storage.len() == self.storage@.len());
        }
        let head_len = self.gap_start;
        let tail_len = self.storage.len() - self.gap_end;
        let buf_len = head_len + tail_len;
        let available = self.gap_end - self.gap_start;
        let needed = size - available;
        let chunks = (needed + (CHUNK_SIZE - 1)) / CHUNK_SIZE;
        proof {
            assert(needed as int <= chunks as int * (CHUNK_SIZE as int) <= needed as int + (
            CHUNK_SIZE as int) - 1) by (nonlinear_arith)
                requires
                    chunks as int == (needed as int + (CHUNK_SIZE as int) - 1) / (CHUNK_SIZE as int),
                    needed as int >= 1,
            ;
        }
        let chunk = chunks * CHUNK_SIZE;
        self.allocate_extra(chunk);
        let ghost mid = self.storage@;
        let mut moved: usize = 0;
        while moved < tail_len
            invariant
                g1 == self.gap_start,
                g2 == self.gap_end,
                g1 <= g2 <= n <= usize::MAX,
                tail_len == n - g2,
                self.storage@.len() == mid.len() == n + chunk,
                moved <= tail_len,
                forall|i: int|
                    0 <= i < n + chunk ==> #[trigger] self.storage@[i] == if g1 <= i < g1 + moved {
                        mid[i + (g2 - g1)]
                    } else {
                        mid[i]
                    },
            decreases tail_len - moved,
        {
            let byte = self.storage[self.gap_end + moved];
            self.storage.set(self.gap_start + moved, byte);
            moved = moved + 1;
        }
        self.gap_start = buf_len;
        self.gap_end = self.storage.len();
        proof {
            assert forall|i: int| 0 <= i < n implies mid[i] == old(self).storage@[i] by {
                assert(mid.subrange(0, n)[i] == mid[i]);
            }
            assert(self@ =~= old(self)@);
        }
    }

    /// Inserts the bytes of `s` into the logical content at `offset`: the
    /// content becomes the bytes before `offset`, then `s`, then the bytes
    /// from `offset` on. The gap is grown first when `s` does not fit, then
    /// slid to `offset`, and the new bytes are written into it; the tail is
    /// never touched by the write itself.
    pub fn insert_str(&mut self, offset: usize, s: &str)
        requires
            old(self).well_formed(),
            offset <= old(self)@.len(),
            old(self)@.len() + s.spec_bytes().len() + CHUNK_SIZE <= usize::MAX,
        ensures
            final(self).well_formed(),
            final(self)@ == spliced(old(self)@, offset as int, s.spec_bytes()),
            final(self).gap_at() == offset + s.spec_bytes().len(),
            final(self).spec_capacity() == grown_capacity(
                old(self).spec_capacity(),
                old(self)@.len() as int,
                s.spec_bytes().len() as int,
            ),
    {
        let bytes = s.as_bytes_vec();
        let s_len = bytes.len();
        if s_len > self.gap_len() {
            self.grow_gap(s_len);
        }
        self.move_gap_to(offset);
        let ghost mid = self.storage@;
        let ghost g2 = self.gap_end as int;
        let ghost n = self.storage@.len() as int;
        proof {
            assert(self.storage.len() == self.storage@.len());
        }
        let mut written: usize = 0;
        while written < s_len
            invariant
                offset == self.gap_start,
                g2 == self.gap_end,
                offset + s_len <= g2 <= n <= usize::MAX,
                n == self.storage@.len(),
                written <= s_len == bytes@.len(),
                forall|i: int|
                    0 <= i < n ==> #[trigger] self.storage@[i] == if offset <= i < offset
                        + written {
                        bytes@[i - offset]
                    } else {
                        mid[i]
                    },
            decreases s_len - written,
        {
            let byte = bytes[written];
            self.storage.set(self.gap_start + written, byte);
            written = written + 1;
        }
        self.gap_start = self.gap_start + s_len;
        proof {
            assert(self@ =~= spliced(old(self)@, offset as int, s.spec_bytes()));
        }
    }

    /// Removes the logical content in `range`. A range that is empty or
    /// reaches past the logical content is a caller error: it is reported as
    /// `Err(InvalidRange)` and the buffer is left untouched — never silently
    /// clamped. On success the gap comes to sit exactly where the removed
    /// bytes were, absorbing them.
    pub fn remove(&mut self, range: core::ops::Range<usize>) -> (result: Result<(), InvalidRange>)
        requires
            old(self).well_formed(),
        ensures
            final(self).well_formed(),
            result is Ok <==> (range.start < range.end && range.start < old(self)@.len()
                && range.end <= old(self)@.len()),
            result is Ok ==> final(self)@ == cut_out(
                old(self)@,
                range.start as int,
                range.end as int,
            ),
            result is Ok ==> final(self).gap_at() == range.start,
            result is Ok ==> final(self).spec_capacity() == old(self).spec_capacity(),
            result is Err ==> *final(self) == *old(self),
    {
        let buf_len = self.buf_len();
        if !(range.start < range.end && range.end <= buf_len) {
            return Err(InvalidRange);
        }
        self.move_gap_to(range.start);
        let ghost before = *self;
        proof {
            assert(self.storage.len() == self.storage@.len());
            assert(self@.len() == self.gap_start + (self.storage@.len() - self.gap_end));
        }
        self.gap_end = self.gap_end + (range.end - range.start);
        proof {
            assert(before@.subrange(range.start as int, before@.len() as int) =~= before.storage@
                .subrange(before.gap_end as int, before.storage@.len() as int));
            assert(self@ =~= cut_out(old(self)@, range.start as int, range.end as int));
        }
        Ok(())
    }

    /// Copies the storage bytes in `[from, to)` into a fresh vector.
    fn segment_bytes(&self, from: usize, to: usize) -> (bytes: Vec<u8>)
        requires
            from <= to <= self.storage@.len(),
        ensures
            bytes@ == self.storage@.subrange(from as int, to as int),
    {
        let mut bytes: Vec<u8> = Vec::new();
        let mut i: usize = from;
        while i < to
            invariant
                from <= i <= to <= self.storage@.len(),
                bytes@ == self.storage@.subrange(from as int, i as int),
            decreases to - i,
        {
            let byte = self.storage[i];
            bytes.push(byte);
            i = i + 1;
            proof {
                assert(bytes@ =~= self.storage@.subrange(from as int, i as int));
            }
        }
        bytes
    }

    /// The logical content, copied into a fresh owned byte vector. A
    /// read-only projection: the live storage is never exposed.
    pub fn content_bytes(&self) -> (bytes: Vec<u8>)
        requires
            self.well_formed(),
        ensures
            bytes@ == self@,
    {
        let mut bytes = self.segment_bytes(0, self.gap_start);
        let mut tail_part = self.segment_bytes(self.gap_end, self.storage.len());
        bytes.append(&mut tail_part);
        bytes
    }

    /// The head segment — the occupied bytes before the gap — decoded as
    /// text. The bytes are assumed, not validated, to be well-formed UTF-8:
    /// a buffer whose gap splits a multi-byte character must not be rendered
    /// this way.
    pub fn head(&self) -> (text: String)
        requires
            self.well_formed(),
            vstd::utf8::valid_utf8(self@.subrange(0, self.gap_at())),
        ensures
            text@ == vstd::utf8::decode_utf8(self@.subrange(0, self.gap_at())),
    {
        let bytes = self.segment_bytes(0, self.gap_start);
        proof {
            assert(bytes@ =~= self@.subrange(0, self.gap_at()));
        }
        string_from_utf8(bytes)
    }

    /// The tail segment — the occupied bytes after the gap — decoded as
    /// text, under the same UTF-8 assumption as `head`.
    pub fn tail(&self) -> (text: String)
        requires
            self.well_formed(),
            vstd::utf8::valid_utf8(self@.subrange(self.gap_at(), self@.len() as int)),
        ensures
            text@ == vstd::utf8::decode_utf8(self@.subrange(self.gap_at(), self@.len() as int)),
    {
        let bytes = self.segment_bytes(self.gap_end, self.storage.len());
        proof {
            assert(bytes@ =~= self@.subrange(self.gap_at(), self@.len() as int));
        }
        string_from_utf8(bytes)
    }

    /// The whole logical content decoded as text, copied into a fresh owned
    /// string. The bytes are assumed, not validated, to be well-formed UTF-8.
    pub fn to_string(&self) -> (text: String)
        requires
            self.well_formed(),
            vstd::utf8::valid_utf8(self@),
        ensures
            text@ == vstd::utf8::decode_utf8(self@),
            vstd::utf8::encode_utf8(text@) == self@,
    {
        let bytes = self.content_bytes();
        let text = string_from_utf8(bytes);
        proof {
            vstd::utf8::decode_utf8_encode_utf8(self@);
        }
        text
    }
}

/// Relies on `String::from_utf8`: on input that is a valid UTF-8 encoding it
/// returns the string of exactly the characters those bytes encode.
#[verifier::external_body]
fn string_from_utf8(bytes: Vec<u8>) -> (text: String)
    requires
        vstd::utf8::valid_utf8(bytes@),
    ensures
        text@ == vstd::utf8::decode_utf8(bytes@),
{
    match String::from_utf8(bytes) {
        Ok(text) => text,
        Err(_) => String::new(),
    }
}

} // verus!
