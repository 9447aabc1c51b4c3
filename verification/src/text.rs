use vstd::prelude::*;
use vstd::utf8::*;
use crate::capability::{Equality, Hashing, Order, Ordered};
use crate::error::CollectionError;
use crate::growth::next_capacity_spec;
use crate::sequence::{
    ids_of,
    lemma_lex_asymmetric,
    lemma_lex_transitive,
    lex_precedes,
    Sequence,
};
use crate::utf8::{
    append_chars,
    count_scalars,
    decode_at,
    encode_into,
    first_invalid,
    last_scalar_start,
    lemma_boundary_splits,
    lemma_boundary_within,
    lemma_decode_concat,
    lemma_encode_scalar_valid,
    lemma_first_scalar_valid,
    lemma_prefix_step,
    lemma_splice_valid,
    lemma_valid_tail_steps,
    on_boundary,
    scalar_width,
    tail_from,
    width_at,
};
use core::ops::Range;

verus! {

/// A growable text buffer whose bytes are well-formed UTF-8 between any
/// two calls. Offsets count bytes; an offset is usable only where it
/// falls between two characters.
pub struct TextBuffer {
    bytes: Sequence<u8>,
}

impl View for TextBuffer {
    type V = Seq<u8>;

    closed spec fn view(&self) -> Seq<u8> {
        self.bytes@
    }
}

/// The encoding of U+FFFD, the mark that stands in for bytes that are not
/// text.
pub open spec fn replacement() -> Seq<u8> {
    seq![0xefu8, 0xbfu8, 0xbdu8]
}

/// `bytes` with every run of bytes at which no well-formed character
/// starts replaced by one replacement mark. `in_run` says that the byte
/// before `bytes` already belongs to such a run.
pub open spec fn lossy(bytes: Seq<u8>, in_run: bool) -> Seq<u8>
    decreases bytes.len(),
{
    if bytes.len() == 0 {
        Seq::empty()
    } else if valid_first_scalar(bytes) {
        take_first_scalar(bytes) + lossy(pop_first_scalar(bytes), false)
    } else if in_run {
        lossy(bytes.drop_first(), true)
    } else {
        replacement() + lossy(bytes.drop_first(), true)
    }
}

/// The replacement mark is the encoding of U+FFFD.
pub proof fn lemma_replacement_valid()
    ensures
        valid_utf8(replacement()),
        replacement() == encode_scalar(0xfffd),
{
    assert(0xe0u8 | ((0xfffdu32 >> 12) & 0x0f) as u8 == 0xef) by (bit_vector);
    assert(0x80u8 | ((0xfffdu32 >> 6) & 0x3f) as u8 == 0xbf) by (bit_vector);
    assert(0x80u8 | (0xfffdu32 & 0x3f) as u8 == 0xbd) by (bit_vector);
    assert(replacement() =~= encode_scalar(0xfffd));
    lemma_encode_scalar_valid('\u{fffd}');
}

/// Appends the bytes of `src` between `start` and `end` to `out`.
fn copy_range(src: &[u8], start: usize, end: usize, out: &mut Vec<u8>)
    requires
        start <= end <= src@.len(),
    ensures
        final(out)@ == old(out)@ + src@.subrange(start as int, end as int),
{
    let mut k: usize = start;
    assert(src@.subrange(start as int, start as int) =~= Seq::<u8>::empty());
    assert(out@ =~= old(out)@ + Seq::<u8>::empty());
    while k < end
        invariant
            start <= k <= end <= src@.len(),
            out@ == old(out)@ + src@.subrange(start as int, k as int),
        decreases end - k,
    {
        out.push(src[k]);
        assert(src@.subrange(start as int, k as int + 1) =~= src@.subrange(
            start as int,
            k as int,
        ).push(src@[k as int]));
        k = k + 1;
        assert(out@ =~= old(out)@ + src@.subrange(start as int, k as int));
    }
}

impl TextBuffer {
    /// Number of bytes the buffer has storage for.
    pub closed spec fn spec_capacity(&self) -> nat {
        self.bytes.spec_capacity()
    }

    /// The standing invariant: the bytes are UTF-8 and fit the capacity.
    pub open spec fn wf(&self) -> bool {
        &&& valid_utf8(self@)
        &&& self@.len() <= self.spec_capacity() <= usize::MAX
    }

    /// The characters that the bytes encode.
    pub open spec fn chars(&self) -> Seq<char> {
        decode_utf8(self@)
    }

    /// An empty buffer that has allocated nothing.
    pub fn new() -> (t: Self)
        ensures
            t.wf(),
            t@ == Seq::<u8>::empty(),
            t.spec_capacity() == 0,
    {
        TextBuffer { bytes: Sequence::new() }
    }

    /// An empty buffer with room for `capacity` bytes.
    pub fn with_capacity(capacity: usize) -> (t: Self)
        ensures
            t.wf(),
            t@ == Seq::<u8>::empty(),
            t.spec_capacity() == capacity,
    {
        TextBuffer { bytes: Sequence::with_capacity(capacity) }
    }

    /// A buffer that holds the text of `text`.
    pub fn from_str(text: &str) -> (t: Self)
        ensures
            t.wf(),
            t@ == encode_utf8(text@),
            t.chars() == text@,
            t.spec_capacity() == t@.len(),
    {
        let src = text.as_bytes();
        let mut copy: Vec<u8> = Vec::new();
        copy_range(src, 0, src.len(), &mut copy);
        proof {
            assert(src@.subrange(0, src@.len() as int) =~= src@);
            assert(copy@ =~= src@);
            encode_utf8_valid_utf8(text@);
            encode_utf8_decode_utf8(text@);
        }
        TextBuffer { bytes: Sequence::from_vec(copy) }
    }

    /// Takes `bytes` as text if they are UTF-8. Otherwise the error holds
    /// the offset of the first byte at which no character starts; all
    /// bytes before that offset are well-formed.
    pub fn from_bytes(bytes: Vec<u8>) -> (r: Result<TextBuffer, CollectionError>)
        ensures
            valid_utf8(bytes@) <==> r is Ok,
            r matches Ok(t) ==> t.wf() && t@ == bytes@ && t.spec_capacity() == bytes@.len(),
            r matches Err(e) ==> e matches CollectionError::Utf8ValidationError { offset }
                && offset < bytes@.len() && valid_utf8(bytes@.subrange(0, offset as int))
                && width_at(bytes@, offset as int) == 0,
    {
        match first_invalid(bytes.as_slice()) {
            None => Ok(TextBuffer { bytes: Sequence::from_vec(bytes) }),
            Some(offset) => Err(CollectionError::Utf8ValidationError { offset }),
        }
    }

    /// Takes `bytes` as text, putting one replacement mark in place of
    /// every run of bytes that are not text. Never fails; well-formed
    /// input comes out unchanged.
    pub fn from_bytes_lossy(bytes: &[u8]) -> (t: TextBuffer)
        ensures
            t.wf(),
            t@ == lossy(bytes@, false),
            valid_utf8(bytes@) ==> t@ == bytes@,
    {
        let n = bytes.len();
        let mut out: Vec<u8> = Vec::new();
        let mut i: usize = 0;
        let mut in_run = false;
        assert(tail_from(bytes@, 0) =~= bytes@);
        assert(out@ + lossy(bytes@, false) =~= lossy(bytes@, false));
        while i < n
            invariant
                n == bytes@.len(),
                i <= n,
                valid_utf8(out@),
                out@ + lossy(tail_from(bytes@, i as int), in_run) == lossy(bytes@, false),
            decreases n - i,
        {
            let ghost tail = tail_from(bytes@, i as int);
            let ghost before = out@;
            let w = scalar_width(bytes, i);
            if w > 0 {
                copy_range(bytes, i, i + w, &mut out);
                proof {
                    assert(take_first_scalar(tail) =~= bytes@.subrange(i as int, i + w));
                    assert(pop_first_scalar(tail) =~= tail_from(bytes@, i + w));
                    lemma_first_scalar_valid(tail);
                    valid_utf8_concat(before, take_first_scalar(tail));
                    assert(out@ + lossy(tail_from(bytes@, i + w), false) =~= before + lossy(
                        tail,
                        in_run,
                    ));
                }
                in_run = false;
                i = i + w;
            } else {
                if !in_run {
                    out.push(0xef);
                    out.push(0xbf);
                    out.push(0xbd);
                    proof {
                        lemma_replacement_valid();
                        assert(out@ =~= before + replacement());
                        valid_utf8_concat(before, replacement());
                    }
                }
                proof {
                    assert(tail.drop_first() =~= tail_from(bytes@, i + 1));
                    assert(out@ + lossy(tail_from(bytes@, i + 1), true) =~= before + lossy(
                        tail,
                        in_run,
                    ));
                }
                in_run = true;
                i = i + 1;
            }
        }
        proof {
            assert(tail_from(bytes@, n as int) =~= Seq::<u8>::empty());
            assert(out@ =~= lossy(bytes@, false));
            if valid_utf8(bytes@) {
                lemma_lossy_keeps_valid(bytes@, false);
            }
        }
        TextBuffer { bytes: Sequence::from_vec(out) }
    }

    /// The bytes of the text.
    pub fn as_bytes(&self) -> (bytes: &[u8])
        ensures
            bytes@ == self@,
    {
        self.bytes.as_slice()
    }

    /// Number of bytes in use.
    pub fn byte_length(&self) -> (n: usize)
        ensures
            n == self@.len(),
            self.wf() ==> n <= self.spec_capacity(),
    {
        self.bytes.len()
    }

    /// Number of bytes the buffer has storage for.
    pub fn capacity(&self) -> (n: usize)
        ensures
            n == self.spec_capacity(),
            self.wf() ==> n >= self@.len(),
    {
        self.bytes.capacity()
    }

    /// Whether nothing is stored.
    pub fn is_empty(&self) -> (b: bool)
        ensures
            b == (self@.len() == 0),
    {
        self.bytes.is_empty()
    }

    /// Number of characters, found by decoding the buffer from the
    /// start; nothing is cached.
    pub fn char_count(&self) -> (n: usize)
        requires
            self.wf(),
        ensures
            n == self.chars().len(),
            n <= self@.len(),
    {
        count_scalars(self.bytes.as_slice())
    }

    /// Whether byte offset `index` falls between two characters. The
    /// start and the end of the text do; offsets past the end do not.
    pub fn is_char_boundary(&self, index: usize) -> (b: bool)
        requires
            self.wf(),
        ensures
            b == is_char_boundary(self@, index as int),
            b ==> index <= self@.len(),
    {
        proof {
            if is_char_boundary(self@, index as int) {
                lemma_boundary_splits(self@, index as int);
            }
        }
        on_boundary(self.bytes.as_slice(), index)
    }
}

/// Text that is already well-formed has no run to replace.
pub proof fn lemma_lossy_keeps_valid(bytes: Seq<u8>, in_run: bool)
    requires
        valid_utf8(bytes),
    ensures
        lossy(bytes, in_run) == bytes,
    decreases bytes.len(),
{
    if bytes.len() > 0 {
        lemma_lossy_keeps_valid(pop_first_scalar(bytes), false);
        assert(take_first_scalar(bytes) + pop_first_scalar(bytes) =~= bytes);
    }
}


/// What an operation that needs a character boundary at `index` answers
/// with before it does anything: nothing when the offset is usable.
pub open spec fn offset_error(bytes: Seq<u8>, index: int) -> Option<CollectionError> {
    if index > bytes.len() {
        Some(CollectionError::IndexOutOfBounds)
    } else if !is_char_boundary(bytes, index) {
        Some(CollectionError::InvalidBoundary)
    } else {
        None
    }
}

/// The same for a byte range: it must lie inside the text, and both its
/// ends must fall between characters.
pub open spec fn range_error(bytes: Seq<u8>, start: int, end: int) -> Option<CollectionError> {
    if start > end || end > bytes.len() {
        Some(CollectionError::IndexOutOfBounds)
    } else if !is_char_boundary(bytes, start) || !is_char_boundary(bytes, end) {
        Some(CollectionError::InvalidBoundary)
    } else {
        None
    }
}

impl TextBuffer {
    fn check_offset(&self, index: usize) -> (r: Result<(), CollectionError>)
        requires
            self.wf(),
        ensures
            offset_error(self@, index as int) matches Some(e) ==> r == Err::<(), CollectionError>(e),
            offset_error(self@, index as int) is None ==> r is Ok && index <= self@.len(),
    {
        if index > self.bytes.len() {
            Err(CollectionError::IndexOutOfBounds)
        } else if !on_boundary(self.bytes.as_slice(), index) {
            Err(CollectionError::InvalidBoundary)
        } else {
            Ok(())
        }
    }

    fn check_range(&self, start: usize, end: usize) -> (r: Result<(), CollectionError>)
        requires
            self.wf(),
        ensures
            range_error(self@, start as int, end as int) matches Some(e) ==> r == Err::<
                (),
                CollectionError,
            >(e),
            range_error(self@, start as int, end as int) is None ==> r is Ok && start <= end
                <= self@.len(),
    {
        if start > end || end > self.bytes.len() {
            Err(CollectionError::IndexOutOfBounds)
        } else if !on_boundary(self.bytes.as_slice(), start) || !on_boundary(
            self.bytes.as_slice(),
            end,
        ) {
            Err(CollectionError::InvalidBoundary)
        } else {
            Ok(())
        }
    }

    /// Puts `piece`, which is well-formed, into the text at byte offset
    /// `index`, which is a boundary.
    fn splice_in(&mut self, index: usize, piece: Vec<u8>)
        requires
            old(self).wf(),
            valid_utf8(piece@),
            is_char_boundary(old(self)@, index as int),
            old(self)@.len() + piece@.len() <= usize::MAX,
        ensures
            final(self).wf(),
            final(self)@ == old(self)@.subrange(0, index as int) + piece@ + tail_from(
                old(self)@,
                index as int,
            ),
            final(self).spec_capacity() == next_capacity_spec(
                old(self).spec_capacity(),
                old(self)@.len() + piece@.len(),
            ),
    {
        proof {
            lemma_boundary_splits(self@, index as int);
            lemma_splice_valid(
                self@.subrange(0, index as int),
                piece@,
                tail_from(self@, index as int),
            );
        }
        self.bytes.reserve(piece.len());
        match self.bytes.split_off(index) {
            Ok(mut rest) => {
                self.bytes.extend(piece);
                self.bytes.append(&mut rest);
            },
            Err(_) => {
                assert(false);
            },
        }
    }

    /// Appends `text`.
    pub fn push_str(&mut self, text: &str)
        requires
            old(self).wf(),
            old(self)@.len() + encode_utf8(text@).len() <= usize::MAX,
        ensures
            final(self).wf(),
            final(self)@ == old(self)@ + encode_utf8(text@),
            final(self).chars() == old(self).chars() + text@,
            final(self).spec_capacity() == next_capacity_spec(
                old(self).spec_capacity(),
                old(self)@.len() + encode_utf8(text@).len(),
            ),
    {
        let src = text.as_bytes();
        let mut piece: Vec<u8> = Vec::new();
        copy_range(src, 0, src.len(), &mut piece);
        let at = self.bytes.len();
        proof {
            assert(src@.subrange(0, src@.len() as int) =~= src@);
            assert(piece@ =~= encode_utf8(text@));
            encode_utf8_valid_utf8(text@);
            encode_utf8_decode_utf8(text@);
            is_char_boundary_start_end_of_seq(self@);
            lemma_decode_concat(self@, piece@);
            assert(self@.subrange(0, at as int) + piece@ + tail_from(self@, at as int) =~= self@
                + piece@);
        }
        self.splice_in(at, piece);
    }

    /// Appends the character `c`.
    pub fn push_char(&mut self, c: char)
        requires
            old(self).wf(),
            old(self)@.len() + encode_scalar(c as u32).len() <= usize::MAX,
        ensures
            final(self).wf(),
            final(self)@ == old(self)@ + encode_scalar(c as u32),
            final(self).chars() == old(self).chars().push(c),
            final(self).spec_capacity() == next_capacity_spec(
                old(self).spec_capacity(),
                old(self)@.len() + encode_scalar(c as u32).len(),
            ),
    {
        let mut piece: Vec<u8> = Vec::new();
        encode_into(c, &mut piece);
        let at = self.bytes.len();
        proof {
            assert(piece@ =~= encode_scalar(c as u32));
            lemma_encode_scalar_valid(c);
            is_char_boundary_start_end_of_seq(self@);
            lemma_decode_concat(self@, piece@);
            assert(decode_utf8(self@) + seq![c] =~= decode_utf8(self@).push(c));
            assert(self@.subrange(0, at as int) + piece@ + tail_from(self@, at as int) =~= self@
                + piece@);
        }
        self.splice_in(at, piece);
    }

    /// Inserts `text` at byte offset `index`, which must fall between two
    /// characters.
    pub fn insert_str(&mut self, index: usize, text: &str) -> (r: Result<(), CollectionError>)
        requires
            old(self).wf(),
            offset_error(old(self)@, index as int) is None ==> old(self)@.len() + encode_utf8(
                text@,
            ).len() <= usize::MAX,
        ensures
            final(self).wf(),
            offset_error(old(self)@, index as int) matches Some(e) ==> r == Err::<
                (),
                CollectionError,
            >(e) && final(self)@ == old(self)@ && final(self).spec_capacity() == old(
                self).spec_capacity(),
            offset_error(old(self)@, index as int) is None ==> r is Ok && final(self)@ == old(
                self)@.subrange(0, index as int) + encode_utf8(text@) + tail_from(
                old(self)@,
                index as int,
            ) && final(self).spec_capacity() == next_capacity_spec(
                old(self).spec_capacity(),
                old(self)@.len() + encode_utf8(text@).len(),
            ),
    {
        match self.check_offset(index) {
            Err(e) => {
                return Err(e);
            },
            Ok(_) => {},
        }
        let src = text.as_bytes();
        let mut piece: Vec<u8> = Vec::new();
        copy_range(src, 0, src.len(), &mut piece);
        proof {
            assert(src@.subrange(0, src@.len() as int) =~= src@);
            assert(piece@ =~= encode_utf8(text@));
            encode_utf8_valid_utf8(text@);
        }
        self.splice_in(index, piece);
        Ok(())
    }

    /// Inserts the character `c` at byte offset `index`, which must fall
    /// between two characters.
    pub fn insert(&mut self, index: usize, c: char) -> (r: Result<(), CollectionError>)
        requires
            old(self).wf(),
            offset_error(old(self)@, index as int) is None ==> old(self)@.len() + encode_scalar(
                c as u32,
            ).len() <= usize::MAX,
        ensures
            final(self).wf(),
            offset_error(old(self)@, index as int) matches Some(e) ==> r == Err::<
                (),
                CollectionError,
            >(e) && final(self)@ == old(self)@ && final(self).spec_capacity() == old(
                self).spec_capacity(),
            offset_error(old(self)@, index as int) is None ==> r is Ok && final(self)@ == old(
                self)@.subrange(0, index as int) + encode_scalar(c as u32) + tail_from(
                old(self)@,
                index as int,
            ) && final(self).spec_capacity() == next_capacity_spec(
                old(self).spec_capacity(),
                old(self)@.len() + encode_scalar(c as u32).len(),
            ),
    {
        match self.check_offset(index) {
            Err(e) => {
                return Err(e);
            },
            Ok(_) => {},
        }
        let mut piece: Vec<u8> = Vec::new();
        encode_into(c, &mut piece);
        proof {
            assert(piece@ =~= encode_scalar(c as u32));
        }
        self.splice_in(index, piece);
        Ok(())
    }

    /// A copy of the text between two byte offsets, both of which must
    /// fall between characters.
    pub fn slice(&self, range: Range<usize>) -> (r: Result<TextBuffer, CollectionError>)
        requires
            self.wf(),
        ensures
            range_error(self@, range.start as int, range.end as int) matches Some(e) ==> (r
                matches Err(f) && f == e),
            range_error(self@, range.start as int, range.end as int) is None ==> (r matches Ok(t)
                && t.wf() && t@ == self@.subrange(range.start as int, range.end as int)),
    {
        let start = range.start;
        let end = range.end;
        match self.check_range(start, end) {
            Err(e) => {
                return Err(e);
            },
            Ok(_) => {},
        }
        let mut piece: Vec<u8> = Vec::new();
        copy_range(self.bytes.as_slice(), start, end, &mut piece);
        proof {
            lemma_boundary_within(self@, start as int, end as int, start as int);
            assert(piece@ =~= self@.subrange(start as int, end as int));
        }
        Ok(TextBuffer { bytes: Sequence::from_vec(piece) })
    }

    /// Removes the text between two byte offsets, both of which must fall
    /// between characters, and returns it.
    pub fn drain(&mut self, range: Range<usize>) -> (r: Result<TextBuffer, CollectionError>)
        requires
            old(self).wf(),
        ensures
            final(self).wf(),
            final(self).spec_capacity() == old(self).spec_capacity(),
            range_error(old(self)@, range.start as int, range.end as int) matches Some(e) ==> (r
                matches Err(f) && f == e) && final(self)@ == old(self)@,
            range_error(old(self)@, range.start as int, range.end as int) is None ==> (r
                matches Ok(t) && t.wf() && t@ == old(self)@.subrange(
                range.start as int,
                range.end as int,
            )) && final(self)@ == old(self)@.subrange(0, range.start as int) + tail_from(
                old(self)@,
                range.end as int,
            ),
    {
        let start = range.start;
        let end = range.end;
        match self.check_range(start, end) {
            Err(e) => {
                return Err(e);
            },
            Ok(_) => {},
        }
        proof {
            lemma_boundary_within(self@, start as int, end as int, start as int);
            lemma_boundary_splits(self@, start as int);
            lemma_boundary_splits(self@, end as int);
            valid_utf8_concat(self@.subrange(0, start as int), tail_from(self@, end as int));
        }
        match self.bytes.drain(start..end) {
            Ok(removed) => Ok(TextBuffer { bytes: removed }),
            Err(e) => {
                assert(false);
                Err(e)
            },
        }
    }

    /// Cuts the text off at byte offset `n`, which must fall between two
    /// characters. The capacity stays.
    pub fn truncate(&mut self, n: usize) -> (r: Result<(), CollectionError>)
        requires
            old(self).wf(),
        ensures
            final(self).wf(),
            final(self).spec_capacity() == old(self).spec_capacity(),
            offset_error(old(self)@, n as int) matches Some(e) ==> r == Err::<(), CollectionError>(
                e,
            ) && final(self)@ == old(self)@,
            offset_error(old(self)@, n as int) is None ==> r is Ok && final(self)@ == old(
                self)@.subrange(0, n as int),
    {
        match self.check_offset(n) {
            Err(e) => {
                return Err(e);
            },
            Ok(_) => {},
        }
        proof {
            lemma_boundary_splits(self@, n as int);
        }
        self.bytes.truncate(n);
        Ok(())
    }

    /// Removes all text. The capacity stays.
    pub fn clear(&mut self)
        requires
            old(self).wf(),
        ensures
            final(self).wf(),
            final(self).spec_capacity() == old(self).spec_capacity(),
            final(self)@ == Seq::<u8>::empty(),
    {
        self.bytes.clear();
    }

    /// Puts `text` in place of the text between two byte offsets, both of
    /// which must fall between characters.
    pub fn replace_range(&mut self, range: Range<usize>, text: &str) -> (r: Result<
        (),
        CollectionError,
    >)
        requires
            old(self).wf(),
            range_error(old(self)@, range.start as int, range.end as int) is None ==> old(
                self)@.len() - (range.end - range.start) + encode_utf8(text@).len() <= usize::MAX,
        ensures
            final(self).wf(),
            range_error(old(self)@, range.start as int, range.end as int) matches Some(e) ==> r
                == Err::<(), CollectionError>(e) && final(self)@ == old(self)@ && final(
                self).spec_capacity() == old(self).spec_capacity(),
            range_error(old(self)@, range.start as int, range.end as int) is None ==> r is Ok
                && final(self)@ == old(self)@.subrange(0, range.start as int) + encode_utf8(text@)
                + tail_from(old(self)@, range.end as int) && final(self).spec_capacity()
                == next_capacity_spec(old(self).spec_capacity(), final(self)@.len()),
    {
        let start = range.start;
        let end = range.end;
        match self.check_range(start, end) {
            Err(e) => {
                return Err(e);
            },
            Ok(_) => {},
        }
        let ghost before = self@;
        proof {
            lemma_boundary_splits(before, start as int);
            lemma_boundary_splits(before, end as int);
            valid_utf8_concat(before.subrange(0, start as int), tail_from(before, end as int));
        }
        match self.bytes.drain(start..end) {
            Ok(_) => {},
            Err(_) => {
                assert(false);
            },
        }
        let src = text.as_bytes();
        let mut piece: Vec<u8> = Vec::new();
        copy_range(src, 0, src.len(), &mut piece);
        proof {
            assert(src@.subrange(0, src@.len() as int) =~= src@);
            assert(piece@ =~= encode_utf8(text@));
            encode_utf8_valid_utf8(text@);
            let head = before.subrange(0, start as int);
            let rest = tail_from(before, end as int);
            assert(self@ =~= head + rest);
            assert(self@.subrange(0, start as int) =~= head);
            assert(tail_from(self@, start as int) =~= rest);
            is_char_boundary_start_end_of_seq(head);
            if start as int == self@.len() {
                is_char_boundary_start_end_of_seq(self@);
            } else if start > 0 {
                is_char_boundary_iff_not_is_continuation_byte(before, end as int);
                is_char_boundary_iff_not_is_continuation_byte(self@, start as int);
            }
        }
        self.splice_in(start, piece);
        Ok(())
    }

    /// Removes the one character that starts at byte offset `index` and
    /// returns it.
    pub fn remove(&mut self, index: usize) -> (r: Result<char, CollectionError>)
        requires
            old(self).wf(),
        ensures
            final(self).wf(),
            final(self).spec_capacity() == old(self).spec_capacity(),
            index >= old(self)@.len() ==> r == Err::<char, CollectionError>(
                CollectionError::IndexOutOfBounds,
            ) && final(self)@ == old(self)@,
            index < old(self)@.len() && !is_char_boundary(old(self)@, index as int) ==> r == Err::<
                char,
                CollectionError,
            >(CollectionError::InvalidBoundary) && final(self)@ == old(self)@,
            index < old(self)@.len() && is_char_boundary(old(self)@, index as int) ==> r == Ok::<
                char,
                CollectionError,
            >(decode_first_scalar(tail_from(old(self)@, index as int)) as char) && final(self)@
                == old(self)@.subrange(0, index as int) + tail_from(
                old(self)@,
                index + width_at(old(self)@, index as int),
            ),
    {
        if index >= self.bytes.len() {
            return Err(CollectionError::IndexOutOfBounds);
        }
        if !on_boundary(self.bytes.as_slice(), index) {
            return Err(CollectionError::InvalidBoundary);
        }
        proof {
            lemma_boundary_splits(self@, index as int);
            lemma_valid_tail_steps(self@, index as int);
            valid_utf8_concat(
                self@.subrange(0, index as int),
                tail_from(self@, index + width_at(self@, index as int)),
            );
        }
        let w = scalar_width(self.bytes.as_slice(), index);
        let c = decode_at(self.bytes.as_slice(), index);
        match self.bytes.drain(index..index + w) {
            Ok(_) => {},
            Err(_) => {
                assert(false);
            },
        }
        Ok(c)
    }

    /// Removes the last character and returns it; `None` on empty text.
    pub fn pop(&mut self) -> (r: Option<char>)
        requires
            old(self).wf(),
        ensures
            final(self).wf(),
            final(self).spec_capacity() == old(self).spec_capacity(),
            old(self)@.len() == 0 ==> r is None && final(self)@ == old(self)@,
            old(self)@.len() > 0 ==> r == Some(old(self).chars().last()) && final(self).chars()
                == old(self).chars().drop_last() && final(self)@ + encode_scalar(
                old(self).chars().last() as u32,
            ) == old(self)@,
    {
        let n = self.bytes.len();
        if n == 0 {
            return None;
        }
        let ghost before = self@;
        assert(before.subrange(0, n as int) =~= before);
        let start = last_scalar_start(self.bytes.as_slice(), n);
        proof {
            let c = decode_first_scalar(tail_from(before, start as int)) as char;
            let head = before.subrange(0, start as int);
            assert(decode_utf8(before).drop_last() =~= decode_utf8(head));
            assert(decode_utf8(before).last() == c);
            lemma_prefix_step(before, start as int);
            assert(tail_from(before, start as int) =~= before.subrange(start as int, n as int));
            decode_utf8_first_scalar(tail_from(before, start as int));
            assert(take_first_scalar(tail_from(before, start as int)) =~= tail_from(
                before,
                start as int,
            ));
            assert(head + tail_from(before, start as int) =~= before);
        }
        let c = decode_at(self.bytes.as_slice(), start);
        self.bytes.truncate(start);
        Some(c)
    }
}


/// Start value of the FNV-1a hash.
pub const FNV_OFFSET: u64 = 0xcbf2_9ce4_8422_2325;

/// Multiplier of the FNV-1a hash.
pub const FNV_PRIME: u64 = 0x0000_0100_0000_01b3;

/// The 64-bit FNV-1a hash of `bytes`: starting from `FNV_OFFSET`, each
/// byte in turn is mixed in by exclusive or, and the result multiplied by
/// `FNV_PRIME` modulo two to the 64.
pub open spec fn fnv1a(bytes: Seq<u8>) -> u64
    decreases bytes.len(),
{
    if bytes.len() == 0 {
        FNV_OFFSET
    } else {
        (fnv1a(bytes.drop_last()) ^ (bytes.last() as u64)).wrapping_mul(FNV_PRIME)
    }
}

/// Texts are equal when their bytes are.
impl Equality for TextBuffer {
    type Id = Seq<u8>;

    open spec fn id(&self) -> Seq<u8> {
        self@
    }

    fn equals(&self, other: &Self) -> (same: bool) {
        let a = self.bytes.as_slice();
        let b = other.bytes.as_slice();
        if a.len() != b.len() {
            return false;
        }
        let mut i: usize = 0;
        while i < a.len()
            invariant
                a@ == self@,
                b@ == other@,
                a@.len() == b@.len(),
                i <= a@.len(),
                forall|k: int| 0 <= k < i ==> a@[k] == b@[k],
            decreases a@.len() - i,
        {
            if a[i] != b[i] {
                return false;
            }
            i = i + 1;
        }
        assert(a@ =~= b@);
        true
    }
}

impl Hashing for TextBuffer {
    open spec fn hash_of(id: Seq<u8>) -> u64 {
        fnv1a(id)
    }

    fn hash(&self) -> (h: u64) {
        let bytes = self.bytes.as_slice();
        let mut h: u64 = FNV_OFFSET;
        let mut i: usize = 0;
        assert(bytes@.subrange(0, 0) =~= Seq::<u8>::empty());
        while i < bytes.len()
            invariant
                bytes@ == self@,
                i <= bytes@.len(),
                h == fnv1a(bytes@.subrange(0, i as int)),
            decreases bytes@.len() - i,
        {
            proof {
                let next = bytes@.subrange(0, i as int + 1);
                assert(next.drop_last() =~= bytes@.subrange(0, i as int));
            }
            h = (h ^ (bytes[i] as u64)).wrapping_mul(FNV_PRIME);
            i = i + 1;
        }
        assert(bytes@.subrange(0, bytes@.len() as int) =~= bytes@);
        h
    }
}

/// Whether `needle` stands in `hay` at offset `i`.
pub open spec fn occurs_at(hay: Seq<u8>, needle: Seq<u8>, i: int) -> bool {
    &&& 0 <= i
    &&& i + needle.len() <= hay.len()
    &&& hay.subrange(i, i + needle.len()) == needle
}

/// Value of a string of decimal digits.
pub open spec fn digits_value(digits: Seq<u8>) -> int
    decreases digits.len(),
{
    if digits.len() == 0 {
        0
    } else {
        10 * digits_value(digits.drop_last()) + (digits.last() - 0x30)
    }
}

/// Whether every byte is one of the digits `0` to `9`.
pub open spec fn all_digits(digits: Seq<u8>) -> bool {
    forall|i: int| 0 <= i < digits.len() ==> 0x30 <= #[trigger] digits[i] <= 0x39
}

/// The integer that `bytes` writes in decimal: an optional sign, `+` or
/// `-`, and then at least one digit and nothing else. `None` for any
/// other text.
pub open spec fn written_integer(bytes: Seq<u8>) -> Option<int> {
    let signed = bytes.len() > 0 && (bytes[0] == 0x2d || bytes[0] == 0x2b);
    let digits = if signed {
        bytes.drop_first()
    } else {
        bytes
    };
    if digits.len() == 0 || !all_digits(digits) {
        None
    } else if signed && bytes[0] == 0x2d {
        Some(-digits_value(digits))
    } else {
        Some(digits_value(digits))
    }
}

/// The integer that `bytes` writes, if it writes one that fits an `i64`.
pub open spec fn written_i64(bytes: Seq<u8>) -> Option<i64> {
    match written_integer(bytes) {
        Some(v) => if i64::MIN <= v <= i64::MAX {
            Some(v as i64)
        } else {
            None
        },
        None => None,
    }
}

/// The integer that `bytes` writes, if it writes one that fits an `i32`.
pub open spec fn written_i32(bytes: Seq<u8>) -> Option<i32> {
    match written_integer(bytes) {
        Some(v) => if i32::MIN <= v <= i32::MAX {
            Some(v as i32)
        } else {
            None
        },
        None => None,
    }
}

/// More digits never write a smaller number.
proof fn lemma_digits_grow(digits: Seq<u8>, k: int)
    requires
        all_digits(digits),
        0 <= k <= digits.len(),
    ensures
        0 <= digits_value(digits.subrange(0, k)) <= digits_value(digits),
    decreases digits.len() - k,
{
    if k == digits.len() {
        assert(digits.subrange(0, k) =~= digits);
        lemma_digits_nonnegative(digits);
    } else {
        lemma_digits_grow(digits, k + 1);
        let longer = digits.subrange(0, k + 1);
        assert(longer.drop_last() =~= digits.subrange(0, k));
        assert(longer.last() == digits[k]);
        lemma_digits_nonnegative(digits.subrange(0, k));
    }
}

proof fn lemma_digits_nonnegative(digits: Seq<u8>)
    requires
        all_digits(digits),
    ensures
        digits_value(digits) >= 0,
    decreases digits.len(),
{
    if digits.len() > 0 {
        lemma_digits_nonnegative(digits.drop_last());
    }
}

impl TextBuffer {
    /// Byte offset of the first place where `needle` stands in the text.
    /// The offset always falls between two characters.
    pub fn find(&self, needle: &TextBuffer) -> (r: Option<usize>)
        requires
            self.wf(),
            needle.wf(),
        ensures
            r matches Some(i) ==> occurs_at(self@, needle@, i as int) && is_char_boundary(
                self@,
                i as int,
            ) && forall|j: int| 0 <= j < i ==> !occurs_at(self@, needle@, j),
            r is None ==> forall|j: int| !occurs_at(self@, needle@, j),
    {
        let hay = self.bytes.as_slice();
        let pat = needle.bytes.as_slice();
        let n = hay.len();
        let m = pat.len();
        if m > n {
            return None;
        }
        let mut i: usize = 0;
        while i <= n - m
            invariant
                self.wf(),
                needle.wf(),
                hay@ == self@,
                pat@ == needle@,
                n == hay@.len(),
                m == pat@.len(),
                m <= n,
                i <= n - m + 1,
                m == 0 ==> i == 0,
                forall|j: int| 0 <= j < i ==> !occurs_at(hay@, pat@, j),
            decreases n - m + 1 - i,
        {
            let mut k: usize = 0;
            while k < m && hay[i + k] == pat[k]
                invariant
                    n == hay@.len(),
                    m == pat@.len(),
                    i + m <= n,
                    k <= m,
                    forall|x: int| 0 <= x < k ==> hay@[i + x] == pat@[x],
                decreases m - k,
            {
                k = k + 1;
            }
            if k == m {
                proof {
                    assert(hay@.subrange(i as int, i + m) =~= pat@);
                    is_char_boundary_start_end_of_seq(self@);
                    if m > 0 && i > 0 {
                        assert(hay@[i as int] == pat@[0]);
                        is_char_boundary_start_end_of_seq(needle@);
                        is_char_boundary_iff_not_is_continuation_byte(needle@, 0);
                        is_char_boundary_iff_not_is_continuation_byte(self@, i as int);
                    }
                }
                return Some(i);
            }
            proof {
                assert(hay@.subrange(i as int, i + m)[k as int] == hay@[i + k]);
            }
            i = i + 1;
        }
        None
    }

    /// Whether `needle` stands somewhere in the text.
    pub fn contains(&self, needle: &TextBuffer) -> (found: bool)
        requires
            self.wf(),
            needle.wf(),
        ensures
            found == exists|j: int| occurs_at(self@, needle@, j),
    {
        self.find(needle).is_some()
    }

    /// Whether the text begins with `prefix`.
    pub fn starts_with(&self, prefix: &TextBuffer) -> (b: bool)
        requires
            self.wf(),
            prefix.wf(),
        ensures
            b == occurs_at(self@, prefix@, 0),
    {
        let hay = self.bytes.as_slice();
        let pat = prefix.bytes.as_slice();
        if pat.len() > hay.len() {
            return false;
        }
        let mut k: usize = 0;
        while k < pat.len()
            invariant
                hay@ == self@,
                pat@ == prefix@,
                pat@.len() <= hay@.len(),
                k <= pat@.len(),
                forall|x: int| 0 <= x < k ==> hay@[x] == pat@[x],
            decreases pat@.len() - k,
        {
            if hay[k] != pat[k] {
                assert(hay@.subrange(0, pat@.len() as int)[k as int] == hay@[k as int]);
                return false;
            }
            k = k + 1;
        }
        assert(hay@.subrange(0, pat@.len() as int) =~= pat@);
        true
    }

    /// Whether the text ends with `suffix`.
    pub fn ends_with(&self, suffix: &TextBuffer) -> (b: bool)
        requires
            self.wf(),
            suffix.wf(),
        ensures
            b == occurs_at(self@, suffix@, self@.len() - suffix@.len()),
    {
        let hay = self.bytes.as_slice();
        let pat = suffix.bytes.as_slice();
        if pat.len() > hay.len() {
            return false;
        }
        let from = hay.len() - pat.len();
        let mut k: usize = 0;
        while k < pat.len()
            invariant
                hay@ == self@,
                pat@ == suffix@,
                pat@.len() <= hay@.len(),
                hay@.len() <= usize::MAX,
                from == hay@.len() - pat@.len(),
                k <= pat@.len(),
                forall|x: int| 0 <= x < k ==> hay@[from + x] == pat@[x],
            decreases pat@.len() - k,
        {
            if hay[from + k] != pat[k] {
                assert(hay@.subrange(from as int, hay@.len() as int)[k as int] == hay@[from + k]);
                return false;
            }
            k = k + 1;
        }
        assert(hay@.subrange(from as int, hay@.len() as int) =~= pat@);
        true
    }

    /// Reads the text as a decimal integer: an optional sign and then
    /// digits only. Text that is no such number, or a number that does
    /// not fit an `i64`, is a `ParseError`. The buffer is not changed.
    pub fn parse_i64(&self) -> (r: Result<i64, CollectionError>)
        ensures
            r == match written_i64(self@) {
                Some(v) => Ok::<i64, CollectionError>(v),
                None => Err::<i64, CollectionError>(CollectionError::ParseError),
            },
    {
        let bytes = self.bytes.as_slice();
        let n = bytes.len();
        if n == 0 {
            return Err(CollectionError::ParseError);
        }
        let negative = bytes[0] == 0x2d;
        let signed = negative || bytes[0] == 0x2b;
        let first: usize = if signed { 1 } else { 0 };
        let ghost digits = if signed { bytes@.drop_first() } else { bytes@ };
        assert(digits =~= bytes@.subrange(first as int, n as int));
        if first == n {
            return Err(CollectionError::ParseError);
        }
        let limit: i128 = 0x8000_0000_0000_0000;
        let mut value: i128 = 0;
        let mut i: usize = first;
        assert(digits.subrange(0, 0) =~= Seq::<u8>::empty());
        while i < n
            invariant
                bytes@ == self@,
                n == bytes@.len(),
                first <= i <= n,
                first < n,
                limit == 0x8000_0000_0000_0000,
                negative == (bytes@[0] == 0x2d),
                signed == (bytes@[0] == 0x2d || bytes@[0] == 0x2b),
                digits == if signed {
                    bytes@.drop_first()
                } else {
                    bytes@
                },
                digits.len() == n - first,
                forall|k: int| 0 <= k < digits.len() ==> digits[k] == bytes@[first + k],
                all_digits(digits.subrange(0, i - first)),
                value == digits_value(digits.subrange(0, i - first)),
                0 <= value <= limit,
            decreases n - i,
        {
            let b = bytes[i];
            let ghost seen = digits.subrange(0, i - first);
            let ghost more = digits.subrange(0, i - first + 1);
            assert(digits[i - first] == b);
            assert(more.drop_last() =~= seen);
            assert(more.last() == b);
            if b < 0x30 || b > 0x39 {
                assert(!(0x30 <= digits[i - first] <= 0x39));
                return Err(CollectionError::ParseError);
            }
            assert(all_digits(more)) by {
                assert forall|k: int| 0 <= k < more.len() implies 0x30 <= #[trigger] more[k]
                    <= 0x39 by {
                    if k < more.len() - 1 {
                        assert(more[k] == seen[k]);
                    }
                }
            }
            value = value * 10 + (b - 0x30) as i128;
            assert(value == digits_value(more));
            if value > limit {
                proof {
                    if all_digits(digits) {
                        lemma_digits_grow(digits, i - first + 1);
                    }
                }
                return Err(CollectionError::ParseError);
            }
            i = i + 1;
        }
        assert(digits.subrange(0, n - first) =~= digits);
        if negative {
            Ok((-value) as i64)
        } else if value == limit {
            Err(CollectionError::ParseError)
        } else {
            Ok(value as i64)
        }
    }
}

impl TextBuffer {
    /// Reads the text as a decimal integer that fits an `i32`; see
    /// [`TextBuffer::parse_i64`] for what counts as a number.
    pub fn parse_i32(&self) -> (r: Result<i32, CollectionError>)
        ensures
            r == match written_i32(self@) {
                Some(v) => Ok::<i32, CollectionError>(v),
                None => Err::<i32, CollectionError>(CollectionError::ParseError),
            },
    {
        match self.parse_i64() {
            Ok(v) => {
                if v < -0x8000_0000 || v > 0x7fff_ffff {
                    Err(CollectionError::ParseError)
                } else {
                    Ok(v as i32)
                }
            },
            Err(e) => Err(e),
        }
    }
}

/// The upper-case form of an ASCII letter; every other byte is itself.
pub open spec fn ascii_upper(b: u8) -> u8 {
    if 0x61 <= b <= 0x7a {
        (b - 0x20) as u8
    } else {
        b
    }
}

/// The lower-case form of an ASCII letter; every other byte is itself.
pub open spec fn ascii_lower(b: u8) -> u8 {
    if 0x41 <= b <= 0x5a {
        (b + 0x20) as u8
    } else {
        b
    }
}

/// A change of bytes that turns ASCII into ASCII and leaves every other
/// byte alone keeps text well-formed: it never touches the bytes of a
/// character of more than one byte.
pub proof fn lemma_ascii_change_valid(bytes: Seq<u8>, change: spec_fn(u8) -> u8)
    requires
        valid_utf8(bytes),
        forall|b: u8| b <= 0x7f ==> #[trigger] change(b) <= 0x7f,
        forall|b: u8| b > 0x7f ==> #[trigger] change(b) == b,
    ensures
        valid_utf8(bytes.map_values(change)),
    decreases bytes.len(),
{
    let changed = bytes.map_values(change);
    if bytes.len() > 0 {
        let w = length_of_first_scalar(bytes);
        let rest = pop_first_scalar(bytes);
        lemma_ascii_change_valid(rest, change);
        assert(pop_first_scalar(changed) =~= rest.map_values(change)) by {
            assert(changed[0] == change(bytes[0]));
            assert(length_of_first_scalar(changed) == w);
        }
        assert(valid_first_scalar(changed)) by {
            assert(changed[0] == change(bytes[0]));
            if bytes[0] <= 0x7f {
                let c = changed[0];
                assert(c & 0x7f <= 0x7f) by (bit_vector);
            } else {
                assert(changed[0] == bytes[0]);
                if w >= 2 {
                    assert(changed[1] == bytes[1]);
                }
                if w >= 3 {
                    assert(changed[2] == bytes[2]);
                }
                if w >= 4 {
                    assert(changed[3] == bytes[3]);
                }
            }
        }
    }
}

impl TextBuffer {
    /// A copy in which every ASCII letter is upper case. Characters
    /// outside ASCII are kept as they are.
    pub fn to_ascii_uppercase(&self) -> (t: TextBuffer)
        requires
            self.wf(),
        ensures
            t.wf(),
            t@ == self@.map_values(|b: u8| ascii_upper(b)),
    {
        let src = self.bytes.as_slice();
        let mut out: Vec<u8> = Vec::with_capacity(src.len());
        let mut i: usize = 0;
        while i < src.len()
            invariant
                src@ == self@,
                i <= src@.len(),
                out@.len() == i,
                forall|k: int| 0 <= k < i ==> out@[k] == ascii_upper(src@[k]),
            decreases src@.len() - i,
        {
            let b = src[i];
            if 0x61 <= b && b <= 0x7a {
                out.push(b - 0x20);
            } else {
                out.push(b);
            }
            i = i + 1;
        }
        proof {
            let change = |b: u8| ascii_upper(b);
            assert(out@ =~= self@.map_values(change));
            lemma_ascii_change_valid(self@, change);
        }
        TextBuffer { bytes: Sequence::from_vec(out) }
    }

    /// A copy in which every ASCII letter is lower case. Characters
    /// outside ASCII are kept as they are.
    pub fn to_ascii_lowercase(&self) -> (t: TextBuffer)
        requires
            self.wf(),
        ensures
            t.wf(),
            t@ == self@.map_values(|b: u8| ascii_lower(b)),
    {
        let src = self.bytes.as_slice();
        let mut out: Vec<u8> = Vec::with_capacity(src.len());
        let mut i: usize = 0;
        while i < src.len()
            invariant
                src@ == self@,
                i <= src@.len(),
                out@.len() == i,
                forall|k: int| 0 <= k < i ==> out@[k] == ascii_lower(src@[k]),
            decreases src@.len() - i,
        {
            let b = src[i];
            if 0x41 <= b && b <= 0x5a {
                out.push(b + 0x20);
            } else {
                out.push(b);
            }
            i = i + 1;
        }
        proof {
            let change = |b: u8| ascii_lower(b);
            assert(out@ =~= self@.map_values(change));
            lemma_ascii_change_valid(self@, change);
        }
        TextBuffer { bytes: Sequence::from_vec(out) }
    }
}


impl Clone for TextBuffer {
    /// A copy with the same text and the same capacity.
    fn clone(&self) -> (copy: Self)
        ensures
            copy@ == self@,
            copy.spec_capacity() == self.spec_capacity(),
            self.wf() ==> copy.wf(),
    {
        let copy = TextBuffer { bytes: self.bytes.clone() };
        assert(copy@ =~= self@);
        copy
    }
}

/// Texts are ordered byte by byte from the front, which is the order of
/// their characters' code points; a proper prefix is the smaller one.
impl Ordered for TextBuffer {
    open spec fn precedes(a: Seq<u8>, b: Seq<u8>) -> bool {
        lex_precedes::<u8>(a, b)
    }

    proof fn lemma_precedes_asymmetric(a: Seq<u8>, b: Seq<u8>) {
        lemma_lex_asymmetric::<u8>(a, b);
    }

    proof fn lemma_precedes_transitive(a: Seq<u8>, b: Seq<u8>, c: Seq<u8>) {
        lemma_lex_transitive::<u8>(a, b, c);
    }

    proof fn lemma_precedes_total(a: Seq<u8>, b: Seq<u8>) {
        Sequence::<u8>::lemma_precedes_total(a, b);
    }

    fn compare(&self, other: &Self) -> (o: Order) {
        assert(ids_of(self.bytes@) =~= self@);
        assert(ids_of(other.bytes@) =~= other@);
        self.bytes.compare(&other.bytes)
    }
}

/// Whether `c` is white space: the characters with the Unicode property
/// `White_Space`.
pub open spec fn is_space(c: char) -> bool {
    let v = c as u32;
    ||| 0x09 <= v <= 0x0d
    ||| v == 0x20
    ||| v == 0x85
    ||| v == 0xa0
    ||| v == 0x1680
    ||| 0x2000 <= v <= 0x200a
    ||| v == 0x2028
    ||| v == 0x2029
    ||| v == 0x202f
    ||| v == 0x205f
    ||| v == 0x3000
}

fn is_space_char(c: char) -> (b: bool)
    ensures
        b == is_space(c),
{
    let v: u32 = c as u32;
    (0x09 <= v && v <= 0x0d) || v == 0x20 || v == 0x85 || v == 0xa0 || v == 0x1680 || (0x2000 <= v
        && v <= 0x200a) || v == 0x2028 || v == 0x2029 || v == 0x202f || v == 0x205f || v == 0x3000
}

/// `chars` without the white space it starts with.
pub open spec fn trim_start_of(chars: Seq<char>) -> Seq<char>
    decreases chars.len(),
{
    if chars.len() > 0 && is_space(chars[0]) {
        trim_start_of(chars.drop_first())
    } else {
        chars
    }
}

/// `chars` without the white space it ends with.
pub open spec fn trim_end_of(chars: Seq<char>) -> Seq<char>
    decreases chars.len(),
{
    if chars.len() > 0 && is_space(chars.last()) {
        trim_end_of(chars.drop_last())
    } else {
        chars
    }
}

/// The pieces of `chars` between the occurrences of `delimiter`. There
/// is always one piece more than there are delimiters, so text that ends
/// with a delimiter has an empty last piece, and empty text is one empty
/// piece.
pub open spec fn split_of(chars: Seq<char>, delimiter: char) -> Seq<Seq<char>>
    decreases chars.len(),
{
    if chars.len() == 0 {
        seq![Seq::<char>::empty()]
    } else {
        let pieces = split_of(chars.drop_last(), delimiter);
        if chars.last() == delimiter {
            pieces.push(Seq::<char>::empty())
        } else {
            pieces.update(pieces.len() - 1, pieces.last().push(chars.last()))
        }
    }
}

impl TextBuffer {
    /// Offset of the first character that is not white space, or the
    /// length of the text when there is none.
    fn leading_space(&self) -> (i: usize)
        requires
            self.wf(),
        ensures
            i <= self@.len(),
            is_char_boundary(self@, i as int),
            valid_utf8(tail_from(self@, i as int)),
            decode_utf8(tail_from(self@, i as int)) == trim_start_of(self.chars()),
    {
        let bytes = self.bytes.as_slice();
        let n = bytes.len();
        let mut i: usize = 0;
        proof {
            assert(tail_from(bytes@, 0) =~= bytes@);
            is_char_boundary_start_end_of_seq(bytes@);
        }
        while i < n
            invariant
                bytes@ == self@,
                n == bytes@.len(),
                i <= n,
                valid_utf8(bytes@),
                is_char_boundary(bytes@, i as int),
                valid_utf8(tail_from(bytes@, i as int)),
                trim_start_of(decode_utf8(tail_from(bytes@, i as int))) == trim_start_of(
                    decode_utf8(bytes@),
                ),
            ensures
                i <= n,
                is_char_boundary(bytes@, i as int),
                valid_utf8(tail_from(bytes@, i as int)),
                decode_utf8(tail_from(bytes@, i as int)) == trim_start_of(decode_utf8(bytes@)),
            decreases n - i,
        {
            let ghost tail = tail_from(bytes@, i as int);
            proof {
                lemma_valid_tail_steps(bytes@, i as int);
            }
            let w = scalar_width(bytes, i);
            let c = decode_at(bytes, i);
            proof {
                assert(pop_first_scalar(tail) =~= tail_from(bytes@, i + w));
                assert(decode_utf8(tail).drop_first() =~= decode_utf8(tail_from(bytes@, i + w)));
                assert(decode_utf8(tail)[0] == c);
            }
            if !is_space_char(c) {
                break ;
            }
            proof {
                is_char_boundary_start_end_of_seq(bytes@);
                if i + w < n {
                    let next = tail_from(bytes@, i + w);
                    assert(valid_first_scalar(next));
                    assert(next[0] == bytes@[i + w]);
                    is_char_boundary_iff_not_is_continuation_byte(bytes@, i + w);
                }
            }
            i = i + w;
        }
        proof {
            if i == n {
                assert(tail_from(bytes@, n as int) =~= Seq::<u8>::empty());
            }
        }
        i
    }

    /// Offset just past the last character that is not white space, or
    /// zero when there is none.
    fn trailing_space(&self) -> (end: usize)
        requires
            self.wf(),
        ensures
            end <= self@.len(),
            is_char_boundary(self@, end as int),
            valid_utf8(self@.subrange(0, end as int)),
            decode_utf8(self@.subrange(0, end as int)) == trim_end_of(self.chars()),
    {
        let bytes = self.bytes.as_slice();
        let n = bytes.len();
        let mut end: usize = n;
        proof {
            assert(bytes@.subrange(0, n as int) =~= bytes@);
            is_char_boundary_start_end_of_seq(bytes@);
        }
        while end > 0
            invariant
                bytes@ == self@,
                n == bytes@.len(),
                end <= n,
                valid_utf8(bytes@),
                is_char_boundary(bytes@, end as int),
                valid_utf8(bytes@.subrange(0, end as int)),
                trim_end_of(decode_utf8(bytes@.subrange(0, end as int))) == trim_end_of(
                    decode_utf8(bytes@),
                ),
            ensures
                end <= n,
                is_char_boundary(bytes@, end as int),
                valid_utf8(bytes@.subrange(0, end as int)),
                decode_utf8(bytes@.subrange(0, end as int)) == trim_end_of(decode_utf8(bytes@)),
            decreases end,
        {
            let start = last_scalar_start(bytes, end);
            proof {
                let head = decode_utf8(bytes@.subrange(0, start as int));
                let all = decode_utf8(bytes@.subrange(0, end as int));
                assert(all.drop_last() =~= head);
            }
            let c = decode_at(bytes, start);
            if !is_space_char(c) {
                break ;
            }
            proof {
                is_char_boundary_start_end_of_seq(bytes@);
                if start > 0 {
                    let last = tail_from(bytes@, start as int);
                    assert(last[0] == bytes@[start as int]);
                    is_char_boundary_iff_is_leading_byte(bytes@, start as int);
                }
            }
            end = start;
        }
        proof {
            if end == 0 {
                assert(bytes@.subrange(0, 0) =~= Seq::<u8>::empty());
            }
        }
        end
    }

    /// A copy without the white space at the start.
    pub fn trim_start(&self) -> (t: TextBuffer)
        requires
            self.wf(),
        ensures
            t.wf(),
            t.chars() == trim_start_of(self.chars()),
            t@ == tail_from(self@, self@.len() - t@.len()),
    {
        let from = self.leading_space();
        let mut piece: Vec<u8> = Vec::new();
        copy_range(self.bytes.as_slice(), from, self.bytes.len(), &mut piece);
        assert(piece@ =~= tail_from(self@, from as int));
        TextBuffer { bytes: Sequence::from_vec(piece) }
    }

    /// A copy without the white space at the end.
    pub fn trim_end(&self) -> (t: TextBuffer)
        requires
            self.wf(),
        ensures
            t.wf(),
            t.chars() == trim_end_of(self.chars()),
            t@ == self@.subrange(0, t@.len() as int),
    {
        let end = self.trailing_space();
        let mut piece: Vec<u8> = Vec::new();
        copy_range(self.bytes.as_slice(), 0, end, &mut piece);
        assert(piece@ =~= self@.subrange(0, end as int));
        TextBuffer { bytes: Sequence::from_vec(piece) }
    }

    /// A copy without the white space at either end.
    pub fn trim(&self) -> (t: TextBuffer)
        requires
            self.wf(),
        ensures
            t.wf(),
            t.chars() == trim_end_of(trim_start_of(self.chars())),
    {
        self.trim_start().trim_end()
    }

    /// The characters of the text, decoded one after another.
    pub fn to_chars(&self) -> (chars: Vec<char>)
        requires
            self.wf(),
        ensures
            chars@ == self.chars(),
    {
        let bytes = self.bytes.as_slice();
        let n = bytes.len();
        let mut out: Vec<char> = Vec::new();
        let mut i: usize = 0;
        proof {
            assert(bytes@.subrange(0, 0) =~= Seq::<u8>::empty());
            assert(tail_from(bytes@, 0) =~= bytes@);
        }
        while i < n
            invariant
                bytes@ == self@,
                n == bytes@.len(),
                i <= n,
                valid_utf8(bytes@.subrange(0, i as int)),
                valid_utf8(tail_from(bytes@, i as int)),
                out@ == decode_utf8(bytes@.subrange(0, i as int)),
            decreases n - i,
        {
            proof {
                lemma_valid_tail_steps(bytes@, i as int);
                lemma_prefix_step(bytes@, i as int);
            }
            let w = scalar_width(bytes, i);
            out.push(decode_at(bytes, i));
            i = i + w;
        }
        assert(bytes@.subrange(0, n as int) =~= bytes@);
        out
    }

    /// Cuts the text at every occurrence of `delimiter` and returns the
    /// pieces in order, without the delimiters.
    pub fn split(&self, delimiter: char) -> (pieces: Sequence<TextBuffer>)
        requires
            self.wf(),
        ensures
            pieces.wf(),
            pieces@.len() == split_of(self.chars(), delimiter).len(),
            forall|k: int|
                0 <= k < pieces@.len() ==> (#[trigger] pieces@[k]).wf() && pieces@[k].chars()
                    == split_of(self.chars(), delimiter)[k],
    {
        let bytes = self.bytes.as_slice();
        let n = bytes.len();
        let mut done: Vec<TextBuffer> = Vec::new();
        let mut current: Vec<u8> = Vec::new();
        let mut i: usize = 0;
        proof {
            assert(bytes@.subrange(0, 0) =~= Seq::<u8>::empty());
            assert(tail_from(bytes@, 0) =~= bytes@);
        }
        while i < n
            invariant
                bytes@ == self@,
                n == bytes@.len(),
                i <= n,
                valid_utf8(bytes@.subrange(0, i as int)),
                valid_utf8(tail_from(bytes@, i as int)),
                valid_utf8(current@),
                split_of(decode_utf8(bytes@.subrange(0, i as int)), delimiter).len() == done@.len()
                    + 1,
                split_of(decode_utf8(bytes@.subrange(0, i as int)), delimiter).last()
                    == decode_utf8(current@),
                forall|k: int|
                    0 <= k < done@.len() ==> (#[trigger] done@[k]).wf() && done@[k].chars()
                        == split_of(decode_utf8(bytes@.subrange(0, i as int)), delimiter)[k],
            decreases n - i,
        {
            let ghost seen = decode_utf8(bytes@.subrange(0, i as int));
            let ghost held = current@;
            proof {
                lemma_valid_tail_steps(bytes@, i as int);
                lemma_prefix_step(bytes@, i as int);
            }
            let w = scalar_width(bytes, i);
            let c = decode_at(bytes, i);
            proof {
                assert(seen.push(c).drop_last() =~= seen);
            }
            if c == delimiter {
                let mut piece: Vec<u8> = Vec::new();
                core::mem::swap(&mut piece, &mut current);
                done.push(TextBuffer { bytes: Sequence::from_vec(piece) });
            } else {
                copy_range(bytes, i, i + w, &mut current);
                proof {
                    lemma_decode_concat(held, bytes@.subrange(i as int, i + w));
                    assert(decode_utf8(held) + seq![c] =~= decode_utf8(held).push(c));
                }
            }
            i = i + w;
        }
        proof {
            assert(bytes@.subrange(0, n as int) =~= bytes@);
        }
        done.push(TextBuffer { bytes: Sequence::from_vec(current) });
        Sequence::from_vec(done)
    }
}


/// The upper-case form of a character: what `char::to_uppercase` yields.
pub uninterp spec fn upper_of(c: char) -> Seq<char>;

/// The lower-case form of a character: what `char::to_lowercase` yields.
pub uninterp spec fn lower_of(c: char) -> Seq<char>;

/// `char::to_uppercase`, collected: the characters of the upper-case
/// mapping that Unicode gives `c`, in order. The mapping depends on the
/// character alone, not on a language or on the text around it.
#[verifier::external_body]
fn char_upper(c: char) -> (r: Vec<char>)
    ensures
        r@ == upper_of(c),
{
    c.to_uppercase().collect()
}

/// `char::to_lowercase`, collected: the characters of the lower-case
/// mapping that Unicode gives `c`, in order. The mapping depends on the
/// character alone, not on a language or on the text around it.
#[verifier::external_body]
fn char_lower(c: char) -> (r: Vec<char>)
    ensures
        r@ == lower_of(c),
{
    c.to_lowercase().collect()
}

/// The characters of `chars`, each replaced by what `form` makes of it.
pub open spec fn each_replaced(chars: Seq<char>, form: spec_fn(char) -> Seq<char>) -> Seq<char>
    decreases chars.len(),
{
    if chars.len() == 0 {
        Seq::empty()
    } else {
        each_replaced(chars.drop_last(), form) + form(chars.last())
    }
}

impl TextBuffer {
    /// A buffer that holds the given characters.
    pub fn from_chars(chars: &[char]) -> (t: TextBuffer)
        ensures
            t.wf(),
            t@ == encode_utf8(chars@),
            t.chars() == chars@,
    {
        let mut out: Vec<u8> = Vec::new();
        append_chars(chars, &mut out);
        assert(out@ =~= encode_utf8(chars@));
        TextBuffer { bytes: Sequence::from_vec(out) }
    }

    /// A buffer that holds the given runs of characters, one run after
    /// another.
    pub fn from_char_runs(runs: &Vec<Vec<char>>) -> (t: TextBuffer)
        ensures
            t.wf(),
            t.chars() == runs@.map_values(|r: Vec<char>| r@).flatten(),
    {
        let ghost lists = runs@.map_values(|r: Vec<char>| r@);
        let mut out: Vec<u8> = Vec::new();
        let mut k: usize = 0;
        proof {
            assert(lists.subrange(0, 0) =~= Seq::<Seq<char>>::empty());
        }
        while k < runs.len()
            invariant
                k <= runs@.len(),
                lists == runs@.map_values(|r: Vec<char>| r@),
                valid_utf8(out@),
                decode_utf8(out@) == lists.subrange(0, k as int).flatten(),
            decreases runs@.len() - k,
        {
            let ghost before = out@;
            append_chars(runs[k].as_slice(), &mut out);
            proof {
                let piece = runs@[k as int]@;
                lemma_decode_concat(before, encode_utf8(piece));
                assert(lists[k as int] == piece);
                assert(lists.subrange(0, k as int + 1) =~= lists.subrange(0, k as int).push(piece));
                lists.subrange(0, k as int).lemma_flatten_push(piece);
            }
            k = k + 1;
        }
        assert(lists.subrange(0, lists.len() as int) =~= lists);
        TextBuffer { bytes: Sequence::from_vec(out) }
    }

    /// A copy in upper case: every character is replaced by its
    /// upper-case form, whatever script it belongs to.
    pub fn to_uppercase(&self) -> (t: TextBuffer)
        requires
            self.wf(),
        ensures
            t.wf(),
            t.chars() == each_replaced(self.chars(), |c: char| upper_of(c)),
    {
        let chars = self.to_chars();
        let ghost form = |c: char| upper_of(c);
        let mut forms: Vec<Vec<char>> = Vec::new();
        let mut k: usize = 0;
        while k < chars.len()
            invariant
                k <= chars@.len(),
                forms@.len() == k,
                form == |c: char| upper_of(c),
                forall|j: int| 0 <= j < k ==> (#[trigger] forms@[j])@ == upper_of(chars@[j]),
            decreases chars@.len() - k,
        {
            forms.push(char_upper(chars[k]));
            k = k + 1;
        }
        proof {
            lemma_each_replaced(chars@, form, forms@.map_values(|r: Vec<char>| r@));
        }
        TextBuffer::from_char_runs(&forms)
    }

    /// A copy in lower case: every character is replaced by its
    /// lower-case form, whatever script it belongs to.
    pub fn to_lowercase(&self) -> (t: TextBuffer)
        requires
            self.wf(),
        ensures
            t.wf(),
            t.chars() == each_replaced(self.chars(), |c: char| lower_of(c)),
    {
        let chars = self.to_chars();
        let ghost form = |c: char| lower_of(c);
        let mut forms: Vec<Vec<char>> = Vec::new();
        let mut k: usize = 0;
        while k < chars.len()
            invariant
                k <= chars@.len(),
                forms@.len() == k,
                form == |c: char| lower_of(c),
                forall|j: int| 0 <= j < k ==> (#[trigger] forms@[j])@ == lower_of(chars@[j]),
            decreases chars@.len() - k,
        {
            forms.push(char_lower(chars[k]));
            k = k + 1;
        }
        proof {
            lemma_each_replaced(chars@, form, forms@.map_values(|r: Vec<char>| r@));
        }
        TextBuffer::from_char_runs(&forms)
    }
}

/// Replacing each character by its form and joining the forms is the same
/// thing.
pub proof fn lemma_each_replaced(
    chars: Seq<char>,
    form: spec_fn(char) -> Seq<char>,
    forms: Seq<Seq<char>>,
)
    requires
        forms.len() == chars.len(),
        forall|j: int| 0 <= j < chars.len() ==> #[trigger] forms[j] == form(chars[j]),
    ensures
        forms.flatten() == each_replaced(chars, form),
    decreases chars.len(),
{
    if chars.len() == 0 {
        assert(forms =~= Seq::<Seq<char>>::empty());
    } else {
        let rest = forms.drop_last();
        lemma_each_replaced(chars.drop_last(), form, rest);
        assert(forms =~= rest.push(forms.last()));
        rest.lemma_flatten_push(forms.last());
    }
}

} // verus!
