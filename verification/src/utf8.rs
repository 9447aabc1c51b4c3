use vstd::prelude::*;
use vstd::utf8::*;

verus! {

/// The bytes of `bytes` from offset `i` to the end.
pub open spec fn tail_from(bytes: Seq<u8>, i: int) -> Seq<u8> {
    bytes.subrange(i, bytes.len() as int)
}

/// Width in bytes of the character that starts at `i`, or zero when no
/// well-formed character starts there.
pub open spec fn width_at(bytes: Seq<u8>, i: int) -> int {
    if valid_first_scalar(tail_from(bytes, i)) {
        length_of_first_scalar(tail_from(bytes, i))
    } else {
        0
    }
}

fn is_continuation(b: u8) -> (r: bool)
    ensures
        r == is_continuation_byte(b),
{
    0x80 <= b && b <= 0xbf
}

/// Measures the character that starts at offset `i`: its width in bytes,
/// or zero when the bytes there are not a well-formed character (a stray
/// continuation byte, a sequence cut short, an overlong form, a
/// surrogate, or a value past the last code point).
pub fn scalar_width(bytes: &[u8], i: usize) -> (w: usize)
    requires
        i < bytes@.len(),
    ensures
        w == width_at(bytes@, i as int),
        w <= 4,
        i + w <= bytes@.len(),
{
    let n = bytes.len();
    let ghost tail = tail_from(bytes@, i as int);
    let b0 = bytes[i];
    assert(tail[0] == b0);
    if b0 <= 0x7f {
        assert(b0 & 0x7f <= 0x7f) by (bit_vector);
        1
    } else if 0xc0 <= b0 && b0 <= 0xdf {
        if n - i < 2 {
            return 0;
        }
        let b1 = bytes[i + 1];
        assert(tail[1] == b1);
        if !is_continuation(b1) {
            return 0;
        }
        let cp: u32 = (((b0 & 0x1f) as u32) << 6) | ((b1 & 0x3f) as u32);
        assert((((b0 & 0x1f) as u32) << 6) | ((b1 & 0x3f) as u32) <= 0x7ff) by (bit_vector);
        if cp >= 0x80 {
            2
        } else {
            0
        }
    } else if 0xe0 <= b0 && b0 <= 0xef {
        if n - i < 3 {
            return 0;
        }
        let b1 = bytes[i + 1];
        let b2 = bytes[i + 2];
        assert(tail[1] == b1 && tail[2] == b2);
        if !is_continuation(b1) || !is_continuation(b2) {
            return 0;
        }
        let cp: u32 = (((b0 & 0x0f) as u32) << 12) | (((b1 & 0x3f) as u32) << 6) | ((b2
            & 0x3f) as u32);
        if cp >= 0x800 && !(0xd800 <= cp && cp <= 0xdfff) {
            3
        } else {
            0
        }
    } else if 0xf0 <= b0 && b0 <= 0xf7 {
        if n - i < 4 {
            return 0;
        }
        let b1 = bytes[i + 1];
        let b2 = bytes[i + 2];
        let b3 = bytes[i + 3];
        assert(tail[1] == b1 && tail[2] == b2 && tail[3] == b3);
        if !is_continuation(b1) || !is_continuation(b2) || !is_continuation(b3) {
            return 0;
        }
        let cp: u32 = (((b0 & 0x07) as u32) << 18) | (((b1 & 0x3f) as u32) << 12) | (((b2
            & 0x3f) as u32) << 6) | ((b3 & 0x3f) as u32);
        if 0x10000 <= cp && cp <= 0x10ffff {
            4
        } else {
            0
        }
    } else {
        0
    }
}


/// In well-formed text a character starts at every offset where the rest
/// of the text begins, and what follows that character is well-formed too.
pub proof fn lemma_valid_tail_steps(bytes: Seq<u8>, i: int)
    requires
        0 <= i < bytes.len(),
        valid_utf8(tail_from(bytes, i)),
    ensures
        1 <= width_at(bytes, i) <= 4,
        i + width_at(bytes, i) <= bytes.len(),
        valid_utf8(tail_from(bytes, i + width_at(bytes, i))),
{
    let tail = tail_from(bytes, i);
    let w = length_of_first_scalar(tail);
    assert(pop_first_scalar(tail) =~= tail_from(bytes, i + w));
}

/// Where the rest of the text is ill-formed, so is the whole text, as
/// long as the rest starts right after a well-formed part.
proof fn lemma_invalid_tail(bytes: Seq<u8>, i: int)
    requires
        0 <= i < bytes.len(),
        valid_utf8(bytes.subrange(0, i)),
        !valid_first_scalar(tail_from(bytes, i)),
    ensures
        !valid_utf8(bytes),
{
    partial_valid_partial_invalid_utf8(bytes, i);
}

/// Checks that `bytes` is UTF-8. `None` says it is; `Some(offset)` gives
/// the offset of the first byte at which no well-formed character
/// starts, everything before it being well-formed.
pub fn first_invalid(bytes: &[u8]) -> (r: Option<usize>)
    ensures
        r is None <==> valid_utf8(bytes@),
        r matches Some(offset) ==> offset < bytes@.len() && valid_utf8(
            bytes@.subrange(0, offset as int),
        ) && width_at(bytes@, offset as int) == 0,
{
    let n = bytes.len();
    let mut i: usize = 0;
    assert(bytes@.subrange(0, 0) =~= Seq::<u8>::empty());
    while i < n
        invariant
            n == bytes@.len(),
            i <= n,
            valid_utf8(bytes@.subrange(0, i as int)),
        decreases n - i,
    {
        let w = scalar_width(bytes, i);
        if w == 0 {
            proof {
                lemma_invalid_tail(bytes@, i as int);
            }
            return Some(i);
        }
        proof {
            assert(partial_valid_utf8(bytes@, i as int));
            partial_valid_utf8_extend(bytes@, i as int);
        }
        i = i + w;
    }
    assert(bytes@.subrange(0, n as int) =~= bytes@);
    None
}

/// Whether `index` lies between two characters of well-formed text: at
/// the start, at the end, or on a byte that begins a character.
pub fn on_boundary(bytes: &[u8], index: usize) -> (b: bool)
    requires
        valid_utf8(bytes@),
    ensures
        b == is_char_boundary(bytes@, index as int),
{
    proof {
        is_char_boundary_start_end_of_seq(bytes@);
    }
    if index == 0 || index == bytes.len() {
        true
    } else if index > bytes.len() {
        assert(!is_char_boundary(bytes@, index as int));
        false
    } else {
        proof {
            is_char_boundary_iff_not_is_continuation_byte(bytes@, index as int);
        }
        !is_continuation(bytes[index])
    }
}

/// Splitting well-formed text at a character boundary leaves two
/// well-formed parts, and a character starts at the boundary unless the
/// text ends there.
pub proof fn lemma_boundary_splits(bytes: Seq<u8>, index: int)
    requires
        valid_utf8(bytes),
        is_char_boundary(bytes, index),
    ensures
        0 <= index <= bytes.len(),
        valid_utf8(bytes.subrange(0, index)),
        valid_utf8(tail_from(bytes, index)),
{
    valid_utf8_split(bytes, index);
    if index != 0 {
        assert(0 <= index <= bytes.len());
    }
}

/// Boundaries of a text that lie inside a part cut at boundaries are
/// boundaries of that part.
pub proof fn lemma_boundary_within(bytes: Seq<u8>, start: int, end: int, index: int)
    requires
        valid_utf8(bytes),
        is_char_boundary(bytes, start),
        is_char_boundary(bytes, end),
        is_char_boundary(bytes, index),
        start <= index <= end,
    ensures
        valid_utf8(bytes.subrange(start, end)),
        is_char_boundary(bytes.subrange(start, end), index - start),
{
    lemma_boundary_splits(bytes, start);
    lemma_boundary_splits(bytes, end);
    let head = bytes.subrange(0, end);
    if start > 0 && start < end {
        is_char_boundary_iff_not_is_continuation_byte(bytes, start);
        is_char_boundary_iff_not_is_continuation_byte(head, start);
    }
    is_char_boundary_start_end_of_seq(head);
    valid_utf8_split(head, start);
    let part = head.subrange(start, end);
    assert(part =~= bytes.subrange(start, end));
    is_char_boundary_start_end_of_seq(part);
    if start < index < end {
        is_char_boundary_iff_not_is_continuation_byte(bytes, index);
        is_char_boundary_iff_not_is_continuation_byte(part, index - start);
    }
}

/// Two well-formed texts joined at a boundary of the first keep every
/// boundary of the first: used when text is spliced in.
pub proof fn lemma_splice_valid(head: Seq<u8>, middle: Seq<u8>, rest: Seq<u8>)
    requires
        valid_utf8(head),
        valid_utf8(middle),
        valid_utf8(rest),
    ensures
        valid_utf8(head + middle + rest),
{
    valid_utf8_concat(head, middle);
    valid_utf8_concat(head + middle, rest);
}

/// `char::from_u32`: the character with the given scalar value, and
/// `None` exactly for the values that are not Unicode scalar values
/// (surrogates and values past U+10FFFF).
#[verifier::external_body]
fn char_from_scalar(scalar: u32) -> (c: Option<char>)
    ensures
        is_scalar(scalar) ==> c == Some(scalar as char),
        !is_scalar(scalar) ==> c is None,
{
    char::from_u32(scalar)
}

/// Decodes the character that starts at offset `i`.
pub fn decode_at(bytes: &[u8], i: usize) -> (c: char)
    requires
        i < bytes@.len(),
        width_at(bytes@, i as int) > 0,
    ensures
        c == decode_first_scalar(tail_from(bytes@, i as int)) as char,
        is_scalar(decode_first_scalar(tail_from(bytes@, i as int))),
{
    let ghost tail = tail_from(bytes@, i as int);
    let b0 = bytes[i];
    assert(tail[0] == b0);
    let scalar: u32 = if b0 <= 0x7f {
        assert(b0 & 0x7f <= 0x7f) by (bit_vector);
        (b0 & 0x7f) as u32
    } else if b0 <= 0xdf {
        let b1 = bytes[i + 1];
        assert(tail[1] == b1);
        assert((((b0 & 0x1f) as u32) << 6) | ((b1 & 0x3f) as u32) <= 0x7ff) by (bit_vector);
        (((b0 & 0x1f) as u32) << 6) | ((b1 & 0x3f) as u32)
    } else if b0 <= 0xef {
        let b1 = bytes[i + 1];
        let b2 = bytes[i + 2];
        assert(tail[1] == b1 && tail[2] == b2);
        assert((((b0 & 0x0f) as u32) << 12) | (((b1 & 0x3f) as u32) << 6) | ((b2 & 0x3f) as u32)
            <= 0xffff) by (bit_vector);
        (((b0 & 0x0f) as u32) << 12) | (((b1 & 0x3f) as u32) << 6) | ((b2 & 0x3f) as u32)
    } else {
        let b1 = bytes[i + 1];
        let b2 = bytes[i + 2];
        let b3 = bytes[i + 3];
        assert(tail[1] == b1 && tail[2] == b2 && tail[3] == b3);
        (((b0 & 0x07) as u32) << 18) | (((b1 & 0x3f) as u32) << 12) | (((b2 & 0x3f) as u32) << 6)
            | ((b3 & 0x3f) as u32)
    };
    assert(scalar == decode_first_scalar(tail));
    assert(is_scalar(scalar));
    match char_from_scalar(scalar) {
        Some(c) => c,
        None => {
            assert(false);
            '\u{fffd}'
        },
    }
}

/// Appends the UTF-8 encoding of `c` to `out`.
pub fn encode_into(c: char, out: &mut Vec<u8>)
    ensures
        final(out)@ == old(out)@ + encode_scalar(c as u32),
        1 <= encode_scalar(c as u32).len() <= 4,
        valid_utf8(encode_scalar(c as u32)),
{
    let scalar: u32 = c as u32;
    let ghost before = out@;
    proof {
        char_is_scalar(c);
        lemma_encode_scalar_valid(c);
    }
    if scalar <= 0x7f {
        assert(scalar & 0x7f <= 0xff) by (bit_vector);
        out.push((scalar & 0x7f) as u8);
    } else if scalar <= 0x7ff {
        assert((scalar >> 6) & 0x1f <= 0xff) by (bit_vector);
        assert(scalar & 0x3f <= 0xff) by (bit_vector);
        out.push(0xc0u8 | (((scalar >> 6) & 0x1f) as u8));
        out.push(0x80u8 | ((scalar & 0x3f) as u8));
    } else if scalar <= 0xffff {
        assert((scalar >> 12) & 0x0f <= 0xff) by (bit_vector);
        assert((scalar >> 6) & 0x3f <= 0xff) by (bit_vector);
        assert(scalar & 0x3f <= 0xff) by (bit_vector);
        out.push(0xe0u8 | (((scalar >> 12) & 0x0f) as u8));
        out.push(0x80u8 | (((scalar >> 6) & 0x3f) as u8));
        out.push(0x80u8 | ((scalar & 0x3f) as u8));
    } else {
        assert((scalar >> 18) & 0x7 <= 0xff) by (bit_vector);
        assert((scalar >> 12) & 0x3f <= 0xff) by (bit_vector);
        assert((scalar >> 6) & 0x3f <= 0xff) by (bit_vector);
        assert(scalar & 0x3f <= 0xff) by (bit_vector);
        out.push(0xf0u8 | (((scalar >> 18) & 0x7) as u8));
        out.push(0x80u8 | (((scalar >> 12) & 0x3f) as u8));
        out.push(0x80u8 | (((scalar >> 6) & 0x3f) as u8));
        out.push(0x80u8 | ((scalar & 0x3f) as u8));
    }
    assert(out@ =~= before + encode_scalar(scalar));
}

/// The encoding of one character is well-formed text of one to four
/// bytes.
pub proof fn lemma_encode_scalar_valid(c: char)
    ensures
        valid_utf8(encode_scalar(c as u32)),
        1 <= encode_scalar(c as u32).len() <= 4,
        decode_utf8(encode_scalar(c as u32)) == seq![c],
{
    let one = seq![c];
    reveal_with_fuel(encode_utf8, 2);
    assert(one.drop_first() =~= Seq::<char>::empty());
    assert(encode_utf8(one) =~= encode_scalar(c as u32));
    encode_utf8_valid_utf8(one);
    encode_utf8_decode_utf8(one);
}

/// Counts the characters of well-formed text by walking it once.
pub fn count_scalars(bytes: &[u8]) -> (count: usize)
    requires
        valid_utf8(bytes@),
    ensures
        count == decode_utf8(bytes@).len(),
        count <= bytes@.len(),
{
    let n = bytes.len();
    let mut i: usize = 0;
    let mut count: usize = 0;
    assert(tail_from(bytes@, 0) =~= bytes@);
    while i < n
        invariant
            n == bytes@.len(),
            i <= n,
            count <= i,
            valid_utf8(bytes@),
            valid_utf8(tail_from(bytes@, i as int)),
            count + decode_utf8(tail_from(bytes@, i as int)).len() == decode_utf8(bytes@).len(),
        decreases n - i,
    {
        let w = scalar_width(bytes, i);
        proof {
            lemma_valid_tail_steps(bytes@, i as int);
            let tail = tail_from(bytes@, i as int);
            assert(pop_first_scalar(tail) =~= tail_from(bytes@, i + w));
        }
        i = i + w;
        count = count + 1;
    }
    assert(tail_from(bytes@, n as int) =~= Seq::<u8>::empty());
    count
}

/// The bytes of one well-formed character are well-formed text.
pub proof fn lemma_first_scalar_valid(bytes: Seq<u8>)
    requires
        valid_first_scalar(bytes),
    ensures
        valid_utf8(take_first_scalar(bytes)),
{
    let first = take_first_scalar(bytes);
    assert(valid_first_scalar(first));
    assert(pop_first_scalar(first) =~= Seq::<u8>::empty());
    reveal_with_fuel(valid_utf8, 2);
}

/// Decoding goes through a join of two well-formed texts.
pub proof fn lemma_decode_concat(a: Seq<u8>, b: Seq<u8>)
    requires
        valid_utf8(a),
        valid_utf8(b),
    ensures
        valid_utf8(a + b),
        decode_utf8(a + b) == decode_utf8(a) + decode_utf8(b),
    decreases a.len(),
{
    valid_utf8_concat(a, b);
    if a.len() == 0 {
        assert(a + b =~= b);
        assert(decode_utf8(a) + decode_utf8(b) =~= decode_utf8(b));
    } else {
        let rest = pop_first_scalar(a);
        lemma_decode_concat(rest, b);
        assert(pop_first_scalar(a + b) =~= rest + b);
        assert(decode_utf8(a + b) =~= decode_utf8(a) + decode_utf8(b));
    }
}

/// A character that is well-formed in a text is the same character in
/// any longer text that starts with the same bytes.
pub proof fn lemma_first_scalar_of_prefix(short: Seq<u8>, long: Seq<u8>)
    requires
        valid_first_scalar(short),
        short.len() <= long.len(),
        long.subrange(0, short.len() as int) == short,
    ensures
        valid_first_scalar(long),
        length_of_first_scalar(long) == length_of_first_scalar(short),
        decode_first_scalar(long) == decode_first_scalar(short),
{
    assert forall|k: int| 0 <= k < short.len() implies long[k] == short[k] by {
        assert(long.subrange(0, short.len() as int)[k] == long[k]);
    }
}

/// One character further: where a well-formed part of a text is
/// followed by a well-formed character, the part with that character is
/// well-formed, and decodes to what the part decodes to and then that
/// character.
pub proof fn lemma_prefix_step(bytes: Seq<u8>, i: int)
    requires
        0 <= i < bytes.len(),
        valid_utf8(bytes.subrange(0, i)),
        width_at(bytes, i) > 0,
    ensures
        i + width_at(bytes, i) <= bytes.len(),
        valid_utf8(bytes.subrange(0, i + width_at(bytes, i))),
        valid_utf8(bytes.subrange(i, i + width_at(bytes, i))),
        decode_utf8(bytes.subrange(i, i + width_at(bytes, i))) == seq![
            decode_first_scalar(tail_from(bytes, i)) as char,
        ],
        decode_utf8(bytes.subrange(0, i + width_at(bytes, i))) == decode_utf8(
            bytes.subrange(0, i),
        ).push(decode_first_scalar(tail_from(bytes, i)) as char),
{
    let tail = tail_from(bytes, i);
    let w = width_at(bytes, i);
    let one = take_first_scalar(tail);
    let c = decode_first_scalar(tail) as char;
    lemma_first_scalar_valid(tail);
    assert(one =~= bytes.subrange(i, i + w));
    assert(valid_first_scalar(one));
    assert(pop_first_scalar(one) =~= Seq::<u8>::empty());
    assert(decode_utf8(pop_first_scalar(one)) =~= Seq::<char>::empty());
    assert(decode_first_scalar(one) == decode_first_scalar(tail));
    assert(decode_utf8(one) =~= seq![c]);
    lemma_decode_concat(bytes.subrange(0, i), one);
    assert(bytes.subrange(0, i) + one =~= bytes.subrange(0, i + w));
    assert(decode_utf8(bytes.subrange(0, i)) + seq![c] =~= decode_utf8(bytes.subrange(0, i)).push(c));
}

/// Finds where the last character of the first `end` bytes starts.
pub fn last_scalar_start(bytes: &[u8], end: usize) -> (start: usize)
    requires
        0 < end <= bytes@.len(),
        valid_utf8(bytes@.subrange(0, end as int)),
    ensures
        start < end,
        valid_utf8(bytes@.subrange(0, start as int)),
        width_at(bytes@, start as int) == end - start,
        decode_utf8(bytes@.subrange(0, end as int)) == decode_utf8(
            bytes@.subrange(0, start as int),
        ).push(decode_first_scalar(tail_from(bytes@, start as int)) as char),
{
    let ghost part = bytes@.subrange(0, end as int);
    let mut start: usize = end - 1;
    proof {
        is_char_boundary_start_end_of_seq(part);
    }
    while start > 0 && is_continuation(bytes[start])
        invariant
            start < end <= bytes@.len(),
            part == bytes@.subrange(0, end as int),
            valid_utf8(part),
            forall|k: int| start < k < end ==> is_continuation_byte(#[trigger] bytes@[k]),
        decreases start,
    {
        start = start - 1;
    }
    proof {
        let s = start as int;
        assert(part[s] == bytes@[s]);
        if s > 0 {
            is_char_boundary_iff_not_is_continuation_byte(part, s);
        }
        lemma_boundary_splits(part, s);
        assert(part.subrange(0, s) =~= bytes@.subrange(0, s));
        let last = tail_from(part, s);
        lemma_valid_tail_steps(part, s);
        let w = width_at(part, s);
        if s + w < end {
            let rest = tail_from(part, s + w);
            assert(valid_first_scalar(rest));
            assert(rest[0] == part[s + w]);
            assert(part[s + w] == bytes@[s + w]);
            assert(false);
        }
        assert(tail_from(bytes@, s).subrange(0, last.len() as int) =~= last);
        lemma_first_scalar_of_prefix(last, tail_from(bytes@, s));
        lemma_prefix_step(bytes@, s);
    }
    start
}


/// Encoding goes character by character: the encoding of characters
/// followed by one more is the encoding of the characters followed by
/// the encoding of that one.
pub proof fn lemma_encode_push(chars: Seq<char>, c: char)
    ensures
        encode_utf8(chars.push(c)) == encode_utf8(chars) + encode_scalar(c as u32),
    decreases chars.len(),
{
    let longer = chars.push(c);
    if chars.len() == 0 {
        assert(longer.drop_first() =~= Seq::<char>::empty());
        assert(encode_utf8(longer) =~= encode_scalar(c as u32) + encode_utf8(longer.drop_first()));
        assert(encode_utf8(chars) + encode_scalar(c as u32) =~= encode_scalar(c as u32));
    } else {
        assert(longer.drop_first() =~= chars.drop_first().push(c));
        lemma_encode_push(chars.drop_first(), c);
        assert(longer[0] == chars[0]);
        assert(encode_utf8(longer) =~= encode_utf8(chars) + encode_scalar(c as u32));
    }
}

/// Appends the UTF-8 encoding of every character of `chars` to `out`.
pub fn append_chars(chars: &[char], out: &mut Vec<u8>)
    ensures
        final(out)@ == old(out)@ + encode_utf8(chars@),
        valid_utf8(encode_utf8(chars@)),
        decode_utf8(encode_utf8(chars@)) == chars@,
{
    let mut k: usize = 0;
    proof {
        assert(chars@.subrange(0, 0) =~= Seq::<char>::empty());
        assert(out@ =~= old(out)@ + encode_utf8(chars@.subrange(0, 0)));
        encode_utf8_valid_utf8(chars@);
        encode_utf8_decode_utf8(chars@);
    }
    while k < chars.len()
        invariant
            k <= chars@.len(),
            out@ == old(out)@ + encode_utf8(chars@.subrange(0, k as int)),
        decreases chars@.len() - k,
    {
        let ghost before = out@;
        encode_into(chars[k], out);
        proof {
            let seen = chars@.subrange(0, k as int);
            assert(chars@.subrange(0, k as int + 1) =~= seen.push(chars@[k as int]));
            lemma_encode_push(seen, chars@[k as int]);
            assert(out@ =~= old(out)@ + encode_utf8(chars@.subrange(0, k as int + 1)));
        }
        k = k + 1;
    }
    assert(chars@.subrange(0, chars@.len() as int) =~= chars@);
}

} // verus!
