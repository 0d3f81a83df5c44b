//! The building blocks of the record format: little-endian integers of fixed
//! width, and byte strings and texts that carry their length before them.
//!
//! Each block has a writer, which appends to a buffer, and a reader, which
//! takes the block from a position of a byte string and says where the next
//! one begins. What a reader accepts is exactly what the writer writes.

use vstd::bytes::{
    lemma_auto_spec_u32_to_from_le_bytes, lemma_auto_spec_u64_to_from_le_bytes,
    spec_u32_from_le_bytes, spec_u32_to_le_bytes, spec_u64_from_le_bytes, spec_u64_to_le_bytes,
    u32_from_le_bytes, u32_to_le_bytes, u64_from_le_bytes, u64_to_le_bytes,
};
use vstd::prelude::*;
use vstd::slice::slice_subrange;
use vstd::utf8::{
    decode_utf8, decode_utf8_encode_utf8, encode_utf8, encode_utf8_decode_utf8,
    encode_utf8_valid_utf8, valid_utf8,
};

verus! {

/// A 32-bit number as four bytes, lowest first.
pub open spec fn enc_u32(x: u32) -> Seq<u8> {
    spec_u32_to_le_bytes(x)
}

/// A 64-bit number as eight bytes, lowest first.
pub open spec fn enc_u64(x: u64) -> Seq<u8> {
    spec_u64_to_le_bytes(x)
}

/// A byte string: its length as a 64-bit number, then its bytes.
pub open spec fn enc_field(field: Seq<u8>) -> Seq<u8> {
    enc_u64(field.len() as u64) + field
}

/// A text: its UTF-8 bytes as a byte string.
pub open spec fn enc_text(text: Seq<char>) -> Seq<u8> {
    enc_field(encode_utf8(text))
}

/// Reads a 32-bit number from the front of `s`: the number and what follows.
pub open spec fn parse_u32(s: Seq<u8>) -> Option<(u32, Seq<u8>)> {
    if s.len() >= 4 {
        Some((spec_u32_from_le_bytes(s.take(4)), s.skip(4)))
    } else {
        None
    }
}

/// Reads a 64-bit number from the front of `s`: the number and what follows.
pub open spec fn parse_u64(s: Seq<u8>) -> Option<(u64, Seq<u8>)> {
    if s.len() >= 8 {
        Some((spec_u64_from_le_bytes(s.take(8)), s.skip(8)))
    } else {
        None
    }
}

/// Reads a byte string from the front of `s`: its bytes and what follows.
pub open spec fn parse_field(s: Seq<u8>) -> Option<(Seq<u8>, Seq<u8>)> {
    match parse_u64(s) {
        Some((len, rest)) => if len <= rest.len() {
            Some((rest.take(len as int), rest.skip(len as int)))
        } else {
            None
        },
        None => None,
    }
}

/// Reads a text from the front of `s`: its characters and what follows.
pub open spec fn parse_text(s: Seq<u8>) -> Option<(Seq<char>, Seq<u8>)> {
    match parse_field(s) {
        Some((bytes, rest)) => if valid_utf8(bytes) {
            Some((decode_utf8(bytes), rest))
        } else {
            None
        },
        None => None,
    }
}

/// A written 32-bit number is read back, and what is read was written so.
pub proof fn lemma_u32(x: u32, s: Seq<u8>, rest: Seq<u8>)
    ensures
        enc_u32(x).len() == 4,
        parse_u32(enc_u32(x) + rest) == Some((x, rest)),
        parse_u32(s) matches Some((y, tail)) ==> s == enc_u32(y) + tail,
{
    lemma_auto_spec_u32_to_from_le_bytes();
    let written = enc_u32(x) + rest;
    assert(written.take(4) =~= enc_u32(x));
    assert(written.skip(4) =~= rest);
    if s.len() >= 4 {
        assert(s =~= s.take(4) + s.skip(4));
    }
}

/// A written 64-bit number is read back, and what is read was written so.
pub proof fn lemma_u64(x: u64, s: Seq<u8>, rest: Seq<u8>)
    ensures
        enc_u64(x).len() == 8,
        parse_u64(enc_u64(x) + rest) == Some((x, rest)),
        parse_u64(s) matches Some((y, tail)) ==> s == enc_u64(y) + tail,
{
    lemma_auto_spec_u64_to_from_le_bytes();
    let written = enc_u64(x) + rest;
    assert(written.take(8) =~= enc_u64(x));
    assert(written.skip(8) =~= rest);
    if s.len() >= 8 {
        assert(s =~= s.take(8) + s.skip(8));
    }
}

/// A written byte string is read back.
pub proof fn lemma_field_written(field: Seq<u8>, rest: Seq<u8>)
    requires
        field.len() <= u64::MAX,
    ensures
        parse_field(enc_field(field) + rest) == Some((field, rest)),
{
    let len = field.len() as u64;
    lemma_u64(len, Seq::empty(), field + rest);
    assert(enc_field(field) + rest =~= enc_u64(len) + (field + rest));
    assert((field + rest).take(len as int) =~= field);
    assert((field + rest).skip(len as int) =~= rest);
}

/// What is read as a byte string was written as one.
pub proof fn lemma_field_read(s: Seq<u8>)
    ensures
        parse_field(s) matches Some((field, tail)) ==> s == enc_field(field) + tail && field.len()
            <= u64::MAX && tail.len() < s.len(),
{
    lemma_u64(0, s, Seq::empty());
    if let Some((len, rest)) = parse_u64(s) {
        if len <= rest.len() {
            let field = rest.take(len as int);
            let tail = rest.skip(len as int);
            assert(rest =~= field + tail);
            assert(s =~= enc_field(field) + tail);
        }
    }
}

/// A written text is read back.
pub proof fn lemma_text_written(text: Seq<char>, rest: Seq<u8>)
    requires
        encode_utf8(text).len() <= u64::MAX,
    ensures
        parse_text(enc_text(text) + rest) == Some((text, rest)),
{
    lemma_field_written(encode_utf8(text), rest);
    encode_utf8_valid_utf8(text);
    encode_utf8_decode_utf8(text);
}

/// What is read as a text was written as one.
pub proof fn lemma_text_read(s: Seq<u8>)
    ensures
        parse_text(s) matches Some((text, tail)) ==> s == enc_text(text) + tail && encode_utf8(
            text,
        ).len() <= u64::MAX && tail.len() < s.len(),
{
    lemma_field_read(s);
    if let Some((bytes, rest)) = parse_field(s) {
        if valid_utf8(bytes) {
            decode_utf8_encode_utf8(bytes);
        }
    }
}

/// Skipping `pos` bytes and then `more` skips `pos + more`.
pub proof fn lemma_skip_skip(s: Seq<u8>, pos: int, more: int)
    requires
        0 <= pos,
        0 <= more,
        pos + more <= s.len(),
    ensures
        s.skip(pos).skip(more) == s.skip(pos + more),
        s.skip(pos).take(more) == s.subrange(pos, pos + more),
{
    assert(s.skip(pos).skip(more) =~= s.skip(pos + more));
    assert(s.skip(pos).take(more) =~= s.subrange(pos, pos + more));
}

/// Appends a 32-bit number.
pub fn put_u32(out: &mut Vec<u8>, x: u32)
    ensures
        final(out)@ == old(out)@ + enc_u32(x),
{
    let mut bytes = u32_to_le_bytes(x);
    out.append(&mut bytes);
}

/// Appends a 64-bit number.
pub fn put_u64(out: &mut Vec<u8>, x: u64)
    ensures
        final(out)@ == old(out)@ + enc_u64(x),
{
    let mut bytes = u64_to_le_bytes(x);
    out.append(&mut bytes);
}

/// Appends a byte string with its length before it.
pub fn put_field(out: &mut Vec<u8>, field: &[u8])
    ensures
        final(out)@ == old(out)@ + enc_field(field@),
        field@.len() <= u64::MAX,
{
    put_u64(out, field.len() as u64);
    let ghost start = out@;
    let mut i: usize = 0;
    while i < field.len()
        invariant
            i <= field.len(),
            out@ == start + field@.subrange(0, i as int),
        decreases field.len() - i,
    {
        out.push(field[i]);
        assert(out@ =~= start + field@.subrange(0, i + 1));
        i += 1;
    }
    assert(field@.subrange(0, field@.len() as int) =~= field@);
    assert(out@ =~= old(out)@ + enc_field(field@));
}

/// Appends a text with the length of its UTF-8 bytes before it.
pub fn put_text(out: &mut Vec<u8>, text: &str)
    ensures
        final(out)@ == old(out)@ + enc_text(text@),
        encode_utf8(text@).len() <= u64::MAX,
{
    put_field(out, text.as_bytes());
}

/// Reads a 32-bit number at `pos`: the number and the position after it, or
/// `None` where fewer than four bytes are left.
pub(crate) fn take_u32(bytes: &[u8], pos: usize) -> (read: Option<(u32, usize)>)
    requires
        pos <= bytes.len(),
    ensures
        match read {
            Some((x, next)) => pos <= next <= bytes.len() && parse_u32(bytes@.skip(pos as int))
                == Some((x, bytes@.skip(next as int))),
            None => parse_u32(bytes@.skip(pos as int)) is None,
        },
{
    if bytes.len() - pos < 4 {
        return None;
    }
    let x = u32_from_le_bytes(slice_subrange(bytes, pos, pos + 4));
    proof {
        lemma_skip_skip(bytes@, pos as int, 4);
    }
    Some((x, pos + 4))
}

/// Reads a 64-bit number at `pos`: the number and the position after it, or
/// `None` where fewer than eight bytes are left.
pub(crate) fn take_u64(bytes: &[u8], pos: usize) -> (read: Option<(u64, usize)>)
    requires
        pos <= bytes.len(),
    ensures
        match read {
            Some((x, next)) => pos <= next <= bytes.len() && parse_u64(bytes@.skip(pos as int))
                == Some((x, bytes@.skip(next as int))),
            None => parse_u64(bytes@.skip(pos as int)) is None,
        },
{
    if bytes.len() - pos < 8 {
        return None;
    }
    let x = u64_from_le_bytes(slice_subrange(bytes, pos, pos + 8));
    proof {
        lemma_skip_skip(bytes@, pos as int, 8);
    }
    Some((x, pos + 8))
}

/// Reads a byte string at `pos`: its bytes and the position after it, or
/// `None` where the length or the bytes it announces are not all there.
pub(crate) fn take_field(bytes: &[u8], pos: usize) -> (read: Option<(Vec<u8>, usize)>)
    requires
        pos <= bytes.len(),
    ensures
        match read {
            Some((field, next)) => pos <= next <= bytes.len() && parse_field(
                bytes@.skip(pos as int),
            ) == Some((field@, bytes@.skip(next as int))),
            None => parse_field(bytes@.skip(pos as int)) is None,
        },
{
    match take_u64(bytes, pos) {
        None => None,
        Some((len, start)) => {
            if len > (bytes.len() - start) as u64 {
                return None;
            }
            let end: usize = start + len as usize;
            let mut field: Vec<u8> = Vec::new();
            let mut i: usize = start;
            while i < end
                invariant
                    start <= i <= end <= bytes.len(),
                    field@ == bytes@.subrange(start as int, i as int),
                decreases end - i,
            {
                field.push(bytes[i]);
                assert(field@ =~= bytes@.subrange(start as int, i + 1));
                i += 1;
            }
            proof {
                lemma_skip_skip(bytes@, start as int, len as int);
            }
            Some((field, end))
        },
    }
}

/// Calls `String::from_utf8`. It gives the text whose UTF-8 encoding the
/// bytes are, and nothing where the bytes are no valid UTF-8.
#[verifier::external_body]
fn text_from_utf8(bytes: Vec<u8>) -> (text: Option<String>)
    ensures
        match text {
            Some(t) => valid_utf8(bytes@) && t@ == decode_utf8(bytes@),
            None => !valid_utf8(bytes@),
        },
{
    match String::from_utf8(bytes) {
        Ok(text) => Some(text),
        Err(_) => None,
    }
}

/// Reads a text at `pos`: the text and the position after it, or `None`
/// where no byte string is there or its bytes are no valid UTF-8.
pub(crate) fn take_text(bytes: &[u8], pos: usize) -> (read: Option<(String, usize)>)
    requires
        pos <= bytes.len(),
    ensures
        match read {
            Some((text, next)) => pos <= next <= bytes.len() && parse_text(
                bytes@.skip(pos as int),
            ) == Some((text@, bytes@.skip(next as int))),
            None => parse_text(bytes@.skip(pos as int)) is None,
        },
{
    match take_field(bytes, pos) {
        None => None,
        Some((field, next)) => match text_from_utf8(field) {
            Some(text) => Some((text, next)),
            None => None,
        },
    }
}

/// The items of a list written one after the other, each as `enc` says.
pub open spec fn enc_items<T>(items: Seq<T>, enc: spec_fn(T) -> Seq<u8>) -> Seq<u8>
    decreases items.len(),
{
    if items.len() == 0 {
        Seq::empty()
    } else {
        enc(items.first()) + enc_items(items.drop_first(), enc)
    }
}

/// A list: the number of its items as a 64-bit number, then the items.
pub open spec fn enc_list<T>(items: Seq<T>, enc: spec_fn(T) -> Seq<u8>) -> Seq<u8> {
    enc_u64(items.len() as u64) + enc_items(items, enc)
}

/// Reads `count` items from the front of `s`, each as `parse` says: the
/// items and what follows.
pub open spec fn parse_items<T>(
    count: nat,
    s: Seq<u8>,
    parse: spec_fn(Seq<u8>) -> Option<(T, Seq<u8>)>,
) -> Option<(Seq<T>, Seq<u8>)>
    decreases count,
{
    if count == 0 {
        Some((Seq::empty(), s))
    } else {
        match parse(s) {
            Some((item, rest)) => match parse_items((count - 1) as nat, rest, parse) {
                Some((items, tail)) => Some((seq![item] + items, tail)),
                None => None,
            },
            None => None,
        }
    }
}

/// Reads a list from the front of `s`: its items and what follows.
pub open spec fn parse_list<T>(
    s: Seq<u8>,
    parse: spec_fn(Seq<u8>) -> Option<(T, Seq<u8>)>,
) -> Option<(Seq<T>, Seq<u8>)> {
    match parse_u64(s) {
        Some((count, rest)) => parse_items(count as nat, rest, parse),
        None => None,
    }
}

/// One more item at the end of a list adds its bytes at the end.
pub proof fn lemma_items_push<T>(items: Seq<T>, item: T, enc: spec_fn(T) -> Seq<u8>)
    ensures
        enc_items(items.push(item), enc) == enc_items(items, enc) + enc(item),
    decreases items.len(),
{
    let longer = items.push(item);
    if items.len() == 0 {
        assert(longer.drop_first() =~= Seq::<T>::empty());
        assert(longer.first() == item);
        assert(enc_items(longer.drop_first(), enc) =~= Seq::<u8>::empty());
        assert(enc_items(longer, enc) =~= enc(item));
        assert(enc_items(items, enc) + enc(item) =~= enc(item));
    } else {
        assert(longer.drop_first() =~= items.drop_first().push(item));
        assert(longer.first() == items.first());
        lemma_items_push(items.drop_first(), item, enc);
        assert(enc_items(longer, enc) =~= enc_items(items, enc) + enc(item));
    }
}

/// Written items are read back, where each of them is.
pub proof fn lemma_items_written<T>(
    items: Seq<T>,
    rest: Seq<u8>,
    enc: spec_fn(T) -> Seq<u8>,
    parse: spec_fn(Seq<u8>) -> Option<(T, Seq<u8>)>,
)
    requires
        forall|i: int, tail: Seq<u8>|
            0 <= i < items.len() ==> #[trigger] parse(enc(items[i]) + tail) == Some(
                (items[i], tail),
            ),
    ensures
        parse_items(items.len(), enc_items(items, enc) + rest, parse) == Some((items, rest)),
    decreases items.len(),
{
    if items.len() == 0 {
        assert(enc_items(items, enc) + rest =~= rest);
        assert(items =~= Seq::<T>::empty());
    } else {
        let first = items.first();
        let others = items.drop_first();
        let tail = enc_items(others, enc) + rest;
        assert(enc_items(items, enc) + rest =~= enc(first) + tail);
        assert(parse(enc(items[0]) + tail) == Some((items[0], tail)));
        assert forall|i: int, t: Seq<u8>| 0 <= i < others.len() implies #[trigger] parse(
            enc(others[i]) + t,
        ) == Some((others[i], t)) by {
            assert(others[i] == items[i + 1]);
        }
        lemma_items_written(others, rest, enc, parse);
        assert(seq![first] + others =~= items);
    }
}

/// Items that are read were written so, where that holds of each of them.
pub proof fn lemma_items_read<T>(
    count: nat,
    s: Seq<u8>,
    enc: spec_fn(T) -> Seq<u8>,
    parse: spec_fn(Seq<u8>) -> Option<(T, Seq<u8>)>,
)
    requires
        forall|t: Seq<u8>|
            (#[trigger] parse(t)) matches Some((item, tail)) ==> t == enc(item) + tail,
    ensures
        parse_items(count, s, parse) matches Some((items, tail)) ==> s == enc_items(items, enc)
            + tail && items.len() == count,
    decreases count,
{
    if count == 0 {
        assert(enc_items(Seq::<T>::empty(), enc) + s =~= s);
    } else {
        if let Some((item, rest)) = parse(s) {
            lemma_items_read((count - 1) as nat, rest, enc, parse);
            if let Some((items, tail)) = parse_items((count - 1) as nat, rest, parse) {
                let all = seq![item] + items;
                assert(all.first() == item);
                assert(all.drop_first() =~= items);
                assert(s =~= enc_items(all, enc) + tail);
            }
        }
    }
}

/// Reading `count + 1` items is reading `count` items and one more.
pub proof fn lemma_items_one_more<T>(
    count: nat,
    s: Seq<u8>,
    parse: spec_fn(Seq<u8>) -> Option<(T, Seq<u8>)>,
)
    ensures
        parse_items(count + 1, s, parse) == match parse_items(count, s, parse) {
            Some((items, rest)) => match parse(rest) {
                Some((item, tail)) => Some((items.push(item), tail)),
                None => None,
            },
            None => None,
        },
    decreases count,
{
    if count == 0 {
        if let Some((item, tail)) = parse(s) {
            assert(parse_items(0, tail, parse) == Some((Seq::<T>::empty(), tail)));
            assert(seq![item] + Seq::<T>::empty() =~= Seq::<T>::empty().push(item));
        }
    } else {
        if let Some((first, rest)) = parse(s) {
            lemma_items_one_more((count - 1) as nat, rest, parse);
            if let Some((items, after)) = parse_items((count - 1) as nat, rest, parse) {
                if let Some((item, tail)) = parse(after) {
                    assert(seq![first] + items.push(item) =~= (seq![first] + items).push(item));
                }
            }
        }
    }
}

/// Where reading some items fails, reading more of them fails too.
pub proof fn lemma_items_fail<T>(
    count: nat,
    more: nat,
    s: Seq<u8>,
    parse: spec_fn(Seq<u8>) -> Option<(T, Seq<u8>)>,
)
    requires
        count <= more,
        parse_items(count, s, parse) is None,
    ensures
        parse_items(more, s, parse) is None,
    decreases more - count,
{
    if count < more {
        lemma_items_one_more(count, s, parse);
        lemma_items_fail(count + 1, more, s, parse);
    }
}

} // verus!
