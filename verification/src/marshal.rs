//! Framing of byte buffers, text and text lists for the shared memory that
//! host and guest exchange by offset.
//!
//! The encoders build a fresh buffer that holds exactly the framed value. The
//! decoders read a framed value out of a view of the memory at an offset and
//! hand back an owned copy; they leave the memory as it is.

use vstd::prelude::*;
use vstd::string::*;
use vstd::utf8::*;
use crate::cookie::{
    cookie_line, cookie_views, read_line, read_lines, Cookie, CookieError, CookieText,
};
use crate::headers::{header_text, headers_of_text, HeaderMap};
use crate::text::texts;
use crate::wire::{get_le, le_bytes, le_value, put_le, MAX_FIELD};

verus! {

/// What lossy decoding makes of bytes that are not valid UTF-8: every
/// ill-formed sequence gives way to the replacement character.
pub uninterp spec fn lossy_text(bytes: Seq<u8>) -> Seq<char>;

/// The text that a payload stands for: its characters where it is valid
/// UTF-8, the lossy reading otherwise.
pub open spec fn decoded_text(bytes: Seq<u8>) -> Seq<char> {
    if valid_utf8(bytes) {
        decode_utf8(bytes)
    } else {
        lossy_text(bytes)
    }
}

/// Calls `String::from_utf8_lossy`. Believed of it: valid UTF-8 comes back as
/// the string it encodes, and anything else as one fixed string per input.
#[verifier::external_body]
fn lossy_string(bytes: &[u8]) -> (s: String)
    ensures
        valid_utf8(bytes@) ==> s@ == decode_utf8(bytes@),
        !valid_utf8(bytes@) ==> s@ == lossy_text(bytes@),
{
    String::from_utf8_lossy(bytes).into_owned()
}

/// Frame of a byte buffer: its length, then its bytes.
pub open spec fn encode_data(data: Seq<u8>) -> Seq<u8> {
    le_bytes(data.len() as int) + data
}

/// Frame of a text: the length of its UTF-8 form plus one, that form, and a
/// closing zero byte.
pub open spec fn encode_text(s: Seq<char>) -> Seq<u8> {
    le_bytes(encode_utf8(s).len() as int + 1) + encode_utf8(s) + seq![0u8]
}

/// The frames of `items`, one after the other.
pub open spec fn encode_records(items: Seq<Seq<char>>) -> Seq<u8>
    decreases items.len(),
{
    if items.len() == 0 {
        Seq::empty()
    } else {
        encode_records(items.drop_last()) + encode_text(items.last())
    }
}

/// Frame of a text list: the number of items, then each item's frame.
pub open spec fn encode_text_list(items: Seq<Seq<char>>) -> Seq<u8> {
    le_bytes(items.len() as int) + encode_records(items)
}

/// Whether a text's frame fits the length field.
pub open spec fn text_fits(s: Seq<char>) -> bool {
    encode_utf8(s).len() + 1 <= MAX_FIELD
}

/// Whether `mem` holds a whole byte-buffer frame at `ptr`.
pub open spec fn data_framed_at(mem: Seq<u8>, ptr: int) -> bool {
    &&& 0 <= ptr
    &&& ptr + 4 <= mem.len()
    &&& le_value(mem, ptr) <= MAX_FIELD
    &&& ptr + 4 + le_value(mem, ptr) <= mem.len()
}

/// The bytes of the buffer framed at `ptr`.
pub open spec fn data_at(mem: Seq<u8>, ptr: int) -> Seq<u8> {
    mem.subrange(ptr + 4, ptr + 4 + le_value(mem, ptr))
}

/// Whether `mem` holds a whole text frame at `ptr`: a declared length of at
/// least one, and room for the payload and its closing byte.
pub open spec fn text_framed_at(mem: Seq<u8>, ptr: int) -> bool {
    &&& 0 <= ptr
    &&& ptr + 4 <= mem.len()
    &&& 1 <= le_value(mem, ptr) <= MAX_FIELD
    &&& ptr + 4 + le_value(mem, ptr) <= mem.len()
}

/// The text framed at `ptr`.
pub open spec fn text_at(mem: Seq<u8>, ptr: int) -> Seq<char> {
    decoded_text(mem.subrange(ptr + 4, ptr + 4 + le_value(mem, ptr) - 1))
}

/// Where item `i` of the text list framed at `ptr` starts.
pub open spec fn record_offset(mem: Seq<u8>, ptr: int, i: nat) -> int
    decreases i,
{
    if i == 0 {
        ptr + 4
    } else {
        let before = record_offset(mem, ptr, (i - 1) as nat);
        before + 4 + le_value(mem, before)
    }
}

/// Whether `mem` holds a whole text-list frame at `ptr`.
pub open spec fn text_list_framed_at(mem: Seq<u8>, ptr: int) -> bool {
    &&& 0 <= ptr
    &&& ptr + 4 <= mem.len()
    &&& le_value(mem, ptr) <= MAX_FIELD
    &&& forall|i: nat|
        i < le_value(mem, ptr) ==> text_framed_at(mem, #[trigger] record_offset(mem, ptr, i))
}

/// The items of the text list framed at `ptr`.
pub open spec fn text_list_at(mem: Seq<u8>, ptr: int) -> Seq<Seq<char>> {
    Seq::new(
        le_value(mem, ptr) as nat,
        |i: int| text_at(mem, record_offset(mem, ptr, i as nat)),
    )
}

fn append_bytes(buf: &mut Vec<u8>, src: &[u8])
    ensures
        final(buf)@ == old(buf)@ + src@,
{
    let ghost before = buf@;
    let mut i: usize = 0;
    while i < src.len()
        invariant
            i <= src@.len(),
            buf@ == before + src@.take(i as int),
        decreases src@.len() - i,
    {
        buf.push(src[i]);
        i += 1;
        assert(buf@ =~= before + src@.take(i as int));
    }
    assert(src@.take(i as int) =~= src@);
}

fn copy_range(mem: &[u8], from: usize, to: usize) -> (out: Vec<u8>)
    requires
        from <= to <= mem@.len(),
    ensures
        out@ == mem@.subrange(from as int, to as int),
{
    let mut out: Vec<u8> = Vec::new();
    let mut i: usize = from;
    while i < to
        invariant
            from <= i <= to <= mem@.len(),
            out@ == mem@.subrange(from as int, i as int),
        decreases to - i,
    {
        out.push(mem[i]);
        i += 1;
        assert(out@ =~= mem@.subrange(from as int, i as int));
    }
    out
}

/// Whether a text's frame fits the length field.
pub fn fits(s: &str) -> (b: bool)
    ensures
        b == text_fits(s@),
{
    s.as_bytes().len() < MAX_FIELD
}

/// Whether `mem` holds a whole byte-buffer frame at `ptr`.
pub fn data_framed(mem: &[u8], ptr: i32) -> (b: bool)
    ensures
        b == data_framed_at(mem@, ptr as int),
{
    let total: usize = mem.len();
    if ptr < 0 || total < 4 || ptr as usize > total - 4 {
        return false;
    }
    let at: usize = ptr as usize;
    let length: usize = get_le(mem, at);
    length <= MAX_FIELD && length <= total - 4 - at
}

fn text_framed_from(mem: &[u8], at: usize) -> (b: bool)
    ensures
        b == text_framed_at(mem@, at as int),
{
    let total: usize = mem.len();
    if total < 4 || at > total - 4 {
        return false;
    }
    let length: usize = get_le(mem, at);
    1 <= length && length <= MAX_FIELD && length <= total - 4 - at
}

/// Whether `mem` holds a whole text frame at `ptr`.
pub fn text_framed(mem: &[u8], ptr: i32) -> (b: bool)
    ensures
        b == text_framed_at(mem@, ptr as int),
{
    if ptr < 0 {
        return false;
    }
    text_framed_from(mem, ptr as usize)
}

/// Whether `mem` holds a whole text-list frame at `ptr`.
pub fn text_list_framed(mem: &[u8], ptr: i32) -> (b: bool)
    ensures
        b == text_list_framed_at(mem@, ptr as int),
{
    let total: usize = mem.len();
    if ptr < 0 || total < 4 || ptr as usize > total - 4 {
        return false;
    }
    let at: usize = ptr as usize;
    let count: usize = get_le(mem, at);
    if count > MAX_FIELD {
        return false;
    }
    let mut offset: usize = at + 4;
    let mut i: usize = 0;
    while i < count
        invariant
            i <= count,
            total == mem@.len(),
            0 <= ptr,
            ptr + 4 <= total,
            count == le_value(mem@, ptr as int),
            count <= MAX_FIELD,
            offset <= total,
            offset == record_offset(mem@, ptr as int, i as nat),
            forall|k: nat|
                k < i ==> text_framed_at(mem@, #[trigger] record_offset(mem@, ptr as int, k)),
        decreases count - i,
    {
        if !text_framed_from(mem, offset) {
            return false;
        }
        let len: usize = get_le(mem, offset);
        offset = offset + 4 + len;
        i += 1;
    }
    true
}

/// Frames a byte buffer.
pub fn marshal_data(data: Vec<u8>) -> (buf: Vec<u8>)
    requires
        data@.len() <= MAX_FIELD,
    ensures
        buf@ == encode_data(data@),
        data_framed_at(buf@, 0),
        data_at(buf@, 0) == data@,
{
    let mut buf: Vec<u8> = Vec::with_capacity(data.len() + 4);
    put_le(&mut buf, data.len());
    append_bytes(&mut buf, data.as_slice());
    proof {
        assert(buf@.subrange(0, buf@.len() as int) =~= buf@);
        lemma_data_round_trip(buf@, 0, data@);
    }
    buf
}

/// Copies out the byte buffer framed at `ptr`.
pub fn unmarshal_data(mem: &[u8], ptr: i32) -> (data: Vec<u8>)
    requires
        data_framed_at(mem@, ptr as int),
    ensures
        data@ == data_at(mem@, ptr as int),
{
    let total: usize = mem.len();
    let at: usize = ptr as usize;
    let length: usize = get_le(mem, at);
    assert(at + 4 + length <= total);
    copy_range(mem, at + 4, at + 4 + length)
}

fn put_text(buf: &mut Vec<u8>, s: &str)
    requires
        text_fits(s@),
    ensures
        final(buf)@ == old(buf)@ + encode_text(s@),
{
    let ghost before = buf@;
    let bytes = s.as_bytes();
    put_le(buf, bytes.len() + 1);
    append_bytes(buf, bytes);
    buf.push(0u8);
    assert(buf@ =~= before + encode_text(s@));
}

/// Frames a text.
pub fn marshal_string(data: String) -> (buf: Vec<u8>)
    requires
        text_fits(data@),
    ensures
        buf@ == encode_text(data@),
        text_framed_at(buf@, 0),
        text_at(buf@, 0) == data@,
{
    let mut buf: Vec<u8> = Vec::with_capacity(data.as_str().as_bytes().len() + 5);
    put_text(&mut buf, data.as_str());
    proof {
        assert(buf@ =~= encode_text(data@));
        assert(buf@.subrange(0, buf@.len() as int) =~= buf@);
        lemma_text_round_trip(buf@, 0, data@);
    }
    buf
}

fn text_from(mem: &[u8], at: usize) -> (s: String)
    requires
        text_framed_at(mem@, at as int),
    ensures
        s@ == text_at(mem@, at as int),
{
    let total: usize = mem.len();
    let length: usize = get_le(mem, at);
    assert(at + 4 + length <= total);
    let payload = copy_range(mem, at + 4, at + 4 + length - 1);
    lossy_string(payload.as_slice())
}

/// Reads the text framed at `ptr`. Bytes that are not valid UTF-8 are
/// replaced, never refused.
pub fn unmarshal_string(mem: &[u8], ptr: i32) -> (s: String)
    requires
        text_framed_at(mem@, ptr as int),
    ensures
        s@ == text_at(mem@, ptr as int),
{
    text_from(mem, ptr as usize)
}

/// Frames a list of texts.
pub fn marshal_string_vec(items: &Vec<String>) -> (buf: Vec<u8>)
    requires
        items@.len() <= MAX_FIELD,
        forall|i: int| 0 <= i < items@.len() ==> text_fits(#[trigger] items@[i]@),
    ensures
        buf@ == encode_text_list(texts(items@)),
        text_list_framed_at(buf@, 0),
        text_list_at(buf@, 0) == texts(items@),
{
    let mut buf: Vec<u8> = Vec::new();
    put_le(&mut buf, items.len());
    let ghost all = texts(items@);
    let mut i: usize = 0;
    while i < items.len()
        invariant
            i <= items@.len(),
            all == texts(items@),
            forall|k: int| 0 <= k < items@.len() ==> text_fits(#[trigger] items@[k]@),
            buf@ == le_bytes(items@.len() as int) + encode_records(all.take(i as int)),
        decreases items@.len() - i,
    {
        let ghost before = buf@;
        put_text(&mut buf, items[i].as_str());
        proof {
            let next = all.take(i + 1);
            assert(next.drop_last() =~= all.take(i as int));
            assert(next.last() == items@[i as int]@);
            assert(buf@ =~= le_bytes(items@.len() as int) + encode_records(next));
        }
        i += 1;
    }
    proof {
        assert(all.take(i as int) =~= all);
        assert(buf@.subrange(0, buf@.len() as int) =~= buf@);
        assert forall|k: int| 0 <= k < all.len() implies text_fits(#[trigger] all[k]) by {
            assert(all[k] == items@[k]@);
        }
        lemma_text_list_round_trip(buf@, 0, all);
    }
    buf
}

/// Reads the text list framed at `ptr`, item by item.
pub fn unmarshal_string_vec(mem: &[u8], ptr: i32) -> (data: Vec<String>)
    requires
        text_list_framed_at(mem@, ptr as int),
    ensures
        texts(data@) == text_list_at(mem@, ptr as int),
{
    let total: usize = mem.len();
    let at: usize = ptr as usize;
    let length: usize = get_le(mem, at);
    let mut data: Vec<String> = Vec::new();
    let mut offset: usize = at + 4;
    let mut i: usize = 0;
    while i < length
        invariant
            i <= length,
            total == mem@.len(),
            length == le_value(mem@, ptr as int),
            text_list_framed_at(mem@, ptr as int),
            offset == record_offset(mem@, ptr as int, i as nat),
            data@.len() == i,
            forall|k: int|
                0 <= k < i ==> (#[trigger] data@[k])@ == text_at(
                    mem@,
                    record_offset(mem@, ptr as int, k as nat),
                ),
        decreases length - i,
    {
        assert(text_framed_at(mem@, record_offset(mem@, ptr as int, i as nat)));
        let len: usize = get_le(mem, offset);
        assert(offset + 4 + len <= total);
        let s = text_from(mem, offset);
        data.push(s);
        offset = offset + 4 + len;
        i += 1;
    }
    assert(texts(data@) =~= text_list_at(mem@, ptr as int));
    data
}

/// Frames the text form of the headers.
pub fn marshal_all_header(headers: HeaderMap) -> (buf: Vec<u8>)
    requires
        text_fits(header_text(headers@)),
    ensures
        buf@ == encode_text(header_text(headers@)),
        text_framed_at(buf@, 0),
        text_at(buf@, 0) == header_text(headers@),
{
    marshal_string(headers.to_text())
}

/// Reads the headers whose text form is framed at `ptr`. Lines without a
/// `:` are passed over.
pub fn unmarshal_all_header(mem: &[u8], ptr: i32) -> (m: HeaderMap)
    requires
        text_framed_at(mem@, ptr as int),
    ensures
        m.wf(),
        m@ == headers_of_text(text_at(mem@, ptr as int)),
{
    let text = unmarshal_string(mem, ptr);
    HeaderMap::from_text(text.as_str())
}

/// Frames the line of a cookie. The name must not be empty.
pub fn marshal_cookie(c: Cookie) -> (buf: Vec<u8>)
    requires
        c@.name.len() > 0,
        text_fits(cookie_line(c@)),
    ensures
        buf@ == encode_text(cookie_line(c@)),
        text_framed_at(buf@, 0),
        text_at(buf@, 0) == cookie_line(c@),
{
    marshal_string(c.marshal())
}

/// What the cookie line `t` gives when an empty line counts as no cookie.
pub open spec fn cookie_of_text(t: Seq<char>) -> CookieText {
    if t.len() == 0 {
        CookieText::Absent
    } else {
        read_line(t)
    }
}

/// Reads the cookie whose line is framed at `ptr`, where that line holds no
/// malformed `Max-Age`: the cookie, or `None` for an empty line and for one
/// that does not start with a `name=value` pair.
pub fn unmarshal_cookie(mem: &[u8], ptr: i32) -> (r: Option<Cookie>)
    requires
        text_framed_at(mem@, ptr as int),
        !(cookie_of_text(text_at(mem@, ptr as int)) is Malformed),
    ensures
        match r {
            None => cookie_of_text(text_at(mem@, ptr as int)) is Absent,
            Some(c) => cookie_of_text(text_at(mem@, ptr as int)) == CookieText::Record(c@),
        },
{
    let text = unmarshal_string(mem, ptr);
    if text.as_str().is_empty() {
        return None;
    }
    Cookie::unmarshal(text)
}

/// Reads the cookie whose line is framed at `ptr`, whatever the line holds:
/// the error for a malformed `Max-Age`, and otherwise what `unmarshal_cookie`
/// gives.
pub fn try_unmarshal_cookie(mem: &[u8], ptr: i32) -> (r: Result<Option<Cookie>, CookieError>)
    requires
        text_framed_at(mem@, ptr as int),
    ensures
        match r {
            Ok(None) => cookie_of_text(text_at(mem@, ptr as int)) is Absent,
            Ok(Some(c)) => cookie_of_text(text_at(mem@, ptr as int)) == CookieText::Record(c@),
            Err(e) => cookie_of_text(text_at(mem@, ptr as int)) is Malformed,
        },
{
    let text = unmarshal_string(mem, ptr);
    if text.as_str().is_empty() {
        return Ok(None);
    }
    match Cookie::parse(text.as_str()) {
        Ok(_) => Ok(unmarshal_cookie(mem, ptr)),
        Err(e) => Err(e),
    }
}

/// Reads the cookies whose lines make up the text list framed at `ptr`,
/// leaving out the lines that give none.
pub fn unmarshal_cookie_vec(mem: &[u8], ptr: i32) -> (r: Result<Vec<Cookie>, CookieError>)
    requires
        text_list_framed_at(mem@, ptr as int),
    ensures
        match r {
            Ok(cookies) => read_lines(Seq::empty(), text_list_at(mem@, ptr as int)) == Some(
                cookie_views(cookies@),
            ),
            Err(e) => read_lines(Seq::empty(), text_list_at(mem@, ptr as int)) is None,
        },
{
    let lines = unmarshal_string_vec(mem, ptr);
    Cookie::parse_all(&lines)
}

/// A length field lying in memory reads back as the number it was written
/// from.
pub proof fn lemma_field_in_place(mem: Seq<u8>, at: int, n: int)
    requires
        0 <= n <= MAX_FIELD,
        0 <= at,
        at + 4 <= mem.len(),
        mem.subrange(at, at + 4) == le_bytes(n),
    ensures
        le_value(mem, at) == n,
{
    let field = mem.subrange(at, at + 4);
    assert(mem[at] == field[0]);
    assert(mem[at + 1] == field[1]);
    assert(mem[at + 2] == field[2]);
    assert(mem[at + 3] == field[3]);
}

/// Decoding an encoded byte buffer gives the buffer back, the empty one
/// included, wherever in memory its frame lies.
pub proof fn lemma_data_round_trip(mem: Seq<u8>, ptr: int, b: Seq<u8>)
    requires
        b.len() <= MAX_FIELD,
        0 <= ptr,
        ptr + encode_data(b).len() <= mem.len(),
        mem.subrange(ptr, ptr + encode_data(b).len()) == encode_data(b),
    ensures
        data_framed_at(mem, ptr),
        data_at(mem, ptr) == b,
{
    let frame = encode_data(b);
    assert(mem.subrange(ptr, ptr + 4) =~= frame.subrange(0, 4));
    assert(frame.subrange(0, 4) =~= le_bytes(b.len() as int));
    lemma_field_in_place(mem, ptr, b.len() as int);
    let n = b.len() as int;
    assert(data_at(mem, ptr) =~= frame.subrange(4, 4 + n));
    assert(frame.subrange(4, 4 + n) =~= b);
}

/// Decoding an encoded text gives the text back, the empty one included,
/// wherever in memory its frame lies.
pub proof fn lemma_text_round_trip(mem: Seq<u8>, ptr: int, s: Seq<char>)
    requires
        text_fits(s),
        0 <= ptr,
        ptr + encode_text(s).len() <= mem.len(),
        mem.subrange(ptr, ptr + encode_text(s).len()) == encode_text(s),
    ensures
        text_framed_at(mem, ptr),
        le_value(mem, ptr) == encode_utf8(s).len() + 1,
        text_at(mem, ptr) == s,
{
    let frame = encode_text(s);
    let payload = encode_utf8(s);
    assert(mem.subrange(ptr, ptr + 4) =~= frame.subrange(0, 4));
    let n = payload.len() as int;
    assert(frame.subrange(0, 4) =~= le_bytes(n + 1));
    lemma_field_in_place(mem, ptr, n + 1);
    assert(mem.subrange(ptr + 4, ptr + 4 + n) =~= frame.subrange(4, 4 + n));
    assert(frame.subrange(4, 4 + n) =~= payload);
    encode_utf8_valid_utf8(s);
    encode_utf8_decode_utf8(s);
}

proof fn lemma_records_step(items: Seq<Seq<char>>, i: int)
    requires
        0 <= i < items.len(),
    ensures
        encode_records(items.take(i + 1)) == encode_records(items.take(i)) + encode_text(items[i]),
{
    let next = items.take(i + 1);
    assert(next.drop_last() =~= items.take(i));
    assert(next.last() == items[i]);
}

proof fn lemma_records_prefix(items: Seq<Seq<char>>, i: int)
    requires
        0 <= i <= items.len(),
    ensures
        encode_records(items.take(i)).len() <= encode_records(items).len(),
        encode_records(items).subrange(0, encode_records(items.take(i)).len() as int)
            == encode_records(items.take(i)),
    decreases items.len() - i,
{
    if i == items.len() {
        assert(items.take(i) =~= items);
        assert(encode_records(items).subrange(0, encode_records(items).len() as int)
            =~= encode_records(items));
    } else {
        lemma_records_prefix(items, i + 1);
        lemma_records_step(items, i);
        let short = encode_records(items.take(i));
        let long = encode_records(items.take(i + 1));
        assert(long.subrange(0, short.len() as int) =~= short);
        assert(encode_records(items).subrange(0, short.len() as int) =~= long.subrange(
            0,
            short.len() as int,
        ));
    }
}

proof fn lemma_record_slice(mem: Seq<u8>, ptr: int, items: Seq<Seq<char>>, i: int)
    requires
        0 <= ptr,
        ptr + encode_text_list(items).len() <= mem.len(),
        mem.subrange(ptr, ptr + encode_text_list(items).len()) == encode_text_list(items),
        0 <= i < items.len(),
    ensures
        ptr + 4 + encode_records(items.take(i)).len() + encode_text(items[i]).len() <= mem.len(),
        mem.subrange(
            ptr + 4 + encode_records(items.take(i)).len(),
            ptr + 4 + encode_records(items.take(i)).len() + encode_text(items[i]).len(),
        ) == encode_text(items[i]),
{
    let frame = encode_text_list(items);
    let all = encode_records(items);
    lemma_records_step(items, i);
    lemma_records_prefix(items, i + 1);
    let short = encode_records(items.take(i));
    let long = encode_records(items.take(i + 1));
    let one = encode_text(items[i]);
    let lo = short.len() as int;
    let hi = long.len() as int;
    let at = ptr + 4 + lo;
    assert(hi == lo + one.len());
    assert(frame.len() == 4 + all.len());
    assert(long.subrange(lo, hi) =~= one);
    assert(mem.subrange(at, at + one.len()) =~= frame.subrange(4 + lo, 4 + hi));
    assert(frame.subrange(4 + lo, 4 + hi) =~= all.subrange(lo, hi));
    assert(all.subrange(lo, hi) =~= all.subrange(0, hi).subrange(lo, hi));
}

proof fn lemma_record_in_place(mem: Seq<u8>, ptr: int, items: Seq<Seq<char>>, i: int)
    requires
        forall|k: int| 0 <= k < items.len() ==> text_fits(#[trigger] items[k]),
        0 <= ptr,
        ptr + encode_text_list(items).len() <= mem.len(),
        mem.subrange(ptr, ptr + encode_text_list(items).len()) == encode_text_list(items),
        0 <= i <= items.len(),
    ensures
        record_offset(mem, ptr, i as nat) == ptr + 4 + encode_records(items.take(i)).len(),
        i < items.len() ==> text_framed_at(mem, record_offset(mem, ptr, i as nat)) && text_at(
            mem,
            record_offset(mem, ptr, i as nat),
        ) == items[i] && 4 + le_value(mem, record_offset(mem, ptr, i as nat)) == encode_text(
            items[i],
        ).len(),
    decreases i,
{
    if i == 0 {
        assert(items.take(0) =~= Seq::<Seq<char>>::empty());
    } else {
        lemma_record_in_place(mem, ptr, items, i - 1);
        lemma_records_step(items, i - 1);
    }
    let at = ptr + 4 + encode_records(items.take(i)).len();
    assert(record_offset(mem, ptr, i as nat) == at);
    if i < items.len() {
        lemma_record_slice(mem, ptr, items, i);
        assert(text_fits(items[i]));
        lemma_text_round_trip(mem, at, items[i]);
    }
}

/// Decoding an encoded list of texts gives the list back, item for item,
/// wherever in memory its frame lies.
pub proof fn lemma_text_list_round_trip(mem: Seq<u8>, ptr: int, items: Seq<Seq<char>>)
    requires
        items.len() <= MAX_FIELD,
        forall|k: int| 0 <= k < items.len() ==> text_fits(#[trigger] items[k]),
        0 <= ptr,
        ptr + encode_text_list(items).len() <= mem.len(),
        mem.subrange(ptr, ptr + encode_text_list(items).len()) == encode_text_list(items),
    ensures
        text_list_framed_at(mem, ptr),
        text_list_at(mem, ptr) == items,
{
    let frame = encode_text_list(items);
    assert(mem.subrange(ptr, ptr + 4) =~= frame.subrange(0, 4));
    assert(frame.subrange(0, 4) =~= le_bytes(items.len() as int));
    lemma_field_in_place(mem, ptr, items.len() as int);
    assert forall|i: nat| i < le_value(mem, ptr) implies text_framed_at(
        mem,
        #[trigger] record_offset(mem, ptr, i),
    ) by {
        lemma_record_in_place(mem, ptr, items, i as int);
    }
    assert forall|i: int| 0 <= i < items.len() implies text_list_at(mem, ptr)[i] == items[i] by {
        lemma_record_in_place(mem, ptr, items, i);
    }
    assert(text_list_at(mem, ptr) =~= items);
}

} // verus!
