use vstd::prelude::*;
use vstd::bytes::*;
use vstd::slice::*;
use vstd::string::*;
use vstd::utf8::*;
use crate::forms::{
    is_canonical_link, is_canonical_timestamp, link_is_canonical, parse_timestamp, parse_url,
    string_from_utf8, timestamp_is_canonical, timestamp_serialization, url_serialization,
};
use crate::structures::{opt_id_view, opt_string_view, strings_view, Bookmark, BookmarkView};

verus! {

/// Whether a length can be written as a 64-bit count.
pub open spec fn fits(n: nat) -> bool {
    n <= u64::MAX
}

/// A count: eight bytes, least significant first.
pub open spec fn wire_len(n: nat) -> Seq<u8> {
    spec_u64_to_le_bytes(n as u64)
}

/// A run of bytes: its length as a count, then the bytes.
pub open spec fn wire_bytes(raw: Seq<u8>) -> Seq<u8> {
    wire_len(raw.len()) + raw
}

/// A text: its UTF-8 bytes as a run.
pub open spec fn wire_text(text: Seq<char>) -> Seq<u8> {
    wire_bytes(encode_utf8(text))
}

/// An optional text: a zero byte, or a one byte and the text.
pub open spec fn wire_opt_text(text: Option<Seq<char>>) -> Seq<u8> {
    match text {
        None => seq![0u8],
        Some(t) => seq![1u8] + wire_text(t),
    }
}

/// An optional identifier: a zero byte, or a one byte and its bytes as a run.
pub open spec fn wire_opt_id(id: Option<Seq<u8>>) -> Seq<u8> {
    match id {
        None => seq![0u8],
        Some(raw) => seq![1u8] + wire_bytes(raw),
    }
}

/// Texts one after another, without a count.
pub open spec fn wire_texts(items: Seq<Seq<char>>) -> Seq<u8>
    decreases items.len(),
{
    if items.len() == 0 {
        Seq::empty()
    } else {
        wire_text(items[0]) + wire_texts(items.skip(1))
    }
}

/// A list of texts: how many there are, then each of them.
pub open spec fn wire_list(items: Seq<Seq<char>>) -> Seq<u8> {
    wire_len(items.len()) + wire_texts(items)
}

/// The binary form of a bookmark: its fields in declared order.
pub open spec fn wire_bookmark(b: BookmarkView) -> Seq<u8> {
    wire_opt_id(b.container) + wire_text(b.created_at) + wire_opt_text(b.description) + wire_text(
        b.label,
    ) + wire_text(b.link) + wire_list(b.tags)
}

/// Reads a count from the front of `b`; gives it and what follows it.
pub open spec fn parse_len(b: Seq<u8>) -> Option<(nat, Seq<u8>)> {
    if b.len() >= 8 {
        Some((spec_u64_from_le_bytes(b.take(8)) as nat, b.skip(8)))
    } else {
        None
    }
}

/// Reads a run of bytes from the front of `b`.
pub open spec fn parse_bytes(b: Seq<u8>) -> Option<(Seq<u8>, Seq<u8>)> {
    match parse_len(b) {
        Some((n, rest)) => if n <= rest.len() {
            Some((rest.take(n as int), rest.skip(n as int)))
        } else {
            None
        },
        None => None,
    }
}

/// Reads a text from the front of `b`; its bytes must be well-formed UTF-8.
pub open spec fn parse_text(b: Seq<u8>) -> Option<(Seq<char>, Seq<u8>)> {
    match parse_bytes(b) {
        Some((raw, rest)) => if valid_utf8(raw) {
            Some((decode_utf8(raw), rest))
        } else {
            None
        },
        None => None,
    }
}

/// Reads an optional text; the leading byte must be zero or one.
pub open spec fn parse_opt_text(b: Seq<u8>) -> Option<(Option<Seq<char>>, Seq<u8>)> {
    if b.len() == 0 {
        None
    } else if b[0] == 0 {
        Some((None, b.skip(1)))
    } else if b[0] == 1 {
        match parse_text(b.skip(1)) {
            Some((text, rest)) => Some((Some(text), rest)),
            None => None,
        }
    } else {
        None
    }
}

/// Reads an optional identifier; where present it must be 16 bytes long.
pub open spec fn parse_opt_id(b: Seq<u8>) -> Option<(Option<Seq<u8>>, Seq<u8>)> {
    if b.len() == 0 {
        None
    } else if b[0] == 0 {
        Some((None, b.skip(1)))
    } else if b[0] == 1 {
        match parse_bytes(b.skip(1)) {
            Some((raw, rest)) => if raw.len() == 16 {
                Some((Some(raw), rest))
            } else {
                None
            },
            None => None,
        }
    } else {
        None
    }
}

/// Reads `count` texts one after another.
pub open spec fn parse_texts(b: Seq<u8>, count: nat) -> Option<(Seq<Seq<char>>, Seq<u8>)>
    decreases count,
{
    if count == 0 {
        Some((Seq::empty(), b))
    } else {
        match parse_text(b) {
            Some((first, rest)) => match parse_texts(rest, (count - 1) as nat) {
                Some((others, after)) => Some((seq![first] + others, after)),
                None => None,
            },
            None => None,
        }
    }
}

/// Reads a list of texts: a count, then that many texts.
pub open spec fn parse_list(b: Seq<u8>) -> Option<(Seq<Seq<char>>, Seq<u8>)> {
    match parse_len(b) {
        Some((count, rest)) => parse_texts(rest, count),
        None => None,
    }
}

/// Reads the six fields of a bookmark from the front of `b`, as they stand
/// in the bytes. Bytes after the last field are left unread.
pub open spec fn parse_fields(b: Seq<u8>) -> Option<BookmarkView> {
    match parse_opt_id(b) {
        Some((container, b1)) => match parse_text(b1) {
            Some((created_at, b2)) => match parse_opt_text(b2) {
                Some((description, b3)) => match parse_text(b3) {
                    Some((label, b4)) => match parse_text(b4) {
                        Some((link, b5)) => match parse_list(b5) {
                            Some((tags, _)) => Some(
                                BookmarkView { container, created_at, description, label, link, tags },
                            ),
                            None => None,
                        },
                        None => None,
                    },
                    None => None,
                },
                None => None,
            },
            None => None,
        },
        None => None,
    }
}

/// Puts the link and the timestamp of `raw` into canonical form; `None`
/// where one of them is no URL or no timestamp.
pub open spec fn canonical_record(raw: BookmarkView) -> Option<BookmarkView> {
    match (url_serialization(raw.link), timestamp_serialization(raw.created_at)) {
        (Some(link), Some(created_at)) => Some(BookmarkView { link, created_at, ..raw }),
        _ => None,
    }
}

/// The bookmark that `b` stands for, if any.
pub open spec fn decode_spec(b: Seq<u8>) -> Option<BookmarkView> {
    match parse_fields(b) {
        Some(raw) => canonical_record(raw),
        None => None,
    }
}

impl BookmarkView {
    /// Every length of the record can be written as a 64-bit count, and the
    /// identifier, where present, has 16 bytes.
    pub open spec fn fits_wire(self) -> bool {
        &&& self.container matches Some(id) ==> id.len() == 16
        &&& fits(encode_utf8(self.created_at).len())
        &&& self.description matches Some(text) ==> fits(encode_utf8(text).len())
        &&& fits(encode_utf8(self.label).len())
        &&& fits(encode_utf8(self.link).len())
        &&& fits(self.tags.len())
        &&& forall|i: int| 0 <= i < self.tags.len() ==> fits(encode_utf8(#[trigger] self.tags[i]).len())
    }

    /// A valid record: it fits the binary form, and its link and timestamp
    /// are in canonical form.
    pub open spec fn wf(self) -> bool {
        &&& self.fits_wire()
        &&& is_canonical_link(self.link)
        &&& is_canonical_timestamp(self.created_at)
    }
}

/// A count that was written is read back, and what followed it is left.
pub proof fn lemma_parse_len(n: nat, rest: Seq<u8>)
    requires
        fits(n),
    ensures
        wire_len(n).len() == 8,
        parse_len(wire_len(n) + rest) == Some((n, rest)),
{
    lemma_auto_spec_u64_to_from_le_bytes();
    let b = wire_len(n) + rest;
    assert(b.take(8) =~= wire_len(n));
    assert(b.skip(8) =~= rest);
}

/// A run of bytes that was written is read back.
pub proof fn lemma_parse_bytes(raw: Seq<u8>, rest: Seq<u8>)
    requires
        fits(raw.len()),
    ensures
        parse_bytes(wire_bytes(raw) + rest) == Some((raw, rest)),
{
    lemma_parse_len(raw.len(), raw + rest);
    assert(wire_bytes(raw) + rest =~= wire_len(raw.len()) + (raw + rest));
    assert((raw + rest).take(raw.len() as int) =~= raw);
    assert((raw + rest).skip(raw.len() as int) =~= rest);
}

/// A text that was written is read back.
pub proof fn lemma_parse_text(text: Seq<char>, rest: Seq<u8>)
    requires
        fits(encode_utf8(text).len()),
    ensures
        parse_text(wire_text(text) + rest) == Some((text, rest)),
{
    lemma_parse_bytes(encode_utf8(text), rest);
    encode_utf8_valid_utf8(text);
    encode_utf8_decode_utf8(text);
}

/// An optional text that was written is read back.
pub proof fn lemma_parse_opt_text(text: Option<Seq<char>>, rest: Seq<u8>)
    requires
        text matches Some(t) ==> fits(encode_utf8(t).len()),
    ensures
        parse_opt_text(wire_opt_text(text) + rest) == Some((text, rest)),
{
    let b = wire_opt_text(text) + rest;
    match text {
        None => {
            assert(b.skip(1) =~= rest);
        },
        Some(t) => {
            assert(b.skip(1) =~= wire_text(t) + rest);
            lemma_parse_text(t, rest);
        },
    }
}

/// An optional identifier that was written is read back.
pub proof fn lemma_parse_opt_id(id: Option<Seq<u8>>, rest: Seq<u8>)
    requires
        id matches Some(raw) ==> raw.len() == 16,
    ensures
        parse_opt_id(wire_opt_id(id) + rest) == Some((id, rest)),
{
    let b = wire_opt_id(id) + rest;
    match id {
        None => {
            assert(b.skip(1) =~= rest);
        },
        Some(raw) => {
            assert(b.skip(1) =~= wire_bytes(raw) + rest);
            lemma_parse_bytes(raw, rest);
        },
    }
}

/// Texts that were written one after another are read back.
pub proof fn lemma_parse_texts(items: Seq<Seq<char>>, rest: Seq<u8>)
    requires
        forall|i: int| 0 <= i < items.len() ==> fits(encode_utf8(#[trigger] items[i]).len()),
    ensures
        parse_texts(wire_texts(items) + rest, items.len()) == Some((items, rest)),
    decreases items.len(),
{
    if items.len() == 0 {
        assert(wire_texts(items) + rest =~= rest);
        assert(items =~= Seq::empty());
    } else {
        let tail = items.skip(1);
        assert forall|i: int| 0 <= i < tail.len() implies fits(
            encode_utf8(#[trigger] tail[i]).len(),
        ) by {
            assert(tail[i] == items[i + 1]);
        }
        lemma_parse_texts(tail, rest);
        lemma_parse_text(items[0], wire_texts(tail) + rest);
        assert(wire_texts(items) + rest =~= wire_text(items[0]) + (wire_texts(tail) + rest));
        assert(seq![items[0]] + tail =~= items);
    }
}

/// A list of texts that was written is read back.
pub proof fn lemma_parse_list(items: Seq<Seq<char>>, rest: Seq<u8>)
    requires
        fits(items.len()),
        forall|i: int| 0 <= i < items.len() ==> fits(encode_utf8(#[trigger] items[i]).len()),
    ensures
        parse_list(wire_list(items) + rest) == Some((items, rest)),
{
    lemma_parse_len(items.len(), wire_texts(items) + rest);
    lemma_parse_texts(items, rest);
    assert(wire_list(items) + rest =~= wire_len(items.len()) + (wire_texts(items) + rest));
}

/// The fields of a record that fits are read back from its binary form,
/// whatever bytes follow it.
pub proof fn lemma_parse_fields(b: BookmarkView, rest: Seq<u8>)
    requires
        b.fits_wire(),
    ensures
        parse_fields(wire_bookmark(b) + rest) == Some(b),
{
    let r5 = wire_list(b.tags) + rest;
    let r4 = wire_text(b.link) + r5;
    let r3 = wire_text(b.label) + r4;
    let r2 = wire_opt_text(b.description) + r3;
    let r1 = wire_text(b.created_at) + r2;
    assert(wire_bookmark(b) + rest =~= wire_opt_id(b.container) + r1);
    lemma_parse_opt_id(b.container, r1);
    lemma_parse_text(b.created_at, r2);
    lemma_parse_opt_text(b.description, r3);
    lemma_parse_text(b.label, r4);
    lemma_parse_text(b.link, r5);
    lemma_parse_list(b.tags, rest);
}

/// Round trip: decoding the binary form of a valid record gives the record
/// back, field by field.
pub proof fn lemma_round_trip(b: BookmarkView)
    requires
        b.wf(),
    ensures
        decode_spec(wire_bookmark(b)) == Some(b),
{
    lemma_parse_fields(b, Seq::empty());
    assert(wire_bookmark(b) + Seq::<u8>::empty() =~= wire_bookmark(b));
}

/// Two valid records with the same binary form are the same record.
pub proof fn lemma_wire_injective(a: BookmarkView, b: BookmarkView)
    requires
        a.wf(),
        b.wf(),
        wire_bookmark(a) == wire_bookmark(b),
    ensures
        a == b,
{
    lemma_round_trip(a);
    lemma_round_trip(b);
}

/// Appends a count to `out`.
fn put_len(out: &mut Vec<u8>, n: usize)
    ensures
        final(out)@ == old(out)@ + wire_len(n as nat),
        fits(n as nat),
{
    let mut raw = u64_to_le_bytes(n as u64);
    out.append(&mut raw);
}

/// Appends a text to `out`.
fn put_text(out: &mut Vec<u8>, text: &str)
    ensures
        final(out)@ == old(out)@ + wire_text(text@),
        fits(encode_utf8(text@).len()),
{
    let mut raw = text.as_bytes_vec();
    let ghost before = out@;
    put_len(out, raw.len());
    out.append(&mut raw);
    assert(out@ =~= before + wire_text(text@));
}

/// Appends an optional text to `out`.
fn put_opt_text(out: &mut Vec<u8>, text: &Option<String>)
    ensures
        final(out)@ == old(out)@ + wire_opt_text(opt_string_view(*text)),
        opt_string_view(*text) matches Some(t) ==> fits(encode_utf8(t).len()),
{
    let ghost before = out@;
    match text {
        None => {
            out.push(0u8);
            assert(out@ =~= before + seq![0u8]);
        },
        Some(t) => {
            out.push(1u8);
            put_text(out, t.as_str());
            assert(out@ =~= before + (seq![1u8] + wire_text(t@)));
        },
    }
}

/// Appends an optional identifier to `out`.
fn put_opt_id(out: &mut Vec<u8>, id: &Option<[u8; 16]>)
    ensures
        final(out)@ == old(out)@ + wire_opt_id(opt_id_view(*id)),
{
    let ghost before = out@;
    match id {
        None => {
            out.push(0u8);
            assert(out@ =~= before + seq![0u8]);
        },
        Some(raw) => {
            out.push(1u8);
            put_len(out, 16);
            let mut i: usize = 0;
            while i < 16
                invariant
                    0 <= i <= 16,
                    out@ == before + seq![1u8] + wire_len(16) + raw@.take(i as int),
                decreases 16 - i,
            {
                out.push(raw[i]);
                assert(raw@.take(i + 1) =~= raw@.take(i as int).push(raw@[i as int]));
                i = i + 1;
            }
            assert(raw@.take(16) =~= raw@);
            assert(out@ =~= before + (seq![1u8] + wire_bytes(raw@)));
        },
    }
}

/// Texts written one after another: a text appended at the end is written
/// last.
pub proof fn lemma_wire_texts_push(items: Seq<Seq<char>>, last: Seq<char>)
    ensures
        wire_texts(items.push(last)) == wire_texts(items) + wire_text(last),
    decreases items.len(),
{
    let all = items.push(last);
    if items.len() == 0 {
        assert(all.skip(1) =~= Seq::<Seq<char>>::empty());
        assert(wire_texts(all) =~= wire_text(last) + wire_texts(all.skip(1)));
        assert(wire_texts(all) =~= wire_texts(items) + wire_text(last));
    } else {
        assert(all.skip(1) =~= items.skip(1).push(last));
        lemma_wire_texts_push(items.skip(1), last);
        assert(wire_texts(all) =~= wire_texts(items) + wire_text(last));
    }
}

/// Appends a list of texts to `out`.
fn put_list(out: &mut Vec<u8>, items: &Vec<String>)
    ensures
        final(out)@ == old(out)@ + wire_list(strings_view(items@)),
        fits(items@.len()),
        forall|i: int| 0 <= i < items@.len() ==> fits(encode_utf8(#[trigger] items@[i]@).len()),
{
    let ghost before = out@;
    let ghost all = strings_view(items@);
    put_len(out, items.len());
    let mut i: usize = 0;
    while i < items.len()
        invariant
            0 <= i <= items@.len(),
            all == strings_view(items@),
            out@ == before + wire_len(items@.len()) + wire_texts(all.take(i as int)),
            forall|j: int| 0 <= j < i ==> fits(encode_utf8(#[trigger] items@[j]@).len()),
        decreases items@.len() - i,
    {
        put_text(out, items[i].as_str());
        proof {
            lemma_wire_texts_push(all.take(i as int), all[i as int]);
            assert(all.take(i + 1) =~= all.take(i as int).push(all[i as int]));
            assert(out@ =~= before + wire_len(items@.len()) + wire_texts(all.take(i + 1)));
        }
        i = i + 1;
    }
    assert(all.take(items@.len() as int) =~= all);
    assert(out@ =~= before + (wire_len(all.len()) + wire_texts(all)));
}

/// The binary form of the fields of `record`, whatever its link and
/// timestamp hold.
pub fn encode_fields(record: &Bookmark) -> (bytes: Vec<u8>)
    ensures
        bytes@ == wire_bookmark(record@),
        record@.fits_wire(),
{
    let mut out: Vec<u8> = Vec::new();
    put_opt_id(&mut out, &record.container);
    put_text(&mut out, record.created_at.as_str());
    put_opt_text(&mut out, &record.description);
    put_text(&mut out, record.label.as_str());
    put_text(&mut out, record.link.as_str());
    put_list(&mut out, &record.tags);
    assert(out@ =~= wire_bookmark(record@));
    out
}

/// The binary form of `record`; `None` exactly where the record is not
/// valid.
pub fn encode_bookmark(record: &Bookmark) -> (r: Option<Vec<u8>>)
    ensures
        r is Some <==> record@.wf(),
        r matches Some(bytes) ==> bytes@ == wire_bookmark(record@),
{
    if !link_is_canonical(record.link.as_str()) {
        return None;
    }
    if !timestamp_is_canonical(record.created_at.as_str()) {
        return None;
    }
    Some(encode_fields(record))
}

/// Reads a count at `pos`.
fn take_len(bytes: &[u8], pos: usize) -> (r: Option<(u64, usize)>)
    requires
        pos <= bytes@.len(),
    ensures
        match r {
            Some((n, next)) => pos <= next <= bytes@.len() && parse_len(bytes@.skip(pos as int))
                == Some((n as nat, bytes@.skip(next as int))),
            None => parse_len(bytes@.skip(pos as int)) is None,
        },
{
    if bytes.len() - pos < 8 {
        return None;
    }
    let raw = slice_subrange(bytes, pos, pos + 8);
    let n = u64_from_le_bytes(raw);
    proof {
        assert(bytes@.skip(pos as int).take(8) =~= bytes@.subrange(pos as int, pos + 8));
        assert(bytes@.skip(pos as int).skip(8) =~= bytes@.skip(pos + 8));
    }
    Some((n, pos + 8))
}

/// Reads a run of bytes at `pos`.
fn take_bytes<'a>(bytes: &'a [u8], pos: usize) -> (r: Option<(&'a [u8], usize)>)
    requires
        pos <= bytes@.len(),
    ensures
        match r {
            Some((raw, next)) => pos <= next <= bytes@.len() && parse_bytes(
                bytes@.skip(pos as int),
            ) == Some((raw@, bytes@.skip(next as int))),
            None => parse_bytes(bytes@.skip(pos as int)) is None,
        },
{
    match take_len(bytes, pos) {
        None => None,
        Some((n, start)) => {
            if n > (bytes.len() - start) as u64 {
                return None;
            }
            let end: usize = start + n as usize;
            let raw = slice_subrange(bytes, start, end);
            proof {
                let rest = bytes@.skip(start as int);
                assert(rest.take(n as int) =~= bytes@.subrange(start as int, end as int));
                assert(rest.skip(n as int) =~= bytes@.skip(end as int));
            }
            Some((raw, end))
        },
    }
}

/// Reads a text at `pos`.
fn take_text(bytes: &[u8], pos: usize) -> (r: Option<(String, usize)>)
    requires
        pos <= bytes@.len(),
    ensures
        match r {
            Some((text, next)) => pos <= next <= bytes@.len() && parse_text(
                bytes@.skip(pos as int),
            ) == Some((text@, bytes@.skip(next as int))),
            None => parse_text(bytes@.skip(pos as int)) is None,
        },
{
    match take_bytes(bytes, pos) {
        None => None,
        Some((raw, next)) => match string_from_utf8(slice_to_vec(raw)) {
            None => None,
            Some(text) => Some((text, next)),
        },
    }
}

/// Reads an optional text at `pos`.
fn take_opt_text(bytes: &[u8], pos: usize) -> (r: Option<(Option<String>, usize)>)
    requires
        pos <= bytes@.len(),
    ensures
        match r {
            Some((text, next)) => pos <= next <= bytes@.len() && parse_opt_text(
                bytes@.skip(pos as int),
            ) == Some((opt_string_view(text), bytes@.skip(next as int))),
            None => parse_opt_text(bytes@.skip(pos as int)) is None,
        },
{
    if pos >= bytes.len() {
        return None;
    }
    let tag: u8 = bytes[pos];
    proof {
        assert(bytes@.skip(pos as int)[0] == tag);
        assert(bytes@.skip(pos as int).skip(1) =~= bytes@.skip(pos + 1));
    }
    if tag == 0 {
        Some((None, pos + 1))
    } else if tag == 1 {
        match take_text(bytes, pos + 1) {
            None => None,
            Some((text, next)) => Some((Some(text), next)),
        }
    } else {
        None
    }
}

/// Reads an optional identifier at `pos`.
fn take_opt_id(bytes: &[u8], pos: usize) -> (r: Option<(Option<[u8; 16]>, usize)>)
    requires
        pos <= bytes@.len(),
    ensures
        match r {
            Some((id, next)) => pos <= next <= bytes@.len() && parse_opt_id(
                bytes@.skip(pos as int),
            ) == Some((opt_id_view(id), bytes@.skip(next as int))),
            None => parse_opt_id(bytes@.skip(pos as int)) is None,
        },
{
    if pos >= bytes.len() {
        return None;
    }
    let tag: u8 = bytes[pos];
    proof {
        assert(bytes@.skip(pos as int)[0] == tag);
        assert(bytes@.skip(pos as int).skip(1) =~= bytes@.skip(pos + 1));
    }
    if tag == 0 {
        Some((None, pos + 1))
    } else if tag == 1 {
        match take_bytes(bytes, pos + 1) {
            None => None,
            Some((raw, next)) => {
                if raw.len() != 16 {
                    return None;
                }
                let mut id = [0u8; 16];
                let mut k: usize = 0;
                while k < 16
                    invariant
                        0 <= k <= 16,
                        raw@.len() == 16,
                        forall|j: int| 0 <= j < k ==> id@[j] == raw@[j],
                    decreases 16 - k,
                {
                    id[k] = raw[k];
                    k = k + 1;
                }
                assert(id@ =~= raw@);
                Some((Some(id), next))
            },
        }
    } else {
        None
    }
}

/// Reads a list of texts at `pos`.
fn take_list(bytes: &[u8], pos: usize) -> (r: Option<(Vec<String>, usize)>)
    requires
        pos <= bytes@.len(),
    ensures
        match r {
            Some((items, next)) => pos <= next <= bytes@.len() && parse_list(
                bytes@.skip(pos as int),
            ) == Some((strings_view(items@), bytes@.skip(next as int))),
            None => parse_list(bytes@.skip(pos as int)) is None,
        },
{
    match take_len(bytes, pos) {
        None => None,
        Some((count, start)) => {
            let mut items: Vec<String> = Vec::new();
            let mut cur: usize = start;
            let mut i: u64 = 0;
            proof {
                assert(strings_view(items@) =~= Seq::<Seq<char>>::empty());
                match parse_texts(bytes@.skip(cur as int), count as nat) {
                    Some((others, after)) => {
                        assert(strings_view(items@) + others =~= others);
                    },
                    None => {},
                }
            }
            while i < count
                invariant
                    i <= count,
                    pos <= start <= cur <= bytes@.len(),
                    parse_len(bytes@.skip(pos as int)) == Some(
                        (count as nat, bytes@.skip(start as int)),
                    ),
                    parse_texts(bytes@.skip(start as int), count as nat) == (match parse_texts(
                        bytes@.skip(cur as int),
                        (count - i) as nat,
                    ) {
                        Some((others, after)) => Some((strings_view(items@) + others, after)),
                        None => None,
                    }),
                decreases count - i,
            {
                let ghost before = strings_view(items@);
                match take_text(bytes, cur) {
                    None => {
                        return None;
                    },
                    Some((text, next)) => {
                        proof {
                            match parse_texts(bytes@.skip(next as int), (count - i - 1) as nat) {
                                Some((others, after)) => {
                                    assert(before + (seq![text@] + others) =~= before.push(text@)
                                        + others);
                                },
                                None => {},
                            }
                        }
                        items.push(text);
                        assert(strings_view(items@) =~= before.push(text@));
                        cur = next;
                        i = i + 1;
                    },
                }
            }
            assert(strings_view(items@) + Seq::<Seq<char>>::empty() =~= strings_view(items@));
            Some((items, cur))
        },
    }
}

/// The fields that `bytes` hold, as they stand in the bytes; `None` where
/// the bytes do not hold the six fields. Bytes after the last field are
/// ignored.
pub fn decode_fields(bytes: &[u8]) -> (r: Option<Bookmark>)
    ensures
        match r {
            Some(raw) => parse_fields(bytes@) == Some(raw@),
            None => parse_fields(bytes@) is None,
        },
{
    assert(bytes@.skip(0) =~= bytes@);
    let (container, p1) = match take_opt_id(bytes, 0) {
        Some(found) => found,
        None => {
            return None;
        },
    };
    let (created_at, p2) = match take_text(bytes, p1) {
        Some(found) => found,
        None => {
            return None;
        },
    };
    let (description, p3) = match take_opt_text(bytes, p2) {
        Some(found) => found,
        None => {
            return None;
        },
    };
    let (label, p4) = match take_text(bytes, p3) {
        Some(found) => found,
        None => {
            return None;
        },
    };
    let (link, p5) = match take_text(bytes, p4) {
        Some(found) => found,
        None => {
            return None;
        },
    };
    let (tags, _) = match take_list(bytes, p5) {
        Some(found) => found,
        None => {
            return None;
        },
    };
    Some(Bookmark { container, created_at, description, label, link, tags })
}

/// `raw` with its link and its timestamp in canonical form; `None` where
/// the link is no URL or the timestamp no timestamp.
pub fn canonical_bookmark(raw: Bookmark) -> (r: Option<Bookmark>)
    ensures
        match r {
            Some(record) => canonical_record(raw@) == Some(record@),
            None => canonical_record(raw@) is None,
        },
{
    let created_at = match parse_timestamp(raw.created_at.as_str()) {
        Some(text) => text,
        None => {
            return None;
        },
    };
    let link = match parse_url(raw.link.as_str()) {
        Some(text) => text,
        None => {
            return None;
        },
    };
    Some(
        Bookmark {
            container: raw.container,
            created_at,
            description: raw.description,
            label: raw.label,
            link,
            tags: raw.tags,
        },
    )
}

/// The bookmark that `bytes` stand for. The link and the timestamp come out
/// in canonical form; bytes after the last field are ignored.
pub fn decode_bookmark(bytes: &[u8]) -> (r: Option<Bookmark>)
    ensures
        match r {
            Some(record) => decode_spec(bytes@) == Some(record@),
            None => decode_spec(bytes@) is None,
        },
{
    match decode_fields(bytes) {
        Some(raw) => canonical_bookmark(raw),
        None => None,
    }
}

} // verus!
