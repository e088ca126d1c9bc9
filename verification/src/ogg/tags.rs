//! The comment header of an Ogg Opus stream (RFC 7845 section 5.2).

use vstd::prelude::*;
use vstd::string::*;
use vstd::utf8::*;

use super::endian::{
    law_le_bytes_read_back, le32_at, le_bytes, le_value, lemma_le_ranges, lemma_le_writes_back,
    push_le32,
};
use crate::error::{Error, Result};

verus! {

/// The comment header.
///
/// Comments are held exactly as they appear on the wire, so a stream survives a
/// read/write round trip even when it carries entries this crate does not
/// understand. Use [`OpusTags::get`] and [`OpusTags::push`] for the usual
/// `NAME=value` access.
#[derive(Debug, Clone, PartialEq, Eq)]
pub struct OpusTags {
    /// Identifies the encoder that produced the stream.
    pub vendor: String,
    /// Raw `NAME=value` entries, in file order.
    pub comments: Vec<String>,
}

/// A comment header as text.
pub struct TagsView {
    /// The vendor.
    pub vendor: Seq<char>,
    /// The comments.
    pub comments: Seq<Seq<char>>,
}

impl View for OpusTags {
    type V = TagsView;

    open spec fn view(&self) -> TagsView {
        TagsView { vendor: self.vendor@, comments: texts(self.comments@) }
    }
}

/// The texts of a list of strings.
pub open spec fn texts(v: Seq<String>) -> Seq<Seq<char>> {
    Seq::new(v.len(), |i: int| v[i]@)
}

/// The UTF-8 forms of a list of texts.
pub open spec fn encoded(v: Seq<Seq<char>>) -> Seq<Seq<u8>> {
    Seq::new(v.len(), |i: int| encode_utf8(v[i]))
}

/// The bytes the header opens with.
pub open spec fn tags_magic() -> Seq<u8> {
    seq![0x4fu8, 0x70, 0x75, 0x73, 0x54, 0x61, 0x67, 0x73]
}

/// A length or count as stored, which keeps its low 32 bits.
pub open spec fn count_bytes(n: int) -> Seq<u8> {
    le_bytes(n % 0x1_0000_0000, 4)
}

/// A string as stored: its length, then its bytes.
pub open spec fn string_bytes(s: Seq<u8>) -> Seq<u8> {
    count_bytes(s.len() as int) + s
}

/// Strings stored one after the other.
pub open spec fn strings_bytes(v: Seq<Seq<u8>>) -> Seq<u8>
    decreases v.len(),
{
    if v.len() == 0 {
        Seq::empty()
    } else {
        strings_bytes(v.drop_last()) + string_bytes(v.last())
    }
}

/// The header on the wire.
pub open spec fn tags_bytes(t: TagsView) -> Seq<u8> {
    tags_magic() + string_bytes(encode_utf8(t.vendor)) + count_bytes(t.comments.len() as int)
        + strings_bytes(encoded(t.comments))
}

/// Whether every length and count of the header fits the field that stores it.
pub open spec fn tags_fit(t: TagsView) -> bool {
    &&& encode_utf8(t.vendor).len() < 0x1_0000_0000
    &&& t.comments.len() < 0x1_0000_0000
    &&& forall|i: int|
        0 <= i < t.comments.len() ==> encode_utf8(#[trigger] t.comments[i]).len() < 0x1_0000_0000
}

/// The length stored at `pos`, which must leave that many bytes behind it.
pub open spec fn stored_length(data: Seq<u8>, pos: int) -> Result<int> {
    if data.len() < pos + 4 {
        Err(Error::InvalidStream("OpusTags is truncated"))
    } else if data.len() < pos + 4 + le_value(data.subrange(pos, pos + 4)) {
        Err(Error::InvalidStream("OpusTags string runs past the packet"))
    } else {
        Ok(le_value(data.subrange(pos, pos + 4)))
    }
}

/// `k` strings stored from `pos` on, and where they end.
pub open spec fn stored_strings(data: Seq<u8>, pos: int, k: int) -> Result<(Seq<Seq<u8>>, int)>
    decreases k,
{
    if k <= 0 {
        Ok((Seq::empty(), pos))
    } else {
        match stored_strings(data, pos, k - 1) {
            Err(e) => Err(e),
            Ok((v, at)) => match stored_length(data, at) {
                Err(e) => Err(e),
                Ok(n) => Ok((v.push(data.subrange(at + 4, at + 4 + n)), at + 4 + n)),
            },
        }
    }
}

/// The vendor and comments a packet holds, as bytes, or why it holds none.
pub open spec fn spec_parse_tags(data: Seq<u8>) -> Result<(Seq<u8>, Seq<Seq<u8>>)> {
    if data.len() < 12 || data.take(8) != tags_magic() {
        Err(Error::InvalidStream("not an OpusTags packet"))
    } else {
        match stored_length(data, 8) {
            Err(e) => Err(e),
            Ok(vlen) => match stored_length(data, 12 + vlen) {
                Err(e) => Err(e),
                Ok(count) => if count * 4 > data.len() - (16 + vlen) {
                    Err(Error::InvalidStream("OpusTags comment count exceeds the packet"))
                } else {
                    match stored_strings(data, 16 + vlen, count) {
                        Err(e) => Err(e),
                        Ok((comments, end)) => Ok((data.subrange(12, 12 + vlen), comments)),
                    }
                },
            },
        }
    }
}

/// The text that bytes stand for when whatever is not UTF-8 in them is replaced.
pub uninterp spec fn lossy_text(bytes: Seq<u8>) -> Seq<char>;

/// `String::from_utf8_lossy`, made owned. Valid UTF-8 becomes the text it
/// encodes; of other bytes only that the text is a function of them is claimed.
#[verifier::external_body]
fn string_from_bytes(bytes: &[u8]) -> (s: String)
    ensures
        s@ == lossy_text(bytes@),
        valid_utf8(bytes@) ==> s@ == decode_utf8(bytes@),
{
    String::from_utf8_lossy(bytes).into_owned()
}

/// Whether `text` is what reading `bytes` gives: the text they encode, or where
/// they are not UTF-8 the text with replacements.
pub open spec fn reads_as(bytes: Seq<u8>, text: Seq<char>) -> bool {
    text == lossy_text(bytes) && (valid_utf8(bytes) ==> text == decode_utf8(bytes))
}

/// Append a length or count.
fn push_count(n: usize, out: &mut Vec<u8>)
    ensures
        final(out)@ == old(out)@ + count_bytes(n as int),
{
    push_le32((n as u64 % 0x1_0000_0000) as u32, out);
}

/// Append a string.
fn push_string(s: &String, out: &mut Vec<u8>)
    ensures
        final(out)@ == old(out)@ + string_bytes(encode_utf8(s@)),
{
    let bytes = s.as_str().as_bytes();
    push_count(bytes.len(), out);
    out.extend_from_slice(bytes);
    assert(out@ =~= old(out)@ + string_bytes(encode_utf8(s@)));
}

/// Read the length at `pos`.
fn read_length(data: &[u8], pos: usize) -> (r: Result<usize>)
    requires
        pos <= data@.len(),
    ensures
        match r {
            Ok(n) => stored_length(data@, pos as int) == Ok::<int, Error>(n as int) && pos + 4 + n
                <= data@.len(),
            Err(e) => stored_length(data@, pos as int) == Err::<int, Error>(e),
        },
{
    if data.len() - pos < 4 {
        return Err(Error::InvalidStream("OpusTags is truncated"));
    }
    let n: u32 = le32_at(data, pos);
    if (data.len() - pos - 4) as u64 >= n as u64 {
        Ok(n as usize)
    } else {
        Err(Error::InvalidStream("OpusTags string runs past the packet"))
    }
}

// ---------------------------------------------------------------------------
// Names and values
// ---------------------------------------------------------------------------
/// A byte with ASCII capitals made small.
pub open spec fn lower(b: u8) -> u8 {
    if 0x41 <= b <= 0x5a {
        (b + 32) as u8
    } else {
        b
    }
}

/// Whether two names are the same but for the case of ASCII letters.
pub open spec fn same_name(a: Seq<u8>, b: Seq<u8>) -> bool {
    &&& a.len() == b.len()
    &&& forall|i: int| 0 <= i < a.len() ==> lower(#[trigger] a[i]) == lower(b[i])
}

/// The bytes ahead of the first `=`, or all of them where there is none.
pub open spec fn name_length(c: Seq<u8>) -> int
    decreases c.len(),
{
    if c.len() == 0 || c[0] == 0x3d {
        0
    } else {
        1 + name_length(c.skip(1))
    }
}

/// The value a comment stores under `name`.
pub open spec fn comment_value(c: Seq<u8>, name: Seq<u8>) -> Option<Seq<u8>> {
    let k = name_length(c);
    if k < c.len() && same_name(c.take(k), name) {
        Some(c.skip(k + 1))
    } else {
        None
    }
}

/// Every value stored under `name`, in order.
pub open spec fn values(comments: Seq<Seq<char>>, name: Seq<u8>) -> Seq<Seq<u8>>
    decreases comments.len(),
{
    if comments.len() == 0 {
        Seq::empty()
    } else {
        let before = values(comments.drop_last(), name);
        match comment_value(encode_utf8(comments.last()), name) {
            Some(v) => before.push(v),
            None => before,
        }
    }
}

/// Whether a comment may have this name: ASCII 0x20 to 0x7D without `=`, and
/// not empty.
pub open spec fn name_valid(name: Seq<u8>) -> bool {
    &&& name.len() > 0
    &&& forall|i: int| 0 <= i < name.len() ==> 0x20 <= #[trigger] name[i] <= 0x7d && name[i] != 0x3d
}

proof fn lemma_name_length(c: Seq<u8>, k: int)
    requires
        0 <= k <= c.len(),
        forall|i: int| 0 <= i < k ==> #[trigger] c[i] != 0x3d,
        k < c.len() ==> c[k] == 0x3d,
    ensures
        name_length(c) == k,
    decreases k,
{
    if k > 0 {
        assert(c[0] != 0x3d);
        let d = c.skip(1);
        assert forall|i: int| 0 <= i < k - 1 implies #[trigger] d[i] != 0x3d by {
            assert(d[i] == c[i + 1]);
        }
        lemma_name_length(d, k - 1);
    }
}

fn to_lower(b: u8) -> (l: u8)
    ensures
        l == lower(b),
{
    if 0x41 <= b && b <= 0x5a {
        b + 32
    } else {
        b
    }
}

fn names_match(a: &[u8], b: &[u8]) -> (r: bool)
    ensures
        r == same_name(a@, b@),
{
    if a.len() != b.len() {
        return false;
    }
    let mut i: usize = 0;
    while i < a.len()
        invariant
            i <= a@.len(),
            a@.len() == b@.len(),
            forall|j: int| 0 <= j < i ==> lower(#[trigger] a@[j]) == lower(b@[j]),
        decreases a@.len() - i,
    {
        if to_lower(a[i]) != to_lower(b[i]) {
            assert(lower(a@[i as int]) != lower(b@[i as int]));
            return false;
        }
        i += 1;
    }
    true
}

/// Cut a text in front of an `=` and behind it.
fn split_at_equals(text: &str, k: usize) -> (r: (&str, &str))
    requires
        k < encode_utf8(text@).len(),
        encode_utf8(text@)[k as int] == 0x3d,
    ensures
        encode_utf8(r.0@) == encode_utf8(text@).take(k as int),
        encode_utf8(r.1@) == encode_utf8(text@).skip(k + 1),
{
    let ghost all = encode_utf8(text@);
    proof {
        encode_utf8_valid_utf8(text@);
        is_char_boundary_iff_not_is_continuation_byte(all, k as int);
    }
    let (front, rest) = text.split_at(k);
    let ghost tail = encode_utf8(rest@);
    proof {
        encode_utf8_valid_utf8(rest@);
        assert(tail =~= all.skip(k as int));
        assert(tail[0] == 0x3d);
        reveal_with_fuel(is_char_boundary, 2);
        assert(is_char_boundary(tail, 1));
    }
    let (_equals, value) = rest.split_at(1);
    proof {
        assert(encode_utf8(front@) =~= all.take(k as int));
        assert(encode_utf8(value@) =~= all.skip(k + 1));
    }
    (front, value)
}

/// The value `comment` stores under `name`.
fn value_of<'a>(comment: &'a str, name: &[u8]) -> (r: Option<&'a str>)
    ensures
        match r {
            Some(v) => comment_value(encode_utf8(comment@), name@) == Some(encode_utf8(v@)),
            None => comment_value(encode_utf8(comment@), name@) is None,
        },
{
    let bytes = comment.as_bytes();
    let mut k: usize = 0;
    while k < bytes.len() && bytes[k] != 0x3d
        invariant
            k <= bytes@.len(),
            bytes@ == encode_utf8(comment@),
            forall|j: int| 0 <= j < k ==> #[trigger] bytes@[j] != 0x3d,
        decreases bytes@.len() - k,
    {
        k += 1;
    }
    proof {
        lemma_name_length(bytes@, k as int);
    }
    if k >= bytes.len() {
        return None;
    }
    let key = vstd::slice::slice_subrange(bytes, 0, k);
    assert(key@ =~= bytes@.take(k as int));
    if !names_match(key, name) {
        return None;
    }
    let (_front, value) = split_at_equals(comment, k);
    Some(value)
}

impl Default for OpusTags {
    fn default() -> (t: Self)
        ensures
            t@.vendor == "opus-pure 0.1.0"@,
            t@.comments == Seq::<Seq<char>>::empty(),
    {
        let t = OpusTags { vendor: "opus-pure 0.1.0".to_owned(), comments: Vec::new() };
        assert(texts(t.comments@) =~= Seq::<Seq<char>>::empty());
        t
    }
}

impl OpusTags {
    /// Empty tags carrying this crate's vendor string.
    pub fn new() -> (t: Self)
        ensures
            t@.vendor == "opus-pure 0.1.0"@,
            t@.comments == Seq::<Seq<char>>::empty(),
    {
        Self::default()
    }

    /// First value for `name`, matched without regard to ASCII case.
    pub fn get(&self, name: &str) -> (r: Option<&str>)
        ensures
            match r {
                Some(v) => values(self@.comments, encode_utf8(name@)).len() > 0 && encode_utf8(v@)
                    == values(self@.comments, encode_utf8(name@))[0],
                None => values(self@.comments, encode_utf8(name@)).len() == 0,
            },
    {
        let all = self.get_all(name);
        if all.len() == 0 {
            None
        } else {
            Some(all[0])
        }
    }

    /// Every value stored under `name`, in file order: a name may legitimately
    /// repeat.
    pub fn get_all<'a>(&'a self, name: &str) -> (r: Vec<&'a str>)
        ensures
            r@.len() == values(self@.comments, encode_utf8(name@)).len(),
            forall|i: int|
                0 <= i < r@.len() ==> encode_utf8((#[trigger] r@[i])@) == values(
                    self@.comments,
                    encode_utf8(name@),
                )[i],
    {
        let key = name.as_bytes();
        let mut found: Vec<&'a str> = Vec::new();
        let mut i: usize = 0;
        let ghost all = self@.comments;
        assert(all.take(0) =~= Seq::<Seq<char>>::empty());
        while i < self.comments.len()
            invariant
                i <= self.comments@.len(),
                all == texts(self.comments@),
                key@ == encode_utf8(name@),
                found@.len() == values(all.take(i as int), key@).len(),
                forall|j: int|
                    0 <= j < found@.len() ==> encode_utf8((#[trigger] found@[j])@) == values(
                        all.take(i as int),
                        key@,
                    )[j],
            decreases self.comments@.len() - i,
        {
            proof {
                assert(all.take(i + 1).drop_last() =~= all.take(i as int));
                assert(all.take(i + 1).last() == self.comments@[i as int]@);
            }
            match value_of(self.comments[i].as_str(), key) {
                Some(v) => {
                    found.push(v);
                },
                None => {},
            }
            i += 1;
        }
        assert(all.take(i as int) =~= all);
        found
    }

    /// Append a `NAME=value` entry; an entry of the same name stays.
    ///
    /// A name outside ASCII 0x20 to 0x7D, or with `=` in it, is rejected rather
    /// than written out to produce a file no other tool reads.
    pub fn push(&mut self, name: &str, value: &str) -> (r: Result<()>)
        ensures
            final(self)@.vendor == old(self)@.vendor,
            match r {
                Ok(_) => {
                    &&& name_valid(encode_utf8(name@))
                    &&& final(self)@.comments.len() == old(self)@.comments.len() + 1
                    &&& final(self)@.comments.drop_last() == old(self)@.comments
                    &&& encode_utf8(final(self)@.comments.last()) == encode_utf8(name@) + seq![
                        0x3du8,
                    ] + encode_utf8(value@)
                },
                Err(e) => {
                    &&& !name_valid(encode_utf8(name@))
                    &&& e == Error::InvalidArgument(
                        "comment name must be ASCII 0x20..=0x7D excluding '='",
                    )
                    &&& final(self)@ == old(self)@
                },
            },
    {
        let key = name.as_bytes();
        if key.len() == 0 {
            return Err(
                Error::InvalidArgument("comment name must be ASCII 0x20..=0x7D excluding '='"),
            );
        }
        let mut i: usize = 0;
        while i < key.len()
            invariant
                i <= key@.len(),
                key@ == encode_utf8(name@),
                forall|j: int|
                    0 <= j < i ==> 0x20 <= #[trigger] key@[j] <= 0x7d && key@[j] != 0x3d,
                *self == *old(self),
            decreases key@.len() - i,
        {
            if !(0x20 <= key[i] && key[i] <= 0x7d && key[i] != 0x3d) {
                assert(!name_valid(key@));
                return Err(
                    Error::InvalidArgument("comment name must be ASCII 0x20..=0x7D excluding '='"),
                );
            }
            i += 1;
        }
        let mut bytes: Vec<u8> = Vec::new();
        bytes.extend_from_slice(key);
        bytes.push(0x3d);
        bytes.extend_from_slice(value.as_bytes());
        proof {
            let a = encode_utf8(name@);
            let e = seq![0x3du8];
            let b = encode_utf8(value@);
            assert(bytes@ =~= a + e + b);
            encode_utf8_valid_utf8(name@);
            encode_utf8_valid_utf8(value@);
            lemma_equals_is_valid();
            valid_utf8_concat(a, e);
            valid_utf8_concat(a + e, b);
            decode_utf8_encode_utf8(bytes@);
        }
        let ghost before = self.comments@;
        self.comments.push(string_from_bytes(bytes.as_slice()));
        proof {
            assert(texts(self.comments@).drop_last() =~= texts(before));
        }
        Ok(())
    }

    /// Serialize to the wire format.
    pub fn to_packet(&self) -> (v: Vec<u8>)
        ensures
            v@ == tags_bytes(self@),
    {
        let mut v: Vec<u8> = Vec::new();
        v.push(0x4f);
        v.push(0x70);
        v.push(0x75);
        v.push(0x73);
        v.push(0x54);
        v.push(0x61);
        v.push(0x67);
        v.push(0x73);
        push_string(&self.vendor, &mut v);
        push_count(self.comments.len(), &mut v);
        let ghost head = v@;
        let ghost all = encoded(self@.comments);
        assert(head =~= tags_magic() + string_bytes(encode_utf8(self@.vendor)) + count_bytes(
            self@.comments.len() as int,
        ));
        let mut i: usize = 0;
        proof {
            assert(all.take(0) =~= Seq::<Seq<u8>>::empty());
            assert(head + strings_bytes(all.take(0)) =~= head);
        }
        while i < self.comments.len()
            invariant
                i <= self.comments@.len(),
                all == encoded(texts(self.comments@)),
                v@ == head + strings_bytes(all.take(i as int)),
            decreases self.comments@.len() - i,
        {
            push_string(&self.comments[i], &mut v);
            proof {
                assert(all.take(i + 1).drop_last() =~= all.take(i as int));
                assert(all.take(i + 1).last() == encode_utf8(self.comments@[i as int]@));
                assert(v@ =~= head + strings_bytes(all.take(i + 1)));
            }
            i += 1;
        }
        assert(all.take(i as int) =~= all);
        v
    }

    /// Parse the wire format. Bytes that are not UTF-8 are replaced.
    ///
    /// What [`to_packet`](Self::to_packet) wrote reads back unchanged, provided
    /// every length fits its field.
    pub fn parse(data: &[u8]) -> (r: Result<Self>)
        ensures
            match r {
                Ok(t) => {
                    &&& spec_parse_tags(data@) matches Ok((vendor, comments))
                    &&& reads_as(vendor, t@.vendor)
                    &&& t@.comments.len() == comments.len()
                    &&& forall|i: int|
                        0 <= i < comments.len() ==> reads_as(
                            comments[i],
                            #[trigger] t@.comments[i],
                        )
                },
                Err(e) => spec_parse_tags(data@) == Err::<(Seq<u8>, Seq<Seq<u8>>), Error>(e),
            },
            forall|t: TagsView|
                #[trigger] tags_bytes(t) == data@ && tags_fit(t) ==> r is Ok && r->Ok_0@ == t,
    {
        if data.len() < 12 || data[0] != 0x4f || data[1] != 0x70 || data[2] != 0x75 || data[3]
            != 0x73 || data[4] != 0x54 || data[5] != 0x61 || data[6] != 0x67 || data[7] != 0x73 {
            proof {
                if data@.len() >= 12 {
                    let t = data@.take(8);
                    assert(t[0] == data@[0] && t[1] == data@[1] && t[2] == data@[2] && t[3]
                        == data@[3] && t[4] == data@[4] && t[5] == data@[5] && t[6] == data@[6]
                        && t[7] == data@[7]);
                }
                lemma_error_is_not_written(data@);
            }
            return Err(Error::InvalidStream("not an OpusTags packet"));
        }
        assert(data@.take(8) =~= tags_magic());
        let vlen: usize = match read_length(data, 8) {
            Err(e) => {
                proof {
                    lemma_error_is_not_written(data@);
                }
                return Err(e);
            },
            Ok(n) => n,
        };
        let vendor_bytes = vstd::slice::slice_subrange(data, 12, 12 + vlen);
        let vendor = string_from_bytes(vendor_bytes);
        let count: usize = match read_length(data, 12 + vlen) {
            Err(e) => {
                proof {
                    lemma_error_is_not_written(data@);
                }
                return Err(e);
            },
            Ok(n) => n,
        };
        let start: usize = 16 + vlen;
        if count > (data.len() - start) / 4 {
            proof {
                lemma_error_is_not_written(data@);
            }
            return Err(Error::InvalidStream("OpusTags comment count exceeds the packet"));
        }
        let comments: Vec<String> = match read_strings(data, start, count) {
            Err(e) => {
                proof {
                    lemma_error_is_not_written(data@);
                }
                return Err(e);
            },
            Ok(v) => v,
        };
        let t = OpusTags { vendor, comments };
        proof {
            assert(t@.comments =~= texts(comments@));
            lemma_written_reads_back(data@, t@);
        }
        Ok(t)
    }
}

/// Read `count` strings from `start` on.
fn read_strings(data: &[u8], start: usize, count: usize) -> (r: Result<Vec<String>>)
    requires
        start <= data@.len(),
    ensures
        match r {
            Ok(v) => {
                &&& stored_strings(data@, start as int, count as int) matches Ok((raw, end))
                &&& v@.len() == raw.len()
                &&& forall|j: int| 0 <= j < raw.len() ==> reads_as(raw[j], (#[trigger] v@[j])@)
            },
            Err(e) => stored_strings(data@, start as int, count as int) == Err::<
                (Seq<Seq<u8>>, int),
                Error,
            >(e),
        },
{
    let mut comments: Vec<String> = Vec::new();
    let len: usize = data.len();
    let mut pos: usize = start;
    let mut i: usize = 0;
    let ghost mut raw: Seq<Seq<u8>> = Seq::empty();
    while i < count
        invariant
            i <= count,
            start <= pos <= len,
            len == data@.len(),
            stored_strings(data@, start as int, i as int) == Ok::<(Seq<Seq<u8>>, int), Error>(
                (raw, pos as int),
            ),
            comments@.len() == i,
            raw.len() == i,
            forall|j: int| 0 <= j < i ==> reads_as(raw[j], (#[trigger] comments@[j])@),
        decreases count - i,
    {
        match read_length(data, pos) {
            Err(e) => {
                proof {
                    lemma_stored_strings_fail(data@, start as int, i + 1, count as int);
                }
                return Err(e);
            },
            Ok(n) => {
                let piece = vstd::slice::slice_subrange(data, pos + 4, pos + 4 + n);
                comments.push(string_from_bytes(piece));
                proof {
                    raw = raw.push(piece@);
                }
                pos = pos + 4 + n;
            },
        }
        i += 1;
    }
    Ok(comments)
}

/// What was written reads as the text it was written from.
proof fn lemma_written_reads_back(data: Seq<u8>, t: TagsView)
    requires
        spec_parse_tags(data) is Ok,
        reads_as(spec_parse_tags(data)->Ok_0.0, t.vendor),
        t.comments.len() == spec_parse_tags(data)->Ok_0.1.len(),
        forall|j: int|
            0 <= j < t.comments.len() ==> reads_as(
                spec_parse_tags(data)->Ok_0.1[j],
                #[trigger] t.comments[j],
            ),
    ensures
        forall|v: TagsView| #[trigger] tags_bytes(v) == data && tags_fit(v) ==> t == v,
{
    let (vendor, raw) = spec_parse_tags(data)->Ok_0;
    assert forall|v: TagsView| #[trigger] tags_bytes(v) == data && tags_fit(v) implies t == v by {
        law_tags_round_trip(v);
        encode_utf8_valid_utf8(v.vendor);
        encode_utf8_decode_utf8(v.vendor);
        assert forall|j: int| 0 <= j < v.comments.len() implies t.comments[j] == v.comments[j] by {
            assert(raw[j] == encode_utf8(v.comments[j]));
            encode_utf8_valid_utf8(v.comments[j]);
            encode_utf8_decode_utf8(v.comments[j]);
        }
        assert(t.comments =~= v.comments);
    }
}

proof fn lemma_equals_is_valid()
    ensures
        valid_utf8(seq![0x3du8]),
{
    reveal_with_fuel(valid_utf8, 2);
    let e = seq![0x3du8];
    assert(is_leading_byte_width_1(e[0]));
    assert(0x3du8 & 0x7f == 0x3d) by (bit_vector);
    assert(valid_first_scalar(e));
    assert(pop_first_scalar(e) =~= Seq::<u8>::empty());
}

proof fn lemma_stored_strings_fail(data: Seq<u8>, pos: int, j: int, k: int)
    requires
        0 <= j <= k,
        stored_strings(data, pos, j) is Err,
    ensures
        stored_strings(data, pos, k) == stored_strings(data, pos, j),
    decreases k,
{
    if j < k {
        lemma_stored_strings_fail(data, pos, j, k - 1);
    }
}

/// A string reads back from where it was stored.
proof fn lemma_stored_string(head: Seq<u8>, s: Seq<u8>, tail: Seq<u8>)
    requires
        s.len() < 0x1_0000_0000,
    ensures
        ({
            let data = head + string_bytes(s) + tail;
            let at = head.len() as int;
            &&& stored_length(data, at) == Ok::<int, Error>(s.len() as int)
            &&& data.subrange(at + 4, at + 4 + s.len()) == s
            &&& string_bytes(s).len() == 4 + s.len()
        }),
{
    let data = head + string_bytes(s) + tail;
    let at: int = head.len() as int;
    lemma_le_ranges();
    law_le_bytes_read_back(s.len() as int, 4);
    assert(data.subrange(at, at + 4) =~= count_bytes(s.len() as int));
    assert(data.subrange(at + 4, at + 4 + s.len()) =~= s);
}

proof fn lemma_stored_strings(head: Seq<u8>, v: Seq<Seq<u8>>, tail: Seq<u8>)
    requires
        forall|i: int| 0 <= i < v.len() ==> (#[trigger] v[i]).len() < 0x1_0000_0000,
    ensures
        stored_strings(head + strings_bytes(v) + tail, head.len() as int, v.len() as int) == Ok::<
            (Seq<Seq<u8>>, int),
            Error,
        >((v, (head.len() + strings_bytes(v).len()) as int)),
        strings_bytes(v).len() >= 4 * v.len(),
    decreases v.len(),
{
    let data = head + strings_bytes(v) + tail;
    if v.len() == 0 {
        assert(v =~= Seq::<Seq<u8>>::empty());
    } else {
        let front = v.drop_last();
        let more = string_bytes(v.last()) + tail;
        assert(data =~= head + strings_bytes(front) + more);
        lemma_stored_strings(head, front, more);
        assert(v[v.len() - 1].len() < 0x1_0000_0000);
        lemma_stored_string(head + strings_bytes(front), v.last(), tail);
        assert(data =~= (head + strings_bytes(front)) + string_bytes(v.last()) + tail);
        assert(front.push(v.last()) =~= v);
    }
}

/// Tags whose lengths fit their fields read back as they were written.
pub proof fn law_tags_round_trip(t: TagsView)
    requires
        tags_fit(t),
    ensures
        spec_parse_tags(tags_bytes(t)) == Ok::<(Seq<u8>, Seq<Seq<u8>>), Error>(
            (encode_utf8(t.vendor), encoded(t.comments)),
        ),
{
    let data = tags_bytes(t);
    let vendor = encode_utf8(t.vendor);
    let all = encoded(t.comments);
    let n: int = t.comments.len() as int;
    assert(data.take(8) =~= tags_magic());
    lemma_stored_string(tags_magic(), vendor, count_bytes(n) + strings_bytes(all));
    assert(data =~= tags_magic() + string_bytes(vendor) + (count_bytes(n) + strings_bytes(all)));
    lemma_le_ranges();
    law_le_bytes_read_back(n, 4);
    let head = tags_magic() + string_bytes(vendor) + count_bytes(n);
    assert(data =~= head + strings_bytes(all) + Seq::<u8>::empty());
    assert forall|i: int| 0 <= i < all.len() implies (#[trigger] all[i]).len() < 0x1_0000_0000 by {
        assert(encode_utf8(t.comments[i]).len() < 0x1_0000_0000);
    }
    lemma_stored_strings(head, all, Seq::empty());
    let at: int = (12 + vendor.len()) as int;
    assert(data.subrange(at, at + 4) =~= count_bytes(n));
}

/// Strings write back to the bytes they were read from.
proof fn lemma_stored_strings_write_back(data: Seq<u8>, pos: int, k: int)
    requires
        0 <= pos <= data.len(),
        0 <= k,
        stored_strings(data, pos, k) is Ok,
    ensures
        ({
            let (v, end) = stored_strings(data, pos, k)->Ok_0;
            &&& v.len() == k
            &&& pos <= end <= data.len()
            &&& strings_bytes(v) == data.subrange(pos, end)
        }),
    decreases k,
{
    if k > 0 {
        lemma_stored_strings_write_back(data, pos, k - 1);
        let (front, at) = stored_strings(data, pos, k - 1)->Ok_0;
        let (v, end) = stored_strings(data, pos, k)->Ok_0;
        assert(v.drop_last() =~= front);
        lemma_le_writes_back(data.subrange(at, at + 4));
        lemma_le_ranges();
        assert(string_bytes(v.last()) =~= data.subrange(at, end));
        assert(strings_bytes(v) =~= data.subrange(pos, end));
    }
}

/// Tags that are UTF-8 throughout write back byte for byte: what is written is
/// what was read, but for what followed the last comment.
pub proof fn law_read_tags_write_back(data: Seq<u8>, t: TagsView)
    requires
        spec_parse_tags(data) matches Ok((vendor, comments)) && {
            &&& valid_utf8(vendor)
            &&& reads_as(vendor, t.vendor)
            &&& t.comments.len() == comments.len()
            &&& forall|i: int|
                0 <= i < comments.len() ==> valid_utf8(comments[i]) && reads_as(
                    comments[i],
                    #[trigger] t.comments[i],
                )
        },
    ensures
        tags_bytes(t).len() <= data.len(),
        tags_bytes(t) == data.take(tags_bytes(t).len() as int),
{
    let (vendor, comments) = spec_parse_tags(data)->Ok_0;
    decode_utf8_encode_utf8(vendor);
    assert forall|i: int| 0 <= i < comments.len() implies encoded(t.comments)[i] == comments[i] by {
        assert(reads_as(comments[i], t.comments[i]));
        decode_utf8_encode_utf8(comments[i]);
    }
    assert(encoded(t.comments) =~= comments);
    let start: int = vendor.len() as int + 16;
    lemma_le_ranges();
    lemma_le_writes_back(data.subrange(8, 12));
    lemma_le_writes_back(data.subrange(start - 4, start));
    let count = le_value(data.subrange(start - 4, start));
    lemma_stored_strings_write_back(data, start, count);
    let (v, end) = stored_strings(data, start, count)->Ok_0;
    assert(tags_bytes(t) =~= data.take(end));
}

proof fn lemma_error_is_not_written(data: Seq<u8>)
    requires
        spec_parse_tags(data) is Err,
    ensures
        forall|t: TagsView| #[trigger] tags_bytes(t) == data ==> !tags_fit(t),
{
    assert forall|t: TagsView| #[trigger] tags_bytes(t) == data implies !tags_fit(t) by {
        if tags_fit(t) {
            law_tags_round_trip(t);
        }
    }
}

/// Whether `v` is what a comment holds under `name`: all behind its first `=`,
/// where what is before that is the name in some case.
pub open spec fn holds_under(c: Seq<u8>, name: Seq<u8>, k: int, v: Seq<u8>) -> bool {
    &&& 0 <= k < c.len()
    &&& c[k] == 0x3d
    &&& forall|i: int| 0 <= i < k ==> #[trigger] c[i] != 0x3d
    &&& same_name(c.take(k), name)
    &&& v == c.skip(k + 1)
}

proof fn lemma_first_separator(c: Seq<u8>)
    ensures
        0 <= name_length(c) <= c.len(),
        forall|i: int| 0 <= i < name_length(c) ==> #[trigger] c[i] != 0x3d,
        name_length(c) < c.len() ==> c[name_length(c)] == 0x3d,
    decreases c.len(),
{
    if c.len() > 0 && c[0] != 0x3d {
        let d = c.skip(1);
        lemma_first_separator(d);
        assert forall|i: int| 0 <= i < name_length(c) implies #[trigger] c[i] != 0x3d by {
            if i > 0 {
                assert(d[i - 1] == c[i]);
            }
        }
    }
}

/// The values under a name are what exactly those comments hold that have it, in
/// order and with repeats: those with a `=` whose text before the first one is
/// the name but for the case of ASCII letters, each giving the text behind it.
pub proof fn law_values_are_those_under_the_name(comments: Seq<Seq<char>>, name: Seq<u8>)
    ensures
        values(comments, name) == comments.filter_map(
            |c: Seq<char>| comment_value(encode_utf8(c), name),
        ),
        forall|c: Seq<u8>, k: int, v: Seq<u8>| #[trigger]
            holds_under(c, name, k, v) ==> comment_value(c, name) == Some(v),
        forall|c: Seq<u8>| (#[trigger] comment_value(c, name)) is Some ==> holds_under(
            c,
            name,
            name_length(c),
            comment_value(c, name)->0,
        ),
    decreases comments.len(),
{
    assert forall|c: Seq<u8>, k: int, v: Seq<u8>| #[trigger]
        holds_under(c, name, k, v) implies comment_value(c, name) == Some(v) by {
        lemma_name_length(c, k);
    }
    assert forall|c: Seq<u8>| (#[trigger] comment_value(c, name)) is Some implies holds_under(
        c,
        name,
        name_length(c),
        comment_value(c, name)->0,
    ) by {
        lemma_first_separator(c);
    }
    if comments.len() > 0 {
        law_values_are_those_under_the_name(comments.drop_last(), name);
    }
}

/// An entry pushed under a valid name is found under that name in any case,
/// behind the values already there.
pub proof fn law_pushed_value_is_found(
    comments: Seq<Seq<char>>,
    entry: Seq<char>,
    name: Seq<u8>,
    value: Seq<u8>,
    asked: Seq<u8>,
)
    requires
        name_valid(name),
        encode_utf8(entry) == name + seq![0x3du8] + value,
    ensures
        values(comments.push(entry), asked) == if same_name(name, asked) {
            values(comments, asked).push(value)
        } else {
            values(comments, asked)
        },
{
    let c = name + seq![0x3du8] + value;
    assert forall|i: int| 0 <= i < name.len() implies #[trigger] c[i] != 0x3d by {
        assert(c[i] == name[i]);
    }
    lemma_name_length(c, name.len() as int);
    assert(c.take(name.len() as int) =~= name);
    assert(c.skip((name.len() + 1) as int) =~= value);
    assert(comments.push(entry).drop_last() =~= comments);
}

} // verus!
