//! Core value types of the store: errors, timestamps and unique record
//! identifiers, the `Recordable` capability that stored values provide, and
//! the line format in which entries are persisted.

use vstd::prelude::*;

verus! {

use vstd::string::StrSliceExecFns;
use vstd::string::StringExecFns;

/// The kinds of failure that an operation on a series can report.
#[derive(Clone, Copy, Debug, PartialEq, Eq, Structural)]
pub enum Error {
    /// A textual unique identifier could not be parsed.
    IdentifierParseError,
    /// A record value failed to encode.
    SerializationError,
    /// A persisted line failed to decode; fatal to an open.
    DeserializationError,
    /// A file operation failed.
    IOError,
    /// A put collided with an identifier that is already present.
    AlreadyExists,
    /// An update or delete targeted an identifier that is not present.
    NotFound,
}

/// A point in time, reduced to what the store reads of it: a single
/// totally-ordered tick count. Calendar fields are packed in decimal
/// (`yyyymmddHHMMSS`), which preserves their lexicographic order.
#[derive(Clone, Copy, Debug, PartialEq, Eq, Structural, PartialOrd, Ord, Hash)]
pub struct Timestamp {
    pub ticks: u64,
}

/// The packed tick count for a calendar date and time of day.
pub open spec fn ymd_hms_ticks(y: int, m: int, d: int, h: int, mi: int, s: int) -> int {
    y * 10_000_000_000 + m * 100_000_000 + d * 1_000_000 + h * 10_000 + mi * 100 + s
}

impl Timestamp {
    /// A timestamp for midnight at the start of the given calendar day.
    pub fn from_ymd(y: u16, m: u8, d: u8) -> (r: Timestamp)
        requires
            y <= 9999,
            1 <= m <= 12,
            1 <= d <= 31,
        ensures
            r.ticks == ymd_hms_ticks(y as int, m as int, d as int, 0, 0, 0),
    {
        Timestamp::from_ymd_hms(y, m, d, 0, 0, 0)
    }

    /// A timestamp for the given calendar date and time of day.
    pub fn from_ymd_hms(y: u16, m: u8, d: u8, h: u8, mi: u8, s: u8) -> (r: Timestamp)
        requires
            y <= 9999,
            1 <= m <= 12,
            1 <= d <= 31,
            h < 24,
            mi < 60,
            s < 60,
        ensures
            r.ticks == ymd_hms_ticks(y as int, m as int, d as int, h as int, mi as int, s as int),
    {
        let ticks: u64 = (y as u64) * 10_000_000_000 + (m as u64) * 100_000_000 + (d as u64)
            * 1_000_000 + (h as u64) * 10_000 + (mi as u64) * 100 + (s as u64);
        Timestamp { ticks }
    }
}

/// Uniquely identifies a record: an opaque 128-bit value, fresh per `put`,
/// totally ordered and round-trippable through its hyphenated text form.
#[derive(Clone, Copy, Debug, PartialEq, Eq, Structural, PartialOrd, Ord, Hash)]
pub struct UniqueId {
    pub raw: u128,
}

/// The sixteen hexadecimal digit characters, lowest value first.
pub open spec fn hex_digit(d: int) -> char {
    if d == 0 {
        '0'
    } else if d == 1 {
        '1'
    } else if d == 2 {
        '2'
    } else if d == 3 {
        '3'
    } else if d == 4 {
        '4'
    } else if d == 5 {
        '5'
    } else if d == 6 {
        '6'
    } else if d == 7 {
        '7'
    } else if d == 8 {
        '8'
    } else if d == 9 {
        '9'
    } else if d == 10 {
        'a'
    } else if d == 11 {
        'b'
    } else if d == 12 {
        'c'
    } else if d == 13 {
        'd'
    } else if d == 14 {
        'e'
    } else {
        'f'
    }
}

/// Whether a character is a hexadecimal digit, in either letter case.
pub open spec fn is_hex_char(c: char) -> bool {
    ('0' <= c && c <= '9') || ('a' <= c && c <= 'f') || ('A' <= c && c <= 'F')
}

/// The numeric value of a hexadecimal digit character.
pub open spec fn hex_value(c: char) -> int {
    if '0' <= c && c <= '9' {
        c as int - '0' as int
    } else if 'a' <= c && c <= 'f' {
        c as int - 'a' as int + 10
    } else {
        c as int - 'A' as int + 10
    }
}

/// The value of the `i`th nibble of `x`, counting the most significant first.
pub open spec fn uuid_nibble(x: u128, i: int) -> int {
    ((x >> (((31 - i) * 4) as u128)) & 0xf) as int
}

/// In the 36-character hyphenated form, positions 8, 13, 18 and 23 hold
/// hyphens; every other position holds one nibble of the value.
pub open spec fn is_hyphen_pos(i: int) -> bool {
    i == 8 || i == 13 || i == 18 || i == 23
}

/// Which nibble of the value stands at text position `i`.
pub open spec fn nibble_of_pos(i: int) -> int {
    if i < 8 {
        i
    } else if i < 13 {
        i - 1
    } else if i < 18 {
        i - 2
    } else if i < 23 {
        i - 3
    } else {
        i - 4
    }
}

/// The text position at which nibble `j` of the value stands.
pub open spec fn pos_of_nibble(j: int) -> int {
    if j < 8 {
        j
    } else if j < 12 {
        j + 1
    } else if j < 16 {
        j + 2
    } else if j < 20 {
        j + 3
    } else {
        j + 4
    }
}

/// The hyphenated text form of a 128-bit identifier: 32 lowercase hex digits,
/// most significant first, in groups of 8-4-4-4-12.
pub open spec fn uuid_text(x: u128) -> Seq<char> {
    Seq::new(
        36,
        |i: int|
            if is_hyphen_pos(i) {
                '-'
            } else {
                hex_digit(uuid_nibble(x, nibble_of_pos(i)))
            },
    )
}

/// Whether a character sequence has the hyphenated identifier shape.
pub open spec fn is_uuid_text(s: Seq<char>) -> bool {
    &&& s.len() == 36
    &&& forall|i: int|
        0 <= i < 36 ==> if is_hyphen_pos(i) {
            s[i] == '-'
        } else {
            is_hex_char(s[i])
        }
}

/// The value of the first `n` nibbles of an identifier text.
pub open spec fn uuid_text_prefix_value(s: Seq<char>, n: int) -> u128
    decreases n,
{
    if n <= 0 {
        0
    } else {
        (uuid_text_prefix_value(s, n - 1) << 4) | (hex_value(s[pos_of_nibble(n - 1)]) as u128)
    }
}

/// The identifier value spelled by a well-shaped identifier text.
pub open spec fn uuid_text_value(s: Seq<char>) -> u128 {
    uuid_text_prefix_value(s, 32)
}

/// How many nibbles stand strictly before text position `i`.
pub open spec fn nibbles_before(i: int) -> int {
    if i <= 8 {
        i
    } else if i <= 13 {
        i - 1
    } else if i <= 18 {
        i - 2
    } else if i <= 23 {
        i - 3
    } else {
        i - 4
    }
}

/// A nibble of any value lies below 16.
pub proof fn lemma_nibble_range(x: u128, i: int)
    ensures
        0 <= uuid_nibble(x, i) < 16,
{
    let k = ((31 - i) * 4) as u128;
    assert((x >> k) & 0xf < 16) by (bit_vector);
}

/// Mapping a nibble to its digit character and back returns the nibble.
pub proof fn lemma_hex_value_of_digit(d: int)
    requires
        0 <= d < 16,
    ensures
        is_hex_char(hex_digit(d)),
        hex_value(hex_digit(d)) == d,
{
}

/// The text of an identifier has the identifier shape.
pub proof fn lemma_uuid_text_shape(x: u128)
    ensures
        is_uuid_text(uuid_text(x)),
{
    assert forall|i: int| 0 <= i < 36 && !is_hyphen_pos(i) implies is_hex_char(
        uuid_text(x)[i],
    ) by {
        lemma_nibble_range(x, nibble_of_pos(i));
        lemma_hex_value_of_digit(uuid_nibble(x, nibble_of_pos(i)));
    }
}

/// Reading the nibbles of an identifier's text back, most significant first,
/// reconstructs the identifier: the text form loses nothing.
pub proof fn lemma_uuid_text_value(x: u128)
    ensures
        uuid_text_value(uuid_text(x)) == x,
{
    assert forall|n: int| 0 <= n <= 32 implies uuid_text_prefix_value(uuid_text(x), n) == (x >> ((
    (32 - n) * 4) as u128)) by {
        lemma_uuid_prefix_value(x, n);
    }
    assert(x >> 0u128 == x) by (bit_vector);
}

proof fn lemma_uuid_prefix_value(x: u128, n: int)
    requires
        0 <= n <= 32,
    ensures
        uuid_text_prefix_value(uuid_text(x), n) == (x >> (((32 - n) * 4) as u128)),
    decreases n,
{
    if n == 0 {
        assert(x >> 128u128 == 0) by (bit_vector);
    } else {
        lemma_uuid_prefix_value(x, n - 1);
        let j = n - 1;
        let p = pos_of_nibble(j);
        assert(!is_hyphen_pos(p) && nibble_of_pos(p) == j);
        lemma_nibble_range(x, j);
        lemma_hex_value_of_digit(uuid_nibble(x, j));
        assert(hex_value(uuid_text(x)[p]) == uuid_nibble(x, j));
        let k = ((32 - n) * 4) as u128;
        assert(k <= 124 ==> ((x >> ((k + 4) as u128)) << 4) | ((x >> k) & 0xf) == x >> k)
            by (bit_vector);
    }
}

/// Relies on `uuid::Uuid::new_v4`: a fresh random identifier. Nothing is
/// promised of the value; uniqueness is checked again at each insertion.
/// The call aborts if the operating system's randomness source fails, an
/// environmental failure outside any input's control.
#[verifier::external_body]
fn fresh_raw() -> u128 {
    uuid::Uuid::new_v4().as_u128()
}

/// Relies on `uuid::Uuid::from_u128` and the hyphenated display form: the
/// 128-bit value printed big-endian as 32 lowercase hex digits in groups of
/// 8-4-4-4-12.
#[verifier::external_body]
fn format_raw(x: u128) -> (r: String)
    ensures
        r@ == uuid_text(x),
{
    uuid::Uuid::from_u128(x).hyphenated().to_string()
}

/// The numeric value of one hexadecimal digit character, or 16 for any other
/// character.
pub(crate) fn hex_value_of(c: char) -> (r: u8)
    ensures
        (r < 16) == is_hex_char(c),
        r < 16 ==> r as int == hex_value(c),
{
    if '0' <= c && c <= '9' {
        (c as u8) - ('0' as u8)
    } else if 'a' <= c && c <= 'f' {
        (c as u8) - ('a' as u8) + 10
    } else if 'A' <= c && c <= 'F' {
        (c as u8) - ('A' as u8) + 10
    } else {
        16
    }
}

impl UniqueId {
    /// The identifier's 128-bit value.
    pub open spec fn val(&self) -> u128 {
        self.raw
    }

    /// Create a fresh identifier.
    pub fn new() -> UniqueId {
        UniqueId { raw: fresh_raw() }
    }

    /// The hyphenated text form of this identifier.
    pub fn text(&self) -> (r: String)
        ensures
            r@ == uuid_text(self.raw),
    {
        format_raw(self.raw)
    }

    /// Parse an identifier from its hyphenated text form, the one shape the
    /// store ever persists; hex digits of either letter case are accepted,
    /// other identifier spellings are not. Returns `IdentifierParseError`
    /// exactly when the text is not of that shape.
    pub fn from_str(text: &str) -> (r: Result<UniqueId, Error>)
        ensures
            r matches Ok(id) ==> is_uuid_text(text@) && id.raw == uuid_text_value(text@),
            r matches Err(e) ==> e == Error::IdentifierParseError && !is_uuid_text(text@),
    {
        let n = text.unicode_len();
        if n != 36 {
            return Err(Error::IdentifierParseError);
        }
        let mut x: u128 = 0;
        let mut i: usize = 0;
        while i < 36
            invariant
                text@.len() == 36,
                0 <= i <= 36,
                forall|p: int|
                    0 <= p < i ==> if is_hyphen_pos(p) {
                        text@[p] == '-'
                    } else {
                        is_hex_char(text@[p])
                    },
                x == uuid_text_prefix_value(text@, nibbles_before(i as int)),
            decreases 36 - i,
        {
            let c = text.get_char(i);
            if i == 8 || i == 13 || i == 18 || i == 23 {
                if c != '-' {
                    return Err(Error::IdentifierParseError);
                }
            } else {
                let d = hex_value_of(c);
                if d >= 16 {
                    return Err(Error::IdentifierParseError);
                }
                assert(pos_of_nibble(nibbles_before(i as int)) == i as int);
                x = (x << 4) | (d as u128);
            }
            i = i + 1;
        }
        Ok(UniqueId { raw: x })
    }
}

/// Any element to be put into the store must be `Recordable`: it exposes a
/// timestamp and a list of tags, and owns a self-describing text encoding of
/// itself. The store interprets nothing of the encoding beyond the laws
/// stated in `lemma_codec`.
pub trait Recordable: Sized + Clone {
    /// The record's timestamp.
    spec fn timestamp_spec(&self) -> Timestamp;

    /// The record's tags, as a set of strings (order and multiplicity are
    /// not significant).
    spec fn tags_spec(&self) -> Seq<Seq<char>>;

    /// The record's text encoding.
    spec fn encode_spec(&self) -> Seq<char>;

    /// Whether a text is a well-formed encoding of some record.
    spec fn decodes(text: Seq<char>) -> bool;

    /// Whether this record is what a text describes: it holds of a record
    /// and its own encoding, and of whatever `decode` returns for a text.
    spec fn represents(&self, text: Seq<char>) -> bool;

    /// The laws the encoding must obey so that persisted lines replay
    /// faithfully: a record's encoding is well-formed and describes the
    /// record, holds no line break, and is never the tombstone word.
    proof fn lemma_codec(&self)
        ensures
            Self::decodes(self.encode_spec()),
            self.represents(self.encode_spec()),
            self.encode_spec() != "null"@,
            forall|i: int| 0 <= i < self.encode_spec().len() ==> self.encode_spec()[i] != '\n',
    ;

    /// A text describes one record, up to what the store reads of it: two
    /// records described by the same text carry the same timestamp and the
    /// same tags.
    proof fn lemma_represents(&self, other: &Self, text: Seq<char>)
        requires
            self.represents(text),
            other.represents(text),
        ensures
            self.timestamp_spec() == other.timestamp_spec(),
            self.tags_spec() == other.tags_spec(),
    ;

    /// The timestamp for the record.
    fn timestamp(&self) -> (t: Timestamp)
        ensures
            t == self.timestamp_spec(),
    ;

    /// The string tags that can be used for indexing the record.
    fn tags(&self) -> (r: Vec<String>)
        ensures
            r.deep_view() == self.tags_spec(),
    ;

    /// Encode the record as text.
    fn encode(&self) -> (r: String)
        ensures
            r@ == self.encode_spec(),
    ;

    /// Decode a record from text. Succeeds exactly on well-formed
    /// encodings, and returns a record the text describes.
    fn decode(text: &str) -> (r: Option<Self>)
        ensures
            (r is Some) == Self::decodes(text@),
            r matches Some(v) ==> v.represents(text@),
    ;
}

/// A record envelope: a unique id together with the stored value.
#[derive(Clone, Debug)]
pub struct Record<T> {
    pub id: UniqueId,
    pub data: T,
}

impl<T: Recordable> Record<T> {
    /// Wrap a value in an envelope with a fresh identifier.
    pub fn new(data: T) -> (r: Record<T>)
        ensures
            r.data == data,
    {
        let id = UniqueId::new();
        Record { id, data }
    }
}

/// A persisted log entry: an id together with either a value (`Some`) or a
/// tombstone (`None`) that marks the id as deleted.
#[derive(Clone, Debug)]
pub struct DeletableRecord<T> {
    pub id: UniqueId,
    pub data: Option<T>,
}

/// The text encoding of an entry's optional value.
pub open spec fn encoded_body<T: Recordable>(data: Option<T>) -> Option<Seq<char>> {
    match data {
        Some(v) => Some(v.encode_spec()),
        None => None,
    }
}

/// The persisted line for an entry: a one-line object holding the
/// hyphenated id and either the value's own encoding or `null`.
pub open spec fn entry_line(id: u128, body: Option<Seq<char>>) -> Seq<char> {
    "{\"id\":\""@ + uuid_text(id) + "\",\"data\":"@ + (match body {
        Some(b) => b,
        None => "null"@,
    }) + "}"@
}

/// Parse a persisted line into an id and an optional value encoding.
pub open spec fn parse_entry(line: Seq<char>) -> Option<(u128, Option<Seq<char>>)> {
    if line.len() >= 53 && line.subrange(0, 7) == "{\"id\":\""@ && line.subrange(43, 52)
        == "\",\"data\":"@ && line[line.len() - 1] == '}' && is_uuid_text(line.subrange(7, 43)) {
        let id = uuid_text_value(line.subrange(7, 43));
        if line.subrange(52, line.len() as int) == "null}"@ {
            Some((id, None))
        } else {
            Some((id, Some(line.subrange(52, line.len() - 1))))
        }
    } else {
        None
    }
}

/// Whether a persisted line replays: it parses, and a non-tombstone body
/// is a well-formed encoding.
pub open spec fn line_replayable<T: Recordable>(line: Seq<char>) -> bool {
    match parse_entry(line) {
        None => false,
        Some((id, None)) => true,
        Some((id, Some(b))) => T::decodes(b),
    }
}

/// Parsing the line written for an id and a body returns them unchanged,
/// for any body that is not the tombstone word.
pub proof fn lemma_entry_roundtrip(id: u128, body: Option<Seq<char>>)
    requires
        body matches Some(b) ==> b != "null"@,
    ensures
        parse_entry(entry_line(id, body)) == Some((id, body)),
{
    reveal_strlit("{\"id\":\"");
    reveal_strlit("\",\"data\":");
    reveal_strlit("null");
    reveal_strlit("null}");
    reveal_strlit("}");
    let line = entry_line(id, body);
    let tail: Seq<char> = match body {
        Some(b) => b,
        None => "null"@,
    };
    assert(line.len() == 53 + tail.len());
    assert(line.subrange(0, 7) =~= "{\"id\":\""@);
    assert(line.subrange(7, 43) =~= uuid_text(id));
    assert(line.subrange(43, 52) =~= "\",\"data\":"@);
    assert(line[line.len() - 1] == '}');
    lemma_uuid_text_shape(id);
    lemma_uuid_text_value(id);
    match body {
        None => {
            assert(line.subrange(52, line.len() as int) =~= "null}"@);
        },
        Some(b) => {
            if line.subrange(52, line.len() as int) == "null}"@ {
                assert(line.subrange(52, line.len() as int).len() == line.len() - 52);
                assert("null}"@.len() == 5);
                assert(b.len() == 4);
                assert(b =~= "null"@) by {
                    assert forall|i: int| 0 <= i < 4 implies b[i] == "null"@[i] by {
                        assert(line.subrange(52, line.len() as int)[i] == b[i]);
                        assert("null}"@[i] == "null"@[i]);
                    }
                }
            }
            assert(line.subrange(52, line.len() - 1) =~= b);
        },
    }
}

impl<T: Recordable> DeletableRecord<T> {
    /// The persisted line for this entry.
    pub open spec fn line_spec(&self) -> Seq<char> {
        entry_line(self.id.raw, encoded_body(self.data))
    }

    /// Write this entry as its one-line persisted form.
    pub fn to_line(&self) -> (r: String)
        ensures
            r@ == self.line_spec(),
    {
        let mut out = String::new();
        out.append("{\"id\":\"");
        let idt = self.id.text();
        out.append(idt.as_str());
        out.append("\",\"data\":");
        match &self.data {
            Some(v) => {
                let b = v.encode();
                out.append(b.as_str());
            },
            None => {
                out.append("null");
            },
        }
        out.append("}");
        out
    }

    /// Read an entry back from one persisted line. Returns
    /// `DeserializationError` exactly when the line does not replay.
    pub fn from_line(line: &str) -> (r: Result<DeletableRecord<T>, Error>)
        ensures
            r matches Ok(rec) ==> match parse_entry(line@) {
                Some((id, body)) => rec.id.raw == id && match (rec.data, body) {
                    (Some(v), Some(b)) => T::decodes(b) && v.represents(b),
                    (None, None) => true,
                    _ => false,
                },
                None => false,
            },
            r matches Err(e) ==> e == Error::DeserializationError && !line_replayable::<T>(line@),
    {
        proof {
            reveal_strlit("{\"id\":\"");
            reveal_strlit("\",\"data\":");
            reveal_strlit("null}");
        }
        let n = line.unicode_len();
        if n < 53 {
            return Err(Error::DeserializationError);
        }
        if !match_at(line, 0, "{\"id\":\"") {
            return Err(Error::DeserializationError);
        }
        if !match_at(line, 43, "\",\"data\":") {
            return Err(Error::DeserializationError);
        }
        let idtext = line.substring_char(7, 43);
        let id = match UniqueId::from_str(idtext) {
            Ok(id) => id,
            Err(_) => {
                return Err(Error::DeserializationError);
            },
        };
        if n == 57 && match_at(line, 52, "null}") {
            proof {
                assert(line@.subrange(52, line@.len() as int) =~= "null}"@);
                assert(line@[line@.len() - 1] == '}') by {
                    assert(line@.subrange(52, 57)[4] == '}');
                }
                assert(parse_entry(line@) == Some((id.raw, None::<Seq<char>>)));
            }
            return Ok(DeletableRecord { id, data: None });
        }
        if line.get_char(n - 1) != '}' {
            return Err(Error::DeserializationError);
        }
        proof {
            if line@.len() != 57 {
                assert(line@.subrange(52, line@.len() as int).len() != 5);
            }
        }
        let body = line.substring_char(52, n - 1);
        match T::decode(body) {
            Some(v) => Ok(DeletableRecord { id, data: Some(v) }),
            None => Err(Error::DeserializationError),
        }
    }
}

/// Whether two string slices hold the same characters.
pub fn str_eq(a: &str, b: &str) -> (r: bool)
    ensures
        r == (a@ == b@),
{
    let la = a.unicode_len();
    let lb = b.unicode_len();
    if la != lb {
        return false;
    }
    let r = match_at(a, 0, b);
    proof {
        assert(a@.subrange(0, 0 + b@.len() as int) =~= a@);
    }
    r
}

/// Whether `pat` occurs in `s` at position `pos`.
fn match_at(s: &str, pos: usize, pat: &str) -> (r: bool)
    requires
        s@.len() <= usize::MAX,
        pos + pat@.len() <= s@.len(),
    ensures
        r == (s@.subrange(pos as int, pos as int + pat@.len()) == pat@),
{
    let n = pat.unicode_len();
    let mut i: usize = 0;
    while i < n
        invariant
            s@.len() <= usize::MAX,
            pos + n <= s@.len(),
            n == pat@.len(),
            0 <= i <= n,
            forall|j: int| 0 <= j < i ==> s@[pos + j] == pat@[j],
        decreases n - i,
    {
        if s.get_char(pos + i) != pat.get_char(i) {
            proof {
                let sub = s@.subrange(pos as int, pos as int + pat@.len());
                assert(sub[i as int] == s@[pos + i]);
            }
            return false;
        }
        i = i + 1;
    }
    proof {
        assert(s@.subrange(pos as int, pos as int + pat@.len()) =~= pat@);
    }
    true
}

} // verus!
