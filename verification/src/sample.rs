//! A concrete record type for exercising the engine: a bicycle trip with a
//! timestamp, integer distance and duration, a free-text comment and a tag
//! list, together with its own verified text encoding.

use vstd::prelude::*;
use crate::types::Recordable;
use crate::types::Timestamp;
use crate::types::hex_digit;
use crate::types::hex_value;
use crate::types::lemma_hex_value_of_digit;

verus! {

use vstd::string::StrSliceExecFns;
use vstd::string::StringExecFns;

/// One bicycle trip: the sample record stored by the tests and examples.
#[derive(Clone, Debug, PartialEq)]
pub struct BikeTrip {
    pub datetime: Timestamp,
    pub distance: u64,
    pub duration: u64,
    pub comments: String,
    pub tags: Vec<String>,
}

/// The value of the `i`th nibble of `x`, counting the most significant
/// first.
pub open spec fn nib64(x: u64, i: int) -> int {
    ((x >> (((15 - i) * 4) as u64)) & 0xf) as int
}

/// A 64-bit value as 16 lowercase hex digits, most significant first.
pub open spec fn hex16(x: u64) -> Seq<char> {
    Seq::new(16, |i: int| hex_digit(nib64(x, i)))
}

/// Whether a character is a lowercase hexadecimal digit.
pub open spec fn is_lower_hex(c: char) -> bool {
    ('0' <= c && c <= '9') || ('a' <= c && c <= 'f')
}

/// The value of the first `n` digits of a 16-digit hex chunk.
pub open spec fn hex_seq_prefix(t: Seq<char>, n: int) -> u64
    decreases n,
{
    if n <= 0 {
        0
    } else {
        (hex_seq_prefix(t, n - 1) << 4) | (hex_value(t[n - 1]) as u64)
    }
}

/// The value of a 16-digit hex chunk.
pub open spec fn hex_seq_value(t: Seq<char>) -> u64 {
    hex_seq_prefix(t, 16)
}

/// Whether 16 lowercase hex digits stand at position `at`.
pub open spec fn hex_chunk_ok(s: Seq<char>, at: int) -> bool {
    forall|i: int| 0 <= i < 16 ==> is_lower_hex(#[trigger] s[at + i])
}

/// Digits map to lowercase hex characters.
pub proof fn lemma_lower_hex_digit(d: int)
    requires
        0 <= d < 16,
    ensures
        is_lower_hex(hex_digit(d)),
        hex_digit(d) != '\n',
        hex_digit(d) != '"',
{
}

/// A nibble of any value lies below 16.
pub proof fn lemma_nib64_range(x: u64, i: int)
    ensures
        0 <= nib64(x, i) < 16,
{
    let k = ((15 - i) * 4) as u64;
    assert((x >> k) & 0xf < 16) by (bit_vector);
}

proof fn lemma_hex16_prefix(x: u64, n: int)
    requires
        0 <= n <= 16,
    ensures
        hex_seq_prefix(hex16(x), n) == (x >> (((16 - n) * 4) as u64)),
    decreases n,
{
    if n == 0 {
        assert(x >> 64u64 == 0) by (bit_vector);
    } else {
        lemma_hex16_prefix(x, n - 1);
        let j = n - 1;
        lemma_nib64_range(x, j);
        lemma_hex_value_of_digit(nib64(x, j));
        assert(hex_value(hex16(x)[j]) == nib64(x, j));
        let k = ((16 - n) * 4) as u64;
        assert(k <= 60 ==> ((x >> ((k + 4) as u64)) << 4) | ((x >> k) & 0xf) == x >> k)
            by (bit_vector);
    }
}

/// The hex form of a value is made of lowercase digits and reads back to
/// the value.
pub proof fn lemma_hex16(x: u64)
    ensures
        forall|i: int| 0 <= i < 16 ==> is_lower_hex(#[trigger] hex16(x)[i]),
        hex_seq_value(hex16(x)) == x,
{
    assert forall|i: int| 0 <= i < 16 implies is_lower_hex(#[trigger] hex16(x)[i]) by {
        lemma_nib64_range(x, i);
        lemma_lower_hex_digit(nib64(x, i));
    }
    lemma_hex16_prefix(x, 16);
    assert(x >> 0u64 == x) by (bit_vector);
}

/// How one character is written inside a quoted string: backslash, quote
/// and line break are escaped, everything else stands for itself.
pub open spec fn esc_char(c: char) -> Seq<char> {
    if c == '\\' {
        seq!['\\', '\\']
    } else if c == '"' {
        seq!['\\', '"']
    } else if c == '\n' {
        seq!['\\', 'n']
    } else {
        seq![c]
    }
}

/// A string written inside quotes, character by character.
pub open spec fn esc(s: Seq<char>) -> Seq<char>
    decreases s.len(),
{
    if s.len() == 0 {
        Seq::<char>::empty()
    } else {
        esc_char(s[0]) + esc(s.drop_first())
    }
}

/// Escaping distributes over concatenation.
pub proof fn lemma_esc_add(a: Seq<char>, b: Seq<char>)
    ensures
        esc(a + b) == esc(a) + esc(b),
    decreases a.len(),
{
    if a.len() == 0 {
        assert(a + b =~= b);
        assert(esc(a) + esc(b) =~= esc(b));
    } else {
        assert((a + b).drop_first() =~= a.drop_first() + b);
        lemma_esc_add(a.drop_first(), b);
        assert(esc(a + b) =~= esc(a) + esc(b));
    }
}

/// Escaped text never holds a raw line break.
pub proof fn lemma_esc_newline_free(s: Seq<char>)
    ensures
        forall|i: int| 0 <= i < esc(s).len() ==> esc(s)[i] != '\n',
    decreases s.len(),
{
    if s.len() > 0 {
        lemma_esc_newline_free(s.drop_first());
        assert forall|i: int| 0 <= i < esc(s).len() implies esc(s)[i] != '\n' by {
            let h = esc_char(s[0]).len();
            if i < h {
                assert(esc(s)[i] == esc_char(s[0])[i]);
            } else {
                assert(esc(s)[i] == esc(s.drop_first())[i - h]);
            }
        }
    }
}

/// The character an escape pair stands for.
pub open spec fn unesc_char(m: char) -> char {
    if m == 'n' {
        '\n'
    } else {
        m
    }
}

/// Read a quoted string from the front of a text: characters up to the
/// closing quote, with the three escape pairs honoured, raw line breaks
/// and stray escapes rejected. Returns the string and the remainder.
pub open spec fn parse_qstr(s: Seq<char>) -> Option<(Seq<char>, Seq<char>)>
    decreases s.len(),
{
    if s.len() == 0 {
        None
    } else if s[0] == '"' {
        Some((Seq::<char>::empty(), s.drop_first()))
    } else if s[0] == '\\' {
        if s.len() >= 2 && (s[1] == '\\' || s[1] == '"' || s[1] == 'n') {
            match parse_qstr(s.skip(2)) {
                None => None,
                Some((v, r)) => Some((seq![unesc_char(s[1])] + v, r)),
            }
        } else {
            None
        }
    } else if s[0] == '\n' {
        None
    } else {
        match parse_qstr(s.drop_first()) {
            None => None,
            Some((v, r)) => Some((seq![s[0]] + v, r)),
        }
    }
}

/// Reading back an escaped and quoted string returns it with the rest.
pub proof fn lemma_parse_qstr_esc(x: Seq<char>, rest: Seq<char>)
    ensures
        parse_qstr(esc(x) + seq!['"'] + rest) == Some((x, rest)),
    decreases x.len(),
{
    let s = esc(x) + seq!['"'] + rest;
    if x.len() == 0 {
        assert(s[0] == '"');
        assert(s.drop_first() =~= rest);
    } else {
        let c = x[0];
        let x1 = x.drop_first();
        let s1 = esc(x1) + seq!['"'] + rest;
        lemma_parse_qstr_esc(x1, rest);
        if c == '\\' || c == '"' || c == '\n' {
            assert(esc_char(c).len() == 2 && esc_char(c)[0] == '\\');
            assert(s[0] == '\\');
            assert(s[1] == esc_char(c)[1]);
            assert(s[1] == '\\' || s[1] == '"' || s[1] == 'n');
            assert(unesc_char(s[1]) == c);
            assert(s.skip(2) =~= s1);
            assert(seq![c] + x1 =~= x);
        } else {
            assert(esc_char(c) =~= seq![c]);
            assert(s[0] == c);
            assert(s[0] != '"' && s[0] != '\\' && s[0] != '\n');
            assert(s.drop_first() =~= s1);
            assert(seq![c] + x1 =~= x);
        }
    }
}

/// The tag section of an encoding: each tag escaped and quote-terminated.
pub open spec fn tags_enc(ts: Seq<Seq<char>>) -> Seq<char>
    decreases ts.len(),
{
    if ts.len() == 0 {
        Seq::<char>::empty()
    } else {
        esc(ts[0]) + seq!['"'] + tags_enc(ts.drop_first())
    }
}

/// The tag section distributes over concatenation.
pub proof fn lemma_tags_enc_add(a: Seq<Seq<char>>, b: Seq<Seq<char>>)
    ensures
        tags_enc(a + b) == tags_enc(a) + tags_enc(b),
    decreases a.len(),
{
    if a.len() == 0 {
        assert(a + b =~= b);
        assert(tags_enc(a) + tags_enc(b) =~= tags_enc(b));
    } else {
        assert((a + b).drop_first() =~= a.drop_first() + b);
        lemma_tags_enc_add(a.drop_first(), b);
        assert(tags_enc(a + b) =~= tags_enc(a) + tags_enc(b));
    }
}

/// Escaping one character is that character's escape pair.
pub proof fn lemma_esc_singleton(c: char)
    ensures
        esc(seq![c]) == esc_char(c),
{
    assert(seq![c].drop_first() =~= Seq::<char>::empty());
    assert(esc(Seq::<char>::empty()) =~= Seq::<char>::empty());
    assert(esc(seq![c]) =~= esc_char(c));
}

/// The tag section of one tag is that tag escaped and quote-terminated.
pub proof fn lemma_tags_enc_singleton(t: Seq<char>)
    ensures
        tags_enc(seq![t]) == esc(t) + seq!['"'],
{
    assert(seq![t].drop_first() =~= Seq::<Seq<char>>::empty());
    assert(tags_enc(Seq::<Seq<char>>::empty()) =~= Seq::<char>::empty());
    assert(tags_enc(seq![t]) =~= esc(t) + seq!['"']);
}

/// The tag section never holds a raw line break.
pub proof fn lemma_tags_enc_newline_free(ts: Seq<Seq<char>>)
    ensures
        forall|i: int| 0 <= i < tags_enc(ts).len() ==> tags_enc(ts)[i] != '\n',
    decreases ts.len(),
{
    if ts.len() > 0 {
        lemma_esc_newline_free(ts[0]);
        lemma_tags_enc_newline_free(ts.drop_first());
        assert forall|i: int| 0 <= i < tags_enc(ts).len() implies tags_enc(ts)[i] != '\n' by {
            let h = esc(ts[0]).len();
            if i < h {
                assert(tags_enc(ts)[i] == esc(ts[0])[i]);
            } else if i == h {
                assert(tags_enc(ts)[i] == '"');
            } else {
                assert(tags_enc(ts)[i] == tags_enc(ts.drop_first())[i - h - 1]);
            }
        }
    }
}

/// Read `n` quoted strings from the front of a text.
pub open spec fn parse_tags(s: Seq<char>, n: int) -> Option<(Seq<Seq<char>>, Seq<char>)>
    decreases n,
{
    if n <= 0 {
        Some((Seq::<Seq<char>>::empty(), s))
    } else {
        match parse_qstr(s) {
            None => None,
            Some((v, r)) => match parse_tags(r, n - 1) {
                None => None,
                Some((vs, r2)) => Some((seq![v] + vs, r2)),
            },
        }
    }
}

/// Reading back an encoded tag section returns the tags with the rest.
pub proof fn lemma_parse_tags_enc(ts: Seq<Seq<char>>, rest: Seq<char>)
    ensures
        parse_tags(tags_enc(ts) + rest, ts.len() as int) == Some((ts, rest)),
    decreases ts.len(),
{
    if ts.len() == 0 {
        assert(tags_enc(ts) + rest =~= rest);
    } else {
        let ts1 = ts.drop_first();
        assert(tags_enc(ts) + rest =~= esc(ts[0]) + seq!['"'] + (tags_enc(ts1) + rest));
        lemma_parse_qstr_esc(ts[0], tags_enc(ts1) + rest);
        lemma_parse_tags_enc(ts1, rest);
        assert(seq![ts[0]] + ts1 =~= ts);
    }
}

/// The full encoding of a trip: timestamp, distance, duration and tag
/// count as fixed-width hex, then the quoted comment, then the tags.
pub open spec fn trip_enc(
    t: u64,
    di: u64,
    du: u64,
    cm: Seq<char>,
    ts: Seq<Seq<char>>,
) -> Seq<char> {
    hex16(t) + hex16(di) + hex16(du) + hex16(ts.len() as u64) + esc(cm) + seq!['"'] + tags_enc(ts)
}

/// Read a trip's fields back from an encoding; `None` when the text is not
/// a well-formed encoding.
pub open spec fn parse_trip(s: Seq<char>) -> Option<(u64, u64, u64, Seq<char>, Seq<Seq<char>>)> {
    if s.len() < 64 {
        None
    } else if !(hex_chunk_ok(s, 0) && hex_chunk_ok(s, 16) && hex_chunk_ok(s, 32) && hex_chunk_ok(
        s,
        48,
    )) {
        None
    } else {
        let t = hex_seq_value(s.subrange(0, 16));
        let di = hex_seq_value(s.subrange(16, 32));
        let du = hex_seq_value(s.subrange(32, 48));
        let n = hex_seq_value(s.subrange(48, 64));
        match parse_qstr(s.skip(64)) {
            None => None,
            Some((cm, r)) => match parse_tags(r, n as int) {
                None => None,
                Some((tgs, r2)) => if r2.len() == 0 {
                    Some((t, di, du, cm, tgs))
                } else {
                    None
                },
            },
        }
    }
}

/// Reading back a trip's encoding returns exactly its fields.
pub proof fn lemma_parse_trip_enc(t: u64, di: u64, du: u64, cm: Seq<char>, ts: Seq<Seq<char>>)
    requires
        ts.len() <= u64::MAX,
    ensures
        parse_trip(trip_enc(t, di, du, cm, ts)) == Some((t, di, du, cm, ts)),
        trip_enc(t, di, du, cm, ts).len() >= 65,
        forall|i: int|
            0 <= i < trip_enc(t, di, du, cm, ts).len() ==> trip_enc(t, di, du, cm, ts)[i] != '\n',
{
    let e = trip_enc(t, di, du, cm, ts);
    lemma_hex16(t);
    lemma_hex16(di);
    lemma_hex16(du);
    lemma_hex16(ts.len() as u64);
    assert(e.subrange(0, 16) =~= hex16(t));
    assert(e.subrange(16, 32) =~= hex16(di));
    assert(e.subrange(32, 48) =~= hex16(du));
    assert(e.subrange(48, 64) =~= hex16(ts.len() as u64));
    assert(hex_chunk_ok(e, 0)) by {
        assert(forall|i: int| 0 <= i < 16 ==> e[0 + i] == #[trigger] hex16(t)[i]);
    }
    assert(hex_chunk_ok(e, 16)) by {
        assert(forall|i: int| 0 <= i < 16 ==> e[16 + i] == #[trigger] hex16(di)[i]);
    }
    assert(hex_chunk_ok(e, 32)) by {
        assert(forall|i: int| 0 <= i < 16 ==> e[32 + i] == #[trigger] hex16(du)[i]);
    }
    assert(hex_chunk_ok(e, 48)) by {
        assert(forall|i: int| 0 <= i < 16 ==> e[48 + i] == #[trigger] hex16(ts.len() as u64)[i]);
    }
    assert(e.skip(64) =~= esc(cm) + seq!['"'] + tags_enc(ts));
    lemma_parse_qstr_esc(cm, tags_enc(ts));
    assert(tags_enc(ts) =~= tags_enc(ts) + Seq::<char>::empty());
    lemma_parse_tags_enc(ts, Seq::<char>::empty());
    assert((ts.len() as u64) as int == ts.len());
    lemma_esc_newline_free(cm);
    lemma_tags_enc_newline_free(ts);
    assert forall|i: int| 0 <= i < e.len() implies e[i] != '\n' by {
        if i < 16 {
            lemma_nib64_range(t, i);
            lemma_lower_hex_digit(nib64(t, i));
        } else if i < 32 {
            lemma_nib64_range(di, i - 16);
            lemma_lower_hex_digit(nib64(di, i - 16));
        } else if i < 48 {
            lemma_nib64_range(du, i - 32);
            lemma_lower_hex_digit(nib64(du, i - 32));
        } else if i < 64 {
            lemma_nib64_range(ts.len() as u64, i - 48);
            lemma_lower_hex_digit(nib64(ts.len() as u64, i - 48));
        } else if i < 64 + esc(cm).len() {
            assert(e[i] == esc(cm)[i - 64]);
        } else if i == 64 + esc(cm).len() {
            assert(e[i] == '"');
        } else {
            assert(e[i] == tags_enc(ts)[i - 65 - esc(cm).len()]);
        }
    }
}

/// Append one hex digit character to a string.
fn push_hex_digit(out: &mut String, d: u8)
    requires
        d < 16,
    ensures
        final(out)@ == old(out)@ + seq![hex_digit(d as int)],
{
    proof {
        reveal_strlit("0");
        reveal_strlit("1");
        reveal_strlit("2");
        reveal_strlit("3");
        reveal_strlit("4");
        reveal_strlit("5");
        reveal_strlit("6");
        reveal_strlit("7");
        reveal_strlit("8");
        reveal_strlit("9");
        reveal_strlit("a");
        reveal_strlit("b");
        reveal_strlit("c");
        reveal_strlit("d");
        reveal_strlit("e");
        reveal_strlit("f");
    }
    let ghost before = out@;
    if d == 0 {
        out.append("0");
    } else if d == 1 {
        out.append("1");
    } else if d == 2 {
        out.append("2");
    } else if d == 3 {
        out.append("3");
    } else if d == 4 {
        out.append("4");
    } else if d == 5 {
        out.append("5");
    } else if d == 6 {
        out.append("6");
    } else if d == 7 {
        out.append("7");
    } else if d == 8 {
        out.append("8");
    } else if d == 9 {
        out.append("9");
    } else if d == 10 {
        out.append("a");
    } else if d == 11 {
        out.append("b");
    } else if d == 12 {
        out.append("c");
    } else if d == 13 {
        out.append("d");
    } else if d == 14 {
        out.append("e");
    } else {
        out.append("f");
    }
    proof {
        assert(out@ =~= before + seq![hex_digit(d as int)]);
    }
}

/// Append the 16-digit hex form of a value to a string.
fn push_hex16(out: &mut String, x: u64)
    ensures
        final(out)@ == old(out)@ + hex16(x),
{
    let ghost before = out@;
    let mut i: usize = 0;
    while i < 16
        invariant
            0 <= i <= 16,
            out@ =~= before + hex16(x).take(i as int),
        decreases 16 - i,
    {
        let sh: u64 = (15 - i as u64) * 4;
        let d: u8 = ((x >> sh) & 0xf) as u8;
        proof {
            lemma_nib64_range(x, i as int);
            assert(d == nib64(x, i as int));
        }
        push_hex_digit(out, d);
        proof {
            assert(hex16(x).take(i as int + 1) =~= hex16(x).take(i as int) + seq![
                hex16(x)[i as int],
            ]);
            assert(out@ =~= before + hex16(x).take(i as int + 1));
        }
        i = i + 1;
    }
    proof {
        assert(hex16(x).take(16) =~= hex16(x));
    }
}

/// Append the escaped form of a string to a string.
fn push_escaped(out: &mut String, s: &str)
    ensures
        final(out)@ == old(out)@ + esc(s@),
{
    let ghost before = out@;
    let n = s.unicode_len();
    let mut i: usize = 0;
    proof {
        assert(esc(s@.take(0)) =~= Seq::<char>::empty());
        assert(out@ =~= before + esc(s@.take(0)));
    }
    while i < n
        invariant
            n == s@.len(),
            0 <= i <= n,
            out@ =~= before + esc(s@.take(i as int)),
        decreases n - i,
    {
        let c = s.get_char(i);
        if c == '\\' {
            out.append("\\\\");
        } else if c == '"' {
            out.append("\\\"");
        } else if c == '\n' {
            out.append("\\n");
        } else {
            let piece = s.substring_char(i, i + 1);
            proof {
                assert(piece@ =~= seq![s@[i as int]]);
            }
            out.append(piece);
        }
        proof {
            reveal_strlit("\\\\");
            reveal_strlit("\\\"");
            reveal_strlit("\\n");
            assert(s@.take(i as int + 1) =~= s@.take(i as int) + seq![s@[i as int]]);
            lemma_esc_add(s@.take(i as int), seq![s@[i as int]]);
            lemma_esc_singleton(s@[i as int]);
            assert(out@ =~= before + esc(s@.take(i as int + 1)));
        }
        i = i + 1;
    }
    proof {
        assert(s@.take(n as int) =~= s@);
    }
}

/// Read 16 lowercase hex digits at a position.
fn parse_hex16_at(s: &str, at: usize) -> (r: Option<u64>)
    requires
        at + 16 <= s@.len(),
        s@.len() <= usize::MAX,
    ensures
        match r {
            Some(x) => hex_chunk_ok(s@, at as int) && x == hex_seq_value(
                s@.subrange(at as int, at as int + 16),
            ),
            None => !hex_chunk_ok(s@, at as int),
        },
{
    let ghost t = s@.subrange(at as int, at as int + 16);
    let mut x: u64 = 0;
    let mut i: usize = 0;
    while i < 16
        invariant
            at + 16 <= s@.len(),
            s@.len() <= usize::MAX,
            t == s@.subrange(at as int, at as int + 16),
            0 <= i <= 16,
            forall|j: int| 0 <= j < i ==> is_lower_hex(#[trigger] s@[at + j]),
            x == hex_seq_prefix(t, i as int),
        decreases 16 - i,
    {
        let c = s.get_char(at + i);
        if !(('0' <= c && c <= '9') || ('a' <= c && c <= 'f')) {
            proof {
                assert(!is_lower_hex(s@[at + i]));
            }
            return None;
        }
        let d = crate::types::hex_value_of(c);
        proof {
            assert(t[i as int] == s@[at + i]);
        }
        x = (x << 4) | (d as u64);
        i = i + 1;
    }
    Some(x)
}

/// Read a quoted string starting at a position; returns the string and the
/// position just past the closing quote.
fn parse_qstr_at(s: &str, from: usize) -> (r: Option<(String, usize)>)
    requires
        from <= s@.len(),
        s@.len() <= usize::MAX,
    ensures
        match r {
            Some(v) => from <= v.1 <= s@.len() && parse_qstr(s@.skip(from as int)) == Some(
                (v.0@, s@.skip(v.1 as int)),
            ),
            None => parse_qstr(s@.skip(from as int)) is None,
        },
{
    let n = s.unicode_len();
    let mut i: usize = from;
    let mut out = String::new();
    loop
        invariant
            from <= i <= n,
            n == s@.len(),
            s@.len() <= usize::MAX,
            match parse_qstr(s@.skip(i as int)) {
                None => parse_qstr(s@.skip(from as int)) is None,
                Some((v, r)) => parse_qstr(s@.skip(from as int)) == Some((out@ + v, r)),
            },
        decreases n - i,
    {
        proof {
            reveal_strlit("\\");
            reveal_strlit("\"");
            reveal_strlit("\n");
        }
        if i >= n {
            proof {
                assert(s@.skip(i as int).len() == 0);
            }
            return None;
        }
        let c = s.get_char(i);
        proof {
            assert(s@.skip(i as int)[0] == s@[i as int]);
            assert(s@.skip(i as int).len() == n - i);
        }
        if c == '"' {
            proof {
                assert(s@.skip(i as int).drop_first() =~= s@.skip(i as int + 1));
                assert(out@ + Seq::<char>::empty() =~= out@);
            }
            return Some((out, i + 1));
        }
        if c == '\\' {
            if i + 1 >= n {
                return None;
            }
            let m = s.get_char(i + 1);
            proof {
                assert(s@.skip(i as int)[1] == s@[i as int + 1]);
                assert(s@.skip(i as int).skip(2) =~= s@.skip(i as int + 2));
            }
            let ghost before = out@;
            if m == '\\' {
                out.append("\\");
            } else if m == '"' {
                out.append("\"");
            } else if m == 'n' {
                out.append("\n");
            } else {
                return None;
            }
            proof {
                assert(out@ =~= before + seq![unesc_char(s@[i as int + 1])]);
                if parse_qstr(s@.skip(i as int + 2)) is Some {
                    let v2 = parse_qstr(s@.skip(i as int + 2)).unwrap().0;
                    assert((before + seq![unesc_char(s@[i as int + 1])]) + v2 =~= before + (seq![
                        unesc_char(s@[i as int + 1]),
                    ] + v2));
                }
            }
            i = i + 2;
        } else if c == '\n' {
            return None;
        } else {
            let piece = s.substring_char(i, i + 1);
            let ghost before = out@;
            proof {
                assert(piece@ =~= seq![s@[i as int]]);
            }
            out.append(piece);
            proof {
                assert(s@.skip(i as int).drop_first() =~= s@.skip(i as int + 1));
                if parse_qstr(s@.skip(i as int + 1)) is Some {
                    let v2 = parse_qstr(s@.skip(i as int + 1)).unwrap().0;
                    assert((before + seq![s@[i as int]]) + v2 =~= before + (seq![s@[i as int]]
                        + v2));
                }
            }
            i = i + 1;
        }
    }
}

impl Recordable for BikeTrip {
    open spec fn timestamp_spec(&self) -> Timestamp {
        self.datetime
    }

    open spec fn tags_spec(&self) -> Seq<Seq<char>> {
        self.tags.deep_view()
    }

    open spec fn encode_spec(&self) -> Seq<char> {
        trip_enc(
            self.datetime.ticks,
            self.distance,
            self.duration,
            self.comments@,
            self.tags.deep_view(),
        )
    }

    open spec fn decodes(text: Seq<char>) -> bool {
        parse_trip(text) is Some
    }

    open spec fn represents(&self, text: Seq<char>) -> bool {
        parse_trip(text) == Some(
            (
                self.datetime.ticks,
                self.distance,
                self.duration,
                self.comments@,
                self.tags.deep_view(),
            ),
        )
    }

    proof fn lemma_codec(&self) {
        broadcast use vstd::std_specs::vec::axiom_spec_len;

        assert(vstd::std_specs::vec::spec_vec_len(&self.tags) == self.tags@.len());
        assert(self.tags.deep_view().len() == self.tags@.len());
        lemma_parse_trip_enc(
            self.datetime.ticks,
            self.distance,
            self.duration,
            self.comments@,
            self.tags.deep_view(),
        );
        reveal_strlit("null");
        assert(self.encode_spec() != "null"@) by {
            assert(self.encode_spec().len() >= 65);
            assert("null"@.len() == 4);
        }
    }

    proof fn lemma_represents(&self, other: &Self, text: Seq<char>) {
        let fs = parse_trip(text).unwrap();
        assert(self.datetime.ticks == fs.0 && other.datetime.ticks == fs.0);
    }

    fn timestamp(&self) -> (t: Timestamp) {
        self.datetime
    }

    fn tags(&self) -> (r: Vec<String>) {
        let n = self.tags.len();
        let mut out: Vec<String> = Vec::new();
        let mut i: usize = 0;
        while i < n
            invariant
                n == self.tags@.len(),
                0 <= i <= n,
                out@.len() == i,
                forall|j: int| 0 <= j < i ==> out@[j] == self.tags@[j],
            decreases n - i,
        {
            out.push(self.tags[i].clone());
            i = i + 1;
        }
        proof {
            assert(out.deep_view() =~= self.tags.deep_view());
        }
        out
    }

    fn encode(&self) -> (r: String) {
        let mut out = String::new();
        push_hex16(&mut out, self.datetime.ticks);
        push_hex16(&mut out, self.distance);
        push_hex16(&mut out, self.duration);
        push_hex16(&mut out, self.tags.len() as u64);
        proof {
            broadcast use vstd::std_specs::vec::axiom_spec_len;

            assert(vstd::std_specs::vec::spec_vec_len(&self.tags) == self.tags@.len());
            assert((self.tags@.len() as u64) as int == self.tags.deep_view().len());
        }
        push_escaped(&mut out, self.comments.as_str());
        proof {
            reveal_strlit("\"");
        }
        out.append("\"");
        let ghost head = out@;
        let n = self.tags.len();
        let mut i: usize = 0;
        proof {
            assert(tags_enc(self.tags.deep_view().take(0)) =~= Seq::<char>::empty());
            assert(out@ =~= head + tags_enc(self.tags.deep_view().take(0)));
        }
        while i < n
            invariant
                n == self.tags@.len(),
                0 <= i <= n,
                out@ =~= head + tags_enc(self.tags.deep_view().take(i as int)),
            decreases n - i,
        {
            push_escaped(&mut out, self.tags[i].as_str());
            proof {
                reveal_strlit("\"");
            }
            out.append("\"");
            proof {
                let dv = self.tags.deep_view();
                assert(dv.take(i as int + 1) =~= dv.take(i as int) + seq![dv[i as int]]);
                lemma_tags_enc_add(dv.take(i as int), seq![dv[i as int]]);
                lemma_tags_enc_singleton(dv[i as int]);
                assert(out@ =~= head + tags_enc(dv.take(i as int + 1)));
            }
            i = i + 1;
        }
        proof {
            let dv = self.tags.deep_view();
            assert(dv.take(n as int) =~= dv);
            assert(out@ =~= self.encode_spec());
        }
        out
    }

    fn decode(text: &str) -> (r: Option<Self>) {
        let n = text.unicode_len();
        if n < 64 {
            return None;
        }
        let t = match parse_hex16_at(text, 0) {
            Some(x) => x,
            None => {
                return None;
            },
        };
        let di = match parse_hex16_at(text, 16) {
            Some(x) => x,
            None => {
                return None;
            },
        };
        let du = match parse_hex16_at(text, 32) {
            Some(x) => x,
            None => {
                return None;
            },
        };
        let cnt = match parse_hex16_at(text, 48) {
            Some(x) => x,
            None => {
                return None;
            },
        };
        let (comments, pos0) = match parse_qstr_at(text, 64) {
            Some(v) => v,
            None => {
                return None;
            },
        };
        let ghost spec_cm = parse_qstr(text@.skip(64)).unwrap().0;
        let ghost spec_r = parse_qstr(text@.skip(64)).unwrap().1;
        let mut tags: Vec<String> = Vec::new();
        let mut pos: usize = pos0;
        let mut j: u64 = 0;
        proof {
            assert(spec_r == text@.skip(pos0 as int));
            assert(tags.deep_view() =~= Seq::<Seq<char>>::empty());
            if parse_tags(text@.skip(pos0 as int), cnt as int) is Some {
                let vs = parse_tags(text@.skip(pos0 as int), cnt as int).unwrap().0;
                assert(tags.deep_view() + vs =~= vs);
            }
        }
        while j < cnt
            invariant
                n == text@.len(),
                text@.len() <= usize::MAX,
                n >= 64,
                hex_chunk_ok(text@, 0),
                hex_chunk_ok(text@, 16),
                hex_chunk_ok(text@, 32),
                hex_chunk_ok(text@, 48),
                cnt == hex_seq_value(text@.subrange(48, 64)),
                parse_qstr(text@.skip(64)) == Some((spec_cm, spec_r)),
                0 <= j <= cnt,
                pos <= n,
                match parse_tags(text@.skip(pos as int), (cnt - j) as int) {
                    None => parse_tags(spec_r, cnt as int) is None,
                    Some((vs, r2)) => parse_tags(spec_r, cnt as int) == Some(
                        (tags.deep_view() + vs, r2),
                    ),
                },
            decreases cnt - j,
        {
            let (tag, next) = match parse_qstr_at(text, pos) {
                Some(v) => v,
                None => {
                    return None;
                },
            };
            let ghost before = tags.deep_view();
            let ghost tv = parse_qstr(text@.skip(pos as int)).unwrap().0;
            tags.push(tag);
            proof {
                assert(tags.deep_view() =~= before.push(tv));
                if parse_tags(text@.skip(next as int), (cnt - j - 1) as int) is Some {
                    let vs2 = parse_tags(text@.skip(next as int), (cnt - j - 1) as int).unwrap().0;
                    assert(before.push(tv) + vs2 =~= before + (seq![tv] + vs2));
                }
            }
            pos = next;
            j = j + 1;
        }
        if pos != n {
            proof {
                assert(text@.skip(pos as int).len() == n - pos);
            }
            return None;
        }
        proof {
            assert(text@.skip(pos as int).len() == 0);
            assert(tags.deep_view() + Seq::<Seq<char>>::empty() =~= tags.deep_view());
        }
        Some(
            BikeTrip {
                datetime: Timestamp { ticks: t },
                distance: di,
                duration: du,
                comments,
                tags,
            },
        )
    }
}

} // verus!
