//! The persisted file format: one header row, then one comma-separated
//! record per line. A field holding a comma, a quote, or a line break is
//! wrapped in quotes, with inner quotes doubled. Parsing what the
//! encoder wrote gives the records back unchanged, and a proof says so.

use vstd::prelude::*;

use crate::numeric::{all_digits, dec_digits, is_digit, parse_u64, spec_parse_u64, u64_to_digits};
use crate::song::{Song, SongView};
use crate::text::{chars_of, string_from_chars};

verus! {

/// The characters that force a field into quotes, and the only ones the
/// parser treats specially.
pub open spec fn is_special(c: char) -> bool {
    c == ',' || c == '"' || c == '\n' || c == '\r'
}

/// Whether a field must be written in quotes.
pub open spec fn needs_quote(s: Seq<char>) -> bool {
    exists|i: int| 0 <= i < s.len() && is_special(#[trigger] s[i])
}

/// The body of a quoted field: every quote doubled.
pub open spec fn esc(s: Seq<char>) -> Seq<char>
    decreases s.len(),
{
    if s.len() == 0 {
        Seq::empty()
    } else if s[0] == '"' {
        seq!['"', '"'] + esc(s.skip(1))
    } else {
        seq![s[0]] + esc(s.skip(1))
    }
}

/// The rendering of one field: quoted and escaped when it holds a
/// special character, verbatim otherwise.
pub open spec fn encode_field(s: Seq<char>) -> Seq<char> {
    if needs_quote(s) {
        seq!['"'] + esc(s) + seq!['"']
    } else {
        s
    }
}

/// The header row, line break included.
pub open spec fn header() -> Seq<char> {
    "id,title,artist,genre,play_count"@.push('\n')
}

/// The rendering of one record: its five fields separated by commas,
/// closed by a line break.
pub open spec fn encode_row(v: SongView) -> Seq<char> {
    dec_digits(v.id) + seq![','] + encode_field(v.title) + seq![','] + encode_field(v.artist)
        + seq![','] + encode_field(v.genre) + seq![','] + dec_digits(v.play_count) + seq!['\n']
}

/// The rendering of the records, in order.
pub open spec fn encode_rows(s: Seq<SongView>) -> Seq<char>
    decreases s.len(),
{
    if s.len() == 0 {
        Seq::empty()
    } else {
        encode_row(s[0]) + encode_rows(s.skip(1))
    }
}

/// The whole file: the header row, then every record.
pub open spec fn encode_catalog(s: Seq<SongView>) -> Seq<char> {
    header() + encode_rows(s)
}

/// A record whose numeric fields fit the machine word, as every record
/// built by the catalog does.
pub open spec fn row_ok(v: SongView) -> bool {
    &&& 0 <= v.id <= u64::MAX
    &&& 0 <= v.play_count <= u64::MAX
}

/// Reads an unquoted field: the characters up to the next delimiter.
/// Fails on a stray quote or carriage return.
pub open spec fn parse_unquoted(s: Seq<char>) -> Option<(Seq<char>, Seq<char>)>
    decreases s.len(),
{
    if s.len() == 0 {
        Some((Seq::empty(), Seq::empty()))
    } else if s[0] == ',' || s[0] == '\n' {
        Some((Seq::empty(), s))
    } else if s[0] == '"' || s[0] == '\r' {
        None
    } else {
        match parse_unquoted(s.skip(1)) {
            Some((f, r)) => Some((seq![s[0]] + f, r)),
            None => None,
        }
    }
}

/// Reads the body of a quoted field, the opening quote already
/// consumed: a doubled quote stands for one quote, a single quote
/// closes the field. Fails when the field never closes.
pub open spec fn parse_quoted(s: Seq<char>) -> Option<(Seq<char>, Seq<char>)>
    decreases s.len(),
{
    if s.len() == 0 {
        None
    } else if s[0] == '"' {
        if s.len() >= 2 && s[1] == '"' {
            match parse_quoted(s.skip(2)) {
                Some((f, r)) => Some((seq!['"'] + f, r)),
                None => None,
            }
        } else {
            Some((Seq::empty(), s.skip(1)))
        }
    } else {
        match parse_quoted(s.skip(1)) {
            Some((f, r)) => Some((seq![s[0]] + f, r)),
            None => None,
        }
    }
}

/// Reads one field, quoted or not, and returns it with the rest of the
/// input, the delimiter still in place.
pub open spec fn parse_field(s: Seq<char>) -> Option<(Seq<char>, Seq<char>)> {
    if s.len() > 0 && s[0] == '"' {
        parse_quoted(s.skip(1))
    } else {
        parse_unquoted(s)
    }
}

/// Reads one record: five comma-separated fields closed by a line
/// break, the first and last of them numeric.
pub open spec fn parse_row(s: Seq<char>) -> Option<(SongView, Seq<char>)> {
    match parse_field(s) {
        None => None,
        Some((f_id, r1)) => if r1.len() > 0 && r1[0] == ',' {
            match parse_field(r1.skip(1)) {
                None => None,
                Some((f_title, r2)) => if r2.len() > 0 && r2[0] == ',' {
                    match parse_field(r2.skip(1)) {
                        None => None,
                        Some((f_artist, r3)) => if r3.len() > 0 && r3[0] == ',' {
                            match parse_field(r3.skip(1)) {
                                None => None,
                                Some((f_genre, r4)) => if r4.len() > 0 && r4[0] == ',' {
                                    match parse_field(r4.skip(1)) {
                                        None => None,
                                        Some((f_count, r5)) => if r5.len() > 0 && r5[0] == '\n' {
                                            match (spec_parse_u64(f_id), spec_parse_u64(f_count)) {
                                                (Some(id), Some(pc)) => Some(
                                                    (
                                                        SongView {
                                                            id: id as int,
                                                            title: f_title,
                                                            artist: f_artist,
                                                            genre: f_genre,
                                                            play_count: pc as int,
                                                        },
                                                        r5.skip(1),
                                                    ),
                                                ),
                                                _ => None,
                                            }
                                        } else {
                                            None
                                        },
                                    }
                                } else {
                                    None
                                },
                            }
                        } else {
                            None
                        },
                    }
                } else {
                    None
                },
            }
        } else {
            None
        },
    }
}

/// Reads records until the input ends; any malformed record fails the
/// whole parse.
pub open spec fn parse_rows(s: Seq<char>) -> Option<Seq<SongView>>
    decreases s.len(),
{
    if s.len() == 0 {
        Some(Seq::empty())
    } else {
        match parse_row(s) {
            None => None,
            Some((v, rest)) => if rest.len() < s.len() {
                match parse_rows(rest) {
                    None => None,
                    Some(t) => Some(seq![v] + t),
                }
            } else {
                None
            },
        }
    }
}

/// Reads the whole file: the exact header row, then the records.
pub open spec fn parse_catalog(s: Seq<char>) -> Option<Seq<SongView>> {
    if s.len() >= header().len() && s.subrange(0, header().len() as int) == header() {
        parse_rows(s.skip(header().len() as int))
    } else {
        None
    }
}

/// A digit string needs no quotes and never starts with a quote.
proof fn lemma_digits_plain(s: Seq<char>)
    requires
        all_digits(s),
    ensures
        !needs_quote(s),
        forall|i: int| 0 <= i < s.len() ==> !is_special(#[trigger] s[i]),
{
    assert forall|i: int| 0 <= i < s.len() implies !is_special(#[trigger] s[i]) by {
        assert(is_digit(s[i]));
        if s[i] == ',' {
            assert(s[i] as u32 == 44);
        }
        if s[i] == '"' {
            assert(s[i] as u32 == 34);
        }
        if s[i] == '\n' {
            assert(s[i] as u32 == 10);
        }
        if s[i] == '\r' {
            assert(s[i] as u32 == 13);
        }
    }
}

/// An unquoted rendering parses back to the field, leaving the rest.
proof fn lemma_parse_unquoted_enc(f: Seq<char>, rest: Seq<char>)
    requires
        !needs_quote(f),
        rest.len() > 0,
        rest[0] == ',' || rest[0] == '\n',
    ensures
        parse_unquoted(f + rest) == Some((f, rest)),
    decreases f.len(),
{
    let s = f + rest;
    if f.len() == 0 {
        assert(s =~= rest);
    } else {
        assert(s[0] == f[0]);
        assert(!is_special(f[0]));
        assert(!needs_quote(f.skip(1))) by {
            assert forall|i: int| 0 <= i < f.skip(1).len() implies !is_special(
                #[trigger] f.skip(1)[i],
            ) by {
                assert(f.skip(1)[i] == f[i + 1]);
                assert(!is_special(f[i + 1]));
            }
        }
        lemma_parse_unquoted_enc(f.skip(1), rest);
        assert(s.skip(1) =~= f.skip(1) + rest);
        assert(seq![f[0]] + f.skip(1) =~= f);
    }
}

/// A quoted rendering parses back to the field, leaving the rest.
proof fn lemma_parse_quoted_enc(f: Seq<char>, rest: Seq<char>)
    requires
        rest.len() > 0,
        rest[0] == ',' || rest[0] == '\n',
    ensures
        parse_quoted(esc(f) + seq!['"'] + rest) == Some((f, rest)),
    decreases f.len(),
{
    let s = esc(f) + seq!['"'] + rest;
    if f.len() == 0 {
        assert(esc(f) =~= Seq::<char>::empty());
        assert(s =~= seq!['"'] + rest);
        assert(s[0] == '"');
        assert(s[1] == rest[0]);
        assert(s.skip(1) =~= rest);
    } else if f[0] == '"' {
        assert(esc(f) == seq!['"', '"'] + esc(f.skip(1)));
        assert(s[0] == '"');
        assert(s[1] == '"');
        assert(s.len() >= 2);
        lemma_parse_quoted_enc(f.skip(1), rest);
        assert(s.skip(2) =~= esc(f.skip(1)) + seq!['"'] + rest);
        assert(seq!['"'] + f.skip(1) =~= f);
    } else {
        assert(esc(f) == seq![f[0]] + esc(f.skip(1)));
        assert(s[0] == f[0]);
        lemma_parse_quoted_enc(f.skip(1), rest);
        assert(s.skip(1) =~= esc(f.skip(1)) + seq!['"'] + rest);
        assert(seq![f[0]] + f.skip(1) =~= f);
    }
}

/// A rendered field parses back to itself, leaving the rest.
proof fn lemma_parse_field_enc(f: Seq<char>, rest: Seq<char>)
    requires
        rest.len() > 0,
        rest[0] == ',' || rest[0] == '\n',
    ensures
        parse_field(encode_field(f) + rest) == Some((f, rest)),
{
    let s = encode_field(f) + rest;
    if needs_quote(f) {
        assert(s[0] == '"');
        lemma_parse_quoted_enc(f, rest);
        assert(s.skip(1) =~= esc(f) + seq!['"'] + rest);
    } else {
        assert(s =~= f + rest);
        if f.len() > 0 {
            assert(!is_special(f[0]));
            assert(s[0] == f[0]);
        } else {
            assert(s[0] == rest[0]);
        }
        assert(s[0] != '"');
        lemma_parse_unquoted_enc(f, rest);
    }
}

/// A rendered record parses back to itself, leaving the rest.
#[verifier::rlimit(60)]
proof fn lemma_parse_row_enc(v: SongView, rest: Seq<char>)
    requires
        row_ok(v),
    ensures
        parse_row(encode_row(v) + rest) == Some((v, rest)),
{
    let e_id = dec_digits(v.id);
    let e_t = encode_field(v.title);
    let e_a = encode_field(v.artist);
    let e_g = encode_field(v.genre);
    let e_pc = dec_digits(v.play_count);
    let s = encode_row(v) + rest;

    let r5 = seq!['\n'] + rest;
    let r4 = e_pc + r5;
    let r3 = e_g + seq![','] + r4;
    let r2 = e_a + seq![','] + r3;
    let r1 = e_t + seq![','] + r2;

    crate::numeric::lemma_dec_digits_shape(v.id);
    crate::numeric::lemma_dec_digits_shape(v.play_count);
    lemma_digits_plain(e_id);
    lemma_digits_plain(e_pc);

    assert(s =~= e_id + (seq![','] + r1));
    lemma_parse_field_enc(e_id, seq![','] + r1);
    assert(parse_field(s) == Some((e_id, seq![','] + r1)));
    assert((seq![','] + r1)[0] == ',');
    assert((seq![','] + r1).skip(1) =~= r1);

    assert(r1 =~= e_t + (seq![','] + r2));
    lemma_parse_field_enc(v.title, seq![','] + r2);
    assert((seq![','] + r2)[0] == ',');
    assert((seq![','] + r2).skip(1) =~= r2);

    assert(r2 =~= e_a + (seq![','] + r3));
    lemma_parse_field_enc(v.artist, seq![','] + r3);
    assert((seq![','] + r3)[0] == ',');
    assert((seq![','] + r3).skip(1) =~= r3);

    assert(r3 =~= e_g + (seq![','] + r4));
    lemma_parse_field_enc(v.genre, seq![','] + r4);
    assert((seq![','] + r4)[0] == ',');
    assert((seq![','] + r4).skip(1) =~= r4);

    assert(r4 =~= e_pc + r5);
    lemma_parse_field_enc(e_pc, r5);
    assert(r5[0] == '\n');
    assert(r5.skip(1) =~= rest);

    crate::numeric::lemma_parse_of_digits(v.id as u64);
    crate::numeric::lemma_parse_of_digits(v.play_count as u64);
    assert(spec_parse_u64(e_id) == Some(v.id as u64));
    assert(spec_parse_u64(e_pc) == Some(v.play_count as u64));
}

/// Rendered records parse back to themselves, in order.
proof fn lemma_parse_rows_enc(s: Seq<SongView>)
    requires
        forall|i: int| 0 <= i < s.len() ==> row_ok(#[trigger] s[i]),
    ensures
        parse_rows(encode_rows(s)) == Some(s),
    decreases s.len(),
{
    if s.len() == 0 {
        assert(encode_rows(s) =~= Seq::<char>::empty());
        assert(parse_rows(encode_rows(s)) == Some(Seq::<SongView>::empty()));
        assert(s =~= Seq::<SongView>::empty());
    } else {
        let e = encode_rows(s);
        let tail = encode_rows(s.skip(1));
        assert(e == encode_row(s[0]) + tail);
        lemma_parse_row_enc(s[0], tail);
        assert(encode_row(s[0]).len() >= 1) by {
            assert(encode_row(s[0]).len() == dec_digits(s[0].id).len() + 1 + encode_field(
                s[0].title,
            ).len() + 1 + encode_field(s[0].artist).len() + 1 + encode_field(s[0].genre).len() + 1
                + dec_digits(s[0].play_count).len() + 1);
        }
        assert(e.len() > 0);
        assert(tail.len() < e.len());
        assert(forall|i: int| 0 <= i < s.skip(1).len() ==> row_ok(#[trigger] s.skip(1)[i])) by {
            assert(forall|i: int|
                0 <= i < s.skip(1).len() ==> #[trigger] s.skip(1)[i] == s[i + 1]);
        }
        lemma_parse_rows_enc(s.skip(1));
        assert(seq![s[0]] + s.skip(1) =~= s);
    }
}

/// Round trip: parsing the rendering of a catalog gives exactly the
/// same ordered records back.
pub proof fn lemma_codec_round_trip(s: Seq<SongView>)
    requires
        forall|i: int| 0 <= i < s.len() ==> row_ok(#[trigger] s[i]),
    ensures
        parse_catalog(encode_catalog(s)) == Some(s),
{
    let e = encode_catalog(s);
    assert(e.subrange(0, header().len() as int) =~= header());
    assert(e.skip(header().len() as int) =~= encode_rows(s));
    lemma_parse_rows_enc(s);
}

/// Reading the persisted text failed: some row was malformed.
#[derive(Debug, Clone, Copy, PartialEq, Eq, Structural)]
pub enum CodecError {
    Malformed,
}

fn push_chars(out: &mut Vec<char>, s: &Vec<char>)
    ensures
        final(out)@ == old(out)@ + s@,
{
    let n = s.len();
    let mut i: usize = 0;
    proof {
        assert(out@ =~= old(out)@ + s@.take(0));
    }
    while i < n
        invariant
            n == s@.len(),
            0 <= i <= n,
            out@ == old(out)@ + s@.take(i as int),
        decreases n - i,
    {
        out.push(s[i]);
        proof {
            assert(old(out)@ + s@.take(i + 1 as int) =~= (old(out)@ + s@.take(i as int)).push(
                s@[i as int],
            ));
        }
        i += 1;
    }
    proof {
        assert(s@.take(n as int) =~= s@);
    }
}

fn has_special(v: &Vec<char>) -> (r: bool)
    ensures
        r == needs_quote(v@),
{
    let n = v.len();
    let mut i: usize = 0;
    while i < n
        invariant
            n == v@.len(),
            0 <= i <= n,
            forall|k: int| 0 <= k < i ==> !is_special(#[trigger] v@[k]),
        decreases n - i,
    {
        let c = v[i];
        if c == ',' || c == '"' || c == '\n' || c == '\r' {
            proof {
                assert(is_special(v@[i as int]));
            }
            return true;
        }
        i += 1;
    }
    false
}

fn encode_field_into(out: &mut Vec<char>, field: &Vec<char>)
    ensures
        final(out)@ == old(out)@ + encode_field(field@),
{
    if !has_special(field) {
        push_chars(out, field);
        return ;
    }
    out.push('"');
    let n = field.len();
    let mut i: usize = 0;
    proof {
        assert(field@.skip(0) =~= field@);
        assert(out@ + esc(field@.skip(0)) =~= old(out)@ + seq!['"'] + esc(field@));
    }
    while i < n
        invariant
            n == field@.len(),
            0 <= i <= n,
            out@ + esc(field@.skip(i as int)) == old(out)@ + seq!['"'] + esc(field@),
        decreases n - i,
    {
        let c = field[i];
        proof {
            assert(field@.skip(i as int)[0] == field@[i as int]);
            assert(field@.skip(i as int).skip(1) =~= field@.skip(i + 1 as int));
        }
        let ghost pre = out@;
        if c == '"' {
            out.push('"');
            out.push('"');
            proof {
                assert(esc(field@.skip(i as int)) == seq!['"', '"'] + esc(
                    field@.skip(i + 1 as int),
                ));
                assert(out@ + esc(field@.skip(i + 1 as int)) =~= pre + esc(
                    field@.skip(i as int),
                ));
            }
        } else {
            out.push(c);
            proof {
                assert(esc(field@.skip(i as int)) == seq![field@[i as int]] + esc(
                    field@.skip(i + 1 as int),
                ));
                assert(out@ + esc(field@.skip(i + 1 as int)) =~= pre + esc(
                    field@.skip(i as int),
                ));
            }
        }
        i += 1;
    }
    proof {
        assert(esc(field@.skip(n as int)) =~= Seq::<char>::empty());
        assert(out@ =~= out@ + esc(field@.skip(n as int)));
    }
    out.push('"');
    proof {
        assert(out@ =~= old(out)@ + (seq!['"'] + esc(field@) + seq!['"']));
    }
}

fn header_chars() -> (r: Vec<char>)
    ensures
        r@ == header(),
{
    let mut h = chars_of("id,title,artist,genre,play_count");
    h.push('\n');
    h
}

/// The header row alone, as written at the top of a fresh file.
pub fn header_text() -> (r: String)
    ensures
        r@ == header(),
{
    let h = header_chars();
    string_from_chars(&h)
}

fn row_chars(song: &Song) -> (r: Vec<char>)
    ensures
        r@ == encode_row(song@),
{
    let mut out: Vec<char> = Vec::new();
    let idd = u64_to_digits(song.id);
    push_chars(&mut out, &idd);
    out.push(',');
    let tc = chars_of(song.title.as_str());
    encode_field_into(&mut out, &tc);
    out.push(',');
    let ac = chars_of(song.artist.as_str());
    encode_field_into(&mut out, &ac);
    out.push(',');
    let gc = chars_of(song.genre.as_str());
    encode_field_into(&mut out, &gc);
    out.push(',');
    let pcd = u64_to_digits(song.play_count);
    push_chars(&mut out, &pcd);
    out.push('\n');
    proof {
        assert(out@ =~= encode_row(song@));
    }
    out
}

/// One record as a line of the file, used when a single new record is
/// appended to an already-written file.
pub fn row_text(song: &Song) -> (r: String)
    ensures
        r@ == encode_row(song@),
{
    let out = row_chars(song);
    string_from_chars(&out)
}

/// The whole catalog as file text: the header row, then every record
/// in order.
pub fn catalog_text(songs: &Vec<Song>) -> (r: String)
    ensures
        r@ == encode_catalog(songs.deep_view()),
{
    let ghost dv = songs.deep_view();
    let mut out = header_chars();
    let n = songs.len();
    let mut i: usize = 0;
    proof {
        assert(dv.skip(0) =~= dv);
        assert(out@ + encode_rows(dv.skip(0)) =~= header() + encode_rows(dv));
    }
    while i < n
        invariant
            n == songs@.len(),
            dv == songs.deep_view(),
            dv.len() == n,
            0 <= i <= n,
            out@ + encode_rows(dv.skip(i as int)) == header() + encode_rows(dv),
        decreases n - i,
    {
        let ghost pre = out@;
        let row = row_chars(&songs[i]);
        push_chars(&mut out, &row);
        proof {
            assert(dv.skip(i as int)[0] == dv[i as int]);
            assert(dv.skip(i as int).skip(1) =~= dv.skip(i + 1 as int));
            assert(encode_rows(dv.skip(i as int)) == encode_row(dv[i as int]) + encode_rows(
                dv.skip(i + 1 as int),
            ));
            assert(dv[i as int] == songs@[i as int]@);
            assert(out@ + encode_rows(dv.skip(i + 1 as int)) =~= pre + encode_rows(
                dv.skip(i as int),
            ));
        }
        i += 1;
    }
    proof {
        assert(encode_rows(dv.skip(n as int)) =~= Seq::<char>::empty());
        assert(out@ =~= header() + encode_rows(dv));
    }
    string_from_chars(&out)
}

fn scan_unquoted(v: &Vec<char>, start: usize) -> (r: Option<(Vec<char>, usize)>)
    requires
        start <= v@.len(),
    ensures
        r is Some ==> start <= r->Some_0.1 <= v@.len() && parse_unquoted(v@.skip(start as int))
            == Some((r->Some_0.0@, v@.skip(r->Some_0.1 as int))),
        r is None ==> parse_unquoted(v@.skip(start as int)) is None,
{
    let n = v.len();
    let mut acc: Vec<char> = Vec::new();
    let mut i: usize = start;
    while i < n
        invariant
            n == v@.len(),
            start <= i <= n,
            parse_unquoted(v@.skip(start as int)) == (match parse_unquoted(v@.skip(i as int)) {
                Some((f, r)) => Some((acc@ + f, r)),
                None => None,
            }),
        decreases n - i,
    {
        let c = v[i];
        proof {
            assert(v@.skip(i as int)[0] == v@[i as int]);
        }
        if c == ',' || c == '\n' {
            proof {
                assert(parse_unquoted(v@.skip(i as int)) == Some(
                    (Seq::<char>::empty(), v@.skip(i as int)),
                ));
                assert(acc@ + Seq::<char>::empty() =~= acc@);
            }
            return Some((acc, i));
        }
        if c == '"' || c == '\r' {
            return None;
        }
        proof {
            assert(v@.skip(i as int).skip(1) =~= v@.skip(i + 1 as int));
            let o = parse_unquoted(v@.skip(i + 1 as int));
            if o is Some {
                let p = o->Some_0;
                assert(acc@ + (seq![v@[i as int]] + p.0) =~= acc@.push(v@[i as int]) + p.0);
            }
        }
        acc.push(c);
        i += 1;
    }
    proof {
        assert(v@.skip(n as int) =~= Seq::<char>::empty());
        assert(parse_unquoted(v@.skip(n as int)) == Some(
            (Seq::<char>::empty(), Seq::<char>::empty()),
        ));
        assert(acc@ + Seq::<char>::empty() =~= acc@);
    }
    Some((acc, n))
}

fn scan_quoted(v: &Vec<char>, start: usize) -> (r: Option<(Vec<char>, usize)>)
    requires
        start <= v@.len(),
    ensures
        r is Some ==> start <= r->Some_0.1 <= v@.len() && parse_quoted(v@.skip(start as int))
            == Some((r->Some_0.0@, v@.skip(r->Some_0.1 as int))),
        r is None ==> parse_quoted(v@.skip(start as int)) is None,
{
    let n = v.len();
    let mut acc: Vec<char> = Vec::new();
    let mut i: usize = start;
    while i < n
        invariant
            n == v@.len(),
            start <= i <= n,
            parse_quoted(v@.skip(start as int)) == (match parse_quoted(v@.skip(i as int)) {
                Some((f, r)) => Some((acc@ + f, r)),
                None => None,
            }),
        decreases n - i,
    {
        let c = v[i];
        proof {
            assert(v@.skip(i as int)[0] == v@[i as int]);
        }
        if c == '"' {
            if i + 1 < n && v[i + 1] == '"' {
                proof {
                    assert(v@.skip(i as int).len() >= 2);
                    assert(v@.skip(i as int)[1] == v@[i + 1]);
                    assert(v@.skip(i as int).skip(2) =~= v@.skip(i + 2 as int));
                    let o = parse_quoted(v@.skip(i + 2 as int));
                    if o is Some {
                        let p = o->Some_0;
                        assert(acc@ + (seq!['"'] + p.0) =~= acc@.push('"') + p.0);
                    }
                }
                acc.push('"');
                i += 2;
            } else {
                proof {
                    assert(v@.skip(i as int).skip(1) =~= v@.skip(i + 1 as int));
                    assert(parse_quoted(v@.skip(i as int)) == Some(
                        (Seq::<char>::empty(), v@.skip(i + 1 as int)),
                    ));
                    assert(acc@ + Seq::<char>::empty() =~= acc@);
                }
                return Some((acc, i + 1));
            }
        } else {
            proof {
                assert(v@.skip(i as int).skip(1) =~= v@.skip(i + 1 as int));
                let o = parse_quoted(v@.skip(i + 1 as int));
                if o is Some {
                    let p = o->Some_0;
                    assert(acc@ + (seq![v@[i as int]] + p.0) =~= acc@.push(v@[i as int]) + p.0);
                }
            }
            acc.push(c);
            i += 1;
        }
    }
    proof {
        assert(v@.skip(n as int) =~= Seq::<char>::empty());
    }
    None
}

fn scan_field(v: &Vec<char>, start: usize) -> (r: Option<(Vec<char>, usize)>)
    requires
        start <= v@.len(),
    ensures
        r is Some ==> start <= r->Some_0.1 <= v@.len() && parse_field(v@.skip(start as int))
            == Some((r->Some_0.0@, v@.skip(r->Some_0.1 as int))),
        r is None ==> parse_field(v@.skip(start as int)) is None,
{
    let n = v.len();
    if start < n && v[start] == '"' {
        proof {
            assert(v@.skip(start as int)[0] == v@[start as int]);
            assert(v@.skip(start as int).skip(1) =~= v@.skip(start + 1 as int));
        }
        scan_quoted(v, start + 1)
    } else {
        proof {
            if start < n {
                assert(v@.skip(start as int)[0] == v@[start as int]);
            }
        }
        scan_unquoted(v, start)
    }
}

fn scan_row(v: &Vec<char>, start: usize) -> (r: Option<(Song, usize)>)
    requires
        start <= v@.len(),
    ensures
        r is Some ==> start < r->Some_0.1 <= v@.len() && parse_row(v@.skip(start as int)) == Some(
            (r->Some_0.0@, v@.skip(r->Some_0.1 as int)),
        ),
        r is None ==> parse_row(v@.skip(start as int)) is None,
{
    let n = v.len();
    let f_id = match scan_field(v, start) {
        None => {
            return None;
        },
        Some(p) => p,
    };
    let j1 = f_id.1;
    if !(j1 < n && v[j1] == ',') {
        proof {
            assert(v@.skip(j1 as int).len() > 0 ==> v@.skip(j1 as int)[0] == v@[j1 as int]);
        }
        return None;
    }
    proof {
        assert(v@.skip(j1 as int)[0] == v@[j1 as int]);
        assert(v@.skip(j1 as int).skip(1) =~= v@.skip(j1 + 1 as int));
    }
    let f_title = match scan_field(v, j1 + 1) {
        None => {
            return None;
        },
        Some(p) => p,
    };
    let j2 = f_title.1;
    if !(j2 < n && v[j2] == ',') {
        proof {
            assert(v@.skip(j2 as int).len() > 0 ==> v@.skip(j2 as int)[0] == v@[j2 as int]);
        }
        return None;
    }
    proof {
        assert(v@.skip(j2 as int)[0] == v@[j2 as int]);
        assert(v@.skip(j2 as int).skip(1) =~= v@.skip(j2 + 1 as int));
    }
    let f_artist = match scan_field(v, j2 + 1) {
        None => {
            return None;
        },
        Some(p) => p,
    };
    let j3 = f_artist.1;
    if !(j3 < n && v[j3] == ',') {
        proof {
            assert(v@.skip(j3 as int).len() > 0 ==> v@.skip(j3 as int)[0] == v@[j3 as int]);
        }
        return None;
    }
    proof {
        assert(v@.skip(j3 as int)[0] == v@[j3 as int]);
        assert(v@.skip(j3 as int).skip(1) =~= v@.skip(j3 + 1 as int));
    }
    let f_genre = match scan_field(v, j3 + 1) {
        None => {
            return None;
        },
        Some(p) => p,
    };
    let j4 = f_genre.1;
    if !(j4 < n && v[j4] == ',') {
        proof {
            assert(v@.skip(j4 as int).len() > 0 ==> v@.skip(j4 as int)[0] == v@[j4 as int]);
        }
        return None;
    }
    proof {
        assert(v@.skip(j4 as int)[0] == v@[j4 as int]);
        assert(v@.skip(j4 as int).skip(1) =~= v@.skip(j4 + 1 as int));
    }
    let f_count = match scan_field(v, j4 + 1) {
        None => {
            return None;
        },
        Some(p) => p,
    };
    let j5 = f_count.1;
    if !(j5 < n && v[j5] == '\n') {
        proof {
            assert(v@.skip(j5 as int).len() > 0 ==> v@.skip(j5 as int)[0] == v@[j5 as int]);
        }
        return None;
    }
    proof {
        assert(v@.skip(j5 as int)[0] == v@[j5 as int]);
        assert(v@.skip(j5 as int).skip(1) =~= v@.skip(j5 + 1 as int));
    }
    let id = match parse_u64(&f_id.0) {
        None => {
            return None;
        },
        Some(x) => x,
    };
    let pc = match parse_u64(&f_count.0) {
        None => {
            return None;
        },
        Some(x) => x,
    };
    let song = Song {
        id,
        title: string_from_chars(&f_title.0),
        artist: string_from_chars(&f_artist.0),
        genre: string_from_chars(&f_genre.0),
        play_count: pc,
    };
    Some((song, j5 + 1))
}

/// Parses persisted file text back into records: the exact header row,
/// then one record per line. Any deviation is malformed and fails the
/// whole parse, as loading a damaged file must.
pub fn parse_catalog_text(text: &str) -> (r: Result<Vec<Song>, CodecError>)
    ensures
        r is Ok ==> parse_catalog(text@) == Some(r->Ok_0.deep_view()),
        r is Err ==> parse_catalog(text@) is None && r->Err_0 == CodecError::Malformed,
{
    let v = chars_of(text);
    let h = header_chars();
    let hl = h.len();
    let n = v.len();
    if n < hl {
        return Err(CodecError::Malformed);
    }
    let mut k: usize = 0;
    while k < hl
        invariant
            hl == header().len(),
            h@ == header(),
            n == v@.len(),
            text@ == v@,
            hl <= n,
            0 <= k <= hl,
            forall|m: int| 0 <= m < k ==> v@[m] == header()[m],
        decreases hl - k,
    {
        if v[k] != h[k] {
            proof {
                assert(v@.subrange(0, hl as int)[k as int] == v@[k as int]);
                if v@.subrange(0, hl as int) == header() {
                    assert(v@.subrange(0, hl as int)[k as int] == header()[k as int]);
                }
                assert(v@.subrange(0, hl as int) != header());
                assert(parse_catalog(text@) is None);
            }
            return Err(CodecError::Malformed);
        }
        k += 1;
    }
    proof {
        assert(v@.subrange(0, hl as int) =~= header());
    }
    let mut songs: Vec<Song> = Vec::new();
    let mut i: usize = hl;
    proof {
        assert(songs.deep_view() =~= Seq::<SongView>::empty());
    }
    while i < n
        invariant
            n == v@.len(),
            text@ == v@,
            hl == header().len(),
            hl <= i <= n,
            v@.subrange(0, hl as int) == header(),
            parse_rows(v@.skip(hl as int)) == (match parse_rows(v@.skip(i as int)) {
                Some(t) => Some(songs.deep_view() + t),
                None => None,
            }),
        decreases n - i,
    {
        let ghost pre = songs.deep_view();
        match scan_row(&v, i) {
            None => {
                proof {
                    assert(v@.skip(i as int).len() > 0);
                    assert(parse_row(v@.skip(i as int)) is None);
                    assert(parse_rows(v@.skip(i as int)) is None);
                    assert(parse_catalog(text@) is None);
                }
                return Err(CodecError::Malformed);
            },
            Some(p) => {
                let j = p.1;
                proof {
                    assert(v@.skip(i as int).len() > 0);
                    assert(v@.skip(j as int).len() < v@.skip(i as int).len());
                    let o = parse_rows(v@.skip(j as int));
                    if o is Some {
                        let t = o->Some_0;
                        assert(pre + (seq![p.0@] + t) =~= pre.push(p.0@) + t);
                    }
                }
                songs.push(p.0);
                proof {
                    assert(songs.deep_view() =~= pre.push(p.0@));
                }
                i = j;
            },
        }
    }
    proof {
        assert(v@.skip(n as int) =~= Seq::<char>::empty());
        assert(parse_rows(v@.skip(n as int)) == Some(Seq::<SongView>::empty()));
        assert(songs.deep_view() + Seq::<SongView>::empty() =~= songs.deep_view());
        assert(text@ == v@);
    }
    Ok(songs)
}

} // verus!
