//! The line-record format: one JSON object per line.
//!
//! This module fixes, as spec functions, both directions of the format:
//! [`ser_doc`] says exactly which character sequence a document is
//! written as, and [`p_doc`] says which documents a line of text
//! denotes. The executable [`encode_document`] and [`parse_document`]
//! are proved to match them, and [`lemma_doc_round_trip`] proves that
//! writing a well-formed document and reading it back yields the same
//! document.
//!
//! The grammar is the usual JSON one, restricted to the record shape:
//! an object with keys `content`, `warc_headers` and `metadata` in
//! that order and no others, blanks allowed between tokens, string
//! escapes `\" \\ \/ \b \f \n \r \t` and `\uXXXX` for single scalar
//! values (surrogate pairs are not combined), and numbers kept as
//! their decimal tokens.

use vstd::prelude::*;

use crate::doc::{
    doc_wf, ident_wf, is_digit, is_number_token, metadata_wf, num_accepting, num_run, num_step,
    opt_ident_wf, opt_idents_view, pairs_view, stringable, stringable_char, strs_view, Document,
    DocumentV, IdentV, Identification, Metadata, MetadataV,
};
use crate::error::Error;
use vstd::std_specs::iter::IteratorSpec;

verus! {

// ---------------------------------------------------------------------
// Serialization, as a spec function on views.
// ---------------------------------------------------------------------
/// How one character is written inside a JSON string.
pub open spec fn esc_char(c: char) -> Seq<char> {
    if c == '"' {
        seq!['\\', '"']
    } else if c == '\\' {
        seq!['\\', '\\']
    } else if c == '\n' {
        seq!['\\', 'n']
    } else if c == '\r' {
        seq!['\\', 'r']
    } else if c == '\t' {
        seq!['\\', 't']
    } else if c == '\u{8}' {
        seq!['\\', 'b']
    } else if c == '\u{c}' {
        seq!['\\', 'f']
    } else {
        seq![c]
    }
}

pub open spec fn escape(s: Seq<char>) -> Seq<char>
    decreases s.len(),
{
    if s.len() == 0 {
        Seq::empty()
    } else {
        esc_char(s[0]) + escape(s.drop_first())
    }
}

pub open spec fn ser_str(s: Seq<char>) -> Seq<char> {
    seq!['"'] + escape(s) + seq!['"']
}

pub open spec fn lit_content() -> Seq<char> {
    seq!['"', 'c', 'o', 'n', 't', 'e', 'n', 't', '"']
}

pub open spec fn lit_warc_headers() -> Seq<char> {
    seq!['"', 'w', 'a', 'r', 'c', '_', 'h', 'e', 'a', 'd', 'e', 'r', 's', '"']
}

pub open spec fn lit_metadata() -> Seq<char> {
    seq!['"', 'm', 'e', 't', 'a', 'd', 'a', 't', 'a', '"']
}

pub open spec fn lit_identification() -> Seq<char> {
    seq!['"', 'i', 'd', 'e', 'n', 't', 'i', 'f', 'i', 'c', 'a', 't', 'i', 'o', 'n', '"']
}

pub open spec fn lit_annotation() -> Seq<char> {
    seq!['"', 'a', 'n', 'n', 'o', 't', 'a', 't', 'i', 'o', 'n', '"']
}

pub open spec fn lit_sentence_identifications() -> Seq<char> {
    seq![
        '"',
        's',
        'e',
        'n',
        't',
        'e',
        'n',
        'c',
        'e',
        '_',
        'i',
        'd',
        'e',
        'n',
        't',
        'i',
        'f',
        'i',
        'c',
        'a',
        't',
        'i',
        'o',
        'n',
        's',
        '"',
    ]
}

pub open spec fn lit_label() -> Seq<char> {
    seq!['"', 'l', 'a', 'b', 'e', 'l', '"']
}

pub open spec fn lit_prob() -> Seq<char> {
    seq!['"', 'p', 'r', 'o', 'b', '"']
}

pub open spec fn lit_null() -> Seq<char> {
    seq!['n', 'u', 'l', 'l']
}

pub open spec fn ser_pair(p: (Seq<char>, Seq<char>)) -> Seq<char> {
    ser_str(p.0) + seq![':'] + ser_str(p.1)
}

pub open spec fn ser_pairs_rest(ps: Seq<(Seq<char>, Seq<char>)>) -> Seq<char>
    decreases ps.len(),
{
    if ps.len() == 0 {
        Seq::empty()
    } else {
        seq![','] + ser_pair(ps[0]) + ser_pairs_rest(ps.drop_first())
    }
}

/// The header mapping as a JSON object, in stored order.
pub open spec fn ser_headers(ps: Seq<(Seq<char>, Seq<char>)>) -> Seq<char> {
    if ps.len() == 0 {
        seq!['{', '}']
    } else {
        seq!['{'] + ser_pair(ps[0]) + ser_pairs_rest(ps.drop_first()) + seq!['}']
    }
}

pub open spec fn ser_ident(id: IdentV) -> Seq<char> {
    seq!['{'] + lit_label() + seq![':'] + ser_str(id.label) + seq![','] + lit_prob() + seq![':']
        + id.prob + seq!['}']
}

pub open spec fn ser_opt_ident(id: Option<IdentV>) -> Seq<char> {
    match id {
        Some(i) => ser_ident(i),
        None => lit_null(),
    }
}

pub open spec fn ser_idents_rest(ids: Seq<Option<IdentV>>) -> Seq<char>
    decreases ids.len(),
{
    if ids.len() == 0 {
        Seq::empty()
    } else {
        seq![','] + ser_opt_ident(ids[0]) + ser_idents_rest(ids.drop_first())
    }
}

pub open spec fn ser_ident_list(ids: Seq<Option<IdentV>>) -> Seq<char> {
    if ids.len() == 0 {
        seq!['[', ']']
    } else {
        seq!['['] + ser_opt_ident(ids[0]) + ser_idents_rest(ids.drop_first()) + seq![']']
    }
}

pub open spec fn ser_strs_rest(tags: Seq<Seq<char>>) -> Seq<char>
    decreases tags.len(),
{
    if tags.len() == 0 {
        Seq::empty()
    } else {
        seq![','] + ser_str(tags[0]) + ser_strs_rest(tags.drop_first())
    }
}

pub open spec fn ser_str_list(tags: Seq<Seq<char>>) -> Seq<char> {
    if tags.len() == 0 {
        seq!['[', ']']
    } else {
        seq!['['] + ser_str(tags[0]) + ser_strs_rest(tags.drop_first()) + seq![']']
    }
}

pub open spec fn ser_annotation(a: Option<Seq<Seq<char>>>) -> Seq<char> {
    match a {
        Some(tags) => ser_str_list(tags),
        None => lit_null(),
    }
}

pub open spec fn ser_metadata(m: MetadataV) -> Seq<char> {
    seq!['{'] + lit_identification() + seq![':'] + ser_ident(m.identification) + seq![',']
        + lit_annotation() + seq![':'] + ser_annotation(m.annotation) + seq![',']
        + lit_sentence_identifications() + seq![':'] + ser_ident_list(m.sentence_identifications)
        + seq!['}']
}

/// The one line a document is written as (no trailing newline).
pub open spec fn ser_doc(d: DocumentV) -> Seq<char> {
    seq!['{'] + lit_content() + seq![':'] + ser_str(d.content) + seq![','] + lit_warc_headers()
        + seq![':'] + ser_headers(d.warc_headers) + seq![','] + lit_metadata() + seq![':']
        + ser_metadata(d.metadata) + seq!['}']
}

// ---------------------------------------------------------------------
// Parsing, as spec functions on the remaining input.
// ---------------------------------------------------------------------
/// JSON inter-token whitespace, as far as it can occur inside one
/// framed line: space, tab and carriage return (so a line ending in
/// `\r\n` frames to a record with one trailing blank). Line feeds
/// never reach the parser: they terminate the line.
pub open spec fn blank(c: char) -> bool {
    c == ' ' || c == '\t' || c == '\r'
}

/// The input with leading blanks removed.
pub open spec fn ws(s: Seq<char>) -> Seq<char>
    decreases s.len(),
{
    if s.len() > 0 && blank(s[0]) {
        ws(s.drop_first())
    } else {
        s
    }
}

/// Consume an exact token.
pub open spec fn p_lit(s: Seq<char>, lit: Seq<char>) -> Option<Seq<char>> {
    if lit.is_prefix_of(s) {
        Some(s.skip(lit.len() as int))
    } else {
        None
    }
}

/// Consume blanks, a key token, blanks and a colon.
pub open spec fn p_key(s: Seq<char>, lit: Seq<char>) -> Option<Seq<char>> {
    match p_lit(ws(s), lit) {
        Some(r) => p_lit(ws(r), seq![':']),
        None => None,
    }
}

/// The value of a hexadecimal digit, or -1 for any other character.
pub open spec fn hex_val(c: char) -> int {
    if '0' <= c && c <= '9' {
        (c as u32) - ('0' as u32)
    } else if 'a' <= c && c <= 'f' {
        (c as u32) - ('a' as u32) + 10
    } else if 'A' <= c && c <= 'F' {
        (c as u32) - ('A' as u32) + 10
    } else {
        -1
    }
}

pub open spec fn is_hex(c: char) -> bool {
    hex_val(c) >= 0
}

/// Whether a code point is a Unicode scalar value (no surrogates).
pub open spec fn valid_scalar(code: int) -> bool {
    (0 <= code < 0xD800) || (0xE000 <= code <= 0x10FFFF)
}

/// The character with the given code point.
pub open spec fn code_char(code: int) -> char {
    (code as u32) as char
}

/// The code point a `\uXXXX` escape with these four digits denotes.
pub open spec fn hex4_code(h1: char, h2: char, h3: char, h4: char) -> int {
    hex_val(h1) * 0x1000 + hex_val(h2) * 0x100 + hex_val(h3) * 0x10 + hex_val(h4)
}

/// The character an escape mark denotes, if any.
pub open spec fn unesc(c: char) -> Option<char> {
    if c == '"' {
        Some('"')
    } else if c == '\\' {
        Some('\\')
    } else if c == '/' {
        Some('/')
    } else if c == 'n' {
        Some('\n')
    } else if c == 'r' {
        Some('\r')
    } else if c == 't' {
        Some('\t')
    } else if c == 'b' {
        Some('\u{8}')
    } else if c == 'f' {
        Some('\u{c}')
    } else {
        None
    }
}

/// The body of a string literal, after its opening quote: the denoted
/// characters and the input after the closing quote.
pub open spec fn p_str_body(s: Seq<char>) -> Option<(Seq<char>, Seq<char>)>
    decreases s.len(),
{
    if s.len() == 0 {
        None
    } else if s[0] == '"' {
        Some((Seq::empty(), s.drop_first()))
    } else if s[0] == '\\' {
        if s.len() < 2 {
            None
        } else if s[1] == 'u' {
            if s.len() < 6 || !is_hex(s[2]) || !is_hex(s[3]) || !is_hex(s[4]) || !is_hex(s[5]) {
                None
            } else {
                let code = hex4_code(s[2], s[3], s[4], s[5]);
                if !valid_scalar(code) {
                    None
                } else {
                    match p_str_body(s.skip(6)) {
                        Some(tr) => Some((seq![code_char(code)] + tr.0, tr.1)),
                        None => None,
                    }
                }
            }
        } else {
            match unesc(s[1]) {
                Some(c) => match p_str_body(s.skip(2)) {
                    Some(tr) => Some((seq![c] + tr.0, tr.1)),
                    None => None,
                },
                None => None,
            }
        }
    } else if (s[0] as u32) < 32 {
        None
    } else {
        match p_str_body(s.drop_first()) {
            Some(tr) => Some((seq![s[0]] + tr.0, tr.1)),
            None => None,
        }
    }
}

pub open spec fn p_string(s: Seq<char>) -> Option<(Seq<char>, Seq<char>)> {
    if s.len() > 0 && s[0] == '"' {
        p_str_body(s.drop_first())
    } else {
        None
    }
}

/// Characters a number token can be built from.
pub open spec fn num_char(c: char) -> bool {
    is_digit(c) || c == '-' || c == '+' || c == '.' || c == 'e' || c == 'E'
}

pub open spec fn num_scan_len(s: Seq<char>) -> int
    decreases s.len(),
{
    if s.len() > 0 && num_char(s[0]) {
        1 + num_scan_len(s.drop_first())
    } else {
        0
    }
}

/// A maximal run of number characters, kept as a token, provided the
/// run follows the number grammar.
pub open spec fn p_number(s: Seq<char>) -> Option<(Seq<char>, Seq<char>)> {
    let n = num_scan_len(s);
    if n > 0 && is_number_token(s.take(n)) {
        Some((s.take(n), s.skip(n)))
    } else {
        None
    }
}

pub open spec fn p_ident(s: Seq<char>) -> Option<(IdentV, Seq<char>)> {
    match p_lit(ws(s), seq!['{']) {
        Some(s1) => match p_key(s1, lit_label()) {
            Some(s2) => match p_string(ws(s2)) {
                Some(lab_s3) => match p_lit(ws(lab_s3.1), seq![',']) {
                    Some(s4) => match p_key(s4, lit_prob()) {
                        Some(s5) => match p_number(ws(s5)) {
                            Some(tok_s6) => match p_lit(ws(tok_s6.1), seq!['}']) {
                                Some(s7) => Some(
                                    (IdentV { label: lab_s3.0, prob: tok_s6.0 }, s7),
                                ),
                                None => None,
                            },
                            None => None,
                        },
                        None => None,
                    },
                    None => None,
                },
                None => None,
            },
            None => None,
        },
        None => None,
    }
}

pub open spec fn p_opt_ident(s: Seq<char>) -> Option<(Option<IdentV>, Seq<char>)> {
    match p_lit(ws(s), lit_null()) {
        Some(r) => Some((None, r)),
        None => match p_ident(s) {
            Some(id_r) => Some((Some(id_r.0), id_r.1)),
            None => None,
        },
    }
}

/// Elements of an identification list after the first, `fuel` bounding
/// how many are left.
pub open spec fn p_idents_rest(s: Seq<char>, fuel: nat) -> Option<(Seq<Option<IdentV>>, Seq<char>)>
    decreases fuel,
{
    match p_lit(ws(s), seq![']']) {
        Some(r) => Some((Seq::empty(), r)),
        None => if fuel == 0 {
            None
        } else {
            match p_lit(ws(s), seq![',']) {
                Some(s1) => match p_opt_ident(s1) {
                    Some(id_s2) => match p_idents_rest(id_s2.1, (fuel - 1) as nat) {
                        Some(ids_r) => Some((seq![id_s2.0] + ids_r.0, ids_r.1)),
                        None => None,
                    },
                    None => None,
                },
                None => None,
            }
        },
    }
}

pub open spec fn p_ident_list(s: Seq<char>, fuel: nat) -> Option<(Seq<Option<IdentV>>, Seq<char>)> {
    match p_lit(ws(s), seq!['[']) {
        Some(s1) => match p_lit(ws(s1), seq![']']) {
            Some(r) => Some((Seq::empty(), r)),
            None => match p_opt_ident(s1) {
                Some(id_s2) => match p_idents_rest(id_s2.1, fuel) {
                    Some(ids_r) => Some((seq![id_s2.0] + ids_r.0, ids_r.1)),
                    None => None,
                },
                None => None,
            },
        },
        None => None,
    }
}

pub open spec fn p_strs_rest(s: Seq<char>, fuel: nat) -> Option<(Seq<Seq<char>>, Seq<char>)>
    decreases fuel,
{
    match p_lit(ws(s), seq![']']) {
        Some(r) => Some((Seq::empty(), r)),
        None => if fuel == 0 {
            None
        } else {
            match p_lit(ws(s), seq![',']) {
                Some(s1) => match p_string(ws(s1)) {
                    Some(t_s2) => match p_strs_rest(t_s2.1, (fuel - 1) as nat) {
                        Some(ts_r) => Some((seq![t_s2.0] + ts_r.0, ts_r.1)),
                        None => None,
                    },
                    None => None,
                },
                None => None,
            }
        },
    }
}

pub open spec fn p_str_list(s: Seq<char>, fuel: nat) -> Option<(Seq<Seq<char>>, Seq<char>)> {
    match p_lit(ws(s), seq!['[']) {
        Some(s1) => match p_lit(ws(s1), seq![']']) {
            Some(r) => Some((Seq::empty(), r)),
            None => match p_string(ws(s1)) {
                Some(t_s2) => match p_strs_rest(t_s2.1, fuel) {
                    Some(ts_r) => Some((seq![t_s2.0] + ts_r.0, ts_r.1)),
                    None => None,
                },
                None => None,
            },
        },
        None => None,
    }
}

pub open spec fn p_annotation(s: Seq<char>, fuel: nat) -> Option<
    (Option<Seq<Seq<char>>>, Seq<char>),
> {
    match p_lit(ws(s), lit_null()) {
        Some(r) => Some((None, r)),
        None => match p_str_list(s, fuel) {
            Some(ts_r) => Some((Some(ts_r.0), ts_r.1)),
            None => None,
        },
    }
}

pub open spec fn p_pairs_rest(s: Seq<char>, fuel: nat) -> Option<
    (Seq<(Seq<char>, Seq<char>)>, Seq<char>),
>
    decreases fuel,
{
    match p_lit(ws(s), seq!['}']) {
        Some(r) => Some((Seq::empty(), r)),
        None => if fuel == 0 {
            None
        } else {
            match p_lit(ws(s), seq![',']) {
                Some(s1) => match p_string(ws(s1)) {
                    Some(k_s2) => match p_lit(ws(k_s2.1), seq![':']) {
                        Some(s3) => match p_string(ws(s3)) {
                            Some(v_s4) => match p_pairs_rest(v_s4.1, (fuel - 1) as nat) {
                                Some(ps_r) => Some(
                                    (seq![(k_s2.0, v_s4.0)] + ps_r.0, ps_r.1),
                                ),
                                None => None,
                            },
                            None => None,
                        },
                        None => None,
                    },
                    None => None,
                },
                None => None,
            }
        },
    }
}

pub open spec fn p_headers(s: Seq<char>, fuel: nat) -> Option<
    (Seq<(Seq<char>, Seq<char>)>, Seq<char>),
> {
    match p_lit(ws(s), seq!['{']) {
        Some(s1) => match p_lit(ws(s1), seq!['}']) {
            Some(r) => Some((Seq::empty(), r)),
            None => match p_string(ws(s1)) {
                Some(k_s2) => match p_lit(ws(k_s2.1), seq![':']) {
                    Some(s3) => match p_string(ws(s3)) {
                        Some(v_s4) => match p_pairs_rest(v_s4.1, fuel) {
                            Some(ps_r) => Some((seq![(k_s2.0, v_s4.0)] + ps_r.0, ps_r.1)),
                            None => None,
                        },
                        None => None,
                    },
                    None => None,
                },
                None => None,
            },
        },
        None => None,
    }
}

pub open spec fn p_metadata(s: Seq<char>, fuel: nat) -> Option<(MetadataV, Seq<char>)> {
    match p_lit(ws(s), seq!['{']) {
        Some(s1) => match p_key(s1, lit_identification()) {
            Some(s2) => match p_ident(s2) {
                Some(id_s3) => match p_lit(ws(id_s3.1), seq![',']) {
                    Some(s4) => match p_key(s4, lit_annotation()) {
                        Some(s5) => match p_annotation(s5, fuel) {
                            Some(a_s6) => match p_lit(ws(a_s6.1), seq![',']) {
                                Some(s7) => match p_key(s7, lit_sentence_identifications()) {
                                    Some(s8) => match p_ident_list(s8, fuel) {
                                        Some(ids_s9) => match p_lit(ws(ids_s9.1), seq!['}']) {
                                            Some(s10) => Some(
                                                (
                                                    MetadataV {
                                                        identification: id_s3.0,
                                                        annotation: a_s6.0,
                                                        sentence_identifications: ids_s9.0,
                                                    },
                                                    s10,
                                                ),
                                            ),
                                            None => None,
                                        },
                                        None => None,
                                    },
                                    None => None,
                                },
                                None => None,
                            },
                            None => None,
                        },
                        None => None,
                    },
                    None => None,
                },
                None => None,
            },
            None => None,
        },
        None => None,
    }
}

/// What one whole line of input denotes: a document, or nothing if the
/// line is not a valid record. Anything but blanks after the closing
/// brace makes the line invalid.
pub open spec fn p_doc(line: Seq<char>) -> Option<DocumentV> {
    let fuel = line.len();
    match p_lit(ws(line), seq!['{']) {
        Some(s1) => match p_key(s1, lit_content()) {
            Some(s2) => match p_string(ws(s2)) {
                Some(c_s3) => match p_lit(ws(c_s3.1), seq![',']) {
                    Some(s4) => match p_key(s4, lit_warc_headers()) {
                        Some(s5) => match p_headers(s5, fuel) {
                            Some(h_s6) => match p_lit(ws(h_s6.1), seq![',']) {
                                Some(s7) => match p_key(s7, lit_metadata()) {
                                    Some(s8) => match p_metadata(s8, fuel) {
                                        Some(m_s9) => match p_lit(ws(m_s9.1), seq!['}']) {
                                            Some(s10) => if ws(s10).len() == 0 {
                                                Some(
                                                    DocumentV {
                                                        content: c_s3.0,
                                                        warc_headers: h_s6.0,
                                                        metadata: m_s9.0,
                                                    },
                                                )
                                            } else {
                                                None
                                            },
                                            None => None,
                                        },
                                        None => None,
                                    },
                                    None => None,
                                },
                                None => None,
                            },
                            None => None,
                        },
                        None => None,
                    },
                    None => None,
                },
                None => None,
            },
            None => None,
        },
        None => None,
    }
}

// ---------------------------------------------------------------------
// Executable parsing.
// ---------------------------------------------------------------------
/// Collect a string's characters, in order.
pub(crate) fn string_chars(s: &str) -> (r: Vec<char>)
    ensures
        r@ == s@,
{
    broadcast use vstd::string::axiom_spec_iter;
    broadcast use vstd::string::next_postcondition;

    let mut it = s.chars();
    let mut r: Vec<char> = Vec::new();
    proof {
        assert(r@ + it.remaining() =~= s@);
    }
    loop
        invariant_except_break
            r@ + it.remaining() == s@,
        invariant
            it.decrease() is Some,
        ensures
            r@ == s@,
        decreases it.decrease()->0,
    {
        let ghost pre = r@;
        let ghost rem0 = it.remaining();
        match it.next() {
            Some(c) => {
                r.push(c);
                proof {
                    assert(pre.push(c) + rem0.drop_first() =~= pre + rem0);
                }
            }
            None => {
                proof {
                    assert(pre + rem0 =~= pre);
                }
                break ;
            }
        }
    }
    r
}

/// Relies on `String::push`: appends the character to the string.
#[verifier::external_body]
pub(crate) fn chars_to_string(v: &Vec<char>) -> (r: String)
    ensures
        r@ == v@,
{
    let mut r = String::new();
    for c in v.iter() {
        r.push(*c);
    }
    r
}

fn e_is_hex(c: char) -> (r: bool)
    ensures
        r == is_hex(c),
{
    ('0' <= c && c <= '9') || ('a' <= c && c <= 'f') || ('A' <= c && c <= 'F')
}

fn e_hex_val(c: char) -> (r: u32)
    requires
        is_hex(c),
    ensures
        r as int == hex_val(c),
        r <= 15,
{
    if '0' <= c && c <= '9' {
        c as u32 - '0' as u32
    } else if 'a' <= c && c <= 'f' {
        c as u32 - 'a' as u32 + 10
    } else {
        c as u32 - 'A' as u32 + 10
    }
}

/// Relies on `char::from_u32`: yields the character with the given
/// code point, and nothing for surrogate values (codes above the last
/// code point cannot arise from four hex digits).
#[verifier::external_body]
fn char_from_code(code: u32) -> (r: Option<char>)
    ensures
        (match r {
            Some(c) => c as u32 == code && valid_scalar(code as int),
            None => !valid_scalar(code as int),
        }),
{
    char::from_u32(code)
}

fn e_unesc(c: char) -> (r: Option<char>)
    ensures
        r == unesc(c),
{
    if c == '"' {
        Some('"')
    } else if c == '\\' {
        Some('\\')
    } else if c == '/' {
        Some('/')
    } else if c == 'n' {
        Some('\n')
    } else if c == 'r' {
        Some('\r')
    } else if c == 't' {
        Some('\t')
    } else if c == 'b' {
        Some('\u{8}')
    } else if c == 'f' {
        Some('\u{c}')
    } else {
        None
    }
}

fn e_num_char(c: char) -> (r: bool)
    ensures
        r == num_char(c),
{
    ('0' <= c && c <= '9') || c == '-' || c == '+' || c == '.' || c == 'e' || c == 'E'
}

fn e_num_step(st: u32, c: char) -> (r: u32)
    ensures
        r as int == num_step(st as int, c),
{
    let dig: bool = '0' <= c && c <= '9';
    if st == 0 {
        if c == '-' { 1 } else if c == '0' { 2 } else if dig { 3 } else { 9 }
    } else if st == 1 {
        if c == '0' { 2 } else if dig { 3 } else { 9 }
    } else if st == 2 {
        if c == '.' { 4 } else if c == 'e' || c == 'E' { 6 } else { 9 }
    } else if st == 3 {
        if dig { 3 } else if c == '.' { 4 } else if c == 'e' || c == 'E' { 6 } else { 9 }
    } else if st == 4 {
        if dig { 5 } else { 9 }
    } else if st == 5 {
        if dig { 5 } else if c == 'e' || c == 'E' { 6 } else { 9 }
    } else if st == 6 {
        if c == '+' || c == '-' { 7 } else if dig { 8 } else { 9 }
    } else if st == 7 {
        if dig { 8 } else { 9 }
    } else if st == 8 {
        if dig { 8 } else { 9 }
    } else {
        9
    }
}

proof fn lemma_num_run_snoc(st: int, a: Seq<char>, c: char)
    ensures
        num_run(st, a.push(c)) == num_step(num_run(st, a), c),
    decreases a.len(),
{
    if a.len() == 0 {
        assert(a.push(c)[0] == c);
        assert(a.push(c).drop_first() =~= Seq::<char>::empty());
        assert(num_run(st, a.push(c)) == num_run(num_step(st, c), Seq::<char>::empty()));
        assert(num_run(st, a) == st);
    } else {
        assert(a.push(c)[0] == a[0]);
        assert(a.push(c).drop_first() =~= a.drop_first().push(c));
        lemma_num_run_snoc(num_step(st, a[0]), a.drop_first(), c);
        assert(num_run(st, a.push(c)) == num_run(num_step(st, a[0]), a.drop_first().push(c)));
        assert(num_run(st, a) == num_run(num_step(st, a[0]), a.drop_first()));
    }
}

fn e_ws(s: &Vec<char>, i: usize) -> (j: usize)
    requires
        i <= s@.len(),
    ensures
        i <= j <= s@.len(),
        ws(s@.skip(i as int)) == s@.skip(j as int),
{
    let mut j = i;
    while j < s.len() && (s[j] == ' ' || s[j] == '\t' || s[j] == '\r')
        invariant
            i <= j <= s@.len(),
            ws(s@.skip(i as int)) == ws(s@.skip(j as int)),
        decreases s@.len() - j,
    {
        proof {
            assert(s@.skip(j as int)[0] == s@[j as int]);
            assert(s@.skip(j as int).drop_first() =~= s@.skip(j as int + 1));
        }
        j += 1;
    }
    proof {
        if j < s.len() {
            assert(s@.skip(j as int)[0] == s@[j as int]);
            lemma_ws_noop(s@.skip(j as int));
        } else {
            assert(s@.skip(j as int).len() == 0);
        }
    }
    j
}

fn e_lit(s: &Vec<char>, i: usize, lit: &Vec<char>) -> (r: Option<usize>)
    requires
        i <= s@.len(),
    ensures
        (match r {
            Some(j) => i <= j <= s@.len() && j == i + lit@.len() && p_lit(s@.skip(i as int), lit@)
                == Some(s@.skip(j as int)),
            None => p_lit(s@.skip(i as int), lit@) == None::<Seq<char>>,
        }),
{
    if s.len() - i < lit.len() {
        proof {
            if lit@.is_prefix_of(s@.skip(i as int)) {
                assert(false);
            }
        }
        return None;
    }
    let mut k: usize = 0;
    while k < lit.len()
        invariant
            0 <= k <= lit@.len(),
            i + lit@.len() <= s@.len() <= usize::MAX,
            forall|t: int| 0 <= t < k ==> s@.skip(i as int)[t] == lit@[t],
        decreases lit@.len() - k,
    {
        if s[i + k] != lit[k] {
            proof {
                if lit@.is_prefix_of(s@.skip(i as int)) {
                    assert(s@.skip(i as int).subrange(0, lit@.len() as int)[k as int] == s@.skip(
                        i as int,
                    )[k as int]);
                    assert(false);
                }
            }
            return None;
        }
        proof {
            assert(s@.skip(i as int)[k as int] == s@[i + k]);
        }
        k += 1;
    }
    proof {
        assert(lit@ =~= s@.skip(i as int).subrange(0, lit@.len() as int));
        assert(s@.skip(i as int).skip(lit@.len() as int) =~= s@.skip(i as int + lit@.len()));
    }
    Some(i + lit.len())
}

fn e_string(s: &Vec<char>, i: usize) -> (r: Option<(String, usize)>)
    requires
        i <= s@.len(),
    ensures
        (match r {
            Some(tj) => i < tj.1 <= s@.len() && p_string(s@.skip(i as int)) == Some(
                (tj.0@, s@.skip(tj.1 as int)),
            ),
            None => p_string(s@.skip(i as int)) == None::<(Seq<char>, Seq<char>)>,
        }),
{
    if i == s.len() || s[i] != '"' {
        proof {
            if i < s.len() {
                assert(s@.skip(i as int)[0] == s@[i as int]);
            }
        }
        return None;
    }
    proof {
        assert(s@.skip(i as int)[0] == '"');
        assert(s@.skip(i as int).drop_first() =~= s@.skip(i as int + 1));
    }
    proof {
        assert(forall|t: Seq<char>| Seq::<char>::empty() + t =~= t);
    }
    let mut out: Vec<char> = Vec::new();
    let mut cur: usize = i + 1;
    while cur < s.len()
        invariant
            i + 1 <= cur <= s@.len() <= usize::MAX,
            i < s@.len(),
            s@.skip(i as int).len() > 0,
            s@.skip(i as int)[0] == '"',
            s@.skip(i as int).drop_first() == s@.skip(i as int + 1),
            (match p_str_body(s@.skip(cur as int)) {
                Some(tr) => p_str_body(s@.skip(i as int + 1)) == Some((out@ + tr.0, tr.1)),
                None => p_str_body(s@.skip(i as int + 1)) is None,
            }),
        decreases s@.len() - cur,
    {
        let c = s[cur];
        proof {
            assert(s@.skip(cur as int)[0] == c);
            assert(s@.skip(cur as int).drop_first() =~= s@.skip(cur as int + 1));
        }
        if c == '"' {
            proof {
                assert(p_str_body(s@.skip(cur as int)) == Some(
                    (Seq::<char>::empty(), s@.skip(cur as int + 1)),
                ));
                assert(out@ + Seq::<char>::empty() =~= out@);
            }
            return Some((chars_to_string(&out), cur + 1));
        } else if c == '\\' {
            if cur + 1 == s.len() {
                proof {
                    assert(s@.skip(cur as int).len() == 1);
                }
                return None;
            }
            let m = s[cur + 1];
            proof {
                assert(s@.skip(cur as int)[1] == m);
            }
            if m == 'u' {
                if s.len() - cur < 6 {
                    proof {
                        assert(s@.skip(cur as int).len() < 6);
                    }
                    return None;
                }
                let h1 = s[cur + 2];
                let h2 = s[cur + 3];
                let h3 = s[cur + 4];
                let h4 = s[cur + 5];
                proof {
                    assert(s@.skip(cur as int)[2] == h1);
                    assert(s@.skip(cur as int)[3] == h2);
                    assert(s@.skip(cur as int)[4] == h3);
                    assert(s@.skip(cur as int)[5] == h4);
                }
                if !(e_is_hex(h1) && e_is_hex(h2) && e_is_hex(h3) && e_is_hex(h4)) {
                    return None;
                }
                let code: u32 = e_hex_val(h1) * 0x1000 + e_hex_val(h2) * 0x100 + e_hex_val(h3)
                    * 0x10 + e_hex_val(h4);
                proof {
                    assert(code as int == hex4_code(h1, h2, h3, h4));
                }
                match char_from_code(code) {
                    Some(c2) => {
                        proof {
                            vstd::utf8::char_u32_cast(c2, code);
                            assert((code as int) as u32 == code);
                            assert(c2 == code_char(code as int));
                            assert(s@.skip(cur as int).skip(6) =~= s@.skip(cur as int + 6));
                        }
                        let ghost old_out = out@;
                        out.push(c2);
                        proof {
                            assert(forall|t: Seq<char>|
                                old_out + (seq![c2] + t) =~= (old_out.push(c2)) + t);
                        }
                        cur += 6;
                    }
                    None => {
                        return None;
                    }
                }
            } else {
                proof {
                    assert(s@.skip(cur as int).skip(2) =~= s@.skip(cur as int + 2));
                }
                match e_unesc(m) {
                    Some(c2) => {
                        let ghost old_out = out@;
                        out.push(c2);
                        proof {
                            assert(forall|t: Seq<char>|
                                old_out + (seq![c2] + t) =~= (old_out.push(c2)) + t);
                        }
                        cur += 2;
                    }
                    None => {
                        return None;
                    }
                }
            }
        } else if (c as u32) < 32 {
            return None;
        } else {
            let ghost old_out = out@;
            out.push(c);
            proof {
                assert(forall|t: Seq<char>| old_out + (seq![c] + t) =~= (old_out.push(c)) + t);
            }
            cur += 1;
        }
    }
    proof {
        assert(s@.skip(cur as int).len() == 0);
    }
    None
}

fn e_number(s: &Vec<char>, i: usize) -> (r: Option<(String, usize)>)
    requires
        i <= s@.len(),
    ensures
        (match r {
            Some(tj) => i < tj.1 <= s@.len() && p_number(s@.skip(i as int)) == Some(
                (tj.0@, s@.skip(tj.1 as int)),
            ),
            None => p_number(s@.skip(i as int)) == None::<(Seq<char>, Seq<char>)>,
        }),
{
    let mut j = i;
    while j < s.len() && e_num_char(s[j])
        invariant
            i <= j <= s@.len(),
            num_scan_len(s@.skip(i as int)) == (j - i) + num_scan_len(s@.skip(j as int)),
        decreases s@.len() - j,
    {
        proof {
            assert(s@.skip(j as int)[0] == s@[j as int]);
            assert(s@.skip(j as int).drop_first() =~= s@.skip(j as int + 1));
        }
        j += 1;
    }
    proof {
        if j < s.len() {
            assert(s@.skip(j as int)[0] == s@[j as int]);
        }
        assert(num_scan_len(s@.skip(j as int)) == 0);
        assert(num_scan_len(s@.skip(i as int)) == j - i);
    }
    if j == i {
        return None;
    }
    let ghost tok = s@.skip(i as int).take((j - i) as int);
    proof {
        assert(tok =~= s@.subrange(i as int, j as int));
    }
    let mut st: u32 = 0;
    let mut k: usize = i;
    while k < j
        invariant
            i <= k <= j <= s@.len(),
            st as int == num_run(0, s@.subrange(i as int, k as int)),
        decreases j - k,
    {
        let c = s[k];
        proof {
            assert(s@.subrange(i as int, k as int + 1) =~= s@.subrange(i as int, k as int).push(
                c,
            ));
            lemma_num_run_snoc(0, s@.subrange(i as int, k as int), c);
        }
        st = e_num_step(st, c);
        k += 1;
    }
    if st == 2 || st == 3 || st == 5 || st == 8 {
        let mut tv: Vec<char> = Vec::new();
        let mut k2: usize = i;
        while k2 < j
            invariant
                i <= k2 <= j <= s@.len(),
                tv@ =~= s@.subrange(i as int, k2 as int),
            decreases j - k2,
        {
            tv.push(s[k2]);
            k2 += 1;
        }
        proof {
            assert(tv@ =~= tok);
            assert(s@.skip(i as int).skip((j - i) as int) =~= s@.skip(j as int));
        }
        Some((chars_to_string(&tv), j))
    } else {
        None
    }
}

fn e_key(s: &Vec<char>, i: usize, lit: &Vec<char>) -> (r: Option<usize>)
    requires
        i <= s@.len(),
    ensures
        (match r {
            Some(j) => j <= s@.len() && p_key(s@.skip(i as int), lit@) == Some(
                s@.skip(j as int),
            ),
            None => p_key(s@.skip(i as int), lit@) is None,
        }),
{
    let j0 = e_ws(s, i);
    match e_lit(s, j0, lit) {
        Some(j1) => {
            let j2 = e_ws(s, j1);
            let colon = string_chars(":");
            proof {
                reveal_strlit(":");
                assert(colon@ =~= seq![':']);
            }
            e_lit(s, j2, &colon)
        }
        None => None,
    }
}

fn e_ident(s: &Vec<char>, i: usize) -> (r: Option<(Identification, usize)>)
    requires
        i <= s@.len(),
    ensures
        (match r {
            Some(idj) => idj.1 <= s@.len() && p_ident(s@.skip(i as int)) == Some(
                (idj.0@, s@.skip(idj.1 as int)),
            ),
            None => p_ident(s@.skip(i as int)) is None,
        }),
{
    let lbrace = string_chars("{");
    let comma = string_chars(",");
    let rbrace = string_chars("}");
    let lab_key = string_chars("\"label\"");
    let prob_key = string_chars("\"prob\"");
    proof {
        reveal_strlit("{");
        reveal_strlit(",");
        reveal_strlit("}");
        reveal_strlit("\"label\"");
        reveal_strlit("\"prob\"");
        assert(lbrace@ =~= seq!['{']);
        assert(comma@ =~= seq![',']);
        assert(rbrace@ =~= seq!['}']);
        assert(lab_key@ =~= lit_label());
        assert(prob_key@ =~= lit_prob());
    }
    let j0 = e_ws(s, i);
    let j1 = match e_lit(s, j0, &lbrace) {
        Some(j) => j,
        None => {
            return None;
        }
    };
    let j2 = match e_key(s, j1, &lab_key) {
        Some(j) => j,
        None => {
            return None;
        }
    };
    let j3 = e_ws(s, j2);
    let (lab, j4) = match e_string(s, j3) {
        Some(x) => x,
        None => {
            return None;
        }
    };
    let j5 = e_ws(s, j4);
    let j6 = match e_lit(s, j5, &comma) {
        Some(j) => j,
        None => {
            return None;
        }
    };
    let j7 = match e_key(s, j6, &prob_key) {
        Some(j) => j,
        None => {
            return None;
        }
    };
    let j8 = e_ws(s, j7);
    let (tok, j9) = match e_number(s, j8) {
        Some(x) => x,
        None => {
            return None;
        }
    };
    let j10 = e_ws(s, j9);
    let j11 = match e_lit(s, j10, &rbrace) {
        Some(j) => j,
        None => {
            return None;
        }
    };
    Some((Identification::new(lab, tok), j11))
}

fn e_opt_ident(s: &Vec<char>, i: usize) -> (r: Option<(Option<Identification>, usize)>)
    requires
        i <= s@.len(),
    ensures
        (match r {
            Some(oj) => oj.1 <= s@.len() && p_opt_ident(s@.skip(i as int)) == Some(
                (
                    match oj.0 {
                        Some(id) => Some(id@),
                        None => None,
                    },
                    s@.skip(oj.1 as int),
                ),
            ),
            None => p_opt_ident(s@.skip(i as int)) is None,
        }),
{
    let nul = string_chars("null");
    proof {
        reveal_strlit("null");
        assert(nul@ =~= lit_null());
    }
    let j0 = e_ws(s, i);
    match e_lit(s, j0, &nul) {
        Some(j) => {
            return Some((None, j));
        }
        None => {}
    }
    match e_ident(s, i) {
        Some((id, j)) => Some((Some(id), j)),
        None => None,
    }
}

fn e_idents_rest(s: &Vec<char>, i: usize, fuel: usize) -> (r: Option<
    (Vec<Option<Identification>>, usize),
>)
    requires
        i <= s@.len(),
    ensures
        (match r {
            Some(vj) => vj.1 <= s@.len() && p_idents_rest(s@.skip(i as int), fuel as nat)
                == Some((opt_idents_view(vj.0@), s@.skip(vj.1 as int))),
            None => p_idents_rest(s@.skip(i as int), fuel as nat) is None,
        }),
    decreases fuel,
{
    let rbrack = string_chars("]");
    let comma = string_chars(",");
    proof {
        reveal_strlit("]");
        reveal_strlit(",");
        assert(rbrack@ =~= seq![']']);
        assert(comma@ =~= seq![',']);
    }
    let j0 = e_ws(s, i);
    match e_lit(s, j0, &rbrack) {
        Some(j) => {
            let out: Vec<Option<Identification>> = Vec::new();
            proof {
                assert(opt_idents_view(out@) =~= Seq::<Option<IdentV>>::empty());
            }
            return Some((out, j));
        }
        None => {}
    }
    if fuel == 0 {
        return None;
    }
    let j1 = match e_lit(s, j0, &comma) {
        Some(j) => j,
        None => {
            return None;
        }
    };
    let (oid, j2) = match e_opt_ident(s, j1) {
        Some(x) => x,
        None => {
            return None;
        }
    };
    match e_idents_rest(s, j2, fuel - 1) {
        Some((mut ids, j3)) => {
            let ghost tailv = opt_idents_view(ids@);
            let ghost oidv: Option<IdentV> = (match oid {
                Some(ref id) => Some(id@),
                None => None,
            });
            ids.insert(0, oid);
            proof {
                assert(opt_idents_view(ids@) =~= seq![oidv] + tailv);
            }
            Some((ids, j3))
        }
        None => None,
    }
}

fn e_ident_list(s: &Vec<char>, i: usize, fuel: usize) -> (r: Option<
    (Vec<Option<Identification>>, usize),
>)
    requires
        i <= s@.len(),
    ensures
        (match r {
            Some(vj) => vj.1 <= s@.len() && p_ident_list(s@.skip(i as int), fuel as nat)
                == Some((opt_idents_view(vj.0@), s@.skip(vj.1 as int))),
            None => p_ident_list(s@.skip(i as int), fuel as nat) is None,
        }),
{
    let lbrack = string_chars("[");
    let rbrack = string_chars("]");
    proof {
        reveal_strlit("[");
        reveal_strlit("]");
        assert(lbrack@ =~= seq!['[']);
        assert(rbrack@ =~= seq![']']);
    }
    let j0 = e_ws(s, i);
    let j1 = match e_lit(s, j0, &lbrack) {
        Some(j) => j,
        None => {
            return None;
        }
    };
    let j2 = e_ws(s, j1);
    match e_lit(s, j2, &rbrack) {
        Some(j) => {
            let out: Vec<Option<Identification>> = Vec::new();
            proof {
                assert(opt_idents_view(out@) =~= Seq::<Option<IdentV>>::empty());
            }
            return Some((out, j));
        }
        None => {}
    }
    let (oid, j3) = match e_opt_ident(s, j1) {
        Some(x) => x,
        None => {
            return None;
        }
    };
    match e_idents_rest(s, j3, fuel) {
        Some((mut ids, j4)) => {
            let ghost tailv = opt_idents_view(ids@);
            let ghost oidv: Option<IdentV> = (match oid {
                Some(ref id) => Some(id@),
                None => None,
            });
            ids.insert(0, oid);
            proof {
                assert(opt_idents_view(ids@) =~= seq![oidv] + tailv);
            }
            Some((ids, j4))
        }
        None => None,
    }
}

fn e_strs_rest(s: &Vec<char>, i: usize, fuel: usize) -> (r: Option<(Vec<String>, usize)>)
    requires
        i <= s@.len(),
    ensures
        (match r {
            Some(vj) => vj.1 <= s@.len() && p_strs_rest(s@.skip(i as int), fuel as nat) == Some(
                (strs_view(vj.0@), s@.skip(vj.1 as int)),
            ),
            None => p_strs_rest(s@.skip(i as int), fuel as nat) is None,
        }),
    decreases fuel,
{
    let rbrack = string_chars("]");
    let comma = string_chars(",");
    proof {
        reveal_strlit("]");
        reveal_strlit(",");
        assert(rbrack@ =~= seq![']']);
        assert(comma@ =~= seq![',']);
    }
    let j0 = e_ws(s, i);
    match e_lit(s, j0, &rbrack) {
        Some(j) => {
            let out: Vec<String> = Vec::new();
            proof {
                assert(strs_view(out@) =~= Seq::<Seq<char>>::empty());
            }
            return Some((out, j));
        }
        None => {}
    }
    if fuel == 0 {
        return None;
    }
    let j1 = match e_lit(s, j0, &comma) {
        Some(j) => j,
        None => {
            return None;
        }
    };
    let j2 = e_ws(s, j1);
    let (t, j3) = match e_string(s, j2) {
        Some(x) => x,
        None => {
            return None;
        }
    };
    match e_strs_rest(s, j3, fuel - 1) {
        Some((mut ts, j4)) => {
            let ghost tailv = strs_view(ts@);
            let ghost tv = t@;
            ts.insert(0, t);
            proof {
                assert(strs_view(ts@) =~= seq![tv] + tailv);
            }
            Some((ts, j4))
        }
        None => None,
    }
}

fn e_str_list(s: &Vec<char>, i: usize, fuel: usize) -> (r: Option<(Vec<String>, usize)>)
    requires
        i <= s@.len(),
    ensures
        (match r {
            Some(vj) => vj.1 <= s@.len() && p_str_list(s@.skip(i as int), fuel as nat) == Some(
                (strs_view(vj.0@), s@.skip(vj.1 as int)),
            ),
            None => p_str_list(s@.skip(i as int), fuel as nat) is None,
        }),
{
    let lbrack = string_chars("[");
    let rbrack = string_chars("]");
    proof {
        reveal_strlit("[");
        reveal_strlit("]");
        assert(lbrack@ =~= seq!['[']);
        assert(rbrack@ =~= seq![']']);
    }
    let j0 = e_ws(s, i);
    let j1 = match e_lit(s, j0, &lbrack) {
        Some(j) => j,
        None => {
            return None;
        }
    };
    let j2 = e_ws(s, j1);
    match e_lit(s, j2, &rbrack) {
        Some(j) => {
            let out: Vec<String> = Vec::new();
            proof {
                assert(strs_view(out@) =~= Seq::<Seq<char>>::empty());
            }
            return Some((out, j));
        }
        None => {}
    }
    let (t, j3) = match e_string(s, j2) {
        Some(x) => x,
        None => {
            return None;
        }
    };
    match e_strs_rest(s, j3, fuel) {
        Some((mut ts, j4)) => {
            let ghost tailv = strs_view(ts@);
            let ghost tv = t@;
            ts.insert(0, t);
            proof {
                assert(strs_view(ts@) =~= seq![tv] + tailv);
            }
            Some((ts, j4))
        }
        None => None,
    }
}

fn e_annotation(s: &Vec<char>, i: usize, fuel: usize) -> (r: Option<(Option<Vec<String>>, usize)>)
    requires
        i <= s@.len(),
    ensures
        (match r {
            Some(aj) => aj.1 <= s@.len() && p_annotation(s@.skip(i as int), fuel as nat) == Some(
                (
                    match aj.0 {
                        Some(ref tags) => Some(strs_view(tags@)),
                        None => None,
                    },
                    s@.skip(aj.1 as int),
                ),
            ),
            None => p_annotation(s@.skip(i as int), fuel as nat) is None,
        }),
{
    let nul = string_chars("null");
    proof {
        reveal_strlit("null");
        assert(nul@ =~= lit_null());
    }
    let j0 = e_ws(s, i);
    match e_lit(s, j0, &nul) {
        Some(j) => {
            return Some((None, j));
        }
        None => {}
    }
    match e_str_list(s, i, fuel) {
        Some((ts, j)) => Some((Some(ts), j)),
        None => None,
    }
}

fn e_pairs_rest(s: &Vec<char>, i: usize, fuel: usize) -> (r: Option<
    (Vec<(String, String)>, usize),
>)
    requires
        i <= s@.len(),
    ensures
        (match r {
            Some(vj) => vj.1 <= s@.len() && p_pairs_rest(s@.skip(i as int), fuel as nat) == Some(
                (pairs_view(vj.0@), s@.skip(vj.1 as int)),
            ),
            None => p_pairs_rest(s@.skip(i as int), fuel as nat) is None,
        }),
    decreases fuel,
{
    let rbrace = string_chars("}");
    let comma = string_chars(",");
    let colon = string_chars(":");
    proof {
        reveal_strlit("}");
        reveal_strlit(",");
        reveal_strlit(":");
        assert(rbrace@ =~= seq!['}']);
        assert(comma@ =~= seq![',']);
        assert(colon@ =~= seq![':']);
    }
    let j0 = e_ws(s, i);
    match e_lit(s, j0, &rbrace) {
        Some(j) => {
            let out: Vec<(String, String)> = Vec::new();
            proof {
                assert(pairs_view(out@) =~= Seq::<(Seq<char>, Seq<char>)>::empty());
            }
            return Some((out, j));
        }
        None => {}
    }
    if fuel == 0 {
        return None;
    }
    let j1 = match e_lit(s, j0, &comma) {
        Some(j) => j,
        None => {
            return None;
        }
    };
    let j2 = e_ws(s, j1);
    let (k, j3) = match e_string(s, j2) {
        Some(x) => x,
        None => {
            return None;
        }
    };
    let j4 = e_ws(s, j3);
    let j5 = match e_lit(s, j4, &colon) {
        Some(j) => j,
        None => {
            return None;
        }
    };
    let j6 = e_ws(s, j5);
    let (v, j7) = match e_string(s, j6) {
        Some(x) => x,
        None => {
            return None;
        }
    };
    match e_pairs_rest(s, j7, fuel - 1) {
        Some((mut ps, j8)) => {
            let ghost tailv = pairs_view(ps@);
            let ghost kv = (k@, v@);
            ps.insert(0, (k, v));
            proof {
                assert(pairs_view(ps@) =~= seq![kv] + tailv);
            }
            Some((ps, j8))
        }
        None => None,
    }
}

fn e_headers(s: &Vec<char>, i: usize, fuel: usize) -> (r: Option<(Vec<(String, String)>, usize)>)
    requires
        i <= s@.len(),
    ensures
        (match r {
            Some(vj) => vj.1 <= s@.len() && p_headers(s@.skip(i as int), fuel as nat) == Some(
                (pairs_view(vj.0@), s@.skip(vj.1 as int)),
            ),
            None => p_headers(s@.skip(i as int), fuel as nat) is None,
        }),
{
    let lbrace = string_chars("{");
    let rbrace = string_chars("}");
    let colon = string_chars(":");
    proof {
        reveal_strlit("{");
        reveal_strlit("}");
        reveal_strlit(":");
        assert(lbrace@ =~= seq!['{']);
        assert(rbrace@ =~= seq!['}']);
        assert(colon@ =~= seq![':']);
    }
    let j0 = e_ws(s, i);
    let j1 = match e_lit(s, j0, &lbrace) {
        Some(j) => j,
        None => {
            return None;
        }
    };
    let j2 = e_ws(s, j1);
    match e_lit(s, j2, &rbrace) {
        Some(j) => {
            let out: Vec<(String, String)> = Vec::new();
            proof {
                assert(pairs_view(out@) =~= Seq::<(Seq<char>, Seq<char>)>::empty());
            }
            return Some((out, j));
        }
        None => {}
    }
    let (k, j3) = match e_string(s, j2) {
        Some(x) => x,
        None => {
            return None;
        }
    };
    let j4 = e_ws(s, j3);
    let j5 = match e_lit(s, j4, &colon) {
        Some(j) => j,
        None => {
            return None;
        }
    };
    let j6 = e_ws(s, j5);
    let (v, j7) = match e_string(s, j6) {
        Some(x) => x,
        None => {
            return None;
        }
    };
    match e_pairs_rest(s, j7, fuel) {
        Some((mut ps, j8)) => {
            let ghost tailv = pairs_view(ps@);
            let ghost kv = (k@, v@);
            ps.insert(0, (k, v));
            proof {
                assert(pairs_view(ps@) =~= seq![kv] + tailv);
            }
            Some((ps, j8))
        }
        None => None,
    }
}

fn e_metadata(s: &Vec<char>, i: usize, fuel: usize) -> (r: Option<(Metadata, usize)>)
    requires
        i <= s@.len(),
    ensures
        (match r {
            Some(mj) => mj.1 <= s@.len() && p_metadata(s@.skip(i as int), fuel as nat) == Some(
                (mj.0@, s@.skip(mj.1 as int)),
            ),
            None => p_metadata(s@.skip(i as int), fuel as nat) is None,
        }),
{
    let lbrace = string_chars("{");
    let rbrace = string_chars("}");
    let comma = string_chars(",");
    let id_key = string_chars("\"identification\"");
    let ann_key = string_chars("\"annotation\"");
    let sid_key = string_chars("\"sentence_identifications\"");
    proof {
        reveal_strlit("{");
        reveal_strlit("}");
        reveal_strlit(",");
        reveal_strlit("\"identification\"");
        reveal_strlit("\"annotation\"");
        reveal_strlit("\"sentence_identifications\"");
        assert(lbrace@ =~= seq!['{']);
        assert(rbrace@ =~= seq!['}']);
        assert(comma@ =~= seq![',']);
        assert(id_key@ =~= lit_identification());
        assert(ann_key@ =~= lit_annotation());
        assert(sid_key@ =~= lit_sentence_identifications());
    }
    let j0 = e_ws(s, i);
    let j1 = match e_lit(s, j0, &lbrace) {
        Some(j) => j,
        None => {
            return None;
        }
    };
    let j2 = match e_key(s, j1, &id_key) {
        Some(j) => j,
        None => {
            return None;
        }
    };
    let (ident, j3) = match e_ident(s, j2) {
        Some(x) => x,
        None => {
            return None;
        }
    };
    let j4 = e_ws(s, j3);
    let j5 = match e_lit(s, j4, &comma) {
        Some(j) => j,
        None => {
            return None;
        }
    };
    let j6 = match e_key(s, j5, &ann_key) {
        Some(j) => j,
        None => {
            return None;
        }
    };
    let (ann, j7) = match e_annotation(s, j6, fuel) {
        Some(x) => x,
        None => {
            return None;
        }
    };
    let j8 = e_ws(s, j7);
    let j9 = match e_lit(s, j8, &comma) {
        Some(j) => j,
        None => {
            return None;
        }
    };
    let j10 = match e_key(s, j9, &sid_key) {
        Some(j) => j,
        None => {
            return None;
        }
    };
    let (sids, j11) = match e_ident_list(s, j10, fuel) {
        Some(x) => x,
        None => {
            return None;
        }
    };
    let j12 = e_ws(s, j11);
    let j13 = match e_lit(s, j12, &rbrace) {
        Some(j) => j,
        None => {
            return None;
        }
    };
    let m = Metadata::new(ident, ann, sids);
    proof {
        assert(m@ =~= (match p_metadata(s@.skip(i as int), fuel as nat) {
            Some(mr) => mr.0,
            None => m@,
        }));
    }
    Some((m, j13))
}

/// Parse one line as a document. Returns the document the line denotes,
/// or a malformed-record error exactly when the line denotes none.
pub fn parse_document(line: &str) -> (r: Result<Document, Error>)
    ensures
        (match p_doc(line@) {
            Some(dv) => r matches Ok(d) && d@ == dv,
            None => r matches Err(e) && e is MalformedRecord,
        }),
{
    let s = string_chars(line);
    let fuel = s.len();
    let lbrace = string_chars("{");
    let rbrace = string_chars("}");
    let comma = string_chars(",");
    let content_key = string_chars("\"content\"");
    let warc_key = string_chars("\"warc_headers\"");
    let meta_key = string_chars("\"metadata\"");
    proof {
        reveal_strlit("{");
        reveal_strlit("}");
        reveal_strlit(",");
        reveal_strlit("\"content\"");
        reveal_strlit("\"warc_headers\"");
        reveal_strlit("\"metadata\"");
        assert(lbrace@ =~= seq!['{']);
        assert(rbrace@ =~= seq!['}']);
        assert(comma@ =~= seq![',']);
        assert(content_key@ =~= lit_content());
        assert(warc_key@ =~= lit_warc_headers());
        assert(meta_key@ =~= lit_metadata());
        assert(s@.skip(0) =~= line@);
    }
    let j0 = e_ws(&s, 0);
    let j1 = match e_lit(&s, j0, &lbrace) {
        Some(j) => j,
        None => {
            return Err(Error::MalformedRecord("not a record object".to_owned()));
        }
    };
    let j2 = match e_key(&s, j1, &content_key) {
        Some(j) => j,
        None => {
            return Err(Error::MalformedRecord("missing content".to_owned()));
        }
    };
    let j3 = e_ws(&s, j2);
    let (content, j4) = match e_string(&s, j3) {
        Some(x) => x,
        None => {
            return Err(Error::MalformedRecord("bad content string".to_owned()));
        }
    };
    let j5 = e_ws(&s, j4);
    let j6 = match e_lit(&s, j5, &comma) {
        Some(j) => j,
        None => {
            return Err(Error::MalformedRecord("missing separator".to_owned()));
        }
    };
    let j7 = match e_key(&s, j6, &warc_key) {
        Some(j) => j,
        None => {
            return Err(Error::MalformedRecord("missing warc_headers".to_owned()));
        }
    };
    let (headers, j8) = match e_headers(&s, j7, fuel) {
        Some(x) => x,
        None => {
            return Err(Error::MalformedRecord("bad warc_headers".to_owned()));
        }
    };
    let j9 = e_ws(&s, j8);
    let j10 = match e_lit(&s, j9, &comma) {
        Some(j) => j,
        None => {
            return Err(Error::MalformedRecord("missing separator".to_owned()));
        }
    };
    let j11 = match e_key(&s, j10, &meta_key) {
        Some(j) => j,
        None => {
            return Err(Error::MalformedRecord("missing metadata".to_owned()));
        }
    };
    let (meta, j12) = match e_metadata(&s, j11, fuel) {
        Some(x) => x,
        None => {
            return Err(Error::MalformedRecord("bad metadata".to_owned()));
        }
    };
    let j13 = e_ws(&s, j12);
    let j14 = match e_lit(&s, j13, &rbrace) {
        Some(j) => j,
        None => {
            return Err(Error::MalformedRecord("missing closing brace".to_owned()));
        }
    };
    let j15 = e_ws(&s, j14);
    if j15 != s.len() {
        return Err(Error::MalformedRecord("content after record".to_owned()));
    }
    let d = Document::new(content, headers, meta);
    proof {
        assert(s@.skip(j15 as int).len() == 0);
        assert(d@ =~= (match p_doc(line@) {
            Some(dv) => dv,
            None => d@,
        }));
    }
    Ok(d)
}

// ---------------------------------------------------------------------
// Executable serialization.
// ---------------------------------------------------------------------
proof fn lemma_escape_snoc(a: Seq<char>, c: char)
    ensures
        escape(a.push(c)) == escape(a) + esc_char(c),
    decreases a.len(),
{
    if a.len() == 0 {
        assert(a.push(c)[0] == c);
        assert(a.push(c).drop_first() =~= Seq::<char>::empty());
        assert(escape(a.push(c)) == esc_char(c) + escape(Seq::<char>::empty()));
        assert(esc_char(c) + Seq::<char>::empty() =~= esc_char(c));
        assert(escape(a) + esc_char(c) =~= esc_char(c));
    } else {
        assert(a.push(c)[0] == a[0]);
        assert(a.push(c).drop_first() =~= a.drop_first().push(c));
        lemma_escape_snoc(a.drop_first(), c);
        assert(escape(a.push(c)) == esc_char(a[0]) + (escape(a.drop_first()) + esc_char(c)));
        assert(esc_char(a[0]) + (escape(a.drop_first()) + esc_char(c)) =~= (esc_char(a[0])
            + escape(a.drop_first())) + esc_char(c));
    }
}

fn push_all(out: &mut Vec<char>, v: &Vec<char>)
    ensures
        final(out)@ == old(out)@ + v@,
{
    let mut k: usize = 0;
    while k < v.len()
        invariant
            k <= v@.len(),
            out@ == old(out)@ + v@.take(k as int),
        decreases v@.len() - k,
    {
        proof {
            assert(v@.take(k as int + 1) =~= v@.take(k as int).push(v@[k as int]));
            assert((old(out)@ + v@.take(k as int)).push(v@[k as int]) =~= old(out)@ + v@.take(
                k as int + 1,
            ));
        }
        out.push(v[k]);
        k += 1;
    }
    proof {
        assert(v@.take(v@.len() as int) =~= v@);
    }
}

fn push_text(out: &mut Vec<char>, text: &str)
    ensures
        final(out)@ == old(out)@ + text@,
{
    let v = string_chars(text);
    push_all(out, &v);
}

fn push_escaped(out: &mut Vec<char>, s: &Vec<char>)
    ensures
        final(out)@ == old(out)@ + escape(s@),
{
    let mut k: usize = 0;
    while k < s.len()
        invariant
            k <= s@.len(),
            out@ == old(out)@ + escape(s@.take(k as int)),
        decreases s@.len() - k,
    {
        let c = s[k];
        let ghost pre = out@;
        if c == '"' {
            out.push('\\');
            out.push('"');
        } else if c == '\\' {
            out.push('\\');
            out.push('\\');
        } else if c == '\n' {
            out.push('\\');
            out.push('n');
        } else if c == '\r' {
            out.push('\\');
            out.push('r');
        } else if c == '\t' {
            out.push('\\');
            out.push('t');
        } else if c == '\u{8}' {
            out.push('\\');
            out.push('b');
        } else if c == '\u{c}' {
            out.push('\\');
            out.push('f');
        } else {
            out.push(c);
        }
        proof {
            assert(out@ =~= pre + esc_char(c));
            lemma_escape_snoc(s@.take(k as int), c);
            assert(s@.take(k as int + 1) =~= s@.take(k as int).push(c));
            assert(pre + esc_char(c) =~= old(out)@ + escape(s@.take(k as int + 1)));
        }
        k += 1;
    }
    proof {
        assert(s@.take(s@.len() as int) =~= s@);
    }
}

fn push_quoted(out: &mut Vec<char>, s: &String)
    ensures
        final(out)@ == old(out)@ + ser_str(s@),
{
    let ghost pre = out@;
    out.push('"');
    let cs = string_chars(s.as_str());
    push_escaped(out, &cs);
    out.push('"');
    proof {
        assert(out@ =~= pre + ser_str(s@));
    }
}

fn push_ident(out: &mut Vec<char>, id: &Identification)
    ensures
        final(out)@ == old(out)@ + ser_ident(id@),
{
    let ghost pre = out@;
    proof {
        reveal_strlit("{\"label\":");
        reveal_strlit(",\"prob\":");
        reveal_strlit("}");
    }
    push_text(out, "{\"label\":");
    push_quoted(out, id.label());
    push_text(out, ",\"prob\":");
    let pv = string_chars(id.prob().as_str());
    push_all(out, &pv);
    push_text(out, "}");
    proof {
        assert("{\"label\":"@ =~= seq!['{'] + lit_label() + seq![':']);
        assert(",\"prob\":"@ =~= seq![','] + lit_prob() + seq![':']);
        assert("}"@ =~= seq!['}']);
        assert(out@ =~= pre + ser_ident(id@));
    }
}

fn push_opt_ident(out: &mut Vec<char>, oid: &Option<Identification>)
    ensures
        final(out)@ == old(out)@ + (match oid {
            Some(id) => ser_opt_ident(Some(id@)),
            None => ser_opt_ident(None),
        }),
{
    match oid {
        Some(id) => {
            push_ident(out, id);
        }
        None => {
            push_text(out, "null");
            proof {
                reveal_strlit("null");
                assert("null"@ =~= lit_null());
            }
        }
    }
}

#[verifier::rlimit(100)]
fn push_ident_list(out: &mut Vec<char>, ids: &Vec<Option<Identification>>)
    ensures
        final(out)@ == old(out)@ + ser_ident_list(opt_idents_view(ids@)),
{
    let ghost pre = out@;
    let ghost idv = opt_idents_view(ids@);
    out.push('[');
    if ids.len() == 0 {
        out.push(']');
        proof {
            assert(idv.len() == 0);
            assert(out@ =~= pre + ser_ident_list(idv));
        }
        return ;
    }
    push_opt_ident(out, &ids[0]);
    let mut k: usize = 1;
    proof {
        assert(ser_idents_rest(idv.skip(1)).len() >= 0);
        assert(idv.skip(idv.len() as int) =~= Seq::<Option<IdentV>>::empty());
        assert(out@ =~= pre + seq!['['] + ser_opt_ident(idv[0]));
    }
    while k < ids.len()
        invariant
            1 <= k <= ids@.len(),
            idv == opt_idents_view(ids@),
            idv.len() == ids@.len(),
            out@ + ser_idents_rest(idv.skip(k as int)) + seq![']'] == pre + ser_ident_list(idv),
        decreases ids@.len() - k,
    {
        let ghost step_pre = out@;
        out.push(',');
        push_opt_ident(out, &ids[k]);
        proof {
            assert(idv.skip(k as int)[0] == idv[k as int]);
            assert(idv.skip(k as int).drop_first() =~= idv.skip(k as int + 1));
            assert(ser_idents_rest(idv.skip(k as int)) == seq![','] + ser_opt_ident(
                idv[k as int],
            ) + ser_idents_rest(idv.skip(k as int + 1)));
            assert(out@ + ser_idents_rest(idv.skip(k as int + 1)) =~= step_pre
                + ser_idents_rest(idv.skip(k as int)));
            assert(out@ + ser_idents_rest(idv.skip(k as int + 1)) + seq![']'] =~= step_pre
                + ser_idents_rest(idv.skip(k as int)) + seq![']']);
        }
        k += 1;
    }
    out.push(']');
    proof {
        assert(ser_idents_rest(idv.skip(ids@.len() as int)) =~= Seq::<char>::empty());
        assert(out@ =~= pre + ser_ident_list(idv));
    }
}

#[verifier::rlimit(100)]
fn push_str_list(out: &mut Vec<char>, tags: &Vec<String>)
    ensures
        final(out)@ == old(out)@ + ser_str_list(strs_view(tags@)),
{
    let ghost pre = out@;
    let ghost tv = strs_view(tags@);
    out.push('[');
    if tags.len() == 0 {
        out.push(']');
        proof {
            assert(tv.len() == 0);
            assert(out@ =~= pre + ser_str_list(tv));
        }
        return ;
    }
    push_quoted(out, &tags[0]);
    let mut k: usize = 1;
    proof {
        assert(out@ =~= pre + seq!['['] + ser_str(tv[0]));
    }
    while k < tags.len()
        invariant
            1 <= k <= tags@.len(),
            tv == strs_view(tags@),
            tv.len() == tags@.len(),
            out@ + ser_strs_rest(tv.skip(k as int)) + seq![']'] == pre + ser_str_list(tv),
        decreases tags@.len() - k,
    {
        let ghost step_pre = out@;
        out.push(',');
        push_quoted(out, &tags[k]);
        proof {
            assert(tv.skip(k as int)[0] == tv[k as int]);
            assert(tv.skip(k as int).drop_first() =~= tv.skip(k as int + 1));
            assert(ser_strs_rest(tv.skip(k as int)) == seq![','] + ser_str(tv[k as int])
                + ser_strs_rest(tv.skip(k as int + 1)));
            assert(out@ + ser_strs_rest(tv.skip(k as int + 1)) =~= step_pre + ser_strs_rest(
                tv.skip(k as int),
            ));
            assert(out@ + ser_strs_rest(tv.skip(k as int + 1)) + seq![']'] =~= step_pre
                + ser_strs_rest(tv.skip(k as int)) + seq![']']);
        }
        k += 1;
    }
    out.push(']');
    proof {
        assert(ser_strs_rest(tv.skip(tags@.len() as int)) =~= Seq::<char>::empty());
        assert(out@ =~= pre + ser_str_list(tv));
    }
}

fn push_pair(out: &mut Vec<char>, p: &(String, String))
    ensures
        final(out)@ == old(out)@ + ser_pair((p.0@, p.1@)),
{
    let ghost pre = out@;
    push_quoted(out, &p.0);
    out.push(':');
    push_quoted(out, &p.1);
    proof {
        assert(out@ =~= pre + ser_pair((p.0@, p.1@)));
    }
}

#[verifier::rlimit(100)]
fn push_headers(out: &mut Vec<char>, ps: &Vec<(String, String)>)
    ensures
        final(out)@ == old(out)@ + ser_headers(pairs_view(ps@)),
{
    let ghost pre = out@;
    let ghost pv = pairs_view(ps@);
    out.push('{');
    if ps.len() == 0 {
        out.push('}');
        proof {
            assert(pv.len() == 0);
            assert(out@ =~= pre + ser_headers(pv));
        }
        return ;
    }
    push_pair(out, &ps[0]);
    let mut k: usize = 1;
    proof {
        assert(out@ =~= pre + seq!['{'] + ser_pair(pv[0]));
    }
    while k < ps.len()
        invariant
            1 <= k <= ps@.len(),
            pv == pairs_view(ps@),
            pv.len() == ps@.len(),
            out@ + ser_pairs_rest(pv.skip(k as int)) + seq!['}'] == pre + ser_headers(pv),
        decreases ps@.len() - k,
    {
        let ghost step_pre = out@;
        out.push(',');
        push_pair(out, &ps[k]);
        proof {
            assert(pv.skip(k as int)[0] == pv[k as int]);
            assert(pv.skip(k as int).drop_first() =~= pv.skip(k as int + 1));
            assert(ser_pairs_rest(pv.skip(k as int)) == seq![','] + ser_pair(pv[k as int])
                + ser_pairs_rest(pv.skip(k as int + 1)));
            assert(out@ + ser_pairs_rest(pv.skip(k as int + 1)) =~= step_pre + ser_pairs_rest(
                pv.skip(k as int),
            ));
            assert(out@ + ser_pairs_rest(pv.skip(k as int + 1)) + seq!['}'] =~= step_pre
                + ser_pairs_rest(pv.skip(k as int)) + seq!['}']);
        }
        k += 1;
    }
    out.push('}');
    proof {
        assert(ser_pairs_rest(pv.skip(ps@.len() as int)) =~= Seq::<char>::empty());
        assert(out@ =~= pre + ser_headers(pv));
    }
}

fn push_metadata(out: &mut Vec<char>, m: &Metadata)
    ensures
        final(out)@ == old(out)@ + ser_metadata(m@),
{
    let ghost pre = out@;
    proof {
        reveal_strlit("{\"identification\":");
        reveal_strlit(",\"annotation\":");
        reveal_strlit(",\"sentence_identifications\":");
        reveal_strlit("}");
        reveal_strlit("null");
    }
    push_text(out, "{\"identification\":");
    push_ident(out, m.identification());
    push_text(out, ",\"annotation\":");
    match m.annotation() {
        Some(tags) => {
            push_str_list(out, tags);
        }
        None => {
            push_text(out, "null");
        }
    }
    push_text(out, ",\"sentence_identifications\":");
    push_ident_list(out, m.sentence_identifications());
    push_text(out, "}");
    proof {
        assert("{\"identification\":"@ =~= seq!['{'] + lit_identification() + seq![':']);
        assert(",\"annotation\":"@ =~= seq![','] + lit_annotation() + seq![':']);
        assert(",\"sentence_identifications\":"@ =~= seq![','] + lit_sentence_identifications()
            + seq![':']);
        assert("}"@ =~= seq!['}']);
        assert("null"@ =~= lit_null());
        assert(out@ =~= pre + ser_metadata(m@));
    }
}

/// Write a document as exactly the one line [`ser_doc`] prescribes.
#[verifier::rlimit(100)]
pub fn encode_document(d: &Document) -> (r: String)
    ensures
        r@ == ser_doc(d@),
{
    let mut out: Vec<char> = Vec::new();
    proof {
        reveal_strlit("{\"content\":");
        reveal_strlit(",\"warc_headers\":");
        reveal_strlit(",\"metadata\":");
        reveal_strlit("}");
    }
    push_text(&mut out, "{\"content\":");
    push_quoted(&mut out, d.content());
    push_text(&mut out, ",\"warc_headers\":");
    push_headers(&mut out, d.warc_headers());
    push_text(&mut out, ",\"metadata\":");
    push_metadata(&mut out, d.metadata());
    push_text(&mut out, "}");
    proof {
        assert("{\"content\":"@ =~= seq!['{'] + lit_content() + seq![':']);
        assert(",\"warc_headers\":"@ =~= seq![','] + lit_warc_headers() + seq![':']);
        assert(",\"metadata\":"@ =~= seq![','] + lit_metadata() + seq![':']);
        assert("}"@ =~= seq!['}']);
        assert(out@ =~= ser_doc(d@));
    }
    chars_to_string(&out)
}

// ---------------------------------------------------------------------
// Round trip: reading back a written document yields the same document.
// ---------------------------------------------------------------------
proof fn lemma_ws_noop(x: Seq<char>)
    requires
        x.len() == 0 || !blank(x[0]),
    ensures
        ws(x) == x,
{
}

proof fn lemma_p_lit_prefix(lit: Seq<char>, y: Seq<char>)
    ensures
        p_lit(lit + y, lit) == Some(y),
{
    assert(lit =~= (lit + y).subrange(0, lit.len() as int));
    assert((lit + y).skip(lit.len() as int) =~= y);
}

proof fn lemma_p_lit_fail(s: Seq<char>, lit: Seq<char>)
    requires
        lit.len() > 0,
        s.len() > 0,
        s[0] != lit[0],
    ensures
        p_lit(s, lit) == None::<Seq<char>>,
{
    if lit.is_prefix_of(s) {
        assert(s.subrange(0, lit.len() as int)[0] == s[0]);
        assert(false);
    }
}

proof fn lemma_p_key(lit: Seq<char>, y: Seq<char>)
    requires
        lit.len() > 0,
        !blank(lit[0]),
    ensures
        p_key(lit + seq![':'] + y, lit) == Some(y),
{
    let s = lit + seq![':'] + y;
    assert(s[0] == lit[0]);
    lemma_ws_noop(s);
    assert(s =~= lit + (seq![':'] + y));
    lemma_p_lit_prefix(lit, seq![':'] + y);
    let r = seq![':'] + y;
    lemma_ws_noop(r);
    lemma_p_lit_prefix(seq![':'], y);
}

#[verifier::rlimit(100)]
proof fn lemma_str_body_round(s: Seq<char>, rest: Seq<char>)
    requires
        stringable(s),
    ensures
        p_str_body(escape(s) + seq!['"'] + rest) == Some((s, rest)),
    decreases s.len(),
{
    if s.len() == 0 {
        assert(escape(s) + seq!['"'] + rest =~= seq!['"'] + rest);
        let full = seq!['"'] + rest;
        assert(full[0] == '"');
        assert(full.drop_first() =~= rest);
        assert(p_str_body(full) == Some((Seq::<char>::empty(), rest)));
    } else {
        let c = s[0];
        let tail = s.drop_first();
        assert(stringable(tail)) by {
            assert(forall|i: int|
                0 <= i < tail.len() ==> #[trigger] tail[i] == s[i + 1] && stringable_char(
                    s[i + 1],
                ));
        }
        assert(escape(s) == esc_char(c) + escape(tail));
        let full = escape(s) + seq!['"'] + rest;
        lemma_str_body_round(tail, rest);
        let inner = escape(tail) + seq!['"'] + rest;
        if c == '"' || c == '\\' || c == '\n' || c == '\r' || c == '\t' || c == '\u{8}'
            || c == '\u{c}' {
            let mark: char = if c == '"' {
                '"'
            } else if c == '\\' {
                '\\'
            } else if c == '\n' {
                'n'
            } else if c == '\r' {
                'r'
            } else if c == '\t' {
                't'
            } else if c == '\u{8}' {
                'b'
            } else {
                'f'
            };
            assert(esc_char(c) =~= seq!['\\', mark]);
            assert(full[0] == '\\');
            assert(full[1] == mark);
            assert(unesc(mark) == Some(c));
            assert(full.skip(2) =~= inner);
            assert(seq![c] + tail =~= s);
        } else {
            assert(stringable_char(c));
            assert((c as u32) >= 32);
            assert(esc_char(c) =~= seq![c]);
            assert(full[0] == c);
            assert(full[0] != '"' && full[0] != '\\' && (full[0] as u32) >= 32);
            assert(full.drop_first() =~= inner);
            assert(seq![c] + tail =~= s);
        }
    }
}

#[verifier::rlimit(100)]
proof fn lemma_string_round(s: Seq<char>, rest: Seq<char>)
    requires
        stringable(s),
    ensures
        p_string(ser_str(s) + rest) == Some((s, rest)),
{
    let full = ser_str(s) + rest;
    assert(full[0] == '"');
    assert(full.drop_first() =~= escape(s) + seq!['"'] + rest);
    lemma_str_body_round(s, rest);
}

proof fn lemma_num_run_stuck(s: Seq<char>)
    ensures
        num_run(9, s) == 9,
    decreases s.len(),
{
    if s.len() > 0 {
        lemma_num_run_stuck(s.drop_first());
    }
}

proof fn lemma_nonnum_rejects(st: int, s: Seq<char>)
    requires
        exists|i: int| 0 <= i < s.len() && !num_char(#[trigger] s[i]),
    ensures
        num_run(st, s) == 9,
    decreases s.len(),
{
    let i = choose|i: int| 0 <= i < s.len() && !num_char(#[trigger] s[i]);
    if !num_char(s[0]) {
        assert(num_step(st, s[0]) == 9);
        lemma_num_run_stuck(s.drop_first());
    } else {
        let tail = s.drop_first();
        assert(0 <= i - 1 < tail.len() && !num_char(tail[i - 1]));
        lemma_nonnum_rejects(num_step(st, s[0]), tail);
    }
}

proof fn lemma_num_token_chars(s: Seq<char>)
    requires
        is_number_token(s),
    ensures
        forall|i: int| 0 <= i < s.len() ==> num_char(#[trigger] s[i]),
        s.len() > 0,
{
    if exists|i: int| 0 <= i < s.len() && !num_char(#[trigger] s[i]) {
        lemma_nonnum_rejects(0, s);
        assert(false);
    }
    if s.len() == 0 {
        assert(num_run(0, s) == 0);
        assert(false);
    }
}

proof fn lemma_num_scan(tok: Seq<char>, rest: Seq<char>)
    requires
        forall|i: int| 0 <= i < tok.len() ==> num_char(#[trigger] tok[i]),
        rest.len() == 0 || !num_char(rest[0]),
    ensures
        num_scan_len(tok + rest) == tok.len(),
    decreases tok.len(),
{
    if tok.len() == 0 {
        assert(tok + rest =~= rest);
    } else {
        let tail = tok.drop_first();
        assert(forall|i: int|
            0 <= i < tail.len() ==> #[trigger] tail[i] == tok[i + 1] && num_char(tok[i + 1]));
        lemma_num_scan(tail, rest);
        let full = tok + rest;
        assert(full[0] == tok[0] && num_char(full[0]));
        assert(full.drop_first() =~= tail + rest);
    }
}

proof fn lemma_number_round(tok: Seq<char>, rest: Seq<char>)
    requires
        is_number_token(tok),
        rest.len() == 0 || !num_char(rest[0]),
    ensures
        p_number(tok + rest) == Some((tok, rest)),
{
    lemma_num_token_chars(tok);
    lemma_num_scan(tok, rest);
    assert((tok + rest).take(tok.len() as int) =~= tok);
    assert((tok + rest).skip(tok.len() as int) =~= rest);
}

#[verifier::rlimit(100)]
proof fn lemma_ident_round(id: IdentV, rest: Seq<char>)
    requires
        ident_wf(id),
    ensures
        p_ident(ser_ident(id) + rest) == Some((id, rest)),
{
    let s = ser_ident(id) + rest;
    let y1 = lit_label() + seq![':'] + (ser_str(id.label) + seq![','] + lit_prob() + seq![':']
        + id.prob + seq!['}'] + rest);
    assert(s =~= seq!['{'] + y1);
    lemma_ws_noop(s);
    lemma_p_lit_prefix(seq!['{'], y1);
    let y2 = ser_str(id.label) + seq![','] + lit_prob() + seq![':'] + id.prob + seq!['}'] + rest;
    assert(y1 =~= lit_label() + seq![':'] + y2);
    lemma_p_key(lit_label(), y2);
    let y3 = seq![','] + lit_prob() + seq![':'] + id.prob + seq!['}'] + rest;
    assert(y2 =~= ser_str(id.label) + y3);
    assert(y2[0] == '"');
    lemma_ws_noop(y2);
    lemma_string_round(id.label, y3);
    lemma_ws_noop(y3);
    let y4 = lit_prob() + seq![':'] + (id.prob + seq!['}'] + rest);
    assert(y3 =~= seq![','] + y4);
    lemma_p_lit_prefix(seq![','], y4);
    let y5 = id.prob + seq!['}'] + rest;
    assert(y4 =~= lit_prob() + seq![':'] + y5);
    lemma_p_key(lit_prob(), y5);
    lemma_num_token_chars(id.prob);
    assert(y5[0] == id.prob[0] && num_char(y5[0]));
    assert(!blank(y5[0]));
    lemma_ws_noop(y5);
    let y6 = seq!['}'] + rest;
    assert(y5 =~= id.prob + y6);
    assert(!num_char('}'));
    lemma_number_round(id.prob, y6);
    lemma_ws_noop(y6);
    lemma_p_lit_prefix(seq!['}'], rest);
}

#[verifier::rlimit(100)]
proof fn lemma_opt_ident_round(oid: Option<IdentV>, rest: Seq<char>)
    requires
        opt_ident_wf(oid),
    ensures
        p_opt_ident(ser_opt_ident(oid) + rest) == Some((oid, rest)),
{
    let s = ser_opt_ident(oid) + rest;
    match oid {
        None => {
            assert(s =~= lit_null() + rest);
            lemma_ws_noop(s);
            lemma_p_lit_prefix(lit_null(), rest);
        }
        Some(id) => {
            assert(s[0] == '{');
            lemma_ws_noop(s);
            lemma_p_lit_fail(s, lit_null());
            lemma_ident_round(id, rest);
        }
    }
}

#[verifier::rlimit(100)]
proof fn lemma_idents_rest_round(ids: Seq<Option<IdentV>>, rest: Seq<char>, fuel: nat)
    requires
        forall|i: int| 0 <= i < ids.len() ==> opt_ident_wf(#[trigger] ids[i]),
        fuel >= ids.len(),
    ensures
        p_idents_rest(ser_idents_rest(ids) + seq![']'] + rest, fuel) == Some((ids, rest)),
    decreases ids.len(),
{
    let s = ser_idents_rest(ids) + seq![']'] + rest;
    if ids.len() == 0 {
        assert(s =~= seq![']'] + rest);
        lemma_ws_noop(s);
        lemma_p_lit_prefix(seq![']'], rest);
        assert(p_idents_rest(s, fuel) == Some((Seq::<Option<IdentV>>::empty(), rest)));
    } else {
        let tail = ids.drop_first();
        assert(forall|i: int|
            0 <= i < tail.len() ==> #[trigger] tail[i] == ids[i + 1] && opt_ident_wf(ids[i + 1]));
        let y1 = ser_opt_ident(ids[0]) + (ser_idents_rest(tail) + seq![']'] + rest);
        assert(s =~= seq![','] + y1);
        assert(s[0] == ',');
        lemma_ws_noop(s);
        lemma_p_lit_fail(s, seq![']']);
        lemma_p_lit_prefix(seq![','], y1);
        lemma_opt_ident_round(ids[0], ser_idents_rest(tail) + seq![']'] + rest);
        lemma_idents_rest_round(tail, rest, (fuel - 1) as nat);
        assert(seq![ids[0]] + tail =~= ids);
    }
}

#[verifier::rlimit(100)]
proof fn lemma_ident_list_round_empty(rest: Seq<char>)
    ensures
        p_ident_list(ser_ident_list(Seq::<Option<IdentV>>::empty()) + rest, 0) == Some(
            (Seq::<Option<IdentV>>::empty(), rest),
        ),
{
    let ids = Seq::<Option<IdentV>>::empty();
    let s = ser_ident_list(ids) + rest;
    assert(s =~= seq!['['] + (seq![']'] + rest));
    lemma_ws_noop(s);
    lemma_p_lit_prefix(seq!['['], seq![']'] + rest);
    lemma_ws_noop(seq![']'] + rest);
    lemma_p_lit_prefix(seq![']'], rest);
}

#[verifier::rlimit(100)]
proof fn lemma_ident_list_round_cons(ids: Seq<Option<IdentV>>, rest: Seq<char>, fuel: nat)
    requires
        forall|i: int| 0 <= i < ids.len() ==> opt_ident_wf(#[trigger] ids[i]),
        fuel >= ids.len(),
        ids.len() > 0,
    ensures
        p_ident_list(ser_ident_list(ids) + rest, fuel) == Some((ids, rest)),
{
    let s = ser_ident_list(ids) + rest;
    let tail = ids.drop_first();
    assert(forall|i: int|
        0 <= i < tail.len() ==> #[trigger] tail[i] == ids[i + 1] && opt_ident_wf(ids[i + 1]));
    let y1 = ser_opt_ident(ids[0]) + (ser_idents_rest(tail) + seq![']'] + rest);
    assert(s =~= seq!['['] + y1);
    lemma_ws_noop(s);
    lemma_p_lit_prefix(seq!['['], y1);
    assert(y1[0] == 'n' || y1[0] == '{') by {
        assert(y1[0] == ser_opt_ident(ids[0])[0]);
    }
    lemma_ws_noop(y1);
    lemma_p_lit_fail(y1, seq![']']);
    lemma_opt_ident_round(ids[0], ser_idents_rest(tail) + seq![']'] + rest);
    lemma_idents_rest_round(tail, rest, fuel);
    assert(seq![ids[0]] + tail =~= ids);
}

proof fn lemma_ident_list_round(ids: Seq<Option<IdentV>>, rest: Seq<char>, fuel: nat)
    requires
        forall|i: int| 0 <= i < ids.len() ==> opt_ident_wf(#[trigger] ids[i]),
        fuel >= ids.len(),
    ensures
        p_ident_list(ser_ident_list(ids) + rest, fuel) == Some((ids, rest)),
{
    if ids.len() == 0 {
        lemma_ident_list_round_empty(rest);
        assert(ids =~= Seq::<Option<IdentV>>::empty());
        lemma_ident_list_nofuel(ids, rest, fuel);
    } else {
        lemma_ident_list_round_cons(ids, rest, fuel);
    }
}

proof fn lemma_ident_list_nofuel(ids: Seq<Option<IdentV>>, rest: Seq<char>, fuel: nat)
    requires
        ids.len() == 0,
        p_ident_list(ser_ident_list(ids) + rest, 0) == Some((ids, rest)),
    ensures
        p_ident_list(ser_ident_list(ids) + rest, fuel) == Some((ids, rest)),
{
    let s = ser_ident_list(ids) + rest;
    assert(s =~= seq!['['] + (seq![']'] + rest));
    lemma_ws_noop(s);
    lemma_p_lit_prefix(seq!['['], seq![']'] + rest);
    lemma_ws_noop(seq![']'] + rest);
    lemma_p_lit_prefix(seq![']'], rest);
}

#[verifier::rlimit(100)]
proof fn lemma_strs_rest_round(tags: Seq<Seq<char>>, rest: Seq<char>, fuel: nat)
    requires
        forall|i: int| 0 <= i < tags.len() ==> stringable(#[trigger] tags[i]),
        fuel >= tags.len(),
    ensures
        p_strs_rest(ser_strs_rest(tags) + seq![']'] + rest, fuel) == Some((tags, rest)),
    decreases tags.len(),
{
    let s = ser_strs_rest(tags) + seq![']'] + rest;
    if tags.len() == 0 {
        assert(s =~= seq![']'] + rest);
        lemma_ws_noop(s);
        lemma_p_lit_prefix(seq![']'], rest);
        assert(p_strs_rest(s, fuel) == Some((Seq::<Seq<char>>::empty(), rest)));
    } else {
        let tail = tags.drop_first();
        assert(forall|i: int|
            0 <= i < tail.len() ==> #[trigger] tail[i] == tags[i + 1] && stringable(tags[i + 1]));
        let y1 = ser_str(tags[0]) + (ser_strs_rest(tail) + seq![']'] + rest);
        assert(s =~= seq![','] + y1);
        lemma_ws_noop(s);
        lemma_p_lit_fail(s, seq![']']);
        lemma_p_lit_prefix(seq![','], y1);
        assert(y1[0] == '"');
        lemma_ws_noop(y1);
        lemma_string_round(tags[0], ser_strs_rest(tail) + seq![']'] + rest);
        lemma_strs_rest_round(tail, rest, (fuel - 1) as nat);
        assert(seq![tags[0]] + tail =~= tags);
    }
}

#[verifier::rlimit(100)]
proof fn lemma_str_list_round(tags: Seq<Seq<char>>, rest: Seq<char>, fuel: nat)
    requires
        forall|i: int| 0 <= i < tags.len() ==> stringable(#[trigger] tags[i]),
        fuel >= tags.len(),
    ensures
        p_str_list(ser_str_list(tags) + rest, fuel) == Some((tags, rest)),
{
    let s = ser_str_list(tags) + rest;
    if tags.len() == 0 {
        assert(s =~= seq!['['] + (seq![']'] + rest));
        lemma_ws_noop(s);
        lemma_p_lit_prefix(seq!['['], seq![']'] + rest);
        lemma_ws_noop(seq![']'] + rest);
        lemma_p_lit_prefix(seq![']'], rest);
    } else {
        let tail = tags.drop_first();
        assert(forall|i: int|
            0 <= i < tail.len() ==> #[trigger] tail[i] == tags[i + 1] && stringable(tags[i + 1]));
        let y1 = ser_str(tags[0]) + (ser_strs_rest(tail) + seq![']'] + rest);
        assert(s =~= seq!['['] + y1);
        lemma_ws_noop(s);
        lemma_p_lit_prefix(seq!['['], y1);
        assert(y1[0] == '"');
        lemma_ws_noop(y1);
        lemma_p_lit_fail(y1, seq![']']);
        lemma_string_round(tags[0], ser_strs_rest(tail) + seq![']'] + rest);
        lemma_strs_rest_round(tail, rest, fuel);
        assert(seq![tags[0]] + tail =~= tags);
    }
}

#[verifier::rlimit(100)]
proof fn lemma_annotation_round(a: Option<Seq<Seq<char>>>, rest: Seq<char>, fuel: nat)
    requires
        (match a {
            Some(tags) => fuel >= tags.len() && forall|i: int|
                0 <= i < tags.len() ==> stringable(#[trigger] tags[i]),
            None => true,
        }),
    ensures
        p_annotation(ser_annotation(a) + rest, fuel) == Some((a, rest)),
{
    let s = ser_annotation(a) + rest;
    match a {
        None => {
            assert(s =~= lit_null() + rest);
            lemma_ws_noop(s);
            lemma_p_lit_prefix(lit_null(), rest);
        }
        Some(tags) => {
            assert(s[0] == '[');
            lemma_ws_noop(s);
            lemma_p_lit_fail(s, lit_null());
            lemma_str_list_round(tags, rest, fuel);
        }
    }
}

#[verifier::rlimit(100)]
proof fn lemma_pairs_rest_round(ps: Seq<(Seq<char>, Seq<char>)>, rest: Seq<char>, fuel: nat)
    requires
        forall|i: int|
            0 <= i < ps.len() ==> stringable(#[trigger] ps[i].0) && stringable(ps[i].1),
        fuel >= ps.len(),
    ensures
        p_pairs_rest(ser_pairs_rest(ps) + seq!['}'] + rest, fuel) == Some((ps, rest)),
    decreases ps.len(),
{
    let s = ser_pairs_rest(ps) + seq!['}'] + rest;
    if ps.len() == 0 {
        assert(s =~= seq!['}'] + rest);
        lemma_ws_noop(s);
        lemma_p_lit_prefix(seq!['}'], rest);
        assert(p_pairs_rest(s, fuel) == Some((Seq::<(Seq<char>, Seq<char>)>::empty(), rest)));
    } else {
        let tail = ps.drop_first();
        assert(forall|i: int|
            0 <= i < tail.len() ==> #[trigger] tail[i] == ps[i + 1] && stringable(ps[i + 1].0)
                && stringable(ps[i + 1].1));
        let after_pair = ser_pairs_rest(tail) + seq!['}'] + rest;
        let y1 = ser_pair(ps[0]) + after_pair;
        assert(s =~= seq![','] + y1);
        lemma_ws_noop(s);
        lemma_p_lit_fail(s, seq!['}']);
        lemma_p_lit_prefix(seq![','], y1);
        let y2 = seq![':'] + (ser_str(ps[0].1) + after_pair);
        assert(y1 =~= ser_str(ps[0].0) + y2);
        assert(y1[0] == '"');
        lemma_ws_noop(y1);
        lemma_string_round(ps[0].0, y2);
        lemma_ws_noop(y2);
        lemma_p_lit_prefix(seq![':'], ser_str(ps[0].1) + after_pair);
        let y3 = ser_str(ps[0].1) + after_pair;
        assert(y3[0] == '"');
        lemma_ws_noop(y3);
        lemma_string_round(ps[0].1, after_pair);
        lemma_pairs_rest_round(tail, rest, (fuel - 1) as nat);
        assert(seq![(ps[0].0, ps[0].1)] + tail =~= ps);
    }
}

#[verifier::rlimit(100)]
proof fn lemma_headers_round(ps: Seq<(Seq<char>, Seq<char>)>, rest: Seq<char>, fuel: nat)
    requires
        forall|i: int|
            0 <= i < ps.len() ==> stringable(#[trigger] ps[i].0) && stringable(ps[i].1),
        fuel >= ps.len(),
    ensures
        p_headers(ser_headers(ps) + rest, fuel) == Some((ps, rest)),
{
    let s = ser_headers(ps) + rest;
    if ps.len() == 0 {
        assert(s =~= seq!['{'] + (seq!['}'] + rest));
        lemma_ws_noop(s);
        lemma_p_lit_prefix(seq!['{'], seq!['}'] + rest);
        lemma_ws_noop(seq!['}'] + rest);
        lemma_p_lit_prefix(seq!['}'], rest);
    } else {
        let tail = ps.drop_first();
        assert(forall|i: int|
            0 <= i < tail.len() ==> #[trigger] tail[i] == ps[i + 1] && stringable(ps[i + 1].0)
                && stringable(ps[i + 1].1));
        let after_pair = ser_pairs_rest(tail) + seq!['}'] + rest;
        let y1 = ser_pair(ps[0]) + after_pair;
        assert(s =~= seq!['{'] + y1);
        lemma_ws_noop(s);
        lemma_p_lit_prefix(seq!['{'], y1);
        assert(y1[0] == '"');
        lemma_ws_noop(y1);
        lemma_p_lit_fail(y1, seq!['}']);
        let y2 = seq![':'] + (ser_str(ps[0].1) + after_pair);
        assert(y1 =~= ser_str(ps[0].0) + y2);
        lemma_string_round(ps[0].0, y2);
        lemma_ws_noop(y2);
        lemma_p_lit_prefix(seq![':'], ser_str(ps[0].1) + after_pair);
        let y3 = ser_str(ps[0].1) + after_pair;
        assert(y3[0] == '"');
        lemma_ws_noop(y3);
        lemma_string_round(ps[0].1, after_pair);
        lemma_pairs_rest_round(tail, rest, fuel);
        assert(seq![(ps[0].0, ps[0].1)] + tail =~= ps);
    }
}

pub open spec fn meta_suffix_ids(m: MetadataV, rest: Seq<char>) -> Seq<char> {
    seq![','] + lit_sentence_identifications() + seq![':'] + ser_ident_list(
        m.sentence_identifications,
    ) + seq!['}'] + rest
}

pub open spec fn meta_suffix_ann(m: MetadataV, rest: Seq<char>) -> Seq<char> {
    seq![','] + lit_annotation() + seq![':'] + ser_annotation(m.annotation) + meta_suffix_ids(
        m,
        rest,
    )
}

#[verifier::rlimit(100)]
proof fn lemma_metadata_step_id(m: MetadataV, rest: Seq<char>)
    requires
        metadata_wf(m),
    ensures
        ({
            let s = ser_metadata(m) + rest;
            let y1 = lit_identification() + seq![':'] + (ser_ident(m.identification)
                + meta_suffix_ann(m, rest));
            &&& ws(s) == s
            &&& p_lit(s, seq!['{']) == Some(y1)
            &&& p_key(y1, lit_identification()) == Some(
                ser_ident(m.identification) + meta_suffix_ann(m, rest),
            )
            &&& p_ident(ser_ident(m.identification) + meta_suffix_ann(m, rest)) == Some(
                (m.identification, meta_suffix_ann(m, rest)),
            )
        }),
{
    let s = ser_metadata(m) + rest;
    let y1 = lit_identification() + seq![':'] + (ser_ident(m.identification) + meta_suffix_ann(
        m,
        rest,
    ));
    assert(s =~= seq!['{'] + y1);
    lemma_ws_noop(s);
    lemma_p_lit_prefix(seq!['{'], y1);
    lemma_p_key(lit_identification(), ser_ident(m.identification) + meta_suffix_ann(m, rest));
    lemma_ident_round(m.identification, meta_suffix_ann(m, rest));
}

#[verifier::rlimit(100)]
proof fn lemma_metadata_step_ann(m: MetadataV, rest: Seq<char>, fuel: nat)
    requires
        metadata_wf(m),
        (match m.annotation {
            Some(tags) => fuel >= tags.len(),
            None => true,
        }),
    ensures
        ({
            let t = meta_suffix_ann(m, rest);
            let y2 = lit_annotation() + seq![':'] + (ser_annotation(m.annotation)
                + meta_suffix_ids(m, rest));
            &&& ws(t) == t
            &&& p_lit(t, seq![',']) == Some(y2)
            &&& p_key(y2, lit_annotation()) == Some(
                ser_annotation(m.annotation) + meta_suffix_ids(m, rest),
            )
            &&& p_annotation(ser_annotation(m.annotation) + meta_suffix_ids(m, rest), fuel)
                == Some((m.annotation, meta_suffix_ids(m, rest)))
        }),
{
    let t = meta_suffix_ann(m, rest);
    let y2 = lit_annotation() + seq![':'] + (ser_annotation(m.annotation) + meta_suffix_ids(
        m,
        rest,
    ));
    assert(t =~= seq![','] + y2);
    assert(t[0] == ',');
    lemma_ws_noop(t);
    lemma_p_lit_prefix(seq![','], y2);
    lemma_p_key(lit_annotation(), ser_annotation(m.annotation) + meta_suffix_ids(m, rest));
    lemma_annotation_round(m.annotation, meta_suffix_ids(m, rest), fuel);
}

#[verifier::rlimit(100)]
proof fn lemma_metadata_step_ids(m: MetadataV, rest: Seq<char>, fuel: nat)
    requires
        metadata_wf(m),
        fuel >= m.sentence_identifications.len(),
    ensures
        ({
            let t = meta_suffix_ids(m, rest);
            let y3 = lit_sentence_identifications() + seq![':'] + (ser_ident_list(
                m.sentence_identifications,
            ) + (seq!['}'] + rest));
            &&& ws(t) == t
            &&& p_lit(t, seq![',']) == Some(y3)
            &&& p_key(y3, lit_sentence_identifications()) == Some(
                ser_ident_list(m.sentence_identifications) + (seq!['}'] + rest),
            )
            &&& p_ident_list(
                ser_ident_list(m.sentence_identifications) + (seq!['}'] + rest),
                fuel,
            ) == Some((m.sentence_identifications, seq!['}'] + rest))
            &&& ws(seq!['}'] + rest) == seq!['}'] + rest
            &&& p_lit(seq!['}'] + rest, seq!['}']) == Some(rest)
        }),
{
    let t = meta_suffix_ids(m, rest);
    let y3 = lit_sentence_identifications() + seq![':'] + (ser_ident_list(
        m.sentence_identifications,
    ) + (seq!['}'] + rest));
    assert(t =~= seq![','] + y3);
    assert(t[0] == ',');
    lemma_ws_noop(t);
    lemma_p_lit_prefix(seq![','], y3);
    lemma_p_key(
        lit_sentence_identifications(),
        ser_ident_list(m.sentence_identifications) + (seq!['}'] + rest),
    );
    lemma_ident_list_round(m.sentence_identifications, seq!['}'] + rest, fuel);
    lemma_ws_noop(seq!['}'] + rest);
    lemma_p_lit_prefix(seq!['}'], rest);
}

#[verifier::rlimit(100)]
proof fn lemma_metadata_round(m: MetadataV, rest: Seq<char>, fuel: nat)
    requires
        metadata_wf(m),
        fuel >= m.sentence_identifications.len(),
        (match m.annotation {
            Some(tags) => fuel >= tags.len(),
            None => true,
        }),
    ensures
        p_metadata(ser_metadata(m) + rest, fuel) == Some((m, rest)),
{
    lemma_metadata_step_id(m, rest);
    lemma_metadata_step_ann(m, rest, fuel);
    lemma_metadata_step_ids(m, rest, fuel);
    assert((MetadataV {
        identification: m.identification,
        annotation: m.annotation,
        sentence_identifications: m.sentence_identifications,
    }) =~= m);
}

proof fn lemma_ser_pairs_rest_len(ps: Seq<(Seq<char>, Seq<char>)>)
    ensures
        ser_pairs_rest(ps).len() >= ps.len(),
    decreases ps.len(),
{
    if ps.len() > 0 {
        lemma_ser_pairs_rest_len(ps.drop_first());
    }
}

proof fn lemma_ser_idents_rest_len(ids: Seq<Option<IdentV>>)
    ensures
        ser_idents_rest(ids).len() >= ids.len(),
    decreases ids.len(),
{
    if ids.len() > 0 {
        lemma_ser_idents_rest_len(ids.drop_first());
    }
}

proof fn lemma_ser_strs_rest_len(tags: Seq<Seq<char>>)
    ensures
        ser_strs_rest(tags).len() >= tags.len(),
    decreases tags.len(),
{
    if tags.len() > 0 {
        lemma_ser_strs_rest_len(tags.drop_first());
    }
}

/// Writing a well-formed document as its line and reading the line back
/// yields the very same document.
pub open spec fn doc_suffix_meta(d: DocumentV, rest: Seq<char>) -> Seq<char> {
    seq![','] + lit_metadata() + seq![':'] + ser_metadata(d.metadata) + seq!['}'] + rest
}

pub open spec fn doc_suffix_hdrs(d: DocumentV, rest: Seq<char>) -> Seq<char> {
    seq![','] + lit_warc_headers() + seq![':'] + ser_headers(d.warc_headers) + doc_suffix_meta(
        d,
        rest,
    )
}

#[verifier::rlimit(100)]
proof fn lemma_doc_step_content(d: DocumentV, rest: Seq<char>)
    requires
        doc_wf(d),
    ensures
        ({
            let s = ser_doc(d) + rest;
            let y1 = lit_content() + seq![':'] + (ser_str(d.content) + doc_suffix_hdrs(d, rest));
            &&& ws(s) == s
            &&& p_lit(s, seq!['{']) == Some(y1)
            &&& p_key(y1, lit_content()) == Some(ser_str(d.content) + doc_suffix_hdrs(d, rest))
            &&& ws(ser_str(d.content) + doc_suffix_hdrs(d, rest)) == ser_str(d.content)
                + doc_suffix_hdrs(d, rest)
            &&& p_string(ser_str(d.content) + doc_suffix_hdrs(d, rest)) == Some(
                (d.content, doc_suffix_hdrs(d, rest)),
            )
        }),
{
    let s = ser_doc(d) + rest;
    let y1 = lit_content() + seq![':'] + (ser_str(d.content) + doc_suffix_hdrs(d, rest));
    assert(s =~= seq!['{'] + y1);
    lemma_ws_noop(s);
    lemma_p_lit_prefix(seq!['{'], y1);
    lemma_p_key(lit_content(), ser_str(d.content) + doc_suffix_hdrs(d, rest));
    assert((ser_str(d.content) + doc_suffix_hdrs(d, rest))[0] == '"');
    lemma_ws_noop(ser_str(d.content) + doc_suffix_hdrs(d, rest));
    lemma_string_round(d.content, doc_suffix_hdrs(d, rest));
}

#[verifier::rlimit(100)]
proof fn lemma_doc_step_hdrs(d: DocumentV, rest: Seq<char>, fuel: nat)
    requires
        doc_wf(d),
        fuel >= d.warc_headers.len(),
    ensures
        ({
            let t = doc_suffix_hdrs(d, rest);
            let y2 = lit_warc_headers() + seq![':'] + (ser_headers(d.warc_headers)
                + doc_suffix_meta(d, rest));
            &&& ws(t) == t
            &&& p_lit(t, seq![',']) == Some(y2)
            &&& p_key(y2, lit_warc_headers()) == Some(
                ser_headers(d.warc_headers) + doc_suffix_meta(d, rest),
            )
            &&& p_headers(ser_headers(d.warc_headers) + doc_suffix_meta(d, rest), fuel) == Some(
                (d.warc_headers, doc_suffix_meta(d, rest)),
            )
        }),
{
    let t = doc_suffix_hdrs(d, rest);
    let y2 = lit_warc_headers() + seq![':'] + (ser_headers(d.warc_headers) + doc_suffix_meta(
        d,
        rest,
    ));
    assert(t =~= seq![','] + y2);
    assert(t[0] == ',');
    lemma_ws_noop(t);
    lemma_p_lit_prefix(seq![','], y2);
    lemma_p_key(lit_warc_headers(), ser_headers(d.warc_headers) + doc_suffix_meta(d, rest));
    assert(forall|i: int|
        0 <= i < d.warc_headers.len() ==> stringable(#[trigger] d.warc_headers[i].0)
            && stringable(d.warc_headers[i].1));
    lemma_headers_round(d.warc_headers, doc_suffix_meta(d, rest), fuel);
}

#[verifier::rlimit(100)]
proof fn lemma_doc_step_meta(d: DocumentV, rest: Seq<char>, fuel: nat)
    requires
        doc_wf(d),
        fuel >= d.metadata.sentence_identifications.len(),
        (match d.metadata.annotation {
            Some(tags) => fuel >= tags.len(),
            None => true,
        }),
    ensures
        ({
            let t = doc_suffix_meta(d, rest);
            let y3 = lit_metadata() + seq![':'] + (ser_metadata(d.metadata) + (seq!['}'] + rest));
            &&& ws(t) == t
            &&& p_lit(t, seq![',']) == Some(y3)
            &&& p_key(y3, lit_metadata()) == Some(ser_metadata(d.metadata) + (seq!['}'] + rest))
            &&& p_metadata(ser_metadata(d.metadata) + (seq!['}'] + rest), fuel) == Some(
                (d.metadata, seq!['}'] + rest),
            )
            &&& ws(seq!['}'] + rest) == seq!['}'] + rest
            &&& p_lit(seq!['}'] + rest, seq!['}']) == Some(rest)
        }),
{
    let t = doc_suffix_meta(d, rest);
    let y3 = lit_metadata() + seq![':'] + (ser_metadata(d.metadata) + (seq!['}'] + rest));
    assert(t =~= seq![','] + y3);
    assert(t[0] == ',');
    lemma_ws_noop(t);
    lemma_p_lit_prefix(seq![','], y3);
    lemma_p_key(lit_metadata(), ser_metadata(d.metadata) + (seq!['}'] + rest));
    lemma_metadata_round(d.metadata, seq!['}'] + rest, fuel);
    lemma_ws_noop(seq!['}'] + rest);
    lemma_p_lit_prefix(seq!['}'], rest);
}

/// Writing a well-formed document as its line and reading the line back
/// yields the very same document.
#[verifier::rlimit(100)]
pub proof fn lemma_doc_round_trip(d: DocumentV)
    requires
        doc_wf(d),
    ensures
        p_doc(ser_doc(d)) == Some(d),
{
    let line = ser_doc(d);
    let fuel = line.len();
    lemma_ser_pairs_rest_len(d.warc_headers);
    lemma_ser_idents_rest_len(d.metadata.sentence_identifications);
    assert(fuel >= d.warc_headers.len());
    assert(fuel >= d.metadata.sentence_identifications.len());
    match d.metadata.annotation {
        Some(tags) => {
            lemma_ser_strs_rest_len(tags);
            assert(fuel >= tags.len());
        }
        None => {}
    }
    let rest = Seq::<char>::empty();
    assert(ser_doc(d) + rest =~= line);
    lemma_doc_step_content(d, rest);
    lemma_doc_step_hdrs(d, rest, fuel);
    lemma_doc_step_meta(d, rest, fuel);
    assert(ws(rest).len() == 0);
    assert((DocumentV {
        content: d.content,
        warc_headers: d.warc_headers,
        metadata: d.metadata,
    }) =~= d);
}

} // verus!
