//! The Fennec lexer.
//!
//! [`Tokenizer`] walks a character buffer left to right and hands out one
//! token at a time.  The token that starts at a given cursor position is
//! defined by the spec function [`next_tok`]; the executable lexer is proved
//! to return exactly that token and to leave the cursor exactly where the
//! spec says.

use vstd::prelude::*;
use vstd::string::StrSliceExecFns;

verus! {

// ---------------------------------------------------------------------------
// Character classes
// ---------------------------------------------------------------------------

/// Unicode white space, the set recognised between tokens.
pub open spec fn is_ws_char(c: char) -> bool {
    let u = c as u32;
    u == 0x09 || u == 0x0A || u == 0x0B || u == 0x0C || u == 0x0D || u == 0x20 || u == 0x85
        || u == 0xA0 || u == 0x1680 || (0x2000 <= u && u <= 0x200A) || u == 0x2028 || u == 0x2029
        || u == 0x202F || u == 0x205F || u == 0x3000
}

/// The five structural symbols of the grammar.
pub open spec fn is_symbol_char(c: char) -> bool {
    c == '=' || c == '{' || c == '}' || c == '[' || c == ']'
}

pub open spec fn is_digit_char(c: char) -> bool {
    let u = c as u32;
    0x30 <= u && u <= 0x39
}

/// Hexadecimal magnitude digits; only lower-case letters are part of the
/// radix-literal grammar.
pub open spec fn is_hex_char(c: char) -> bool {
    let u = c as u32;
    is_digit_char(c) || (0x61 <= u && u <= 0x66)
}

pub open spec fn is_oct_char(c: char) -> bool {
    let u = c as u32;
    0x30 <= u && u <= 0x37
}

pub open spec fn is_bin_char(c: char) -> bool {
    c == '0' || c == '1'
}

pub open spec fn is_ident_start_char(c: char) -> bool {
    let u = c as u32;
    (0x41 <= u && u <= 0x5A) || (0x61 <= u && u <= 0x7A) || c == '$' || c == '_'
}

/// Identifier continuation characters; also the characters a flag name is
/// made of.
pub open spec fn is_ident_char(c: char) -> bool {
    is_ident_start_char(c) || is_digit_char(c) || c == '-'
}

pub fn ws_char(c: char) -> (r: bool)
    ensures
        r == is_ws_char(c),
{
    let u = c as u32;
    u == 0x09 || u == 0x0A || u == 0x0B || u == 0x0C || u == 0x0D || u == 0x20 || u == 0x85
        || u == 0xA0 || u == 0x1680 || (0x2000 <= u && u <= 0x200A) || u == 0x2028 || u == 0x2029
        || u == 0x202F || u == 0x205F || u == 0x3000
}

pub fn symbol_char(c: char) -> (r: bool)
    ensures
        r == is_symbol_char(c),
{
    c == '=' || c == '{' || c == '}' || c == '[' || c == ']'
}

pub fn digit_char(c: char) -> (r: bool)
    ensures
        r == is_digit_char(c),
{
    let u = c as u32;
    0x30 <= u && u <= 0x39
}

pub fn hex_char(c: char) -> (r: bool)
    ensures
        r == is_hex_char(c),
{
    let u = c as u32;
    digit_char(c) || (0x61 <= u && u <= 0x66)
}

pub fn oct_char(c: char) -> (r: bool)
    ensures
        r == is_oct_char(c),
{
    let u = c as u32;
    0x30 <= u && u <= 0x37
}

pub fn bin_char(c: char) -> (r: bool)
    ensures
        r == is_bin_char(c),
{
    c == '0' || c == '1'
}

pub fn ident_start_char(c: char) -> (r: bool)
    ensures
        r == is_ident_start_char(c),
{
    let u = c as u32;
    (0x41 <= u && u <= 0x5A) || (0x61 <= u && u <= 0x7A) || c == '$' || c == '_'
}

pub fn ident_char(c: char) -> (r: bool)
    ensures
        r == is_ident_char(c),
{
    ident_start_char(c) || digit_char(c) || c == '-'
}

// ---------------------------------------------------------------------------
// Scanning
// ---------------------------------------------------------------------------

/// What a backslash escape decodes to: the usual control characters, any
/// other character stands for itself.
pub open spec fn escape_char(c: char) -> char {
    if c == 'n' {
        '\n'
    } else if c == 't' {
        '\t'
    } else if c == 'b' {
        '\u{8}'
    } else if c == 'f' {
        '\u{c}'
    } else if c == 'r' {
        '\r'
    } else {
        c
    }
}

/// Stop predicate for a scan that ends at any character of `cs`.
pub open spec fn stop_set(cs: Seq<char>) -> spec_fn(Seq<char>, int) -> bool {
    |s: Seq<char>, j: int| cs.contains(s[j])
}

/// A closing triple quote begins at `j`.
pub open spec fn is_triple_quote_at(s: Seq<char>, j: int) -> bool {
    j + 3 <= s.len() && s[j] == '"' && s[j + 1] == '"' && s[j + 2] == '"'
}

/// Stop predicate for a scan that ends at a closing triple quote.
pub open spec fn stop_triple() -> spec_fn(Seq<char>, int) -> bool {
    |s: Seq<char>, j: int| is_triple_quote_at(s, j)
}

/// Where a scan that starts at `i` stops: at the first position satisfying
/// `stop`, or at the end of input.  With `escape` set, a backslash consumes
/// the following character, so a stop character can be escaped over; a
/// trailing lone backslash ends the scan.
pub open spec fn scan_end(s: Seq<char>, i: int, stop: spec_fn(Seq<char>, int) -> bool, escape: bool) -> int
    decreases s.len() - i,
{
    if i < 0 || i >= s.len() {
        s.len() as int
    } else if stop(s, i) {
        i
    } else if escape && s[i] == '\\' {
        if i + 1 < s.len() {
            scan_end(s, i + 2, stop, escape)
        } else {
            s.len() as int
        }
    } else {
        scan_end(s, i + 1, stop, escape)
    }
}

/// The text such a scan produces, with escapes decoded when `escape` is set.
pub open spec fn scan_text(s: Seq<char>, i: int, stop: spec_fn(Seq<char>, int) -> bool, escape: bool) -> Seq<char>
    decreases s.len() - i,
{
    if i < 0 || i >= s.len() {
        Seq::empty()
    } else if stop(s, i) {
        Seq::empty()
    } else if escape && s[i] == '\\' {
        if i + 1 < s.len() {
            seq![escape_char(s[i + 1])] + scan_text(s, i + 2, stop, escape)
        } else {
            seq!['\\']
        }
    } else {
        seq![s[i]] + scan_text(s, i + 1, stop, escape)
    }
}

/// The end of the run of characters satisfying `pred` that starts at `i`.
pub open spec fn run_end(s: Seq<char>, i: int, pred: spec_fn(char) -> bool) -> int
    decreases s.len() - i,
{
    if 0 <= i && i < s.len() && pred(s[i]) {
        run_end(s, i + 1, pred)
    } else {
        i
    }
}

pub open spec fn ws_pred() -> spec_fn(char) -> bool {
    |c: char| is_ws_char(c)
}

pub open spec fn digit_pred() -> spec_fn(char) -> bool {
    |c: char| is_digit_char(c)
}

pub open spec fn hex_pred() -> spec_fn(char) -> bool {
    |c: char| is_hex_char(c)
}

pub open spec fn oct_pred() -> spec_fn(char) -> bool {
    |c: char| is_oct_char(c)
}

pub open spec fn bin_pred() -> spec_fn(char) -> bool {
    |c: char| is_bin_char(c)
}

pub open spec fn ident_pred() -> spec_fn(char) -> bool {
    |c: char| is_ident_char(c)
}

// ---------------------------------------------------------------------------
// Trimming
// ---------------------------------------------------------------------------

/// `t` with leading white space removed.
pub open spec fn trim_start_seq(t: Seq<char>) -> Seq<char>
    decreases t.len(),
{
    if t.len() > 0 && is_ws_char(t[0]) {
        trim_start_seq(t.subrange(1, t.len() as int))
    } else {
        t
    }
}

/// `t` with trailing white space removed.
pub open spec fn trim_end_seq(t: Seq<char>) -> Seq<char>
    decreases t.len(),
{
    if t.len() > 0 && is_ws_char(t[t.len() - 1]) {
        trim_end_seq(t.subrange(0, t.len() - 1))
    } else {
        t
    }
}

/// `t` with white space removed at both ends.
pub open spec fn trim_seq(t: Seq<char>) -> Seq<char> {
    trim_end_seq(trim_start_seq(t))
}

pub open spec fn not_nl_pred() -> spec_fn(char) -> bool {
    |c: char| c != '\n'
}

/// The margin strip of a multi-line string, starting at `p`: each line loses
/// a trailing carriage return and its leading white space, and every line is
/// terminated with a single newline.
pub open spec fn dedent_from(s: Seq<char>, p: int) -> Seq<char>
    decreases s.len() - p,
    via dedent_from_decreases
{
    if p < 0 || p >= s.len() {
        Seq::empty()
    } else {
        let e = run_end(s, p, not_nl_pred());
        let line = s.subrange(p, e);
        let body = if line.len() > 0 && line[line.len() - 1] == '\r' {
            line.subrange(0, line.len() - 1)
        } else {
            line
        };
        if e >= s.len() {
            trim_start_seq(body) + seq!['\n']
        } else {
            trim_start_seq(body) + seq!['\n'] + dedent_from(s, e + 1)
        }
    }
}

#[via_fn]
proof fn dedent_from_decreases(s: Seq<char>, p: int) {
    if 0 <= p < s.len() {
        lemma_run_end_bounds(s, p, not_nl_pred());
    }
}

// ---------------------------------------------------------------------------
// Pattern matching for literals, flags and identifiers
// ---------------------------------------------------------------------------

/// The word `w` occurs in `s` at position `i`.
pub open spec fn kw_at(s: Seq<char>, i: int, w: Seq<char>) -> bool {
    0 <= i && i + w.len() <= s.len() && (forall|k: int| 0 <= k < w.len() ==> s[i + k] == w[k])
}

/// An identifier-continuation character stands at `j`, so that a keyword
/// ending just before `j` is really part of a longer identifier.
pub open spec fn cont_after(s: Seq<char>, j: int) -> bool {
    0 <= j < s.len() && is_ident_char(s[j])
}

/// A `null`/`nil`/`void` literal at `i`; yields its end position.
pub open spec fn match_null(s: Seq<char>, i: int) -> Option<int> {
    if kw_at(s, i, seq!['n', 'u', 'l', 'l']) && !cont_after(s, i + 4) {
        Some(i + 4)
    } else if kw_at(s, i, seq!['n', 'i', 'l']) && !cont_after(s, i + 3) {
        Some(i + 3)
    } else if kw_at(s, i, seq!['v', 'o', 'i', 'd']) && !cont_after(s, i + 4) {
        Some(i + 4)
    } else {
        None
    }
}

/// A boolean literal at `i`: `true`/`false` with either capitalisation, or
/// the sign-digit forms `1b` (true) and `0b` (false); yields the value and
/// the end position.
pub open spec fn match_bool(s: Seq<char>, i: int) -> Option<(bool, int)> {
    if kw_at(s, i, seq!['t', 'r', 'u', 'e']) && !cont_after(s, i + 4) {
        Some((true, i + 4))
    } else if kw_at(s, i, seq!['T', 'r', 'u', 'e']) && !cont_after(s, i + 4) {
        Some((true, i + 4))
    } else if kw_at(s, i, seq!['f', 'a', 'l', 's', 'e']) && !cont_after(s, i + 5) {
        Some((false, i + 5))
    } else if kw_at(s, i, seq!['F', 'a', 'l', 's', 'e']) && !cont_after(s, i + 5) {
        Some((false, i + 5))
    } else if kw_at(s, i, seq!['1', 'b']) && !cont_after(s, i + 2) {
        Some((true, i + 2))
    } else if kw_at(s, i, seq!['0', 'b']) && !cont_after(s, i + 2) {
        Some((false, i + 2))
    } else {
        None
    }
}

/// A radix literal at `i`: a sign digit (`0` positive, `1` negative), the
/// radix marker, and at least one magnitude digit; yields the sign, the
/// digit range, and the end position.
pub open spec fn match_radix(
    s: Seq<char>,
    i: int,
    marker: char,
    digit: spec_fn(char) -> bool,
) -> Option<(bool, int, int)> {
    if 0 <= i && i + 2 <= s.len() && (s[i] == '0' || s[i] == '1') && s[i + 1] == marker {
        let e = run_end(s, i + 2, digit);
        if e > i + 2 {
            Some((s[i] == '1', i + 2, e))
        } else {
            None
        }
    } else {
        None
    }
}

/// The numeric value of a magnitude digit (decimal digits and the lower-case
/// hexadecimal letters).
pub open spec fn digit_val(c: char) -> int {
    let u = c as u32;
    if 0x61 <= u {
        u - 0x61 + 10
    } else {
        u - 0x30
    }
}

/// The value of a digit string read in the given base, most significant
/// digit first.
pub open spec fn radix_val(ds: Seq<char>, base: int) -> int
    decreases ds.len(),
{
    if ds.len() == 0 {
        0
    } else {
        radix_val(ds.subrange(0, ds.len() - 1), base) * base + digit_val(ds[ds.len() - 1])
    }
}

/// A decimal float literal `-?digits.digits` at `i`; yields its end.
pub open spec fn match_float(s: Seq<char>, i: int) -> Option<int> {
    if 0 <= i && i < s.len() {
        let d0 = if s[i] == '-' {
            i + 1
        } else {
            i
        };
        let e1 = run_end(s, d0, digit_pred());
        if e1 > d0 && e1 < s.len() && s[e1] == '.' {
            let e2 = run_end(s, e1 + 1, digit_pred());
            if e2 > e1 + 1 {
                Some(e2)
            } else {
                None
            }
        } else {
            None
        }
    } else {
        None
    }
}

/// A decimal integer literal `-?digits` at `i`; yields its end.
pub open spec fn match_int(s: Seq<char>, i: int) -> Option<int> {
    if 0 <= i && i < s.len() {
        let d0 = if s[i] == '-' {
            i + 1
        } else {
            i
        };
        let e = run_end(s, d0, digit_pred());
        if e > d0 {
            Some(e)
        } else {
            None
        }
    } else {
        None
    }
}

/// A flag `-name` at `i`; yields its end.  The name excludes the dash.
pub open spec fn match_flag(s: Seq<char>, i: int) -> Option<int> {
    if 0 <= i && i < s.len() && s[i] == '-' {
        let e = run_end(s, i + 1, ident_pred());
        if e > i + 1 {
            Some(e)
        } else {
            None
        }
    } else {
        None
    }
}

/// An identifier at `i`; yields its end.
pub open spec fn match_ident(s: Seq<char>, i: int) -> Option<int> {
    if 0 <= i && i < s.len() && is_ident_start_char(s[i]) {
        Some(run_end(s, i + 1, ident_pred()))
    } else {
        None
    }
}

/// The integer token for a matched literal of magnitude `m`: the signed
/// value when it fits an `i64`, otherwise the lexically invalid token (the
/// magnitude has no representation, and the parse must fail closed).
pub open spec fn int_lexeme(i: int, neg: bool, m: int, e: int) -> (Lexeme, int) {
    if m <= i64::MAX {
        (
            Lexeme::Int {
                val: if neg {
                    -m
                } else {
                    m
                },
                start: i,
                end: e,
            },
            e,
        )
    } else {
        (Lexeme::Invalid { at: i }, i)
    }
}

/// The integer token of a decimal literal.  Unlike a radix literal, whose
/// magnitude must itself fit an `i64`, a negative decimal literal may name
/// the least `i64`, whose magnitude is one past `i64::MAX`.
pub open spec fn dec_lexeme(i: int, neg: bool, m: int, e: int) -> (Lexeme, int) {
    if neg && m <= i64::MAX + 1 {
        (Lexeme::Int { val: -m, start: i, end: e }, e)
    } else if !neg && m <= i64::MAX {
        (Lexeme::Int { val: m, start: i, end: e }, e)
    } else {
        (Lexeme::Invalid { at: i }, i)
    }
}

pub open spec fn symbol_set() -> Seq<char> {
    seq!['=', '{', '}', '[', ']']
}

// ---------------------------------------------------------------------------
// The token grammar
// ---------------------------------------------------------------------------

/// The token that starts at cursor position `at`, together with the cursor
/// position after it.  This is the whole tokenization rule of Fennec: white
/// space is skipped, then the first matching alternative below wins.
pub open spec fn next_tok(s: Seq<char>, at: int) -> (Lexeme, int) {
    let i = run_end(s, at, ws_pred());
    if i >= s.len() {
        (Lexeme::Eof, s.len() as int)
    } else if is_symbol_char(s[i]) {
        (Lexeme::Symbol { sym: s[i], start: i, end: i + 1 }, i + 1)
    } else if s[i] == '#' {
        let e = scan_end(s, i + 1, stop_set(seq!['\n']), false);
        (
            Lexeme::Comment {
                text: trim_seq(scan_text(s, i + 1, stop_set(seq!['\n']), false)),
                start: i,
                end: e,
            },
            e,
        )
    } else if s[i] == ':' {
        let e = scan_end(s, i + 1, stop_set(symbol_set()), false);
        (
            Lexeme::Type {
                text: trim_seq(scan_text(s, i + 1, stop_set(symbol_set()), false)),
                start: i,
                end: e,
            },
            e,
        )
    } else if kw_at(s, i, seq!['-', '"', '"', '"']) {
        let e = triple_close(s, scan_end(s, i + 4, stop_triple(), true));
        (
            Lexeme::Text {
                text: trim_seq(dedent_from(scan_text(s, i + 4, stop_triple(), true), 0)),
                start: i,
                end: e,
            },
            e,
        )
    } else if kw_at(s, i, seq!['"', '"', '"']) {
        let e = triple_close(s, scan_end(s, i + 3, stop_triple(), true));
        (
            Lexeme::Text {
                text: trim_seq(scan_text(s, i + 3, stop_triple(), true)),
                start: i,
                end: e,
            },
            e,
        )
    } else if s[i] == '"' {
        let e0 = scan_end(s, i + 1, stop_set(seq!['"']), true);
        let e = if e0 < s.len() {
            e0 + 1
        } else {
            s.len() as int
        };
        (Lexeme::Text { text: scan_text(s, i + 1, stop_set(seq!['"']), true), start: i, end: e }, e)
    } else {
        match match_null(s, i) {
            Some(e) => (Lexeme::Null { start: i, end: e }, e),
            None => match match_bool(s, i) {
                Some((v, e)) => (Lexeme::Bool { val: v, start: i, end: e }, e),
                None => match match_radix(s, i, 'x', hex_pred()) {
                    Some((neg, d0, e)) => int_lexeme(i, neg, radix_val(s.subrange(d0, e), 16), e),
                    None => match match_radix(s, i, 'o', oct_pred()) {
                        Some((neg, d0, e)) => int_lexeme(
                            i,
                            neg,
                            radix_val(s.subrange(d0, e), 8),
                            e,
                        ),
                        None => match match_radix(s, i, 'b', bin_pred()) {
                            Some((neg, d0, e)) => int_lexeme(
                                i,
                                neg,
                                radix_val(s.subrange(d0, e), 2),
                                e,
                            ),
                            None => match match_float(s, i) {
                                Some(e) => (
                                    Lexeme::Float { text: s.subrange(i, e), start: i, end: e },
                                    e,
                                ),
                                None => match match_int(s, i) {
                                    Some(e) => dec_lexeme(
                                        i,
                                        s[i] == '-',
                                        radix_val(
                                            s.subrange(
                                                if s[i] == '-' {
                                                    i + 1
                                                } else {
                                                    i
                                                },
                                                e,
                                            ),
                                            10,
                                        ),
                                        e,
                                    ),
                                    None => match match_flag(s, i) {
                                        Some(e) => (
                                            Lexeme::Flag {
                                                name: s.subrange(i + 1, e),
                                                start: i,
                                                end: e,
                                            },
                                            e,
                                        ),
                                        None => match match_ident(s, i) {
                                            Some(e) => (
                                                Lexeme::Identifier {
                                                    name: s.subrange(i, e),
                                                    start: i,
                                                    end: e,
                                                },
                                                e,
                                            ),
                                            None => (Lexeme::Invalid { at: i }, i),
                                        },
                                    },
                                },
                            },
                        },
                    },
                },
            },
        }
    }
}

// ---------------------------------------------------------------------------
// Bounds of the scanning functions
// ---------------------------------------------------------------------------

/// A character run neither moves the cursor backwards nor past the end, all
/// characters inside the run satisfy the predicate, and the run is maximal.
pub proof fn lemma_run_end_bounds(s: Seq<char>, i: int, pred: spec_fn(char) -> bool)
    requires
        0 <= i <= s.len(),
    ensures
        i <= run_end(s, i, pred) <= s.len(),
        forall|k: int| i <= k < run_end(s, i, pred) ==> pred(s[k]),
        run_end(s, i, pred) < s.len() ==> !pred(s[run_end(s, i, pred)]),
    decreases s.len() - i,
{
    if i < s.len() && pred(s[i]) {
        lemma_run_end_bounds(s, i + 1, pred);
    }
}

/// A scan neither moves the cursor backwards nor past the end.
pub proof fn lemma_scan_end_bounds(
    s: Seq<char>,
    i: int,
    stop: spec_fn(Seq<char>, int) -> bool,
    escape: bool,
)
    requires
        0 <= i <= s.len(),
    ensures
        i <= scan_end(s, i, stop, escape) <= s.len(),
    decreases s.len() - i,
{
    if i < s.len() && !stop(s, i) {
        if escape && s[i] == '\\' {
            if i + 1 < s.len() {
                lemma_scan_end_bounds(s, i + 2, stop, escape);
            }
        } else {
            lemma_scan_end_bounds(s, i + 1, stop, escape);
        }
    }
}

// ---------------------------------------------------------------------------
// Tokens
// ---------------------------------------------------------------------------

/// A half-open span `[start, end)` of character offsets into the source.
#[derive(Debug, Clone, Copy, PartialEq, Eq, Structural)]
pub struct Position(pub usize, pub usize);

/// A lexer token.  `Text` carries the processed string contents, `Float` the
/// matched literal text, `Invalid` the offset of a character no rule matched.
#[derive(Debug, Clone)]
pub enum Token {
    Identifier(String, Position),
    Flag(String, Position),
    Symbol(char, Position),
    Type(String, Position),
    Comment(String, Position),
    Text(String, Position),
    Float(String, Position),
    Int(i64, Position),
    Bool(bool, Position),
    Null(Position),
    Invalid(usize),
    Eof,
}

/// The mathematical shadow of [`Token`]: the same variants over sequences and
/// unbounded integers, with the span written out as `start`/`end`.
pub enum Lexeme {
    Identifier { name: Seq<char>, start: int, end: int },
    Flag { name: Seq<char>, start: int, end: int },
    Symbol { sym: char, start: int, end: int },
    Type { text: Seq<char>, start: int, end: int },
    Comment { text: Seq<char>, start: int, end: int },
    Text { text: Seq<char>, start: int, end: int },
    Float { text: Seq<char>, start: int, end: int },
    Int { val: int, start: int, end: int },
    Bool { val: bool, start: int, end: int },
    Null { start: int, end: int },
    Invalid { at: int },
    Eof,
}

impl View for Token {
    type V = Lexeme;

    open spec fn view(&self) -> Lexeme {
        match self {
            Token::Identifier(n, p) => Lexeme::Identifier {
                name: n@,
                start: p.0 as int,
                end: p.1 as int,
            },
            Token::Flag(n, p) => Lexeme::Flag { name: n@, start: p.0 as int, end: p.1 as int },
            Token::Symbol(c, p) => Lexeme::Symbol { sym: *c, start: p.0 as int, end: p.1 as int },
            Token::Type(t, p) => Lexeme::Type { text: t@, start: p.0 as int, end: p.1 as int },
            Token::Comment(t, p) => Lexeme::Comment {
                text: t@,
                start: p.0 as int,
                end: p.1 as int,
            },
            Token::Text(t, p) => Lexeme::Text { text: t@, start: p.0 as int, end: p.1 as int },
            Token::Float(t, p) => Lexeme::Float { text: t@, start: p.0 as int, end: p.1 as int },
            Token::Int(v, p) => Lexeme::Int { val: *v as int, start: p.0 as int, end: p.1 as int },
            Token::Bool(v, p) => Lexeme::Bool { val: *v, start: p.0 as int, end: p.1 as int },
            Token::Null(p) => Lexeme::Null { start: p.0 as int, end: p.1 as int },
            Token::Invalid(o) => Lexeme::Invalid { at: *o as int },
            Token::Eof => Lexeme::Eof,
        }
    }
}

// ---------------------------------------------------------------------------
// The tokenizer
// ---------------------------------------------------------------------------

/// A cursor over an immutable character buffer.
#[derive(Clone)]
pub struct Tokenizer {
    pub chars: Vec<char>,
    pub index: usize,
}

impl Tokenizer {
    /// The cursor never runs past the end of the buffer.
    pub open spec fn wf(&self) -> bool {
        self.index <= self.chars.len()
    }

    pub fn new(doc: &str) -> (t: Self)
        ensures
            t.chars@ == doc@,
            t.index == 0,
            t.wf(),
    {
        let n = doc.unicode_len();
        let mut chars: Vec<char> = Vec::new();
        let mut i: usize = 0;
        while i < n
            invariant
                i <= n,
                n == doc@.len(),
                chars@ =~= doc@.subrange(0, i as int),
            decreases n - i,
        {
            chars.push(doc.get_char(i));
            i += 1;
        }
        proof {
            assert(chars@ =~= doc@);
        }
        Tokenizer { chars, index: 0 }
    }

    pub fn get_char(&self) -> (c: char)
        requires
            self.index < self.chars.len(),
        ensures
            c == self.chars@[self.index as int],
    {
        self.chars[self.index]
    }

    pub fn is_end(&self) -> (r: bool)
        ensures
            r == (self.index >= self.chars.len()),
    {
        self.index >= self.chars.len()
    }

    /// The remaining input, from the cursor to the end of the buffer.
    pub fn to_string(&self) -> (r: String)
        requires
            self.wf(),
        ensures
            r@ == self.chars@.subrange(self.index as int, self.chars@.len() as int),
    {
        let mut out: Vec<char> = Vec::new();
        let mut i: usize = self.index;
        while i < self.chars.len()
            invariant
                self.index <= i <= self.chars@.len(),
                out@ =~= self.chars@.subrange(self.index as int, i as int),
            decreases self.chars@.len() - i,
        {
            out.push(self.chars[i]);
            i += 1;
        }
        proof {
            assert(out@ =~= self.chars@.subrange(self.index as int, self.chars@.len() as int));
        }
        chars_to_string(&out)
    }

    pub fn get_escape_char(escape: char) -> (r: char)
        ensures
            r == escape_char(escape),
    {
        match escape {
            'n' => '\n',
            't' => '\t',
            'b' => 8 as char,
            'f' => 12 as char,
            'r' => '\r',
            _ => escape,
        }
    }

    /// Advance to the first character in `chars` (or the end of input),
    /// returning the text passed over.
    pub fn seek_to(&mut self, chars: Vec<char>) -> (r: String)
        requires
            old(self).wf(),
        ensures
            final(self).wf(),
            final(self).chars@ == old(self).chars@,
            r@ == scan_text(old(self).chars@, old(self).index as int, stop_set(chars@), false),
            final(self).index as int == scan_end(
                old(self).chars@,
                old(self).index as int,
                stop_set(chars@),
                false,
            ),
    {
        self.seek_to_esc(chars, false)
    }

    /// Advance to the first character in `chars` (or the end of input),
    /// returning the text passed over; with `escape` set, decode backslash
    /// escapes on the way, so that an escaped stop character does not stop
    /// the scan.
    pub fn seek_to_esc(&mut self, chars: Vec<char>, escape: bool) -> (r: String)
        requires
            old(self).wf(),
        ensures
            final(self).wf(),
            final(self).chars@ == old(self).chars@,
            r@ == scan_text(old(self).chars@, old(self).index as int, stop_set(chars@), escape),
            final(self).index as int == scan_end(
                old(self).chars@,
                old(self).index as int,
                stop_set(chars@),
                escape,
            ),
    {
        let out = self.seek_chars(&chars, escape);
        chars_to_string(&out)
    }

    /// The scanning loop behind [`Self::seek_to_esc`], producing the raw
    /// character buffer.
    fn seek_chars(&mut self, chars: &Vec<char>, escape: bool) -> (out: Vec<char>)
        requires
            old(self).wf(),
        ensures
            final(self).wf(),
            final(self).chars@ == old(self).chars@,
            out@ == scan_text(old(self).chars@, old(self).index as int, stop_set(chars@), escape),
            final(self).index as int == scan_end(
                old(self).chars@,
                old(self).index as int,
                stop_set(chars@),
                escape,
            ),
    {
        let ghost s = self.chars@;
        let ghost i0 = self.index as int;
        let mut out: Vec<char> = Vec::new();
        loop
            invariant
                self.wf(),
                self.chars@ == s,
                i0 <= self.index as int,
                scan_text(s, i0, stop_set(chars@), escape) == out@ + scan_text(
                    s,
                    self.index as int,
                    stop_set(chars@),
                    escape,
                ),
                scan_end(s, i0, stop_set(chars@), escape) == scan_end(
                    s,
                    self.index as int,
                    stop_set(chars@),
                    escape,
                ),
            ensures
                self.wf(),
                self.chars@ == s,
                out@ == scan_text(s, i0, stop_set(chars@), escape),
                self.index as int == scan_end(s, i0, stop_set(chars@), escape),
            decreases s.len() - self.index,
        {
            if self.index >= self.chars.len() {
                proof {
                    assert(out@ + scan_text(s, self.index as int, stop_set(chars@), escape)
                        =~= out@);
                }
                break;
            }
            let c = self.chars[self.index];
            if contains_char(chars, c) {
                proof {
                    assert(stop_set(chars@)(s, self.index as int));
                    assert(out@ + scan_text(s, self.index as int, stop_set(chars@), escape)
                        =~= out@);
                }
                break;
            }
            let ghost iold = self.index as int;
            proof {
                assert(!stop_set(chars@)(s, iold));
            }
            if escape && c == '\\' {
                if self.index + 1 < self.chars.len() {
                    out.push(Tokenizer::get_escape_char(self.chars[self.index + 1]));
                    self.index += 2;
                    proof {
                        assert(scan_text(s, iold, stop_set(chars@), escape) =~= seq![
                            escape_char(s[iold + 1]),
                        ] + scan_text(s, iold + 2, stop_set(chars@), escape));
                        assert(out@ + scan_text(s, self.index as int, stop_set(chars@), escape)
                            =~= out@.drop_last() + scan_text(s, iold, stop_set(chars@), escape));
                    }
                } else {
                    out.push('\\');
                    self.index = self.chars.len();
                    proof {
                        assert(scan_text(s, iold, stop_set(chars@), escape) =~= seq!['\\']);
                        assert(out@ + scan_text(s, self.index as int, stop_set(chars@), escape)
                            =~= out@.drop_last() + scan_text(s, iold, stop_set(chars@), escape));
                    }
                }
            } else {
                out.push(c);
                self.index += 1;
                proof {
                    assert(scan_text(s, iold, stop_set(chars@), escape) =~= seq![s[iold]]
                        + scan_text(s, iold + 1, stop_set(chars@), escape));
                    assert(out@ + scan_text(s, self.index as int, stop_set(chars@), escape)
                        =~= out@.drop_last() + scan_text(s, iold, stop_set(chars@), escape));
                }
            }
        }
        out
    }

    /// Consume the body of a triple-quoted string up to and over the closing
    /// `"""`, decoding backslash escapes, and return the raw body.
    pub fn to_triple_quote(&mut self) -> (r: String)
        requires
            old(self).wf(),
        ensures
            final(self).wf(),
            final(self).chars@ == old(self).chars@,
            r@ == scan_text(old(self).chars@, old(self).index as int, stop_triple(), true),
            final(self).index as int == triple_close(
                old(self).chars@,
                scan_end(old(self).chars@, old(self).index as int, stop_triple(), true),
            ),
    {
        let out = self.triple_chars();
        chars_to_string(&out)
    }

    /// The scanning loop behind [`Self::to_triple_quote`], producing the raw
    /// character buffer.
    fn triple_chars(&mut self) -> (out: Vec<char>)
        requires
            old(self).wf(),
        ensures
            final(self).wf(),
            final(self).chars@ == old(self).chars@,
            out@ == scan_text(old(self).chars@, old(self).index as int, stop_triple(), true),
            final(self).index as int == triple_close(
                old(self).chars@,
                scan_end(old(self).chars@, old(self).index as int, stop_triple(), true),
            ),
    {
        let ghost s = self.chars@;
        let ghost i0 = self.index as int;
        let mut out: Vec<char> = Vec::new();
        loop
            invariant
                self.wf(),
                self.chars@ == s,
                i0 <= self.index as int,
                scan_text(s, i0, stop_triple(), true) == out@ + scan_text(
                    s,
                    self.index as int,
                    stop_triple(),
                    true,
                ),
                scan_end(s, i0, stop_triple(), true) == scan_end(
                    s,
                    self.index as int,
                    stop_triple(),
                    true,
                ),
            ensures
                self.wf(),
                self.chars@ == s,
                out@ == scan_text(s, i0, stop_triple(), true),
                self.index as int == scan_end(s, i0, stop_triple(), true),
            decreases s.len() - self.index,
        {
            if self.index >= self.chars.len() {
                proof {
                    assert(out@ + scan_text(s, self.index as int, stop_triple(), true) =~= out@);
                }
                break;
            }
            if self.chars.len() - self.index >= 3 && self.chars[self.index] == '"'
                && self.chars[self.index + 1] == '"' && self.chars[self.index + 2] == '"' {
                proof {
                    assert(stop_triple()(s, self.index as int));
                    assert(out@ + scan_text(s, self.index as int, stop_triple(), true) =~= out@);
                }
                break;
            }
            let ghost iold = self.index as int;
            proof {
                assert(!stop_triple()(s, iold));
            }
            let c = self.chars[self.index];
            if c == '\\' {
                if self.index + 1 < self.chars.len() {
                    out.push(Tokenizer::get_escape_char(self.chars[self.index + 1]));
                    self.index += 2;
                    proof {
                        assert(scan_text(s, iold, stop_triple(), true) =~= seq![
                            escape_char(s[iold + 1]),
                        ] + scan_text(s, iold + 2, stop_triple(), true));
                        assert(out@ + scan_text(s, self.index as int, stop_triple(), true)
                            =~= out@.drop_last() + scan_text(s, iold, stop_triple(), true));
                    }
                } else {
                    out.push('\\');
                    self.index = self.chars.len();
                    proof {
                        assert(scan_text(s, iold, stop_triple(), true) =~= seq!['\\']);
                        assert(out@ + scan_text(s, self.index as int, stop_triple(), true)
                            =~= out@.drop_last() + scan_text(s, iold, stop_triple(), true));
                    }
                }
            } else {
                out.push(c);
                self.index += 1;
                proof {
                    assert(scan_text(s, iold, stop_triple(), true) =~= seq![s[iold]] + scan_text(
                        s,
                        iold + 1,
                        stop_triple(),
                        true,
                    ));
                    assert(out@ + scan_text(s, self.index as int, stop_triple(), true)
                        =~= out@.drop_last() + scan_text(s, iold, stop_triple(), true));
                }
            }
        }
        if self.chars.len() - self.index >= 3 {
            self.index += 3;
        } else {
            self.index = self.chars.len();
        }
        out
    }
}

/// The cursor position after stepping over the closing `"""` that a
/// triple-quote scan stopped at (clamped to the end of input when the
/// string was never closed).
pub open spec fn triple_close(s: Seq<char>, e: int) -> int {
    if e + 3 <= s.len() {
        e + 3
    } else {
        s.len() as int
    }
}

/// The character classes the lexer takes maximal runs of.
#[derive(Clone, Copy)]
pub enum CharClass {
    Ws,
    Digit,
    Hex,
    Oct,
    Bin,
    Ident,
    NotNl,
}

pub open spec fn class_spec(cc: CharClass) -> spec_fn(char) -> bool {
    match cc {
        CharClass::Ws => ws_pred(),
        CharClass::Digit => digit_pred(),
        CharClass::Hex => hex_pred(),
        CharClass::Oct => oct_pred(),
        CharClass::Bin => bin_pred(),
        CharClass::Ident => ident_pred(),
        CharClass::NotNl => not_nl_pred(),
    }
}

fn class_test(cc: CharClass, c: char) -> (r: bool)
    ensures
        r == class_spec(cc)(c),
{
    match cc {
        CharClass::Ws => ws_char(c),
        CharClass::Digit => digit_char(c),
        CharClass::Hex => hex_char(c),
        CharClass::Oct => oct_char(c),
        CharClass::Bin => bin_char(c),
        CharClass::Ident => ident_char(c),
        CharClass::NotNl => c != '\n',
    }
}

/// The end of the maximal run of characters of class `cc` starting at `from`.
fn run_while(v: &Vec<char>, from: usize, cc: CharClass) -> (r: usize)
    requires
        from <= v.len(),
    ensures
        r as int == run_end(v@, from as int, class_spec(cc)),
        from <= r <= v.len(),
{
    let mut i: usize = from;
    loop
        invariant
            from <= i <= v@.len(),
            run_end(v@, from as int, class_spec(cc)) == run_end(v@, i as int, class_spec(cc)),
        ensures
            i as int == run_end(v@, from as int, class_spec(cc)),
            from <= i <= v@.len(),
        decreases v@.len() - i,
    {
        if i >= v.len() {
            break;
        }
        if !class_test(cc, v[i]) {
            break;
        }
        i += 1;
    }
    i
}

/// The word `w` occurs at position `i` of `v`.
fn kw_here(v: &Vec<char>, i: usize, w: &Vec<char>) -> (r: bool)
    requires
        i <= v.len(),
    ensures
        r == kw_at(v@, i as int, w@),
{
    if v.len() - i < w.len() {
        return false;
    }
    let n = v.len();
    let mut k: usize = 0;
    loop
        invariant
            k <= w@.len(),
            n == v@.len(),
            i + w@.len() <= v@.len(),
            forall|j: int| 0 <= j < k ==> v@[i + j] == w@[j],
        ensures
            k == w@.len(),
            forall|j: int| 0 <= j < w@.len() ==> v@[i + j] == w@[j],
        decreases w@.len() - k,
    {
        if k >= w.len() {
            break;
        }
        proof {
            assert(i + k < v@.len());
        }
        if v[i + k] != w[k] {
            proof {
                assert(!kw_at(v@, i as int, w@)) by {
                    assert(v@[i + k] != w@[k as int]);
                }
            }
            return false;
        }
        k += 1;
    }
    true
}

/// An identifier-continuation character stands at `j`.
fn cont_at(v: &Vec<char>, j: usize) -> (r: bool)
    ensures
        r == cont_after(v@, j as int),
{
    j < v.len() && ident_char(v[j])
}

/// The characters of `v` in the half-open range `[from, to)`.
fn slice_chars(v: &Vec<char>, from: usize, to: usize) -> (r: Vec<char>)
    requires
        from <= to <= v.len(),
    ensures
        r@ == v@.subrange(from as int, to as int),
{
    let mut out: Vec<char> = Vec::new();
    let mut k: usize = from;
    while k < to
        invariant
            from <= k <= to <= v@.len(),
            out@ =~= v@.subrange(from as int, k as int),
        decreases to - k,
    {
        out.push(v[k]);
        k += 1;
    }
    proof {
        assert(out@ =~= v@.subrange(from as int, to as int));
    }
    out
}

/// The first position in `[from, to)` that does not hold white space.
fn first_non_ws(v: &Vec<char>, from: usize, to: usize) -> (r: usize)
    requires
        from <= to <= v.len(),
    ensures
        from <= r <= to,
        forall|k: int| from <= k < r ==> is_ws_char(v@[k]),
        r < to ==> !is_ws_char(v@[r as int]),
{
    let mut i: usize = from;
    loop
        invariant
            from <= i <= to <= v@.len(),
            forall|k: int| from <= k < i ==> is_ws_char(v@[k]),
        ensures
            from <= i <= to,
            forall|k: int| from <= k < i ==> is_ws_char(v@[k]),
            i < to ==> !is_ws_char(v@[i as int]),
        decreases to - i,
    {
        if i >= to {
            break;
        }
        if !ws_char(v[i]) {
            break;
        }
        i += 1;
    }
    i
}

/// The position after the last non-white-space character in `[from, to)`,
/// or `from` when the whole range is white space.
fn after_last_non_ws(v: &Vec<char>, from: usize, to: usize) -> (r: usize)
    requires
        from <= to <= v.len(),
    ensures
        from <= r <= to,
        forall|k: int| r <= k < to ==> is_ws_char(v@[k]),
        r > from ==> !is_ws_char(v@[r - 1]),
{
    let mut i: usize = to;
    loop
        invariant
            from <= i <= to <= v@.len(),
            forall|k: int| i <= k < to ==> is_ws_char(v@[k]),
        ensures
            from <= i <= to,
            forall|k: int| i <= k < to ==> is_ws_char(v@[k]),
            i > from ==> !is_ws_char(v@[i - 1]),
        decreases i,
    {
        if i <= from {
            break;
        }
        if !ws_char(v[i - 1]) {
            break;
        }
        i -= 1;
    }
    i
}

/// Removing leading white space is taking the suffix that starts at the
/// first non-white-space position.
proof fn lemma_trim_start_range(t: Seq<char>, a: int)
    requires
        0 <= a <= t.len(),
        forall|k: int| 0 <= k < a ==> is_ws_char(t[k]),
        a < t.len() ==> !is_ws_char(t[a]),
    ensures
        trim_start_seq(t) == t.subrange(a, t.len() as int),
    decreases a,
{
    if a == 0 {
        assert(t.subrange(0, t.len() as int) =~= t);
    } else {
        let t2 = t.subrange(1, t.len() as int);
        lemma_trim_start_range(t2, a - 1);
        assert(t2.subrange(a - 1, t2.len() as int) =~= t.subrange(a, t.len() as int));
    }
}

/// Removing trailing white space is taking the prefix that ends after the
/// last non-white-space position.
proof fn lemma_trim_end_range(t: Seq<char>, b: int)
    requires
        0 <= b <= t.len(),
        forall|k: int| b <= k < t.len() ==> is_ws_char(t[k]),
        b > 0 ==> !is_ws_char(t[b - 1]),
    ensures
        trim_end_seq(t) == t.subrange(0, b),
    decreases t.len() - b,
{
    if b == t.len() {
        assert(t.subrange(0, t.len() as int) =~= t);
    } else {
        let t2 = t.subrange(0, t.len() - 1);
        lemma_trim_end_range(t2, b);
        assert(t2.subrange(0, b) =~= t.subrange(0, b));
    }
}

/// `v` with white space removed at both ends.
fn trim_chars(v: &Vec<char>) -> (r: Vec<char>)
    ensures
        r@ == trim_seq(v@),
{
    let a = first_non_ws(v, 0, v.len());
    let b = after_last_non_ws(v, a, v.len());
    let out = slice_chars(v, a, b);
    proof {
        lemma_trim_start_range(v@, a as int);
        let t = v@.subrange(a as int, v@.len() as int);
        lemma_trim_end_range(t, b - a);
        assert(t.subrange(0, b - a) =~= v@.subrange(a as int, b as int));
    }
    out
}

/// The margin strip of [`dedent_from`], executably.
fn dedent_chars(v: &Vec<char>) -> (r: Vec<char>)
    ensures
        r@ == dedent_from(v@, 0),
{
    let mut out: Vec<char> = Vec::new();
    let mut p: usize = 0;
    loop
        invariant
            p <= v@.len(),
            dedent_from(v@, 0) == out@ + dedent_from(v@, p as int),
        ensures
            out@ == dedent_from(v@, 0),
        decreases v@.len() - p,
    {
        if p >= v.len() {
            proof {
                assert(out@ + dedent_from(v@, p as int) =~= out@);
            }
            break;
        }
        let ghost pold = p as int;
        let e = run_while(v, p, CharClass::NotNl);
        let le = if e > p && v[e - 1] == '\r' {
            e - 1
        } else {
            e
        };
        let a = first_non_ws(v, p, le);
        let ghost outold = out@;
        let mut k: usize = a;
        while k < le
            invariant
                a <= k <= le <= v@.len(),
                out@ =~= outold + v@.subrange(a as int, k as int),
            decreases le - k,
        {
            out.push(v[k]);
            k += 1;
        }
        out.push('\n');
        if e >= v.len() {
            p = v.len();
        } else {
            p = e + 1;
        }
        proof {
            let line = v@.subrange(pold, e as int);
            let body = if line.len() > 0 && line[line.len() - 1] == '\r' {
                line.subrange(0, line.len() - 1)
            } else {
                line
            };
            assert(body =~= v@.subrange(pold, le as int));
            lemma_trim_start_range(body, a - pold);
            assert(body.subrange(a - pold, body.len() as int) =~= v@.subrange(
                a as int,
                le as int,
            ));
            assert(out@ =~= outold + (trim_start_seq(body) + seq!['\n']));
            if e >= v.len() {
                assert(dedent_from(v@, pold) == trim_start_seq(body) + seq!['\n']);
                assert(out@ + dedent_from(v@, p as int) =~= outold + dedent_from(v@, pold));
            } else {
                assert(dedent_from(v@, pold) == trim_start_seq(body) + seq!['\n'] + dedent_from(
                    v@,
                    e + 1,
                ));
                assert(out@ + dedent_from(v@, p as int) =~= outold + dedent_from(v@, pold));
            }
        }
    }
    out
}

/// The numeric value of a magnitude digit.
fn digit_value(c: char) -> (r: u64)
    requires
        0 <= digit_val(c) < 16,
    ensures
        r as int == digit_val(c),
{
    let u = c as u32;
    if u >= 0x61 {
        (u - 0x61 + 10) as u64
    } else {
        (u - 0x30) as u64
    }
}

/// A digit string read in a base at least one is at least as large as any of
/// its prefixes.
proof fn lemma_radix_prefix(ds: Seq<char>, j: int, base: int)
    requires
        0 <= j <= ds.len(),
        base >= 1,
        forall|k: int| 0 <= k < ds.len() ==> digit_val(ds[k]) >= 0,
    ensures
        radix_val(ds, base) >= radix_val(ds.subrange(0, j), base) >= 0,
    decreases ds.len() - j,
{
    lemma_radix_nonneg(ds.subrange(0, j), base);
    if j == ds.len() {
        assert(ds.subrange(0, j) =~= ds);
    } else {
        lemma_radix_prefix(ds, j + 1, base);
        let p1 = ds.subrange(0, j + 1);
        let p0 = ds.subrange(0, j);
        assert(p1.subrange(0, j) =~= p0);
        assert(radix_val(p1, base) == radix_val(p0, base) * base + digit_val(p1[j]));
        lemma_radix_nonneg(p0, base);
        assert(radix_val(p0, base) * base >= radix_val(p0, base)) by (nonlinear_arith)
            requires
                radix_val(p0, base) >= 0,
                base >= 1,
        ;
        assert(digit_val(ds[j]) >= 0);
    }
}

/// A digit string of non-negative digits has a non-negative value.
proof fn lemma_radix_nonneg(ds: Seq<char>, base: int)
    requires
        base >= 1,
        forall|k: int| 0 <= k < ds.len() ==> digit_val(ds[k]) >= 0,
    ensures
        radix_val(ds, base) >= 0,
    decreases ds.len(),
{
    if ds.len() > 0 {
        let p = ds.subrange(0, ds.len() - 1);
        lemma_radix_nonneg(p, base);
        assert(radix_val(p, base) * base >= 0) by (nonlinear_arith)
            requires
                radix_val(p, base) >= 0,
                base >= 1,
        ;
    }
}

/// The value of the digit range `[d0, e)` of `v` in the given base, when it
/// is at most `cap`; `None` means the value really is larger than `cap`.
fn digits_value(v: &Vec<char>, d0: usize, e: usize, base: u64, cap: u64) -> (r: Option<u64>)
    requires
        d0 <= e <= v.len(),
        2 <= base <= 16,
        forall|k: int| d0 <= k < e ==> 0 <= #[trigger] digit_val(v@[k]) < base,
    ensures
        match r {
            Some(x) => x <= cap && x as int == radix_val(v@.subrange(d0 as int, e as int), base as int),
            None => radix_val(v@.subrange(d0 as int, e as int), base as int) > cap,
        },
{
    let ghost ds = v@.subrange(d0 as int, e as int);
    let mut acc: u64 = 0;
    let mut k: usize = d0;
    loop
        invariant
            d0 <= k <= e <= v@.len(),
            2 <= base <= 16,
            forall|j: int| d0 <= j < e ==> 0 <= #[trigger] digit_val(v@[j]) < base,
            ds == v@.subrange(d0 as int, e as int),
            acc <= cap,
            acc as int == radix_val(ds.subrange(0, k - d0), base as int),
        ensures
            k == e,
            acc <= cap,
            acc as int == radix_val(ds, base as int),
        decreases e - k,
    {
        if k >= e {
            proof {
                assert(ds.subrange(0, e - d0) =~= ds);
            }
            break;
        }
        let d = digit_value(v[k]);
        let ghost accold = acc as int;
        let m = acc.checked_mul(base);
        let step = match m {
            Some(x) => x.checked_add(d),
            None => None,
        };
        proof {
            let p1 = ds.subrange(0, k - d0 + 1);
            assert(p1.subrange(0, k - d0) =~= ds.subrange(0, k - d0));
            assert(p1[k - d0] == v@[k as int]);
            assert(radix_val(p1, base as int) == accold * (base as int) + digit_val(v@[k as int]));
        }
        match step {
            Some(x) => {
                if x > cap {
                    proof {
                        lemma_radix_prefix(ds, k - d0 + 1, base as int);
                    }
                    return None;
                }
                acc = x;
            },
            None => {
                proof {
                    let p1 = ds.subrange(0, k - d0 + 1);
                    assert(radix_val(p1, base as int) > u64::MAX) by (nonlinear_arith)
                        requires
                            radix_val(p1, base as int) == accold * (base as int) + digit_val(
                                v@[k as int],
                            ),
                            accold * (base as int) > u64::MAX || accold * (base as int) + digit_val(
                                v@[k as int],
                            ) > u64::MAX,
                            digit_val(v@[k as int]) >= 0,
                            accold >= 0,
                            base >= 2,
                    ;
                    lemma_radix_prefix(ds, k - d0 + 1, base as int);
                }
                return None;
            },
        }
        k += 1;
    }
    Some(acc)
}

pub fn contains_char(cs: &Vec<char>, c: char) -> (r: bool)
    ensures
        r == cs@.contains(c),
{
    let mut i: usize = 0;
    while i < cs.len()
        invariant
            i <= cs@.len(),
            forall|k: int| 0 <= k < i ==> cs@[k] != c,
        decreases cs@.len() - i,
    {
        if cs[i] == c {
            return true;
        }
        i += 1;
    }
    false
}

/// Relies on `String`'s `FromIterator<char>` impl: collecting characters
/// yields the string made of exactly those characters, in order.
#[verifier::external_body]
pub(crate) fn chars_to_string(v: &Vec<char>) -> (r: String)
    ensures
        r@ == v@,
{
    v.iter().collect()
}

fn word1(a: char) -> (r: Vec<char>)
    ensures
        r@ == seq![a],
{
    let mut v: Vec<char> = Vec::new();
    v.push(a);
    proof {
        assert(v@ =~= seq![a]);
    }
    v
}

fn word2(a: char, b: char) -> (r: Vec<char>)
    ensures
        r@ == seq![a, b],
{
    let mut v: Vec<char> = Vec::new();
    v.push(a);
    v.push(b);
    proof {
        assert(v@ =~= seq![a, b]);
    }
    v
}

fn word3(a: char, b: char, c: char) -> (r: Vec<char>)
    ensures
        r@ == seq![a, b, c],
{
    let mut v = word2(a, b);
    v.push(c);
    proof {
        assert(v@ =~= seq![a, b, c]);
    }
    v
}

fn word4(a: char, b: char, c: char, d: char) -> (r: Vec<char>)
    ensures
        r@ == seq![a, b, c, d],
{
    let mut v = word3(a, b, c);
    v.push(d);
    proof {
        assert(v@ =~= seq![a, b, c, d]);
    }
    v
}

fn word5(a: char, b: char, c: char, d: char, e: char) -> (r: Vec<char>)
    ensures
        r@ == seq![a, b, c, d, e],
{
    let mut v = word4(a, b, c, d);
    v.push(e);
    proof {
        assert(v@ =~= seq![a, b, c, d, e]);
    }
    v
}

// ---------------------------------------------------------------------------
// Cursor movement of the token grammar
// ---------------------------------------------------------------------------

/// The cursor never moves backwards or past the end; every token but `Eof`
/// and `Invalid` consumes at least one character.
pub proof fn lemma_next_tok_bounds(s: Seq<char>, at: int)
    requires
        0 <= at <= s.len(),
    ensures
        at <= next_tok(s, at).1 <= s.len(),
        !(next_tok(s, at).0 is Eof) && !(next_tok(s, at).0 is Invalid) ==> next_tok(s, at).1 > at,
        next_tok(s, at).0 matches Lexeme::Identifier { start, .. } ==> at <= start <= s.len(),
        next_tok(s, at).0 matches Lexeme::Flag { start, .. } ==> at <= start <= s.len(),
        next_tok(s, at).0 matches Lexeme::Text { start, .. } ==> at <= start <= s.len(),
{
    lemma_run_end_bounds(s, at, ws_pred());
    let i = run_end(s, at, ws_pred());
    if i < s.len() {
        if is_symbol_char(s[i]) {
        } else if s[i] == '#' {
            lemma_scan_end_bounds(s, i + 1, stop_set(seq!['\n']), false);
        } else if s[i] == ':' {
            lemma_scan_end_bounds(s, i + 1, stop_set(symbol_set()), false);
        } else if kw_at(s, i, seq!['-', '"', '"', '"']) {
            lemma_scan_end_bounds(s, i + 4, stop_triple(), true);
        } else if kw_at(s, i, seq!['"', '"', '"']) {
            lemma_scan_end_bounds(s, i + 3, stop_triple(), true);
        } else if s[i] == '"' {
            lemma_scan_end_bounds(s, i + 1, stop_set(seq!['"']), true);
        } else {
            if match_float(s, i) is Some || match_int(s, i) is Some {
                let d0 = if s[i] == '-' {
                    i + 1
                } else {
                    i
                };
                lemma_run_end_bounds(s, d0, digit_pred());
                if match_float(s, i) is Some {
                    let e1 = run_end(s, d0, digit_pred());
                    lemma_run_end_bounds(s, e1 + 1, digit_pred());
                }
            }
            if i + 2 <= s.len() {
                lemma_run_end_bounds(s, i + 2, hex_pred());
                lemma_run_end_bounds(s, i + 2, oct_pred());
                lemma_run_end_bounds(s, i + 2, bin_pred());
            }
            if i + 1 <= s.len() {
                lemma_run_end_bounds(s, i + 1, ident_pred());
            }
        }
    }
}

/// The first grammar-significant token at or after `at`: comments and type
/// annotations are passed over.
pub open spec fn next_sig(s: Seq<char>, at: int) -> (Lexeme, int)
    decreases s.len() - at,
        when 0 <= at <= s.len()
        via next_sig_decreases
{
    let (t, j) = next_tok(s, at);
    match t {
        Lexeme::Comment { .. } => next_sig(s, j),
        Lexeme::Type { .. } => next_sig(s, j),
        _ => (t, j),
    }
}

#[via_fn]
proof fn next_sig_decreases(s: Seq<char>, at: int) {
    lemma_next_tok_bounds(s, at);
}

impl Tokenizer {
    /// Lex one raw token at the cursor, exactly as [`next_tok`] describes.
    #[verifier::rlimit(100)]
    pub fn next_token(&mut self) -> (t: Token)
        requires
            old(self).wf(),
        ensures
            final(self).wf(),
            final(self).chars@ == old(self).chars@,
            t@ == next_tok(old(self).chars@, old(self).index as int).0,
            final(self).index as int == next_tok(old(self).chars@, old(self).index as int).1,
    {
        let ghost s = self.chars@;
        let ghost at = self.index as int;
        let i = run_while(&self.chars, self.index, CharClass::Ws);
        if i >= self.chars.len() {
            self.index = self.chars.len();
            return Token::Eof;
        }
        let c = self.chars[i];
        if symbol_char(c) {
            self.index = i + 1;
            return Token::Symbol(c, Position(i, i + 1));
        }
        if c == '#' {
            self.index = i + 1;
            let raw = self.seek_chars(&word1('\n'), false);
            let text = trim_chars(&raw);
            let end = self.index;
            return Token::Comment(chars_to_string(&text), Position(i, end));
        }
        if c == ':' {
            self.index = i + 1;
            let raw = self.seek_chars(&word5('=', '{', '}', '[', ']'), false);
            let text = trim_chars(&raw);
            let end = self.index;
            return Token::Type(chars_to_string(&text), Position(i, end));
        }
        if kw_here(&self.chars, i, &word4('-', '"', '"', '"')) {
            self.index = i + 4;
            let raw = self.triple_chars();
            let ded = dedent_chars(&raw);
            let text = trim_chars(&ded);
            let end = self.index;
            return Token::Text(chars_to_string(&text), Position(i, end));
        }
        if kw_here(&self.chars, i, &word3('"', '"', '"')) {
            self.index = i + 3;
            let raw = self.triple_chars();
            let text = trim_chars(&raw);
            let end = self.index;
            return Token::Text(chars_to_string(&text), Position(i, end));
        }
        if c == '"' {
            self.index = i + 1;
            let raw = self.seek_chars(&word1('"'), true);
            if self.index < self.chars.len() {
                self.index += 1;
            }
            let end = self.index;
            return Token::Text(chars_to_string(&raw), Position(i, end));
        }
        // keyword literals
        if kw_here(&self.chars, i, &word4('n', 'u', 'l', 'l')) && !cont_at(&self.chars, i + 4) {
            self.index = i + 4;
            return Token::Null(Position(i, i + 4));
        }
        if kw_here(&self.chars, i, &word3('n', 'i', 'l')) && !cont_at(&self.chars, i + 3) {
            self.index = i + 3;
            return Token::Null(Position(i, i + 3));
        }
        if kw_here(&self.chars, i, &word4('v', 'o', 'i', 'd')) && !cont_at(&self.chars, i + 4) {
            self.index = i + 4;
            return Token::Null(Position(i, i + 4));
        }
        if kw_here(&self.chars, i, &word4('t', 'r', 'u', 'e')) && !cont_at(&self.chars, i + 4) {
            self.index = i + 4;
            return Token::Bool(true, Position(i, i + 4));
        }
        if kw_here(&self.chars, i, &word4('T', 'r', 'u', 'e')) && !cont_at(&self.chars, i + 4) {
            self.index = i + 4;
            return Token::Bool(true, Position(i, i + 4));
        }
        if kw_here(&self.chars, i, &word5('f', 'a', 'l', 's', 'e')) && !cont_at(&self.chars, i + 5)
            {
            self.index = i + 5;
            return Token::Bool(false, Position(i, i + 5));
        }
        if kw_here(&self.chars, i, &word5('F', 'a', 'l', 's', 'e')) && !cont_at(&self.chars, i + 5)
            {
            self.index = i + 5;
            return Token::Bool(false, Position(i, i + 5));
        }
        if kw_here(&self.chars, i, &word2('1', 'b')) && !cont_at(&self.chars, i + 2) {
            self.index = i + 2;
            return Token::Bool(true, Position(i, i + 2));
        }
        if kw_here(&self.chars, i, &word2('0', 'b')) && !cont_at(&self.chars, i + 2) {
            self.index = i + 2;
            return Token::Bool(false, Position(i, i + 2));
        }
        // radix literals
        if self.chars.len() - i >= 2 && (c == '0' || c == '1') && self.chars[i + 1] == 'x' {
            let e = run_while(&self.chars, i + 2, CharClass::Hex);
            if e > i + 2 {
                proof {
                    lemma_run_end_bounds(s, i + 2, hex_pred());
                    assert forall|k: int| i + 2 <= k < e implies 0 <= #[trigger] digit_val(s[k])
                        < 16 by {
                        assert(hex_pred()(s[k]));
                        assert(is_hex_char(s[k]));
                    }
                }
                return self.radix_token(i, i + 2, e, 16, c == '1');
            }
        }
        if self.chars.len() - i >= 2 && (c == '0' || c == '1') && self.chars[i + 1] == 'o' {
            let e = run_while(&self.chars, i + 2, CharClass::Oct);
            if e > i + 2 {
                proof {
                    lemma_run_end_bounds(s, i + 2, oct_pred());
                    assert forall|k: int| i + 2 <= k < e implies 0 <= #[trigger] digit_val(s[k])
                        < 8 by {
                        assert(oct_pred()(s[k]));
                        assert(is_oct_char(s[k]));
                    }
                }
                return self.radix_token(i, i + 2, e, 8, c == '1');
            }
        }
        if self.chars.len() - i >= 2 && (c == '0' || c == '1') && self.chars[i + 1] == 'b' {
            let e = run_while(&self.chars, i + 2, CharClass::Bin);
            if e > i + 2 {
                proof {
                    lemma_run_end_bounds(s, i + 2, bin_pred());
                    assert forall|k: int| i + 2 <= k < e implies 0 <= #[trigger] digit_val(s[k])
                        < 2 by {
                        assert(bin_pred()(s[k]));
                        assert(is_bin_char(s[k]));
                    }
                }
                return self.radix_token(i, i + 2, e, 2, c == '1');
            }
        }
        // decimal literals
        let d0 = if c == '-' {
            i + 1
        } else {
            i
        };
        let e1 = run_while(&self.chars, d0, CharClass::Digit);
        if e1 > d0 && e1 < self.chars.len() && self.chars[e1] == '.' {
            let e2 = run_while(&self.chars, e1 + 1, CharClass::Digit);
            if e2 > e1 + 1 {
                let text = slice_chars(&self.chars, i, e2);
                self.index = e2;
                return Token::Float(chars_to_string(&text), Position(i, e2));
            }
        }
        if e1 > d0 {
            proof {
                lemma_run_end_bounds(s, d0 as int, digit_pred());
                assert forall|k: int| d0 <= k < e1 implies 0 <= #[trigger] digit_val(s[k])
                    < 10 by {
                    assert(digit_pred()(s[k]));
                    assert(is_digit_char(s[k]));
                }
            }
            return self.dec_token(i, d0, e1, c == '-');
        }
        // flags
        if c == '-' {
            let e = run_while(&self.chars, i + 1, CharClass::Ident);
            if e > i + 1 {
                let name = slice_chars(&self.chars, i + 1, e);
                self.index = e;
                return Token::Flag(chars_to_string(&name), Position(i, e));
            }
        }
        // identifiers
        if ident_start_char(c) {
            let e = run_while(&self.chars, i + 1, CharClass::Ident);
            let name = slice_chars(&self.chars, i, e);
            self.index = e;
            return Token::Identifier(chars_to_string(&name), Position(i, e));
        }
        self.index = i;
        Token::Invalid(i)
    }

    /// Build the integer (or lexically invalid) token of a matched radix or
    /// decimal literal whose magnitude digits span `[d0, e)`.
    fn radix_token(&mut self, start: usize, d0: usize, e: usize, base: u64, neg: bool) -> (t: Token)
        requires
            old(self).wf(),
            start <= d0 <= e <= old(self).chars.len(),
            2 <= base <= 16,
            forall|k: int| d0 <= k < e ==> 0 <= #[trigger] digit_val(old(self).chars@[k]) < base,
        ensures
            final(self).wf(),
            final(self).chars@ == old(self).chars@,
            ({
                let m = radix_val(old(self).chars@.subrange(d0 as int, e as int), base as int);
                (t@, final(self).index as int) == int_lexeme(start as int, neg, m, e as int)
            }),
    {
        match digits_value(&self.chars, d0, e, base, 9223372036854775807u64) {
            Some(m) => {
                let val: i64 = if neg {
                    -(m as i64)
                } else {
                    m as i64
                };
                self.index = e;
                Token::Int(val, Position(start, e))
            },
            None => {
                self.index = start;
                Token::Invalid(start)
            },
        }
    }

    /// Build the integer (or lexically invalid) token of a matched decimal
    /// literal whose magnitude digits span `[d0, e)`.
    fn dec_token(&mut self, start: usize, d0: usize, e: usize, neg: bool) -> (t: Token)
        requires
            old(self).wf(),
            start <= d0 <= e <= old(self).chars.len(),
            forall|k: int| d0 <= k < e ==> 0 <= #[trigger] digit_val(old(self).chars@[k]) < 10,
        ensures
            final(self).wf(),
            final(self).chars@ == old(self).chars@,
            ({
                let m = radix_val(old(self).chars@.subrange(d0 as int, e as int), 10);
                (t@, final(self).index as int) == dec_lexeme(start as int, neg, m, e as int)
            }),
    {
        let cap: u64 = if neg {
            9223372036854775808u64
        } else {
            9223372036854775807u64
        };
        match digits_value(&self.chars, d0, e, 10, cap) {
            Some(m) => {
                let val: i64 = if neg {
                    if m == 9223372036854775808u64 {
                        i64::MIN
                    } else {
                        -(m as i64)
                    }
                } else {
                    m as i64
                };
                self.index = e;
                Token::Int(val, Position(start, e))
            },
            None => {
                self.index = start;
                Token::Invalid(start)
            },
        }
    }

    /// Lex the next grammar-significant token, discarding comments and type
    /// annotations, exactly as [`next_sig`] describes.
    pub fn next(&mut self) -> (t: Token)
        requires
            old(self).wf(),
        ensures
            final(self).wf(),
            final(self).chars@ == old(self).chars@,
            t@ == next_sig(old(self).chars@, old(self).index as int).0,
            final(self).index as int == next_sig(old(self).chars@, old(self).index as int).1,
    {
        let ghost s = self.chars@;
        let ghost at0 = self.index as int;
        loop
            invariant
                self.wf(),
                self.chars@ == s,
                s == old(self).chars@,
                at0 == old(self).index as int,
                next_sig(s, at0) == next_sig(s, self.index as int),
                0 <= at0 <= s.len(),
            decreases s.len() - self.index,
        {
            let ghost cur = self.index as int;
            proof {
                lemma_next_tok_bounds(s, cur);
            }
            let t = self.next_token();
            let keep = match &t {
                Token::Comment(_, _) => false,
                Token::Type(_, _) => false,
                _ => true,
            };
            if keep {
                proof {
                    assert(!(t@ is Comment) && !(t@ is Type));
                    assert(next_sig(s, cur) == (t@, self.index as int));
                }
                return t;
            }
            proof {
                assert((t@ is Comment) || (t@ is Type));
                assert(next_sig(s, cur) == next_sig(s, self.index as int));
            }
        }
    }
}

/// The significant token also moves the cursor only forwards, and any
/// outcome but `Eof` and `Invalid` consumes input.
pub proof fn lemma_next_sig_bounds(s: Seq<char>, at: int)
    requires
        0 <= at <= s.len(),
    ensures
        at <= next_sig(s, at).1 <= s.len(),
        !(next_sig(s, at).0 is Eof) && !(next_sig(s, at).0 is Invalid) ==> next_sig(s, at).1 > at,
        !(next_sig(s, at).0 is Comment),
        !(next_sig(s, at).0 is Type),
        next_sig(s, at).0 matches Lexeme::Identifier { start, .. } ==> at <= start <= s.len(),
        next_sig(s, at).0 matches Lexeme::Flag { start, .. } ==> at <= start <= s.len(),
        next_sig(s, at).0 matches Lexeme::Text { start, .. } ==> at <= start <= s.len(),
    decreases s.len() - at,
{
    lemma_next_tok_bounds(s, at);
    let (t, j) = next_tok(s, at);
    match t {
        Lexeme::Comment { .. } => lemma_next_sig_bounds(s, j),
        Lexeme::Type { .. } => lemma_next_sig_bounds(s, j),
        _ => {},
    }
}

} // verus!
