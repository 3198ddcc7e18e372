//! Round-trip laws of the serializer and parser.
//!
//! Serializing a value and parsing the text back cannot restore every tree:
//! a string holding a quote or backslash is rendered without escaping it,
//! and an object key spelled like a keyword (`true`, `null`) is rendered
//! bare and re-read as a literal.  For the leaves below, though, the
//! round trip is exact, and [`lemma_roundtrip_leaf`] proves it.

use vstd::prelude::*;

use crate::parse::{p_root, p_value, prim_model};
use crate::serialize::{dec_digits, digit_char_of, int_text, render};
use crate::token::{
    cont_after, dec_lexeme, is_digit_char, is_symbol_char, is_ws_char, kw_at, match_bool,
    match_float, match_int, match_null, match_radix, next_sig, next_tok, radix_val, run_end,
    digit_pred, digit_val, ws_pred, Lexeme,
};
use crate::value::ValueModel;

verus! {

/// A decimal rendering is never empty and holds decimal digits only.
proof fn lemma_dec_digits_shape(m: int)
    requires
        m >= 0,
    ensures
        dec_digits(m).len() >= 1,
        forall|k: int| 0 <= k < dec_digits(m).len() ==> is_digit_char(#[trigger] dec_digits(m)[k]),
    decreases m,
{
    if m < 10 {
        assert(is_digit_char(digit_char_of(m)));
    } else {
        lemma_dec_digits_shape(m / 10);
        assert(is_digit_char(digit_char_of(m % 10)));
    }
}

/// Reading a decimal rendering back as base-ten digits restores the number.
proof fn lemma_radix_of_dec(m: int)
    requires
        m >= 0,
    ensures
        radix_val(dec_digits(m), 10) == m,
    decreases m,
{
    if m < 10 {
        let ds = dec_digits(m);
        assert(ds.subrange(0, 0) =~= Seq::<char>::empty());
        assert(radix_val(Seq::<char>::empty(), 10) == 0);
        assert(ds[ds.len() - 1] == digit_char_of(m));
        assert(digit_val(digit_char_of(m)) == m);
    } else {
        lemma_radix_of_dec(m / 10);
        let ds = dec_digits(m);
        assert(ds.subrange(0, ds.len() - 1) =~= dec_digits(m / 10));
        assert(ds[ds.len() - 1] == digit_char_of(m % 10));
        assert(digit_val(digit_char_of(m % 10)) == m % 10);
        assert(m / 10 * 10 + m % 10 == m);
    }
}

/// A run over characters that all satisfy the predicate reaches the end.
proof fn lemma_run_full(s: Seq<char>, i: int, pred: spec_fn(char) -> bool)
    requires
        0 <= i <= s.len(),
        forall|k: int| i <= k < s.len() ==> pred(s[k]),
    ensures
        run_end(s, i, pred) == s.len(),
    decreases s.len() - i,
{
    if i < s.len() {
        lemma_run_full(s, i + 1, pred);
    }
}

/// The text of an integer leaf lexes back to the one integer token.
proof fn lemma_int_text_lexes(n: int)
    requires
        i64::MIN <= n <= i64::MAX,
    ensures
        ({
            let s = int_text(n);
            next_tok(s, 0) == (Lexeme::Int { val: n, start: 0, end: s.len() as int }, s.len() as int)
        }),
{
    let s = int_text(n);
    let m = if n < 0 {
        -n
    } else {
        n
    };
    lemma_dec_digits_shape(m);
    lemma_radix_of_dec(m);
    let ds = dec_digits(m);
    let d0: int = if n < 0 {
        1
    } else {
        0
    };
    assert(s.len() == d0 + ds.len());
    assert forall|k: int| d0 <= k < s.len() implies is_digit_char(s[k]) by {
        assert(s[k] == ds[k - d0]);
    }
    if n < 0 {
        assert(s[0] == '-');
    } else {
        assert(is_digit_char(s[0]));
    }
    // leading character: not white space, not structural
    assert(!is_ws_char(s[0]));
    assert(!is_symbol_char(s[0]));
    assert(s[0] != '#' && s[0] != ':' && s[0] != '"');
    assert(run_end(s, 0, ws_pred()) == 0) by {
        assert(!ws_pred()(s[0]));
    }
    // no string opener: a quote would have to stand at position 0 or 1
    assert(!kw_at(s, 0, seq!['-', '"', '"', '"'])) by {
        if 4 <= s.len() {
            assert(is_digit_char(s[1]));
            assert(s[1int] != seq!['-', '"', '"', '"'][1]);
        }
    }
    assert(!kw_at(s, 0, seq!['"', '"', '"'])) by {
        if 3 <= s.len() {
            assert(s[0int] != seq!['"', '"', '"'][0]);
        }
    }
    // no keyword literal: the first character is a dash or a digit
    assert(s[0] != 'n' && s[0] != 'v' && s[0] != 't' && s[0] != 'T' && s[0] != 'f' && s[0] != 'F');
    assert(!kw_at(s, 0, seq!['n', 'u', 'l', 'l'])) by {
        if 4 <= s.len() {
            assert(s[0int] != seq!['n', 'u', 'l', 'l'][0]);
        }
    }
    assert(!kw_at(s, 0, seq!['n', 'i', 'l'])) by {
        if 3 <= s.len() {
            assert(s[0int] != seq!['n', 'i', 'l'][0]);
        }
    }
    assert(!kw_at(s, 0, seq!['v', 'o', 'i', 'd'])) by {
        if 4 <= s.len() {
            assert(s[0int] != seq!['v', 'o', 'i', 'd'][0]);
        }
    }
    assert(!kw_at(s, 0, seq!['t', 'r', 'u', 'e'])) by {
        if 4 <= s.len() {
            assert(s[0int] != seq!['t', 'r', 'u', 'e'][0]);
        }
    }
    assert(!kw_at(s, 0, seq!['T', 'r', 'u', 'e'])) by {
        if 4 <= s.len() {
            assert(s[0int] != seq!['T', 'r', 'u', 'e'][0]);
        }
    }
    assert(!kw_at(s, 0, seq!['f', 'a', 'l', 's', 'e'])) by {
        if 5 <= s.len() {
            assert(s[0int] != seq!['f', 'a', 'l', 's', 'e'][0]);
        }
    }
    assert(!kw_at(s, 0, seq!['F', 'a', 'l', 's', 'e'])) by {
        if 5 <= s.len() {
            assert(s[0int] != seq!['F', 'a', 'l', 's', 'e'][0]);
        }
    }
    // the sign-digit forms 1b/0b need a letter in second position
    assert(!kw_at(s, 0, seq!['1', 'b'])) by {
        if 2 <= s.len() {
            assert(is_digit_char(s[1]));
            assert(s[1int] != seq!['1', 'b'][1]);
        }
    }
    assert(!kw_at(s, 0, seq!['0', 'b'])) by {
        if 2 <= s.len() {
            assert(is_digit_char(s[1]));
            assert(s[1int] != seq!['0', 'b'][1]);
        }
    }
    assert(match_null(s, 0) is None);
    assert(match_bool(s, 0) is None);
    // radix literals need a radix marker in second position
    assert(match_radix(s, 0, 'x', crate::token::hex_pred()) is None) by {
        if 2 <= s.len() {
            assert(is_digit_char(s[1]) || s[1] == '-');
            assert(s[1] != 'x');
        }
    }
    assert(match_radix(s, 0, 'o', crate::token::oct_pred()) is None) by {
        if 2 <= s.len() {
            assert(s[1] != 'o');
        }
    }
    assert(match_radix(s, 0, 'b', crate::token::bin_pred()) is None) by {
        if 2 <= s.len() {
            assert(s[1] != 'b');
        }
    }
    // the digit run covers the whole text, so there is no float dot
    assert(run_end(s, d0, digit_pred()) == s.len()) by {
        assert forall|k: int| d0 <= k < s.len() implies digit_pred()(s[k]) by {
            assert(is_digit_char(s[k]));
        }
        lemma_run_full(s, d0, digit_pred());
    }
    assert((s[0] == '-') == (n < 0));
    assert(match_float(s, 0) is None);
    assert(match_int(s, 0) == Some(s.len() as int));
    assert(s.subrange(d0, s.len() as int) =~= ds);
    assert(radix_val(s.subrange(d0, s.len() as int), 10) == m);
    assert(dec_lexeme(0, n < 0, m, s.len() as int) == (
        Lexeme::Int { val: n, start: 0, end: s.len() as int },
        s.len() as int,
    ));
}

/// The text of a well-formed float literal lexes back to the one float
/// token carrying that text.
proof fn lemma_float_text_lexes(s: Seq<char>)
    requires
        match_float(s, 0) == Some(s.len() as int),
    ensures
        next_tok(s, 0) == (
            Lexeme::Float { text: s, start: 0, end: s.len() as int },
            s.len() as int,
        ),
{
    let d0: int = if s[0] == '-' {
        1
    } else {
        0
    };
    let e1 = run_end(s, d0, digit_pred());
    crate::token::lemma_run_end_bounds(s, d0, digit_pred());
    assert(e1 > d0 && e1 < s.len() && s[e1] == '.');
    if s[0] != '-' {
        assert(digit_pred()(s[0]));
        assert(is_digit_char(s[0]));
    }
    // the second character is a digit or the dot
    assert(s.len() >= 2);
    if d0 == 1 {
        assert(digit_pred()(s[1]));
        assert(is_digit_char(s[1]));
    } else if e1 > 1 {
        assert(digit_pred()(s[1]));
        assert(is_digit_char(s[1]));
    } else {
        assert(s[1] == '.');
    }
    assert(!is_ws_char(s[0]));
    assert(!is_symbol_char(s[0]));
    assert(s[0] != '#' && s[0] != ':' && s[0] != '"');
    assert(run_end(s, 0, ws_pred()) == 0) by {
        assert(!ws_pred()(s[0]));
    }
    assert(!kw_at(s, 0, seq!['-', '"', '"', '"'])) by {
        if 4 <= s.len() {
            assert(s[1int] != seq!['-', '"', '"', '"'][1]);
        }
    }
    assert(!kw_at(s, 0, seq!['"', '"', '"'])) by {
        assert(s[0int] != seq!['"', '"', '"'][0]);
    }
    assert(s[0] != 'n' && s[0] != 'v' && s[0] != 't' && s[0] != 'T' && s[0] != 'f' && s[0] != 'F');
    assert(!kw_at(s, 0, seq!['n', 'u', 'l', 'l'])) by {
        assert(s[0int] != seq!['n', 'u', 'l', 'l'][0]);
    }
    assert(!kw_at(s, 0, seq!['n', 'i', 'l'])) by {
        assert(s[0int] != seq!['n', 'i', 'l'][0]);
    }
    assert(!kw_at(s, 0, seq!['v', 'o', 'i', 'd'])) by {
        assert(s[0int] != seq!['v', 'o', 'i', 'd'][0]);
    }
    assert(!kw_at(s, 0, seq!['t', 'r', 'u', 'e'])) by {
        assert(s[0int] != seq!['t', 'r', 'u', 'e'][0]);
    }
    assert(!kw_at(s, 0, seq!['T', 'r', 'u', 'e'])) by {
        assert(s[0int] != seq!['T', 'r', 'u', 'e'][0]);
    }
    assert(!kw_at(s, 0, seq!['f', 'a', 'l', 's', 'e'])) by {
        assert(s[0int] != seq!['f', 'a', 'l', 's', 'e'][0]);
    }
    assert(!kw_at(s, 0, seq!['F', 'a', 'l', 's', 'e'])) by {
        assert(s[0int] != seq!['F', 'a', 'l', 's', 'e'][0]);
    }
    assert(!kw_at(s, 0, seq!['1', 'b'])) by {
        assert(s[1int] != seq!['1', 'b'][1]);
    }
    assert(!kw_at(s, 0, seq!['0', 'b'])) by {
        assert(s[1int] != seq!['0', 'b'][1]);
    }
    assert(match_null(s, 0) is None);
    assert(match_bool(s, 0) is None);
    assert(match_radix(s, 0, 'x', crate::token::hex_pred()) is None) by {
        assert(s[1] != 'x');
    }
    assert(match_radix(s, 0, 'o', crate::token::oct_pred()) is None) by {
        assert(s[1] != 'o');
    }
    assert(match_radix(s, 0, 'b', crate::token::bin_pred()) is None) by {
        assert(s[1] != 'b');
    }
    assert(s.subrange(0, s.len() as int) =~= s);
}

/// Parsing the canonical text of a primitive leaf yields the leaf back: on
/// integers, booleans, null, and floats holding a well-formed literal,
/// serialization round-trips exactly.
pub proof fn lemma_roundtrip_leaf(v: ValueModel)
    requires
        v is Bool || v is Null || (v matches ValueModel::Int(n) && i64::MIN <= n <= i64::MAX) || (
        v matches ValueModel::Float(t) && match_float(t, 0) == Some(t.len() as int)),
    ensures
        crate::spec_parse(render(v, 0, true)) == Ok::<ValueModel, Lexeme>(v),
{
    let s = render(v, 0, true);
    match v {
        ValueModel::Null => {
            assert(s =~= seq!['n', 'u', 'l', 'l']);
            lemma_word_token(s);
            assert(next_tok(s, 0) == (Lexeme::Null { start: 0, end: 4 }, 4int));
        },
        ValueModel::Bool(b) => {
            if b {
                assert(s =~= seq!['t', 'r', 'u', 'e']);
                lemma_word_token(s);
                assert(next_tok(s, 0) == (Lexeme::Bool { val: true, start: 0, end: 4 }, 4int));
            } else {
                assert(s =~= seq!['f', 'a', 'l', 's', 'e']);
                lemma_word_token(s);
                assert(next_tok(s, 0) == (Lexeme::Bool { val: false, start: 0, end: 5 }, 5int));
            }
        },
        ValueModel::Int(n) => {
            assert(s == int_text(n));
            lemma_int_text_lexes(n);
        },
        ValueModel::Float(t) => {
            assert(s == t);
            lemma_float_text_lexes(t);
        },
        _ => {},
    }
    let (t, j) = next_tok(s, 0);
    assert(next_sig(s, 0) == (t, j));
    assert(p_root(s, 0) == p_value(s, t, j));
    assert(prim_model(t) == Some(v));
}

/// The three keyword texts lex to their keyword token: helper facts shared
/// by the cases of [`lemma_roundtrip_leaf`].
proof fn lemma_word_token(s: Seq<char>)
    requires
        s =~= seq!['n', 'u', 'l', 'l'] || s =~= seq!['t', 'r', 'u', 'e'] || s =~= seq![
            'f',
            'a',
            'l',
            's',
            'e',
        ],
    ensures
        s =~= seq!['n', 'u', 'l', 'l'] ==> next_tok(s, 0) == (
            Lexeme::Null { start: 0, end: 4 },
            4int,
        ),
        s =~= seq!['t', 'r', 'u', 'e'] ==> next_tok(s, 0) == (
            Lexeme::Bool { val: true, start: 0, end: 4 },
            4int,
        ),
        s =~= seq!['f', 'a', 'l', 's', 'e'] ==> next_tok(s, 0) == (
            Lexeme::Bool { val: false, start: 0, end: 5 },
            5int,
        ),
{
    assert(!is_ws_char(s[0]));
    assert(run_end(s, 0, ws_pred()) == 0) by {
        assert(!ws_pred()(s[0]));
    }
    assert(!is_symbol_char(s[0]));
    assert(s[0] != '#' && s[0] != ':' && s[0] != '"' && s[0] != '-');
    assert(!kw_at(s, 0, seq!['-', '"', '"', '"'])) by {
        assert(s[0int] != seq!['-', '"', '"', '"'][0]);
    }
    assert(!kw_at(s, 0, seq!['"', '"', '"'])) by {
        assert(s[0int] != seq!['"', '"', '"'][0]);
    }
    if s =~= seq!['n', 'u', 'l', 'l'] {
        assert(kw_at(s, 0, seq!['n', 'u', 'l', 'l'])) by {
            assert forall|k: int| 0 <= k < 4 implies s[k] == seq!['n', 'u', 'l', 'l'][k] by {}
        }
        assert(!cont_after(s, 4));
        assert(match_null(s, 0) == Some(4int));
    } else {
        assert(s[0] != 'n' && s[0] != 'v');
        assert(!kw_at(s, 0, seq!['n', 'u', 'l', 'l'])) by {
            assert(s[0int] != seq!['n', 'u', 'l', 'l'][0]);
        }
        assert(!kw_at(s, 0, seq!['n', 'i', 'l'])) by {
            assert(s[0int] != seq!['n', 'i', 'l'][0]);
        }
        assert(!kw_at(s, 0, seq!['v', 'o', 'i', 'd'])) by {
            assert(s[0int] != seq!['v', 'o', 'i', 'd'][0]);
        }
        assert(match_null(s, 0) is None);
        if s =~= seq!['t', 'r', 'u', 'e'] {
            assert(kw_at(s, 0, seq!['t', 'r', 'u', 'e'])) by {
                assert forall|k: int| 0 <= k < 4 implies s[k] == seq!['t', 'r', 'u', 'e'][k]
                    by {}
            }
            assert(!cont_after(s, 4));
            assert(match_bool(s, 0) == Some((true, 4int)));
        } else {
            assert(s[0] == 'f');
            assert(!kw_at(s, 0, seq!['t', 'r', 'u', 'e'])) by {
                assert(s[0int] != seq!['t', 'r', 'u', 'e'][0]);
            }
            assert(!kw_at(s, 0, seq!['T', 'r', 'u', 'e'])) by {
                assert(s[0int] != seq!['T', 'r', 'u', 'e'][0]);
            }
            assert(!kw_at(s, 0, seq!['F', 'a', 'l', 's', 'e'])) by {
                assert(s[0int] != seq!['F', 'a', 'l', 's', 'e'][0]);
            }
            assert(!kw_at(s, 0, seq!['1', 'b'])) by {
                assert(s[0int] != seq!['1', 'b'][0]);
            }
            assert(!kw_at(s, 0, seq!['0', 'b'])) by {
                assert(s[0int] != seq!['0', 'b'][0]);
            }
            assert(kw_at(s, 0, seq!['f', 'a', 'l', 's', 'e'])) by {
                assert forall|k: int| 0 <= k < 5 implies s[k] == seq![
                    'f',
                    'a',
                    'l',
                    's',
                    'e',
                ][k] by {}
            }
            assert(!cont_after(s, 5));
            assert(match_bool(s, 0) == Some((false, 5int)));
        }
    }
}

} // verus!
