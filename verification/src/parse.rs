//! The Fennec parser.
//!
//! [`Parser`] pulls tokens from a [`Tokenizer`] and builds one
//! [`FennecType`] tree by recursive descent, or stops at the first token the
//! grammar forbids.  The grammar itself is the family of spec functions
//! [`p_root`], [`p_object`], [`p_entry`], [`p_array`] and [`p_value`]; each
//! executable method is proved to return exactly what they describe.

use vstd::prelude::*;

use crate::token::{next_sig, lemma_next_sig_bounds, Lexeme, Token, Tokenizer};
use crate::value::{
    entries_model, items_model, upsert, value_model, obj_insert, FennecType, ValueModel,
};

verus! {

/// The parse error: some token appeared where the grammar forbids it.  The
/// offending token (possibly `Eof` or a lexically invalid one) is carried
/// for diagnostics.
#[derive(Debug)]
pub enum ParseError {
    UnexpectedToken(Token),
}

impl View for ParseError {
    type V = Lexeme;

    open spec fn view(&self) -> Lexeme {
        match self {
            ParseError::UnexpectedToken(t) => t@,
        }
    }
}

/// The value a primitive token stands for, if it is one.
pub open spec fn prim_model(t: Lexeme) -> Option<ValueModel> {
    match t {
        Lexeme::Text { text, .. } => Some(ValueModel::Text(text)),
        Lexeme::Float { text, .. } => Some(ValueModel::Float(text)),
        Lexeme::Int { val, .. } => Some(ValueModel::Int(val)),
        Lexeme::Bool { val, .. } => Some(ValueModel::Bool(val)),
        Lexeme::Null { .. } => Some(ValueModel::Null),
        _ => None,
    }
}

/// Clamp the position a sub-parse came back with into the range the grammar
/// guarantees (see the parser range lemmas below: the clamp never fires; it only
/// makes termination of the definitions evident).
pub open spec fn bump(s: Seq<char>, lo: int, m: int) -> int {
    if lo <= m && m <= s.len() {
        m
    } else {
        lo
    }
}

/// One standalone value: a primitive token stands for itself, `{` opens an
/// object, `[` opens an array, anything else is an error.  `at` is the
/// cursor position just after `t`.
pub open spec fn p_value(s: Seq<char>, t: Lexeme, at: int) -> Result<(ValueModel, int), Lexeme>
    decreases s.len() - at, 1int,
        when 0 <= at <= s.len()
        via p_value_dec
{
    match prim_model(t) {
        Some(v) => Ok((v, at)),
        None => match t {
            Lexeme::Symbol { sym, .. } => {
                if sym == '{' {
                    p_object(s, at, false, Seq::empty())
                } else if sym == '[' {
                    p_array(s, at, Seq::empty())
                } else {
                    Err(t)
                }
            },
            _ => Err(t),
        },
    }
}

/// The rest of an object after a key named `name`: `= primitive`, an array,
/// or a nested object; yields the entry list with the binding added and the
/// position after the entry.
pub open spec fn p_entry(
    s: Seq<char>,
    at: int,
    acc: Seq<(Seq<char>, ValueModel)>,
    name: Seq<char>,
) -> Result<(Seq<(Seq<char>, ValueModel)>, int), Lexeme>
    decreases s.len() - at, 0int,
        when 0 <= at <= s.len()
        via p_entry_dec
{
    let (t2, k) = next_sig(s, at);
    match t2 {
        Lexeme::Symbol { sym, .. } => {
            if sym == '=' {
                let (t3, m) = next_sig(s, k);
                match prim_model(t3) {
                    Some(v) => Ok((upsert(acc, name, v), m)),
                    None => Err(t3),
                }
            } else if sym == '[' {
                match p_array(s, k, Seq::empty()) {
                    Ok((v, m)) => Ok((upsert(acc, name, v), bump(s, k, m))),
                    Err(e) => Err(e),
                }
            } else if sym == '{' {
                match p_object(s, k, false, Seq::empty()) {
                    Ok((v, m)) => Ok((upsert(acc, name, v), bump(s, k, m))),
                    Err(e) => Err(e),
                }
            } else {
                Err(t2)
            }
        },
        _ => Err(t2),
    }
}

/// An object body starting at `at` with the entries of `acc` already bound:
/// ends at `Eof` when `expect_eof` (a braceless top-level object), at `}`
/// otherwise; a flag binds its name to true; an identifier or string opens
/// an entry.  Later bindings of a key replace earlier ones.
pub open spec fn p_object(
    s: Seq<char>,
    at: int,
    expect_eof: bool,
    acc: Seq<(Seq<char>, ValueModel)>,
) -> Result<(ValueModel, int), Lexeme>
    decreases s.len() - at, 0int,
        when 0 <= at <= s.len()
        via p_object_dec
{
    let (t, j) = next_sig(s, at);
    match t {
        Lexeme::Eof => {
            if expect_eof {
                Ok((ValueModel::Object(acc), j))
            } else {
                Err(t)
            }
        },
        Lexeme::Symbol { sym, .. } => {
            if sym == '}' && !expect_eof {
                Ok((ValueModel::Object(acc), j))
            } else {
                Err(t)
            }
        },
        Lexeme::Flag { name, .. } => p_object(
            s,
            j,
            expect_eof,
            upsert(acc, name, ValueModel::Bool(true)),
        ),
        Lexeme::Identifier { name, .. } => match p_entry(s, j, acc, name) {
            Ok((acc2, m)) => p_object(s, bump(s, j, m), expect_eof, acc2),
            Err(e) => Err(e),
        },
        Lexeme::Text { text, .. } => match p_entry(s, j, acc, text) {
            Ok((acc2, m)) => p_object(s, bump(s, j, m), expect_eof, acc2),
            Err(e) => Err(e),
        },
        _ => Err(t),
    }
}

/// An array body starting at `at` with the values of `acc` already
/// collected: elements in encounter order until `]`.
pub open spec fn p_array(s: Seq<char>, at: int, acc: Seq<ValueModel>) -> Result<
    (ValueModel, int),
    Lexeme,
>
    decreases s.len() - at, 0int,
        when 0 <= at <= s.len()
        via p_array_dec
{
    let (t, j) = next_sig(s, at);
    match t {
        Lexeme::Symbol { sym, .. } => {
            if sym == ']' {
                Ok((ValueModel::Array(acc), j))
            } else {
                match p_value(s, t, j) {
                    Ok((v, m)) => p_array(s, bump(s, j, m), acc.push(v)),
                    Err(e) => Err(e),
                }
            }
        },
        Lexeme::Eof => Err(t),
        Lexeme::Invalid { .. } => Err(t),
        _ => match p_value(s, t, j) {
            Ok((v, m)) => p_array(s, bump(s, j, m), acc.push(v)),
            Err(e) => Err(e),
        },
    }
}

#[via_fn]
proof fn p_value_dec(s: Seq<char>, t: Lexeme, at: int) {
}

#[via_fn]
proof fn p_entry_dec(s: Seq<char>, at: int, acc: Seq<(Seq<char>, ValueModel)>, name: Seq<char>) {
    lemma_next_sig_bounds(s, at);
    let (t2, k) = next_sig(s, at);
    lemma_next_sig_bounds(s, k);
}

#[via_fn]
proof fn p_object_dec(s: Seq<char>, at: int, expect_eof: bool, acc: Seq<(Seq<char>, ValueModel)>) {
    lemma_next_sig_bounds(s, at);
}

#[via_fn]
proof fn p_array_dec(s: Seq<char>, at: int, acc: Seq<ValueModel>) {
    lemma_next_sig_bounds(s, at);
}

/// A whole document starting at `at`.  An identifier or flag first means a
/// braceless top-level object, re-read from the token's start.  A string
/// followed by end of input is a bare string document; a string followed by
/// anything else was an object key.  A symbol or non-string primitive first
/// parses as one standalone value (nothing checks that input ends after it:
/// trailing text after such a root is accepted and ignored).  Anything else
/// is an error.
pub open spec fn p_root(s: Seq<char>, at: int) -> Result<(ValueModel, int), Lexeme> {
    let (t, j) = next_sig(s, at);
    match t {
        Lexeme::Identifier { start, .. } => p_object(s, start, true, Seq::empty()),
        Lexeme::Flag { start, .. } => p_object(s, start, true, Seq::empty()),
        Lexeme::Text { text, start, .. } => {
            let (t2, k) = next_sig(s, j);
            if t2 is Eof {
                Ok((ValueModel::Text(text), k))
            } else {
                p_object(s, start, true, Seq::empty())
            }
        },
        Lexeme::Symbol { .. } => p_value(s, t, j),
        Lexeme::Float { .. } => p_value(s, t, j),
        Lexeme::Bool { .. } => p_value(s, t, j),
        Lexeme::Int { .. } => p_value(s, t, j),
        Lexeme::Null { .. } => p_value(s, t, j),
        _ => Err(t),
    }
}

/// Every sub-parse comes back with a cursor inside `[at, s.len()]`, so the
/// clamp in [`bump`] never fires.
pub proof fn lemma_parser_range_value(s: Seq<char>, t: Lexeme, at: int)
    requires
        0 <= at <= s.len(),
    ensures
        p_value(s, t, at) matches Ok((v, m)) ==> at <= m <= s.len(),
    decreases s.len() - at, 1int,
{
    if !(prim_model(t) is Some) {
        match t {
            Lexeme::Symbol { sym, .. } => {
                if sym == '{' {
                    lemma_parser_range_object(s, at, false, Seq::empty());
                } else if sym == '[' {
                    lemma_parser_range_array(s, at, Seq::empty());
                }
            },
            _ => {},
        }
    }
}

pub proof fn lemma_parser_range_entry(
    s: Seq<char>,
    at: int,
    acc: Seq<(Seq<char>, ValueModel)>,
    name: Seq<char>,
)
    requires
        0 <= at <= s.len(),
    ensures
        p_entry(s, at, acc, name) matches Ok((acc2, m)) ==> at <= m <= s.len(),
    decreases s.len() - at, 0int,
{
    lemma_next_sig_bounds(s, at);
    let (t2, k) = next_sig(s, at);
    match t2 {
        Lexeme::Symbol { sym, .. } => {
            if sym == '=' {
                lemma_next_sig_bounds(s, k);
            } else if sym == '[' {
                lemma_parser_range_array(s, k, Seq::empty());
            } else if sym == '{' {
                lemma_parser_range_object(s, k, false, Seq::empty());
            }
        },
        _ => {},
    }
}

pub proof fn lemma_parser_range_object(
    s: Seq<char>,
    at: int,
    expect_eof: bool,
    acc: Seq<(Seq<char>, ValueModel)>,
)
    requires
        0 <= at <= s.len(),
    ensures
        p_object(s, at, expect_eof, acc) matches Ok((v, m)) ==> at <= m <= s.len(),
    decreases s.len() - at, 0int,
{
    lemma_next_sig_bounds(s, at);
    let (t, j) = next_sig(s, at);
    match t {
        Lexeme::Flag { name, .. } => {
            lemma_parser_range_object(s, j, expect_eof, upsert(acc, name, ValueModel::Bool(true)));
        },
        Lexeme::Identifier { name, .. } => {
            lemma_parser_range_entry(s, j, acc, name);
            if let Ok((acc2, m)) = p_entry(s, j, acc, name) {
                lemma_parser_range_object(s, bump(s, j, m), expect_eof, acc2);
            }
        },
        Lexeme::Text { text, .. } => {
            lemma_parser_range_entry(s, j, acc, text);
            if let Ok((acc2, m)) = p_entry(s, j, acc, text) {
                lemma_parser_range_object(s, bump(s, j, m), expect_eof, acc2);
            }
        },
        _ => {},
    }
}

pub proof fn lemma_parser_range_array(s: Seq<char>, at: int, acc: Seq<ValueModel>)
    requires
        0 <= at <= s.len(),
    ensures
        p_array(s, at, acc) matches Ok((v, m)) ==> at <= m <= s.len(),
    decreases s.len() - at, 0int,
{
    lemma_next_sig_bounds(s, at);
    let (t, j) = next_sig(s, at);
    match t {
        Lexeme::Eof => {},
        Lexeme::Invalid { .. } => {},
        _ => {
            let is_close = t matches Lexeme::Symbol { sym, .. } && sym == ']';
            if !is_close {
                lemma_parser_range_value(s, t, j);
                if let Ok((v, m)) = p_value(s, t, j) {
                    lemma_parser_range_array(s, bump(s, j, m), acc.push(v));
                }
            }
        },
    }
}

// ---------------------------------------------------------------------------
// The executable parser
// ---------------------------------------------------------------------------

pub struct Parser {
    pub tokenizer: Tokenizer,
}

impl Parser {
    pub open spec fn wf(&self) -> bool {
        self.tokenizer.wf()
    }

    /// The character buffer being parsed.
    pub open spec fn src(&self) -> Seq<char> {
        self.tokenizer.chars@
    }

    /// The cursor position.
    pub open spec fn pos(&self) -> int {
        self.tokenizer.index as int
    }

    pub fn new(tokenizer: Tokenizer) -> (p: Self)
        ensures
            p.tokenizer == tokenizer,
    {
        Parser { tokenizer }
    }

    /// Parse a whole document, as [`p_root`] describes.
    pub fn parse_root(&mut self) -> (r: Result<FennecType, ParseError>)
        requires
            old(self).wf(),
        ensures
            final(self).wf(),
            final(self).src() == old(self).src(),
            ({
                let res = p_root(old(self).src(), old(self).pos());
                match r {
                    Ok(v) => res matches Ok((m, _)) && v@ == m,
                    Err(e) => res matches Err(l) && e@ == l,
                }
            }),
    {
        let ghost s = self.tokenizer.chars@;
        let ghost at = self.tokenizer.index as int;
        proof {
            lemma_next_sig_bounds(s, at);
        }
        let token = self.tokenizer.next();
        let ghost j = self.tokenizer.index as int;
        match token {
            Token::Identifier(_, pos) => {
                self.tokenizer.index = pos.0;
                self.parse_object(true)
            },
            Token::Flag(_, pos) => {
                self.tokenizer.index = pos.0;
                self.parse_object(true)
            },
            Token::Text(val, pos) => {
                proof {
                    lemma_next_sig_bounds(s, j);
                }
                let second = self.tokenizer.next();
                if let Token::Eof = second {
                    Ok(FennecType::Text(val))
                } else {
                    self.tokenizer.index = pos.0;
                    self.parse_object(true)
                }
            },
            t => {
                let starts_value = matches!(
                    &t,
                    Token::Symbol(_, _) | Token::Float(_, _) | Token::Bool(_, _) | Token::Int(
                        _,
                        _,
                    ) | Token::Null(_)
                );
                if starts_value {
                    self.parse_value(t)
                } else {
                    Err(ParseError::UnexpectedToken(t))
                }
            },
        }
    }

    /// Parse one standalone value whose first token, already consumed, is
    /// `token`, as [`p_value`] describes.
    fn parse_value(&mut self, token: Token) -> (r: Result<FennecType, ParseError>)
        requires
            old(self).wf(),
        ensures
            final(self).wf(),
            final(self).src() == old(self).src(),
            ({
                let res = p_value(old(self).src(), token@, old(self).pos());
                match r {
                    Ok(v) => res matches Ok((m, e)) && v@ == m && final(self).pos() == e,
                    Err(e) => res matches Err(l) && e@ == l,
                }
            }),
        decreases old(self).src().len() - old(self).pos(), 1int,
    {
        let is_prim = matches!(
            &token,
            Token::Text(_, _) | Token::Float(_, _) | Token::Int(_, _) | Token::Bool(_, _)
                | Token::Null(_)
        );
        if is_prim {
            return self.parse_primitive(token);
        }
        match token {
            Token::Symbol(sym, p) => {
                if sym == '{' {
                    self.parse_object(false)
                } else if sym == '[' {
                    self.parse_array()
                } else {
                    Err(ParseError::UnexpectedToken(Token::Symbol(sym, p)))
                }
            },
            t => Err(ParseError::UnexpectedToken(t)),
        }
    }

    /// Map a primitive token to its leaf value; any other token is an
    /// error.  The cursor does not move.
    fn parse_primitive(&mut self, token: Token) -> (r: Result<FennecType, ParseError>)
        requires
            old(self).wf(),
        ensures
            *final(self) == *old(self),
            ({
                match prim_model(token@) {
                    Some(v) => r matches Ok(out) && out@ == v,
                    None => r matches Err(e) && e@ == token@,
                }
            }),
    {
        match token {
            Token::Text(s, _) => Ok(FennecType::Text(s)),
            Token::Float(v, _) => Ok(FennecType::Float(v)),
            Token::Int(v, _) => Ok(FennecType::Int(v)),
            Token::Bool(v, _) => Ok(FennecType::Bool(v)),
            Token::Null(_) => Ok(FennecType::Null),
            t => Err(ParseError::UnexpectedToken(t)),
        }
    }

    /// Parse an object body, as [`p_object`] describes: to the end of input
    /// when `expect_eof`, to the closing brace otherwise.
    #[verifier::rlimit(60)]
    fn parse_object(&mut self, expect_eof: bool) -> (r: Result<FennecType, ParseError>)
        requires
            old(self).wf(),
        ensures
            final(self).wf(),
            final(self).src() == old(self).src(),
            ({
                let res = p_object(old(self).src(), old(self).pos(), expect_eof, Seq::empty());
                match r {
                    Ok(v) => res matches Ok((m, e)) && v@ == m && final(self).pos() == e,
                    Err(e) => res matches Err(l) && e@ == l,
                }
            }),
        decreases old(self).src().len() - old(self).pos(), 0int,
    {
        let ghost s = self.tokenizer.chars@;
        let ghost at0 = self.tokenizer.index as int;
        let mut out: Vec<(String, FennecType)> = Vec::new();
        loop
            invariant
                self.wf(),
                self.tokenizer.chars@ == s,
                s == old(self).src(),
                at0 == old(self).pos(),
                at0 <= self.tokenizer.index as int,
                p_object(s, at0, expect_eof, Seq::empty()) == p_object(
                    s,
                    self.tokenizer.index as int,
                    expect_eof,
                    entries_model(out@),
                ),
            decreases s.len() - self.tokenizer.index,
        {
            let ghost cur = self.tokenizer.index as int;
            let ghost acc = entries_model(out@);
            proof {
                lemma_next_sig_bounds(s, cur);
            }
            let token = self.tokenizer.next();
            let ghost j = self.tokenizer.index as int;
            match token {
                Token::Eof => {
                    if expect_eof {
                        return Ok(FennecType::Object(out));
                    } else {
                        return Err(ParseError::UnexpectedToken(Token::Eof));
                    }
                },
                Token::Symbol(sym, p) => {
                    if sym == '}' && !expect_eof {
                        return Ok(FennecType::Object(out));
                    } else {
                        return Err(ParseError::UnexpectedToken(Token::Symbol(sym, p)));
                    }
                },
                Token::Flag(name, _) => {
                    obj_insert(&mut out, name, FennecType::Bool(true));
                },
                Token::Identifier(name, _) | Token::Text(name, _) => {
                    let ghost key = name@;
                    proof {
                        lemma_next_sig_bounds(s, j);
                    }
                    let second = self.tokenizer.next();
                    let ghost k = self.tokenizer.index as int;
                    if let Token::Symbol(sym, p2) = second {
                        if sym == '=' {
                            proof {
                                lemma_next_sig_bounds(s, k);
                            }
                            let prim_token = self.tokenizer.next();
                            let ghost t3 = prim_token@;
                            match self.parse_primitive(prim_token) {
                                Ok(v) => {
                                    obj_insert(&mut out, name, v);
                                },
                                Err(e) => {
                                    proof {
                                        assert(next_sig(s, j) == (second@, k));
                                        assert(next_sig(s, k).0 == t3);
                                        assert(prim_model(t3) is None);
                                        assert(p_entry(s, j, acc, key) == Err::<
                                            (Seq<(Seq<char>, ValueModel)>, int),
                                            Lexeme,
                                        >(t3));
                                        assert(p_object(s, cur, expect_eof, acc) == Err::<
                                            (ValueModel, int),
                                            Lexeme,
                                        >(t3));
                                    }
                                    return Err(e);
                                },
                            }
                        } else if sym == '[' {
                            match self.parse_array() {
                                Ok(v) => {
                                    proof {
                                        lemma_parser_range_array(s, k, Seq::empty());
                                    }
                                    obj_insert(&mut out, name, v);
                                },
                                Err(e) => {
                                    return Err(e);
                                },
                            }
                        } else if sym == '{' {
                            match self.parse_object(false) {
                                Ok(v) => {
                                    proof {
                                        lemma_parser_range_object(s, k, false, Seq::empty());
                                    }
                                    obj_insert(&mut out, name, v);
                                },
                                Err(e) => {
                                    return Err(e);
                                },
                            }
                        } else {
                            return Err(ParseError::UnexpectedToken(Token::Symbol(sym, p2)));
                        }
                    } else {
                        proof {
                            assert(next_sig(s, j) == (second@, k));
                            assert(!(second@ matches Lexeme::Symbol { .. }));
                            assert(p_entry(s, j, acc, key) == Err::<
                                (Seq<(Seq<char>, ValueModel)>, int),
                                Lexeme,
                            >(second@));
                            assert(p_object(s, cur, expect_eof, acc) == Err::<
                                (ValueModel, int),
                                Lexeme,
                            >(second@));
                        }
                        return Err(ParseError::UnexpectedToken(second));
                    }
                },
                t => {
                    return Err(ParseError::UnexpectedToken(t));
                },
            }
        }
    }

    /// Parse an array body to its closing bracket, as [`p_array`] describes.
    #[verifier::rlimit(60)]
    fn parse_array(&mut self) -> (r: Result<FennecType, ParseError>)
        requires
            old(self).wf(),
        ensures
            final(self).wf(),
            final(self).src() == old(self).src(),
            ({
                let res = p_array(old(self).src(), old(self).pos(), Seq::empty());
                match r {
                    Ok(v) => res matches Ok((m, e)) && v@ == m && final(self).pos() == e,
                    Err(e) => res matches Err(l) && e@ == l,
                }
            }),
        decreases old(self).src().len() - old(self).pos(), 0int,
    {
        let ghost s = self.tokenizer.chars@;
        let ghost at0 = self.tokenizer.index as int;
        let mut out: Vec<FennecType> = Vec::new();
        loop
            invariant
                self.wf(),
                self.tokenizer.chars@ == s,
                s == old(self).src(),
                at0 == old(self).pos(),
                at0 <= self.tokenizer.index as int,
                p_array(s, at0, Seq::empty()) == p_array(
                    s,
                    self.tokenizer.index as int,
                    items_model(out@),
                ),
            decreases s.len() - self.tokenizer.index,
        {
            let ghost cur = self.tokenizer.index as int;
            let ghost acc = items_model(out@);
            proof {
                lemma_next_sig_bounds(s, cur);
            }
            let token = self.tokenizer.next();
            let ghost tl = token@;
            let ghost j = self.tokenizer.index as int;
            let is_close = matches!(&token, Token::Symbol(sym, _) if *sym == ']');
            if is_close {
                return Ok(FennecType::Array(out));
            }
            if matches!(&token, Token::Eof | Token::Invalid(_)) {
                return Err(ParseError::UnexpectedToken(token));
            }
            match self.parse_value(token) {
                Ok(v) => {
                    proof {
                        lemma_parser_range_value(s, tl, j);
                        assert(items_model(out@.push(v)) =~= acc.push(value_model(v))) by {
                            crate::value::lemma_items_model(out@.push(v));
                            crate::value::lemma_items_model(out@);
                        }
                    }
                    out.push(v);
                },
                Err(e) => {
                    return Err(e);
                },
            }
        }
    }
}

} // verus!
