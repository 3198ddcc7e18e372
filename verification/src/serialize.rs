//! The Fennec serializer.
//!
//! [`FennecType::to_string`] renders a value tree back to canonical Fennec
//! text.  The text is defined by the spec function [`render`]; the
//! executable renderer is proved to produce exactly that character sequence,
//! so serialization is a pure function of the tree: two calls on equal trees
//! give byte-identical text.

use vstd::prelude::*;
use vstd::string::StrSliceExecFns;

use crate::token::{chars_to_string, is_ident_char, is_ident_start_char};
use crate::value::{entries_model, items_model, lemma_entries_model, lemma_items_model, FennecType, ValueModel};

verus! {

/// What a character becomes inside a double-quoted rendering: the control
/// characters of the escape table are written in their two-character form,
/// everything else stands for itself.
pub open spec fn esc_expand(c: char) -> Seq<char> {
    if c == '\n' {
        seq!['\\', 'n']
    } else if c == '\t' {
        seq!['\\', 't']
    } else if c == '\r' {
        seq!['\\', 'r']
    } else if c == '\u{8}' {
        seq!['\\', 'b']
    } else if c == '\u{c}' {
        seq!['\\', 'f']
    } else {
        seq![c]
    }
}

/// A text with its control characters escaped.
pub open spec fn esc_text(t: Seq<char>) -> Seq<char>
    decreases t.len(),
{
    if t.len() == 0 {
        Seq::empty()
    } else {
        esc_expand(t[0]) + esc_text(t.subrange(1, t.len() as int))
    }
}

/// A key that can be written bare: it matches the identifier pattern.
pub open spec fn is_identifier_text(t: Seq<char>) -> bool {
    t.len() >= 1 && is_ident_start_char(t[0]) && (forall|k: int|
        1 <= k < t.len() ==> is_ident_char(t[k]))
}

/// The indentation of `n` levels: four spaces per level.
pub open spec fn spaces(n: int) -> Seq<char>
    decreases n,
{
    if n <= 0 {
        Seq::empty()
    } else {
        spaces(n - 1) + seq![' ', ' ', ' ', ' ']
    }
}

pub open spec fn digit_char_of(d: int) -> char {
    if d == 0 {
        '0'
    } else if d == 1 {
        '1'
    } else if d == 2 {
        '2'
    } else if d == 3 {
        '3'
    } else if d == 4 {
        '4'
    } else if d == 5 {
        '5'
    } else if d == 6 {
        '6'
    } else if d == 7 {
        '7'
    } else if d == 8 {
        '8'
    } else {
        '9'
    }
}

/// The decimal digits of a non-negative number, most significant first.
pub open spec fn dec_digits(n: int) -> Seq<char>
    recommends
        n >= 0,
    decreases n,
{
    if n < 10 {
        seq![digit_char_of(n)]
    } else {
        dec_digits(n / 10) + seq![digit_char_of(n % 10)]
    }
}

/// The decimal rendering of an integer.
pub open spec fn int_text(v: int) -> Seq<char> {
    if v < 0 {
        seq!['-'] + dec_digits(-v)
    } else {
        dec_digits(v)
    }
}

/// The next indentation level.  It saturates at the machine limit, which no
/// real tree can reach; saturating keeps the renderer total.
pub open spec fn sat_inc(i: int) -> int {
    if i < usize::MAX {
        i + 1
    } else {
        i
    }
}

/// The canonical text of a value at a nesting level.  A root object has no
/// braces and its body stays at the current level; any other object wraps
/// its body, one level deeper, in braces on their own lines.  Arrays are
/// always multi-line.  Primitive entries are written `key = value`,
/// container entries `key value`; a key is bare when it matches the
/// identifier pattern and double-quoted with escapes otherwise.
pub open spec fn render(v: ValueModel, indent: int, root: bool) -> Seq<char>
    decreases v,
{
    match v {
        ValueModel::Text(t) => seq!['"'] + esc_text(t) + seq!['"'],
        ValueModel::Float(t) => t,
        ValueModel::Int(n) => int_text(n),
        ValueModel::Bool(b) => if b {
            seq!['t', 'r', 'u', 'e']
        } else {
            seq!['f', 'a', 'l', 's', 'e']
        },
        ValueModel::Null => seq!['n', 'u', 'l', 'l'],
        ValueModel::Object(es) => {
            let idt = if root {
                indent
            } else {
                sat_inc(indent)
            };
            if root {
                render_entries(es, idt)
            } else {
                seq!['{', '\n'] + render_entries(es, idt) + spaces(indent) + seq!['}']
            }
        },
        ValueModel::Array(vs) => seq!['[', '\n'] + render_items(vs, sat_inc(indent)) + spaces(
            indent,
        ) + seq![']'],
    }
}

/// The lines of an object body, one entry each.
pub open spec fn render_entries(es: Seq<(Seq<char>, ValueModel)>, idt: int) -> Seq<char>
    decreases es,
{
    if es.len() == 0 {
        Seq::empty()
    } else {
        let key = es[0].0;
        let keytext = if is_identifier_text(key) {
            key
        } else {
            seq!['"'] + esc_text(key) + seq!['"']
        };
        let sep = if es[0].1 is Object || es[0].1 is Array {
            seq![' ']
        } else {
            seq![' ', '=', ' ']
        };
        spaces(idt) + keytext + sep + render(es[0].1, idt, false) + seq!['\n'] + render_entries(
            es.subrange(1, es.len() as int),
            idt,
        )
    }
}

/// The lines of an array body, one element each.
pub open spec fn render_items(vs: Seq<ValueModel>, idt: int) -> Seq<char>
    decreases vs,
{
    if vs.len() == 0 {
        Seq::empty()
    } else {
        spaces(idt) + render(vs[0], idt, false) + seq!['\n'] + render_items(
            vs.subrange(1, vs.len() as int),
            idt,
        )
    }
}

// ---------------------------------------------------------------------------
// Executable rendering
// ---------------------------------------------------------------------------

fn append_chars(out: &mut Vec<char>, piece: &Vec<char>)
    ensures
        final(out)@ == old(out)@ + piece@,
{
    let ghost base = out@;
    let mut k: usize = 0;
    while k < piece.len()
        invariant
            k <= piece@.len(),
            out@ =~= base + piece@.subrange(0, k as int),
        decreases piece@.len() - k,
    {
        out.push(piece[k]);
        k += 1;
    }
    proof {
        assert(out@ =~= base + piece@);
    }
}

fn push_spaces(out: &mut Vec<char>, n: usize)
    ensures
        final(out)@ == old(out)@ + spaces(n as int),
{
    let ghost base = out@;
    let mut k: usize = 0;
    while k < n
        invariant
            k <= n,
            out@ =~= base + spaces(k as int),
        decreases n - k,
    {
        out.push(' ');
        out.push(' ');
        out.push(' ');
        out.push(' ');
        k += 1;
        proof {
            assert(out@ =~= base + spaces(k as int));
        }
    }
}

fn push_str_chars(out: &mut Vec<char>, s: &str)
    ensures
        final(out)@ == old(out)@ + s@,
{
    let ghost base = out@;
    let n = s.unicode_len();
    let mut k: usize = 0;
    while k < n
        invariant
            k <= n,
            n == s@.len(),
            out@ =~= base + s@.subrange(0, k as int),
        decreases n - k,
    {
        out.push(s.get_char(k));
        k += 1;
    }
    proof {
        assert(out@ =~= base + s@);
    }
}

fn push_escaped(out: &mut Vec<char>, s: &str)
    ensures
        final(out)@ == old(out)@ + esc_text(s@),
{
    let ghost base = out@;
    let n = s.unicode_len();
    proof {
        assert(s@.subrange(0, n as int) =~= s@);
    }
    let mut k: usize = 0;
    while k < n
        invariant
            k <= n,
            n == s@.len(),
            base + esc_text(s@) =~= out@ + esc_text(s@.subrange(k as int, n as int)),
        decreases n - k,
    {
        let ghost rest = s@.subrange(k as int, n as int);
        let c = s.get_char(k);
        proof {
            assert(rest[0] == s@[k as int]);
            assert(rest.subrange(1, rest.len() as int) =~= s@.subrange(k + 1, n as int));
            assert(esc_text(rest) =~= esc_expand(c) + esc_text(s@.subrange(k + 1, n as int)));
        }
        if c == '\n' {
            out.push('\\');
            out.push('n');
        } else if c == '\t' {
            out.push('\\');
            out.push('t');
        } else if c == '\r' {
            out.push('\\');
            out.push('r');
        } else if c == 8 as char {
            out.push('\\');
            out.push('b');
        } else if c == 12 as char {
            out.push('\\');
            out.push('f');
        } else {
            out.push(c);
        }
        k += 1;
        proof {
            assert(base + esc_text(s@) =~= out@ + esc_text(s@.subrange(k as int, n as int)));
        }
    }
    proof {
        assert(esc_text(s@.subrange(n as int, n as int)) =~= Seq::<char>::empty());
        assert(out@ =~= base + esc_text(s@));
    }
}

fn digit_to_char(d: u64) -> (c: char)
    requires
        d < 10,
    ensures
        c == digit_char_of(d as int),
{
    match d {
        0 => '0',
        1 => '1',
        2 => '2',
        3 => '3',
        4 => '4',
        5 => '5',
        6 => '6',
        7 => '7',
        8 => '8',
        _ => '9',
    }
}

fn push_dec(out: &mut Vec<char>, x: u64)
    ensures
        final(out)@ == old(out)@ + dec_digits(x as int),
    decreases x,
{
    if x < 10 {
        out.push(digit_to_char(x));
        proof {
            assert(out@ =~= old(out)@ + dec_digits(x as int));
        }
    } else {
        push_dec(out, x / 10);
        out.push(digit_to_char(x % 10));
        proof {
            assert(out@ =~= old(out)@ + dec_digits(x as int));
        }
    }
}

fn push_int(out: &mut Vec<char>, v: i64)
    ensures
        final(out)@ == old(out)@ + int_text(v as int),
{
    if v < 0 {
        out.push('-');
        let mag: u64 = ((-(v + 1)) as u64) + 1;
        proof {
            assert(mag as int == -(v as int));
        }
        push_dec(out, mag);
        proof {
            assert(out@ =~= old(out)@ + (seq!['-'] + dec_digits(mag as int)));
        }
    } else {
        push_dec(out, v as u64);
    }
}

/// The key matches the identifier pattern, so it can be written bare.
fn ident_text(s: &str) -> (r: bool)
    ensures
        r == is_identifier_text(s@),
{
    let n = s.unicode_len();
    if n == 0 {
        return false;
    }
    if !crate::token::ident_start_char(s.get_char(0)) {
        return false;
    }
    let mut k: usize = 1;
    while k < n
        invariant
            1 <= k <= n,
            n == s@.len(),
            forall|j: int| 1 <= j < k ==> is_ident_char(s@[j]),
        decreases n - k,
    {
        if !crate::token::ident_char(s.get_char(k)) {
            return false;
        }
        k += 1;
    }
    true
}

impl FennecType {
    /// Render this value as canonical Fennec text: exactly the characters
    /// of [`render`] at the root level.  Two calls on equal trees give
    /// byte-identical text.
    pub fn to_string(&self) -> (r: String)
        ensures
            r@ == render(self@, 0, true),
    {
        let out = self.render_chars(0, true);
        chars_to_string(&out)
    }

    /// Write the string value with control characters escaped.
    pub fn replace_escapes(s: &str) -> (r: String)
        ensures
            r@ == esc_text(s@),
    {
        let mut out: Vec<char> = Vec::new();
        push_escaped(&mut out, s);
        chars_to_string(&out)
    }

    /// The characters of [`render`] for this value.
    #[verifier::rlimit(80)]
    fn render_chars(&self, indent: usize, root: bool) -> (out: Vec<char>)
        ensures
            out@ == render(self@, indent as int, root),
        decreases *self,
    {
        let mut out: Vec<char> = Vec::new();
        match self {
            FennecType::Text(t) => {
                out.push('"');
                push_escaped(&mut out, t.as_str());
                out.push('"');
                proof {
                    assert(out@ =~= seq!['"'] + esc_text(t@) + seq!['"']);
                }
            },
            FennecType::Float(t) => {
                push_str_chars(&mut out, t.as_str());
                proof {
                    assert(out@ =~= t@);
                }
            },
            FennecType::Int(n) => {
                push_int(&mut out, *n);
                proof {
                    assert(out@ =~= int_text(*n as int));
                }
            },
            FennecType::Bool(b) => {
                if *b {
                    out.push('t');
                    out.push('r');
                    out.push('u');
                    out.push('e');
                    proof {
                        assert(out@ =~= seq!['t', 'r', 'u', 'e']);
                    }
                } else {
                    out.push('f');
                    out.push('a');
                    out.push('l');
                    out.push('s');
                    out.push('e');
                    proof {
                        assert(out@ =~= seq!['f', 'a', 'l', 's', 'e']);
                    }
                }
            },
            FennecType::Null => {
                out.push('n');
                out.push('u');
                out.push('l');
                out.push('l');
                proof {
                    assert(out@ =~= seq!['n', 'u', 'l', 'l']);
                }
            },
            FennecType::Object(entries) => {
                let ghost es = entries_model(entries@);
                proof {
                    lemma_entries_model(entries@);
                }
                if !root {
                    out.push('{');
                    out.push('\n');
                }
                let ghost prefix = out@;
                let idt = if root {
                    indent
                } else if indent < usize::MAX {
                    indent + 1
                } else {
                    indent
                };
                let n = entries.len();
                proof {
                    assert(es.subrange(0, es.len() as int) =~= es);
                }
                let mut i: usize = 0;
                while i < n
                    invariant
                        i <= n,
                        (*self) is Object,
                        self->Object_0 == *entries,
                        n == entries@.len(),
                        es == entries_model(entries@),
                        es.len() == entries@.len(),
                        forall|k: int|
                            0 <= k < entries@.len() ==> #[trigger] es[k] == (
                            entries@[k].0@,
                            crate::value::value_model(entries@[k].1),
                            ),
                        idt as int == if root {
                            indent as int
                        } else {
                            sat_inc(indent as int)
                        },
                        prefix + render_entries(es, idt as int) =~= out@ + render_entries(
                            es.subrange(i as int, es.len() as int),
                            idt as int,
                        ),
                    decreases n - i,
                {
                    let ghost rest = es.subrange(i as int, es.len() as int);
                    proof {
                        assert(rest[0] == es[i as int]);
                        assert(rest.subrange(1, rest.len() as int) =~= es.subrange(
                            i + 1,
                            es.len() as int,
                        ));
                    }
                    push_spaces(&mut out, idt);
                    let key: &String = &entries[i].0;
                    if ident_text(key.as_str()) {
                        push_str_chars(&mut out, key.as_str());
                    } else {
                        out.push('"');
                        push_escaped(&mut out, key.as_str());
                        out.push('"');
                    }
                    let container = matches!(
                        &entries[i].1,
                        FennecType::Object(_) | FennecType::Array(_)
                    );
                    if container {
                        out.push(' ');
                    } else {
                        out.push(' ');
                        out.push('=');
                        out.push(' ');
                    }
                    proof {
                        assert(decreases_to!(*self => self->Object_0));
                        assert(*entries == self->Object_0);
                        assert(decreases_to!(*entries => entries@));
                        assert(decreases_to!(entries@ => entries@[i as int]));
                        assert(decreases_to!(entries@[i as int] => entries@[i as int].1));
                    }
                    let sub = entries[i].1.render_chars(idt, false);
                    append_chars(&mut out, &sub);
                    out.push('\n');
                    i += 1;
                    proof {
                        assert(prefix + render_entries(es, idt as int) =~= out@ + render_entries(
                            es.subrange(i as int, es.len() as int),
                            idt as int,
                        ));
                    }
                }
                proof {
                    assert(render_entries(es.subrange(es.len() as int, es.len() as int), idt as int)
                        =~= Seq::<char>::empty());
                    assert(out@ =~= prefix + render_entries(es, idt as int));
                }
                if !root {
                    push_spaces(&mut out, indent);
                    out.push('}');
                }
                proof {
                    if root {
                        assert(out@ =~= render(self@, indent as int, root));
                    } else {
                        assert(out@ =~= seq!['{', '\n'] + render_entries(es, sat_inc(indent as int))
                            + spaces(indent as int) + seq!['}']);
                    }
                }
            },
            FennecType::Array(items) => {
                let ghost vs = items_model(items@);
                proof {
                    lemma_items_model(items@);
                }
                out.push('[');
                out.push('\n');
                let ghost prefix = out@;
                let idt = if indent < usize::MAX {
                    indent + 1
                } else {
                    indent
                };
                let n = items.len();
                proof {
                    assert(vs.subrange(0, vs.len() as int) =~= vs);
                }
                let mut i: usize = 0;
                while i < n
                    invariant
                        i <= n,
                        (*self) is Array,
                        self->Array_0 == *items,
                        n == items@.len(),
                        vs == items_model(items@),
                        vs.len() == items@.len(),
                        forall|k: int|
                            0 <= k < items@.len() ==> #[trigger] vs[k] == crate::value::value_model(
                                items@[k],
                            ),
                        idt as int == sat_inc(indent as int),
                        prefix + render_items(vs, idt as int) =~= out@ + render_items(
                            vs.subrange(i as int, vs.len() as int),
                            idt as int,
                        ),
                    decreases n - i,
                {
                    let ghost rest = vs.subrange(i as int, vs.len() as int);
                    proof {
                        assert(rest[0] == vs[i as int]);
                        assert(rest.subrange(1, rest.len() as int) =~= vs.subrange(
                            i + 1,
                            vs.len() as int,
                        ));
                    }
                    push_spaces(&mut out, idt);
                    proof {
                        assert(decreases_to!(*self => self->Array_0));
                        assert(*items == self->Array_0);
                        assert(decreases_to!(*items => items@));
                        assert(decreases_to!(items@ => items@[i as int]));
                    }
                    let sub = items[i].render_chars(idt, false);
                    append_chars(&mut out, &sub);
                    out.push('\n');
                    i += 1;
                    proof {
                        assert(prefix + render_items(vs, idt as int) =~= out@ + render_items(
                            vs.subrange(i as int, vs.len() as int),
                            idt as int,
                        ));
                    }
                }
                proof {
                    assert(render_items(vs.subrange(vs.len() as int, vs.len() as int), idt as int)
                        =~= Seq::<char>::empty());
                    assert(out@ =~= prefix + render_items(vs, idt as int));
                }
                push_spaces(&mut out, indent);
                out.push(']');
                proof {
                    assert(out@ =~= seq!['[', '\n'] + render_items(vs, sat_inc(indent as int))
                        + spaces(indent as int) + seq![']']);
                }
            },
        }
        out
    }
}

} // verus!
