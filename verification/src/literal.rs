//! Writing a value back as PHP literal text.
//!
//! The rendering is canonical: strings are single-quoted with `\` and
//! `'` escaped, arrays use the `array( ... )` spelling with an explicit
//! key and a trailing comma for every entry, and floats keep the text of
//! the literal they were parsed from.

use vstd::prelude::*;

use crate::chars::chars_to_string;
use crate::chars::str_to_chars;
use crate::num::i64_to_dec_chars;
use crate::num::spec_int_to_dec;
use crate::string::spec_escape_single;
use crate::value::value_view;
use crate::value::Key;
use crate::value::SpecKey;
use crate::value::SpecValue;
use crate::value::Value;

verus! {

broadcast use vstd::std_specs::vec::group_vec_axioms;

/// The canonical literal text of an array key.
pub open spec fn spec_key_literal(k: SpecKey) -> Seq<char> {
    match k {
        SpecKey::Int(n) => spec_int_to_dec(n),
        SpecKey::Str(s) => seq!['\''] + spec_escape_single(s) + seq!['\''],
    }
}

/// The canonical literal text of a value.
pub open spec fn spec_value_literal(v: SpecValue) -> Seq<char>
    decreases v,
{
    match v {
        SpecValue::Bool(b) => if b {
            seq!['t', 'r', 'u', 'e']
        } else {
            seq!['f', 'a', 'l', 's', 'e']
        },
        SpecValue::Int(n) => spec_int_to_dec(n),
        SpecValue::Float(t) => t,
        SpecValue::Str(s) => seq!['\''] + spec_escape_single(s) + seq!['\''],
        SpecValue::Arr(es) => seq!['a', 'r', 'r', 'a', 'y', '('] + spec_entries_literal(es)
            + seq![')'],
        SpecValue::Null => seq!['n', 'u', 'l', 'l'],
    }
}

/// The literal text of an array body: every entry explicit, each ended
/// by a comma.
pub open spec fn spec_entries_literal(es: Seq<(SpecKey, SpecValue)>) -> Seq<char>
    decreases es,
{
    if es.len() == 0 {
        Seq::empty()
    } else {
        spec_key_literal(es[0].0) + seq!['=', '>'] + spec_value_literal(es[0].1) + seq![',']
            + spec_entries_literal(es.drop_first())
    }
}

/// Escaping splits over concatenation.
proof fn lemma_escape_append(a: Seq<char>, b: Seq<char>)
    ensures
        spec_escape_single(a + b) == spec_escape_single(a) + spec_escape_single(b),
    decreases a.len(),
{
    if a.len() == 0 {
        assert(a + b =~= b);
        assert(spec_escape_single(a) =~= Seq::<char>::empty());
        assert(spec_escape_single(a) + spec_escape_single(b) =~= spec_escape_single(b));
    } else {
        let t = a + b;
        assert(t[0] == a[0]);
        assert(t.drop_first() =~= a.drop_first() + b);
        lemma_escape_append(a.drop_first(), b);
        assert((if a[0] == '\\' || a[0] == '\'' {
            seq!['\\', a[0]]
        } else {
            seq![a[0]]
        }) + (spec_escape_single(a.drop_first()) + spec_escape_single(b)) =~= ((if a[0] == '\\'
            || a[0] == '\'' {
            seq!['\\', a[0]]
        } else {
            seq![a[0]]
        }) + spec_escape_single(a.drop_first())) + spec_escape_single(b));
    }
}

/// Append the single-quote escaping of `s` to `out`.
fn push_escaped(out: &mut Vec<char>, s: &str)
    ensures
        final (out)@ == old(out)@ + spec_escape_single(s@),
{
    let chars = str_to_chars(s);
    let n = chars.len();
    let ghost out0 = out@;
    let mut i: usize = 0;
    while i < n
        invariant
            i <= n,
            n == chars.len(),
            chars@ == s@,
            out@ == out0 + spec_escape_single(s@.take(i as int)),
        decreases n - i,
    {
        let ghost pre = s@.take(i as int);
        let c = chars[i];
        if c == '\\' || c == '\'' {
            out.push('\\');
            out.push(c);
        } else {
            out.push(c);
        }
        i = i + 1;
        proof {
            assert(s@.take(i as int) =~= pre + seq![c]);
            lemma_escape_append(pre, seq![c]);
            assert(seq![c].len() == 1);
            assert(seq![c][0] == c);
            assert(seq![c].drop_first() =~= Seq::<char>::empty());
            assert(spec_escape_single(Seq::<char>::empty()) =~= Seq::<char>::empty());
            assert(spec_escape_single(seq![c]) == (if c == '\\' || c == '\'' {
                seq!['\\', c]
            } else {
                seq![c]
            }) + Seq::<char>::empty());
            assert(out@ =~= out0 + spec_escape_single(s@.take(i as int)));
        }
    }
    proof {
        assert(s@.take(n as int) =~= s@);
    }
}

/// Append the literal text of a key to `out`.
fn push_key_literal(out: &mut Vec<char>, k: &Key)
    ensures
        final (out)@ == old(out)@ + spec_key_literal(k@),
{
    match k {
        Key::Int(n) => {
            let mut d = i64_to_dec_chars(*n);
            out.append(&mut d);
        },
        Key::String(s) => {
            out.push('\'');
            push_escaped(out, s.as_str());
            out.push('\'');
            proof {
                assert(out@ =~= old(out)@ + spec_key_literal(k@));
            }
        },
    }
}

/// Append the literal text of a value to `out`.
fn push_value_literal(out: &mut Vec<char>, v: &Value)
    ensures
        final (out)@ == old(out)@ + spec_value_literal(value_view(*v)),
    decreases *v,
{
    match v {
        Value::Bool(b) => {
            if *b {
                out.push('t');
                out.push('r');
                out.push('u');
                out.push('e');
                proof {
                    assert(out@ =~= old(out)@ + seq!['t', 'r', 'u', 'e']);
                }
            } else {
                out.push('f');
                out.push('a');
                out.push('l');
                out.push('s');
                out.push('e');
                proof {
                    assert(out@ =~= old(out)@ + seq!['f', 'a', 'l', 's', 'e']);
                }
            }
        },
        Value::Int(n) => {
            let mut d = i64_to_dec_chars(*n);
            out.append(&mut d);
        },
        Value::Float(t) => {
            let mut d = str_to_chars(t.as_str());
            out.append(&mut d);
        },
        Value::String(s) => {
            out.push('\'');
            push_escaped(out, s.as_str());
            out.push('\'');
            proof {
                assert(out@ =~= old(out)@ + spec_value_literal(value_view(*v)));
            }
        },
        Value::Null => {
            out.push('n');
            out.push('u');
            out.push('l');
            out.push('l');
            proof {
                assert(out@ =~= old(out)@ + seq!['n', 'u', 'l', 'l']);
            }
        },
        Value::Array(entries) => {
            let ghost out0 = out@;
            let ghost ev = crate::value::entries_view(entries@);
            out.push('a');
            out.push('r');
            out.push('r');
            out.push('a');
            out.push('y');
            out.push('(');
            let ghost header = out@;
            proof {
                assert(header =~= out0 + seq!['a', 'r', 'r', 'a', 'y', '(']);
                crate::value::lemma_entries_view_len(entries@);
                assert(ev.skip(0) =~= ev);
            }
            let n = entries.len();
            let mut j: usize = 0;
            while j < n
                invariant
                    *v == Value::Array(*entries),
                    ev == crate::value::entries_view(entries@),
                    header == out0 + seq!['a', 'r', 'r', 'a', 'y', '('],
                    j <= n,
                    n == entries.len(),
                    ev.len() == n,
                    out@ + spec_entries_literal(ev.skip(j as int)) == header
                        + spec_entries_literal(ev),
                decreases n - j,
            {
                let ghost before = out@;
                let pair = &entries[j];
                proof {
                    crate::value::lemma_entries_view_index(entries@, j as int);
                    assert(decreases_to!(*v => v->Array_0));
                    assert(v->Array_0 == *entries);
                    assert(decreases_to!(*entries => entries@));
                    assert(decreases_to!(entries@ => entries@[j as int]));
                    assert(decreases_to!(entries@[j as int] => entries@[j as int].1));
                    assert(pair.1 == entries@[j as int].1);
                    assert(decreases_to!(*v => pair.1));
                }
                push_key_literal(out, &pair.0);
                out.push('=');
                out.push('>');
                push_value_literal(out, &pair.1);
                out.push(',');
                j = j + 1;
                proof {
                    let entry = ev[j - 1];
                    assert(entry == (entries@[j - 1].0@, value_view(entries@[j - 1].1)));
                    assert(out@ =~= before + (spec_key_literal(entry.0) + seq!['=', '>']
                        + spec_value_literal(entry.1) + seq![',']));
                    let suf = ev.skip(j - 1);
                    assert(suf[0] == entry);
                    assert(suf.drop_first() =~= ev.skip(j as int));
                    assert(spec_entries_literal(suf) == spec_key_literal(entry.0) + seq!['=', '>']
                        + spec_value_literal(entry.1) + seq![','] + spec_entries_literal(
                        ev.skip(j as int),
                    ));
                    assert(out@ + spec_entries_literal(ev.skip(j as int)) =~= header
                        + spec_entries_literal(ev));
                }
            }
            out.push(')');
            proof {
                assert(ev.skip(n as int) =~= Seq::<(SpecKey, SpecValue)>::empty());
                assert(spec_entries_literal(ev.skip(n as int)) =~= Seq::<char>::empty());
                assert(out@ =~= (header + spec_entries_literal(ev)) + seq![')']);
                assert(out@ =~= old(out)@ + spec_value_literal(value_view(*v)));
            }
        },
    }
}

impl Value {
    /// Render the value as canonical PHP literal text.
    pub fn to_literal(&self) -> (r: String)
        ensures
            r@ == spec_value_literal(self@),
    {
        let mut out: Vec<char> = Vec::new();
        push_value_literal(&mut out, self);
        proof {
            assert(out@ =~= spec_value_literal(value_view(*self)));
        }
        chars_to_string(&out)
    }
}

} // verus!
