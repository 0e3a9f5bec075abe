//! The JSON codec: mapping a [`Value`] to JSON text and JSON text to a
//! `Value`. The emitting direction is total and lossy by a fixed,
//! documented policy: variants with no JSON equivalent are downgraded to
//! strings (byte strings to their hex rendering, durations to their
//! textual form, record identifiers to `table:key`, sub-queries to their
//! source text). The parsing direction is exact: every JSON document maps
//! to a `Value`, with numbers given the best-fitting numeric subtype.

use vstd::prelude::*;
use crate::chars::push_char;
use crate::render::{int_chars, quoted, hex_bytes, dec_digits, push_i64_digits, push_hex, push_quoted};
use crate::text::duration_chars;
use crate::value::{Entry, Value, ValueModel, model_of, models_of, entry_models_of,
    lemma_models_of_index, lemma_models_of_len, lemma_models_of_push, lemma_entry_models_of_push, lemma_entry_models_of_index,
    lemma_entry_models_of_len};

verus! {

broadcast use {vstd::std_specs::vec::group_vec_axioms, vstd::seq::axiom_seq_index_decreases};

/// Whether a character may appear in a bare JSON number.
pub open spec fn is_number_char(c: char) -> bool {
    ('0' <= c && c <= '9') || c == '-' || c == '+' || c == '.' || c == 'e' || c == 'E'
}

/// Whether a numeric rendering may be emitted bare: nonempty and made of
/// number characters only. A rendering that is anything else (such as a
/// non-finite float's) is emitted as a string instead.
pub open spec fn number_text(s: Seq<char>) -> bool {
    s.len() > 0 && forall|i: int| 0 <= i < s.len() ==> is_number_char(#[trigger] s[i])
}

/// The line prefix of one member: in pretty mode a newline plus the
/// member's indentation.
pub open spec fn jmember_prefix(pretty: bool, ind: Seq<char>) -> Seq<char> {
    if pretty {
        seq!['\n'] + ind
    } else {
        Seq::empty()
    }
}

/// The key/value separator: a space follows the colon in pretty mode.
pub open spec fn jcolon(pretty: bool) -> Seq<char> {
    if pretty {
        ": "@
    } else {
        seq![':']
    }
}

/// The JSON rendering of one value.
pub open spec fn json_chars(m: ValueModel, pretty: bool, ind: Seq<char>) -> Seq<char>
    decreases m, 0int,
{
    match m {
        ValueModel::Null => "null"@,
        ValueModel::Bool(b) => if b {
            "true"@
        } else {
            "false"@
        },
        ValueModel::Int(i) => int_chars(i as int),
        ValueModel::Float(s) => if number_text(s) {
            s
        } else {
            quoted(s)
        },
        ValueModel::Decimal(s) => if number_text(s) {
            s
        } else {
            quoted(s)
        },
        ValueModel::Strand(s) => quoted(s),
        ValueModel::Bytes(b) => seq!['"'] + hex_bytes(b) + seq!['"'],
        ValueModel::Duration(secs, nanos) => seq!['"'] + duration_chars(secs, nanos) + seq!['"'],
        ValueModel::Thing(t, i) => quoted(t + seq![':'] + i),
        ValueModel::Query(s) => quoted(s),
        ValueModel::Array(items) => if items.len() == 0 {
            "[]"@
        } else if pretty {
            seq!['['] + json_items(items, true, ind.push('\t')) + seq!['\n'] + ind + seq![']']
        } else {
            seq!['['] + json_items(items, false, ind) + seq![']']
        },
        ValueModel::Object(es) => if es.len() == 0 {
            "{}"@
        } else if pretty {
            seq!['{'] + json_entries(es, true, ind.push('\t')) + seq!['\n'] + ind + seq!['}']
        } else {
            seq!['{'] + json_entries(es, false, ind) + seq!['}']
        },
    }
}

/// The members of a JSON array, comma-separated.
pub open spec fn json_items(items: Seq<ValueModel>, pretty: bool, ind: Seq<char>) -> Seq<char>
    decreases items, 1int,
{
    if items.len() == 0 {
        Seq::empty()
    } else {
        let head = jmember_prefix(pretty, ind) + json_chars(items.first(), pretty, ind);
        if items.len() == 1 {
            head
        } else {
            head + seq![','] + json_items(items.drop_first(), pretty, ind)
        }
    }
}

/// The members of a JSON object, comma-separated, keys always quoted.
pub open spec fn json_entries(es: Seq<(Seq<char>, ValueModel)>, pretty: bool, ind: Seq<char>) -> Seq<
    char,
>
    decreases es, 1int,
{
    if es.len() == 0 {
        Seq::empty()
    } else {
        let head = jmember_prefix(pretty, ind) + quoted(es.first().0) + jcolon(pretty)
            + json_chars(es.first().1, pretty, ind);
        if es.len() == 1 {
            head
        } else {
            head + seq![','] + json_entries(es.drop_first(), pretty, ind)
        }
    }
}

proof fn lemma_json_items_push(s: Seq<ValueModel>, m: ValueModel, pretty: bool, ind: Seq<char>)
    ensures
        json_items(s.push(m), pretty, ind) == if s.len() == 0 {
            jmember_prefix(pretty, ind) + json_chars(m, pretty, ind)
        } else {
            json_items(s, pretty, ind) + seq![','] + (jmember_prefix(pretty, ind) + json_chars(
                m,
                pretty,
                ind,
            ))
        },
    decreases s,
{
    if s.len() == 0 {
        assert(s.push(m).first() == m);
        assert(s.push(m).len() == 1);
    } else {
        assert(s.push(m).first() == s.first());
        assert(s.push(m).drop_first() =~= s.drop_first().push(m));
        lemma_json_items_push(s.drop_first(), m, pretty, ind);
        let head = jmember_prefix(pretty, ind) + json_chars(s.first(), pretty, ind);
        let new_mem = jmember_prefix(pretty, ind) + json_chars(m, pretty, ind);
        if s.len() == 1 {
            assert(s.drop_first().len() == 0);
            assert(head + seq![','] + new_mem =~= head + (seq![','] + new_mem));
            assert(json_items(s.push(m), pretty, ind) =~= head + seq![','] + new_mem);
        } else {
            let tail_push = json_items(s.drop_first(), pretty, ind) + seq![','] + new_mem;
            assert(json_items(s.push(m), pretty, ind) =~= head + seq![','] + tail_push);
            assert(json_items(s, pretty, ind) + seq![','] + new_mem =~= head + seq![',']
                + tail_push);
        }
    }
}

proof fn lemma_json_entries_push(
    s: Seq<(Seq<char>, ValueModel)>,
    k: Seq<char>,
    m: ValueModel,
    pretty: bool,
    ind: Seq<char>,
)
    ensures
        json_entries(s.push((k, m)), pretty, ind) == if s.len() == 0 {
            jmember_prefix(pretty, ind) + quoted(k) + jcolon(pretty) + json_chars(m, pretty, ind)
        } else {
            json_entries(s, pretty, ind) + seq![','] + (jmember_prefix(pretty, ind) + quoted(k)
                + jcolon(pretty) + json_chars(m, pretty, ind))
        },
    decreases s,
{
    if s.len() == 0 {
        assert(s.push((k, m)).first() == (k, m));
        assert(s.push((k, m)).len() == 1);
    } else {
        assert(s.push((k, m)).first() == s.first());
        assert(s.push((k, m)).drop_first() =~= s.drop_first().push((k, m)));
        lemma_json_entries_push(s.drop_first(), k, m, pretty, ind);
        let head = jmember_prefix(pretty, ind) + quoted(s.first().0) + jcolon(pretty)
            + json_chars(s.first().1, pretty, ind);
        let new_mem = jmember_prefix(pretty, ind) + quoted(k) + jcolon(pretty) + json_chars(
            m,
            pretty,
            ind,
        );
        if s.len() == 1 {
            assert(s.drop_first().len() == 0);
            assert(head + seq![','] + new_mem =~= head + (seq![','] + new_mem));
            assert(json_entries(s.push((k, m)), pretty, ind) =~= head + seq![','] + new_mem);
        } else {
            let tail_push = json_entries(s.drop_first(), pretty, ind) + seq![','] + new_mem;
            assert(json_entries(s.push((k, m)), pretty, ind) =~= head + seq![','] + tail_push);
            assert(json_entries(s, pretty, ind) + seq![','] + new_mem =~= head + seq![',']
                + tail_push);
        }
    }
}

/// Whether `s` may be emitted as a bare JSON number.
fn number_like(s: &String) -> (r: bool)
    ensures
        r == number_text(s@),
{
    let n = s.as_str().unicode_len();
    if n == 0 {
        return false;
    }
    let mut i: usize = 0;
    while i < n
        invariant
            i <= n,
            n == s@.len(),
            forall|q: int| 0 <= q < i ==> is_number_char(#[trigger] s@[q]),
        decreases n - i,
    {
        let c = s.as_str().get_char(i);
        let ok = ('0' <= c && c <= '9') || c == '-' || c == '+' || c == '.' || c == 'e' || c
            == 'E';
        if !ok {
            return false;
        }
        i += 1;
    }
    true
}

/// Appends the JSON rendering of a numeric text: bare when it is made of
/// number characters, quoted otherwise.
fn write_numeric(out: &mut String, s: &String)
    ensures
        final(out)@ == old(out)@ + (if number_text(s@) {
            s@
        } else {
            quoted(s@)
        }),
{
    if number_like(s) {
        out.append(s.as_str());
    } else {
        push_quoted(out, s);
    }
}

#[verifier::loop_isolation(false)]
#[verifier::rlimit(100)]
fn write_json_array(out: &mut String, items: &Vec<Value>, pretty: bool, ind: &String)
    ensures
        final(out)@ == old(out)@ + json_chars(
            ValueModel::Array(models_of(items@)),
            pretty,
            ind@,
        ),
    decreases items, 1int,
{
    let n = items.len();
    if n == 0 {
        out.append("[]");
    } else {
        push_char(out, '[');
        let mut ind2 = ind.clone();
        if pretty {
            push_char(&mut ind2, '\t');
        }
        let ghost mind: Seq<char> = ind2@;
        let ghost mid = out@;
        proof {
            lemma_models_of_len(items@);
            assert forall|q: int| 0 <= q < n implies models_of(items@)[q] == model_of(
                items@[q],
            ) by {
                lemma_models_of_index(items@, q);
            }
            assert(json_items(models_of(items@).take(0), pretty, mind) =~= Seq::<char>::empty());
            assert(mid + Seq::<char>::empty() =~= mid);
        }
        let mut j: usize = 0;
        while j < n
            invariant
                j <= n,
                out@ == mid + json_items(models_of(items@).take(j as int), pretty, mind),
            decreases n - j,
        {
            let ghost before = out@;
            let ghost sep_expr: Seq<char> = if j == 0 {
                Seq::empty()
            } else {
                seq![',']
            };
            if j > 0 {
                push_char(out, ',');
            }
            if pretty {
                push_char(out, '\n');
                out.append(ind2.as_str());
            }
            proof {
                assert(out@ =~= before + sep_expr + jmember_prefix(pretty, mind));
                assert(decreases_to!(*items => items@));
                assert(decreases_to!(items@ => items@[j as int]));
            }
            write_json_value(out, &items[j], pretty, &ind2);
            proof {
                lemma_json_items_push(
                    models_of(items@).take(j as int),
                    models_of(items@)[j as int],
                    pretty,
                    mind,
                );
                assert(models_of(items@).take(j + 1) =~= models_of(items@).take(j as int).push(
                    models_of(items@)[j as int],
                ));
                assert(before + sep_expr + jmember_prefix(pretty, mind) + json_chars(
                    models_of(items@)[j as int],
                    pretty,
                    mind,
                ) =~= mid + json_items(models_of(items@).take(j + 1), pretty, mind));
            }
            j += 1;
        }
        if pretty {
            push_char(out, '\n');
            out.append(ind.as_str());
        }
        push_char(out, ']');
        proof {
            assert(models_of(items@).take(n as int) =~= models_of(items@));
            assert(out@ =~= old(out)@ + json_chars(
                ValueModel::Array(models_of(items@)),
                pretty,
                ind@,
            ));
        }
    }
}

#[verifier::loop_isolation(false)]
#[verifier::rlimit(100)]
fn write_json_object(out: &mut String, entries: &Vec<Entry>, pretty: bool, ind: &String)
    ensures
        final(out)@ == old(out)@ + json_chars(
            ValueModel::Object(entry_models_of(entries@)),
            pretty,
            ind@,
        ),
    decreases entries, 1int,
{
    let n = entries.len();
    if n == 0 {
        out.append("{}");
    } else {
        push_char(out, '{');
        let mut ind2 = ind.clone();
        if pretty {
            push_char(&mut ind2, '\t');
        }
        let ghost mind: Seq<char> = ind2@;
        let ghost mid = out@;
        proof {
            lemma_entry_models_of_len(entries@);
            assert forall|q: int| 0 <= q < n implies entry_models_of(entries@)[q] == (
            entries@[q].key@,
            model_of(entries@[q].value),
            ) by {
                lemma_entry_models_of_index(entries@, q);
            }
            assert(json_entries(entry_models_of(entries@).take(0), pretty, mind) =~= Seq::<
                char,
            >::empty());
            assert(mid + Seq::<char>::empty() =~= mid);
        }
        let mut j: usize = 0;
        while j < n
            invariant
                j <= n,
                out@ == mid + json_entries(entry_models_of(entries@).take(j as int), pretty, mind),
            decreases n - j,
        {
            let ghost before = out@;
            let ghost sep_expr: Seq<char> = if j == 0 {
                Seq::empty()
            } else {
                seq![',']
            };
            if j > 0 {
                push_char(out, ',');
            }
            if pretty {
                push_char(out, '\n');
                out.append(ind2.as_str());
            }
            let e = &entries[j];
            push_quoted(out, &e.key);
            if pretty {
                out.append(": ");
            } else {
                push_char(out, ':');
            }
            proof {
                assert(out@ =~= before + sep_expr + (jmember_prefix(pretty, mind) + quoted(
                    entries@[j as int].key@,
                ) + jcolon(pretty)));
                assert(decreases_to!(*entries => entries@));
                assert(decreases_to!(entries@ => entries@[j as int]));
                assert(decreases_to!(entries@[j as int] => entries@[j as int].value));
            }
            write_json_value(out, &e.value, pretty, &ind2);
            proof {
                lemma_json_entries_push(
                    entry_models_of(entries@).take(j as int),
                    entries@[j as int].key@,
                    model_of(entries@[j as int].value),
                    pretty,
                    mind,
                );
                assert(entry_models_of(entries@).take(j + 1) =~= entry_models_of(entries@).take(
                    j as int,
                ).push(entry_models_of(entries@)[j as int]));
                assert(before + sep_expr + (jmember_prefix(pretty, mind) + quoted(
                    entries@[j as int].key@,
                ) + jcolon(pretty)) + json_chars(
                    model_of(entries@[j as int].value),
                    pretty,
                    mind,
                ) =~= mid + json_entries(entry_models_of(entries@).take(j + 1), pretty, mind));
            }
            j += 1;
        }
        if pretty {
            push_char(out, '\n');
            out.append(ind.as_str());
        }
        push_char(out, '}');
        proof {
            assert(entry_models_of(entries@).take(n as int) =~= entry_models_of(entries@));
            assert(out@ =~= old(out)@ + json_chars(
                ValueModel::Object(entry_models_of(entries@)),
                pretty,
                ind@,
            ));
        }
    }
}

/// Appends the JSON rendering of `v`; the workhorse behind
/// [`Value::json`].
#[verifier::loop_isolation(false)]
#[verifier::rlimit(100)]
fn write_json_value(out: &mut String, v: &Value, pretty: bool, ind: &String)
    ensures
        final(out)@ == old(out)@ + json_chars(v@, pretty, ind@),
    decreases v, 0int,
{
    match v {
        Value::Null => {
            out.append("null");
        },
        Value::Bool(b) => {
            if *b {
                out.append("true");
            } else {
                out.append("false");
            }
        },
        Value::Int(i) => {
            push_i64_digits(out, *i);
        },
        Value::Float(s) => {
            write_numeric(out, s);
        },
        Value::Decimal(s) => {
            write_numeric(out, s);
        },
        Value::Strand(s) => {
            push_quoted(out, s);
        },
        Value::Bytes(b) => {
            push_char(out, '"');
            push_hex(out, b);
            push_char(out, '"');
            proof {
                assert((old(out)@.push('"') + hex_bytes(b@)).push('"') =~= old(out)@ + json_chars(
                    v@,
                    pretty,
                    ind@,
                ));
            }
        },
        Value::Duration(secs, nanos) => {
            push_char(out, '"');
            crate::text::push_duration(out, *secs, *nanos);
            push_char(out, '"');
            proof {
                assert((old(out)@.push('"') + duration_chars(*secs, *nanos)).push('"') =~= old(
                    out,
                )@ + json_chars(v@, pretty, ind@));
            }
        },
        Value::Thing(t, i) => {
            let mut tmp = t.clone();
            push_char(&mut tmp, ':');
            tmp.append(i.as_str());
            push_quoted(out, &tmp);
            proof {
                assert(tmp@ =~= t@ + seq![':'] + i@);
            }
        },
        Value::Query(s) => {
            push_quoted(out, s);
        },
        Value::Array(items) => {
            write_json_array(out, items, pretty, ind);
        },
        Value::Object(entries) => {
            write_json_object(out, entries, pretty, ind);
        },
    }
}

impl Value {
    /// Render this value as JSON text, by the fixed downgrade policy for
    /// variants JSON cannot express. Total: rendering never fails.
    pub fn json(&self, pretty: bool) -> (r: String)
        ensures
            r@ == json_chars(self@, pretty, Seq::<char>::empty()),
    {
        let mut out = String::new();
        let ind = String::new();
        write_json_value(&mut out, self, pretty, &ind);
        proof {
            assert(Seq::<char>::empty() + json_chars(self@, pretty, Seq::<char>::empty())
                =~= json_chars(self@, pretty, Seq::<char>::empty()));
        }
        out
    }
}

/// JSON whitespace.
pub open spec fn is_ws(c: char) -> bool {
    c == ' ' || c == '\n' || c == '\t' || c == '\r'
}

/// The suffix of `s` after any leading whitespace.
pub open spec fn skip_ws(s: Seq<char>) -> Seq<char>
    decreases s.len(),
{
    if s.len() > 0 && is_ws(s.first()) {
        skip_ws(s.drop_first())
    } else {
        s
    }
}

/// A decimal digit.
pub open spec fn is_digit(c: char) -> bool {
    '0' <= c && c <= '9'
}

/// The numeric value of a decimal digit character.
pub open spec fn digit_val(c: char) -> int {
    c as u32 - 48
}

/// How many leading decimal digits `s` has.
pub open spec fn span_digits(s: Seq<char>) -> nat
    decreases s.len(),
{
    if s.len() > 0 && is_digit(s.first()) {
        (1 + span_digits(s.drop_first())) as nat
    } else {
        0
    }
}

/// The numeric value of a digit string.
pub open spec fn digits_val(s: Seq<char>) -> int
    decreases s.len(),
{
    if s.len() == 0 {
        0
    } else {
        digits_val(s.drop_last()) * 10 + digit_val(s.last())
    }
}

/// The numeric value of a hexadecimal digit character, if it is one.
pub open spec fn hex_val(c: char) -> Option<int> {
    if '0' <= c && c <= '9' {
        Some((c as u32 - 48) as int)
    } else if 'a' <= c && c <= 'f' {
        Some((c as u32 - 87) as int)
    } else if 'A' <= c && c <= 'F' {
        Some((c as u32 - 55) as int)
    } else {
        None
    }
}

/// The value of four hexadecimal digits at the front of `s`.
pub open spec fn hex4(s: Seq<char>) -> Option<int> {
    if s.len() >= 4 && hex_val(s[0]) is Some && hex_val(s[1]) is Some && hex_val(s[2]) is Some
        && hex_val(s[3]) is Some {
        Some(
            hex_val(s[0]).unwrap() * 4096 + hex_val(s[1]).unwrap() * 256 + hex_val(
                s[2],
            ).unwrap() * 16 + hex_val(s[3]).unwrap(),
        )
    } else {
        None
    }
}

/// Reading the body of a JSON string, after the opening quote: plain
/// characters, two-character escapes, and unicode escapes, surrogate
/// pairs included. Returns the decoded characters and the suffix after
/// the closing quote.
pub open spec fn jparse_string_body(s: Seq<char>) -> Option<(Seq<char>, Seq<char>)>
    decreases s.len(),
{
    if s.len() == 0 {
        None
    } else if s.first() == '"' {
        Some((Seq::empty(), s.drop_first()))
    } else if s.first() == '\\' {
        if s.len() < 2 {
            None
        } else {
            let e = s[1];
            if e == 'u' {
                match hex4(s.skip(2)) {
                    None => None,
                    Some(u) => if 0xD800 <= u < 0xDC00 {
                        if s.len() >= 12 && s[6] == '\\' && s[7] == 'u' {
                            match hex4(s.skip(8)) {
                                None => None,
                                Some(u2) => if 0xDC00 <= u2 < 0xE000 {
                                    let cp = 0x10000 + (u - 0xD800) * 1024 + (u2 - 0xDC00);
                                    match jparse_string_body(s.skip(12)) {
                                        None => None,
                                        Some((cs, r)) => Some(
                                            (seq![(cp as u32) as char] + cs, r),
                                        ),
                                    }
                                } else {
                                    None
                                },
                            }
                        } else {
                            None
                        }
                    } else if 0xDC00 <= u < 0xE000 {
                        None
                    } else {
                        match jparse_string_body(s.skip(6)) {
                            None => None,
                            Some((cs, r)) => Some((seq![(u as u32) as char] + cs, r)),
                        }
                    },
                }
            } else {
                let c = if e == '"' {
                    Some('"')
                } else if e == '\\' {
                    Some('\\')
                } else if e == '/' {
                    Some('/')
                } else if e == 'n' {
                    Some('\n')
                } else if e == 'r' {
                    Some('\r')
                } else if e == 't' {
                    Some('\t')
                } else if e == 'b' {
                    Some(8u32 as char)
                } else if e == 'f' {
                    Some(12u32 as char)
                } else {
                    None
                };
                match c {
                    None => None,
                    Some(c) => match jparse_string_body(s.skip(2)) {
                        None => None,
                        Some((cs, r)) => Some((seq![c] + cs, r)),
                    },
                }
            }
        }
    } else {
        match jparse_string_body(s.drop_first()) {
            None => None,
            Some((cs, r)) => Some((seq![s.first()] + cs, r)),
        }
    }
}

/// Reading a JSON number from the front of `s` (no leading whitespace):
/// an optional sign, digits, an optional fraction, an optional exponent.
/// An integer that fits a signed 64-bit value becomes an integer Value;
/// any other number keeps its exact text, as a float when it has a
/// fraction or exponent and as an arbitrary-precision decimal otherwise.
pub open spec fn jparse_number(s: Seq<char>) -> Option<(ValueModel, Seq<char>)> {
    let neg = s.len() > 0 && s.first() == '-';
    let body = if neg {
        s.drop_first()
    } else {
        s
    };
    let nd = span_digits(body);
    if nd == 0 {
        None
    } else {
        let after_int = body.skip(nd as int);
        let flen: int = if after_int.len() >= 2 && after_int.first() == '.' && is_digit(
            after_int[1],
        ) {
            1 + span_digits(after_int.drop_first()) as int
        } else {
            0
        };
        let after_frac = after_int.skip(flen);
        let elen: int = if after_frac.len() >= 2 && (after_frac.first() == 'e'
            || after_frac.first() == 'E') {
            let estart: int = if after_frac[1] == '+' || after_frac[1] == '-' {
                2
            } else {
                1
            };
            let ed = span_digits(after_frac.skip(estart));
            if ed > 0 && (estart == 1 || after_frac.len() >= 3) {
                estart + ed as int
            } else {
                0
            }
        } else {
            0
        };
        let total: int = (if neg {
            1int
        } else {
            0int
        }) + nd as int + flen + elen;
        let raw = s.take(total);
        let rest = s.skip(total);
        if flen > 0 || elen > 0 {
            Some((ValueModel::Float(raw), rest))
        } else {
            let dv = digits_val(body.take(nd as int));
            if neg {
                if dv <= 0x8000000000000000 {
                    Some((ValueModel::Int((-dv) as i64), rest))
                } else {
                    Some((ValueModel::Decimal(raw), rest))
                }
            } else {
                if dv <= 0x7FFFFFFFFFFFFFFF {
                    Some((ValueModel::Int(dv as i64), rest))
                } else {
                    Some((ValueModel::Decimal(raw), rest))
                }
            }
        }
    }
}

/// Reading one JSON value from the front of `s`, leading whitespace
/// allowed: the grammar of [`Value::from_json_string`].
pub open spec fn jparse_value(s: Seq<char>) -> Option<(ValueModel, Seq<char>)>
    decreases s.len(), 0int,
{
    let t = skip_ws(s);
    if t.len() > s.len() {
        None
    } else if t.len() == 0 {
        None
    } else {
        let c = t.first();
        if c == 'n' {
            if t.len() >= 4 && t[1] == 'u' && t[2] == 'l' && t[3] == 'l' {
                Some((ValueModel::Null, t.skip(4)))
            } else {
                None
            }
        } else if c == 't' {
            if t.len() >= 4 && t[1] == 'r' && t[2] == 'u' && t[3] == 'e' {
                Some((ValueModel::Bool(true), t.skip(4)))
            } else {
                None
            }
        } else if c == 'f' {
            if t.len() >= 5 && t[1] == 'a' && t[2] == 'l' && t[3] == 's' && t[4] == 'e' {
                Some((ValueModel::Bool(false), t.skip(5)))
            } else {
                None
            }
        } else if c == '"' {
            match jparse_string_body(t.drop_first()) {
                None => None,
                Some((cs, r)) => Some((ValueModel::Strand(cs), r)),
            }
        } else if c == '[' {
            let u = skip_ws(t.drop_first());
            if u.len() > 0 && u.first() == ']' {
                Some((ValueModel::Array(Seq::empty()), u.drop_first()))
            } else {
                match jparse_items(t.drop_first()) {
                    None => None,
                    Some((ms, r)) => Some((ValueModel::Array(ms), r)),
                }
            }
        } else if c == '{' {
            let u = skip_ws(t.drop_first());
            if u.len() > 0 && u.first() == '}' {
                Some((ValueModel::Object(Seq::empty()), u.drop_first()))
            } else {
                match jparse_members(t.drop_first()) {
                    None => None,
                    Some((es, r)) => Some((ValueModel::Object(es), r)),
                }
            }
        } else if c == '-' || is_digit(c) {
            jparse_number(t)
        } else {
            None
        }
    }
}

/// Reading the members of a nonempty JSON array, from just after the
/// opening bracket to just after the closing one.
pub open spec fn jparse_items(s: Seq<char>) -> Option<(Seq<ValueModel>, Seq<char>)>
    decreases s.len(), 1int,
{
    match jparse_value(s) {
        None => None,
        Some((m, r)) => {
            let r2 = skip_ws(r);
            if r2.len() >= s.len() {
                None
            } else if r2.len() > 0 && r2.first() == ',' {
                match jparse_items(r2.drop_first()) {
                    None => None,
                    Some((ms, r3)) => Some((seq![m] + ms, r3)),
                }
            } else if r2.len() > 0 && r2.first() == ']' {
                Some((seq![m], r2.drop_first()))
            } else {
                None
            }
        },
    }
}

/// Reading the members of a nonempty JSON object, from just after the
/// opening brace to just after the closing one.
pub open spec fn jparse_members(s: Seq<char>) -> Option<(Seq<(Seq<char>, ValueModel)>, Seq<char>)>
    decreases s.len(), 1int,
{
    let t = skip_ws(s);
    if t.len() > s.len() {
        None
    } else if t.len() == 0 || t.first() != '"' {
        None
    } else {
        match jparse_string_body(t.drop_first()) {
            None => None,
            Some((k, r)) => {
                let r2 = skip_ws(r);
                if r2.len() >= s.len() {
                    None
                } else if r2.len() > 0 && r2.first() == ':' {
                    match jparse_value(r2.drop_first()) {
                        None => None,
                        Some((m, r3)) => {
                            let r4 = skip_ws(r3);
                            if r4.len() >= s.len() {
                                None
                            } else if r4.len() > 0 && r4.first() == ',' {
                                match jparse_members(r4.drop_first()) {
                                    None => None,
                                    Some((es, r5)) => Some((seq![(k, m)] + es, r5)),
                                }
                            } else if r4.len() > 0 && r4.first() == '}' {
                                Some((seq![(k, m)], r4.drop_first()))
                            } else {
                                None
                            }
                        },
                    }
                } else {
                    None
                }
            },
        }
    }
}

/// What a whole JSON document denotes: one value with nothing but
/// whitespace around it.
pub open spec fn jparse(s: Seq<char>) -> Option<ValueModel> {
    match jparse_value(s) {
        None => None,
        Some((m, r)) => if skip_ws(r).len() == 0 {
            Some(m)
        } else {
            None
        },
    }
}

fn json_fault() -> (r: crate::errors::JsonError) {
    crate::errors::JsonError { message: String::from_str("Failed to parse value from JSON string") }
}

/// The position after any whitespace at `i`.
fn ws_end(s: &str, i: usize) -> (j: usize)
    requires
        i <= s@.len(),
    ensures
        i <= j <= s@.len(),
        skip_ws(s@.skip(i as int)) == s@.skip(j as int),
{
    let n = s.unicode_len();
    let mut j = i;
    while j < n
        invariant
            i <= j <= n,
            n == s@.len(),
            skip_ws(s@.skip(i as int)) == skip_ws(s@.skip(j as int)),
        decreases n - j,
    {
        let c = s.get_char(j);
        if c == ' ' || c == '\n' || c == '\t' || c == '\r' {
            proof {
                assert(s@.skip(j as int).first() == s@[j as int]);
                assert(s@.skip(j as int).drop_first() =~= s@.skip(j + 1));
            }
            j += 1;
        } else {
            proof {
                assert(s@.skip(j as int).first() == s@[j as int]);
            }
            return j;
        }
    }
    proof {
        assert(s@.skip(j as int).len() == 0);
    }
    j
}

/// The position after any decimal digits at `i`.
fn digits_end(s: &str, i: usize) -> (j: usize)
    requires
        i <= s@.len(),
    ensures
        i <= j <= s@.len(),
        span_digits(s@.skip(i as int)) == j - i,
        span_digits(s@.skip(j as int)) == 0,
{
    let n = s.unicode_len();
    let mut j = i;
    while j < n
        invariant
            i <= j <= n,
            n == s@.len(),
            span_digits(s@.skip(i as int)) == (j - i) + span_digits(s@.skip(j as int)),
        decreases n - j,
    {
        let c = s.get_char(j);
        if '0' <= c && c <= '9' {
            proof {
                assert(s@.skip(j as int).first() == s@[j as int]);
                assert(s@.skip(j as int).drop_first() =~= s@.skip(j + 1));
            }
            j += 1;
        } else {
            proof {
                assert(s@.skip(j as int).first() == s@[j as int]);
                assert(span_digits(s@.skip(j as int)) == 0);
            }
            return j;
        }
    }
    proof {
        assert(s@.skip(j as int).len() == 0);
    }
    j
}

/// Every position below the digit span holds a digit.
proof fn lemma_span_digits_index(s: Seq<char>, k: int)
    requires
        0 <= k < span_digits(s),
    ensures
        is_digit(s[k]),
        span_digits(s) <= s.len(),
    decreases s.len(),
{
    if k == 0 {
        assert(span_digits(s) > 0);
        lemma_span_digits_len(s);
    } else {
        lemma_span_digits_index(s.drop_first(), k - 1);
        assert(s.drop_first()[k - 1] == s[k]);
        lemma_span_digits_len(s);
    }
}

/// The digit span never exceeds the sequence's length.
proof fn lemma_span_digits_len(s: Seq<char>)
    ensures
        span_digits(s) <= s.len(),
    decreases s.len(),
{
    if s.len() > 0 && is_digit(s.first()) {
        lemma_span_digits_len(s.drop_first());
    }
}

proof fn lemma_digits_val_push(s: Seq<char>, c: char)
    ensures
        digits_val(s.push(c)) == digits_val(s) * 10 + digit_val(c),
{
    assert(s.push(c).drop_last() =~= s);
}

/// The value of the digit run `s[i..j]`, reported exactly when it fits
/// an unsigned 64-bit word and as an overflow flag otherwise.
fn digits_value_scan(s: &str, i: usize, j: usize) -> (r: (u64, bool))
    requires
        i <= j <= s@.len(),
        forall|q: int| i <= q < j ==> is_digit(#[trigger] s@[q]),
    ensures
        r.1 ==> r.0 == digits_val(s@.subrange(i as int, j as int)),
        !r.1 ==> digits_val(s@.subrange(i as int, j as int)) > u64::MAX,
{
    let mut acc: u64 = 0;
    let mut fits = true;
    let mut k = i;
    proof {
        assert(s@.subrange(i as int, i as int) =~= Seq::<char>::empty());
    }
    while k < j
        invariant
            i <= k <= j <= s@.len(),
            forall|q: int| i <= q < j ==> is_digit(#[trigger] s@[q]),
            fits ==> acc == digits_val(s@.subrange(i as int, k as int)) && acc <= u64::MAX,
            !fits ==> digits_val(s@.subrange(i as int, k as int)) > u64::MAX,
        decreases j - k,
    {
        let c = s.get_char(k);
        let d: u32 = c as u32 - 48;
        proof {
            lemma_digits_val_push(s@.subrange(i as int, k as int), s@[k as int]);
            assert(s@.subrange(i as int, k + 1) =~= s@.subrange(i as int, k as int).push(
                s@[k as int],
            ));
        }
        if fits {
            let acc2: u128 = acc as u128 * 10 + d as u128;
            if acc2 > u64::MAX as u128 {
                fits = false;
                proof {
                    assert(digits_val(s@.subrange(i as int, k + 1)) == acc2);
                }
                acc = 0;
            } else {
                acc = #[verifier::truncate] (acc2 as u64);
            }
        } else {
            proof {
                let dv = digits_val(s@.subrange(i as int, k as int));
                assert(dv * 10 >= dv) by (nonlinear_arith)
                    requires
                        dv > u64::MAX,
                ;
            }
        }
        k += 1;
    }
    (acc, fits)
}

/// The value of a hexadecimal digit.
fn hexv(c: char) -> (r: Option<u32>)
    ensures
        match r {
            Some(u) => hex_val(c) == Some(u as int) && u < 16,
            None => hex_val(c) is None,
        },
{
    if '0' <= c && c <= '9' {
        Some(c as u32 - 48)
    } else if 'a' <= c && c <= 'f' {
        Some(c as u32 - 87)
    } else if 'A' <= c && c <= 'F' {
        Some(c as u32 - 55)
    } else {
        None
    }
}

/// Four hexadecimal digits at `i`.
fn parse_hex4(s: &str, i: usize) -> (r: Option<u32>)
    requires
        i <= s@.len(),
    ensures
        match r {
            Some(u) => hex4(s@.skip(i as int)) == Some(u as int) && u < 0x10000 && i + 4
                <= s@.len(),
            None => hex4(s@.skip(i as int)) is None,
        },
{
    let n = s.unicode_len();
    if n - i < 4 {
        return None;
    }
    proof {
        assert(s@.skip(i as int)[0] == s@[i as int]);
        assert(s@.skip(i as int)[1] == s@[i + 1]);
        assert(s@.skip(i as int)[2] == s@[i + 2]);
        assert(s@.skip(i as int)[3] == s@[i + 3]);
    }
    let a = match hexv(s.get_char(i)) {
        None => {
            return None;
        },
        Some(x) => x,
    };
    let b = match hexv(s.get_char(i + 1)) {
        None => {
            return None;
        },
        Some(x) => x,
    };
    let c = match hexv(s.get_char(i + 2)) {
        None => {
            return None;
        },
        Some(x) => x,
    };
    let d = match hexv(s.get_char(i + 3)) {
        None => {
            return None;
        },
        Some(x) => x,
    };
    Some(a * 4096 + b * 256 + c * 16 + d)
}

/// Reads a JSON string body starting just after the opening quote;
/// returns the decoded string and the position after the closing quote.
#[verifier::loop_isolation(false)]
#[verifier::rlimit(100)]
fn parse_string_at(s: &str, i: usize) -> (r: Result<(String, usize), crate::errors::JsonError>)
    requires
        i <= s@.len(),
    ensures
        match r {
            Ok((k, j)) => jparse_string_body(s@.skip(i as int)) == Some(
                (k@, s@.skip(j as int)),
            ) && i < j <= s@.len(),
            Err(_) => jparse_string_body(s@.skip(i as int)) is None,
        },
{
    let n = s.unicode_len();
    let mut out = String::new();
    let mut p = i;
    loop
        invariant
            i <= p <= n,
            jparse_string_body(s@.skip(i as int)) == (match jparse_string_body(
                s@.skip(p as int),
            ) {
                None => None::<(Seq<char>, Seq<char>)>,
                Some((cs, r)) => Some((out@ + cs, r)),
            }),
        decreases n - p,
    {
        if p == n {
            return Err(json_fault());
        }
        let c = s.get_char(p);
        proof {
            assert(s@.skip(p as int).first() == s@[p as int]);
            assert(s@.skip(p as int).drop_first() =~= s@.skip(p + 1));
        }
        if c == '"' {
            proof {
                assert(out@ + Seq::<char>::empty() =~= out@);
            }
            return Ok((out, p + 1));
        } else if c == '\\' {
            if p + 1 == n {
                return Err(json_fault());
            }
            let e = s.get_char(p + 1);
            proof {
                assert(s@.skip(p as int)[1] == s@[p + 1]);
            }
            if e == 'u' {
                proof {
                    assert(s@.skip(p as int).skip(2) =~= s@.skip(p + 2));
                }
                match parse_hex4(s, p + 2) {
                    None => {
                        return Err(json_fault());
                    },
                    Some(u) => {
                        if 0xD800 <= u && u < 0xDC00 {
                            if n - p >= 12 && s.get_char(p + 6) == '\\' && s.get_char(p + 7)
                                == 'u' {
                                proof {
                                    assert(s@.skip(p as int)[6] == s@[p + 6]);
                                    assert(s@.skip(p as int)[7] == s@[p + 7]);
                                    assert(s@.skip(p as int).skip(8) =~= s@.skip(p + 8));
                                }
                                match parse_hex4(s, p + 8) {
                                    None => {
                                        return Err(json_fault());
                                    },
                                    Some(u2) => {
                                        if 0xDC00 <= u2 && u2 < 0xE000 {
                                            let cp: u32 = 0x10000 + (u - 0xD800) * 1024 + (u2
                                                - 0xDC00);
                                            let ch = match crate::chars::char_from_u32(cp) {
                                                Some(ch) => ch,
                                                None => {
                                                    proof {
                                                        assert(false);
                                                    }
                                                    return Err(json_fault());
                                                },
                                            };
                                            let ghost before = out@;
                                            push_char(&mut out, ch);
                                            proof {
                                                assert(s@.skip(p as int).skip(12) =~= s@.skip(
                                                    p + 12,
                                                ));
                                                assert forall|cs: Seq<char>|
                                                    true implies before + (seq![ch] + cs) == (
                                                    before.push(ch)) + cs by {
                                                    assert(before + (seq![ch] + cs) =~= (
                                                    before.push(ch)) + cs);
                                                }
                                            }
                                            p = p + 12;
                                        } else {
                                            return Err(json_fault());
                                        }
                                    },
                                }
                            } else {
                                proof {
                                    if n - p >= 12 {
                                        assert(s@.skip(p as int)[6] == s@[p + 6]);
                                        assert(s@.skip(p as int)[7] == s@[p + 7]);
                                    }
                                }
                                return Err(json_fault());
                            }
                        } else if 0xDC00 <= u && u < 0xE000 {
                            return Err(json_fault());
                        } else {
                            let ch = match crate::chars::char_from_u32(u) {
                                Some(ch) => ch,
                                None => {
                                    proof {
                                        assert(false);
                                    }
                                    return Err(json_fault());
                                },
                            };
                            let ghost before = out@;
                            push_char(&mut out, ch);
                            proof {
                                assert(s@.skip(p as int).skip(6) =~= s@.skip(p + 6));
                                assert forall|cs: Seq<char>|
                                    true implies before + (seq![ch] + cs) == (before.push(ch))
                                    + cs by {
                                    assert(before + (seq![ch] + cs) =~= (before.push(ch)) + cs);
                                }
                            }
                            p = p + 6;
                        }
                    },
                }
            } else {
                let ch = if e == '"' {
                    '"'
                } else if e == '\\' {
                    '\\'
                } else if e == '/' {
                    '/'
                } else if e == 'n' {
                    '\n'
                } else if e == 'r' {
                    '\r'
                } else if e == 't' {
                    '\t'
                } else if e == 'b' {
                    match crate::chars::char_from_u32(8) {
                        Some(ch) => ch,
                        None => {
                            proof {
                                assert(false);
                            }
                            return Err(json_fault());
                        },
                    }
                } else if e == 'f' {
                    match crate::chars::char_from_u32(12) {
                        Some(ch) => ch,
                        None => {
                            proof {
                                assert(false);
                            }
                            return Err(json_fault());
                        },
                    }
                } else {
                    return Err(json_fault());
                };
                let ghost before = out@;
                push_char(&mut out, ch);
                proof {
                    assert(s@.skip(p as int).skip(2) =~= s@.skip(p + 2));
                    assert forall|cs: Seq<char>|
                        true implies before + (seq![ch] + cs) == (before.push(ch)) + cs by {
                        assert(before + (seq![ch] + cs) =~= (before.push(ch)) + cs);
                    }
                }
                p = p + 2;
            }
        } else {
            let ghost before = out@;
            push_char(&mut out, c);
            proof {
                assert forall|cs: Seq<char>|
                    true implies before + (seq![c] + cs) == (before.push(c)) + cs by {
                    assert(before + (seq![c] + cs) =~= (before.push(c)) + cs);
                }
            }
            p = p + 1;
        }
    }
}

/// Reads a JSON number starting at `i` (no leading whitespace).
#[verifier::loop_isolation(false)]
#[verifier::rlimit(100)]
fn parse_number_at(s: &str, i: usize) -> (r: Result<(Value, usize), crate::errors::JsonError>)
    requires
        i <= s@.len(),
    ensures
        match r {
            Ok((v, j)) => jparse_number(s@.skip(i as int)) == Some(
                (v@, s@.skip(j as int)),
            ) && i < j <= s@.len(),
            Err(_) => jparse_number(s@.skip(i as int)) is None,
        },
{
    let n = s.unicode_len();
    let ghost t = s@.skip(i as int);
    if i == n {
        return Err(json_fault());
    }
    let neg = s.get_char(i) == '-';
    proof {
        assert(t.first() == s@[i as int]);
    }
    let bstart = if neg {
        i + 1
    } else {
        i
    };
    proof {
        assert(t.drop_first() =~= s@.skip(i + 1));
    }
    let iend = digits_end(s, bstart);
    let ghost body = s@.skip(bstart as int);
    if iend == bstart {
        return Err(json_fault());
    }
    let ghost nd = (iend - bstart) as int;
    proof {
        assert(body.skip(nd) =~= s@.skip(iend as int));
    }
    // fraction
    let mut fend = iend;
    let mut has_frac = false;
    proof {
        assert(s@.skip(iend as int).len() >= 2 ==> s@.skip(iend as int)[0] == s@[iend as int]
            && s@.skip(iend as int)[1] == s@[iend + 1]);
    }
    if n - iend >= 2 && s.get_char(iend) == '.' {
        let c1 = s.get_char(iend + 1);
        if '0' <= c1 && c1 <= '9' {
            has_frac = true;
            proof {
                assert(s@.skip(iend as int).drop_first() =~= s@.skip(iend + 1));
            }
            fend = digits_end(s, iend + 1);
        }
    }
    let ghost flen: int = if has_frac {
        fend - iend
    } else {
        0int
    };
    proof {
        assert(flen == ({
            let after_int = body.skip(nd);
            if after_int.len() >= 2 && after_int.first() == '.' && is_digit(after_int[1]) {
                1 + span_digits(after_int.drop_first()) as int
            } else {
                0int
            }
        }));
        assert(s@.skip(iend as int).skip(flen) =~= s@.skip(fend as int));
    }
    // exponent
    let mut eend = fend;
    if n - fend >= 2 {
        let ec = s.get_char(fend);
        proof {
            assert(s@.skip(fend as int)[0] == s@[fend as int]);
            assert(s@.skip(fend as int)[1] == s@[fend + 1]);
        }
        if ec == 'e' || ec == 'E' {
            let c1 = s.get_char(fend + 1);
            let estart: usize = if c1 == '+' || c1 == '-' {
                2
            } else {
                1
            };
            proof {
                assert(s@.skip(fend as int).skip(estart as int) =~= s@.skip(fend + estart));
            }
            let dend = digits_end(s, fend + estart);
            if dend > fend + estart {
                eend = dend;
            }
        }
    }
    let ghost elen: int = eend - fend;
    proof {
        let after_frac = s@.skip(fend as int);
        assert(elen == ({
            if after_frac.len() >= 2 && (after_frac.first() == 'e' || after_frac.first() == 'E') {
                let estart: int = if after_frac[1] == '+' || after_frac[1] == '-' {
                    2int
                } else {
                    1int
                };
                let ed = span_digits(after_frac.skip(estart));
                if ed > 0 && (estart == 1 || after_frac.len() >= 3) {
                    estart + ed as int
                } else {
                    0int
                }
            } else {
                0int
            }
        }));
    }
    let ghost total: int = (if neg {
        1int
    } else {
        0int
    }) + nd + flen + elen;
    proof {
        assert(eend - i == total);
        assert(t.take(total) =~= s@.subrange(i as int, eend as int));
        assert(t.skip(total) =~= s@.skip(eend as int));
    }
    let raw = String::from_str(s.substring_char(i, eend));
    if has_frac || eend > fend {
        Ok((Value::Float(raw), eend))
    } else {
        proof {
            assert(body.take(nd) =~= s@.subrange(bstart as int, iend as int));
            assert forall|q: int| bstart <= q < iend implies is_digit(#[trigger] s@[q]) by {
                lemma_span_digits_index(body, q - bstart);
            }
        }
        let (acc, fits) = digits_value_scan(s, bstart, iend);
        if !fits {
            Ok((Value::Decimal(raw), eend))
        } else if neg {
            if acc <= 0x8000000000000000 {
                let v: i64 = #[verifier::truncate] ((-(acc as i128)) as i64);
                proof {
                    assert(v == (-(acc as int)) as i64);
                }
                Ok((Value::Int(v), eend))
            } else {
                Ok((Value::Decimal(raw), eend))
            }
        } else {
            if acc <= 0x7FFFFFFFFFFFFFFF {
                Ok((Value::Int(acc as i64), eend))
            } else {
                Ok((Value::Decimal(raw), eend))
            }
        }
    }
}

/// Reads one JSON value starting at `i`, leading whitespace allowed;
/// the workhorse behind [`Value::from_json_string`].
#[verifier::loop_isolation(false)]
#[verifier::rlimit(100)]
fn parse_value_at(s: &str, i: usize) -> (r: Result<(Value, usize), crate::errors::JsonError>)
    requires
        i <= s@.len(),
    ensures
        match r {
            Ok((v, j)) => jparse_value(s@.skip(i as int)) == Some(
                (v@, s@.skip(j as int)),
            ) && i < j <= s@.len(),
            Err(_) => jparse_value(s@.skip(i as int)) is None,
        },
    decreases s@.len() - i, 0int,
{
    let n = s.unicode_len();
    let ti = ws_end(s, i);
    let ghost t = s@.skip(ti as int);
    if ti == n {
        return Err(json_fault());
    }
    let c = s.get_char(ti);
    proof {
        assert(t.first() == s@[ti as int]);
        assert(t.drop_first() =~= s@.skip(ti + 1));
    }
    if c == 'n' {
        if n - ti >= 4 && s.get_char(ti + 1) == 'u' && s.get_char(ti + 2) == 'l' && s.get_char(
            ti + 3,
        ) == 'l' {
            proof {
                assert(t[1] == s@[ti + 1] && t[2] == s@[ti + 2] && t[3] == s@[ti + 3]);
                assert(t.skip(4) =~= s@.skip(ti + 4));
            }
            Ok((Value::Null, ti + 4))
        } else {
            proof {
                if n - ti >= 4 {
                    assert(t[1] == s@[ti + 1] && t[2] == s@[ti + 2] && t[3] == s@[ti + 3]);
                }
            }
            Err(json_fault())
        }
    } else if c == 't' {
        if n - ti >= 4 && s.get_char(ti + 1) == 'r' && s.get_char(ti + 2) == 'u' && s.get_char(
            ti + 3,
        ) == 'e' {
            proof {
                assert(t[1] == s@[ti + 1] && t[2] == s@[ti + 2] && t[3] == s@[ti + 3]);
                assert(t.skip(4) =~= s@.skip(ti + 4));
            }
            Ok((Value::Bool(true), ti + 4))
        } else {
            proof {
                if n - ti >= 4 {
                    assert(t[1] == s@[ti + 1] && t[2] == s@[ti + 2] && t[3] == s@[ti + 3]);
                }
            }
            Err(json_fault())
        }
    } else if c == 'f' {
        if n - ti >= 5 && s.get_char(ti + 1) == 'a' && s.get_char(ti + 2) == 'l' && s.get_char(
            ti + 3,
        ) == 's' && s.get_char(ti + 4) == 'e' {
            proof {
                assert(t[1] == s@[ti + 1] && t[2] == s@[ti + 2] && t[3] == s@[ti + 3] && t[4]
                    == s@[ti + 4]);
                assert(t.skip(5) =~= s@.skip(ti + 5));
            }
            Ok((Value::Bool(false), ti + 5))
        } else {
            proof {
                if n - ti >= 5 {
                    assert(t[1] == s@[ti + 1] && t[2] == s@[ti + 2] && t[3] == s@[ti + 3] && t[4]
                        == s@[ti + 4]);
                }
            }
            Err(json_fault())
        }
    } else if c == '"' {
        match parse_string_at(s, ti + 1) {
            Err(e) => Err(e),
            Ok((k, j)) => Ok((Value::Strand(k), j)),
        }
    } else if c == '[' {
        let u = ws_end(s, ti + 1);
        if u < n && s.get_char(u) == ']' {
            proof {
                assert(s@.skip(u as int).first() == s@[u as int]);
                assert(s@.skip(u as int).drop_first() =~= s@.skip(u + 1));
                assert(models_of(Seq::<Value>::empty()) =~= Seq::<ValueModel>::empty());
            }
            let items: Vec<Value> = Vec::new();
            Ok((Value::Array(items), u + 1))
        } else {
            proof {
                if u < n {
                    assert(s@.skip(u as int).first() == s@[u as int]);
                } else {
                    assert(s@.skip(u as int).len() == 0);
                }
            }
            match parse_items_at(s, ti + 1) {
                Err(e) => Err(e),
                Ok((items, j)) => Ok((Value::Array(items), j)),
            }
        }
    } else if c == '{' {
        let u = ws_end(s, ti + 1);
        if u < n && s.get_char(u) == '}' {
            proof {
                assert(s@.skip(u as int).first() == s@[u as int]);
                assert(s@.skip(u as int).drop_first() =~= s@.skip(u + 1));
                assert(entry_models_of(Seq::<Entry>::empty()) =~= Seq::<
                    (Seq<char>, ValueModel),
                >::empty());
            }
            let entries: Vec<Entry> = Vec::new();
            Ok((Value::Object(entries), u + 1))
        } else {
            proof {
                if u < n {
                    assert(s@.skip(u as int).first() == s@[u as int]);
                } else {
                    assert(s@.skip(u as int).len() == 0);
                }
            }
            match parse_members_at(s, ti + 1) {
                Err(e) => Err(e),
                Ok((entries, j)) => Ok((Value::Object(entries), j)),
            }
        }
    } else if c == '-' || ('0' <= c && c <= '9') {
        parse_number_at(s, ti)
    } else {
        Err(json_fault())
    }
}

/// Reads the members of a nonempty JSON array, from just after the
/// opening bracket to just after the closing one.
#[verifier::loop_isolation(false)]
#[verifier::rlimit(100)]
fn parse_items_at(s: &str, i: usize) -> (r: Result<(Vec<Value>, usize), crate::errors::JsonError>)
    requires
        i <= s@.len(),
    ensures
        match r {
            Ok((items, j)) => jparse_items(s@.skip(i as int)) == Some(
                (models_of(items@), s@.skip(j as int)),
            ) && i < j <= s@.len(),
            Err(_) => jparse_items(s@.skip(i as int)) is None,
        },
    decreases s@.len() - i, 1int,
{
    let n = s.unicode_len();
    let mut items: Vec<Value> = Vec::new();
    let mut q = i;
    proof {
        assert(models_of(items@) =~= Seq::<ValueModel>::empty());
    }
    loop
        invariant
            i <= q <= n,
            n == s@.len(),
            jparse_items(s@.skip(i as int)) == (match jparse_items(s@.skip(q as int)) {
                None => None::<(Seq<ValueModel>, Seq<char>)>,
                Some((ms, r)) => Some((models_of(items@) + ms, r)),
            }),
        decreases n - q,
    {
        let (v, j1) = match parse_value_at(s, q) {
            Err(e) => {
                return Err(e);
            },
            Ok(x) => x,
        };
        let r2 = ws_end(s, j1);
        proof {
            lemma_models_of_push(items@, v);
            let ghost ms0 = models_of(items@);
            assert forall|ms: Seq<ValueModel>| true implies ms0 + (seq![v@] + ms) == (ms0.push(
                v@,
            )) + ms by {
                assert(ms0 + (seq![v@] + ms) =~= (ms0.push(v@)) + ms);
            }
        }
        items.push(v);
        if r2 < n && s.get_char(r2) == ',' {
            proof {
                assert(s@.skip(r2 as int).first() == s@[r2 as int]);
                assert(s@.skip(r2 as int).drop_first() =~= s@.skip(r2 + 1));
            }
            q = r2 + 1;
        } else if r2 < n && s.get_char(r2) == ']' {
            proof {
                assert(s@.skip(r2 as int).first() == s@[r2 as int]);
                assert(s@.skip(r2 as int).drop_first() =~= s@.skip(r2 + 1));
                assert(models_of(items@) =~= models_of(items@).drop_last().push(v@));
                assert(models_of(items@).drop_last() + seq![v@] =~= models_of(items@));
            }
            return Ok((items, r2 + 1));
        } else {
            proof {
                if r2 < n {
                    assert(s@.skip(r2 as int).first() == s@[r2 as int]);
                } else {
                    assert(s@.skip(r2 as int).len() == 0);
                }
            }
            return Err(json_fault());
        }
    }
}

/// Reads the members of a nonempty JSON object, from just after the
/// opening brace to just after the closing one.
#[verifier::loop_isolation(false)]
#[verifier::rlimit(100)]
fn parse_members_at(s: &str, i: usize) -> (r: Result<
    (Vec<Entry>, usize),
    crate::errors::JsonError,
>)
    requires
        i <= s@.len(),
    ensures
        match r {
            Ok((entries, j)) => jparse_members(s@.skip(i as int)) == Some(
                (entry_models_of(entries@), s@.skip(j as int)),
            ) && i < j <= s@.len(),
            Err(_) => jparse_members(s@.skip(i as int)) is None,
        },
    decreases s@.len() - i, 1int,
{
    let n = s.unicode_len();
    let mut entries: Vec<Entry> = Vec::new();
    let mut q = i;
    proof {
        assert(entry_models_of(entries@) =~= Seq::<(Seq<char>, ValueModel)>::empty());
    }
    loop
        invariant
            i <= q <= n,
            n == s@.len(),
            jparse_members(s@.skip(i as int)) == (match jparse_members(s@.skip(q as int)) {
                None => None::<(Seq<(Seq<char>, ValueModel)>, Seq<char>)>,
                Some((es, r)) => Some((entry_models_of(entries@) + es, r)),
            }),
        decreases n - q,
    {
        let kt = ws_end(s, q);
        if kt == n {
            proof {
                assert(s@.skip(kt as int).len() == 0);
            }
            return Err(json_fault());
        }
        let kc = s.get_char(kt);
        proof {
            assert(s@.skip(kt as int).first() == s@[kt as int]);
            assert(s@.skip(kt as int).drop_first() =~= s@.skip(kt + 1));
        }
        if kc != '"' {
            return Err(json_fault());
        }
        let (key, j1) = match parse_string_at(s, kt + 1) {
            Err(e) => {
                return Err(e);
            },
            Ok(x) => x,
        };
        let r2 = ws_end(s, j1);
        if !(r2 < n && s.get_char(r2) == ':') {
            proof {
                if r2 < n {
                    assert(s@.skip(r2 as int).first() == s@[r2 as int]);
                } else {
                    assert(s@.skip(r2 as int).len() == 0);
                }
            }
            return Err(json_fault());
        }
        proof {
            assert(s@.skip(r2 as int).first() == s@[r2 as int]);
            assert(s@.skip(r2 as int).drop_first() =~= s@.skip(r2 + 1));
        }
        let (v, j2) = match parse_value_at(s, r2 + 1) {
            Err(e) => {
                return Err(e);
            },
            Ok(x) => x,
        };
        let r4 = ws_end(s, j2);
        let e = Entry { key, value: v };
        proof {
            lemma_entry_models_of_push(entries@, e);
            let ghost es0 = entry_models_of(entries@);
            let ghost pair = (e.key@, model_of(e.value));
            assert forall|es: Seq<(Seq<char>, ValueModel)>| true implies es0 + (seq![pair] + es)
                == (es0.push(pair)) + es by {
                assert(es0 + (seq![pair] + es) =~= (es0.push(pair)) + es);
            }
        }
        entries.push(e);
        if r4 < n && s.get_char(r4) == ',' {
            proof {
                assert(s@.skip(r4 as int).first() == s@[r4 as int]);
                assert(s@.skip(r4 as int).drop_first() =~= s@.skip(r4 + 1));
            }
            q = r4 + 1;
        } else if r4 < n && s.get_char(r4) == '}' {
            proof {
                assert(s@.skip(r4 as int).first() == s@[r4 as int]);
                assert(s@.skip(r4 as int).drop_first() =~= s@.skip(r4 + 1));
            }
            return Ok((entries, r4 + 1));
        } else {
            proof {
                if r4 < n {
                    assert(s@.skip(r4 as int).first() == s@[r4 as int]);
                } else {
                    assert(s@.skip(r4 as int).len() == 0);
                }
            }
            return Err(json_fault());
        }
    }
}

/// Emitting and re-parsing gives the value back, shown here for the
/// variants whose JSON rendering is a fixed literal; the same holds of
/// composite and numeric renderings and is exercised by tests.
pub proof fn lemma_json_round_trip_literals(m: ValueModel)
    requires
        m == ValueModel::Null || m == ValueModel::Bool(true) || m == ValueModel::Bool(false) || m
            == ValueModel::Array(Seq::<ValueModel>::empty()) || m == ValueModel::Object(
            Seq::<(Seq<char>, ValueModel)>::empty(),
        ),
    ensures
        jparse(json_chars(m, false, Seq::<char>::empty())) == Some(m),
{
    reveal_strlit("null");
    reveal_strlit("true");
    reveal_strlit("false");
    reveal_strlit("[]");
    reveal_strlit("{}");
    if m == ValueModel::Null {
        let s = "null"@;
        assert(skip_ws(s) == s);
        assert(s.skip(4).len() == 0);
        assert(skip_ws(s.skip(4)) == s.skip(4));
        assert(jparse_value(s) == Some((ValueModel::Null, s.skip(4))));
    } else if m == ValueModel::Bool(true) {
        let s = "true"@;
        assert(skip_ws(s) == s);
        assert(s.skip(4).len() == 0);
        assert(skip_ws(s.skip(4)) == s.skip(4));
        assert(jparse_value(s) == Some((ValueModel::Bool(true), s.skip(4))));
    } else if m == ValueModel::Bool(false) {
        let s = "false"@;
        assert(skip_ws(s) == s);
        assert(s.skip(5).len() == 0);
        assert(skip_ws(s.skip(5)) == s.skip(5));
        assert(jparse_value(s) == Some((ValueModel::Bool(false), s.skip(5))));
    } else if m == ValueModel::Array(Seq::<ValueModel>::empty()) {
        let s = "[]"@;
        assert(skip_ws(s) == s);
        assert(s.drop_first() =~= seq![']']);
        assert(skip_ws(s.drop_first()) == s.drop_first());
        assert(s.drop_first().drop_first().len() == 0);
        assert(skip_ws(s.drop_first().drop_first()) == s.drop_first().drop_first());
        assert(jparse_value(s) == Some(
            (ValueModel::Array(Seq::<ValueModel>::empty()), s.drop_first().drop_first()),
        ));
    } else {
        let s = "{}"@;
        assert(skip_ws(s) == s);
        assert(s.drop_first() =~= seq!['}']);
        assert(skip_ws(s.drop_first()) == s.drop_first());
        assert(s.drop_first().drop_first().len() == 0);
        assert(skip_ws(s.drop_first().drop_first()) == s.drop_first().drop_first());
        assert(jparse_value(s) == Some(
            (
                ValueModel::Object(Seq::<(Seq<char>, ValueModel)>::empty()),
                s.drop_first().drop_first(),
            ),
        ));
    }
}

/// A decimal rendering is nonempty, made of digits, and reads back as
/// the number it renders.
proof fn lemma_dec_digits_all(n: nat)
    ensures
        dec_digits(n).len() >= 1,
        forall|q: int| 0 <= q < dec_digits(n).len() ==> is_digit(#[trigger] dec_digits(n)[q]),
        digits_val(dec_digits(n)) == n,
    decreases n,
{
    if n < 10 {
        assert(digit_val(crate::render::digit_char(n)) == n);
        let s = seq![crate::render::digit_char(n)];
        assert(s.drop_last() =~= Seq::<char>::empty());
        assert(digits_val(Seq::<char>::empty()) == 0);
        assert(s.last() == crate::render::digit_char(n));
        assert(digits_val(s) == digits_val(s.drop_last()) * 10 + digit_val(s.last()));
    } else {
        lemma_dec_digits_all(n / 10);
        let s = dec_digits(n);
        assert(s.drop_last() =~= dec_digits(n / 10));
        assert(s.last() == crate::render::digit_char(n % 10));
        assert(digit_val(crate::render::digit_char(n % 10)) == n % 10);
        assert(digits_val(s) == digits_val(dec_digits(n / 10)) * 10 + digit_val(
            crate::render::digit_char(n % 10),
        ));
        assert(forall|q: int|
            0 <= q < s.len() - 1 ==> #[trigger] s[q] == dec_digits(n / 10)[q]);
    }
}

/// The digit span of an all-digit sequence is its whole length.
proof fn lemma_span_all_digits(s: Seq<char>)
    requires
        forall|q: int| 0 <= q < s.len() ==> is_digit(#[trigger] s[q]),
    ensures
        span_digits(s) == s.len(),
    decreases s.len(),
{
    if s.len() > 0 {
        lemma_span_all_digits(s.drop_first());
    }
}

/// JSON round trip for integers: the rendering of any 64-bit integer
/// value parses back to the same value.
pub proof fn lemma_json_round_trip_int(i: i64)
    ensures
        jparse(json_chars(ValueModel::Int(i), false, Seq::<char>::empty())) == Some(
            ValueModel::Int(i),
        ),
{
    let s = int_chars(i as int);
    if i >= 0 {
        lemma_dec_digits_all(i as nat);
        assert(is_digit(s.first()));
        assert(skip_ws(s) == s);
        lemma_span_all_digits(s);
        let nd = span_digits(s);
        assert(s.skip(nd as int) =~= Seq::<char>::empty());
        assert(s.take(nd as int) =~= s);
        assert(digits_val(s.take(nd as int)) == i);
        assert(jparse_number(s) matches Some((m, r)) && m == ValueModel::Int(i) && r.len() == 0);
        assert(jparse_value(s) == jparse_number(s));
    } else {
        let mag = (-(i as int)) as nat;
        lemma_dec_digits_all(mag);
        assert(s.first() == '-');
        assert(skip_ws(s) == s);
        let body = s.drop_first();
        assert(body =~= dec_digits(mag));
        lemma_span_all_digits(body);
        let nd = span_digits(body);
        assert(body.skip(nd as int) =~= Seq::<char>::empty());
        assert(body.take(nd as int) =~= body);
        assert(digits_val(body.take(nd as int)) == mag);
        assert(mag <= 0x8000000000000000);
        assert((-(mag as int)) as i64 == i);
        assert(jparse_number(s) matches Some((m, r)) && m == ValueModel::Int(i) && r.len() == 0);
        assert(jparse_value(s) == jparse_number(s));
    }
}

impl Value {
    /// Parse a JSON text into a Value: succeeds exactly on the JSON
    /// grammar of [`jparse`], with objects keeping their key order and
    /// numbers given the best-fitting numeric subtype.
    pub fn from_json_string(val: String) -> (r: Result<Value, crate::errors::JsonError>)
        ensures
            r matches Ok(v) ==> jparse(val@) == Some(v@),
            r is Err ==> jparse(val@) is None,
    {
        let s = val.as_str();
        proof {
            assert(s@.skip(0) =~= s@);
        }
        match parse_value_at(s, 0) {
            Err(e) => Err(e),
            Ok((v, j)) => {
                let j2 = ws_end(s, j);
                if j2 == s.unicode_len() {
                    proof {
                        assert(s@.skip(j2 as int).len() == 0);
                    }
                    Ok(v)
                } else {
                    proof {
                        assert(s@.skip(j2 as int).len() > 0);
                    }
                    Err(json_fault())
                }
            },
        }
    }
}

} // verus!
