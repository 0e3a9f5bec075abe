//! The textual codec's formatting half: rendering a [`Value`] into the
//! query language's literal syntax, in a compact single-line form or a
//! pretty multi-line form indented by one tab stop per nesting level.
//! Formatting is total: it never fails for any value.
//!
//! Fixed renderings per variant: null as `NULL`; booleans bare; numbers
//! as their decimal text; strings double-quoted with escapes; byte
//! strings as `b"<hex>"`; durations as seconds and nanoseconds with unit
//! suffixes; record identifiers as `table:key`; sub-queries in
//! parentheses. Scalars render identically in both modes.

use vstd::prelude::*;
use crate::chars::push_char;
use crate::render::{
    int_chars, quoted, hex_bytes, dec_digits, is_plain_key, push_i64_digits, push_u64_digits,
    push_hex, push_quoted, plain_key,
};
use crate::value::{Entry, Value, ValueModel, model_of, models_of, entry_models_of,
    lemma_models_of_index, lemma_models_of_len, lemma_entry_models_of_index,
    lemma_entry_models_of_len};

verus! {

broadcast use {vstd::std_specs::vec::group_vec_axioms, vstd::seq::axiom_seq_index_decreases};

/// The rendering of a duration: whole seconds with an `s` suffix, then
/// any nanosecond remainder with an `ns` suffix; zero renders as `0s`.
pub open spec fn duration_chars(secs: u64, nanos: u32) -> Seq<char> {
    if nanos == 0 {
        dec_digits(secs as nat) + seq!['s']
    } else if secs == 0 {
        dec_digits(nanos as nat) + seq!['n', 's']
    } else {
        dec_digits(secs as nat) + seq!['s'] + dec_digits(nanos as nat) + seq!['n', 's']
    }
}

/// The rendering of an object key: bare when it is a plain identifier,
/// quoted otherwise.
pub open spec fn key_chars(k: Seq<char>) -> Seq<char> {
    if is_plain_key(k) {
        k
    } else {
        quoted(k)
    }
}

/// The line prefix of one composite member: in pretty mode a newline and
/// the member's indentation, in compact mode nothing.
pub open spec fn member_prefix(pretty: bool, ind: Seq<char>) -> Seq<char> {
    if pretty {
        seq!['\n'] + ind
    } else {
        Seq::empty()
    }
}

/// The separator written before every member but the first.
pub open spec fn member_sep(pretty: bool) -> Seq<char> {
    if pretty {
        seq![',']
    } else {
        ", "@
    }
}

/// The rendering of one value in the literal syntax. `ind` is the
/// indentation of the line the value starts on; members of composite
/// values are indented one tab stop further.
pub open spec fn fmt_value(m: ValueModel, pretty: bool, ind: Seq<char>) -> Seq<char>
    decreases m, 0int,
{
    match m {
        ValueModel::Null => "NULL"@,
        ValueModel::Bool(b) => if b {
            "true"@
        } else {
            "false"@
        },
        ValueModel::Int(i) => int_chars(i as int),
        ValueModel::Float(s) => s,
        ValueModel::Decimal(s) => s,
        ValueModel::Strand(s) => quoted(s),
        ValueModel::Bytes(b) => seq!['b', '"'] + hex_bytes(b) + seq!['"'],
        ValueModel::Duration(secs, nanos) => duration_chars(secs, nanos),
        ValueModel::Thing(t, i) => t + seq![':'] + i,
        ValueModel::Query(s) => seq!['('] + s + seq![')'],
        ValueModel::Array(items) => if items.len() == 0 {
            "[]"@
        } else if pretty {
            seq!['['] + fmt_items(items, true, ind.push('\t')) + seq!['\n'] + ind + seq![']']
        } else {
            seq!['['] + fmt_items(items, false, ind) + seq![']']
        },
        ValueModel::Object(es) => if es.len() == 0 {
            "{}"@
        } else if pretty {
            seq!['{'] + fmt_entries(es, true, ind.push('\t')) + seq!['\n'] + ind + seq!['}']
        } else {
            "{ "@ + fmt_entries(es, false, ind) + " }"@
        },
    }
}

/// The members of an array, each behind its prefix, separated.
pub open spec fn fmt_items(items: Seq<ValueModel>, pretty: bool, ind: Seq<char>) -> Seq<char>
    decreases items, 1int,
{
    if items.len() == 0 {
        Seq::empty()
    } else {
        let head = member_prefix(pretty, ind) + fmt_value(items.first(), pretty, ind);
        if items.len() == 1 {
            head
        } else {
            head + member_sep(pretty) + fmt_items(items.drop_first(), pretty, ind)
        }
    }
}

/// The members of an object, each behind its prefix, separated.
pub open spec fn fmt_entries(es: Seq<(Seq<char>, ValueModel)>, pretty: bool, ind: Seq<char>) -> Seq<
    char,
>
    decreases es, 1int,
{
    if es.len() == 0 {
        Seq::empty()
    } else {
        let head = member_prefix(pretty, ind) + key_chars(es.first().0) + ": "@ + fmt_value(
            es.first().1,
            pretty,
            ind,
        );
        if es.len() == 1 {
            head
        } else {
            head + member_sep(pretty) + fmt_entries(es.drop_first(), pretty, ind)
        }
    }
}

proof fn lemma_fmt_items_push(s: Seq<ValueModel>, m: ValueModel, pretty: bool, ind: Seq<char>)
    ensures
        fmt_items(s.push(m), pretty, ind) == if s.len() == 0 {
            member_prefix(pretty, ind) + fmt_value(m, pretty, ind)
        } else {
            fmt_items(s, pretty, ind) + member_sep(pretty) + (member_prefix(pretty, ind)
                + fmt_value(m, pretty, ind))
        },
    decreases s,
{
    if s.len() == 0 {
        assert(s.push(m).first() == m);
        assert(s.push(m).len() == 1);
    } else {
        assert(s.push(m).first() == s.first());
        assert(s.push(m).drop_first() =~= s.drop_first().push(m));
        lemma_fmt_items_push(s.drop_first(), m, pretty, ind);
        let head = member_prefix(pretty, ind) + fmt_value(s.first(), pretty, ind);
        if s.len() == 1 {
            assert(s.drop_first().len() == 0);
            assert(head + member_sep(pretty) + (member_prefix(pretty, ind) + fmt_value(
                m,
                pretty,
                ind,
            )) =~= head + (member_sep(pretty) + (member_prefix(pretty, ind) + fmt_value(
                m,
                pretty,
                ind,
            ))));
            assert(fmt_items(s.push(m), pretty, ind) =~= head + member_sep(pretty) + (
            member_prefix(pretty, ind) + fmt_value(m, pretty, ind)));
        } else {
            let tail_push = fmt_items(s.drop_first(), pretty, ind) + member_sep(pretty) + (
            member_prefix(pretty, ind) + fmt_value(m, pretty, ind));
            assert(fmt_items(s.push(m), pretty, ind) =~= head + member_sep(pretty) + tail_push);
            assert(fmt_items(s, pretty, ind) + member_sep(pretty) + (member_prefix(pretty, ind)
                + fmt_value(m, pretty, ind)) =~= head + member_sep(pretty) + tail_push);
        }
    }
}

proof fn lemma_fmt_entries_push(
    s: Seq<(Seq<char>, ValueModel)>,
    k: Seq<char>,
    m: ValueModel,
    pretty: bool,
    ind: Seq<char>,
)
    ensures
        fmt_entries(s.push((k, m)), pretty, ind) == if s.len() == 0 {
            member_prefix(pretty, ind) + key_chars(k) + ": "@ + fmt_value(m, pretty, ind)
        } else {
            fmt_entries(s, pretty, ind) + member_sep(pretty) + (member_prefix(pretty, ind)
                + key_chars(k) + ": "@ + fmt_value(m, pretty, ind))
        },
    decreases s,
{
    if s.len() == 0 {
        assert(s.push((k, m)).first() == (k, m));
        assert(s.push((k, m)).len() == 1);
    } else {
        assert(s.push((k, m)).first() == s.first());
        assert(s.push((k, m)).drop_first() =~= s.drop_first().push((k, m)));
        lemma_fmt_entries_push(s.drop_first(), k, m, pretty, ind);
        let head = member_prefix(pretty, ind) + key_chars(s.first().0) + ": "@ + fmt_value(
            s.first().1,
            pretty,
            ind,
        );
        let new_mem = member_prefix(pretty, ind) + key_chars(k) + ": "@ + fmt_value(
            m,
            pretty,
            ind,
        );
        if s.len() == 1 {
            assert(s.drop_first().len() == 0);
            assert(head + member_sep(pretty) + new_mem =~= head + (member_sep(pretty) + new_mem));
            assert(fmt_entries(s.push((k, m)), pretty, ind) =~= head + member_sep(pretty)
                + new_mem);
        } else {
            let tail_push = fmt_entries(s.drop_first(), pretty, ind) + member_sep(pretty)
                + new_mem;
            assert(fmt_entries(s.push((k, m)), pretty, ind) =~= head + member_sep(pretty)
                + tail_push);
            assert(fmt_entries(s, pretty, ind) + member_sep(pretty) + new_mem =~= head
                + member_sep(pretty) + tail_push);
        }
    }
}

/// Appends a duration rendering.
pub(crate) fn push_duration(out: &mut String, secs: u64, nanos: u32)
    ensures
        final(out)@ == old(out)@ + duration_chars(secs, nanos),
{
    if nanos == 0 {
        push_u64_digits(out, secs);
        push_char(out, 's');
        proof {
            assert((old(out)@ + dec_digits(secs as nat)).push('s') =~= old(out)@ + duration_chars(
                secs,
                nanos,
            ));
        }
    } else if secs == 0 {
        push_u64_digits(out, nanos as u64);
        push_char(out, 'n');
        push_char(out, 's');
        proof {
            assert((old(out)@ + dec_digits(nanos as nat)).push('n').push('s') =~= old(out)@
                + duration_chars(secs, nanos));
        }
    } else {
        push_u64_digits(out, secs);
        push_char(out, 's');
        push_u64_digits(out, nanos as u64);
        push_char(out, 'n');
        push_char(out, 's');
        proof {
            assert(((old(out)@ + dec_digits(secs as nat)).push('s') + dec_digits(
                nanos as nat,
            )).push('n').push('s') =~= old(out)@ + duration_chars(secs, nanos));
        }
    }
}

/// Appends an object key, bare or quoted.
fn push_key(out: &mut String, k: &String)
    ensures
        final(out)@ == old(out)@ + key_chars(k@),
{
    if plain_key(k) {
        out.append(k.as_str());
    } else {
        push_quoted(out, k);
    }
}

#[verifier::loop_isolation(false)]
#[verifier::rlimit(100)]
fn write_array(out: &mut String, items: &Vec<Value>, pretty: bool, ind: &String)
    ensures
        final(out)@ == old(out)@ + fmt_value(
            ValueModel::Array(models_of(items@)),
            pretty,
            ind@,
        ),
    decreases items, 1int,
{
    let n = items.len();
    if n == 0 {
        out.append("[]");
    } else {
        push_char(out, '[');
        let mut ind2 = ind.clone();
        if pretty {
            push_char(&mut ind2, '\t');
        }
        let ghost mind: Seq<char> = ind2@;
        let ghost mid = out@;
        proof {
            lemma_models_of_len(items@);
            assert forall|q: int| 0 <= q < n implies models_of(items@)[q] == model_of(
                items@[q],
            ) by {
                lemma_models_of_index(items@, q);
            }
            assert(fmt_items(models_of(items@).take(0), pretty, mind) =~= Seq::<
                char,
            >::empty());
            assert(mid + Seq::<char>::empty() =~= mid);
        }
        let mut j: usize = 0;
        while j < n
            invariant
                j <= n,
                out@ == mid + fmt_items(models_of(items@).take(j as int), pretty, mind),
            decreases n - j,
        {
            let ghost before = out@;
            let ghost sep_expr: Seq<char> = if j == 0 {
                Seq::empty()
            } else {
                member_sep(pretty)
            };
            if j > 0 {
                if pretty {
                    push_char(out, ',');
                } else {
                    out.append(", ");
                }
            }
            if pretty {
                push_char(out, '\n');
                out.append(ind2.as_str());
            }
            proof {
                assert(out@ =~= before + sep_expr + member_prefix(pretty, mind));
                assert(decreases_to!(*items => items@));
                assert(decreases_to!(items@ => items@[j as int]));
            }
            write_value(out, &items[j], pretty, &ind2);
            proof {
                lemma_fmt_items_push(
                    models_of(items@).take(j as int),
                    models_of(items@)[j as int],
                    pretty,
                    mind,
                );
                assert(models_of(items@).take(j + 1) =~= models_of(items@).take(
                    j as int,
                ).push(models_of(items@)[j as int]));
                assert(before + sep_expr + member_prefix(pretty, mind) + fmt_value(
                    models_of(items@)[j as int],
                    pretty,
                    mind,
                ) =~= mid + fmt_items(models_of(items@).take(j + 1), pretty, mind));
            }
            j += 1;
        }
        let ghost body = out@;
        if pretty {
            push_char(out, '\n');
            out.append(ind.as_str());
        }
        push_char(out, ']');
        proof {
            assert(models_of(items@).take(n as int) =~= models_of(items@));
            assert(out@ =~= old(out)@ + fmt_value(ValueModel::Array(models_of(items@)), pretty, ind@));
        }
    }
}

#[verifier::loop_isolation(false)]
#[verifier::rlimit(100)]
fn write_object(out: &mut String, entries: &Vec<Entry>, pretty: bool, ind: &String)
    ensures
        final(out)@ == old(out)@ + fmt_value(
            ValueModel::Object(entry_models_of(entries@)),
            pretty,
            ind@,
        ),
    decreases entries, 1int,
{
    let n = entries.len();
    if n == 0 {
        out.append("{}");
    } else {
        if pretty {
            push_char(out, '{');
        } else {
            out.append("{ ");
        }
        let mut ind2 = ind.clone();
        if pretty {
            push_char(&mut ind2, '\t');
        }
        let ghost mind: Seq<char> = ind2@;
        let ghost mid = out@;
        proof {
            lemma_entry_models_of_len(entries@);
            assert forall|q: int| 0 <= q < n implies entry_models_of(entries@)[q] == (
            entries@[q].key@,
            model_of(entries@[q].value),
            ) by {
                lemma_entry_models_of_index(entries@, q);
            }
            assert(fmt_entries(entry_models_of(entries@).take(0), pretty, mind) =~= Seq::<
                char,
            >::empty());
            assert(mid + Seq::<char>::empty() =~= mid);
        }
        let mut j: usize = 0;
        while j < n
            invariant
                j <= n,
                out@ == mid + fmt_entries(
                    entry_models_of(entries@).take(j as int),
                    pretty,
                    mind,
                ),
            decreases n - j,
        {
            let ghost before = out@;
            let ghost sep_expr: Seq<char> = if j == 0 {
                Seq::empty()
            } else {
                member_sep(pretty)
            };
            if j > 0 {
                if pretty {
                    push_char(out, ',');
                } else {
                    out.append(", ");
                }
            }
            if pretty {
                push_char(out, '\n');
                out.append(ind2.as_str());
            }
            let e = &entries[j];
            push_key(out, &e.key);
            out.append(": ");
            proof {
                assert(out@ =~= before + sep_expr + (member_prefix(pretty, mind)
                    + key_chars(entries@[j as int].key@) + ": "@));
                assert(decreases_to!(*entries => entries@));
                assert(decreases_to!(entries@ => entries@[j as int]));
                assert(decreases_to!(entries@[j as int] => entries@[j as int].value));
            }
            write_value(out, &e.value, pretty, &ind2);
            proof {
                lemma_fmt_entries_push(
                    entry_models_of(entries@).take(j as int),
                    entries@[j as int].key@,
                    model_of(entries@[j as int].value),
                    pretty,
                    mind,
                );
                assert(entry_models_of(entries@).take(j + 1) =~= entry_models_of(
                    entries@,
                ).take(j as int).push(entry_models_of(entries@)[j as int]));
                assert(before + sep_expr + (member_prefix(pretty, mind) + key_chars(
                    entries@[j as int].key@,
                ) + ": "@) + fmt_value(
                    model_of(entries@[j as int].value),
                    pretty,
                    mind,
                ) =~= mid + fmt_entries(
                    entry_models_of(entries@).take(j + 1),
                    pretty,
                    mind,
                ));
            }
            j += 1;
        }
        if pretty {
            push_char(out, '\n');
            out.append(ind.as_str());
            push_char(out, '}');
        } else {
            out.append(" }");
        }
        proof {
            assert(entry_models_of(entries@).take(n as int) =~= entry_models_of(entries@));
            assert(out@ =~= old(out)@ + fmt_value(ValueModel::Object(entry_models_of(entries@)), pretty, ind@));
        }
    }
}

/// Appends the literal rendering of `v`; the workhorse behind
/// [`Value::format`].
#[verifier::loop_isolation(false)]
#[verifier::rlimit(100)]
fn write_value(out: &mut String, v: &Value, pretty: bool, ind: &String)
    ensures
        final(out)@ == old(out)@ + fmt_value(v@, pretty, ind@),
    decreases v, 0int,
{
    match v {
        Value::Null => {
            out.append("NULL");
        },
        Value::Bool(b) => {
            if *b {
                out.append("true");
            } else {
                out.append("false");
            }
        },
        Value::Int(i) => {
            push_i64_digits(out, *i);
        },
        Value::Float(s) => {
            out.append(s.as_str());
        },
        Value::Decimal(s) => {
            out.append(s.as_str());
        },
        Value::Strand(s) => {
            push_quoted(out, s);
        },
        Value::Bytes(b) => {
            push_char(out, 'b');
            push_char(out, '"');
            push_hex(out, b);
            push_char(out, '"');
            proof {
                assert((old(out)@.push('b').push('"') + hex_bytes(b@)).push('"') =~= old(out)@
                    + fmt_value(v@, pretty, ind@));
            }
        },
        Value::Duration(secs, nanos) => {
            push_duration(out, *secs, *nanos);
        },
        Value::Thing(t, i) => {
            out.append(t.as_str());
            push_char(out, ':');
            out.append(i.as_str());
            proof {
                assert((old(out)@ + t@).push(':') + i@ =~= old(out)@ + (t@ + seq![':'] + i@));
            }
        },
        Value::Query(s) => {
            push_char(out, '(');
            out.append(s.as_str());
            push_char(out, ')');
            proof {
                assert((old(out)@.push('(') + s@).push(')') =~= old(out)@ + (seq!['('] + s@
                    + seq![')']));
            }
        },
        Value::Array(items) => {
            write_array(out, items, pretty, ind);
        },
        Value::Object(entries) => {
            write_object(out, entries, pretty, ind);
        },
    }
}

impl Value {
    /// Render this value in the literal syntax: compact single-line
    /// form, or pretty multi-line form with one member per line and one
    /// tab stop per nesting level. Total: formatting never fails.
    pub fn format(&self, pretty: bool) -> (r: String)
        ensures
            r@ == fmt_value(self@, pretty, Seq::<char>::empty()),
    {
        let mut out = String::new();
        let ind = String::new();
        write_value(&mut out, self, pretty, &ind);
        proof {
            assert(Seq::<char>::empty() + fmt_value(self@, pretty, Seq::<char>::empty())
                =~= fmt_value(self@, pretty, Seq::<char>::empty()));
        }
        out
    }
}

/// Scalar variants render identically in compact and pretty mode: the
/// two modes differ only in the layout of composite values.
pub proof fn lemma_scalar_format_mode_independent(m: ValueModel, ind: Seq<char>)
    requires
        !(m is Array),
        !(m is Object),
    ensures
        fmt_value(m, true, ind) == fmt_value(m, false, ind),
{
}

} // verus!
