//! Canonical serialization of parsed trees, and the round-trip law: parsing
//! a rendered tree yields exactly that tree. Together with the parser's
//! exact contracts this states that re-serializing a parse result
//! reproduces an equivalent document.

use vstd::prelude::*;

use crate::model::at_least;
use crate::model::escape_step;
use crate::model::is_digit;
use crate::model::is_exp_marker;
use crate::model::is_float_literal;
use crate::model::is_mantissa;
use crate::model::is_number_byte;
use crate::model::is_sign;
use crate::model::is_utf8;
use crate::model::is_ws;
use crate::model::keys_unique;
use crate::model::lemma_number_run_steps;
use crate::model::lemma_skip_ws_from;
use crate::model::lemma_upsert_missing;
use crate::model::number_run_end;
use crate::model::spec_number;
use crate::model::spec_string_body;
use crate::model::utf8_lossy_of;
use crate::model::wf_entries;
use crate::model::wf_items;
use crate::model::wf_value;
use crate::model::SpecError;
use crate::model::SpecValue;

verus! {

/// The serialization of a tree: no whitespace, object entries in stored
/// order, string bytes copied with `"` and `\` escaped, number literals
/// verbatim.
pub open spec fn render_value(v: SpecValue) -> Seq<u8>
    decreases v, 1int,
{
    match v {
        SpecValue::Object(entries) => seq![0x7bu8] + render_entries(entries) + seq![0x7du8],
        SpecValue::Array(items) => seq![0x5bu8] + render_items(items) + seq![0x5du8],
        SpecValue::String(b) => seq![0x22u8] + render_string_body(b) + seq![0x22u8],
        SpecValue::Number(lit) => lit,
        SpecValue::Boolean(b) => if b {
            seq![0x74u8, 0x72u8, 0x75u8, 0x65u8]
        } else {
            seq![0x66u8, 0x61u8, 0x6cu8, 0x73u8, 0x65u8]
        },
        SpecValue::Null => seq![0x6eu8, 0x75u8, 0x6cu8, 0x6cu8],
    }
}

pub open spec fn render_items(items: Seq<SpecValue>) -> Seq<u8>
    decreases items, 0int,
{
    if items.len() == 0 {
        Seq::empty()
    } else if items.len() == 1 {
        render_value(items[0])
    } else {
        render_value(items[0]) + seq![0x2cu8] + render_items(items.drop_first())
    }
}

pub open spec fn render_entries(entries: Seq<(Seq<u8>, SpecValue)>) -> Seq<u8>
    decreases entries, 0int,
{
    if entries.len() == 0 {
        Seq::empty()
    } else if entries.len() == 1 {
        render_entry(entries[0])
    } else {
        render_entry(entries[0]) + seq![0x2cu8] + render_entries(entries.drop_first())
    }
}

pub open spec fn render_entry(e: (Seq<u8>, SpecValue)) -> Seq<u8>
    decreases e, 0int,
{
    seq![0x22u8] + render_string_body(e.0) + seq![0x22u8, 0x3au8] + render_value(e.1)
}

/// String bytes as they appear between the quotes: `"` and `\` get a
/// backslash, every other byte is copied.
pub open spec fn render_string_body(b: Seq<u8>) -> Seq<u8>
    decreases b.len(),
{
    if b.len() == 0 {
        Seq::empty()
    } else {
        let head: Seq<u8> = if b[0] == 0x22 || b[0] == 0x5c {
            seq![0x5cu8, b[0]]
        } else {
            seq![b[0]]
        };
        head + render_string_body(b.drop_first())
    }
}

/// A float literal consists of number bytes only, and is nonempty.
pub proof fn lemma_float_literal_bytes(lit: Seq<u8>)
    requires
        is_float_literal(lit),
    ensures
        lit.len() >= 1,
        forall|k: int| 0 <= k < lit.len() ==> is_number_byte(#[trigger] lit[k]),
{
    let n = lit.len() as int;
    let c: int = if lit.len() > 0 && is_sign(lit[0]) {
        1
    } else {
        0
    };
    if is_mantissa(lit, c, n) {
        lemma_mantissa_bytes(lit, c, n);
    } else {
        let p = choose|p: int|
            c <= p < n && is_exp_marker(#[trigger] lit[p]) && is_mantissa(lit, c, p)
                && crate::model::is_exponent(lit, p + 1, n);
        lemma_mantissa_bytes(lit, c, p);
        assert forall|k: int| 0 <= k < n implies is_number_byte(#[trigger] lit[k]) by {
            if k < c {
            } else if k < p {
            } else if k == p {
            } else {
                let a2: int = if p + 1 < n && is_sign(lit[p + 1]) {
                    p + 2
                } else {
                    p + 1
                };
                if k >= a2 {
                    assert(is_digit(lit[k]));
                }
            }
        }
    }
}

proof fn lemma_mantissa_bytes(lit: Seq<u8>, a: int, b: int)
    requires
        0 <= a <= b <= lit.len(),
        is_mantissa(lit, a, b),
    ensures
        b - a >= 1,
        forall|k: int| a <= k < b ==> is_number_byte(#[trigger] lit[k]),
{
    if b - a >= 1 && crate::model::digits_in(lit, a, b) {
    } else {
        let d = choose|d: int|
            a <= d < b && lit[d] == 0x2e && crate::model::digits_in(lit, a, d)
                && crate::model::digits_in(lit, d + 1, b);
        assert forall|k: int| a <= k < b implies is_number_byte(lit[k]) by {
            if k < d {
                assert(is_digit(lit[k]));
            } else if k > d {
                assert(is_digit(lit[k]));
            }
        }
    }
}

/// A rendered tree never starts with whitespace, a closing delimiter, a
/// comma, or a colon, and is never empty.
pub proof fn lemma_render_first_byte(v: SpecValue)
    requires
        wf_value(v),
    ensures
        render_value(v).len() >= 1,
        !is_ws(render_value(v)[0]),
        render_value(v)[0] != 0x5d && render_value(v)[0] != 0x7d && render_value(v)[0] != 0x2c
            && render_value(v)[0] != 0x3a,
{
    match v {
        SpecValue::Number(lit) => {
            lemma_float_literal_bytes(lit);
        },
        _ => {},
    }
}

/// A number literal placed at `i`, not followed by another number byte,
/// parses back to itself.
pub proof fn lemma_number_render_parses(s: Seq<u8>, i: int, lit: Seq<u8>)
    requires
        0 <= i,
        i + lit.len() <= s.len(),
        s.subrange(i, i + lit.len()) == lit,
        is_float_literal(lit),
        lit.len() <= 320,
        i + lit.len() == s.len() || !is_number_byte(s[i + lit.len()]),
    ensures
        spec_number(s, i) == Ok::<(Seq<u8>, int), (SpecError, int)>((lit, i + lit.len())),
{
    lemma_float_literal_bytes(lit);
    let e = i + lit.len();
    assert(forall|k: int| i <= k < e ==> s[k] == lit[k - i] && is_number_byte(s[k]));
    lemma_number_run_steps(s, i, e);
    assert(number_run_end(s, e) == e);
    assert(number_run_end(s, i) == e);
}

/// A rendered string body placed at `i` and followed by a closing quote
/// decodes back to the original bytes.
pub proof fn lemma_string_render_parses(s: Seq<u8>, i: int, b: Seq<u8>, acc: Seq<u8>)
    requires
        0 <= i,
        i + render_string_body(b).len() < s.len(),
        s.subrange(i, i + render_string_body(b).len()) == render_string_body(b),
        s[i + render_string_body(b).len()] == 0x22,
    ensures
        spec_string_body(s, i, acc) == (if is_utf8(acc + b) {
            Ok::<(Seq<u8>, int), (SpecError, int)>((acc + b, i + render_string_body(b).len() + 1))
        } else {
            Err::<(Seq<u8>, int), (SpecError, int)>(
                (
                    SpecError::InvalidUtf8 { string: utf8_lossy_of(acc + b) },
                    i + render_string_body(b).len() + 1,
                ),
            )
        }),
    decreases b.len(),
{
    let rb = render_string_body(b);
    if b.len() == 0 {
        assert(acc + b =~= acc);
        assert(s[i] == 0x22);
    } else {
        let rb1 = render_string_body(b.drop_first());
        if b[0] == 0x22 || b[0] == 0x5c {
            assert(rb == seq![0x5cu8, b[0]] + rb1);
            assert(s[i] == rb[0] && s[i + 1] == rb[1]) by {
                assert(s.subrange(i, i + rb.len())[0] == rb[0]);
                assert(s.subrange(i, i + rb.len())[1] == rb[1]);
            }
            assert(s[i] == 0x5c && s[i + 1] == b[0]);
            assert(escape_step(s, i) == Ok::<(Seq<u8>, int), (SpecError, int)>(
                (seq![b[0]], i + 2),
            ));
            assert(s.subrange(i + 2, i + 2 + rb1.len()) =~= rb1) by {
                assert forall|t: int|
                    0 <= t < rb1.len() implies s.subrange(i + 2, i + 2 + rb1.len())[t]
                    == rb1[t] by {
                    assert(s.subrange(i, i + rb.len())[t + 2] == rb[t + 2]);
                }
            }
            lemma_string_render_parses(s, i + 2, b.drop_first(), acc + seq![b[0]]);
            assert(acc + seq![b[0]] + b.drop_first() =~= acc + b);
            assert(at_least(i + 2, i + 2) == i + 2);
        } else {
            assert(rb == seq![b[0]] + rb1);
            assert(s[i] == rb[0]) by {
                assert(s.subrange(i, i + rb.len())[0] == rb[0]);
            }
            assert(s[i] == b[0]);
            assert(s.subrange(i + 1, i + 1 + rb1.len()) =~= rb1) by {
                assert forall|t: int|
                    0 <= t < rb1.len() implies s.subrange(i + 1, i + 1 + rb1.len())[t]
                    == rb1[t] by {
                    assert(s.subrange(i, i + rb.len())[t + 1] == rb[t + 1]);
                }
            }
            lemma_string_render_parses(s, i + 1, b.drop_first(), acc.push(b[0]));
            assert(acc.push(b[0]) + b.drop_first() =~= acc + b);
        }
    }
}

/// A rendered tree placed at `i` parses back to that tree, consuming
/// exactly the rendered bytes. For a number the byte after the rendered
/// region, if any, must not extend the literal.
pub proof fn lemma_render_value_parses(s: Seq<u8>, i: int, v: SpecValue)
    requires
        wf_value(v),
        0 <= i,
        i + render_value(v).len() <= s.len(),
        s.subrange(i, i + render_value(v).len()) == render_value(v),
        v matches SpecValue::Number(_) ==> (i + render_value(v).len() == s.len()
            || !is_number_byte(s[i + render_value(v).len()])),
    ensures
        crate::model::spec_value(s, i) == Ok::<(SpecValue, int), (SpecError, int)>(
            (v, i + render_value(v).len()),
        ),
    decreases v, 1int,
{
    let rv = render_value(v);
    let e = i + rv.len();
    lemma_render_first_byte(v);
    assert forall|t: int| 0 <= t < rv.len() implies s[i + t] == rv[t] by {
        assert(s.subrange(i, e)[t] == rv[t]);
    }
    lemma_skip_ws_from(s, i, i);
    match v {
        SpecValue::Null => {},
        SpecValue::Boolean(_) => {},
        SpecValue::Number(lit) => {
            lemma_number_render_parses(s, i, lit);
        },
        SpecValue::String(b) => {
            let rsb = render_string_body(b);
            assert(rv == seq![0x22u8] + rsb + seq![0x22u8]);
            assert(s.subrange(i + 1, i + 1 + rsb.len()) =~= rsb) by {
                assert forall|t: int|
                    0 <= t < rsb.len() implies s.subrange(i + 1, i + 1 + rsb.len())[t]
                    == rsb[t] by {
                    assert(s[i + 1 + t] == rv[1 + t]);
                }
            }
            assert(s[i + 1 + rsb.len()] == rv[rv.len() - 1]);
            lemma_string_render_parses(s, i + 1, b, Seq::empty());
            assert(Seq::<u8>::empty() + b =~= b);
        },
        SpecValue::Array(items) => {
            let ri = render_items(items);
            assert(rv == seq![0x5bu8] + ri + seq![0x5du8]);
            if items.len() == 0 {
                assert(s[i + 1] == rv[1] && rv[1] == 0x5d);
                lemma_skip_ws_from(s, i + 1, i + 1);
                assert(Seq::<SpecValue>::empty() =~= items);
            } else {
                lemma_render_first_byte(items[0]);
                assert(ri[0] == render_value(items[0])[0]);
                assert(s[i + 1] == rv[1] && rv[1] == ri[0]);
                lemma_skip_ws_from(s, i + 1, i + 1);
                assert(s.subrange(i + 1, i + 1 + ri.len()) =~= ri) by {
                    assert forall|t: int|
                        0 <= t < ri.len() implies s.subrange(i + 1, i + 1 + ri.len())[t]
                        == ri[t] by {
                        assert(s[i + 1 + t] == rv[1 + t]);
                    }
                }
                assert(s[i + 1 + ri.len()] == rv[rv.len() - 1]);
                lemma_render_items_parse(s, i + 1, items, Seq::empty());
                assert(Seq::<SpecValue>::empty() + items =~= items);
            }
        },
        SpecValue::Object(entries) => {
            let re = render_entries(entries);
            assert(rv == seq![0x7bu8] + re + seq![0x7du8]);
            if entries.len() == 0 {
                assert(s[i + 1] == rv[1] && rv[1] == 0x7d);
                lemma_skip_ws_from(s, i + 1, i + 1);
                assert(Seq::<(Seq<u8>, SpecValue)>::empty() =~= entries);
            } else {
                let rent0 = render_entry(entries[0]);
                assert((seq![0x22u8] + render_string_body(entries[0].0))[0] == 0x22);
                assert((seq![0x22u8] + render_string_body(entries[0].0) + seq![0x22u8, 0x3au8])[0]
                    == 0x22);
                assert(rent0[0] == 0x22);
                assert(re[0] == rent0[0]);
                assert(s[i + 1] == rv[1] && rv[1] == re[0]);
                lemma_skip_ws_from(s, i + 1, i + 1);
                assert(s.subrange(i + 1, i + 1 + re.len()) =~= re) by {
                    assert forall|t: int|
                        0 <= t < re.len() implies s.subrange(i + 1, i + 1 + re.len())[t]
                        == re[t] by {
                        assert(s[i + 1 + t] == rv[1 + t]);
                    }
                }
                assert(s[i + 1 + re.len()] == rv[rv.len() - 1]);
                assert(keys_unique(Seq::<(Seq<u8>, SpecValue)>::empty() + entries)) by {
                    assert(Seq::<(Seq<u8>, SpecValue)>::empty() + entries =~= entries);
                }
                lemma_render_entries_parse(s, i + 1, entries, Seq::empty());
                assert(Seq::<(Seq<u8>, SpecValue)>::empty() + entries =~= entries);
            }
        },
    }
}

/// Rendered array elements placed at `i` and followed by `]` parse back to
/// the elements, appended to whatever `acc` already holds.
#[verifier::rlimit(60)]
pub proof fn lemma_render_items_parse(s: Seq<u8>, i: int, items: Seq<SpecValue>, acc: Seq<
    SpecValue,
>)
    requires
        wf_items(items),
        items.len() >= 1,
        0 <= i,
        i + render_items(items).len() < s.len(),
        s.subrange(i, i + render_items(items).len()) == render_items(items),
        s[i + render_items(items).len()] == 0x5d,
    ensures
        crate::model::spec_array_items(s, i, acc) == Ok::<(SpecValue, int), (SpecError, int)>(
            (SpecValue::Array(acc + items), i + render_items(items).len() + 1),
        ),
    decreases items, 0int,
{
    let ri = render_items(items);
    let rv0 = render_value(items[0]);
    let e0 = i + rv0.len();
    assert forall|t: int| 0 <= t < ri.len() implies s[i + t] == ri[t] by {
        assert(s.subrange(i, i + ri.len())[t] == ri[t]);
    }
    lemma_render_first_byte(items[0]);
    if items.len() == 1 {
        assert(ri == rv0);
    } else {
        assert(ri == rv0 + seq![0x2cu8] + render_items(items.drop_first()));
    }
    assert(ri[0] == rv0[0]);
    lemma_skip_ws_from(s, i, i);
    assert(s.subrange(i, e0) =~= rv0) by {
        assert forall|t: int| 0 <= t < rv0.len() implies s.subrange(i, e0)[t] == rv0[t] by {
            assert(s[i + t] == ri[t]);
        }
    }
    assert(s[e0] == 0x2c || s[e0] == 0x5d) by {
        if items.len() == 1 {
        } else {
            assert(s[e0] == ri[rv0.len() as int]);
        }
    }
    lemma_render_value_parses(s, i, items[0]);
    lemma_skip_ws_from(s, e0, e0);
    if items.len() == 1 {
        assert(acc.push(items[0]) =~= acc + items);
    } else {
        let rest = render_items(items.drop_first());
        assert(s[e0] == ri[rv0.len() as int] && ri[rv0.len() as int] == 0x2c);
        assert(s.subrange(e0 + 1, e0 + 1 + rest.len()) =~= rest) by {
            assert forall|t: int|
                0 <= t < rest.len() implies s.subrange(e0 + 1, e0 + 1 + rest.len())[t]
                == rest[t] by {
                assert(s[e0 + 1 + t] == ri[rv0.len() + 1 + t]);
            }
        }
        assert(s[e0 + 1 + rest.len()] == 0x5d) by {
            assert(e0 + 1 + rest.len() == i + ri.len());
        }
        lemma_render_items_parse(s, e0 + 1, items.drop_first(), acc.push(items[0]));
        assert(acc.push(items[0]) + items.drop_first() =~= acc + items);
    }
}

/// Rendered object entries placed at `i` and followed by `}` parse back to
/// the entries, appended to whatever `acc` already holds, provided no key
/// repeats.
#[verifier::rlimit(60)]
pub proof fn lemma_render_entries_parse(
    s: Seq<u8>,
    i: int,
    entries: Seq<(Seq<u8>, SpecValue)>,
    acc: Seq<(Seq<u8>, SpecValue)>,
)
    requires
        wf_entries(entries),
        entries.len() >= 1,
        keys_unique(acc + entries),
        0 <= i,
        i + render_entries(entries).len() < s.len(),
        s.subrange(i, i + render_entries(entries).len()) == render_entries(entries),
        s[i + render_entries(entries).len()] == 0x7d,
    ensures
        crate::model::spec_object_items(s, i, acc) == Ok::<(SpecValue, int), (SpecError, int)>(
            (SpecValue::Object(acc + entries), i + render_entries(entries).len() + 1),
        ),
    decreases entries, 0int,
{
    let re = render_entries(entries);
    let e0 = entries[0];
    let rent = render_entry(e0);
    let rsb = render_string_body(e0.0);
    let rv1 = render_value(e0.1);
    assert forall|t: int| 0 <= t < re.len() implies s[i + t] == re[t] by {
        assert(s.subrange(i, i + re.len())[t] == re[t]);
    }
    if entries.len() == 1 {
        assert(re == rent);
    } else {
        assert(re == rent + seq![0x2cu8] + render_entries(entries.drop_first()));
    }
    assert(rent == seq![0x22u8] + rsb + seq![0x22u8, 0x3au8] + rv1);
    assert forall|t: int| 0 <= t < rent.len() implies s[i + t] == rent[t] by {
        assert(s[i + t] == re[t]);
    }
    assert((seq![0x22u8] + rsb)[0] == 0x22);
    assert((seq![0x22u8] + rsb + seq![0x22u8, 0x3au8])[0] == 0x22);
    assert(rent[0] == 0x22);
    assert(s[i] == 0x22);
    lemma_skip_ws_from(s, i, i);
    // The key string.
    assert(s.subrange(i + 1, i + 1 + rsb.len()) =~= rsb) by {
        assert forall|t: int|
            0 <= t < rsb.len() implies s.subrange(i + 1, i + 1 + rsb.len())[t] == rsb[t] by {
            assert(s[i + 1 + t] == rent[1 + t]);
        }
    }
    assert(s[i + 1 + rsb.len()] == rent[1 + rsb.len() as int] && rent[1 + rsb.len() as int] == 0x22);
    lemma_string_render_parses(s, i + 1, e0.0, Seq::empty());
    assert(Seq::<u8>::empty() + e0.0 =~= e0.0);
    let k0 = i + rsb.len() + 2;
    // The colon.
    assert(s[k0] == rent[rsb.len() as int + 2] && rent[rsb.len() as int + 2] == 0x3a);
    lemma_skip_ws_from(s, k0, k0);
    // The value.
    let p = k0 + 1;
    let e1 = p + rv1.len();
    assert(s.subrange(p, e1) =~= rv1) by {
        assert forall|t: int| 0 <= t < rv1.len() implies s.subrange(p, e1)[t] == rv1[t] by {
            assert(s[p + t] == rent[rsb.len() + 3 + t]);
        }
    }
    assert(e1 == i + rent.len());
    assert(s[e1] == 0x2c || s[e1] == 0x7d) by {
        if entries.len() == 1 {
        } else {
            assert(s[e1] == re[rent.len() as int]);
        }
    }
    lemma_render_value_parses(s, p, e0.1);
    lemma_render_first_byte(e0.1);
    lemma_skip_ws_from(s, e1, e1);
    // This key is new, so the insertion appends.
    assert forall|j: int| 0 <= j < acc.len() implies (#[trigger] acc[j].0) != e0.0 by {
        assert((acc + entries)[j] == acc[j]);
        assert((acc + entries)[acc.len() as int] == e0);
    }
    lemma_upsert_missing(acc, e0.0, e0.1);
    assert(acc.push((e0.0, e0.1)) =~= acc.push(e0));
    if entries.len() == 1 {
        assert(acc.push(e0) =~= acc + entries);
    } else {
        let rest = render_entries(entries.drop_first());
        assert(s[e1] == re[rent.len() as int] && re[rent.len() as int] == 0x2c);
        assert(s.subrange(e1 + 1, e1 + 1 + rest.len()) =~= rest) by {
            assert forall|t: int|
                0 <= t < rest.len() implies s.subrange(e1 + 1, e1 + 1 + rest.len())[t]
                == rest[t] by {
                assert(s[e1 + 1 + t] == re[rent.len() + 1 + t]);
            }
        }
        assert(s[e1 + 1 + rest.len()] == 0x7d) by {
            assert(e1 + 1 + rest.len() == i + re.len());
        }
        assert(acc.push(e0) + entries.drop_first() =~= acc + entries);
        assert(keys_unique(acc.push(e0) + entries.drop_first()));
        lemma_render_entries_parse(s, e1 + 1, entries.drop_first(), acc.push(e0));
    }
}

/// The round trip: parsing the canonical serialization of any well-formed
/// tree yields exactly that tree, consuming the whole text.
pub proof fn lemma_parse_render_round_trip(v: SpecValue)
    requires
        wf_value(v),
    ensures
        crate::model::spec_parse(render_value(v)) == Ok::<(SpecValue, int), (SpecError, int)>(
            (v, render_value(v).len() as int),
        ),
{
    let s = render_value(v);
    assert(s.subrange(0, s.len() as int) =~= s);
    lemma_render_value_parses(s, 0, v);
}

} // verus!
