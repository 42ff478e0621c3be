//! Checking a value tree against a schema tree, and narrowing numbers to the declared type.
use vstd::prelude::*;

use crate::error::Error;
use crate::number::{float_is_integral, float_is_non_negative, float_to_signed, float_to_unsigned};
use crate::schema::{Schema, SchemaView};
use crate::number::FloatView;
use crate::text::{chars_of, copy_string, string_of};
use crate::tree::{find_key, key_position};
use crate::value::{Number, NumberView, Value, ValueView};

verus! {

broadcast use vstd::std_specs::vec::group_vec_axioms;

/// The position of the first entry with key `k`, or -1.
pub open spec fn entry_position<V>(es: Seq<(Seq<char>, V)>, k: Seq<char>) -> int
    decreases es.len(),
{
    if es.len() == 0 {
        -1
    } else {
        let p = entry_position(es.drop_last(), k);
        if p >= 0 {
            p
        } else if es.last().0 == k {
            es.len() - 1
        } else {
            -1
        }
    }
}

/// The first key of `xs`, from position `i` on, that `ys` lacks.
pub open spec fn first_absent<A, B>(xs: Seq<(Seq<char>, A)>, ys: Seq<(Seq<char>, B)>, i: int) -> Option<
    Seq<char>,
>
    decreases xs.len() - i,
{
    if i < 0 || i >= xs.len() {
        None
    } else if entry_position(ys, xs[i].0) < 0 {
        Some(xs[i].0)
    } else {
        first_absent(xs, ys, i + 1)
    }
}

/// The first failure of a list, from position `i` on.
pub open spec fn first_failure<E>(errs: Seq<Option<E>>, i: int) -> Option<E>
    decreases errs.len() - i,
{
    if i < 0 || i >= errs.len() {
        None
    } else if errs[i] is Some {
        errs[i]
    } else {
        first_failure(errs, i + 1)
    }
}

/// A failure of a value against a schema.
pub enum TypeErrorView {
    UnknownKey(Seq<char>),
    MissingKey(Seq<char>),
    TypeMismatch(Seq<char>, Seq<char>),
}

/// The name of a schema, as used in messages.
pub open spec fn schema_name(s: SchemaView) -> Seq<char>
    decreases s,
{
    match s {
        SchemaView::String => seq!['s', 't', 'r', 'i', 'n', 'g'],
        SchemaView::Bool => seq!['b', 'o', 'o', 'l'],
        SchemaView::Integer => seq!['i', 'n', 't', 'e', 'g', 'e', 'r'],
        SchemaView::UnsignedInteger => seq![
            'u',
            'n',
            's',
            'i',
            'g',
            'n',
            'e',
            'd',
            '_',
            'i',
            'n',
            't',
            'e',
            'g',
            'e',
            'r',
        ],
        SchemaView::Float => seq!['f', 'l', 'o', 'a', 't'],
        SchemaView::Optional(inner) => schema_name(*inner).push('?'),
        SchemaView::Dict(_) => seq!['d', 'i', 'c', 't'],
    }
}

/// The digit character for `d`, a number below ten.
pub open spec fn digit_char(d: nat) -> char {
    if d == 0 {
        '0'
    } else if d == 1 {
        '1'
    } else if d == 2 {
        '2'
    } else if d == 3 {
        '3'
    } else if d == 4 {
        '4'
    } else if d == 5 {
        '5'
    } else if d == 6 {
        '6'
    } else if d == 7 {
        '7'
    } else if d == 8 {
        '8'
    } else {
        '9'
    }
}

/// The decimal digits of `n`.
pub open spec fn decimal_text(n: nat) -> Seq<char>
    decreases n,
{
    if n < 10 {
        seq![digit_char(n)]
    } else {
        decimal_text(n / 10).push(digit_char(n % 10))
    }
}

/// The text of an integer: a minus sign when below zero, then its decimal digits.
pub open spec fn int_text(i: int) -> Seq<char> {
    if i < 0 {
        seq!['-'] + decimal_text((0 - i) as nat)
    } else {
        decimal_text(i as nat)
    }
}

/// The text of a decimal number: sign, digits, point, digits, and the exponent as written when
/// there is one.
pub open spec fn float_text(f: FloatView) -> Seq<char> {
    (if f.negative {
        seq!['-']
    } else {
        Seq::empty()
    }) + f.whole + seq!['.'] + f.fraction + if f.exp_text.len() > 0 {
        seq!['e'] + (if f.exponent < 0 {
            seq!['-']
        } else {
            Seq::empty()
        }) + f.exp_text
    } else {
        Seq::empty()
    }
}

/// The text of a number.
pub open spec fn number_text(n: NumberView) -> Seq<char> {
    match n {
        NumberView::Int(i) => int_text(i as int),
        NumberView::UInt(u) => int_text(u as int),
        NumberView::Float(f) => float_text(f),
    }
}

/// The text of a value, as messages show it; a dictionary reads `{k: v, ...}`.
pub open spec fn value_text(v: ValueView) -> Seq<char>
    decreases v,
{
    match v {
        ValueView::Null => seq!['n', 'u', 'l', 'l'],
        ValueView::Bool(b) => if b {
            seq!['t', 'r', 'u', 'e']
        } else {
            seq!['f', 'a', 'l', 's', 'e']
        },
        ValueView::Number(n) => number_text(n),
        ValueView::Str(s) => s,
        ValueView::Dict(es) => seq!['{'] + entries_text(es) + seq!['}'],
    }
}

/// The entries of a dictionary as `k: v` separated by `, `.
pub open spec fn entries_text(es: Seq<(Seq<char>, ValueView)>) -> Seq<char>
    decreases es,
{
    if es.len() == 0 {
        Seq::empty()
    } else {
        let last = es[es.len() - 1];
        let entry = last.0 + seq![':', ' '] + value_text(last.1);
        if es.len() == 1 {
            entry
        } else {
            entries_text(es.subrange(0, es.len() - 1)) + seq![',', ' '] + entry
        }
    }
}

/// A number that an `integer` schema accepts: any integer, or a decimal with no fraction.
pub open spec fn fits_integer(n: NumberView) -> bool {
    match n {
        NumberView::Int(_) => true,
        NumberView::UInt(_) => true,
        NumberView::Float(f) => float_is_integral(f),
    }
}

/// A number that an `unsigned_integer` schema accepts: no sign below zero, no fraction.
pub open spec fn fits_unsigned(n: NumberView) -> bool {
    match n {
        NumberView::Int(i) => i >= 0,
        NumberView::UInt(_) => true,
        NumberView::Float(f) => float_is_integral(f) && float_is_non_negative(f),
    }
}

/// The first failure of `v` against `s`, in the order the check walks: for dictionaries,
/// first a key the schema lacks, then a key the value lacks, then each schema entry in order.
pub open spec fn type_error(v: ValueView, s: SchemaView) -> Option<TypeErrorView>
    decreases s,
{
    let mismatch = Some(TypeErrorView::TypeMismatch(schema_name(s), value_text(v)));
    match s {
        SchemaView::String => if v is Str {
            None
        } else {
            mismatch
        },
        SchemaView::Bool => if v is Bool {
            None
        } else {
            mismatch
        },
        SchemaView::Float => if v matches ValueView::Number(NumberView::Float(_)) {
            None
        } else {
            mismatch
        },
        SchemaView::Integer => match v {
            ValueView::Number(n) => if fits_integer(n) {
                None
            } else {
                mismatch
            },
            _ => mismatch,
        },
        SchemaView::UnsignedInteger => match v {
            ValueView::Number(n) => if fits_unsigned(n) {
                None
            } else {
                mismatch
            },
            _ => mismatch,
        },
        SchemaView::Optional(inner) => if v is Null {
            None
        } else {
            type_error(v, *inner)
        },
        SchemaView::Dict(ses) => match v {
            ValueView::Dict(ves) => match first_absent(ves, ses, 0) {
                Some(k) => Some(TypeErrorView::UnknownKey(k)),
                None => match first_absent(ses, ves, 0) {
                    Some(k) => Some(TypeErrorView::MissingKey(k)),
                    None => first_failure(entry_errors(ves, ses), 0),
                },
            },
            _ => mismatch,
        },
    }
}

/// The failure of each schema entry against the value entry with the same key.
pub open spec fn entry_errors(ves: Seq<(Seq<char>, ValueView)>, ses: Seq<(Seq<char>, SchemaView)>) -> Seq<
    Option<TypeErrorView>,
>
    decreases ses,
{
    Seq::new(
        ses.len(),
        |i: int|
            if 0 <= i < ses.len() {
                type_error(ves[entry_position(ves, ses[i].0)].1, ses[i].1)
            } else {
                None
            },
    )
}

/// The failure that an error reports, if it is one of schema checking.
pub open spec fn type_error_of(e: Error) -> Option<TypeErrorView> {
    match e {
        Error::UnknownKey { key } => Some(TypeErrorView::UnknownKey(key@)),
        Error::MissingKey { key } => Some(TypeErrorView::MissingKey(key@)),
        Error::TypeMismatch { expected, found } => Some(TypeErrorView::TypeMismatch(expected@, found@)),
        _ => None,
    }
}

proof fn lemma_positions_agree<T, V>(es: Seq<(String, T)>, vs: Seq<(Seq<char>, V)>, k: Seq<char>)
    requires
        es.len() == vs.len(),
        forall|j: int| 0 <= j < es.len() ==> (#[trigger] es[j]).0@ == vs[j].0,
    ensures
        key_position(es, k) == entry_position(vs, k),
    decreases es.len(),
{
    if es.len() > 0 {
        lemma_positions_agree(es.drop_last(), vs.drop_last(), k);
    }
}

proof fn lemma_entry_position_bounds<V>(es: Seq<(Seq<char>, V)>, k: Seq<char>)
    ensures
        -1 <= entry_position(es, k) < es.len(),
        entry_position(es, k) >= 0 ==> es[entry_position(es, k)].0 == k,
    decreases es.len(),
{
    if es.len() > 0 {
        lemma_entry_position_bounds(es.drop_last(), k);
    }
}

/// The name of a schema, as used in messages.
pub fn schema_name_text(s: &Schema) -> (r: Vec<char>)
    ensures
        r@ == schema_name(s@),
    decreases s,
{
    match s {
        Schema::String => vec!['s', 't', 'r', 'i', 'n', 'g'],
        Schema::Bool => vec!['b', 'o', 'o', 'l'],
        Schema::Integer => vec!['i', 'n', 't', 'e', 'g', 'e', 'r'],
        Schema::UnsignedInteger => vec![
            'u',
            'n',
            's',
            'i',
            'g',
            'n',
            'e',
            'd',
            '_',
            'i',
            'n',
            't',
            'e',
            'g',
            'e',
            'r',
        ],
        Schema::Float => vec!['f', 'l', 'o', 'a', 't'],
        Schema::Optional(inner) => {
            let mut r = schema_name_text(inner);
            r.push('?');
            r
        },
        Schema::Dict(_) => vec!['d', 'i', 'c', 't'],
    }
}

fn mismatch(value: &Value, schema: &Schema) -> (r: Error)
    ensures
        type_error_of(r) == Some(TypeErrorView::TypeMismatch(schema_name(schema@), value_text(value@))),
{
    Error::TypeMismatch {
        expected: string_of(&schema_name_text(schema)),
        found: string_of(&value_text_chars(value)),
    }
}

/// The digit character for `d`, a number below ten.
fn digit(d: u64) -> (r: char)
    requires
        d < 10,
    ensures
        r == digit_char(d as nat),
{
    if d == 0 {
        '0'
    } else if d == 1 {
        '1'
    } else if d == 2 {
        '2'
    } else if d == 3 {
        '3'
    } else if d == 4 {
        '4'
    } else if d == 5 {
        '5'
    } else if d == 6 {
        '6'
    } else if d == 7 {
        '7'
    } else if d == 8 {
        '8'
    } else {
        '9'
    }
}

/// Appends the decimal digits of `n`.
fn push_decimal(out: &mut Vec<char>, n: u64)
    ensures
        final(out)@ == old(out)@ + decimal_text(n as nat),
    decreases n,
{
    if n < 10 {
        out.push(digit(n));
    } else {
        push_decimal(out, n / 10);
        out.push(digit(n % 10));
        proof {
            assert(decimal_text(n as nat) == decimal_text((n / 10) as nat).push(digit_char((n % 10) as nat)));
        }
        assert(final(out)@ =~= old(out)@ + decimal_text(n as nat));
    }
}

/// Appends the text of a number.
fn push_number(out: &mut Vec<char>, n: &Number)
    ensures
        final(out)@ == old(out)@ + number_text(n@),
{
    let ghost start = out@;
    match n {
        Number::Int(i) => {
            if *i < 0 {
                out.push('-');
                let m: u64 = (0 - (*i as i128)) as u64;
                push_decimal(out, m);
                assert(out@ =~= start + (seq!['-'] + decimal_text((0 - *i) as nat)));
            } else {
                push_decimal(out, *i as u64);
            }
        },
        Number::UInt(u) => {
            push_decimal(out, *u);
        },
        Number::Float(f) => {
            let t = f.text();
            crate::analyzer::push_all(out, &t);
        },
    }
}

/// The text of a value (see `value_text`).
pub fn value_text_chars(v: &Value) -> (r: Vec<char>)
    ensures
        r@ == value_text(v@),
    decreases v,
{
    match v {
        Value::Null => vec!['n', 'u', 'l', 'l'],
        Value::Bool(b) => if *b {
            vec!['t', 'r', 'u', 'e']
        } else {
            vec!['f', 'a', 'l', 's', 'e']
        },
        Value::Number(n) => {
            let mut out: Vec<char> = Vec::new();
            push_number(&mut out, n);
            assert(out@ =~= number_text(n@));
            out
        },
        Value::String(s) => chars_of(s.as_str()),
        Value::Dict(es) => {
            let ghost ev = v@->Dict_0;
            let mut out: Vec<char> = Vec::new();
            let mut i: usize = 0;
            while i < es.len()
                invariant
                    *v == Value::Dict(*es),
                    ev == v@->Dict_0,
                    ev.len() == es@.len(),
                    forall|k: int| 0 <= k < es@.len() ==> (#[trigger] ev[k]) == (es@[k].0@, es@[k].1@),
                    i <= es@.len(),
                    out@ == entries_text(ev.subrange(0, i as int)),
                decreases es@.len() - i,
            {
                proof {
                    let ghost whole = *v;
                    let ghost entries = whole->Dict_0;
                    assert(decreases_to!(whole => entries));
                    assert(decreases_to!(entries => entries@));
                    assert(decreases_to!(entries@ => entries@[i as int]));
                    assert(decreases_to!(entries@[i as int] => entries@[i as int].1));
                }
                let ghost before = out@;
                if i > 0 {
                    out.push(',');
                    out.push(' ');
                }
                let k = chars_of(es[i].0.as_str());
                crate::analyzer::push_all(&mut out, &k);
                out.push(':');
                out.push(' ');
                let t = value_text_chars(&es[i].1);
                crate::analyzer::push_all(&mut out, &t);
                proof {
                    let pre = ev.subrange(0, i + 1);
                    assert(pre.subrange(0, i as int) =~= ev.subrange(0, i as int));
                    assert(pre[i as int] == ev[i as int]);
                    if i == 0 {
                        assert(out@ =~= entries_text(pre));
                    } else {
                        assert(out@ =~= entries_text(pre));
                    }
                }
                i += 1;
            }
            let mut r: Vec<char> = vec!['{'];
            crate::analyzer::push_all(&mut r, &out);
            r.push('}');
            assert(ev.subrange(0, es@.len() as int) =~= ev);
            assert(r@ =~= value_text(v@));
            r
        },
    }
}

/// Whether a number is accepted by an `integer` schema.
pub fn number_fits_integer(n: &Number) -> (r: bool)
    ensures
        r == fits_integer(n@),
{
    match n {
        Number::Int(_) => true,
        Number::UInt(_) => true,
        Number::Float(f) => f.is_integral(),
    }
}

/// Whether a number is accepted by an `unsigned_integer` schema.
pub fn number_fits_unsigned(n: &Number) -> (r: bool)
    ensures
        r == fits_unsigned(n@),
{
    match n {
        Number::Int(i) => *i >= 0,
        Number::UInt(_) => true,
        Number::Float(f) => f.is_integral() && f.is_non_negative(),
    }
}

/// Checks a value tree against a schema tree; the first failure is returned (see
/// `type_error`).
pub fn validate(value: &Value, schema: &Schema) -> (r: Result<(), Error>)
    ensures
        match type_error(value@, schema@) {
            None => r is Ok,
            Some(e) => r matches Err(x) && type_error_of(x) == Some(e),
        },
    decreases schema,
{
    match schema {
        Schema::String => if matches!(value, Value::String(_)) {
            Ok(())
        } else {
            Err(mismatch(value, schema))
        },
        Schema::Bool => if matches!(value, Value::Bool(_)) {
            Ok(())
        } else {
            Err(mismatch(value, schema))
        },
        Schema::Float => if matches!(value, Value::Number(Number::Float(_))) {
            Ok(())
        } else {
            Err(mismatch(value, schema))
        },
        Schema::Integer => match value {
            Value::Number(n) => if number_fits_integer(n) {
                Ok(())
            } else {
                Err(mismatch(value, schema))
            },
            _ => Err(mismatch(value, schema)),
        },
        Schema::UnsignedInteger => match value {
            Value::Number(n) => if number_fits_unsigned(n) {
                Ok(())
            } else {
                Err(mismatch(value, schema))
            },
            _ => Err(mismatch(value, schema)),
        },
        Schema::Optional(inner) => if matches!(value, Value::Null) {
            Ok(())
        } else {
            validate(value, inner)
        },
        Schema::Dict(ses) => match value {
            Value::Dict(ves) => validate_dict(value, schema, ves, ses),
            _ => Err(mismatch(value, schema)),
        },
    }
}

fn validate_dict(
    value: &Value,
    schema: &Schema,
    ves: &Vec<(String, Value)>,
    ses: &Vec<(String, Schema)>,
) -> (r: Result<(), Error>)
    requires
        *value == Value::Dict(*ves),
        *schema == Schema::Dict(*ses),
    ensures
        match type_error(value@, schema@) {
            None => r is Ok,
            Some(e) => r matches Err(x) && type_error_of(x) == Some(e),
        },
    decreases schema, 0nat,
{
    let ghost vv = value@->Dict_0;
    let ghost sv = schema@->Dict_0;
    assert(value@ == ValueView::Dict(vv));
    assert(schema@ == SchemaView::Dict(sv));
    assert(vv.len() == ves@.len());
    assert(sv.len() == ses@.len());
    assert(forall|j: int| 0 <= j < ves@.len() ==> (#[trigger] vv[j]) == (ves@[j].0@, ves@[j].1@));
    assert(forall|j: int| 0 <= j < ses@.len() ==> (#[trigger] sv[j]) == (ses@[j].0@, ses@[j].1@));
    let mut j: usize = 0;
    while j < ves.len()
        invariant
            vv.len() == ves@.len(),
            sv.len() == ses@.len(),
            forall|k: int| 0 <= k < ves@.len() ==> (#[trigger] vv[k]) == (ves@[k].0@, ves@[k].1@),
            forall|k: int| 0 <= k < ses@.len() ==> (#[trigger] sv[k]) == (ses@[k].0@, ses@[k].1@),
            j <= ves@.len(),
            value@ == ValueView::Dict(vv),
            schema@ == SchemaView::Dict(sv),
            first_absent(vv, sv, 0) == first_absent(vv, sv, j as int),
        decreases ves@.len() - j,
    {
        proof {
            lemma_positions_agree(ses@, sv, ves@[j as int].0@);
        }
        match find_key(ses, &ves[j].0) {
            None => {
                return Err(Error::UnknownKey { key: copy_string(&ves[j].0) });
            },
            Some(_) => {},
        }
        j += 1;
    }
    let mut positions: Vec<usize> = Vec::new();
    let mut i: usize = 0;
    while i < ses.len()
        invariant
            vv.len() == ves@.len(),
            sv.len() == ses@.len(),
            forall|k: int| 0 <= k < ves@.len() ==> (#[trigger] vv[k]) == (ves@[k].0@, ves@[k].1@),
            forall|k: int| 0 <= k < ses@.len() ==> (#[trigger] sv[k]) == (ses@[k].0@, ses@[k].1@),
            i <= ses@.len(),
            value@ == ValueView::Dict(vv),
            schema@ == SchemaView::Dict(sv),
            first_absent(vv, sv, 0) is None,
            first_absent(sv, vv, 0) == first_absent(sv, vv, i as int),
            positions@.len() == i,
            forall|k: int|
                0 <= k < i ==> (#[trigger] positions@[k]) as int == entry_position(vv, sv[k].0)
                    && positions@[k] < ves@.len(),
        decreases ses@.len() - i,
    {
        proof {
            lemma_positions_agree(ves@, vv, ses@[i as int].0@);
            lemma_entry_position_bounds(vv, ses@[i as int].0@);
        }
        match find_key(ves, &ses[i].0) {
            None => {
                return Err(Error::MissingKey { key: copy_string(&ses[i].0) });
            },
            Some(p) => {
                positions.push(p);
            },
        }
        i += 1;
    }
    let ghost errs = entry_errors(vv, sv);
    let mut i: usize = 0;
    while i < ses.len()
        invariant
            *value == Value::Dict(*ves),
            *schema == Schema::Dict(*ses),
            vv == value@->Dict_0,
            sv == schema@->Dict_0,
            vv.len() == ves@.len(),
            sv.len() == ses@.len(),
            forall|k: int| 0 <= k < ves@.len() ==> (#[trigger] vv[k]) == (ves@[k].0@, ves@[k].1@),
            forall|k: int| 0 <= k < ses@.len() ==> (#[trigger] sv[k]) == (ses@[k].0@, ses@[k].1@),
            i <= ses@.len(),
            first_absent(vv, sv, 0) is None,
            first_absent(sv, vv, 0) is None,
            positions@.len() == ses@.len(),
            forall|k: int|
                0 <= k < ses@.len() ==> (#[trigger] positions@[k]) as int == entry_position(vv, sv[k].0)
                    && positions@[k] < ves@.len(),
            errs == entry_errors(vv, sv),
            errs.len() == sv.len(),
            first_failure(errs, 0) == first_failure(errs, i as int),
        decreases ses@.len() - i,
    {
        let p = positions[i];
        proof {
            let ghost whole = *schema;
            let ghost entries = whole->Dict_0;
            assert(decreases_to!(whole => entries));
            assert(decreases_to!(entries => entries@));
            assert(decreases_to!(entries@ => entries@[i as int]));
            assert(decreases_to!(entries@[i as int] => entries@[i as int].1));
            assert(vv[p as int] == (ves@[p as int].0@, ves@[p as int].1@));
            assert(sv[i as int] == (ses@[i as int].0@, ses@[i as int].1@));
            assert(errs[i as int] == type_error(ves@[p as int].1@, ses@[i as int].1@));
        }
        match validate(&ves[p].1, &ses[i].1) {
            Err(e) => {
                return Err(e);
            },
            Ok(()) => {},
        }
        i += 1;
    }
    Ok(())
}

/// An unsigned integer read bit for bit as a signed one.
pub open spec fn reinterpret_signed(u: u64) -> i64 {
    if u <= i64::MAX {
        u as i64
    } else {
        (u - 0x1_0000_0000_0000_0000int) as i64
    }
}

/// A signed integer read bit for bit as an unsigned one.
pub open spec fn reinterpret_unsigned(i: i64) -> u64 {
    if i >= 0 {
        i as u64
    } else {
        (i + 0x1_0000_0000_0000_0000int) as u64
    }
}

/// A number narrowed to a signed integer; a decimal is truncated toward zero.
pub open spec fn as_signed(n: NumberView) -> i64 {
    match n {
        NumberView::Int(i) => i,
        NumberView::UInt(u) => reinterpret_signed(u),
        NumberView::Float(f) => float_to_signed(f),
    }
}

/// A number narrowed to an unsigned integer; a decimal is truncated toward zero.
pub open spec fn as_unsigned(n: NumberView) -> u64 {
    match n {
        NumberView::Int(i) => reinterpret_unsigned(i),
        NumberView::UInt(u) => u,
        NumberView::Float(f) => float_to_unsigned(f),
    }
}

/// A value tree with its numbers narrowed to the schema's integer types; dictionaries keep the
/// schema's keys in the schema's order, and everything else passes through.
pub open spec fn cast_view(v: ValueView, s: SchemaView) -> ValueView
    decreases s,
{
    match s {
        SchemaView::Integer => match v {
            ValueView::Number(n) => ValueView::Number(NumberView::Int(as_signed(n))),
            _ => v,
        },
        SchemaView::UnsignedInteger => match v {
            ValueView::Number(n) => ValueView::Number(NumberView::UInt(as_unsigned(n))),
            _ => v,
        },
        SchemaView::Optional(inner) => cast_view(v, *inner),
        SchemaView::Dict(ses) => match v {
            ValueView::Dict(ves) => ValueView::Dict(cast_entries(ves, ses)),
            _ => v,
        },
        _ => v,
    }
}

/// Each schema entry with the value entry of the same key cast to it.
pub open spec fn cast_entries(ves: Seq<(Seq<char>, ValueView)>, ses: Seq<(Seq<char>, SchemaView)>) -> Seq<
    (Seq<char>, ValueView),
>
    decreases ses,
{
    Seq::new(
        ses.len(),
        |i: int|
            if 0 <= i < ses.len() {
                (ses[i].0, cast_view(ves[entry_position(ves, ses[i].0)].1, ses[i].1))
            } else {
                (Seq::empty(), ValueView::Null)
            },
    )
}

proof fn lemma_none_absent<A, B>(xs: Seq<(Seq<char>, A)>, ys: Seq<(Seq<char>, B)>, i: int, k: int)
    requires
        0 <= i <= k < xs.len(),
        first_absent(xs, ys, i) is None,
    ensures
        entry_position(ys, xs[k].0) >= 0,
    decreases k - i,
{
    if i < k {
        lemma_none_absent(xs, ys, i + 1, k);
    }
}

proof fn lemma_no_failure<E>(errs: Seq<Option<E>>, i: int, k: int)
    requires
        0 <= i <= k < errs.len(),
        first_failure(errs, i) is None,
    ensures
        errs[k] is None,
    decreases k - i,
{
    if i < k {
        lemma_no_failure(errs, i + 1, k);
    }
}

/// A number narrowed to a signed integer.
pub fn cast_as_integer(num: &Number) -> (r: Value)
    ensures
        r@ == ValueView::Number(NumberView::Int(as_signed(num@))),
{
    match num {
        Number::Int(i) => Value::Number(Number::Int(*i)),
        Number::UInt(u) => Value::Number(
            Number::Int(
                if *u <= i64::MAX as u64 {
                    *u as i64
                } else {
                    (*u as i128 - 0x1_0000_0000_0000_0000i128) as i64
                },
            ),
        ),
        Number::Float(f) => Value::Number(Number::Int(f.to_signed())),
    }
}

/// A number narrowed to an unsigned integer.
pub fn cast_as_unsigned_integer(num: &Number) -> (r: Value)
    ensures
        r@ == ValueView::Number(NumberView::UInt(as_unsigned(num@))),
{
    match num {
        Number::Int(i) => Value::Number(
            Number::UInt(
                if *i >= 0 {
                    *i as u64
                } else {
                    (*i as i128 + 0x1_0000_0000_0000_0000i128) as u64
                },
            ),
        ),
        Number::UInt(u) => Value::Number(Number::UInt(*u)),
        Number::Float(f) => Value::Number(Number::UInt(f.to_unsigned())),
    }
}

/// Narrows the numbers of a checked value tree to the schema's integer types (see
/// `cast_view`).
pub fn cast(value: &Value, schema: &Schema) -> (r: Value)
    requires
        type_error(value@, schema@) is None,
    ensures
        r@ == cast_view(value@, schema@),
    decreases schema,
{
    match schema {
        Schema::Integer => match value {
            Value::Number(n) => cast_as_integer(n),
            _ => value.copy(),
        },
        Schema::UnsignedInteger => match value {
            Value::Number(n) => cast_as_unsigned_integer(n),
            _ => value.copy(),
        },
        Schema::Optional(inner) => {
            if matches!(value, Value::Null) {
                let r = Value::Null;
                assert(cast_view(value@, inner@) == value@) by {
                    lemma_cast_null(inner@);
                }
                r
            } else {
                cast(value, inner)
            }
        },
        Schema::Dict(ses) => match value {
            Value::Dict(ves) => cast_dict(value, schema, ves, ses),
            _ => value.copy(),
        },
        _ => value.copy(),
    }
}

proof fn lemma_cast_null(s: SchemaView)
    ensures
        cast_view(ValueView::Null, s) == ValueView::Null,
    decreases s,
{
    match s {
        SchemaView::Optional(inner) => {
            lemma_cast_null(*inner);
        },
        _ => {},
    }
}

fn cast_dict(
    value: &Value,
    schema: &Schema,
    ves: &Vec<(String, Value)>,
    ses: &Vec<(String, Schema)>,
) -> (r: Value)
    requires
        *value == Value::Dict(*ves),
        *schema == Schema::Dict(*ses),
        type_error(value@, schema@) is None,
    ensures
        r@ == cast_view(value@, schema@),
    decreases schema, 0nat,
{
    let ghost vv = value@->Dict_0;
    let ghost sv = schema@->Dict_0;
    assert(value@ == ValueView::Dict(vv));
    assert(schema@ == SchemaView::Dict(sv));
    let ghost want = cast_entries(vv, sv);
    let mut out: Vec<(String, Value)> = Vec::new();
    let mut i: usize = 0;
    while i < ses.len()
        invariant
            *value == Value::Dict(*ves),
            *schema == Schema::Dict(*ses),
            value@ == ValueView::Dict(vv),
            schema@ == SchemaView::Dict(sv),
            type_error(value@, schema@) is None,
            want == cast_entries(vv, sv),
            vv.len() == ves@.len(),
            sv.len() == ses@.len(),
            forall|k: int| 0 <= k < ves@.len() ==> (#[trigger] vv[k]) == (ves@[k].0@, ves@[k].1@),
            forall|k: int| 0 <= k < ses@.len() ==> (#[trigger] sv[k]) == (ses@[k].0@, ses@[k].1@),
            i <= ses@.len(),
            out@.len() == i,
            forall|k: int| 0 <= k < i ==> ((#[trigger] out@[k]).0@, out@[k].1@) == want[k],
        decreases ses@.len() - i,
    {
        proof {
            lemma_positions_agree(ves@, vv, ses@[i as int].0@);
            lemma_entry_position_bounds(vv, ses@[i as int].0@);
            assert(first_absent(vv, sv, 0) is None);
            lemma_none_absent(sv, vv, 0, i as int);
            lemma_no_failure(entry_errors(vv, sv), 0, i as int);
        }
        match find_key(ves, &ses[i].0) {
            None => {
                // A checked value holds every key of the schema.
                assert(false);
                return Value::Null;
            },
            Some(p) => {
                proof {
                    let ghost whole = *schema;
                    let ghost entries = whole->Dict_0;
                    assert(decreases_to!(whole => entries));
                    assert(decreases_to!(entries => entries@));
                    assert(decreases_to!(entries@ => entries@[i as int]));
                    assert(decreases_to!(entries@[i as int] => entries@[i as int].1));
                    assert(vv[p as int] == (ves@[p as int].0@, ves@[p as int].1@));
                    assert(entry_errors(vv, sv)[i as int] == type_error(
                        ves@[p as int].1@,
                        ses@[i as int].1@,
                    ));
                }
                let v = cast(&ves[p].1, &ses[i].1);
                let k = copy_string(&ses[i].0);
                out.push((k, v));
            },
        }
        i += 1;
    }
    let r = Value::Dict(out);
    assert(r@->Dict_0 =~= want);
    r
}

/// No dictionary of the schema repeats a key.
pub open spec fn schema_keys_unique(s: SchemaView) -> bool
    decreases s,
{
    match s {
        SchemaView::Optional(inner) => schema_keys_unique(*inner),
        SchemaView::Dict(ses) => (forall|a: int, b: int|
            0 <= a < b < ses.len() ==> (#[trigger] ses[a]).0 != (#[trigger] ses[b]).0) && (forall|
            i: int,
        | 0 <= i < ses.len() ==> schema_keys_unique(#[trigger] ses[i].1)),
        _ => true,
    }
}

proof fn lemma_entry_position_unique<V>(es: Seq<(Seq<char>, V)>, i: int)
    requires
        0 <= i < es.len(),
        forall|a: int, b: int| 0 <= a < b < es.len() ==> (#[trigger] es[a]).0 != (#[trigger] es[b]).0,
    ensures
        entry_position(es, es[i].0) == i,
    decreases es.len(),
{
    if i < es.len() - 1 {
        let d = es.drop_last();
        assert forall|a: int, b: int| 0 <= a < b < d.len() implies (#[trigger] d[a]).0 != (
        #[trigger] d[b]).0 by {
            assert(d[a] == es[a] && d[b] == es[b]);
        }
        assert(d[i] == es[i]);
        lemma_entry_position_unique(d, i);
    } else {
        let d = es.drop_last();
        if entry_position(d, es[i].0) >= 0 {
            lemma_entry_position_bounds(d, es[i].0);
            let j = entry_position(d, es[i].0);
            assert(d[j] == es[j]);
        }
    }
}

proof fn lemma_entry_position_found<V>(es: Seq<(Seq<char>, V)>, i: int)
    requires
        0 <= i < es.len(),
    ensures
        entry_position(es, es[i].0) >= 0,
    decreases es.len(),
{
    if i < es.len() - 1 {
        assert(es.drop_last()[i] == es[i]);
        lemma_entry_position_found(es.drop_last(), i);
    }
}

proof fn lemma_first_absent_none<A, B>(xs: Seq<(Seq<char>, A)>, ys: Seq<(Seq<char>, B)>, i: int)
    requires
        0 <= i,
        forall|k: int| i <= k < xs.len() ==> entry_position(ys, (#[trigger] xs[k]).0) >= 0,
    ensures
        first_absent(xs, ys, i) is None,
    decreases xs.len() - i,
{
    if i < xs.len() {
        lemma_first_absent_none(xs, ys, i + 1);
    }
}

proof fn lemma_first_failure_none<E>(errs: Seq<Option<E>>, i: int)
    requires
        0 <= i,
        forall|k: int| i <= k < errs.len() ==> (#[trigger] errs[k]) is None,
    ensures
        first_failure(errs, i) is None,
    decreases errs.len() - i,
{
    if i < errs.len() {
        lemma_first_failure_none(errs, i + 1);
    }
}

/// A cast value passes the check against the same schema again, for a schema whose
/// dictionaries repeat no key; a cast dictionary holds exactly the schema's keys, in its order.
pub proof fn lemma_cast_passes_check(v: ValueView, s: SchemaView)
    requires
        type_error(v, s) is None,
        schema_keys_unique(s),
    ensures
        type_error(cast_view(v, s), s) is None,
        s matches SchemaView::Dict(ses) ==> (cast_view(v, s) matches ValueView::Dict(ces)
            && ces.len() == ses.len() && forall|i: int|
            0 <= i < ses.len() ==> (#[trigger] ces[i]).0 == ses[i].0),
    decreases s,
{
    match s {
        SchemaView::Optional(inner) => {
            if v is Null {
                lemma_cast_null(*inner);
            } else {
                lemma_cast_passes_check(v, *inner);
            }
        },
        SchemaView::Dict(ses) => {
            let ves = v->Dict_0;
            let once = cast_entries(ves, ses);
            assert(first_absent(ses, ves, 0) is None);
            assert(first_failure(entry_errors(ves, ses), 0) is None);
            assert forall|j: int| 0 <= j < once.len() implies (#[trigger] once[j]).0 == ses[j].0 by {}
            assert forall|a: int, b: int| 0 <= a < b < once.len() implies (#[trigger] once[a]).0
                != (#[trigger] once[b]).0 by {
                assert(ses[a].0 != ses[b].0);
            }
            assert forall|k: int| 0 <= k < once.len() implies entry_position(ses, (#[trigger] once[k]).0)
                >= 0 by {
                lemma_entry_position_found(ses, k);
            }
            lemma_first_absent_none(once, ses, 0);
            assert forall|k: int| 0 <= k < ses.len() implies entry_position(once, (#[trigger] ses[k]).0)
                >= 0 by {
                lemma_entry_position_unique(once, k);
            }
            lemma_first_absent_none(ses, once, 0);
            let errs = entry_errors(once, ses);
            assert forall|k: int| 0 <= k < errs.len() implies (#[trigger] errs[k]) is None by {
                lemma_no_failure(entry_errors(ves, ses), 0, k);
                lemma_entry_position_unique(once, k);
                assert(schema_keys_unique(ses[k].1));
                lemma_cast_passes_check(ves[entry_position(ves, ses[k].0)].1, ses[k].1);
            }
            lemma_first_failure_none(errs, 0);
        },
        _ => {},
    }
}

/// Casting a checked value a second time changes nothing, for a schema whose dictionaries
/// repeat no key.
pub proof fn lemma_cast_idempotent(v: ValueView, s: SchemaView)
    requires
        type_error(v, s) is None,
        schema_keys_unique(s),
    ensures
        cast_view(cast_view(v, s), s) == cast_view(v, s),
    decreases s,
{
    match s {
        SchemaView::Optional(inner) => {
            if v is Null {
                lemma_cast_null(*inner);
                lemma_cast_null(*inner);
            } else {
                lemma_cast_idempotent(v, *inner);
            }
        },
        SchemaView::Dict(ses) => {
            let ves = v->Dict_0;
            let once = cast_entries(ves, ses);
            let twice = cast_entries(once, ses);
            assert(first_absent(ses, ves, 0) is None);
            assert(first_failure(entry_errors(ves, ses), 0) is None);
            assert forall|i: int| 0 <= i < ses.len() implies twice[i] == once[i] by {
                lemma_no_failure(entry_errors(ves, ses), 0, i);
                assert(once[i].0 == ses[i].0);
                assert forall|j: int| 0 <= j < once.len() implies (#[trigger] once[j]).0 == ses[j].0 by {}
                assert forall|a: int, b: int| 0 <= a < b < once.len() implies (#[trigger] once[a]).0
                    != (#[trigger] once[b]).0 by {
                    assert(ses[a].0 != ses[b].0);
                }
                lemma_entry_position_unique(once, i);
                assert(schema_keys_unique(ses[i].1));
                lemma_cast_idempotent(ves[entry_position(ves, ses[i].0)].1, ses[i].1);
            }
            assert(twice =~= once);
        },
        _ => {},
    }
}

} // verus!
