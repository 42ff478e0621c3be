//! Value trees and the typing of raw text.
use vstd::prelude::*;

use crate::number::{
    find_char, float_is_integral, float_magnitude, float_of, float_to_signed, float_to_unsigned,
    index_of,
    parse_signed, parse_unsigned, signed_of, unsigned_of, Float, FloatView,
};
use crate::text::{chars_of, copy_string, same_chars};

verus! {

broadcast use vstd::std_specs::vec::group_vec_axioms;

/// A number, in the representation it was read in.
#[derive(Debug, PartialEq)]
pub enum Number {
    Int(i64),
    UInt(u64),
    Float(Float),
}

pub enum NumberView {
    Int(i64),
    UInt(u64),
    Float(FloatView),
}

impl View for Number {
    type V = NumberView;

    open spec fn view(&self) -> NumberView {
        match self {
            Number::Int(i) => NumberView::Int(*i),
            Number::UInt(u) => NumberView::UInt(*u),
            Number::Float(f) => NumberView::Float(f@),
        }
    }
}

/// A configuration value; a `Dict` owns its entries, in insertion order.
#[derive(Debug, PartialEq)]
pub enum Value {
    Null,
    Bool(bool),
    Number(Number),
    String(String),
    Dict(Vec<(String, Value)>),
}

pub enum ValueView {
    Null,
    Bool(bool),
    Number(NumberView),
    Str(Seq<char>),
    Dict(Seq<(Seq<char>, ValueView)>),
}

/// The mathematical content of a value tree.
pub open spec fn value_view(v: Value) -> ValueView
    decreases v,
{
    match v {
        Value::Null => ValueView::Null,
        Value::Bool(b) => ValueView::Bool(b),
        Value::Number(n) => ValueView::Number(n@),
        Value::String(s) => ValueView::Str(s@),
        Value::Dict(es) => ValueView::Dict(
            Seq::new(
                es@.len(),
                |i: int|
                    if 0 <= i < es@.len() {
                        (es@[i].0@, value_view(es@[i].1))
                    } else {
                        (Seq::empty(), ValueView::Null)
                    },
            ),
        ),
    }
}

impl View for Value {
    type V = ValueView;

    open spec fn view(&self) -> ValueView {
        value_view(*self)
    }
}

pub open spec fn is_true_text(s: Seq<char>) -> bool {
    s == seq!['t', 'r', 'u', 'e']
}

pub open spec fn is_false_text(s: Seq<char>) -> bool {
    s == seq!['f', 'a', 'l', 's', 'e']
}

/// The typed value of plain raw text: `true`/`false`, then a decimal number with a point (and
/// an optional exponent), then an unsigned integer, then a signed integer, else the text itself.
/// A decimal number keeps every digit as written; it is not rounded to 64-bit precision.
pub open spec fn inferred(s: Seq<char>) -> ValueView {
    if is_true_text(s) {
        ValueView::Bool(true)
    } else if is_false_text(s) {
        ValueView::Bool(false)
    } else if index_of(s, '.') < s.len() && float_of(s) is Some {
        ValueView::Number(NumberView::Float(float_of(s)->0))
    } else if unsigned_of(s) is Some {
        ValueView::Number(NumberView::UInt(unsigned_of(s)->0))
    } else if signed_of(s) is Some {
        ValueView::Number(NumberView::Int(signed_of(s)->0))
    } else {
        ValueView::Str(s)
    }
}

/// The number as a signed 64-bit integer, when it is one exactly.
pub open spec fn lossless_signed(n: NumberView) -> Option<i64> {
    match n {
        NumberView::Int(i) => Some(i),
        NumberView::UInt(u) => if u <= i64::MAX {
            Some(u as i64)
        } else {
            None
        },
        NumberView::Float(f) => if float_is_integral(f) && (if f.negative {
            float_magnitude(f) <= 0x8000_0000_0000_0000
        } else {
            float_magnitude(f) <= i64::MAX
        }) {
            Some(float_to_signed(f))
        } else {
            None
        },
    }
}

/// The number as an unsigned 64-bit integer, when it is one exactly.
pub open spec fn lossless_unsigned(n: NumberView) -> Option<u64> {
    match n {
        NumberView::Int(i) => if i >= 0 {
            Some(i as u64)
        } else {
            None
        },
        NumberView::UInt(u) => Some(u),
        NumberView::Float(f) => if float_is_integral(f) && (!f.negative || float_magnitude(f) == 0)
            && float_magnitude(f) <= u64::MAX {
            Some(if f.negative {
                0
            } else {
                float_to_unsigned(f)
            })
        } else {
            None
        },
    }
}

impl Number {
    pub fn copy(&self) -> (r: Number)
        ensures
            r@ == self@,
    {
        match self {
            Number::Int(i) => Number::Int(*i),
            Number::UInt(u) => Number::UInt(*u),
            Number::Float(f) => Number::Float(f.copy()),
        }
    }
}

impl Value {
    /// The typed value of plain raw text (see `inferred`).
    pub fn from_plain_string(s: String) -> (r: Value)
        ensures
            r@ == inferred(s@),
    {
        let cs = chars_of(s.as_str());
        if same_chars(&cs, &vec!['t', 'r', 'u', 'e']) {
            return Value::Bool(true);
        }
        if same_chars(&cs, &vec!['f', 'a', 'l', 's', 'e']) {
            return Value::Bool(false);
        }
        if find_char(&cs, '.') < cs.len() {
            match Float::parse(s.as_str()) {
                Some(f) => {
                    return Value::Number(Number::Float(f));
                },
                None => {},
            }
        }
        match parse_unsigned(&cs) {
            Some(u) => {
                return Value::Number(Number::UInt(u));
            },
            None => {},
        }
        match parse_signed(&cs) {
            Some(i) => {
                return Value::Number(Number::Int(i));
            },
            None => {},
        }
        Value::String(s)
    }

    /// The value as a signed 64-bit integer, when it is a number that is one exactly.
    pub fn as_i64(&self) -> (r: Option<i64>)
        ensures
            r == match self@ {
                ValueView::Number(n) => lossless_signed(n),
                _ => None,
            },
    {
        match self {
            Value::Number(Number::Int(i)) => Some(*i),
            Value::Number(Number::UInt(u)) => if *u <= i64::MAX as u64 {
                Some(*u as i64)
            } else {
                None
            },
            Value::Number(Number::Float(f)) => {
                if !f.is_integral() {
                    return None;
                }
                match f.magnitude() {
                    None => None,
                    Some(w) => {
                        let fits = if f.is_negative() {
                            w <= 0x8000_0000_0000_0000
                        } else {
                            w <= i64::MAX as u64
                        };
                        if fits {
                            Some(f.to_signed())
                        } else {
                            None
                        }
                    },
                }
            },
            _ => None,
        }
    }

    /// The value as an unsigned 64-bit integer, when it is a number that is one exactly.
    pub fn as_u64(&self) -> (r: Option<u64>)
        ensures
            r == match self@ {
                ValueView::Number(n) => lossless_unsigned(n),
                _ => None,
            },
    {
        match self {
            Value::Number(Number::Int(i)) => if *i >= 0 {
                Some(*i as u64)
            } else {
                None
            },
            Value::Number(Number::UInt(u)) => Some(*u),
            Value::Number(Number::Float(f)) => {
                if !f.is_integral() {
                    return None;
                }
                match f.magnitude() {
                    None => None,
                    Some(w) => if f.is_negative() {
                        if w == 0 {
                            Some(0)
                        } else {
                            None
                        }
                    } else {
                        Some(f.to_unsigned())
                    },
                }
            },
            _ => None,
        }
    }

    /// A copy of this value tree.
    pub fn copy(&self) -> (r: Value)
        ensures
            r@ == self@,
        decreases self,
    {
        match self {
            Value::Null => Value::Null,
            Value::Bool(b) => Value::Bool(*b),
            Value::Number(n) => Value::Number(n.copy()),
            Value::String(s) => Value::String(copy_string(s)),
            Value::Dict(es) => {
                let mut out: Vec<(String, Value)> = Vec::new();
                let mut i: usize = 0;
                while i < es.len()
                    invariant
                        *self == Value::Dict(*es),
                        i <= es@.len(),
                        out@.len() == i,
                        forall|j: int|
                            0 <= j < i ==> (#[trigger] out@[j]).0@ == es@[j].0@ && out@[j].1@
                                == es@[j].1@,
                    decreases es@.len() - i,
                {
                    proof {
                        let ghost whole = *self;
                        let ghost entries = whole->Dict_0;
                        assert(decreases_to!(whole => entries));
                        assert(decreases_to!(entries => entries@));
                        assert(decreases_to!(entries@ => entries@[i as int]));
                        assert(decreases_to!(entries@[i as int] => entries@[i as int].1));
                    }
                    let k = copy_string(&es[i].0);
                    let v = es[i].1.copy();
                    out.push((k, v));
                    i += 1;
                }
                let r = Value::Dict(out);
                assert(r@->Dict_0 =~= self@->Dict_0);
                r
            },
        }
    }
}

} // verus!
