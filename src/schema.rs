//! Schema trees and their type symbols.
use vstd::prelude::*;

use crate::text::{chars_of, same_chars};

verus! {

broadcast use vstd::std_specs::vec::group_vec_axioms;

/// The declared type of a value; a `Dict` owns its entries, in insertion order.
#[derive(Debug, PartialEq)]
pub enum Schema {
    String,
    Bool,
    Integer,
    UnsignedInteger,
    Float,
    Optional(Box<Schema>),
    Dict(Vec<(String, Schema)>),
}

pub enum SchemaView {
    String,
    Bool,
    Integer,
    UnsignedInteger,
    Float,
    Optional(Box<SchemaView>),
    Dict(Seq<(Seq<char>, SchemaView)>),
}

/// The mathematical content of a schema tree.
pub open spec fn schema_view(s: Schema) -> SchemaView
    decreases s,
{
    match s {
        Schema::String => SchemaView::String,
        Schema::Bool => SchemaView::Bool,
        Schema::Integer => SchemaView::Integer,
        Schema::UnsignedInteger => SchemaView::UnsignedInteger,
        Schema::Float => SchemaView::Float,
        Schema::Optional(inner) => SchemaView::Optional(Box::new(schema_view(*inner))),
        Schema::Dict(es) => SchemaView::Dict(
            Seq::new(
                es@.len(),
                |i: int|
                    if 0 <= i < es@.len() {
                        (es@[i].0@, schema_view(es@[i].1))
                    } else {
                        (Seq::empty(), SchemaView::String)
                    },
            ),
        ),
    }
}

impl View for Schema {
    type V = SchemaView;

    open spec fn view(&self) -> SchemaView {
        schema_view(*self)
    }
}

/// The type named by a base symbol.
pub open spec fn base_schema_of(s: Seq<char>) -> Option<SchemaView> {
    if s == seq!['s', 't', 'r', 'i', 'n', 'g'] {
        Some(SchemaView::String)
    } else if s == seq!['b', 'o', 'o', 'l'] {
        Some(SchemaView::Bool)
    } else if s == seq!['i', 'n', 't', 'e', 'g', 'e', 'r'] {
        Some(SchemaView::Integer)
    } else if s == seq![
        'u',
        'n',
        's',
        'i',
        'g',
        'n',
        'e',
        'd',
        '_',
        'i',
        'n',
        't',
        'e',
        'g',
        'e',
        'r',
    ] {
        Some(SchemaView::UnsignedInteger)
    } else if s == seq!['f', 'l', 'o', 'a', 't'] {
        Some(SchemaView::Float)
    } else {
        None
    }
}

/// The type named by a symbol: a base symbol, optionally followed by one `?`.
pub open spec fn schema_of_symbol(s: Seq<char>) -> Option<SchemaView> {
    if s.len() > 0 && s.last() == '?' {
        match base_schema_of(s.drop_last()) {
            Some(inner) => Some(SchemaView::Optional(Box::new(inner))),
            None => None,
        }
    } else {
        base_schema_of(s)
    }
}

/// The type named by a base symbol.
fn base_from_chars(cs: &Vec<char>) -> (r: Option<Schema>)
    ensures
        match base_schema_of(cs@) {
            Some(v) => r matches Some(x) && x@ == v,
            None => r is None,
        },
{
    if same_chars(cs, &vec!['s', 't', 'r', 'i', 'n', 'g']) {
        Some(Schema::String)
    } else if same_chars(cs, &vec!['b', 'o', 'o', 'l']) {
        Some(Schema::Bool)
    } else if same_chars(cs, &vec!['i', 'n', 't', 'e', 'g', 'e', 'r']) {
        Some(Schema::Integer)
    } else if same_chars(
        cs,
        &vec!['u', 'n', 's', 'i', 'g', 'n', 'e', 'd', '_', 'i', 'n', 't', 'e', 'g', 'e', 'r'],
    ) {
        Some(Schema::UnsignedInteger)
    } else if same_chars(cs, &vec!['f', 'l', 'o', 'a', 't']) {
        Some(Schema::Float)
    } else {
        None
    }
}

impl Schema {
    /// The type named by a symbol such as `integer` or `string?`.
    pub fn from_symbol(s: &str) -> (r: Option<Schema>)
        ensures
            match schema_of_symbol(s@) {
                Some(v) => r matches Some(x) && x@ == v,
                None => r is None,
            },
    {
        let mut cs = chars_of(s);
        let n = cs.len();
        if n > 0 && cs[n - 1] == '?' {
            let ghost whole = cs@;
            cs.pop();
            assert(cs@ =~= whole.drop_last());
            match base_from_chars(&cs) {
                Some(inner) => Some(Schema::Optional(Box::new(inner))),
                None => None,
            }
        } else {
            base_from_chars(&cs)
        }
    }
}

} // verus!
