//! Typed scalar values: classification of raw text into integer,
//! floating-point numeral or plain text, and canonical rendering back.

use vstd::prelude::*;
use crate::numeric::{
    is_int_text, int_val_of, int_text_of, is_float_text, parse_i64, is_float_str, int_to_text,
    lemma_int_text_round_trip,
};

verus! {

/// Mathematical model of a typed scalar value.
pub enum ValueModel {
    Integer(int),
    Float(Seq<char>),
    Text(Seq<char>),
}

/// A tagged scalar: a 64-bit signed integer, a floating-point numeral kept
/// as the text it was written as, or plain text.
pub enum TypedValue {
    Integer(i64),
    Float(String),
    Text(String),
}

impl View for TypedValue {
    type V = ValueModel;

    open spec fn view(&self) -> ValueModel {
        match self {
            TypedValue::Integer(v) => ValueModel::Integer(*v as int),
            TypedValue::Float(s) => ValueModel::Float(s@),
            TypedValue::Text(s) => ValueModel::Text(s@),
        }
    }
}

/// Classification of raw text: an integer when the text denotes an `i64`,
/// else a floating-point numeral when the standard grammar accepts the
/// text, else plain text.
pub open spec fn convert_model(s: Seq<char>) -> ValueModel {
    if is_int_text(s) {
        ValueModel::Integer(int_val_of(s))
    } else if is_float_text(s) {
        ValueModel::Float(s)
    } else {
        ValueModel::Text(s)
    }
}

/// Canonical text of a value: an integer renders as canonical decimal text;
/// the two textual variants render as the text they hold.
pub open spec fn render_model(m: ValueModel) -> Seq<char> {
    match m {
        ValueModel::Integer(v) => int_text_of(v),
        ValueModel::Float(s) => s,
        ValueModel::Text(s) => s,
    }
}

impl TypedValue {
    /// Each variant holds only text of its own class.
    pub open spec fn wf(&self) -> bool {
        match self {
            TypedValue::Integer(_) => true,
            TypedValue::Float(s) => is_float_text(s@) && !is_int_text(s@),
            TypedValue::Text(s) => !is_int_text(s@) && !is_float_text(s@),
        }
    }

    /// Classify raw text into a typed value.
    pub fn convert(text: &str) -> (v: TypedValue)
        ensures
            v@ == convert_model(text@),
            v.wf(),
    {
        match parse_i64(text) {
            Some(n) => TypedValue::Integer(n),
            None => {
                if is_float_str(text) {
                    TypedValue::Float(text.to_owned())
                } else {
                    TypedValue::Text(text.to_owned())
                }
            },
        }
    }

    /// Canonical text of the value.
    pub fn render(&self) -> (s: String)
        ensures
            s@ == render_model(self@),
    {
        match self {
            TypedValue::Integer(v) => int_to_text(*v),
            TypedValue::Float(s) => s.clone(),
            TypedValue::Text(s) => s.clone(),
        }
    }

    /// Whether the two sides denote the same value.
    pub fn eq_value(&self, other: &TypedValue) -> (r: bool)
        ensures
            r == (self@ == other@),
    {
        match (self, other) {
            (TypedValue::Integer(a), TypedValue::Integer(b)) => *a == *b,
            (TypedValue::Float(a), TypedValue::Float(b)) => *a == *b,
            (TypedValue::Text(a), TypedValue::Text(b)) => *a == *b,
            _ => false,
        }
    }

    /// The value is classified as an integer.
    pub fn is_integer(&self) -> (r: bool)
        ensures
            r == (self@ is Integer),
    {
        matches!(self, TypedValue::Integer(_))
    }

    /// The value is classified as a floating-point numeral.
    pub fn is_float(&self) -> (r: bool)
        ensures
            r == (self@ is Float),
    {
        matches!(self, TypedValue::Float(_))
    }

    /// The value is classified as plain text.
    pub fn is_text(&self) -> (r: bool)
        ensures
            r == (self@ is Text),
    {
        matches!(self, TypedValue::Text(_))
    }

    /// A copy equal to this value.
    pub fn duplicate(&self) -> (r: TypedValue)
        ensures
            r == *self,
    {
        match self {
            TypedValue::Integer(v) => TypedValue::Integer(*v),
            TypedValue::Float(s) => TypedValue::Float(s.clone()),
            TypedValue::Text(s) => TypedValue::Text(s.clone()),
        }
    }
}

/// Converting text and rendering the result preserves the denoted value:
/// re-converting the rendering yields the same model. Integer text renders
/// as the canonical decimal form of the same integer; any other text —
/// floating-point numerals in particular — renders as the very text it
/// came from.
pub proof fn lemma_convert_render_round_trip(s: Seq<char>)
    ensures
        convert_model(render_model(convert_model(s))) == convert_model(s),
{
    if is_int_text(s) {
        lemma_int_text_round_trip(int_val_of(s));
    }
}

} // verus!
