//! Attribute labels and attribute values: one dimension of the stimulus
//! space and one point on such a dimension.
use crate::text::{int_text, int_to_chars, string_from_chars};
use vstd::prelude::*;

verus! {

/// The name of one dimension of the stimulus space.
#[derive(Debug, Clone, PartialEq, Eq, Hash)]
pub struct AttributeLabel(pub String);

impl View for AttributeLabel {
    type V = Seq<char>;

    open spec fn view(&self) -> Seq<char> {
        self.0@
    }
}

impl DeepView for AttributeLabel {
    type V = Seq<char>;

    open spec fn deep_view(&self) -> Seq<char> {
        self@
    }
}

impl AttributeLabel {
    pub fn from(label: &str) -> (r: Self)
        ensures
            r@ == label@,
    {
        AttributeLabel(label.to_owned())
    }

    pub fn text(&self) -> (r: &str)
        ensures
            r@ == self@,
    {
        self.0.as_str()
    }

    /// Equality of labels, by their character content.
    pub fn same_as(&self, other: &AttributeLabel) -> (r: bool)
        ensures
            r == (self@ == other@),
    {
        self.0 == other.0
    }

    pub fn matches_str(&self, other: &str) -> (r: bool)
        ensures
            r == (self@ == other@),
    {
        let other_owned: String = other.to_owned();
        self.0 == other_owned
    }

    /// A copy with the same character content.
    pub fn duplicate(&self) -> (r: Self)
        ensures
            r@ == self@,
    {
        AttributeLabel(self.0.clone())
    }
}

/// Mathematical value of a `StimulusAttribute`: either a signed integer or
/// free text.
pub enum AttributeValue {
    Numeric(int),
    Text(Seq<char>),
}

#[derive(Debug, Clone, PartialEq, Eq, Hash)]
pub enum AttributeKind {
    Numeric(i32),
    Text(String),
}

/// One value bound to an attribute label: a signed integer or free text.
/// Only integer values support ordering.
#[derive(Debug, Clone, PartialEq, Eq, Hash)]
pub struct StimulusAttribute(pub AttributeKind);

impl View for StimulusAttribute {
    type V = AttributeValue;

    open spec fn view(&self) -> AttributeValue {
        match self.0 {
            AttributeKind::Numeric(n) => AttributeValue::Numeric(n as int),
            AttributeKind::Text(ref s) => AttributeValue::Text(s@),
        }
    }
}

impl DeepView for StimulusAttribute {
    type V = AttributeValue;

    open spec fn deep_view(&self) -> AttributeValue {
        self@
    }
}

impl StimulusAttribute {
    pub fn from(attribute: &str) -> (r: Self)
        ensures
            r@ == AttributeValue::Text(attribute@),
    {
        StimulusAttribute(AttributeKind::Text(attribute.to_owned()))
    }

    pub fn numeric(value: i32) -> (r: Self)
        ensures
            r@ == AttributeValue::Numeric(value as int),
    {
        StimulusAttribute(AttributeKind::Numeric(value))
    }

    pub open spec fn is_numeric(&self) -> bool {
        self@ is Numeric
    }

    pub fn same_as(&self, other: &StimulusAttribute) -> (r: bool)
        ensures
            r == (self@ == other@),
    {
        match (&self.0, &other.0) {
            (AttributeKind::Numeric(a), AttributeKind::Numeric(b)) => a == b,
            (AttributeKind::Text(a), AttributeKind::Text(b)) => *a == *b,
            _ => false,
        }
    }

    /// Inclusive less-than on numeric values. Ordering any other pair of
    /// values is an invalid operation, ruled out by the precondition.
    pub fn le(&self, other: &StimulusAttribute) -> (r: bool)
        requires
            self@ is Numeric,
            other@ is Numeric,
        ensures
            r == value_le(self@, other@),
    {
        match (&self.0, &other.0) {
            (AttributeKind::Numeric(a), AttributeKind::Numeric(b)) => a <= b,
            _ => false,
        }
    }

    /// A copy with the same value.
    pub fn duplicate(&self) -> (r: Self)
        ensures
            r@ == self@,
    {
        match &self.0 {
            AttributeKind::Numeric(n) => StimulusAttribute(AttributeKind::Numeric(*n)),
            AttributeKind::Text(s) => StimulusAttribute(AttributeKind::Text(s.clone())),
        }
    }

    /// Canonical text form: the decimal rendering of a numeric value, or
    /// the text itself.
    pub fn to_text(&self) -> (r: String)
        ensures
            r@ == value_text(self@),
    {
        match &self.0 {
            AttributeKind::Numeric(n) => {
                let chars = int_to_chars(*n as i64);
                string_from_chars(&chars)
            },
            AttributeKind::Text(s) => s.clone(),
        }
    }
}

/// Inclusive less-than on attribute values; meaningful only when both are
/// numeric.
pub open spec fn value_le(a: AttributeValue, b: AttributeValue) -> bool {
    match (a, b) {
        (AttributeValue::Numeric(x), AttributeValue::Numeric(y)) => x <= y,
        _ => false,
    }
}

/// Canonical text form of an attribute value.
pub open spec fn value_text(a: AttributeValue) -> Seq<char> {
    match a {
        AttributeValue::Numeric(n) => int_text(n),
        AttributeValue::Text(s) => s,
    }
}

} // verus!
