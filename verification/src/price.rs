//! Prices as the export writes them, with a comma before the cents.

use crate::decimal::{decimal_value, lemma_decimal_value_is_normal, Decimal, DecimalView};
use crate::text::{chars_of, first_index, lemma_first_index_is};
use vstd::prelude::*;
use vstd::string::StringExecFns;

verus! {

/// `s` with its first comma turned into a point.
pub open spec fn with_point(s: Seq<char>) -> Seq<char> {
    let k = first_index(s, ',');
    if k < s.len() {
        s.update(k, '.')
    } else {
        s
    }
}

/// The number that a price text denotes: what the text denotes as a
/// decimal once its comma is a point. A text that already has a point in
/// place of the comma denotes the same.
pub open spec fn price_value(s: Seq<char>) -> Option<DecimalView> {
    decimal_value(with_point(s))
}

/// What a price text denotes is a number in normal form.
pub proof fn lemma_price_value_is_normal(s: Seq<char>)
    ensures
        price_value(s) matches Some(v) ==> v.normal(),
{
    lemma_decimal_value_is_normal(with_point(s));
}

/// A price text that denotes no number; it holds the text.
#[derive(Debug)]
pub struct PriceParseError(pub String);

impl PriceParseError {
    /// What to tell the user.
    pub fn message(&self) -> (text: String)
        ensures
            text@ == "Invalid price: "@ + self.0@,
    {
        let mut text = String::from_str("Invalid price: ");
        text.append(self.0.as_str());
        text
    }
}

/// A price: the number, and the text it was read from.
#[derive(Debug)]
pub struct Price {
    /// The number.
    pub value: Decimal,
    /// The text as it stood in the export.
    pub display: String,
}

/// What a [`Price`] holds.
pub struct PriceView {
    pub value: DecimalView,
    pub display: Seq<char>,
}

impl View for Price {
    type V = PriceView;

    open spec fn view(&self) -> PriceView {
        PriceView { value: self.value@, display: self.display@ }
    }
}

impl DeepView for Price {
    type V = PriceView;

    open spec fn deep_view(&self) -> PriceView {
        self@
    }
}

impl Clone for Price {
    fn clone(&self) -> (res: Self)
        ensures
            res@ == self@,
    {
        Price { value: self.value.clone(), display: self.display.clone() }
    }
}

/// Reads the number that a price text denotes.
pub fn parse_amount(s: &str) -> (r: Option<Decimal>)
    ensures
        match price_value(s@) {
            Some(v) => r matches Some(d) && d@ == v,
            None => r is None,
        },
        r matches Some(d) ==> d@.normal(),
{
    let mut chars = chars_of(s);
    let mut i: usize = 0;
    while i < chars.len() && chars[i] != ','
        invariant
            i <= chars.len(),
            chars@ == s@,
            forall|j: int| 0 <= j < i ==> chars@[j] != ',',
        decreases chars.len() - i,
    {
        i = i + 1;
    }
    proof {
        lemma_first_index_is(s@, ',', i as int);
    }
    if i < chars.len() {
        chars.set(i, '.');
    }
    Decimal::from_chars(&chars)
}

impl Price {
    /// Reads a price. The text is kept as it is; a text that denotes no
    /// number is handed back in the error.
    pub fn parse(s: &str) -> (r: Result<Price, PriceParseError>)
        ensures
            match price_value(s@) {
                Some(v) => r matches Ok(p) && p@ == (PriceView { value: v, display: s@ }),
                None => r matches Err(e) && e.0@ == s@,
            },
            r matches Ok(p) ==> p.value@.normal(),
    {
        match parse_amount(s) {
            Some(value) => Ok(Price { value, display: s.to_owned() }),
            None => Err(PriceParseError(s.to_owned())),
        }
    }
}

} // verus!
