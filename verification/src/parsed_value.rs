//! Values that were found in a query.

use core::cmp::Ordering;
use core::ops::Range;
use vstd::prelude::*;

verus! {

/// A value that was found in a query. The range is that of the raw value in the query, in characters.
#[derive(Debug, PartialEq, Eq)]
pub struct ParsedValue {
    pub resolved_value: String,
    pub range: Range<usize>,
    pub raw_value: String,
}

/// The contents of a [`ParsedValue`].
pub struct ParsedView {
    pub resolved_value: Seq<char>,
    pub start: int,
    pub end: int,
    pub raw_value: Seq<char>,
}

impl View for ParsedValue {
    type V = ParsedView;

    open spec fn view(&self) -> ParsedView {
        ParsedView {
            resolved_value: self.resolved_value@,
            start: self.range.start as int,
            end: self.range.end as int,
            raw_value: self.raw_value@,
        }
    }
}

/// How two values stand to each other in a query. They are comparable if there is something between
/// them.
pub open spec fn place_order(a: ParsedValue, b: ParsedValue) -> Option<Ordering> {
    if a.range.end < b.range.start {
        Some(Ordering::Less)
    } else if a.range.start > b.range.end {
        Some(Ordering::Greater)
    } else {
        None
    }
}

/// Values are ordered by their places: if one comes before another, that one comes after it, and what
/// comes before it comes before the other too.
pub proof fn law_place_order_is_strict(a: ParsedValue, b: ParsedValue, c: ParsedValue)
    requires
        a.range.start <= a.range.end,
        b.range.start <= b.range.end,
        c.range.start <= c.range.end,
    ensures
        place_order(a, a) is None,
        place_order(a, b) == Some(Ordering::Less) <==> place_order(b, a) == Some(Ordering::Greater),
        place_order(a, b) == Some(Ordering::Less) && place_order(b, c) == Some(Ordering::Less)
            ==> place_order(a, c) == Some(Ordering::Less),
{
}

/// One value comes before another exactly if it ends before the other begins, with something between them, and
/// values that touch each other or have something in common are not comparable.
pub proof fn law_values_compare_by_their_places(a: ParsedValue, b: ParsedValue)
    requires
        a.range.start <= a.range.end,
        b.range.start <= b.range.end,
    ensures
        a.range.end < b.range.start <==> place_order(a, b) == Some(Ordering::Less),
        b.range.end < a.range.start <==> place_order(a, b) == Some(Ordering::Greater),
        a.range.start <= b.range.end && b.range.start <= a.range.end <==> place_order(a, b) is None,
{
}

impl PartialOrd for ParsedValue {
    fn partial_cmp(&self, other: &ParsedValue) -> (order: Option<Ordering>) {
        if self.range.end < other.range.start {
            Some(Ordering::Less)
        } else if self.range.start > other.range.end {
            Some(Ordering::Greater)
        } else {
            None
        }
    }
}

impl vstd::std_specs::cmp::PartialOrdSpecImpl for ParsedValue {
    open spec fn obeys_partial_cmp_spec() -> bool {
        true
    }

    open spec fn partial_cmp_spec(&self, other: &ParsedValue) -> Option<Ordering> {
        place_order(*self, *other)
    }
}

impl ParsedValue {
    /// How two values that are comparable stand to each other in a query.
    pub fn cmp(&self, other: &ParsedValue) -> (order: Ordering)
        requires
            place_order(*self, *other) is Some,
        ensures
            place_order(*self, *other) == Some(order),
    {
        if self.range.end < other.range.start {
            Ordering::Less
        } else {
            Ordering::Greater
        }
    }
}

} // verus!
