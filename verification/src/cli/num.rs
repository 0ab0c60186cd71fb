//! Numbers that are computed and written in floating point, by whoever prints.

use vstd::prelude::*;

verus! {

/// A quantity to be computed and written. Double-precision numbers are given by
/// their bits.
#[derive(Debug, Clone, Copy, PartialEq, Eq, Structural)]
pub enum Num {
    /// A duration in seconds, with three places.
    Secs(u64),
    /// How many percent `part` is of `whole`, with one place.
    Percent { part: u64, whole: u64 },
    /// A number with two places.
    Plain(u64),
    /// How many times `b` goes into `a`, with two places; `b` counts as at least a
    /// billionth.
    Ratio { a: u64, b: u64 },
    /// How many gigabytes a second are read when `bytes` take the share `part` of
    /// `whole` of a time, with one place.
    Rate { bytes: u64, part: u64, whole: u64, secs: u64 },
}

/// Whether `f` writes quantities: defined everywhere, with one text for one
/// quantity. Of a rate that is not positive it writes nothing.
pub open spec fn says<F: Fn(Num) -> Option<String>>(f: F) -> bool {
    &&& forall|x: Num| #[trigger] f.requires((x,))
    &&& forall|x: Num, s: Option<String>, t: Option<String>| #[trigger]
        f.ensures((x,), s) && #[trigger] f.ensures((x,), t) ==> text_or_dash(s) == text_or_dash(t)
}

/// A text, or a dash for none.
pub open spec fn text_or_dash(o: Option<String>) -> Seq<char> {
    match o {
        Some(s) => s@,
        None => "-"@,
    }
}

/// What `f` writes of a quantity, with a dash for nothing.
pub open spec fn said<F: Fn(Num) -> Option<String>>(f: F, x: Num) -> Seq<char> {
    text_or_dash(choose|s: Option<String>| f.ensures((x,), s))
}

/// Writes a quantity, or a dash.
pub fn say<F: Fn(Num) -> Option<String>>(f: &F, x: Num) -> (s: String)
    requires
        says(*f),
    ensures
        s@ == said(*f, x),
{
    match f(x) {
        Some(s) => s,
        None => "-".to_owned(),
    }
}

} // verus!
