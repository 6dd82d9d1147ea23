//! A changeset as text for a terminal that knows the ANSI colours.

use vstd::prelude::*;
use crate::{Difference, Kind, Span};

verus! {

/// What switches a terminal to bright green.
pub open spec fn green() -> Seq<char> {
    "\x1B[92m"@
}

/// What switches a terminal to bright red.
pub open spec fn red() -> Seq<char> {
    "\x1B[91m"@
}

/// What switches a terminal back to its own colour.
pub open spec fn reset() -> Seq<char> {
    "\x1B[0m"@
}

/// The text of one entry: green where it was added, red where it was
/// removed, and as it is where both texts have it.
pub open spec fn painted(span: Span) -> Seq<char> {
    match span.kind {
        Kind::Same => span.text,
        Kind::Add => green() + span.text + reset(),
        Kind::Rem => red() + span.text + reset(),
    }
}

/// The texts of all entries, each painted, one after another.
pub open spec fn colored(changes: Seq<Span>) -> Seq<char>
    decreases changes.len(),
{
    if changes.len() == 0 {
        Seq::empty()
    } else {
        colored(changes.drop_last()) + painted(changes.last())
    }
}

/// Writes a changeset as one coloured text: additions in green, removals in
/// red, the rest unchanged.
pub fn colorize(changeset: &Vec<Difference>) -> (out: String)
    ensures
        out@ == colored(changeset.deep_view()),
{
    let ghost changes = changeset.deep_view();
    let mut out = String::new();
    let mut i: usize = 0;
    while i < changeset.len()
        invariant
            i <= changeset.len(),
            changes == changeset.deep_view(),
            out@ == colored(changes.take(i as int)),
        decreases changeset.len() - i,
    {
        match &changeset[i] {
            Difference::Same(text) => {
                out.append(text.as_str());
            },
            Difference::Add(text) => {
                out.append("\x1B[92m");
                out.append(text.as_str());
                out.append("\x1B[0m");
            },
            Difference::Rem(text) => {
                out.append("\x1B[91m");
                out.append(text.as_str());
                out.append("\x1B[0m");
            },
        }
        assert(changes.take(i + 1).drop_last() =~= changes.take(i as int));
        i += 1;
    }
    assert(changes.take(i as int) =~= changes);
    out
}

} // verus!
