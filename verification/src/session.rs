//! The one-shot select-or-cancel decision that ends a picking session.
//!
//! Per refresh the host reports what it observed: a cancel signal, a submit
//! signal (a line break in the search buffer), or a direct activation of one
//! displayed result.  Exactly one decision follows: keep browsing, or end the
//! process, printing the chosen glyph on success and nothing on cancel.

use vstd::prelude::*;

use crate::rank::RankedResult;

verus! {

/// What the host process must do after a refresh: keep browsing, or write
/// the given output (the chosen glyph, no trailing newline) to standard
/// output — nothing when there is none — and exit with the given status.
pub enum Outcome {
    Browse,
    Terminate(i32, Option<String>),
}

/// Decides the fate of the session for one refresh.  A cancel signal ends
/// the process with a failure status and no output.  Otherwise a submit
/// signal picks the top-ranked result, or keeps browsing when nothing is
/// ranked.  Otherwise a directly activated result is picked.  A pick prints
/// exactly that entry's glyph and exits with the success status.  With no
/// signal at all, the session keeps browsing.
pub fn decide(
    ranked: &Vec<RankedResult>,
    cancel: bool,
    submitted: bool,
    activated: Option<usize>,
) -> (o: Outcome)
    requires
        activated matches Some(k) ==> k < ranked@.len(),
    ensures
        cancel ==> (o matches Outcome::Terminate(code, out) && code == 1 && out is None),
        !cancel && submitted && ranked@.len() > 0 ==> (o matches Outcome::Terminate(code, out)
            && code == 0 && (out matches Some(g) && g@ == ranked@[0].entry.glyph@)),
        !cancel && submitted && ranked@.len() == 0 ==> o is Browse,
        !cancel && !submitted ==> (activated matches Some(k) ==> (o matches Outcome::Terminate(
            code,
            out,
        ) && code == 0 && (out matches Some(g) && g@ == ranked@[k as int].entry.glyph@))),
        !cancel && !submitted && activated is None ==> o is Browse,
{
    if cancel {
        Outcome::Terminate(1, None)
    } else if submitted {
        if ranked.len() > 0 {
            Outcome::Terminate(0, Some(ranked[0].entry.glyph.clone()))
        } else {
            Outcome::Browse
        }
    } else {
        match activated {
            Some(k) => Outcome::Terminate(0, Some(ranked[k].entry.glyph.clone())),
            None => Outcome::Browse,
        }
    }
}

} // verus!
