//! Comparing documents.
use crate::json::diff::{diff, differences, ordered, report, Diff};
use crate::json::equality::{agrees, answers, Doubles};
use crate::json::error::Error;
use crate::json::parser::{parse, parsed};
use crate::json::value::{Json, Value};
use crate::text::chars_of;
use crate::words::{trim, trimmed};
use vstd::prelude::*;

verus! {

/// How two values differ, if they do.
pub open spec fn reported(l: Json, r: Json, doubles: Doubles) -> Option<Seq<char>> {
    let text = report(ordered(differences(seq![], l, r, doubles)), 0);
    if trimmed(text).len() == 0 {
        None
    } else {
        Some(text)
    }
}

/// Compares two documents: gives how they differ, if they do. Numbers that are no integers
/// are compared by `doubles`.
pub fn jdiff<F: Fn(&str, &str) -> Option<bool>>(left: &[u8], right: &[u8], doubles: &F) -> (r: Result<
    Option<String>,
    Error,
>)
    requires
        answers(*doubles),
    ensures
        match (parsed(left@), parsed(right@)) {
            (Err((k, pos)), _) => r matches Err(e) && e.kind@ == k && e.pos == pos,
            (_, Err((k, pos))) => r matches Err(e) && e.kind@ == k && e.pos == pos,
            (Ok(a), Ok(b)) => r matches Ok(text) && forall|d: Doubles| #[trigger]
                agrees(*doubles, d) ==> text.deep_view() == reported(a, b, d),
        },
{
    let left: Value = match parse(left) {
        Ok(v) => v,
        Err(e) => return Err(e),
    };
    let right: Value = match parse(right) {
        Ok(v) => v,
        Err(e) => return Err(e),
    };
    let found: Diff = diff(&left, &right, doubles);
    let text: String = found.to_string();
    let rest: Vec<char> = chars_of(trim(text.as_str()).as_str());
    if rest.len() == 0 {
        Ok(None)
    } else {
        Ok(Some(text))
    }
}

} // verus!
