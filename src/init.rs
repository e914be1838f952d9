use vstd::prelude::*;

verus! {

/// The branch that a new repository starts on: the one asked for, else the
/// configured default when it is not empty, else `master`.
pub open spec fn initial_branch_spec(requested: Option<Seq<char>>, configured: Seq<char>) -> Seq<char> {
    match requested {
        Some(b) => b,
        None => if configured.len() > 0 {
            configured
        } else {
            "master"@
        },
    }
}

/// Chooses the branch that a new repository's `HEAD` names.
pub fn initial_branch(requested: Option<String>, configured: String) -> (r: String)
    ensures
        r@ == initial_branch_spec(
            match requested {
                Some(b) => Some(b@),
                None => None,
            },
            configured@,
        ),
{
    match requested {
        Some(b) => b,
        None => if configured.as_str().is_empty() {
            String::from_str("master")
        } else {
            configured
        },
    }
}

} // verus!
