//! Choice of the command-line action.
use vstd::prelude::*;

verus! {

/// The action to run: `dev` or `compile` as asked, `dev` for anything else
/// or when none is asked.
pub open spec fn action_of(action: Option<Seq<char>>) -> Seq<char> {
    match action {
        Some(a) => if a == "dev"@ || a == "compile"@ {
            a
        } else {
            "dev"@
        },
        None => "dev"@,
    }
}

/// The action to run for the requested one.
pub fn get_action(action: &Option<String>) -> (r: String)
    ensures
        r@ == action_of(
            match action {
                Some(a) => Some(a@),
                None => None,
            },
        ),
{
    match action {
        Some(a) => {
            if *a == String::from_str("dev") || *a == String::from_str("compile") {
                a.clone()
            } else {
                String::from_str("dev")
            }
        },
        None => String::from_str("dev"),
    }
}

} // verus!
