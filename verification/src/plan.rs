//! How one invocation of the tool runs: from which arguments were given
//! (positional file, `--input`, `--output`, a password from flag or
//! environment) to the plan — process one file non-interactively, start the
//! interactive flow on a preselected file, or scan the directory first.

use vstd::prelude::*;

use crate::engine::ProcessMode;
use crate::scanner::{default_output_name, derive_name_spec};

verus! {

/// What a run does once the arguments are settled.
pub enum InvocationPlan {
    /// Process the first name into the second without prompting.
    OneLiner(Vec<u8>, Vec<u8>),
    /// Interactive flow with the file already chosen.
    InteractiveWithFile(Vec<u8>),
    /// Interactive flow that first scans the directory for candidates.
    InteractiveScan,
}

/// Decides the plan: `--input` wins over the positional file; with no file at
/// all the directory is scanned; with an explicit output the run is
/// non-interactive; with a password but no output the derived name stands in
/// for it; otherwise the interactive flow keeps the chosen file.
pub fn plan_invocation(
    file: Option<Vec<u8>>,
    input: Option<Vec<u8>>,
    output: Option<Vec<u8>>,
    has_password: bool,
    mode: ProcessMode,
) -> (r: InvocationPlan)
    ensures
        ({
            let chosen = if input is Some {
                input
            } else {
                file
            };
            match chosen {
                None => r is InteractiveScan,
                Some(p) => match output {
                    Some(o) => r is OneLiner && r->OneLiner_0@ == p@ && r->OneLiner_1@ == o@,
                    None => if has_password {
                        r is OneLiner && r->OneLiner_0@ == p@ && r->OneLiner_1@ == derive_name_spec(
                            p@,
                            mode,
                        )
                    } else {
                        r is InteractiveWithFile && r->InteractiveWithFile_0@ == p@
                    },
                },
            }
        }),
{
    let chosen = match input {
        Some(p) => Some(p),
        None => file,
    };
    match chosen {
        None => InvocationPlan::InteractiveScan,
        Some(p) => match output {
            Some(o) => InvocationPlan::OneLiner(p, o),
            None => if has_password {
                let out = default_output_name(p.as_slice(), mode);
                InvocationPlan::OneLiner(p, out)
            } else {
                InvocationPlan::InteractiveWithFile(p)
            },
        },
    }
}

} // verus!
