//! The generate-compile-run flow: what the program is fed and what it runs.

use vstd::prelude::*;

use crate::native::CompileResult;
use crate::types::GenResult;

verus! {

/// The input a run gets: the content of the first generated file, or nothing
/// when no file was generated.
pub fn pipeline_input(g: &GenResult) -> (s: String)
    ensures
        g.files@.len() > 0 ==> s@ == g.files@[0].content@,
        g.files@.len() == 0 ==> s@.len() == 0,
{
    let mut s = String::new();
    if g.files.len() > 0 {
        s.append(g.files[0].content.as_str());
    }
    s
}

/// The message for a compilation that failed.
pub open spec fn compile_failed_text(stderr: Seq<char>) -> Seq<char> {
    "Compilation failed: "@ + stderr
}

/// The message for a compilation that succeeded without a binary.
pub open spec fn no_binary_text() -> Seq<char> {
    "Compilation succeeded but no binary path returned"@
}

/// What to run after a compilation: its binary, or why there is none.
pub fn run_target(c: &CompileResult) -> (r: Result<String, String>)
    ensures
        !c.success ==> (r matches Err(m) && m@ == compile_failed_text(c.stderr@)),
        c.success && c.binary_path is None ==> (r matches Err(m) && m@ == no_binary_text()),
        c.success ==> (c.binary_path matches Some(p) ==> (r matches Ok(q) && q@ == p@)),
{
    if !c.success {
        let mut m = String::new();
        m.append("Compilation failed: ");
        m.append(c.stderr.as_str());
        proof {
            reveal_strlit("Compilation failed: ");
        }
        return Err(m);
    }
    match &c.binary_path {
        Some(p) => {
            let mut q = String::new();
            q.append(p.as_str());
            Ok(q)
        },
        None => {
            let mut m = String::new();
            m.append("Compilation succeeded but no binary path returned");
            proof {
                reveal_strlit("Compilation succeeded but no binary path returned");
            }
            Err(m)
        },
    }
}

} // verus!
