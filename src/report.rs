use vstd::prelude::*;
use vstd::string::StringExecFns;

verus! {

/// The first line of a failure report.
pub open spec fn failure_line(method_name: Seq<char>, message: Seq<char>) -> Seq<char> {
    method_name + "() failed: "@ + message
}

/// A line naming one underlying cause.
pub open spec fn cause_line(message: Seq<char>) -> Seq<char> {
    "  Caused by: "@ + message
}

/// The lines that report a failed call of `method_name`. `chain` holds the error's own
/// message followed by the messages of its sources, outermost first: the first line names
/// the call and the error, and each source gets a line of its own.
pub fn log_error(method_name: &str, chain: &Vec<String>) -> (lines: Vec<String>)
    ensures
        lines@.len() == chain@.len(),
        chain@.len() > 0 ==> lines@[0]@ == failure_line(method_name@, chain@[0]@),
        forall|k: int| 1 <= k < chain@.len() ==> #[trigger] lines@[k]@ == cause_line(chain@[k]@),
{
    let mut lines: Vec<String> = Vec::new();
    let mut k: usize = 0;
    while k < chain.len()
        invariant
            k <= chain@.len(),
            lines@.len() == k,
            k > 0 ==> lines@[0]@ == failure_line(method_name@, chain@[0]@),
            forall|j: int| 1 <= j < k ==> #[trigger] lines@[j]@ == cause_line(chain@[j]@),
        decreases chain@.len() - k,
    {
        let mut line: String;
        if k == 0 {
            line = String::from_str(method_name);
            line.append("() failed: ");
        } else {
            line = String::from_str("  Caused by: ");
        }
        line.append(chain[k].as_str());
        proof {
            reveal_strlit("() failed: ");
            reveal_strlit("  Caused by: ");
        }
        lines.push(line);
        k += 1;
    }
    lines
}

} // verus!
