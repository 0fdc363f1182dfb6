use vstd::prelude::*;
use vstd::string::StringExecFns;
use crate::ertrace_location::{location_text, ErtraceLocation};
use crate::text::{decimal, pad_left, push_decimal_padded};

verus! {

/// The line for the event at position `i` of a trace: the position
/// right-aligned in five columns, a colon, and the location's text.
pub open spec fn trace_line(i: nat, loc: ErtraceLocation) -> Seq<char> {
    pad_left(decimal(i), 5) + ": "@ + location_text(loc)
}

/// The lines for all events of `locs`, numbered from 0, oldest first.
pub open spec fn trace_lines(locs: Seq<&'static ErtraceLocation>) -> Seq<char>
    decreases locs.len(),
{
    if locs.len() == 0 {
        Seq::empty()
    } else {
        trace_lines(locs.drop_last()) + trace_line((locs.len() - 1) as nat, *locs.last())
    }
}

/// The whole rendering of a trace: a header line, one numbered line per
/// event, oldest first, and a closing blank line.
pub open spec fn rendered_trace(locs: Seq<&'static ErtraceLocation>) -> Seq<char> {
    "error return trace:\n"@ + trace_lines(locs) + "\n"@
}

/// Renders the trace whose events are `locs`, oldest first.
pub fn render_trace(locs: &Vec<&'static ErtraceLocation>) -> (r: String)
    ensures
        r@ == rendered_trace(locs@),
{
    let mut out = String::new();
    out.append("error return trace:\n");
    let mut i: usize = 0;
    while i < locs.len()
        invariant
            i <= locs@.len(),
            out@ == "error return trace:\n"@ + trace_lines(locs@.take(i as int)),
        decreases locs@.len() - i,
    {
        let loc = locs[i];
        push_decimal_padded(&mut out, i as u64, 5);
        out.append(": ");
        loc.write_to(&mut out);
        proof {
            let prefix = locs@.take(i as int + 1);
            assert(prefix.drop_last() =~= locs@.take(i as int));
            assert(out@ =~= "error return trace:\n"@ + trace_lines(prefix));
        }
        i = i + 1;
    }
    assert(locs@.take(i as int) =~= locs@);
    out.append("\n");
    out
}

} // verus!
