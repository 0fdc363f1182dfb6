use vstd::prelude::*;
use vstd::string::StringExecFns;
use crate::text::{decimal, push_decimal};

verus! {

/// The static description of one call site: what was raised or rewrapped
/// there, and where in the source it stands.
#[derive(Debug)]
pub struct ErtraceLocation {
    pub tag: &'static str,
    pub file: &'static str,
    pub line: u32,
    pub column: u32,
    pub module: &'static str,
}

/// `<tag> at <file>:<line>:<column> in <module>` followed by a newline.
pub open spec fn location_text(loc: ErtraceLocation) -> Seq<char> {
    loc.tag@ + " at "@ + loc.file@ + ":"@ + decimal(loc.line as nat) + ":"@
        + decimal(loc.column as nat) + " in "@ + loc.module@ + "\n"@
}

impl ErtraceLocation {
    /// Appends this location's line of text to `out`.
    pub fn write_to(&self, out: &mut String)
        ensures
            final(out)@ == old(out)@ + location_text(*self),
    {
        out.append(self.tag);
        out.append(" at ");
        out.append(self.file);
        out.append(":");
        push_decimal(out, self.line as u64);
        out.append(":");
        push_decimal(out, self.column as u64);
        out.append(" in ");
        out.append(self.module);
        out.append("\n");
        assert(out@ =~= old(out)@ + location_text(*self));
    }

    /// The location as one line of text, newline included.
    pub fn to_string(&self) -> (r: String)
        ensures
            r@ == location_text(*self),
    {
        let mut out = String::new();
        self.write_to(&mut out);
        assert(out@ =~= location_text(*self));
        out
    }
}

} // verus!
