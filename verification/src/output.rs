//! Where an emitted report goes: nowhere, to standard output, or to a file.
//! The decision of whether and where to emit is configuration; performing
//! the write is the embedder's concern.

use vstd::prelude::*;

verus! {

/// Emit an output, usually a JSON report.
#[derive(Debug)]
pub enum Output {
    /// Don't emit any output.
    False,
    /// Write to standard output.
    Stdout,
    /// Write to a local file.
    Path(String),
}

/// The code point of a character with ASCII upper case folded to lower case.
pub open spec fn lower_code(c: char) -> u32 {
    if 'A' as u32 <= c as u32 && c as u32 <= 'Z' as u32 {
        (c as u32 + 32) as u32
    } else {
        c as u32
    }
}

/// The string equals the (already lower-case) literal, ASCII case ignored.
pub open spec fn eq_lower(s: Seq<char>, lit: Seq<char>) -> bool {
    s.len() == lit.len() && forall|i: int| 0 <= i < s.len() ==> lower_code(#[trigger] s[i]) == lit[i] as u32
}

/// What a textual selector means: `false` switches the output off, the empty
/// selector and `stdout` select standard output, anything else is a file
/// path. The selector keywords are ASCII-case-insensitive.
pub open spec fn spec_output_of(s: String) -> Output {
    if eq_lower(s@, "false"@) {
        Output::False
    } else if s@.len() == 0 || eq_lower(s@, "stdout"@) {
        Output::Stdout
    } else {
        Output::Path(s)
    }
}

/// Compare a string against an ASCII-lower-case keyword, case ignored.
fn eq_keyword(s: &str, lit: &str) -> (r: bool)
    ensures
        r == eq_lower(s@, lit@),
{
    let n = s.unicode_len();
    let m = lit.unicode_len();
    if n != m {
        return false;
    }
    let mut i: usize = 0;
    while i < n
        invariant
            i <= n,
            n == s@.len(),
            n == lit@.len(),
            forall|k: int| 0 <= k < i ==> lower_code(#[trigger] s@[k]) == lit@[k] as u32,
        decreases n - i,
    {
        let c = s.get_char(i) as u32;
        let lc = if 65 <= c && c <= 90 {
            c + 32
        } else {
            c
        };
        let l = lit.get_char(i) as u32;
        if lc != l {
            proof {
                assert(lower_code(s@[i as int]) != lit@[i as int] as u32);
            }
            return false;
        }
        i = i + 1;
    }
    true
}

impl Output {
    /// Should an output be emitted at all?
    pub fn should_emit(&self) -> (r: bool)
        ensures
            r == !(self is False),
    {
        !matches!(self, Output::False)
    }
}

impl From<String> for Output {
    /// Parse a textual output selector.
    fn from(s: String) -> (r: Output) {
        if eq_keyword(s.as_str(), "false") {
            Output::False
        } else if s.as_str().unicode_len() == 0 || eq_keyword(s.as_str(), "stdout") {
            Output::Stdout
        } else {
            Output::Path(s)
        }
    }
}

impl vstd::std_specs::convert::FromSpecImpl<String> for Output {
    open spec fn obeys_from_spec() -> bool {
        true
    }

    open spec fn from_spec(s: String) -> Output {
        spec_output_of(s)
    }
}

} // verus!
