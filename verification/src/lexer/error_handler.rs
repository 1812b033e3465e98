//! Records whether an error was reported while reading the source.
use vstd::prelude::*;
use crate::text::{push_str};
use crate::numbers::usize_to_string;

verus! {

pub struct ErrorHandler {
    had_error: bool,
}

impl ErrorHandler {
    pub fn new() -> (h: Self)
        ensures
            !h.spec_had_error(),
    {
        ErrorHandler { had_error: false }
    }

    pub closed spec fn spec_had_error(&self) -> bool {
        self.had_error
    }

    pub fn had_error(&self) -> (r: bool)
        ensures
            r == self.spec_had_error(),
    {
        self.had_error
    }

    /// Records an error at `line`, character `pos`, and returns the report to show:
    /// `[line L, character P] Error : MESSAGE`.
    pub fn log_error(&mut self, line: usize, pos: usize, message: &str) -> (report: String)
        ensures
            final(self).spec_had_error(),
            report@ == error_report(line, pos, message@),
    {
        self.had_error = true;
        let mut out = String::new();
        push_str(&mut out, "[line ");
        let l = usize_to_string(line);
        push_str(&mut out, l.as_str());
        push_str(&mut out, ", character ");
        let p = usize_to_string(pos);
        push_str(&mut out, p.as_str());
        push_str(&mut out, "] Error : ");
        push_str(&mut out, message);
        proof {
            reveal_strlit("[line ");
            reveal_strlit(", character ");
            reveal_strlit("] Error : ");
        }
        out
    }
}

/// The text of an error report.
pub open spec fn error_report(line: usize, pos: usize, message: Seq<char>) -> Seq<char> {
    seq!['[', 'l', 'i', 'n', 'e', ' '] + crate::numbers::decimal(line as nat) + seq![',', ' ', 'c', 'h', 'a', 'r', 'a', 'c', 't', 'e', 'r', ' ']
        + crate::numbers::decimal(pos as nat) + seq![']', ' ', 'E', 'r', 'r', 'o', 'r', ' ', ':', ' '] + message
}

} // verus!
