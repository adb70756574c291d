//! Recoverable-condition reporting.
//!
//! The extractor never aborts because one embedded payload is unreadable. Every
//! recoverable condition becomes a `Warning` carried through to the report, so a
//! format change shows up as diagnostics rather than as silently missing text.

use vstd::prelude::*;

verus! {

/// One recoverable condition.
#[derive(Debug)]
pub struct Warning {
    /// Stable machine-readable code. Use these in tests rather than the message text.
    pub code: String,
    pub message: String,
    pub member_index: Option<usize>,
    /// Byte offset into the source file, where one applies.
    pub file_offset: Option<usize>,
}

impl Clone for Warning {
    fn clone(&self) -> (r: Self)
        ensures
            r.code@ == self.code@,
            r.message@ == self.message@,
            r.member_index == self.member_index,
            r.file_offset == self.file_offset,
    {
        Warning {
            code: self.code.clone(),
            message: self.message.clone(),
            member_index: self.member_index,
            file_offset: self.file_offset,
        }
    }
}

/// The content of a warning.
pub struct WarningView {
    pub code: Seq<char>,
    pub message: Seq<char>,
    pub member_index: Option<usize>,
    pub file_offset: Option<usize>,
}

impl View for Warning {
    type V = WarningView;

    open spec fn view(&self) -> WarningView {
        WarningView {
            code: self.code@,
            message: self.message@,
            member_index: self.member_index,
            file_offset: self.file_offset,
        }
    }
}

/// The contents of a list of warnings, in order.
pub open spec fn warning_views(warnings: Seq<Warning>) -> Seq<WarningView> {
    warnings.map_values(|w: Warning| w@)
}

/// The codes of a list of warnings, in order.
pub open spec fn codes(warnings: Seq<Warning>) -> Seq<Seq<char>> {
    warnings.map_values(|w: Warning| w.code@)
}

impl Warning {
    /// A warning with no position.
    pub fn new(code: &str, message: String) -> (w: Self)
        ensures
            w.code@ == code@,
            w.message@ == message@,
            w.member_index is None,
            w.file_offset is None,
    {
        Warning { code: String::from_str(code), message, member_index: None, file_offset: None }
    }

    /// The same warning, placed at a gzip member.
    pub fn at_member(self, index: usize, file_offset: usize) -> (w: Self)
        ensures
            w.code == self.code,
            w.message == self.message,
            w.member_index == Some(index),
            w.file_offset == Some(file_offset),
    {
        Warning { member_index: Some(index), file_offset: Some(file_offset), ..self }
    }
}

/// Accumulates warnings in discovery order.
#[derive(Debug)]
pub struct Warnings(Vec<Warning>);

impl View for Warnings {
    type V = Seq<Warning>;

    /// The warnings held, in order.
    closed spec fn view(&self) -> Seq<Warning> {
        self.0@
    }
}

impl Default for Warnings {
    fn default() -> (r: Self)
        ensures
            r@.len() == 0,
    {
        Warnings(Vec::new())
    }
}

impl Warnings {
    /// No warnings yet.
    pub fn new() -> (r: Self)
        ensures
            r@.len() == 0,
    {
        Warnings(Vec::new())
    }

    /// Adds one warning at the end.
    pub fn push(&mut self, warning: Warning)
        ensures
            final(self)@ == old(self)@.push(warning),
    {
        self.0.push(warning);
    }

    /// Adds several warnings at the end, keeping their order.
    pub fn extend(&mut self, other: Vec<Warning>)
        ensures
            final(self)@ == old(self)@ + other@,
    {
        let mut other = other;
        self.0.append(&mut other);
    }

    /// The warnings, in order.
    pub fn into_vec(self) -> (r: Vec<Warning>)
        ensures
            r@ == self@,
    {
        self.0
    }

    /// The warnings, in order.
    pub fn as_slice(&self) -> (r: &[Warning])
        ensures
            r@ == self@,
    {
        self.0.as_slice()
    }
}

} // verus!
