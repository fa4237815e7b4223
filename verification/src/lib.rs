//! Export MoTeC `.m1dbc` CAN databases as standard Vector `.dbc` text, and check
//! committed exports against their sources.
//!
//! The crate is split by stage, and every stage is a function from values to
//! values; reading and writing files is the caller's part:
//! - `config` reads the `[dbc]` section of `m1-tools.toml`: which files a repo
//!   exports, and where.
//! - `xml` holds a parsed XML document, and `m1dbc` turns one into a model of the
//!   CAN messages and signals in it.
//! - `writer` renders that model as the text of a Vector `.dbc`.
//! - `roundtrip` reads such text back with an independent parser and counts what
//!   it finds.
//! - `report` puts the counts side by side, compares an export with the committed
//!   file, and says how the run ended.
//!
//! `names`, `text`, `number` and `order` are what the others share. The public proof
//! functions whose names begin with `law_` say what holds across functions; `source`,
//! `readback` and `plan` hold those on what is read from a source, on what a written text
//! says, and on what is read from a config.

use std::cmp::Ordering;
use vstd::prelude::*;

pub mod config;
pub mod m1dbc;
pub mod names;
pub mod number;
pub mod order;
pub mod plan;
pub mod readback;
pub mod report;
pub mod roundtrip;
pub mod source;
pub mod text;
pub mod writer;
pub mod xml;

verus! {

/// How an export run ended, worst last: what the exit code of the process says.
#[derive(Debug, Clone, Copy, PartialEq, Eq, Ord, Structural)]
pub enum Outcome {
    /// Everything was written, or everything was already in sync. Also a repo
    /// with nothing to export.
    Success,
    /// The export does not agree with its source: a count or round-trip mismatch,
    /// or a committed `.dbc` that is out of date.
    Mismatch,
    /// The work could not be done: a config, I/O or parse failure.
    Failed,
}

impl Outcome {
    /// The exit code of an outcome.
    pub open spec fn exit_code(self) -> u8 {
        match self {
            Outcome::Success => 0,
            Outcome::Mismatch => 1,
            Outcome::Failed => 2,
        }
    }

    /// The process exit code: `0` success, `1` mismatch, `2` failure.
    pub fn code(self) -> (r: u8)
        ensures
            r == self.exit_code(),
            r == 0 <==> self == Outcome::Success,
            r == 1 <==> self == Outcome::Mismatch,
            r == 2 <==> self == Outcome::Failed,
    {
        match self {
            Outcome::Success => 0,
            Outcome::Mismatch => 1,
            Outcome::Failed => 2,
        }
    }

    /// The worse of two outcomes.
    pub open spec fn worse(self, other: Outcome) -> Outcome {
        if self.exit_code() < other.exit_code() {
            other
        } else {
            self
        }
    }

    /// The worse of two outcomes: the one with the higher exit code.
    pub fn worst(self, other: Outcome) -> (r: Outcome)
        ensures
            r == self.worse(other),
    {
        if self < other {
            other
        } else {
            self
        }
    }
}

impl PartialOrd for Outcome {
    /// Outcomes are ordered by their exit codes, which is worst last.
    fn partial_cmp(&self, other: &Outcome) -> (r: Option<Ordering>) {
        let mine = self.code();
        let theirs = other.code();
        if mine < theirs {
            Some(Ordering::Less)
        } else if mine == theirs {
            Some(Ordering::Equal)
        } else {
            Some(Ordering::Greater)
        }
    }
}

impl vstd::std_specs::cmp::PartialOrdSpecImpl for Outcome {
    open spec fn obeys_partial_cmp_spec() -> bool {
        true
    }

    open spec fn partial_cmp_spec(&self, other: &Outcome) -> Option<Ordering> {
        if self.exit_code() < other.exit_code() {
            Some(Ordering::Less)
        } else if self.exit_code() == other.exit_code() {
            Some(Ordering::Equal)
        } else {
            Some(Ordering::Greater)
        }
    }
}

/// The order of outcomes is that of their exit codes: one comes before another exactly
/// when its code is smaller, two with the same code are the same, and the worse of two
/// has the larger code.
pub proof fn law_outcomes_are_ordered_by_their_codes(a: Outcome, b: Outcome)
    ensures
        vstd::std_specs::cmp::PartialOrdSpec::partial_cmp_spec(&a, &b) == Some(Ordering::Less)
            <==> a.exit_code() < b.exit_code(),
        vstd::std_specs::cmp::PartialOrdSpec::partial_cmp_spec(&a, &b) == Some(Ordering::Equal)
            <==> a == b,
        a == b <==> a.exit_code() == b.exit_code(),
        a.worse(b) == a || a.worse(b) == b,
        a.worse(b).exit_code() >= a.exit_code(),
        a.worse(b).exit_code() >= b.exit_code(),
{
}

/// Why an export could not be produced.
#[derive(Debug, PartialEq, Eq)]
pub enum ExportError {
    /// The `.m1dbc` did not parse as XML.
    Xml(String),
    /// A CAN component is unusable: a numeric attribute that will not parse, or a
    /// message or signal with no `<Props>`.
    Invalid(String),
    /// `.dbc` text did not parse as a CAN database.
    Dbc(String),
    /// The `[dbc]` section of `m1-tools.toml` is unusable.
    Config(String),
}

/// An [`ExportError`] with the characters of its message.
pub enum Fault {
    Xml(Seq<char>),
    Invalid(Seq<char>),
    Dbc(Seq<char>),
    Config(Seq<char>),
}

impl DeepView for ExportError {
    type V = Fault;

    open spec fn deep_view(&self) -> Fault {
        match self {
            ExportError::Xml(e) => Fault::Xml(e@),
            ExportError::Invalid(e) => Fault::Invalid(e@),
            ExportError::Dbc(e) => Fault::Dbc(e@),
            ExportError::Config(e) => Fault::Config(e@),
        }
    }
}

impl Fault {
    /// The sentence that tells a reader what went wrong.
    pub open spec fn sentence(self) -> Seq<char> {
        match self {
            Fault::Xml(e) => "invalid .m1dbc XML: "@ + e,
            Fault::Invalid(e) => e,
            Fault::Dbc(e) => "invalid .dbc text: "@ + e,
            Fault::Config(e) => e,
        }
    }
}

impl ExportError {
    /// The sentence that tells a reader what went wrong.
    pub fn message(&self) -> (r: String)
        ensures
            r@ == self.deep_view().sentence(),
    {
        match self {
            ExportError::Xml(e) => "invalid .m1dbc XML: ".to_owned().concat(e.as_str()),
            ExportError::Invalid(e) => e.as_str().to_owned(),
            ExportError::Dbc(e) => "invalid .dbc text: ".to_owned().concat(e.as_str()),
            ExportError::Config(e) => e.as_str().to_owned(),
        }
    }
}

/// The exit codes, and the sentence of each error: what went wrong, whole, behind what it
/// went wrong with.
pub proof fn law_codes_and_sentences(text: Seq<char>, error: ExportError)
    ensures
        Outcome::Success.exit_code() == 0,
        Outcome::Mismatch.exit_code() == 1,
        Outcome::Failed.exit_code() == 2,
        Fault::Xml(text).sentence() == "invalid .m1dbc XML: "@ + text,
        Fault::Dbc(text).sentence() == "invalid .dbc text: "@ + text,
        Fault::Invalid(text).sentence() == text,
        Fault::Config(text).sentence() == text,
        error matches ExportError::Xml(e) ==> error.deep_view() == Fault::Xml(e@),
        error matches ExportError::Invalid(e) ==> error.deep_view() == Fault::Invalid(e@),
        error matches ExportError::Dbc(e) ==> error.deep_view() == Fault::Dbc(e@),
        error matches ExportError::Config(e) ==> error.deep_view() == Fault::Config(e@),
{
}

} // verus!
