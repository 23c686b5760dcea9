//! The three severities and the counters kept for them.

use vstd::prelude::*;

verus! {

/// The severity of a log line, in the order in which a report lists them.
#[derive(Clone, Copy, Debug, PartialEq, Eq, Hash, Structural)]
pub enum Severity {
    Error,
    Warning,
    Info,
}

impl Severity {
    /// The name under which a report lists the severity.
    pub open spec fn label_text(self) -> Seq<char> {
        match self {
            Severity::Error => "Errors"@,
            Severity::Warning => "Warnings"@,
            Severity::Info => "Info"@,
        }
    }

    /// The name under which a report lists the severity.
    pub fn label(&self) -> (r: &'static str)
        ensures
            r@ == self.label_text(),
    {
        match self {
            Severity::Error => "Errors",
            Severity::Warning => "Warnings",
            Severity::Info => "Info",
        }
    }
}

/// A number of lines for each severity.
pub struct Tally {
    pub errors: nat,
    pub warnings: nat,
    pub infos: nat,
}

impl Tally {
    /// No line of any severity.
    pub open spec fn zero() -> Tally {
        Tally { errors: 0, warnings: 0, infos: 0 }
    }

    /// The number of lines of a severity.
    pub open spec fn count(self, s: Severity) -> nat {
        match s {
            Severity::Error => self.errors,
            Severity::Warning => self.warnings,
            Severity::Info => self.infos,
        }
    }

    /// The tally with one more line of severity `s`.
    pub open spec fn bumped(self, s: Severity) -> Tally {
        match s {
            Severity::Error => Tally { errors: self.errors + 1, ..self },
            Severity::Warning => Tally { warnings: self.warnings + 1, ..self },
            Severity::Info => Tally { infos: self.infos + 1, ..self },
        }
    }

    /// The sum of two tallies, severity by severity.
    pub open spec fn plus(self, other: Tally) -> Tally {
        Tally {
            errors: self.errors + other.errors,
            warnings: self.warnings + other.warnings,
            infos: self.infos + other.infos,
        }
    }

    /// The number of lines of all severities together.
    pub open spec fn total(self) -> nat {
        self.errors + self.warnings + self.infos
    }
}

/// How many lines of each severity were seen.
#[derive(Clone, Copy, Debug, PartialEq, Eq, Structural)]
pub struct SeverityCounts {
    pub errors: usize,
    pub warnings: usize,
    pub infos: usize,
}

impl View for SeverityCounts {
    type V = Tally;

    open spec fn view(&self) -> Tally {
        Tally {
            errors: self.errors as nat,
            warnings: self.warnings as nat,
            infos: self.infos as nat,
        }
    }
}

impl SeverityCounts {
    /// Adding `other` to these counters stays within the machine's range.
    pub open spec fn fits(&self, other: &SeverityCounts) -> bool {
        forall|s: Severity| self@.count(s) + other@.count(s) <= usize::MAX
    }

    /// Counters that have counted nothing.
    pub fn new() -> (r: Self)
        ensures
            r@ == Tally::zero(),
    {
        SeverityCounts { errors: 0, warnings: 0, infos: 0 }
    }

    /// The number of lines counted for a severity.
    pub fn get(&self, s: Severity) -> (r: usize)
        ensures
            r == self@.count(s),
    {
        match s {
            Severity::Error => self.errors,
            Severity::Warning => self.warnings,
            Severity::Info => self.infos,
        }
    }

    /// Counts one more line of severity `s`.
    pub fn bump(&mut self, s: Severity)
        requires
            old(self)@.count(s) < usize::MAX,
        ensures
            final(self)@ == old(self)@.bumped(s),
    {
        match s {
            Severity::Error => {
                self.errors = self.errors + 1;
            },
            Severity::Warning => {
                self.warnings = self.warnings + 1;
            },
            Severity::Info => {
                self.infos = self.infos + 1;
            },
        }
    }

    /// Whether adding `other` stays within the machine's range.
    pub fn can_add(&self, other: &SeverityCounts) -> (r: bool)
        ensures
            r == self.fits(other),
    {
        let r = other.errors <= usize::MAX - self.errors && other.warnings <= usize::MAX
            - self.warnings && other.infos <= usize::MAX - self.infos;
        proof {
            if !r {
                if other.errors > usize::MAX - self.errors {
                    assert(self@.count(Severity::Error) + other@.count(Severity::Error)
                        > usize::MAX);
                } else if other.warnings > usize::MAX - self.warnings {
                    assert(self@.count(Severity::Warning) + other@.count(Severity::Warning)
                        > usize::MAX);
                } else {
                    assert(self@.count(Severity::Info) + other@.count(Severity::Info)
                        > usize::MAX);
                }
            }
        }
        r
    }

    /// Adds the counters of `other`, severity by severity.
    pub fn add(&mut self, other: &SeverityCounts)
        requires
            old(self).fits(other),
        ensures
            final(self)@ == old(self)@.plus(other@),
    {
        assert(self@.count(Severity::Error) + other@.count(Severity::Error) <= usize::MAX);
        assert(self@.count(Severity::Warning) + other@.count(Severity::Warning) <= usize::MAX);
        assert(self@.count(Severity::Info) + other@.count(Severity::Info) <= usize::MAX);
        self.errors = self.errors + other.errors;
        self.warnings = self.warnings + other.warnings;
        self.infos = self.infos + other.infos;
    }
}

} // verus!
