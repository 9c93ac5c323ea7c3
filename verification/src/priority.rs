use vstd::prelude::*;

use crate::text::str_eq;

verus! {

/// Urgency attached to a task, from least to most pressing.
///
/// The variants carry a canonical integer encoding `0..=4` used by the
/// on-disk format; decoding is lenient, so an out-of-range integer comes
/// back as `Unknown` rather than as an error.
#[derive(Clone, Copy, Debug, PartialEq, Eq, Structural, Hash)]
pub enum Priority {
    Unknown,
    Low,
    Medium,
    High,
    Critical,
}

impl Priority {
    /// Canonical integer encoding: Unknown = 0 up to Critical = 4.
    pub open spec fn to_u8_spec(self) -> u8 {
        match self {
            Priority::Unknown => 0,
            Priority::Low => 1,
            Priority::Medium => 2,
            Priority::High => 3,
            Priority::Critical => 4,
        }
    }

    /// Lenient decoding: integers outside `1..=4` give `Unknown`.
    pub open spec fn from_u64_spec(v: u64) -> Priority {
        if v == 1 {
            Priority::Low
        } else if v == 2 {
            Priority::Medium
        } else if v == 3 {
            Priority::High
        } else if v == 4 {
            Priority::Critical
        } else {
            Priority::Unknown
        }
    }

    pub fn to_u8(&self) -> (r: u8)
        ensures
            r == self.to_u8_spec(),
    {
        match *self {
            Priority::Unknown => 0,
            Priority::Low => 1,
            Priority::Medium => 2,
            Priority::High => 3,
            Priority::Critical => 4,
        }
    }

    pub fn from_u8(v: u8) -> (r: Self)
        ensures
            r == Self::from_u64_spec(v as u64),
    {
        match v {
            1 => Priority::Low,
            2 => Priority::Medium,
            3 => Priority::High,
            4 => Priority::Critical,
            _ => Priority::Unknown,
        }
    }

    pub fn from_u64(v: u64) -> (r: Self)
        ensures
            r == Self::from_u64_spec(v),
    {
        if v == 1 {
            Priority::Low
        } else if v == 2 {
            Priority::Medium
        } else if v == 3 {
            Priority::High
        } else if v == 4 {
            Priority::Critical
        } else {
            Priority::Unknown
        }
    }

    /// Encoding then decoding gives the priority back unchanged.
    pub proof fn lemma_encode_decode(p: Priority)
        ensures
            Self::from_u64_spec(p.to_u8_spec() as u64) == p,
    {
    }

    /// The fixed, case-sensitive alias table. Anything not in it means
    /// `Unknown`: the priority is a display decoration, so an unrecognized
    /// spelling is never an error.
    pub open spec fn alias_spec(s: Seq<char>) -> Priority {
        if s == "critical"@ || s == "crit"@ || s == "c"@ {
            Priority::Critical
        } else if s == "high"@ || s == "h"@ {
            Priority::High
        } else if s == "medium"@ || s == "m"@ {
            Priority::Medium
        } else if s == "low"@ || s == "l"@ {
            Priority::Low
        } else {
            Priority::Unknown
        }
    }

    /// Resolves one of the accepted spellings to its priority.
    pub fn from_alias(s: &str) -> (r: Self)
        ensures
            r == Self::alias_spec(s@),
    {
        if str_eq(s, "critical") || str_eq(s, "crit") || str_eq(s, "c") {
            Priority::Critical
        } else if str_eq(s, "high") || str_eq(s, "h") {
            Priority::High
        } else if str_eq(s, "medium") || str_eq(s, "m") {
            Priority::Medium
        } else if str_eq(s, "low") || str_eq(s, "l") {
            Priority::Low
        } else {
            Priority::Unknown
        }
    }
}

impl PartialOrd for Priority {
    /// Total order from least to most pressing, by the canonical encoding.
    fn partial_cmp(&self, other: &Self) -> (r: Option<core::cmp::Ordering>) {
        let a = self.to_u8();
        let b = other.to_u8();
        if a < b {
            Some(core::cmp::Ordering::Less)
        } else if a == b {
            Some(core::cmp::Ordering::Equal)
        } else {
            Some(core::cmp::Ordering::Greater)
        }
    }
}

impl vstd::std_specs::cmp::PartialOrdSpecImpl for Priority {
    open spec fn obeys_partial_cmp_spec() -> bool {
        true
    }

    open spec fn partial_cmp_spec(&self, other: &Priority) -> Option<core::cmp::Ordering> {
        if self.to_u8_spec() < other.to_u8_spec() {
            Some(core::cmp::Ordering::Less)
        } else if self.to_u8_spec() == other.to_u8_spec() {
            Some(core::cmp::Ordering::Equal)
        } else {
            Some(core::cmp::Ordering::Greater)
        }
    }
}

} // verus!
