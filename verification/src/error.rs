//! The error taxonomy of the store: configuration-directory resolution,
//! file I/O, parse failures with their locations, and schema mismatches.

use vstd::prelude::*;

use crate::text::{chars_to_string, dec_digits, push_str_chars, push_u64_chars};

verus! {

/// One located parse failure: 1-based line and column of the offending
/// place in the stored text.
#[derive(Debug)]
pub struct ParseIssue {
    pub line: u64,
    pub col: u64,
}

/// What can go wrong around loading and saving a store. All of these
/// propagate to the caller unresolved; none is retried or auto-corrected.
#[derive(Debug)]
pub enum Error {
    /// The platform's configuration-directory convention could not be
    /// resolved; carries the resolver's own message.
    BaseDirectoriesError(String),
    /// The text parsed but does not have the expected shape (missing or
    /// ill-typed field), as opposed to not parsing at all.
    DecodeError,
    /// A store could not be serialized. The serializer of this crate is
    /// total, so this is never produced here; the variant is kept for
    /// symmetry with decoding.
    EncodeError,
    /// A file could not be opened, read, created or written; carries the
    /// underlying message.
    IOError(String),
    /// The stored text is not well-formed: one entry per offending line,
    /// every one of them reported.
    ParserError(Vec<ParseIssue>),
}

/// The rendered report for one parse failure.
pub open spec fn issue_msg_spec(i: ParseIssue) -> Seq<char> {
    "\n  line "@ + dec_digits(i.line as nat) + ", column "@ + dec_digits(i.col as nat)
}

pub open spec fn issues_msg_spec(s: Seq<ParseIssue>) -> Seq<char>
    decreases s.len(),
{
    if s.len() == 0 {
        Seq::empty()
    } else {
        issue_msg_spec(s[0]) + issues_msg_spec(s.skip(1))
    }
}

/// The human-readable message of an error; multi-line for parse errors,
/// which list every offending location.
pub open spec fn message_spec(e: Error) -> Seq<char> {
    match e {
        Error::BaseDirectoriesError(m) => "BaseDirectories Error: "@ + m@,
        Error::DecodeError => "Decode Error"@,
        Error::EncodeError => "Encode Error"@,
        Error::IOError(m) => "IO Error: "@ + m@,
        Error::ParserError(issues) => "Parse Errors:"@ + issues_msg_spec(issues@),
    }
}

proof fn lemma_issues_msg_snoc(s: Seq<ParseIssue>, i: ParseIssue)
    ensures
        issues_msg_spec(s.push(i)) == issues_msg_spec(s) + issue_msg_spec(i),
    decreases s.len(),
{
    if s.len() == 0 {
        assert(s.push(i)[0] == i);
        assert(s.push(i).skip(1) =~= Seq::<ParseIssue>::empty());
        assert(issues_msg_spec(Seq::<ParseIssue>::empty()) == Seq::<char>::empty());
        assert(issues_msg_spec(s.push(i)) =~= issues_msg_spec(s) + issue_msg_spec(i));
    } else {
        assert(s.push(i)[0] == s[0]);
        assert(s.push(i).skip(1) =~= s.skip(1).push(i));
        lemma_issues_msg_snoc(s.skip(1), i);
        assert(issues_msg_spec(s.push(i)) =~= issues_msg_spec(s) + issue_msg_spec(i));
    }
}

impl Error {
    /// Renders this error for the user.
    pub fn message(&self) -> (r: String)
        ensures
            r@ == message_spec(*self),
    {
        let mut out: Vec<char> = Vec::new();
        match self {
            Error::BaseDirectoriesError(m) => {
                push_str_chars(&mut out, "BaseDirectories Error: ");
                push_str_chars(&mut out, m.as_str());
            },
            Error::DecodeError => {
                push_str_chars(&mut out, "Decode Error");
            },
            Error::EncodeError => {
                push_str_chars(&mut out, "Encode Error");
            },
            Error::IOError(m) => {
                push_str_chars(&mut out, "IO Error: ");
                push_str_chars(&mut out, m.as_str());
            },
            Error::ParserError(issues) => {
                push_str_chars(&mut out, "Parse Errors:");
                let ghost base = out@;
                let mut k: usize = 0;
                while k < issues.len()
                    invariant
                        k <= issues@.len(),
                        out@ == base + issues_msg_spec(issues@.subrange(0, k as int)),
                    decreases issues@.len() - k,
                {
                    let issue = &issues[k];
                    push_str_chars(&mut out, "\n  line ");
                    push_u64_chars(&mut out, issue.line);
                    push_str_chars(&mut out, ", column ");
                    push_u64_chars(&mut out, issue.col);
                    proof {
                        let pre = issues@.subrange(0, k as int);
                        assert(pre.push(issues@[k as int]) =~= issues@.subrange(0, k as int + 1));
                        lemma_issues_msg_snoc(pre, issues@[k as int]);
                        assert(out@ =~= base + issues_msg_spec(issues@.subrange(0, k as int + 1)));
                    }
                    k = k + 1;
                }
                proof {
                    assert(issues@.subrange(0, issues@.len() as int) =~= issues@);
                }
            },
        }
        proof {
            assert(out@ =~= message_spec(*self));
        }
        chars_to_string(&out)
    }
}

} // verus!
