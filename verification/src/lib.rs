//! Table-driven migration of legacy free-text log statements.
//!
//! The library rewrites logging calls in line-oriented source text to
//! reference canonical message templates taken from per-subsystem code
//! tables.  It covers the full migration pipeline: code-table parsing,
//! multi-line statement normalization, comment-based disambiguation, the
//! interactive resolution protocol, and the line-shifting rewrite engine.
//! All I/O and on-screen rendering live outside this crate; the library
//! works on plain lines of text and exchanges events and commands with
//! its surroundings through the types in [`tui`].

use vstd::prelude::*;
use vstd::string::StringExecFns;

pub mod cli;
pub mod log_list;
pub mod mdb_parser;
pub mod normalizer;
pub mod parser;
pub mod session;
pub mod text;
pub mod tui;

verus! {

/// The closed set of subsystem identifiers, each the owner of one code
/// table.
#[derive(Eq, PartialEq, Structural, Hash, Copy, Clone, Debug)]
pub enum FCP {
    SE,
    ASM,
    DP,
    DRC,
    EDIF,
    ERP,
    GDSREADER,
    IO,
    LMAN,
    ME,
    REPORTS,
    SDB,
    SHELL,
    TDM,
    UI,
}

/// The subsystem whose canonical token is `s`, if any.
pub open spec fn fcp_of(s: Seq<char>) -> Option<FCP> {
    if s == "fcpasm"@ {
        Some(FCP::ASM)
    } else if s == "fcpdp"@ {
        Some(FCP::DP)
    } else if s == "fcpdrc"@ {
        Some(FCP::DRC)
    } else if s == "fcpedif"@ {
        Some(FCP::EDIF)
    } else if s == "fcperp"@ {
        Some(FCP::ERP)
    } else if s == "fcpgdsreader"@ {
        Some(FCP::GDSREADER)
    } else if s == "fcpio"@ {
        Some(FCP::IO)
    } else if s == "fcplman"@ {
        Some(FCP::LMAN)
    } else if s == "fcpme"@ {
        Some(FCP::ME)
    } else if s == "fcpreports"@ {
        Some(FCP::REPORTS)
    } else if s == "fcpsdb"@ {
        Some(FCP::SDB)
    } else if s == "fcpse"@ {
        Some(FCP::SE)
    } else if s == "fcpshell"@ {
        Some(FCP::SHELL)
    } else if s == "fcptdm"@ {
        Some(FCP::TDM)
    } else if s == "fcpui"@ {
        Some(FCP::UI)
    } else {
        None
    }
}

/// The canonical lowercase token of a subsystem, used as a file stem and
/// as menu text.
pub open spec fn fcp_str(f: FCP) -> Seq<char> {
    match f {
        FCP::ASM => "fcpasm"@,
        FCP::DP => "fcpdp"@,
        FCP::DRC => "fcpdrc"@,
        FCP::EDIF => "fcpedif"@,
        FCP::ERP => "fcperp"@,
        FCP::GDSREADER => "fcpgdsreader"@,
        FCP::IO => "fcpio"@,
        FCP::LMAN => "fcplman"@,
        FCP::ME => "fcpme"@,
        FCP::REPORTS => "fcpreports"@,
        FCP::SDB => "fcpsdb"@,
        FCP::SE => "fcpse"@,
        FCP::SHELL => "fcpshell"@,
        FCP::TDM => "fcptdm"@,
        FCP::UI => "fcpui"@,
    }
}

impl FCP {
    /// The subsystem named by the given token, if any.
    pub fn from_str(s: &str) -> (r: Option<Self>)
        ensures
            r == fcp_of(s@),
    {
        let v = text::str_to_chars(s);
        Self::from_chars(&v)
    }

    /// The subsystem named by the given token, if any.
    pub fn from_chars(v: &Vec<char>) -> (r: Option<Self>)
        ensures
            r == fcp_of(v@),
    {
        if text::chars_eq_str(v, "fcpasm") {
            Some(Self::ASM)
        } else if text::chars_eq_str(v, "fcpdp") {
            Some(Self::DP)
        } else if text::chars_eq_str(v, "fcpdrc") {
            Some(Self::DRC)
        } else if text::chars_eq_str(v, "fcpedif") {
            Some(Self::EDIF)
        } else if text::chars_eq_str(v, "fcperp") {
            Some(Self::ERP)
        } else if text::chars_eq_str(v, "fcpgdsreader") {
            Some(Self::GDSREADER)
        } else if text::chars_eq_str(v, "fcpio") {
            Some(Self::IO)
        } else if text::chars_eq_str(v, "fcplman") {
            Some(Self::LMAN)
        } else if text::chars_eq_str(v, "fcpme") {
            Some(Self::ME)
        } else if text::chars_eq_str(v, "fcpreports") {
            Some(Self::REPORTS)
        } else if text::chars_eq_str(v, "fcpsdb") {
            Some(Self::SDB)
        } else if text::chars_eq_str(v, "fcpse") {
            Some(Self::SE)
        } else if text::chars_eq_str(v, "fcpshell") {
            Some(Self::SHELL)
        } else if text::chars_eq_str(v, "fcptdm") {
            Some(Self::TDM)
        } else if text::chars_eq_str(v, "fcpui") {
            Some(Self::UI)
        } else {
            None
        }
    }

    /// The canonical token of this subsystem.
    pub fn to_str(&self) -> (r: String)
        ensures
            r@ == fcp_str(*self),
    {
        match self {
            Self::ASM => String::from_str("fcpasm"),
            Self::DP => String::from_str("fcpdp"),
            Self::DRC => String::from_str("fcpdrc"),
            Self::EDIF => String::from_str("fcpedif"),
            Self::ERP => String::from_str("fcperp"),
            Self::GDSREADER => String::from_str("fcpgdsreader"),
            Self::IO => String::from_str("fcpio"),
            Self::LMAN => String::from_str("fcplman"),
            Self::ME => String::from_str("fcpme"),
            Self::REPORTS => String::from_str("fcpreports"),
            Self::SDB => String::from_str("fcpsdb"),
            Self::SE => String::from_str("fcpse"),
            Self::SHELL => String::from_str("fcpshell"),
            Self::TDM => String::from_str("fcptdm"),
            Self::UI => String::from_str("fcpui"),
        }
    }

    /// The canonical token of this subsystem, as a character vector.
    pub fn to_chars(&self) -> (r: Vec<char>)
        ensures
            r@ == fcp_str(*self),
    {
        let s = self.to_str();
        text::str_to_chars(s.as_str())
    }
}

/// The string and symbol forms of a subsystem determine each other:
/// rendering a subsystem's token and reading it back yields the same
/// subsystem, so distinct subsystems have distinct tokens.
pub proof fn lemma_subsystem_names_bijective(f: FCP)
    ensures
        fcp_of(fcp_str(f)) == Some(f),
{
    reveal_strlit("fcpasm");
    reveal_strlit("fcpdp");
    reveal_strlit("fcpdrc");
    reveal_strlit("fcpedif");
    reveal_strlit("fcperp");
    reveal_strlit("fcpgdsreader");
    reveal_strlit("fcpio");
    reveal_strlit("fcplman");
    reveal_strlit("fcpme");
    reveal_strlit("fcpreports");
    reveal_strlit("fcpsdb");
    reveal_strlit("fcpse");
    reveal_strlit("fcpshell");
    reveal_strlit("fcptdm");
    reveal_strlit("fcpui");
    assert("fcpasm"@ =~= seq!['f', 'c', 'p', 'a', 's', 'm']);
    assert("fcpdp"@ =~= seq!['f', 'c', 'p', 'd', 'p']);
    assert("fcpdrc"@ =~= seq!['f', 'c', 'p', 'd', 'r', 'c']);
    assert("fcpedif"@ =~= seq!['f', 'c', 'p', 'e', 'd', 'i', 'f']);
    assert("fcperp"@ =~= seq!['f', 'c', 'p', 'e', 'r', 'p']);
    assert("fcpgdsreader"@ =~= seq!['f', 'c', 'p', 'g', 'd', 's', 'r', 'e', 'a', 'd', 'e', 'r']);
    assert("fcpio"@ =~= seq!['f', 'c', 'p', 'i', 'o']);
    assert("fcplman"@ =~= seq!['f', 'c', 'p', 'l', 'm', 'a', 'n']);
    assert("fcpme"@ =~= seq!['f', 'c', 'p', 'm', 'e']);
    assert("fcpreports"@ =~= seq!['f', 'c', 'p', 'r', 'e', 'p', 'o', 'r', 't', 's']);
    assert("fcpsdb"@ =~= seq!['f', 'c', 'p', 's', 'd', 'b']);
    assert("fcpse"@ =~= seq!['f', 'c', 'p', 's', 'e']);
    assert("fcpshell"@ =~= seq!['f', 'c', 'p', 's', 'h', 'e', 'l', 'l']);
    assert("fcptdm"@ =~= seq!['f', 'c', 'p', 't', 'd', 'm']);
    assert("fcpui"@ =~= seq!['f', 'c', 'p', 'u', 'i']);
    match f {
        FCP::ASM => assert(fcp_of(fcp_str(f)) == Some(f)),
        FCP::DP => assert(fcp_of(fcp_str(f)) == Some(f)),
        FCP::DRC => assert(fcp_of(fcp_str(f)) == Some(f)),
        FCP::EDIF => assert(fcp_of(fcp_str(f)) == Some(f)),
        FCP::ERP => assert(fcp_of(fcp_str(f)) == Some(f)),
        FCP::GDSREADER => assert(fcp_of(fcp_str(f)) == Some(f)),
        FCP::IO => assert(fcp_of(fcp_str(f)) == Some(f)),
        FCP::LMAN => assert(fcp_of(fcp_str(f)) == Some(f)),
        FCP::ME => assert(fcp_of(fcp_str(f)) == Some(f)),
        FCP::REPORTS => assert(fcp_of(fcp_str(f)) == Some(f)),
        FCP::SDB => assert(fcp_of(fcp_str(f)) == Some(f)),
        FCP::SE => assert(fcp_of(fcp_str(f)) == Some(f)),
        FCP::SHELL => assert(fcp_of(fcp_str(f)) == Some(f)),
        FCP::TDM => assert(fcp_of(fcp_str(f)) == Some(f)),
        FCP::UI => assert(fcp_of(fcp_str(f)) == Some(f)),
    }
}

} // verus!
