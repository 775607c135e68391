//! Log levels and their ordering.
//!
//! The decision whether a message at some level is emitted under a
//! configured minimum level lives here; the actual clock reading and
//! printing are the caller's business.

use vstd::prelude::*;
use vstd::string::StringSliceAdditionalSpecFns;

verus! {

/// A log severity level, least severe first.
#[derive(Clone, Copy, Debug, PartialEq, Eq, PartialOrd, Ord, Structural)]
pub enum Level {
    /// Diagnostic chatter.
    DEBUG,
    /// Ordinary progress reports.
    INFO,
    /// Something suspicious, not yet an error.
    WARN,
    /// A real failure.
    ERROR,
}

/// A level name that could not be recognized; carries the offending text.
#[derive(Debug)]
pub struct ParseLevelError(pub String);

/// Whether the byte string is exactly the four given bytes.
fn matches4(b: &[u8], c0: u8, c1: u8, c2: u8, c3: u8) -> (r: bool)
    ensures
        r == (b@ == seq![c0, c1, c2, c3]),
{
    let r = b.len() == 4 && b[0] == c0 && b[1] == c1 && b[2] == c2 && b[3] == c3;
    proof {
        if r {
            assert(b@ =~= seq![c0, c1, c2, c3]);
        }
    }
    r
}

/// Whether the byte string is exactly the five given bytes.
fn matches5(b: &[u8], c0: u8, c1: u8, c2: u8, c3: u8, c4: u8) -> (r: bool)
    ensures
        r == (b@ == seq![c0, c1, c2, c3, c4]),
{
    let r = b.len() == 5 && b[0] == c0 && b[1] == c1 && b[2] == c2 && b[3] == c3 && b[4] == c4;
    proof {
        if r {
            assert(b@ =~= seq![c0, c1, c2, c3, c4]);
        }
    }
    r
}

/// The recognized level names, as byte strings.
pub open spec fn name_debug_upper() -> Seq<u8> {
    seq![68u8, 69u8, 66u8, 85u8, 71u8]
}

/// `debug` in lower case.
pub open spec fn name_debug_lower() -> Seq<u8> {
    seq![100u8, 101u8, 98u8, 117u8, 103u8]
}

/// `INFO` in upper case.
pub open spec fn name_info_upper() -> Seq<u8> {
    seq![73u8, 78u8, 70u8, 79u8]
}

/// `info` in lower case.
pub open spec fn name_info_lower() -> Seq<u8> {
    seq![105u8, 110u8, 102u8, 111u8]
}

/// `WARN` in upper case.
pub open spec fn name_warn_upper() -> Seq<u8> {
    seq![87u8, 65u8, 82u8, 78u8]
}

/// `warn` in lower case.
pub open spec fn name_warn_lower() -> Seq<u8> {
    seq![119u8, 97u8, 114u8, 110u8]
}

/// `ERROR` in upper case.
pub open spec fn name_error_upper() -> Seq<u8> {
    seq![69u8, 82u8, 82u8, 79u8, 82u8]
}

/// `error` in lower case.
pub open spec fn name_error_lower() -> Seq<u8> {
    seq![101u8, 114u8, 114u8, 111u8, 114u8]
}

/// Whether the bytes spell the name of `level`, in either case.
pub open spec fn spells_level(b: Seq<u8>, level: Level) -> bool {
    match level {
        Level::DEBUG => b == name_debug_upper() || b == name_debug_lower(),
        Level::INFO => b == name_info_upper() || b == name_info_lower(),
        Level::WARN => b == name_warn_upper() || b == name_warn_lower(),
        Level::ERROR => b == name_error_upper() || b == name_error_lower(),
    }
}

impl Level {
    /// The rank of the level: higher means more severe.
    pub open spec fn severity(self) -> int {
        match self {
            Level::DEBUG => 0,
            Level::INFO => 1,
            Level::WARN => 2,
            Level::ERROR => 3,
        }
    }

    /// Whether a message at this level passes a configured minimum.
    pub fn at_least(self, min: Level) -> (r: bool)
        ensures
            r == (self.severity() >= min.severity()),
    {
        let a: u8 = match self {
            Level::DEBUG => 0,
            Level::INFO => 1,
            Level::WARN => 2,
            Level::ERROR => 3,
        };
        let b: u8 = match min {
            Level::DEBUG => 0,
            Level::INFO => 1,
            Level::WARN => 2,
            Level::ERROR => 3,
        };
        a >= b
    }

    /// Parse a level name, upper or lower case; anything else is handed
    /// back inside the error.
    pub fn parse_level(s: &str) -> (r: Result<Level, ParseLevelError>)
        ensures
            forall|level: Level| r == Ok::<Level, ParseLevelError>(level) <==> spells_level(
                s.spec_bytes(),
                level,
            ),
            r is Err <==> !exists|level: Level| spells_level(s.spec_bytes(), level),
            r is Err ==> r->Err_0.0@ == s@,
    {
        let b = s.as_bytes();
        if matches5(b, 68, 69, 66, 85, 71) || matches5(b, 100, 101, 98, 117, 103) {
            proof {
                assert(spells_level(s.spec_bytes(), Level::DEBUG));
            }
            Ok(Level::DEBUG)
        } else if matches4(b, 73, 78, 70, 79) || matches4(b, 105, 110, 102, 111) {
            proof {
                assert(spells_level(s.spec_bytes(), Level::INFO));
            }
            Ok(Level::INFO)
        } else if matches4(b, 87, 65, 82, 78) || matches4(b, 119, 97, 114, 110) {
            proof {
                assert(spells_level(s.spec_bytes(), Level::WARN));
            }
            Ok(Level::WARN)
        } else if matches5(b, 69, 82, 82, 79, 82) || matches5(b, 101, 114, 114, 111, 114) {
            proof {
                assert(spells_level(s.spec_bytes(), Level::ERROR));
            }
            Ok(Level::ERROR)
        } else {
            proof {
                assert forall|level: Level| !spells_level(s.spec_bytes(), level) by {}
            }
            Err(ParseLevelError(s.to_owned()))
        }
    }
}

impl core::str::FromStr for Level {
    type Err = ParseLevelError;

    fn from_str(s: &str) -> Result<Level, ParseLevelError> {
        Level::parse_level(s)
    }
}

} // verus!
