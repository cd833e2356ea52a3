//! SGF text handling: the token alphabet, the lexer that scans raw text into
//! a token sequence, and the property node (`key[value]`) with its coordinate
//! encoding.
use vstd::prelude::*;
use vstd::std_specs::iter::IteratorSpec;

use crate::go_move::GoMove;

verus! {

broadcast use vstd::string::axiom_spec_iter;

/// Relies on std's `String::push`: appends the given character to the end of
/// the string.
pub assume_specification[ String::push ](s: &mut String, ch: char)
    ensures
        final(s)@ == old(s)@.push(ch),
;

/// The characters of a string slice, as an indexable vector.
pub fn chars_of(s: &str) -> (r: Vec<char>)
    ensures
        r@ == s@,
{
    let mut it = s.chars();
    let mut r: Vec<char> = Vec::new();
    loop
        invariant
            it.obeys_prophetic_iter_laws(),
            it.decrease() is Some,
            r@ + it.remaining() == s@,
        ensures
            r@ == s@,
        decreases it.decrease()->0,
    {
        match it.next() {
            Some(c) => {
                r.push(c);
                proof {
                    assert(r@ + it.remaining() =~= s@);
                }
            },
            None => {
                proof {
                    assert(r@ + it.remaining() =~= r@);
                }
                break ;
            },
        }
    }
    r
}

/// A string holding exactly the given characters.
pub fn string_from_chars(v: &Vec<char>) -> (r: String)
    ensures
        r@ == v@,
{
    let mut r = String::new();
    let mut i: usize = 0;
    while i < v.len()
        invariant
            i <= v.len(),
            r@ == v@.subrange(0, i as int),
        decreases v.len() - i,
    {
        r.push(v[i]);
        proof {
            assert(r@ =~= v@.subrange(0, i as int + 1));
        }
        i = i + 1;
    }
    proof {
        assert(r@ =~= v@);
    }
    r
}

#[derive(Debug, Clone)]
pub enum SgfToken {
    SEGSTART,
    SPLIT,
    SEGEND,
    VALSTART,
    VALEND,
    CA,
    FF,
    AP,
    GM,
    SZ,
    PB,
    PW,
    BR,
    WR,
    RE,
    KM,
    HA,
    TM,
    DT,
    EV,
    RO,
    PC,
    RU,
    GN,
    ON,
    SO,
    US,
    AN,
    CP,
    GC,
    AB,
    AW,
    AE,
    PL,
    B,
    W,
    C,
    CR,
    MA,
    SQ,
    TR,
    LB,
    TB,
    TW,
    VAL(String),
}

/// The mathematical image of a token: identical to `SgfToken` except that a
/// raw value carries its character sequence.
pub enum TokenV {
    SEGSTART,
    SPLIT,
    SEGEND,
    VALSTART,
    VALEND,
    CA,
    FF,
    AP,
    GM,
    SZ,
    PB,
    PW,
    BR,
    WR,
    RE,
    KM,
    HA,
    TM,
    DT,
    EV,
    RO,
    PC,
    RU,
    GN,
    ON,
    SO,
    US,
    AN,
    CP,
    GC,
    AB,
    AW,
    AE,
    PL,
    B,
    W,
    C,
    CR,
    MA,
    SQ,
    TR,
    LB,
    TB,
    TW,
    VAL(Seq<char>),
}

impl View for SgfToken {
    type V = TokenV;

    open spec fn view(&self) -> TokenV {
        match self {
            SgfToken::SEGSTART => TokenV::SEGSTART,
            SgfToken::SPLIT => TokenV::SPLIT,
            SgfToken::SEGEND => TokenV::SEGEND,
            SgfToken::VALSTART => TokenV::VALSTART,
            SgfToken::VALEND => TokenV::VALEND,
            SgfToken::CA => TokenV::CA,
            SgfToken::FF => TokenV::FF,
            SgfToken::AP => TokenV::AP,
            SgfToken::GM => TokenV::GM,
            SgfToken::SZ => TokenV::SZ,
            SgfToken::PB => TokenV::PB,
            SgfToken::PW => TokenV::PW,
            SgfToken::BR => TokenV::BR,
            SgfToken::WR => TokenV::WR,
            SgfToken::RE => TokenV::RE,
            SgfToken::KM => TokenV::KM,
            SgfToken::HA => TokenV::HA,
            SgfToken::TM => TokenV::TM,
            SgfToken::DT => TokenV::DT,
            SgfToken::EV => TokenV::EV,
            SgfToken::RO => TokenV::RO,
            SgfToken::PC => TokenV::PC,
            SgfToken::RU => TokenV::RU,
            SgfToken::GN => TokenV::GN,
            SgfToken::ON => TokenV::ON,
            SgfToken::SO => TokenV::SO,
            SgfToken::US => TokenV::US,
            SgfToken::AN => TokenV::AN,
            SgfToken::CP => TokenV::CP,
            SgfToken::GC => TokenV::GC,
            SgfToken::AB => TokenV::AB,
            SgfToken::AW => TokenV::AW,
            SgfToken::AE => TokenV::AE,
            SgfToken::PL => TokenV::PL,
            SgfToken::B => TokenV::B,
            SgfToken::W => TokenV::W,
            SgfToken::C => TokenV::C,
            SgfToken::CR => TokenV::CR,
            SgfToken::MA => TokenV::MA,
            SgfToken::SQ => TokenV::SQ,
            SgfToken::TR => TokenV::TR,
            SgfToken::LB => TokenV::LB,
            SgfToken::TB => TokenV::TB,
            SgfToken::TW => TokenV::TW,
            SgfToken::VAL(s) => TokenV::VAL(s@),
        }
    }
}

/// An explicit copy whose result is known to equal its argument.
pub fn token_dup(t: &SgfToken) -> (r: SgfToken)
    ensures
        r@ == t@,
{
    match t {
        SgfToken::SEGSTART => SgfToken::SEGSTART,
        SgfToken::SPLIT => SgfToken::SPLIT,
        SgfToken::SEGEND => SgfToken::SEGEND,
        SgfToken::VALSTART => SgfToken::VALSTART,
        SgfToken::VALEND => SgfToken::VALEND,
        SgfToken::CA => SgfToken::CA,
        SgfToken::FF => SgfToken::FF,
        SgfToken::AP => SgfToken::AP,
        SgfToken::GM => SgfToken::GM,
        SgfToken::SZ => SgfToken::SZ,
        SgfToken::PB => SgfToken::PB,
        SgfToken::PW => SgfToken::PW,
        SgfToken::BR => SgfToken::BR,
        SgfToken::WR => SgfToken::WR,
        SgfToken::RE => SgfToken::RE,
        SgfToken::KM => SgfToken::KM,
        SgfToken::HA => SgfToken::HA,
        SgfToken::TM => SgfToken::TM,
        SgfToken::DT => SgfToken::DT,
        SgfToken::EV => SgfToken::EV,
        SgfToken::RO => SgfToken::RO,
        SgfToken::PC => SgfToken::PC,
        SgfToken::RU => SgfToken::RU,
        SgfToken::GN => SgfToken::GN,
        SgfToken::ON => SgfToken::ON,
        SgfToken::SO => SgfToken::SO,
        SgfToken::US => SgfToken::US,
        SgfToken::AN => SgfToken::AN,
        SgfToken::CP => SgfToken::CP,
        SgfToken::GC => SgfToken::GC,
        SgfToken::AB => SgfToken::AB,
        SgfToken::AW => SgfToken::AW,
        SgfToken::AE => SgfToken::AE,
        SgfToken::PL => SgfToken::PL,
        SgfToken::B => SgfToken::B,
        SgfToken::W => SgfToken::W,
        SgfToken::C => SgfToken::C,
        SgfToken::CR => SgfToken::CR,
        SgfToken::MA => SgfToken::MA,
        SgfToken::SQ => SgfToken::SQ,
        SgfToken::TR => SgfToken::TR,
        SgfToken::LB => SgfToken::LB,
        SgfToken::TB => SgfToken::TB,
        SgfToken::TW => SgfToken::TW,
        SgfToken::VAL(s) => SgfToken::VAL(s.clone()),
    }
}

impl SgfToken {
    /// Whether this token is a recognized property key, as opposed to a
    /// structural marker or a raw value.
    pub fn is_prop_sgf_key(&self) -> (r: bool)
        ensures
            r == is_prop_key(self@),
    {
        match self {
            SgfToken::SEGSTART
            | SgfToken::SPLIT
            | SgfToken::SEGEND
            | SgfToken::VALSTART
            | SgfToken::VALEND
            | SgfToken::VAL(_) => false,
            _ => true,
        }
    }
}

impl PartialEq for SgfToken {
    #[verifier::rlimit(100)]
    fn eq(&self, other: &Self) -> (r: bool) {
        match (self, other) {
            (SgfToken::SEGSTART, SgfToken::SEGSTART) => true,
            (SgfToken::SPLIT, SgfToken::SPLIT) => true,
            (SgfToken::SEGEND, SgfToken::SEGEND) => true,
            (SgfToken::VALSTART, SgfToken::VALSTART) => true,
            (SgfToken::VALEND, SgfToken::VALEND) => true,
            (SgfToken::CA, SgfToken::CA) => true,
            (SgfToken::FF, SgfToken::FF) => true,
            (SgfToken::AP, SgfToken::AP) => true,
            (SgfToken::GM, SgfToken::GM) => true,
            (SgfToken::SZ, SgfToken::SZ) => true,
            (SgfToken::PB, SgfToken::PB) => true,
            (SgfToken::PW, SgfToken::PW) => true,
            (SgfToken::BR, SgfToken::BR) => true,
            (SgfToken::WR, SgfToken::WR) => true,
            (SgfToken::RE, SgfToken::RE) => true,
            (SgfToken::KM, SgfToken::KM) => true,
            (SgfToken::HA, SgfToken::HA) => true,
            (SgfToken::TM, SgfToken::TM) => true,
            (SgfToken::DT, SgfToken::DT) => true,
            (SgfToken::EV, SgfToken::EV) => true,
            (SgfToken::RO, SgfToken::RO) => true,
            (SgfToken::PC, SgfToken::PC) => true,
            (SgfToken::RU, SgfToken::RU) => true,
            (SgfToken::GN, SgfToken::GN) => true,
            (SgfToken::ON, SgfToken::ON) => true,
            (SgfToken::SO, SgfToken::SO) => true,
            (SgfToken::US, SgfToken::US) => true,
            (SgfToken::AN, SgfToken::AN) => true,
            (SgfToken::CP, SgfToken::CP) => true,
            (SgfToken::GC, SgfToken::GC) => true,
            (SgfToken::AB, SgfToken::AB) => true,
            (SgfToken::AW, SgfToken::AW) => true,
            (SgfToken::AE, SgfToken::AE) => true,
            (SgfToken::PL, SgfToken::PL) => true,
            (SgfToken::B, SgfToken::B) => true,
            (SgfToken::W, SgfToken::W) => true,
            (SgfToken::C, SgfToken::C) => true,
            (SgfToken::CR, SgfToken::CR) => true,
            (SgfToken::MA, SgfToken::MA) => true,
            (SgfToken::SQ, SgfToken::SQ) => true,
            (SgfToken::TR, SgfToken::TR) => true,
            (SgfToken::LB, SgfToken::LB) => true,
            (SgfToken::TB, SgfToken::TB) => true,
            (SgfToken::TW, SgfToken::TW) => true,
            (SgfToken::VAL(a), SgfToken::VAL(b)) => *a == *b,
            _ => false,
        }
    }
}

impl vstd::std_specs::cmp::PartialEqSpecImpl for SgfToken {
    open spec fn obeys_eq_spec() -> bool {
        true
    }

    open spec fn eq_spec(&self, other: &Self) -> bool {
        self@ == other@
    }
}

impl Eq for SgfToken {}

/// Whether a token stands for a recognized property key, as opposed to a
/// structural marker or a raw value.
pub open spec fn is_prop_key(t: TokenV) -> bool {
    match t {
        TokenV::SEGSTART => false,
        TokenV::SPLIT => false,
        TokenV::SEGEND => false,
        TokenV::VALSTART => false,
        TokenV::VALEND => false,
        TokenV::VAL(_) => false,
        _ => true,
    }
}

/// The letters a property-key token is written with; empty for structural
/// markers and raw values.
pub open spec fn key_chars(t: TokenV) -> Seq<char> {
    match t {
        TokenV::CA => seq!['C', 'A'],
        TokenV::FF => seq!['F', 'F'],
        TokenV::AP => seq!['A', 'P'],
        TokenV::GM => seq!['G', 'M'],
        TokenV::SZ => seq!['S', 'Z'],
        TokenV::PB => seq!['P', 'B'],
        TokenV::PW => seq!['P', 'W'],
        TokenV::BR => seq!['B', 'R'],
        TokenV::WR => seq!['W', 'R'],
        TokenV::RE => seq!['R', 'E'],
        TokenV::KM => seq!['K', 'M'],
        TokenV::HA => seq!['H', 'A'],
        TokenV::TM => seq!['T', 'M'],
        TokenV::DT => seq!['D', 'T'],
        TokenV::EV => seq!['E', 'V'],
        TokenV::RO => seq!['R', 'O'],
        TokenV::PC => seq!['P', 'C'],
        TokenV::RU => seq!['R', 'U'],
        TokenV::GN => seq!['G', 'N'],
        TokenV::ON => seq!['O', 'N'],
        TokenV::SO => seq!['S', 'O'],
        TokenV::US => seq!['U', 'S'],
        TokenV::AN => seq!['A', 'N'],
        TokenV::CP => seq!['C', 'P'],
        TokenV::GC => seq!['G', 'C'],
        TokenV::AB => seq!['A', 'B'],
        TokenV::AW => seq!['A', 'W'],
        TokenV::AE => seq!['A', 'E'],
        TokenV::PL => seq!['P', 'L'],
        TokenV::B => seq!['B'],
        TokenV::W => seq!['W'],
        TokenV::C => seq!['C'],
        TokenV::CR => seq!['C', 'R'],
        TokenV::MA => seq!['M', 'A'],
        TokenV::SQ => seq!['S', 'Q'],
        TokenV::TR => seq!['T', 'R'],
        TokenV::LB => seq!['L', 'B'],
        TokenV::TB => seq!['T', 'B'],
        TokenV::TW => seq!['T', 'W'],
        _ => Seq::<char>::empty(),
    }
}

/// The text a property key serializes to; empty for anything else.
pub fn key_str(t: &SgfToken) -> (r: &'static str)
    ensures
        r@ == key_chars(t@),
{
    match t {
        SgfToken::CA => {
            proof {
                reveal_strlit("CA");
            }
            "CA"
        },
        SgfToken::FF => {
            proof {
                reveal_strlit("FF");
            }
            "FF"
        },
        SgfToken::AP => {
            proof {
                reveal_strlit("AP");
            }
            "AP"
        },
        SgfToken::GM => {
            proof {
                reveal_strlit("GM");
            }
            "GM"
        },
        SgfToken::SZ => {
            proof {
                reveal_strlit("SZ");
            }
            "SZ"
        },
        SgfToken::PB => {
            proof {
                reveal_strlit("PB");
            }
            "PB"
        },
        SgfToken::PW => {
            proof {
                reveal_strlit("PW");
            }
            "PW"
        },
        SgfToken::BR => {
            proof {
                reveal_strlit("BR");
            }
            "BR"
        },
        SgfToken::WR => {
            proof {
                reveal_strlit("WR");
            }
            "WR"
        },
        SgfToken::RE => {
            proof {
                reveal_strlit("RE");
            }
            "RE"
        },
        SgfToken::KM => {
            proof {
                reveal_strlit("KM");
            }
            "KM"
        },
        SgfToken::HA => {
            proof {
                reveal_strlit("HA");
            }
            "HA"
        },
        SgfToken::TM => {
            proof {
                reveal_strlit("TM");
            }
            "TM"
        },
        SgfToken::DT => {
            proof {
                reveal_strlit("DT");
            }
            "DT"
        },
        SgfToken::EV => {
            proof {
                reveal_strlit("EV");
            }
            "EV"
        },
        SgfToken::RO => {
            proof {
                reveal_strlit("RO");
            }
            "RO"
        },
        SgfToken::PC => {
            proof {
                reveal_strlit("PC");
            }
            "PC"
        },
        SgfToken::RU => {
            proof {
                reveal_strlit("RU");
            }
            "RU"
        },
        SgfToken::GN => {
            proof {
                reveal_strlit("GN");
            }
            "GN"
        },
        SgfToken::ON => {
            proof {
                reveal_strlit("ON");
            }
            "ON"
        },
        SgfToken::SO => {
            proof {
                reveal_strlit("SO");
            }
            "SO"
        },
        SgfToken::US => {
            proof {
                reveal_strlit("US");
            }
            "US"
        },
        SgfToken::AN => {
            proof {
                reveal_strlit("AN");
            }
            "AN"
        },
        SgfToken::CP => {
            proof {
                reveal_strlit("CP");
            }
            "CP"
        },
        SgfToken::GC => {
            proof {
                reveal_strlit("GC");
            }
            "GC"
        },
        SgfToken::AB => {
            proof {
                reveal_strlit("AB");
            }
            "AB"
        },
        SgfToken::AW => {
            proof {
                reveal_strlit("AW");
            }
            "AW"
        },
        SgfToken::AE => {
            proof {
                reveal_strlit("AE");
            }
            "AE"
        },
        SgfToken::PL => {
            proof {
                reveal_strlit("PL");
            }
            "PL"
        },
        SgfToken::B => {
            proof {
                reveal_strlit("B");
            }
            "B"
        },
        SgfToken::W => {
            proof {
                reveal_strlit("W");
            }
            "W"
        },
        SgfToken::C => {
            proof {
                reveal_strlit("C");
            }
            "C"
        },
        SgfToken::CR => {
            proof {
                reveal_strlit("CR");
            }
            "CR"
        },
        SgfToken::MA => {
            proof {
                reveal_strlit("MA");
            }
            "MA"
        },
        SgfToken::SQ => {
            proof {
                reveal_strlit("SQ");
            }
            "SQ"
        },
        SgfToken::TR => {
            proof {
                reveal_strlit("TR");
            }
            "TR"
        },
        SgfToken::LB => {
            proof {
                reveal_strlit("LB");
            }
            "LB"
        },
        SgfToken::TB => {
            proof {
                reveal_strlit("TB");
            }
            "TB"
        },
        SgfToken::TW => {
            proof {
                reveal_strlit("TW");
            }
            "TW"
        },
        _ => {
            proof {
                reveal_strlit("");
            }
            ""
        },
    }
}

/// The property key written with the single letter `a`, if any.
pub open spec fn key_of_one(a: char) -> Option<TokenV> {
    if a == 'B' {
        Some(TokenV::B)
    } else if a == 'W' {
        Some(TokenV::W)
    } else if a == 'C' {
        Some(TokenV::C)
    } else {
        None
    }
}

/// The property key written with the two letters `a`, `b`, if any.
pub open spec fn key_of_two(a: char, b: char) -> Option<TokenV> {
    if a == 'C' && b == 'A' {
        Some(TokenV::CA)
    } else if a == 'F' && b == 'F' {
        Some(TokenV::FF)
    } else if a == 'A' && b == 'P' {
        Some(TokenV::AP)
    } else if a == 'G' && b == 'M' {
        Some(TokenV::GM)
    } else if a == 'S' && b == 'Z' {
        Some(TokenV::SZ)
    } else if a == 'P' && b == 'B' {
        Some(TokenV::PB)
    } else if a == 'P' && b == 'W' {
        Some(TokenV::PW)
    } else if a == 'B' && b == 'R' {
        Some(TokenV::BR)
    } else if a == 'W' && b == 'R' {
        Some(TokenV::WR)
    } else if a == 'R' && b == 'E' {
        Some(TokenV::RE)
    } else if a == 'K' && b == 'M' {
        Some(TokenV::KM)
    } else if a == 'H' && b == 'A' {
        Some(TokenV::HA)
    } else if a == 'T' && b == 'M' {
        Some(TokenV::TM)
    } else if a == 'D' && b == 'T' {
        Some(TokenV::DT)
    } else if a == 'E' && b == 'V' {
        Some(TokenV::EV)
    } else if a == 'R' && b == 'O' {
        Some(TokenV::RO)
    } else if a == 'P' && b == 'C' {
        Some(TokenV::PC)
    } else if a == 'R' && b == 'U' {
        Some(TokenV::RU)
    } else if a == 'G' && b == 'N' {
        Some(TokenV::GN)
    } else if a == 'O' && b == 'N' {
        Some(TokenV::ON)
    } else if a == 'S' && b == 'O' {
        Some(TokenV::SO)
    } else if a == 'U' && b == 'S' {
        Some(TokenV::US)
    } else if a == 'A' && b == 'N' {
        Some(TokenV::AN)
    } else if a == 'C' && b == 'P' {
        Some(TokenV::CP)
    } else if a == 'G' && b == 'C' {
        Some(TokenV::GC)
    } else if a == 'A' && b == 'B' {
        Some(TokenV::AB)
    } else if a == 'A' && b == 'W' {
        Some(TokenV::AW)
    } else if a == 'A' && b == 'E' {
        Some(TokenV::AE)
    } else if a == 'P' && b == 'L' {
        Some(TokenV::PL)
    } else if a == 'C' && b == 'R' {
        Some(TokenV::CR)
    } else if a == 'M' && b == 'A' {
        Some(TokenV::MA)
    } else if a == 'S' && b == 'Q' {
        Some(TokenV::SQ)
    } else if a == 'T' && b == 'R' {
        Some(TokenV::TR)
    } else if a == 'L' && b == 'B' {
        Some(TokenV::LB)
    } else if a == 'T' && b == 'B' {
        Some(TokenV::TB)
    } else if a == 'T' && b == 'W' {
        Some(TokenV::TW)
    } else {
        None
    }
}

/// The property key a maximal letter run names: only one- and two-letter
/// runs from the fixed table are recognized.
pub open spec fn key_of_chars(s: Seq<char>) -> Option<TokenV> {
    if s.len() == 1 {
        key_of_one(s[0])
    } else if s.len() == 2 {
        key_of_two(s[0], s[1])
    } else {
        None
    }
}

/// Looks a scanned letter run up in the fixed key table.
pub fn key_token_of_run(run: &Vec<char>) -> (r: Option<SgfToken>)
    ensures
        match r {
            Some(t) => key_of_chars(run@) == Some(t@),
            None => key_of_chars(run@) is None,
        },
{
    if run.len() == 1 {
        match run[0] {
            'B' => Some(SgfToken::B),
            'W' => Some(SgfToken::W),
            'C' => Some(SgfToken::C),
            _ => None,
        }
    } else if run.len() == 2 {
        let a = run[0];
        let b = run[1];
        if a == 'C' && b == 'A' {
            Some(SgfToken::CA)
        } else if a == 'F' && b == 'F' {
            Some(SgfToken::FF)
        } else if a == 'A' && b == 'P' {
            Some(SgfToken::AP)
        } else if a == 'G' && b == 'M' {
            Some(SgfToken::GM)
        } else if a == 'S' && b == 'Z' {
            Some(SgfToken::SZ)
        } else if a == 'P' && b == 'B' {
            Some(SgfToken::PB)
        } else if a == 'P' && b == 'W' {
            Some(SgfToken::PW)
        } else if a == 'B' && b == 'R' {
            Some(SgfToken::BR)
        } else if a == 'W' && b == 'R' {
            Some(SgfToken::WR)
        } else if a == 'R' && b == 'E' {
            Some(SgfToken::RE)
        } else if a == 'K' && b == 'M' {
            Some(SgfToken::KM)
        } else if a == 'H' && b == 'A' {
            Some(SgfToken::HA)
        } else if a == 'T' && b == 'M' {
            Some(SgfToken::TM)
        } else if a == 'D' && b == 'T' {
            Some(SgfToken::DT)
        } else if a == 'E' && b == 'V' {
            Some(SgfToken::EV)
        } else if a == 'R' && b == 'O' {
            Some(SgfToken::RO)
        } else if a == 'P' && b == 'C' {
            Some(SgfToken::PC)
        } else if a == 'R' && b == 'U' {
            Some(SgfToken::RU)
        } else if a == 'G' && b == 'N' {
            Some(SgfToken::GN)
        } else if a == 'O' && b == 'N' {
            Some(SgfToken::ON)
        } else if a == 'S' && b == 'O' {
            Some(SgfToken::SO)
        } else if a == 'U' && b == 'S' {
            Some(SgfToken::US)
        } else if a == 'A' && b == 'N' {
            Some(SgfToken::AN)
        } else if a == 'C' && b == 'P' {
            Some(SgfToken::CP)
        } else if a == 'G' && b == 'C' {
            Some(SgfToken::GC)
        } else if a == 'A' && b == 'B' {
            Some(SgfToken::AB)
        } else if a == 'A' && b == 'W' {
            Some(SgfToken::AW)
        } else if a == 'A' && b == 'E' {
            Some(SgfToken::AE)
        } else if a == 'P' && b == 'L' {
            Some(SgfToken::PL)
        } else if a == 'C' && b == 'R' {
            Some(SgfToken::CR)
        } else if a == 'M' && b == 'A' {
            Some(SgfToken::MA)
        } else if a == 'S' && b == 'Q' {
            Some(SgfToken::SQ)
        } else if a == 'T' && b == 'R' {
            Some(SgfToken::TR)
        } else if a == 'L' && b == 'B' {
            Some(SgfToken::LB)
        } else if a == 'T' && b == 'B' {
            Some(SgfToken::TB)
        } else if a == 'T' && b == 'W' {
            Some(SgfToken::TW)
        } else {
            None
        }
    } else {
        None
    }
}

/// A single property assignment, one `key[value]` pair of the record text.
#[derive(Debug, Clone)]
pub struct SgfNode {
    pub node_key: SgfToken,
    pub node_val: String,
}

/// The mathematical image of a property node.
#[verifier::ext_equal]
pub struct NodeV {
    pub key: TokenV,
    pub val: Seq<char>,
}

impl View for SgfNode {
    type V = NodeV;

    open spec fn view(&self) -> NodeV {
        NodeV { key: self.node_key@, val: self.node_val@ }
    }
}

impl PartialEq for SgfNode {
    fn eq(&self, other: &Self) -> (r: bool) {
        self.node_key == other.node_key && self.node_val == other.node_val
    }
}

impl vstd::std_specs::cmp::PartialEqSpecImpl for SgfNode {
    open spec fn obeys_eq_spec() -> bool {
        true
    }

    open spec fn eq_spec(&self, other: &Self) -> bool {
        self@ == other@
    }
}

impl Eq for SgfNode {}

impl SgfNode {
    pub fn new(key: SgfToken, val: String) -> (r: Self)
        ensures
            r@ == (NodeV { key: key@, val: val@ }),
    {
        SgfNode { node_key: key, node_val: val }
    }

    /// An explicit copy whose result is known to equal its argument.
    pub fn dup(&self) -> (r: Self)
        ensures
            r@ == self@,
    {
        SgfNode { node_key: token_dup(&self.node_key), node_val: self.node_val.clone() }
    }
}

impl Default for SgfNode {
    fn default() -> (r: Self)
        ensures
            r@ == (NodeV { key: TokenV::VAL(Seq::<char>::empty()), val: Seq::<char>::empty() }),
    {
        SgfNode { node_key: SgfToken::VAL(String::new()), node_val: String::new() }
    }
}

/// The board letter a grid offset is written as: `0..=18` map to `a..=s`,
/// anything else to the out-of-range blank.
pub open spec fn mark_of_pos(pos: int) -> char {
    if pos == 0 { 'a' }
    else if pos == 1 { 'b' }
    else if pos == 2 { 'c' }
    else if pos == 3 { 'd' }
    else if pos == 4 { 'e' }
    else if pos == 5 { 'f' }
    else if pos == 6 { 'g' }
    else if pos == 7 { 'h' }
    else if pos == 8 { 'i' }
    else if pos == 9 { 'j' }
    else if pos == 10 { 'k' }
    else if pos == 11 { 'l' }
    else if pos == 12 { 'm' }
    else if pos == 13 { 'n' }
    else if pos == 14 { 'o' }
    else if pos == 15 { 'p' }
    else if pos == 16 { 'q' }
    else if pos == 17 { 'r' }
    else if pos == 18 { 's' }
    else { ' ' }
}

/// The grid offset a board letter stands for: `a..=s` map to `0..=18`,
/// anything else to `0`.
pub open spec fn pos_of_mark(mark: char) -> usize {
    if mark == 'a' { 0 }
    else if mark == 'b' { 1 }
    else if mark == 'c' { 2 }
    else if mark == 'd' { 3 }
    else if mark == 'e' { 4 }
    else if mark == 'f' { 5 }
    else if mark == 'g' { 6 }
    else if mark == 'h' { 7 }
    else if mark == 'i' { 8 }
    else if mark == 'j' { 9 }
    else if mark == 'k' { 10 }
    else if mark == 'l' { 11 }
    else if mark == 'm' { 12 }
    else if mark == 'n' { 13 }
    else if mark == 'o' { 14 }
    else if mark == 'p' { 15 }
    else if mark == 'q' { 16 }
    else if mark == 'r' { 17 }
    else if mark == 's' { 18 }
    else { 0 }
}

/// The encoded node a move becomes: its mover's key and its two coordinate
/// letters.
pub open spec fn move_node(x: int, y: int, player: int) -> NodeV {
    NodeV {
        key: if player == 1 { TokenV::B } else if player == -1 { TokenV::W } else {
            TokenV::VAL(Seq::<char>::empty())
        },
        val: seq![mark_of_pos(x), mark_of_pos(y)],
    }
}

/// The serialized text of one property node: `key[value]`.
pub open spec fn node_text(n: NodeV) -> Seq<char> {
    key_chars(n.key) + seq!['['] + n.val + seq![']']
}

impl SgfNode {
    pub fn convert_pos_to_mark(pos: usize) -> (r: char)
        ensures
            r == mark_of_pos(pos as int),
    {
        match pos {
            0 => 'a',
            1 => 'b',
            2 => 'c',
            3 => 'd',
            4 => 'e',
            5 => 'f',
            6 => 'g',
            7 => 'h',
            8 => 'i',
            9 => 'j',
            10 => 'k',
            11 => 'l',
            12 => 'm',
            13 => 'n',
            14 => 'o',
            15 => 'p',
            16 => 'q',
            17 => 'r',
            18 => 's',
            _ => ' ',
        }
    }

    pub fn convert_mark_to_pos(mark: char) -> (r: usize)
        ensures
            r == pos_of_mark(mark),
    {
        match mark {
            'a' => 0,
            'b' => 1,
            'c' => 2,
            'd' => 3,
            'e' => 4,
            'f' => 5,
            'g' => 6,
            'h' => 7,
            'i' => 8,
            'j' => 9,
            'k' => 10,
            'l' => 11,
            'm' => 12,
            'n' => 13,
            'o' => 14,
            'p' => 15,
            'q' => 16,
            'r' => 17,
            's' => 18,
            _ => 0,
        }
    }

    /// The encoded node a move is recorded as: the mover's property key and
    /// the two coordinate letters of its position.
    pub fn from_go_move(go_move: &GoMove) -> (r: SgfNode)
        ensures
            r@ == move_node(
                go_move.move_pos.0 as int,
                go_move.move_pos.1 as int,
                go_move.move_pos.2 as int,
            ),
    {
        let (x, y, player) = go_move.move_pos;
        let key = if player == 1 {
            SgfToken::B
        } else if player == -1 {
            SgfToken::W
        } else {
            SgfToken::VAL(String::new())
        };
        let mut val = String::new();
        val.push(Self::convert_pos_to_mark(x));
        val.push(Self::convert_pos_to_mark(y));
        proof {
            assert(val@ =~= seq![mark_of_pos(x as int), mark_of_pos(y as int)]);
        }
        SgfNode { node_key: key, node_val: val }
    }

    /// The `key[value]` text of one node.
    pub fn _to_string(sgf_node: SgfNode) -> (r: String)
        ensures
            r@ == node_text(sgf_node@),
    {
        proof {
            reveal_strlit("[");
            reveal_strlit("]");
        }
        let mut node_str = String::new();
        node_str.append(key_str(&sgf_node.node_key));
        node_str.append("[");
        node_str.append(sgf_node.node_val.as_str());
        node_str.append("]");
        proof {
            assert(node_str@ =~= node_text(sgf_node@));
        }
        node_str
    }
}

/// Reads a record text one token at a time.
pub trait Parse<Token> {
    type Output;

    fn parse(&self) -> Self::Output;
}

/// Produces a reader from a named source; how the text is fetched is the
/// implementor's concern.
pub trait ReadFile: Sized {
    fn read_from(filename: String) -> Result<Self, String>;
}

/// Holds a full record text and scans it.
pub struct SgfReader {
    content: String,
}

impl View for SgfReader {
    type V = Seq<char>;

    closed spec fn view(&self) -> Seq<char> {
        self.content@
    }
}

/// The suffix a record file name must carry.
pub open spec fn sgf_suffix() -> Seq<char> {
    seq!['.', 's', 'g', 'f']
}

/// Whether a file name carries the record suffix; the read path rejects any
/// other name.
pub fn is_sgf_filename(name: &str) -> (r: bool)
    ensures
        r == (name@.len() >= 4 && name@.subrange(name@.len() - 4, name@.len() as int)
            == sgf_suffix()),
{
    let cs = chars_of(name);
    if cs.len() < 4 {
        return false;
    }
    let n = cs.len();
    let r = cs[n - 4] == '.' && cs[n - 3] == 's' && cs[n - 2] == 'g' && cs[n - 1] == 'f';
    proof {
        let tail = name@.subrange(name@.len() - 4, name@.len() as int);
        if r {
            assert(tail =~= sgf_suffix());
        }
        if tail == sgf_suffix() {
            assert(name@[name@.len() - 4] == tail[0]);
            assert(name@[name@.len() - 3] == tail[1]);
            assert(name@[name@.len() - 2] == tail[2]);
            assert(name@[name@.len() - 1] == tail[3]);
        }
    }
    r
}

/// An uppercase ASCII letter, the alphabet property keys are written in.
pub open spec fn is_upper(c: char) -> bool {
    65 <= c as int && c as int <= 90
}

/// The views of a token vector.
pub open spec fn views_of(ts: Seq<SgfToken>) -> Seq<TokenV> {
    ts.map_values(|t: SgfToken| t@)
}

/// The first position at or after `i` holding the value terminator `]`, or
/// the end of the text.
pub open spec fn find_val_end(s: Seq<char>, i: int) -> int
    decreases s.len() - i,
    when 0 <= i <= s.len()
{
    if i >= s.len() {
        s.len() as int
    } else if s[i] == ']' {
        i
    } else {
        find_val_end(s, i + 1)
    }
}

pub proof fn lemma_find_val_end(s: Seq<char>, i: int)
    requires
        0 <= i <= s.len(),
    ensures
        i <= find_val_end(s, i) <= s.len(),
        forall|k: int| i <= k < find_val_end(s, i) ==> s[k] != ']',
        find_val_end(s, i) < s.len() ==> s[find_val_end(s, i)] == ']',
    decreases s.len() - i,
{
    if i >= s.len() {
    } else if s[i] == ']' {
    } else {
        lemma_find_val_end(s, i + 1);
    }
}

pub proof fn lemma_find_val_end_unique(s: Seq<char>, i: int, j: int)
    requires
        0 <= i <= j <= s.len(),
        forall|k: int| i <= k < j ==> s[k] != ']',
        j == s.len() || s[j] == ']',
    ensures
        find_val_end(s, i) == j,
    decreases s.len() - i,
{
    if i >= s.len() {
    } else if s[i] == ']' {
    } else {
        lemma_find_val_end_unique(s, i + 1, j);
    }
}

/// The first position at or after `i` not holding an uppercase letter, or the
/// end of the text: the end of a property-key run.
pub open spec fn find_run_end(s: Seq<char>, i: int) -> int
    decreases s.len() - i,
    when 0 <= i <= s.len()
{
    if i >= s.len() {
        s.len() as int
    } else if !is_upper(s[i]) {
        i
    } else {
        find_run_end(s, i + 1)
    }
}

pub proof fn lemma_find_run_end(s: Seq<char>, i: int)
    requires
        0 <= i <= s.len(),
    ensures
        i <= find_run_end(s, i) <= s.len(),
    decreases s.len() - i,
{
    if i >= s.len() {
    } else if !is_upper(s[i]) {
    } else {
        lemma_find_run_end(s, i + 1);
    }
}

pub proof fn lemma_find_run_end_unique(s: Seq<char>, i: int, j: int)
    requires
        0 <= i <= j <= s.len(),
        forall|k: int| i <= k < j ==> is_upper(s[k]),
        j == s.len() || !is_upper(s[j]),
    ensures
        find_run_end(s, i) == j,
    decreases s.len() - i,
{
    if i >= s.len() {
    } else if !is_upper(s[i]) {
    } else {
        lemma_find_run_end_unique(s, i + 1, j);
    }
}

/// The token sequence the text from position `i` on scans to. One pass over
/// the characters: `(`, `)` and `;` are single structural tokens; `[` opens a
/// raw value running to the next `]` (or the end of the text) and always
/// closes with a value-end token; any other character starts a maximal
/// uppercase-letter run that is looked up in the fixed key table and dropped
/// when unknown.
pub open spec fn spec_lex(s: Seq<char>, i: int) -> Seq<TokenV>
    decreases s.len() - i,
    when 0 <= i <= s.len()
    via spec_lex_dec
{
    if i >= s.len() {
        Seq::<TokenV>::empty()
    } else if s[i] == '(' {
        seq![TokenV::SEGSTART] + spec_lex(s, i + 1)
    } else if s[i] == ')' {
        seq![TokenV::SEGEND] + spec_lex(s, i + 1)
    } else if s[i] == ';' {
        seq![TokenV::SPLIT] + spec_lex(s, i + 1)
    } else if s[i] == '[' {
        let j = find_val_end(s, i + 1);
        let next = if j < s.len() { j + 1 } else { s.len() as int };
        seq![TokenV::VALSTART, TokenV::VAL(s.subrange(i + 1, j)), TokenV::VALEND]
            + spec_lex(s, next)
    } else {
        let j = find_run_end(s, i + 1);
        match key_of_chars(s.subrange(i, j)) {
            Some(t) => seq![t] + spec_lex(s, j),
            None => spec_lex(s, j),
        }
    }
}

#[via_fn]
proof fn spec_lex_dec(s: Seq<char>, i: int) {
    if 0 <= i < s.len() {
        lemma_find_val_end(s, i + 1);
        lemma_find_run_end(s, i + 1);
    }
}

impl SgfReader {
    /// A reader over the given text.
    pub fn new(content: String) -> (r: Self)
        ensures
            r@ == content@,
    {
        SgfReader { content }
    }

    fn is_seg_start_token(&self, ch: char) -> (r: bool)
        ensures
            r == (ch == '('),
    {
        ch == '('
    }

    fn is_seg_end_token(&self, ch: char) -> (r: bool)
        ensures
            r == (ch == ')'),
    {
        ch == ')'
    }

    fn is_seg_split_token(&self, ch: char) -> (r: bool)
        ensures
            r == (ch == ';'),
    {
        ch == ';'
    }

    fn is_val_start_token(&self, ch: char) -> (r: bool)
        ensures
            r == (ch == '['),
    {
        ch == '['
    }

    fn is_val_end_token(&self, ch: char) -> (r: bool)
        ensures
            r == (ch == ']'),
    {
        ch == ']'
    }

    fn is_big_character_ch(&self, ch: char) -> (r: bool)
        ensures
            r == is_upper(ch),
    {
        (ch as u32) >= 65 && (ch as u32) <= 90
    }

    /// Scans the whole text into its token sequence.
    pub fn parse_tokens(&self) -> (r: Vec<SgfToken>)
        ensures
            views_of(r@) == spec_lex(self@, 0),
    {
        let content_chs = chars_of(self.content.as_str());
        let ghost s = content_chs@;
        let mut sgf_tokens: Vec<SgfToken> = Vec::new();
        let mut i: usize = 0;
        while i < content_chs.len()
            invariant
                i <= content_chs.len(),
                s == self@,
                content_chs@ == s,
                views_of(sgf_tokens@) + spec_lex(s, i as int) == spec_lex(s, 0),
            decreases content_chs.len() - i,
        {
            let ghost tokens0 = sgf_tokens@;
            let ghost i0 = i as int;
            let cur_ch = content_chs[i];
            if self.is_seg_start_token(cur_ch) {
                sgf_tokens.push(SgfToken::SEGSTART);
                i = i + 1;
                proof {
                    lemma_lex_step_push1(s, i0, tokens0, TokenV::SEGSTART);
                }
            } else if self.is_seg_end_token(cur_ch) {
                sgf_tokens.push(SgfToken::SEGEND);
                i = i + 1;
                proof {
                    lemma_lex_step_push1(s, i0, tokens0, TokenV::SEGEND);
                }
            } else if self.is_seg_split_token(cur_ch) {
                sgf_tokens.push(SgfToken::SPLIT);
                i = i + 1;
                proof {
                    lemma_lex_step_push1(s, i0, tokens0, TokenV::SPLIT);
                }
            } else if self.is_val_start_token(cur_ch) {
                sgf_tokens.push(SgfToken::VALSTART);
                let mut token_chs: Vec<char> = Vec::new();
                let mut j = i + 1;
                while j < content_chs.len() && !self.is_val_end_token(content_chs[j])
                    invariant
                        i as int + 1 <= j <= content_chs.len(),
                        content_chs@ == s,
                        token_chs@ == s.subrange(i as int + 1, j as int),
                        forall|k: int| i as int + 1 <= k < j ==> s[k] != ']',
                    decreases content_chs.len() - j,
                {
                    token_chs.push(content_chs[j]);
                    proof {
                        assert(token_chs@ =~= s.subrange(i as int + 1, j as int + 1));
                    }
                    j = j + 1;
                }
                proof {
                    lemma_find_val_end_unique(s, i0 + 1, j as int);
                }
                let token_str = string_from_chars(&token_chs);
                sgf_tokens.push(SgfToken::VAL(token_str));
                sgf_tokens.push(SgfToken::VALEND);
                let ghost jj = j as int;
                if j < content_chs.len() {
                    i = j + 1;
                } else {
                    i = content_chs.len();
                }
                proof {
                    let emitted = seq![
                        TokenV::VALSTART,
                        TokenV::VAL(s.subrange(i0 + 1, jj)),
                        TokenV::VALEND,
                    ];
                    assert(views_of(sgf_tokens@) =~= views_of(tokens0) + emitted);
                    assert(spec_lex(s, i0) == emitted + spec_lex(s, i as int));
                    assert(views_of(sgf_tokens@) + spec_lex(s, i as int) =~= views_of(tokens0)
                        + spec_lex(s, i0));
                }
            } else {
                let mut token_chs: Vec<char> = Vec::new();
                token_chs.push(cur_ch);
                let mut j = i + 1;
                while j < content_chs.len() && self.is_big_character_ch(content_chs[j])
                    invariant
                        i as int + 1 <= j <= content_chs.len(),
                        content_chs@ == s,
                        token_chs@ == s.subrange(i as int, j as int),
                        forall|k: int| i as int + 1 <= k < j ==> is_upper(s[k]),
                    decreases content_chs.len() - j,
                {
                    token_chs.push(content_chs[j]);
                    proof {
                        assert(token_chs@ =~= s.subrange(i as int, j as int + 1));
                    }
                    j = j + 1;
                }
                proof {
                    assert(token_chs@ =~= s.subrange(i0, j as int));
                    lemma_find_run_end_unique(s, i0 + 1, j as int);
                }
                match key_token_of_run(&token_chs) {
                    Some(t) => {
                        let ghost tv = t@;
                        sgf_tokens.push(t);
                        proof {
                            assert(views_of(sgf_tokens@) =~= views_of(tokens0).push(tv));
                            assert(spec_lex(s, i0) == seq![tv] + spec_lex(s, j as int));
                            assert(views_of(tokens0).push(tv) + spec_lex(s, j as int)
                                =~= views_of(tokens0) + spec_lex(s, i0));
                        }
                    },
                    None => {
                        proof {
                            assert(spec_lex(s, i0) == spec_lex(s, j as int));
                        }
                    },
                }
                i = j;
            }
        }
        proof {
            assert(views_of(sgf_tokens@) + spec_lex(s, i as int) =~= views_of(sgf_tokens@));
        }
        sgf_tokens
    }
}

/// One lexer step that consumes a single character and emits a single token.
proof fn lemma_lex_step_push1(s: Seq<char>, i: int, tokens: Seq<SgfToken>, t: TokenV)
    requires
        0 <= i < s.len(),
        spec_lex(s, i) == seq![t] + spec_lex(s, i + 1),
    ensures
        forall|tok: SgfToken| tok@ == t ==> views_of(tokens.push(tok)) + spec_lex(s, i + 1)
            =~= views_of(tokens) + spec_lex(s, i),
{
    assert forall|tok: SgfToken| tok@ == t implies views_of(tokens.push(tok)) + spec_lex(s, i + 1)
        =~= views_of(tokens) + spec_lex(s, i) by {
        assert(views_of(tokens.push(tok)) =~= views_of(tokens).push(t));
    }
}

impl Parse<SgfToken> for SgfReader {
    type Output = Vec<SgfToken>;

    /// Scans the whole text into its token sequence, exactly as
    /// `parse_tokens` states it.
    fn parse(&self) -> (r: Vec<SgfToken>)
        ensures
            views_of(r@) == spec_lex(self@, 0),
    {
        self.parse_tokens()
    }
}


/// A property key is written with one or two uppercase letters.
pub proof fn lemma_key_chars_upper(t: TokenV)
    requires
        is_prop_key(t),
    ensures
        1 <= key_chars(t).len() <= 2,
        forall|k: int| 0 <= k < key_chars(t).len() ==> is_upper(#[trigger] key_chars(t)[k]),
{
    assert forall|k: int| 0 <= k < key_chars(t).len() implies is_upper(
        #[trigger] key_chars(t)[k],
    ) by {
        if k == 0 || k == 1 {
        }
    }
}

/// The key table reads its own writing back: every property key's letters
/// name exactly that key.
#[verifier::rlimit(100)]
pub proof fn lemma_key_roundtrip(t: TokenV)
    requires
        is_prop_key(t),
    ensures
        key_of_chars(key_chars(t)) == Some(t),
{
}


/// Whatever the key table answers is a property key.
pub proof fn lemma_key_of_chars_prop(s: Seq<char>)
    ensures
        match key_of_chars(s) {
            Some(t) => is_prop_key(t),
            None => true,
        },
{
}

} // verus!
