//! The closed table of Gopher content classifiers and its bidirectional
//! mapping to one-character wire codes, plus best-effort classification
//! from a file extension.
use vstd::prelude::*;

verus! {

#[derive(Clone, Copy, Debug, PartialEq, Eq, Structural)]
pub enum GopherType {
    Informational,
    Gif,
    Directory,
    File,
    BinaryFile,
    Error,
}

/// The one-character wire code of each classifier.
pub open spec fn wire_code(t: GopherType) -> char {
    match t {
        GopherType::Informational => 'i',
        GopherType::Gif => 'g',
        GopherType::Directory => '1',
        GopherType::File => '0',
        GopherType::BinaryFile => '9',
        GopherType::Error => '3',
    }
}

/// The classifier a wire-code character denotes; every unknown character
/// falls back to `Error` rather than failing.
pub open spec fn type_of_code(c: char) -> GopherType {
    if c == 'i' {
        GopherType::Informational
    } else if c == 'g' {
        GopherType::Gif
    } else if c == '1' {
        GopherType::Directory
    } else if c == '0' {
        GopherType::File
    } else if c == '9' {
        GopherType::BinaryFile
    } else {
        GopherType::Error
    }
}

/// The classifier a wire-code string denotes: exactly one character, else
/// the `Error` fallback.
pub open spec fn type_of_code_str(s: Seq<char>) -> GopherType {
    if s.len() == 1 {
        type_of_code(s[0])
    } else {
        GopherType::Error
    }
}

/// Classification of a regular file from its extension; everything
/// unrecognised is served as a binary file.
pub open spec fn ext_type(s: Seq<char>) -> GopherType {
    if s == seq!['t', 'x', 't'] || s == seq!['m', 'd'] {
        GopherType::File
    } else if s == seq!['g', 'i', 'f'] {
        GopherType::Gif
    } else {
        GopherType::BinaryFile
    }
}

impl GopherType {
    /// The wire code as a one-character string.
    pub fn to_type_string(&self) -> (r: String)
        ensures
            r@ == seq![wire_code(*self)],
    {
        match *self {
            GopherType::Informational => {
                let r = String::from_str("i");
                proof {
                    reveal_strlit("i");
                    assert(r@ =~= seq![wire_code(*self)]);
                }
                r
            },
            GopherType::Gif => {
                let r = String::from_str("g");
                proof {
                    reveal_strlit("g");
                    assert(r@ =~= seq![wire_code(*self)]);
                }
                r
            },
            GopherType::Directory => {
                let r = String::from_str("1");
                proof {
                    reveal_strlit("1");
                    assert(r@ =~= seq![wire_code(*self)]);
                }
                r
            },
            GopherType::File => {
                let r = String::from_str("0");
                proof {
                    reveal_strlit("0");
                    assert(r@ =~= seq![wire_code(*self)]);
                }
                r
            },
            GopherType::BinaryFile => {
                let r = String::from_str("9");
                proof {
                    reveal_strlit("9");
                    assert(r@ =~= seq![wire_code(*self)]);
                }
                r
            },
            GopherType::Error => {
                let r = String::from_str("3");
                proof {
                    reveal_strlit("3");
                    assert(r@ =~= seq![wire_code(*self)]);
                }
                r
            },
        }
    }

    /// Total mapping from a wire-code string back to a classifier.
    pub fn from_str(s: &str) -> (r: GopherType)
        ensures
            r == type_of_code_str(s@),
    {
        let n = s.unicode_len();
        if n != 1 {
            return GopherType::Error;
        }
        let c = s.get_char(0);
        if c == 'i' {
            GopherType::Informational
        } else if c == 'g' {
            GopherType::Gif
        } else if c == '1' {
            GopherType::Directory
        } else if c == '0' {
            GopherType::File
        } else if c == '9' {
            GopherType::BinaryFile
        } else {
            GopherType::Error
        }
    }

    /// Classifier a wire-code character denotes.
    pub fn from_code_char(c: char) -> (r: GopherType)
        ensures
            r == type_of_code(c),
    {
        if c == 'i' {
            GopherType::Informational
        } else if c == 'g' {
            GopherType::Gif
        } else if c == '1' {
            GopherType::Directory
        } else if c == '0' {
            GopherType::File
        } else if c == '9' {
            GopherType::BinaryFile
        } else {
            GopherType::Error
        }
    }

    /// Best-effort classification of a regular file by extension.
    pub fn from_file_extension(s: &str) -> (r: GopherType)
        ensures
            r == ext_type(s@),
    {
        let n = s.unicode_len();
        if n == 3 {
            let c0 = s.get_char(0);
            let c1 = s.get_char(1);
            let c2 = s.get_char(2);
            if c0 == 't' && c1 == 'x' && c2 == 't' {
                proof {
                    assert(s@ =~= seq!['t', 'x', 't']);
                }
                GopherType::File
            } else if c0 == 'g' && c1 == 'i' && c2 == 'f' {
                proof {
                    assert(s@ =~= seq!['g', 'i', 'f']);
                }
                GopherType::Gif
            } else {
                GopherType::BinaryFile
            }
        } else if n == 2 {
            let c0 = s.get_char(0);
            let c1 = s.get_char(1);
            if c0 == 'm' && c1 == 'd' {
                proof {
                    assert(s@ =~= seq!['m', 'd']);
                }
                GopherType::File
            } else {
                GopherType::BinaryFile
            }
        } else {
            GopherType::BinaryFile
        }
    }
}

/// The wire-code mapping is a bijection onto its table: decoding the code
/// of any defined classifier gives that classifier back, and every
/// character outside the table decodes to the `Error` fallback.
pub proof fn lemma_wire_code_round_trip(t: GopherType)
    ensures
        type_of_code(wire_code(t)) == t,
        type_of_code_str(seq![wire_code(t)]) == t,
        forall|c: char|
            c != 'i' && c != 'g' && c != '1' && c != '0' && c != '9' ==> type_of_code(c)
                == GopherType::Error,
{
}

} // verus!
