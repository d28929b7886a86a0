//! The choices a session is run with: how integers are laid out, and how
//! many bytes a decode may claim.
use vstd::prelude::*;

verus! {

/// How integers wider than one byte are written.
#[derive(Clone, Copy, Debug, PartialEq, Eq, Structural)]
pub enum IntEncoding {
    /// Small values take one byte; larger ones a marker byte and 2, 4 or 8 bytes.
    Variable,
    /// Every integer takes its full width.
    Fixed,
}

/// The byte order of multi-byte integers.
#[derive(Clone, Copy, Debug, PartialEq, Eq, Structural)]
pub enum Endian {
    Little,
    Big,
}

/// The settings of an encode or decode session.
#[derive(Clone, Copy, Debug, PartialEq, Eq, Structural)]
pub struct Config {
    pub int_encoding: IntEncoding,
    pub endian: Endian,
    /// The most bytes a decode may have claimed at any time; `None` for no bound.
    pub limit: Option<usize>,
}

impl Config {
    /// Variable-width integers in little-endian order, and no limit.
    pub fn standard() -> (c: Config)
        ensures
            c == (Config {
                int_encoding: IntEncoding::Variable,
                endian: Endian::Little,
                limit: None,
            }),
    {
        Config { int_encoding: IntEncoding::Variable, endian: Endian::Little, limit: None }
    }

    /// The same settings with big-endian integers.
    pub fn with_big_endian(self) -> (c: Config)
        ensures
            c == (Config { endian: Endian::Big, ..self }),
    {
        Config { endian: Endian::Big, ..self }
    }

    /// The same settings with little-endian integers.
    pub fn with_little_endian(self) -> (c: Config)
        ensures
            c == (Config { endian: Endian::Little, ..self }),
    {
        Config { endian: Endian::Little, ..self }
    }

    /// The same settings with integers of variable width.
    pub fn with_variable_int_encoding(self) -> (c: Config)
        ensures
            c == (Config { int_encoding: IntEncoding::Variable, ..self }),
    {
        Config { int_encoding: IntEncoding::Variable, ..self }
    }

    /// The same settings with integers of fixed width.
    pub fn with_fixed_int_encoding(self) -> (c: Config)
        ensures
            c == (Config { int_encoding: IntEncoding::Fixed, ..self }),
    {
        Config { int_encoding: IntEncoding::Fixed, ..self }
    }

    /// The same settings with decodes bounded to `limit` claimed bytes.
    pub fn with_limit(self, limit: usize) -> (c: Config)
        ensures
            c == (Config { limit: Some(limit), ..self }),
    {
        Config { limit: Some(limit), ..self }
    }

    /// The same settings with unbounded decodes.
    pub fn with_no_limit(self) -> (c: Config)
        ensures
            c == (Config { limit: None, ..self }),
    {
        Config { limit: None, ..self }
    }
}

} // verus!
