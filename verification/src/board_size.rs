use vstd::prelude::*;

use crate::text::{concat, concat_number, decimal, parse_u8, parsed_u8};

verus! {

/// Supported board dimensions.
#[derive(Clone, Copy, Debug, PartialEq, Eq, Hash, PartialOrd, Ord, Structural)]
pub enum BoardSize {
    Five,
    Seven,
    Nine,
    Eleven,
}

/// The side length of a board size.
pub open spec fn size_value(s: BoardSize) -> u8 {
    match s {
        BoardSize::Five => 5,
        BoardSize::Seven => 7,
        BoardSize::Nine => 9,
        BoardSize::Eleven => 11,
    }
}

/// The board size of side `n`, if supported.
pub open spec fn size_of_value(n: int) -> Option<BoardSize> {
    if n == 5 {
        Some(BoardSize::Five)
    } else if n == 7 {
        Some(BoardSize::Seven)
    } else if n == 9 {
        Some(BoardSize::Nine)
    } else if n == 11 {
        Some(BoardSize::Eleven)
    } else {
        None
    }
}

impl BoardSize {
    /// The default board size (5×5).
    pub fn default_size() -> (r: BoardSize)
        ensures
            r == BoardSize::Five,
    {
        BoardSize::Five
    }

    /// The side length.
    pub fn value(self) -> (r: u8)
        ensures
            r == size_value(self),
    {
        match self {
            BoardSize::Five => 5,
            BoardSize::Seven => 7,
            BoardSize::Nine => 9,
            BoardSize::Eleven => 11,
        }
    }

    /// The board size of side `n`; `Err("unsupported board size {n}")` for any other side.
    pub fn try_from_u8(n: u8) -> (r: Result<BoardSize, String>)
        ensures
            size_of_value(n as int) matches Some(s) ==> r == Ok::<BoardSize, String>(s),
            size_of_value(n as int) is None ==> (r matches Err(e) && e@ == "unsupported board size "@ + decimal(n as nat)),
    {
        match n {
            5 => Ok(BoardSize::Five),
            7 => Ok(BoardSize::Seven),
            9 => Ok(BoardSize::Nine),
            11 => Ok(BoardSize::Eleven),
            _ => Err(concat_number("unsupported board size ", n as u64)),
        }
    }

    /// Parse a board size from its side length, e.g. `"7"`.
    /// A string that is not a `u8` gives `Err("invalid board size: {s}")`.
    pub fn parse(s: &str) -> (r: Result<BoardSize, String>)
        ensures
            parsed_u8(s@) is None ==> (r matches Err(e) && e@ == "invalid board size: "@ + s@),
            parsed_u8(s@) matches Some(n) ==> {
                &&& size_of_value(n as int) matches Some(b) ==> r == Ok::<BoardSize, String>(b)
                &&& size_of_value(n as int) is None ==> (r matches Err(e) && e@ == "unsupported board size "@ + decimal(n as nat))
            },
    {
        match parse_u8(s) {
            Some(n) => BoardSize::try_from_u8(n),
            None => Err(concat("invalid board size: ", s)),
        }
    }
}

impl From<BoardSize> for u8 {
    fn from(s: BoardSize) -> (r: u8) {
        s.value()
    }
}

impl vstd::std_specs::convert::FromSpecImpl<BoardSize> for u8 {
    open spec fn obeys_from_spec() -> bool {
        true
    }

    open spec fn from_spec(v: BoardSize) -> u8 {
        size_value(v)
    }
}

impl core::str::FromStr for BoardSize {
    type Err = String;

    /// As [`BoardSize::parse`].
    fn from_str(s: &str) -> (r: Result<Self, Self::Err>)
        ensures
            parsed_u8(s@) is None ==> (r matches Err(e) && e@ == "invalid board size: "@ + s@),
            parsed_u8(s@) matches Some(n) ==> {
                &&& size_of_value(n as int) matches Some(b) ==> r == Ok::<BoardSize, String>(b)
                &&& size_of_value(n as int) is None ==> (r matches Err(e) && e@ == "unsupported board size "@ + decimal(n as nat))
            },
    {
        BoardSize::parse(s)
    }
}

} // verus!
