//! Versions, error correction levels, encoding modes and colours.
use vstd::prelude::*;
use core::cmp::Ordering;

verus! {

/// Error correction level, ordered by strength.
#[derive(Debug, PartialEq, Eq, Copy, Clone, PartialOrd, Ord, Structural)]
pub enum EcLevel {
    /// Low error correction. Allows up to 7% of wrong blocks.
    L,
    /// Medium error correction. Allows up to 15% of wrong blocks.
    M,
    /// "Quartile" error correction. Allows up to 25% of wrong blocks.
    Q,
    /// High error correction. Allows up to 30% of wrong blocks.
    H,
}

impl EcLevel {
    /// Column of this level in the capacity tables.
    pub open spec fn index_spec(self) -> int {
        match self {
            EcLevel::L => 0,
            EcLevel::M => 1,
            EcLevel::Q => 2,
            EcLevel::H => 3,
        }
    }

    /// Column of this level in the capacity tables (L = 0, M = 1, Q = 2, H = 3).
    pub fn index(self) -> (r: usize)
        ensures
            r == self.index_spec(),
    {
        match self {
            EcLevel::L => 0,
            EcLevel::M => 1,
            EcLevel::Q => 2,
            EcLevel::H => 3,
        }
    }
}

/// The errors that the encoder reports.
#[derive(Debug, PartialEq, Eq, Copy, Clone, Structural)]
pub enum QrError {
    /// The data is too long to encode into a QR code for the given version.
    DataTooLong,
    /// The provided version / error correction level combination is invalid.
    InvalidVersion,
    /// Some characters in the data cannot be supported by the provided QR code
    /// version.
    UnsupportedCharacterSet,
    /// A character not belonging to the character set is found.
    InvalidCharacter,
}

pub type QrResult<T> = Result<T, QrError>;

/// The encoding of a segment of data.
#[derive(Debug, PartialEq, Eq, Copy, Clone, Structural)]
pub enum Mode {
    /// The data contains only characters 0 to 9.
    Numeric,
    /// The data contains only uppercase letters (A–Z), numbers (0–9) and a few
    /// punctuations marks (space, `$`, `%`, `*`, `+`, `-`, `.`, `/`, `:`).
    Alphanumeric,
    /// The data contains arbitrary binary data.
    Byte,
    /// The data contains Shift-JIS-encoded double-byte text.
    Kanji,
}

/// Width of the character count field of `mode` at `version`.
pub open spec fn length_bits(mode: Mode, version: Version) -> int {
    match version {
        Version::Micro(a) => match mode {
            Mode::Numeric => 2 + a,
            Mode::Alphanumeric | Mode::Byte => 1 + a,
            Mode::Kanji => a as int,
        },
        Version::Normal(v) => if v <= 9 {
            match mode {
                Mode::Numeric => 10,
                Mode::Alphanumeric => 9,
                Mode::Byte | Mode::Kanji => 8,
            }
        } else if v <= 26 {
            match mode {
                Mode::Numeric => 12,
                Mode::Alphanumeric => 11,
                Mode::Byte => 16,
                Mode::Kanji => 10,
            }
        } else {
            match mode {
                Mode::Numeric => 14,
                Mode::Alphanumeric => 13,
                Mode::Byte => 16,
                Mode::Kanji => 12,
            }
        },
    }
}

/// Number of bits that `n` characters take in `mode`.
pub open spec fn data_bits(mode: Mode, n: int) -> int {
    match mode {
        Mode::Numeric => (n * 10 + 2) / 3,
        Mode::Alphanumeric => (n * 11 + 1) / 2,
        Mode::Byte => n * 8,
        Mode::Kanji => n * 13,
    }
}

/// The partial order of the modes by the characters that they can hold.
pub open spec fn mode_cmp(a: Mode, b: Mode) -> Option<Ordering> {
    if a == b {
        Some(Ordering::Equal)
    } else if (a == Mode::Numeric && b == Mode::Alphanumeric) || b == Mode::Byte {
        Some(Ordering::Less)
    } else if (a == Mode::Alphanumeric && b == Mode::Numeric) || a == Mode::Byte {
        Some(Ordering::Greater)
    } else {
        None
    }
}

/// The least mode that holds both `a` and `b`; Byte where they are not comparable.
pub open spec fn mode_max(a: Mode, b: Mode) -> Mode {
    match mode_cmp(a, b) {
        Some(Ordering::Greater) => a,
        Some(_) => b,
        None => Mode::Byte,
    }
}

impl Mode {
    /// Width of the character count field of this mode at `version`.
    pub fn length_bits_count(self, version: Version) -> (r: usize)
        requires
            version.valid(),
        ensures
            r == length_bits(self, version),
    {
        match version {
            Version::Micro(a) => {
                let a = a as usize;
                match self {
                    Mode::Numeric => 2 + a,
                    Mode::Alphanumeric | Mode::Byte => 1 + a,
                    Mode::Kanji => a,
                }
            },
            Version::Normal(v) => {
                if v <= 9 {
                    match self {
                        Mode::Numeric => 10,
                        Mode::Alphanumeric => 9,
                        Mode::Byte | Mode::Kanji => 8,
                    }
                } else if v <= 26 {
                    match self {
                        Mode::Numeric => 12,
                        Mode::Alphanumeric => 11,
                        Mode::Byte => 16,
                        Mode::Kanji => 10,
                    }
                } else {
                    match self {
                        Mode::Numeric => 14,
                        Mode::Alphanumeric => 13,
                        Mode::Byte => 16,
                        Mode::Kanji => 12,
                    }
                }
            },
        }
    }

    /// Number of bits that `raw_data_len` characters take in this mode.
    pub fn data_bits_count(self, raw_data_len: usize) -> (r: usize)
        requires
            raw_data_len * 13 <= usize::MAX,
        ensures
            r == data_bits(self, raw_data_len as int),
    {
        match self {
            Mode::Numeric => (raw_data_len * 10 + 2) / 3,
            Mode::Alphanumeric => (raw_data_len * 11 + 1) / 2,
            Mode::Byte => raw_data_len * 8,
            Mode::Kanji => raw_data_len * 13,
        }
    }

    /// The least mode that can hold the characters of both; Byte where the
    /// two are not comparable.
    pub fn max(self, other: Self) -> (r: Self)
        ensures
            r == mode_max(self, other),
    {
        match self.partial_cmp(&other) {
            Some(Ordering::Greater) => self,
            Some(_) => other,
            None => Mode::Byte,
        }
    }
}

impl PartialOrd for Mode {
    fn partial_cmp(&self, other: &Self) -> (r: Option<Ordering>)
        ensures
            r == mode_cmp(*self, *other),
    {
        if *self == *other {
            Some(Ordering::Equal)
        } else if (*self == Mode::Numeric && *other == Mode::Alphanumeric) || *other == Mode::Byte {
            Some(Ordering::Less)
        } else if (*self == Mode::Alphanumeric && *other == Mode::Numeric) || *self == Mode::Byte {
            Some(Ordering::Greater)
        } else {
            None
        }
    }
}

impl vstd::std_specs::cmp::PartialOrdSpecImpl for Mode {
    open spec fn obeys_partial_cmp_spec() -> bool {
        true
    }

    open spec fn partial_cmp_spec(&self, other: &Self) -> Option<Ordering> {
        mode_cmp(*self, *other)
    }
}

/// The version of a symbol, which decides its size.
#[derive(Debug, PartialEq, Eq, Copy, Clone, Structural)]
pub enum Version {
    /// A normal QR code version, from 1 to 40.
    Normal(i16),
    /// A Micro QR code version, from 1 to 4.
    Micro(i16),
}

impl Version {
    /// The version numbers that exist.
    pub open spec fn valid(self) -> bool {
        match self {
            Version::Normal(v) => 1 <= v <= 40,
            Version::Micro(v) => 1 <= v <= 4,
        }
    }

    /// A normal version from 1 to 40.
    pub open spec fn is_normal(self) -> bool {
        match self {
            Version::Normal(v) => 1 <= v <= 40,
            Version::Micro(_) => false,
        }
    }

    pub open spec fn width_spec(self) -> int {
        match self {
            Version::Normal(v) => v * 4 + 17,
            Version::Micro(v) => v * 2 + 9,
        }
    }

    pub open spec fn mode_bits(self) -> int {
        match self {
            Version::Micro(a) => a - 1,
            Version::Normal(_) => 4,
        }
    }

    /// Side of the square symbol, in modules.
    pub fn width(self) -> (r: i16)
        requires
            self.valid(),
        ensures
            r == self.width_spec(),
    {
        match self {
            Version::Normal(v) => v * 4 + 17,
            Version::Micro(v) => v * 2 + 9,
        }
    }

    /// Width of the mode indicator.
    pub fn mode_bits_count(self) -> (r: usize)
        requires
            self.valid(),
        ensures
            r == self.mode_bits(),
    {
        match self {
            Version::Micro(a) => (a - 1) as usize,
            Version::Normal(_) => 4,
        }
    }

    /// Row of a capacity table that describes this version, where it has one.
    pub open spec fn table_row(self) -> int {
        match self {
            Version::Normal(v) => v - 1,
            Version::Micro(v) => v + 39,
        }
    }

    /// What `fetch` finds in `table`: the cell of a valid normal version, or
    /// the non-zero cell of a valid micro version.
    pub open spec fn fetch_spec(self, ec_level: EcLevel, table: Seq<[usize; 4]>) -> Option<usize> {
        let cell = table[self.table_row()][ec_level.index_spec()];
        match self {
            Version::Normal(v) => if 1 <= v <= 40 {
                Some(cell)
            } else {
                None
            },
            Version::Micro(v) => if 1 <= v <= 4 && cell != 0 {
                Some(cell)
            } else {
                None
            },
        }
    }

    /// Looks up the cell of this version and `ec_level` in a table with one
    /// row per normal version followed by one per micro version.
    pub fn fetch(self, ec_level: EcLevel, table: &[[usize; 4]]) -> (r: QrResult<usize>)
        requires
            table@.len() >= 44,
        ensures
            match self.fetch_spec(ec_level, table@) {
                Some(c) => r == Ok::<usize, QrError>(c),
                None => r == Err::<usize, QrError>(QrError::InvalidVersion),
            },
    {
        match self {
            Version::Normal(v) => {
                if 1 <= v && v <= 40 {
                    return Ok(table[(v - 1) as usize][ec_level.index()]);
                }
            },
            Version::Micro(v) => {
                if 1 <= v && v <= 4 {
                    let obj = table[(v + 39) as usize][ec_level.index()];
                    if obj != 0 {
                        return Ok(obj);
                    }
                }
            },
        }
        Err(QrError::InvalidVersion)
    }

    /// Whether this is a Micro QR code version.
    pub fn is_micro(self) -> (r: bool)
        ensures
            r == (self is Micro),
    {
        match self {
            Version::Micro(_) => true,
            Version::Normal(_) => false,
        }
    }
}

/// The colour of a module.
#[derive(Copy, Clone, PartialEq, Eq, Hash, Debug, Structural)]
pub enum Color {
    /// The module is light colored.
    Light,
    /// The module is dark colored.
    Dark,
}

/// The other colour.
pub open spec fn invert(c: Color) -> Color {
    match c {
        Color::Light => Color::Dark,
        Color::Dark => Color::Light,
    }
}

impl Color {
    /// Picks `dark` for a dark colour and `light` for a light one.
    pub fn select<T>(self, dark: T, light: T) -> (r: T)
        ensures
            r == (match self {
                Color::Light => light,
                Color::Dark => dark,
            }),
    {
        match self {
            Color::Light => light,
            Color::Dark => dark,
        }
    }
}

impl core::ops::Not for Color {
    type Output = Self;

    fn not(self) -> (r: Self)
        ensures
            r == invert(self),
    {
        match self {
            Color::Light => Color::Dark,
            Color::Dark => Color::Light,
        }
    }
}

impl vstd::std_specs::ops::NotSpecImpl for Color {
    open spec fn obeys_not_spec() -> bool {
        true
    }

    open spec fn not_req(self) -> bool {
        true
    }

    open spec fn not_spec(self) -> Color {
        invert(self)
    }
}

} // verus!
