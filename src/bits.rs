//! The bit stream of a symbol: mode indicators, length fields, payload,
//! terminator and padding, packed into bytes.
use vstd::prelude::*;
use vstd::arithmetic::power2::{pow2, lemma_pow2_pos, lemma2_to64};
use vstd::bits::{lemma_u16_shr_is_div, lemma_usize_shl_is_mul};
use crate::types::{EcLevel, Mode, QrError, QrResult, Version, length_bits};
use crate::optimize::{
    Parser, Optimizer, Segment, total_encoded_len, total_len_spec, seg_valid, all_valid, is_digit,
    is_kanji_pair, parse_spec, optimize_spec, chained, lemma_optimized_segments_cover,
    lemma_parse_covers, lemma_covers_chained, lemma_total_bound,
};

verus! {

/// Data capacity in bits for each version (rows) and error correction level
/// (columns L, M, Q, H): normal versions 1 to 40, then micro versions 1 to 4,
/// where 0 marks a level that the micro version does not have.
pub const DATA_LENGTHS: [[usize; 4]; 44] = [
    [152, 128, 104, 72],
    [272, 224, 176, 128],
    [440, 352, 272, 208],
    [640, 512, 384, 288],
    [864, 688, 496, 368],
    [1088, 864, 608, 480],
    [1248, 992, 704, 528],
    [1552, 1232, 880, 688],
    [1856, 1456, 1056, 800],
    [2192, 1728, 1232, 976],
    [2592, 2032, 1440, 1120],
    [2960, 2320, 1648, 1264],
    [3424, 2672, 1952, 1440],
    [3688, 2920, 2088, 1576],
    [4184, 3320, 2360, 1784],
    [4712, 3624, 2600, 2024],
    [5176, 4056, 2936, 2264],
    [5768, 4504, 3176, 2504],
    [6360, 5016, 3560, 2728],
    [6888, 5352, 3880, 3080],
    [7456, 5712, 4096, 3248],
    [8048, 6256, 4544, 3536],
    [8752, 6880, 4912, 3712],
    [9392, 7312, 5312, 4112],
    [10208, 8000, 5744, 4304],
    [10960, 8496, 6032, 4768],
    [11744, 9024, 6464, 5024],
    [12248, 9544, 6968, 5288],
    [13048, 10136, 7288, 5608],
    [13880, 10984, 7880, 5960],
    [14744, 11640, 8264, 6344],
    [15640, 12328, 8920, 6760],
    [16568, 13048, 9368, 7208],
    [17528, 13800, 9848, 7688],
    [18448, 14496, 10288, 7888],
    [19472, 15312, 10832, 8432],
    [20528, 15936, 11408, 8768],
    [21616, 16816, 12016, 9136],
    [22496, 17728, 12656, 9776],
    [23648, 18672, 13328, 10208],
    [20, 0, 0, 0],
    [40, 32, 0, 0],
    [84, 68, 0, 0],
    [128, 112, 80, 0],
];

/// Data capacity in bits of `version` at `ec_level`, where the pair exists.
pub open spec fn capacity(version: Version, ec_level: EcLevel) -> Option<usize> {
    version.fetch_spec(ec_level, DATA_LENGTHS@)
}

/// Bit `k` (0 is the most significant) of a byte.
pub open spec fn byte_bit(b: u8, k: int) -> bool {
    (b >> ((7 - k) as u8)) & 1u8 == 1u8
}

/// The `n` lowest bits of `v`, most significant first.
pub open spec fn num_bits(v: int, n: nat) -> Seq<bool> {
    Seq::new(n, |i: int| (v / pow2((n - 1 - i) as nat) as int) % 2 == 1)
}

/// `n` zero bits.
pub open spec fn zeros(n: nat) -> Seq<bool> {
    Seq::new(n, |i: int| false)
}

/// The bits of the first `len` bits of `bytes`, most significant first in each byte.
pub open spec fn bytes_bits(bytes: Seq<u8>, len: nat) -> Seq<bool> {
    Seq::new(len, |i: int| byte_bit(bytes[i / 8], i % 8))
}

/// A bit-packed buffer, filled from the most significant bit of each byte.
#[derive(Debug)]
pub struct Bits {
    data: Vec<u8>,
    bit_offset: usize,
    version: Version,
}

/// Bounds the length of a stream so that its bytes and bits can be counted.
pub open spec fn room(len: int) -> bool {
    len <= usize::MAX / 16
}

impl View for Bits {
    type V = Seq<bool>;

    /// The bits pushed so far.
    closed spec fn view(&self) -> Seq<bool> {
        bytes_bits(self.data@, self.bit_len())
    }
}

impl Bits {
    spec fn bit_len(&self) -> nat {
        if self.bit_offset == 0 {
            (self.data@.len() * 8) as nat
        } else {
            ((self.data@.len() - 1) * 8 + self.bit_offset) as nat
        }
    }

    /// The version that the stream is written for.
    pub closed spec fn version_spec(&self) -> Version {
        self.version
    }

    /// The bytes of the buffer.
    pub closed spec fn bytes(&self) -> Seq<u8> {
        self.data@
    }

    pub closed spec fn wf(&self) -> bool {
        &&& self.version.valid()
        &&& self.bit_offset < 8
        &&& self.bit_offset != 0 ==> self.data@.len() > 0
        &&& self.bit_offset != 0 ==> self.data@.last() & (0xffu8 >> self.bit_offset as u8) == 0
        &&& room(self.data@.len() * 8 as int)
    }

    /// An empty stream for `version`.
    pub fn new(version: Version) -> (r: Self)
        requires
            version.valid(),
        ensures
            r.wf(),
            r@ == Seq::<bool>::empty(),
            r.version_spec() == version,
    {
        let r = Bits { data: Vec::new(), bit_offset: 0, version };
        assert(r@ =~= Seq::<bool>::empty());
        r
    }

    /// The version that the stream is written for.
    pub fn version(&self) -> (r: Version)
        ensures
            r == self.version_spec(),
    {
        self.version
    }

    /// The bytes of the stream, most significant bit first; unused bits of
    /// the last byte are zero.
    pub fn into_bytes(self) -> (r: Vec<u8>)
        requires
            self.wf(),
        ensures
            r@ == self.bytes(),
            r@.len() == (self@.len() + 7) / 8,
            bytes_bits(r@, self@.len()) == self@,
            self@.len() % 8 != 0 ==> r@.last() & (0xffu8 >> (self@.len() % 8) as u8) == 0,
    {
        proof {
            self.lemma_len();
        }
        self.data
    }

    /// Number of bits pushed.
    pub fn len(&self) -> (r: usize)
        requires
            self.wf(),
        ensures
            r == self@.len(),
    {
        if self.bit_offset == 0 {
            self.data.len() * 8
        } else {
            (self.data.len() - 1) * 8 + self.bit_offset
        }
    }

    /// Data capacity in bits of this stream's version at `ec_level`.
    pub fn max_len(&self, ec_level: EcLevel) -> (r: QrResult<usize>)
        requires
            self.wf(),
        ensures
            match capacity(self.version_spec(), ec_level) {
                Some(c) => r == Ok::<usize, QrError>(c),
                None => r == Err::<usize, QrError>(QrError::InvalidVersion),
            },
    {
        self.version.fetch(ec_level, DATA_LENGTHS.as_slice())
    }

    proof fn lemma_len(&self)
        requires
            self.wf(),
        ensures
            self.data@.len() * 8 <= self@.len() + 7,
            self@.len() <= self.data@.len() * 8,
            self@.len() % 8 == self.bit_offset,
    {
    }

    /// Appends one bit.
    fn push_bit(&mut self, bit: bool)
        requires
            old(self).wf(),
            room(old(self).data@.len() * 8 + 8 as int),
        ensures
            final(self).wf(),
            final(self)@ == old(self)@.push(bit),
            final(self).version_spec() == old(self).version_spec(),
    {
        let ghost old_bits = self@;
        if self.bit_offset == 0 {
            let b: u8 = if bit { 0x80 } else { 0 };
            self.data.push(b);
            self.bit_offset = 1;
            proof {
                assert(b & (0xffu8 >> 1u8) == 0) by (bit_vector)
                    requires b == 0x80u8 || b == 0u8;
                assert(byte_bit(b, 0) == bit) by {
                    assert(((b >> 7u8) & 1u8 == 1u8) == (b == 0x80u8)) by (bit_vector)
                        requires b == 0x80u8 || b == 0u8;
                }
                assert forall|i: int| 0 <= i < old_bits.len() implies self@[i] == old_bits[i] by {
                    assert(i / 8 < self.data@.len() - 1);
                }
                assert(self@ =~= old_bits.push(bit));
            }
        } else {
            let last = self.data.len() - 1;
            let o = self.bit_offset as u8;
            let old_byte = self.data[last];
            let x: u8 = if bit { 0x80u8 >> o } else { 0 };
            let new_byte = old_byte | x;
            self.data.set(last, new_byte);
            let next_offset = self.bit_offset + 1;
            self.bit_offset = if next_offset == 8 { 0 } else { next_offset };
            proof {
                lemma_or_bit(old_byte, o, bit);
                assert forall|i: int| 0 <= i < old_bits.len() implies self@[i] == old_bits[i] by {
                    if i / 8 == last {
                        assert(i % 8 < o);
                    }
                }
                assert(self@[old_bits.len() as int] == bit) by {
                    assert((old_bits.len() as int) / 8 == last);
                    assert((old_bits.len() as int) % 8 == o);
                }
                assert(self@ =~= old_bits.push(bit));
            }
        }
    }
}

impl Bits {
    /// Appends the `n` lowest bits of `number`, most significant first.
    fn push_number(&mut self, n: usize, number: u16)
        requires
            old(self).wf(),
            n <= 16,
            number < pow2(n as nat),
            room(old(self)@.len() + n + 16),
        ensures
            final(self).wf(),
            final(self)@ == old(self)@ + num_bits(number as int, n as nat),
            final(self).version_spec() == old(self).version_spec(),
    {
        let ghost start = self@;
        let ghost all = num_bits(number as int, n as nat);
        let mut i: usize = n;
        while i > 0
            invariant
                self.wf(),
                i <= n <= 16,
                self.version_spec() == old(self).version_spec(),
                start == old(self)@,
                room(start.len() + n + 16),
                all == num_bits(number as int, n as nat),
                self@ == start + all.take(n - i),
            decreases i,
        {
            let shifted = number >> ((i - 1) as u16);
            let bit = (shifted & 1) == 1;
            proof {
                self.lemma_len();
                lemma_u16_shr_is_div(number, (i - 1) as u16);
                assert(((shifted & 1u16) == 1u16) == (shifted % 2 == 1)) by (bit_vector);
                assert(bit == all[n - i]);
                assert(all.take(n - i + 1) =~= all.take(n - i).push(bit));
            }
            self.push_bit(bit);
            i = i - 1;
        }
        assert(all.take(n as int) =~= all);
    }

    /// Appends the `n` lowest bits of `number` where it has no more than `n`
    /// bits and `n` is at most 16; fails `DataTooLong` otherwise.
    fn push_number_checked(&mut self, n: usize, number: usize) -> (r: QrResult<()>)
        requires
            old(self).wf(),
            room(old(self)@.len() + 32int),
        ensures
            final(self).wf(),
            final(self).version_spec() == old(self).version_spec(),
            if n > 16 || number >= pow2(n as nat) {
                r == Err::<(), QrError>(QrError::DataTooLong) && *final(self) == *old(self)
            } else {
                r == Ok::<(), QrError>(()) && final(self)@ == old(self)@ + num_bits(
                    number as int,
                    n as nat,
                )
            },
    {
        if n > 16 {
            return Err(QrError::DataTooLong);
        }
        proof {
            lemma2_to64();
            if n < 16 {
                vstd::arithmetic::power2::lemma_pow2_strictly_increases(n as nat, 16);
            }
            lemma_usize_shl_is_mul(1, n);
        }
        if number >= (1usize << n) {
            Err(QrError::DataTooLong)
        } else {
            self.push_number(n, number as u16);
            Ok(())
        }
    }
}

/// Setting bit `o` of a byte whose bits from `o` on are zero.
proof fn lemma_or_bit(b: u8, o: u8, bit: bool)
    requires
        0 < o < 8,
        b & (0xffu8 >> o) == 0,
    ensures
        ({
            let x: u8 = if bit {
                0x80u8 >> o
            } else {
                0
            };
            &&& forall|k: int| 0 <= k < o ==> byte_bit(b | x, k) == byte_bit(b, k)
            &&& byte_bit(b | x, o as int) == bit
            &&& o < 7 ==> (b | x) & (0xffu8 >> (o + 1) as u8) == 0
        }),
{
    let x: u8 = if bit {
        0x80u8 >> o
    } else {
        0
    };
    assert forall|k: int| 0 <= k < o implies byte_bit(b | x, k) == byte_bit(b, k) by {
        let kk = k as u8;
        assert(((b | x) >> (7 - kk) as u8) & 1u8 == (b >> (7 - kk) as u8) & 1u8) by (bit_vector)
            requires
                kk < o,
                o < 8,
                x == 0 || x == 0x80u8 >> o,
        ;
    }
    assert((((b | x) >> (7 - o) as u8) & 1u8 == 1u8) == (x != 0)) by (bit_vector)
        requires
            0 < o < 8,
            b & (0xffu8 >> o) == 0,
            x == 0 || x == 0x80u8 >> o,
    ;
    if o < 7 {
        assert((b | x) & (0xffu8 >> (o + 1) as u8) == 0) by (bit_vector)
            requires
                0 < o < 7,
                b & (0xffu8 >> o) == 0,
                x == 0 || x == 0x80u8 >> o,
        ;
    }
    if bit {
        assert(x != 0) by (bit_vector)
            requires x == 0x80u8 >> o, o < 8;
    }
}

/// What introduces a segment in the stream.
#[derive(Copy, Clone)]
pub enum ExtendedMode {
    /// The normal mode to introduce data.
    Data(Mode),
}

/// The code point of the mode indicator of `mode` at `version`.
pub open spec fn mode_number(version: Version, mode: Mode) -> int {
    match version {
        Version::Micro(_) => match mode {
            Mode::Numeric => 0,
            Mode::Alphanumeric => 1,
            Mode::Byte => 2,
            Mode::Kanji => 3,
        },
        Version::Normal(_) => match mode {
            Mode::Numeric => 1,
            Mode::Alphanumeric => 2,
            Mode::Byte => 4,
            Mode::Kanji => 8,
        },
    }
}

/// The mode indicator fits in the indicator width of `version`.
pub open spec fn indicator_fits(version: Version, mode: Mode) -> bool {
    mode_number(version, mode) < pow2(version.mode_bits() as nat)
}

/// Mode indicator and character count field.
pub open spec fn header_bits(version: Version, mode: Mode, count: int) -> Seq<bool> {
    num_bits(mode_number(version, mode), version.mode_bits() as nat) + num_bits(
        count,
        length_bits(mode, version) as nat,
    )
}

/// The decimal value of a run of digits.
pub open spec fn numeric_value(s: Seq<u8>) -> int
    decreases s.len(),
{
    if s.len() == 0 {
        0
    } else {
        numeric_value(s.drop_last()) * 10 + (s.last() - 0x30)
    }
}

/// Digits in groups of three, each group in `3k + 1` bits for its `k` digits.
pub open spec fn numeric_payload(s: Seq<u8>) -> Seq<bool>
    decreases s.len(),
{
    if s.len() == 0 {
        Seq::empty()
    } else {
        let k = if s.len() < 3 {
            s.len()
        } else {
            3
        };
        num_bits(numeric_value(s.take(k as int)), (3 * k + 1) as nat) + numeric_payload(
            s.skip(k as int),
        )
    }
}

/// The value of a character in the Alphanumeric mode (0 for any other byte).
pub open spec fn alnum_value(c: u8) -> int {
    if 0x30 <= c <= 0x39 {
        c - 0x30
    } else if 0x41 <= c <= 0x5a {
        c - 0x41 + 10
    } else if c == 0x20 {
        36
    } else if c == 0x24 {
        37
    } else if c == 0x25 {
        38
    } else if c == 0x2a {
        39
    } else if c == 0x2b {
        40
    } else if c == 0x2d {
        41
    } else if c == 0x2e {
        42
    } else if c == 0x2f {
        43
    } else if c == 0x3a {
        44
    } else {
        0
    }
}

/// The base-45 value of a run of Alphanumeric characters.
pub open spec fn alnum_chunk_value(s: Seq<u8>) -> int
    decreases s.len(),
{
    if s.len() == 0 {
        0
    } else {
        alnum_chunk_value(s.drop_last()) * 45 + alnum_value(s.last())
    }
}

/// Characters in pairs, each pair in 11 bits and a last single one in 6.
pub open spec fn alnum_payload(s: Seq<u8>) -> Seq<bool>
    decreases s.len(),
{
    if s.len() == 0 {
        Seq::empty()
    } else {
        let k = if s.len() < 2 {
            s.len()
        } else {
            2
        };
        num_bits(alnum_chunk_value(s.take(k as int)), (5 * k + 1) as nat) + alnum_payload(
            s.skip(k as int),
        )
    }
}

/// The 13-bit value of a Shift-JIS double-byte character.
pub open spec fn kanji_value(hi: u8, lo: u8) -> int {
    let cp = hi * 256 + lo;
    let bytes = if cp < 0xe040 {
        cp - 0x8140
    } else {
        cp - 0xc140
    };
    (bytes / 256) * 0xc0 + bytes % 256
}

/// Each pair of bytes in 13 bits; a last single byte writes nothing.
pub open spec fn kanji_payload(s: Seq<u8>) -> Seq<bool>
    decreases s.len(),
{
    if s.len() < 2 {
        Seq::empty()
    } else {
        num_bits(kanji_value(s[0], s[1]), 13) + kanji_payload(s.skip(2))
    }
}

/// Each byte in 8 bits.
pub open spec fn byte_payload(s: Seq<u8>) -> Seq<bool>
    decreases s.len(),
{
    if s.len() == 0 {
        Seq::empty()
    } else {
        num_bits(s[0] as int, 8) + byte_payload(s.skip(1))
    }
}

pub open spec fn payload(mode: Mode, s: Seq<u8>) -> Seq<bool> {
    match mode {
        Mode::Numeric => numeric_payload(s),
        Mode::Alphanumeric => alnum_payload(s),
        Mode::Byte => byte_payload(s),
        Mode::Kanji => kanji_payload(s),
    }
}

/// What writing `s` in `mode` at `version` appends, or the error it reports.
pub open spec fn push_data_result(version: Version, mode: Mode, s: Seq<u8>) -> Result<
    Seq<bool>,
    QrError,
> {
    let count: int = if mode == Mode::Kanji {
        s.len() as int / 2
    } else {
        s.len() as int
    };
    if !indicator_fits(version, mode) {
        Err(QrError::UnsupportedCharacterSet)
    } else if count >= pow2(length_bits(mode, version) as nat) {
        Err(QrError::DataTooLong)
    } else if mode == Mode::Kanji && s.len() % 2 == 1 {
        Err(QrError::InvalidCharacter)
    } else {
        Ok(header_bits(version, mode, count) + payload(mode, s))
    }
}

/// Room in a stream for writing `n` bytes in any mode.
pub open spec fn data_room(bits: Seq<bool>, n: int) -> bool {
    room(bits.len() + 64 + 8 * n)
}

impl Bits {
    /// Writes the mode indicator of `mode`; fails `UnsupportedCharacterSet`
    /// where the version's indicator is too narrow for it.
    pub fn push_mode_indicator(&mut self, mode: ExtendedMode) -> (r: QrResult<()>)
        requires
            old(self).wf(),
            room(old(self)@.len() + 32int),
        ensures
            final(self).wf(),
            final(self).version_spec() == old(self).version_spec(),
            ({
                let ExtendedMode::Data(m) = mode;
                if indicator_fits(old(self).version_spec(), m) {
                    r == Ok::<(), QrError>(()) && final(self)@ == old(self)@ + num_bits(
                        mode_number(old(self).version_spec(), m),
                        old(self).version_spec().mode_bits() as nat,
                    )
                } else {
                    r == Err::<(), QrError>(QrError::UnsupportedCharacterSet) && final(self)@
                        == old(self)@
                }
            }),
    {
        let number: usize = match (self.version, mode) {
            (Version::Micro(1), ExtendedMode::Data(Mode::Numeric)) => {
                proof {
                    vstd::arithmetic::power2::lemma2_to64();
                    assert(old(self)@ + num_bits(0, 0) =~= old(self)@);
                }
                return Ok(());
            },
            (Version::Micro(_), ExtendedMode::Data(Mode::Numeric)) => 0,
            (Version::Micro(_), ExtendedMode::Data(Mode::Alphanumeric)) => 1,
            (Version::Micro(_), ExtendedMode::Data(Mode::Byte)) => 0b10,
            (Version::Micro(_), ExtendedMode::Data(Mode::Kanji)) => 0b11,
            (_, ExtendedMode::Data(Mode::Numeric)) => 0b0001,
            (_, ExtendedMode::Data(Mode::Alphanumeric)) => 0b0010,
            (_, ExtendedMode::Data(Mode::Byte)) => 0b0100,
            (_, ExtendedMode::Data(Mode::Kanji)) => 0b1000,
        };
        let bits = self.version.mode_bits_count();
        match self.push_number_checked(bits, number) {
            Ok(()) => Ok(()),
            Err(_) => Err(QrError::UnsupportedCharacterSet),
        }
    }

    /// Writes the mode indicator and the character count field.
    fn push_header(&mut self, mode: Mode, raw_data_len: usize) -> (r: QrResult<()>)
        requires
            old(self).wf(),
            room(old(self)@.len() + 64int),
        ensures
            final(self).wf(),
            final(self).version_spec() == old(self).version_spec(),
            final(self)@.len() <= old(self)@.len() + 32,
            if !indicator_fits(old(self).version_spec(), mode) {
                r == Err::<(), QrError>(QrError::UnsupportedCharacterSet)
            } else if raw_data_len >= pow2(length_bits(mode, old(self).version_spec()) as nat) {
                r == Err::<(), QrError>(QrError::DataTooLong)
            } else {
                r == Ok::<(), QrError>(()) && final(self)@ == old(self)@ + header_bits(
                    old(self).version_spec(),
                    mode,
                    raw_data_len as int,
                )
            },
    {
        let length_bits = mode.length_bits_count(self.version);
        let ghost start = self@;
        match self.push_mode_indicator(ExtendedMode::Data(mode)) {
            Ok(()) => {},
            Err(e) => {
                return Err(e);
            },
        }
        let ghost mid = self@;
        match self.push_number_checked(length_bits, raw_data_len) {
            Ok(()) => {},
            Err(e) => {
                return Err(e);
            },
        }
        assert(self@ == start + header_bits(self.version, mode, raw_data_len as int));
        Ok(())
    }
}

proof fn lemma_small_pow2()
    ensures
        pow2(4) == 16,
        pow2(6) == 64,
        pow2(7) == 128,
        pow2(8) == 256,
        pow2(10) == 1024,
        pow2(11) == 2048,
        pow2(13) == 8192,
{
    lemma2_to64();
}

impl Bits {
    /// Writes `data`, which holds only digits, in the Numeric mode.
    pub fn push_numeric_data(&mut self, data: &[u8]) -> (r: QrResult<()>)
        requires
            old(self).wf(),
            data_room(old(self)@, data@.len() as int),
            forall|k: int| 0 <= k < data@.len() ==> is_digit(#[trigger] data@[k]),
        ensures
            final(self).wf(),
            final(self).version_spec() == old(self).version_spec(),
            final(self)@.len() <= old(self)@.len() + 32 + 8 * data@.len(),
            match push_data_result(old(self).version_spec(), Mode::Numeric, data@) {
                Ok(b) => r == Ok::<(), QrError>(()) && final(self)@ == old(self)@ + b,
                Err(e) => r == Err::<(), QrError>(e),
            },
    {
        match self.push_header(Mode::Numeric, data.len()) {
            Ok(()) => {},
            Err(e) => {
                return Err(e);
            },
        }
        let ghost target = self@ + numeric_payload(data@);
        let ghost base: int = old(self)@.len() as int;
        let mut i: usize = 0;
        assert(data@.skip(0) =~= data@);
        while i < data.len()
            invariant
                self.wf(),
                self.version_spec() == old(self).version_spec(),
                i <= data@.len(),
                forall|k: int| 0 <= k < data@.len() ==> is_digit(#[trigger] data@[k]),
                room(base + 64 + 8 * data@.len()),
                base == old(self)@.len(),
                self@.len() <= base + 32 + 4 * i,
                self@ + numeric_payload(data@.skip(i as int)) == target,
            decreases data@.len() - i,
        {
            let k: usize = if data.len() - i < 3 {
                data.len() - i
            } else {
                3
            };
            let mut number: u16 = 0;
            let mut j: usize = 0;
            while j < k
                invariant
                    k <= 3,
                    i + k <= data@.len() <= usize::MAX,
                    j <= k,
                    forall|q: int| 0 <= q < data@.len() ==> is_digit(#[trigger] data@[q]),
                    number == numeric_value(data@.subrange(i as int, i + j)),
                    number < if j == 0 {
                        1int
                    } else if j == 1 {
                        10
                    } else if j == 2 {
                        100
                    } else {
                        1000
                    },
                decreases k - j,
            {
                let d = data[i + j];
                assert(is_digit(data@[i + j]));
                assert(data@.subrange(i as int, i + j + 1).drop_last() =~= data@.subrange(
                    i as int,
                    i + j,
                ));
                number = number * 10 + (d - 0x30) as u16;
                j = j + 1;
            }
            proof {
                lemma_small_pow2();
                self.lemma_len();
                let rest = data@.skip(i as int);
                assert(rest.take(k as int) =~= data@.subrange(i as int, i + k));
                assert(rest.skip(k as int) =~= data@.skip(i + k));
            }
            let ghost before = self@;
            self.push_number(k * 3 + 1, number);
            assert(before + numeric_payload(data@.skip(i as int)) == self@ + numeric_payload(
                data@.skip(i + k),
            ));
            i = i + k;
        }
        assert(data@.skip(i as int) =~= Seq::<u8>::empty());
        assert(self@ + Seq::<bool>::empty() =~= self@);
        Ok(())
    }
}

/// The value of a character in the Alphanumeric mode (0 for any other byte).
fn alphanumeric_digit(character: u8) -> (r: u16)
    ensures
        r == alnum_value(character),
        r <= 44,
{
    if 0x30 <= character && character <= 0x39 {
        (character - 0x30) as u16
    } else if 0x41 <= character && character <= 0x5a {
        (character - 0x41) as u16 + 10
    } else if character == 0x20 {
        36
    } else if character == 0x24 {
        37
    } else if character == 0x25 {
        38
    } else if character == 0x2a {
        39
    } else if character == 0x2b {
        40
    } else if character == 0x2d {
        41
    } else if character == 0x2e {
        42
    } else if character == 0x2f {
        43
    } else if character == 0x3a {
        44
    } else {
        0
    }
}

/// A pair of bytes that the Kanji writer can encode: its code point is at
/// least 0x8140 and its value fits 13 bits.
pub open spec fn kanji_pair_ok(hi: u8, lo: u8) -> bool {
    hi * 256 + lo >= 0x8140 && kanji_value(hi, lo) < 8192
}

/// A Shift-JIS Kanji pair can be encoded.
proof fn lemma_kanji_value(hi: u8, lo: u8)
    requires
        is_kanji_pair(hi, lo),
    ensures
        kanji_pair_ok(hi, lo),
{
}

impl Bits {
    /// Writes `data` in the Alphanumeric mode.
    pub fn push_alphanumeric_data(&mut self, data: &[u8]) -> (r: QrResult<()>)
        requires
            old(self).wf(),
            data_room(old(self)@, data@.len() as int),
        ensures
            final(self).wf(),
            final(self).version_spec() == old(self).version_spec(),
            final(self)@.len() <= old(self)@.len() + 32 + 8 * data@.len(),
            match push_data_result(old(self).version_spec(), Mode::Alphanumeric, data@) {
                Ok(b) => r == Ok::<(), QrError>(()) && final(self)@ == old(self)@ + b,
                Err(e) => r == Err::<(), QrError>(e),
            },
    {
        match self.push_header(Mode::Alphanumeric, data.len()) {
            Ok(()) => {},
            Err(e) => {
                return Err(e);
            },
        }
        let ghost target = self@ + alnum_payload(data@);
        let ghost base: int = old(self)@.len() as int;
        let mut i: usize = 0;
        assert(data@.skip(0) =~= data@);
        while i < data.len()
            invariant
                self.wf(),
                self.version_spec() == old(self).version_spec(),
                i <= data@.len(),
                room(base + 64 + 8 * data@.len()),
                base == old(self)@.len(),
                self@.len() <= base + 32 + 6 * i,
                self@ + alnum_payload(data@.skip(i as int)) == target,
            decreases data@.len() - i,
        {
            let k: usize = if data.len() - i < 2 {
                data.len() - i
            } else {
                2
            };
            let mut number: u16 = 0;
            let mut j: usize = 0;
            while j < k
                invariant
                    k <= 2,
                    i + k <= data@.len() <= usize::MAX,
                    j <= k,
                    number == alnum_chunk_value(data@.subrange(i as int, i + j)),
                    number < if j == 0 {
                        1int
                    } else if j == 1 {
                        45
                    } else {
                        2025
                    },
                decreases k - j,
            {
                let d = alphanumeric_digit(data[i + j]);
                assert(data@.subrange(i as int, i + j + 1).drop_last() =~= data@.subrange(
                    i as int,
                    i + j,
                ));
                number = number * 45 + d;
                j = j + 1;
            }
            proof {
                lemma_small_pow2();
                self.lemma_len();
                let rest = data@.skip(i as int);
                assert(rest.take(k as int) =~= data@.subrange(i as int, i + k));
                assert(rest.skip(k as int) =~= data@.skip(i + k));
            }
            let ghost before = self@;
            self.push_number(k * 5 + 1, number);
            assert(before + alnum_payload(data@.skip(i as int)) == self@ + alnum_payload(
                data@.skip(i + k),
            ));
            i = i + k;
        }
        assert(data@.skip(i as int) =~= Seq::<u8>::empty());
        assert(self@ + Seq::<bool>::empty() =~= self@);
        Ok(())
    }

    /// Writes `data`, pairs of Shift-JIS bytes, in the Kanji mode; fails
    /// `InvalidCharacter` on an odd length.
    pub fn push_kanji_data(&mut self, data: &[u8]) -> (r: QrResult<()>)
        requires
            old(self).wf(),
            data_room(old(self)@, data@.len() as int),
            forall|k: int|
                0 <= k < data@.len() / 2 ==> #[trigger] kanji_pair_ok(
                    data@[2 * k],
                    data@[2 * k + 1],
                ),
        ensures
            final(self).wf(),
            final(self).version_spec() == old(self).version_spec(),
            final(self)@.len() <= old(self)@.len() + 32 + 8 * data@.len(),
            match push_data_result(old(self).version_spec(), Mode::Kanji, data@) {
                Ok(b) => r == Ok::<(), QrError>(()) && final(self)@ == old(self)@ + b,
                Err(e) => r == Err::<(), QrError>(e),
            },
    {
        match self.push_header(Mode::Kanji, data.len() / 2) {
            Ok(()) => {},
            Err(e) => {
                return Err(e);
            },
        }
        let ghost target = self@ + kanji_payload(data@);
        let ghost base: int = old(self)@.len() as int;
        let mut i: usize = 0;
        assert(data@.skip(0) =~= data@);
        while i < data.len()
            invariant
                self.wf(),
                self.version_spec() == old(self).version_spec(),
                i <= data@.len(),
                i % 2 == 0,
                indicator_fits(old(self).version_spec(), Mode::Kanji),
                data@.len() / 2 < pow2(length_bits(Mode::Kanji, old(self).version_spec()) as nat),
                forall|k: int|
                    0 <= k < data@.len() / 2 ==> #[trigger] kanji_pair_ok(
                        data@[2 * k],
                        data@[2 * k + 1],
                    ),
                room(base + 64 + 8 * data@.len()),
                base == old(self)@.len(),
                self@.len() <= base + 32 + 7 * i,
                self@ + kanji_payload(data@.skip(i as int)) == target,
            decreases data@.len() - i,
        {
            if data.len() - i != 2 && data.len() - i < 2 {
                assert(data@.len() % 2 == 1);
                assert(self@.len() <= old(self)@.len() + 32 + 8 * data@.len());
                return Err(QrError::InvalidCharacter);
            }
            let hi = data[i];
            let lo = data[i + 1];
            let cp: u16 = (hi as u16) * 256 + lo as u16;
            proof {
                let k = i / 2;
                assert(2 * k == i);
                assert(kanji_pair_ok(data@[2 * k], data@[2 * k + 1]));
                lemma_small_pow2();
                self.lemma_len();
                let rest = data@.skip(i as int);
                assert(rest[0] == hi && rest[1] == lo);
                assert(rest.skip(2) =~= data@.skip(i + 2));
            }
            let bytes: u16 = if cp < 0xe040 {
                cp - 0x8140
            } else {
                cp - 0xc140
            };
            let high = bytes >> 8;
            let low = bytes & 0xff;
            proof {
                assert(bytes >> 8u16 == bytes / 256) by (bit_vector);
                assert(bytes & 0xffu16 == bytes % 256) by (bit_vector);
            }
            let number: u16 = high * 0xc0 + low;
            let ghost before = self@;
            self.push_number(13, number);
            assert(before + kanji_payload(data@.skip(i as int)) == self@ + kanji_payload(
                data@.skip(i + 2),
            ));
            i = i + 2;
        }
        assert(data@.skip(i as int) =~= Seq::<u8>::empty());
        assert(self@ + Seq::<bool>::empty() =~= self@);
        Ok(())
    }

    /// Writes `data` in the Byte mode.
    pub fn push_byte_data(&mut self, data: &[u8]) -> (r: QrResult<()>)
        requires
            old(self).wf(),
            data_room(old(self)@, data@.len() as int),
        ensures
            final(self).wf(),
            final(self).version_spec() == old(self).version_spec(),
            final(self)@.len() <= old(self)@.len() + 32 + 8 * data@.len(),
            match push_data_result(old(self).version_spec(), Mode::Byte, data@) {
                Ok(b) => r == Ok::<(), QrError>(()) && final(self)@ == old(self)@ + b,
                Err(e) => r == Err::<(), QrError>(e),
            },
    {
        match self.push_header(Mode::Byte, data.len()) {
            Ok(()) => {},
            Err(e) => {
                return Err(e);
            },
        }
        let ghost target = self@ + byte_payload(data@);
        let ghost base: int = old(self)@.len() as int;
        let mut i: usize = 0;
        assert(data@.skip(0) =~= data@);
        while i < data.len()
            invariant
                self.wf(),
                self.version_spec() == old(self).version_spec(),
                i <= data@.len(),
                room(base + 64 + 8 * data@.len()),
                base == old(self)@.len(),
                self@.len() <= base + 32 + 8 * i,
                self@ + byte_payload(data@.skip(i as int)) == target,
            decreases data@.len() - i,
        {
            proof {
                lemma_small_pow2();
                self.lemma_len();
                let rest = data@.skip(i as int);
                assert(rest[0] == data@[i as int]);
                assert(rest.skip(1) =~= data@.skip(i + 1));
            }
            let ghost before = self@;
            self.push_number(8, data[i] as u16);
            assert(before + byte_payload(data@.skip(i as int)) == self@ + byte_payload(
                data@.skip(i + 1),
            ));
            i = i + 1;
        }
        assert(data@.skip(i as int) =~= Seq::<u8>::empty());
        assert(self@ + Seq::<bool>::empty() =~= self@);
        Ok(())
    }
}

/// `prefix` followed by what `rest` appends, or the error of `rest`.
pub open spec fn prepend(prefix: Seq<bool>, rest: Result<Seq<bool>, QrError>) -> Result<
    Seq<bool>,
    QrError,
> {
    match rest {
        Ok(b) => Ok(prefix + b),
        Err(e) => Err(e),
    }
}

/// What writing the segments of `data` one after the other appends, or the
/// first error.
pub open spec fn segments_result(data: Seq<u8>, segs: Seq<Segment>, version: Version) -> Result<
    Seq<bool>,
    QrError,
>
    decreases segs.len(),
{
    if segs.len() == 0 {
        Ok(Seq::empty())
    } else {
        match push_data_result(
            version,
            segs[0].mode,
            data.subrange(segs[0].begin as int, segs[0].end as int),
        ) {
            Err(e) => Err(e),
            Ok(b) => prepend(b, segments_result(data, segs.drop_first(), version)),
        }
    }
}

/// An upper bound on the bits that writing `segs` appends: 32 for the
/// header of each and 8 per byte.
pub open spec fn segments_bound(segs: Seq<Segment>) -> int
    decreases segs.len(),
{
    if segs.len() == 0 {
        0
    } else {
        32 + 8 * (segs[0].end - segs[0].begin) + segments_bound(segs.drop_first())
    }
}

impl Bits {
    /// Writes one segment of `data` in its mode.
    fn push_segment(&mut self, data: &[u8], seg: Segment) -> (r: QrResult<()>)
        requires
            old(self).wf(),
            seg_valid(data@, seg),
            room(old(self)@.len() + 64int + 8 * (seg.end - seg.begin)),
        ensures
            final(self).wf(),
            final(self).version_spec() == old(self).version_spec(),
            final(self)@.len() <= old(self)@.len() + 32 + 8 * (seg.end - seg.begin),
            match push_data_result(
                old(self).version_spec(),
                seg.mode,
                data@.subrange(seg.begin as int, seg.end as int),
            ) {
                Ok(b) => r == Ok::<(), QrError>(()) && final(self)@ == old(self)@ + b,
                Err(e) => r == Err::<(), QrError>(e),
            },
    {
        let slice = vstd::slice::slice_subrange(data, seg.begin, seg.end);
        match seg.mode {
            Mode::Numeric => self.push_numeric_data(slice),
            Mode::Alphanumeric => self.push_alphanumeric_data(slice),
            Mode::Byte => self.push_byte_data(slice),
            Mode::Kanji => {
                proof {
                    assert forall|k: int| 0 <= k < slice@.len() / 2 implies #[trigger] kanji_pair_ok(
                        slice@[2 * k],
                        slice@[2 * k + 1],
                    ) by {
                        assert(is_kanji_pair(
                            data@[seg.begin + 2 * k],
                            data@[seg.begin + 2 * k + 1],
                        ));
                        lemma_kanji_value(data@[seg.begin + 2 * k], data@[seg.begin + 2 * k + 1]);
                    }
                }
                self.push_kanji_data(slice)
            },
        }
    }

    /// Writes each segment of `data` in its mode, stopping at the first error.
    #[verifier::rlimit(40)]
    pub fn push_segments(&mut self, data: &[u8], segments: &[Segment]) -> (r: QrResult<()>)
        requires
            old(self).wf(),
            all_valid(data@, segments@),
            room(old(self)@.len() + 64int + segments_bound(segments@)),
        ensures
            final(self).wf(),
            final(self).version_spec() == old(self).version_spec(),
            match segments_result(data@, segments@, old(self).version_spec()) {
                Ok(b) => r == Ok::<(), QrError>(()) && final(self)@ == old(self)@ + b,
                Err(e) => r == Err::<(), QrError>(e),
            },
    {
        let ghost segs = segments@;
        let ghost v = self.version_spec();
        let ghost base: int = old(self)@.len() as int;
        let ghost mut acc: Seq<bool> = Seq::empty();
        let mut i: usize = 0;
        assert(segs.skip(0) =~= segs);
        assert(old(self)@ + acc =~= old(self)@);
        while i < segments.len()
            invariant
                self.wf(),
                self.version_spec() == v,
                v == old(self).version_spec(),
                segs == segments@,
                all_valid(data@, segs),
                i <= segs.len(),
                room(base + 64 + segments_bound(segs)),
                self@ == old(self)@ + acc,
                base == old(self)@.len(),
                self@.len() + segments_bound(segs.skip(i as int)) <= base + segments_bound(segs),
                segments_result(data@, segs, v) == prepend(
                    acc,
                    segments_result(data@, segs.skip(i as int), v),
                ),
            decreases segs.len() - i,
        {
            let seg = segments[i];
            proof {
                assert(seg_valid(data@, segs[i as int]));
                let rest = segs.skip(i as int);
                assert(rest[0] == seg);
                assert(rest.drop_first() =~= segs.skip(i + 1));
                lemma_segments_bound_nonneg(segs.skip(i + 1));
            }
            let ghost before = self@;
            let res = self.push_segment(data, seg);
            proof {
                lemma_segments_step(data@, segs, i as int, v);
            }
            match res {
                Ok(()) => {},
                Err(e) => {
                    return Err(e);
                },
            }
            proof {
                let b = push_data_result(
                    v,
                    seg.mode,
                    data@.subrange(seg.begin as int, seg.end as int),
                )->Ok_0;
                assert(self@ == before + b);
                assert(old(self)@ + (acc + b) =~= self@);
                lemma_prepend_assoc(acc, b, segments_result(data@, segs.skip(i + 1), v));
                acc = acc + b;
            }
            i = i + 1;
        }
        assert(segs.skip(i as int) =~= Seq::<Segment>::empty());
        assert(acc + Seq::<bool>::empty() =~= acc);
        Ok(())
    }
}

proof fn lemma_segments_bound_nonneg(segs: Seq<Segment>)
    requires
        forall|i: int| 0 <= i < segs.len() ==> (#[trigger] segs[i]).begin <= segs[i].end,
    ensures
        segments_bound(segs) >= 0,
    decreases segs.len(),
{
    if segs.len() > 0 {
        assert forall|i: int| 0 <= i < segs.drop_first().len() implies (
        #[trigger] segs.drop_first()[i]).begin <= segs.drop_first()[i].end by {
            assert(segs.drop_first()[i] == segs[i + 1]);
        }
        lemma_segments_bound_nonneg(segs.drop_first());
    }
}

/// Segments that cover `[b, e)` append at most 40 bits per byte.
proof fn lemma_segments_bound_cover(segs: Seq<Segment>, b: int, e: int)
    requires
        crate::optimize::covers(segs, b, e),
    ensures
        segments_bound(segs) <= 40 * (e - b),
        b <= e,
    decreases segs.len(),
{
    if segs.len() > 0 {
        lemma_segments_bound_cover(segs.drop_first(), segs[0].end as int, e);
    }
}

proof fn lemma_prepend_assoc(a: Seq<bool>, b: Seq<bool>, r: Result<Seq<bool>, QrError>)
    ensures
        prepend(a, prepend(b, r)) == prepend(a + b, r),
{
    if let Ok(x) = r {
        assert(a + (b + x) =~= (a + b) + x);
    }
}

/// Writing the segments from the `i`-th on is writing the `i`-th, then the rest.
proof fn lemma_segments_step(data: Seq<u8>, segs: Seq<Segment>, i: int, version: Version)
    requires
        0 <= i < segs.len(),
    ensures
        segments_result(data, segs.skip(i), version) == match push_data_result(
            version,
            segs[i].mode,
            data.subrange(segs[i].begin as int, segs[i].end as int),
        ) {
            Err(e) => Err(e),
            Ok(b) => prepend(b, segments_result(data, segs.skip(i + 1), version)),
        },
{
    let rest = segs.skip(i);
    assert(rest[0] == segs[i]);
    assert(rest.drop_first() =~= segs.skip(i + 1));
}


/// Facts of the capacity rows from `i` on: bounded, whole bytes for normal
/// versions, and increasing with the version for each level.
spec fn rows_ok(i: nat) -> bool
    decreases 44 - i,
{
    if i >= 44 {
        true
    } else {
        let r = DATA_LENGTHS[i as int];
        &&& r[0] <= 23648 && r[1] <= 23648 && r[2] <= 23648 && r[3] <= 23648
        &&& i < 40 ==> (r[0] % 8 == 0 && r[1] % 8 == 0 && r[2] % 8 == 0 && r[3] % 8 == 0)
        &&& i < 39 ==> {
            let n = DATA_LENGTHS[i as int + 1];
            r[0] < n[0] && r[1] < n[1] && r[2] < n[2] && r[3] < n[3]
        }
        &&& rows_ok(i + 1)
    }
}

proof fn lemma_rows_ok_from(i: nat, j: nat)
    requires
        rows_ok(i),
        i <= j,
    ensures
        rows_ok(j),
    decreases j - i,
{
    if i < j && i < 44 {
        lemma_rows_ok_from(i + 1, j);
    }
}

proof fn lemma_rows_ok()
    ensures
        rows_ok(0),
{
    reveal_with_fuel(rows_ok, 45);
}

/// The capacity table is bounded, counts whole bytes for normal versions, and
/// grows with the version at each level.
pub proof fn lemma_capacity_table()
    ensures
        forall|i: int, e: int|
            0 <= i < 44 && 0 <= e < 4 ==> #[trigger] DATA_LENGTHS[i][e] <= 23648,
        forall|i: int, e: int|
            0 <= i < 40 && 0 <= e < 4 ==> #[trigger] DATA_LENGTHS[i][e] % 8 == 0,
        forall|i: int, j: int, e: int|
            0 <= i < j < 40 && 0 <= e < 4 ==> #[trigger] DATA_LENGTHS[i][e]
                < #[trigger] DATA_LENGTHS[j][e],
{
    lemma_rows_ok();
    assert forall|i: int, e: int| 0 <= i < 44 && 0 <= e < 4 implies #[trigger] DATA_LENGTHS[i][e]
        <= 23648 && (i < 40 ==> DATA_LENGTHS[i][e] % 8 == 0) by {
        lemma_rows_ok_from(0, i as nat);
    }
    assert forall|i: int, j: int, e: int| 0 <= i < j < 40 && 0 <= e < 4 implies #[trigger] DATA_LENGTHS[i][e]
        < #[trigger] DATA_LENGTHS[j][e] by {
        lemma_rows_increase(i, j, e);
    }
}

proof fn lemma_rows_increase(i: int, j: int, e: int)
    requires
        rows_ok(0),
        0 <= i < j < 40,
        0 <= e < 4,
    ensures
        DATA_LENGTHS[i][e] < DATA_LENGTHS[j][e],
    decreases j - i,
{
    lemma_rows_ok_from(0, (j - 1) as nat);
    if i < j - 1 {
        lemma_rows_increase(i, j - 1, e);
    }
}

/// Width of the terminator of `version`.
pub open spec fn terminator_size(version: Version) -> int {
    match version {
        Version::Micro(a) => a * 2 + 1,
        Version::Normal(_) => 4,
    }
}

/// `n` padding bytes, alternately 0xEC and 0x11.
pub open spec fn pad_bits(n: nat) -> Seq<bool>
    decreases n,
{
    if n == 0 {
        Seq::empty()
    } else {
        pad_bits((n - 1) as nat) + num_bits(
            if (n - 1) % 2 == 0 {
                0xec
            } else {
                0x11
            },
            8,
        )
    }
}

/// A stream completed to capacity `cap` after its terminator: zeros up to a
/// byte boundary, padding bytes up to the byte capacity, then a zero byte
/// where still short.
pub open spec fn padded(s1: Seq<bool>, cap: int) -> Seq<bool> {
    if s1.len() < cap {
        let s2 = s1 + zeros(((8 - s1.len() % 8) % 8) as nat);
        let n = if cap / 8 > s2.len() / 8 {
            cap / 8 - s2.len() / 8
        } else {
            0
        };
        let s3 = s2 + pad_bits(n as nat);
        if s3.len() < cap {
            s3 + zeros(8)
        } else {
            s3
        }
    } else {
        s1
    }
}

/// The stream `bits` completed to capacity `cap`: at most `t` terminator
/// zeros, then the padding.
pub open spec fn terminated(bits: Seq<bool>, cap: int, t: int) -> Seq<bool> {
    let t2 = if t < cap - bits.len() {
        t
    } else {
        cap - bits.len()
    };
    padded(bits + zeros(t2 as nat), cap)
}

proof fn lemma_num_bits_zero(n: nat)
    ensures
        num_bits(0, n) == zeros(n),
{
    assert forall|i: int| 0 <= i < n implies num_bits(0, n)[i] == zeros(n)[i] by {
        lemma_pow2_pos((n - 1 - i) as nat);
    }
    assert(num_bits(0, n) =~= zeros(n));
}

/// After the terminator a stream of a version whose capacity is whole bytes
/// (every normal version) is exactly as long as the capacity.
pub proof fn lemma_terminated_len(bits: Seq<bool>, cap: int, t: int)
    requires
        bits.len() <= cap,
        cap % 8 == 0,
        t >= 0,
    ensures
        terminated(bits, cap, t).len() == cap,
{
    let t2 = if t < cap - bits.len() {
        t
    } else {
        cap - bits.len()
    };
    let s1 = bits + zeros(t2 as nat);
    if s1.len() < cap {
        let s2 = s1 + zeros(((8 - s1.len() % 8) % 8) as nat);
        assert(s2.len() % 8 == 0);
        assert(s2.len() <= cap);
        let n = cap / 8 - s2.len() / 8;
        lemma_pad_len(n as nat);
    }
}

proof fn lemma_pad_len(n: nat)
    ensures
        pad_bits(n).len() == 8 * n,
    decreases n,
{
    if n > 0 {
        lemma_pad_len((n - 1) as nat);
    }
}

/// The bit-length law: after the terminator, a stream for a normal version
/// that fitted its capacity is exactly as long as the capacity.
pub proof fn lemma_bit_length_law(bits: Seq<bool>, version: Version, ec_level: EcLevel)
    requires
        version.is_normal(),
        bits.len() <= capacity(version, ec_level)->Some_0,
    ensures
        capacity(version, ec_level) is Some,
        terminated(bits, capacity(version, ec_level)->Some_0 as int, terminator_size(version)).len()
            == capacity(version, ec_level)->Some_0,
{
    lemma_capacity_table();
    let c = capacity(version, ec_level)->Some_0;
    assert(DATA_LENGTHS[version.table_row()][ec_level.index_spec()] % 8 == 0);
    lemma_terminated_len(bits, c as int, terminator_size(version));
}

impl Bits {
    /// Pads the stream to `cap` bits after its terminator.
    fn pad_to(&mut self, data_length: usize)
        requires
            old(self).wf(),
            old(self)@.len() <= data_length <= 23648,
        ensures
            final(self).wf(),
            final(self).version_spec() == old(self).version_spec(),
            final(self)@ == padded(old(self)@, data_length as int),
    {
        proof {
            lemma_small_pow2();
            lemma2_to64();
            self.lemma_len();
        }
        if self.len() < data_length {
            let fill = (8 - self.len() % 8) % 8;
            self.push_number(fill, 0);
            proof {
                lemma_num_bits_zero(fill as nat);
            }
            let ghost s2 = self@;
            let data_bytes_length = data_length / 8;
            let cur_bytes = self.len() / 8;
            let count: usize = if data_bytes_length > cur_bytes {
                data_bytes_length - cur_bytes
            } else {
                0
            };
            let mut k: usize = 0;
            assert(s2 + pad_bits(0) =~= s2);
            while k < count
                invariant
                    self.wf(),
                    self.version_spec() == old(self).version_spec(),
                    k <= count,
                    count <= 2956,
                    s2.len() <= 23648,
                    self@ == s2 + pad_bits(k as nat),
                decreases count - k,
            {
                proof {
                    lemma_pad_len(k as nat);
                    lemma_small_pow2();
                    self.lemma_len();
                }
                let b: u16 = if k % 2 == 0 {
                    0xec
                } else {
                    0x11
                };
                self.push_number(8, b);
                assert(s2 + pad_bits((k + 1) as nat) =~= s2 + pad_bits(k as nat) + num_bits(
                    b as int,
                    8,
                ));
                k = k + 1;
            }
            proof {
                lemma_pad_len(count as nat);
                self.lemma_len();
            }
            if self.len() < data_length {
                self.push_number(8, 0);
                proof {
                    lemma_num_bits_zero(8);
                }
            }
        }
    }

    /// Completes the stream to the data capacity of its version at
    /// `ec_level` with terminator and padding; fails `DataTooLong` where the
    /// stream is already longer than that.
    #[verifier::rlimit(40)]
    pub fn push_terminator(&mut self, ec_level: EcLevel) -> (r: QrResult<()>)
        requires
            old(self).wf(),
        ensures
            final(self).wf(),
            final(self).version_spec() == old(self).version_spec(),
            match capacity(old(self).version_spec(), ec_level) {
                None => r == Err::<(), QrError>(QrError::InvalidVersion) && final(self)@ == old(
                    self,
                )@,
                Some(c) => if old(self)@.len() > c {
                    r == Err::<(), QrError>(QrError::DataTooLong) && final(self)@ == old(self)@
                } else {
                    r == Ok::<(), QrError>(()) && final(self)@ == terminated(
                        old(self)@,
                        c as int,
                        terminator_size(old(self).version_spec()),
                    )
                },
            },
    {
        let terminator_size: usize = match self.version {
            Version::Micro(a) => a as usize * 2 + 1,
            Version::Normal(_) => 4,
        };
        let cur_length = self.len();
        let data_length = match self.max_len(ec_level) {
            Ok(l) => l,
            Err(e) => {
                return Err(e);
            },
        };
        if cur_length > data_length {
            return Err(QrError::DataTooLong);
        }
        proof {
            lemma_capacity_table();
            let row = self.version.table_row();
            assert(DATA_LENGTHS[row][ec_level.index_spec()] <= 23648);
            lemma_small_pow2();
            lemma2_to64();
        }
        let ghost start = self@;
        let ts = if terminator_size < data_length - cur_length {
            terminator_size
        } else {
            data_length - cur_length
        };
        if ts > 0 {
            self.push_number(ts, 0);
        }
        proof {
            lemma_num_bits_zero(ts as nat);
            if ts == 0 {
                assert(start + zeros(0) =~= start);
            }
        }
        assert(self@ == start + zeros(ts as nat));
        self.pad_to(data_length);
        Ok(())
    }
}

/// The least normal version from `v` on whose capacity at `ec_level` holds
/// `length` bits (40 where none does).
pub open spec fn least_fit(length: int, ec_level: EcLevel, v: int) -> int
    decreases 40 - v,
{
    if v >= 40 || DATA_LENGTHS[v - 1][ec_level.index_spec()] >= length {
        v
    } else {
        least_fit(length, ec_level, v + 1)
    }
}

/// The smallest normal version that holds `length` bits at `ec_level`.
pub open spec fn min_version(length: int, ec_level: EcLevel) -> Version {
    Version::Normal(least_fit(length, ec_level, 1) as i16)
}

proof fn lemma_least_fit(length: int, ec_level: EcLevel, v: int, a: int)
    requires
        1 <= v <= a <= 40,
        DATA_LENGTHS[a - 1][ec_level.index_spec()] >= length,
        forall|w: int| v <= w < a ==> #[trigger] DATA_LENGTHS[w - 1][ec_level.index_spec()] < length,
    ensures
        least_fit(length, ec_level, v) == a,
    decreases a - v,
{
    if v < a {
        lemma_least_fit(length, ec_level, v + 1, a);
    }
}

/// Finds the smallest normal version whose capacity at `ec_level` is at
/// least `length` bits, by binary search over the capacity table.
fn find_min_version(length: usize, ec_level: EcLevel) -> (r: Version)
    requires
        length <= DATA_LENGTHS[39][ec_level.index_spec()],
    ensures
        r == min_version(length as int, ec_level),
        1 <= least_fit(length as int, ec_level, 1) <= 40,
        DATA_LENGTHS[least_fit(length as int, ec_level, 1) - 1][ec_level.index_spec()] >= length,
{
    let e = ec_level.index();
    proof {
        lemma_rows_ok();
    }
    let mut base: usize = 0;
    let mut size: usize = 39;
    while size > 1
        invariant
            e == ec_level.index_spec(),
            e < 4,
            rows_ok(0),
            size >= 1,
            base + size <= 39,
            base == 0 || DATA_LENGTHS[base as int][e as int] <= length,
            forall|j: int| base + size <= j <= 38 ==> #[trigger] DATA_LENGTHS[j][e as int] > length,
        decreases size,
    {
        let half = size / 2;
        let mid = base + half;
        let ghost old_base = base;
        base = if DATA_LENGTHS[mid][e] > length {
            base
        } else {
            mid
        };
        proof {
            if DATA_LENGTHS[mid as int][e as int] > length {
                assert forall|j: int| base + (size - half) <= j <= 38 implies #[trigger] DATA_LENGTHS[j][e as int]
                    > length by {
                    if j > mid {
                        lemma_rows_increase(mid as int, j, e as int);
                    }
                }
            }
        }
        size = size - half;
    }
    base = if DATA_LENGTHS[base][e] >= length {
        base
    } else {
        base + 1
    };
    proof {
        assert forall|w: int| 1 <= w < base + 1 implies #[trigger] DATA_LENGTHS[w - 1][e as int]
            < length by {
            if w - 1 < base - 1 {
                lemma_rows_increase(w - 1, base - 1, e as int);
            }
        }
        lemma_least_fit(length as int, ec_level, 1, base + 1);
    }
    Version::Normal((base + 1) as i16)
}

/// The optimized segments of `data` at `version`.
pub open spec fn segments_at(data: Seq<u8>, version: Version) -> Seq<Segment> {
    optimize_spec(parse_spec(data), version)
}

/// The optimized segments of `data` at normal version `t` fit its capacity.
pub open spec fn fits_at(data: Seq<u8>, t: i16, ec_level: EcLevel) -> bool {
    total_len_spec(segments_at(data, Version::Normal(t)), Version::Normal(t))
        <= DATA_LENGTHS[t - 1][ec_level.index_spec()]
}

/// The first of the versions 9, 26 and 40 at which the optimized segments fit.
pub open spec fn chosen_threshold(data: Seq<u8>, ec_level: EcLevel) -> Option<i16> {
    if fits_at(data, 9, ec_level) {
        Some(9i16)
    } else if fits_at(data, 26, ec_level) {
        Some(26i16)
    } else if fits_at(data, 40, ec_level) {
        Some(40i16)
    } else {
        None
    }
}

/// The version and the bits that encoding `data` with the segments optimized
/// at threshold version `t` gives, or its error.
pub open spec fn encode_at(data: Seq<u8>, t: i16, ec_level: EcLevel) -> Result<
    (Version, Seq<bool>),
    QrError,
> {
    let segs = segments_at(data, Version::Normal(t));
    let m = min_version(total_len_spec(segs, Version::Normal(t)), ec_level);
    let cap = capacity(m, ec_level)->Some_0;
    match segments_result(data, segs, m) {
        Err(e) => Err(e),
        Ok(b) => if b.len() > cap {
            Err(QrError::DataTooLong)
        } else {
            Ok((m, terminated(b, cap as int, terminator_size(m))))
        },
    }
}

/// The version and the bits that `encode_auto` gives for `data`, or its error.
pub open spec fn encode_result(data: Seq<u8>, ec_level: EcLevel) -> Result<
    (Version, Seq<bool>),
    QrError,
> {
    match chosen_threshold(data, ec_level) {
        None => Err(QrError::DataTooLong),
        Some(t) => encode_at(data, t, ec_level),
    }
}

/// Encodes `data` with its segments optimized at version `t`, where they fit
/// that version; `None` where they do not.
#[verifier::rlimit(80)]
fn encode_with_threshold(data: &[u8], segments: &Vec<Segment>, t: i16, ec_level: EcLevel) -> (r:
    Option<QrResult<Bits>>)
    requires
        t == 9 || t == 26 || t == 40,
        segments@ == parse_spec(data@),
        data@.len() <= usize::MAX / 1024,
    ensures
        match r {
            None => !fits_at(data@, t, ec_level),
            Some(res) => fits_at(data@, t, ec_level) && match encode_at(data@, t, ec_level) {
                Ok((v, b)) => res is Ok && res->Ok_0.wf() && res->Ok_0.version_spec() == v
                    && res->Ok_0@ == b,
                Err(e) => res is Err && res->Err_0 == e,
            },
        },
{
    let version = Version::Normal(t);
    proof {
        lemma_parse_covers(data@);
        lemma_optimized_segments_cover(data@, version);
        lemma_covers_chained(parse_spec(data@), 0, data@.len() as int);
    }
    let opt = Optimizer::new(segments.clone(), version).collect_segments();
    proof {
        let segs = opt@;
        lemma_covers_chained(segs, 0, data@.len() as int);
        lemma_total_bound(segs, 0, data@.len() as int, version);
        assert forall|i: int| 0 <= i < segs.len() implies crate::optimize::seg_fits(
            #[trigger] segs[i],
        ) by {
            crate::optimize::lemma_covers_end(segs, 0, data@.len() as int, i);
        }
    }
    let total_len = total_encoded_len(opt.as_slice(), version);
    let data_capacity = DATA_LENGTHS[(t - 1) as usize][ec_level.index()];
    if total_len > data_capacity {
        return None;
    }
    proof {
        lemma_rows_ok();
        if t < 40 {
            lemma_rows_increase((t - 1) as int, 39, ec_level.index_spec());
        }
    }
    let min_version = find_min_version(total_len, ec_level);
    let mut bits = Bits::new(min_version);
    proof {
        lemma_segments_bound_cover(opt@, 0, data@.len() as int);
    }
    match bits.push_segments(data, opt.as_slice()) {
        Ok(()) => {},
        Err(e) => {
            return Some(Err(e));
        },
    }
    match bits.push_terminator(ec_level) {
        Ok(()) => {},
        Err(e) => {
            return Some(Err(e));
        },
    }
    Some(Ok(bits))
}

/// Encodes `data` into the bit stream of the smallest normal version that
/// holds it at `ec_level`; fails `DataTooLong` where even version 40 cannot.
pub fn encode_auto(data: &[u8], ec_level: EcLevel) -> (r: QrResult<Bits>)
    requires
        data@.len() <= usize::MAX / 1024,
    ensures
        match encode_result(data@, ec_level) {
            Ok((v, b)) => r is Ok && r->Ok_0.wf() && r->Ok_0.version_spec() == v && r->Ok_0@ == b,
            Err(e) => r is Err && r->Err_0 == e,
        },
{
    let segments = Parser::new(data).collect_segments();
    let thresholds: [i16; 3] = [9, 26, 40];
    let mut idx: usize = 0;
    while idx < 3
        invariant
            idx <= 3,
            thresholds@ == seq![9i16, 26i16, 40i16],
            segments@ == parse_spec(data@),
            data@.len() <= usize::MAX / 1024,
            idx >= 1 ==> !fits_at(data@, 9, ec_level),
            idx >= 2 ==> !fits_at(data@, 26, ec_level),
            idx >= 3 ==> !fits_at(data@, 40, ec_level),
        decreases 3 - idx,
    {
        let t = thresholds[idx];
        if let Some(res) = encode_with_threshold(data, &segments, t, ec_level) {
            return res;
        }
        idx = idx + 1;
    }
    Err(QrError::DataTooLong)
}

proof fn lemma_least_fit_le(length: int, ec_level: EcLevel, v: int, t: int)
    requires
        1 <= v <= t <= 40,
        DATA_LENGTHS[t - 1][ec_level.index_spec()] >= length,
    ensures
        v <= least_fit(length, ec_level, v) <= t,
        DATA_LENGTHS[least_fit(length, ec_level, v) - 1][ec_level.index_spec()] >= length,
    decreases 40 - v,
{
    if v < 40 && DATA_LENGTHS[v - 1][ec_level.index_spec()] < length {
        lemma_least_fit_le(length, ec_level, v + 1, t);
    }
}

/// Encoded lengths do not grow when the version shrinks.
proof fn lemma_total_monotone(segs: Seq<Segment>, a: int, t: int)
    requires
        1 <= a <= t <= 40,
    ensures
        total_len_spec(segs, Version::Normal(a as i16)) <= total_len_spec(
            segs,
            Version::Normal(t as i16),
        ),
    decreases segs.len(),
{
    if segs.len() > 0 {
        lemma_total_monotone(segs.drop_first(), a, t);
    }
}

/// Capacity feasibility: where `encode_auto` succeeds, the segments it wrote
/// take no more bits at the version it chose than that version holds.
pub proof fn lemma_capacity_feasible(data: Seq<u8>, ec_level: EcLevel)
    requires
        encode_result(data, ec_level) is Ok,
    ensures
        ({
            let t = chosen_threshold(data, ec_level)->Some_0;
            let v = encode_result(data, ec_level)->Ok_0.0;
            total_len_spec(segments_at(data, Version::Normal(t)), v) <= capacity(
                v,
                ec_level,
            )->Some_0
        }),
{
    let t = chosen_threshold(data, ec_level)->Some_0;
    let segs = segments_at(data, Version::Normal(t));
    let total = total_len_spec(segs, Version::Normal(t));
    lemma_least_fit_le(total, ec_level, 1, t as int);
    let a = least_fit(total, ec_level, 1);
    lemma_total_monotone(segs, a, t as int);
    assert(DATA_LENGTHS[a - 1][ec_level.index_spec()] >= total);
    assert(encode_result(data, ec_level)->Ok_0.0 == Version::Normal(a as i16));
}

} // verus!
