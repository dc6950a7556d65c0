//! Splitting the input into segments of one encoding each, and merging
//! neighbouring segments where that makes the bit stream shorter.
use vstd::prelude::*;
use crate::types::{Mode, Version, mode_max, length_bits, data_bits};

verus! {

/// A run of the input `[begin, end)` that is encoded in one mode.
#[derive(PartialEq, Eq, Debug, Copy, Clone, Structural)]
pub struct Segment {
    /// The encoding mode of the segment of data.
    pub mode: Mode,
    /// The start index of the segment.
    pub begin: usize,
    /// The end index (exclusive) of the segment.
    pub end: usize,
}

/// Number of characters in a segment: Kanji characters take two bytes.
pub open spec fn char_count(seg: Segment) -> int {
    if seg.mode == Mode::Kanji {
        (seg.end - seg.begin) / 2
    } else {
        seg.end - seg.begin
    }
}

/// Bits that a segment takes at `version`: mode indicator, length field, data.
pub open spec fn encoded_len_spec(seg: Segment, version: Version) -> int {
    version.mode_bits() + length_bits(seg.mode, version) + data_bits(seg.mode, char_count(seg))
}

/// A segment whose length can be costed without overflow.
pub open spec fn seg_fits(seg: Segment) -> bool {
    seg.begin <= seg.end && seg.end - seg.begin <= usize::MAX / 32
}

/// Sum of the encoded lengths of `segs`.
pub open spec fn total_len_spec(segs: Seq<Segment>, version: Version) -> int
    decreases segs.len(),
{
    if segs.len() == 0 {
        0
    } else {
        encoded_len_spec(segs[0], version) + total_len_spec(segs.drop_first(), version)
    }
}

/// `segs` are non-empty and follow each other from `begin` to `end` without gap
/// or overlap.
pub open spec fn covers(segs: Seq<Segment>, begin: int, end: int) -> bool
    decreases segs.len(),
{
    if segs.len() == 0 {
        begin == end
    } else {
        segs[0].begin == begin && segs[0].begin < segs[0].end && covers(
            segs.drop_first(),
            segs[0].end as int,
            end,
        )
    }
}

/// The bytes of `data` that `segs` cover, one range after the other.
pub open spec fn concat_ranges(data: Seq<u8>, segs: Seq<Segment>) -> Seq<u8>
    decreases segs.len(),
{
    if segs.len() == 0 {
        Seq::empty()
    } else {
        data.subrange(segs[0].begin as int, segs[0].end as int) + concat_ranges(
            data,
            segs.drop_first(),
        )
    }
}

pub open spec fn is_digit(b: u8) -> bool {
    0x30 <= b <= 0x39
}

/// The characters of the Alphanumeric mode: digits, upper case letters and
/// space, `$`, `%`, `*`, `+`, `-`, `.`, `/`, `:`.
pub open spec fn is_alnum(b: u8) -> bool {
    is_digit(b) || (0x41 <= b <= 0x5a) || b == 0x20 || b == 0x24 || b == 0x25 || b == 0x2a
        || b == 0x2b || b == 0x2d || b == 0x2e || b == 0x2f || b == 0x3a
}

/// A Shift-JIS double-byte character that the Kanji mode holds.
pub open spec fn is_kanji_pair(hi: u8, lo: u8) -> bool {
    ||| ((0x81 <= hi <= 0x9f || 0xe0 <= hi <= 0xea) && 0x40 <= lo <= 0xfc && lo != 0x7f)
    ||| (hi == 0xeb && 0x40 <= lo <= 0xbf && lo != 0x7f)
}

/// `data[begin..end]` is a sequence of Kanji pairs.
pub open spec fn kanji_pairs(data: Seq<u8>, begin: int, end: int) -> bool {
    &&& (end - begin) % 2 == 0
    &&& forall|k: int|
        0 <= k < (end - begin) / 2 ==> #[trigger] is_kanji_pair(
            data[begin + 2 * k],
            data[begin + 2 * k + 1],
        )
}

/// The bytes of `seg` can be written in its mode.
pub open spec fn seg_valid(data: Seq<u8>, seg: Segment) -> bool {
    &&& seg.begin <= seg.end <= data.len()
    &&& match seg.mode {
        Mode::Numeric => forall|k: int| seg.begin <= k < seg.end ==> is_digit(#[trigger] data[k]),
        Mode::Alphanumeric => forall|k: int|
            seg.begin <= k < seg.end ==> is_alnum(#[trigger] data[k]),
        Mode::Byte => true,
        Mode::Kanji => kanji_pairs(data, seg.begin as int, seg.end as int),
    }
}

pub open spec fn all_valid(data: Seq<u8>, segs: Seq<Segment>) -> bool {
    forall|i: int| 0 <= i < segs.len() ==> seg_valid(data, #[trigger] segs[i])
}

/// Sums the encoded lengths of `segments`.
pub fn total_encoded_len(segments: &[Segment], version: Version) -> (r: usize)
    requires
        version.valid(),
        forall|i: int| 0 <= i < segments@.len() ==> seg_fits(#[trigger] segments@[i]),
        total_len_spec(segments@, version) <= usize::MAX,
    ensures
        r == total_len_spec(segments@, version),
{
    let mut sum: usize = 0;
    let mut i: usize = 0;
    assert(segments@.skip(0) =~= segments@);
    while i < segments.len()
        invariant
            version.valid(),
            i <= segments@.len(),
            forall|k: int| 0 <= k < segments@.len() ==> seg_fits(#[trigger] segments@[k]),
            total_len_spec(segments@, version) <= usize::MAX,
            sum + total_len_spec(segments@.skip(i as int), version) == total_len_spec(
                segments@,
                version,
            ),
        decreases segments@.len() - i,
    {
        proof {
            let rest = segments@.skip(i as int);
            assert(rest[0] == segments@[i as int]);
            assert(rest.drop_first() =~= segments@.skip(i + 1));
            lemma_total_nonneg(segments@.skip(i + 1), version);
        }
        let l = segments[i].encoded_len(version);
        sum = sum + l;
        i = i + 1;
    }
    assert(segments@.skip(i as int) =~= Seq::<Segment>::empty());
    sum
}

/// A total of encoded lengths is never negative.
proof fn lemma_total_nonneg(segs: Seq<Segment>, version: Version)
    requires
        version.valid(),
        forall|k: int| 0 <= k < segs.len() ==> seg_fits(#[trigger] segs[k]),
    ensures
        total_len_spec(segs, version) >= 0,
    decreases segs.len(),
{
    if segs.len() > 0 {
        assert(seg_fits(segs[0]));
        assert forall|k: int| 0 <= k < segs.drop_first().len() implies seg_fits(
            #[trigger] segs.drop_first()[k],
        ) by {
            assert(segs.drop_first()[k] == segs[k + 1]);
        }
        lemma_total_nonneg(segs.drop_first(), version);
    }
}

/// Segments that cover `[b, e)` take at most 40 bits per byte.
pub proof fn lemma_total_bound(segs: Seq<Segment>, b: int, e: int, version: Version)
    requires
        version.valid(),
        covers(segs, b, e),
    ensures
        total_len_spec(segs, version) <= 40 * (e - b),
        b <= e,
    decreases segs.len(),
{
    if segs.len() > 0 {
        lemma_total_bound(segs.drop_first(), segs[0].end as int, e, version);
        assert(encoded_len_spec(segs[0], version) <= 40 * (segs[0].end - segs[0].begin));
    }
}

impl Segment {
    /// Bits that this segment takes at `version`.
    pub fn encoded_len(&self, version: Version) -> (r: usize)
        requires
            version.valid(),
            seg_fits(*self),
        ensures
            r == encoded_len_spec(*self, version),
    {
        let byte_size = self.end - self.begin;
        let chars_count = if self.mode == Mode::Kanji {
            byte_size / 2
        } else {
            byte_size
        };
        let mode_bits_count = version.mode_bits_count();
        let length_bits_count = self.mode.length_bits_count(version);
        let data_bits_count = self.mode.data_bits_count(chars_count);
        mode_bits_count + length_bits_count + data_bits_count
    }
}

/// What the parser does after reading a character.
#[derive(Copy, Clone, PartialEq, Eq, Structural)]
pub enum Action {
    /// The parser should do nothing.
    Idle,
    /// Push the current segment as a Numeric string, and reset the marks.
    Numeric,
    /// Push the current segment as an Alphanumeric string, and reset the marks.
    Alpha,
    /// Push the current segment as a 8-Bit Byte string, and reset the marks.
    Byte,
    /// Push the current segment as a Kanji string, and reset the marks.
    Kanji,
    /// Push the current segment excluding the last byte as a Kanji string, then
    /// push the remaining single byte as a Byte string, and reset the marks.
    KanjiAndSingleByte,
}

/// Exclusive character sets: every byte is in exactly one of them.
#[derive(Copy, Clone, PartialEq, Eq, Structural)]
pub enum ExclCharSet {
    /// The end of string.
    End,
    /// All symbols supported by the Alphanumeric encoding, i.e. space, `$`, `%`,
    /// `*`, `+`, `-`, `.`, `/` and `:`.
    Symbol,
    /// All numbers (0–9).
    Numeric,
    /// All uppercase letters (A–Z). These characters may also appear in the
    /// second byte of a Shift JIS 2-byte encoding.
    Alpha,
    /// The first byte of a Shift JIS 2-byte encoding, in the range 0x81–0x9f.
    KanjiHi1,
    /// The first byte of a Shift JIS 2-byte encoding, in the range 0xe0–0xea.
    KanjiHi2,
    /// The first byte of a Shift JIS 2-byte encoding, of value 0xeb. This is
    /// different from the other two range that the second byte has a smaller
    /// range.
    KanjiHi3,
    /// The second byte of a Shift JIS 2-byte encoding, in the range 0x40–0xbf,
    /// excluding letters (covered by `Alpha`), 0x81–0x9f (covered by `KanjiHi1`),
    /// and the invalid byte 0x7f.
    KanjiLo1,
    /// The second byte of a Shift JIS 2-byte encoding, in the range 0xc0–0xfc,
    /// excluding the range 0xe0–0xeb (covered by `KanjiHi2` and `KanjiHi3`).
    KanjiLo2,
    /// Any other values not covered by the above character sets.
    Byte,
}

/// The character set of a byte.
pub open spec fn class_of(c: u8) -> ExclCharSet {
    if c == 0x20 || c == 0x24 || c == 0x25 || c == 0x2a || c == 0x2b || (0x2d <= c <= 0x2f) || c
        == 0x3a {
        ExclCharSet::Symbol
    } else if 0x30 <= c <= 0x39 {
        ExclCharSet::Numeric
    } else if 0x41 <= c <= 0x5a {
        ExclCharSet::Alpha
    } else if 0x81 <= c <= 0x9f {
        ExclCharSet::KanjiHi1
    } else if 0xe0 <= c <= 0xea {
        ExclCharSet::KanjiHi2
    } else if c == 0xeb {
        ExclCharSet::KanjiHi3
    } else if c == 0x40 || (0x5b <= c <= 0x7e) || c == 0x80 || (0xa0 <= c <= 0xbf) {
        ExclCharSet::KanjiLo1
    } else if (0xc0 <= c <= 0xdf) || (0xec <= c <= 0xfc) {
        ExclCharSet::KanjiLo2
    } else {
        ExclCharSet::Byte
    }
}

impl ExclCharSet {
    /// Determines which character set a byte is in.
    fn from_u8(c: u8) -> (r: Self)
        ensures
            r == class_of(c),
    {
        if c == 0x20 || c == 0x24 || c == 0x25 || c == 0x2a || c == 0x2b || (0x2d <= c && c
            <= 0x2f) || c == 0x3a {
            ExclCharSet::Symbol
        } else if 0x30 <= c && c <= 0x39 {
            ExclCharSet::Numeric
        } else if 0x41 <= c && c <= 0x5a {
            ExclCharSet::Alpha
        } else if 0x81 <= c && c <= 0x9f {
            ExclCharSet::KanjiHi1
        } else if 0xe0 <= c && c <= 0xea {
            ExclCharSet::KanjiHi2
        } else if c == 0xeb {
            ExclCharSet::KanjiHi3
        } else if c == 0x40 || (0x5b <= c && c <= 0x7e) || c == 0x80 || (0xa0 <= c && c <= 0xbf) {
            ExclCharSet::KanjiLo1
        } else if (0xc0 <= c && c <= 0xdf) || (0xec <= c && c <= 0xfc) {
            ExclCharSet::KanjiLo2
        } else {
            ExclCharSet::Byte
        }
    }
}

/// The states of the parser.
#[derive(Copy, Clone, PartialEq, Eq, Structural)]
pub enum State {
    /// Just initialized.
    Init,
    /// Inside a string that can be exclusively encoded as Numeric.
    Numeric,
    /// Inside a string that can be exclusively encoded as Alphanumeric.
    Alpha,
    /// Inside a string that can be exclusively encoded as 8-Bit Byte.
    Byte,
    /// Just encountered the first byte of a Shift JIS 2-byte sequence of the
    /// set `KanjiHi1` or `KanjiHi2`.
    KanjiHi12,
    /// Just encountered the first byte of a Shift JIS 2-byte sequence of the
    /// set `KanjiHi3`.
    KanjiHi3,
    /// Inside a string that can be exclusively encoded as Kanji.
    Kanji,
}

/// The state that a run starting with a character of set `c` is in.
pub open spec fn start_state(c: ExclCharSet) -> State {
    match c {
        ExclCharSet::End => State::Init,
        ExclCharSet::Symbol | ExclCharSet::Alpha => State::Alpha,
        ExclCharSet::Numeric => State::Numeric,
        ExclCharSet::KanjiHi1 | ExclCharSet::KanjiHi2 => State::KanjiHi12,
        ExclCharSet::KanjiHi3 => State::KanjiHi3,
        ExclCharSet::KanjiLo1 | ExclCharSet::KanjiLo2 | ExclCharSet::Byte => State::Byte,
    }
}

/// The transition table of the parser: next state and action for the current
/// state and the set of the character read.
pub open spec fn transition_spec(s: State, c: ExclCharSet) -> (State, Action) {
    match s {
        State::Init => (start_state(c), Action::Idle),
        State::Numeric => if c == ExclCharSet::Numeric {
            (State::Numeric, Action::Idle)
        } else {
            (start_state(c), Action::Numeric)
        },
        State::Alpha => if c == ExclCharSet::Symbol || c == ExclCharSet::Alpha {
            (State::Alpha, Action::Idle)
        } else {
            (start_state(c), Action::Alpha)
        },
        State::Byte => if c == ExclCharSet::KanjiLo1 || c == ExclCharSet::KanjiLo2 || c
            == ExclCharSet::Byte {
            (State::Byte, Action::Idle)
        } else {
            (start_state(c), Action::Byte)
        },
        State::KanjiHi12 => if c == ExclCharSet::End || c == ExclCharSet::Symbol || c
            == ExclCharSet::Numeric || c == ExclCharSet::Byte {
            (start_state(c), Action::KanjiAndSingleByte)
        } else {
            (State::Kanji, Action::Idle)
        },
        State::KanjiHi3 => if c == ExclCharSet::Alpha || c == ExclCharSet::KanjiHi1 || c
            == ExclCharSet::KanjiLo1 {
            (State::Kanji, Action::Idle)
        } else {
            (start_state(c), Action::KanjiAndSingleByte)
        },
        State::Kanji => if c == ExclCharSet::KanjiHi1 || c == ExclCharSet::KanjiHi2 || c
            == ExclCharSet::KanjiHi3 {
            (start_state(c), Action::Idle)
        } else {
            (start_state(c), Action::Kanji)
        },
    }
}

fn start_state_of(c: ExclCharSet) -> (r: State)
    ensures
        r == start_state(c),
{
    match c {
        ExclCharSet::End => State::Init,
        ExclCharSet::Symbol | ExclCharSet::Alpha => State::Alpha,
        ExclCharSet::Numeric => State::Numeric,
        ExclCharSet::KanjiHi1 | ExclCharSet::KanjiHi2 => State::KanjiHi12,
        ExclCharSet::KanjiHi3 => State::KanjiHi3,
        ExclCharSet::KanjiLo1 | ExclCharSet::KanjiLo2 | ExclCharSet::Byte => State::Byte,
    }
}

fn transition(s: State, c: ExclCharSet) -> (r: (State, Action))
    ensures
        r == transition_spec(s, c),
{
    let start = start_state_of(c);
    match s {
        State::Init => (start, Action::Idle),
        State::Numeric => if c == ExclCharSet::Numeric {
            (State::Numeric, Action::Idle)
        } else {
            (start, Action::Numeric)
        },
        State::Alpha => if c == ExclCharSet::Symbol || c == ExclCharSet::Alpha {
            (State::Alpha, Action::Idle)
        } else {
            (start, Action::Alpha)
        },
        State::Byte => if c == ExclCharSet::KanjiLo1 || c == ExclCharSet::KanjiLo2 || c
            == ExclCharSet::Byte {
            (State::Byte, Action::Idle)
        } else {
            (start, Action::Byte)
        },
        State::KanjiHi12 => if c == ExclCharSet::End || c == ExclCharSet::Symbol || c
            == ExclCharSet::Numeric || c == ExclCharSet::Byte {
            (start, Action::KanjiAndSingleByte)
        } else {
            (State::Kanji, Action::Idle)
        },
        State::KanjiHi3 => if c == ExclCharSet::Alpha || c == ExclCharSet::KanjiHi1 || c
            == ExclCharSet::KanjiLo1 {
            (State::Kanji, Action::Idle)
        } else {
            (start, Action::KanjiAndSingleByte)
        },
        State::Kanji => if c == ExclCharSet::KanjiHi1 || c == ExclCharSet::KanjiHi2 || c
            == ExclCharSet::KanjiHi3 {
            (start, Action::Idle)
        } else {
            (start, Action::Kanji)
        },
    }
}

/// The segments that the parser still emits, from read position `idx` (the
/// end of input read once `ended`), current state, start of the current run
/// and whether a single byte waits to be emitted.
pub open spec fn parse_rest(
    data: Seq<u8>,
    idx: int,
    ended: bool,
    state: State,
    begin: int,
    pending: bool,
) -> Seq<Segment>
    decreases (if ended || idx > data.len() {
        0
    } else {
        data.len() + 1 - idx
    }), (if pending {
        1int
    } else {
        0
    }),
{
    if pending {
        seq![Segment { mode: Mode::Byte, begin: begin as usize, end: (begin + 1) as usize }]
            + parse_rest(data, idx, ended, state, begin + 1, false)
    } else if ended || idx > data.len() {
        Seq::empty()
    } else {
        let c = if idx < data.len() {
            class_of(data[idx])
        } else {
            ExclCharSet::End
        };
        let (ns, act) = transition_spec(state, c);
        let nidx = if idx < data.len() {
            idx + 1
        } else {
            idx
        };
        let nended = idx == data.len();
        let emitted = |m: Mode|
            seq![Segment { mode: m, begin: begin as usize, end: idx as usize }] + parse_rest(
                data,
                nidx,
                nended,
                ns,
                idx,
                false,
            );
        match act {
            Action::Idle => parse_rest(data, nidx, nended, ns, begin, false),
            Action::Numeric => emitted(Mode::Numeric),
            Action::Alpha => emitted(Mode::Alphanumeric),
            Action::Byte => emitted(Mode::Byte),
            Action::Kanji => emitted(Mode::Kanji),
            Action::KanjiAndSingleByte => if begin == idx - 1 {
                emitted(Mode::Byte)
            } else {
                seq![Segment { mode: Mode::Kanji, begin: begin as usize, end: (idx - 1) as usize }]
                    + parse_rest(data, nidx, nended, ns, idx - 1, true)
            },
        }
    }
}

/// All the segments that the parser emits for `data`.
pub open spec fn parse_spec(data: Seq<u8>) -> Seq<Segment> {
    parse_rest(data, 0, false, State::Init, 0, false)
}

/// Reads the input and classifies each byte, then reports the end once.
struct EcsIter<'a> {
    base: &'a [u8],
    index: usize,
    ended: bool,
}

impl<'a> EcsIter<'a> {
    spec fn wf(&self) -> bool {
        &&& self.index <= self.base@.len()
        &&& self.ended ==> self.index == self.base@.len()
    }

    spec fn measure(&self) -> int {
        if self.ended {
            0
        } else {
            self.base@.len() + 1 - self.index
        }
    }

    fn next(&mut self) -> (r: Option<(usize, ExclCharSet)>)
        requires
            old(self).wf(),
        ensures
            final(self).wf(),
            final(self).base == old(self).base,
            match r {
                None => old(self).ended && *final(self) == *old(self),
                Some((i, c)) => {
                    &&& !old(self).ended
                    &&& i == old(self).index
                    &&& if i < old(self).base@.len() {
                        &&& c == class_of(old(self).base@[i as int])
                        &&& final(self).index == i + 1
                        &&& !final(self).ended
                    } else {
                        &&& c == ExclCharSet::End
                        &&& final(self).index == i
                        &&& final(self).ended
                    }
                },
            },
    {
        if self.ended {
            return None;
        }
        if self.index >= self.base.len() {
            self.ended = true;
            Some((self.index, ExclCharSet::End))
        } else {
            let old_index = self.index;
            let c = self.base[old_index];
            self.index = self.index + 1;
            Some((old_index, ExclCharSet::from_u8(c)))
        }
    }
}

/// Splits the input into maximal runs of the exclusive character sets.
pub struct Parser<'a> {
    ecs_iter: EcsIter<'a>,
    state: State,
    begin: usize,
    pending_single_byte: bool,
}

impl<'a> Parser<'a> {
    /// The input.
    pub closed spec fn data(&self) -> Seq<u8> {
        self.ecs_iter.base@
    }

    /// The segments that this parser has yet to emit.
    pub closed spec fn rest(&self) -> Seq<Segment> {
        parse_rest(
            self.ecs_iter.base@,
            self.ecs_iter.index as int,
            self.ecs_iter.ended,
            self.state,
            self.begin as int,
            self.pending_single_byte,
        )
    }

    pub closed spec fn wf(&self) -> bool {
        let eb = self.begin + if self.pending_single_byte {
            1int
        } else {
            0
        };
        &&& self.ecs_iter.wf()
        &&& self.ecs_iter.ended ==> self.state == State::Init
        &&& eb <= self.ecs_iter.index
        &&& (self.state == State::KanjiHi12 || self.state == State::KanjiHi3) ==> eb
            < self.ecs_iter.index
    }

    /// A parser at the start of `data`.
    pub fn new(data: &'a [u8]) -> (r: Parser<'a>)
        ensures
            r.wf(),
            r.data() == data@,
            r.rest() == parse_spec(data@),
    {
        Parser {
            ecs_iter: EcsIter { base: data, index: 0, ended: false },
            state: State::Init,
            begin: 0,
            pending_single_byte: false,
        }
    }

    /// The next segment, or `None` once the input is used up.
    pub fn next(&mut self) -> (r: Option<Segment>)
        requires
            old(self).wf(),
        ensures
            final(self).wf(),
            final(self).data() == old(self).data(),
            match r {
                None => old(self).rest().len() == 0 && final(self).rest().len() == 0,
                Some(seg) => old(self).rest() == seq![seg] + final(self).rest(),
            },
    {
        if self.pending_single_byte {
            self.pending_single_byte = false;
            self.begin = self.begin + 1;
            return Some(Segment { mode: Mode::Byte, begin: self.begin - 1, end: self.begin });
        }
        loop
            invariant
                self.wf(),
                !self.pending_single_byte,
                self.data() == old(self).data(),
                self.rest() == old(self).rest(),
            decreases self.ecs_iter.measure(),
        {
            let ghost before = *self;
            let (i, ecs) = match self.ecs_iter.next() {
                None => {
                    return None;
                },
                Some(a) => a,
            };
            let (next_state, action) = transition(self.state, ecs);
            self.state = next_state;
            let old_begin = self.begin;
            let push_mode = match action {
                Action::Idle => {
                    assert(self.rest() == before.rest());
                    continue ;
                },
                Action::Numeric => Mode::Numeric,
                Action::Alpha => Mode::Alphanumeric,
                Action::Byte => Mode::Byte,
                Action::Kanji => Mode::Kanji,
                Action::KanjiAndSingleByte => {
                    let next_begin = i - 1;
                    if self.begin == next_begin {
                        Mode::Byte
                    } else {
                        self.pending_single_byte = true;
                        self.begin = next_begin;
                        let seg = Segment { mode: Mode::Kanji, begin: old_begin, end: next_begin };
                        assert(before.rest() == seq![seg] + self.rest());
                        return Some(seg);
                    }
                },
            };
            self.begin = i;
            let seg = Segment { mode: push_mode, begin: old_begin, end: i };
            assert(before.rest() == seq![seg] + self.rest());
            return Some(seg);
        }
    }

    /// The optimizer over the segments that this parser has yet to emit.
    pub fn optimize(self, version: Version) -> (r: Optimizer)
        requires
            self.wf(),
            version.valid(),
            self.data().len() <= usize::MAX / 32,
            self.rest() == parse_spec(self.data()) || chained(self.rest()),
        ensures
            r.wf(),
            r.remaining() == optimize_spec(self.rest(), version),
    {
        proof {
            if self.rest() == parse_spec(self.data()) {
                lemma_parse_covers(self.data());
                lemma_covers_chained(self.rest(), 0, self.data().len() as int);
            }
        }
        let segments = self.collect_segments();
        Optimizer::new(segments, version)
    }

    /// All the segments that this parser has yet to emit, in order.
    pub fn collect_segments(self) -> (r: Vec<Segment>)
        requires
            self.wf(),
        ensures
            r@ == self.rest(),
    {
        let ghost all = self.rest();
        let mut parser = self;
        let mut out: Vec<Segment> = Vec::new();
        loop
            invariant
                parser.wf(),
                all == self.rest(),
                all == out@ + parser.rest(),
            decreases parser.rest().len(),
        {
            let ghost before = parser.rest();
            match parser.next() {
                None => {
                    assert(out@ + before =~= out@);
                    return out;
                },
                Some(seg) => {
                    let ghost prev = out@;
                    out.push(seg);
                    assert(prev + (seq![seg] + parser.rest()) =~= out@ + parser.rest());
                },
            }
        }
    }
}

/// What the bytes `data[eb..idx]` of the current run hold in each state.
spec fn run_ok(data: Seq<u8>, state: State, eb: int, idx: int) -> bool {
    match state {
        State::Init => eb == idx,
        State::Numeric => eb < idx && forall|k: int| eb <= k < idx ==> is_digit(#[trigger] data[k]),
        State::Alpha => eb < idx && forall|k: int| eb <= k < idx ==> is_alnum(#[trigger] data[k]),
        State::Byte => eb < idx,
        State::KanjiHi12 => eb < idx && kanji_pairs(data, eb, idx - 1) && (0x81 <= data[idx - 1]
            <= 0x9f || 0xe0 <= data[idx - 1] <= 0xea),
        State::KanjiHi3 => eb < idx && kanji_pairs(data, eb, idx - 1) && data[idx - 1] == 0xeb,
        State::Kanji => eb < idx && kanji_pairs(data, eb, idx),
    }
}

proof fn lemma_cons(data: Seq<u8>, seg: Segment, rest: Seq<Segment>, end: int)
    requires
        seg.begin < seg.end,
        seg_valid(data, seg),
        covers(rest, seg.end as int, end),
        all_valid(data, rest),
    ensures
        covers(seq![seg] + rest, seg.begin as int, end),
        all_valid(data, seq![seg] + rest),
{
    assert((seq![seg] + rest).drop_first() =~= rest);
    assert forall|i: int| 0 <= i < (seq![seg] + rest).len() implies seg_valid(
        data,
        #[trigger] (seq![seg] + rest)[i],
    ) by {
        if i > 0 {
            assert((seq![seg] + rest)[i] == rest[i - 1]);
        }
    }
}

/// A run of one character is in the state that the character starts.
proof fn lemma_start_ok(data: Seq<u8>, idx: int)
    requires
        0 <= idx < data.len(),
    ensures
        run_ok(data, start_state(class_of(data[idx])), idx, idx + 1),
        start_state(class_of(data[idx])) != State::Init,
{
    assert(kanji_pairs(data, idx, idx));
}

/// A Kanji pair appended to a run of Kanji pairs.
proof fn lemma_pairs_extend(data: Seq<u8>, b: int, e: int)
    requires
        b <= e,
        e + 1 < data.len(),
        0 <= b,
        kanji_pairs(data, b, e),
        is_kanji_pair(data[e], data[e + 1]),
    ensures
        kanji_pairs(data, b, e + 2),
{
    assert forall|k: int| 0 <= k < (e + 2 - b) / 2 implies #[trigger] is_kanji_pair(
        data[b + 2 * k],
        data[b + 2 * k + 1],
    ) by {
        if k == (e - b) / 2 {
            assert(b + 2 * k == e);
        }
    }
}

/// The segments that the parser emits from a consistent state follow each
/// other up to the end of the input, and each holds only bytes of its mode.
proof fn lemma_parse_rest(
    data: Seq<u8>,
    idx: int,
    ended: bool,
    state: State,
    begin: int,
    pending: bool,
)
    requires
        0 <= begin,
        idx <= data.len() <= usize::MAX,
        ended ==> idx == data.len() && state == State::Init,
        begin + (if pending {
            1int
        } else {
            0
        }) <= idx,
        run_ok(
            data,
            state,
            begin + if pending {
                1int
            } else {
                0
            },
            idx,
        ),
    ensures
        covers(parse_rest(data, idx, ended, state, begin, pending), begin, data.len() as int),
        all_valid(data, parse_rest(data, idx, ended, state, begin, pending)),
    decreases (if ended || idx > data.len() {
        0
    } else {
        data.len() + 1 - idx
    }), (if pending {
        1int
    } else {
        0
    }),
{
    let out = parse_rest(data, idx, ended, state, begin, pending);
    if pending {
        lemma_parse_rest(data, idx, ended, state, begin + 1, false);
        let seg = Segment { mode: Mode::Byte, begin: begin as usize, end: (begin + 1) as usize };
        lemma_cons(data, seg, parse_rest(data, idx, ended, state, begin + 1, false), data.len() as int);
    } else if ended {
    } else {
        let c = if idx < data.len() {
            class_of(data[idx])
        } else {
            ExclCharSet::End
        };
        let (ns, act) = transition_spec(state, c);
        let nidx = if idx < data.len() {
            idx + 1
        } else {
            idx
        };
        let nended = idx == data.len();
        if idx < data.len() {
            lemma_start_ok(data, idx);
        }
        if act == Action::Idle {
            if idx < data.len() {
                let b = data[idx];
                if state == State::KanjiHi12 || state == State::KanjiHi3 {
                    lemma_pairs_extend(data, begin, idx - 1);
                }
                assert(run_ok(data, ns, begin, idx + 1));
            }
            lemma_parse_rest(data, nidx, nended, ns, begin, false);
        } else if act == Action::KanjiAndSingleByte && begin != idx - 1 {
            lemma_parse_rest(data, nidx, nended, ns, idx - 1, true);
            let seg = Segment { mode: Mode::Kanji, begin: begin as usize, end: (idx - 1) as usize };
            lemma_cons(data, seg, parse_rest(data, nidx, nended, ns, idx - 1, true), data.len() as int);
        } else {
            lemma_parse_rest(data, nidx, nended, ns, idx, false);
            let m = match act {
                Action::Numeric => Mode::Numeric,
                Action::Alpha => Mode::Alphanumeric,
                Action::Kanji => Mode::Kanji,
                _ => Mode::Byte,
            };
            let seg = Segment { mode: m, begin: begin as usize, end: idx as usize };
            lemma_cons(data, seg, parse_rest(data, nidx, nended, ns, idx, false), data.len() as int);
        }
    }
}

/// The parser's segments follow each other from the start to the end of the
/// input, and each holds only bytes that its mode can encode.
pub proof fn lemma_parse_covers(data: Seq<u8>)
    requires
        data.len() <= usize::MAX,
    ensures
        covers(parse_spec(data), 0, data.len() as int),
        all_valid(data, parse_spec(data)),
{
    lemma_parse_rest(data, 0, false, State::Init, 0, false);
}

/// The segment that covers `last` and `next` in a mode that holds both.
pub open spec fn merged(last: Segment, next: Segment) -> Segment {
    Segment { mode: mode_max(last.mode, next.mode), begin: last.begin, end: next.end }
}

/// Whether merging `last` and `next` costs no more bits than keeping them apart.
pub open spec fn merge_pays(last: Segment, next: Segment, version: Version) -> bool {
    encoded_len_spec(merged(last, next), version) <= encoded_len_spec(last, version)
        + encoded_len_spec(next, version)
}

/// The optimizer's output from a pending segment `last` and the input `rest`
/// that follows it.
pub open spec fn opt_from(last: Segment, rest: Seq<Segment>, version: Version) -> Seq<Segment>
    decreases rest.len(),
{
    if rest.len() == 0 {
        seq![last]
    } else if merge_pays(last, rest[0], version) {
        opt_from(merged(last, rest[0]), rest.drop_first(), version)
    } else {
        seq![last] + opt_from(rest[0], rest.drop_first(), version)
    }
}

/// The optimizer's output for the input segments `segs`.
pub open spec fn optimize_spec(segs: Seq<Segment>, version: Version) -> Seq<Segment> {
    if segs.len() == 0 {
        Seq::empty()
    } else {
        opt_from(segs[0], segs.drop_first(), version)
    }
}

/// Segments that follow each other without gap, each ordered and small enough
/// to be costed together with any that follow it.
pub open spec fn chained(segs: Seq<Segment>) -> bool {
    &&& forall|i: int|
        0 <= i < segs.len() ==> #[trigger] segs[i].begin <= segs[i].end <= usize::MAX / 32
    &&& forall|i: int| 0 <= i < segs.len() - 1 ==> #[trigger] segs[i].end == segs[i + 1].begin
}

/// Merges neighbouring segments where one segment takes no more bits than two.
pub struct Optimizer {
    parser: Vec<Segment>,
    pos: usize,
    last_segment: Segment,
    last_segment_size: usize,
    version: Version,
    ended: bool,
}

impl Optimizer {
    /// The segments that this optimizer has yet to emit.
    pub closed spec fn remaining(&self) -> Seq<Segment> {
        if self.ended {
            Seq::empty()
        } else {
            opt_from(
                self.last_segment,
                self.parser@.subrange(self.pos as int, self.parser@.len() as int),
                self.version,
            )
        }
    }

    pub closed spec fn wf(&self) -> bool {
        &&& self.version.valid()
        &&& chained(self.parser@)
        &&& self.pos <= self.parser@.len()
        &&& !self.ended ==> {
            &&& 1 <= self.pos
            &&& self.last_segment.begin <= self.last_segment.end
            &&& self.last_segment.end == self.parser@[self.pos - 1].end
            &&& self.last_segment_size == encoded_len_spec(self.last_segment, self.version)
        }
    }

    /// An optimizer over `segments` at `version`.
    pub fn new(segments: Vec<Segment>, version: Version) -> (r: Self)
        requires
            version.valid(),
            chained(segments@),
        ensures
            r.wf(),
            r.remaining() == optimize_spec(segments@, version),
    {
        if segments.len() == 0 {
            let r = Optimizer {
                parser: segments,
                pos: 0,
                last_segment: Segment { mode: Mode::Numeric, begin: 0, end: 0 },
                last_segment_size: 0,
                version,
                ended: true,
            };
            r
        } else {
            let segment = segments[0];
            let size = segment.encoded_len(version);
            let r = Optimizer {
                parser: segments,
                pos: 1,
                last_segment: segment,
                last_segment_size: size,
                version,
                ended: false,
            };
            assert(r.parser@.subrange(1, r.parser@.len() as int) =~= r.parser@.drop_first());
            r
        }
    }

    /// The next optimized segment, or `None` at the end.
    pub fn next(&mut self) -> (r: Option<Segment>)
        requires
            old(self).wf(),
        ensures
            final(self).wf(),
            match r {
                None => old(self).remaining().len() == 0 && final(self).remaining().len() == 0,
                Some(seg) => old(self).remaining() == seq![seg] + final(self).remaining(),
            },
    {
        if self.ended {
            return None;
        }
        loop
            invariant
                self.wf(),
                !self.ended,
                self.remaining() == old(self).remaining(),
            decreases self.parser@.len() - self.pos,
        {
            let ghost rest = self.parser@.subrange(self.pos as int, self.parser@.len() as int);
            if self.pos >= self.parser.len() {
                self.ended = true;
                return Some(self.last_segment);
            }
            let segment = self.parser[self.pos];
            assert(rest[0] == segment);
            assert(rest.drop_first() =~= self.parser@.subrange(
                self.pos + 1,
                self.parser@.len() as int,
            ));
            let seg_size = segment.encoded_len(self.version);
            let new_segment = Segment {
                mode: self.last_segment.mode.max(segment.mode),
                begin: self.last_segment.begin,
                end: segment.end,
            };
            let new_size = new_segment.encoded_len(self.version);
            self.pos = self.pos + 1;
            if self.last_segment_size + seg_size >= new_size {
                self.last_segment = new_segment;
                self.last_segment_size = new_size;
            } else {
                let old_segment = self.last_segment;
                self.last_segment = segment;
                self.last_segment_size = seg_size;
                return Some(old_segment);
            }
        }
    }

    /// All the segments that this optimizer has yet to emit, in order.
    pub fn collect_segments(self) -> (r: Vec<Segment>)
        requires
            self.wf(),
        ensures
            r@ == self.remaining(),
    {
        let ghost all = self.remaining();
        let mut opt = self;
        let mut out: Vec<Segment> = Vec::new();
        loop
            invariant
                opt.wf(),
                all == self.remaining(),
                all == out@ + opt.remaining(),
            decreases opt.remaining().len(),
        {
            let ghost before = opt.remaining();
            match opt.next() {
                None => {
                    assert(out@ + before =~= out@);
                    return out;
                },
                Some(seg) => {
                    let ghost prev = out@;
                    out.push(seg);
                    assert(prev + (seq![seg] + opt.remaining()) =~= out@ + opt.remaining());
                },
            }
        }
    }
}

/// A cover of a range that ends in reach of the costing is chained.
pub proof fn lemma_covers_chained(segs: Seq<Segment>, b: int, e: int)
    requires
        covers(segs, b, e),
        0 <= b,
        e <= usize::MAX / 32,
    ensures
        chained(segs),
        forall|i: int| 0 <= i < segs.len() ==> b <= (#[trigger] segs[i]).begin,
        segs.len() > 0 ==> segs.last().end == e,
    decreases segs.len(),
{
    if segs.len() > 0 {
        let tail = segs.drop_first();
        lemma_covers_chained(tail, segs[0].end as int, e);
        assert forall|i: int| 0 <= i < segs.len() implies #[trigger] segs[i].begin <= segs[i].end
            <= usize::MAX / 32 && b <= segs[i].begin by {
            if i > 0 {
                assert(segs[i] == tail[i - 1]);
            }
            lemma_covers_end(segs, b, e, i);
        }
        assert(covers(tail, segs[0].end as int, e));
        assert forall|i: int| 0 <= i < segs.len() - 1 implies #[trigger] segs[i].end == segs[i
            + 1].begin by {
            assert(segs[i + 1] == tail[i]);
            if i > 0 {
                assert(segs[i] == tail[i - 1]);
                assert(tail[i - 1].end == tail[i].begin);
            }
        }
    }
}

/// Every segment of a cover ends within it.
pub proof fn lemma_covers_end(segs: Seq<Segment>, b: int, e: int, i: int)
    requires
        covers(segs, b, e),
        0 <= i < segs.len(),
    ensures
        segs[i].end <= e,
        b <= segs[i].begin < segs[i].end,
    decreases segs.len(),
{
    let tail = segs.drop_first();
    assert(covers(tail, segs[0].end as int, e));
    if segs.len() > 1 {
        if i == 0 {
            lemma_covers_end(tail, segs[0].end as int, e, 0);
        } else {
            assert(tail[i - 1] == segs[i]);
            lemma_covers_end(tail, segs[0].end as int, e, i - 1);
        }
    }
}

/// Two valid neighbouring segments merge into a valid one.
proof fn lemma_merge_valid(data: Seq<u8>, a: Segment, b: Segment)
    requires
        a.end == b.begin,
        seg_valid(data, a),
        seg_valid(data, b),
    ensures
        seg_valid(data, merged(a, b)),
{
    let m = merged(a, b);
    if m.mode == Mode::Kanji {
        assert(a.mode == Mode::Kanji && b.mode == Mode::Kanji);
        assert forall|k: int| 0 <= k < (m.end - m.begin) / 2 implies #[trigger] is_kanji_pair(
            data[m.begin + 2 * k],
            data[m.begin + 2 * k + 1],
        ) by {
            if k >= (a.end - a.begin) / 2 {
                let k2 = k - (a.end - a.begin) / 2;
                assert(m.begin + 2 * k == b.begin + 2 * k2);
                assert(is_kanji_pair(data[b.begin + 2 * k2], data[b.begin + 2 * k2 + 1]));
            } else {
                assert(is_kanji_pair(data[a.begin + 2 * k], data[a.begin + 2 * k + 1]));
            }
        }
    } else if m.mode == Mode::Numeric {
        assert(a.mode == Mode::Numeric && b.mode == Mode::Numeric);
        assert forall|k: int| m.begin <= k < m.end implies is_digit(#[trigger] data[k]) by {
            if k >= a.end {
                assert(is_digit(data[k]));
            }
        }
    } else if m.mode == Mode::Alphanumeric {
        assert forall|k: int| m.begin <= k < m.end implies is_alnum(#[trigger] data[k]) by {
            if k >= a.end {
                assert(is_alnum(data[k]) || is_digit(data[k]));
            } else {
                assert(is_alnum(data[k]) || is_digit(data[k]));
            }
        }
    }
}

proof fn lemma_opt_from_covers(data: Seq<u8>, last: Segment, rest: Seq<Segment>, version: Version, e: int)
    requires
        last.begin < last.end,
        seg_valid(data, last),
        covers(rest, last.end as int, e),
        all_valid(data, rest),
    ensures
        covers(opt_from(last, rest, version), last.begin as int, e),
        all_valid(data, opt_from(last, rest, version)),
    decreases rest.len(),
{
    if rest.len() == 0 {
        lemma_cons(data, last, Seq::empty(), e);
        assert(seq![last] + Seq::<Segment>::empty() =~= seq![last]);
    } else {
        let tail = rest.drop_first();
        assert forall|i: int| 0 <= i < tail.len() implies seg_valid(data, #[trigger] tail[i]) by {
            assert(tail[i] == rest[i + 1]);
        }
        assert(seg_valid(data, rest[0]));
        if merge_pays(last, rest[0], version) {
            lemma_merge_valid(data, last, rest[0]);
            lemma_opt_from_covers(data, merged(last, rest[0]), tail, version, e);
        } else {
            lemma_opt_from_covers(data, rest[0], tail, version, e);
            lemma_cons(data, last, opt_from(rest[0], tail, version), e);
        }
    }
}

/// Ranges that follow each other from `b` to `e` put back `data[b..e]`.
proof fn lemma_concat_covers(data: Seq<u8>, segs: Seq<Segment>, b: int, e: int)
    requires
        covers(segs, b, e),
        0 <= b,
        e <= data.len(),
    ensures
        concat_ranges(data, segs) == data.subrange(b, e),
    decreases segs.len(),
{
    if segs.len() == 0 {
        assert(data.subrange(b, e) =~= Seq::<u8>::empty());
    } else {
        lemma_covers_end(segs, b, e, 0);
        lemma_concat_covers(data, segs.drop_first(), segs[0].end as int, e);
        assert(data.subrange(b, segs[0].end as int) + data.subrange(segs[0].end as int, e)
            =~= data.subrange(b, e));
    }
}

/// The optimized segments of any input, at any version, taken one after the
/// other, give back the input exactly; each holds only bytes of its mode.
pub proof fn lemma_optimized_segments_cover(data: Seq<u8>, version: Version)
    requires
        data.len() <= usize::MAX,
    ensures
        covers(optimize_spec(parse_spec(data), version), 0, data.len() as int),
        concat_ranges(data, optimize_spec(parse_spec(data), version)) == data,
        all_valid(data, optimize_spec(parse_spec(data), version)),
{
    let segs = parse_spec(data);
    lemma_parse_covers(data);
    if segs.len() > 0 {
        lemma_covers_end(segs, 0, data.len() as int, 0);
        assert(covers(segs.drop_first(), segs[0].end as int, data.len() as int));
        assert forall|i: int| 0 <= i < segs.drop_first().len() implies seg_valid(
            data,
            #[trigger] segs.drop_first()[i],
        ) by {
            assert(segs.drop_first()[i] == segs[i + 1]);
        }
        lemma_opt_from_covers(data, segs[0], segs.drop_first(), version, data.len() as int);
    }
    lemma_concat_covers(data, optimize_spec(segs, version), 0, data.len() as int);
    assert(data.subrange(0, data.len() as int) =~= data);
}

/// There is an input segment that starts where `seg` ends, and merging `seg`
/// with it would cost more bits.
pub open spec fn split_pays(segs: Seq<Segment>, seg: Segment, version: Version) -> bool {
    exists|j: int|
        0 <= j < segs.len() && (#[trigger] segs[j]).begin == seg.end && !merge_pays(
            seg,
            segs[j],
            version,
        )
}

/// Where the optimizer ends a segment before the end of the input, merging it
/// with the input segment that starts there would have cost more bits.
pub proof fn lemma_optimizer_splits_pay(segs: Seq<Segment>, version: Version)
    requires
        chained(segs),
    ensures
        forall|i: int|
            0 <= i < optimize_spec(segs, version).len() - 1 ==> split_pays(
                segs,
                #[trigger] optimize_spec(segs, version)[i],
                version,
            ),
{
    if segs.len() > 0 {
        assert(segs.subrange(1, segs.len() as int) =~= segs.drop_first());
        lemma_opt_from_splits(segs[0], segs, 1, version);
    }
}

proof fn lemma_opt_from_splits(last: Segment, segs: Seq<Segment>, k: int, version: Version)
    requires
        chained(segs),
        1 <= k <= segs.len(),
        last.end == segs[k - 1].end,
    ensures
        ({
            let out = opt_from(last, segs.subrange(k, segs.len() as int), version);
            forall|i: int| 0 <= i < out.len() - 1 ==> split_pays(segs, #[trigger] out[i], version)
        }),
    decreases segs.len() - k,
{
    let rest = segs.subrange(k, segs.len() as int);
    let out = opt_from(last, rest, version);
    if rest.len() > 0 {
        assert(rest[0] == segs[k]);
        assert(rest.drop_first() =~= segs.subrange(k + 1, segs.len() as int));
        if merge_pays(last, rest[0], version) {
            lemma_opt_from_splits(merged(last, rest[0]), segs, k + 1, version);
            assert(out == opt_from(
                merged(last, rest[0]),
                segs.subrange(k + 1, segs.len() as int),
                version,
            ));
        } else {
            lemma_opt_from_splits(rest[0], segs, k + 1, version);
            let tail = opt_from(rest[0], rest.drop_first(), version);
            assert(out == seq![last] + tail);
            assert forall|i: int| 0 <= i < out.len() - 1 implies split_pays(
                segs,
                #[trigger] out[i],
                version,
            ) by {
                if i == 0 {
                    assert(out[0] == last);
                    assert(segs[k].begin == out[0].end);
                    assert(!merge_pays(out[0], segs[k], version));
                } else {
                    assert(out[i] == tail[i - 1]);
                }
            }
        }
    }
}

} // verus!
