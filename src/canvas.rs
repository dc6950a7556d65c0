//! The module matrix of a symbol: function patterns, the data path, masking
//! and the penalty scores that choose the mask.
use vstd::prelude::*;
use crate::types::{Color, EcLevel, Version, invert};
use core::ops::Not;

verus! {

/// The eight mask patterns, by the predicate on `(x, y)` under which a data
/// module is inverted.
#[derive(Debug, Copy, Clone, PartialEq, Eq, Structural)]
pub enum MaskPattern {
    /// QR code pattern 000: `(x + y) % 2 == 0`.
    Checkerboard,
    /// QR code pattern 001: `y % 2 == 0`.
    HorizontalLines,
    /// QR code pattern 010: `x % 3 == 0`.
    VerticalLines,
    /// QR code pattern 011: `(x + y) % 3 == 0`.
    DiagonalLines,
    /// QR code pattern 100: `((x/3) + (y/2)) % 2 == 0`.
    LargeCheckerboard,
    /// QR code pattern 101: `(x*y)%2 + (x*y)%3 == 0`.
    Fields,
    /// QR code pattern 110: `((x*y)%2 + (x*y)%3) % 2 == 0`.
    Diamonds,
    /// QR code pattern 111: `((x+y)%2 + (x*y)%3) % 2 == 0`.
    Meadow,
}

/// The mask patterns in the order of their numbers.
pub const ALL_PATTERNS_QR: [MaskPattern; 8] = [
    MaskPattern::Checkerboard,
    MaskPattern::HorizontalLines,
    MaskPattern::VerticalLines,
    MaskPattern::DiagonalLines,
    MaskPattern::LargeCheckerboard,
    MaskPattern::Fields,
    MaskPattern::Diamonds,
    MaskPattern::Meadow,
];

impl MaskPattern {
    /// The three-bit number of the pattern.
    pub open spec fn number(self) -> int {
        match self {
            MaskPattern::Checkerboard => 0,
            MaskPattern::HorizontalLines => 1,
            MaskPattern::VerticalLines => 2,
            MaskPattern::DiagonalLines => 3,
            MaskPattern::LargeCheckerboard => 4,
            MaskPattern::Fields => 5,
            MaskPattern::Diamonds => 6,
            MaskPattern::Meadow => 7,
        }
    }

    fn index(self) -> (r: usize)
        ensures
            r == self.number(),
    {
        match self {
            MaskPattern::Checkerboard => 0,
            MaskPattern::HorizontalLines => 1,
            MaskPattern::VerticalLines => 2,
            MaskPattern::DiagonalLines => 3,
            MaskPattern::LargeCheckerboard => 4,
            MaskPattern::Fields => 5,
            MaskPattern::Diamonds => 6,
            MaskPattern::Meadow => 7,
        }
    }
}

/// Whether `pattern` inverts the module at `(x, y)`.
pub open spec fn mask_holds(pattern: MaskPattern, x: int, y: int) -> bool {
    match pattern {
        MaskPattern::Checkerboard => (x + y) % 2 == 0,
        MaskPattern::HorizontalLines => y % 2 == 0,
        MaskPattern::VerticalLines => x % 3 == 0,
        MaskPattern::DiagonalLines => (x + y) % 3 == 0,
        MaskPattern::LargeCheckerboard => (y / 2 + x / 3) % 2 == 0,
        MaskPattern::Fields => (x * y) % 2 + (x * y) % 3 == 0,
        MaskPattern::Diamonds => ((x * y) % 2 + (x * y) % 3) % 2 == 0,
        MaskPattern::Meadow => ((x + y) % 2 + (x * y) % 3) % 2 == 0,
    }
}

/// Mask predicate 000: `(x + y) mod 2 = 0`.
pub fn checkerboard(x: i16, y: i16) -> (r: bool)
    requires
        0 <= x,
        0 <= y,
        x + y <= i16::MAX,
    ensures
        r == mask_holds(MaskPattern::Checkerboard, x as int, y as int),
{
    (x + y) % 2 == 0
}

/// Mask predicate 001: `y mod 2 = 0`.
pub fn horizontal_lines(_x: i16, y: i16) -> (r: bool)
    requires
        0 <= y,
    ensures
        r == mask_holds(MaskPattern::HorizontalLines, _x as int, y as int),
{
    y % 2 == 0
}

/// Mask predicate 010: `x mod 3 = 0`.
pub fn vertical_lines(x: i16, _y: i16) -> (r: bool)
    requires
        0 <= x,
    ensures
        r == mask_holds(MaskPattern::VerticalLines, x as int, _y as int),
{
    x % 3 == 0
}

/// Mask predicate 011: `(x + y) mod 3 = 0`.
pub fn diagonal_lines(x: i16, y: i16) -> (r: bool)
    requires
        0 <= x,
        0 <= y,
        x + y <= i16::MAX,
    ensures
        r == mask_holds(MaskPattern::DiagonalLines, x as int, y as int),
{
    (x + y) % 3 == 0
}

/// Mask predicate 100: `(⌊y/2⌋ + ⌊x/3⌋) mod 2 = 0`.
pub fn large_checkerboard(x: i16, y: i16) -> (r: bool)
    requires
        0 <= x,
        0 <= y,
    ensures
        r == mask_holds(MaskPattern::LargeCheckerboard, x as int, y as int),
{
    ((y / 2) + (x / 3)) % 2 == 0
}

/// Mask predicate 101: `(xy mod 2) + (xy mod 3) = 0`.
pub fn fields(x: i16, y: i16) -> (r: bool)
    requires
        0 <= x,
        0 <= y,
        x * y <= i16::MAX,
    ensures
        r == mask_holds(MaskPattern::Fields, x as int, y as int),
{
    (x * y) % 2 + (x * y) % 3 == 0
}

/// Mask predicate 110: `((xy mod 2) + (xy mod 3)) mod 2 = 0`.
pub fn diamonds(x: i16, y: i16) -> (r: bool)
    requires
        0 <= x,
        0 <= y,
        x * y <= i16::MAX,
    ensures
        r == mask_holds(MaskPattern::Diamonds, x as int, y as int),
{
    ((x * y) % 2 + (x * y) % 3) % 2 == 0
}

/// Mask predicate 111: `((x + y) mod 2 + (xy mod 3)) mod 2 = 0`.
pub fn meadow(x: i16, y: i16) -> (r: bool)
    requires
        0 <= x,
        0 <= y,
        x + y <= i16::MAX,
        x * y <= i16::MAX,
    ensures
        r == mask_holds(MaskPattern::Meadow, x as int, y as int),
{
    ((x + y) % 2 + (x * y) % 3) % 2 == 0
}

/// Whether `pattern` inverts the module at `(x, y)`.
fn mask_applies(pattern: MaskPattern, x: i16, y: i16) -> (r: bool)
    requires
        0 <= x <= 177,
        0 <= y <= 177,
    ensures
        r == mask_holds(pattern, x as int, y as int),
{
    assert(x * y <= 177 * 177) by (nonlinear_arith)
        requires
            0 <= x <= 177,
            0 <= y <= 177,
    ;
    match pattern {
        MaskPattern::Checkerboard => checkerboard(x, y),
        MaskPattern::HorizontalLines => horizontal_lines(x, y),
        MaskPattern::VerticalLines => vertical_lines(x, y),
        MaskPattern::DiagonalLines => diagonal_lines(x, y),
        MaskPattern::LargeCheckerboard => large_checkerboard(x, y),
        MaskPattern::Fields => fields(x, y),
        MaskPattern::Diamonds => diamonds(x, y),
        MaskPattern::Meadow => meadow(x, y),
    }
}

/// A module of the symbol.
#[derive(PartialEq, Eq, Clone, Copy, Debug, Structural)]
pub enum Module {
    /// The module is empty.
    Empty,
    /// The module is of functional patterns which cannot be masked, or pixels
    /// which have been masked.
    Masked(Color),
    /// The module is of data and error correction bits before masking.
    Unmasked(Color),
}

/// The colour that a module shows: an empty module is light.
pub open spec fn module_color(m: Module) -> Color {
    match m {
        Module::Empty => Color::Light,
        Module::Masked(c) | Module::Unmasked(c) => c,
    }
}

/// A module after masking, inverted where `invert_it` holds: data modules
/// change colour, function modules keep theirs, and all become `Masked`.
pub open spec fn mask_module(m: Module, invert_it: bool) -> Module {
    match m {
        Module::Empty => Module::Masked(
            if invert_it {
                Color::Dark
            } else {
                Color::Light
            },
        ),
        Module::Unmasked(c) => Module::Masked(
            if invert_it {
                invert(c)
            } else {
                c
            },
        ),
        Module::Masked(c) => Module::Masked(c),
    }
}

impl From<Module> for Color {
    fn from(module: Module) -> (r: Color)
        ensures
            r == module_color(module),
    {
        match module {
            Module::Empty => Color::Light,
            Module::Masked(c) | Module::Unmasked(c) => c,
        }
    }
}

impl vstd::std_specs::convert::FromSpecImpl<Module> for Color {
    open spec fn obeys_from_spec() -> bool {
        true
    }

    open spec fn from_spec(module: Module) -> Color {
        module_color(module)
    }
}

impl Module {
    /// Whether the module shows dark.
    pub fn is_dark(self) -> (r: bool)
        ensures
            r == (module_color(self) == Color::Dark),
    {
        Color::from(self) == Color::Dark
    }

    /// The module after masking, inverted where `should_invert` holds.
    pub fn mask(self, should_invert: bool) -> (r: Self)
        ensures
            r == mask_module(self, should_invert),
    {
        match (self, should_invert) {
            (Module::Empty, true) => Module::Masked(Color::Dark),
            (Module::Empty, false) => Module::Masked(Color::Light),
            (Module::Unmasked(c), true) => Module::Masked(c.not()),
            (Module::Unmasked(c), false) | (Module::Masked(c), _) => Module::Masked(c),
        }
    }
}

/// Format information for each error correction level and mask pattern.
pub const FORMAT_INFOS_QR: [u16; 32] = [
    0x5412, 0x5125, 0x5e7c, 0x5b4b, 0x45f9, 0x40ce, 0x4f97, 0x4aa0, 0x77c4, 0x72f3, 0x7daa, 0x789d,
    0x662f, 0x6318, 0x6c41, 0x6976, 0x1689, 0x13be, 0x1ce7, 0x19d0, 0x0762, 0x0255, 0x0d0c, 0x083b,
    0x355f, 0x3068, 0x3f31, 0x3a06, 0x24b4, 0x2183, 0x2eda, 0x2bed,
];

/// Where the format information goes beside the top-left finder pattern.
pub const FORMAT_INFO_COORDS_QR_MAIN: [(i16, i16); 15] = [
    (0, 8),
    (1, 8),
    (2, 8),
    (3, 8),
    (4, 8),
    (5, 8),
    (7, 8),
    (8, 8),
    (8, 7),
    (8, 5),
    (8, 4),
    (8, 3),
    (8, 2),
    (8, 1),
    (8, 0),
];

/// Where the second copy of the format information goes, beside the other
/// two finder patterns.
pub const FORMAT_INFO_COORDS_QR_SIDE: [(i16, i16); 15] = [
    (8, -1),
    (8, -2),
    (8, -3),
    (8, -4),
    (8, -5),
    (8, -6),
    (8, -7),
    (-8, 8),
    (-7, 8),
    (-6, 8),
    (-5, 8),
    (-4, 8),
    (-3, 8),
    (-2, 8),
    (-1, 8),
];

/// Index in a row-major `w` by `w` grid of `(x, y)`, where a negative
/// coordinate counts from the far edge.
pub open spec fn cell(w: int, x: int, y: int) -> int {
    (if y < 0 {
        y + w
    } else {
        y
    }) * w + (if x < 0 {
        x + w
    } else {
        x
    })
}

/// `(x, y)` names a module of a `w` by `w` grid.
pub open spec fn coord_in(w: int, x: int, y: int) -> bool {
    -w <= x < w && -w <= y < w
}

pub proof fn lemma_cell_in(w: int, x: int, y: int)
    requires
        coord_in(w, x, y),
    ensures
        0 <= cell(w, x, y) < w * w,
{
    let xx = if x < 0 {
        x + w
    } else {
        x
    };
    let yy = if y < 0 {
        y + w
    } else {
        y
    };
    assert(0 <= yy * w + xx < w * w) by (nonlinear_arith)
        requires
            0 <= xx < w,
            0 <= yy < w,
    ;
}

/// Bit `i` of `number`, counting from the least significant.
pub open spec fn bit_of(number: int, i: int) -> bool {
    (number / vstd::arithmetic::power2::pow2(i as nat) as int) % 2 == 1
}

/// `m` after writing the bits of `number`, most significant of `nbits` first,
/// at `coords`: `on` for a set bit, `off` for a clear one.
pub open spec fn put_bits(
    m: Seq<Module>,
    w: int,
    coords: Seq<(i16, i16)>,
    number: int,
    nbits: int,
    on: Color,
    off: Color,
) -> Seq<Module>
    decreases coords.len(),
{
    if coords.len() == 0 {
        m
    } else {
        let k = coords.len() - 1;
        put_bits(m, w, coords.drop_last(), number, nbits, on, off).update(
            cell(w, coords[k].0 as int, coords[k].1 as int),
            Module::Masked(
                if bit_of(number, nbits - 1 - k) {
                    on
                } else {
                    off
                },
            ),
        )
    }
}

/// The format information `f` drawn in both places, with the dark module.
pub open spec fn format_drawn(m: Seq<Module>, w: int, f: int) -> Seq<Module> {
    put_bits(
        put_bits(m, w, FORMAT_INFO_COORDS_QR_MAIN@, f, 15, Color::Dark, Color::Light),
        w,
        FORMAT_INFO_COORDS_QR_SIDE@,
        f,
        15,
        Color::Dark,
        Color::Light,
    ).update(cell(w, 8, -8), Module::Masked(Color::Dark))
}

/// The row of the format information table for `ec_level` and `pattern`.
pub open spec fn format_index(ec_level: EcLevel, pattern: MaskPattern) -> int {
    (match ec_level {
        EcLevel::L => 1int,
        EcLevel::M => 0,
        EcLevel::Q => 3,
        EcLevel::H => 2,
    }) * 8 + pattern.number()
}

/// Every module masked by `pattern` at its coordinates in a `w` wide grid.
pub open spec fn masked_modules(m: Seq<Module>, w: int, pattern: MaskPattern) -> Seq<Module> {
    Seq::new(m.len(), |i: int| mask_module(m[i], mask_holds(pattern, i % w, i / w)))
}

/// The modules after `apply_mask`: masked, then the format information drawn.
pub open spec fn apply_mask_spec(m: Seq<Module>, w: int, ec_level: EcLevel, pattern: MaskPattern) -> Seq<Module> {
    format_drawn(masked_modules(m, w, pattern), w, FORMAT_INFOS_QR@[format_index(ec_level, pattern)] as int)
}

/// The module matrix of a symbol.
#[derive(Clone)]
pub struct Canvas {
    /// The width and height of the canvas (cached as it is needed frequently).
    width: i16,
    /// The version of the QR code.
    version: Version,
    /// The error correction level of the QR code.
    ec_level: EcLevel,
    /// The modules of the QR code. Modules are arranged in left-to-right, then
    /// top-to-bottom order.
    modules: Vec<Module>,
}

impl Canvas {
    pub closed spec fn width_spec(&self) -> int {
        self.width as int
    }

    pub closed spec fn modules_spec(&self) -> Seq<Module> {
        self.modules@
    }

    pub closed spec fn version_spec(&self) -> Version {
        self.version
    }

    pub closed spec fn ec_spec(&self) -> EcLevel {
        self.ec_level
    }

    pub closed spec fn wf(&self) -> bool {
        &&& self.version.is_normal()
        &&& self.width == self.version.width_spec()
        &&& self.modules@.len() == self.width * self.width
    }

    /// A well-formed canvas is 21 to 177 modules wide.
    pub proof fn lemma_wf(&self)
        requires
            self.wf(),
        ensures
            21 <= self.width_spec() <= 177,
            self.width_spec() == self.version_spec().width_spec(),
            self.modules_spec().len() == self.width_spec() * self.width_spec(),
            self.version_spec().is_normal(),
    {
    }

    /// An empty canvas for a normal version.
    pub fn new(version: Version, ec_level: EcLevel) -> (r: Self)
        requires
            version.is_normal(),
        ensures
            r.wf(),
            r.version_spec() == version,
            r.ec_spec() == ec_level,
            r.width_spec() == version.width_spec(),
            r.modules_spec() == Seq::new((r.width_spec() * r.width_spec()) as nat, |i: int| Module::Empty),
    {
        let width = version.width();
        assert((width as usize) * (width as usize) <= 177 * 177) by (nonlinear_arith)
            requires
                0 <= width <= 177,
        ;
        let n = (width as usize) * (width as usize);
        let mut modules: Vec<Module> = Vec::new();
        while modules.len() < n
            invariant
                modules@.len() <= n,
                forall|i: int| 0 <= i < modules@.len() ==> modules@[i] == Module::Empty,
            decreases n - modules@.len(),
        {
            modules.push(Module::Empty);
        }
        let r = Canvas { width, version, ec_level, modules };
        assert(r.modules_spec() =~= Seq::new((r.width_spec() * r.width_spec()) as nat, |i: int| Module::Empty));
        r
    }

    fn coords_to_index(&self, x: i16, y: i16) -> (r: usize)
        requires
            self.wf(),
            coord_in(self.width as int, x as int, y as int),
        ensures
            r == cell(self.width as int, x as int, y as int),
            r < self.modules@.len(),
    {
        proof {
            lemma_cell_in(self.width as int, x as int, y as int);
        }
        let x = if x < 0 {
            x + self.width
        } else {
            x
        } as usize;
        let y = if y < 0 {
            y + self.width
        } else {
            y
        } as usize;
        assert(y * (self.width as usize) + x < 177 * 177) by (nonlinear_arith)
            requires
                y < self.width,
                x < self.width,
                self.width <= 177,
        ;
        y * (self.width as usize) + x
    }

    /// The module at `(x, y)`; negative coordinates count from the far edge.
    pub fn get(&self, x: i16, y: i16) -> (r: Module)
        requires
            self.wf(),
            coord_in(self.width_spec(), x as int, y as int),
        ensures
            r == self.modules_spec()[cell(self.width_spec(), x as int, y as int)],
    {
        self.modules[self.coords_to_index(x, y)]
    }

    /// The module at `(x, y)`, to change; negative coordinates count from the
    /// far edge.
    pub fn get_mut(&mut self, x: i16, y: i16) -> (r: &mut Module)
        requires
            old(self).wf(),
            coord_in(old(self).width_spec(), x as int, y as int),
        ensures
            *r == old(self).modules_spec()[cell(old(self).width_spec(), x as int, y as int)],
            final(self).modules_spec() == old(self).modules_spec().update(
                cell(old(self).width_spec(), x as int, y as int),
                *final(r),
            ),
            final(self).width_spec() == old(self).width_spec(),
            final(self).version_spec() == old(self).version_spec(),
            final(self).ec_spec() == old(self).ec_spec(),
            final(self).wf(),
    {
        let index = self.coords_to_index(x, y);
        &mut self.modules[index]
    }

    /// Sets the module at `(x, y)` to a function module of `color`.
    pub fn put(&mut self, x: i16, y: i16, color: Color)
        requires
            old(self).wf(),
            coord_in(old(self).width_spec(), x as int, y as int),
        ensures
            final(self).modules_spec() == old(self).modules_spec().update(
                cell(old(self).width_spec(), x as int, y as int),
                Module::Masked(color),
            ),
            final(self).width_spec() == old(self).width_spec(),
            final(self).version_spec() == old(self).version_spec(),
            final(self).ec_spec() == old(self).ec_spec(),
            final(self).wf(),
    {
        let index = self.coords_to_index(x, y);
        self.modules.set(index, Module::Masked(color));
    }

    /// The colours of the modules, row by row.
    pub fn into_colors(self) -> (r: Vec<Color>)
        ensures
            r@ == self.modules_spec().map_values(|m: Module| module_color(m)),
    {
        let mut out: Vec<Color> = Vec::new();
        let mut i: usize = 0;
        while i < self.modules.len()
            invariant
                i <= self.modules@.len(),
                out@ == self.modules@.take(i as int).map_values(|m: Module| module_color(m)),
            decreases self.modules@.len() - i,
        {
            out.push(Color::from(self.modules[i]));
            i = i + 1;
            assert(out@ =~= self.modules@.take(i as int).map_values(|m: Module| module_color(m)));
        }
        assert(self.modules@.take(i as int) =~= self.modules@);
        out
    }
}

/// Every coordinate of `coords` lies in `[lo, hi]`.
pub open spec fn coords_within(coords: Seq<(i16, i16)>, lo: int, hi: int) -> bool
    decreases coords.len(),
{
    if coords.len() == 0 {
        true
    } else {
        lo <= coords.last().0 <= hi && lo <= coords.last().1 <= hi && coords_within(
            coords.drop_last(),
            lo,
            hi,
        )
    }
}

proof fn lemma_coords_within(coords: Seq<(i16, i16)>, lo: int, hi: int)
    requires
        coords_within(coords, lo, hi),
    ensures
        forall|i: int|
            0 <= i < coords.len() ==> lo <= (#[trigger] coords[i]).0 <= hi && lo <= coords[i].1
                <= hi,
    decreases coords.len(),
{
    if coords.len() > 0 {
        lemma_coords_within(coords.drop_last(), lo, hi);
        assert forall|i: int| 0 <= i < coords.len() - 1 implies coords[i] == coords.drop_last()[i] by {}
    }
}

/// The format information coordinates lie within eight modules of an edge.
proof fn lemma_format_coords()
    ensures
        forall|i: int|
            0 <= i < 15 ==> -8 <= (#[trigger] FORMAT_INFO_COORDS_QR_MAIN@[i]).0 <= 8 && -8
                <= FORMAT_INFO_COORDS_QR_MAIN@[i].1 <= 8,
        forall|i: int|
            0 <= i < 15 ==> -8 <= (#[trigger] FORMAT_INFO_COORDS_QR_SIDE@[i]).0 <= 8 && -8
                <= FORMAT_INFO_COORDS_QR_SIDE@[i].1 <= 8,
{
    assert(coords_within(FORMAT_INFO_COORDS_QR_MAIN@, -8, 8)) by {
        reveal_with_fuel(coords_within, 16);
    }
    assert(coords_within(FORMAT_INFO_COORDS_QR_SIDE@, -8, 8)) by {
        reveal_with_fuel(coords_within, 16);
    }
    lemma_coords_within(FORMAT_INFO_COORDS_QR_MAIN@, -8, 8);
    lemma_coords_within(FORMAT_INFO_COORDS_QR_SIDE@, -8, 8);
}

impl Canvas {
    /// Writes the `bits` lowest bits of `number`, most significant first, at
    /// `coords` as function modules: `on_color` for a set bit.
    fn draw_number(
        &mut self,
        number: u32,
        bits: u32,
        on_color: Color,
        off_color: Color,
        coords: &[(i16, i16)],
    )
        requires
            old(self).wf(),
            coords@.len() <= bits <= 32,
            forall|i: int|
                0 <= i < coords@.len() ==> coord_in(
                    old(self).width_spec(),
                    (#[trigger] coords@[i]).0 as int,
                    coords@[i].1 as int,
                ),
        ensures
            final(self).wf(),
            final(self).width_spec() == old(self).width_spec(),
            final(self).version_spec() == old(self).version_spec(),
            final(self).ec_spec() == old(self).ec_spec(),
            final(self).modules_spec() == put_bits(
                old(self).modules_spec(),
                old(self).width_spec(),
                coords@,
                number as int,
                bits as int,
                on_color,
                off_color,
            ),
    {
        let mut i: usize = 0;
        assert(coords@.take(0) =~= Seq::<(i16, i16)>::empty());
        while i < coords.len()
            invariant
                self.wf(),
                i <= coords@.len() <= bits <= 32,
                self.width_spec() == old(self).width_spec(),
                self.version_spec() == old(self).version_spec(),
                self.ec_spec() == old(self).ec_spec(),
                forall|k: int|
                    0 <= k < coords@.len() ==> coord_in(
                        old(self).width_spec(),
                        (#[trigger] coords@[k]).0 as int,
                        coords@[k].1 as int,
                    ),
                self.modules_spec() == put_bits(
                    old(self).modules_spec(),
                    old(self).width_spec(),
                    coords@.take(i as int),
                    number as int,
                    bits as int,
                    on_color,
                    off_color,
                ),
            decreases coords@.len() - i,
        {
            let (x, y) = coords[i];
            let shift = bits - 1 - i as u32;
            let shifted = number >> shift;
            proof {
                vstd::bits::lemma_u32_shr_is_div(number, shift);
                assert(((shifted & 1u32) == 1u32) == (shifted % 2 == 1)) by (bit_vector);
                assert(coords@.take(i + 1).drop_last() =~= coords@.take(i as int));
            }
            let color = if (shifted & 1) == 1 {
                on_color
            } else {
                off_color
            };
            self.put(x, y, color);
            i = i + 1;
        }
        assert(coords@.take(i as int) =~= coords@);
    }

    fn draw_format_info_patterns_with_number(&mut self, format_info: u16)
        requires
            old(self).wf(),
        ensures
            final(self).wf(),
            final(self).width_spec() == old(self).width_spec(),
            final(self).version_spec() == old(self).version_spec(),
            final(self).ec_spec() == old(self).ec_spec(),
            final(self).modules_spec() == format_drawn(
                old(self).modules_spec(),
                old(self).width_spec(),
                format_info as int,
            ),
    {
        proof {
            self.lemma_wf();
            lemma_format_coords();
        }
        let format_info = format_info as u32;
        self.draw_number(
            format_info,
            15,
            Color::Dark,
            Color::Light,
            FORMAT_INFO_COORDS_QR_MAIN.as_slice(),
        );
        self.draw_number(
            format_info,
            15,
            Color::Dark,
            Color::Light,
            FORMAT_INFO_COORDS_QR_SIDE.as_slice(),
        );
        self.put(8, -8, Color::Dark);
    }

    /// Draws the format information of the canvas's level and `pattern`.
    fn draw_format_info_patterns(&mut self, pattern: MaskPattern)
        requires
            old(self).wf(),
        ensures
            final(self).wf(),
            final(self).width_spec() == old(self).width_spec(),
            final(self).version_spec() == old(self).version_spec(),
            final(self).ec_spec() == old(self).ec_spec(),
            final(self).modules_spec() == format_drawn(
                old(self).modules_spec(),
                old(self).width_spec(),
                FORMAT_INFOS_QR@[format_index(old(self).ec_spec(), pattern)] as int,
            ),
    {
        let ec_row: usize = match self.ec_level {
            EcLevel::L => 1,
            EcLevel::M => 0,
            EcLevel::Q => 3,
            EcLevel::H => 2,
        };
        let format_number = FORMAT_INFOS_QR[ec_row * 8 + pattern.index()];
        self.draw_format_info_patterns_with_number(format_number);
    }

    /// Masks every module with `pattern`, then draws the format information
    /// of the canvas's level and `pattern`.
    pub fn apply_mask(&mut self, pattern: MaskPattern)
        requires
            old(self).wf(),
        ensures
            final(self).wf(),
            final(self).width_spec() == old(self).width_spec(),
            final(self).version_spec() == old(self).version_spec(),
            final(self).ec_spec() == old(self).ec_spec(),
            final(self).modules_spec() == apply_mask_spec(
                old(self).modules_spec(),
                old(self).width_spec(),
                old(self).ec_spec(),
                pattern,
            ),
    {
        let ghost m0 = self.modules@;
        let ghost w = self.width as int;
        let width = self.width as usize;
        proof {
            self.lemma_wf();
        }
        let n = self.modules.len();
        let mut i: usize = 0;
        while i < n
            invariant
                self.wf(),
                self.width == w,
                21 <= w <= 177,
                width == w,
                n == m0.len(),
                n == w * w,
                self.version == old(self).version,
                self.ec_level == old(self).ec_level,
                m0 == old(self).modules@,
                i <= n,
                self.modules@.len() == n,
                forall|j: int|
                    0 <= j < i ==> #[trigger] self.modules@[j] == mask_module(
                        m0[j],
                        mask_holds(pattern, j % w, j / w),
                    ),
                forall|j: int| i <= j < n ==> #[trigger] self.modules@[j] == m0[j],
            decreases n - i,
        {
            let x = (i % width) as i16;
            let y = (i / width) as i16;
            proof {
                assert(i / width < w) by (nonlinear_arith)
                    requires
                        i < w * w,
                        width == w,
                        w > 0,
                ;
            }
            let should_invert = mask_applies(pattern, x, y);
            let module = self.modules[i].mask(should_invert);
            self.modules.set(i, module);
            i = i + 1;
        }
        assert(self.modules@ =~= masked_modules(m0, w, pattern));
        self.draw_format_info_patterns(pattern);
    }
}

/// Version information for versions 7 to 40.
pub const VERSION_INFOS: [u32; 34] = [
    0x07c94, 0x085bc, 0x09a99, 0x0a4d3, 0x0bbf6, 0x0c762, 0x0d847, 0x0e60d, 0x0f928, 0x10b78,
    0x1145d, 0x12a17, 0x13532, 0x149a6, 0x15683, 0x168c9, 0x177ec, 0x18ec4, 0x191e1, 0x1afab,
    0x1b08e, 0x1cc1a, 0x1d33f, 0x1ed75, 0x1f250, 0x209d5, 0x216f0, 0x228ba, 0x2379f, 0x24b0b,
    0x2542e, 0x26a64, 0x27541, 0x28c69,
];

/// Where the version information goes in the bottom-left corner.
pub const VERSION_INFO_COORDS_BL: [(i16, i16); 18] = [
    (5, -9),
    (5, -10),
    (5, -11),
    (4, -9),
    (4, -10),
    (4, -11),
    (3, -9),
    (3, -10),
    (3, -11),
    (2, -9),
    (2, -10),
    (2, -11),
    (1, -9),
    (1, -10),
    (1, -11),
    (0, -9),
    (0, -10),
    (0, -11),
];

/// Where the version information goes in the top-right corner.
pub const VERSION_INFO_COORDS_TR: [(i16, i16); 18] = [
    (-9, 5),
    (-10, 5),
    (-11, 5),
    (-9, 4),
    (-10, 4),
    (-11, 4),
    (-9, 3),
    (-10, 3),
    (-11, 3),
    (-9, 2),
    (-10, 2),
    (-11, 2),
    (-9, 1),
    (-10, 1),
    (-11, 1),
    (-9, 0),
    (-10, 0),
    (-11, 0),
];

/// Centre coordinates of the alignment patterns for versions 7 to 40; the
/// row of version `v` holds `v / 7 + 2` of them, then zeros.
pub const ALIGNMENT_PATTERN_POSITIONS: [[i16; 7]; 34] = [
    [6, 22, 38, 0, 0, 0, 0],
    [6, 24, 42, 0, 0, 0, 0],
    [6, 26, 46, 0, 0, 0, 0],
    [6, 28, 50, 0, 0, 0, 0],
    [6, 30, 54, 0, 0, 0, 0],
    [6, 32, 58, 0, 0, 0, 0],
    [6, 34, 62, 0, 0, 0, 0],
    [6, 26, 46, 66, 0, 0, 0],
    [6, 26, 48, 70, 0, 0, 0],
    [6, 26, 50, 74, 0, 0, 0],
    [6, 30, 54, 78, 0, 0, 0],
    [6, 30, 56, 82, 0, 0, 0],
    [6, 30, 58, 86, 0, 0, 0],
    [6, 34, 62, 90, 0, 0, 0],
    [6, 28, 50, 72, 94, 0, 0],
    [6, 26, 50, 74, 98, 0, 0],
    [6, 30, 54, 78, 102, 0, 0],
    [6, 28, 54, 80, 106, 0, 0],
    [6, 32, 58, 84, 110, 0, 0],
    [6, 30, 58, 86, 114, 0, 0],
    [6, 34, 62, 90, 118, 0, 0],
    [6, 26, 50, 74, 98, 122, 0],
    [6, 30, 54, 78, 102, 126, 0],
    [6, 26, 52, 78, 104, 130, 0],
    [6, 30, 56, 82, 108, 134, 0],
    [6, 34, 60, 86, 112, 138, 0],
    [6, 30, 58, 86, 114, 142, 0],
    [6, 34, 62, 90, 118, 146, 0],
    [6, 30, 54, 78, 102, 126, 150],
    [6, 24, 50, 76, 102, 128, 154],
    [6, 28, 54, 80, 106, 132, 158],
    [6, 32, 58, 84, 110, 136, 162],
    [6, 26, 54, 82, 110, 138, 166],
    [6, 30, 58, 86, 114, 142, 170],
];

/// The rows of the alignment table from `i` on hold centres from 6 to
/// `width - 7` of their version.
spec fn alignment_rows_ok(i: nat) -> bool
    decreases 34 - i,
{
    if i >= 34 {
        true
    } else {
        let row = ALIGNMENT_PATTERN_POSITIONS[i as int];
        let w = 4 * (i + 7) + 17;
        &&& forall|k: int| 0 <= k < (i + 7) / 7 + 2 ==> 6 <= #[trigger] row[k] <= w - 7
        &&& alignment_rows_ok(i + 1)
    }
}

proof fn lemma_alignment_rows_from(i: nat, j: nat)
    requires
        alignment_rows_ok(i),
        i <= j,
    ensures
        alignment_rows_ok(j),
    decreases j - i,
{
    if i < j && i < 34 {
        lemma_alignment_rows_from(i + 1, j);
    }
}

/// Alignment centres lie from 6 to `width - 7` of their version.
proof fn lemma_alignment_positions(i: int, k: int)
    requires
        0 <= i < 34,
        0 <= k < (i + 7) / 7 + 2,
    ensures
        6 <= ALIGNMENT_PATTERN_POSITIONS[i][k] <= 4 * (i + 7) + 17 - 7,
{
    assert(alignment_rows_ok(0)) by {
        reveal_with_fuel(alignment_rows_ok, 35);
    }
    lemma_alignment_rows_from(0, i as nat);
}

/// The version information of versions 7 and above drawn in both corners.
pub open spec fn version_info_drawn(m: Seq<Module>, w: int, version: Version) -> Seq<Module> {
    match version {
        Version::Normal(v) if v >= 7 => {
            let info = VERSION_INFOS@[v - 7] as int;
            put_bits(
                put_bits(m, w, VERSION_INFO_COORDS_BL@, info, 18, Color::Dark, Color::Light),
                w,
                VERSION_INFO_COORDS_TR@,
                info,
                18,
                Color::Dark,
                Color::Light,
            )
        },
        _ => m,
    }
}

/// `new` differs from `old` only in modules that became function modules.
pub open spec fn only_function_writes(old: Seq<Module>, new: Seq<Module>) -> bool {
    &&& new.len() == old.len()
    &&& forall|k: int| 0 <= k < new.len() ==> #[trigger] new[k] == old[k] || new[k] is Masked
}

/// No module of `m` holds data.
pub open spec fn function_plane(m: Seq<Module>) -> bool {
    forall|k: int| 0 <= k < m.len() ==> !(#[trigger] m[k] is Unmasked)
}

proof fn lemma_put_function(m: Seq<Module>, k: int, c: Color)
    requires
        0 <= k < m.len(),
    ensures
        only_function_writes(m, m.update(k, Module::Masked(c))),
{
}

proof fn lemma_function_writes_trans(a: Seq<Module>, b: Seq<Module>, c: Seq<Module>)
    requires
        only_function_writes(a, b),
        only_function_writes(b, c),
    ensures
        only_function_writes(a, c),
{
    assert forall|k: int| 0 <= k < c.len() implies #[trigger] c[k] == a[k] || c[k] is Masked by {
        assert(c[k] == b[k] || c[k] is Masked);
        assert(b[k] == a[k] || b[k] is Masked);
    }
}

proof fn lemma_put_bits_function(
    m: Seq<Module>,
    w: int,
    coords: Seq<(i16, i16)>,
    number: int,
    nbits: int,
    on: Color,
    off: Color,
)
    requires
        m.len() == w * w,
        forall|i: int|
            0 <= i < coords.len() ==> coord_in(w, (#[trigger] coords[i]).0 as int, coords[i].1 as int),
    ensures
        only_function_writes(m, put_bits(m, w, coords, number, nbits, on, off)),
    decreases coords.len(),
{
    if coords.len() > 0 {
        let k = coords.len() - 1;
        assert forall|i: int| 0 <= i < coords.drop_last().len() implies coord_in(
            w,
            (#[trigger] coords.drop_last()[i]).0 as int,
            coords.drop_last()[i].1 as int,
        ) by {
            assert(coords.drop_last()[i] == coords[i]);
        }
        lemma_put_bits_function(m, w, coords.drop_last(), number, nbits, on, off);
        assert(coord_in(w, coords[k].0 as int, coords[k].1 as int));
        lemma_cell_in(w, coords[k].0 as int, coords[k].1 as int);
        let prev = put_bits(m, w, coords.drop_last(), number, nbits, on, off);
        lemma_put_function(
            prev,
            cell(w, coords[k].0 as int, coords[k].1 as int),
            if bit_of(number, nbits - 1 - k) {
                on
            } else {
                off
            },
        );
        lemma_function_writes_trans(m, prev, put_bits(m, w, coords, number, nbits, on, off));
    }
}

/// `m` with the modules of row `y` from column `x1` to `x2` set: `even` in
/// even columns, `odd` in the others.
pub open spec fn hline_drawn(m: Seq<Module>, w: int, y: int, x1: int, x2: int, even: Color, odd: Color) -> Seq<Module> {
    Seq::new(
        m.len(),
        |k: int|
            if k / w == y && x1 <= k % w <= x2 {
                Module::Masked(
                    if (k % w) % 2 == 0 {
                        even
                    } else {
                        odd
                    },
                )
            } else {
                m[k]
            },
    )
}

/// `m` with the modules of column `x` from row `y1` to `y2` set: `even` in
/// even rows, `odd` in the others.
pub open spec fn vline_drawn(m: Seq<Module>, w: int, x: int, y1: int, y2: int, even: Color, odd: Color) -> Seq<Module> {
    Seq::new(
        m.len(),
        |k: int|
            if k % w == x && y1 <= k / w <= y2 {
                Module::Masked(
                    if (k / w) % 2 == 0 {
                        even
                    } else {
                        odd
                    },
                )
            } else {
                m[k]
            },
    )
}

/// `m` with the line from `(x1, y1)` to `(x2, y2)` drawn: a row where
/// `y1 == y2`, a column otherwise.
pub open spec fn line_drawn(
    m: Seq<Module>,
    w: int,
    x1: int,
    y1: int,
    x2: int,
    y2: int,
    even: Color,
    odd: Color,
) -> Seq<Module> {
    if y1 == y2 {
        hline_drawn(m, w, y1, x1, x2, even, odd)
    } else {
        vline_drawn(m, w, x1, y1, y2, even, odd)
    }
}

/// A coordinate counted from the far edge where negative.
pub open spec fn wrap(w: int, c: int) -> int {
    if c < 0 {
        c + w
    } else {
        c
    }
}

/// `m` with part of a box of a finder (`finder`) or alignment pattern
/// around `(cx, cy)` drawn: offsets `(i, j)` with `lo_i <= i <= hi_i`, rows
/// `lo_j <= j < jdone` whole and row `jdone` up to `idone`, each in the
/// pattern's colour at that offset.
pub open spec fn box_drawn(
    m: Seq<Module>,
    w: int,
    cx: int,
    cy: int,
    lo_i: int,
    hi_i: int,
    lo_j: int,
    jdone: int,
    idone: int,
    finder: bool,
) -> Seq<Module> {
    Seq::new(
        m.len(),
        |k: int|
            {
                let i = k % w - wrap(w, cx);
                let j = k / w - wrap(w, cy);
                if (lo_j <= j < jdone && lo_i <= i <= hi_i) || (j == jdone && lo_i <= i < idone) {
                    Module::Masked(box_color(finder, i, j))
                } else {
                    m[k]
                }
            },
    )
}

/// `m` with the finder pattern (with its separator) centred at `(x, y)`;
/// the separator lies on the side facing the symbol.
pub open spec fn finder_drawn(m: Seq<Module>, w: int, x: int, y: int) -> Seq<Module> {
    let (lo_i, hi_i) = if x >= 0 {
        (-3int, 4int)
    } else {
        (-4int, 3int)
    };
    let (lo_j, hi_j) = if y >= 0 {
        (-3int, 4int)
    } else {
        (-4int, 3int)
    };
    box_drawn(m, w, x, y, lo_i, hi_i, lo_j, hi_j + 1, lo_i, true)
}

/// `m` with the three finder patterns drawn: top left, top right, bottom left.
pub open spec fn finders_drawn(m: Seq<Module>, w: int) -> Seq<Module> {
    finder_drawn(finder_drawn(finder_drawn(m, w, 3, 3), w, -4, 3), w, 3, -4)
}

/// `m` with the alignment pattern centred at `(x, y)`, unless that module is
/// already taken.
pub open spec fn alignment_drawn(m: Seq<Module>, w: int, x: int, y: int) -> Seq<Module> {
    if m[cell(w, x, y)] != Module::Empty {
        m
    } else {
        box_drawn(m, w, x, y, -2, 2, -2, 3, -2, false)
    }
}

/// `m` with the alignment patterns at the first `n` of the `count * count`
/// centre pairs of row `row` of the table drawn, in row-major order of the
/// pair indices.
pub open spec fn alignments_fold(m: Seq<Module>, w: int, row: int, count: int, n: int) -> Seq<Module>
    decreases n,
{
    if n <= 0 || count <= 0 {
        m
    } else {
        let p = alignments_fold(m, w, row, count, n - 1);
        alignment_drawn(
            p,
            w,
            ALIGNMENT_PATTERN_POSITIONS@[row]@[(n - 1) / count] as int,
            ALIGNMENT_PATTERN_POSITIONS@[row]@[(n - 1) % count] as int,
        )
    }
}

/// `m` with the alignment patterns of `version`: none for version 1, one at
/// `(-7, -7)` for versions 2 to 6, the table's grid from version 7 on.
pub open spec fn alignments_drawn(m: Seq<Module>, w: int, version: Version) -> Seq<Module> {
    match version {
        Version::Normal(v) => if v <= 1 {
            m
        } else if v <= 6 {
            alignment_drawn(m, w, -7, -7)
        } else {
            let count = v / 7 + 2;
            alignments_fold(m, w, v - 7, count, count * count)
        },
        Version::Micro(_) => m,
    }
}

/// `m` with both timing patterns drawn.
pub open spec fn timing_drawn(m: Seq<Module>, w: int) -> Seq<Module> {
    line_drawn(
        line_drawn(m, w, 8, 6, w - 9, 6, Color::Dark, Color::Light),
        w,
        6,
        8,
        6,
        w - 9,
        Color::Dark,
        Color::Light,
    )
}

/// `m` with all function patterns of `version` drawn in order: finders,
/// alignment patterns, the reserved format area, timing patterns and version
/// information.
pub open spec fn function_patterns(m: Seq<Module>, w: int, version: Version) -> Seq<Module> {
    version_info_drawn(
        timing_drawn(format_drawn(alignments_drawn(finders_drawn(m, w), w, version), w, 0), w),
        w,
        version,
    )
}

/// The colour of a finder (`finder`) or alignment pattern at offset `(i, j)`.
pub open spec fn box_color(finder: bool, i: int, j: int) -> Color {
    if finder {
        finder_color(i, j)
    } else {
        alignment_color(i, j)
    }
}

/// Drawing one more module of a box.
proof fn lemma_box_step(
    m: Seq<Module>,
    w: int,
    cx: int,
    cy: int,
    lo_i: int,
    hi_i: int,
    lo_j: int,
    j: int,
    i: int,
    finder: bool,
)
    requires
        w > 0,
        m.len() == w * w,
        coord_in(w, cx + i, cy + j),
        (cx + i < 0) == (cx < 0),
        (cy + j < 0) == (cy < 0),
        lo_i <= i <= hi_i,
    ensures
        box_drawn(m, w, cx, cy, lo_i, hi_i, lo_j, j, i, finder).update(
            cell(w, cx + i, cy + j),
            Module::Masked(box_color(finder, i, j)),
        ) == box_drawn(m, w, cx, cy, lo_i, hi_i, lo_j, j, i + 1, finder),
{
    let a = box_drawn(m, w, cx, cy, lo_i, hi_i, lo_j, j, i, finder);
    let b = box_drawn(m, w, cx, cy, lo_i, hi_i, lo_j, j, i + 1, finder);
    let c0 = cell(w, cx + i, cy + j);
    let px = wrap(w, cx) + i;
    let py = wrap(w, cy) + j;
    assert(c0 == py * w + px);
    lemma_cell_in(w, cx + i, cy + j);
    vstd::arithmetic::div_mod::lemma_fundamental_div_mod_converse(c0, w, py, px);
    let a2 = a.update(c0, Module::Masked(box_color(finder, i, j)));
    assert forall|k: int| 0 <= k < m.len() implies #[trigger] a2[k] == b[k] by {
        if k != c0 {
            if k % w - wrap(w, cx) == i && k / w - wrap(w, cy) == j {
                vstd::arithmetic::div_mod::lemma_fundamental_div_mod(k, w);
                assert(k == w * py + px);
                assert(w * py == py * w) by (nonlinear_arith);
            }
        }
    }
    assert(a2 =~= b);
}

/// The colour of the finder pattern at offset `(i, j)` from its centre.
pub open spec fn finder_color(i: int, j: int) -> Color {
    if i == 4 || i == -4 || j == 4 || j == -4 {
        Color::Light
    } else if i == 3 || i == -3 || j == 3 || j == -3 {
        Color::Dark
    } else if i == 2 || i == -2 || j == 2 || j == -2 {
        Color::Light
    } else {
        Color::Dark
    }
}

/// The colour of the alignment pattern at offset `(i, j)` from its centre.
pub open spec fn alignment_color(i: int, j: int) -> Color {
    if i == 2 || i == -2 || j == 2 || j == -2 || (i == 0 && j == 0) {
        Color::Dark
    } else {
        Color::Light
    }
}

impl Canvas {
    /// Draws a finder pattern with its separator around the centre `(x, y)`;
    /// a negative centre puts the separator on the side facing the symbol.
    fn draw_finder_pattern_at(&mut self, x: i16, y: i16)
        requires
            old(self).wf(),
            x == 3 || x == -4,
            y == 3 || y == -4,
        ensures
            final(self).wf(),
            final(self).width_spec() == old(self).width_spec(),
            final(self).version_spec() == old(self).version_spec(),
            final(self).ec_spec() == old(self).ec_spec(),
            only_function_writes(old(self).modules_spec(), final(self).modules_spec()),
            final(self).modules_spec() == finder_drawn(
                old(self).modules_spec(),
                old(self).width_spec(),
                x as int,
                y as int,
            ),
    {
        proof {
            self.lemma_wf();
        }
        let (dx_left, dx_right): (i16, i16) = if x >= 0 {
            (-3, 4)
        } else {
            (-4, 3)
        };
        let (dy_top, dy_bottom): (i16, i16) = if y >= 0 {
            (-3, 4)
        } else {
            (-4, 3)
        };
        let ghost w = self.width_spec();
        let ghost m0 = self.modules_spec();
        assert(box_drawn(m0, w, x as int, y as int, dx_left as int, dx_right as int, dy_top as int, dy_top as int, dx_left as int, true) =~= m0);
        let mut j: i16 = dy_top;
        while j <= dy_bottom
            invariant
                self.wf(),
                self.width_spec() == w,
                m0 == old(self).modules_spec(),
                m0.len() == w * w,
                21 <= w <= 177,
                x == 3 || x == -4,
                y == 3 || y == -4,
                dy_top <= j <= dy_bottom + 1,
                dy_top == (if y >= 0 { -3int } else { -4int }),
                dy_bottom == (if y >= 0 { 4int } else { 3int }),
                dx_left == (if x >= 0 { -3int } else { -4int }),
                dx_right == (if x >= 0 { 4int } else { 3int }),
                self.version_spec() == old(self).version_spec(),
                self.ec_spec() == old(self).ec_spec(),
                only_function_writes(old(self).modules_spec(), self.modules_spec()),
                self.modules_spec() == box_drawn(m0, w, x as int, y as int, dx_left as int, dx_right as int, dy_top as int, j as int, dx_left as int, true),
            decreases dy_bottom + 1 - j,
        {
            let mut i: i16 = dx_left;
            while i <= dx_right
                invariant
                    self.wf(),
                    self.width_spec() == w,
                    m0 == old(self).modules_spec(),
                    m0.len() == w * w,
                    21 <= w <= 177,
                    x == 3 || x == -4,
                    y == 3 || y == -4,
                    dy_top <= j <= dy_bottom,
                    dx_left <= i <= dx_right + 1,
                    dy_top == (if y >= 0 { -3int } else { -4int }),
                    dy_bottom == (if y >= 0 { 4int } else { 3int }),
                    dx_left == (if x >= 0 { -3int } else { -4int }),
                    dx_right == (if x >= 0 { 4int } else { 3int }),
                    self.version_spec() == old(self).version_spec(),
                    self.ec_spec() == old(self).ec_spec(),
                    only_function_writes(old(self).modules_spec(), self.modules_spec()),
                    self.modules_spec() == box_drawn(m0, w, x as int, y as int, dx_left as int, dx_right as int, dy_top as int, j as int, i as int, true),
                decreases dx_right + 1 - i,
            {
                let color = if i == 4 || i == -4 || j == 4 || j == -4 {
                    Color::Light
                } else if i == 3 || i == -3 || j == 3 || j == -3 {
                    Color::Dark
                } else if i == 2 || i == -2 || j == 2 || j == -2 {
                    Color::Light
                } else {
                    Color::Dark
                };
                let ghost before = self.modules_spec();
                proof {
                    lemma_cell_in(w, (x + i) as int, (y + j) as int);
                    lemma_put_function(before, cell(w, (x + i) as int, (y + j) as int), color);
                    assert(color == box_color(true, i as int, j as int));
                    lemma_box_step(m0, w, x as int, y as int, dx_left as int, dx_right as int, dy_top as int, j as int, i as int, true);
                }
                self.put(x + i, y + j, color);
                proof {
                    lemma_function_writes_trans(old(self).modules_spec(), before, self.modules_spec());
                }
                i = i + 1;
            }
            assert(box_drawn(m0, w, x as int, y as int, dx_left as int, dx_right as int, dy_top as int, j as int, dx_right + 1, true)
                =~= box_drawn(m0, w, x as int, y as int, dx_left as int, dx_right as int, dy_top as int, j + 1, dx_left as int, true));
            j = j + 1;
        }
    }
}

proof fn lemma_format_drawn_function(m: Seq<Module>, w: int, f: int)
    requires
        m.len() == w * w,
        w >= 21,
    ensures
        only_function_writes(m, format_drawn(m, w, f)),
{
    lemma_format_coords();
    let a = put_bits(m, w, FORMAT_INFO_COORDS_QR_MAIN@, f, 15, Color::Dark, Color::Light);
    lemma_put_bits_function(m, w, FORMAT_INFO_COORDS_QR_MAIN@, f, 15, Color::Dark, Color::Light);
    let b = put_bits(a, w, FORMAT_INFO_COORDS_QR_SIDE@, f, 15, Color::Dark, Color::Light);
    lemma_put_bits_function(a, w, FORMAT_INFO_COORDS_QR_SIDE@, f, 15, Color::Dark, Color::Light);
    lemma_function_writes_trans(m, a, b);
    lemma_cell_in(w, 8, -8);
    lemma_put_function(b, cell(w, 8, -8), Color::Dark);
    lemma_function_writes_trans(m, b, format_drawn(m, w, f));
}

impl Canvas {
    /// Draws an alignment pattern centred at `(x, y)` unless that module is
    /// already taken by a finder pattern.
    fn draw_alignment_pattern_at(&mut self, x: i16, y: i16)
        requires
            old(self).wf(),
            -old(self).width_spec() <= x - 2,
            x + 2 < old(self).width_spec(),
            -old(self).width_spec() <= y - 2,
            y + 2 < old(self).width_spec(),
            x - 2 >= 0 || x + 2 < 0,
            y - 2 >= 0 || y + 2 < 0,
        ensures
            final(self).wf(),
            final(self).width_spec() == old(self).width_spec(),
            final(self).version_spec() == old(self).version_spec(),
            final(self).ec_spec() == old(self).ec_spec(),
            only_function_writes(old(self).modules_spec(), final(self).modules_spec()),
            final(self).modules_spec() == alignment_drawn(
                old(self).modules_spec(),
                old(self).width_spec(),
                x as int,
                y as int,
            ),
    {
        if self.get(x, y) != Module::Empty {
            return;
        }
        let ghost w = self.width_spec();
        let ghost m0 = self.modules_spec();
        proof {
            self.lemma_wf();
        }
        assert(box_drawn(m0, w, x as int, y as int, -2, 2, -2, -2, -2, false) =~= m0);
        let mut j: i16 = -2;
        while j <= 2
            invariant
                self.wf(),
                self.width_spec() == w,
                m0 == old(self).modules_spec(),
                m0.len() == w * w,
                w > 0,
                -2 <= j <= 3,
                -w <= x - 2,
                x + 2 < w,
                -w <= y - 2,
                y + 2 < w,
                x - 2 >= 0 || x + 2 < 0,
                y - 2 >= 0 || y + 2 < 0,
                self.version_spec() == old(self).version_spec(),
                self.ec_spec() == old(self).ec_spec(),
                only_function_writes(old(self).modules_spec(), self.modules_spec()),
                self.modules_spec() == box_drawn(m0, w, x as int, y as int, -2, 2, -2, j as int, -2, false),
            decreases 3 - j,
        {
            let mut i: i16 = -2;
            while i <= 2
                invariant
                    self.wf(),
                    self.width_spec() == w,
                    m0 == old(self).modules_spec(),
                    m0.len() == w * w,
                    w > 0,
                    -2 <= j <= 2,
                    -2 <= i <= 3,
                    -w <= x - 2,
                    x + 2 < w,
                    -w <= y - 2,
                    y + 2 < w,
                    x - 2 >= 0 || x + 2 < 0,
                    y - 2 >= 0 || y + 2 < 0,
                    self.version_spec() == old(self).version_spec(),
                    self.ec_spec() == old(self).ec_spec(),
                    only_function_writes(old(self).modules_spec(), self.modules_spec()),
                    self.modules_spec() == box_drawn(m0, w, x as int, y as int, -2, 2, -2, j as int, i as int, false),
                decreases 3 - i,
            {
                let color = if i == 2 || i == -2 || j == 2 || j == -2 || (i == 0 && j == 0) {
                    Color::Dark
                } else {
                    Color::Light
                };
                let ghost before = self.modules_spec();
                proof {
                    lemma_cell_in(w, (x + i) as int, (y + j) as int);
                    lemma_put_function(before, cell(w, (x + i) as int, (y + j) as int), color);
                    assert(color == box_color(false, i as int, j as int));
                    lemma_box_step(m0, w, x as int, y as int, -2, 2, -2, j as int, i as int, false);
                }
                self.put(x + i, y + j, color);
                proof {
                    lemma_function_writes_trans(old(self).modules_spec(), before, self.modules_spec());
                }
                i = i + 1;
            }
            assert(box_drawn(m0, w, x as int, y as int, -2, 2, -2, j as int, 3, false)
                =~= box_drawn(m0, w, x as int, y as int, -2, 2, -2, j + 1, -2, false));
            j = j + 1;
        }
    }

    /// Draws the alignment patterns of the canvas's version.
    fn draw_alignment_patterns(&mut self)
        requires
            old(self).wf(),
        ensures
            final(self).wf(),
            final(self).width_spec() == old(self).width_spec(),
            final(self).version_spec() == old(self).version_spec(),
            final(self).ec_spec() == old(self).ec_spec(),
            only_function_writes(old(self).modules_spec(), final(self).modules_spec()),
            final(self).modules_spec() == alignments_drawn(
                old(self).modules_spec(),
                old(self).width_spec(),
                old(self).version_spec(),
            ),
    {
        proof {
            self.lemma_wf();
        }
        let v = match self.version {
            Version::Normal(v) => v,
            Version::Micro(v) => v,
        };
        if v == 1 {
            return;
        }
        if v <= 6 {
            self.draw_alignment_pattern_at(-7, -7);
            return;
        }
        let row = (v - 7) as usize;
        let count = (v / 7 + 2) as usize;
        let ghost w = self.width_spec();
        let ghost m0 = self.modules_spec();
        let mut xi: usize = 0;
        while xi < count
            invariant
                self.wf(),
                self.width_spec() == w,
                m0 == old(self).modules_spec(),
                w == 4 * v + 17,
                7 <= v <= 40,
                row == v - 7,
                count == v / 7 + 2,
                count <= 7,
                xi <= count,
                self.version_spec() == old(self).version_spec(),
                self.ec_spec() == old(self).ec_spec(),
                only_function_writes(old(self).modules_spec(), self.modules_spec()),
                self.modules_spec() == alignments_fold(m0, w, row as int, count as int, xi * count),
            decreases count - xi,
        {
            let mut yi: usize = 0;
            while yi < count
                invariant
                    self.wf(),
                    self.width_spec() == w,
                    m0 == old(self).modules_spec(),
                    w == 4 * v + 17,
                    7 <= v <= 40,
                    row == v - 7,
                    count == v / 7 + 2,
                    count <= 7,
                    xi < count,
                    yi <= count,
                    self.version_spec() == old(self).version_spec(),
                    self.ec_spec() == old(self).ec_spec(),
                    only_function_writes(old(self).modules_spec(), self.modules_spec()),
                    self.modules_spec() == alignments_fold(m0, w, row as int, count as int, xi * count + yi),
                decreases count - yi,
            {
                let px = ALIGNMENT_PATTERN_POSITIONS[row][xi];
                let py = ALIGNMENT_PATTERN_POSITIONS[row][yi];
                proof {
                    lemma_alignment_positions(row as int, xi as int);
                    lemma_alignment_positions(row as int, yi as int);
                    let n = xi * count + yi;
                    vstd::arithmetic::div_mod::lemma_fundamental_div_mod_converse(
                        n as int,
                        count as int,
                        xi as int,
                        yi as int,
                    );
                }
                let ghost before = self.modules_spec();
                self.draw_alignment_pattern_at(px, py);
                proof {
                    lemma_function_writes_trans(old(self).modules_spec(), before, self.modules_spec());
                }
                yi = yi + 1;
            }
            proof {
                assert(xi * count + count == (xi + 1) * count) by (nonlinear_arith);
            }
            xi = xi + 1;
        }
    }

    /// Draws a horizontal (`y1 == y2`) or vertical line of function modules
    /// from `(x1, y1)` to `(x2, y2)`, `color_even` at even positions.
    fn draw_line(
        &mut self,
        x1: i16,
        y1: i16,
        x2: i16,
        y2: i16,
        color_even: Color,
        color_odd: Color,
    )
        requires
            old(self).wf(),
            x1 == x2 || y1 == y2,
            0 <= x1 <= x2 < old(self).width_spec(),
            0 <= y1 <= y2 < old(self).width_spec(),
        ensures
            final(self).wf(),
            final(self).width_spec() == old(self).width_spec(),
            final(self).version_spec() == old(self).version_spec(),
            final(self).ec_spec() == old(self).ec_spec(),
            only_function_writes(old(self).modules_spec(), final(self).modules_spec()),
            final(self).modules_spec() == line_drawn(
                old(self).modules_spec(),
                old(self).width_spec(),
                x1 as int,
                y1 as int,
                x2 as int,
                y2 as int,
                color_even,
                color_odd,
            ),
    {
        let ghost w = self.width_spec();
        let ghost m0 = self.modules_spec();
        if y1 == y2 {
            let mut x = x1;
            assert(hline_drawn(m0, w, y1 as int, x1 as int, x1 - 1, color_even, color_odd) =~= m0);
            while x <= x2
                invariant
                    self.wf(),
                    self.width_spec() == w,
                    m0 == old(self).modules_spec(),
                    m0.len() == w * w,
                    0 <= x1 <= x <= x2 + 1,
                    x2 < w,
                    0 <= y1 < w,
                    self.version_spec() == old(self).version_spec(),
                    self.ec_spec() == old(self).ec_spec(),
                    only_function_writes(old(self).modules_spec(), self.modules_spec()),
                    self.modules_spec() == hline_drawn(m0, w, y1 as int, x1 as int, x - 1, color_even, color_odd),
                decreases x2 + 1 - x,
            {
                let color = if x % 2 == 0 {
                    color_even
                } else {
                    color_odd
                };
                let ghost before = self.modules_spec();
                proof {
                    lemma_cell_in(w, x as int, y1 as int);
                    lemma_put_function(before, cell(w, x as int, y1 as int), color);
                }
                self.put(x, y1, color);
                proof {
                    lemma_function_writes_trans(old(self).modules_spec(), before, self.modules_spec());
                    let c0 = cell(w, x as int, y1 as int);
                    vstd::arithmetic::div_mod::lemma_fundamental_div_mod_converse(c0, w, y1 as int, x as int);
                    assert forall|k: int| 0 <= k < m0.len() implies #[trigger] self.modules_spec()[k]
                        == hline_drawn(m0, w, y1 as int, x1 as int, x as int, color_even, color_odd)[k] by {
                        if k != c0 {
                            if k / w == y1 && k % w == x {
                                vstd::arithmetic::div_mod::lemma_fundamental_div_mod(k, w);
                                assert(k == w * (y1 as int) + x);
                                assert(w * (y1 as int) == (y1 as int) * w) by (nonlinear_arith);
                            }
                            assert(self.modules_spec()[k] == before[k]);
                        } else {
                            assert(k % w == x && k / w == y1);
                        }
                    }
                    assert(self.modules_spec() =~= hline_drawn(m0, w, y1 as int, x1 as int, x as int, color_even, color_odd));
                }
                x = x + 1;
            }
        } else {
            let mut y = y1;
            assert(vline_drawn(m0, w, x1 as int, y1 as int, y1 - 1, color_even, color_odd) =~= m0);
            while y <= y2
                invariant
                    self.wf(),
                    self.width_spec() == w,
                    m0 == old(self).modules_spec(),
                    m0.len() == w * w,
                    0 <= y1 <= y <= y2 + 1,
                    y2 < w,
                    0 <= x1 < w,
                    self.version_spec() == old(self).version_spec(),
                    self.ec_spec() == old(self).ec_spec(),
                    only_function_writes(old(self).modules_spec(), self.modules_spec()),
                    self.modules_spec() == vline_drawn(m0, w, x1 as int, y1 as int, y - 1, color_even, color_odd),
                decreases y2 + 1 - y,
            {
                let color = if y % 2 == 0 {
                    color_even
                } else {
                    color_odd
                };
                let ghost before = self.modules_spec();
                proof {
                    lemma_cell_in(w, x1 as int, y as int);
                    lemma_put_function(before, cell(w, x1 as int, y as int), color);
                }
                self.put(x1, y, color);
                proof {
                    lemma_function_writes_trans(old(self).modules_spec(), before, self.modules_spec());
                    let c0 = cell(w, x1 as int, y as int);
                    vstd::arithmetic::div_mod::lemma_fundamental_div_mod_converse(c0, w, y as int, x1 as int);
                    assert forall|k: int| 0 <= k < m0.len() implies #[trigger] self.modules_spec()[k]
                        == vline_drawn(m0, w, x1 as int, y1 as int, y as int, color_even, color_odd)[k] by {
                        if k != c0 {
                            if k / w == y && k % w == x1 {
                                vstd::arithmetic::div_mod::lemma_fundamental_div_mod(k, w);
                            }
                        }
                    }
                    assert(self.modules_spec() =~= vline_drawn(m0, w, x1 as int, y1 as int, y as int, color_even, color_odd));
                }
                y = y + 1;
            }
        }
    }

    /// Draws the timing patterns along row and column 6 between the finders.
    fn draw_timing_patterns(&mut self)
        requires
            old(self).wf(),
        ensures
            final(self).wf(),
            final(self).width_spec() == old(self).width_spec(),
            final(self).version_spec() == old(self).version_spec(),
            final(self).ec_spec() == old(self).ec_spec(),
            only_function_writes(old(self).modules_spec(), final(self).modules_spec()),
            ({
                let w = old(self).width_spec();
                final(self).modules_spec() == line_drawn(
                    line_drawn(old(self).modules_spec(), w, 8, 6, w - 9, 6, Color::Dark, Color::Light),
                    w,
                    6,
                    8,
                    6,
                    w - 9,
                    Color::Dark,
                    Color::Light,
                )
            }),
    {
        proof {
            self.lemma_wf();
        }
        let width = self.width;
        let (y, x1, x2): (i16, i16, i16) = (6, 8, width - 9);
        self.draw_line(x1, y, x2, y, Color::Dark, Color::Light);
        let ghost mid = self.modules_spec();
        self.draw_line(y, x1, y, x2, Color::Dark, Color::Light);
        proof {
            lemma_function_writes_trans(old(self).modules_spec(), mid, self.modules_spec());
        }
    }

    /// Draws the version information of versions 7 and above.
    fn draw_version_info_patterns(&mut self)
        requires
            old(self).wf(),
        ensures
            final(self).wf(),
            final(self).width_spec() == old(self).width_spec(),
            final(self).version_spec() == old(self).version_spec(),
            final(self).ec_spec() == old(self).ec_spec(),
            only_function_writes(old(self).modules_spec(), final(self).modules_spec()),
            final(self).modules_spec() == version_info_drawn(
                old(self).modules_spec(),
                old(self).width_spec(),
                old(self).version_spec(),
            ),
    {
        proof {
            self.lemma_wf();
        }
        let v = match self.version {
            Version::Normal(v) => v,
            Version::Micro(v) => v,
        };
        if v <= 6 {
            return;
        }
        let ghost w = self.width_spec();
        proof {
            assert(coords_within(VERSION_INFO_COORDS_BL@, -11, 5)) by {
                reveal_with_fuel(coords_within, 19);
            }
            assert(coords_within(VERSION_INFO_COORDS_TR@, -11, 5)) by {
                reveal_with_fuel(coords_within, 19);
            }
            lemma_coords_within(VERSION_INFO_COORDS_BL@, -11, 5);
            lemma_coords_within(VERSION_INFO_COORDS_TR@, -11, 5);
        }
        let version_info = VERSION_INFOS[(v - 7) as usize];
        let ghost m0 = self.modules_spec();
        self.draw_number(
            version_info,
            18,
            Color::Dark,
            Color::Light,
            VERSION_INFO_COORDS_BL.as_slice(),
        );
        let ghost m1 = self.modules_spec();
        self.draw_number(
            version_info,
            18,
            Color::Dark,
            Color::Light,
            VERSION_INFO_COORDS_TR.as_slice(),
        );
        proof {
            lemma_put_bits_function(m0, w, VERSION_INFO_COORDS_BL@, version_info as int, 18, Color::Dark, Color::Light);
            lemma_put_bits_function(m1, w, VERSION_INFO_COORDS_TR@, version_info as int, 18, Color::Dark, Color::Light);
            lemma_function_writes_trans(m0, m1, self.modules_spec());
        }
    }

    /// Reserves the format information area by drawing the number 0 there.
    fn draw_reserved_format_info_patterns(&mut self)
        requires
            old(self).wf(),
        ensures
            final(self).wf(),
            final(self).width_spec() == old(self).width_spec(),
            final(self).version_spec() == old(self).version_spec(),
            final(self).ec_spec() == old(self).ec_spec(),
            only_function_writes(old(self).modules_spec(), final(self).modules_spec()),
            final(self).modules_spec() == format_drawn(
                old(self).modules_spec(),
                old(self).width_spec(),
                0,
            ),
    {
        proof {
            self.lemma_wf();
            lemma_format_drawn_function(self.modules_spec(), self.width_spec(), 0);
        }
        self.draw_format_info_patterns_with_number(0);
    }

    /// Draws the three finder patterns: top left, top right, bottom left.
    fn draw_finder_patterns(&mut self)
        requires
            old(self).wf(),
        ensures
            final(self).wf(),
            final(self).width_spec() == old(self).width_spec(),
            final(self).version_spec() == old(self).version_spec(),
            final(self).ec_spec() == old(self).ec_spec(),
            only_function_writes(old(self).modules_spec(), final(self).modules_spec()),
            final(self).modules_spec() == finders_drawn(
                old(self).modules_spec(),
                old(self).width_spec(),
            ),
    {
        let ghost m0 = self.modules_spec();
        self.draw_finder_pattern_at(3, 3);
        let ghost m1 = self.modules_spec();
        self.draw_finder_pattern_at(-4, 3);
        let ghost m2 = self.modules_spec();
        self.draw_finder_pattern_at(3, -4);
        proof {
            lemma_function_writes_trans(m0, m1, m2);
            lemma_function_writes_trans(m0, m2, self.modules_spec());
        }
    }

    /// Draws the finder, alignment, format, timing and version patterns.
    pub fn draw_all_functional_patterns(&mut self)
        requires
            old(self).wf(),
        ensures
            final(self).wf(),
            final(self).width_spec() == old(self).width_spec(),
            final(self).version_spec() == old(self).version_spec(),
            final(self).ec_spec() == old(self).ec_spec(),
            only_function_writes(old(self).modules_spec(), final(self).modules_spec()),
            final(self).modules_spec() == function_patterns(
                old(self).modules_spec(),
                old(self).width_spec(),
                old(self).version_spec(),
            ),
    {
        let ghost m0 = self.modules_spec();
        self.draw_finder_patterns();
        let ghost m3 = self.modules_spec();
        self.draw_alignment_patterns();
        let ghost m4 = self.modules_spec();
        self.draw_reserved_format_info_patterns();
        let ghost m5 = self.modules_spec();
        self.draw_timing_patterns();
        let ghost m6 = self.modules_spec();
        self.draw_version_info_patterns();
        proof {
            lemma_function_writes_trans(m0, m3, m4);
            lemma_function_writes_trans(m0, m4, m5);
            lemma_function_writes_trans(m0, m5, m6);
            lemma_function_writes_trans(m0, m6, self.modules_spec());
        }
    }
}

/// The column that decides the walk at column `x`: columns left of the
/// vertical timing pattern count one further right.
pub open spec fn adj_col(x: int) -> int {
    if x <= 6 {
        x + 1
    } else {
        x
    }
}

/// The data path's next position after `(x, y)` in a `w` wide symbol: up or
/// down a pair of columns in a zig-zag, then on to the next pair leftward,
/// skipping the timing column.
pub open spec fn path_step(w: int, x: int, y: int) -> (int, int) {
    let t = (w - adj_col(x)) % 4;
    if t == 2 && y > 0 {
        (x + 1, y - 1)
    } else if t == 0 && y < w - 1 {
        (x + 1, y + 1)
    } else if (t == 0 || t == 2) && x == 7 {
        (x - 2, y)
    } else {
        (x - 1, y)
    }
}

/// A position that the data path can be at in a symbol of width `w`.
pub open spec fn path_ok(w: int, x: int, y: int) -> bool {
    &&& 21 <= w <= 177
    &&& w % 4 == 1
    &&& 0 <= y < w
    &&& -1 <= x < w
    &&& x != 6
}

/// The pair of columns of `x`, counted from the right edge.
pub open spec fn path_key(w: int, x: int) -> int {
    (w - adj_col(x) - 1) / 2
}

/// How far the path has gone along the pair of columns of `(x, y)`.
pub open spec fn path_index(w: int, x: int, y: int) -> int {
    let left = if (w - adj_col(x)) % 2 == 0 {
        1int
    } else {
        0
    };
    if path_key(w, x) % 2 == 0 {
        2 * (w - 1 - y) + left
    } else {
        2 * y + left
    }
}

/// One step of the path keeps it on the grid and moves it forward.
pub proof fn lemma_path_step(w: int, x: int, y: int)
    requires
        path_ok(w, x, y),
        adj_col(x) > 0,
    ensures
        path_ok(w, path_step(w, x, y).0, path_step(w, x, y).1),
        ({
            let (nx, ny) = path_step(w, x, y);
            ||| path_key(w, nx) > path_key(w, x)
            ||| (path_key(w, nx) == path_key(w, x) && path_index(w, nx, ny) > path_index(w, x, y))
        }),
        0 <= path_key(w, x) <= w,
        0 <= path_index(w, x, y) < 2 * w,
{
}

/// Where the walk stops: past the leftmost column.
pub open spec fn path_done(x: int) -> bool {
    adj_col(x) <= 0
}

/// `m` after writing `bits` along the data path from `(x, y)`: each bit goes
/// to the next empty module as a data module, dark for a set bit; the walk
/// skips modules already taken and stops at the end of the path.
pub open spec fn fill(m: Seq<Module>, w: int, x: int, y: int, bits: Seq<bool>) -> Seq<Module>
    decreases w - path_key(w, x), 2 * w - path_index(w, x, y), bits.len(),
{
    if !path_ok(w, x, y) || path_done(x) || bits.len() == 0 {
        m
    } else {
        let (nx, ny) = path_step(w, x, y);
        let k = y * w + x;
        proof {
            lemma_path_step(w, x, y);
        }
        if m[k] == Module::Empty {
            fill(
                m.update(
                    k,
                    Module::Unmasked(
                        if bits[0] {
                            Color::Dark
                        } else {
                            Color::Light
                        },
                    ),
                ),
                w,
                nx,
                ny,
                bits.drop_first(),
            )
        } else {
            fill(m, w, nx, ny, bits)
        }
    }
}

/// Where the walk of `fill` stops.
pub open spec fn fill_end(m: Seq<Module>, w: int, x: int, y: int, bits: Seq<bool>) -> (int, int)
    decreases w - path_key(w, x), 2 * w - path_index(w, x, y), bits.len(),
{
    if !path_ok(w, x, y) || path_done(x) || bits.len() == 0 {
        (x, y)
    } else {
        let (nx, ny) = path_step(w, x, y);
        let k = y * w + x;
        proof {
            lemma_path_step(w, x, y);
        }
        if m[k] == Module::Empty {
            fill_end(
                m.update(
                    k,
                    Module::Unmasked(
                        if bits[0] {
                            Color::Dark
                        } else {
                            Color::Light
                        },
                    ),
                ),
                w,
                nx,
                ny,
                bits.drop_first(),
            )
        } else {
            fill_end(m, w, nx, ny, bits)
        }
    }
}

/// The modules after `draw_data`: the data codewords along the path from the
/// bottom-right corner, then the error correction codewords from where they
/// stopped.
pub open spec fn draw_data_spec(m: Seq<Module>, w: int, data: Seq<u8>, ec: Seq<u8>) -> Seq<Module> {
    let a = crate::bits::byte_payload(data);
    let end = fill_end(m, w, w - 1, w - 1, a);
    fill(fill(m, w, w - 1, w - 1, a), w, end.0, end.1, crate::bits::byte_payload(ec))
}

/// Walks the data path of a normal symbol.
struct DataModuleIter {
    x: i16,
    y: i16,
    width: i16,
    timing_pattern_column: i16,
}

impl DataModuleIter {
    spec fn ok(&self) -> bool {
        &&& path_ok(self.width as int, self.x as int, self.y as int)
        &&& self.timing_pattern_column == 6
    }

    fn new(version: Version) -> (r: Self)
        requires
            version.is_normal(),
        ensures
            r.ok(),
            r.width == version.width_spec(),
            r.x == r.width - 1,
            r.y == r.width - 1,
    {
        let width = version.width();
        DataModuleIter { x: width - 1, y: width - 1, width, timing_pattern_column: 6 }
    }

    /// The next position of the path, or `None` at its end.
    fn next(&mut self) -> (r: Option<(i16, i16)>)
        requires
            old(self).ok(),
        ensures
            final(self).ok(),
            final(self).width == old(self).width,
            if path_done(old(self).x as int) {
                r is None && *final(self) == *old(self)
            } else {
                &&& r == Some((old(self).x, old(self).y))
                &&& (final(self).x as int, final(self).y as int) == path_step(
                    old(self).width as int,
                    old(self).x as int,
                    old(self).y as int,
                )
            },
    {
        let adjusted_ref_col = if self.x <= self.timing_pattern_column {
            self.x + 1
        } else {
            self.x
        };
        if adjusted_ref_col <= 0 {
            return None;
        }
        proof {
            lemma_path_step(self.width as int, self.x as int, self.y as int);
        }
        let res = (self.x, self.y);
        let column_type = (self.width - adjusted_ref_col) % 4;
        if column_type == 2 && self.y > 0 {
            self.y = self.y - 1;
            self.x = self.x + 1;
        } else if column_type == 0 && self.y < self.width - 1 {
            self.y = self.y + 1;
            self.x = self.x + 1;
        } else if (column_type == 0 || column_type == 2) && self.x == self.timing_pattern_column + 1 {
            self.x = self.x - 2;
        } else {
            self.x = self.x - 1;
        }
        Some(res)
    }
}

impl Canvas {
    /// Writes each bit of `codewords`, most significant first, as a data
    /// module in the next empty module along `coords`; stops where the path
    /// ends.
    fn draw_codewords(&mut self, codewords: &[u8], coords: &mut DataModuleIter)
        requires
            old(self).wf(),
            old(coords).ok(),
            old(coords).width == old(self).width_spec(),
        ensures
            final(self).wf(),
            final(self).width_spec() == old(self).width_spec(),
            final(self).version_spec() == old(self).version_spec(),
            final(self).ec_spec() == old(self).ec_spec(),
            final(coords).ok(),
            final(coords).width == old(coords).width,
            final(self).modules_spec() == fill(
                old(self).modules_spec(),
                old(self).width_spec(),
                old(coords).x as int,
                old(coords).y as int,
                crate::bits::byte_payload(codewords@),
            ),
            (final(coords).x as int, final(coords).y as int) == fill_end(
                old(self).modules_spec(),
                old(self).width_spec(),
                old(coords).x as int,
                old(coords).y as int,
                crate::bits::byte_payload(codewords@),
            ),
    {
        let ghost w = self.width_spec();
        let ghost all = crate::bits::byte_payload(codewords@);
        let ghost target = fill(self.modules_spec(), w, coords.x as int, coords.y as int, all);
        let ghost target_end = fill_end(
            self.modules_spec(),
            w,
            coords.x as int,
            coords.y as int,
            all,
        );
        let ghost mut rest = all;
        assert(codewords@.skip(0) =~= codewords@);
        let mut i: usize = 0;
        while i < codewords.len()
            invariant
                self.wf(),
                self.width_spec() == w,
                self.version_spec() == old(self).version_spec(),
                self.ec_spec() == old(self).ec_spec(),
                coords.ok(),
                coords.width == w,
                w == old(self).width_spec(),
                old(coords).width == w,
                i <= codewords@.len(),
                rest == crate::bits::byte_payload(codewords@.skip(i as int)),
                fill(self.modules_spec(), w, coords.x as int, coords.y as int, rest) == target,
                fill_end(self.modules_spec(), w, coords.x as int, coords.y as int, rest)
                    == target_end,
                target == fill(old(self).modules_spec(), w, old(coords).x as int, old(coords).y as int, all),
                target_end == fill_end(old(self).modules_spec(), w, old(coords).x as int, old(coords).y as int, all),
                all == crate::bits::byte_payload(codewords@),
            decreases codewords@.len() - i,
        {
            let b = codewords[i];
            let ghost byte_bits = crate::bits::num_bits(b as int, 8);
            let ghost tail = crate::bits::byte_payload(codewords@.skip(i + 1));
            proof {
                let sk = codewords@.skip(i as int);
                assert(sk[0] == b);
                assert(sk.skip(1) =~= codewords@.skip(i + 1));
                assert(byte_bits.skip(0) =~= byte_bits);
            }
            let mut jj: usize = 8;
            while jj > 0
                invariant
                    self.wf(),
                    self.width_spec() == w,
                    self.version_spec() == old(self).version_spec(),
                    self.ec_spec() == old(self).ec_spec(),
                    coords.ok(),
                    coords.width == w,
                    w == old(self).width_spec(),
                    old(coords).width == w,
                    all == crate::bits::byte_payload(codewords@),
                    jj <= 8,
                    byte_bits == crate::bits::num_bits(b as int, 8),
                    rest == byte_bits.skip(8 - jj) + tail,
                    fill(self.modules_spec(), w, coords.x as int, coords.y as int, rest) == target,
                    fill_end(self.modules_spec(), w, coords.x as int, coords.y as int, rest)
                        == target_end,
                    target == fill(old(self).modules_spec(), w, old(coords).x as int, old(coords).y as int, all),
                    target_end == fill_end(old(self).modules_spec(), w, old(coords).x as int, old(coords).y as int, all),
                decreases jj,
            {
                let shifted = b >> ((jj - 1) as u8);
                proof {
                    vstd::bits::lemma_u8_shr_is_div(b, (jj - 1) as u8);
                    assert(((shifted & 1u8) == 1u8) == (shifted % 2 == 1)) by (bit_vector);
                    assert(rest[0] == byte_bits[8 - jj]);
                }
                let bit = (shifted & 1) == 1;
                assert(bit == rest[0]);
                let color = if bit {
                    Color::Dark
                } else {
                    Color::Light
                };
                loop
                    invariant_except_break
                        fill(self.modules_spec(), w, coords.x as int, coords.y as int, rest)
                            == target,
                        fill_end(self.modules_spec(), w, coords.x as int, coords.y as int, rest)
                            == target_end,
                    invariant
                        self.wf(),
                        self.width_spec() == w,
                        w == old(self).width_spec(),
                        self.version_spec() == old(self).version_spec(),
                        self.ec_spec() == old(self).ec_spec(),
                        coords.ok(),
                        coords.width == w,
                        rest.len() > 0,
                        rest[0] == bit,
                        old(coords).width == w,
                        target == fill(old(self).modules_spec(), w, old(coords).x as int, old(coords).y as int, all),
                        target_end == fill_end(old(self).modules_spec(), w, old(coords).x as int, old(coords).y as int, all),
                        all == crate::bits::byte_payload(codewords@),
                        color == (if bit { Color::Dark } else { Color::Light }),
                    ensures
                        fill(self.modules_spec(), w, coords.x as int, coords.y as int, rest.drop_first())
                            == target,
                        fill_end(self.modules_spec(), w, coords.x as int, coords.y as int, rest.drop_first())
                            == target_end,
                    decreases w - path_key(w, coords.x as int), 2 * w - path_index(
                        w,
                        coords.x as int,
                        coords.y as int,
                    ),
                {
                    let ghost bx = coords.x as int;
                    let ghost by = coords.y as int;
                    let ghost m_before = self.modules_spec();
                    proof {
                        if !path_done(bx) {
                            lemma_path_step(w, bx, by);
                        }
                    }
                    match coords.next() {
                        None => {
                            return ;
                        },
                        Some((x, y)) => {
                            proof {
                                self.lemma_wf();
                            }
                            if self.get(x, y) == Module::Empty {
                                *self.get_mut(x, y) = Module::Unmasked(color);
                                proof {
                                    assert(cell(w, bx, by) == by * w + bx);
                                }
                                break ;
                            }
                            proof {
                                assert(cell(w, bx, by) == by * w + bx);
                            }
                        },
                    }
                }
                proof {
                    assert(byte_bits.skip(8 - jj + 1) + tail =~= rest.drop_first());
                    rest = rest.drop_first();
                }
                jj = jj - 1;
            }
            proof {
                assert(byte_bits.skip(8) + tail =~= tail);
            }
            i = i + 1;
        }
        proof {
            assert(codewords@.skip(i as int) =~= Seq::<u8>::empty());
        }
    }

    /// Draws the data codewords, then the error correction codewords, along
    /// the data path.
    pub fn draw_data(&mut self, data: &[u8], ec: &[u8])
        requires
            old(self).wf(),
        ensures
            final(self).wf(),
            final(self).width_spec() == old(self).width_spec(),
            final(self).version_spec() == old(self).version_spec(),
            final(self).ec_spec() == old(self).ec_spec(),
            final(self).modules_spec() == draw_data_spec(
                old(self).modules_spec(),
                old(self).width_spec(),
                data@,
                ec@,
            ),
    {
        let mut coords = DataModuleIter::new(self.version);
        self.draw_codewords(data, &mut coords);
        self.draw_codewords(ec, &mut coords);
    }
}

/// The colour at `(x, y)` of a `w` wide grid.
pub open spec fn color_at(m: Seq<Module>, w: int, x: int, y: int) -> Color {
    module_color(m[y * w + x])
}

/// The `k`-th colour of row `i` (`horizontal`) or column `i`.
pub open spec fn line_color(m: Seq<Module>, w: int, horizontal: bool, i: int, k: int) -> Color {
    if horizontal {
        color_at(m, w, k, i)
    } else {
        color_at(m, w, i, k)
    }
}

/// Length of the run of equal colours that ends at position `k` of a line.
pub open spec fn run_len(m: Seq<Module>, w: int, h: bool, i: int, k: int) -> int
    decreases k,
{
    if k <= 0 {
        1
    } else if line_color(m, w, h, i, k) == line_color(m, w, h, i, k - 1) {
        run_len(m, w, h, i, k - 1) + 1
    } else {
        1
    }
}

/// Penalty of the run that ends at position `k`, if one ends there.
pub open spec fn run_penalty(m: Seq<Module>, w: int, h: bool, i: int, k: int) -> int {
    let ends = k == w - 1 || line_color(m, w, h, i, k) != line_color(m, w, h, i, k + 1);
    let r = run_len(m, w, h, i, k);
    if ends && r >= 5 {
        r - 2
    } else {
        0
    }
}

/// Adjacent-run penalty of the runs of line `i` that end before position `n`.
pub open spec fn adjacent_line(m: Seq<Module>, w: int, h: bool, i: int, n: int) -> int
    decreases n,
{
    if n <= 0 {
        0
    } else {
        adjacent_line(m, w, h, i, n - 1) + run_penalty(m, w, h, i, n - 1)
    }
}

/// Adjacent-run penalty of the first `n` lines.
pub open spec fn adjacent_total(m: Seq<Module>, w: int, h: bool, n: int) -> int
    decreases n,
{
    if n <= 0 {
        0
    } else {
        adjacent_total(m, w, h, n - 1) + adjacent_line(m, w, h, n - 1, w)
    }
}

/// The 2 by 2 block with top-left corner `(x, y)` has one colour.
pub open spec fn block_at(m: Seq<Module>, w: int, x: int, y: int) -> bool {
    &&& color_at(m, w, x, y) == color_at(m, w, x + 1, y)
    &&& color_at(m, w, x + 1, y) == color_at(m, w, x, y + 1)
    &&& color_at(m, w, x, y + 1) == color_at(m, w, x + 1, y + 1)
}

pub open spec fn block_line(m: Seq<Module>, w: int, x: int, n: int) -> int
    decreases n,
{
    if n <= 0 {
        0
    } else {
        block_line(m, w, x, n - 1) + if block_at(m, w, x, n - 1) {
            3int
        } else {
            0
        }
    }
}

/// Block penalty of the blocks whose corner lies in the first `n` columns.
pub open spec fn block_total(m: Seq<Module>, w: int, n: int) -> int
    decreases n,
{
    if n <= 0 {
        0
    } else {
        block_total(m, w, n - 1) + block_line(m, w, n - 1, w - 1)
    }
}

/// Position `k` of line `i` is off the grid or light.
pub open spec fn light_or_out(m: Seq<Module>, w: int, h: bool, i: int, k: int) -> bool {
    !(0 <= k < w) || line_color(m, w, h, i, k) == Color::Light
}

/// Positions `j` to `j + 6` of line `i` read dark, light, dark, dark, dark,
/// light, dark, with four light (or missing) modules on both sides.
pub open spec fn finder_hit(m: Seq<Module>, w: int, h: bool, i: int, j: int) -> bool {
    &&& line_color(m, w, h, i, j) == Color::Dark
    &&& line_color(m, w, h, i, j + 1) == Color::Light
    &&& line_color(m, w, h, i, j + 2) == Color::Dark
    &&& line_color(m, w, h, i, j + 3) == Color::Dark
    &&& line_color(m, w, h, i, j + 4) == Color::Dark
    &&& line_color(m, w, h, i, j + 5) == Color::Light
    &&& line_color(m, w, h, i, j + 6) == Color::Dark
    &&& light_or_out(m, w, h, i, j - 4) && light_or_out(m, w, h, i, j - 3)
    &&& light_or_out(m, w, h, i, j - 2) && light_or_out(m, w, h, i, j - 1)
    &&& light_or_out(m, w, h, i, j + 7) && light_or_out(m, w, h, i, j + 8)
    &&& light_or_out(m, w, h, i, j + 9) && light_or_out(m, w, h, i, j + 10)
}

pub open spec fn finder_line(m: Seq<Module>, w: int, h: bool, i: int, n: int) -> int
    decreases n,
{
    if n <= 0 {
        0
    } else {
        finder_line(m, w, h, i, n - 1) + if finder_hit(m, w, h, i, n - 1) {
            40int
        } else {
            0
        }
    }
}

pub open spec fn finder_total(m: Seq<Module>, w: int, h: bool, n: int) -> int
    decreases n,
{
    if n <= 0 {
        0
    } else {
        finder_total(m, w, h, n - 1) + finder_line(m, w, h, n - 1, w - 6)
    }
}

/// Number of dark modules among the first `n`.
pub open spec fn dark_count(m: Seq<Module>, n: int) -> int
    decreases n,
{
    if n <= 0 {
        0
    } else {
        dark_count(m, n - 1) + if module_color(m[n - 1]) == Color::Dark {
            1int
        } else {
            0
        }
    }
}

/// Balance penalty: distance of `⌊200 · dark / total⌋` from 100.
pub open spec fn balance_score(m: Seq<Module>) -> int {
    let ratio = dark_count(m, m.len() as int) * 200 / (m.len() as int);
    if ratio >= 100 {
        ratio - 100
    } else {
        100 - ratio
    }
}

/// The total penalty of a `w` wide grid: adjacent runs, blocks, finder-like
/// patterns (less the constant 360 in each direction) and balance.
pub open spec fn penalty(m: Seq<Module>, w: int) -> int {
    adjacent_total(m, w, true, w) + adjacent_total(m, w, false, w) + block_total(m, w, w - 1)
        + (finder_total(m, w, true, w) - 360) + (finder_total(m, w, false, w) - 360)
        + balance_score(m)
}

proof fn lemma_run_len_bound(m: Seq<Module>, w: int, h: bool, i: int, k: int)
    requires
        0 <= k,
    ensures
        1 <= run_len(m, w, h, i, k) <= k + 1,
    decreases k,
{
    if k > 0 {
        lemma_run_len_bound(m, w, h, i, k - 1);
    }
}

impl Canvas {
    fn line_color_at(&self, is_horizontal: bool, i: i16, k: i16) -> (r: Color)
        requires
            self.wf(),
            0 <= i < self.width_spec(),
            0 <= k < self.width_spec(),
        ensures
            r == line_color(self.modules_spec(), self.width_spec(), is_horizontal, i as int, k as int),
    {
        if is_horizontal {
            Color::from(self.get(k, i))
        } else {
            Color::from(self.get(i, k))
        }
    }

    /// Adjacent-run penalty of every row (`is_horizontal`) or every column.
    fn compute_adjacent_penalty_score(&self, is_horizontal: bool) -> (r: u32)
        requires
            self.wf(),
        ensures
            r == adjacent_total(self.modules_spec(), self.width_spec(), is_horizontal, self.width_spec()),
            r <= 177 * 177 * 177,
    {
        proof {
            self.lemma_wf();
        }
        let ghost m = self.modules_spec();
        let ghost h = is_horizontal;
        let width = self.width;
        let mut total_score: u32 = 0;
        let mut i: i16 = 0;
        while i < width
            invariant
                self.wf(),
                m == self.modules_spec(),
                h == is_horizontal,
                width == self.width_spec(),
                21 <= width <= 177,
                0 <= i <= width,
                total_score == adjacent_total(m, width as int, h, i as int),
                total_score <= 31329 * (i as int),
            decreases width - i,
        {
            let mut line_score: u32 = 0;
            let mut last_color = self.line_color_at(is_horizontal, i, 0);
            let mut consecutive_len: u32 = 1;
            let mut j: i16 = 1;
            while j < width
                invariant
                    self.wf(),
                    m == self.modules_spec(),
                    h == is_horizontal,
                    width == self.width_spec(),
                    21 <= width <= 177,
                    0 <= i < width,
                    1 <= j <= width,
                    last_color == line_color(m, width as int, h, i as int, j - 1),
                    consecutive_len == run_len(m, width as int, h, i as int, j - 1),
                    line_score == adjacent_line(m, width as int, h, i as int, j - 1),
                    line_score <= 177 * (j as int - 1),
                decreases width - j,
            {
                proof {
                    lemma_run_len_bound(m, width as int, h, i as int, j - 1);
                }
                let color = self.line_color_at(is_horizontal, i, j);
                if color == last_color {
                    consecutive_len = consecutive_len + 1;
                } else {
                    if consecutive_len >= 5 {
                        line_score = line_score + consecutive_len - 2;
                    }
                    last_color = color;
                    consecutive_len = 1;
                }
                j = j + 1;
            }
            proof {
                lemma_run_len_bound(m, width as int, h, i as int, width - 1);
            }
            if consecutive_len >= 5 {
                line_score = line_score + consecutive_len - 2;
            }
            total_score = total_score + line_score;
            i = i + 1;
        }
        total_score
    }

    /// Block penalty: 3 for each 2 by 2 block of one colour.
    fn compute_block_penalty_score(&self) -> (r: u32)
        requires
            self.wf(),
        ensures
            r == block_total(self.modules_spec(), self.width_spec(), self.width_spec() - 1),
            r <= 3 * 177 * 177,
    {
        proof {
            self.lemma_wf();
        }
        let ghost m = self.modules_spec();
        let width = self.width;
        let mut total_score: u32 = 0;
        let mut i: i16 = 0;
        while i < width - 1
            invariant
                self.wf(),
                m == self.modules_spec(),
                width == self.width_spec(),
                21 <= width <= 177,
                0 <= i <= width - 1,
                total_score == block_total(m, width as int, i as int),
                total_score <= 531 * (i as int),
            decreases width - i,
        {
            let mut line_score: u32 = 0;
            let mut j: i16 = 0;
            while j < width - 1
                invariant
                    self.wf(),
                    m == self.modules_spec(),
                    width == self.width_spec(),
                    21 <= width <= 177,
                    0 <= i < width - 1,
                    0 <= j <= width - 1,
                    line_score == block_line(m, width as int, i as int, j as int),
                    line_score <= 3 * (j as int),
                decreases width - j,
            {
                let this = Color::from(self.get(i, j));
                let right = Color::from(self.get(i + 1, j));
                let bottom = Color::from(self.get(i, j + 1));
                let bottom_right = Color::from(self.get(i + 1, j + 1));
                if this == right && right == bottom && bottom == bottom_right {
                    line_score = line_score + 3;
                }
                j = j + 1;
            }
            total_score = total_score + line_score;
            i = i + 1;
        }
        total_score
    }

    fn light_or_out_at(&self, is_horizontal: bool, i: i16, k: i16) -> (r: bool)
        requires
            self.wf(),
            0 <= i < self.width_spec(),
            -4 <= k <= self.width_spec() + 4,
        ensures
            r == light_or_out(self.modules_spec(), self.width_spec(), is_horizontal, i as int, k as int),
    {
        if 0 <= k && k < self.width {
            self.line_color_at(is_horizontal, i, k) == Color::Light
        } else {
            true
        }
    }

    /// Finder-like penalty: 40 for each dark-light-dark-dark-dark-light-dark
    /// window with four light modules on both sides, less 360.
    fn compute_finder_penalty_score(&self, is_horizontal: bool) -> (r: i32)
        requires
            self.wf(),
        ensures
            r == finder_total(self.modules_spec(), self.width_spec(), is_horizontal, self.width_spec()) - 360,
            -360 <= r <= 40 * 177 * 177,
    {
        proof {
            self.lemma_wf();
        }
        let ghost m = self.modules_spec();
        let ghost h = is_horizontal;
        let width = self.width;
        let mut total_score: i32 = 0;
        let mut i: i16 = 0;
        while i < width
            invariant
                self.wf(),
                m == self.modules_spec(),
                h == is_horizontal,
                width == self.width_spec(),
                21 <= width <= 177,
                0 <= i <= width,
                total_score == finder_total(m, width as int, h, i as int),
                0 <= total_score <= 7080 * (i as int),
            decreases width - i,
        {
            let mut line_score: i32 = 0;
            let mut j: i16 = 0;
            while j < width - 6
                invariant
                    self.wf(),
                    m == self.modules_spec(),
                    h == is_horizontal,
                    width == self.width_spec(),
                    21 <= width <= 177,
                    0 <= i < width,
                    0 <= j <= width - 6,
                    line_score == finder_line(m, width as int, h, i as int, j as int),
                    0 <= line_score <= 40 * (j as int),
                decreases width - j,
            {
                let is_pattern = self.line_color_at(is_horizontal, i, j) == Color::Dark
                    && self.line_color_at(is_horizontal, i, j + 1) == Color::Light
                    && self.line_color_at(is_horizontal, i, j + 2) == Color::Dark
                    && self.line_color_at(is_horizontal, i, j + 3) == Color::Dark
                    && self.line_color_at(is_horizontal, i, j + 4) == Color::Dark
                    && self.line_color_at(is_horizontal, i, j + 5) == Color::Light
                    && self.line_color_at(is_horizontal, i, j + 6) == Color::Dark;
                if is_pattern {
                    let light_before = self.light_or_out_at(is_horizontal, i, j - 4)
                        && self.light_or_out_at(is_horizontal, i, j - 3)
                        && self.light_or_out_at(is_horizontal, i, j - 2)
                        && self.light_or_out_at(is_horizontal, i, j - 1);
                    let light_after = self.light_or_out_at(is_horizontal, i, j + 7)
                        && self.light_or_out_at(is_horizontal, i, j + 8)
                        && self.light_or_out_at(is_horizontal, i, j + 9)
                        && self.light_or_out_at(is_horizontal, i, j + 10);
                    if light_before && light_after {
                        line_score = line_score + 40;
                    }
                }
                j = j + 1;
            }
            total_score = total_score + line_score;
            i = i + 1;
        }
        total_score - 360
    }

    /// Balance penalty: how far `⌊200 · dark / total⌋` is from 100.
    fn compute_balance_penalty_score(&self) -> (r: u32)
        requires
            self.wf(),
        ensures
            r == balance_score(self.modules_spec()),
            r <= 100,
    {
        proof {
            self.lemma_wf();
        }
        let ghost m = self.modules_spec();
        let ghost w = self.width_spec();
        assert(441 <= w * w <= 177 * 177) by (nonlinear_arith)
            requires
                21 <= w <= 177,
        ;
        let total_modules = self.modules.len();
        let mut dark_modules: u32 = 0;
        let mut k: usize = 0;
        while k < total_modules
            invariant
                m == self.modules_spec(),
                total_modules == m.len(),
                total_modules <= 177 * 177,
                k <= total_modules,
                dark_modules == dark_count(m, k as int),
                dark_modules <= k,
            decreases total_modules - k,
        {
            if self.modules[k].is_dark() {
                dark_modules = dark_modules + 1;
            }
            k = k + 1;
        }
        assert((dark_modules as int) * 200 / (total_modules as int) <= 200) by (nonlinear_arith)
            requires
                dark_modules <= total_modules,
                total_modules > 0,
        ;
        let ratio = dark_modules * 200 / (total_modules as u32);
        if ratio >= 100 {
            ratio - 100
        } else {
            100 - ratio
        }
    }

    /// The total penalty of the canvas.
    fn compute_total_penalty_scores(&self) -> (r: i32)
        requires
            self.wf(),
        ensures
            r == penalty(self.modules_spec(), self.width_spec()),
    {
        let s1_a = self.compute_adjacent_penalty_score(true);
        let s1_b = self.compute_adjacent_penalty_score(false);
        let s2 = self.compute_block_penalty_score();
        let s3_a = self.compute_finder_penalty_score(true);
        let s3_b = self.compute_finder_penalty_score(false);
        let s4 = self.compute_balance_penalty_score();
        s1_a as i32 + s1_b as i32 + s2 as i32 + s3_a + s3_b + s4 as i32
    }
}

/// Penalty of the canvas `m` masked with the `j`-th pattern.
pub open spec fn masked_penalty(m: Seq<Module>, w: int, ec_level: EcLevel, j: int) -> int {
    penalty(apply_mask_spec(m, w, ec_level, ALL_PATTERNS_QR@[j]), w)
}

impl Canvas {
    fn copy_canvas(&self) -> (r: Canvas)
        requires
            self.wf(),
        ensures
            r.wf(),
            r.width_spec() == self.width_spec(),
            r.version_spec() == self.version_spec(),
            r.ec_spec() == self.ec_spec(),
            r.modules_spec() == self.modules_spec(),
    {
        let modules = self.modules.clone();
        assert(modules@ =~= self.modules@);
        Canvas { width: self.width, version: self.version, ec_level: self.ec_level, modules }
    }

    /// The canvas masked with each of the eight patterns, keeping the one of
    /// least penalty; among equal penalties the lowest pattern number wins.
    pub fn apply_best_mask(&self) -> (r: Self)
        requires
            self.wf(),
        ensures
            r.wf(),
            r.width_spec() == self.width_spec(),
            r.version_spec() == self.version_spec(),
            r.ec_spec() == self.ec_spec(),
            exists|k: int|
                {
                    &&& 0 <= k < 8
                    &&& r.modules_spec() == apply_mask_spec(
                        self.modules_spec(),
                        self.width_spec(),
                        self.ec_spec(),
                        ALL_PATTERNS_QR@[k],
                    )
                    &&& forall|j: int|
                        0 <= j < 8 ==> penalty(r.modules_spec(), r.width_spec())
                            <= #[trigger] masked_penalty(
                            self.modules_spec(),
                            self.width_spec(),
                            self.ec_spec(),
                            j,
                        )
                    &&& forall|j: int|
                        0 <= j < k ==> penalty(r.modules_spec(), r.width_spec())
                            < #[trigger] masked_penalty(
                            self.modules_spec(),
                            self.width_spec(),
                            self.ec_spec(),
                            j,
                        )
                },
    {
        let ghost m = self.modules_spec();
        let ghost w = self.width_spec();
        let ghost e = self.ec_spec();
        let mut best = self.copy_canvas();
        best.apply_mask(ALL_PATTERNS_QR[0]);
        let mut best_score = best.compute_total_penalty_scores();
        let mut best_k: usize = 0;
        let mut k: usize = 1;
        while k < 8
            invariant
                self.wf(),
                best.wf(),
                m == self.modules_spec(),
                w == self.width_spec(),
                e == self.ec_spec(),
                best.width_spec() == w,
                best.version_spec() == self.version_spec(),
                best.ec_spec() == e,
                1 <= k <= 8,
                best_k < k,
                best.modules_spec() == apply_mask_spec(m, w, e, ALL_PATTERNS_QR@[best_k as int]),
                best_score == penalty(best.modules_spec(), w),
                forall|j: int| 0 <= j < k ==> best_score <= #[trigger] masked_penalty(m, w, e, j),
                forall|j: int| 0 <= j < best_k ==> best_score < #[trigger] masked_penalty(m, w, e, j),
            decreases 8 - k,
        {
            let mut candidate = self.copy_canvas();
            candidate.apply_mask(ALL_PATTERNS_QR[k]);
            let score = candidate.compute_total_penalty_scores();
            assert(score == masked_penalty(m, w, e, k as int));
            if score < best_score {
                best = candidate;
                best_score = score;
                best_k = k;
            }
            k = k + 1;
        }
        best
    }
}

/// `k` is none of the 30 format information modules.
pub open spec fn outside_format_coords(w: int, k: int) -> bool {
    &&& forall|i: int|
        0 <= i < 15 ==> cell(
            w,
            (#[trigger] FORMAT_INFO_COORDS_QR_MAIN@[i]).0 as int,
            FORMAT_INFO_COORDS_QR_MAIN@[i].1 as int,
        ) != k
    &&& forall|i: int|
        0 <= i < 15 ==> cell(
            w,
            (#[trigger] FORMAT_INFO_COORDS_QR_SIDE@[i]).0 as int,
            FORMAT_INFO_COORDS_QR_SIDE@[i].1 as int,
        ) != k
}

proof fn lemma_put_bits_keeps(
    m: Seq<Module>,
    w: int,
    coords: Seq<(i16, i16)>,
    number: int,
    nbits: int,
    on: Color,
    off: Color,
    k: int,
)
    requires
        0 <= k < m.len(),
        m.len() == w * w,
        forall|i: int|
            0 <= i < coords.len() ==> cell(w, (#[trigger] coords[i]).0 as int, coords[i].1 as int)
                != k && coord_in(w, coords[i].0 as int, coords[i].1 as int),
    ensures
        put_bits(m, w, coords, number, nbits, on, off)[k] == m[k],
        put_bits(m, w, coords, number, nbits, on, off).len() == m.len(),
    decreases coords.len(),
{
    if coords.len() > 0 {
        assert forall|i: int| 0 <= i < coords.drop_last().len() implies cell(
            w,
            (#[trigger] coords.drop_last()[i]).0 as int,
            coords.drop_last()[i].1 as int,
        ) != k && coord_in(w, coords.drop_last()[i].0 as int, coords.drop_last()[i].1 as int) by {
            assert(coords.drop_last()[i] == coords[i]);
        }
        let last = coords[coords.len() - 1];
        assert(cell(w, last.0 as int, last.1 as int) != k);
        lemma_cell_in(w, last.0 as int, last.1 as int);
        lemma_put_bits_keeps(m, w, coords.drop_last(), number, nbits, on, off, k);
    }
}

proof fn lemma_fill_keeps(m: Seq<Module>, w: int, x: int, y: int, bits: Seq<bool>, k: int)
    requires
        0 <= k < m.len(),
        m.len() == w * w,
        m[k] != Module::Empty,
    ensures
        fill(m, w, x, y, bits)[k] == m[k],
        fill(m, w, x, y, bits).len() == m.len(),
    decreases w - path_key(w, x), 2 * w - path_index(w, x, y), bits.len(),
{
    if !path_ok(w, x, y) || path_done(x) || bits.len() == 0 {
    } else {
        lemma_path_step(w, x, y);
        let (nx, ny) = path_step(w, x, y);
        let idx = y * w + x;
        assert(0 <= idx < w * w) by (nonlinear_arith)
            requires
                0 <= x < w,
                0 <= y < w,
                idx == y * w + x,
        ;
        if m[idx] == Module::Empty {
            let m2 = m.update(
                idx,
                Module::Unmasked(
                    if bits[0] {
                        Color::Dark
                    } else {
                        Color::Light
                    },
                ),
            );
            lemma_fill_keeps(m2, w, nx, ny, bits.drop_first(), k);
        } else {
            lemma_fill_keeps(m, w, nx, ny, bits, k);
        }
    }
}

/// A coordinate within 11 modules of an edge is never column 8 once wrapped.
proof fn lemma_cell_not_dark_module(w: int, x: int, y: int)
    requires
        21 <= w <= 177,
        -11 <= x <= 5,
        -11 <= y <= 5,
    ensures
        cell(w, x, y) != cell(w, 8, -8),
{
    let wx = wrap(w, x);
    let wy = wrap(w, y);
    vstd::arithmetic::div_mod::lemma_fundamental_div_mod_converse(cell(w, x, y), w, wy, wx);
    vstd::arithmetic::div_mod::lemma_fundamental_div_mod_converse(cell(w, 8, -8), w, w - 8, 8);
}

/// After the function patterns of a normal version, the module at
/// `(8, -8)` is dark.
pub proof fn lemma_dark_module(m: Seq<Module>, w: int, version: Version)
    requires
        version.is_normal(),
        w == version.width_spec(),
        m.len() == w * w,
    ensures
        function_patterns(m, w, version)[cell(w, 8, -8)] == Module::Masked(Color::Dark),
{
    let c8 = cell(w, 8, -8);
    lemma_cell_in(w, 8, -8);
    vstd::arithmetic::div_mod::lemma_fundamental_div_mod_converse(c8, w, w - 8, 8);
    let a = alignments_drawn(finders_drawn(m, w), w, version);
    assert(a.len() == m.len()) by {
        lemma_alignments_len(finders_drawn(m, w), w, version);
    }
    lemma_format_coords();
    let f = format_drawn(a, w, 0);
    let p1 = put_bits(a, w, FORMAT_INFO_COORDS_QR_MAIN@, 0, 15, Color::Dark, Color::Light);
    lemma_put_bits_function(a, w, FORMAT_INFO_COORDS_QR_MAIN@, 0, 15, Color::Dark, Color::Light);
    lemma_put_bits_function(p1, w, FORMAT_INFO_COORDS_QR_SIDE@, 0, 15, Color::Dark, Color::Light);
    assert(f[c8] == Module::Masked(Color::Dark));
    let t = timing_drawn(f, w);
    let h = line_drawn(f, w, 8, 6, w - 9, 6, Color::Dark, Color::Light);
    assert(h[c8] == f[c8]);
    assert(t[c8] == h[c8]);
    if let Version::Normal(v) = version {
        if v >= 7 {
            let info = VERSION_INFOS@[v - 7] as int;
            assert(coords_within(VERSION_INFO_COORDS_BL@, -11, 5)) by {
                reveal_with_fuel(coords_within, 19);
            }
            assert(coords_within(VERSION_INFO_COORDS_TR@, -11, 5)) by {
                reveal_with_fuel(coords_within, 19);
            }
            lemma_coords_within(VERSION_INFO_COORDS_BL@, -11, 5);
            lemma_coords_within(VERSION_INFO_COORDS_TR@, -11, 5);
            assert forall|i: int| 0 <= i < VERSION_INFO_COORDS_BL@.len() implies cell(
                w,
                (#[trigger] VERSION_INFO_COORDS_BL@[i]).0 as int,
                VERSION_INFO_COORDS_BL@[i].1 as int,
            ) != c8 && coord_in(w, VERSION_INFO_COORDS_BL@[i].0 as int, VERSION_INFO_COORDS_BL@[i].1 as int) by {
                lemma_cell_not_dark_module(w, VERSION_INFO_COORDS_BL@[i].0 as int, VERSION_INFO_COORDS_BL@[i].1 as int);
            }
            assert forall|i: int| 0 <= i < VERSION_INFO_COORDS_TR@.len() implies cell(
                w,
                (#[trigger] VERSION_INFO_COORDS_TR@[i]).0 as int,
                VERSION_INFO_COORDS_TR@[i].1 as int,
            ) != c8 && coord_in(w, VERSION_INFO_COORDS_TR@[i].0 as int, VERSION_INFO_COORDS_TR@[i].1 as int) by {
                lemma_cell_not_dark_module(w, VERSION_INFO_COORDS_TR@[i].0 as int, VERSION_INFO_COORDS_TR@[i].1 as int);
            }
            lemma_put_bits_keeps(t, w, VERSION_INFO_COORDS_BL@, info, 18, Color::Dark, Color::Light, c8);
            let b = put_bits(t, w, VERSION_INFO_COORDS_BL@, info, 18, Color::Dark, Color::Light);
            lemma_put_bits_keeps(b, w, VERSION_INFO_COORDS_TR@, info, 18, Color::Dark, Color::Light, c8);
        }
    }
}

proof fn lemma_box_function(
    m: Seq<Module>,
    w: int,
    cx: int,
    cy: int,
    lo_i: int,
    hi_i: int,
    lo_j: int,
    jdone: int,
    idone: int,
    finder: bool,
)
    ensures
        only_function_writes(m, box_drawn(m, w, cx, cy, lo_i, hi_i, lo_j, jdone, idone, finder)),
{
}

proof fn lemma_alignments_fold_function(m: Seq<Module>, w: int, row: int, count: int, n: int)
    ensures
        only_function_writes(m, alignments_fold(m, w, row, count, n)),
    decreases n,
{
    if n > 0 && count > 0 {
        lemma_alignments_fold_function(m, w, row, count, n - 1);
        let p = alignments_fold(m, w, row, count, n - 1);
        let x = ALIGNMENT_PATTERN_POSITIONS@[row]@[(n - 1) / count] as int;
        let y = ALIGNMENT_PATTERN_POSITIONS@[row]@[(n - 1) % count] as int;
        lemma_box_function(p, w, x, y, -2, 2, -2, 3, -2, false);
        lemma_function_writes_trans(m, p, alignments_fold(m, w, row, count, n));
    }
}

/// Drawing the function patterns only turns modules into function modules.
pub proof fn lemma_function_patterns_writes(m: Seq<Module>, w: int, version: Version)
    requires
        21 <= w <= 177,
        m.len() == w * w,
    ensures
        only_function_writes(m, function_patterns(m, w, version)),
{
    let f1 = finder_drawn(m, w, 3, 3);
    let f2 = finder_drawn(f1, w, -4, 3);
    let f3 = finder_drawn(f2, w, 3, -4);
    lemma_box_function(m, w, 3, 3, -3, 4, -3, 5, -3, true);
    lemma_box_function(f1, w, -4, 3, -4, 3, -3, 5, -4, true);
    lemma_box_function(f2, w, 3, -4, -3, 4, -4, 4, -3, true);
    lemma_function_writes_trans(m, f1, f2);
    lemma_function_writes_trans(m, f2, f3);
    let a = alignments_drawn(f3, w, version);
    if let Version::Normal(v) = version {
        if v >= 7 {
            let count = v / 7 + 2;
            lemma_alignments_fold_function(f3, w, v - 7, count, count * count);
        } else if v > 1 {
            lemma_box_function(f3, w, -7, -7, -2, 2, -2, 3, -2, false);
        }
    }
    lemma_function_writes_trans(m, f3, a);
    lemma_format_drawn_function(a, w, 0);
    let f = format_drawn(a, w, 0);
    lemma_function_writes_trans(m, a, f);
    let h = line_drawn(f, w, 8, 6, w - 9, 6, Color::Dark, Color::Light);
    let t = timing_drawn(f, w);
    lemma_function_writes_trans(m, f, h);
    lemma_function_writes_trans(m, h, t);
    if let Version::Normal(v) = version {
        if v >= 7 {
            let info = VERSION_INFOS@[v - 7] as int;
            assert(coords_within(VERSION_INFO_COORDS_BL@, -11, 5)) by {
                reveal_with_fuel(coords_within, 19);
            }
            assert(coords_within(VERSION_INFO_COORDS_TR@, -11, 5)) by {
                reveal_with_fuel(coords_within, 19);
            }
            lemma_coords_within(VERSION_INFO_COORDS_BL@, -11, 5);
            lemma_coords_within(VERSION_INFO_COORDS_TR@, -11, 5);
            lemma_put_bits_function(t, w, VERSION_INFO_COORDS_BL@, info, 18, Color::Dark, Color::Light);
            let b = put_bits(t, w, VERSION_INFO_COORDS_BL@, info, 18, Color::Dark, Color::Light);
            lemma_put_bits_function(b, w, VERSION_INFO_COORDS_TR@, info, 18, Color::Dark, Color::Light);
            lemma_function_writes_trans(t, b, function_patterns(m, w, version));
            lemma_function_writes_trans(m, t, function_patterns(m, w, version));
        } else {
            lemma_function_writes_trans(m, t, function_patterns(m, w, version));
        }
    } else {
        lemma_function_writes_trans(m, t, function_patterns(m, w, version));
    }
}

proof fn lemma_alignments_len(m: Seq<Module>, w: int, version: Version)
    ensures
        alignments_drawn(m, w, version).len() == m.len(),
{
    if let Version::Normal(v) = version {
        if v >= 7 {
            let count = v / 7 + 2;
            lemma_alignments_fold_len(m, w, v - 7, count, count * count);
        }
    }
}

proof fn lemma_alignments_fold_len(m: Seq<Module>, w: int, row: int, count: int, n: int)
    ensures
        alignments_fold(m, w, row, count, n).len() == m.len(),
    decreases n,
{
    if n > 0 && count > 0 {
        lemma_alignments_fold_len(m, w, row, count, n - 1);
    }
}

/// Function pattern immutability: after the function patterns of a normal
/// version are drawn on an empty grid, drawing data and masking with any
/// pattern leave every function module as it was, apart from the 30 format
/// information modules, which take the mask's format bits. The dark module
/// stays dark.
pub proof fn lemma_function_patterns_kept(
    w: int,
    version: Version,
    data: Seq<u8>,
    ec: Seq<u8>,
    ec_level: EcLevel,
    pattern: MaskPattern,
    k: int,
)
    requires
        version.is_normal(),
        w == version.width_spec(),
        0 <= k < w * w,
        function_patterns(Seq::new((w * w) as nat, |i: int| Module::Empty), w, version)[k]
            != Module::Empty,
        outside_format_coords(w, k),
    ensures
        apply_mask_spec(
            draw_data_spec(
                function_patterns(Seq::new((w * w) as nat, |i: int| Module::Empty), w, version),
                w,
                data,
                ec,
            ),
            w,
            ec_level,
            pattern,
        )[k] == function_patterns(Seq::new((w * w) as nat, |i: int| Module::Empty), w, version)[k],
{
    let e = Seq::new((w * w) as nat, |i: int| Module::Empty);
    let m = function_patterns(e, w, version);
    lemma_function_patterns_writes(e, w, version);
    assert(e[k] == Module::Empty);
    assert(m[k] is Masked);
    let a = crate::bits::byte_payload(data);
    let end = fill_end(m, w, w - 1, w - 1, a);
    let d1 = fill(m, w, w - 1, w - 1, a);
    lemma_fill_keeps(m, w, w - 1, w - 1, a, k);
    lemma_fill_keeps(d1, w, end.0, end.1, crate::bits::byte_payload(ec), k);
    let d = draw_data_spec(m, w, data, ec);
    let mm = masked_modules(d, w, pattern);
    assert(mm[k] == m[k]);
    let f = FORMAT_INFOS_QR@[format_index(ec_level, pattern)] as int;
    lemma_format_coords();
    lemma_cell_in(w, 8, -8);
    lemma_put_bits_keeps(mm, w, FORMAT_INFO_COORDS_QR_MAIN@, f, 15, Color::Dark, Color::Light, k);
    let p1 = put_bits(mm, w, FORMAT_INFO_COORDS_QR_MAIN@, f, 15, Color::Dark, Color::Light);
    lemma_put_bits_keeps(p1, w, FORMAT_INFO_COORDS_QR_SIDE@, f, 15, Color::Dark, Color::Light, k);
    if k == cell(w, 8, -8) {
        lemma_dark_module(e, w, version);
    }
}

/// The colour projection: an empty module shows light, and a masked or
/// unmasked module shows its own colour.
pub proof fn lemma_color_projection(c: Color)
    ensures
        module_color(Module::Empty) == Color::Light,
        module_color(Module::Masked(c)) == c,
        module_color(Module::Unmasked(c)) == c,
{
}

} // verus!
