//! Scaling a symbol's colours to pixels, with a light quiet zone around it.
use vstd::prelude::*;
use crate::types::Color;

verus! {

/// A pixel type that a symbol can be drawn in.
pub trait Pixel: Copy + Sized {
    /// The default size of one module in pixels, width and height.
    fn default_unit_size() -> (u32, u32) {
        (8, 8)
    }

    /// The default pixel of a dark or a light module.
    fn default_color(color: Color) -> Self;
}

/// Draws the colours of a square symbol into a pixel buffer.
pub struct Renderer<'a, P: Pixel> {
    content: &'a [Color],
    modules_count: u32,
    quiet_zone: u32,
    module_size: (u32, u32),
    dark_color: P,
    light_color: P,
    has_quiet_zone: bool,
}

/// The pixel at `(px, py)`: dark where it falls in a dark module of the
/// `w` by `w` symbol `content`, placed `qz` modules from the edge, each
/// module `mw` by `mh` pixels; light elsewhere.
pub open spec fn pixel_is_dark(
    content: Seq<Color>,
    w: int,
    qz: int,
    mw: int,
    mh: int,
    px: int,
    py: int,
) -> bool {
    let mx = px / mw;
    let my = py / mh;
    qz <= mx < w + qz && qz <= my < w + qz && content[(my - qz) * w + (mx - qz)] != Color::Light
}

impl<'a, P: Pixel> Renderer<'a, P> {
    pub closed spec fn content_spec(&self) -> Seq<Color> {
        self.content@
    }

    pub closed spec fn modules_count_spec(&self) -> int {
        self.modules_count as int
    }

    /// The quiet zone in modules, 0 where it is switched off.
    pub closed spec fn quiet_zone_spec(&self) -> int {
        if self.has_quiet_zone {
            self.quiet_zone as int
        } else {
            0
        }
    }

    /// The quiet zone in modules when it is switched on.
    pub closed spec fn configured_quiet_zone(&self) -> int {
        self.quiet_zone as int
    }

    pub closed spec fn module_size_spec(&self) -> (u32, u32) {
        self.module_size
    }

    pub closed spec fn dark_spec(&self) -> P {
        self.dark_color
    }

    pub closed spec fn light_spec(&self) -> P {
        self.light_color
    }

    pub closed spec fn wf(&self) -> bool {
        &&& self.modules_count * self.modules_count == self.content@.len()
        &&& self.module_size.0 >= 1
        &&& self.module_size.1 >= 1
    }

    /// Side of the image in modules, quiet zone included.
    pub open spec fn side(&self) -> int {
        self.modules_count_spec() + 2 * self.quiet_zone_spec()
    }

    /// A renderer of the `modules_count` by `modules_count` colours
    /// `content`, with a quiet zone of `quiet_zone` modules and the pixel
    /// type's default colours and module size.
    pub fn new(content: &'a [Color], modules_count: usize, quiet_zone: u32) -> (r: Self)
        requires
            modules_count * modules_count == content@.len(),
            modules_count <= u32::MAX,
        ensures
            r.content_spec() == content@,
            r.modules_count_spec() == modules_count,
            r.quiet_zone_spec() == quiet_zone,
            r.configured_quiet_zone() == quiet_zone,
            r.wf() <==> r.module_size_spec().0 >= 1 && r.module_size_spec().1 >= 1,
    {
        let (uw, uh) = P::default_unit_size();
        Renderer {
            content,
            modules_count: modules_count as u32,
            quiet_zone,
            module_size: (uw, uh),
            dark_color: P::default_color(Color::Dark),
            light_color: P::default_color(Color::Light),
            has_quiet_zone: true,
        }
    }

    /// Sets the pixel of a dark module.
    pub fn dark_color(&mut self, color: P)
        ensures
            final(self).dark_spec() == color,
            final(self).light_spec() == old(self).light_spec(),
            final(self).content_spec() == old(self).content_spec(),
            final(self).modules_count_spec() == old(self).modules_count_spec(),
            final(self).quiet_zone_spec() == old(self).quiet_zone_spec(),
            final(self).configured_quiet_zone() == old(self).configured_quiet_zone(),
            final(self).module_size_spec() == old(self).module_size_spec(),
            final(self).wf() == old(self).wf(),
    {
        self.dark_color = color;
    }

    /// Sets the pixel of a light module.
    pub fn light_color(&mut self, color: P)
        ensures
            final(self).light_spec() == color,
            final(self).dark_spec() == old(self).dark_spec(),
            final(self).content_spec() == old(self).content_spec(),
            final(self).modules_count_spec() == old(self).modules_count_spec(),
            final(self).quiet_zone_spec() == old(self).quiet_zone_spec(),
            final(self).configured_quiet_zone() == old(self).configured_quiet_zone(),
            final(self).module_size_spec() == old(self).module_size_spec(),
            final(self).wf() == old(self).wf(),
    {
        self.light_color = color;
    }

    /// Switches the quiet zone on or off.
    pub fn quiet_zone(&mut self, has_quiet_zone: bool)
        ensures
            final(self).quiet_zone_spec() == if has_quiet_zone {
                old(self).configured_quiet_zone()
            } else {
                0
            },
            final(self).configured_quiet_zone() == old(self).configured_quiet_zone(),
            final(self).dark_spec() == old(self).dark_spec(),
            final(self).light_spec() == old(self).light_spec(),
            final(self).content_spec() == old(self).content_spec(),
            final(self).modules_count_spec() == old(self).modules_count_spec(),
            final(self).module_size_spec() == old(self).module_size_spec(),
            final(self).wf() == old(self).wf(),
    {
        self.has_quiet_zone = has_quiet_zone;
    }

    /// Sets the size of a module in pixels; each side is at least 1.
    pub fn module_dimensions(&mut self, width: u32, height: u32)
        ensures
            final(self).module_size_spec() == (
                if width >= 1 {
                    width
                } else {
                    1
                },
                if height >= 1 {
                    height
                } else {
                    1
                },
            ),
            final(self).dark_spec() == old(self).dark_spec(),
            final(self).light_spec() == old(self).light_spec(),
            final(self).content_spec() == old(self).content_spec(),
            final(self).modules_count_spec() == old(self).modules_count_spec(),
            final(self).quiet_zone_spec() == old(self).quiet_zone_spec(),
            final(self).configured_quiet_zone() == old(self).configured_quiet_zone(),
            final(self).wf() == (old(self).modules_count_spec() * old(self).modules_count_spec()
                == old(self).content_spec().len()),
    {
        let w = if width >= 1 {
            width
        } else {
            1
        };
        let h = if height >= 1 {
            height
        } else {
            1
        };
        self.module_size = (w, h);
    }

    /// The image, row by row: `side() * module width` pixels across and
    /// `side() * module height` down, each pixel dark where it falls in a
    /// dark module.
    pub fn build(&self) -> (r: Vec<P>)
        requires
            self.wf(),
            self.side() * self.module_size_spec().0 * (self.side() * self.module_size_spec().1)
                <= u32::MAX,
        ensures
            ({
                let rw = self.side() * self.module_size_spec().0;
                let rh = self.side() * self.module_size_spec().1;
                &&& r@.len() == rw * rh
                &&& forall|k: int|
                    0 <= k < r@.len() ==> #[trigger] r@[k] == if pixel_is_dark(
                        self.content_spec(),
                        self.modules_count_spec(),
                        self.quiet_zone_spec(),
                        self.module_size_spec().0 as int,
                        self.module_size_spec().1 as int,
                        k % rw,
                        k / rw,
                    ) {
                        self.dark_spec()
                    } else {
                        self.light_spec()
                    }
            }),
    {
        let w = self.modules_count;
        let qz = if self.has_quiet_zone {
            self.quiet_zone
        } else {
            0
        };
        let (mw, mh) = self.module_size;
        let ghost side = self.side();
        proof {
            assert(side * mw <= side * mw * (side * mh)) by (nonlinear_arith)
                requires
                    side >= 0,
                    mw >= 1,
                    mh >= 1,
            ;
            assert(side * mh <= side * mw * (side * mh)) by (nonlinear_arith)
                requires
                    side >= 0,
                    mw >= 1,
                    mh >= 1,
            ;
            assert(side <= side * mw) by (nonlinear_arith)
                requires
                    side >= 0,
                    mw >= 1,
            ;
        }
        let content_len = self.content.len();
        assert(self.content_spec().len() == content_len);
        let width = w + 2 * qz;
        let real_width = width * mw;
        let real_height = width * mh;
        let mut out: Vec<P> = Vec::new();
        let mut py: u32 = 0;
        while py < real_height
            invariant
                self.wf(),
                w == self.modules_count_spec(),
                qz == self.quiet_zone_spec(),
                mw == self.module_size_spec().0,
                mh == self.module_size_spec().1,
                mw >= 1,
                mh >= 1,
                width == side,
                side == self.side(),
                w + 2 * qz == width,
                self.content_spec().len() <= usize::MAX,
                real_width == width * mw,
                real_height == width * mh,
                real_width * real_height <= u32::MAX,
                py <= real_height,
                out@.len() == py * real_width,
                forall|k: int|
                    0 <= k < out@.len() ==> #[trigger] out@[k] == if pixel_is_dark(
                        self.content_spec(),
                        w as int,
                        qz as int,
                        mw as int,
                        mh as int,
                        k % (real_width as int),
                        k / (real_width as int),
                    ) {
                        self.dark_spec()
                    } else {
                        self.light_spec()
                    },
            decreases real_height - py,
        {
            let mut px: u32 = 0;
            proof {
                assert(py * real_width + real_width <= real_height * real_width) by (nonlinear_arith)
                    requires
                        py < real_height,
                ;
                assert(real_height * real_width == real_width * real_height) by (nonlinear_arith);
            }
            while px < real_width
                invariant
                    self.wf(),
                    w == self.modules_count_spec(),
                    qz == self.quiet_zone_spec(),
                    mw == self.module_size_spec().0,
                    mh == self.module_size_spec().1,
                    mw >= 1,
                    mh >= 1,
                    width == side,
                    w + 2 * qz == width,
                    self.content_spec().len() <= usize::MAX,
                    real_width == width * mw,
                    real_height == width * mh,
                    real_width * real_height <= u32::MAX,
                    py < real_height,
                    px <= real_width,
                    py * real_width + real_width <= u32::MAX,
                    out@.len() == py * real_width + px,
                    forall|k: int|
                        0 <= k < out@.len() ==> #[trigger] out@[k] == if pixel_is_dark(
                            self.content_spec(),
                            w as int,
                            qz as int,
                            mw as int,
                            mh as int,
                            k % (real_width as int),
                            k / (real_width as int),
                        ) {
                            self.dark_spec()
                        } else {
                            self.light_spec()
                        },
                decreases real_width - px,
            {
                let mx = px / mw;
                let my = py / mh;
                let dark = if qz <= mx && mx < w + qz && qz <= my && my < w + qz {
                    proof {
                        assert((my - qz) * w + (mx - qz) < w * w) by (nonlinear_arith)
                            requires
                                0 <= my - qz < w,
                                0 <= mx - qz < w,
                        ;
                    }
                    let i = ((my - qz) as usize) * (w as usize) + ((mx - qz) as usize);
                    self.content[i] != Color::Light
                } else {
                    false
                };
                proof {
                    let k = py * real_width + px;
                    vstd::arithmetic::div_mod::lemma_fundamental_div_mod_converse(
                        k as int,
                        real_width as int,
                        py as int,
                        px as int,
                    );
                }
                out.push(if dark {
                    self.dark_color
                } else {
                    self.light_color
                });
                px = px + 1;
            }
            proof {
                assert(py * real_width + real_width == (py + 1) * real_width) by (nonlinear_arith);
            }
            py = py + 1;
        }
        proof {
            assert(real_height * real_width == real_width * real_height) by (nonlinear_arith);
        }
        out
    }
}

} // verus!
