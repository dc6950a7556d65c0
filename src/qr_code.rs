//! A finished symbol: the colours of its modules, row by row.
use vstd::prelude::*;
use crate::canvas::{
    Canvas, Module, module_color, function_patterns, draw_data_spec, apply_mask_spec,
    masked_penalty, penalty, ALL_PATTERNS_QR,
};
use crate::render::{Pixel, Renderer};
use crate::types::{Color, EcLevel, QrError, QrResult, Version};

verus! {

/// `content` are the colours of the symbol of `version`, `w` wide, laid out
/// from the codewords `data` and `ec`: the function patterns drawn on an
/// empty grid, the codewords along the data path, then mask pattern `k`
/// with its format information, where `k` has the least penalty (the lowest
/// number among equals).
pub open spec fn laid_out_with(
    content: Seq<Color>,
    w: int,
    version: Version,
    ec_level: EcLevel,
    data: Seq<u8>,
    ec: Seq<u8>,
    k: int,
) -> bool {
    let mf = function_patterns(Seq::new((w * w) as nat, |i: int| Module::Empty), w, version);
    let md = draw_data_spec(mf, w, data, ec);
    let masked = apply_mask_spec(md, w, ec_level, ALL_PATTERNS_QR@[k]);
    &&& 0 <= k < 8
    &&& content == masked.map_values(|m: Module| module_color(m))
    &&& forall|j: int|
        0 <= j < 8 ==> penalty(masked, w) <= #[trigger] masked_penalty(md, w, ec_level, j)
    &&& forall|j: int|
        0 <= j < k ==> penalty(masked, w) < #[trigger] masked_penalty(md, w, ec_level, j)
}

/// `content` is laid out from `data` and `ec` with the best mask.
pub open spec fn laid_out(
    content: Seq<Color>,
    w: int,
    version: Version,
    ec_level: EcLevel,
    data: Seq<u8>,
    ec: Seq<u8>,
) -> bool {
    exists|k: int| #[trigger] laid_out_with(content, w, version, ec_level, data, ec, k)
}

/// The colours of a symbol's modules, with its version and level.
#[derive(Clone)]
pub struct QrCode {
    content: Vec<Color>,
    version: Version,
    ec_level: EcLevel,
    width: usize,
}

impl QrCode {
    pub closed spec fn content_spec(&self) -> Seq<Color> {
        self.content@
    }

    pub closed spec fn version_spec(&self) -> Version {
        self.version
    }

    pub closed spec fn ec_spec(&self) -> EcLevel {
        self.ec_level
    }

    pub closed spec fn width_spec(&self) -> int {
        self.width as int
    }

    /// The colours fill the square of the symbol's width.
    pub closed spec fn wf(&self) -> bool {
        &&& self.content@.len() == self.width * self.width
        &&& self.width <= 177
    }

    /// Lays out a symbol of a normal `version` from its data codewords and
    /// error correction codewords: function patterns, the codewords along
    /// the data path, then the mask of least penalty with its format
    /// information. Fails `InvalidVersion` for any other version.
    pub fn with_codewords(
        version: Version,
        ec_level: EcLevel,
        encoded_data: &[u8],
        ec_data: &[u8],
    ) -> (r: QrResult<Self>)
        ensures
            version.is_normal() <==> r is Ok,
            !version.is_normal() ==> r == Err::<QrCode, QrError>(QrError::InvalidVersion),
            r is Ok ==> {
                let q = r->Ok_0;
                &&& q.version_spec() == version
                &&& q.ec_spec() == ec_level
                &&& q.width_spec() == version.width_spec()
                &&& q.content_spec().len() == q.width_spec() * q.width_spec()
                &&& q.wf()
                &&& laid_out(q.content_spec(), q.width_spec(), version, ec_level, encoded_data@, ec_data@)
            },
    {
        let valid = match version {
            Version::Normal(v) => 1 <= v && v <= 40,
            Version::Micro(_) => false,
        };
        if !valid {
            return Err(QrError::InvalidVersion);
        }
        let mut canvas = Canvas::new(version, ec_level);
        canvas.draw_all_functional_patterns();
        let ghost mf = canvas.modules_spec();
        canvas.draw_data(encoded_data, ec_data);
        let ghost md = canvas.modules_spec();
        let ghost w = canvas.width_spec();
        let canvas = canvas.apply_best_mask();
        proof {
            canvas.lemma_wf();
        }
        let width = version.width() as usize;
        let ghost best = canvas.modules_spec();
        let content = canvas.into_colors();
        proof {
            let k = choose|k: int|
                {
                    &&& 0 <= k < 8
                    &&& best == apply_mask_spec(md, w, ec_level, ALL_PATTERNS_QR@[k])
                    &&& forall|j: int|
                        0 <= j < 8 ==> penalty(best, w) <= #[trigger] masked_penalty(md, w, ec_level, j)
                    &&& forall|j: int|
                        0 <= j < k ==> penalty(best, w) < #[trigger] masked_penalty(md, w, ec_level, j)
                };
            assert(md == draw_data_spec(mf, w, encoded_data@, ec_data@));
            assert(laid_out_with(content@, w, version, ec_level, encoded_data@, ec_data@, k));
        }
        Ok(QrCode { content, version, ec_level, width })
    }

    /// The colours of the modules, row by row.
    pub fn to_colors(&self) -> (r: Vec<Color>)
        ensures
            r@ == self.content_spec(),
    {
        self.content.clone()
    }

    /// The version of the symbol.
    pub fn version(&self) -> (r: Version)
        ensures
            r == self.version_spec(),
    {
        self.version
    }

    /// The error correction level of the symbol.
    pub fn error_correction_level(&self) -> (r: EcLevel)
        ensures
            r == self.ec_spec(),
    {
        self.ec_level
    }

    /// The number of modules on a side.
    pub fn width(&self) -> (r: usize)
        ensures
            r == self.width_spec(),
    {
        self.width
    }
}

impl QrCode {
    /// A renderer of the symbol with a quiet zone of 4 modules (2 for a
    /// micro symbol).
    pub fn render<P: Pixel>(&self) -> (r: Renderer<'_, P>)
        requires
            self.wf(),
        ensures
            r.content_spec() == self.content_spec(),
            r.modules_count_spec() == self.width_spec(),
            r.quiet_zone_spec() == if self.version_spec() is Micro {
                2int
            } else {
                4
            },
    {
        let quiet_zone: u32 = if self.version.is_micro() {
            2
        } else {
            4
        };
        Renderer::new(self.content.as_slice(), self.width, quiet_zone)
    }
}

} // verus!
