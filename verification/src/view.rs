//! EXIF orientation as a transform of texture coordinates, and the two fit modes.
//!
//! *Displayed* size is the image size **after** orientation, so orientations 5-8 have
//! width and height swapped relative to the stored pixels.
use vstd::prelude::*;

verus! {

/// EXIF orientation, 1..=8.
///
/// Applied as a texture-coordinate transform rather than by rotating pixels, so it costs
/// nothing and never touches the decoded buffer.
#[derive(Clone, Copy, PartialEq, Eq, Debug, Structural)]
pub struct Orientation(u16);

impl Default for Orientation {
    fn default() -> (o: Self)
        ensures
            o.spec_value() == 1,
    {
        Orientation(1)
    }
}

impl Orientation {
    pub closed spec fn spec_value(self) -> u16 {
        self.0
    }

    #[verifier::type_invariant]
    spec fn in_range(self) -> bool {
        1 <= self.0 <= 8
    }

    /// Values outside 1..=8 fall back to 1, matching how viewers treat junk EXIF.
    pub fn new(v: u16) -> (o: Self)
        ensures
            o.spec_value() == (if 1 <= v <= 8 {
                v
            } else {
                1
            }),
    {
        Orientation(
            if 1 <= v && v <= 8 {
                v
            } else {
                1
            },
        )
    }

    pub fn value(self) -> (v: u16)
        ensures
            v == self.spec_value(),
            1 <= v <= 8,
    {
        proof {
            use_type_invariant(&self);
        }
        self.0
    }

    /// True when the orientation exchanges the width and height axes.
    pub fn swaps_axes(self) -> (b: bool)
        ensures
            b == (5 <= self.spec_value() <= 8),
    {
        5 <= self.0 && self.0 <= 8
    }

    /// Displayed size for stored pixel dimensions.
    pub fn displayed_size(self, w: u32, h: u32) -> (r: (u32, u32))
        ensures
            r == spec_displayed_size(self.spec_value(), w, h),
    {
        if self.swaps_axes() {
            (h, w)
        } else {
            (w, h)
        }
    }

    /// 2x2 matrix mapping displayed UV to source UV, both centred on the middle of the image.
    /// Row-major `[m00, m01, m10, m11]`.
    pub fn uv_matrix(self) -> (m: [i8; 4])
        ensures
            m@ == spec_uv_matrix(self.spec_value()),
    {
        let m: [i8; 4] = match self.0 {
            2 => [-1, 0, 0, 1],
            3 => [-1, 0, 0, -1],
            4 => [1, 0, 0, -1],
            5 => [0, 1, 1, 0],
            6 => [0, 1, -1, 0],
            7 => [0, -1, -1, 0],
            8 => [0, -1, 1, 0],
            _ => [1, 0, 0, 1],
        };
        assert(m@ == spec_uv_matrix(self.spec_value()));
        m
    }

    /// Apply the transform to a displayed UV, yielding the source UV to sample. Coordinates
    /// are counted in steps of which `unit` span the image.
    pub fn apply_uv(self, u: i64, v: i64, unit: i64) -> (r: (i64, i64))
        requires
            -0x4000_0000_0000_0000 <= u <= 0x4000_0000_0000_0000,
            -0x4000_0000_0000_0000 <= v <= 0x4000_0000_0000_0000,
            0 <= unit < 0x4000_0000_0000_0000,
        ensures
            (r.0 as int, r.1 as int) == uv_source(
                self.spec_value(),
                u as int,
                v as int,
                unit as int,
            ),
    {
        match self.0 {
            2 => (unit - u, v),
            3 => (unit - u, unit - v),
            4 => (u, unit - v),
            5 => (v, u),
            6 => (v, unit - u),
            7 => (unit - v, unit - u),
            8 => (unit - v, u),
            _ => (u, v),
        }
    }
}

/// The size of an image of `w` by `h` stored pixels once it is turned upright.
pub open spec fn spec_displayed_size(orientation: u16, w: u32, h: u32) -> (u32, u32) {
    if 5 <= orientation <= 8 {
        (h, w)
    } else {
        (w, h)
    }
}

/// The matrix of each orientation.
pub open spec fn spec_uv_matrix(orientation: u16) -> Seq<i8> {
    if orientation == 2 {
        // Flip horizontal.
        seq![-1i8, 0i8, 0i8, 1i8]
    } else if orientation == 3 {
        // Rotate 180.
        seq![-1i8, 0i8, 0i8, -1i8]
    } else if orientation == 4 {
        // Flip vertical.
        seq![1i8, 0i8, 0i8, -1i8]
    } else if orientation == 5 {
        // Transpose.
        seq![0i8, 1i8, 1i8, 0i8]
    } else if orientation == 6 {
        // Rotate 90 clockwise.
        seq![0i8, 1i8, -1i8, 0i8]
    } else if orientation == 7 {
        // Transverse.
        seq![0i8, -1i8, -1i8, 0i8]
    } else if orientation == 8 {
        // Rotate 270 clockwise.
        seq![0i8, -1i8, 1i8, 0i8]
    } else {
        seq![1i8, 0i8, 0i8, 1i8]
    }
}

/// Where in the stored image the displayed point (`u`, `v`) is sampled, `unit` steps spanning
/// the image in both axes.
pub open spec fn uv_source(orientation: u16, u: int, v: int, unit: int) -> (int, int) {
    if orientation == 2 {
        (unit - u, v)
    } else if orientation == 3 {
        (unit - u, unit - v)
    } else if orientation == 4 {
        (u, unit - v)
    } else if orientation == 5 {
        (v, u)
    } else if orientation == 6 {
        (v, unit - u)
    } else if orientation == 7 {
        (unit - v, unit - u)
    } else if orientation == 8 {
        (unit - v, u)
    } else {
        (u, v)
    }
}

/// The matrix gives the point to sample: source = M (displayed - centre) + centre. Stated in
/// half steps, in which the centre is a whole number.
pub proof fn law_matrix_gives_source(orientation: u16, u: int, v: int, unit: int)
    ensures
        ({
            let m = spec_uv_matrix(orientation);
            let (a, b) = (2 * u - unit, 2 * v - unit);
            let s = uv_source(orientation, u, v, unit);
            &&& 2 * s.0 == m[0] * a + m[1] * b + unit
            &&& 2 * s.1 == m[2] * a + m[3] * b + unit
        }),
{
    let m = spec_uv_matrix(orientation);
    let (a, b) = (2 * u - unit, 2 * v - unit);
    lemma_sign(m[0] as int, a);
    lemma_sign(m[1] as int, b);
    lemma_sign(m[2] as int, a);
    lemma_sign(m[3] as int, b);
}

proof fn lemma_sign(c: int, x: int)
    by (nonlinear_arith)
    ensures
        c == 1 ==> c * x == x,
        c == 0 ==> c * x == 0,
        c == -1 ==> c * x == -x,
{
}

/// Every orientation maps the image onto itself, one point to one point: nothing outside the
/// texture is ever sampled, and no part of it is left out.
pub proof fn law_orientation_is_a_bijection(orientation: u16, u: int, v: int, unit: int)
    requires
        0 <= u <= unit,
        0 <= v <= unit,
    ensures
        ({
            let s = uv_source(orientation, u, v, unit);
            0 <= s.0 <= unit && 0 <= s.1 <= unit
        }),
        exists|p: int, q: int|
            0 <= p <= unit && 0 <= q <= unit && #[trigger] uv_source(orientation, p, q, unit) == (
                u,
                v,
            ),
        forall|p: int, q: int| #[trigger]
            uv_source(orientation, p, q, unit) == uv_source(orientation, u, v, unit) ==> p == u && q
                == v,
{
    let back = if orientation == 6 {
        8
    } else if orientation == 8 {
        6
    } else {
        orientation
    };
    let (p, q) = uv_source(back, u, v, unit);
    assert(uv_source(orientation, p, q, unit) == (u, v));
}

/// Flips, the half turn and the two diagonal mirrors undo themselves; four quarter turns do.
pub proof fn law_orientation_cycles(orientation: u16, u: int, v: int, unit: int)
    ensures
        orientation != 6 && orientation != 8 ==> ({
            let s = uv_source(orientation, u, v, unit);
            uv_source(orientation, s.0, s.1, unit) == (u, v)
        }),
        ({
            let a = uv_source(orientation, u, v, unit);
            let b = uv_source(orientation, a.0, a.1, unit);
            let c = uv_source(orientation, b.0, b.1, unit);
            uv_source(orientation, c.0, c.1, unit) == (u, v)
        }),
{
}

/// What happens to zoom and pan when the displayed image changes.
#[derive(Clone, Copy, PartialEq, Eq, Debug, Structural)]
pub enum FitMode {
    /// Reset to fit-to-window, centred, on every switch.
    Refit,
    /// Carry zoom and pan across switches, for comparing the same region between frames.
    Preserve,
}

impl Default for FitMode {
    fn default() -> (m: Self)
        ensures
            m == FitMode::Refit,
    {
        FitMode::Refit
    }
}

impl FitMode {
    pub open spec fn spec_toggled(self) -> FitMode {
        match self {
            FitMode::Refit => FitMode::Preserve,
            FitMode::Preserve => FitMode::Refit,
        }
    }

    pub fn toggled(self) -> (m: Self)
        ensures
            m == self.spec_toggled(),
            m.spec_toggled() == self,
    {
        match self {
            FitMode::Refit => FitMode::Preserve,
            FitMode::Preserve => FitMode::Refit,
        }
    }

    pub open spec fn spec_label(self) -> Seq<char> {
        match self {
            FitMode::Refit => "refit"@,
            FitMode::Preserve => "keep zoom"@,
        }
    }

    pub fn label(self) -> (s: &'static str)
        ensures
            s@ == self.spec_label(),
    {
        match self {
            FitMode::Refit => "refit",
            FitMode::Preserve => "keep zoom",
        }
    }
}

/// Every stored point is shown where EXIF says: 1 as it is, 2 mirrored left to right, 3 upside
/// down, 4 mirrored top to bottom, 5 mirrored about the main diagonal, 6 turned a quarter to the
/// right, 7 mirrored about the other diagonal, 8 turned a quarter to the left. `x` grows to the
/// right and `y` downwards, and `unit` steps span the image.
pub proof fn law_stored_point_is_shown_where_exif_says(x: int, y: int, unit: int)
    ensures
        uv_source(1, x, y, unit) == (x, y),
        uv_source(2, unit - x, y, unit) == (x, y),
        uv_source(3, unit - x, unit - y, unit) == (x, y),
        uv_source(4, x, unit - y, unit) == (x, y),
        uv_source(5, y, x, unit) == (x, y),
        uv_source(6, unit - y, x, unit) == (x, y),
        uv_source(7, unit - y, unit - x, unit) == (x, y),
        uv_source(8, y, unit - x, unit) == (x, y),
{
}

/// A quarter turn to the right and one to the left undo each other, two to the right are a half
/// turn, and a mirror image of a half turn is mirrored the other way.
pub proof fn law_turns_add_up(u: int, v: int, unit: int)
    ensures
        ({
            let a = uv_source(6, u, v, unit);
            uv_source(8, a.0, a.1, unit) == (u, v)
        }),
        ({
            let a = uv_source(6, u, v, unit);
            uv_source(6, a.0, a.1, unit) == uv_source(3, u, v, unit)
        }),
        ({
            let a = uv_source(2, u, v, unit);
            uv_source(3, a.0, a.1, unit) == uv_source(4, u, v, unit)
        }),
        ({
            let a = uv_source(5, u, v, unit);
            uv_source(3, a.0, a.1, unit) == uv_source(7, u, v, unit)
        }),
{
}

/// An image is shown as large as it is stored, its sides exchanged where it is shown on its side:
/// the far corner of the stored image is a corner of the shown one.
pub proof fn law_sides_are_exchanged_by_quarter_turns(o: u16, w: u32, h: u32)
    ensures
        o == 1 || o == 2 || o == 3 || o == 4 ==> spec_displayed_size(o, w, h) == (w, h),
        o == 5 || o == 6 || o == 7 || o == 8 ==> spec_displayed_size(o, w, h) == (h, w),
        FitMode::Refit.spec_toggled() == FitMode::Preserve,
        FitMode::Preserve.spec_toggled() == FitMode::Refit,
        FitMode::Refit.spec_label() == "refit"@,
        FitMode::Preserve.spec_label() == "keep zoom"@,
{
}

} // verus!
