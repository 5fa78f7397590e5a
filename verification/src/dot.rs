//! Stamping a filled red disc into a raw RGBA frame, clipped to the frame.

use vstd::prelude::*;
use vstd::arithmetic::div_mod::{lemma_fundamental_div_mod, lemma_fundamental_div_mod_converse};

verus! {

/// A disc to be stamped and the geometry of the frame it is stamped into:
/// the frame has `height` rows of `width` pixels, four bytes per pixel,
/// and the disc has its centre at column `cx`, row `cy`.
pub struct Dot {
    pub width: int,
    pub height: int,
    pub cx: int,
    pub cy: int,
    pub radius: int,
}

/// The value the stamp writes into channel `c` of a pixel: red and alpha
/// full, green and blue zero.
pub open spec fn dot_channel(c: int) -> u8 {
    if c == 0 || c == 3 {
        255
    } else {
        0
    }
}

impl Dot {
    /// Whether the pixel at column `x`, row `y` lies in the disc: its
    /// squared distance from the centre is at most the radius squared.
    /// A negative radius covers nothing.
    pub open spec fn covers(self, x: int, y: int) -> bool {
        self.radius >= 0 && (x - self.cx) * (x - self.cx) + (y - self.cy) * (y - self.cy)
            <= self.radius * self.radius
    }

    /// Whether the stamp writes pixel number `pixel`, counted row by row,
    /// of a frame of `len` bytes: the pixel lies within the frame's rows,
    /// all four of its bytes exist, and the disc covers it.
    pub open spec fn paints(self, pixel: int, len: nat) -> bool {
        &&& self.width > 0
        &&& 0 <= pixel
        &&& pixel / self.width < self.height
        &&& 4 * pixel + 3 < len
        &&& self.covers(pixel % self.width, pixel / self.width)
    }

    /// Byte `j` of the frame after the stamp.
    pub open spec fn byte(self, frame: Seq<u8>, j: int) -> u8 {
        if self.paints(j / 4, frame.len()) {
            dot_channel(j % 4)
        } else {
            frame[j]
        }
    }

    /// The frame after the stamp: painted pixels hold the dot's colour,
    /// every other byte is as it was.
    pub open spec fn stamped(self, frame: Seq<u8>) -> Seq<u8> {
        Seq::new(frame.len(), |j: int| self.byte(frame, j))
    }

    /// Whether a row-by-row sweep that stands at column `x` of row `y` has
    /// already passed `pixel`.
    pub open spec fn passed(self, pixel: int, y: int, x: int) -> bool {
        pixel / self.width < y || (pixel / self.width == y && pixel % self.width < x)
    }

    /// Byte `j` of the frame while the sweep stands at column `x` of row `y`.
    pub open spec fn byte_until(self, frame: Seq<u8>, y: int, x: int, j: int) -> u8 {
        if self.paints(j / 4, frame.len()) && self.passed(j / 4, y, x) {
            dot_channel(j % 4)
        } else {
            frame[j]
        }
    }

    /// A covered pixel lies in the square that encloses the disc.
    pub proof fn lemma_covered_in_box(self, x: int, y: int)
        requires
            self.covers(x, y),
        ensures
            self.cx - self.radius <= x <= self.cx + self.radius,
            self.cy - self.radius <= y <= self.cy + self.radius,
    {
        let dx = x - self.cx;
        let dy = y - self.cy;
        let r = self.radius;
        assert(dx * dx >= 0 && dy * dy >= 0) by (nonlinear_arith);
        assert(-r <= dx <= r) by (nonlinear_arith)
            requires
                r >= 0,
                dx * dx <= r * r,
        ;
        assert(-r <= dy <= r) by (nonlinear_arith)
            requires
                r >= 0,
                dy * dy <= r * r,
        ;
    }

    /// A sweep over the rows `y_lo..y_hi` and, in each, the columns
    /// `x_lo..x_hi` misses no painted pixel when those ranges hold the
    /// part of the enclosing square that lies in the frame.
    proof fn lemma_painted_in_sweep(self, pixel: int, len: nat, x_lo: int, x_hi: int, y_lo: int, y_hi: int)
        requires
            self.paints(pixel, len),
            x_lo <= 0 || x_lo <= self.cx - self.radius,
            x_hi >= self.width || x_hi > self.cx + self.radius,
            y_lo <= 0 || y_lo <= self.cy - self.radius,
            y_hi >= self.height || y_hi > self.cy + self.radius,
        ensures
            x_lo <= pixel % self.width < x_hi,
            y_lo <= pixel / self.width < y_hi,
    {
        self.lemma_covered_in_box(pixel % self.width, pixel / self.width);
        lemma_fundamental_div_mod(pixel, self.width);
        vstd::arithmetic::div_mod::lemma_mod_bound(pixel, self.width);
        vstd::arithmetic::div_mod::lemma_div_pos_is_pos(pixel, self.width);
    }
}

/// Writes the dot's colour into the four bytes of pixel number `pixel`.
fn paint(frame: &mut [u8], pixel: usize)
    requires
        4 * pixel + 3 < old(frame)@.len(),
    ensures
        final(frame)@.len() == old(frame)@.len(),
        forall|j: int|
            0 <= j < old(frame)@.len() ==> #[trigger] final(frame)@[j] == if j / 4 == pixel {
                dot_channel(j % 4)
            } else {
                old(frame)@[j]
            },
{
    let at: usize = 4 * pixel;
    frame[at] = 255;
    frame[at + 1] = 0;
    frame[at + 2] = 0;
    frame[at + 3] = 255;
}

/// Stamps a red, fully opaque disc of the given `radius` around `center`
/// (column, row) into `frame`, which holds `height` rows of `width` RGBA
/// pixels. Pixels of the disc that fall outside the rows and columns of the
/// frame, or past the end of the buffer, are skipped.
pub fn draw_dot(frame: &mut [u8], width: u32, height: u32, center: (i32, i32), radius: i32)
    ensures
        final(frame)@ == (Dot {
            width: width as int,
            height: height as int,
            cx: center.0 as int,
            cy: center.1 as int,
            radius: radius as int,
        }).stamped(old(frame)@),
{
    let ghost dot = Dot {
        width: width as int,
        height: height as int,
        cx: center.0 as int,
        cy: center.1 as int,
        radius: radius as int,
    };
    let ghost before = frame@;
    if radius < 0 || width == 0 {
        assert(frame@ =~= dot.stamped(before));
        return ;
    }
    let cx: i64 = center.0 as i64;
    let cy: i64 = center.1 as i64;
    let r: i64 = radius as i64;
    let w: i64 = width as i64;
    let h: i64 = height as i64;
    let pixels: usize = frame.len() / 4;
    let x_lo: i64 = if cx - r > 0 { cx - r } else { 0 };
    let x_hi: i64 = if cx + r + 1 < w { cx + r + 1 } else { w };
    let y_lo: i64 = if cy - r > 0 { cy - r } else { 0 };
    let y_hi: i64 = if cy + r + 1 < h { cy + r + 1 } else { h };
    assert forall|j: int| 0 <= j < before.len() implies frame@[j] == dot.byte_until(
        before,
        y_lo as int,
        0,
        j,
    ) by {
        if dot.paints(j / 4, before.len()) {
            dot.lemma_painted_in_sweep(j / 4, before.len(), x_lo as int, x_hi as int, y_lo as int, y_hi as int);
        }
    }
    let mut y: i64 = y_lo;
    while y < y_hi
        invariant
            dot.width == w && dot.height == h && dot.cx == cx && dot.cy == cy && dot.radius == r,
            0 < w <= u32::MAX,
            0 <= h <= u32::MAX,
            0 <= r <= i32::MAX,
            i32::MIN <= cx <= i32::MAX,
            i32::MIN <= cy <= i32::MAX,
            0 <= x_lo && cx - r <= x_lo && (x_lo == 0 || x_lo == cx - r),
            x_hi <= w && x_hi <= cx + r + 1 && (x_hi == w || x_hi == cx + r + 1),
            0 <= y_lo && cy - r <= y_lo && (y_lo == 0 || y_lo == cy - r),
            y_hi <= h && y_hi <= cy + r + 1 && (y_hi == h || y_hi == cy + r + 1),
            y_lo <= y,
            pixels == before.len() / 4,
            frame@.len() == before.len(),
            forall|j: int| 0 <= j < before.len() ==> #[trigger] frame@[j] == dot.byte_until(before, y as int, 0, j),
        decreases y_hi - y,
    {
        assert forall|j: int| 0 <= j < before.len() implies frame@[j] == dot.byte_until(
            before,
            y as int,
            x_lo as int,
            j,
        ) by {
            if dot.paints(j / 4, before.len()) {
                dot.lemma_painted_in_sweep(j / 4, before.len(), x_lo as int, x_hi as int, y_lo as int, y_hi as int);
            }
        }
        let dy: i64 = y - cy;
        let mut x: i64 = x_lo;
        while x < x_hi
            invariant
                dot.width == w && dot.height == h && dot.cx == cx && dot.cy == cy && dot.radius == r,
                0 < w <= u32::MAX,
                0 <= h <= u32::MAX,
                0 <= r <= i32::MAX,
                i32::MIN <= cx <= i32::MAX,
                0 <= x_lo && cx - r <= x_lo && (x_lo == 0 || x_lo == cx - r),
                x_hi <= w && x_hi <= cx + r + 1 && (x_hi == w || x_hi == cx + r + 1),
                0 <= y < h,
                dy == y - cy,
                -r <= dy <= r,
                x_lo <= x,
                pixels == before.len() / 4,
                frame@.len() == before.len(),
                forall|j: int| 0 <= j < before.len() ==> #[trigger] frame@[j] == dot.byte_until(before, y as int, x as int, j),
            decreases x_hi - x,
        {
            let dx: i64 = x - cx;
            assert(0 <= dx * dx <= r * r && 0 <= dy * dy <= r * r && r * r <= 0x3fff_ffff_0000_0001) by (nonlinear_arith)
                requires
                    -r <= dx <= r,
                    -r <= dy <= r,
                    0 <= r <= 0x7fff_ffff,
            ;
            assert(0 <= y * w <= 0xffff_fffe_0000_0001) by (nonlinear_arith)
                requires
                    0 <= y < 0xffff_ffff,
                    0 < w <= 0xffff_ffff,
            ;
            let pixel: u64 = (y as u64) * (w as u64) + (x as u64);
            let ghost earlier = frame@;
            proof {
                lemma_fundamental_div_mod_converse(pixel as int, w as int, y as int, x as int);
            }
            let distance: i64 = dx * dx + dy * dy;
            let reach: i64 = r * r;
            assert(dot.covers(x as int, y as int) == (distance <= reach));
            assert(w * y == y * w) by (nonlinear_arith);
            if distance <= reach && pixel < pixels as u64 {
                paint(frame, pixel as usize);
            }
            assert forall|j: int| 0 <= j < before.len() implies #[trigger] frame@[j] == dot.byte_until(
                before,
                y as int,
                x + 1,
                j,
            ) by {
                assert(earlier[j] == dot.byte_until(before, y as int, x as int, j));
                if j / 4 != pixel {
                    lemma_fundamental_div_mod(j / 4, w as int);
                    assert(dot.passed(j / 4, y as int, x + 1) == dot.passed(j / 4, y as int, x as int));
                    assert(frame@[j] == earlier[j]);
                } else {
                    assert(!dot.passed(j / 4, y as int, x as int));
                    assert(dot.passed(j / 4, y as int, x + 1));
                    assert(dot.paints(j / 4, before.len()) == (distance <= reach && pixel < pixels));
                }
            }
            x = x + 1;
        }
        assert forall|j: int| 0 <= j < before.len() implies frame@[j] == dot.byte_until(
            before,
            y + 1,
            0,
            j,
        ) by {
            if dot.paints(j / 4, before.len()) {
                dot.lemma_painted_in_sweep(j / 4, before.len(), x_lo as int, x_hi as int, y_lo as int, y_hi as int);
            }
        }
        y = y + 1;
    }
    assert forall|j: int| 0 <= j < before.len() implies frame@[j] == dot.byte(before, j) by {
        if dot.paints(j / 4, before.len()) {
            dot.lemma_painted_in_sweep(j / 4, before.len(), x_lo as int, x_hi as int, y_lo as int, y_hi as int);
        }
    }
    assert(frame@ =~= dot.stamped(before));
}

} // verus!
