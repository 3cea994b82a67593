//! Camera frame conversion: a captured frame arrives as BGRA rows with a
//! byte stride; the engine repacks it into tight RGBA pixels. The capture
//! itself is platform plumbing outside this crate; only the byte logic
//! lives here.
use vstd::prelude::*;

verus! {

/// The camera frame converter.
pub struct Camera;

/// One converted pixel: the four source bytes at `src` reordered from
/// BGRA to RGBA, or nothing when the pixel runs past the frame's end.
pub open spec fn spec_pixel(frame: Seq<u8>, src: int) -> Seq<u8> {
    if src < 0 || src + 3 >= frame.len() {
        Seq::empty()
    } else {
        seq![frame[src + 2], frame[src + 1], frame[src], frame[src + 3]]
    }
}

/// The converted pixels of one row from column `x`.
pub open spec fn spec_row_rgba(frame: Seq<u8>, row_start: int, x: int, width: int)
    -> Seq<u8>
    decreases width - x,
{
    if x < 0 || x >= width {
        Seq::empty()
    } else {
        spec_pixel(frame, row_start + 4 * x)
            + spec_row_rgba(frame, row_start, x + 1, width)
    }
}

/// The converted pixels of the rows from `y`, each row starting at its
/// stride offset.
pub open spec fn spec_frame_rgba(frame: Seq<u8>, stride: int, y: int, height: int,
    width: int) -> Seq<u8>
    decreases height - y,
{
    if y < 0 || y >= height {
        Seq::empty()
    } else {
        spec_row_rgba(frame, y * stride, 0, width)
            + spec_frame_rgba(frame, stride, y + 1, height, width)
    }
}

impl Camera {
    /// Repack a captured frame: each row begins at its stride offset, each
    /// pixel's BGRA bytes become RGBA, and a pixel that runs past the
    /// frame's end contributes nothing (later pixels close the gap).
    pub fn convert_frame(frame: &Vec<u8>, stride: usize, width: u32, height: u32)
        -> (r: Vec<u8>)
        requires
            (height as int) * (stride as int) + 4 * (width as int) <= usize::MAX,
        ensures
            r@ == spec_frame_rgba(frame@, stride as int, 0, height as int, width as int),
    {
        let ghost full = spec_frame_rgba(frame@, stride as int, 0, height as int,
            width as int);
        let mut r: Vec<u8> = Vec::new();
        let mut y: u32 = 0;
        let mut row_start: usize = 0;
        proof {
            assert(0 * (stride as int) == 0) by (nonlinear_arith);
            vstd::arithmetic::mul::lemma_mul_nonnegative(height as int, stride as int);
        }
        while y < height
            invariant
                y <= height,
                row_start == (y as int) * (stride as int),
                (height as int) * (stride as int) + 4 * (width as int) <= usize::MAX,
                full == spec_frame_rgba(frame@, stride as int, 0, height as int,
                    width as int),
                full =~= r@ + spec_frame_rgba(frame@, stride as int, y as int,
                    height as int, width as int),
            decreases height - y,
        {
            proof {
                vstd::arithmetic::mul::lemma_mul_inequality(
                    y as int + 1, height as int, stride as int);
                vstd::arithmetic::mul::lemma_mul_is_distributive_add_other_way(
                    stride as int, y as int, 1);
                vstd::arithmetic::mul::lemma_mul_nonnegative(y as int, stride as int);
            }
            let ghost r_enter = r@;
            let mut x: u32 = 0;
            let mut src: usize = row_start;
            while x < width
                invariant
                    x <= width,
                    src == row_start + 4 * (x as int),
                    row_start == (y as int) * (stride as int),
                    row_start + (stride as int) <= (height as int) * (stride as int),
                    (height as int) * (stride as int) + 4 * (width as int)
                        <= usize::MAX,
                    0 <= row_start,
                    r@ + spec_row_rgba(frame@, row_start as int, x as int, width as int)
                        =~= r_enter + spec_row_rgba(frame@, row_start as int, 0,
                        width as int),
                decreases width - x,
            {
                if src + 3 < frame.len() {
                    let b = frame[src];
                    let g = frame[src + 1];
                    let rr = frame[src + 2];
                    let a = frame[src + 3];
                    r.push(rr);
                    r.push(g);
                    r.push(b);
                    r.push(a);
                    proof {
                        assert(spec_pixel(frame@, src as int) =~= seq![
                            frame@[src as int + 2], frame@[src as int + 1],
                            frame@[src as int], frame@[src as int + 3]]);
                    }
                } else {
                    proof {
                        assert(spec_pixel(frame@, src as int) =~= Seq::<u8>::empty());
                    }
                }
                proof {
                    assert(spec_row_rgba(frame@, row_start as int, x as int,
                        width as int) == spec_pixel(frame@, row_start + 4 * (x as int))
                        + spec_row_rgba(frame@, row_start as int, x as int + 1,
                        width as int));
                }
                src = src + 4;
                x += 1;
            }
            proof {
                assert(spec_row_rgba(frame@, row_start as int, width as int,
                    width as int) =~= Seq::<u8>::empty());
                assert(r@ =~= r_enter + spec_row_rgba(frame@, row_start as int, 0,
                    width as int));
                assert(spec_frame_rgba(frame@, stride as int, y as int, height as int,
                    width as int) == spec_row_rgba(frame@, (y as int) * (stride as int),
                    0, width as int) + spec_frame_rgba(frame@, stride as int,
                    y as int + 1, height as int, width as int));
            }
            row_start = row_start + stride;
            y += 1;
        }
        proof {
            assert(spec_frame_rgba(frame@, stride as int, height as int, height as int,
                width as int) =~= Seq::<u8>::empty());
        }
        r
    }
}

} // verus!
