//! Raster images and atlas composition.
//!
//! A [`Raster`] owns an RGBA image buffer of the imaging crate; what the
//! verified code knows of it is its dimensions and a map from coordinates to
//! pixels. The compositor copies up to 256 equally sized frames into a
//! square atlas of 16 x 16 cells, row-major, leaving unused cells opaque
//! black.

use vstd::prelude::*;
use vstd::arithmetic::div_mod::lemma_fundamental_div_mod_converse;

verus! {

/// An RGBA raster image, held opaquely; its pixel grid is described by
/// [`raster_dims`] and [`raster_pixels`].
#[verifier::external_body]
pub struct Raster {
    img: image::RgbaImage,
}

/// The (width, height) of a raster.
pub uninterp spec fn raster_dims(r: Raster) -> (int, int);

/// The pixels of a raster: a map from (x, y) coordinates to RGBA values.
pub uninterp spec fn raster_pixels(r: Raster) -> Map<(int, int), (u8, u8, u8, u8)>;

/// Relies on `image::ImageBuffer::from_pixel`: a width x height image with
/// every pixel set to the given value.
#[verifier::external_body]
fn new_filled_raster(width: u32, height: u32, pixel: (u8, u8, u8, u8)) -> (r: Raster)
    requires
        width <= 65536,
        height <= 65536,
    ensures
        raster_dims(r) == (width as int, height as int),
        forall|x: int, y: int|
            0 <= x < width && 0 <= y < height ==> raster_pixels(r)[(x, y)] == pixel,
{
    Raster {
        img: image::RgbaImage::from_pixel(
            width,
            height,
            image::Rgba([pixel.0, pixel.1, pixel.2, pixel.3]),
        ),
    }
}

/// Relies on `image::ImageBuffer::put_pixel`: overwrites the pixel at
/// (x, y), which must be in bounds, and touches nothing else.
#[verifier::external_body]
fn raster_put(r: &mut Raster, x: u32, y: u32, pixel: (u8, u8, u8, u8))
    requires
        (x as int) < raster_dims(*old(r)).0,
        (y as int) < raster_dims(*old(r)).1,
    ensures
        raster_dims(*final(r)) == raster_dims(*old(r)),
        raster_pixels(*final(r)) == raster_pixels(*old(r)).insert((x as int, y as int), pixel),
{
    r.img.put_pixel(x, y, image::Rgba([pixel.0, pixel.1, pixel.2, pixel.3]));
}

/// Relies on `image::ImageBuffer::get_pixel`: reads the pixel at (x, y),
/// which must be in bounds.
#[verifier::external_body]
fn raster_get(r: &Raster, x: u32, y: u32) -> (px: (u8, u8, u8, u8))
    requires
        (x as int) < raster_dims(*r).0,
        (y as int) < raster_dims(*r).1,
    ensures
        px == raster_pixels(*r)[(x as int, y as int)],
{
    let p = r.img.get_pixel(x, y);
    (p.0[0], p.0[1], p.0[2], p.0[3])
}

/// Relies on `image::ImageBuffer::width`.
#[verifier::external_body]
fn raster_width(r: &Raster) -> (w: u32)
    ensures
        w as int == raster_dims(*r).0,
{
    r.img.width()
}

/// Relies on `image::ImageBuffer::height`.
#[verifier::external_body]
fn raster_height(r: &Raster) -> (h: u32)
    ensures
        h as int == raster_dims(*r).1,
{
    r.img.height()
}

impl Raster {
    /// A width x height raster with every pixel set to `pixel`.
    pub fn new_filled(width: u32, height: u32, pixel: (u8, u8, u8, u8)) -> (r: Raster)
        requires
            width <= 65536,
            height <= 65536,
        ensures
            raster_dims(r) == (width as int, height as int),
            forall|x: int, y: int|
                0 <= x < width && 0 <= y < height ==> raster_pixels(r)[(x, y)] == pixel,
    {
        new_filled_raster(width, height, pixel)
    }

    /// Overwrites the pixel at (x, y).
    pub fn set_pixel(&mut self, x: u32, y: u32, pixel: (u8, u8, u8, u8))
        requires
            (x as int) < raster_dims(*old(self)).0,
            (y as int) < raster_dims(*old(self)).1,
        ensures
            raster_dims(*final(self)) == raster_dims(*old(self)),
            raster_pixels(*final(self)) == raster_pixels(*old(self)).insert(
                (x as int, y as int),
                pixel,
            ),
    {
        raster_put(self, x, y, pixel)
    }

    /// The pixel at (x, y).
    pub fn pixel_at(&self, x: u32, y: u32) -> (px: (u8, u8, u8, u8))
        requires
            (x as int) < raster_dims(*self).0,
            (y as int) < raster_dims(*self).1,
        ensures
            px == raster_pixels(*self)[(x as int, y as int)],
    {
        raster_get(self, x, y)
    }

    /// The width in pixels.
    pub fn width(&self) -> (w: u32)
        ensures
            w as int == raster_dims(*self).0,
    {
        raster_width(self)
    }

    /// The height in pixels.
    pub fn height(&self) -> (h: u32)
        ensures
            h as int == raster_dims(*self).1,
    {
        raster_height(self)
    }
}

/// The atlas coordinates of local pixel (lx, ly) of cell `ci`, for cells
/// laid out row-major, 16 per row, each `fs` pixels square.
pub open spec fn cell_key(fs: int, ci: int, lx: int, ly: int) -> (int, int) {
    ((ci % 16) * fs + lx, (ci / 16) * fs + ly)
}

/// The pixel expected at local coordinates (lx, ly) of cell `ci` in an
/// atlas composed of `frames`: the matching frame pixel for an occupied
/// cell, opaque black for an unused one.
pub open spec fn composed_cell_pixel(
    frames: Seq<Raster>,
    ci: int,
    lx: int,
    ly: int,
) -> (u8, u8, u8, u8) {
    if ci < frames.len() {
        raster_pixels(frames[ci])[(lx, ly)]
    } else {
        (0u8, 0u8, 0u8, 255u8)
    }
}

/// Distinct (cell, local coordinate) triples land on distinct atlas
/// coordinates.
proof fn lemma_cell_coords_injective(
    fs: int,
    ci1: int,
    lx1: int,
    ly1: int,
    ci2: int,
    lx2: int,
    ly2: int,
)
    requires
        fs >= 1,
        0 <= ci1 < 256,
        0 <= ci2 < 256,
        0 <= lx1 < fs,
        0 <= lx2 < fs,
        0 <= ly1 < fs,
        0 <= ly2 < fs,
        (ci1 % 16) * fs + lx1 == (ci2 % 16) * fs + lx2,
        (ci1 / 16) * fs + ly1 == (ci2 / 16) * fs + ly2,
    ensures
        ci1 == ci2,
        lx1 == lx2,
        ly1 == ly2,
{
    let x = (ci1 % 16) * fs + lx1;
    let y = (ci1 / 16) * fs + ly1;
    lemma_fundamental_div_mod_converse(x, fs, ci1 % 16, lx1);
    lemma_fundamental_div_mod_converse(x, fs, ci2 % 16, lx2);
    lemma_fundamental_div_mod_converse(y, fs, ci1 / 16, ly1);
    lemma_fundamental_div_mod_converse(y, fs, ci2 / 16, ly2);
}

/// Cell coordinates stay inside an atlas of side `16 * fs`.
proof fn lemma_cell_coords_in_bounds(fs: int, ci: int, lx: int, ly: int)
    requires
        fs >= 1,
        0 <= ci < 256,
        0 <= lx < fs,
        0 <= ly < fs,
    ensures
        0 <= (ci % 16) * fs + lx < 16 * fs,
        0 <= (ci / 16) * fs + ly < 16 * fs,
{
    assert((ci % 16) * fs + lx < 16 * fs && (ci / 16) * fs + ly < 16 * fs && (ci % 16) * fs + lx
        >= 0 && (ci / 16) * fs + ly >= 0) by (nonlinear_arith)
        requires
            fs >= 1,
            0 <= ci < 256,
            0 <= lx < fs,
            0 <= ly < fs,
    ;
}

/// Copies up to 256 frames, each `frame_size` square, into a fresh square
/// atlas of side `frame_size * 16`: frame `i` fills cell `(i % 16, i / 16)`
/// and every unused cell stays opaque black.
pub fn compose_atlas(frames: &Vec<Raster>, frame_size: u32) -> (atlas: Raster)
    requires
        frames@.len() <= 256,
        1 <= frame_size,
        frame_size <= 4096,
        forall|i: int|
            0 <= i < frames@.len() ==> raster_dims(frames@[i]) == (
                frame_size as int,
                frame_size as int,
            ),
    ensures
        raster_dims(atlas) == ((16 * frame_size) as int, (16 * frame_size) as int),
        forall|ci: int, lx: int, ly: int|
            0 <= ci < 256 && 0 <= lx < frame_size && 0 <= ly < frame_size ==> raster_pixels(
                atlas,
            )[cell_key(frame_size as int, ci, lx, ly)] == composed_cell_pixel(frames@, ci, lx, ly),
{
    let fs = frame_size;
    let dim = 16 * fs;
    let mut atlas = new_filled_raster(dim, dim, (0, 0, 0, 255));
    proof {
        assert forall|ci: int, lx: int, ly: int|
            0 <= ci < 256 && 0 <= lx < fs && 0 <= ly < fs implies raster_pixels(atlas)[cell_key(fs as int, ci, lx, ly)] == (0u8, 0u8, 0u8, 255u8) by {
            lemma_cell_coords_in_bounds(fs as int, ci, lx, ly);
        }
    }
    let mut i: usize = 0;
    while i < frames.len()
        invariant
            frames@.len() <= 256,
            1 <= fs <= 4096,
            dim == 16 * fs,
            i <= frames@.len(),
            forall|k: int|
                0 <= k < frames@.len() ==> raster_dims(frames@[k]) == (fs as int, fs as int),
            raster_dims(atlas) == (dim as int, dim as int),
            forall|ci: int, lx: int, ly: int|
                0 <= ci < i && 0 <= lx < fs && 0 <= ly < fs ==> raster_pixels(atlas)[cell_key(fs as int, ci, lx, ly)] == composed_cell_pixel(frames@, ci, lx, ly),
            forall|ci: int, lx: int, ly: int|
                i <= ci < 256 && 0 <= lx < fs && 0 <= ly < fs ==> raster_pixels(atlas)[cell_key(fs as int, ci, lx, ly)] == (0u8, 0u8, 0u8, 255u8),
        decreases frames@.len() - i,
    {
        proof {
            assert(i % 16 < 16 && i / 16 < 16);
            assert(((i % 16) as int) * (fs as int) <= 15 * 4096 && ((i / 16) as int) * (fs as int)
                <= 15 * 4096) by (nonlinear_arith)
                requires
                    i % 16 < 16,
                    i / 16 < 16,
                    0 < fs <= 4096,
            ;
        }
        let x_offset = ((i % 16) as u32) * fs;
        let y_offset = ((i / 16) as u32) * fs;
        proof {
            assert(x_offset == ((i as int) % 16) * fs && y_offset == ((i as int) / 16) * fs);
        }
        let mut ly: u32 = 0;
        while ly < fs
            invariant
                frames@.len() <= 256,
                1 <= fs <= 4096,
                dim == 16 * fs,
                i < frames@.len(),
                ly <= fs,
                x_offset == ((i as int) % 16) * fs,
                y_offset == ((i as int) / 16) * fs,
                forall|k: int|
                    0 <= k < frames@.len() ==> raster_dims(frames@[k]) == (fs as int, fs as int),
                raster_dims(atlas) == (dim as int, dim as int),
                forall|ci: int, lx: int, lyy: int|
                    0 <= ci < i && 0 <= lx < fs && 0 <= lyy < fs ==> raster_pixels(atlas)[cell_key(fs as int, ci, lx, lyy)] == composed_cell_pixel(frames@, ci, lx, lyy),
                forall|ci: int, lx: int, lyy: int|
                    i + 1 <= ci < 256 && 0 <= lx < fs && 0 <= lyy < fs ==> raster_pixels(atlas)[cell_key(fs as int, ci, lx, lyy)] == (0u8, 0u8, 0u8, 255u8),
                forall|lx: int, lyy: int|
                    0 <= lx < fs && 0 <= lyy < ly ==> raster_pixels(atlas)[cell_key(fs as int, i as int, lx, lyy)] == composed_cell_pixel(frames@, i as int, lx, lyy),
                forall|lx: int, lyy: int|
                    0 <= lx < fs && ly <= lyy < fs ==> raster_pixels(atlas)[cell_key(fs as int, i as int, lx, lyy)] == (0u8, 0u8, 0u8, 255u8),
            decreases fs - ly,
        {
            let mut lx: u32 = 0;
            while lx < fs
                invariant
                    frames@.len() <= 256,
                    1 <= fs <= 4096,
                    dim == 16 * fs,
                    i < frames@.len(),
                    ly < fs,
                    lx <= fs,
                    x_offset == ((i as int) % 16) * fs,
                    y_offset == ((i as int) / 16) * fs,
                    forall|k: int|
                        0 <= k < frames@.len() ==> raster_dims(frames@[k]) == (
                            fs as int,
                            fs as int,
                        ),
                    raster_dims(atlas) == (dim as int, dim as int),
                    forall|ci: int, lxx: int, lyy: int|
                        0 <= ci < i && 0 <= lxx < fs && 0 <= lyy < fs ==> raster_pixels(atlas)[cell_key(fs as int, ci, lxx, lyy)] == composed_cell_pixel(frames@, ci, lxx, lyy),
                    forall|ci: int, lxx: int, lyy: int|
                        i + 1 <= ci < 256 && 0 <= lxx < fs && 0 <= lyy < fs ==> raster_pixels(atlas)[cell_key(fs as int, ci, lxx, lyy)] == (0u8, 0u8, 0u8, 255u8),
                    forall|lxx: int, lyy: int|
                        0 <= lxx < fs && 0 <= lyy < ly ==> raster_pixels(atlas)[cell_key(fs as int, i as int, lxx, lyy)] == composed_cell_pixel(frames@, i as int, lxx, lyy),
                    forall|lxx: int|
                        0 <= lxx < lx ==> raster_pixels(atlas)[cell_key(fs as int, i as int, lxx, ly as int)] == composed_cell_pixel(frames@, i as int, lxx, ly as int),
                    forall|lxx: int|
                        lx <= lxx < fs ==> raster_pixels(atlas)[cell_key(fs as int, i as int, lxx, ly as int)] == (0u8, 0u8, 0u8, 255u8),
                    forall|lxx: int, lyy: int|
                        0 <= lxx < fs && ly < lyy < fs ==> raster_pixels(atlas)[cell_key(fs as int, i as int, lxx, lyy)] == (0u8, 0u8, 0u8, 255u8),
                decreases fs - lx,
            {
                let px = raster_get(&frames[i], lx, ly);
                proof {
                    lemma_cell_coords_in_bounds(fs as int, i as int, lx as int, ly as int);
                }
                let ghost before = raster_pixels(atlas);
                raster_put(&mut atlas, x_offset + lx, y_offset + ly, px);
                proof {
                    let fsi = fs as int;
                    let key = cell_key(fsi, i as int, lx as int, ly as int);
                    assert(key == ((x_offset + lx) as int, (y_offset + ly) as int));
                    assert(raster_pixels(atlas) == before.insert(key, px));
                    assert forall|ci: int, lxx: int, lyy: int|
                        0 <= ci < 256 && 0 <= lxx < fs && 0 <= lyy < fs && !(ci == i && lxx == lx
                            && lyy == ly) implies #[trigger] cell_key(fsi, ci, lxx, lyy) != key by {
                        if cell_key(fsi, ci, lxx, lyy) == key {
                            lemma_cell_coords_injective(
                                fsi,
                                ci,
                                lxx,
                                lyy,
                                i as int,
                                lx as int,
                                ly as int,
                            );
                        }
                    }
                }
                lx = lx + 1;
            }
        ly = ly + 1;
        }
        i = i + 1;
    }
    atlas
}

} // verus!
