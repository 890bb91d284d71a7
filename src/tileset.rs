//! Tile-set descriptions and the extraction of their tiles from decoded images.
use crate::geometry::{copy_region, region, Rect};
use vstd::arithmetic::div_mod::{
    lemma_div_pos_is_pos, lemma_fundamental_div_mod, lemma_mod_pos_bound, lemma_multiply_divide_lt,
};
use vstd::prelude::*;

verus! {

/// One source image of a tile set, with the size it is declared to have.
#[derive(Clone, Debug)]
pub struct ImageSource {
    pub source: String,
    pub width: u32,
    pub height: u32,
}

/// A grid of same-sized tiles cut out of one or more source images.
#[derive(Clone, Debug)]
pub struct TilesetDescription {
    /// The key under which the packed atlas is cached.
    pub name: String,
    pub images: Vec<ImageSource>,
    pub tile_width: u32,
    pub tile_height: u32,
    /// Pixels left out on every side of each source image.
    pub margin: u32,
    /// Pixels between two neighbouring tiles.
    pub spacing: u32,
}

/// A decoded source image: `width * height` RGBA pixels, row by row.
#[derive(Clone, Debug)]
pub struct DecodedImage {
    pub width: u32,
    pub height: u32,
    pub pixels: Vec<u8>,
}

/// The RGBA bytes of one tile, row by row.
#[derive(Clone, Debug)]
pub struct TilePixels {
    pub width: u32,
    pub height: u32,
    pub bytes: Vec<u8>,
}

impl TilePixels {
    pub open spec fn well_formed(&self) -> bool {
        self.width > 0 && self.height > 0 && self.bytes@.len() == self.width * self.height * 4
    }
}

/// Why the tiles of a tile set could not be extracted; each names the image at fault.
#[derive(Clone, Copy, Debug, PartialEq, Eq, Structural)]
pub enum ExtractError {
    /// The image was not decoded.
    ImageDecode(usize),
    /// The decoded image's size differs from the declared one, or its buffer from its size.
    Dimension(usize),
}

impl TilesetDescription {
    /// Tiles have at least one pixel in each direction.
    pub open spec fn well_formed(&self) -> bool {
        self.tile_width > 0 && self.tile_height > 0
    }
}

/// How many whole tiles of size `tile` fit along an axis of `extent` pixels, starting
/// at `margin`, stepping by `tile + spacing`, and ending at least `margin` before the edge.
pub open spec fn axis_count(extent: int, margin: int, tile: int, spacing: int) -> int {
    if extent >= 2 * margin + tile {
        (extent - 2 * margin - tile) / (tile + spacing) + 1
    } else {
        0
    }
}

pub open spec fn columns(d: TilesetDescription, img: ImageSource) -> int {
    axis_count(img.width as int, d.margin as int, d.tile_width as int, d.spacing as int)
}

pub open spec fn rows(d: TilesetDescription, img: ImageSource) -> int {
    axis_count(img.height as int, d.margin as int, d.tile_height as int, d.spacing as int)
}

/// Number of whole tiles in one source image.
pub open spec fn image_tile_count(d: TilesetDescription, img: ImageSource) -> int {
    columns(d, img) * rows(d, img)
}

/// The `k`-th tile of an image; tiles go column by column, top to bottom in each.
pub open spec fn grid_rect(d: TilesetDescription, img: ImageSource, k: int) -> Rect {
    let n = rows(d, img);
    Rect {
        x: (d.margin + (k / n) * (d.tile_width + d.spacing)) as u32,
        y: (d.margin + (k % n) * (d.tile_height + d.spacing)) as u32,
        width: d.tile_width,
        height: d.tile_height,
    }
}

/// The tiles of one source image, in extraction order.
pub open spec fn image_tiles(d: TilesetDescription, img: ImageSource, pixels: Seq<u8>) -> Seq<
    Seq<u8>,
> {
    Seq::new(
        image_tile_count(d, img) as nat,
        |k: int| region(pixels, img.width as int, grid_rect(d, img, k)),
    )
}

pub open spec fn pixels_of(o: Option<DecodedImage>) -> Seq<u8> {
    match o {
        Some(i) => i.pixels@,
        None => Seq::empty(),
    }
}

/// The tiles of the first `n` source images, in extraction order.
pub open spec fn extracted(d: TilesetDescription, decoded: Seq<Option<DecodedImage>>, n: int) -> Seq<
    Seq<u8>,
>
    decreases n,
{
    if n <= 0 {
        Seq::empty()
    } else {
        extracted(d, decoded, n - 1) + image_tiles(
            d,
            d.images@[n - 1],
            pixels_of(decoded[n - 1]),
        )
    }
}

/// Number of whole tiles in the first `n` source images.
pub open spec fn tile_count(d: TilesetDescription, n: int) -> int
    decreases n,
{
    if n <= 0 {
        0
    } else {
        tile_count(d, n - 1) + image_tile_count(d, d.images@[n - 1])
    }
}

/// Number of whole tiles in the tile set.
pub open spec fn total_tile_count(d: TilesetDescription) -> int {
    tile_count(d, d.images@.len() as int)
}

/// Source image `i` was decoded.
pub open spec fn image_decoded(decoded: Seq<Option<DecodedImage>>, i: int) -> bool {
    i < decoded.len() && decoded[i] is Some
}

/// Decoded image `i` has its declared size and a buffer of that size.
pub open spec fn image_matches(
    d: TilesetDescription,
    decoded: Seq<Option<DecodedImage>>,
    i: int,
) -> bool {
    let img = decoded[i]->Some_0;
    let src = d.images@[i];
    img.width == src.width && img.height == src.height && img.pixels@.len() == img.width
        * img.height * 4
}

pub open spec fn image_ok(d: TilesetDescription, decoded: Seq<Option<DecodedImage>>, i: int) -> bool {
    image_decoded(decoded, i) && image_matches(d, decoded, i)
}

/// The first `n` source images are decoded and have their declared sizes.
pub open spec fn images_ok(d: TilesetDescription, decoded: Seq<Option<DecodedImage>>, n: int) -> bool {
    forall|i: int| 0 <= i < n ==> image_ok(d, decoded, i)
}

/// `e` names the first source image that is not decoded or not of its declared size.
pub open spec fn extract_fails_with(
    d: TilesetDescription,
    decoded: Seq<Option<DecodedImage>>,
    e: ExtractError,
) -> bool {
    match e {
        ExtractError::ImageDecode(i) => {
            &&& i < d.images@.len()
            &&& images_ok(d, decoded, i as int)
            &&& !image_decoded(decoded, i as int)
        },
        ExtractError::Dimension(i) => {
            &&& i < d.images@.len()
            &&& images_ok(d, decoded, i as int)
            &&& image_decoded(decoded, i as int)
            &&& !image_matches(d, decoded, i as int)
        },
    }
}

/// The tiles of the first `n` images number as many as the whole tiles in them.
pub proof fn lemma_extracted_len(d: TilesetDescription, decoded: Seq<Option<DecodedImage>>, n: int)
    requires
        d.well_formed(),
        n <= d.images@.len(),
    ensures
        extracted(d, decoded, n).len() == tile_count(d, n),
        tile_count(d, n) >= 0,
    decreases n,
{
    if n > 0 {
        lemma_extracted_len(d, decoded, n - 1);
        let img = d.images@[n - 1];
        lemma_axis_count_bound(img.width as int, d.margin as int, d.tile_width as int, d.spacing as int);
        lemma_axis_count_bound(img.height as int, d.margin as int, d.tile_height as int, d.spacing as int);
        assert(image_tile_count(d, img) >= 0) by (nonlinear_arith)
            requires columns(d, img) >= 0, rows(d, img) >= 0, image_tile_count(d, img) == columns(d, img) * rows(d, img);
    }
}

pub open spec fn tile_bytes(tiles: Seq<TilePixels>) -> Seq<Seq<u8>> {
    tiles.map_values(|t: TilePixels| t.bytes@)
}

/// The `i`-th tile along an axis lies `margin` or more away from both edges.
proof fn lemma_axis_fits(extent: int, margin: int, tile: int, spacing: int, i: int)
    requires
        margin >= 0,
        tile > 0,
        spacing >= 0,
        0 <= i < axis_count(extent, margin, tile, spacing),
    ensures
        margin + i * (tile + spacing) + tile + margin <= extent,
{
    let step = tile + spacing;
    let x = extent - 2 * margin - tile;
    let q = x / step;
    lemma_fundamental_div_mod(x, step);
    lemma_mod_pos_bound(x, step);
    assert(i * step <= q * step) by (nonlinear_arith)
        requires i <= q, step > 0;
}

/// Cell `i` along an axis is counted exactly when the whole tile fits between the
/// margins: trailing partial tiles are never counted.
pub proof fn lemma_whole_cells(extent: int, margin: int, tile: int, spacing: int, i: int)
    requires
        margin >= 0,
        tile > 0,
        spacing >= 0,
        i >= 0,
    ensures
        i < axis_count(extent, margin, tile, spacing) <==> margin + i * (tile + spacing) + tile
            + margin <= extent,
{
    let step = tile + spacing;
    if i < axis_count(extent, margin, tile, spacing) {
        lemma_axis_fits(extent, margin, tile, spacing, i);
    } else if margin + i * step + tile + margin <= extent {
        let x = extent - 2 * margin - tile;
        lemma_fundamental_div_mod(x, step);
        lemma_mod_pos_bound(x, step);
        assert(false) by (nonlinear_arith)
            requires
                i >= x / step + 1,
                i * step <= x,
                x == step * (x / step) + x % step,
                x % step < step,
                step > 0,
        ;
    }
}

/// A tile set of one image exactly `2 * margin` larger than a tile in each direction
/// holds exactly one tile.
pub proof fn lemma_single_cell(d: TilesetDescription)
    requires
        d.well_formed(),
        d.images@.len() == 1,
        d.images@[0].width == 2 * d.margin + d.tile_width,
        d.images@[0].height == 2 * d.margin + d.tile_height,
    ensures
        total_tile_count(d) == 1,
{
    let img = d.images@[0];
    assert(columns(d, img) == 1);
    assert(rows(d, img) == 1);
    assert(tile_count(d, 0) == 0);
    assert(tile_count(d, 1) == 1);
}

/// The number of whole tiles along an axis is at most its extent.
proof fn lemma_axis_count_bound(extent: int, margin: int, tile: int, spacing: int)
    requires
        margin >= 0,
        tile > 0,
        spacing >= 0,
        extent >= 0,
    ensures
        0 <= axis_count(extent, margin, tile, spacing) <= extent,
{
    let step = tile + spacing;
    if extent >= 2 * margin + tile {
        let x = extent - 2 * margin - tile;
        lemma_fundamental_div_mod(x, step);
        lemma_mod_pos_bound(x, step);
        lemma_div_pos_is_pos(x, step);
        assert(x / step <= step * (x / step)) by (nonlinear_arith)
            requires x / step >= 0, step >= 1;
    }
}

fn axis_count_of(extent: u32, margin: u32, tile: u32, spacing: u32) -> (n: u32)
    requires
        tile > 0,
    ensures
        n == axis_count(extent as int, margin as int, tile as int, spacing as int),
{
    proof {
        lemma_axis_count_bound(extent as int, margin as int, tile as int, spacing as int);
    }
    let need = 2 * (margin as u64) + tile as u64;
    if (extent as u64) < need {
        0
    } else {
        (((extent as u64) - need) / ((tile as u64) + (spacing as u64)) + 1) as u32
    }
}

/// Checks decoded image `i` against its declaration.
fn check_image(d: &TilesetDescription, decoded: &Vec<Option<DecodedImage>>, i: usize) -> (r: Result<
    (),
    ExtractError,
>)
    requires
        i < d.images@.len(),
    ensures
        r is Ok <==> image_ok(*d, decoded@, i as int),
        r == Err::<(), ExtractError>(ExtractError::ImageDecode(i)) <==> !image_decoded(
            decoded@,
            i as int,
        ),
        r == Err::<(), ExtractError>(ExtractError::Dimension(i)) <==> (image_decoded(
            decoded@,
            i as int,
        ) && !image_matches(*d, decoded@, i as int)),
{
    if i >= decoded.len() {
        return Err(ExtractError::ImageDecode(i));
    }
    match &decoded[i] {
        None => Err(ExtractError::ImageDecode(i)),
        Some(img) => {
            let src = &d.images[i];
            if img.width != src.width || img.height != src.height {
                return Err(ExtractError::Dimension(i));
            }
            assert((img.width as u128) * (img.height as u128) <= 0xffff_ffff_ffff_ffffu128 * 0xffff_ffffu128)
                by (nonlinear_arith)
                requires img.width <= 0xffff_ffffu32, img.height <= 0xffff_ffffu32;
            let expected = (img.width as u128) * (img.height as u128) * 4;
            if (img.pixels.len() as u128) != expected {
                return Err(ExtractError::Dimension(i));
            }
            Ok(())
        },
    }
}

/// Cuts every whole tile out of the decoded source images, image by image in
/// declaration order, each image column by column.
pub fn extract(d: &TilesetDescription, decoded: &Vec<Option<DecodedImage>>) -> (r: Result<
    Vec<TilePixels>,
    ExtractError,
>)
    requires
        d.well_formed(),
    ensures
        r is Ok <==> images_ok(*d, decoded@, d.images@.len() as int),
        match r {
            Ok(tiles) => {
                &&& tile_bytes(tiles@) == extracted(*d, decoded@, d.images@.len() as int)
                &&& forall|t: int|
                    0 <= t < tiles@.len() ==> {
                        &&& tiles@[t].well_formed()
                        &&& tiles@[t].width == d.tile_width
                        &&& tiles@[t].height == d.tile_height
                    }
            },
            Err(e) => extract_fails_with(*d, decoded@, e),
        },
{
    let mut tiles: Vec<TilePixels> = Vec::new();
    let mut i: usize = 0;
    while i < d.images.len()
        invariant
            d.well_formed(),
            i <= d.images@.len(),
            images_ok(*d, decoded@, i as int),
            tile_bytes(tiles@) == extracted(*d, decoded@, i as int),
            forall|t: int|
                0 <= t < tiles@.len() ==> {
                    &&& tiles@[t].well_formed()
                    &&& tiles@[t].width == d.tile_width
                    &&& tiles@[t].height == d.tile_height
                },
        decreases d.images@.len() - i,
    {
        match check_image(d, decoded, i) {
            Err(e) => {
                return Err(e);
            },
            Ok(()) => {},
        }
        let src = &d.images[i];
        let img = match &decoded[i] {
            Some(img) => img,
            None => {
                return Err(ExtractError::ImageDecode(i));
            },
        };
        let cols = axis_count_of(src.width, d.margin, d.tile_width, d.spacing);
        let nrows = axis_count_of(src.height, d.margin, d.tile_height, d.spacing);
        assert((cols as u64) * (nrows as u64) <= 0xffff_ffffu64 * 0xffff_ffffu64) by (nonlinear_arith)
            requires cols <= 0xffff_ffffu32, nrows <= 0xffff_ffffu32;
        let count = (cols as u64) * (nrows as u64);
        let ghost before = tile_bytes(tiles@);
        let ghost these = image_tiles(*d, *src, img.pixels@);
        let mut k: u64 = 0;
        while k < count
            invariant
                d.well_formed(),
                i < d.images@.len(),
                *src == d.images@[i as int],
                image_ok(*d, decoded@, i as int),
                decoded@[i as int] == Some(*img),
                cols == columns(*d, *src),
                nrows == rows(*d, *src),
                count == image_tile_count(*d, *src),
                these == image_tiles(*d, *src, img.pixels@),
                before == extracted(*d, decoded@, i as int),
                k <= count,
                tile_bytes(tiles@) == before + these.take(k as int),
                forall|t: int|
                    0 <= t < tiles@.len() ==> {
                        &&& tiles@[t].well_formed()
                        &&& tiles@[t].width == d.tile_width
                        &&& tiles@[t].height == d.tile_height
                    },
            decreases count - k,
        {
            let col = k / (nrows as u64);
            let row = k % (nrows as u64);
            proof {
                lemma_multiply_divide_lt(k as int, nrows as int, cols as int);
                lemma_axis_fits(
                    src.width as int,
                    d.margin as int,
                    d.tile_width as int,
                    d.spacing as int,
                    col as int,
                );
                lemma_axis_fits(
                    src.height as int,
                    d.margin as int,
                    d.tile_height as int,
                    d.spacing as int,
                    row as int,
                );
            }
            let r = Rect {
                x: ((d.margin as u64) + col * ((d.tile_width as u64) + (d.spacing as u64))) as u32,
                y: ((d.margin as u64) + row * ((d.tile_height as u64) + (d.spacing as u64))) as u32,
                width: d.tile_width,
                height: d.tile_height,
            };
            assert(r == grid_rect(*d, *src, k as int));
            let bytes = copy_region(&img.pixels, img.width, img.height, r);
            let tile = TilePixels { width: d.tile_width, height: d.tile_height, bytes };
            let ghost old_tiles = tiles@;
            tiles.push(tile);
            proof {
                assert(tile_bytes(tiles@) =~= tile_bytes(old_tiles).push(bytes@));
                assert(these.take(k + 1) =~= these.take(k as int).push(these[k as int]));
                assert(tile_bytes(tiles@) =~= before + these.take(k + 1));
            }
            k = k + 1;
        }
        proof {
            assert(these.take(k as int) =~= these);
            assert(tile_bytes(tiles@) =~= extracted(*d, decoded@, i + 1));
        }
        i = i + 1;
    }
    Ok(tiles)
}

} // verus!
