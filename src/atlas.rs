//! Packing tiles into one atlas image with a layout of one rectangle per tile.
use crate::geometry::{
    byte_index, in_rect, lemma_byte_index, lemma_byte_index_injective, lemma_disjoint_exclusive,
    lemma_in_rect_covered, region, Rect,
};
use crate::tileset::{tile_bytes, TilePixels};
use vstd::prelude::*;

verus! {

/// Largest width and height of an atlas, in pixels.
pub const MAX_ATLAS_SIDE: u32 = 8192;

/// Largest sum of the tiles' widths, and of their heights, that the packer is given.
pub const MAX_EXTENT_SUM: u64 = 32768;

/// Where each tile lies in the atlas; rectangle `i` holds the `i`-th packed tile.
#[derive(Clone, Debug)]
pub struct AtlasLayout {
    pub width: u32,
    pub height: u32,
    pub rects: Vec<Rect>,
}

/// The atlas's RGBA pixels, row by row, with its layout.
#[derive(Clone, Debug)]
pub struct PackedAtlas {
    pub pixels: Vec<u8>,
    pub layout: AtlasLayout,
}

#[derive(Clone, Copy, Debug, PartialEq, Eq, Structural)]
pub enum PackError {
    /// There were no tiles to pack.
    EmptyInput,
    /// The tiles do not fit in an atlas of at most `MAX_ATLAS_SIDE` pixels a side.
    PackingOverflow,
}

/// The size of the sheet that sheep's simple packer makes of sprites of the given
/// sizes, and each sprite's (id, x, y) in it.
pub uninterp spec fn simple_layout_of(sizes: Seq<(u32, u32)>) -> (u32, u32, Seq<(usize, u32, u32)>);

pub open spec fn sum_widths(sizes: Seq<(u32, u32)>) -> int
    decreases sizes.len(),
{
    if sizes.len() == 0 {
        0
    } else {
        sum_widths(sizes.drop_last()) + sizes.last().0
    }
}

pub open spec fn sum_heights(sizes: Seq<(u32, u32)>) -> int
    decreases sizes.len(),
{
    if sizes.len() == 0 {
        0
    } else {
        sum_heights(sizes.drop_last()) + sizes.last().1
    }
}

/// The packer only sees sprites whose widths and heights each sum to at most
/// `MAX_EXTENT_SUM`; every coordinate it computes stays below that.
pub open spec fn within_packer_range(sizes: Seq<(u32, u32)>) -> bool {
    sum_widths(sizes) <= MAX_EXTENT_SUM && sum_heights(sizes) <= MAX_EXTENT_SUM
}

/// Relies on sheep's `SimplePacker::pack`: it returns one sheet, computed from the
/// sprite sizes alone; its anchors are handed out as (id, x, y).
#[verifier::external_body]
fn simple_layout(sizes: &Vec<(u32, u32)>) -> (r: (u32, u32, Vec<(usize, u32, u32)>))
    requires
        within_packer_range(sizes@),
    ensures
        (r.0, r.1, r.2@) == simple_layout_of(sizes@),
{
    let data: Vec<sheep::SpriteData> = sizes.iter().enumerate().map(
        |(id, s)| sheep::SpriteData::new(id, *s),
    ).collect();
    let sheet = <sheep::SimplePacker as sheep::Packer>::pack(&data, ()).remove(0);
    let anchors = sheet.anchors.iter().map(|a| (a.id, a.position.0, a.position.1)).collect();
    (sheet.dimensions.0, sheet.dimensions.1, anchors)
}

pub open spec fn sizes_of(tiles: Seq<TilePixels>) -> Seq<(u32, u32)> {
    tiles.map_values(|t: TilePixels| (t.width, t.height))
}

/// The rectangle of each sprite, from its anchor and its size.
pub open spec fn rects_of(sizes: Seq<(u32, u32)>, anchors: Seq<(usize, u32, u32)>) -> Seq<Rect> {
    Seq::new(
        sizes.len(),
        |i: int| Rect { x: anchors[i].1, y: anchors[i].2, width: sizes[i].0, height: sizes[i].1 },
    )
}

pub open spec fn pairwise_disjoint(rects: Seq<Rect>) -> bool {
    forall|a: int, b: int| 0 <= a < b < rects.len() ==> rects[a].disjoint(rects[b])
}

/// A packer's sheet is taken when it is at most `MAX_ATLAS_SIDE` a side and holds
/// every sprite, in input order, inside it and apart from the others.
pub open spec fn layout_acceptable(sizes: Seq<(u32, u32)>, l: (u32, u32, Seq<(usize, u32, u32)>)) -> bool {
    &&& l.2.len() == sizes.len()
    &&& l.0 <= MAX_ATLAS_SIDE
    &&& l.1 <= MAX_ATLAS_SIDE
    &&& forall|i: int| 0 <= i < sizes.len() ==> l.2[i].0 == i
    &&& forall|i: int|
        0 <= i < sizes.len() ==> (#[trigger] rects_of(sizes, l.2)[i]).fits_in(l.0 as int, l.1 as int)
    &&& pairwise_disjoint(rects_of(sizes, l.2))
}

/// Each tile sits in its rectangle, and every byte outside all rectangles is zero
/// (a fully transparent pixel).
pub open spec fn atlas_filled(pixels: Seq<u8>, w: int, h: int, tiles: Seq<Seq<u8>>, rects: Seq<Rect>) -> bool {
    &&& pixels.len() == w * h * 4
    &&& forall|i: int| 0 <= i < tiles.len() ==> region(pixels, w, rects[i]) == tiles[i]
    &&& forall|j: int|
        0 <= j < pixels.len() && (forall|i: int| 0 <= i < rects.len() ==> !in_rect(j, w, rects[i]))
            ==> pixels[j] == 0
}

/// Sums over a longer prefix are no smaller.
proof fn lemma_sums_grow(s: Seq<(u32, u32)>, m: int, n: int)
    requires
        0 <= m <= n <= s.len(),
    ensures
        sum_widths(s.take(m)) <= sum_widths(s.take(n)),
        sum_heights(s.take(m)) <= sum_heights(s.take(n)),
    decreases n - m,
{
    if m < n {
        lemma_sums_grow(s, m, n - 1);
        assert(s.take(n).drop_last() =~= s.take(n - 1));
    }
}

/// Whether the sizes' widths and heights each sum to at most `MAX_EXTENT_SUM`.
fn check_packer_range(sizes: &Vec<(u32, u32)>) -> (r: bool)
    ensures
        r == within_packer_range(sizes@),
{
    let mut w: u64 = 0;
    let mut h: u64 = 0;
    let mut i: usize = 0;
    while i < sizes.len()
        invariant
            i <= sizes@.len(),
            w == sum_widths(sizes@.take(i as int)),
            h == sum_heights(sizes@.take(i as int)),
            w <= MAX_EXTENT_SUM,
            h <= MAX_EXTENT_SUM,
        decreases sizes@.len() - i,
    {
        assert(sizes@.take(i + 1).drop_last() =~= sizes@.take(i as int));
        w = w + sizes[i].0 as u64;
        h = h + sizes[i].1 as u64;
        if w > MAX_EXTENT_SUM || h > MAX_EXTENT_SUM {
            proof {
                lemma_sums_grow(sizes@, i + 1, sizes@.len() as int);
                assert(sizes@.take(sizes@.len() as int) =~= sizes@);
            }
            return false;
        }
        i = i + 1;
    }
    assert(sizes@.take(i as int) =~= sizes@);
    true
}

/// Takes the packer's sheet as the atlas layout when it is acceptable.
pub fn accept_layout(sizes: &Vec<(u32, u32)>, w: u32, h: u32, anchors: &Vec<(usize, u32, u32)>) -> (r:
    Option<Vec<Rect>>)
    ensures
        r is Some <==> layout_acceptable(sizes@, (w, h, anchors@)),
        r matches Some(rects) ==> rects@ == rects_of(sizes@, anchors@),
{
    if anchors.len() != sizes.len() || w > MAX_ATLAS_SIDE || h > MAX_ATLAS_SIDE {
        return None;
    }
    let ghost want = rects_of(sizes@, anchors@);
    let mut rects: Vec<Rect> = Vec::new();
    let mut i: usize = 0;
    while i < sizes.len()
        invariant
            anchors@.len() == sizes@.len(),
            want == rects_of(sizes@, anchors@),
            i <= sizes@.len(),
            rects@ == want.take(i as int),
            forall|k: int| 0 <= k < i ==> anchors@[k].0 == k,
            forall|k: int| 0 <= k < i ==> (#[trigger] want[k]).fits_in(w as int, h as int),
        decreases sizes@.len() - i,
    {
        let (id, x, y) = anchors[i];
        let (sw, sh) = sizes[i];
        let r = Rect { x, y, width: sw, height: sh };
        assert(r == want[i as int]);
        if id != i || (x as u64) + (sw as u64) > (w as u64) || (y as u64) + (sh as u64) > (h as u64) {
            return None;
        }
        rects.push(r);
        assert(rects@ =~= want.take(i + 1));
        i = i + 1;
    }
    assert(rects@ =~= want);
    let mut a: usize = 0;
    while a < rects.len()
        invariant
            rects@ == want,
            want == rects_of(sizes@, anchors@),
            a <= rects@.len(),
            forall|p: int, q: int| 0 <= p < a && p < q < rects@.len() ==> rects@[p].disjoint(rects@[q]),
        decreases rects@.len() - a,
    {
        let mut b: usize = a + 1;
        while b < rects.len()
            invariant
                rects@ == want,
                want == rects_of(sizes@, anchors@),
                a < rects@.len(),
                a < b <= rects@.len(),
                forall|p: int, q: int| 0 <= p < a && p < q < rects@.len() ==> rects@[p].disjoint(rects@[q]),
                forall|q: int| a < q < b ==> rects@[a as int].disjoint(rects@[q]),
            decreases rects@.len() - b,
        {
            let ra = rects[a];
            let rb = rects[b];
            let apart = (ra.x as u64) + (ra.width as u64) <= (rb.x as u64)
                || (rb.x as u64) + (rb.width as u64) <= (ra.x as u64)
                || (ra.y as u64) + (ra.height as u64) <= (rb.y as u64)
                || (rb.y as u64) + (rb.height as u64) <= (ra.y as u64);
            if !apart {
                assert(!pairwise_disjoint(want)) by {
                    assert(!want[a as int].disjoint(want[b as int]));
                }
                return None;
            }
            b = b + 1;
        }
        a = a + 1;
    }
    Some(rects)
}

/// Every tile's bytes land in the tile's rectangle of the atlas.
pub open spec fn tiles_placed(pixels: Seq<u8>, w: int, tiles: Seq<TilePixels>, rects: Seq<Rect>, n: int) -> bool {
    forall|t: int, k: int|
        0 <= t < n && 0 <= k < rects[t].byte_len() ==> pixels[byte_index(w, rects[t], k)]
            == tiles[t].bytes@[k]
}

/// Copies each tile into its rectangle of a fully transparent atlas of `w` by `h` pixels.
fn paint(tiles: &Vec<TilePixels>, w: u32, h: u32, rects: &Vec<Rect>) -> (pixels: Vec<u8>)
    requires
        rects@.len() == tiles@.len(),
        w <= MAX_ATLAS_SIDE,
        h <= MAX_ATLAS_SIDE,
        forall|i: int|
            0 <= i < tiles@.len() ==> {
                &&& tiles@[i].well_formed()
                &&& rects@[i].width == tiles@[i].width
                &&& rects@[i].height == tiles@[i].height
                &&& rects@[i].fits_in(w as int, h as int)
            },
        pairwise_disjoint(rects@),
    ensures
        atlas_filled(pixels@, w as int, h as int, tile_bytes(tiles@), rects@),
{
    assert((w as int) * (h as int) * 4 <= 8192 * 8192 * 4) by (nonlinear_arith)
        requires w <= 8192, h <= 8192;
    let total = (w as usize) * (h as usize) * 4;
    let mut pixels: Vec<u8> = Vec::with_capacity(total);
    let mut z: usize = 0;
    while z < total
        invariant
            z <= total,
            pixels@.len() == z,
            forall|j: int| 0 <= j < z ==> pixels@[j] == 0,
        decreases total - z,
    {
        pixels.push(0);
        z = z + 1;
    }
    let mut i: usize = 0;
    while i < tiles.len()
        invariant
            rects@.len() == tiles@.len(),
            forall|t: int|
                0 <= t < tiles@.len() ==> {
                    &&& tiles@[t].well_formed()
                    &&& rects@[t].width == tiles@[t].width
                    &&& rects@[t].height == tiles@[t].height
                    &&& rects@[t].fits_in(w as int, h as int)
                },
            pairwise_disjoint(rects@),
            total == w * h * 4,
            i <= tiles@.len(),
            pixels@.len() == total,
            tiles_placed(pixels@, w as int, tiles@, rects@, i as int),
            forall|j: int|
                0 <= j < total && (forall|t: int| 0 <= t < i ==> !in_rect(j, w as int, rects@[t]))
                    ==> pixels@[j] == 0,
        decreases tiles@.len() - i,
    {
        let tile = &tiles[i];
        let r = rects[i];
        let len = tile.bytes.len();
        let rw = r.width as usize;
        let mut k: usize = 0;
        while k < len
            invariant
                rects@.len() == tiles@.len(),
                forall|t: int|
                    0 <= t < tiles@.len() ==> {
                        &&& tiles@[t].well_formed()
                        &&& rects@[t].width == tiles@[t].width
                        &&& rects@[t].height == tiles@[t].height
                        &&& rects@[t].fits_in(w as int, h as int)
                    },
                pairwise_disjoint(rects@),
                total == w * h * 4,
                i < tiles@.len(),
                *tile == tiles@[i as int],
                r == rects@[i as int],
                rw == r.width,
                len == r.byte_len(),
                k <= len,
                pixels@.len() == total,
                tiles_placed(pixels@, w as int, tiles@, rects@, i as int),
                forall|kk: int| 0 <= kk < k ==> pixels@[byte_index(w as int, r, kk)] == tile.bytes@[kk],
                forall|j: int|
                    0 <= j < total && (forall|t: int| 0 <= t < i ==> !in_rect(j, w as int, rects@[t]))
                        && !in_rect(j, w as int, r) ==> pixels@[j] == 0,
            decreases len - k,
        {
            proof {
                lemma_byte_index(w as int, h as int, r, k as int);
            }
            let p = k / 4;
            let row = (r.y as usize) + p / rw;
            let col = (r.x as usize) + p % rw;
            let ghost b = byte_index(w as int, r, k as int);
            assert(b == (row * w + col) * 4 + k % 4);
            assert(row * w + col <= b && row * w <= b) by (nonlinear_arith)
                requires
                    b == (row * w + col) * 4 + k % 4,
                    row >= 0, col >= 0, w >= 0, k % 4 >= 0,
            ;
            let idx = (row * (w as usize) + col) * 4 + k % 4;
            let v = tile.bytes[k];
            let ghost before = pixels@;
            pixels.set(idx, v);
            proof {
                assert forall|t: int, kk: int|
                    0 <= t < i && 0 <= kk < rects@[t].byte_len() implies pixels@[byte_index(
                        w as int,
                        rects@[t],
                        kk,
                    )] == tiles@[t].bytes@[kk] by {
                    lemma_byte_index(w as int, h as int, rects@[t], kk);
                    assert(rects@[t].disjoint(rects@[i as int]));
                    lemma_disjoint_exclusive(b, w as int, r, rects@[t]);
                    assert(before[byte_index(w as int, rects@[t], kk)] == tiles@[t].bytes@[kk]);
                }
                assert forall|kk: int| 0 <= kk < k + 1 implies pixels@[byte_index(w as int, r, kk)]
                    == tile.bytes@[kk] by {
                    if kk < k {
                        lemma_byte_index(w as int, h as int, r, kk);
                        if byte_index(w as int, r, kk) == b {
                            lemma_byte_index_injective(w as int, h as int, r, kk, k as int);
                        }
                    }
                }
            }
            k = k + 1;
        }
        proof {
            assert forall|t: int, kk: int|
                0 <= t < i + 1 && 0 <= kk < rects@[t].byte_len() implies pixels@[byte_index(
                    w as int,
                    rects@[t],
                    kk,
                )] == tiles@[t].bytes@[kk] by {
                if t < i {
                } else {
                    assert(t == i);
                }
            }
            assert forall|j: int|
                0 <= j < total && (forall|t: int| 0 <= t < i + 1 ==> !in_rect(j, w as int, rects@[t]))
                    implies pixels@[j] == 0 by {
                assert(!in_rect(j, w as int, rects@[i as int]));
            }
        }
        i = i + 1;
    }
    proof {
        assert forall|t: int| 0 <= t < tiles@.len() implies region(pixels@, w as int, rects@[t])
            == tiles@[t].bytes@ by {
            assert(region(pixels@, w as int, rects@[t]) =~= tiles@[t].bytes@);
            assert(tile_bytes(tiles@)[t] == tiles@[t].bytes@);
        }
    }
    pixels
}

/// `a` is the atlas made of `tiles` with the packer's layout for their sizes.
pub open spec fn packed_from(tiles: Seq<TilePixels>, a: PackedAtlas) -> bool {
    let sizes = sizes_of(tiles);
    let l = simple_layout_of(sizes);
    &&& a.layout.width == l.0
    &&& a.layout.height == l.1
    &&& a.layout.rects@ == rects_of(sizes, l.2)
    &&& atlas_filled(a.pixels@, l.0 as int, l.1 as int, tile_bytes(tiles), a.layout.rects@)
}

/// The packer takes these tiles and its sheet for them is acceptable.
pub open spec fn packable(tiles: Seq<TilePixels>) -> bool {
    let sizes = sizes_of(tiles);
    tiles.len() > 0 && within_packer_range(sizes) && layout_acceptable(sizes, simple_layout_of(sizes))
}

/// Packs the tiles into one atlas; rectangle `i` of its layout holds tile `i`.
pub fn pack(tiles: &Vec<TilePixels>) -> (r: Result<PackedAtlas, PackError>)
    requires
        forall|i: int| 0 <= i < tiles@.len() ==> tiles@[i].well_formed(),
    ensures
        r is Ok <==> packable(tiles@),
        r == Err::<PackedAtlas, PackError>(PackError::EmptyInput) <==> tiles@.len() == 0,
        r == Err::<PackedAtlas, PackError>(PackError::PackingOverflow) <==> (tiles@.len() > 0
            && !packable(tiles@)),
        r matches Ok(a) ==> packed_from(tiles@, a),
{
    if tiles.len() == 0 {
        return Err(PackError::EmptyInput);
    }
    let mut sizes: Vec<(u32, u32)> = Vec::new();
    let mut i: usize = 0;
    while i < tiles.len()
        invariant
            i <= tiles@.len(),
            sizes@ == sizes_of(tiles@).take(i as int),
        decreases tiles@.len() - i,
    {
        sizes.push((tiles[i].width, tiles[i].height));
        assert(sizes@ =~= sizes_of(tiles@).take(i + 1));
        i = i + 1;
    }
    assert(sizes@ =~= sizes_of(tiles@));
    if !check_packer_range(&sizes) {
        return Err(PackError::PackingOverflow);
    }
    let (w, h, anchors) = simple_layout(&sizes);
    let rects = match accept_layout(&sizes, w, h, &anchors) {
        Some(rects) => rects,
        None => {
            return Err(PackError::PackingOverflow);
        },
    };
    proof {
        assert forall|t: int| 0 <= t < tiles@.len() implies {
            &&& rects@[t].width == tiles@[t].width
            &&& rects@[t].height == tiles@[t].height
            &&& rects@[t].fits_in(w as int, h as int)
        } by {
            assert(rects_of(sizes@, anchors@)[t] == rects@[t]);
        }
    }
    let pixels = paint(tiles, w, h, &rects);
    Ok(PackedAtlas { pixels, layout: AtlasLayout { width: w, height: h, rects } })
}

/// Packing the same tiles twice gives the same layout and the same atlas pixels.
pub proof fn lemma_pack_deterministic(tiles: Seq<TilePixels>, a1: PackedAtlas, a2: PackedAtlas)
    requires
        forall|i: int| 0 <= i < tiles.len() ==> tiles[i].well_formed(),
        packable(tiles),
        packed_from(tiles, a1),
        packed_from(tiles, a2),
    ensures
        a1.layout.width == a2.layout.width,
        a1.layout.height == a2.layout.height,
        a1.layout.rects@ == a2.layout.rects@,
        a1.pixels@ == a2.pixels@,
{
    let sizes = sizes_of(tiles);
    let l = simple_layout_of(sizes);
    let w = l.0 as int;
    let h = l.1 as int;
    let rects = a1.layout.rects@;
    let bytes = tile_bytes(tiles);
    assert forall|j: int| 0 <= j < a1.pixels@.len() implies a1.pixels@[j] == a2.pixels@[j] by {
        if exists|i: int| 0 <= i < rects.len() && in_rect(j, w, rects[i]) {
            let i = choose|i: int| 0 <= i < rects.len() && in_rect(j, w, rects[i]);
            assert(rects[i] == rects_of(sizes, l.2)[i]);
            assert(rects[i].width == tiles[i].width);
            assert(rects[i].fits_in(w, h));
            let k = lemma_in_rect_covered(w, h, rects[i], j);
            assert(region(a1.pixels@, w, rects[i]) == bytes[i]);
            assert(region(a2.pixels@, w, rects[i]) == bytes[i]);
            assert(region(a1.pixels@, w, rects[i])[k] == a1.pixels@[j]);
            assert(region(a2.pixels@, w, rects[i])[k] == a2.pixels@[j]);
        }
    }
    assert(a1.pixels@ =~= a2.pixels@);
}

} // verus!
