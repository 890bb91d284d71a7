//! Building the packed atlas of a tile set from its decoded source images.
use crate::geometry::region;
use crate::atlas::{
    atlas_filled, layout_acceptable, pack, packable, rects_of, simple_layout_of, sizes_of,
    within_packer_range, PackError, PackedAtlas,
};
use crate::tileset::{
    extract, extract_fails_with, extracted, images_ok, lemma_extracted_len, tile_bytes,
    total_tile_count, DecodedImage, ExtractError, TilesetDescription,
};
use vstd::prelude::*;

verus! {

/// Why a tile set's atlas could not be built.
#[derive(Clone, Copy, Debug, PartialEq, Eq, Structural)]
pub enum LoadError {
    Extract(ExtractError),
    Pack(PackError),
}

/// The size of every tile of the tile set, once per tile.
pub open spec fn uniform_sizes(d: TilesetDescription) -> Seq<(u32, u32)> {
    Seq::new(total_tile_count(d) as nat, |i: int| (d.tile_width, d.tile_height))
}

/// The tile set has tiles, and the packer's layout for them is acceptable.
pub open spec fn grid_packable(d: TilesetDescription) -> bool {
    let sizes = uniform_sizes(d);
    &&& total_tile_count(d) > 0
    &&& within_packer_range(sizes)
    &&& layout_acceptable(sizes, simple_layout_of(sizes))
}

/// `a` is the atlas of the tile set's tiles, as cut from the decoded images.
pub open spec fn atlas_of(d: TilesetDescription, decoded: Seq<Option<DecodedImage>>, a: PackedAtlas) -> bool {
    let sizes = uniform_sizes(d);
    let l = simple_layout_of(sizes);
    &&& a.layout.width == l.0
    &&& a.layout.height == l.1
    &&& a.layout.rects@ == rects_of(sizes, l.2)
    &&& atlas_filled(
        a.pixels@,
        l.0 as int,
        l.1 as int,
        extracted(d, decoded, d.images@.len() as int),
        a.layout.rects@,
    )
}

/// Cuts the tiles out of the decoded source images and packs them into one atlas.
pub fn find_then_pack(tiles: &TilesetDescription, decoded: &Vec<Option<DecodedImage>>) -> (r: Result<
    PackedAtlas,
    LoadError,
>)
    requires
        tiles.well_formed(),
    ensures
        r matches Err(LoadError::Extract(_)) <==> !images_ok(
            *tiles,
            decoded@,
            tiles.images@.len() as int,
        ),
        r matches Err(LoadError::Extract(e)) ==> extract_fails_with(*tiles, decoded@, e),
        images_ok(*tiles, decoded@, tiles.images@.len() as int) ==> {
            &&& (r == Err::<PackedAtlas, LoadError>(LoadError::Pack(PackError::EmptyInput))
                <==> total_tile_count(*tiles) == 0)
            &&& (r == Err::<PackedAtlas, LoadError>(LoadError::Pack(PackError::PackingOverflow))
                <==> (total_tile_count(*tiles) > 0 && !grid_packable(*tiles)))
            &&& (r is Ok <==> grid_packable(*tiles))
        },
        r matches Ok(a) ==> atlas_of(*tiles, decoded@, a) && a.layout.rects@.len()
            == total_tile_count(*tiles),
{
    let cut = match extract(tiles, decoded) {
        Ok(cut) => cut,
        Err(e) => {
            return Err(LoadError::Extract(e));
        },
    };
    proof {
        lemma_extracted_len(*tiles, decoded@, tiles.images@.len() as int);
        assert(tile_bytes(cut@).len() == cut@.len());
        assert(sizes_of(cut@) =~= uniform_sizes(*tiles));
        assert(packable(cut@) == grid_packable(*tiles));
    }
    match pack(&cut) {
        Ok(a) => Ok(a),
        Err(e) => Err(LoadError::Pack(e)),
    }
}

/// For every tile, grid index `i` selects the rectangle of the atlas whose pixels
/// are those of the `i`-th extracted tile, byte for byte.
pub proof fn lemma_grid_index_round_trip(
    d: TilesetDescription,
    decoded: Seq<Option<DecodedImage>>,
    a: PackedAtlas,
    i: int,
)
    requires
        d.well_formed(),
        atlas_of(d, decoded, a),
        0 <= i < a.layout.rects@.len(),
    ensures
        i < extracted(d, decoded, d.images@.len() as int).len(),
        region(a.pixels@, a.layout.width as int, a.layout.rects@[i]) == extracted(
            d,
            decoded,
            d.images@.len() as int,
        )[i],
{
    lemma_extracted_len(d, decoded, d.images@.len() as int);
}

} // verus!
