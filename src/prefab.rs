//! The two-phase load of a tile set's atlas, and the grid index of a map cell.
use crate::atlas::AtlasLayout;
use crate::cache::{request_outcome, AtlasHandle, TilesetCache};
use crate::geometry::Rect;
use crate::tileset::TilesetDescription;
use vstd::prelude::*;

verus! {

/// A tile set to load: still a description, or already the handle of its packed atlas.
pub enum TileSetPrefab {
    Handle(AtlasHandle),
    TileSet(TilesetDescription),
}

impl From<TilesetDescription> for TileSetPrefab {
    fn from(set: TilesetDescription) -> Self {
        Self::TileSet(set)
    }
}

impl vstd::std_specs::convert::FromSpecImpl<TilesetDescription> for TileSetPrefab {
    open spec fn obeys_from_spec() -> bool {
        true
    }

    open spec fn from_spec(v: TilesetDescription) -> TileSetPrefab {
        TileSetPrefab::TileSet(v)
    }
}

/// What a load step left to do.
#[derive(Clone, Copy, Debug, PartialEq, Eq, Structural)]
pub enum LoadStep {
    /// The prefab holds its atlas handle; nothing was packed.
    Complete,
    /// The cache has no atlas for the tile set: its images are to be decoded and packed,
    /// the atlas uploaded, and the handle handed to `finish_load`.
    NeedsPacking,
}

impl TileSetPrefab {
    /// Resolves the prefab from the cache when its tile set is cached already.
    /// A prefab that holds a handle is left as it is.
    pub fn load_sub_assets(&mut self, cache: &TilesetCache) -> (r: LoadStep)
        requires
            cache.well_formed(),
        ensures
            match *old(self) {
                TileSetPrefab::Handle(_) => *final(self) == *old(self) && r == LoadStep::Complete,
                TileSetPrefab::TileSet(d) => if cache@.contains_key(d.name@) {
                    *final(self) == TileSetPrefab::Handle(cache@[d.name@]) && r
                        == LoadStep::Complete
                } else {
                    *final(self) == *old(self) && r == LoadStep::NeedsPacking
                },
            },
    {
        let found = match self {
            TileSetPrefab::Handle(_) => {
                return LoadStep::Complete;
            },
            TileSetPrefab::TileSet(set) => cache.get(&set.name),
        };
        match found {
            Some(handle) => {
                *self = TileSetPrefab::Handle(handle);
                LoadStep::Complete
            },
            None => LoadStep::NeedsPacking,
        }
    }

    /// Registers the uploaded atlas under the tile set's name and resolves the prefab
    /// to the handle the cache holds for it (an earlier entry wins). Returns that handle
    /// and whether this call made the entry.
    pub fn finish_load(&mut self, cache: &mut TilesetCache, handle: AtlasHandle) -> (r: (
        AtlasHandle,
        bool,
    ))
        requires
            old(cache).well_formed(),
            *old(self) is TileSet,
        ensures
            final(cache).well_formed(),
            (final(cache)@, r.0, r.1) == request_outcome(
                old(cache)@,
                (*old(self))->TileSet_0.name@,
                handle,
            ),
            *final(self) == TileSetPrefab::Handle(r.0),
    {
        let name = match self {
            TileSetPrefab::TileSet(set) => set.name.clone(),
            TileSetPrefab::Handle(h) => {
                return (*h, false);
            },
        };
        let fresh = cache.get(&name).is_none();
        let kept = cache.insert(name, handle);
        *self = TileSetPrefab::Handle(kept);
        (kept, fresh)
    }

    /// The atlas handle of a loaded prefab.
    pub fn add_to_entity(&self) -> (r: AtlasHandle)
        requires
            self is Handle,
        ensures
            r == self->Handle_0,
    {
        match self {
            TileSetPrefab::Handle(handle) => *handle,
            TileSetPrefab::TileSet(_) => AtlasHandle { id: 0 },
        }
    }
}

/// Rectangle index `i` lies past the end of a layout of `len` rectangles.
#[derive(Clone, Copy, Debug, PartialEq, Eq, Structural)]
pub struct IndexOutOfRange {
    pub index: usize,
    pub len: usize,
}

/// The grid id of a tile: which rectangle of the atlas layout a map cell shows.
/// The default value stands for an empty cell.
#[derive(Clone, Copy, Debug, Default, Hash, PartialEq, Eq, Structural)]
pub struct TileGid(pub usize);

impl From<usize> for TileGid {
    fn from(idx: usize) -> Self {
        Self(idx)
    }
}

impl vstd::std_specs::convert::FromSpecImpl<usize> for TileGid {
    open spec fn obeys_from_spec() -> bool {
        true
    }

    open spec fn from_spec(v: usize) -> TileGid {
        TileGid(v)
    }
}

impl TileGid {
    /// The sprite index this cell shows.
    pub fn sprite(&self) -> (r: Option<usize>)
        ensures
            r == Some(self.0),
    {
        Some(self.0)
    }

    /// The rectangle of the layout that this index selects.
    pub fn resolve(&self, layout: &AtlasLayout) -> (r: Result<Rect, IndexOutOfRange>)
        ensures
            self.0 < layout.rects@.len() ==> r == Ok::<Rect, IndexOutOfRange>(
                layout.rects@[self.0 as int],
            ),
            self.0 >= layout.rects@.len() ==> r == Err::<Rect, IndexOutOfRange>(
                IndexOutOfRange { index: self.0, len: layout.rects@.len() as usize },
            ),
    {
        if self.0 < layout.rects.len() {
            Ok(layout.rects[self.0])
        } else {
            Err(IndexOutOfRange { index: self.0, len: layout.rects.len() })
        }
    }
}

} // verus!
