//! The shared map from tile-set name to the handle of its packed atlas.
use vstd::prelude::*;

verus! {

/// An opaque, shared identifier of a packed atlas held by the asset storage.
#[derive(Clone, Copy, Debug, PartialEq, Eq, Hash, Structural)]
pub struct AtlasHandle {
    pub id: u64,
}

/// Tile-set name to atlas handle. An entry, once made, is never replaced or removed.
pub struct TilesetCache {
    entries: Vec<(String, AtlasHandle)>,
    contents: Ghost<Map<Seq<char>, AtlasHandle>>,
}

impl View for TilesetCache {
    type V = Map<Seq<char>, AtlasHandle>;

    closed spec fn view(&self) -> Map<Seq<char>, AtlasHandle> {
        self.contents@
    }
}

/// The cache after one request for `name` whose packing, if any, would give `fresh`,
/// the handle the request ends with, and whether it packed.
pub open spec fn request_outcome(
    m: Map<Seq<char>, AtlasHandle>,
    name: Seq<char>,
    fresh: AtlasHandle,
) -> (Map<Seq<char>, AtlasHandle>, AtlasHandle, bool) {
    if m.contains_key(name) {
        (m, m[name], false)
    } else {
        (m.insert(name, fresh), fresh, true)
    }
}

/// Requests for `name`, run one after another against the cache `m`; request `i`
/// would pack to `fresh[i]`. Gives the final cache, each request's handle, and how
/// many requests packed.
pub open spec fn run_requests(
    m: Map<Seq<char>, AtlasHandle>,
    name: Seq<char>,
    fresh: Seq<AtlasHandle>,
) -> (Map<Seq<char>, AtlasHandle>, Seq<AtlasHandle>, nat)
    decreases fresh.len(),
{
    if fresh.len() == 0 {
        (m, Seq::empty(), 0)
    } else {
        let before = run_requests(m, name, fresh.drop_last());
        let step = request_outcome(before.0, name, fresh.last());
        (step.0, before.1.push(step.1), before.2 + if step.2 {
            1nat
        } else {
            0nat
        })
    }
}

/// Any number of load requests for one tile-set name, made against one cache, all
/// resolve to the same handle, the one cached under the name; at most one of them
/// packs, and none does when the name was cached before.
pub proof fn lemma_cache_convergence(
    m: Map<Seq<char>, AtlasHandle>,
    name: Seq<char>,
    fresh: Seq<AtlasHandle>,
)
    ensures
        run_requests(m, name, fresh).2 <= 1,
        fresh.len() > 0 ==> run_requests(m, name, fresh).0.contains_key(name),
        forall|i: int|
            0 <= i < fresh.len() ==> run_requests(m, name, fresh).1[i] == run_requests(
                m,
                name,
                fresh,
            ).0[name],
        run_requests(m, name, fresh).1.len() == fresh.len(),
        m.contains_key(name) ==> run_requests(m, name, fresh).2 == 0 && run_requests(
            m,
            name,
            fresh,
        ).0 == m,
        fresh.len() > 0 && !m.contains_key(name) ==> run_requests(m, name, fresh).2 == 1,
    decreases fresh.len(),
{
    if fresh.len() > 0 {
        lemma_cache_convergence(m, name, fresh.drop_last());
    }
}

impl TilesetCache {
    /// The entries are exactly what the view holds.
    pub closed spec fn well_formed(&self) -> bool {
        &&& forall|i: int|
            0 <= i < self.entries@.len() ==> #[trigger] self.contents@.contains_key(
                self.entries@[i].0@,
            ) && self.contents@[self.entries@[i].0@] == self.entries@[i].1
        &&& forall|k: Seq<char>|
            #[trigger] self.contents@.contains_key(k) ==> exists|i: int|
                0 <= i < self.entries@.len() && #[trigger] self.entries@[i].0@ == k
    }

    pub fn new() -> (c: TilesetCache)
        ensures
            c.well_formed(),
            c@ == Map::<Seq<char>, AtlasHandle>::empty(),
    {
        TilesetCache { entries: Vec::new(), contents: Ghost(Map::empty()) }
    }

    /// The handle cached under `name`, if any.
    pub fn get(&self, name: &String) -> (r: Option<AtlasHandle>)
        requires
            self.well_formed(),
        ensures
            r == (if self@.contains_key(name@) {
                Some(self@[name@])
            } else {
                None
            }),
    {
        let mut i: usize = 0;
        while i < self.entries.len()
            invariant
                self.well_formed(),
                i <= self.entries@.len(),
                forall|j: int| 0 <= j < i ==> self.entries@[j].0@ != name@,
            decreases self.entries@.len() - i,
        {
            if self.entries[i].0 == *name {
                return Some(self.entries[i].1);
            }
            i = i + 1;
        }
        None
    }

    /// Caches `handle` under `name` unless the name already has an entry; returns the
    /// handle that the cache holds for `name` afterwards.
    pub fn insert(&mut self, name: String, handle: AtlasHandle) -> (r: AtlasHandle)
        requires
            old(self).well_formed(),
        ensures
            final(self).well_formed(),
            (final(self)@, r) == (if old(self)@.contains_key(name@) {
                (old(self)@, old(self)@[name@])
            } else {
                (old(self)@.insert(name@, handle), handle)
            }),
    {
        match self.get(&name) {
            Some(existing) => existing,
            None => {
                let ghost key = name@;
                let ghost old_entries = self.entries@;
                let ghost old_map = self.contents@;
                self.entries.push((name, handle));
                self.contents = Ghost(self.contents@.insert(key, handle));
                proof {
                    assert forall|k: Seq<char>| #[trigger]
                        self.contents@.contains_key(k) implies exists|i: int|
                        0 <= i < self.entries@.len() && #[trigger] self.entries@[i].0@ == k by {
                        if k == key {
                            assert(self.entries@[old_entries.len() as int].0@ == k);
                        } else {
                            assert(old_map.contains_key(k));
                            let i = choose|i: int|
                                0 <= i < old_entries.len() && #[trigger] old_entries[i].0@ == k;
                            assert(self.entries@[i].0@ == k);
                        }
                    }
                    assert forall|i: int| 0 <= i < self.entries@.len() implies #[trigger]
                        self.contents@.contains_key(self.entries@[i].0@)
                        && self.contents@[self.entries@[i].0@] == self.entries@[i].1 by {
                        if i < old_entries.len() {
                            assert(self.entries@[i] == old_entries[i]);
                            assert(old_map.contains_key(old_entries[i].0@));
                        }
                    }
                }
                handle
            },
        }
    }
}

} // verus!
