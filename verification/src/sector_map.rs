//! Hash maps from sector labels to positions.

use rustc_hash::FxHashMap;
use vstd::prelude::*;

use crate::sector::SectorId;

verus! {

/// The hasher of [`rustc_hash::FxHashMap`], carried through unread.
#[verifier::external_type_specification]
#[verifier::external_body]
pub struct ExFxBuildHasher(rustc_hash::FxBuildHasher);

/// [`FxHashMap::default`]: a map without entries.
#[verifier::external_body]
fn fx_new() -> (map: FxHashMap<usize, usize>)
    ensures
        forall|key: usize| !map@.contains_key(key),
{
    FxHashMap::default()
}

/// [`FxHashMap::insert`]: the key now has the value, whatever it had before.
#[verifier::external_body]
fn fx_insert(map: &mut FxHashMap<usize, usize>, key: usize, value: usize)
    ensures
        final(map)@ == old(map)@.insert(key, value),
{
    map.insert(key, value);
}

/// [`FxHashMap::get`]: the value of the key, if it has one.
#[verifier::external_body]
fn fx_get(map: &FxHashMap<usize, usize>, key: usize) -> (value: Option<usize>)
    ensures
        value == if map@.contains_key(key) {
            Some(map@[key])
        } else {
            None
        },
{
    map.get(&key).copied()
}

/// A map from numbers to numbers.
pub struct NumberMap {
    entries: FxHashMap<usize, usize>,
}

impl View for NumberMap {
    type V = Map<usize, usize>;

    closed spec fn view(&self) -> Map<usize, usize> {
        self.entries@
    }
}

impl NumberMap {
    /// No number.
    pub fn new() -> (map: NumberMap)
        ensures
            map@ == Map::<usize, usize>::empty(),
    {
        let map = NumberMap { entries: fx_new() };
        assert(map@ =~= Map::<usize, usize>::empty());
        map
    }

    /// Gives a number its value, in place of one it had before.
    pub fn insert(&mut self, key: usize, value: usize)
        ensures
            final(self)@ == old(self)@.insert(key, value),
    {
        fx_insert(&mut self.entries, key, value);
    }

    /// The value of a number, if it has one.
    pub fn get(&self, key: usize) -> (value: Option<usize>)
        ensures
            value == if self@.contains_key(key) {
                Some(self@[key])
            } else {
                None
            },
    {
        fx_get(&self.entries, key)
    }
}

/// A map from sectors to numbers: positions in a list, extents or offsets.
pub struct SectorMap {
    by_id: NumberMap,
}

impl View for SectorMap {
    type V = Map<SectorId, usize>;

    closed spec fn view(&self) -> Map<SectorId, usize> {
        Map::new(
            |sector: SectorId| self.by_id@.contains_key(sector.id),
            |sector: SectorId| self.by_id@[sector.id],
        )
    }
}

impl SectorMap {
    /// No sector.
    pub fn new() -> (map: SectorMap)
        ensures
            map@ == Map::<SectorId, usize>::empty(),
    {
        let map = SectorMap { by_id: NumberMap::new() };
        assert(map@ =~= Map::<SectorId, usize>::empty());
        map
    }

    /// Gives a sector its number, in place of one it had before.
    pub fn insert(&mut self, sector: SectorId, value: usize)
        ensures
            final(self)@ == old(self)@.insert(sector, value),
    {
        self.by_id.insert(sector.id, value);
        assert(self@ =~= old(self)@.insert(sector, value));
    }

    /// The number of a sector, if it has one.
    pub fn get(&self, sector: SectorId) -> (value: Option<usize>)
        ensures
            value == if self@.contains_key(sector) {
                Some(self@[sector])
            } else {
                None
            },
    {
        self.by_id.get(sector.id)
    }
}

} // verus!
