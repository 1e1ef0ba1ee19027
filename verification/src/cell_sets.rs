use vstd::prelude::*;

verus! {

/// A set of linear cell indices, backed by `hashbrown::HashSet<i32>`.
///
/// The pathfinder keeps its open-membership and closed sets here.  The
/// backing set is opaque to the verifier; what it holds is named by
/// `cell_set_contents`, and each method states how the call changes that
/// contents, as `hashbrown`'s documentation gives it.
#[verifier::external_body]
pub struct CellSet {
    cells: hashbrown::HashSet<i32>,
}

/// The mathematical contents of a `CellSet`.
pub uninterp spec fn cell_set_contents(s: CellSet) -> Set<i32>;

impl CellSet {
    /// Relies on hashbrown::HashSet::new: the new set contains nothing.
    #[verifier::external_body]
    pub fn new() -> (s: CellSet)
        ensures
            cell_set_contents(s) == Set::<i32>::empty(),
    {
        CellSet { cells: hashbrown::HashSet::new() }
    }

    /// Relies on hashbrown::HashSet::insert: afterwards the set contains
    /// `value` and everything it contained before.
    #[verifier::external_body]
    pub fn insert(&mut self, value: i32)
        ensures
            cell_set_contents(*final(self)) == cell_set_contents(*old(self)).insert(value),
    {
        self.cells.insert(value);
    }

    /// Relies on hashbrown::HashSet::contains: whether the set contains
    /// `value`.
    #[verifier::external_body]
    pub fn contains(&self, value: i32) -> (r: bool)
        ensures
            r == cell_set_contents(*self).contains(value),
    {
        self.cells.contains(&value)
    }

    /// Relies on hashbrown::HashSet::remove: afterwards the set contains
    /// everything it contained before except `value`.
    #[verifier::external_body]
    pub fn remove(&mut self, value: i32)
        ensures
            cell_set_contents(*final(self)) == cell_set_contents(*old(self)).remove(value),
    {
        self.cells.remove(&value);
    }

    /// Relies on hashbrown::HashSet::clear: afterwards the set contains
    /// nothing.
    #[verifier::external_body]
    pub fn clear(&mut self)
        ensures
            cell_set_contents(*final(self)) == Set::<i32>::empty(),
    {
        self.cells.clear();
    }
}

/// A map from linear cell index to linear cell index, backed by
/// `hashbrown::HashMap<i32, i32>`.
///
/// The pathfinder records here, for each discovered cell, the cell it was
/// most efficiently reached from.  The backing map is opaque to the
/// verifier; what it holds is named by `cell_map_contents`, and each method
/// states how the call changes that contents, as `hashbrown`'s
/// documentation gives it.
#[verifier::external_body]
pub struct CellMap {
    cells: hashbrown::HashMap<i32, i32>,
}

/// The mathematical contents of a `CellMap`.
pub uninterp spec fn cell_map_contents(m: CellMap) -> Map<i32, i32>;

/// The empty cell map, as a spec value.
pub open spec fn cell_map_empty() -> Map<i32, i32> {
    Map::empty()
}

impl CellMap {
    /// Relies on hashbrown::HashMap::new: the new map contains nothing.
    #[verifier::external_body]
    pub fn new() -> (m: CellMap)
        ensures
            cell_map_contents(m) == cell_map_empty(),
    {
        CellMap { cells: hashbrown::HashMap::new() }
    }

    /// Relies on hashbrown::HashMap::insert: afterwards the map sends
    /// `key` to `value` and every other key to what it did before.
    #[verifier::external_body]
    pub fn insert(&mut self, key: i32, value: i32)
        ensures
            cell_map_contents(*final(self)) == cell_map_contents(*old(self)).insert(key, value),
    {
        self.cells.insert(key, value);
    }

    /// Relies on hashbrown::HashMap::get: the value under `key`, or
    /// `None` where the map does not contain `key`.
    #[verifier::external_body]
    pub fn get(&self, key: i32) -> (r: Option<i32>)
        ensures
            r == (if cell_map_contents(*self).dom().contains(key) {
                Some(cell_map_contents(*self)[key])
            } else {
                None::<i32>
            }),
    {
        self.cells.get(&key).copied()
    }

    /// Relies on hashbrown::HashMap::clear: afterwards the map contains
    /// nothing.
    #[verifier::external_body]
    pub fn clear(&mut self)
        ensures
            cell_map_contents(*final(self)) == cell_map_empty(),
    {
        self.cells.clear();
    }
}

} // verus!
