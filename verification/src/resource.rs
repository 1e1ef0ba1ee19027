use vstd::prelude::*;

use crate::area_state::AreaError;

verus! {

/// What every loadable resource definition offers: its identifier, and
/// construction from serialized text.  Implementations live with the
/// code that owns each resource format.
pub trait ResourceBuilder where Self: Sized {
    fn owned_id(&self) -> String;

    fn new(data: &str) -> Result<Self, AreaError>;
}

/// A playable or placeable entity definition: its identifier, whether it
/// is the player, the glyph that draws it, and its footprint edge length.
#[derive(Debug)]
pub struct Entity {
    pub id: String,
    pub player: bool,
    pub display: char,
    pub size: usize,
}

impl Entity {
    pub fn owned_id(&self) -> (r: String)
        ensures
            r@ == self.id@,
    {
        self.id.clone()
    }
}

impl PartialEq for Entity {
    fn eq(&self, other: &Entity) -> (r: bool) {
        self.id == other.id
    }
}

impl vstd::std_specs::cmp::PartialEqSpecImpl for Entity {
    open spec fn obeys_eq_spec() -> bool {
        true
    }

    open spec fn eq_spec(&self, other: &Entity) -> bool {
        self.id@ == other.id@
    }
}

/// The first value recorded under `id`, if any.
pub open spec fn resource_lookup<V>(map: Seq<(String, V)>, id: Seq<char>) -> Option<V>
    decreases map.len(),
{
    if map.len() == 0 {
        None
    } else if map[0].0@ == id {
        Some(map[0].1)
    } else {
        resource_lookup(map.drop_first(), id)
    }
}

/// The resource recorded under `id`, if any.
#[verifier::loop_isolation(false)]
pub fn get_resource<'a, V>(id: &str, map: &'a Vec<(String, V)>) -> (r: Option<&'a V>)
    ensures
        match r {
            Some(v) => resource_lookup(map@, id@) == Some(*v),
            None => resource_lookup(map@, id@) is None,
        },
{
    let wanted = String::from_str(id);
    proof {
        assert(map@.skip(0) =~= map@);
    }
    let mut k: usize = 0;
    while k < map.len()
        invariant
            k <= map@.len(),
            wanted@ == id@,
            resource_lookup(map@, id@) == resource_lookup(map@.skip(k as int), id@),
        decreases map@.len() - k,
    {
        proof {
            assert(map@.skip(k as int).drop_first() =~= map@.skip(k + 1));
            assert(map@.skip(k as int)[0] == map@[k as int]);
        }
        if map[k].0 == wanted {
            return Some(&map[k].1);
        }
        k += 1;
    }
    proof {
        assert(map@.skip(map@.len() as int).len() == 0);
    }
    None
}

/// Every recorded resource, in recording order.
pub fn all_resources<'a, V>(map: &'a Vec<(String, V)>) -> (r: Vec<&'a V>)
    ensures
        r@.len() == map@.len(),
        forall|k: int| 0 <= k < map@.len() ==> *(#[trigger] r@[k]) == map@[k].1,
{
    let mut r: Vec<&V> = Vec::new();
    let mut k: usize = 0;
    while k < map.len()
        invariant
            k <= map@.len(),
            r@.len() == k,
            forall|j: int| 0 <= j < k ==> *(#[trigger] r@[j]) == map@[j].1,
        decreases map@.len() - k,
    {
        r.push(&map[k].1);
        k += 1;
    }
    r
}

/// Records a successfully built resource at the front, where lookups
/// find it first; a failed build changes nothing and is left to the
/// caller to report.
pub fn insert_if_ok<V>(key: String, val: Result<V, AreaError>, map: &mut Vec<(String, V)>)
    ensures
        match val {
            Ok(v) => final(map)@ == old(map)@.insert(0, (key, v)),
            Err(_) => final(map)@ == old(map)@,
        },
{
    match val {
        Err(_) => (),
        Ok(v) => {
            map.insert(0, (key, v));
        },
    }
}

} // verus!
