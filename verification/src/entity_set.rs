use bevy::utils::{HashMap, HashSet};
use vstd::prelude::*;

verus! {

/// A set of entity ids, kept in the engine's hash set.
#[verifier::external_body]
pub struct EntitySet {
    set: HashSet<u64>,
}

/// The ids that an entity set holds.
pub uninterp spec fn entity_set_items(s: EntitySet) -> Set<u64>;

impl View for EntitySet {
    type V = Set<u64>;

    open spec fn view(&self) -> Set<u64> {
        entity_set_items(*self)
    }
}

impl EntitySet {
    /// An empty set with room for `capacity` ids: `HashSet::with_capacity_and_hasher`, which
    /// gives a set with no elements.
    #[verifier::external_body]
    pub(crate) fn with_capacity(capacity: usize) -> (res: Self)
        ensures
            entity_set_items(res) == Set::<u64>::empty(),
    {
        EntitySet { set: HashSet::with_capacity_and_hasher(capacity, Default::default()) }
    }

    /// `HashSet::insert`: adds the id, and returns `true` where it was not there before.
    #[verifier::external_body]
    pub(crate) fn insert(&mut self, id: u64) -> (res: bool)
        ensures
            entity_set_items(*final(self)) == entity_set_items(*old(self)).insert(id),
            res == !entity_set_items(*old(self)).contains(id),
    {
        self.set.insert(id)
    }

    /// `HashSet::remove`: takes the id out, and returns `true` where it was there.
    #[verifier::external_body]
    pub(crate) fn remove(&mut self, id: u64) -> (res: bool)
        ensures
            entity_set_items(*final(self)) == entity_set_items(*old(self)).remove(id),
            res == entity_set_items(*old(self)).contains(id),
    {
        self.set.remove(&id)
    }

    /// `HashSet::contains`: whether the id is in the set.
    #[verifier::external_body]
    pub(crate) fn contains(&self, id: u64) -> (res: bool)
        ensures
            res == entity_set_items(*self).contains(id),
    {
        self.set.contains(&id)
    }

    /// The first id that `HashSet::iter` yields: some id of the set, which one being left to
    /// the hash order, or `None` for an empty set.
    #[verifier::external_body]
    pub(crate) fn first(&self) -> (res: Option<u64>)
        ensures
            res is None <==> entity_set_items(*self) == Set::<u64>::empty(),
            res matches Some(id) ==> entity_set_items(*self).contains(id),
    {
        self.set.iter().next().copied()
    }

    /// The ids that `HashSet::iter` yields, each once, in the hash order.
    #[verifier::external_body]
    pub(crate) fn to_vec(&self) -> (res: Vec<u64>)
        ensures
            res@.to_set() == entity_set_items(*self),
            res@.no_duplicates(),
    {
        self.set.iter().copied().collect()
    }
}

/// The entities of a graph's nodes by node id, kept in the engine's hash map.
#[verifier::external_body]
pub struct NodeMap {
    map: HashMap<usize, u64>,
}

/// The node entities that a node map holds, by node id.
pub uninterp spec fn node_map_items(m: NodeMap) -> Map<usize, u64>;

impl View for NodeMap {
    type V = Map<usize, u64>;

    open spec fn view(&self) -> Map<usize, u64> {
        node_map_items(*self)
    }
}

impl NodeMap {
    /// An empty map: `HashMap::default`.
    #[verifier::external_body]
    pub(crate) fn new() -> (res: Self)
        ensures
            node_map_items(res).dom() == Set::<usize>::empty(),
    {
        NodeMap { map: HashMap::default() }
    }

    /// `HashMap::insert`: maps `id` to `entity`, and returns what it mapped to before.
    #[verifier::external_body]
    pub(crate) fn insert(&mut self, id: usize, entity: u64) -> (res: Option<u64>)
        ensures
            node_map_items(*final(self)) == node_map_items(*old(self)).insert(id, entity),
            res == (if node_map_items(*old(self)).dom().contains(id) {
                Some(node_map_items(*old(self))[id])
            } else {
                None
            }),
    {
        self.map.insert(id, entity)
    }

    /// `HashMap::remove`: takes `id` out, and returns what it mapped to.
    #[verifier::external_body]
    pub(crate) fn remove(&mut self, id: usize) -> (res: Option<u64>)
        ensures
            node_map_items(*final(self)) == node_map_items(*old(self)).remove(id),
            res == (if node_map_items(*old(self)).dom().contains(id) {
                Some(node_map_items(*old(self))[id])
            } else {
                None
            }),
    {
        self.map.remove(&id)
    }

    /// `HashMap::get`: what `id` maps to.
    #[verifier::external_body]
    pub(crate) fn get(&self, id: usize) -> (res: Option<u64>)
        ensures
            res == (if node_map_items(*self).dom().contains(id) {
                Some(node_map_items(*self)[id])
            } else {
                None
            }),
    {
        self.map.get(&id).copied()
    }
}

} // verus!
