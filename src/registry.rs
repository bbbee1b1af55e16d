use std::collections::HashMap;
use vstd::prelude::*;
use crate::tag::TagSet;

verus! {

broadcast use vstd::std_specs::hash::group_hash_axioms;

/// Identifier of an entity. Identifiers are handed out in increasing order
/// and never reissued.
pub type Entity = u64;

#[derive(Clone, Copy, Debug, PartialEq, Eq, Structural)]
pub enum RegistryError {
    /// No live entity has the given identifier.
    NotFound,
    /// Every identifier has been handed out.
    Exhausted,
    /// The requested owner is itself owned by another entity.
    OwnerIsChild,
}

/// What the registry keeps about one live entity.
pub struct EntityRecord {
    pub tags: TagSet,
    pub owner: Option<Entity>,
    pub children: Vec<Entity>,
}

/// The mathematical model of an `EntityRecord`.
pub struct EntityInfo {
    pub tags: TagSet,
    pub owner: Option<Entity>,
    pub children: Seq<Entity>,
}

impl EntityRecord {
    pub open spec fn view(&self) -> EntityInfo {
        EntityInfo { tags: self.tags, owner: self.owner, children: self.children@ }
    }
}

/// Owns entity identities, their tags, and the ownership table from each
/// root entity to the entities it owns.
pub struct Registry {
    pub entities: HashMap<Entity, EntityRecord>,
    pub next_id: Entity,
}

/// The model after creating `e` with `tags`, owned by `owner` if any.
pub open spec fn after_create(
    m: Map<Entity, EntityInfo>,
    e: Entity,
    tags: TagSet,
    owner: Option<Entity>,
) -> Map<Entity, EntityInfo> {
    let fresh = EntityInfo { tags, owner, children: Seq::empty() };
    match owner {
        None => m.insert(e, fresh),
        Some(o) => m.insert(
            o,
            EntityInfo { children: m[o].children.push(e), ..m[o] },
        ).insert(e, fresh),
    }
}

/// `e` together with every live entity that `e` owns.
pub open spec fn family(m: Map<Entity, EntityInfo>, e: Entity) -> Set<Entity> {
    Set::new(|k: Entity| k == e || (m.contains_key(k) && m[k].owner == Some(e)))
}

impl Registry {
    pub open spec fn view(&self) -> Map<Entity, EntityInfo> {
        self.entities@.map_values(|r: EntityRecord| r@)
    }

    /// Identifiers stay below `next_id`; an owner is a live root that lists
    /// what it owns; a listed child that is live names its owner.
    pub open spec fn wf(&self) -> bool {
        let m = self@;
        &&& forall|k: Entity| #[trigger] m.contains_key(k) ==> k < self.next_id
        &&& forall|k: Entity, j: int|
            #![trigger m[k].children[j]]
            m.contains_key(k) && 0 <= j < m[k].children.len() ==> m[k].children[j] < self.next_id
        &&& forall|k: Entity|
            #![trigger m[k].owner]
            m.contains_key(k) && m[k].owner is Some ==> {
                let o = m[k].owner->0;
                &&& m.contains_key(o)
                &&& m[o].owner is None
                &&& m[o].children.contains(k)
            }
        &&& forall|k: Entity, c: Entity|
            #![trigger m[k].children.contains(c), m.contains_key(c)]
            m.contains_key(k) && m.contains_key(c) && m[k].children.contains(c) ==> m[c].owner
                == Some(k)
    }

    /// Whether `e` is a live entity holding `tag`.
    pub open spec fn holds(&self, e: Entity, tag: crate::tag::Tag) -> bool {
        self@.contains_key(e) && self@[e].tags.contains(tag)
    }

    /// The error `create` reports for `owner`, if any.
    pub open spec fn create_error(&self, owner: Option<Entity>) -> Option<RegistryError> {
        if self.next_id == u64::MAX {
            Some(RegistryError::Exhausted)
        } else {
            match owner {
                None => None,
                Some(o) => if !self@.contains_key(o) {
                    Some(RegistryError::NotFound)
                } else if self@[o].owner is Some {
                    Some(RegistryError::OwnerIsChild)
                } else {
                    None
                },
            }
        }
    }

    /// An empty registry.
    pub fn new() -> (r: Registry)
        ensures
            r.wf(),
            r@ == Map::<Entity, EntityInfo>::empty(),
            r.next_id == 0,
    {
        let r = Registry { entities: HashMap::new(), next_id: 0 };
        assert(r@ =~= Map::<Entity, EntityInfo>::empty());
        r
    }

    /// Creates an entity holding `tags`, owned by `owner` if one is given.
    /// The new identifier is `next_id`, which is then advanced.
    pub fn create(&mut self, tags: TagSet, owner: Option<Entity>) -> (r: Result<
        Entity,
        RegistryError,
    >)
        requires
            old(self).wf(),
        ensures
            final(self).wf(),
            match r {
                Ok(e) => {
                    &&& old(self).create_error(owner) is None
                    &&& e == old(self).next_id
                    &&& !old(self)@.contains_key(e)
                    &&& final(self).next_id == e + 1
                    &&& final(self)@ == after_create(old(self)@, e, tags, owner)
                },
                Err(err) => {
                    &&& old(self).create_error(owner) == Some(err)
                    &&& final(self)@ == old(self)@
                    &&& final(self).next_id == old(self).next_id
                },
            },
    {
        if self.next_id == u64::MAX {
            return Err(RegistryError::Exhausted);
        }
        let id = self.next_id;
        let ghost m0 = self@;
        assert(!m0.contains_key(id));
        match owner {
            None => {},
            Some(o) => {
                match self.entities.get(&o) {
                    None => {
                        return Err(RegistryError::NotFound);
                    },
                    Some(rec) => {
                        if rec.owner.is_some() {
                            return Err(RegistryError::OwnerIsChild);
                        }
                    },
                }
                let removed = self.entities.remove(&o);
                match removed {
                    Some(mut rec) => {
                        rec.children.push(id);
                        self.entities.insert(o, rec);
                    },
                    None => {},
                }
                assert(self@ =~= m0.insert(
                    o,
                    EntityInfo { children: m0[o].children.push(id), ..m0[o] },
                ));
            },
        }
        let fresh = EntityRecord { tags, owner, children: Vec::new() };
        self.entities.insert(id, fresh);
        self.next_id = id + 1;
        assert(self@ =~= after_create(m0, id, tags, owner));
        proof {
            let m = self@;
            assert forall|k: Entity, c: Entity|
                m.contains_key(k) && m.contains_key(c) && m[k].children.contains(
                    c,
                ) implies m[c].owner == Some(k) by {
                if c == id {
                    if Some(k) != owner {
                        assert(m0.contains_key(k));
                        assert(m[k].children == m0[k].children);
                        let j = choose|j: int|
                            0 <= j < m0[k].children.len() && m0[k].children[j] == c;
                        assert(m0[k].children[j] < id);
                    }
                } else if k != id {
                    assert(m0.contains_key(c));
                    if Some(k) == owner {
                        assert(m0[k].children.contains(c));
                    }
                }
            }
            assert forall|k: Entity|
                #![trigger m[k].owner]
                m.contains_key(k) && m[k].owner is Some implies {
                let o = m[k].owner->0;
                &&& m.contains_key(o)
                &&& m[o].owner is None
                &&& m[o].children.contains(k)
            } by {
                let o = m[k].owner->0;
                if k != id && Some(o) == owner {
                    assert(m0[o].children.contains(k));
                    let j = choose|j: int|
                        0 <= j < m0[o].children.len() && m0[o].children[j] == k;
                    assert(m[o].children[j] == k);
                }
                if k == id {
                    assert(m[o].children[m[o].children.len() - 1] == k);
                }
            }
        }
        Ok(id)
    }

    /// The tags of `e`.
    pub fn tags_of(&self, e: Entity) -> (r: Result<TagSet, RegistryError>)
        ensures
            match r {
                Ok(t) => self@.contains_key(e) && t == self@[e].tags,
                Err(err) => !self@.contains_key(e) && err == RegistryError::NotFound,
            },
    {
        match self.entities.get(&e) {
            Some(rec) => Ok(rec.tags),
            None => Err(RegistryError::NotFound),
        }
    }

    /// Whether `e` is live.
    pub fn is_live(&self, e: Entity) -> (r: bool)
        ensures
            r == self@.contains_key(e),
    {
        self.entities.contains_key(&e)
    }

    /// Destroys `e` and every entity it owns.
    pub fn destroy(&mut self, e: Entity) -> (r: Result<(), RegistryError>)
        requires
            old(self).wf(),
        ensures
            final(self).wf(),
            final(self).next_id == old(self).next_id,
            match r {
                Ok(()) => {
                    &&& old(self)@.contains_key(e)
                    &&& final(self)@ == old(self)@.remove_keys(family(old(self)@, e))
                },
                Err(err) => {
                    &&& !old(self)@.contains_key(e)
                    &&& err == RegistryError::NotFound
                    &&& final(self)@ == old(self)@
                },
            },
    {
        let ghost m0 = self@;
        let ghost e0 = self.entities@;
        let ghost n0 = self.next_id;
        let removed = self.entities.remove(&e);
        match removed {
            None => {
                assert(self@ =~= m0);
                Err(RegistryError::NotFound)
            },
            Some(rec) => {
                let ghost kids = rec.children@;
                assert(kids == m0[e].children);
                let mut i: usize = 0;
                while i < rec.children.len()
                    invariant
                        i <= rec.children.len(),
                        kids == rec.children@,
                        self.next_id == n0,
                        forall|k: Entity| #[trigger]
                            self.entities@.contains_key(k) <==> (e0.contains_key(k) && k != e
                                && !kids.subrange(0, i as int).contains(k)),
                        forall|k: Entity| #[trigger]
                            self.entities@.contains_key(k) ==> self.entities@[k] == e0[k],
                    decreases rec.children.len() - i,
                {
                    let c = rec.children[i];
                    self.entities.remove(&c);
                    proof {
                        assert(kids.subrange(0, i + 1) =~= kids.subrange(0, i as int).push(c));
                        assert forall|k: Entity|
                            #[trigger] kids.subrange(0, i + 1).contains(k) <==> (kids.subrange(
                                0,
                                i as int,
                            ).contains(k) || k == c) by {
                            vstd::seq_lib::lemma_seq_contains_after_push(
                                kids.subrange(0, i as int),
                                c,
                                k,
                            );
                        }
                    }
                    i = i + 1;
                }
                proof {
                    assert(kids.subrange(0, kids.len() as int) == kids);
                    let fam = family(m0, e);
                    assert forall|k: Entity|
                        self.entities@.contains_key(k) <==> (m0.contains_key(k) && !fam.contains(
                            k,
                        )) by {
                        if m0.contains_key(k) && k != e && m0[k].owner == Some(e) {
                            assert(m0[k].owner is Some);
                            assert(m0[e].children.contains(k));
                        }
                        if m0.contains_key(k) && kids.contains(k) {
                            assert(m0[e].children.contains(k));
                            assert(m0[k].owner == Some(e));
                        }
                    }
                    assert(self@ =~= m0.remove_keys(fam));
                    let m = self@;
                    assert forall|k: Entity|
                        #![trigger m[k].owner]
                        m.contains_key(k) && m[k].owner is Some implies {
                        let o = m[k].owner->0;
                        &&& m.contains_key(o)
                        &&& m[o].owner is None
                        &&& m[o].children.contains(k)
                    } by {
                        let o = m[k].owner->0;
                        assert(m0[k].owner is Some);
                        assert(m0.contains_key(o));
                        assert(m0[o].owner is None);
                    }
                    assert forall|k: Entity, j: int|
                        #![trigger m[k].children[j]]
                        m.contains_key(k) && 0 <= j < m[k].children.len() implies m[k].children[j]
                        < self.next_id by {
                        assert(m0.contains_key(k));
                        assert(m[k] == m0[k]);
                        assert(m0[k].children[j] < n0);
                    }
                    assert forall|k: Entity, c: Entity|
                        m.contains_key(k) && m.contains_key(c) && m[k].children.contains(
                            c,
                        ) implies m[c].owner == Some(k) by {
                        assert(m0.contains_key(k));
                        assert(m0.contains_key(c));
                    }
                }
                Ok(())
            },
        }
    }
}

} // verus!
