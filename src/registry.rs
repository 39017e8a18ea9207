//! The registry: which model entity each host identity is associated with,
//! and what each entity holds.

use vstd::prelude::*;
use vstd::hash_map::HashMapWithView;
use crate::table::NameTable;

verus! {

broadcast use vstd::std_specs::hash::group_hash_axioms;

/// What can go wrong while building or querying the tree of entities.
#[derive(Debug, Clone, Copy, PartialEq, Eq, Structural)]
pub enum ModelError {
    /// The name is already bound at this entity to something else.
    DuplicateName,
    /// The parameter is already held by a live entity under another name.
    ParameterHeld,
    /// The entity is already attached as a submodel of a live entity.
    SubmodelAttached,
    /// An entity cannot be its own submodel.
    SelfAttachment,
    /// The entity named does not exist.
    UnknownEntity,
    /// A field's value does not have the shape its declared type gives.
    ShapeMismatch,
    /// A nested structure is not stored before the structure that holds it.
    UnorderedHost,
    /// No entity can be created any more.
    Exhausted,
    /// The host has no structure at the position given.
    NoSuchStructure,
}

/// What one entity holds: its leaves, its branches and where it is attached.
pub struct EntityView {
    pub params: Map<Seq<char>, u64>,
    pub subs: Map<Seq<char>, u64>,
    pub parent: Option<u64>,
}

/// The abstract state of a registry.
pub struct RegistryView {
    /// Host identity to (entity, whether the identity owns the entity).
    pub slots: Map<u64, (u64, bool)>,
    /// Live entities.
    pub entities: Map<u64, EntityView>,
    /// For each parameter handle, the entity that last took it.
    pub owners: Map<u64, u64>,
}

impl RegistryView {
    pub open spec fn live(self, e: u64) -> bool {
        self.entities.contains_key(e)
    }

    /// The live entity that `identity` is associated with.
    pub open spec fn entity_of(self, identity: u64) -> Option<u64> {
        if self.slots.contains_key(identity) && self.live(self.slots[identity].0) {
            Some(self.slots[identity].0)
        } else {
            None
        }
    }

    /// The parameter is held by a live entity.
    pub open spec fn held(self, h: u64) -> bool {
        self.owners.contains_key(h) && self.live(self.owners[h])
    }

    /// The entity is a submodel of a live entity.
    pub open spec fn attached(self, e: u64) -> bool {
        self.entities[e].parent matches Some(p) && self.live(p)
    }

    /// `name` is bound at entity `e`, as a leaf or as a branch.
    pub open spec fn name_taken(self, e: u64, name: Seq<char>) -> bool {
        self.entities[e].params.contains_key(name) || self.entities[e].subs.contains_key(name)
    }

    /// What adding parameter `h` under `name` at `e` returns.
    pub open spec fn add_parameter_result(self, e: u64, name: Seq<char>, h: u64) -> Result<(), ModelError> {
        if self.entities[e].params.contains_key(name) && self.entities[e].params[name] == h {
            Ok(())
        } else if self.name_taken(e, name) {
            Err(ModelError::DuplicateName)
        } else if self.held(h) {
            Err(ModelError::ParameterHeld)
        } else {
            Ok(())
        }
    }

    /// The state after parameter `h` is newly bound under `name` at `e`.
    pub open spec fn with_parameter(self, e: u64, name: Seq<char>, h: u64) -> RegistryView {
        RegistryView {
            slots: self.slots,
            entities: self.entities.insert(
                e,
                EntityView { params: self.entities[e].params.insert(name, h), ..self.entities[e] },
            ),
            owners: self.owners.insert(h, e),
        }
    }

    /// What attaching entity `c` under `name` at `e` returns.
    pub open spec fn add_submodel_result(self, e: u64, name: Seq<char>, c: u64) -> Result<(), ModelError> {
        if !self.live(c) {
            Err(ModelError::UnknownEntity)
        } else if self.entities[e].subs.contains_key(name) && self.entities[e].subs[name] == c
            && self.entities[c].parent == Some(e) {
            Ok(())
        } else if self.name_taken(e, name) {
            Err(ModelError::DuplicateName)
        } else if c == e {
            Err(ModelError::SelfAttachment)
        } else if self.attached(c) {
            Err(ModelError::SubmodelAttached)
        } else {
            Ok(())
        }
    }

    /// The state after entity `c` is newly attached under `name` at `e`.
    pub open spec fn with_submodel(self, e: u64, name: Seq<char>, c: u64) -> RegistryView {
        RegistryView {
            slots: self.slots,
            entities: self.entities.insert(
                e,
                EntityView { subs: self.entities[e].subs.insert(name, c), ..self.entities[e] },
            ).insert(c, EntityView { parent: Some(e), ..self.entities[c] }),
            owners: self.owners,
        }
    }

    /// Everything `self` associates or binds, `other` associates or binds
    /// the same way.
    pub open spec fn grows(self, other: RegistryView) -> bool {
        &&& forall|id: u64| #[trigger] self.entity_of(id) is Some ==> other.entity_of(id) == self.entity_of(id)
        &&& forall|e: u64| #[trigger] self.live(e) ==> {
            &&& other.live(e)
            &&& self.entities[e].params.submap_of(other.entities[e].params)
            &&& self.entities[e].subs.submap_of(other.entities[e].subs)
            &&& self.attached(e) ==> other.entities[e].parent == self.entities[e].parent
        }
    }

    pub proof fn lemma_grows_refl(self)
        ensures
            self.grows(self),
    {
    }

    pub proof fn lemma_grows_trans(self, b: RegistryView, c: RegistryView)
        requires
            self.grows(b),
            b.grows(c),
        ensures
            self.grows(c),
    {
        assert forall|e: u64| #[trigger] self.live(e) implies {
            &&& c.live(e)
            &&& self.entities[e].params.submap_of(c.entities[e].params)
            &&& self.entities[e].subs.submap_of(c.entities[e].subs)
            &&& self.attached(e) ==> c.entities[e].parent == self.entities[e].parent
        } by {
            assert(b.live(e));
            assert(c.live(e));
            let pb = b.entities[e].params;
            let pc = c.entities[e].params;
            assert(pb.submap_of(pc));
            assert forall|k: Seq<char>| #[trigger] self.entities[e].params.contains_key(k) implies pc.contains_key(k)
                && pc[k] == self.entities[e].params[k] by {
                assert(pb.contains_key(k));
                assert(pb[k] == self.entities[e].params[k]);
                assert(pc.contains_key(k));
            }
            assert forall|k: Seq<char>| #[trigger] self.entities[e].subs.contains_key(k) implies c.entities[e].subs.contains_key(k)
                && c.entities[e].subs[k] == self.entities[e].subs[k] by {
                assert(b.entities[e].subs.contains_key(k));
            }
            if self.attached(e) {
                let p = self.entities[e].parent->Some_0;
                assert(self.live(p));
                assert(b.live(p));
                assert(b.attached(e));
            }
        }
        assert forall|id: u64| #[trigger] self.entity_of(id) is Some implies c.entity_of(id) == self.entity_of(id) by {
            assert(b.entity_of(id) == self.entity_of(id));
        }
    }

    pub proof fn lemma_with_parameter_grows(self, e: u64, name: Seq<char>, h: u64)
        requires
            self.live(e),
            !self.entities[e].params.contains_key(name),
        ensures
            self.grows(self.with_parameter(e, name, h)),
    {
        let o = self.with_parameter(e, name, h);
        assert forall|id: u64| #[trigger] self.entity_of(id) is Some implies o.entity_of(id) == self.entity_of(id) by {
            assert(o.live(self.slots[id].0));
        }
        assert forall|x: u64| #[trigger] self.live(x) implies {
            &&& o.live(x)
            &&& self.entities[x].params.submap_of(o.entities[x].params)
            &&& self.entities[x].subs.submap_of(o.entities[x].subs)
            &&& self.attached(x) ==> o.entities[x].parent == self.entities[x].parent
        } by {
            if self.attached(x) {
                assert(o.live(self.entities[x].parent->Some_0));
            }
        }
    }

    pub proof fn lemma_with_submodel_grows(self, e: u64, name: Seq<char>, c: u64)
        requires
            self.live(e),
            self.live(c),
            c != e,
            !self.attached(c),
            !self.entities[e].subs.contains_key(name),
        ensures
            self.grows(self.with_submodel(e, name, c)),
    {
        let o = self.with_submodel(e, name, c);
        assert forall|id: u64| #[trigger] self.entity_of(id) is Some implies o.entity_of(id) == self.entity_of(id) by {
            assert(o.live(self.slots[id].0));
        }
        assert forall|x: u64| #[trigger] self.live(x) implies {
            &&& o.live(x)
            &&& self.entities[x].params.submap_of(o.entities[x].params)
            &&& self.entities[x].subs.submap_of(o.entities[x].subs)
            &&& self.attached(x) ==> o.entities[x].parent == self.entities[x].parent
        } by {
            if self.attached(x) {
                assert(o.live(self.entities[x].parent->Some_0));
            }
        }
    }

    /// `identity` owns a live entity.
    pub open spec fn owns_live(self, identity: u64) -> bool {
        self.slots.contains_key(identity) && self.slots[identity].1 && self.live(self.slots[identity].0)
    }

    /// The state after `identity` is associated with `e` without owning it.
    pub open spec fn adopt(self, identity: u64, e: u64) -> RegistryView {
        RegistryView {
            slots: self.slots.insert(identity, (e, false)),
            entities: if self.slots.contains_key(identity) && self.slots[identity].1 && self.slots[identity].0 != e {
                self.entities.remove(self.slots[identity].0)
            } else {
                self.entities
            },
            owners: self.owners,
        }
    }

    /// The state after `identity` is forgotten and the entity it owned, if
    /// any, is released.
    pub open spec fn without(self, identity: u64) -> RegistryView {
        RegistryView {
            slots: self.slots.remove(identity),
            entities: if self.slots.contains_key(identity) && self.slots[identity].1 {
                self.entities.remove(self.slots[identity].0)
            } else {
                self.entities
            },
            owners: self.owners,
        }
    }

    /// Once an identity is forgotten, it has no entity, and asking for its
    /// entity again gives a new, empty one: nothing the old one held shows.
    pub proof fn law_teardown(self, identity: u64, r: u64, after: RegistryView)
        requires
            self.without(identity).got_or_created(identity, r, after),
        ensures
            self.without(identity).entity_of(identity) is None,
            !self.without(identity).live(r),
            after.entities[r].params == Map::<Seq<char>, u64>::empty(),
            after.entities[r].subs == Map::<Seq<char>, u64>::empty(),
    {
    }

    /// Asking for the entity of `identity` in `self` gave `r` and left `after`:
    /// an entity that exists is given back and nothing changes; otherwise a
    /// new, empty entity, owned by the identity, is made for it.
    pub open spec fn got_or_created(self, identity: u64, r: u64, after: RegistryView) -> bool {
        match self.entity_of(identity) {
            Some(e) => r == e && after == self,
            None => !self.live(r) && after == (RegistryView {
                slots: self.slots.insert(identity, (r, true)),
                entities: self.entities.insert(
                    r,
                    EntityView { params: Map::empty(), subs: Map::empty(), parent: None },
                ),
                owners: self.owners,
            }),
        }
    }

    /// Asking twice for the entity of one identity gives the same entity,
    /// and the second request changes nothing: exactly one entity is made.
    pub proof fn law_get_or_create_converges(self, identity: u64, r1: u64, mid: RegistryView, r2: u64, last: RegistryView)
        requires
            self.got_or_created(identity, r1, mid),
            mid.got_or_created(identity, r2, last),
        ensures
            r1 == r2,
            last == mid,
            mid.entity_of(identity) == Some(r1),
    {
        assert(mid.entity_of(identity) == Some(r1));
    }

    /// The entity reached from `e` by descending through the submodels named.
    pub open spec fn find_entity(self, e: u64, names: Seq<Seq<char>>) -> Option<u64>
        decreases names.len(),
    {
        if !self.live(e) {
            None
        } else if names.len() == 0 {
            Some(e)
        } else if self.entities[e].subs.contains_key(names[0]) {
            self.find_entity(self.entities[e].subs[names[0]], names.drop_first())
        } else {
            None
        }
    }

    /// What a descent reaches is live.
    pub proof fn lemma_find_live(self, e: u64, names: Seq<Seq<char>>)
        ensures
            self.find_entity(e, names) matches Some(f) ==> self.live(f),
        decreases names.len(),
    {
        if self.live(e) && names.len() > 0 && self.entities[e].subs.contains_key(names[0]) {
            self.lemma_find_live(self.entities[e].subs[names[0]], names.drop_first());
        }
    }

    /// The parameter at the hierarchical path `names` below `e`.
    pub open spec fn find_param(self, e: u64, names: Seq<Seq<char>>) -> Option<u64> {
        if names.len() == 0 {
            None
        } else {
            match self.find_entity(e, names.drop_last()) {
                Some(f) => if self.entities[f].params.contains_key(names.last()) {
                    Some(self.entities[f].params[names.last()])
                } else {
                    None
                },
                None => None,
            }
        }
    }

    /// The submodel at the hierarchical path `names` below `e`.
    pub open spec fn find_sub(self, e: u64, names: Seq<Seq<char>>) -> Option<u64> {
        if names.len() == 0 {
            None
        } else {
            self.find_entity(e, names)
        }
    }
}

/// A hierarchical path given as segments.
pub open spec fn segments(names: Seq<&str>) -> Seq<Seq<char>> {
    names.map_values(|n: &str| n@)
}

/// One model entity: named leaves, named branches, and its parent if attached.
pub struct ModelEntity {
    params: NameTable,
    subs: NameTable,
    parent: Option<u64>,
}

impl ModelEntity {
    pub closed spec fn view(&self) -> EntityView {
        EntityView { params: self.params@, subs: self.subs@, parent: self.parent }
    }

    pub closed spec fn wf(&self) -> bool {
        self.params.wf() && self.subs.wf()
    }

    fn new() -> (r: ModelEntity)
        ensures
            r.wf(),
            r@ == (EntityView { params: Map::empty(), subs: Map::empty(), parent: None }),
    {
        ModelEntity { params: NameTable::new(), subs: NameTable::new(), parent: None }
    }
}

/// The side table that associates host identities with model entities.
pub struct Registry {
    slots: HashMapWithView<u64, (u64, bool)>,
    entities: HashMapWithView<u64, ModelEntity>,
    owners: HashMapWithView<u64, u64>,
    next_entity: u64,
    next_param: u64,
}

impl Registry {
    pub closed spec fn view(&self) -> RegistryView {
        RegistryView {
            slots: self.slots@,
            entities: self.entities@.map_values(|m: ModelEntity| m@),
            owners: self.owners@,
        }
    }

    /// Every entity is well formed, every live entity's leaves are owned by
    /// it, and the counters are above every identity, entity and handle in use.
    pub closed spec fn wf(&self) -> bool {
        &&& forall|e: u64| #[trigger] self.entities@.contains_key(e) ==> self.entities@[e].wf() && e < self.next_entity
        &&& forall|e: u64, k: Seq<char>| #[trigger] self.entities@.contains_key(e)
            && #[trigger] self.entities@[e]@.params.contains_key(k) ==> {
                let h = self.entities@[e]@.params[k];
                self.owners@.contains_key(h) && self.owners@[h] == e
            }
        &&& forall|h: u64| #[trigger] self.owners@.contains_key(h) ==> self.owners@[h] < self.next_entity
        &&& forall|e: u64| #[trigger] self.entities@.contains_key(e) && self.entities@[e].parent is Some
            ==> self.entities@[e].parent->Some_0 < self.next_entity
        &&& forall|i: u64| #[trigger] self.slots@.contains_key(i) ==> self.slots@[i].0 < self.next_entity
    }

    /// The next parameter handle to hand out.
    pub closed spec fn param_bound(&self) -> u64 {
        self.next_param
    }

    /// Entities created so far lie below this bound.
    pub closed spec fn entity_bound(&self) -> u64 {
        self.next_entity
    }

    /// Every recorded owner is an entity created before.
    pub proof fn lemma_owner_below(&self, h: u64)
        requires
            self.wf(),
            self@.owners.contains_key(h),
        ensures
            self@.owners[h] < self.entity_bound(),
    {
    }

    /// Every live entity was created before.
    pub proof fn lemma_live_below(&self, e: u64)
        requires
            self.wf(),
            self@.live(e),
        ensures
            e < self.entity_bound(),
    {
        assert(self.entities@.contains_key(e));
    }

    /// Every identity is associated with an entity created before.
    pub proof fn lemma_slot_below(&self, i: u64)
        requires
            self.wf(),
            self@.slots.contains_key(i),
        ensures
            self@.slots[i].0 < self.entity_bound(),
    {
    }

    /// Every live entity's parent, if any, is an entity created before.
    pub proof fn lemma_parent_below(&self, e: u64)
        requires
            self.wf(),
            self@.live(e),
            self@.entities[e].parent is Some,
        ensures
            self@.entities[e].parent->Some_0 < self.entity_bound(),
    {
        assert(self.entities@.contains_key(e));
    }

    /// An empty registry.
    pub fn new() -> (r: Registry)
        ensures
            r.wf(),
            r@.slots == Map::<u64, (u64, bool)>::empty(),
            r@.entities == Map::<u64, EntityView>::empty(),
            r@.owners == Map::<u64, u64>::empty(),
            r.entity_bound() == 0,
            r.param_bound() == 0,
    {
        let r = Registry {
            slots: HashMapWithView::new(),
            entities: HashMapWithView::new(),
            owners: HashMapWithView::new(),
            next_entity: 0,
            next_param: 0,
        };
        assert(r@.entities =~= Map::<u64, EntityView>::empty());
        r
    }

    /// There is room for one more entity.
    pub fn has_room(&self) -> (r: bool)
        ensures
            r == (self.entity_bound() < u64::MAX),
    {
        self.next_entity < u64::MAX
    }

    /// A new parameter handle; each call gives a different one.
    pub fn new_parameter_handle(&mut self) -> (r: Option<u64>)
        requires
            old(self).wf(),
        ensures
            final(self).wf(),
            final(self)@ == old(self)@,
            final(self).entity_bound() == old(self).entity_bound(),
            old(self).param_bound() < u64::MAX ==> r == Some(old(self).param_bound()) && final(self).param_bound()
                == old(self).param_bound() + 1,
            old(self).param_bound() == u64::MAX ==> r is None && final(self).param_bound() == u64::MAX,
    {
        if self.next_param == u64::MAX {
            return None;
        }
        let h = self.next_param;
        self.next_param = h + 1;
        Some(h)
    }

    /// Whether `identity` owns a live entity.
    pub fn owns_live(&self, identity: u64) -> (r: bool)
        ensures
            r == self@.owns_live(identity),
    {
        match self.slots.get(&identity) {
            Some(slot) => slot.1 && self.entities.contains_key(&slot.0),
            None => false,
        }
    }

    /// The live entity associated with `identity`.
    pub fn entity_of(&self, identity: u64) -> (r: Option<u64>)
        ensures
            r == self@.entity_of(identity),
    {
        match self.slots.get(&identity) {
            Some(slot) => {
                if self.entities.contains_key(&slot.0) {
                    Some(slot.0)
                } else {
                    None
                }
            },
            None => None,
        }
    }

    fn put_entity(&mut self, e: u64, m: ModelEntity)
        requires
            m.wf(),
            e < old(self).next_entity,
        ensures
            final(self).entities@ == old(self).entities@.insert(e, m),
            final(self).slots@ == old(self).slots@,
            final(self).owners@ == old(self).owners@,
            final(self).next_entity == old(self).next_entity,
            final(self).next_param == old(self).next_param,
            final(self)@.entities == old(self)@.entities.insert(e, m@),
    {
        self.entities.insert(e, m);
        assert(self@.entities =~= old(self)@.entities.insert(e, m@));
    }

    /// The entity associated with `identity`, created empty and owned by the
    /// identity if there is none.
    pub fn get_or_create(&mut self, identity: u64) -> (r: u64)
        requires
            old(self).wf(),
            old(self).entity_bound() < u64::MAX,
        ensures
            final(self).wf(),
            final(self)@.live(r),
            final(self)@.entity_of(identity) == Some(r),
            final(self).param_bound() == old(self).param_bound(),
            final(self).entity_bound() <= old(self).entity_bound() + 1,
            old(self)@.grows(final(self)@),
            r == old(self).entity_bound() || old(self)@.entity_of(identity) == Some(r),
            old(self)@.got_or_created(identity, r, final(self)@),
            old(self)@.entity_of(identity) is Some ==> final(self).entity_bound() == old(self).entity_bound(),
            old(self)@.entity_of(identity) is None ==> final(self).entity_bound() == old(self).entity_bound() + 1,
    {
        match self.slots.get(&identity) {
            Some(slot) => {
                let e = slot.0;
                if self.entities.contains_key(&e) {
                    return e;
                }
            },
            None => {},
        }
        let e = self.next_entity;
        self.next_entity = e + 1;
        let m = ModelEntity::new();
        self.put_entity(e, m);
        self.slots.insert(identity, (e, true));
        assert(self@.entities.contains_key(e));
        proof {
            let a = old(self)@;
            let b = self@;
            assert forall|id: u64| #[trigger] a.entity_of(id) is Some implies b.entity_of(id) == a.entity_of(id) by {
                assert(b.live(a.slots[id].0));
            }
            assert forall|x: u64| #[trigger] a.live(x) implies {
                &&& b.live(x)
                &&& a.entities[x].params.submap_of(b.entities[x].params)
                &&& a.entities[x].subs.submap_of(b.entities[x].subs)
                &&& a.attached(x) ==> b.entities[x].parent == a.entities[x].parent
            } by {
                if a.attached(x) {
                    assert(b.live(a.entities[x].parent->Some_0));
                }
            }
        }
        e
    }

    /// Binds parameter `h` under `name` at entity `e`. Binding the same
    /// parameter under the same name again changes nothing.
    pub fn add_parameter_to(&mut self, e: u64, name: &str, h: u64) -> (r: Result<(), ModelError>)
        requires
            old(self).wf(),
            old(self)@.live(e),
        ensures
            final(self).wf(),
            r == old(self)@.add_parameter_result(e, name@, h),
            final(self)@ == (if r is Ok && !old(self)@.entities[e].params.contains_key(name@) {
                old(self)@.with_parameter(e, name@, h)
            } else {
                old(self)@
            }),
            final(self).param_bound() == old(self).param_bound(),
            final(self).entity_bound() == old(self).entity_bound(),
    {
        let m = self.entities.get(&e).unwrap();
        match m.params.lookup(name) {
            Some(x) => {
                if x == h {
                    return Ok(());
                } else {
                    return Err(ModelError::DuplicateName);
                }
            },
            None => {},
        }
        if m.subs.lookup(name).is_some() {
            return Err(ModelError::DuplicateName);
        }
        match self.owners.get(&h) {
            Some(o) => {
                if self.entities.contains_key(o) {
                    return Err(ModelError::ParameterHeld);
                }
            },
            None => {},
        }
        let mut m = self.entities.remove(&e).unwrap();
        m.params.bind(name.to_owned(), h);
        self.put_entity(e, m);
        self.owners.insert(h, e);
        proof {
            let v = self@;
            let w = old(self)@.with_parameter(e, name@, h);
            assert(v.entities =~= w.entities);
            assert forall|e2: u64, k: Seq<char>| #[trigger] self.entities@.contains_key(e2)
                && #[trigger] self.entities@[e2]@.params.contains_key(k) implies {
                    let h2 = self.entities@[e2]@.params[k];
                    self.owners@.contains_key(h2) && self.owners@[h2] == e2
                } by {
                if e2 != e && self.entities@[e2]@.params[k] == h {
                    assert(old(self).entities@.contains_key(e2));
                    assert(old(self).entities@[e2]@.params.contains_key(k));
                }
                if e2 == e && k != name@ {
                    assert(old(self).entities@[e]@.params.contains_key(k));
                    if self.entities@[e2]@.params[k] == h {
                        assert(old(self).owners@[h] == e);
                    }
                }
            }
        }
        Ok(())
    }

    /// Attaches entity `c` under `name` as a submodel of entity `e`.
    /// Attaching the same submodel under the same name again changes nothing.
    pub fn add_submodel_to(&mut self, e: u64, name: &str, c: u64) -> (r: Result<(), ModelError>)
        requires
            old(self).wf(),
            old(self)@.live(e),
        ensures
            final(self).wf(),
            r == old(self)@.add_submodel_result(e, name@, c),
            final(self)@ == (if r is Ok && !(old(self)@.entities[e].subs.contains_key(name@)
                && old(self)@.entities[e].subs[name@] == c && old(self)@.entities[c].parent == Some(e)) {
                old(self)@.with_submodel(e, name@, c)
            } else {
                old(self)@
            }),
            final(self).param_bound() == old(self).param_bound(),
            final(self).entity_bound() == old(self).entity_bound(),
    {
        if !self.entities.contains_key(&c) {
            return Err(ModelError::UnknownEntity);
        }
        let m = self.entities.get(&e).unwrap();
        let child = self.entities.get(&c).unwrap();
        match m.subs.lookup(name) {
            Some(x) => {
                if x == c && child.parent == Some(e) {
                    return Ok(());
                } else {
                    return Err(ModelError::DuplicateName);
                }
            },
            None => {},
        }
        if m.params.lookup(name).is_some() {
            return Err(ModelError::DuplicateName);
        }
        if c == e {
            return Err(ModelError::SelfAttachment);
        }
        match child.parent {
            Some(p) => {
                if self.entities.contains_key(&p) {
                    return Err(ModelError::SubmodelAttached);
                }
            },
            None => {},
        }
        let mut m = self.entities.remove(&e).unwrap();
        m.subs.bind(name.to_owned(), c);
        self.put_entity(e, m);
        let mut child = self.entities.remove(&c).unwrap();
        child.parent = Some(e);
        self.put_entity(c, child);
        proof {
            let w = old(self)@.with_submodel(e, name@, c);
            assert(self@.entities =~= w.entities);
            assert forall|e2: u64| #[trigger] self.entities@.contains_key(e2) implies self.entities@[e2]@.params
                == old(self).entities@[e2]@.params && self.entities@[e2].wf() by {
                assert(old(self).entities@.contains_key(e2));
            }
            assert forall|e2: u64, k: Seq<char>| #[trigger] self.entities@.contains_key(e2)
                && #[trigger] self.entities@[e2]@.params.contains_key(k) implies {
                    let h2 = self.entities@[e2]@.params[k];
                    self.owners@.contains_key(h2) && self.owners@[h2] == e2
                } by {
                assert(old(self).entities@.contains_key(e2));
                assert(old(self).entities@[e2]@.params.contains_key(k));
            }
        }
        Ok(())
    }

    /// Associates `identity` with the live entity `e`. An entity that
    /// `identity` owned before, other than `e`, is released. An entity that
    /// is not live cannot be adopted: `UnknownEntity`, and nothing changes.
    pub fn insert(&mut self, identity: u64, e: u64, owned: bool) -> (r: Result<(), ModelError>)
        requires
            old(self).wf(),
        ensures
            final(self).wf(),
            r is Ok <==> old(self)@.live(e),
            r is Err ==> r == Err::<(), ModelError>(ModelError::UnknownEntity) && final(self)@ == old(self)@,
            r is Ok ==> final(self)@ == (RegistryView {
                slots: old(self)@.slots.insert(identity, (e, owned)),
                entities: if old(self)@.slots.contains_key(identity) && old(self)@.slots[identity].1
                    && old(self)@.slots[identity].0 != e {
                    old(self)@.entities.remove(old(self)@.slots[identity].0)
                } else {
                    old(self)@.entities
                },
                owners: old(self)@.owners,
            }),
            final(self).param_bound() == old(self).param_bound(),
            final(self).entity_bound() == old(self).entity_bound(),
    {
        if !self.entities.contains_key(&e) {
            return Err(ModelError::UnknownEntity);
        }
        match self.slots.get(&identity) {
            Some(slot) => {
                let (prev, was_owned) = *slot;
                if was_owned && prev != e {
                    self.entities.remove(&prev);
                }
            },
            None => {},
        }
        self.slots.insert(identity, (e, owned));
        assert(self@.entities =~= (if old(self)@.slots.contains_key(identity) && old(self)@.slots[identity].1
            && old(self)@.slots[identity].0 != e {
            old(self)@.entities.remove(old(self)@.slots[identity].0)
        } else {
            old(self)@.entities
        }));
        Ok(())
    }

    /// Forgets `identity`. The entity it owned, if any, is released: its
    /// names are gone, its parameters are free, its submodels are detached.
    /// Removing an identity that is not there changes nothing.
    pub fn remove(&mut self, identity: u64)
        requires
            old(self).wf(),
        ensures
            final(self).wf(),
            final(self)@ == (RegistryView {
                slots: old(self)@.slots.remove(identity),
                entities: if old(self)@.slots.contains_key(identity) && old(self)@.slots[identity].1 {
                    old(self)@.entities.remove(old(self)@.slots[identity].0)
                } else {
                    old(self)@.entities
                },
                owners: old(self)@.owners,
            }),
            final(self).param_bound() == old(self).param_bound(),
            final(self).entity_bound() == old(self).entity_bound(),
    {
        match self.slots.remove(&identity) {
            Some(slot) => {
                let (prev, was_owned) = slot;
                if was_owned {
                    self.entities.remove(&prev);
                }
            },
            None => {},
        }
        assert(self@.slots =~= old(self)@.slots.remove(identity));
        assert(self@.entities =~= (if old(self)@.slots.contains_key(identity) && old(self)@.slots[identity].1 {
            old(self)@.entities.remove(old(self)@.slots[identity].0)
        } else {
            old(self)@.entities
        }));
    }

    /// The entity reached from `e` through the submodels named by the first
    /// `count` segments.
    fn descend(&self, e: u64, names: &[&str], count: usize) -> (r: Option<u64>)
        requires
            self.wf(),
            count <= names@.len(),
        ensures
            r == self@.find_entity(e, segments(names@).subrange(0, count as int)),
            r matches Some(f) ==> self@.live(f),
    {
        let ghost p = segments(names@);
        if !self.entities.contains_key(&e) {
            return None;
        }
        let mut cur = e;
        let mut i: usize = 0;
        assert(p.subrange(0, count as int) =~= p.subrange(i as int, count as int));
        while i < count
            invariant
                self.wf(),
                i <= count <= names@.len(),
                p == segments(names@),
                self@.live(cur),
                self@.find_entity(e, p.subrange(0, count as int)) == self@.find_entity(
                    cur,
                    p.subrange(i as int, count as int),
                ),
            decreases count - i,
        {
            let ghost rest = p.subrange(i as int, count as int);
            assert(rest[0] == names@[i as int]@);
            assert(rest.drop_first() =~= p.subrange(i + 1, count as int));
            let m = self.entities.get(&cur).unwrap();
            match m.subs.lookup(names[i]) {
                Some(c) => {
                    if !self.entities.contains_key(&c) {
                        assert(self@.find_entity(c, rest.drop_first()) == None::<u64>);
                        return None;
                    }
                    cur = c;
                },
                None => {
                    return None;
                },
            }
            i = i + 1;
        }
        assert(p.subrange(i as int, count as int).len() == 0);
        Some(cur)
    }

    /// The parameter at the path `names` below entity `e`: the last segment
    /// names the parameter, the ones before it the submodels to descend through.
    pub fn find_parameter_in(&self, e: u64, names: &[&str]) -> (r: Option<u64>)
        requires
            self.wf(),
        ensures
            r == self@.find_param(e, segments(names@)),
    {
        let ghost p = segments(names@);
        let n = names.len();
        if n == 0 {
            return None;
        }
        assert(p.drop_last() =~= p.subrange(0, n - 1));
        match self.descend(e, names, n - 1) {
            Some(f) => {
                let m = self.entities.get(&f).unwrap();
                assert(p.last() == names@[n - 1]@);
                m.params.lookup(names[n - 1])
            },
            None => None,
        }
    }

    /// The submodel at the path `names` below entity `e`.
    pub fn find_submodel_in(&self, e: u64, names: &[&str]) -> (r: Option<u64>)
        requires
            self.wf(),
        ensures
            r == self@.find_sub(e, segments(names@)),
    {
        let n = names.len();
        if n == 0 {
            return None;
        }
        assert(segments(names@).subrange(0, n as int) =~= segments(names@));
        self.descend(e, names, n)
    }
}

} // verus!
