use vstd::prelude::*;
use crate::entities::{EcsId, id_lt};
use crate::untyped_vec::{TypeInfo, UntypedVec};
use crate::world::{
    AddRemoveCache, Archetype, ComponentMeta, World, assigned, distinct, lookup_matches, strictly_sorted,
};
use std::collections::HashMap;

verus! {

/// The offset in a builder's bytes of the value of component number `k` of `ids`: the sizes of
/// the components before it, as the world `w` gives them.
pub open spec fn offset(w: World, ids: Seq<EcsId>, k: int) -> int
    decreases k,
{
    if k <= 0 {
        0
    } else {
        offset(w, ids, k - 1) + w.comp_meta(ids[k - 1]).layout.spec_size()
    }
}

/// Offsets grow with the position.
proof fn lemma_offset_mono(w: World, ids: Seq<EcsId>, j: int, k: int)
    requires
        0 <= j <= k,
    ensures
        offset(w, ids, j) <= offset(w, ids, k),
    decreases k - j,
{
    if j < k {
        lemma_offset_mono(w, ids, j, k - 1);
    }
}

/// Offsets depend only on the components before them.
proof fn lemma_offset_prefix(w: World, ids: Seq<EcsId>, ids2: Seq<EcsId>, k: int)
    requires
        0 <= k <= ids.len(),
        k <= ids2.len(),
        forall|j: int| 0 <= j < k ==> ids2[j] == ids[j],
    ensures
        offset(w, ids2, k) == offset(w, ids, k),
    decreases k,
{
    if k > 0 {
        lemma_offset_prefix(w, ids, ids2, k - 1);
    }
}

/// Collects the components of an entity that has been spawned, then builds it into the
/// archetype for exactly those components.
pub struct EntityBuilder<'a> {
    pub comp_ids: Vec<EcsId>,
    /// The values of the components, one after another in the order of `comp_ids`.
    pub data: Vec<u8>,
    /// The room set aside for the values, in bytes.
    pub cap: usize,
    pub entity: EcsId,
    /// What the entity holds when it is used as a component.
    pub component_meta: ComponentMeta,
    pub num_components: usize,
    pub world: &'a mut World,
}

impl<'a> EntityBuilder<'a> {
    /// The world is well formed; the entity is alive and not built yet; every component is a
    /// built entity, listed once; the bytes hold one value of its size per component, within
    /// the room set aside.
    pub open spec fn wf(&self) -> bool {
        let w = *self.world;
        &&& w.wf()
        &&& w.alive(self.entity)
        &&& !w.placed(self.entity)
        &&& self.num_components == self.comp_ids.len()
        &&& distinct(self.comp_ids@)
        &&& forall|k: int| 0 <= k < self.comp_ids.len() ==> w.placed(#[trigger] self.comp_ids@[k])
        &&& self.data@.len() == offset(w, self.comp_ids@, self.comp_ids@.len() as int)
        &&& self.data@.len() <= self.cap
        &&& self.component_meta.layout.wf()
        &&& self.component_meta.is_unit ==> self.component_meta.layout.spec_size() == 0
    }

    /// The value of component number `k`: its bytes in `data`.
    pub open spec fn value_at(&self, k: int) -> Seq<u8> {
        self.data@.subrange(offset(*self.world, self.comp_ids@, k), offset(*self.world, self.comp_ids@, k + 1))
    }

    /// The values of the components, in the order of `comp_ids`.
    pub open spec fn pieces(&self) -> Seq<Seq<u8>> {
        Seq::new(self.comp_ids@.len(), |k: int| self.value_at(k))
    }

    /// The components given so far and their values.
    pub open spec fn values(&self) -> Map<EcsId, Seq<u8>> {
        assigned(self.comp_ids@, self.pieces())
    }

    pub fn new(world: &'a mut World, entity: EcsId, component_meta: ComponentMeta) -> (b: Self)
        ensures
            b.entity == entity,
            b.component_meta == component_meta,
            b.comp_ids@.len() == 0,
            b.data@.len() == 0,
            b.cap == 0,
            b.num_components == 0,
            *b.world == *old(world),
            *final(b.world) == *final(world),
    {
        EntityBuilder {
            comp_ids: Vec::with_capacity(8),
            data: Vec::new(),
            cap: 0,
            entity,
            component_meta,
            num_components: 0,
            world,
        }
    }

    /// A builder that sets aside room for `cap` bytes of component values.
    pub fn with_capacity(world: &'a mut World, entity: EcsId, component_meta: ComponentMeta, cap: usize) -> (b: Self)
        ensures
            b.entity == entity,
            b.component_meta == component_meta,
            b.comp_ids@.len() == 0,
            b.data@.len() == 0,
            b.cap == cap,
            b.num_components == 0,
            *b.world == *old(world),
            *final(b.world) == *final(world),
    {
        if cap == 0 {
            return Self::new(world, entity, component_meta);
        }
        EntityBuilder {
            comp_ids: Vec::with_capacity(8),
            data: Vec::with_capacity(cap),
            cap,
            entity,
            component_meta,
            num_components: 0,
            world,
        }
    }

    /// Adds `component_id` as a component that holds no data. A component that holds data is
    /// refused, as is one given twice.
    pub fn with_dynamic(self, component_id: EcsId) -> (r: Self)
        requires
            self.wf(),
            self.world.placed(component_id),
            self.world.comp_meta(component_id).is_unit,
            !self.comp_ids@.contains(component_id),
        ensures
            r.wf(),
            r.entity == self.entity,
            r.component_meta == self.component_meta,
            r.comp_ids@ == self.comp_ids@.push(component_id),
            r.data@ == self.data@,
            r.cap == self.cap,
            r.values() == self.values().insert(component_id, Seq::<u8>::empty()),
            *r.world == *old(self.world),
            *final(r.world) == *final(self.world),
    {
        let EntityBuilder { mut comp_ids, data, cap, entity, component_meta, num_components, world } = self;
        let ghost old_ids = comp_ids@;
        let ghost w = *world;
        let ghost old_pieces = self.pieces();
        comp_ids.push(component_id);
        let mut r = EntityBuilder { comp_ids, data, cap, entity, component_meta, num_components: 0, world };
        r.num_components = r.comp_ids.len();
        proof {
            assert(r.data@ =~= self.data@ + Seq::<u8>::empty());
            lemma_pieces_push(w, old_ids, r.comp_ids@, self.data@, r.data@, component_id, Seq::<u8>::empty());
            assert(*r.world == w);
            assert(old_pieces =~= Seq::new(old_ids.len(), |k: int| self.data@.subrange(offset(w, old_ids, k), offset(w, old_ids, k + 1))));
            assert(r.pieces() =~= Seq::new(r.comp_ids@.len(), |k: int| r.data@.subrange(offset(w, r.comp_ids@, k), offset(w, r.comp_ids@, k + 1))));
            lemma_values_push(old_ids, old_pieces, r.comp_ids@, r.pieces(), component_id, Seq::<u8>::empty());
        }
        r
    }

    /// Adds `component_id` with the value given by its bytes, appended to the bytes of the
    /// builder. When they do not fit the room set aside, the room grows to the larger of what is
    /// needed and twice what it was. An entity that was not built is refused as a component, as
    /// is one given twice and a value of another size.
    pub fn with_dynamic_with_data(self, component: &[u8], component_id: EcsId) -> (r: Self)
        requires
            self.wf(),
            self.world.placed(component_id),
            component@.len() == self.world.comp_meta(component_id).layout.spec_size(),
            !self.comp_ids@.contains(component_id),
            self.data@.len() + component@.len() > self.cap ==> if self.data@.len() + component@.len() > 2 * self.cap {
                self.data@.len() + component@.len() < isize::MAX
            } else {
                2 * self.cap < isize::MAX
            },
        ensures
            r.wf(),
            r.entity == self.entity,
            r.component_meta == self.component_meta,
            r.comp_ids@ == self.comp_ids@.push(component_id),
            r.num_components == self.num_components + 1,
            r.data@ == self.data@ + component@,
            r.cap == if self.data@.len() + component@.len() > self.cap {
                if self.data@.len() + component@.len() > 2 * self.cap {
                    self.data@.len() + component@.len() as int
                } else {
                    2 * self.cap
                }
            } else {
                self.cap as int
            },
            r.values() == self.values().insert(component_id, component@),
            *r.world == *old(self.world),
            *final(r.world) == *final(self.world),
    {
        let EntityBuilder { mut comp_ids, mut data, mut cap, entity, component_meta, num_components, world } = self;
        let ghost old_ids = comp_ids@;
        let ghost w = *world;
        let ghost old_pieces = self.pieces();
        let required = data.len() + component.len();
        if required > cap {
            let new_cap = if required > 2 * cap { required } else { 2 * cap };
            data.reserve(new_cap - data.len());
            cap = new_cap;
        }
        data.extend_from_slice(component);
        proof {
            assert(data@ =~= self.data@ + component@);
        }
        comp_ids.push(component_id);
        let mut r = EntityBuilder { comp_ids, data, cap, entity, component_meta, num_components: 0, world };
        r.num_components = r.comp_ids.len();
        proof {
            lemma_pieces_push(w, old_ids, r.comp_ids@, self.data@, r.data@, component_id, component@);
            assert(*r.world == w);
            assert(old_pieces =~= Seq::new(old_ids.len(), |k: int| self.data@.subrange(offset(w, old_ids, k), offset(w, old_ids, k + 1))));
            assert(r.pieces() =~= Seq::new(r.comp_ids@.len(), |k: int| r.data@.subrange(offset(w, r.comp_ids@, k), offset(w, r.comp_ids@, k + 1))));
            lemma_values_push(old_ids, old_pieces, r.comp_ids@, r.pieces(), component_id, component@);
        }
        r
    }
}

/// Appending a component and its bytes keeps the earlier values and adds the new one.
proof fn lemma_pieces_push(
    w: World,
    ids: Seq<EcsId>,
    ids2: Seq<EcsId>,
    d: Seq<u8>,
    d2: Seq<u8>,
    c: EcsId,
    v: Seq<u8>,
)
    requires
        d.len() == offset(w, ids, ids.len() as int),
        ids2 == ids.push(c),
        d2 == d + v,
        v.len() == w.comp_meta(c).layout.spec_size(),
    ensures
        d2.len() == offset(w, ids2, ids2.len() as int),
        Seq::new(ids2.len(), |k: int| d2.subrange(offset(w, ids2, k), offset(w, ids2, k + 1)))
            == Seq::new(ids.len(), |k: int| d.subrange(offset(w, ids, k), offset(w, ids, k + 1))).push(v),
{
    let n = ids.len() as int;
    lemma_offset_prefix(w, ids, ids2, n);
    assert(ids2[n] == c);
    let a = Seq::new(ids2.len(), |k: int| d2.subrange(offset(w, ids2, k), offset(w, ids2, k + 1)));
    let b = Seq::new(ids.len(), |k: int| d.subrange(offset(w, ids, k), offset(w, ids, k + 1))).push(v);
    assert forall|k: int| 0 <= k < a.len() implies a[k] == b[k] by {
        if k < n {
            lemma_offset_prefix(w, ids, ids2, k);
            lemma_offset_prefix(w, ids, ids2, k + 1);
            lemma_offset_mono(w, ids, k, k + 1);
            lemma_offset_mono(w, ids, k + 1, n);
            lemma_offset_mono(w, ids, 0, k);
            assert(a[k] =~= b[k]);
        } else {
            lemma_offset_mono(w, ids, 0, n);
            assert(a[k] =~= b[k]);
        }
    }
    assert(a =~= b);
}

proof fn lemma_values_push(
    ids: Seq<EcsId>,
    vals: Seq<Seq<u8>>,
    ids2: Seq<EcsId>,
    vals2: Seq<Seq<u8>>,
    c: EcsId,
    v: Seq<u8>,
)
    requires
        ids.len() == vals.len(),
        distinct(ids),
        !ids.contains(c),
        ids2 == ids.push(c),
        vals2 == vals.push(v),
    ensures
        assigned(ids2, vals2) == assigned(ids, vals).insert(c, v),
{
    assert(assigned(ids2, vals2) =~= assigned(ids, vals).insert(c, v)) by {
        assert forall|x: EcsId| ids2.contains(x) implies #[trigger] vals2[ids2.index_of(x)] == assigned(ids, vals).insert(c, v)[x] by {
            let i = ids2.index_of(x);
            if x == c {
                if i < ids.len() {
                    assert(ids[i] == c);
                }
                assert(i == ids.len());
            } else {
                assert(i < ids.len());
                assert(ids.contains(x));
                let j = ids.index_of(x);
                assert(ids2[j] == x);
                assert(ids[i] == x);
                assert(i == j);
            }
        }
        assert forall|x: EcsId| #[trigger] ids2.contains(x) <==> (ids.contains(x) || x == c) by {
            if ids.contains(x) {
                let j = ids.index_of(x);
                assert(ids2[j] == x);
            }
            if x == c {
                assert(ids2[ids.len() as int] == c);
            }
            if ids2.contains(x) && x != c {
                let j = ids2.index_of(x);
                assert(j < ids.len());
                assert(ids[j] == x);
            }
        }
    }
}

} // verus!

verus! {

impl<'a> EntityBuilder<'a> {
    /// A new archetype for exactly the components given, sorted, with empty storages of their
    /// layouts and no entity yet: `build` adds it to the world and then moves the entity into
    /// its first row with `World::push_row`.
    fn empty_archetype_for_components(&self) -> (arch: Archetype)
        requires
            self.wf(),
        ensures
            arch.wf(),
            arch.entities.len() == 0,
            arch.add_remove_cache@ == Map::<u64, usize>::empty(),
            arch.comp_ids.len() == self.comp_ids.len(),
            forall|k: int| 0 <= k < self.comp_ids.len() ==> arch.has(#[trigger] self.comp_ids@[k]),
            forall|i: int| 0 <= i < arch.comp_ids.len() ==> self.comp_ids@.contains(#[trigger] arch.comp_ids@[i]),
            forall|i: int| 0 <= i < arch.comp_ids.len() ==> {
                let c = #[trigger] arch.comp_ids@[i];
                old(self.world).comp_meta(c).layout == arch.component_storages@[i].1.type_info().layout
            },
    {
        let mut comp_ids: Vec<EcsId> = Vec::new();
        let mut storages: Vec<(EcsId, UntypedVec)> = Vec::new();
        let mut k: usize = 0;
        while k < self.comp_ids.len()
            invariant
                self.wf(),
                k <= self.comp_ids.len(),
                comp_ids.len() == k,
                storages.len() == k,
                strictly_sorted(comp_ids@),
                forall|kk: int| 0 <= kk < k ==> comp_ids@.contains(#[trigger] self.comp_ids@[kk]),
                forall|i: int| 0 <= i < comp_ids.len() ==> exists|kk: int| 0 <= kk < k && #[trigger] comp_ids@[i] == self.comp_ids@[kk],
                forall|i: int| 0 <= i < k ==> {
                    let st = #[trigger] storages@[i];
                    &&& st.0 == comp_ids@[i]
                    &&& st.1.wf()
                    &&& st.1@.len() == 0
                    &&& st.1.type_info().layout == self.world.comp_meta(comp_ids@[i]).layout
                },
            decreases self.comp_ids.len() - k,
        {
            let id = self.comp_ids[k];
            let meta = self.world.get_entity_meta(id).unwrap().component_meta;
            proof {
                assert(self.world.wf_meta());
                assert(self.world.ecs_id_meta@[id.index as int].is_some());
                assert(!comp_ids@.contains(id)) by {
                    if comp_ids@.contains(id) {
                        let i = comp_ids@.index_of(id);
                        let kk = choose|kk: int| 0 <= kk < k && comp_ids@[i] == self.comp_ids@[kk];
                        assert(self.comp_ids@[kk] == self.comp_ids@[k as int]);
                    }
                }
            }
            let pos = crate::world::sorted_position(&comp_ids, id);
            let ghost old_ids = comp_ids@;
            let ghost old_st = storages@;
            comp_ids.insert(pos, id);
            storages.insert(pos, (id, UntypedVec::new_from_raw(TypeInfo::new(meta.layout))));
            proof {
                crate::world::lemma_sorted_insert(old_ids, pos as int, id);
                assert forall|kk: int| 0 <= kk < k + 1 implies comp_ids@.contains(#[trigger] self.comp_ids@[kk]) by {
                    if kk < k {
                        let i = old_ids.index_of(self.comp_ids@[kk]);
                        if i < pos {
                            assert(comp_ids@[i] == old_ids[i]);
                        } else {
                            assert(comp_ids@[i + 1] == old_ids[i]);
                        }
                    } else {
                        assert(comp_ids@[pos as int] == id);
                    }
                }
                assert forall|i: int| 0 <= i < comp_ids.len() implies exists|kk: int| 0 <= kk < k + 1 && #[trigger] comp_ids@[i] == self.comp_ids@[kk] by {
                    if i < pos {
                        assert(comp_ids@[i] == old_ids[i]);
                    } else if i > pos {
                        assert(comp_ids@[i] == old_ids[i - 1]);
                    } else {
                        assert(comp_ids@[i] == self.comp_ids@[k as int]);
                    }
                }
                assert forall|i: int| 0 <= i < k + 1 implies {
                    let st = #[trigger] storages@[i];
                    &&& st.0 == comp_ids@[i]
                    &&& st.1.wf()
                    &&& st.1@.len() == 0
                    &&& st.1.type_info().layout == self.world.comp_meta(comp_ids@[i]).layout
                } by {
                    if i < pos {
                        assert(storages@[i] == old_st[i]);
                        assert(comp_ids@[i] == old_ids[i]);
                    } else if i > pos {
                        assert(storages@[i] == old_st[i - 1]);
                        assert(comp_ids@[i] == old_ids[i - 1]);
                    }
                }
            }
            k = k + 1;
        }
        let mut arch = Archetype {
            comp_lookup: HashMap::new(),
            entities: Vec::new(),
            component_storages: storages,
            comp_ids,
            add_remove_cache: AddRemoveCache::new(),
        };
        arch.rebuild_lookup();
        arch
    }

    /// The value of each component, cut out of the bytes of the builder.
    fn split_values(&self) -> (vals: Vec<Vec<u8>>)
        requires
            self.wf(),
        ensures
            vals@.len() == self.comp_ids@.len(),
            forall|k: int| 0 <= k < vals@.len() ==> (#[trigger] vals@[k])@ == self.value_at(k),
    {
        let ghost w = *self.world;
        let ghost ids = self.comp_ids@;
        let mut vals: Vec<Vec<u8>> = Vec::new();
        let mut off: usize = 0;
        let mut k: usize = 0;
        while k < self.comp_ids.len()
            invariant
                self.wf(),
                w == *self.world,
                ids == self.comp_ids@,
                k <= ids.len(),
                off == offset(w, ids, k as int),
                vals@.len() == k,
                forall|q: int| 0 <= q < k ==> (#[trigger] vals@[q])@ == self.value_at(q),
            decreases ids.len() - k,
        {
            let id = self.comp_ids[k];
            proof {
                assert(w.placed(ids[k as int]));
                assert(w.ecs_id_meta@[id.index as int].is_some());
            }
            let size = self.world.get_entity_meta(id).unwrap().component_meta.layout.size();
            proof {
                lemma_offset_mono(w, ids, k + 1, ids.len() as int);
            }
            let piece = vstd::slice::slice_to_vec(vstd::slice::slice_subrange(self.data.as_slice(), off, off + size));
            vals.push(piece);
            off = off + size;
            k = k + 1;
        }
        vals
    }

    /// Builds the entity into the archetype for exactly its components, creating that archetype
    /// if there is none, and returns the entity.
    pub fn build(self) -> (e: EcsId)
        requires
            self.wf(),
            self.world.can_grow(),
        ensures
            e == self.entity,
            (*final(self.world)).wf(),
            (*final(self.world)).placed(e),
            (*final(self.world)).components(e) == self.values(),
            (*final(self.world)).comp_meta(e) == self.component_meta,
            (*final(self.world)).entities == old(self.world).entities,
            (*final(self.world)).type_id_to_ecs_id == old(self.world).type_id_to_ecs_id,
            (*final(self.world)).reached(*old(self.world), (*final(self.world)).arch_of(e)),
            forall|x: int| #[trigger] old(self.world).holds_with_len(x, self.comp_ids@, self.comp_ids@.len() as int)
                ==> (*final(self.world)).arch_of(e) == x,
            (*final(self.world)).entities_of((*final(self.world)).arch_of(e))
                == old(self.world).entities_of((*final(self.world)).arch_of(e)).push(e),
            (*final(self.world)).row_of(e) == old(self.world).entities_of((*final(self.world)).arch_of(e)).len(),
            forall|x: int| x != (*final(self.world)).arch_of(e) ==> #[trigger] (*final(self.world)).entities_of(x)
                == old(self.world).entities_of(x),
            forall|x: EcsId| x != e ==> #[trigger] (*final(self.world)).placed(x) == old(self.world).placed(x),
            forall|x: EcsId| x != e && old(self.world).placed(x) ==> #[trigger] (*final(self.world)).components(x)
                == old(self.world).components(x),
            forall|x: EcsId| x != e && old(self.world).placed(x) ==> #[trigger] (*final(self.world)).comp_meta(x)
                == old(self.world).comp_meta(x),
    {
        let vals = self.split_values();
        let ghost w0 = *self.world;
        let ghost pieces0 = self.pieces();
        proof {
            assert forall|k: int| 0 <= k < self.comp_ids@.len() implies w0.alive(#[trigger] self.comp_ids@[k]) by {
                assert(w0.placed(self.comp_ids@[k]));
            }
        }
        let found = self.world.find_archetype_dynamic(self.comp_ids.as_slice());
        let ghost found_ghost = found;
        let a = match found {
            Some(idx) => idx.0,
            None => {
                let archetype = self.empty_archetype_for_components();
                proof {
                    if w0.archetypes.len() == 0 {
                        if self.comp_ids.len() > 0 {
                            assert(w0.placed(self.comp_ids@[0]));
                            assert(w0.meta_at(self.comp_ids@[0].index as int).is_none());
                        }
                    }
                    assert forall|x: int| 0 <= x < w0.archetypes.len() implies (#[trigger] w0.archetypes@[x]).comp_ids@ != archetype.comp_ids@ by {
                        if w0.archetypes@[x].comp_ids@ == archetype.comp_ids@ {
                            assert(w0.holds_with_len(x, self.comp_ids@, self.comp_ids@.len() as int));
                        }
                    }
                    assert(w0.can_add_archetype(archetype));
                }
                let idx = self.world.push_archetype(archetype);
                proof {
                    let w1 = *self.world;
                    assert(w1.holds_with_len(idx as int, self.comp_ids@, self.comp_ids@.len() as int));
                    assert(w1.can_grow_rows()) by {
                        assert forall|x: int, i: int| 0 <= x < w1.archetypes.len() && 0 <= i < w1.archetypes@[x].component_storages.len()
                            implies (#[trigger] w1.archetypes@[x].component_storages@[i]).1.can_push() by {
                            if x == idx {
                                assert(w1.archetypes@[x].component_storages@[i].1.wf());
                                w1.archetypes@[x].component_storages@[i].1.lemma_empty_can_push();
                            }
                        }
                    }
                    assert forall|x: EcsId| #[trigger] w1.placed(x) == w0.placed(x) by {}
                    assert forall|x: EcsId| w0.placed(x) implies #[trigger] w1.components(x) == w0.components(x) && w1.comp_meta(x) == w0.comp_meta(x) by {
                        assert(w0.arch_of(x) < w0.archetypes.len());
                        assert(w1.archetypes@[w0.arch_of(x)] == w0.archetypes@[w0.arch_of(x)]);
                    }
                }
                idx
            },
        };
        let ghost w1 = *self.world;
        proof {
            assert forall|k: int| 0 <= k < self.comp_ids@.len() implies w1.placed(#[trigger] self.comp_ids@[k]) by {
                assert(w0.placed(self.comp_ids@[k]));
            }
        }
        proof {
            assert forall|k: int| 0 <= k < self.comp_ids@.len() implies (#[trigger] vals@[k])@.len() == w1.comp_meta(self.comp_ids@[k]).layout.spec_size() by {
                assert(w0.placed(self.comp_ids@[k]));
                lemma_offset_mono(w0, self.comp_ids@, k, k + 1);
                lemma_offset_mono(w0, self.comp_ids@, k + 1, self.comp_ids@.len() as int);
                lemma_offset_mono(w0, self.comp_ids@, 0, k);
            }
            assert(vals@.map_values(|v: Vec<u8>| v@) =~= pieces0);
        }
        self.world.push_row(a, self.entity, self.comp_ids.as_slice(), &vals, self.component_meta);
        proof {
            let w2 = *self.world;
            assert(w1.reached(w0, a as int));
            assert(w1.entities_of(a as int) == w0.entities_of(a as int));
            assert forall|x: int| x != a implies #[trigger] w2.entities_of(x) == w0.entities_of(x) by {
                if 0 <= x < w1.archetypes.len() {
                    assert(w2.archetypes@[x] == w1.archetypes@[x]);
                    if x < w0.archetypes.len() {
                        assert(w1.archetypes@[x] == w0.archetypes@[x]);
                    }
                }
            }
            assert(w2.arch_of(self.entity) == a);
            match found_ghost {
                Some(f) => {
                    assert(f.0 == a);
                    assert(w0.holds_with_len(a as int, self.comp_ids@, self.comp_ids@.len() as int));
                    assert forall|x: int| #[trigger] w0.holds_with_len(x, self.comp_ids@, self.comp_ids@.len() as int)
                        implies w2.arch_of(self.entity) == x by {
                        w0.lemma_holding_exactly_unique(self.comp_ids@, x, a as int);
                    }
                },
                None => {
                    assert(forall|x: int| !#[trigger] w0.holds_with_len(x, self.comp_ids@, self.comp_ids@.len() as int));
                },
            }
        }
        self.entity
    }
}

} // verus!
