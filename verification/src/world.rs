use vstd::prelude::*;
use std::collections::HashMap;
use crate::array_vec::ArrayVec;
use crate::entities::{EcsId, Entities, packed, id_lt};
use crate::untyped_vec::{Layout, TypeInfo, UntypedVec, swap_removed};
use crate::entity_builder::EntityBuilder;
use crate::type_id::{Component, type_key, type_id_eq, type_id_of};
use crate::bitset_iterator::{Bitsetsss, Bitvec, BitSource, BitsetIterator, bit, seq_bit, source_word, member, word_available};

verus! {

broadcast use vstd::std_specs::hash::group_hash_axioms;

/// A remembered archetype move: adding or removing the component of key `packed(id)` leads to
/// archetype `.1`.
pub struct AddRemoveCache {
    cache: ArrayVec<(EcsId, usize), 4>,
    lookup: HashMap<u64, usize>,
}

impl AddRemoveCache {
    /// The remembered moves, keyed by the packed component identifier.
    pub closed spec fn view(&self) -> Map<u64, usize> {
        self.lookup@
    }

    /// The first entry of the small cache for each identifier agrees with the map.
    pub closed spec fn wf(&self) -> bool {
        &&& self.cache.wf()
        &&& forall|i: int| 0 <= i < self.cache@.len() && (forall|j: int| 0 <= j < i ==> (#[trigger] self.cache@[j]).0
            != self.cache@[i].0) ==> {
            &&& self.lookup@.contains_key(packed(self.cache@[i].0) as u64)
            &&& self.lookup@[packed(self.cache@[i].0) as u64] == self.cache@[i].1
        }
    }

    pub fn new() -> (c: Self)
        ensures
            c.wf(),
            c@ == Map::<u64, usize>::empty(),
    {
        AddRemoveCache { cache: ArrayVec::new(), lookup: HashMap::new() }
    }

    /// The archetype remembered for `component_id`, if any.
    pub fn lookup_id(&mut self, component_id: EcsId) -> (r: Option<usize>)
        requires
            old(self).wf(),
        ensures
            final(self).wf(),
            final(self)@ == old(self)@,
            r == (if old(self)@.contains_key(packed(component_id) as u64) {
                Some(old(self)@[packed(component_id) as u64])
            } else {
                None::<usize>
            }),
    {
        let key = component_id.as_u64();
        let slice = self.cache.as_slice();
        let mut i: usize = 0;
        while i < slice.len()
            invariant
                0 <= i <= slice@.len(),
                slice@ == self.cache@,
                self.wf(),
                key == packed(component_id),
                forall|j: int| 0 <= j < i ==> (#[trigger] slice@[j]).0 != component_id,
            decreases slice.len() - i,
        {
            let (id, idx) = slice[i];
            if id == component_id {
                return Some(idx);
            }
            i = i + 1;
        }
        match self.lookup.get(&key) {
            Some(idx) => {
                let idx = *idx;
                self.push_front(component_id, idx);
                Some(idx)
            },
            None => None,
        }
    }

    /// Remembers that `component_id` leads to `archetype`.
    pub fn insert_id(&mut self, component_id: EcsId, archetype: usize)
        requires
            old(self).wf(),
        ensures
            final(self).wf(),
            final(self)@ == old(self)@.insert(packed(component_id) as u64, archetype),
    {
        let key = component_id.as_u64();
        self.lookup.insert(key, archetype);
        proof {
            let c = self.cache@;
            assert forall|i: int| 0 <= i < c.len() && (forall|j: int| 0 <= j < i ==> (#[trigger] c[j]).0
                != c[i].0) && c[i].0 != component_id implies {
                &&& self.lookup@.contains_key(packed(c[i].0) as u64)
                &&& self.lookup@[packed(c[i].0) as u64] == c[i].1
            } by {
                crate::entities::lemma_packed_injective(c[i].0, component_id);
            }
        }
        self.push_front(component_id, archetype);
    }

    fn push_front(&mut self, component_id: EcsId, archetype: usize)
        requires
            old(self).cache.wf(),
            old(self).lookup@.contains_key(packed(component_id) as u64),
            old(self).lookup@[packed(component_id) as u64] == archetype,
            forall|i: int| 0 <= i < old(self).cache@.len() && (forall|j: int| 0 <= j < i ==> (#[trigger] old(self).cache@[j]).0
                != old(self).cache@[i].0) && old(self).cache@[i].0 != component_id ==> {
                &&& old(self).lookup@.contains_key(packed(old(self).cache@[i].0) as u64)
                &&& old(self).lookup@[packed(old(self).cache@[i].0) as u64] == old(self).cache@[i].1
            },
        ensures
            final(self).wf(),
            final(self)@ == old(self)@,
    {
        let ghost old_c = self.cache@;
        self.cache.push_start((component_id, archetype));
        proof {
            let c = self.cache@;
            assert forall|i: int| 0 <= i < c.len() && (forall|j: int| 0 <= j < i ==> (#[trigger] c[j]).0
                != c[i].0) implies {
                &&& self.lookup@.contains_key(packed(c[i].0) as u64)
                &&& self.lookup@[packed(c[i].0) as u64] == c[i].1
            } by {
                if i > 0 {
                    assert(c[0].0 == component_id);
                    assert(c[i] == old_c[i - 1]);
                    assert forall|j: int| 0 <= j < i - 1 implies (#[trigger] old_c[j]).0 != old_c[i - 1].0 by {
                        assert(c[j + 1] == old_c[j]);
                    }
                }
            }
        }
    }
}

} // verus!

verus! {

/// Strictly increasing identifiers, in the identifier order.
pub open spec fn strictly_sorted(s: Seq<EcsId>) -> bool {
    forall|i: int, j: int| 0 <= i < j < s.len() ==> id_lt(#[trigger] s[i], #[trigger] s[j])
}

/// `m` maps the packed form of each identifier of `ids` to its position, and nothing else.
pub open spec fn lookup_matches(m: Map<u64, usize>, ids: Seq<EcsId>) -> bool {
    &&& forall|i: int| 0 <= i < ids.len() ==> #[trigger] m.contains_key(packed(ids[i]) as u64)
        && m[packed(ids[i]) as u64] == i
    &&& forall|k: u64| #[trigger] m.contains_key(k) ==> exists|i: int| 0 <= i < ids.len() && packed(ids[i]) == k
}

/// The entities that share one set of components, with one storage per component.
pub struct Archetype {
    /// The position of each component, keyed by the packed component identifier.
    pub comp_lookup: HashMap<u64, usize>,
    /// The entities, in the order of the values in every storage.
    pub entities: Vec<EcsId>,
    /// One storage per component, in the order of `comp_ids`.
    pub component_storages: Vec<(EcsId, UntypedVec)>,
    /// The components, sorted.
    pub comp_ids: Vec<EcsId>,
    pub add_remove_cache: AddRemoveCache,
}

impl Archetype {
    /// The component identifiers are sorted and have their storages, in the same order; every
    /// storage holds one value per entity; the lookup gives each component's position.
    pub open spec fn wf(&self) -> bool {
        &&& strictly_sorted(self.comp_ids@)
        &&& self.component_storages.len() == self.comp_ids.len()
        &&& forall|i: int| 0 <= i < self.comp_ids.len() ==> {
            &&& (#[trigger] self.component_storages@[i]).0 == self.comp_ids@[i]
            &&& self.component_storages@[i].1.wf()
            &&& self.component_storages@[i].1@.len() == self.entities.len()
        }
        &&& lookup_matches(self.comp_lookup@, self.comp_ids@)
        &&& self.add_remove_cache.wf()
    }

    /// The type of each storage, in order.
    pub open spec fn types(&self) -> Seq<TypeInfo> {
        Seq::new(self.component_storages.len() as nat, |i: int| self.component_storages@[i].1.type_info())
    }

    /// The archetype holds component `c`.
    pub open spec fn has(&self, c: EcsId) -> bool {
        self.comp_ids@.contains(c)
    }

    /// The value of component number `i` of the entity in row `r`.
    pub open spec fn value(&self, i: int, r: int) -> Seq<u8> {
        self.component_storages@[i].1@[r]
    }

    /// The components of the entity in row `r` and their values.
    pub open spec fn row(&self, r: int) -> Map<EcsId, Seq<u8>> {
        Map::new(|c: EcsId| self.has(c), |c: EcsId| self.value(self.comp_ids@.index_of(c), r))
    }

    /// Removes the entity `entity` from row `entity_idx`, moving the last entity into its place,
    /// clears its metadata and points the metadata of the moved entity at its new row.
    /// Always returns `false`.
    pub fn despawn(&mut self, entity: EcsId, entity_idx: usize, entity_metas: &mut Vec<Option<EntityMeta>>) -> (r: bool)
        requires
            old(self).wf(),
            entity_idx < old(self).entities.len(),
            old(self).entities@[entity_idx as int] == entity,
            entity.index < old(entity_metas).len(),
            entity_idx + 1 < old(self).entities.len() ==> {
                let last = old(self).entities@.last();
                &&& last.index != entity.index
                &&& last.index < old(entity_metas).len()
                &&& old(entity_metas)@[last.index as int].is_some()
            },
        ensures
            !r,
            final(self).wf(),
            final(self).comp_ids == old(self).comp_ids,
            final(self).comp_lookup == old(self).comp_lookup,
            final(self).add_remove_cache == old(self).add_remove_cache,
            final(self).types() == old(self).types(),
            final(self).entities@ == swap_removed(old(self).entities@, entity_idx as int),
            forall|r: int| 0 <= r < final(self).entities.len() ==> #[trigger] final(self).row(r) == old(self).row(
                if r == entity_idx { old(self).entities.len() - 1 } else { r },
            ),
            entity_idx + 1 < old(self).entities.len() ==> {
                let last = old(self).entities@.last();
                let m = old(entity_metas)@[last.index as int].unwrap();
                final(entity_metas)@ == old(entity_metas)@.update(entity.index as int, None).update(
                    last.index as int,
                    Some(EntityMeta { instance_meta: InstanceMeta { archetype: m.instance_meta.archetype, index: entity_idx }, ..m }),
                )
            },
            entity_idx + 1 >= old(self).entities.len() ==> final(entity_metas)@ == old(entity_metas)@.update(entity.index as int, None),
    {
        let ghost old_self = *self;
        self.entities.swap_remove(entity_idx);
        let mut i: usize = 0;
        while i < self.component_storages.len()
            invariant
                old_self.wf(),
                i <= self.component_storages.len(),
                self.component_storages.len() == old_self.component_storages.len(),
                self.comp_ids == old_self.comp_ids,
                self.comp_lookup == old_self.comp_lookup,
                self.add_remove_cache == old_self.add_remove_cache,
                entity_idx < old_self.entities.len(),
                self.entities@ == swap_removed(old_self.entities@, entity_idx as int),
                forall|k: int| 0 <= k < self.component_storages.len() ==> {
                    &&& (#[trigger] self.component_storages@[k]).0 == old_self.component_storages@[k].0
                    &&& self.component_storages@[k].1.wf()
                    &&& self.component_storages@[k].1.type_info() == old_self.component_storages@[k].1.type_info()
                    &&& k < i ==> self.component_storages@[k].1@ == swap_removed(old_self.component_storages@[k].1@, entity_idx as int)
                    &&& k >= i ==> self.component_storages@[k].1@ == old_self.component_storages@[k].1@
                },
            decreases self.component_storages.len() - i,
        {
            self.component_storages[i].1.swap_remove(entity_idx);
            i = i + 1;
        }
        entity_metas.set(entity.uindex(), None);
        if entity_idx < self.entities.len() {
            let swapped_entity = self.entities[entity_idx];
            let mut m = entity_metas[swapped_entity.uindex()].unwrap();
            m.instance_meta.index = entity_idx;
            entity_metas.set(swapped_entity.uindex(), Some(m));
        }
        proof {
            assert(self.types() =~= old_self.types());
            assert forall|r: int| 0 <= r < self.entities.len() implies #[trigger] self.row(r) == old_self.row(
                if r == entity_idx { old_self.entities.len() - 1 } else { r },
            ) by {
                let src = if r == entity_idx { old_self.entities.len() - 1 } else { r };
                assert(self.row(r) =~= old_self.row(src)) by {
                    assert forall|c: EcsId| self.has(c) implies #[trigger] self.value(self.comp_ids@.index_of(c), r) == old_self.value(old_self.comp_ids@.index_of(c), src) by {
                        let k = self.comp_ids@.index_of(c);
                    }
                }
            }
        }
        false
    }

    /// An archetype with the components of `from`, and no entities.
    pub fn from_archetype(from: &mut Archetype) -> (a: Archetype)
        requires
            old(from).wf(),
        ensures
            a.wf(),
            *final(from) == *old(from),
            a.comp_ids@ == old(from).comp_ids@,
            a.types() == old(from).types(),
            a.entities@.len() == 0,
            a.add_remove_cache@ == Map::<u64, usize>::empty(),
    {
        let mut storages: Vec<(EcsId, UntypedVec)> = Vec::with_capacity(from.component_storages.len());
        let mut i: usize = 0;
        while i < from.component_storages.len()
            invariant
                from.wf(),
                i <= from.component_storages.len(),
                storages.len() == i,
                forall|k: int| 0 <= k < i ==> {
                    &&& (#[trigger] storages@[k]).0 == from.comp_ids@[k]
                    &&& storages@[k].1.wf()
                    &&& storages@[k].1@.len() == 0
                    &&& storages@[k].1.type_info() == from.component_storages@[k].1.type_info()
                },
            decreases from.component_storages.len() - i,
        {
            let id = from.component_storages[i].0;
            let v = UntypedVec::new_from_untyped_vec(&from.component_storages[i].1);
            storages.push((id, v));
            i = i + 1;
        }
        let a = Archetype {
            comp_lookup: from.comp_lookup.clone(),
            comp_ids: from.comp_ids.clone(),
            entities: Vec::new(),
            component_storages: storages,
            add_remove_cache: AddRemoveCache::new(),
        };
        proof {
            assert(a.comp_ids@ =~= from.comp_ids@);
            assert(a.types() =~= from.types());
        }
        a
    }

    /// Rebuilds the lookup from the component identifiers.
    pub(crate) fn rebuild_lookup(&mut self)
        requires
            strictly_sorted(old(self).comp_ids@),
        ensures
            final(self).comp_lookup@ == lookup_of(old(self).comp_ids@),
            lookup_matches(final(self).comp_lookup@, old(self).comp_ids@),
            final(self).comp_ids == old(self).comp_ids,
            final(self).entities == old(self).entities,
            final(self).component_storages == old(self).component_storages,
            final(self).add_remove_cache == old(self).add_remove_cache,
    {
        self.comp_lookup.clear();
        let mut n: usize = 0;
        while n < self.comp_ids.len()
            invariant
                n <= self.comp_ids.len(),
                strictly_sorted(self.comp_ids@),
                self.comp_ids == old(self).comp_ids,
                self.entities == old(self).entities,
                self.component_storages == old(self).component_storages,
                self.add_remove_cache == old(self).add_remove_cache,
                self.comp_lookup@ == lookup_of(self.comp_ids@.take(n as int)),
            decreases self.comp_ids.len() - n,
        {
            let id = self.comp_ids[n];
            self.comp_lookup.insert(id.as_u64(), n);
            proof {
                lemma_lookup_of_push(self.comp_ids@, n as int);
            }
            n = n + 1;
        }
        proof {
            assert(self.comp_ids@.take(n as int) =~= self.comp_ids@);
            lemma_lookup_of_matches(self.comp_ids@);
        }
    }

    /// An archetype with the components of `from` and the component `with_id`, whose storage
    /// holds values of `with_type_info`, placed in order; it has no entities.
    pub fn from_archetype_with(from: &mut Archetype, with_type_info: TypeInfo, with_id: EcsId) -> (res: (
        Archetype,
        usize,
    ))
        requires
            old(from).wf(),
            !old(from).has(with_id),
            with_type_info.layout.wf(),
        ensures
            res.0.wf(),
            *final(from) == *old(from),
            res.1 <= old(from).comp_ids.len(),
            res.0.comp_ids@ == old(from).comp_ids@.insert(res.1 as int, with_id),
            res.0.types() == old(from).types().insert(res.1 as int, with_type_info),
            res.0.entities@.len() == 0,
            res.0.add_remove_cache@ == Map::<u64, usize>::empty(),
    {
        let mut new_archetype = Archetype::from_archetype(from);
        let pos = sorted_position(&new_archetype.comp_ids, with_id);
        let ghost old_ids = new_archetype.comp_ids@;
        let ghost old_types = new_archetype.types();
        new_archetype.comp_ids.insert(pos, with_id);
        new_archetype.component_storages.insert(pos, (with_id, UntypedVec::new_from_raw(with_type_info)));
        proof {
            lemma_sorted_insert(old_ids, pos as int, with_id);
            assert(new_archetype.types() =~= old_types.insert(pos as int, with_type_info));
        }
        new_archetype.rebuild_lookup();
        (new_archetype, pos)
    }

    /// An archetype with the components of `from` but `without_comp_id`; it has no entities.
    pub fn from_archetype_without(from: &mut Archetype, without_comp_id: EcsId) -> (res: (Archetype, usize))
        requires
            old(from).wf(),
            old(from).has(without_comp_id),
        ensures
            res.0.wf(),
            *final(from) == *old(from),
            res.1 < old(from).comp_ids.len(),
            old(from).comp_ids@[res.1 as int] == without_comp_id,
            res.0.comp_ids@ == old(from).comp_ids@.remove(res.1 as int),
            res.0.types() == old(from).types().remove(res.1 as int),
            res.0.entities@.len() == 0,
            res.0.add_remove_cache@ == Map::<u64, usize>::empty(),
    {
        let mut new_archetype = Archetype::from_archetype(from);
        let key = without_comp_id.as_u64();
        proof {
            let k = choose|k: int| 0 <= k < old(from).comp_ids.len() && old(from).comp_ids@[k] == without_comp_id;
            assert(new_archetype.comp_lookup@.contains_key(packed(new_archetype.comp_ids@[k]) as u64));
        }
        let remove_idx = *new_archetype.comp_lookup.get(&key).unwrap();
        proof {
            let i = choose|i: int| 0 <= i < new_archetype.comp_ids.len() && packed(new_archetype.comp_ids@[i]) == key;
            crate::entities::lemma_packed_injective(new_archetype.comp_ids@[i], without_comp_id);
        }
        let ghost old_ids = new_archetype.comp_ids@;
        let ghost old_types = new_archetype.types();
        new_archetype.comp_ids.remove(remove_idx);
        new_archetype.component_storages.remove(remove_idx);
        proof {
            assert(new_archetype.types() =~= old_types.remove(remove_idx as int));
            assert(strictly_sorted(new_archetype.comp_ids@)) by {
                assert forall|i: int, j: int| 0 <= i < j < new_archetype.comp_ids@.len() implies id_lt(
                    #[trigger] new_archetype.comp_ids@[i],
                    #[trigger] new_archetype.comp_ids@[j],
                ) by {
                    let i0 = if i < remove_idx { i } else { i + 1 };
                    let j0 = if j < remove_idx { j } else { j + 1 };
                    assert(new_archetype.comp_ids@[i] == old_ids[i0]);
                    assert(new_archetype.comp_ids@[j] == old_ids[j0]);
                }
            }
        }
        new_archetype.rebuild_lookup();
        (new_archetype, remove_idx)
    }

    /// The archetype reached by adding or removing `id`, if it has been remembered.
    pub fn try_find_next_archetype(&mut self, id: EcsId) -> (r: Option<usize>)
        requires
            old(self).wf(),
        ensures
            final(self).wf(),
            final(self).comp_ids == old(self).comp_ids,
            final(self).entities == old(self).entities,
            final(self).component_storages == old(self).component_storages,
            final(self).comp_lookup == old(self).comp_lookup,
            final(self).add_remove_cache@ == old(self).add_remove_cache@,
            r == (if old(self).add_remove_cache@.contains_key(packed(id) as u64) {
                Some(old(self).add_remove_cache@[packed(id) as u64])
            } else {
                None::<usize>
            }),
    {
        self.add_remove_cache.lookup_id(id)
    }

    /// Remembers that adding or removing `id` leads to archetype `archetype`.
    pub fn insert_archetype_cache(&mut self, id: EcsId, archetype: usize)
        requires
            old(self).wf(),
        ensures
            final(self).wf(),
            final(self).comp_ids == old(self).comp_ids,
            final(self).entities == old(self).entities,
            final(self).component_storages == old(self).component_storages,
            final(self).comp_lookup == old(self).comp_lookup,
            final(self).add_remove_cache@ == old(self).add_remove_cache@.insert(packed(id) as u64, archetype),
    {
        self.add_remove_cache.insert_id(id, archetype);
    }
}

/// The lookup that `ids` should have: the packed form of each identifier mapped to its position.
pub open spec fn lookup_of(ids: Seq<EcsId>) -> Map<u64, usize>
    decreases ids.len(),
{
    if ids.len() == 0 {
        Map::empty()
    } else {
        lookup_of(ids.drop_last()).insert(packed(ids.last()) as u64, (ids.len() - 1) as usize)
    }
}

proof fn lemma_lookup_of_push(ids: Seq<EcsId>, n: int)
    requires
        0 <= n < ids.len(),
    ensures
        lookup_of(ids.take(n + 1)) == lookup_of(ids.take(n)).insert(packed(ids[n]) as u64, n as usize),
{
    assert(ids.take(n + 1).drop_last() =~= ids.take(n));
}

pub(crate) proof fn lemma_lookup_of_matches(ids: Seq<EcsId>)
    requires
        strictly_sorted(ids),
        ids.len() <= usize::MAX,
    ensures
        lookup_matches(lookup_of(ids), ids),
    decreases ids.len(),
{
    if ids.len() > 0 {
        let init = ids.drop_last();
        assert(strictly_sorted(init));
        lemma_lookup_of_matches(init);
        let m = lookup_of(ids);
        assert(m == lookup_of(init).insert(packed(ids.last()) as u64, (ids.len() - 1) as usize));
        assert forall|i: int| 0 <= i < ids.len() implies #[trigger] m.contains_key(packed(ids[i]) as u64)
            && m[packed(ids[i]) as u64] == i by {
            if i < ids.len() - 1 {
                assert(init[i] == ids[i]);
                assert(id_lt(ids[i], ids[ids.len() - 1]));
                crate::entities::lemma_packed_bound(ids[i]);
                crate::entities::lemma_packed_bound(ids.last());
                assert(packed(ids[i]) as u64 != packed(ids.last()) as u64);
                assert(lookup_of(init).contains_key(packed(init[i]) as u64));
            }
        }
        assert forall|k: u64| #[trigger] m.contains_key(k) implies exists|i: int| 0 <= i < ids.len() && packed(ids[i]) == k by {
            if k != packed(ids.last()) as u64 {
                let i = choose|i: int| 0 <= i < init.len() && packed(init[i]) == k;
                assert(ids[i] == init[i]);
            } else {
                assert(packed(ids[ids.len() - 1]) == k);
            }
        }
    }
}

/// The number of identifiers of the sorted `ids` that sort before `id`.
pub(crate) fn sorted_position(ids: &Vec<EcsId>, id: EcsId) -> (pos: usize)
    requires
        strictly_sorted(ids@),
        !ids@.contains(id),
    ensures
        pos <= ids.len(),
        forall|i: int| 0 <= i < pos ==> id_lt(#[trigger] ids@[i], id),
        forall|i: int| pos <= i < ids.len() ==> id_lt(id, #[trigger] ids@[i]),
{
    let mut pos: usize = 0;
    while pos < ids.len() && ids[pos].lt(&id)
        invariant
            pos <= ids.len(),
            forall|i: int| 0 <= i < pos ==> id_lt(#[trigger] ids@[i], id),
        decreases ids.len() - pos,
    {
        pos = pos + 1;
    }
    proof {
        assert forall|i: int| pos <= i < ids.len() implies id_lt(id, #[trigger] ids@[i]) by {
            crate::entities::lemma_id_order_total(ids@[i], id, ids@[pos as int]);
            assert(ids@[i] != id);
            if i > pos {
                assert(id_lt(ids@[pos as int], ids@[i]));
            }
        }
    }
    pos
}

pub(crate) proof fn lemma_sorted_insert(ids: Seq<EcsId>, pos: int, id: EcsId)
    requires
        strictly_sorted(ids),
        0 <= pos <= ids.len(),
        forall|i: int| 0 <= i < pos ==> id_lt(#[trigger] ids[i], id),
        forall|i: int| pos <= i < ids.len() ==> id_lt(id, #[trigger] ids[i]),
    ensures
        strictly_sorted(ids.insert(pos, id)),
{
    let s = ids.insert(pos, id);
    assert forall|i: int, j: int| 0 <= i < j < s.len() implies id_lt(#[trigger] s[i], #[trigger] s[j]) by {
        if i < pos && j > pos {
            assert(s[j] == ids[j - 1]);
            assert(id_lt(ids[i], id));
        } else if j > pos {
            assert(s[j] == ids[j - 1]);
        }
    }
}

} // verus!

verus! {

/// The position of an archetype in the world.
#[derive(Clone, Copy, Debug, PartialEq, Eq, Structural)]
pub struct ArchIndex(pub usize);

/// Where an entity's values are: its archetype and its row there.
#[derive(Clone, Copy, Debug, PartialEq, Eq, Structural)]
pub struct InstanceMeta {
    pub archetype: ArchIndex,
    pub index: usize,
}

/// What a component holds when an entity is used as a component.
#[derive(Clone, Copy, Debug)]
pub struct ComponentMeta {
    pub layout: Layout,
    /// The Rust type of the values, when they are of one; used as a check by typed access.
    pub type_id: Option<std::any::TypeId>,
    /// The values are of type `()`: the component holds no data.
    pub is_unit: bool,
}

#[derive(Clone, Copy, Debug)]
pub struct EntityMeta {
    /// Metadata for the instance of this EcsId
    pub instance_meta: InstanceMeta,
    /// Metadata for when this EcsId is used as a component
    pub component_meta: ComponentMeta,
}

impl ComponentMeta {
    /// A component holding values of the given size and alignment.
    pub fn from_size_align(size: usize, align: usize) -> (m: Self)
        requires
            crate::untyped_vec::valid_layout(size as nat, align as nat),
        ensures
            m.layout.spec_size() == size,
            m.layout.spec_align() == align,
            m.layout.wf(),
            !m.is_unit,
            m.type_id is None,
    {
        let layout = match Layout::from_size_align(size, align) {
            Ok(l) => l,
            Err(_) => Layout::unit(),
        };
        ComponentMeta { layout, type_id: None, is_unit: false }
    }

    /// A component holding values of type `T`.
    pub fn from_generic<T: 'static>() -> (m: Self)
        ensures
            m.layout.spec_size() == vstd::layout::size_of::<T>(),
            m.layout.spec_align() == vstd::layout::align_of::<T>(),
            m.layout.wf(),
            m.is_unit ==> m.layout.spec_size() == 0,
            m.type_id is Some,
    {
        vstd::layout::layout_for_type_is_valid::<T>();
        let size = core::mem::size_of::<T>();
        let align = core::mem::align_of::<T>();
        let layout = match Layout::from_size_align(size, align) {
            Ok(l) => l,
            Err(_) => Layout::unit(),
        };
        let type_id = type_id_of::<T>();
        let is_unit = size == 0 && type_id_eq(&type_id, &type_id_of::<()>());
        ComponentMeta { layout, type_id: Some(type_id), is_unit }
    }

    /// A component that holds no data, used when an identifier is added as a tag.
    pub fn unit() -> (m: Self)
        ensures
            m.layout.spec_size() == 0,
            m.layout.spec_align() == 1,
            m.layout.wf(),
            m.is_unit,
            m.type_id is Some,
    {
        ComponentMeta { layout: Layout::unit(), type_id: Some(type_id_of::<()>()), is_unit: true }
    }
}

} // verus!

verus! {

/// The identifier whose packed form is `k`.
pub open spec fn unpack(k: u64) -> EcsId {
    EcsId { generation: (k / 0x1_0000_0000) as u32, index: (k % 0x1_0000_0000) as u32 }
}

/// A world holds fewer archetypes than this, so that positions in the archetype bitvecs fit in
/// the 32 bit lengths that the archetype queries use.
pub open spec fn max_archetypes() -> int {
    0xffff_ff00
}

/// `t` is `s` with `c` added, or `s` with `c` taken out.
pub open spec fn moves_by(s: Seq<EcsId>, t: Seq<EcsId>, c: EcsId) -> bool {
    ||| exists|j: int| 0 <= j <= s.len() && t == s.insert(j, c)
    ||| exists|j: int| 0 <= j < s.len() && s[j] == c && t == s.remove(j)
}

/// The entities of the world, grouped by the components they have.
pub struct World {
    pub archetypes: Vec<Archetype>,
    /// For each component slot, the archetypes that hold it.
    pub archetype_bitset: Bitsetsss,
    /// One set bit per archetype.
    pub entities_bitvec: Bitvec,
    pub entities: Entities,
    /// Where each entity is, by slot, and what it holds when used as a component.
    pub ecs_id_meta: Vec<Option<EntityMeta>>,
    /// The component identifier of each Rust type, keyed by the type's hashed identifier.
    pub type_id_to_ecs_id: HashMap<u64, EcsId>,
}

impl World {
    pub open spec fn meta_at(&self, i: int) -> Option<EntityMeta> {
        if 0 <= i < self.ecs_id_meta.len() {
            self.ecs_id_meta@[i]
        } else {
            None
        }
    }

    /// `e` is alive.
    pub open spec fn alive(&self, e: EcsId) -> bool {
        self.entities.alive(e)
    }

    /// `e` is alive and has been built into an archetype.
    pub open spec fn placed(&self, e: EcsId) -> bool {
        self.alive(e) && self.meta_at(e.index as int).is_some()
    }

    pub open spec fn arch_of(&self, e: EcsId) -> int {
        self.meta_at(e.index as int).unwrap().instance_meta.archetype.0 as int
    }

    pub open spec fn row_of(&self, e: EcsId) -> int {
        self.meta_at(e.index as int).unwrap().instance_meta.index as int
    }

    /// The component metadata of a built entity.
    pub open spec fn comp_meta(&self, c: EcsId) -> ComponentMeta {
        self.meta_at(c.index as int).unwrap().component_meta
    }

    /// Slot `s` has a bitvec and its bit `a` is set.
    pub open spec fn slot_bit(&self, s: int, a: int) -> bool {
        let b = self.archetype_bitset.bitsets@;
        &&& 0 <= s < b.len()
        &&& b[s].is_some()
        &&& 0 <= a < b[s].unwrap().len
        &&& b[s].unwrap()@[a]
    }

    /// No two archetypes have the same components.
    pub open spec fn sets_distinct(&self) -> bool {
        forall|x: int, y: int| 0 <= x < y < self.archetypes.len()
            ==> (#[trigger] self.archetypes@[x]).comp_ids@ != (#[trigger] self.archetypes@[y]).comp_ids@
    }

    /// Every archetype is well formed and has a set of components of its own; the first one, once
    /// there is one, has no components.
    pub open spec fn wf_archetypes(&self) -> bool {
        &&& forall|a: int| 0 <= a < self.archetypes.len() ==> (#[trigger] self.archetypes@[a]).wf()
        &&& self.sets_distinct()
        &&& self.archetypes.len() > 0 ==> self.archetypes@[0].comp_ids.len() == 0
        &&& self.archetypes.len() < max_archetypes()
    }

    /// Slots with metadata are alive and point at a row that holds them; every row holds an
    /// alive entity whose metadata points back at that row.
    pub open spec fn wf_meta(&self) -> bool {
        &&& self.entities.wf()
        &&& self.archetypes.len() == 0 ==> forall|i: int| #[trigger] self.meta_at(i).is_none()
        &&& forall|i: int| 0 <= i < self.ecs_id_meta.len() && (#[trigger] self.ecs_id_meta@[i]).is_some() ==> {
            let m = self.ecs_id_meta@[i].unwrap().instance_meta;
            let cm = self.ecs_id_meta@[i].unwrap().component_meta;
            &&& cm.layout.wf()
            &&& cm.is_unit ==> cm.layout.spec_size() == 0
            &&& i < self.entities.generations.len()
            &&& self.entities.generations@[i].0
            &&& m.archetype.0 < self.archetypes.len()
            &&& m.index < self.archetypes@[m.archetype.0 as int].entities.len()
            &&& self.archetypes@[m.archetype.0 as int].entities@[m.index as int].index == i
        }
        &&& forall|a: int, r: int| 0 <= a < self.archetypes.len() && 0 <= r < self.archetypes@[a].entities.len()
            ==> {
            let e = #[trigger] self.archetypes@[a].entities@[r];
            &&& self.placed(e)
            &&& self.arch_of(e) == a
            &&& self.row_of(e) == r
        }
    }

    /// Every component of every archetype is a built entity whose metadata gives the layout of
    /// its storage.
    pub open spec fn wf_components(&self) -> bool {
        forall|a: int, i: int| 0 <= a < self.archetypes.len() && 0 <= i < self.archetypes@[a].comp_ids.len()
            ==> {
            let c = #[trigger] self.archetypes@[a].comp_ids@[i];
            &&& self.placed(c)
            &&& self.comp_meta(c).layout == self.archetypes@[a].component_storages@[i].1.type_info().layout
        }
    }

    /// The bit of archetype `a` in the bitvec of slot `s` is set exactly when the archetype holds
    /// a component of that slot; no bitvec is longer than the archetype list; the entity bitvec
    /// has one set bit per archetype.
    pub open spec fn wf_bitsets(&self) -> bool {
        &&& self.archetype_bitset.wf()
        &&& self.entities_bitvec.wf()
        &&& self.entities_bitvec@ == Seq::new(self.archetypes.len() as nat, |i: int| true)
        &&& forall|s: int| 0 <= s < self.archetype_bitset.bitsets.len() && (#[trigger] self.archetype_bitset.bitsets@[s]).is_some()
            ==> self.archetype_bitset.bitsets@[s].unwrap().len <= self.archetypes.len()
        &&& forall|s: int, a: int| 0 <= a < self.archetypes.len() ==> (#[trigger] self.slot_bit(s, a) <==> exists|i: int|
            0 <= i < self.archetypes@[a].comp_ids.len() && self.archetypes@[a].comp_ids@[i].index == s)
    }

    /// Every remembered move of an archetype leads to another archetype whose components are
    /// its own with the remembered component added or taken out.
    pub open spec fn wf_caches(&self) -> bool {
        forall|a: int, k: u64| 0 <= a < self.archetypes.len() && #[trigger] self.archetypes@[a].add_remove_cache@.contains_key(k)
            ==> {
            let t = self.archetypes@[a].add_remove_cache@[k] as int;
            &&& 0 <= t < self.archetypes.len()
            &&& t != a
            &&& moves_by(self.archetypes@[a].comp_ids@, self.archetypes@[t].comp_ids@, unpack(k))
        }
    }

    pub open spec fn wf(&self) -> bool {
        &&& self.wf_archetypes()
        &&& self.wf_meta()
        &&& self.wf_components()
        &&& self.wf_bitsets()
        &&& self.wf_caches()
    }

    /// The components of `e` and their values.
    pub open spec fn components(&self, e: EcsId) -> Map<EcsId, Seq<u8>> {
        self.archetypes@[self.arch_of(e)].row(self.row_of(e))
    }

    /// Every archetype can take one more entity: one more value in each of its storages.
    pub open spec fn can_grow_rows(&self) -> bool {
        &&& forall|a: int, i: int| 0 <= a < self.archetypes.len() && 0 <= i < self.archetypes@[a].component_storages.len()
            ==> (#[trigger] self.archetypes@[a].component_storages@[i]).1.can_push()
        &&& forall|a: int| 0 <= a < self.archetypes.len() ==> (#[trigger] self.archetypes@[a]).entities.len() < usize::MAX
    }

    /// Every archetype can take one more entity, and one more archetype can be added.
    pub open spec fn can_grow(&self) -> bool {
        &&& self.can_grow_rows()
        &&& self.archetypes.len() + 1 < max_archetypes()
    }

    /// Whether every archetype can take one more entity and one more archetype can be added, as
    /// building, adding and removing components need.
    pub fn has_room_to_grow(&self) -> (b: bool)
        requires
            self.wf(),
        ensures
            b == self.can_grow(),
    {
        if self.archetypes.len() >= 0xffff_feff {
            return false;
        }
        let mut a: usize = 0;
        while a < self.archetypes.len()
            invariant
                self.wf(),
                a <= self.archetypes.len(),
                forall|x: int, i: int| 0 <= x < a && 0 <= i < self.archetypes@[x].component_storages.len()
                    ==> (#[trigger] self.archetypes@[x].component_storages@[i]).1.can_push(),
                forall|x: int| 0 <= x < a ==> (#[trigger] self.archetypes@[x]).entities.len() < usize::MAX,
            decreases self.archetypes.len() - a,
        {
            let arch = &self.archetypes[a];
            if arch.entities.len() == usize::MAX {
                return false;
            }
            proof {
                assert(self.archetypes@[a as int].wf());
            }
            let mut i: usize = 0;
            while i < arch.component_storages.len()
                invariant
                    self.wf(),
                    a < self.archetypes.len(),
                    *arch == self.archetypes@[a as int],
                    arch.wf(),
                    i <= arch.component_storages.len(),
                    forall|j: int| 0 <= j < i ==> (#[trigger] arch.component_storages@[j]).1.can_push(),
                decreases arch.component_storages.len() - i,
            {
                if !arch.component_storages[i].1.has_room() {
                    return false;
                }
                i = i + 1;
            }
            a = a + 1;
        }
        true
    }

    /// Whether the entity table can hand out one more identifier, as spawning needs.
    pub fn has_room_to_spawn(&self) -> (b: bool)
        ensures
            b == self.can_spawn(),
    {
        self.entities.despawned.len() > 0 || self.entities.generations.len() <= 0xffff_ffff
    }

    pub fn new() -> (w: Self)
        ensures
            w.wf(),
            w.archetypes@.len() == 0,
            w.entities.generations@.len() == 0,
            w.entities.despawned@.len() == 0,
            w.ecs_id_meta@.len() == 0,
            w.type_id_to_ecs_id@ == Map::<u64, EcsId>::empty(),
    {
        let w = World {
            archetypes: Vec::new(),
            archetype_bitset: Bitsetsss::with_capacity(32),
            entities_bitvec: Bitvec::with_capacity(32),
            entities: Entities::new(),
            ecs_id_meta: Vec::with_capacity(32),
            type_id_to_ecs_id: HashMap::with_capacity(32),
        };
        proof {
            assert(w.entities_bitvec@ =~= Seq::new(0, |i: int| true));
        }
        w
    }

    /// `Entities::is_alive` of the world's entities: whether `entity` carries the stored
    /// generation of its slot. An identifier of a slot the world never had, or whose generation
    /// is ahead of the stored one, is refused.
    pub fn is_alive(&self, entity: EcsId) -> (b: bool)
        requires
            self.entities.contains(entity),
            entity.generation <= self.entities.stored_generation(entity.index as int),
        ensures
            b == self.entities.current(entity),
            b == (self.alive(entity) || (self.entities.current(entity) && !self.entities.generations@[entity.index as int].0)),
    {
        self.entities.is_alive(entity)
    }

    /// The metadata of `entity`, if it is alive and has been built.
    pub fn get_entity_meta(&self, entity: EcsId) -> (r: Option<&EntityMeta>)
        requires
            self.entities.contains(entity),
        ensures
            r == (if self.placed(entity) {
                Some(&self.meta_at(entity.index as int).unwrap())
            } else {
                None::<&EntityMeta>
            }),
    {
        if !self.entities.is_handed_out(entity) {
            return None;
        }
        if entity.uindex() < self.ecs_id_meta.len() {
            match &self.ecs_id_meta[entity.uindex()] {
                Some(m) => Some(m),
                None => None,
            }
        } else {
            None
        }
    }

    /// Records the metadata of `entity` if it is alive, growing the table as needed.
    fn set_entity_meta(&mut self, entity: EcsId, meta: EntityMeta)
        requires
            old(self).entities.contains(entity),
        ensures
            final(self).archetypes == old(self).archetypes,
            final(self).archetype_bitset == old(self).archetype_bitset,
            final(self).entities_bitvec == old(self).entities_bitvec,
            final(self).entities == old(self).entities,
            final(self).type_id_to_ecs_id == old(self).type_id_to_ecs_id,
            old(self).alive(entity) ==> {
                &&& final(self).ecs_id_meta@.len() == if entity.index < old(self).ecs_id_meta.len() {
                    old(self).ecs_id_meta@.len() as int
                } else {
                    entity.index + 1
                }
                &&& forall|i: int| #[trigger] final(self).meta_at(i) == if i == entity.index {
                    Some(meta)
                } else {
                    old(self).meta_at(i)
                }
            },
            !old(self).alive(entity) ==> final(self).ecs_id_meta == old(self).ecs_id_meta,
    {
        if self.entities.is_handed_out(entity) {
            let idx = entity.uindex();
            if idx < self.ecs_id_meta.len() {
                self.ecs_id_meta.set(idx, Some(meta));
            } else {
                let ghost old_meta = self.ecs_id_meta@;
                while self.ecs_id_meta.len() < idx
                    invariant
                        self.archetypes == old(self).archetypes,
                        self.archetype_bitset == old(self).archetype_bitset,
                        self.entities_bitvec == old(self).entities_bitvec,
                        self.entities == old(self).entities,
                        self.type_id_to_ecs_id == old(self).type_id_to_ecs_id,
                        old_meta.len() <= self.ecs_id_meta.len() <= idx,
                        forall|i: int| 0 <= i < old_meta.len() ==> self.ecs_id_meta@[i] == old_meta[i],
                        forall|i: int| old_meta.len() <= i < self.ecs_id_meta.len() ==> (#[trigger] self.ecs_id_meta@[i]).is_none(),
                    decreases idx - self.ecs_id_meta.len(),
                {
                    self.ecs_id_meta.push(None);
                }
                self.ecs_id_meta.push(Some(meta));
            }
        }
    }
}

} // verus!

verus! {

impl World {
    /// Archetype `a` holds every identifier of `ids`.
    pub open spec fn holds_all(&self, a: int, ids: Seq<EcsId>) -> bool {
        forall|k: int| 0 <= k < ids.len() ==> self.archetypes@[a].has(#[trigger] ids[k])
    }

    /// Archetype `a` holds every identifier of `ids` and has `len` components.
    pub open spec fn holds_with_len(&self, a: int, ids: Seq<EcsId>, len: int) -> bool {
        &&& 0 <= a < self.archetypes.len()
        &&& self.archetypes@[a].comp_ids.len() == len
        &&& self.holds_all(a, ids)
    }

    /// `r` is the first archetype that holds every identifier of `ids` and has `len` components,
    /// or `None` if there is none.
    pub open spec fn is_first_holding(&self, r: Option<usize>, ids: Seq<EcsId>, len: int) -> bool {
        match r {
            Some(a) => self.holds_with_len(a as int, ids, len) && forall|b: int| 0 <= b < a ==> !#[trigger] self.holds_with_len(b, ids, len),
            None => forall|b: int| !#[trigger] self.holds_with_len(b, ids, len),
        }
    }

    /// Source `src` reads the words of the bitvec of `id`, whose length is at least `bl`.
    pub open spec fn source_matches(&self, id: EcsId, src: BitSource, bl: int) -> bool {
        let s = id.index as int;
        &&& s < self.archetype_bitset.bitsets.len()
        &&& self.archetype_bitset.bitsets@[s].is_some()
        &&& src.words@ == self.archetype_bitset.bitsets@[s].unwrap().data@
        &&& !src.invert
        &&& bl <= self.archetype_bitset.bitsets@[s].unwrap().len
    }

    /// The first `n` sources read the bitvecs of the first `n` identifiers.
    pub open spec fn sources_match(&self, ids: Seq<EcsId>, srcs: Seq<BitSource>, n: int, bl: int) -> bool {
        &&& srcs.len() == n
        &&& n <= ids.len()
        &&& forall|j: int| 0 <= j < n ==> #[trigger] self.source_matches(ids[j], srcs[j], bl)
    }

    /// `q` is below the length of the bitvec of every identifier of `ids`.
    pub open spec fn below_lens(&self, ids: Seq<EcsId>, q: int) -> bool {
        forall|j: int| 0 <= j < ids.len() ==> q < #[trigger] self.archetype_bitset.bitsets@[ids[j].index as int].unwrap().len
    }

    proof fn lemma_has_iff_slot_bit(&self, a: int, c: EcsId)
        requires
            self.wf(),
            0 <= a < self.archetypes.len(),
            self.alive(c),
        ensures
            self.archetypes@[a].has(c) <==> self.slot_bit(c.index as int, a),
    {
        if self.slot_bit(c.index as int, a) {
            let i = choose|i: int| 0 <= i < self.archetypes@[a].comp_ids.len() && self.archetypes@[a].comp_ids@[i].index == c.index;
            let d = self.archetypes@[a].comp_ids@[i];
            assert(self.placed(d));
            assert(d == c);
        }
        if self.archetypes@[a].has(c) {
            let i = choose|i: int| 0 <= i < self.archetypes@[a].comp_ids.len() && self.archetypes@[a].comp_ids@[i] == c;
            assert(self.archetypes@[a].comp_ids@[i].index == c.index);
        }
    }

    /// The words of the bitvec of each identifier of `ids`, as sources for a `BitsetIterator`,
    /// and the length of the shortest of these bitvecs; `None` if an identifier has no bitvec,
    /// in which case no archetype holds it.
    fn bit_sources(&self, ids: &[EcsId]) -> (r: Option<(Vec<BitSource<'_>>, u32)>)
        requires
            self.wf(),
            forall|k: int| 0 <= k < ids.len() ==> self.alive(#[trigger] ids@[k]),
        ensures
            r is None ==> forall|b: int| 0 <= b < self.archetypes.len() ==> !#[trigger] self.holds_all(b, ids@),
            r matches Some((srcs, bl)) ==> {
                &&& self.sources_match(ids@, srcs@, ids.len() as int, bl as int)
                &&& forall|j: int| 0 <= j < srcs.len() ==> 64 * (#[trigger] srcs@[j]).words@.len() <= usize::MAX
                &&& forall|q: int| q < u32::MAX && #[trigger] self.below_lens(ids@, q) ==> q < bl
            },
    {
        let mut bit_length: u32 = u32::MAX;
        let mut iters: Vec<BitSource> = Vec::new();
        let mut k: usize = 0;
        while k < ids.len()
            invariant
                self.wf(),
                forall|k: int| 0 <= k < ids.len() ==> self.alive(#[trigger] ids@[k]),
                k <= ids.len(),
                iters.len() == k,
                self.sources_match(ids@, iters@, k as int, bit_length as int),
                forall|j: int| 0 <= j < k ==> 64 * (#[trigger] iters@[j]).words@.len() <= usize::MAX,
                forall|q: int| q < u32::MAX && #[trigger] self.below_lens(ids@.take(k as int), q) ==> q < bit_length,
            decreases ids.len() - k,
        {
            let id = ids[k];
            match self.archetype_bitset.get_bitvec(id) {
                None => {
                    proof {
                        assert forall|b: int| 0 <= b < self.archetypes.len() implies !#[trigger] self.holds_all(b, ids@) by {
                            if self.holds_all(b, ids@) {
                                assert(self.archetypes@[b].has(ids@[k as int]));
                                self.lemma_has_iff_slot_bit(b, id);
                            }
                        }
                    }
                    return None;
                },
                Some(bitvec) => {
                    proof {
                        let s = id.index as int;
                        assert(*bitvec == self.archetype_bitset.bitsets@[s].unwrap());
                        assert(bitvec.len <= self.archetypes.len());
                        assert(bitvec.data@.len() == (bitvec.len + 63) / 64);
                        assert(64 * bitvec.data@.len() <= bitvec.len + 63);
                    }
                    let ghost old_bl = bit_length;
                    if bitvec.len < bit_length as usize {
                        bit_length = bitvec.len as u32;
                    }
                    proof {
                        assert forall|q: int| q < u32::MAX && #[trigger] self.below_lens(ids@.take(k + 1), q) implies q < bit_length by {
                            assert(ids@.take(k + 1).take(k as int) =~= ids@.take(k as int));
                            assert(self.below_lens(ids@.take(k as int), q)) by {
                                assert forall|j: int| 0 <= j < k implies q < #[trigger] self.archetype_bitset.bitsets@[ids@.take(k as int)[j].index as int].unwrap().len by {
                                    assert(ids@.take(k as int)[j] == ids@.take(k + 1)[j]);
                                }
                            }
                            assert(ids@.take(k + 1)[k as int] == id);
                            assert(q < self.archetype_bitset.bitsets@[ids@.take(k + 1)[k as int].index as int].unwrap().len);
                        }
                    }
                    let ghost old_iters = iters@;
                    iters.push(BitSource { words: bitvec.data.as_slice(), invert: false });
                    proof {
                        assert forall|j: int| 0 <= j < k + 1 implies #[trigger] self.source_matches(ids@[j], iters@[j], bit_length as int) by {
                            if j < k {
                                assert(iters@[j] == old_iters[j]);
                                assert(self.source_matches(ids@[j], old_iters[j], old_bl as int));
                            } else {
                                assert(iters@[j].words@ == bitvec.data@);
                            }
                        }
                    }
                },
            }
            k = k + 1;
        }
        proof {
            assert(ids@.take(k as int) =~= ids@);
        }
        Some((iters, bit_length))
    }

    /// The first archetype that holds every identifier of `ids` and has `len` components, found
    /// through the bitvecs of the identifiers.
    fn first_holding(&self, ids: &[EcsId], len: usize) -> (r: Option<usize>)
        requires
            self.wf(),
            ids.len() > 0,
            forall|k: int| 0 <= k < ids.len() ==> self.alive(#[trigger] ids@[k]),
        ensures
            self.is_first_holding(r, ids@, len as int),
    {
        let (iters, bit_length) = match self.bit_sources(ids) {
            None => {
                proof {
                    assert forall|b: int| !#[trigger] self.holds_with_len(b, ids@, len as int) by {
                        if self.holds_with_len(b, ids@, len as int) {
                            assert(self.holds_all(b, ids@));
                        }
                    }
                }
                return None;
            },
            Some(x) => x,
        };
        let ghost srcs = iters@;
        let ghost bl = bit_length as int;
        proof {
            assert forall|p: int| member(srcs, bl, p) <==> #[trigger] self.holds_with_len(p, ids@, self.archetypes@[p].comp_ids.len() as int) by {
                self.lemma_member_iff_holds(ids@, srcs, bl, p);
            }
        }
        let mut it = BitsetIterator::new(iters, bit_length);
        loop
            invariant
                self.wf(),
                it.wf(),
                it.iters@ == srcs,
                it.bit_length == bl,
                it.index <= bl,
                ids.len() > 0,
                forall|k: int| 0 <= k < ids.len() ==> self.alive(#[trigger] ids@[k]),
                self.sources_match(ids@, srcs, ids.len() as int, bl),
                forall|q: int| q < u32::MAX && #[trigger] self.below_lens(ids@, q) ==> q < bl,
                forall|b: int| #[trigger] self.holds_with_len(b, ids@, len as int) ==> it.remaining().contains(b),
                forall|q: int| #[trigger] it.remaining().contains(q) ==> 0 <= q && member(srcs, bl, q),
            decreases bl - it.index,
        {
            match it.next() {
                None => {
                    return None;
                },
                Some(idx) => {
                    proof {
                        self.lemma_member_iff_holds(ids@, srcs, bl, idx as int);
                    }
                    if self.archetypes[idx].comp_ids.len() == len {
                        return Some(idx);
                    }
                },
            }
        }
    }

    proof fn lemma_source_bit(&self, ids: Seq<EcsId>, srcs: Seq<BitSource>, bl: int, k: int, p: int)
        requires
            self.wf(),
            forall|k: int| 0 <= k < ids.len() ==> self.alive(#[trigger] ids[k]),
            self.sources_match(ids, srcs, ids.len() as int, bl),
            0 <= k < ids.len(),
            0 <= p < self.archetypes.len(),
            self.archetypes@[p].has(ids[k]),
        ensures
            bit(source_word(srcs[k], p / 64), p % 64),
            p / 64 < srcs[k].words@.len(),
            p < self.archetype_bitset.bitsets@[ids[k].index as int].unwrap().len,
    {
        let s = ids[k].index as int;
        let bv = self.archetype_bitset.bitsets@[s].unwrap();
        assert(self.source_matches(ids[k], srcs[k], bl));
        self.lemma_has_iff_slot_bit(p, ids[k]);
        assert(self.slot_bit(s, p));
        assert(bv@[p]);
        assert(seq_bit(bv.data@, p));
    }

    proof fn lemma_member_iff_holds(&self, ids: Seq<EcsId>, srcs: Seq<BitSource>, bl: int, p: int)
        requires
            self.wf(),
            ids.len() > 0,
            forall|k: int| 0 <= k < ids.len() ==> self.alive(#[trigger] ids[k]),
            self.sources_match(ids, srcs, ids.len() as int, bl),
            forall|q: int| q < u32::MAX && #[trigger] self.below_lens(ids, q) ==> q < bl,
        ensures
            member(srcs, bl, p) <==> (0 <= p < self.archetypes.len() && self.holds_all(p, ids)),
            member(srcs, bl, p) ==> self.holds_with_len(p, ids, self.archetypes@[p].comp_ids.len() as int),
    {
        let w = p / 64;
        let j = p % 64;
        let n = ids.len();
        if member(srcs, bl, p) {
            crate::bitset_iterator::lemma_combined_bit(srcs, n, w, j);
            assert forall|k: int| 0 <= k < n implies self.archetypes@[p].has(#[trigger] ids[k]) by {
                let s = ids[k].index as int;
                let bv = self.archetype_bitset.bitsets@[s].unwrap();
                assert(self.source_matches(ids[k], srcs[k], bl));
                assert(bit(source_word(srcs[k], w), j));
                assert(w < srcs[k].words@.len());
                assert(seq_bit(bv.data@, p));
                assert(p < bv.len);
                assert(bv@[p]);
                assert(self.slot_bit(s, p));
                self.lemma_has_iff_slot_bit(p, ids[k]);
            }
            let s0 = ids[0].index as int;
            assert(self.source_matches(ids[0], srcs[0], bl));
            assert(srcs[0].words@ == self.archetype_bitset.bitsets@[s0].unwrap().data@);
            assert(p < bl);
            assert(p < self.archetype_bitset.bitsets@[s0].unwrap().len);
        }
        if 0 <= p < self.archetypes.len() && self.holds_all(p, ids) {
            assert(srcs.len() == n);
            assert forall|k: int| 0 <= k < n implies #[trigger] bit(source_word(srcs[k], w), j) by {
                self.lemma_source_bit(ids, srcs, bl, k, p);
            }
            assert(word_available(srcs, w)) by {
                assert forall|k: int| 0 <= k < srcs.len() implies w < (#[trigger] srcs[k]).words@.len() by {
                    self.lemma_source_bit(ids, srcs, bl, k, p);
                }
            }
            crate::bitset_iterator::lemma_combined_bit(srcs, n, w, j);
            assert forall|k: int| 0 <= k < ids.len() implies p < #[trigger] self.archetype_bitset.bitsets@[ids[k].index as int].unwrap().len by {
                self.lemma_source_bit(ids, srcs, bl, k, p);
            }
            assert(self.below_lens(ids, p));
            assert(p < bl);
            assert(member(srcs, bl, p));
        }
    }
}

} // verus!

verus! {

impl World {
    /// Whether every identifier of `ids` is alive. No archetype holds an identifier that is not.
    fn all_alive(&self, ids: &[EcsId]) -> (b: bool)
        requires
            self.wf(),
        ensures
            b == forall|k: int| 0 <= k < ids@.len() ==> self.alive(#[trigger] ids@[k]),
            !b ==> forall|a: int| 0 <= a < self.archetypes.len() ==> !#[trigger] self.holds_all(a, ids@),
    {
        let mut k: usize = 0;
        while k < ids.len()
            invariant
                self.wf(),
                k <= ids.len(),
                forall|j: int| 0 <= j < k ==> self.alive(#[trigger] ids@[j]),
            decreases ids.len() - k,
        {
            let id = ids[k];
            if !(id.uindex() < self.entities.generations.len() && self.entities.is_handed_out(id)) {
                proof {
                    assert forall|a: int| 0 <= a < self.archetypes.len() implies !#[trigger] self.holds_all(a, ids@) by {
                        if self.holds_all(a, ids@) {
                            assert(self.archetypes@[a].has(ids@[k as int]));
                            let i = choose|i: int| 0 <= i < self.archetypes@[a].comp_ids.len() && self.archetypes@[a].comp_ids@[i] == id;
                            assert(self.placed(self.archetypes@[a].comp_ids@[i]));
                        }
                    }
                }
                return false;
            }
            k = k + 1;
        }
        true
    }

    /// The first archetype that holds every identifier of `comp_ids` and has as many components:
    /// for identifiers without repeats, the archetype whose components are exactly these; the
    /// empty archetype for none. An identifier that is not alive is held by no archetype.
    pub fn find_archetype_dynamic(&self, comp_ids: &[EcsId]) -> (r: Option<ArchIndex>)
        requires
            self.wf(),
        ensures
            self.is_first_holding(
                match r {
                    Some(a) => Some(a.0),
                    None => None,
                },
                comp_ids@,
                comp_ids@.len() as int,
            ),
    {
        if self.archetypes.len() > 0 && comp_ids.len() == 0 {
            proof {
                assert(self.holds_with_len(0, comp_ids@, 0));
            }
            return Some(ArchIndex(0));
        }
        if comp_ids.len() == 0 {
            return None;
        }
        if !self.all_alive(comp_ids) {
            proof {
                assert forall|b: int| !#[trigger] self.holds_with_len(b, comp_ids@, comp_ids@.len() as int) by {
                    if self.holds_with_len(b, comp_ids@, comp_ids@.len() as int) {
                        assert(self.holds_all(b, comp_ids@));
                    }
                }
            }
            return None;
        }
        match self.first_holding(comp_ids, comp_ids.len()) {
            Some(a) => Some(ArchIndex(a)),
            None => None,
        }
    }

    /// The first archetype that holds `extra_id` and every identifier of `comp_ids` and has one
    /// component more than `comp_ids`. An identifier that is not alive is held by no archetype.
    pub fn find_archetype_dynamic_plus_id(&self, comp_ids: &[EcsId], extra_id: EcsId) -> (r: Option<usize>)
        requires
            self.wf(),
        ensures
            self.is_first_holding(r, comp_ids@.push(extra_id), comp_ids@.len() + 1int),
    {
        let mut ids: Vec<EcsId> = Vec::new();
        let mut k: usize = 0;
        while k < comp_ids.len()
            invariant
                k <= comp_ids@.len(),
                ids@ == comp_ids@.take(k as int),
            decreases comp_ids.len() - k,
        {
            ids.push(comp_ids[k]);
            proof {
                assert(comp_ids@.take(k + 1) =~= comp_ids@.take(k as int).push(comp_ids@[k as int]));
            }
            k = k + 1;
        }
        ids.push(extra_id);
        proof {
            assert(ids@ =~= comp_ids@.push(extra_id));
        }
        let n = ids.len();
        if !self.all_alive(ids.as_slice()) {
            proof {
                assert forall|b: int| !#[trigger] self.holds_with_len(b, ids@, n as int) by {
                    if self.holds_with_len(b, ids@, n as int) {
                        assert(self.holds_all(b, ids@));
                    }
                }
            }
            return None;
        }
        self.first_holding(ids.as_slice(), n)
    }

    /// Archetype `x` has one component fewer than `comp_ids`, each of them in `comp_ids` and
    /// other than `without_id`.
    pub open spec fn fits_without(&self, x: int, comp_ids: Seq<EcsId>, without_id: EcsId) -> bool {
        &&& 0 <= x < self.archetypes.len()
        &&& self.archetypes@[x].comp_ids.len() == comp_ids.len() - 1
        &&& forall|i: int| 0 <= i < self.archetypes@[x].comp_ids.len() ==> {
            let d = #[trigger] self.archetypes@[x].comp_ids@[i];
            d != without_id && comp_ids.contains(d)
        }
    }

    /// The first archetype with one component fewer than `comp_ids`, each of them in `comp_ids`
    /// and other than `without_id`: for the components of an archetype that has `without_id`, the
    /// archetype with the same components but that one.
    pub fn find_archetype_dynamic_minus_id(&self, comp_ids: &[EcsId], without_id: EcsId) -> (r: Option<usize>)
        requires
            self.wf(),
            comp_ids@.len() > 0 || self.archetypes.len() == 0,
        ensures
            match r {
                Some(x) => self.fits_without(x as int, comp_ids@, without_id) && forall|y: int| 0 <= y < x
                    ==> !#[trigger] self.fits_without(y, comp_ids@, without_id),
                None => forall|y: int| !#[trigger] self.fits_without(y, comp_ids@, without_id),
            },
    {
        if self.archetypes.len() == 0 {
            return None;
        }
        let n = comp_ids.len() - 1;
        let mut x: usize = 0;
        while x < self.archetypes.len()
            invariant
                x <= self.archetypes.len(),
                n == comp_ids@.len() - 1,
                forall|y: int| 0 <= y < x ==> !#[trigger] self.fits_without(y, comp_ids@, without_id),
            decreases self.archetypes.len() - x,
        {
            let ids = &self.archetypes[x].comp_ids;
            if ids.len() == n {
                let mut i: usize = 0;
                let mut fits = true;
                while i < ids.len() && fits
                    invariant
                        i <= ids.len(),
                        *ids == self.archetypes@[x as int].comp_ids,
                        fits ==> forall|q: int| 0 <= q < i ==> ids@[q] != without_id && comp_ids@.contains(#[trigger] ids@[q]),
                        !fits ==> !self.fits_without(x as int, comp_ids@, without_id),
                    decreases ids.len() - i, (if fits { 1int } else { 0int }),
                {
                    let d = ids[i];
                    if d == without_id {
                        fits = false;
                    } else {
                        let mut k: usize = 0;
                        let mut seen = false;
                        while k < comp_ids.len() && !seen
                            invariant
                                k <= comp_ids.len(),
                                seen ==> comp_ids@.contains(d),
                                !seen ==> forall|q: int| 0 <= q < k ==> comp_ids@[q] != d,
                            decreases comp_ids.len() - k, (if seen { 0int } else { 1int }),
                        {
                            if comp_ids[k] == d {
                                seen = true;
                                proof {
                                    assert(comp_ids@[k as int] == d);
                                }
                            } else {
                                k = k + 1;
                            }
                        }
                        if seen {
                            i = i + 1;
                        } else {
                            fits = false;
                            proof {
                                assert(!comp_ids@.contains(d));
                                assert(ids@[i as int] == d);
                            }
                        }
                    }
                }
                if fits {
                    return Some(x);
                }
            }
            x = x + 1;
        }
        None
    }
}

} // verus!

verus! {

impl World {
    /// Two alive entities of one slot are the same entity.
    proof fn lemma_alive_unique(&self, a: EcsId, b: EcsId)
        requires
            self.alive(a),
            self.alive(b),
            a.index == b.index,
        ensures
            a == b,
    {
    }

    /// `self` is the well formed world `o` after `entity` was despawned, if it was alive: it is
    /// no longer alive, its metadata is cleared, the last entity of its archetype took its row,
    /// and every other entity is alive, built and valued as before.
    pub open spec fn despawned_from(&self, o: World, entity: EcsId) -> bool {
        &&& self.wf()
        &&& !self.alive(entity)
        &&& o.alive(entity) ==> self.meta_at(entity.index as int) is None
        &&& self.archetypes.len() == o.archetypes.len()
        &&& o.alive(entity) ==> self.archetypes@[o.arch_of(entity)].entities@
            == swap_removed(o.archetypes@[o.arch_of(entity)].entities@, o.row_of(entity))
        &&& forall|x: int| 0 <= x < o.archetypes.len() && (!o.alive(entity) || x != o.arch_of(entity))
            ==> #[trigger] self.archetypes@[x] == o.archetypes@[x]
        &&& forall|e: EcsId| e != entity ==> #[trigger] self.alive(e) == o.alive(e)
        &&& forall|e: EcsId| e != entity ==> #[trigger] self.placed(e) == o.placed(e)
        &&& forall|e: EcsId| e != entity && o.placed(e) ==> #[trigger] self.components(e) == o.components(e)
    }

    /// Despawns `entity`; returns whether it was alive. An entity still used as a component by
    /// some archetype is refused, as is one that was never built.
    #[verifier::spinoff_prover]
    pub fn despawn(&mut self, entity: EcsId) -> (r: bool)
        requires
            old(self).wf(),
            old(self).entities.contains(entity),
            old(self).alive(entity) ==> old(self).placed(entity),
            old(self).alive(entity) ==> forall|a: int| 0 <= a < old(self).archetypes.len() ==> !(#[trigger] old(self).archetypes@[a]).has(entity),
        ensures
            r == old(self).alive(entity),
            final(self).despawned_from(*old(self), entity),
    {
        if !self.entities.is_handed_out(entity) {
            return false;
        }
        let m = *self.get_entity_meta(entity).unwrap();
        let a = m.instance_meta.archetype.0;
        let index = m.instance_meta.index;
        let ghost old_w = *self;
        proof {
            let arch = old_w.archetypes@[a as int];
            if index + 1 < arch.entities.len() {
                let last = arch.entities@.last();
                assert(old_w.placed(last));
                assert(old_w.row_of(last) == arch.entities.len() - 1);
                assert(last.index != entity.index);
            }
        }
        self.archetypes[a].despawn(entity, index, &mut self.ecs_id_meta);
        self.entities.despawn(entity);
        proof {
            let new_arch = self.archetypes@[a as int];
            let arch = old_w.archetypes@[a as int];
            let last_row = arch.entities.len() - 1;
            assert forall|x: int| 0 <= x < self.archetypes.len() && x != a implies #[trigger] self.archetypes@[x] == old_w.archetypes@[x] by {}
            // metadata of the remaining entities
            assert forall|e: EcsId| e != entity implies #[trigger] self.alive(e) == old_w.alive(e) by {}
            assert forall|e: EcsId| e != entity && old_w.placed(e) implies {
                &&& #[trigger] self.placed(e)
                &&& self.arch_of(e) == old_w.arch_of(e)
                &&& (self.row_of(e) == if old_w.arch_of(e) == a && old_w.row_of(e) == last_row {
                    index as int
                } else {
                    old_w.row_of(e)
                })
            } by {
                assert(e.index != entity.index) by {
                    if e.index == entity.index {
                        old_w.lemma_alive_unique(e, entity);
                    }
                }
                if old_w.arch_of(e) == a && old_w.row_of(e) == last_row && index < last_row {
                    assert(arch.entities@[last_row] == e || arch.entities@[last_row].index == e.index);
                    old_w.lemma_alive_unique(e, arch.entities@[last_row]);
                }
            }
            assert forall|e: EcsId| e != entity && old_w.placed(e) implies #[trigger] self.components(e) == old_w.components(e) by {
                if old_w.arch_of(e) == a {
                    let r = self.row_of(e);
                    assert(r < new_arch.entities.len());
                    assert(new_arch.row(r) == arch.row(if r == index { last_row } else { r }));
                }
            }
            assert forall|e: EcsId| e != entity implies #[trigger] self.placed(e) == old_w.placed(e) by {
                assert(self.meta_at(e.index as int).is_some() == old_w.meta_at(e.index as int).is_some() || e.index == entity.index);
                if e.index == entity.index && old_w.alive(e) {
                    old_w.lemma_alive_unique(e, entity);
                }
            }
            // the world stays well formed
            assert(self.wf_archetypes());
            assert(self.wf_meta()) by {
                assert forall|i: int| 0 <= i < self.ecs_id_meta.len() && (#[trigger] self.ecs_id_meta@[i]).is_some() implies {
                    let m = self.ecs_id_meta@[i].unwrap().instance_meta;
                    &&& i < self.entities.generations.len()
                    &&& self.entities.generations@[i].0
                    &&& m.archetype.0 < self.archetypes.len()
                    &&& m.index < self.archetypes@[m.archetype.0 as int].entities.len()
                    &&& self.archetypes@[m.archetype.0 as int].entities@[m.index as int].index == i
                } by {
                    assert(i != entity.index);
                    let om = old_w.ecs_id_meta@[i].unwrap().instance_meta;
                    let oe = old_w.archetypes@[om.archetype.0 as int].entities@[om.index as int];
                    assert(old_w.placed(oe));
                    assert(oe != entity);
                    assert(self.placed(oe));
                }
                assert forall|x: int, r: int| 0 <= x < self.archetypes.len() && 0 <= r < self.archetypes@[x].entities.len()
                    implies {
                    let e = #[trigger] self.archetypes@[x].entities@[r];
                    &&& self.placed(e)
                    &&& self.arch_of(e) == x
                    &&& self.row_of(e) == r
                } by {
                    let e = self.archetypes@[x].entities@[r];
                    if x == a {
                        let src = if r == index { last_row } else { r };
                        assert(e == arch.entities@[src]);
                        assert(old_w.placed(e));
                        assert(e != entity);
                    } else {
                        assert(self.archetypes@[x] == old_w.archetypes@[x]);
                        assert(e == old_w.archetypes@[x].entities@[r]);
                        assert(old_w.placed(e));
                        assert(e != entity);
                    }
                }
            }
            assert(self.wf_components()) by {
                assert forall|x: int, i: int| 0 <= x < self.archetypes.len() && 0 <= i < self.archetypes@[x].comp_ids.len()
                    implies {
                    let c = #[trigger] self.archetypes@[x].comp_ids@[i];
                    &&& self.placed(c)
                    &&& self.comp_meta(c).layout == self.archetypes@[x].component_storages@[i].1.type_info().layout
                } by {
                    let c = self.archetypes@[x].comp_ids@[i];
                    assert(old_w.archetypes@[x].comp_ids@[i] == c);
                    assert(old_w.archetypes@[x].has(c));
                    assert(c != entity);
                    assert(self.archetypes@[x].types()[i] == old_w.archetypes@[x].types()[i]);
                }
            }
            assert(self.wf_bitsets()) by {
                assert forall|s: int, x: int| 0 <= x < self.archetypes.len() implies (#[trigger] self.slot_bit(s, x) <==> exists|i: int|
                    0 <= i < self.archetypes@[x].comp_ids.len() && self.archetypes@[x].comp_ids@[i].index == s) by {
                    assert(old_w.slot_bit(s, x) == self.slot_bit(s, x));
                }
            }
            assert(self.wf_caches()) by {
                assert forall|x: int, k: u64| 0 <= x < self.archetypes.len() && #[trigger] self.archetypes@[x].add_remove_cache@.contains_key(k)
                    implies {
                    let t = self.archetypes@[x].add_remove_cache@[k] as int;
                    &&& 0 <= t < self.archetypes.len()
                    &&& t != x
                    &&& moves_by(self.archetypes@[x].comp_ids@, self.archetypes@[t].comp_ids@, unpack(k))
                } by {
                    assert(old_w.archetypes@[x].add_remove_cache@.contains_key(k));
                    let t = old_w.archetypes@[x].add_remove_cache@[k] as int;
                    assert(self.archetypes@[t].comp_ids@ == old_w.archetypes@[t].comp_ids@);
                }
            }
        }
        true
    }
}

} // verus!

verus! {

impl World {
    /// Despawns `entity` as `despawn` does, and hands back its components with their values, in
    /// the order of its archetype, for the owner of the values to drop; `None` if it was not
    /// alive.
    pub fn despawn_with_values(&mut self, entity: EcsId) -> (r: Option<Vec<(EcsId, Vec<u8>)>>)
        requires
            old(self).wf(),
            old(self).entities.contains(entity),
            old(self).alive(entity) ==> old(self).placed(entity),
            old(self).alive(entity) ==> forall|a: int| 0 <= a < old(self).archetypes.len() ==> !(#[trigger] old(self).archetypes@[a]).has(entity),
        ensures
            (r is Some) == old(self).alive(entity),
            final(self).despawned_from(*old(self), entity),
            r matches Some(v) ==> {
                &&& v@.len() == old(self).archetypes@[old(self).arch_of(entity)].comp_ids@.len()
                &&& forall|k: int| 0 <= k < v@.len() ==> (#[trigger] v@[k]).0
                    == old(self).archetypes@[old(self).arch_of(entity)].comp_ids@[k]
                &&& forall|k: int| 0 <= k < v@.len() ==> (#[trigger] v@[k]).1@ == old(self).components(entity)[v@[k].0]
            },
    {
        if !self.entities.is_handed_out(entity) {
            let _ = self.despawn(entity);
            return None;
        }
        let m = *self.get_entity_meta(entity).unwrap();
        let a = m.instance_meta.archetype.0;
        let row = m.instance_meta.index;
        let arch = &self.archetypes[a];
        proof {
            assert(arch.wf());
        }
        let mut values: Vec<(EcsId, Vec<u8>)> = Vec::new();
        let mut i: usize = 0;
        while i < arch.component_storages.len()
            invariant
                arch.wf(),
                row < arch.entities.len(),
                i <= arch.component_storages.len(),
                values@.len() == i,
                forall|k: int| 0 <= k < i ==> (#[trigger] values@[k]).0 == arch.comp_ids@[k],
                forall|k: int| 0 <= k < i ==> (#[trigger] values@[k]).1@ == arch.value(k, row as int),
            decreases arch.component_storages.len() - i,
        {
            let bytes = arch.component_storages[i].1.get_raw(row).unwrap();
            let v = vstd::slice::slice_to_vec(bytes);
            values.push((arch.component_storages[i].0, v));
            i = i + 1;
        }
        let ghost w0 = *self;
        proof {
            assert forall|k: int| 0 <= k < values@.len() implies (#[trigger] values@[k]).1@ == w0.components(entity)[values@[k].0] by {
                let c = arch.comp_ids@[k];
                assert(arch.has(c));
                assert(arch.comp_ids@.index_of(c) == k) by {
                    let p = arch.comp_ids@.index_of(c);
                    if p != k {
                        if p < k { assert(id_lt(arch.comp_ids@[p], arch.comp_ids@[k])); }
                        else { assert(id_lt(arch.comp_ids@[k], arch.comp_ids@[p])); }
                    }
                }
            }
        }
        let _ = self.despawn(entity);
        Some(values)
    }
}

impl World {
    /// The archetype `arch` could be added: it is well formed, has no entities and remembers no
    /// moves, and its components are built entities whose layouts its storages use.
    pub open spec fn can_add_archetype(&self, arch: Archetype) -> bool {
        &&& arch.wf()
        &&& arch.entities.len() == 0
        &&& arch.add_remove_cache@ == Map::<u64, usize>::empty()
        &&& forall|i: int| 0 <= i < arch.comp_ids.len() ==> {
            let c = #[trigger] arch.comp_ids@[i];
            &&& self.placed(c)
            &&& self.comp_meta(c).layout == arch.component_storages@[i].1.type_info().layout
        }
        &&& self.archetypes.len() == 0 ==> arch.comp_ids.len() == 0
        &&& self.archetypes.len() + 1 < max_archetypes()
        &&& forall|x: int| 0 <= x < self.archetypes.len() ==> (#[trigger] self.archetypes@[x]).comp_ids@ != arch.comp_ids@
    }

    /// Adds an archetype with no entities, recording its components in the bitvecs.
    pub(crate) fn push_archetype(&mut self, arch: Archetype) -> (idx: usize)
        requires
            old(self).wf(),
            old(self).can_add_archetype(arch),
        ensures
            final(self).wf(),
            idx == old(self).archetypes.len(),
            final(self).archetypes@ == old(self).archetypes@.push(arch),
            final(self).entities == old(self).entities,
            final(self).ecs_id_meta == old(self).ecs_id_meta,
            final(self).type_id_to_ecs_id == old(self).type_id_to_ecs_id,
    {
        let n = self.archetypes.len();
        let ghost old_w = *self;
        let mut k: usize = 0;
        while k < arch.comp_ids.len()
            invariant
                old_w.wf(),
                old_w.can_add_archetype(arch),
                n == old_w.archetypes.len(),
                k <= arch.comp_ids.len(),
                self.archetypes == old_w.archetypes,
                self.entities == old_w.entities,
                self.ecs_id_meta == old_w.ecs_id_meta,
                self.entities_bitvec == old_w.entities_bitvec,
                self.type_id_to_ecs_id == old_w.type_id_to_ecs_id,
                self.archetype_bitset.wf(),
                forall|s: int, a: int| 0 <= a < n ==> #[trigger] self.slot_bit(s, a) == old_w.slot_bit(s, a),
                forall|s: int| #[trigger] self.slot_bit(s, n as int) <==> exists|i: int| 0 <= i < k && arch.comp_ids@[i].index == s,
                forall|s: int| 0 <= s < self.archetype_bitset.bitsets.len() && (#[trigger] self.archetype_bitset.bitsets@[s]).is_some()
                    ==> self.archetype_bitset.bitsets@[s].unwrap().len <= n + 1,
            decreases arch.comp_ids.len() - k,
        {
            let id = arch.comp_ids[k];
            let ghost before = *self;
            if self.archetype_bitset.get_bitvec(id).is_none() {
                self.archetype_bitset.insert_bitvec(id);
                proof {
                    assert forall|s: int, a: int| 0 <= a <= n implies #[trigger] self.slot_bit(s, a) == before.slot_bit(s, a) by {
                        if s == id.index || s >= before.archetype_bitset.bitsets.len() {
                            if 0 <= s < self.archetype_bitset.bitsets.len() {
                                assert(crate::bitset_iterator::empty_slot(self.archetype_bitset.bitsets@[s]));
                            }
                        }
                    }
                }
            }
            let ghost mid = *self;
            self.archetype_bitset.set_bit(id, n, true);
            proof {
                assert forall|s: int, a: int| 0 <= a < n implies #[trigger] self.slot_bit(s, a) == mid.slot_bit(s, a) by {
                    if s == id.index {
                        let bv = mid.archetype_bitset.bitsets@[s].unwrap();
                        let nb = self.archetype_bitset.bitsets@[s].unwrap();
                        if a < bv.len {
                            assert(nb@[a] == bv@[a]);
                        } else {
                            assert(!nb@[a] || a >= nb.len);
                        }
                    }
                }
                assert forall|s: int| #[trigger] self.slot_bit(s, n as int) <==> exists|i: int| 0 <= i < k + 1 && arch.comp_ids@[i].index == s by {
                    if s == id.index {
                        assert(arch.comp_ids@[k as int].index == s);
                    } else {
                        assert(self.slot_bit(s, n as int) == mid.slot_bit(s, n as int));
                        if exists|i: int| 0 <= i < k + 1 && arch.comp_ids@[i].index == s {
                            let i = choose|i: int| 0 <= i < k + 1 && arch.comp_ids@[i].index == s;
                            assert(i < k);
                        }
                    }
                }
            }
            k = k + 1;
        }
        let ghost after_loop = *self;
        proof {
            assert(usize::MAX >= 0xffff_ffff);
            assert(old_w.entities_bitvec@.len() == n);
            assert(self.entities_bitvec.len == n);
        }
        self.entities_bitvec.push_bit(true);
        self.archetypes.push(arch);
        proof {
            assert forall|s: int, a: int| 0 <= a <= n implies #[trigger] self.slot_bit(s, a) == after_loop.slot_bit(s, a) by {}
            assert(self.entities_bitvec@ =~= Seq::new(self.archetypes.len() as nat, |i: int| true));
            assert(self.wf_archetypes()) by {
                assert forall|a: int| 0 <= a < self.archetypes.len() implies (#[trigger] self.archetypes@[a]).wf() by {
                    if a < n {
                        assert(self.archetypes@[a] == old_w.archetypes@[a]);
                    }
                }
            }
            assert(self.wf_meta()) by {
                assert forall|x: int, r: int| 0 <= x < self.archetypes.len() && 0 <= r < self.archetypes@[x].entities.len()
                    implies {
                    let e = #[trigger] self.archetypes@[x].entities@[r];
                    &&& self.placed(e)
                    &&& self.arch_of(e) == x
                    &&& self.row_of(e) == r
                } by {
                    assert(x < n);
                    assert(self.archetypes@[x] == old_w.archetypes@[x]);
                }
            }
            assert(self.wf_components()) by {
                assert forall|x: int, i: int| 0 <= x < self.archetypes.len() && 0 <= i < self.archetypes@[x].comp_ids.len()
                    implies {
                    let c = #[trigger] self.archetypes@[x].comp_ids@[i];
                    &&& self.placed(c)
                    &&& self.comp_meta(c).layout == self.archetypes@[x].component_storages@[i].1.type_info().layout
                } by {
                    if x < n {
                        assert(self.archetypes@[x] == old_w.archetypes@[x]);
                    }
                }
            }
            assert(self.wf_bitsets()) by {
                assert forall|s: int, a: int| 0 <= a < self.archetypes.len() implies (#[trigger] self.slot_bit(s, a) <==> exists|i: int|
                    0 <= i < self.archetypes@[a].comp_ids.len() && self.archetypes@[a].comp_ids@[i].index == s) by {
                    if a < n {
                        assert(self.archetypes@[a] == old_w.archetypes@[a]);
                        assert(after_loop.slot_bit(s, a) == old_w.slot_bit(s, a));
                        assert(self.slot_bit(s, a) == old_w.slot_bit(s, a));
                    }
                }
            }
            assert(self.wf_caches()) by {
                assert forall|x: int, k: u64| 0 <= x < self.archetypes.len() && #[trigger] self.archetypes@[x].add_remove_cache@.contains_key(k)
                    implies {
                    let t = self.archetypes@[x].add_remove_cache@[k] as int;
                    &&& 0 <= t < self.archetypes.len()
                    &&& t != x
                    &&& moves_by(self.archetypes@[x].comp_ids@, self.archetypes@[t].comp_ids@, unpack(k))
                } by {
                    assert(x < n);
                    assert(self.archetypes@[x] == old_w.archetypes@[x]);
                    let t = old_w.archetypes@[x].add_remove_cache@[k] as int;
                    assert(self.archetypes@[t] == old_w.archetypes@[t]);
                }
            }
        }
        n
    }
}

} // verus!

verus! {

/// No identifier occurs twice.
pub open spec fn distinct(s: Seq<EcsId>) -> bool {
    forall|i: int, j: int| 0 <= i < j < s.len() ==> s[i] != s[j]
}

/// Each identifier of `ids` mapped to the value at its position in `data`.
pub open spec fn assigned(ids: Seq<EcsId>, data: Seq<Seq<u8>>) -> Map<EcsId, Seq<u8>> {
    Map::new(|c: EcsId| ids.contains(c), |c: EcsId| data[ids.index_of(c)])
}

/// Two sequences without repeats, of one length, where every element of the first is in the
/// second, have the same elements.
proof fn lemma_same_elements(s: Seq<EcsId>, t: Seq<EcsId>)
    requires
        distinct(s),
        distinct(t),
        s.len() == t.len(),
        forall|k: int| 0 <= k < s.len() ==> t.contains(#[trigger] s[k]),
    ensures
        forall|i: int| 0 <= i < t.len() ==> s.contains(#[trigger] t[i]),
{
    assert(s.no_duplicates());
    assert(t.no_duplicates());
    s.unique_seq_to_set();
    t.unique_seq_to_set();
    assert(s.to_set().subset_of(t.to_set())) by {
        assert forall|x: EcsId| s.to_set().contains(x) implies t.to_set().contains(x) by {
            let k = choose|k: int| 0 <= k < s.len() && s[k] == x;
            assert(t.contains(s[k]));
        }
    }
    vstd::set_lib::lemma_subset_equality(s.to_set(), t.to_set());
    assert forall|i: int| 0 <= i < t.len() implies s.contains(#[trigger] t[i]) by {
        assert(t.to_set().contains(t[i]));
        assert(s.to_set().contains(t[i]));
    }
}

/// A well formed world has one archetype per set of components: two archetypes with the same
/// components are the same archetype.
pub proof fn lemma_one_archetype_per_component_set(w: World, x: int, y: int)
    requires
        w.wf(),
        0 <= x < w.archetypes.len(),
        0 <= y < w.archetypes.len(),
        forall|c: EcsId| w.archetypes@[x].has(c) <==> w.archetypes@[y].has(c),
    ensures
        x == y,
{
    assert(w.archetypes@[x].wf());
    assert(w.archetypes@[y].wf());
    assert forall|e: EcsId| w.archetypes@[x].comp_ids@.contains(e) <==> w.archetypes@[y].comp_ids@.contains(e) by {
        assert(w.archetypes@[x].has(e) <==> w.archetypes@[y].has(e));
    }
    lemma_sorted_same_elements(w.archetypes@[x].comp_ids@, w.archetypes@[y].comp_ids@);
    if x < y {
        assert(w.archetypes@[x].comp_ids@ != w.archetypes@[y].comp_ids@);
    } else if y < x {
        assert(w.archetypes@[y].comp_ids@ != w.archetypes@[x].comp_ids@);
    }
}

impl World {
    /// At most one archetype holds exactly the identifiers of `ids`, given without repeats.
    pub proof fn lemma_holding_exactly_unique(&self, ids: Seq<EcsId>, x: int, y: int)
        requires
            self.wf(),
            distinct(ids),
            self.holds_with_len(x, ids, ids.len() as int),
            self.holds_with_len(y, ids, ids.len() as int),
        ensures
            x == y,
    {
        let sx = self.archetypes@[x].comp_ids@;
        let sy = self.archetypes@[y].comp_ids@;
        assert(self.archetypes@[x].wf());
        assert(self.archetypes@[y].wf());
        assert(distinct(sx)) by {
            assert forall|i: int, j: int| 0 <= i < j < sx.len() implies sx[i] != sx[j] by {
                assert(id_lt(sx[i], sx[j]));
            }
        }
        assert(distinct(sy)) by {
            assert forall|i: int, j: int| 0 <= i < j < sy.len() implies sy[i] != sy[j] by {
                assert(id_lt(sy[i], sy[j]));
            }
        }
        assert forall|k: int| 0 <= k < ids.len() implies sx.contains(#[trigger] ids[k]) by {
            assert(self.archetypes@[x].has(ids[k]));
        }
        assert forall|k: int| 0 <= k < ids.len() implies sy.contains(#[trigger] ids[k]) by {
            assert(self.archetypes@[y].has(ids[k]));
        }
        lemma_same_elements(ids, sx);
        lemma_same_elements(ids, sy);
        assert forall|c: EcsId| self.archetypes@[x].has(c) <==> self.archetypes@[y].has(c) by {
            if sx.contains(c) {
                let i = choose|i: int| 0 <= i < sx.len() && sx[i] == c;
                assert(ids.contains(sx[i]));
                let k = choose|k: int| 0 <= k < ids.len() && ids[k] == c;
                assert(sy.contains(ids[k]));
            }
            if sy.contains(c) {
                let i = choose|i: int| 0 <= i < sy.len() && sy[i] == c;
                assert(ids.contains(sy[i]));
                let k = choose|k: int| 0 <= k < ids.len() && ids[k] == c;
                assert(sx.contains(ids[k]));
            }
        }
        lemma_one_archetype_per_component_set(*self, x, y);
    }

    /// Appends `entity` to archetype `a`, with the value `data[k]` for component `comp_ids[k]`,
    /// and records where it is and what it holds as a component.
    pub(crate) fn push_row(
        &mut self,
        a: usize,
        entity: EcsId,
        comp_ids: &[EcsId],
        data: &Vec<Vec<u8>>,
        component_meta: ComponentMeta,
    )
        requires
            old(self).wf(),
            old(self).can_grow_rows(),
            old(self).holds_with_len(a as int, comp_ids@, comp_ids@.len() as int),
            distinct(comp_ids@),
            data.len() == comp_ids@.len(),
            forall|k: int| 0 <= k < comp_ids@.len() ==> (#[trigger] data@[k])@.len() == old(self).comp_meta(comp_ids@[k]).layout.spec_size(),
            forall|k: int| 0 <= k < comp_ids@.len() ==> old(self).placed(#[trigger] comp_ids@[k]),
            old(self).alive(entity),
            !old(self).placed(entity),
            component_meta.layout.wf(),
            component_meta.is_unit ==> component_meta.layout.spec_size() == 0,
        ensures
            final(self).wf(),
            final(self).archetypes.len() == old(self).archetypes.len(),
            forall|x: int| 0 <= x < final(self).archetypes.len() ==> (#[trigger] final(self).archetypes@[x]).comp_ids == old(self).archetypes@[x].comp_ids,
            final(self).entities == old(self).entities,
            final(self).type_id_to_ecs_id == old(self).type_id_to_ecs_id,
            final(self).placed(entity),
            final(self).arch_of(entity) == a,
            final(self).comp_meta(entity) == component_meta,
            final(self).components(entity) == assigned(comp_ids@, data@.map_values(|v: Vec<u8>| v@)),
            forall|e: EcsId| e != entity ==> #[trigger] final(self).placed(e) == old(self).placed(e),
            forall|e: EcsId| e != entity && old(self).placed(e) ==> #[trigger] final(self).components(e) == old(self).components(e),
            forall|e: EcsId| e != entity && old(self).placed(e) ==> #[trigger] final(self).comp_meta(e) == old(self).comp_meta(e),
            final(self).row_of(entity) == old(self).archetypes@[a as int].entities.len(),
            final(self).archetypes@[a as int].entities@ == old(self).archetypes@[a as int].entities@.push(entity),
            forall|x: int| 0 <= x < old(self).archetypes.len() && x != a ==> #[trigger] final(self).archetypes@[x] == old(self).archetypes@[x],
    {
        let ghost old_w = *self;
        let ghost a0 = self.archetypes@[a as int];
        let ghost vals = data@.map_values(|v: Vec<u8>| v@);
        proof {
            lemma_same_elements(comp_ids@, a0.comp_ids@);
        }
        self.archetypes[a].entities.push(entity);
        let mut k: usize = 0;
        while k < comp_ids.len()
            invariant
                old_w.wf(),
                old_w.can_grow_rows(),
                a < old_w.archetypes.len(),
                a0 == old_w.archetypes@[a as int],
                k <= comp_ids@.len(),
                distinct(comp_ids@),
                data.len() == comp_ids@.len(),
                vals == data@.map_values(|v: Vec<u8>| v@),
                forall|kk: int| 0 <= kk < comp_ids@.len() ==> (#[trigger] data@[kk])@.len() == old_w.comp_meta(comp_ids@[kk]).layout.spec_size(),
                forall|kk: int| 0 <= kk < comp_ids@.len() ==> a0.has(#[trigger] comp_ids@[kk]),
                forall|i: int| 0 <= i < a0.comp_ids.len() ==> comp_ids@.contains(#[trigger] a0.comp_ids@[i]),
                self.archetypes.len() == old_w.archetypes.len(),
                forall|x: int| 0 <= x < self.archetypes.len() && x != a ==> #[trigger] self.archetypes@[x] == old_w.archetypes@[x],
                self.archetypes@[a as int].entities@ == a0.entities@.push(entity),
                self.archetypes@[a as int].comp_ids == a0.comp_ids,
                self.archetypes@[a as int].comp_lookup == a0.comp_lookup,
                self.archetypes@[a as int].add_remove_cache == a0.add_remove_cache,
                self.archetypes@[a as int].component_storages.len() == a0.component_storages.len(),
                self.entities == old_w.entities,
                self.ecs_id_meta == old_w.ecs_id_meta,
                self.archetype_bitset == old_w.archetype_bitset,
                self.entities_bitvec == old_w.entities_bitvec,
                self.type_id_to_ecs_id == old_w.type_id_to_ecs_id,
                forall|i: int| 0 <= i < a0.component_storages.len() ==> {
                    let st = (#[trigger] self.archetypes@[a as int].component_storages@[i]);
                    let st0 = a0.component_storages@[i];
                    &&& st.0 == st0.0
                    &&& st.1.wf()
                    &&& st.1.type_info() == st0.1.type_info()
                    &&& (exists|kk: int| 0 <= kk < k && comp_ids@[kk] == st0.0) ==> st.1@ == st0.1@.push(vals[comp_ids@.index_of(st0.0)])
                    &&& !(exists|kk: int| 0 <= kk < k && comp_ids@[kk] == st0.0) ==> st == st0
                },
            decreases comp_ids.len() - k,
        {
            let id = comp_ids[k];
            let key = id.as_u64();
            proof {
                let i = choose|i: int| 0 <= i < a0.comp_ids.len() && a0.comp_ids@[i] == id;
                assert(a0.comp_lookup@.contains_key(packed(a0.comp_ids@[i]) as u64));
            }
            let idx = *self.archetypes[a].comp_lookup.get(&key).unwrap();
            proof {
                let i = choose|i: int| 0 <= i < a0.comp_ids.len() && packed(a0.comp_ids@[i]) == key;
                crate::entities::lemma_packed_injective(a0.comp_ids@[i], id);
                assert(a0.comp_ids@[idx as int] == id);
                assert(comp_ids@.index_of(id) == k) by {
                    let j = comp_ids@.index_of(id);
                    assert(comp_ids@.contains(id)) by { assert(comp_ids@[k as int] == id); }
                    assert(comp_ids@[j] == id);
                }
                let st0 = a0.component_storages@[idx as int];
                assert(!(exists|kk: int| 0 <= kk < k && comp_ids@[kk] == st0.0));
                assert(old_w.comp_meta(id).layout == st0.1.type_info().layout);
                assert(old_w.archetypes@[a as int].component_storages@[idx as int].1.can_push());
            }
            self.archetypes[a].component_storages[idx].1.push_raw(data[k].as_slice());
            proof {
                assert forall|i: int| 0 <= i < a0.component_storages.len() implies {
                    let st = (#[trigger] self.archetypes@[a as int].component_storages@[i]);
                    let st0 = a0.component_storages@[i];
                    &&& st.0 == st0.0
                    &&& st.1.wf()
                    &&& st.1.type_info() == st0.1.type_info()
                    &&& (exists|kk: int| 0 <= kk < k + 1 && comp_ids@[kk] == st0.0) ==> st.1@ == st0.1@.push(vals[comp_ids@.index_of(st0.0)])
                    &&& !(exists|kk: int| 0 <= kk < k + 1 && comp_ids@[kk] == st0.0) ==> st == st0
                } by {
                    let st0 = a0.component_storages@[i];
                    if i == idx {
                        assert(vals[k as int] == data@[k as int]@);
                    } else {
                        assert(st0.0 != id) by {
                            assert(a0.comp_ids@[i] != a0.comp_ids@[idx as int]) by {
                                if i < idx { assert(id_lt(a0.comp_ids@[i], a0.comp_ids@[idx as int])); }
                                else { assert(id_lt(a0.comp_ids@[idx as int], a0.comp_ids@[i])); }
                            }
                        }
                        if exists|kk: int| 0 <= kk < k + 1 && comp_ids@[kk] == st0.0 {
                            let kk = choose|kk: int| 0 <= kk < k + 1 && comp_ids@[kk] == st0.0;
                            assert(kk != k);
                        }
                    }
                }
            }
            k = k + 1;
        }
        let row = self.archetypes[a].entities.len() - 1;
        self.set_entity_meta(
            entity,
            EntityMeta { instance_meta: InstanceMeta { archetype: ArchIndex(a), index: row }, component_meta },
        );
        proof {
            let na = self.archetypes@[a as int];
            assert forall|i: int| 0 <= i < a0.component_storages.len() implies
                (#[trigger] na.component_storages@[i]).1@ == a0.component_storages@[i].1@.push(vals[comp_ids@.index_of(a0.comp_ids@[i])]) by {
                assert(comp_ids@.contains(a0.comp_ids@[i]));
                let kk = comp_ids@.index_of(a0.comp_ids@[i]);
                assert(0 <= kk < k && comp_ids@[kk] == a0.component_storages@[i].0);
            }
            assert(na.wf());
            assert forall|x: int| 0 <= x < self.archetypes.len() implies (#[trigger] self.archetypes@[x]).wf() by {
                if x != a {
                    assert(self.archetypes@[x] == old_w.archetypes@[x]);
                }
            }
            assert(entity.index < self.entities.generations.len());
            // every other entity keeps its place and its values
            assert forall|e: EcsId| e != entity implies #[trigger] self.placed(e) == old_w.placed(e) by {
                if e.index == entity.index && self.alive(e) {
                    self.lemma_alive_unique(e, entity);
                }
            }
            assert forall|e: EcsId| e != entity && old_w.placed(e) implies #[trigger] self.components(e) == old_w.components(e) && self.comp_meta(e) == old_w.comp_meta(e) by {
                assert(e.index != entity.index);
                let x = old_w.arch_of(e);
                let r = old_w.row_of(e);
                assert(self.arch_of(e) == x && self.row_of(e) == r);
                if x == a {
                    assert(r < a0.entities.len());
                    assert(self.components(e) =~= old_w.components(e)) by {
                        assert forall|c: EcsId| na.has(c) implies #[trigger] na.value(na.comp_ids@.index_of(c), r) == a0.value(a0.comp_ids@.index_of(c), r) by {
                            let i = na.comp_ids@.index_of(c);
                            assert(0 <= i < a0.comp_ids.len());
                        }
                    }
                }
            }
            assert(self.components(entity) =~= assigned(comp_ids@, vals)) by {
                assert forall|c: EcsId| #[trigger] na.has(c) <==> comp_ids@.contains(c) by {
                    if comp_ids@.contains(c) {
                        let kk = comp_ids@.index_of(c);
                        assert(a0.has(comp_ids@[kk]));
                    }
                    if na.has(c) {
                        let i = na.comp_ids@.index_of(c);
                        assert(comp_ids@.contains(a0.comp_ids@[i]));
                    }
                }
                assert forall|c: EcsId| na.has(c) implies #[trigger] na.value(na.comp_ids@.index_of(c), row as int) == vals[comp_ids@.index_of(c)] by {
                    let i = na.comp_ids@.index_of(c);
                    assert(na.component_storages@[i].1@ == a0.component_storages@[i].1@.push(vals[comp_ids@.index_of(a0.comp_ids@[i])]));
                }
            }
            assert(self.wf_meta()) by {
                assert forall|i: int| 0 <= i < self.ecs_id_meta.len() && (#[trigger] self.ecs_id_meta@[i]).is_some() implies {
                    let m = self.ecs_id_meta@[i].unwrap().instance_meta;
                    let cm = self.ecs_id_meta@[i].unwrap().component_meta;
                    &&& cm.layout.wf()
                    &&& cm.is_unit ==> cm.layout.spec_size() == 0
                    &&& i < self.entities.generations.len()
                    &&& self.entities.generations@[i].0
                    &&& m.archetype.0 < self.archetypes.len()
                    &&& m.index < self.archetypes@[m.archetype.0 as int].entities.len()
                    &&& self.archetypes@[m.archetype.0 as int].entities@[m.index as int].index == i
                } by {
                    if i != entity.index {
                        assert(self.meta_at(i) == old_w.meta_at(i));
                    }
                }
                assert forall|x: int, r: int| 0 <= x < self.archetypes.len() && 0 <= r < self.archetypes@[x].entities.len()
                    implies {
                    let e = #[trigger] self.archetypes@[x].entities@[r];
                    &&& self.placed(e)
                    &&& self.arch_of(e) == x
                    &&& self.row_of(e) == r
                } by {
                    let e = self.archetypes@[x].entities@[r];
                    if x == a && r == row {
                        assert(e == entity);
                    } else {
                        if x == a {
                            assert(e == a0.entities@[r]);
                        } else {
                            assert(e == old_w.archetypes@[x].entities@[r]);
                        }
                        assert(old_w.placed(e));
                        assert(e != entity);
                    }
                }
            }
            assert(self.wf_components()) by {
                assert forall|x: int, i: int| 0 <= x < self.archetypes.len() && 0 <= i < self.archetypes@[x].comp_ids.len()
                    implies {
                    let c = #[trigger] self.archetypes@[x].comp_ids@[i];
                    &&& self.placed(c)
                    &&& self.comp_meta(c).layout == self.archetypes@[x].component_storages@[i].1.type_info().layout
                } by {
                    let c = self.archetypes@[x].comp_ids@[i];
                    assert(c == old_w.archetypes@[x].comp_ids@[i]);
                    assert(old_w.placed(c));
                    assert(c != entity);
                }
            }
            assert(self.wf_bitsets()) by {
                assert forall|s: int, x: int| 0 <= x < self.archetypes.len() implies (#[trigger] self.slot_bit(s, x) <==> exists|i: int|
                    0 <= i < self.archetypes@[x].comp_ids.len() && self.archetypes@[x].comp_ids@[i].index == s) by {
                    assert(old_w.slot_bit(s, x) == self.slot_bit(s, x));
                    assert(self.archetypes@[x].comp_ids == old_w.archetypes@[x].comp_ids);
                }
            }
            assert(self.wf_caches()) by {
                assert forall|x: int, kk: u64| 0 <= x < self.archetypes.len() && #[trigger] self.archetypes@[x].add_remove_cache@.contains_key(kk)
                    implies {
                    let t = self.archetypes@[x].add_remove_cache@[kk] as int;
                    &&& 0 <= t < self.archetypes.len()
                    &&& t != x
                    &&& moves_by(self.archetypes@[x].comp_ids@, self.archetypes@[t].comp_ids@, unpack(kk))
                } by {
                    assert(self.archetypes@[x].add_remove_cache == old_w.archetypes@[x].add_remove_cache);
                    let t = old_w.archetypes@[x].add_remove_cache@[kk] as int;
                    assert(self.archetypes@[t].comp_ids == old_w.archetypes@[t].comp_ids);
                }
            }
        }
    }
}

} // verus!

verus! {

impl World {
    /// `self` is `before` with `e` spawned and not yet built: only the entity table changed, `e`
    /// became alive and no other entity changed.
    pub open spec fn spawned_from(&self, before: World, e: EcsId) -> bool {
        &&& self.wf()
        &&& e == before.entities.next_id()
        &&& self.alive(e)
        &&& !self.placed(e)
        &&& !before.alive(e)
        &&& self.archetypes == before.archetypes
        &&& self.ecs_id_meta == before.ecs_id_meta
        &&& self.archetype_bitset == before.archetype_bitset
        &&& self.entities_bitvec == before.entities_bitvec
        &&& self.type_id_to_ecs_id == before.type_id_to_ecs_id
        &&& forall|x: EcsId| x != e ==> #[trigger] self.alive(x) == before.alive(x)
        &&& forall|x: EcsId| x != e ==> #[trigger] self.placed(x) == before.placed(x)
        &&& forall|x: EcsId| before.placed(x) ==> #[trigger] self.components(x) == before.components(x)
        &&& forall|x: EcsId| before.placed(x) ==> #[trigger] self.comp_meta(x) == before.comp_meta(x)
    }

    /// The entity table can hand out one more identifier.
    pub open spec fn can_spawn(&self) -> bool {
        self.entities.despawned.len() > 0 || self.entities.generations.len() <= u32::MAX
    }

    /// Spawns an entity, not yet built.
    fn spawn_entity(&mut self) -> (e: EcsId)
        requires
            old(self).wf(),
            old(self).can_spawn(),
        ensures
            final(self).spawned_from(*old(self), e),
    {
        let ghost old_w = *self;
        let e = self.entities.spawn();
        proof {
            assert(!old_w.placed(e));
            assert(self.meta_at(e.index as int).is_none()) by {
                if self.meta_at(e.index as int).is_some() {
                    assert(old_w.ecs_id_meta@[e.index as int].is_some());
                    if e.index < old_w.entities.generations.len() {
                        assert(old_w.entities.generations@[e.index as int].0);
                        assert(old_w.entities.despawned.len() > 0);
                        let idx = old_w.entities.despawned@.last();
                        assert(old_w.entities.despawned@[old_w.entities.despawned.len() - 1] == idx);
                    }
                }
            }
            assert(self.wf_meta()) by {
                assert forall|x: int, r: int| 0 <= x < self.archetypes.len() && 0 <= r < self.archetypes@[x].entities.len()
                    implies {
                    let y = #[trigger] self.archetypes@[x].entities@[r];
                    &&& self.placed(y)
                    &&& self.arch_of(y) == x
                    &&& self.row_of(y) == r
                } by {
                    let y = self.archetypes@[x].entities@[r];
                    assert(old_w.placed(y));
                }
                assert forall|i: int| 0 <= i < self.ecs_id_meta.len() && (#[trigger] self.ecs_id_meta@[i]).is_some() implies
                    i < self.entities.generations.len() && self.entities.generations@[i].0 by {
                    let m = old_w.ecs_id_meta@[i].unwrap().instance_meta;
                    let y = old_w.archetypes@[m.archetype.0 as int].entities@[m.index as int];
                    assert(old_w.placed(y));
                    assert(self.alive(y));
                }
            }
            assert(self.wf_components()) by {
                assert forall|x: int, i: int| 0 <= x < self.archetypes.len() && 0 <= i < self.archetypes@[x].comp_ids.len()
                    implies self.placed(#[trigger] self.archetypes@[x].comp_ids@[i]) by {
                    assert(old_w.placed(self.archetypes@[x].comp_ids@[i]));
                }
            }
            assert forall|x: EcsId| x != e implies #[trigger] self.placed(x) == old_w.placed(x) by {}
            assert(self.wf_archetypes());
            assert(self.wf_bitsets()) by {
                assert forall|s: int, x: int| 0 <= x < self.archetypes.len() implies (#[trigger] self.slot_bit(s, x) <==> exists|i: int|
                    0 <= i < self.archetypes@[x].comp_ids.len() && self.archetypes@[x].comp_ids@[i].index == s) by {
                    assert(old_w.slot_bit(s, x) == self.slot_bit(s, x));
                }
            }
            assert(self.wf_caches());
            assert(self.wf());
            assert(self.alive(e));
            assert(!old_w.alive(e));
            assert forall|x: EcsId| old_w.placed(x) implies #[trigger] self.components(x) == old_w.components(x) by {}
            assert forall|x: EcsId| old_w.placed(x) implies #[trigger] self.comp_meta(x) == old_w.comp_meta(x) by {}
        }
        e
    }

    /// Starts building an entity. See `EntityBuilder`.
    pub fn spawn(&mut self) -> (b: EntityBuilder<'_>)
        requires
            old(self).wf(),
            old(self).can_spawn(),
        ensures
            b.wf(),
            b.comp_ids@.len() == 0,
            b.data@.len() == 0,
            b.cap == 0,
            b.component_meta.is_unit,
            b.component_meta.layout.spec_size() == 0,
            b.component_meta.layout.spec_align() == 1,
            (*b.world).spawned_from(*old(self), b.entity),
            *final(self) == *final(b.world),
    {
        let entity = self.spawn_entity();
        EntityBuilder::new(self, entity, ComponentMeta::unit())
    }

    /// Same as `spawn`, with room set aside for `capacity` bytes of component values.
    pub fn spawn_with_capacity(&mut self, capacity: usize) -> (b: EntityBuilder<'_>)
        requires
            old(self).wf(),
            old(self).can_spawn(),
        ensures
            b.wf(),
            b.comp_ids@.len() == 0,
            b.data@.len() == 0,
            b.cap == capacity,
            b.component_meta.is_unit,
            b.component_meta.layout.spec_size() == 0,
            b.component_meta.layout.spec_align() == 1,
            (*b.world).spawned_from(*old(self), b.entity),
            *final(self) == *final(b.world),
    {
        let entity = self.spawn_entity();
        EntityBuilder::with_capacity(self, entity, ComponentMeta::unit(), capacity)
    }

    /// Starts building an entity whose values, when it is used as a component, are described by
    /// `component_meta`.
    pub fn spawn_with_component_meta(&mut self, component_meta: ComponentMeta) -> (b: EntityBuilder<'_>)
        requires
            old(self).wf(),
            old(self).can_spawn(),
            component_meta.layout.wf(),
            component_meta.is_unit ==> component_meta.layout.spec_size() == 0,
        ensures
            b.wf(),
            b.comp_ids@.len() == 0,
            b.data@.len() == 0,
            b.cap == 0,
            b.component_meta == component_meta,
            (*b.world).spawned_from(*old(self), b.entity),
            *final(self) == *final(b.world),
    {
        let entity = self.spawn_entity();
        EntityBuilder::new(self, entity, component_meta)
    }
}

} // verus!

verus! {

/// Two strictly sorted sequences with the same elements are equal.
pub proof fn lemma_sorted_same_elements(x: Seq<EcsId>, y: Seq<EcsId>)
    requires
        strictly_sorted(x),
        strictly_sorted(y),
        forall|e: EcsId| x.contains(e) <==> y.contains(e),
    ensures
        x == y,
    decreases x.len(),
{
    if x.len() == 0 {
        if y.len() > 0 {
            assert(y.contains(y[0]));
        }
        assert(x =~= y);
    } else {
        assert(x.contains(x[0]));
        assert(y.len() > 0);
        assert(y.contains(y[0]));
        let i = choose|i: int| 0 <= i < x.len() && x[i] == y[0];
        let k = choose|k: int| 0 <= k < y.len() && y[k] == x[0];
        if i > 0 {
            assert(id_lt(x[0], x[i]));
            if k > 0 {
                assert(id_lt(y[0], y[k]));
                crate::entities::lemma_id_order_total(x[0], y[0], x[0]);
            }
        }
        if k > 0 {
            assert(id_lt(y[0], y[k]));
        }
        assert(x[0] == y[0]) by {
            if x[0] != y[0] {
                assert(i > 0 || k > 0);
                if i > 0 && k > 0 {
                    crate::entities::lemma_id_order_total(x[0], y[0], x[0]);
                }
            }
        }
        let x1 = x.drop_first();
        let y1 = y.drop_first();
        assert forall|e: EcsId| x1.contains(e) <==> y1.contains(e) by {
            if x1.contains(e) {
                let a = choose|a: int| 0 <= a < x1.len() && x1[a] == e;
                assert(x[a + 1] == e);
                assert(id_lt(x[0], x[a + 1]));
                assert(y.contains(e));
                let b = choose|b: int| 0 <= b < y.len() && y[b] == e;
                assert(b != 0);
                assert(y1[b - 1] == e);
            }
            if y1.contains(e) {
                let a = choose|a: int| 0 <= a < y1.len() && y1[a] == e;
                assert(y[a + 1] == e);
                assert(id_lt(y[0], y[a + 1]));
                assert(x.contains(e));
                let b = choose|b: int| 0 <= b < x.len() && x[b] == e;
                assert(b != 0);
                assert(x1[b - 1] == e);
            }
        }
        lemma_sorted_same_elements(x1, y1);
        assert(x =~= y) by {
            assert forall|a: int| 0 <= a < x.len() implies x[a] == y[a] by {
                if a > 0 {
                    assert(x[a] == x1[a - 1]);
                    assert(y[a] == y1[a - 1]);
                }
            }
        }
    }
}

/// A sorted sequence that holds the elements of the sorted `s` and `c`, and no more, is `s`
/// with `c` put in its place `j`.
pub(crate) proof fn lemma_sorted_insert_is(s: Seq<EcsId>, t: Seq<EcsId>, c: EcsId, j: int)
    requires
        strictly_sorted(s),
        strictly_sorted(t),
        0 <= j <= s.len(),
        forall|i: int| 0 <= i < j ==> id_lt(#[trigger] s[i], c),
        forall|i: int| j <= i < s.len() ==> id_lt(c, #[trigger] s[i]),
        t.len() == s.len() + 1,
        forall|k: int| 0 <= k < s.len() ==> t.contains(#[trigger] s[k]),
        t.contains(c),
    ensures
        t == s.insert(j, c),
{
    let u = s.insert(j, c);
    lemma_sorted_insert(s, j, c);
    assert forall|k: int| 0 <= k < u.len() implies t.contains(#[trigger] u[k]) by {
        if k < j {
            assert(u[k] == s[k]);
        } else if k > j {
            assert(u[k] == s[k - 1]);
        }
    }
    assert(distinct(u)) by {
        assert forall|a: int, b: int| 0 <= a < b < u.len() implies u[a] != u[b] by {
            assert(id_lt(u[a], u[b]));
        }
    }
    assert(distinct(t)) by {
        assert forall|a: int, b: int| 0 <= a < b < t.len() implies t[a] != t[b] by {
            assert(id_lt(t[a], t[b]));
        }
    }
    lemma_same_elements(u, t);
    assert forall|e: EcsId| u.contains(e) <==> t.contains(e) by {
        if u.contains(e) {
            let a = choose|a: int| 0 <= a < u.len() && u[a] == e;
            assert(t.contains(u[a]));
        }
        if t.contains(e) {
            let a = choose|a: int| 0 <= a < t.len() && t[a] == e;
            assert(u.contains(t[a]));
        }
    }
    lemma_sorted_same_elements(u, t);
}

} // verus!

verus! {

impl Archetype {
    /// Moves the entity in row `row` of `cur` to a new last row of `tar`, whose components are
    /// those of `cur` with `c` put in place `j`; the new row holds `data` for `c`. The last
    /// entity of `cur` takes the place of the moved one.
    fn move_row_added(cur: &mut Archetype, tar: &mut Archetype, row: usize, j: usize, c: EcsId, data: &[u8])
        requires
            old(cur).wf(),
            old(tar).wf(),
            row < old(cur).entities.len(),
            j <= old(cur).comp_ids.len(),
            old(tar).comp_ids@ == old(cur).comp_ids@.insert(j as int, c),
            forall|k: int| 0 <= k < old(cur).comp_ids.len() ==> #[trigger] old(cur).types()[k] == old(tar).types()[
                if k < j { k } else { k + 1 }],
            data@.len() == old(tar).types()[j as int].layout.spec_size(),
            forall|i: int| 0 <= i < old(tar).component_storages.len() ==> (#[trigger] old(tar).component_storages@[i]).1.can_push(),
            old(tar).entities.len() < usize::MAX,
        ensures
            final(cur).wf(),
            final(tar).wf(),
            final(cur).comp_ids == old(cur).comp_ids,
            final(cur).comp_lookup == old(cur).comp_lookup,
            final(cur).add_remove_cache == old(cur).add_remove_cache,
            final(tar).comp_ids == old(tar).comp_ids,
            final(tar).comp_lookup == old(tar).comp_lookup,
            final(tar).add_remove_cache == old(tar).add_remove_cache,
            final(cur).types() == old(cur).types(),
            final(tar).types() == old(tar).types(),
            final(cur).entities@ == swap_removed(old(cur).entities@, row as int),
            final(tar).entities@ == old(tar).entities@.push(old(cur).entities@[row as int]),
            forall|r: int| 0 <= r < final(cur).entities.len() ==> #[trigger] final(cur).row(r) == old(cur).row(
                if r == row { old(cur).entities.len() - 1 } else { r },
            ),
            forall|r: int| 0 <= r < old(tar).entities.len() ==> #[trigger] final(tar).row(r) == old(tar).row(r),
            final(tar).row(old(tar).entities.len() as int) == old(cur).row(row as int).insert(c, data@),
    {
        let ghost c0 = *cur;
        let ghost t0 = *tar;
        let entity = cur.entities[row];
        let n = tar.component_storages.len();
        let mut i: usize = 0;
        while i < n
            invariant
                c0.wf(),
                t0.wf(),
                row < c0.entities.len(),
                j <= c0.comp_ids.len(),
                n == t0.component_storages.len(),
                n == c0.component_storages.len() + 1,
                t0.comp_ids@ == c0.comp_ids@.insert(j as int, c),
                forall|k: int| 0 <= k < c0.comp_ids.len() ==> #[trigger] c0.types()[k] == t0.types()[
                    if k < j { k } else { k + 1 }],
                data@.len() == t0.types()[j as int].layout.spec_size(),
                forall|q: int| 0 <= q < t0.component_storages.len() ==> (#[trigger] t0.component_storages@[q]).1.can_push(),
                i <= n,
                cur.comp_ids == c0.comp_ids,
                cur.comp_lookup == c0.comp_lookup,
                cur.add_remove_cache == c0.add_remove_cache,
                cur.entities == c0.entities,
                tar.comp_ids == t0.comp_ids,
                tar.comp_lookup == t0.comp_lookup,
                tar.add_remove_cache == t0.add_remove_cache,
                tar.entities == t0.entities,
                cur.component_storages.len() == c0.component_storages.len(),
                tar.component_storages.len() == n,
                forall|k: int| 0 <= k < cur.component_storages.len() ==> {
                    let st = #[trigger] cur.component_storages@[k];
                    let st0 = c0.component_storages@[k];
                    let done = if k < j { k < i } else { k + 1 < i };
                    &&& st.0 == st0.0
                    &&& st.1.wf()
                    &&& st.1.type_info() == st0.1.type_info()
                    &&& done ==> st.1@ == swap_removed(st0.1@, row as int)
                    &&& !done ==> st.1@ == st0.1@
                },
                forall|q: int| 0 <= q < n ==> {
                    let st = #[trigger] tar.component_storages@[q];
                    let st0 = t0.component_storages@[q];
                    let src: int = if q < j { q } else { q - 1 };
                    &&& st.0 == st0.0
                    &&& st.1.wf()
                    &&& st.1.type_info() == st0.1.type_info()
                    &&& q < i && q == j ==> st.1@ == st0.1@.push(data@)
                    &&& q < i && q != j ==> st.1@ == st0.1@.push(c0.component_storages@[src].1@[row as int])
                    &&& q >= i ==> st == st0
                },
            decreases n - i,
        {
            proof {
                assert(t0.types()[i as int] == t0.component_storages@[i as int].1.type_info());
            }
            if i == j {
                tar.component_storages[i].1.push_raw(data);
            } else {
                let k = if i < j { i } else { i - 1 };
                proof {
                    assert(c0.types()[k as int] == t0.types()[i as int]);
                }
                cur.component_storages[k].1.swap_move_element_to_other_vec(&mut tar.component_storages[i].1, row);
            }
            i = i + 1;
        }
        tar.entities.push(entity);
        cur.entities.swap_remove(row);
        proof {
            assert(cur.types() =~= c0.types());
            assert(tar.types() =~= t0.types());
            assert forall|k: int| 0 <= k < cur.component_storages.len() implies
                (#[trigger] cur.component_storages@[k]).1@ == swap_removed(c0.component_storages@[k].1@, row as int) by {}
            assert(cur.wf());
            assert(tar.wf());
            assert forall|r: int| 0 <= r < cur.entities.len() implies #[trigger] cur.row(r) == c0.row(
                if r == row { c0.entities.len() - 1 } else { r },
            ) by {
                let src = if r == row { c0.entities.len() - 1 } else { r };
                assert(cur.row(r) =~= c0.row(src)) by {
                    assert forall|e: EcsId| cur.has(e) implies #[trigger] cur.value(cur.comp_ids@.index_of(e), r) == c0.value(c0.comp_ids@.index_of(e), src) by {
                        let k = cur.comp_ids@.index_of(e);
                    }
                }
            }
            assert forall|r: int| 0 <= r < t0.entities.len() implies #[trigger] tar.row(r) == t0.row(r) by {
                assert(tar.row(r) =~= t0.row(r)) by {
                    assert forall|e: EcsId| tar.has(e) implies #[trigger] tar.value(tar.comp_ids@.index_of(e), r) == t0.value(t0.comp_ids@.index_of(e), r) by {
                        let q = tar.comp_ids@.index_of(e);
                    }
                }
            }
            let last = t0.entities.len() as int;
            assert(tar.row(last) =~= c0.row(row as int).insert(c, data@)) by {
                assert(c0.comp_ids@.insert(j as int, c)[j as int] == c);
                assert forall|e: EcsId| #[trigger] tar.has(e) <==> (c0.has(e) || e == c) by {
                    if tar.has(e) {
                        let q = tar.comp_ids@.index_of(e);
                        if q < j {
                            assert(c0.comp_ids@[q] == e);
                        } else if q > j {
                            assert(c0.comp_ids@[q - 1] == e);
                        }
                    }
                    if c0.has(e) {
                        let k = c0.comp_ids@.index_of(e);
                        if k < j {
                            assert(tar.comp_ids@[k] == e);
                        } else {
                            assert(tar.comp_ids@[k + 1] == e);
                        }
                    }
                    if e == c {
                        assert(tar.comp_ids@[j as int] == c);
                    }
                }
                assert forall|e: EcsId| tar.has(e) implies #[trigger] tar.value(tar.comp_ids@.index_of(e), last)
                    == c0.row(row as int).insert(c, data@)[e] by {
                    let q = tar.comp_ids@.index_of(e);
                    if q == j {
                        assert(e == c);
                    } else {
                        let src: int = if q < j { q } else { q - 1 };
                        assert(c0.comp_ids@[src] == e);
                        assert(e != c) by {
                            if e == c {
                                assert(tar.comp_ids@[j as int] == c);
                                assert(tar.comp_ids@[q] == c);
                                if q < j { assert(id_lt(tar.comp_ids@[q], tar.comp_ids@[j as int])); }
                                else { assert(id_lt(tar.comp_ids@[j as int], tar.comp_ids@[q])); }
                            }
                        }
                        assert(c0.has(e));
                        assert(c0.comp_ids@.index_of(e) == src) by {
                            let k = c0.comp_ids@.index_of(e);
                            if k != src {
                                if k < src { assert(id_lt(c0.comp_ids@[k], c0.comp_ids@[src])); }
                                else { assert(id_lt(c0.comp_ids@[src], c0.comp_ids@[k])); }
                            }
                        }
                    }
                }
            }
        }
    }
}

impl Archetype {
    /// Moves the entity in row `row` of `cur` to a new last row of `tar`, whose components are
    /// those of `cur` but the one in place `j`, whose value is dropped. The last entity of `cur`
    /// takes the place of the moved one.
    fn move_row_removed(cur: &mut Archetype, tar: &mut Archetype, row: usize, j: usize) -> (removed: Vec<u8>)
        requires
            old(cur).wf(),
            old(tar).wf(),
            row < old(cur).entities.len(),
            j < old(cur).comp_ids.len(),
            old(tar).comp_ids@ == old(cur).comp_ids@.remove(j as int),
            forall|q: int| 0 <= q < old(tar).comp_ids.len() ==> #[trigger] old(tar).types()[q] == old(cur).types()[
                if q < j { q } else { q + 1 }],
            forall|i: int| 0 <= i < old(tar).component_storages.len() ==> (#[trigger] old(tar).component_storages@[i]).1.can_push(),
            old(tar).entities.len() < usize::MAX,
        ensures
            final(cur).wf(),
            final(tar).wf(),
            final(cur).comp_ids == old(cur).comp_ids,
            final(cur).comp_lookup == old(cur).comp_lookup,
            final(cur).add_remove_cache == old(cur).add_remove_cache,
            final(tar).comp_ids == old(tar).comp_ids,
            final(tar).comp_lookup == old(tar).comp_lookup,
            final(tar).add_remove_cache == old(tar).add_remove_cache,
            final(cur).types() == old(cur).types(),
            final(tar).types() == old(tar).types(),
            final(cur).entities@ == swap_removed(old(cur).entities@, row as int),
            final(tar).entities@ == old(tar).entities@.push(old(cur).entities@[row as int]),
            forall|r: int| 0 <= r < final(cur).entities.len() ==> #[trigger] final(cur).row(r) == old(cur).row(
                if r == row { old(cur).entities.len() - 1 } else { r },
            ),
            forall|r: int| 0 <= r < old(tar).entities.len() ==> #[trigger] final(tar).row(r) == old(tar).row(r),
            final(tar).row(old(tar).entities.len() as int) == old(cur).row(row as int).remove(old(cur).comp_ids@[j as int]),
            removed@ == old(cur).value(j as int, row as int),
    {
        let ghost c0 = *cur;
        let ghost t0 = *tar;
        let entity = cur.entities[row];
        let n = cur.component_storages.len();
        let mut removed: Vec<u8> = Vec::new();
        let mut k: usize = 0;
        while k < n
            invariant
                k > j ==> removed@ == c0.value(j as int, row as int),
                c0.wf(),
                t0.wf(),
                row < c0.entities.len(),
                j < c0.comp_ids.len(),
                n == c0.component_storages.len(),
                n == t0.component_storages.len() + 1,
                t0.comp_ids@ == c0.comp_ids@.remove(j as int),
                forall|q: int| 0 <= q < t0.comp_ids.len() ==> #[trigger] t0.types()[q] == c0.types()[
                    if q < j { q } else { q + 1 }],
                forall|q: int| 0 <= q < t0.component_storages.len() ==> (#[trigger] t0.component_storages@[q]).1.can_push(),
                k <= n,
                cur.comp_ids == c0.comp_ids,
                cur.comp_lookup == c0.comp_lookup,
                cur.add_remove_cache == c0.add_remove_cache,
                cur.entities == c0.entities,
                tar.comp_ids == t0.comp_ids,
                tar.comp_lookup == t0.comp_lookup,
                tar.add_remove_cache == t0.add_remove_cache,
                tar.entities == t0.entities,
                cur.component_storages.len() == n,
                tar.component_storages.len() == t0.component_storages.len(),
                forall|p: int| 0 <= p < n ==> {
                    let st = #[trigger] cur.component_storages@[p];
                    let st0 = c0.component_storages@[p];
                    &&& st.0 == st0.0
                    &&& st.1.wf()
                    &&& st.1.type_info() == st0.1.type_info()
                    &&& p < k ==> st.1@ == swap_removed(st0.1@, row as int)
                    &&& p >= k ==> st.1@ == st0.1@
                },
                forall|q: int| 0 <= q < tar.component_storages.len() ==> {
                    let st = #[trigger] tar.component_storages@[q];
                    let st0 = t0.component_storages@[q];
                    let src: int = if q < j { q } else { q + 1 };
                    &&& st.0 == st0.0
                    &&& st.1.wf()
                    &&& st.1.type_info() == st0.1.type_info()
                    &&& src < k ==> st.1@ == st0.1@.push(c0.component_storages@[src].1@[row as int])
                    &&& src >= k ==> st == st0
                },
            decreases n - k,
        {
            proof {
                assert(c0.types()[k as int] == c0.component_storages@[k as int].1.type_info());
            }
            if k == j {
                removed = cur.component_storages[k].1.swap_remove(row);
            } else {
                let q = if k < j { k } else { k - 1 };
                proof {
                    assert(t0.types()[q as int] == c0.types()[k as int]);
                }
                cur.component_storages[k].1.swap_move_element_to_other_vec(&mut tar.component_storages[q].1, row);
            }
            k = k + 1;
        }
        tar.entities.push(entity);
        cur.entities.swap_remove(row);
        proof {
            assert(cur.types() =~= c0.types());
            assert(tar.types() =~= t0.types());
            assert(cur.wf());
            assert(tar.wf());
            assert forall|r: int| 0 <= r < cur.entities.len() implies #[trigger] cur.row(r) == c0.row(
                if r == row { c0.entities.len() - 1 } else { r },
            ) by {
                let src = if r == row { c0.entities.len() - 1 } else { r };
                assert(cur.row(r) =~= c0.row(src)) by {
                    assert forall|e: EcsId| cur.has(e) implies #[trigger] cur.value(cur.comp_ids@.index_of(e), r) == c0.value(c0.comp_ids@.index_of(e), src) by {
                        let p = cur.comp_ids@.index_of(e);
                    }
                }
            }
            assert forall|r: int| 0 <= r < t0.entities.len() implies #[trigger] tar.row(r) == t0.row(r) by {
                assert(tar.row(r) =~= t0.row(r)) by {
                    assert forall|e: EcsId| tar.has(e) implies #[trigger] tar.value(tar.comp_ids@.index_of(e), r) == t0.value(t0.comp_ids@.index_of(e), r) by {
                        let q = tar.comp_ids@.index_of(e);
                    }
                }
            }
            let last = t0.entities.len() as int;
            let c = c0.comp_ids@[j as int];
            assert(tar.row(last) =~= c0.row(row as int).remove(c)) by {
                assert forall|e: EcsId| #[trigger] tar.has(e) <==> (c0.has(e) && e != c) by {
                    if tar.has(e) {
                        let q = tar.comp_ids@.index_of(e);
                        let src: int = if q < j { q } else { q + 1 };
                        assert(c0.comp_ids@[src] == e);
                        if q < j { assert(id_lt(c0.comp_ids@[src], c)); }
                        else { assert(id_lt(c, c0.comp_ids@[src])); }
                    }
                    if c0.has(e) && e != c {
                        let p = c0.comp_ids@.index_of(e);
                        if p < j {
                            assert(tar.comp_ids@[p] == e);
                        } else {
                            assert(p != j);
                            assert(tar.comp_ids@[p - 1] == e);
                        }
                    }
                }
                assert forall|e: EcsId| tar.has(e) implies #[trigger] tar.value(tar.comp_ids@.index_of(e), last)
                    == c0.row(row as int).remove(c)[e] by {
                    let q = tar.comp_ids@.index_of(e);
                    let src: int = if q < j { q } else { q + 1 };
                    assert(c0.comp_ids@[src] == e);
                    assert(c0.has(e));
                    assert(c0.comp_ids@.index_of(e) == src) by {
                        let p = c0.comp_ids@.index_of(e);
                        if p != src {
                            if p < src { assert(id_lt(c0.comp_ids@[p], c0.comp_ids@[src])); }
                            else { assert(id_lt(c0.comp_ids@[src], c0.comp_ids@[p])); }
                        }
                    }
                }
            }
        }
        removed
    }
}

impl World {
    /// Moves the built `entity` from its archetype `a`, row `row`, to a new last row of archetype
    /// `t`, whose components are those of `a` with `c` put in place `j` (`adding`, the new value
    /// being `data`) or with the component in place `j`, which is `c`, taken out.
    #[verifier::rlimit(50)]
    #[verifier::spinoff_prover]
    fn move_entity(&mut self, entity: EcsId, a: usize, row: usize, t: usize, j: usize, c: EcsId, adding: bool, data: &[u8]) -> (removed: Vec<u8>)
        requires
            old(self).wf(),
            old(self).can_grow_rows(),
            old(self).placed(entity),
            a == old(self).arch_of(entity),
            row == old(self).row_of(entity),
            t < old(self).archetypes.len(),
            t != a,
            adding ==> {
                &&& j <= old(self).archetypes@[a as int].comp_ids.len()
                &&& old(self).archetypes@[t as int].comp_ids@ == old(self).archetypes@[a as int].comp_ids@.insert(j as int, c)
                &&& data@.len() == old(self).comp_meta(c).layout.spec_size()
            },
            !adding ==> {
                &&& j < old(self).archetypes@[a as int].comp_ids.len()
                &&& old(self).archetypes@[a as int].comp_ids@[j as int] == c
                &&& old(self).archetypes@[t as int].comp_ids@ == old(self).archetypes@[a as int].comp_ids@.remove(j as int)
            },
        ensures
            final(self).wf(),
            final(self).archetypes.len() == old(self).archetypes.len(),
            forall|x: int| 0 <= x < final(self).archetypes.len() ==> (#[trigger] final(self).archetypes@[x]).comp_ids == old(self).archetypes@[x].comp_ids,
            final(self).entities == old(self).entities,
            final(self).type_id_to_ecs_id == old(self).type_id_to_ecs_id,
            forall|e: EcsId| #[trigger] final(self).placed(e) == old(self).placed(e),
            forall|e: EcsId| old(self).placed(e) ==> #[trigger] final(self).comp_meta(e) == old(self).comp_meta(e),
            forall|e: EcsId| e != entity && old(self).placed(e) ==> #[trigger] final(self).components(e) == old(self).components(e),
            adding ==> final(self).components(entity) == old(self).components(entity).insert(c, data@),
            !adding ==> final(self).components(entity) == old(self).components(entity).remove(c),
            final(self).arch_of(entity) == t,
            final(self).moved_to(*old(self), entity, t as int),
            !adding ==> removed@ == old(self).components(entity)[c],
    {
        let ghost w0 = *self;
        let ghost cur0 = self.archetypes@[a as int];
        let ghost tar0 = self.archetypes@[t as int];
        let ghost last_a = cur0.entities.len() - 1;
        proof {
            assert(cur0.wf());
            assert(tar0.wf());
            if adding {
                assert forall|k: int| 0 <= k < cur0.comp_ids.len() implies #[trigger] cur0.types()[k] == tar0.types()[
                    if k < j { k } else { k + 1 }] by {
                    let q = if k < j { k } else { k + 1 };
                    assert(tar0.comp_ids@[q] == cur0.comp_ids@[k]);
                }
                assert(tar0.comp_ids@[j as int] == c);
            } else {
                assert forall|q: int| 0 <= q < tar0.comp_ids.len() implies #[trigger] tar0.types()[q] == cur0.types()[
                    if q < j { q } else { q + 1 }] by {
                    let k = if q < j { q } else { q + 1 };
                    assert(tar0.comp_ids@[q] == cur0.comp_ids@[k]);
                }
            }
            assert(cur0.entities@[row as int] == entity);
            if row < last_a {
                let last = cur0.entities@[last_a];
                assert(w0.placed(last));
                assert(w0.row_of(last) == last_a);
                assert(last.index != entity.index);
            }
        }
        let (cur, tar) = crate::utils::index_twice_mut(a, t, self.archetypes.as_mut_slice());
        let removed = if adding {
            Archetype::move_row_added(cur, tar, row, j, c, data);
            Vec::new()
        } else {
            Archetype::move_row_removed(cur, tar, row, j)
        };
        proof {
            if !adding {
                assert(cur0.has(c));
                assert(cur0.comp_ids@.index_of(c) == j) by {
                    let p = cur0.comp_ids@.index_of(c);
                    if p != j {
                        if p < j { assert(id_lt(cur0.comp_ids@[p], cur0.comp_ids@[j as int])); }
                        else { assert(id_lt(cur0.comp_ids@[j as int], cur0.comp_ids@[p])); }
                    }
                }
                assert(removed@ == w0.components(entity)[c]);
            }
        }
        let ghost cur1 = self.archetypes@[a as int];
        let ghost tar1 = self.archetypes@[t as int];
        let new_row = self.archetypes[t].entities.len() - 1;
        let em = self.ecs_id_meta[entity.uindex()].unwrap();
        let moved = EntityMeta { instance_meta: InstanceMeta { archetype: ArchIndex(t), index: new_row }, component_meta: em.component_meta };
        self.ecs_id_meta.set(entity.uindex(), Some(moved));
        if row < self.archetypes[a].entities.len() {
            let swapped = self.archetypes[a].entities[row];
            let sm = self.ecs_id_meta[swapped.uindex()].unwrap();
            let updated = EntityMeta { instance_meta: InstanceMeta { archetype: sm.instance_meta.archetype, index: row }, component_meta: sm.component_meta };
            self.ecs_id_meta.set(swapped.uindex(), Some(updated));
        }
        proof {
            let w = *self;
            assert forall|x: int| 0 <= x < w.archetypes.len() && x != a && x != t implies #[trigger] w.archetypes@[x] == w0.archetypes@[x] by {}
            assert forall|x: int| 0 <= x < w.archetypes.len() implies (#[trigger] w.archetypes@[x]).comp_ids == w0.archetypes@[x].comp_ids by {}
            // the slots whose metadata changed
            assert forall|e: EcsId| #[trigger] w.placed(e) == w0.placed(e) by {
                assert(w.meta_at(e.index as int).is_some() == w0.meta_at(e.index as int).is_some());
            }
            assert forall|e: EcsId| w0.placed(e) implies #[trigger] w.comp_meta(e) == w0.comp_meta(e) by {}
            assert forall|e: EcsId| e != entity && w0.placed(e) implies {
                &&& #[trigger] w.arch_of(e) == w0.arch_of(e)
                &&& (w.row_of(e) == if w0.arch_of(e) == a && w0.row_of(e) == last_a { row as int } else { w0.row_of(e) })
            } by {
                assert(e.index != entity.index) by {
                    if e.index == entity.index {
                        w0.lemma_alive_unique(e, entity);
                    }
                }
                if row < last_a {
                    let sw = cur0.entities@[last_a];
                    if e.index == sw.index {
                        w0.lemma_alive_unique(e, sw);
                    } else if w0.arch_of(e) == a && w0.row_of(e) == last_a {
                        assert(cur0.entities@[last_a].index == e.index);
                    }
                }
            }
            assert(w.arch_of(entity) == t && w.row_of(entity) == tar0.entities.len());
            assert forall|e: EcsId| e != entity && w0.placed(e) implies #[trigger] w.components(e) == w0.components(e) by {
                let x = w0.arch_of(e);
                let r = w0.row_of(e);
                if x == a {
                    assert(r != row) by {
                        if r == row {
                            assert(cur0.entities@[r].index == e.index);
                            w0.lemma_alive_unique(e, entity);
                        }
                    }
                    let nr = w.row_of(e);
                    assert(nr < cur1.entities.len());
                    assert(cur1.row(nr) == cur0.row(if nr == row { last_a } else { nr }));
                } else if x == t {
                    assert(tar1.row(r) == tar0.row(r));
                }
            }
            // the world stays well formed
            assert(w.wf_archetypes()) by {
                assert forall|x: int| 0 <= x < w.archetypes.len() implies (#[trigger] w.archetypes@[x]).wf() by {}
            }
            assert(w.wf_meta()) by {
                assert forall|i: int| 0 <= i < w.ecs_id_meta.len() && (#[trigger] w.ecs_id_meta@[i]).is_some() implies {
                    let m = w.ecs_id_meta@[i].unwrap().instance_meta;
                    let cm = w.ecs_id_meta@[i].unwrap().component_meta;
                    &&& cm.layout.wf()
                    &&& cm.is_unit ==> cm.layout.spec_size() == 0
                    &&& i < w.entities.generations.len()
                    &&& w.entities.generations@[i].0
                    &&& m.archetype.0 < w.archetypes.len()
                    &&& m.index < w.archetypes@[m.archetype.0 as int].entities.len()
                    &&& w.archetypes@[m.archetype.0 as int].entities@[m.index as int].index == i
                } by {
                    let om = w0.ecs_id_meta@[i].unwrap().instance_meta;
                    let oe = w0.archetypes@[om.archetype.0 as int].entities@[om.index as int];
                    assert(w0.placed(oe));
                    assert(oe.index == i);
                    if oe != entity {
                        assert(w.placed(oe));
                        assert(w.meta_at(i) == w.meta_at(oe.index as int));
                        let x = w.arch_of(oe);
                        let nr = w.row_of(oe);
                        if x == a {
                            assert(cur1.entities@[nr] == cur0.entities@[if nr == row { last_a } else { nr }]);
                        } else if x == t {
                            assert(tar1.entities@[nr] == tar0.entities@[nr]);
                        } else {
                            assert(w.archetypes@[x] == w0.archetypes@[x]);
                        }
                    }
                }
                assert forall|x: int, r: int| 0 <= x < w.archetypes.len() && 0 <= r < w.archetypes@[x].entities.len()
                    implies {
                    let e = #[trigger] w.archetypes@[x].entities@[r];
                    &&& w.placed(e)
                    &&& w.arch_of(e) == x
                    &&& w.row_of(e) == r
                } by {
                    let e = w.archetypes@[x].entities@[r];
                    if x == t && r == tar0.entities.len() {
                        assert(e == entity);
                    } else {
                        let (ox, or) = if x == a {
                            (a as int, if r == row { last_a } else { r })
                        } else {
                            (x, r)
                        };
                        if x == a {
                            assert(e == cur0.entities@[or]);
                        } else if x == t {
                            assert(e == tar0.entities@[r]);
                        } else {
                            assert(w.archetypes@[x] == w0.archetypes@[x]);
                            assert(e == w0.archetypes@[x].entities@[r]);
                        }
                        assert(w0.placed(e));
                        assert(w0.arch_of(e) == ox && w0.row_of(e) == or);
                        assert(e != entity) by {
                            if e == entity {
                                assert(ox == a && or == row);
                            }
                        }
                    }
                }
            }
            assert(w.wf_components()) by {
                assert forall|x: int, i: int| 0 <= x < w.archetypes.len() && 0 <= i < w.archetypes@[x].comp_ids.len()
                    implies {
                    let cc = #[trigger] w.archetypes@[x].comp_ids@[i];
                    &&& w.placed(cc)
                    &&& w.comp_meta(cc).layout == w.archetypes@[x].component_storages@[i].1.type_info().layout
                } by {
                    let cc = w.archetypes@[x].comp_ids@[i];
                    assert(w0.archetypes@[x].comp_ids@[i] == cc);
                    assert(w0.placed(cc));
                    assert(w.archetypes@[x].types()[i] == w0.archetypes@[x].types()[i]);
                }
            }
            assert(w.wf_bitsets()) by {
                assert forall|s: int, x: int| 0 <= x < w.archetypes.len() implies (#[trigger] w.slot_bit(s, x) <==> exists|i: int|
                    0 <= i < w.archetypes@[x].comp_ids.len() && w.archetypes@[x].comp_ids@[i].index == s) by {
                    assert(w0.slot_bit(s, x) == w.slot_bit(s, x));
                }
            }
            assert(w.wf_caches()) by {
                assert forall|x: int, k: u64| 0 <= x < w.archetypes.len() && #[trigger] w.archetypes@[x].add_remove_cache@.contains_key(k)
                    implies {
                    let tt = w.archetypes@[x].add_remove_cache@[k] as int;
                    &&& 0 <= tt < w.archetypes.len()
                    &&& tt != x
                    &&& moves_by(w.archetypes@[x].comp_ids@, w.archetypes@[tt].comp_ids@, unpack(k))
                } by {
                    assert(w.archetypes@[x].add_remove_cache == w0.archetypes@[x].add_remove_cache);
                    assert(w0.archetypes@[x].add_remove_cache@.contains_key(k));
                    let tt = w0.archetypes@[x].add_remove_cache@[k] as int;
                    assert(w.archetypes@[tt].comp_ids == w0.archetypes@[tt].comp_ids);
                }
            }
        }
        proof {
            let w = *self;
            assert forall|x: int| x != a && x != t implies #[trigger] w.entities_of(x) == w0.entities_of(x) by {
                if 0 <= x < w.archetypes.len() {
                    assert(w.archetypes@[x] == w0.archetypes@[x]);
                }
            }
            assert(w.moved_to(w0, entity, t as int));
        }
        removed
    }
}

/// Unpacking the packed form of an identifier gives the identifier back.
pub proof fn lemma_unpack_packed(c: EcsId)
    ensures
        unpack(packed(c) as u64) == c,
{
    crate::entities::lemma_packed_bound(c);
    let k = packed(c);
    assert(k / 0x1_0000_0000 == c.generation as int && k % 0x1_0000_0000 == c.index as int) by {
        vstd::arithmetic::div_mod::lemma_fundamental_div_mod_converse(
            k,
            0x1_0000_0000,
            c.generation as int,
            c.index as int,
        );
    }
}

impl World {
    /// `self` is `o` but for what the archetypes remember of their moves.
    pub open spec fn same_except_caches(&self, o: World) -> bool {
        &&& self.archetypes.len() == o.archetypes.len()
        &&& forall|x: int| 0 <= x < self.archetypes.len() ==> {
            &&& (#[trigger] self.archetypes@[x]).comp_ids == o.archetypes@[x].comp_ids
            &&& self.archetypes@[x].entities == o.archetypes@[x].entities
            &&& self.archetypes@[x].component_storages == o.archetypes@[x].component_storages
            &&& self.archetypes@[x].comp_lookup == o.archetypes@[x].comp_lookup
            &&& self.archetypes@[x].add_remove_cache.wf()
        }
        &&& self.entities == o.entities
        &&& self.ecs_id_meta == o.ecs_id_meta
        &&& self.archetype_bitset == o.archetype_bitset
        &&& self.entities_bitvec == o.entities_bitvec
        &&& self.type_id_to_ecs_id == o.type_id_to_ecs_id
    }

    /// Worlds that differ only in what their archetypes remember of their moves hold the same
    /// entities with the same values.
    proof fn lemma_same_except_caches(&self, o: World)
        requires
            self.same_except_caches(o),
        ensures
            forall|e: EcsId| #[trigger] self.alive(e) == o.alive(e),
            forall|e: EcsId| #[trigger] self.placed(e) == o.placed(e),
            forall|e: EcsId| o.placed(e) ==> #[trigger] self.comp_meta(e) == o.comp_meta(e),
            forall|e: EcsId| o.placed(e) ==> #[trigger] self.arch_of(e) == o.arch_of(e),
            forall|e: EcsId| o.placed(e) ==> #[trigger] self.row_of(e) == o.row_of(e),
            forall|e: EcsId| o.wf() && o.placed(e) ==> #[trigger] self.components(e) == o.components(e),
            o.can_grow_rows() ==> self.can_grow_rows(),
            o.can_grow() ==> self.can_grow(),
    {
        assert forall|e: EcsId| o.wf() && o.placed(e) implies #[trigger] self.components(e) == o.components(e) by {
            let x = o.arch_of(e);
            assert(self.archetypes@[x].comp_ids == o.archetypes@[x].comp_ids);
            assert(self.components(e) =~= o.components(e));
        }
        if o.can_grow_rows() {
            assert forall|a: int, i: int| 0 <= a < self.archetypes.len() && 0 <= i < self.archetypes@[a].component_storages.len()
                implies (#[trigger] self.archetypes@[a].component_storages@[i]).1.can_push() by {
                assert(self.archetypes@[a].component_storages == o.archetypes@[a].component_storages);
            }
            assert forall|a: int| 0 <= a < self.archetypes.len() implies (#[trigger] self.archetypes@[a]).entities.len() < usize::MAX by {
                assert(self.archetypes@[a].entities == o.archetypes@[a].entities);
            }
        }
    }

    /// A world that differs from a well formed one only in caches that lead where the original
    /// ones led is well formed.
    proof fn lemma_same_except_caches_wf(&self, o: World)
        requires
            o.wf(),
            self.same_except_caches(o),
            self.wf_caches(),
        ensures
            self.wf(),
    {
        self.lemma_same_except_caches(o);
        assert(self.wf_archetypes()) by {
            assert forall|a: int| 0 <= a < self.archetypes.len() implies (#[trigger] self.archetypes@[a]).wf() by {
                assert(o.archetypes@[a].wf());
                assert(self.archetypes@[a].comp_ids == o.archetypes@[a].comp_ids);
            }
            if self.archetypes.len() > 0 {
                assert(self.archetypes@[0].comp_ids == o.archetypes@[0].comp_ids);
            }
        }
        assert(self.wf_meta()) by {
            assert forall|i: int| 0 <= i < self.ecs_id_meta.len() && (#[trigger] self.ecs_id_meta@[i]).is_some() implies {
                let m = self.ecs_id_meta@[i].unwrap().instance_meta;
                &&& m.archetype.0 < self.archetypes.len()
                &&& m.index < self.archetypes@[m.archetype.0 as int].entities.len()
                &&& self.archetypes@[m.archetype.0 as int].entities@[m.index as int].index == i
            } by {
                let m = o.ecs_id_meta@[i].unwrap().instance_meta;
                assert(self.archetypes@[m.archetype.0 as int].entities == o.archetypes@[m.archetype.0 as int].entities);
            }
            assert forall|x: int, r: int| 0 <= x < self.archetypes.len() && 0 <= r < self.archetypes@[x].entities.len()
                implies {
                let e = #[trigger] self.archetypes@[x].entities@[r];
                &&& self.placed(e)
                &&& self.arch_of(e) == x
                &&& self.row_of(e) == r
            } by {
                assert(self.archetypes@[x].entities == o.archetypes@[x].entities);
                assert(o.placed(o.archetypes@[x].entities@[r]));
            }
        }
        assert(self.wf_components()) by {
            assert forall|x: int, i: int| 0 <= x < self.archetypes.len() && 0 <= i < self.archetypes@[x].comp_ids.len()
                implies {
                let c = #[trigger] self.archetypes@[x].comp_ids@[i];
                &&& self.placed(c)
                &&& self.comp_meta(c).layout == self.archetypes@[x].component_storages@[i].1.type_info().layout
            } by {
                assert(self.archetypes@[x].comp_ids == o.archetypes@[x].comp_ids);
                assert(self.archetypes@[x].component_storages == o.archetypes@[x].component_storages);
                assert(o.placed(o.archetypes@[x].comp_ids@[i]));
            }
        }
        assert(self.wf_bitsets()) by {
            assert forall|s: int, x: int| 0 <= x < self.archetypes.len() implies (#[trigger] self.slot_bit(s, x) <==> exists|i: int|
                0 <= i < self.archetypes@[x].comp_ids.len() && self.archetypes@[x].comp_ids@[i].index == s) by {
                assert(o.slot_bit(s, x) == self.slot_bit(s, x));
                assert(self.archetypes@[x].comp_ids == o.archetypes@[x].comp_ids);
            }
        }
    }

    /// The archetype that archetype `a` remembers reaching by adding or removing `c`.
    fn cached_move(&mut self, a: usize, c: EcsId) -> (r: Option<usize>)
        requires
            old(self).wf(),
            a < old(self).archetypes.len(),
        ensures
            final(self).wf(),
            final(self).same_except_caches(*old(self)),
            forall|x: int| 0 <= x < final(self).archetypes.len() ==> (#[trigger] final(self).archetypes@[x]).add_remove_cache@
                == old(self).archetypes@[x].add_remove_cache@,
            r == (if old(self).archetypes@[a as int].add_remove_cache@.contains_key(packed(c) as u64) {
                Some(old(self).archetypes@[a as int].add_remove_cache@[packed(c) as u64])
            } else {
                None::<usize>
            }),
    {
        let ghost w0 = *self;
        let r = self.archetypes[a].try_find_next_archetype(c);
        proof {
            assert forall|x: int| 0 <= x < self.archetypes.len() implies (#[trigger] self.archetypes@[x]).add_remove_cache@
                == w0.archetypes@[x].add_remove_cache@ && self.archetypes@[x].add_remove_cache.wf() by {
                if x != a {
                    assert(self.archetypes@[x] == w0.archetypes@[x]);
                    assert(w0.archetypes@[x].wf());
                }
            }
            assert(self.same_except_caches(w0));
            self.lemma_same_except_caches_wf(w0);
        }
        r
    }

    /// Makes archetype `a` remember that adding or removing `c` leads to archetype `t`.
    fn remember_move(&mut self, a: usize, c: EcsId, t: usize)
        requires
            old(self).wf(),
            a < old(self).archetypes.len(),
            t < old(self).archetypes.len(),
            t != a,
            moves_by(old(self).archetypes@[a as int].comp_ids@, old(self).archetypes@[t as int].comp_ids@, c),
        ensures
            final(self).wf(),
            final(self).same_except_caches(*old(self)),
            final(self).archetypes@[a as int].add_remove_cache@ == old(self).archetypes@[a as int].add_remove_cache@.insert(
                packed(c) as u64,
                t,
            ),
            forall|x: int| 0 <= x < final(self).archetypes.len() && x != a ==> #[trigger] final(self).archetypes@[x]
                == old(self).archetypes@[x],
    {
        let ghost w0 = *self;
        self.archetypes[a].insert_archetype_cache(c, t);
        proof {
            lemma_unpack_packed(c);
            assert forall|x: int| 0 <= x < self.archetypes.len() implies (#[trigger] self.archetypes@[x]).add_remove_cache.wf() by {
                if x != a {
                    assert(self.archetypes@[x] == w0.archetypes@[x]);
                    assert(w0.archetypes@[x].wf());
                }
            }
            assert(self.same_except_caches(w0));
            assert(self.wf_caches()) by {
                assert forall|x: int, k: u64| 0 <= x < self.archetypes.len() && #[trigger] self.archetypes@[x].add_remove_cache@.contains_key(k)
                    implies {
                    let tt = self.archetypes@[x].add_remove_cache@[k] as int;
                    &&& 0 <= tt < self.archetypes.len()
                    &&& tt != x
                    &&& moves_by(self.archetypes@[x].comp_ids@, self.archetypes@[tt].comp_ids@, unpack(k))
                } by {
                    if x != a || k != packed(c) as u64 {
                        assert(w0.archetypes@[x].add_remove_cache@.contains_key(k));
                        let tt = w0.archetypes@[x].add_remove_cache@[k] as int;
                        assert(self.archetypes@[tt].comp_ids == w0.archetypes@[tt].comp_ids);
                    }
                }
            }
            self.lemma_same_except_caches_wf(w0);
        }
    }
}

impl World {
    /// Finds or makes the archetype reached from archetype `a` by adding `c`, remembering the move
    /// in `a`, and the place `j` of `c` among the components there.
    #[verifier::rlimit(30)]
    fn target_with(&mut self, a: usize, c: EcsId) -> (r: (usize, usize))
        requires
            old(self).wf(),
            old(self).can_grow(),
            a < old(self).archetypes.len(),
            old(self).placed(c),
            !old(self).archetypes@[a as int].has(c),
        ensures
            final(self).wf(),
            final(self).can_grow_rows(),
            final(self).reached(*old(self), r.0 as int),
            forall|x: int| #[trigger] final(self).entities_of(x) == old(self).entities_of(x),
            final(self).archetypes.len() >= old(self).archetypes.len(),
            forall|x: int| 0 <= x < old(self).archetypes.len() ==> (#[trigger] final(self).archetypes@[x]).comp_ids == old(self).archetypes@[x].comp_ids,
            final(self).entities == old(self).entities,
            final(self).type_id_to_ecs_id == old(self).type_id_to_ecs_id,
            forall|e: EcsId| #[trigger] final(self).placed(e) == old(self).placed(e),
            forall|e: EcsId| old(self).placed(e) ==> #[trigger] final(self).comp_meta(e) == old(self).comp_meta(e),
            forall|e: EcsId| old(self).placed(e) ==> #[trigger] final(self).arch_of(e) == old(self).arch_of(e),
            forall|e: EcsId| old(self).placed(e) ==> #[trigger] final(self).row_of(e) == old(self).row_of(e),
            forall|e: EcsId| old(self).placed(e) ==> #[trigger] final(self).components(e) == old(self).components(e),
            r.0 < final(self).archetypes.len(),
            r.0 != a,
            r.1 <= old(self).archetypes@[a as int].comp_ids.len(),
            final(self).archetypes@[r.0 as int].comp_ids@ == old(self).archetypes@[a as int].comp_ids@.insert(r.1 as int, c),
    {
        let ghost w0 = *self;
        let ghost s = self.archetypes@[a as int].comp_ids@;
        proof {
            assert(self.archetypes@[a as int].wf());
        }
        let t = match self.cached_move(a, c) {
            Some(t) => {
                proof {
                    lemma_unpack_packed(c);
                    self.lemma_same_except_caches(w0);
                    assert(self.archetypes@[a as int].add_remove_cache@.contains_key(packed(c) as u64));
                    assert(moves_by(s, self.archetypes@[t as int].comp_ids@, c));
                    assert(!(exists|j: int| 0 <= j < s.len() && s[j] == c && self.archetypes@[t as int].comp_ids@ == s.remove(j))) by {
                        if exists|j: int| 0 <= j < s.len() && s[j] == c && self.archetypes@[t as int].comp_ids@ == s.remove(j) {
                            let j = choose|j: int| 0 <= j < s.len() && s[j] == c && self.archetypes@[t as int].comp_ids@ == s.remove(j);
                            assert(w0.archetypes@[a as int].has(c));
                        }
                    }
                }
                proof {
                    assert forall|x: int| #[trigger] self.entities_of(x) == w0.entities_of(x) by {
                        if 0 <= x < self.archetypes.len() {
                            assert(self.archetypes@[x].entities == w0.archetypes@[x].entities);
                        }
                    }
                    assert(self.reached(w0, t as int));
                }
                t
            },
            None => {
                let ghost w1 = *self;
                proof {
                    self.lemma_same_except_caches(w0);
                    assert forall|k: int| 0 <= k < s.len() implies self.alive(#[trigger] s[k]) by {
                        assert(self.archetypes@[a as int].comp_ids@[k] == s[k]);
                    }
                }
                let found = self.find_archetype_dynamic_plus_id(self.archetypes[a].comp_ids.as_slice(), c);
                match found {
                    Some(t) => {
                        proof {
                            let ts = self.archetypes@[t as int].comp_ids@;
                            assert(self.holds_with_len(t as int, s.push(c), s.len() + 1int));
                            assert(t != a);
                            
                            assert forall|k: int| 0 <= k < s.len() implies ts.contains(#[trigger] s[k]) by {
                                assert(s.push(c)[k] == s[k]);
                                assert(self.archetypes@[t as int].has(s.push(c)[k]));
                            }
                            assert(ts.contains(c)) by {
                                assert(s.push(c)[s.len() as int] == c);
                                assert(self.archetypes@[t as int].has(s.push(c)[s.len() as int]));
                            }
                            assert(self.archetypes@[t as int].wf());
                        }
                        let j = sorted_position(&self.archetypes[a].comp_ids, c);
                        proof {
                            lemma_sorted_insert_is(s, self.archetypes@[t as int].comp_ids@, c, j as int);
                        }
                        self.remember_move(a, c, t);
                        proof {
                            let w2 = *self;
                            w2.lemma_same_except_caches(w1);
                            assert(w2.archetypes@[t as int].comp_ids == w1.archetypes@[t as int].comp_ids);
                        }
                        proof {
                            assert forall|x: int| #[trigger] self.entities_of(x) == w0.entities_of(x) by {
                                if 0 <= x < self.archetypes.len() {
                                    assert(self.archetypes@[x].entities == w0.archetypes@[x].entities);
                                }
                            }
                            assert(self.reached(w0, t as int));
                        }
                        t
                    },
                    None => {
                        let layout = self.get_entity_meta(c).unwrap().component_meta.layout;
                        proof {
                            assert(self.ecs_id_meta@[c.index as int].is_some());
                        }
                        let (arch, pos) = Archetype::from_archetype_with(&mut self.archetypes[a], TypeInfo::new(layout), c);
                        proof {
                            assert(self.archetypes@ == w1.archetypes@);
                            assert(self.entities == w1.entities);
                            assert(self.ecs_id_meta == w1.ecs_id_meta);
                            assert(self.archetype_bitset == w1.archetype_bitset);
                            assert(self.entities_bitvec == w1.entities_bitvec);
                            assert(self.wf_archetypes());
                            assert(self.wf_meta());
                            assert(self.wf_components());
                            assert(self.wf_bitsets()) by {
                                assert forall|sl: int, x: int| 0 <= x < self.archetypes.len() implies (#[trigger] self.slot_bit(sl, x) <==> exists|i: int|
                                    0 <= i < self.archetypes@[x].comp_ids.len() && self.archetypes@[x].comp_ids@[i].index == sl) by {
                                    assert(w1.slot_bit(sl, x) == self.slot_bit(sl, x));
                                }
                            }
                            assert(self.wf_caches());
                            assert forall|i: int| 0 <= i < arch.comp_ids.len() implies {
                                let cc = #[trigger] arch.comp_ids@[i];
                                &&& self.placed(cc)
                                &&& self.comp_meta(cc).layout == arch.component_storages@[i].1.type_info().layout
                            } by {
                                assert(arch.types()[i] == arch.component_storages@[i].1.type_info());
                                if i < pos {
                                    assert(arch.comp_ids@[i] == s[i]);
                                    assert(arch.types()[i] == self.archetypes@[a as int].types()[i]);
                                    assert(self.archetypes@[a as int].comp_ids@[i] == s[i]);
                                } else if i > pos {
                                    assert(arch.comp_ids@[i] == s[i - 1]);
                                    assert(arch.types()[i] == self.archetypes@[a as int].types()[i - 1]);
                                    assert(self.archetypes@[a as int].comp_ids@[i - 1] == s[i - 1]);
                                }
                            }
                        }
                        proof {
                            assert forall|x: int| 0 <= x < self.archetypes.len() implies (#[trigger] self.archetypes@[x]).comp_ids@ != arch.comp_ids@ by {
                                if self.archetypes@[x].comp_ids@ == arch.comp_ids@ {
                                    let ins = arch.comp_ids@;
                                    assert forall|k: int| 0 <= k < s.push(c).len() implies self.archetypes@[x].has(#[trigger] s.push(c)[k]) by {
                                        if k < s.len() {
                                            if k < pos { assert(ins[k] == s[k]); } else { assert(ins[k + 1] == s[k]); }
                                        } else {
                                            assert(ins[pos as int] == c);
                                        }
                                    }
                                    assert(w1.holds_with_len(x, s.push(c), s.len() + 1int));
                                }
                            }
                        }
                        let t = self.push_archetype(arch);
                        proof {
                            let w2 = *self;
                            assert(w2.archetypes@[a as int] == w1.archetypes@[a as int]);
                            assert(moves_by(s, w2.archetypes@[t as int].comp_ids@, c));
                        }
                        proof {
                            assert forall|x: int, i: int| 0 <= x < self.archetypes.len() && 0 <= i < self.archetypes@[x].component_storages.len()
                                implies (#[trigger] self.archetypes@[x].component_storages@[i]).1.can_push() by {
                                if x == t {
                                    assert(arch.wf());
                                    self.archetypes@[x].component_storages@[i].1.lemma_empty_can_push();
                                } else {
                                    assert(self.archetypes@[x] == w1.archetypes@[x]);
                                }
                            }
                            assert forall|x: int| 0 <= x < self.archetypes.len() implies (#[trigger] self.archetypes@[x]).entities.len() < usize::MAX by {
                                if x != t {
                                    assert(self.archetypes@[x] == w1.archetypes@[x]);
                                }
                            }
                        }
                        let ghost w2 = *self;
                        self.remember_move(a, c, t);
                        proof {
                            self.lemma_same_except_caches(w2);
                            assert(self.archetypes@[t as int].comp_ids == w2.archetypes@[t as int].comp_ids);
                        }
                        proof {
                            assert forall|x: int| #[trigger] self.entities_of(x) == w0.entities_of(x) by {
                                if 0 <= x < w0.archetypes.len() {
                                    assert(self.archetypes@[x].entities == w2.archetypes@[x].entities);
                                    assert(w2.archetypes@[x] == w1.archetypes@[x]);
                                } else if x == t {
                                    assert(self.archetypes@[x].entities == w2.archetypes@[x].entities);
                                    assert(w2.archetypes@[x] == arch);
                                }
                            }
                            assert forall|x: int| 0 <= x < w0.archetypes.len() implies (#[trigger] w0.archetypes@[x]).comp_ids@ != self.archetypes@[t as int].comp_ids@ by {
                                assert(w1.archetypes@[x].comp_ids == w0.archetypes@[x].comp_ids);
                                assert(self.archetypes@[t as int].comp_ids == arch.comp_ids);
                                assert(w1.archetypes@[x].comp_ids@ != arch.comp_ids@);
                            }
                            assert(self.reached(w0, t as int));
                        }
                        t
                    },
                }
            },
        };
        let j = sorted_position(&self.archetypes[a].comp_ids, c);
        proof {
            let ts = self.archetypes@[t as int].comp_ids@;
            assert(self.archetypes@[a as int].comp_ids@ == s);
            assert(exists|jj: int| 0 <= jj <= s.len() && ts == s.insert(jj, c));
            let jj = choose|jj: int| 0 <= jj <= s.len() && ts == s.insert(jj, c);
            assert forall|k: int| 0 <= k < s.len() implies ts.contains(#[trigger] s[k]) by {
                if k < jj { assert(ts[k] == s[k]); } else { assert(ts[k + 1] == s[k]); }
            }
            assert(ts[jj] == c);
            assert(self.archetypes@[t as int].wf());
            lemma_sorted_insert_is(s, ts, c, j as int);
        }
        (t, j)
    }
}

impl World {
    /// The entities of archetype `x`, none if there is no such archetype.
    pub open spec fn entities_of(&self, x: int) -> Seq<EcsId> {
        if 0 <= x < self.archetypes.len() {
            self.archetypes@[x].entities@
        } else {
            Seq::empty()
        }
    }

    /// The archetypes of `self` are those of `o` with their components, and archetype `t` is one
    /// of them, or one more added at the end because no archetype of `o` had its components.
    pub open spec fn reached(&self, o: World, t: int) -> bool {
        &&& forall|x: int| 0 <= x < o.archetypes.len() ==> (#[trigger] self.archetypes@[x]).comp_ids == o.archetypes@[x].comp_ids
        &&& 0 <= t < self.archetypes.len()
        &&& self.archetypes.len() == if t < o.archetypes.len() { o.archetypes.len() as int } else { o.archetypes.len() + 1 }
        &&& t >= o.archetypes.len() ==> forall|x: int| 0 <= x < o.archetypes.len()
            ==> (#[trigger] o.archetypes@[x]).comp_ids@ != self.archetypes@[t].comp_ids@
    }

    /// `self` is `o` with the built entity `e` moved to a new last row of archetype `t`: the last
    /// entity of its old archetype took its row there, and no other archetype changed its entities.
    pub open spec fn moved_to(&self, o: World, e: EcsId, t: int) -> bool {
        let a = o.arch_of(e);
        &&& t != a
        &&& self.arch_of(e) == t
        &&& self.row_of(e) == o.entities_of(t).len()
        &&& self.entities_of(t) == o.entities_of(t).push(e)
        &&& self.entities_of(a) == swap_removed(o.entities_of(a), o.row_of(e))
        &&& forall|x: int| x != a && x != t ==> #[trigger] self.entities_of(x) == o.entities_of(x)
    }

    /// `self` is the well formed world `o` with the components of the built entity `e` set to
    /// `m`: no entity was spawned, despawned, built or unbuilt, no component metadata and no value
    /// of another entity changed.
    pub open spec fn set_components(&self, o: World, e: EcsId, m: Map<EcsId, Seq<u8>>) -> bool {
        &&& self.wf()
        &&& self.entities == o.entities
        &&& self.type_id_to_ecs_id == o.type_id_to_ecs_id
        &&& forall|x: EcsId| #[trigger] self.placed(x) == o.placed(x)
        &&& forall|x: EcsId| o.placed(x) ==> #[trigger] self.comp_meta(x) == o.comp_meta(x)
        &&& forall|x: EcsId| x != e && o.placed(x) ==> #[trigger] self.components(x) == o.components(x)
        &&& self.components(e) == m
    }
}

/// Adding a component that an entity lacks and then removing it gives every built entity back
/// the components and values it had, and puts the entity back in the archetype it was in.
pub proof fn lemma_add_then_remove(w0: World, w1: World, w2: World, e: EcsId, c: EcsId, v: Seq<u8>)
    requires
        w0.wf(),
        w0.placed(e),
        !w0.components(e).contains_key(c),
        w1.set_components(w0, e, w0.components(e).insert(c, v)),
        w2.set_components(w1, e, w1.components(e).remove(c)),
        w1.reached(w0, w1.arch_of(e)),
        w2.reached(w1, w2.arch_of(e)),
    ensures
        w2.entities == w0.entities,
        forall|x: EcsId| #[trigger] w2.placed(x) == w0.placed(x),
        forall|x: EcsId| w0.placed(x) ==> #[trigger] w2.components(x) == w0.components(x),
        forall|x: EcsId| w0.placed(x) ==> #[trigger] w2.comp_meta(x) == w0.comp_meta(x),
        w2.arch_of(e) == w0.arch_of(e),
{
    assert(w2.components(e) =~= w0.components(e));
    lemma_back_in_place(w0, w1, w2, e);
    assert forall|x: EcsId| w0.placed(x) implies #[trigger] w2.components(x) == w0.components(x) by {
        if x != e {
            assert(w1.placed(x));
        }
    }
    assert forall|x: EcsId| w0.placed(x) implies #[trigger] w2.comp_meta(x) == w0.comp_meta(x) by {
        assert(w1.placed(x));
    }
}

/// An entity that has its components back, after two moves that kept the components of the
/// archetypes there were, is back in its archetype.
proof fn lemma_back_in_place(w0: World, w1: World, w2: World, e: EcsId)
    requires
        w0.wf(),
        w2.wf(),
        w0.placed(e),
        w2.placed(e),
        w2.components(e) == w0.components(e),
        w1.reached(w0, w1.arch_of(e)),
        w2.reached(w1, w2.arch_of(e)),
    ensures
        w2.arch_of(e) == w0.arch_of(e),
{
    let a0 = w0.arch_of(e);
    let t2 = w2.arch_of(e);
    assert(w1.archetypes@[a0].comp_ids == w0.archetypes@[a0].comp_ids);
    assert(w2.archetypes@[a0].comp_ids == w1.archetypes@[a0].comp_ids);
    assert forall|c: EcsId| w2.archetypes@[t2].has(c) <==> w2.archetypes@[a0].has(c) by {
        assert(w2.components(e).contains_key(c) == w2.archetypes@[t2].has(c));
        assert(w0.components(e).contains_key(c) == w0.archetypes@[a0].has(c));
    }
    lemma_one_archetype_per_component_set(w2, t2, a0);
}

/// Removing a component and then adding it back with the value it had gives every built entity
/// back the components and values it had, and puts the entity back in the archetype it was in.
pub proof fn lemma_remove_then_add(w0: World, w1: World, w2: World, e: EcsId, c: EcsId)
    requires
        w0.wf(),
        w0.placed(e),
        w0.components(e).contains_key(c),
        w1.set_components(w0, e, w0.components(e).remove(c)),
        w2.set_components(w1, e, w1.components(e).insert(c, w0.components(e)[c])),
        w1.reached(w0, w1.arch_of(e)),
        w2.reached(w1, w2.arch_of(e)),
    ensures
        w2.entities == w0.entities,
        forall|x: EcsId| #[trigger] w2.placed(x) == w0.placed(x),
        forall|x: EcsId| w0.placed(x) ==> #[trigger] w2.components(x) == w0.components(x),
        forall|x: EcsId| w0.placed(x) ==> #[trigger] w2.comp_meta(x) == w0.comp_meta(x),
        w2.arch_of(e) == w0.arch_of(e),
{
    assert(w2.components(e) =~= w0.components(e));
    lemma_back_in_place(w0, w1, w2, e);
    assert forall|x: EcsId| w0.placed(x) implies #[trigger] w2.components(x) == w0.components(x) by {
        if x != e {
            assert(w1.placed(x));
        }
    }
    assert forall|x: EcsId| w0.placed(x) implies #[trigger] w2.comp_meta(x) == w0.comp_meta(x) by {
        assert(w1.placed(x));
    }
}

impl World {
    /// Adds component `comp_id` to `entity` with the value `component`, moving the entity to the
    /// archetype that has its components and `comp_id`. Nothing happens unless both are alive.
    /// The entity must not have the component yet, and the value must have the size that the
    /// component's metadata gives.
    pub fn add_component_dynamic_with_data(&mut self, entity: EcsId, comp_id: EcsId, component: &[u8])
        requires
            old(self).wf(),
            old(self).can_grow(),
            old(self).entities.contains(entity),
            old(self).entities.contains(comp_id),
            old(self).alive(entity) && old(self).alive(comp_id) ==> {
                &&& old(self).placed(entity)
                &&& old(self).placed(comp_id)
                &&& !old(self).components(entity).contains_key(comp_id)
                &&& component@.len() == old(self).comp_meta(comp_id).layout.spec_size()
            },
        ensures
            final(self).wf(),
            !(old(self).alive(entity) && old(self).alive(comp_id)) ==> *final(self) == *old(self),
            old(self).alive(entity) && old(self).alive(comp_id) ==> final(self).set_components(
                *old(self),
                entity,
                old(self).components(entity).insert(comp_id, component@),
            ),
            old(self).alive(entity) && old(self).alive(comp_id) ==> final(self).reached(*old(self), final(self).arch_of(entity)),
            old(self).alive(entity) && old(self).alive(comp_id) ==> final(self).moved_to(*old(self), entity, final(self).arch_of(entity)),
    {
        if !self.entities.is_handed_out(entity) {
            return;
        }
        if !self.entities.is_handed_out(comp_id) {
            return;
        }
        let m = *self.get_entity_meta(entity).unwrap();
        let a = m.instance_meta.archetype.0;
        let row = m.instance_meta.index;
        let (t, j) = self.target_with(a, comp_id);
        let _ = self.move_entity(entity, a, row, t, j, comp_id, true, component);
    }
}

/// A sorted sequence one shorter than the sorted `s` that holds every element of `s` but `s[j]`
/// is `s` with place `j` taken out.
pub(crate) proof fn lemma_sorted_remove_is(s: Seq<EcsId>, t: Seq<EcsId>, j: int)
    requires
        strictly_sorted(s),
        strictly_sorted(t),
        0 <= j < s.len(),
        t.len() == s.len() - 1,
        forall|x: EcsId| s.contains(x) && x != s[j] ==> #[trigger] t.contains(x),
    ensures
        t == s.remove(j),
{
    let u = s.remove(j);
    assert(strictly_sorted(u)) by {
        assert forall|a: int, b: int| 0 <= a < b < u.len() implies id_lt(#[trigger] u[a], #[trigger] u[b]) by {
            let a0 = if a < j { a } else { a + 1 };
            let b0 = if b < j { b } else { b + 1 };
            assert(u[a] == s[a0] && u[b] == s[b0]);
        }
    }
    assert forall|k: int| 0 <= k < u.len() implies t.contains(#[trigger] u[k]) by {
        let k0 = if k < j { k } else { k + 1 };
        assert(u[k] == s[k0]);
        assert(s.contains(s[k0]));
        if k0 < j { assert(id_lt(s[k0], s[j])); } else { assert(id_lt(s[j], s[k0])); }
    }
    assert(distinct(u)) by {
        assert forall|a: int, b: int| 0 <= a < b < u.len() implies u[a] != u[b] by {
            assert(id_lt(u[a], u[b]));
        }
    }
    assert(distinct(t)) by {
        assert forall|a: int, b: int| 0 <= a < b < t.len() implies t[a] != t[b] by {
            assert(id_lt(t[a], t[b]));
        }
    }
    lemma_same_elements(u, t);
    assert forall|e: EcsId| u.contains(e) <==> t.contains(e) by {
        if u.contains(e) {
            let a = choose|a: int| 0 <= a < u.len() && u[a] == e;
            assert(t.contains(u[a]));
        }
        if t.contains(e) {
            let a = choose|a: int| 0 <= a < t.len() && t[a] == e;
            assert(u.contains(t[a]));
        }
    }
    lemma_sorted_same_elements(u, t);
}

impl Archetype {
    /// The place of component `c` among the components.
    fn comp_position(&self, c: EcsId) -> (j: usize)
        requires
            self.wf(),
            self.has(c),
        ensures
            j < self.comp_ids.len(),
            self.comp_ids@[j as int] == c,
    {
        let key = c.as_u64();
        proof {
            let k = choose|k: int| 0 <= k < self.comp_ids.len() && self.comp_ids@[k] == c;
            assert(self.comp_lookup@.contains_key(packed(self.comp_ids@[k]) as u64));
        }
        let j = *self.comp_lookup.get(&key).unwrap();
        proof {
            let i = choose|i: int| 0 <= i < self.comp_ids.len() && packed(self.comp_ids@[i]) == key;
            crate::entities::lemma_packed_injective(self.comp_ids@[i], c);
        }
        j
    }
}

impl World {
    /// Finds or makes the archetype reached from archetype `a` by taking out `c`, remembering the
    /// move in `a`, and the place `j` of `c` among the components of `a`.
    #[verifier::rlimit(30)]
    fn target_without(&mut self, a: usize, c: EcsId) -> (r: (usize, usize))
        requires
            old(self).wf(),
            old(self).can_grow(),
            a < old(self).archetypes.len(),
            old(self).archetypes@[a as int].has(c),
        ensures
            final(self).wf(),
            final(self).can_grow_rows(),
            final(self).reached(*old(self), r.0 as int),
            forall|x: int| #[trigger] final(self).entities_of(x) == old(self).entities_of(x),
            final(self).archetypes.len() >= old(self).archetypes.len(),
            forall|x: int| 0 <= x < old(self).archetypes.len() ==> (#[trigger] final(self).archetypes@[x]).comp_ids == old(self).archetypes@[x].comp_ids,
            final(self).entities == old(self).entities,
            final(self).type_id_to_ecs_id == old(self).type_id_to_ecs_id,
            forall|e: EcsId| #[trigger] final(self).placed(e) == old(self).placed(e),
            forall|e: EcsId| old(self).placed(e) ==> #[trigger] final(self).comp_meta(e) == old(self).comp_meta(e),
            forall|e: EcsId| old(self).placed(e) ==> #[trigger] final(self).arch_of(e) == old(self).arch_of(e),
            forall|e: EcsId| old(self).placed(e) ==> #[trigger] final(self).row_of(e) == old(self).row_of(e),
            forall|e: EcsId| old(self).placed(e) ==> #[trigger] final(self).components(e) == old(self).components(e),
            r.0 < final(self).archetypes.len(),
            r.0 != a,
            r.1 < old(self).archetypes@[a as int].comp_ids.len(),
            old(self).archetypes@[a as int].comp_ids@[r.1 as int] == c,
            final(self).archetypes@[r.0 as int].comp_ids@ == old(self).archetypes@[a as int].comp_ids@.remove(r.1 as int),
    {
        let ghost w0 = *self;
        let ghost s = self.archetypes@[a as int].comp_ids@;
        proof {
            assert(self.archetypes@[a as int].wf());
        }
        let t = match self.cached_move(a, c) {
            Some(t) => {
                proof {
                    lemma_unpack_packed(c);
                    self.lemma_same_except_caches(w0);
                    assert(self.archetypes@[a as int].add_remove_cache@.contains_key(packed(c) as u64));
                    let ts = self.archetypes@[t as int].comp_ids@;
                    assert(moves_by(s, ts, c));
                    assert(!(exists|j: int| 0 <= j <= s.len() && ts == s.insert(j, c))) by {
                        if exists|j: int| 0 <= j <= s.len() && ts == s.insert(j, c) {
                            let j = choose|j: int| 0 <= j <= s.len() && ts == s.insert(j, c);
                            let k = choose|k: int| 0 <= k < s.len() && s[k] == c;
                            assert(self.archetypes@[t as int].wf());
                            assert(ts[j] == c);
                            if k < j {
                                assert(ts[k] == c);
                                assert(id_lt(ts[k], ts[j]));
                            } else {
                                assert(ts[k + 1] == c);
                                assert(id_lt(ts[j], ts[k + 1]));
                            }
                        }
                    }
                }
                proof {
                    assert forall|x: int| #[trigger] self.entities_of(x) == w0.entities_of(x) by {
                        if 0 <= x < self.archetypes.len() {
                            assert(self.archetypes@[x].entities == w0.archetypes@[x].entities);
                        }
                    }
                    assert(self.reached(w0, t as int));
                }
                t
            },
            None => {
                let ghost w1 = *self;
                proof {
                    self.lemma_same_except_caches(w0);
                    assert forall|k: int| 0 <= k < s.len() implies self.alive(#[trigger] s[k]) by {
                        assert(self.archetypes@[a as int].comp_ids@[k] == s[k]);
                    }
                    assert(self.archetypes@[a as int].comp_ids@ == s);
                    assert forall|i: int, j: int| 0 <= i < j < s.len() implies s[i] != s[j] by {
                        assert(id_lt(s[i], s[j]));
                    }
                }
                let found = self.find_archetype_dynamic_minus_id(self.archetypes[a].comp_ids.as_slice(), c);
                match found {
                    Some(t) => {
                        let j = self.archetypes[a].comp_position(c);
                        proof {
                            let ts = self.archetypes@[t as int].comp_ids@;
                            let sr = s.remove(j as int);
                            assert(self.fits_without(t as int, s, c));
                            assert(self.archetypes@[t as int].wf());
                            assert(distinct(ts)) by {
                                assert forall|i: int, k: int| 0 <= i < k < ts.len() implies ts[i] != ts[k] by {
                                    assert(id_lt(ts[i], ts[k]));
                                }
                            }
                            assert(distinct(sr));
                            assert forall|k: int| 0 <= k < ts.len() implies sr.contains(#[trigger] ts[k]) by {
                                let d = ts[k];
                                assert(d != c && s.contains(d));
                                let i = choose|i: int| 0 <= i < s.len() && s[i] == d;
                                assert(i != j);
                                if i < j { assert(sr[i] == d); } else { assert(sr[i - 1] == d); }
                            }
                            lemma_same_elements(ts, sr);
                            assert forall|x: EcsId| s.contains(x) && x != s[j as int] implies #[trigger] ts.contains(x) by {
                                let i = choose|i: int| 0 <= i < s.len() && s[i] == x;
                                assert(i != j);
                                let q = if i < j { i } else { i - 1 };
                                assert(sr[q] == x);
                                assert(ts.contains(sr[q]));
                            }
                            lemma_sorted_remove_is(s, ts, j as int);
                            assert(t != a);
                        }
                        self.remember_move(a, c, t);
                        proof {
                            let w2 = *self;
                            w2.lemma_same_except_caches(w1);
                            assert(w2.archetypes@[t as int].comp_ids == w1.archetypes@[t as int].comp_ids);
                        }
                        proof {
                            assert forall|x: int| #[trigger] self.entities_of(x) == w0.entities_of(x) by {
                                if 0 <= x < self.archetypes.len() {
                                    assert(self.archetypes@[x].entities == w0.archetypes@[x].entities);
                                }
                            }
                            assert(self.reached(w0, t as int));
                        }
                        t
                    },
                    None => {
                        let (arch, pos) = Archetype::from_archetype_without(&mut self.archetypes[a], c);
                        proof {
                            assert(self.archetypes@ == w1.archetypes@);
                            assert(self.wf_archetypes());
                            assert(self.wf_meta());
                            assert(self.wf_components());
                            assert(self.wf_bitsets()) by {
                                assert forall|sl: int, x: int| 0 <= x < self.archetypes.len() implies (#[trigger] self.slot_bit(sl, x) <==> exists|i: int|
                                    0 <= i < self.archetypes@[x].comp_ids.len() && self.archetypes@[x].comp_ids@[i].index == sl) by {
                                    assert(w1.slot_bit(sl, x) == self.slot_bit(sl, x));
                                }
                            }
                            assert(self.wf_caches());
                            assert forall|i: int| 0 <= i < arch.comp_ids.len() implies {
                                let cc = #[trigger] arch.comp_ids@[i];
                                &&& self.placed(cc)
                                &&& self.comp_meta(cc).layout == arch.component_storages@[i].1.type_info().layout
                            } by {
                                assert(arch.types()[i] == arch.component_storages@[i].1.type_info());
                                let i0 = if i < pos { i } else { i + 1 };
                                assert(arch.comp_ids@[i] == s[i0]);
                                assert(arch.types()[i] == self.archetypes@[a as int].types()[i0]);
                                assert(self.archetypes@[a as int].comp_ids@[i0] == s[i0]);
                            }
                        }
                        proof {
                            assert forall|x: int| 0 <= x < self.archetypes.len() implies (#[trigger] self.archetypes@[x]).comp_ids@ != arch.comp_ids@ by {
                                if self.archetypes@[x].comp_ids@ == arch.comp_ids@ {
                                    let sr = arch.comp_ids@;
                                    assert forall|i: int| 0 <= i < sr.len() implies #[trigger] sr[i] != c && s.contains(sr[i]) by {
                                        let i0 = if i < pos { i } else { i + 1 };
                                        assert(sr[i] == s[i0]);
                                        assert(i0 != pos);
                                    }
                                    assert(w1.fits_without(x, s, c));
                                }
                            }
                        }
                        let t = self.push_archetype(arch);
                        proof {
                            let w2 = *self;
                            assert(w2.archetypes@[a as int] == w1.archetypes@[a as int]);
                            assert(moves_by(s, w2.archetypes@[t as int].comp_ids@, c));
                            assert forall|x: int, i: int| 0 <= x < self.archetypes.len() && 0 <= i < self.archetypes@[x].component_storages.len()
                                implies (#[trigger] self.archetypes@[x].component_storages@[i]).1.can_push() by {
                                if x == t {
                                    assert(arch.wf());
                                    self.archetypes@[x].component_storages@[i].1.lemma_empty_can_push();
                                } else {
                                    assert(self.archetypes@[x] == w1.archetypes@[x]);
                                }
                            }
                            assert forall|x: int| 0 <= x < self.archetypes.len() implies (#[trigger] self.archetypes@[x]).entities.len() < usize::MAX by {
                                if x != t {
                                    assert(self.archetypes@[x] == w1.archetypes@[x]);
                                }
                            }
                        }
                        let ghost w2 = *self;
                        self.remember_move(a, c, t);
                        proof {
                            self.lemma_same_except_caches(w2);
                            assert(self.archetypes@[t as int].comp_ids == w2.archetypes@[t as int].comp_ids);
                        }
                        proof {
                            assert forall|x: int| #[trigger] self.entities_of(x) == w0.entities_of(x) by {
                                if 0 <= x < w0.archetypes.len() {
                                    assert(self.archetypes@[x].entities == w2.archetypes@[x].entities);
                                    assert(w2.archetypes@[x] == w1.archetypes@[x]);
                                } else if x == t {
                                    assert(self.archetypes@[x].entities == w2.archetypes@[x].entities);
                                    assert(w2.archetypes@[x] == arch);
                                }
                            }
                            assert forall|x: int| 0 <= x < w0.archetypes.len() implies (#[trigger] w0.archetypes@[x]).comp_ids@ != self.archetypes@[t as int].comp_ids@ by {
                                assert(w1.archetypes@[x].comp_ids == w0.archetypes@[x].comp_ids);
                                assert(self.archetypes@[t as int].comp_ids == arch.comp_ids);
                                assert(w1.archetypes@[x].comp_ids@ != arch.comp_ids@);
                            }
                            assert(self.reached(w0, t as int));
                        }
                        t
                    },
                }
            },
        };
        let j = self.archetypes[a].comp_position(c);
        proof {
            let ts = self.archetypes@[t as int].comp_ids@;
            assert(self.archetypes@[a as int].comp_ids@ == s);
            assert(exists|jj: int| 0 <= jj < s.len() && s[jj] == c && ts == s.remove(jj));
            let jj = choose|jj: int| 0 <= jj < s.len() && s[jj] == c && ts == s.remove(jj);
            assert(jj == j) by {
                if jj < j { assert(id_lt(s[jj], s[j as int])); }
                if jj > j { assert(id_lt(s[j as int], s[jj])); }
            }
        }
        (t, j)
    }

    /// Takes component `comp_id` away from `entity`, moving the entity to the archetype that has
    /// its other components. Nothing happens unless both are alive. The entity must have the
    /// component.
    pub fn remove_component_dynamic(&mut self, entity: EcsId, comp_id: EcsId) -> (r: Option<Vec<u8>>)
        requires
            old(self).wf(),
            old(self).can_grow(),
            old(self).entities.contains(entity),
            old(self).entities.contains(comp_id),
            old(self).alive(entity) && old(self).alive(comp_id) ==> {
                &&& old(self).placed(entity)
                &&& old(self).components(entity).contains_key(comp_id)
            },
        ensures
            final(self).wf(),
            !(old(self).alive(entity) && old(self).alive(comp_id)) ==> *final(self) == *old(self),
            old(self).alive(entity) && old(self).alive(comp_id) ==> final(self).set_components(
                *old(self),
                entity,
                old(self).components(entity).remove(comp_id),
            ),
            old(self).alive(entity) && old(self).alive(comp_id) ==> final(self).reached(*old(self), final(self).arch_of(entity)),
            old(self).alive(entity) && old(self).alive(comp_id) ==> final(self).moved_to(*old(self), entity, final(self).arch_of(entity)),
            !(old(self).alive(entity) && old(self).alive(comp_id)) ==> r is None,
            old(self).alive(entity) && old(self).alive(comp_id) ==> (r matches Some(v) && v@ == old(self).components(entity)[comp_id]),
    {
        if !self.entities.is_handed_out(entity) {
            return None;
        }
        if !self.entities.is_handed_out(comp_id) {
            return None;
        }
        let m = *self.get_entity_meta(entity).unwrap();
        let a = m.instance_meta.archetype.0;
        let row = m.instance_meta.index;
        let (t, j) = self.target_without(a, comp_id);
        let removed = self.move_entity(entity, a, row, t, j, comp_id, false, &[]);
        Some(removed)
    }
}

impl World {
    /// `r` lists, in increasing order, exactly the archetypes that hold every identifier of `ids`.
    pub open spec fn lists_holding(&self, r: Seq<usize>, ids: Seq<EcsId>) -> bool {
        &&& forall|i: int, j: int| 0 <= i < j < r.len() ==> r[i] < r[j]
        &&& forall|i: int| 0 <= i < r.len() ==> (#[trigger] r[i]) < self.archetypes.len() && self.holds_all(r[i] as int, ids)
        &&& forall|a: int| 0 <= a < self.archetypes.len() && #[trigger] self.holds_all(a, ids) ==> r.contains(a as usize)
    }

    /// Reading the bitvec of the archetypes alone reports every archetype.
    proof fn lemma_member_all(&self, srcs: Seq<BitSource>, p: int)
        requires
            self.wf(),
            srcs.len() == 1,
            srcs[0].words@ == self.entities_bitvec.data@,
            !srcs[0].invert,
        ensures
            member(srcs, self.entities_bitvec.len as int, p) <==> 0 <= p < self.archetypes.len(),
    {
        assert(self.entities_bitvec@.len() == self.archetypes.len());
        if 0 <= p < self.archetypes.len() {
            assert(self.entities_bitvec@[p] == seq_bit(self.entities_bitvec.data@, p));
            assert(self.entities_bitvec@[p]);
        }
        if 0 <= p < self.entities_bitvec.len {
            crate::bitset_iterator::lemma_combined_bit(srcs, 1, p / 64, p % 64);
        }
    }

    /// The archetypes that hold every identifier of `ids`, in increasing order, found through the
    /// bitvecs of the identifiers; every archetype when `ids` is empty.
    pub fn query_archetypes(&self, ids: &[EcsId]) -> (r: Vec<usize>)
        requires
            self.wf(),
        ensures
            self.lists_holding(r@, ids@),
    {
        if !self.all_alive(ids) {
            let none: Vec<usize> = Vec::new();
            return none;
        }
        let (iters, bit_length) = if ids.len() == 0 {
            proof {
                assert(self.entities_bitvec@.len() == self.archetypes.len());
                assert(self.entities_bitvec.data@.len() == (self.entities_bitvec.len + 63) / 64);
                assert(64 * self.entities_bitvec.data@.len() <= self.entities_bitvec.len + 63);
            }
            let mut all: Vec<BitSource> = Vec::new();
            all.push(BitSource { words: self.entities_bitvec.data.as_slice(), invert: false });
            proof {
                assert(all@[0].words@ == self.entities_bitvec.data@);
            }
            (all, self.entities_bitvec.len as u32)
        } else {
            match self.bit_sources(ids) {
                None => {
                    let none: Vec<usize> = Vec::new();
                    return none;
                },
                Some(x) => x,
            }
        };
        let ghost srcs = iters@;
        let ghost bl = bit_length as int;
        proof {
            assert forall|p: int| #![trigger member(srcs, bl, p)] member(srcs, bl, p) <==> (0 <= p < self.archetypes.len() && self.holds_all(p, ids@)) by {
                if ids.len() == 0 {
                    self.lemma_member_all(srcs, p);
                } else {
                    self.lemma_member_iff_holds(ids@, srcs, bl, p);
                }
            }
        }
        let mut it = BitsetIterator::new(iters, bit_length);
        let mut found: Vec<usize> = Vec::new();
        loop
            invariant
                it.wf(),
                it.iters@ == srcs,
                it.bit_length == bl,
                forall|p: int| #![trigger member(srcs, bl, p)] member(srcs, bl, p) <==> (0 <= p < self.archetypes.len() && self.holds_all(p, ids@)),
                forall|q: int| #[trigger] it.remaining().contains(q) ==> 0 <= q && member(srcs, bl, q),
                forall|q: int| 0 <= q && member(srcs, bl, q) ==> it.remaining().contains(q) || found@.contains(q as usize),
                forall|i: int, j: int| 0 <= i < j < found.len() ==> found@[i] < found@[j],
                forall|i: int| 0 <= i < found.len() ==> member(srcs, bl, #[trigger] found@[i] as int),
                forall|i: int, q: int| 0 <= i < found.len() && #[trigger] it.remaining().contains(q) ==> #[trigger] found@[i] < q,
            decreases bl - it.index,
        {
            let ghost before = it.remaining();
            match it.next() {
                None => {
                    proof {
                        assert forall|i: int| 0 <= i < found.len() implies (#[trigger] found@[i]) < self.archetypes.len()
                            && self.holds_all(found@[i] as int, ids@) by {
                            assert(member(srcs, bl, found@[i] as int));
                        }
                        assert forall|a: int| 0 <= a < self.archetypes.len() && #[trigger] self.holds_all(a, ids@) implies found@.contains(a as usize) by {
                            assert(member(srcs, bl, a));
                        }
                    }
                    return found;
                },
                Some(idx) => {
                    let ghost old_found = found@;
                    found.push(idx);
                    proof {
                        assert forall|q: int| 0 <= q && member(srcs, bl, q) implies it.remaining().contains(q) || found@.contains(q as usize) by {
                            if q == idx {
                                assert(found@[found.len() - 1] == idx);
                            } else if !it.remaining().contains(q) {
                                assert(!before.contains(q) || q == idx);
                                assert(old_found.contains(q as usize));
                                let k = choose|k: int| 0 <= k < old_found.len() && old_found[k] == q as usize;
                                assert(found@[k] == q as usize);
                            }
                        }
                        assert forall|i: int| 0 <= i < found.len() implies member(srcs, bl, #[trigger] found@[i] as int) by {
                            if i < old_found.len() {
                                assert(found@[i] == old_found[i]);
                            }
                        }
                        assert forall|i: int, j: int| 0 <= i < j < found.len() implies found@[i] < found@[j] by {
                            if j == found.len() - 1 && i < old_found.len() {
                                assert(found@[i] == old_found[i]);
                                assert(before.contains(idx as int));
                            }
                        }
                        assert forall|i: int, q: int| 0 <= i < found.len() && #[trigger] it.remaining().contains(q) implies #[trigger] found@[i] < q by {
                            assert(before.contains(q));
                            if i < old_found.len() {
                                assert(found@[i] == old_found[i]);
                            }
                        }
                    }
                },
            }
        }
    }
}

impl World {
    /// A world that differs from a well formed one only in its table of component types is well
    /// formed and holds the same entities with the same values.
    proof fn lemma_same_but_type_table(&self, o: World)
        requires
            o.wf(),
            self.archetypes == o.archetypes,
            self.archetype_bitset == o.archetype_bitset,
            self.entities_bitvec == o.entities_bitvec,
            self.entities == o.entities,
            self.ecs_id_meta == o.ecs_id_meta,
        ensures
            self.wf(),
            forall|e: EcsId| #[trigger] self.alive(e) == o.alive(e),
            forall|e: EcsId| #[trigger] self.placed(e) == o.placed(e),
            forall|e: EcsId| #[trigger] self.components(e) == o.components(e),
            forall|e: EcsId| #[trigger] self.comp_meta(e) == o.comp_meta(e),
    {
        assert(self.wf_bitsets()) by {
            assert forall|sl: int, x: int| 0 <= x < self.archetypes.len() implies (#[trigger] self.slot_bit(sl, x) <==> exists|i: int|
                0 <= i < self.archetypes@[x].comp_ids.len() && self.archetypes@[x].comp_ids@[i].index == sl) by {
                assert(o.slot_bit(sl, x) == self.slot_bit(sl, x));
            }
        }
    }

    /// The component identifier recorded under `key`, or else a new entity, built with no
    /// components and with `meta` as its component metadata, which is then recorded under `key`.
    pub fn get_or_create_for_key(&mut self, key: u64, meta: ComponentMeta) -> (r: EcsId)
        requires
            old(self).wf(),
            old(self).can_grow(),
            old(self).can_spawn(),
            meta.layout.wf(),
            meta.is_unit ==> meta.layout.spec_size() == 0,
        ensures
            final(self).wf(),
            old(self).type_id_to_ecs_id@.contains_key(key) ==> {
                &&& r == old(self).type_id_to_ecs_id@[key]
                &&& *final(self) == *old(self)
            },
            !old(self).type_id_to_ecs_id@.contains_key(key) ==> {
                &&& final(self).type_id_to_ecs_id@ == old(self).type_id_to_ecs_id@.insert(key, r)
                &&& r == old(self).entities.next_id()
                &&& !old(self).alive(r)
                &&& final(self).placed(r)
                &&& final(self).components(r) == Map::<EcsId, Seq<u8>>::empty()
                &&& final(self).comp_meta(r) == meta
                &&& forall|x: EcsId| x != r ==> #[trigger] final(self).alive(x) == old(self).alive(x)
                &&& forall|x: EcsId| x != r ==> #[trigger] final(self).placed(x) == old(self).placed(x)
                &&& forall|x: EcsId| old(self).placed(x) ==> #[trigger] final(self).components(x) == old(self).components(x)
                &&& forall|x: EcsId| old(self).placed(x) ==> #[trigger] final(self).comp_meta(x) == old(self).comp_meta(x)
            },
    {
        match self.type_id_to_ecs_id.get(&key) {
            Some(id) => {
                return *id;
            },
            None => {},
        }
        let ghost w0 = *self;
        let builder = self.spawn_with_component_meta(meta);
        let ghost wm = *builder.world;
        let entity = builder.build();
        proof {
            assert(self.components(entity) =~= Map::<EcsId, Seq<u8>>::empty());
        }
        let ghost w1 = *self;
        self.type_id_to_ecs_id.insert(key, entity);
        proof {
            self.lemma_same_but_type_table(w1);
            assert(!w0.type_id_to_ecs_id@.contains_key(key));
            assert forall|x: EcsId| x != entity implies #[trigger] self.alive(x) == w0.alive(x) by {
                assert(w1.alive(x) == wm.alive(x));
            }
        }
        entity
    }

    /// The component identifier of the Rust type `T`: `get_or_create_for_key` with the key of `T`,
    /// `type_key::<T>()`, and the layout of `T` as the metadata of a new identifier.
    pub fn get_or_create_type_id_ecsid<T: Component>(&mut self) -> (r: EcsId)
        requires
            old(self).wf(),
            old(self).can_grow(),
            old(self).can_spawn(),
        ensures
            final(self).wf(),
            ({
            ||| {
                &&& exists|k: u64| #[trigger] old(self).type_id_to_ecs_id@.contains_key(k) && old(self).type_id_to_ecs_id@[k] == r
                &&& *final(self) == *old(self)
            }
            ||| {
                &&& exists|k: u64| !#[trigger] old(self).type_id_to_ecs_id@.contains_key(k)
                    && final(self).type_id_to_ecs_id@ == old(self).type_id_to_ecs_id@.insert(k, r)
                &&& r == old(self).entities.next_id()
                &&& !old(self).alive(r)
                &&& final(self).placed(r)
                &&& final(self).components(r) == Map::<EcsId, Seq<u8>>::empty()
                &&& final(self).comp_meta(r).layout.spec_size() == vstd::layout::size_of::<T>()
                &&& final(self).comp_meta(r).layout.spec_align() == vstd::layout::align_of::<T>()
                &&& forall|x: EcsId| x != r ==> #[trigger] final(self).alive(x) == old(self).alive(x)
                &&& forall|x: EcsId| x != r ==> #[trigger] final(self).placed(x) == old(self).placed(x)
                &&& forall|x: EcsId| old(self).placed(x) ==> #[trigger] final(self).components(x) == old(self).components(x)
                &&& forall|x: EcsId| old(self).placed(x) ==> #[trigger] final(self).comp_meta(x) == old(self).comp_meta(x)
            }
            }),
    {
        let key = type_key::<T>();
        let meta = ComponentMeta::from_generic::<T>();
        self.get_or_create_for_key(key, meta)
    }
}

/// A finite set of keys with no more elements than a `usize` counts leaves some key out.
proof fn lemma_key_outside(dom: Set<u64>)
    requires
        dom.finite(),
        dom.len() <= usize::MAX,
    ensures
        exists|k: u64| !dom.contains(k),
{
    if forall|k: u64| dom.contains(k) {
        let r = Set::<u64>::range(0, u64::MAX);
        <u64 as vstd::set_lib::FiniteRange>::range_properties(0, u64::MAX);
        assert(!r.contains(u64::MAX));
        let r2 = r.insert(u64::MAX);
        assert(r2.len() == r.len() + 1);
        assert(r2.subset_of(dom));
        vstd::set_lib::lemma_len_subset(r2, dom);
    }
}

impl World {
    /// `self` is `o` with the value of component `c` of the built entity `e` replaced by `v`, in
    /// its storage, and nothing else changed.
    pub open spec fn value_replaced(&self, o: World, e: EcsId, c: EcsId, v: Seq<u8>) -> bool {
        let a = o.arch_of(e);
        let idx = o.archetypes@[a].comp_ids@.index_of(c);
        let arch0 = o.archetypes@[a];
        let arch1 = self.archetypes@[a];
        let st0 = arch0.component_storages@[idx];
        let st1 = arch1.component_storages@[idx];
        &&& self.archetypes.len() == o.archetypes.len()
        &&& forall|x: int| 0 <= x < self.archetypes.len() && x != a ==> #[trigger] self.archetypes@[x] == o.archetypes@[x]
        &&& arch1.comp_ids == arch0.comp_ids
        &&& arch1.entities == arch0.entities
        &&& arch1.comp_lookup == arch0.comp_lookup
        &&& arch1.add_remove_cache == arch0.add_remove_cache
        &&& arch1.component_storages.len() == arch0.component_storages.len()
        &&& forall|i: int| 0 <= i < arch1.component_storages.len() && i != idx ==> #[trigger] arch1.component_storages@[i]
            == arch0.component_storages@[i]
        &&& st1.0 == st0.0
        &&& st1.1.type_info() == st0.1.type_info()
        &&& st1.1@ == st0.1@.update(o.row_of(e), v)
        &&& v.len() == st0.1@[o.row_of(e)].len() ==> st1.1.wf()
        &&& self.entities == o.entities
        &&& self.ecs_id_meta == o.ecs_id_meta
        &&& self.archetype_bitset == o.archetype_bitset
        &&& self.entities_bitvec == o.entities_bitvec
        &&& self.type_id_to_ecs_id == o.type_id_to_ecs_id
    }

    /// Writing a value of the right length into a component of a built entity leaves the world well
    /// formed, gives the entity that value for that component, and changes no other value.
    #[verifier::spinoff_prover]
    pub proof fn lemma_value_replaced(&self, o: World, e: EcsId, c: EcsId, v: Seq<u8>)
        requires
            o.wf(),
            o.placed(e),
            o.components(e).contains_key(c),
            self.value_replaced(o, e, c, v),
            v.len() == o.components(e)[c].len(),
        ensures
            self.wf(),
            self.components(e) == o.components(e).insert(c, v),
            forall|x: EcsId| #[trigger] self.placed(x) == o.placed(x),
            forall|x: EcsId| x != e && o.placed(x) ==> #[trigger] self.components(x) == o.components(x),
            forall|x: EcsId| o.placed(x) ==> #[trigger] self.comp_meta(x) == o.comp_meta(x),
    {
        let w = *self;
        let w0 = o;
        let a = o.arch_of(e);
        let row = o.row_of(e);
        let arch0 = o.archetypes@[a];
        let arch1 = self.archetypes@[a];
        let idx = arch0.comp_ids@.index_of(c);
        assert(arch0.wf());
        assert(0 <= idx < arch0.comp_ids.len() && arch0.comp_ids@[idx] == c);
        assert(arch0.component_storages@[idx].1@.len() == arch0.entities.len());
        assert(arch1.wf()) by {
            assert forall|i: int| 0 <= i < arch1.comp_ids.len() implies {
                &&& (#[trigger] arch1.component_storages@[i]).0 == arch1.comp_ids@[i]
                &&& arch1.component_storages@[i].1.wf()
                &&& arch1.component_storages@[i].1@.len() == arch1.entities.len()
            } by {
                if i != idx {
                    assert(arch1.component_storages@[i] == arch0.component_storages@[i]);
                }
            }
        }
        assert(arch1.types() =~= arch0.types()) by {
            assert forall|i: int| 0 <= i < arch1.component_storages.len() implies arch1.component_storages@[i].1.type_info()
                == arch0.component_storages@[i].1.type_info() by {
                if i != idx {
                    assert(arch1.component_storages@[i] == arch0.component_storages@[i]);
                }
            }
        }
        assert forall|x: int| 0 <= x < w.archetypes.len() implies (#[trigger] w.archetypes@[x]).comp_ids == w0.archetypes@[x].comp_ids
            && w.archetypes@[x].entities == w0.archetypes@[x].entities by {}
        assert(w.wf_archetypes()) by {
            assert forall|x: int| 0 <= x < w.archetypes.len() implies (#[trigger] w.archetypes@[x]).wf() by {}
        }
        assert forall|x: EcsId| #[trigger] w.placed(x) == w0.placed(x) by {}
        assert(w.wf_meta()) by {
            assert forall|i: int| 0 <= i < w.ecs_id_meta.len() && (#[trigger] w.ecs_id_meta@[i]).is_some() implies {
                let mm = w.ecs_id_meta@[i].unwrap().instance_meta;
                &&& mm.archetype.0 < w.archetypes.len()
                &&& mm.index < w.archetypes@[mm.archetype.0 as int].entities.len()
                &&& w.archetypes@[mm.archetype.0 as int].entities@[mm.index as int].index == i
            } by {
                let mm = w0.ecs_id_meta@[i].unwrap().instance_meta;
                assert(w.archetypes@[mm.archetype.0 as int].entities == w0.archetypes@[mm.archetype.0 as int].entities);
            }
            assert forall|x: int, rr: int| 0 <= x < w.archetypes.len() && 0 <= rr < w.archetypes@[x].entities.len()
                implies {
                let y = #[trigger] w.archetypes@[x].entities@[rr];
                &&& w.placed(y)
                &&& w.arch_of(y) == x
                &&& w.row_of(y) == rr
            } by {
                assert(w.archetypes@[x].entities == w0.archetypes@[x].entities);
                assert(w0.placed(w0.archetypes@[x].entities@[rr]));
            }
        }
        assert(w.wf_components()) by {
            assert forall|x: int, i: int| 0 <= x < w.archetypes.len() && 0 <= i < w.archetypes@[x].comp_ids.len()
                implies {
                let cc = #[trigger] w.archetypes@[x].comp_ids@[i];
                &&& w.placed(cc)
                &&& w.comp_meta(cc).layout == w.archetypes@[x].component_storages@[i].1.type_info().layout
            } by {
                assert(w0.placed(w0.archetypes@[x].comp_ids@[i]));
                assert(w.archetypes@[x].types()[i] == w0.archetypes@[x].types()[i]);
            }
        }
        assert(w.wf_bitsets()) by {
            assert forall|sl: int, x: int| 0 <= x < w.archetypes.len() implies (#[trigger] w.slot_bit(sl, x) <==> exists|i: int|
                0 <= i < w.archetypes@[x].comp_ids.len() && w.archetypes@[x].comp_ids@[i].index == sl) by {
                assert(w.archetypes@[x].comp_ids == w0.archetypes@[x].comp_ids);
                assert(w0.slot_bit(sl, x) == w.slot_bit(sl, x));
            }
        }
        assert(w.wf_caches()) by {
            assert forall|x: int, k: u64| 0 <= x < w.archetypes.len() && #[trigger] w.archetypes@[x].add_remove_cache@.contains_key(k)
                implies {
                let t = w.archetypes@[x].add_remove_cache@[k] as int;
                &&& 0 <= t < w.archetypes.len()
                &&& t != x
                &&& moves_by(w.archetypes@[x].comp_ids@, w.archetypes@[t].comp_ids@, unpack(k))
            } by {
                assert(w.archetypes@[x].add_remove_cache == w0.archetypes@[x].add_remove_cache);
                let t = w0.archetypes@[x].add_remove_cache@[k] as int;
                assert(w.archetypes@[t].comp_ids == w0.archetypes@[t].comp_ids);
            }
        }
        assert(w.components(e) =~= w0.components(e).insert(c, v)) by {
            assert forall|cc: EcsId| arch1.has(cc) implies #[trigger] arch1.value(arch1.comp_ids@.index_of(cc), row)
                == w0.components(e).insert(c, v)[cc] by {
                let k = arch1.comp_ids@.index_of(cc);
                if cc != c {
                    assert(k != idx);
                    assert(arch1.component_storages@[k] == arch0.component_storages@[k]);
                }
            }
        }
        assert forall|x: EcsId| x != e && w0.placed(x) implies #[trigger] w.components(x) == w0.components(x) by {
            let xa = w0.arch_of(x);
            let rr = w0.row_of(x);
            if xa == a {
                assert(rr != row) by {
                    if rr == row {
                        assert(arch0.entities@[rr].index == x.index);
                        w0.lemma_alive_unique(x, e);
                    }
                }
                assert(w.components(x) =~= w0.components(x)) by {
                    assert forall|cc: EcsId| arch1.has(cc) implies #[trigger] arch1.value(arch1.comp_ids@.index_of(cc), rr)
                        == arch0.value(arch0.comp_ids@.index_of(cc), rr) by {
                        let k = arch1.comp_ids@.index_of(cc);
                        if k != idx {
                            assert(arch1.component_storages@[k] == arch0.component_storages@[k]);
                        }
                    }
                }
            }
        }
    }

    /// The bytes of component `comp_id` of `entity`, to be read or written in place; `None` when
    /// either is not alive or the entity has not been built. A built entity must have the
    /// component. Only that value changes; given back with its length kept, the world is well
    /// formed again (see `lemma_value_replaced`).
    pub fn get_component_mut_dynamic(&mut self, entity: EcsId, comp_id: EcsId) -> (r: Option<&mut [u8]>)
        requires
            old(self).wf(),
            old(self).entities.contains(entity),
            old(self).entities.contains(comp_id),
            old(self).alive(comp_id) && old(self).placed(entity) ==> old(self).components(entity).contains_key(comp_id),
        ensures
            r is Some <==> old(self).alive(comp_id) && old(self).placed(entity),
            r is None ==> *final(self) == *old(self),
            r matches Some(b) ==> {
                &&& b@ == old(self).components(entity)[comp_id]
                &&& final(self).value_replaced(*old(self), entity, comp_id, final(b)@)
            },
    {
        if !self.entities.is_handed_out(entity) {
            return None;
        }
        if !self.entities.is_handed_out(comp_id) {
            return None;
        }
        let m = match self.get_entity_meta(entity) {
            None => {
                return None;
            },
            Some(m) => *m,
        };
        let a = m.instance_meta.archetype.0;
        let row = m.instance_meta.index;
        let ghost arch0 = self.archetypes@[a as int];
        proof {
            assert(arch0.wf());
            let i = choose|i: int| 0 <= i < arch0.comp_ids.len() && arch0.comp_ids@[i] == comp_id;
            assert(arch0.comp_lookup@.contains_key(packed(arch0.comp_ids@[i]) as u64));
        }
        let idx = *self.archetypes[a].comp_lookup.get(&comp_id.as_u64()).unwrap();
        proof {
            let key = packed(comp_id) as u64;
            let i = choose|i: int| 0 <= i < arch0.comp_ids.len() && packed(arch0.comp_ids@[i]) == key;
            crate::entities::lemma_packed_injective(arch0.comp_ids@[i], comp_id);
            assert(arch0.comp_ids@[idx as int] == comp_id);
            assert(arch0.comp_ids@.index_of(comp_id) == idx) by {
                let k = arch0.comp_ids@.index_of(comp_id);
                assert(arch0.comp_ids@.contains(comp_id));
                if k < idx {
                    assert(id_lt(arch0.comp_ids@[k], arch0.comp_ids@[idx as int]));
                } else if k > idx {
                    assert(id_lt(arch0.comp_ids@[idx as int], arch0.comp_ids@[k]));
                }
            }
            assert(arch0.component_storages@[idx as int].1@.len() == arch0.entities.len());
        }
        self.archetypes[a].component_storages[idx].1.get_mut_raw(row)
    }
}

impl World {
    /// Adds the built entity `component_id`, whose component metadata says it holds no data, to
    /// `entity` as a component. Both must be alive and the entity must not have it yet.
    pub fn add_component_dynamic(&mut self, entity: EcsId, component_id: EcsId)
        requires
            old(self).wf(),
            old(self).can_grow(),
            old(self).alive(entity),
            old(self).placed(entity),
            old(self).placed(component_id),
            old(self).comp_meta(component_id).is_unit,
            !old(self).components(entity).contains_key(component_id),
        ensures
            final(self).set_components(*old(self), entity, old(self).components(entity).insert(component_id, Seq::<u8>::empty())),
    {
        let empty: [u8; 0] = [];
        proof {
            assert(self.ecs_id_meta@[component_id.index as int].is_some());
            assert(empty@ =~= Seq::<u8>::empty());
        }
        self.add_component_dynamic_with_data(entity, component_id, &empty);
    }
}

impl World {
    /// The built entity `entity` has the component recorded under the key `key` in the table of
    /// component types.
    pub open spec fn has_recorded(&self, key: u64, entity: EcsId) -> bool {
        &&& self.type_id_to_ecs_id@.contains_key(key)
        &&& self.placed(entity)
        &&& self.components(entity).contains_key(self.type_id_to_ecs_id@[key])
    }

    /// Whether the built entity `entity` has the component recorded under the key `key`; `false`
    /// when nothing is recorded under it, or the entity is not an alive, built entity of this
    /// world.
    pub fn has_recorded_component(&self, key: u64, entity: EcsId) -> (b: bool)
        requires
            self.wf(),
        ensures
            b == self.has_recorded(key, entity),
    {
        let comp_id = match self.type_id_to_ecs_id.get(&key) {
            None => {
                return false;
            },
            Some(id) => *id,
        };
        if entity.uindex() >= self.entities.generations.len() {
            return false;
        }
        let a = match self.get_entity_meta(entity) {
            None => {
                return false;
            },
            Some(m) => m.instance_meta.archetype.0,
        };
        let found = self.archetypes[a].comp_lookup.contains_key(&comp_id.as_u64());
        proof {
            let arch = self.archetypes@[a as int];
            assert(arch.wf());
            if found {
                let i = choose|i: int| 0 <= i < arch.comp_ids.len() && packed(arch.comp_ids@[i]) == packed(comp_id) as u64;
                crate::entities::lemma_packed_injective(arch.comp_ids@[i], comp_id);
                assert(arch.has(comp_id));
            } else if arch.has(comp_id) {
                let i = choose|i: int| 0 <= i < arch.comp_ids.len() && arch.comp_ids@[i] == comp_id;
                assert(arch.comp_lookup@.contains_key(packed(arch.comp_ids@[i]) as u64));
            }
        }
        found
    }

    /// `id` is a built entity whose values, as a component, have the size and alignment of `T`.
    pub open spec fn holds_values<T>(&self, id: EcsId) -> bool {
        &&& self.placed(id)
        &&& self.comp_meta(id).layout.spec_size() == vstd::layout::size_of::<T>()
        &&& self.comp_meta(id).layout.spec_align() == vstd::layout::align_of::<T>()
    }

    /// A component that holds values of `T` is a built entity with the size and alignment of `T`.
    pub proof fn lemma_holds_values<T>(&self, id: EcsId)
        requires
            self.holds_values::<T>(id),
        ensures
            self.placed(id),
            self.comp_meta(id).layout.spec_size() == vstd::layout::size_of::<T>(),
            self.comp_meta(id).layout.spec_align() == vstd::layout::align_of::<T>(),
    {
    }

    /// Whether `id` is a built entity whose values, as a component, have the size and alignment
    /// of `T`.
    pub fn holds_values_of<T>(&self, id: EcsId) -> (b: bool)
        ensures
            b == self.holds_values::<T>(id),
    {
        if id.uindex() >= self.entities.generations.len() {
            return false;
        }
        match self.get_entity_meta(id) {
            None => false,
            Some(m) => m.component_meta.layout.size() == core::mem::size_of::<T>()
                && m.component_meta.layout.align() == core::mem::align_of::<T>(),
        }
    }

    /// Some key is recorded under nothing in the world's table of component types.
    pub proof fn lemma_unrecorded_key(&self)
        requires
            self.type_id_to_ecs_id@.len() <= usize::MAX,
        ensures
            exists|k: u64| !self.type_id_to_ecs_id@.contains_key(k),
    {
        vstd::std_specs::hash::axiom_hashmap_view_finite_dom(self.type_id_to_ecs_id);
        lemma_key_outside(self.type_id_to_ecs_id@.dom());
    }

    /// Whether the built entity `entity` has the component recorded for the Rust type `T`, that is
    /// under the key `type_key::<T>()`; `false` when no component is recorded for `T`, or the
    /// entity is not an alive, built entity of this world. A component recorded there whose values
    /// do not have the size and alignment of `T` is not taken for one of `T`.
    pub fn has_component<T: Component>(&self, entity: EcsId) -> (b: bool)
        requires
            self.wf(),
        ensures
            exists|k: u64| b == #[trigger] self.has_recorded(k, entity),
            b ==> self.placed(entity),
            b ==> exists|k: u64| #[trigger] self.has_recorded(k, entity)
                && self.holds_values::<T>(self.type_id_to_ecs_id@[k]),
            b ==> exists|c: EcsId| #[trigger] self.components(entity).contains_key(c) && self.holds_values::<T>(c),
    {
        let key = type_key::<T>();
        if !self.has_recorded_component(key, entity) {
            return false;
        }
        let id = *self.type_id_to_ecs_id.get(&key).unwrap();
        if self.holds_values_of::<T>(id) {
            proof {
                assert(self.has_recorded(key, entity));
            }
            true
        } else {
            let n = self.type_id_to_ecs_id.len();
            proof {
                self.lemma_unrecorded_key();
                let k = choose|k: u64| !self.type_id_to_ecs_id@.contains_key(k);
                assert(!self.has_recorded(k, entity));
            }
            false
        }
    }
}

impl Default for World {
    fn default() -> (w: Self)
        ensures
            w.wf(),
            w.archetypes@.len() == 0,
            w.entities.generations@.len() == 0,
            w.ecs_id_meta@.len() == 0,
    {
        World::new()
    }
}

} // verus!
