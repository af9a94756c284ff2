use vstd::prelude::*;

verus! {

/// An entity identifier: a 32 bit slot index together with the 32 bit generation that the slot
/// had when the entity was spawned.
///
/// Identifiers are ordered by generation first and index second, which is the order of their
/// packed 64 bit representation (`as_u64`).
#[derive(Copy, Clone, Debug, PartialEq, Eq, Structural, Hash)]
pub struct EcsId {
    pub generation: u32,
    pub index: u32,
}

/// The packed representation: generation in the upper 32 bits, index in the lower 32 bits.
pub open spec fn packed(id: EcsId) -> int {
    id.generation as int * 0x1_0000_0000 + id.index as int
}

/// The order on identifiers that the archetypes keep their component lists sorted by.
pub open spec fn id_lt(a: EcsId, b: EcsId) -> bool {
    packed(a) < packed(b)
}

impl EcsId {
    pub fn new(index: u32, generation: u32) -> (id: EcsId)
        ensures
            id.index == index,
            id.generation == generation,
    {
        EcsId { generation, index }
    }

    pub fn generation(&self) -> (g: u32)
        ensures
            g == self.generation,
    {
        self.generation
    }

    pub fn index(&self) -> (i: u32)
        ensures
            i == self.index,
    {
        self.index
    }

    pub fn uindex(&self) -> (i: usize)
        ensures
            i == self.index,
    {
        self.index as usize
    }

    pub fn as_u64(&self) -> (v: u64)
        ensures
            v == packed(*self),
    {
        (self.generation as u64) * 0x1_0000_0000 + (self.index as u64)
    }

    /// `self` sorts before `other`.
    pub fn lt(&self, other: &EcsId) -> (b: bool)
        ensures
            b == id_lt(*self, *other),
    {
        self.as_u64() < other.as_u64()
    }
}

/// Two identifiers are equal exactly when their packed representations are.
pub proof fn lemma_packed_injective(a: EcsId, b: EcsId)
    ensures
        packed(a) == packed(b) <==> a == b,
{
}

/// The packed form fits in 64 bits.
pub proof fn lemma_packed_bound(a: EcsId)
    ensures
        0 <= packed(a) <= u64::MAX,
{
}

/// The identifier order is a strict total order.
pub proof fn lemma_id_order_total(a: EcsId, b: EcsId, c: EcsId)
    ensures
        !id_lt(a, a),
        id_lt(a, b) && id_lt(b, c) ==> id_lt(a, c),
        a != b ==> id_lt(a, b) || id_lt(b, a),
{
}

/// The generation after `g`, wrapping at `u32::MAX`.
pub open spec fn next_generation(g: u32) -> u32 {
    if g == u32::MAX {
        0
    } else {
        (g + 1) as u32
    }
}

/// The allocator of entity identifiers.
///
/// `generations[i]` says whether slot `i` is alive and which generation it is at; `despawned`
/// holds the dead slots in the order they died, and the most recently freed slot is reused first.
pub struct Entities {
    pub generations: Vec<(bool, u32)>,
    pub despawned: Vec<usize>,
}

impl Entities {
    /// Every freed slot is a dead slot of the table and is listed once; every dead slot is listed.
    pub open spec fn wf(&self) -> bool {
        &&& self.generations.len() <= u32::MAX as nat + 1
        &&& forall|k: int| 0 <= k < self.despawned.len() ==>
            #[trigger] self.despawned[k] < self.generations.len()
            && !self.generations[self.despawned[k] as int].0
        &&& forall|k: int, l: int| 0 <= k < l < self.despawned.len() ==>
            #[trigger] self.despawned[k] != #[trigger] self.despawned[l]
        &&& forall|i: int| 0 <= i < self.generations.len() && !(#[trigger] self.generations[i]).0
            ==> self.despawned@.contains(i as usize)
    }

    /// `id` names a slot of this table.
    pub open spec fn contains(&self, id: EcsId) -> bool {
        id.index < self.generations.len()
    }

    /// `id` is alive: its slot is alive and at the generation that `id` carries.
    pub open spec fn alive(&self, id: EcsId) -> bool {
        &&& self.contains(id)
        &&& self.generations[id.index as int].0
        &&& self.generations[id.index as int].1 == id.generation
    }

    /// The generation that slot `i` carries in its identifiers: the current one while the slot
    /// is alive, the one that its next spawn hands out once it is freed.
    pub open spec fn stored_generation(&self, i: int) -> u32 {
        if self.generations[i].0 {
            self.generations[i].1
        } else {
            next_generation(self.generations[i].1)
        }
    }

    /// `id` carries the stored generation of its slot: it is alive, or it is the identifier that
    /// the next spawn of its freed slot hands out.
    pub open spec fn current(&self, id: EcsId) -> bool {
        &&& self.contains(id)
        &&& id.generation == self.stored_generation(id.index as int)
    }

    /// The identifier that `spawn` hands out next.
    pub open spec fn next_id(&self) -> EcsId {
        if self.despawned.len() == 0 {
            EcsId { index: self.generations.len() as u32, generation: 0 }
        } else {
            let idx = self.despawned[self.despawned.len() - 1];
            EcsId {
                index: idx as u32,
                generation: (if self.generations[idx as int].1 == u32::MAX { 0 } else {
                    self.generations[idx as int].1 + 1
                }) as u32,
            }
        }
    }

    pub fn new() -> (e: Self)
        ensures
            e.wf(),
            e.generations@ == Seq::<(bool, u32)>::empty(),
            e.despawned@ == Seq::<usize>::empty(),
    {
        Entities { generations: Vec::with_capacity(4096), despawned: Vec::with_capacity(512) }
    }

    /// Hands out an identifier: the most recently freed slot at its next generation (wrapping
    /// at `u32::MAX`), or a new slot at generation 0.
    pub fn spawn(&mut self) -> (id: EcsId)
        requires
            old(self).wf(),
            old(self).despawned.len() > 0 || old(self).generations.len() <= u32::MAX,
        ensures
            final(self).wf(),
            id == old(self).next_id(),
            final(self).alive(id),
            !old(self).alive(id),
            old(self).despawned.len() == 0 ==> {
                &&& final(self).generations@ == old(self).generations@.push((true, 0u32))
                &&& final(self).despawned@ == old(self).despawned@
            },
            old(self).despawned.len() > 0 ==> {
                &&& final(self).generations@ == old(self).generations@.update(
                    id.index as int,
                    (true, id.generation),
                )
                &&& final(self).despawned@ == old(self).despawned@.drop_last()
            },
            forall|other: EcsId| old(self).alive(other) ==> final(self).alive(other),
            forall|other: EcsId| other != id ==> (final(self).alive(other) <==> old(self).alive(other)),
    {
        let idx = match self.despawned.pop() {
            Some(idx) => {
                let (alive, gen) = self.generations[idx];
                let new_gen = gen.wrapping_add(1);
                self.generations.set(idx, (true, new_gen));
                idx
            },
            None => {
                self.generations.push((true, 0));
                self.generations.len() - 1
            },
        };
        let gen = self.generations[idx].1;
        let id = EcsId::new(idx as u32, gen);
        proof {
            let o = old(self);
            if o.despawned.len() > 0 {
                let last = o.despawned.len() - 1;
                assert(o.despawned[last] == idx);
                assert forall|k: int| 0 <= k < self.despawned.len() implies
                    #[trigger] self.despawned[k] < self.generations.len()
                    && !self.generations[self.despawned[k] as int].0 by {
                    assert(self.despawned[k] == o.despawned[k]);
                    assert(o.despawned[k] != o.despawned[last]);
                }
                assert forall|i: int| 0 <= i < self.generations.len()
                    && !(#[trigger] self.generations[i]).0 implies self.despawned@.contains(i as usize) by {
                    assert(i != idx);
                    assert(o.despawned@.contains(i as usize));
                    let k = choose|k: int| 0 <= k < o.despawned.len() && o.despawned[k] == i as usize;
                    assert(k != last);
                    assert(self.despawned[k] == i as usize);
                }
            } else {
                assert forall|i: int| 0 <= i < self.generations.len()
                    && !(#[trigger] self.generations[i]).0 implies self.despawned@.contains(i as usize) by {
                    assert(i < o.generations.len());
                    assert(o.generations[i] == self.generations[i]);
                }
            }
        }
        id
    }

    /// Kills `to_despawn` if it is alive and frees its slot; returns whether it was alive.
    pub fn despawn(&mut self, to_despawn: EcsId) -> (was_alive: bool)
        requires
            old(self).wf(),
            old(self).contains(to_despawn),
        ensures
            final(self).wf(),
            was_alive == old(self).alive(to_despawn),
            !final(self).alive(to_despawn),
            was_alive ==> {
                &&& final(self).generations@ == old(self).generations@.update(
                    to_despawn.index as int,
                    (false, to_despawn.generation),
                )
                &&& final(self).despawned@ == old(self).despawned@.push(to_despawn.index as usize)
            },
            !was_alive ==> *final(self) == *old(self),
            forall|other: EcsId| other != to_despawn ==> (final(self).alive(other) <==> old(self).alive(other)),
    {
        if self.is_handed_out(to_despawn) {
            let idx = to_despawn.uindex();
            let gen = self.generations[idx].1;
            self.generations.set(idx, (false, gen));
            self.despawned.push(idx);
            proof {
                let o = old(self);
                assert(!o.despawned@.contains(idx)) by {
                    if o.despawned@.contains(idx) {
                        let k = choose|k: int| 0 <= k < o.despawned.len() && o.despawned[k] == idx;
                        assert(!o.generations[idx as int].0);
                    }
                }
                assert forall|k: int, l: int| 0 <= k < l < self.despawned.len() implies
                    #[trigger] self.despawned[k] != #[trigger] self.despawned[l] by {
                    if l == self.despawned.len() - 1 {
                        assert(o.despawned[k] == self.despawned[k]);
                        assert(o.despawned@.contains(self.despawned[k]));
                    } else {
                        assert(o.despawned[k] == self.despawned[k]);
                        assert(o.despawned[l] == self.despawned[l]);
                    }
                }
                assert forall|k: int| 0 <= k < self.despawned.len() implies
                    #[trigger] self.despawned[k] < self.generations.len()
                    && !self.generations[self.despawned[k] as int].0 by {
                    if k < o.despawned.len() {
                        assert(o.despawned[k] == self.despawned[k]);
                    }
                }
                assert forall|i: int| 0 <= i < self.generations.len()
                    && !(#[trigger] self.generations[i]).0 implies self.despawned@.contains(i as usize) by {
                    if i == idx {
                        assert(self.despawned[self.despawned.len() - 1] == idx);
                    } else {
                        assert(o.generations[i] == self.generations[i]);
                        let k = choose|k: int| 0 <= k < o.despawned.len() && o.despawned[k] == i as usize;
                        assert(self.despawned[k] == i as usize);
                    }
                }
            }
            true
        } else {
            false
        }
    }

    /// Whether `entity` carries the stored generation of its slot. Despawning a slot moves its
    /// stored generation on, so an identifier that was despawned answers `false`, and the
    /// identifier that the next spawn of the slot hands out answers `true` already. An
    /// identifier whose slot this table never had, or whose generation is ahead of the stored
    /// one, is refused.
    pub fn is_alive(&self, entity: EcsId) -> (b: bool)
        requires
            self.contains(entity),
            entity.generation <= self.stored_generation(entity.index as int),
        ensures
            b == self.current(entity),
    {
        let (alive, generation) = self.generations[entity.uindex()];
        let stored = if alive { generation } else { generation.wrapping_add(1) };
        entity.generation == stored
    }

    /// The stored generation of slot `index`.
    pub fn stored_generation_of(&self, index: usize) -> (g: u32)
        requires
            index < self.generations.len(),
        ensures
            g == self.stored_generation(index as int),
    {
        let (alive, generation) = self.generations[index];
        if alive { generation } else { generation.wrapping_add(1) }
    }

    /// Whether `entity` was handed out by `spawn` and not despawned since.
    pub fn is_handed_out(&self, entity: EcsId) -> (b: bool)
        requires
            self.contains(entity),
        ensures
            b == self.alive(entity),
    {
        let (alive, stored_generation) = self.generations[entity.uindex()];
        alive && entity.generation == stored_generation
    }
}

/// The `spawn` right after despawning an identifier reuses its slot at the next generation
/// (wrapping at `u32::MAX`), so it hands out another identifier.
pub proof fn lemma_spawn_after_despawn_gives_new_generation(
    before: Entities,
    middle: Entities,
    dead: EcsId,
    spawned: EcsId,
)
    requires
        before.wf(),
        before.alive(dead),
        middle.generations@ == before.generations@.update(dead.index as int, (false, dead.generation)),
        middle.despawned@ == before.despawned@.push(dead.index as usize),
        spawned == middle.next_id(),
    ensures
        spawned.index == dead.index,
        spawned.generation == (if dead.generation == u32::MAX { 0 } else { dead.generation + 1 }),
        spawned != dead,
{
}

/// At most one identifier of a slot is alive: two alive identifiers with the same index are the
/// same identifier.
pub proof fn lemma_alive_ids_unique(entities: Entities, a: EcsId, b: EcsId)
    requires
        entities.alive(a),
        entities.alive(b),
        a.index == b.index,
    ensures
        a == b,
{
}

/// The identifier that `spawn` hands out is not alive before, so it differs from every alive one.
pub proof fn lemma_spawned_is_fresh(entities: Entities, other: EcsId)
    requires
        entities.wf(),
        entities.despawned.len() > 0 || entities.generations.len() <= u32::MAX,
        entities.alive(other),
    ensures
        entities.next_id() != other,
{
    if entities.despawned.len() > 0 {
        let idx = entities.despawned[entities.despawned.len() - 1];
        assert(!entities.generations[idx as int].0);
    }
}

} // verus!
