use vstd::prelude::*;
use crate::entities::EcsId;
use crate::dyn_query::FetchType;
use crate::world::World;
use crate::type_id::{Component, type_key};

verus! {

/// Asks a query for the identifier of each entity it visits.
#[derive(Clone, Copy, Debug, PartialEq, Eq, Structural)]
pub struct EcsIds;

/// One fetched value: the visited entity's identifier, or the bytes of one of its components.
pub enum Fetched<'a> {
    Entity(EcsId),
    Component(&'a [u8]),
}

/// The rows of archetype `a` from row `from` on, as (archetype, row) pairs.
pub open spec fn arch_rows(w: World, a: int, from: int) -> Seq<(int, int)> {
    Seq::new((w.archetypes@[a].entities.len() - from) as nat, |i: int| (a, from + i))
}

/// All the rows of the archetypes `archs[k..]`, archetype by archetype.
pub open spec fn rows_after(w: World, archs: Seq<usize>, k: int) -> Seq<(int, int)>
    decreases archs.len() - k,
{
    if k < 0 || k >= archs.len() {
        Seq::empty()
    } else {
        arch_rows(w, archs[k] as int, 0) + rows_after(w, archs, k + 1)
    }
}

/// `items` are what `fetches` ask for at row `r` of archetype `a`.
pub open spec fn fetched_at(w: World, a: int, r: int, fetches: Seq<FetchType>, items: Seq<Fetched>) -> bool {
    &&& items.len() == fetches.len()
    &&& forall|k: int| 0 <= k < fetches.len() ==> match #[trigger] fetches[k] {
        FetchType::EcsId => items[k] == Fetched::Entity(w.archetypes@[a].entities@[r]),
        FetchType::Mut(id) => items[k] matches Fetched::Component(b) && b@ == w.archetypes@[a].row(r)[id],
        FetchType::Immut(id) => items[k] matches Fetched::Component(b) && b@ == w.archetypes@[a].row(r)[id],
    }
}

/// The component identifiers that `fetches` ask for, in order.
pub open spec fn fetched_ids(fetches: Seq<FetchType>) -> Seq<EcsId>
    decreases fetches.len(),
{
    if fetches.len() == 0 {
        Seq::empty()
    } else {
        let rest = fetched_ids(fetches.drop_last());
        match fetches.last() {
            FetchType::EcsId => rest,
            FetchType::Mut(id) => rest.push(id),
            FetchType::Immut(id) => rest.push(id),
        }
    }
}

/// A query over the entities that have every component that its fetches ask for. It has no
/// fetches (and finds nothing) when one of the components it was asked for does not exist.
pub struct StaticQuery<'a> {
    pub world: &'a World,
    pub fetches: Option<Vec<FetchType>>,
}

/// Visits the rows of the archetypes of a query, archetype by archetype, in increasing order.
pub struct StaticQueryIter<'a> {
    pub world: &'a World,
    pub fetches: Vec<FetchType>,
    /// The archetypes to visit.
    pub archetypes: Vec<usize>,
    /// The archetype being visited, as a position in `archetypes`.
    pub arch_pos: usize,
    /// The next row to visit there.
    pub row: usize,
}

/// Every identifier of `ids` is among those of `fetched_ids(fetches)` and the other way round.
proof fn lemma_fetched_ids(fetches: Seq<FetchType>, id: EcsId)
    ensures
        fetched_ids(fetches).contains(id) <==> exists|k: int| 0 <= k < fetches.len() && (fetches[k] == FetchType::Mut(id)
            || fetches[k] == FetchType::Immut(id)),
    decreases fetches.len(),
{
    if fetches.len() > 0 {
        let init = fetches.drop_last();
        lemma_fetched_ids(init, id);
        let rest = fetched_ids(init);
        if exists|k: int| 0 <= k < init.len() && (init[k] == FetchType::Mut(id) || init[k] == FetchType::Immut(id)) {
            let k = choose|k: int| 0 <= k < init.len() && (init[k] == FetchType::Mut(id) || init[k] == FetchType::Immut(id));
            assert(fetches[k] == init[k]);
            let j = choose|j: int| 0 <= j < rest.len() && rest[j] == id;
            assert(fetched_ids(fetches)[j] == id);
        }
        if exists|k: int| 0 <= k < fetches.len() && (fetches[k] == FetchType::Mut(id) || fetches[k] == FetchType::Immut(id)) {
            let k = choose|k: int| 0 <= k < fetches.len() && (fetches[k] == FetchType::Mut(id) || fetches[k] == FetchType::Immut(id));
            if k < fetches.len() - 1 {
                assert(init[k] == fetches[k]);
            } else {
                let f = fetched_ids(fetches);
                assert(f[f.len() - 1] == id);
            }
        }
        if fetched_ids(fetches).contains(id) {
            let f = fetched_ids(fetches);
            let j = choose|j: int| 0 <= j < f.len() && f[j] == id;
            if j < rest.len() {
                assert(rest[j] == id);
                assert(rest.contains(id));
                let k = choose|k: int| 0 <= k < init.len() && (init[k] == FetchType::Mut(id) || init[k] == FetchType::Immut(id));
                assert(fetches[k] == init[k]);
            } else {
                assert(fetches[fetches.len() - 1] == FetchType::Mut(id) || fetches[fetches.len() - 1] == FetchType::Immut(id));
            }
        }
    }
}

impl World {
    /// The values that `fetches` ask for at row `row` of archetype `a`, which holds every
    /// component they ask for.
    pub fn fetch_row<'a>(&'a self, a: usize, row: usize, fetches: &Vec<FetchType>) -> (items: Vec<Fetched<'a>>)
        requires
            self.wf(),
            a < self.archetypes.len(),
            row < self.archetypes@[a as int].entities.len(),
            self.holds_all(a as int, fetched_ids(fetches@)),
        ensures
            fetched_at(*self, a as int, row as int, fetches@, items@),
    {
        let arch = &self.archetypes[a];
        let mut items: Vec<Fetched<'a>> = Vec::new();
        let mut k: usize = 0;
        while k < fetches.len()
            invariant
                self.wf(),
                a < self.archetypes.len(),
                *arch == self.archetypes@[a as int],
                row < arch.entities.len(),
                self.holds_all(a as int, fetched_ids(fetches@)),
                k <= fetches.len(),
                items.len() == k,
                forall|j: int| 0 <= j < k ==> match #[trigger] fetches@[j] {
                    FetchType::EcsId => items@[j] == Fetched::Entity(arch.entities@[row as int]),
                    FetchType::Mut(id) => items@[j] matches Fetched::Component(b) && b@ == arch.row(row as int)[id],
                    FetchType::Immut(id) => items@[j] matches Fetched::Component(b) && b@ == arch.row(row as int)[id],
                },
            decreases fetches.len() - k,
        {
            let item = match fetches[k] {
                FetchType::EcsId => Fetched::Entity(arch.entities[row]),
                FetchType::Mut(id) | FetchType::Immut(id) => {
                    proof {
                        assert(arch.wf());
                        lemma_fetched_ids(fetches@, id);
                        assert(fetches@[k as int] == FetchType::Mut(id) || fetches@[k as int] == FetchType::Immut(id));
                        let f = fetched_ids(fetches@);
                        let j = choose|j: int| 0 <= j < f.len() && f[j] == id;
                        assert(arch.has(f[j]));
                        let i = choose|i: int| 0 <= i < arch.comp_ids.len() && arch.comp_ids@[i] == id;
                        assert(arch.comp_lookup@.contains_key(crate::entities::packed(arch.comp_ids@[i]) as u64));
                    }
                    let idx = *arch.comp_lookup.get(&id.as_u64()).unwrap();
                    proof {
                        let key = crate::entities::packed(id) as u64;
                        let i = choose|i: int| 0 <= i < arch.comp_ids.len() && crate::entities::packed(arch.comp_ids@[i]) == key;
                        crate::entities::lemma_packed_injective(arch.comp_ids@[i], id);
                        assert(arch.comp_ids@[idx as int] == id);
                        assert(arch.comp_ids@.index_of(id) == idx) by {
                            let m = arch.comp_ids@.index_of(id);
                            assert(arch.comp_ids@.contains(id));
                            if m < idx {
                                assert(crate::entities::id_lt(arch.comp_ids@[m], arch.comp_ids@[idx as int]));
                            } else if m > idx {
                                assert(crate::entities::id_lt(arch.comp_ids@[idx as int], arch.comp_ids@[m]));
                            }
                        }
                        assert(arch.component_storages@[idx as int].1@.len() == arch.entities.len());
                    }
                    let bytes = arch.component_storages[idx].1.get_raw(row).unwrap();
                    Fetched::Component(bytes)
                },
            };
            items.push(item);
            k = k + 1;
        }
        items
    }
}

impl<'a> StaticQuery<'a> {
    /// An iterator over the rows of every archetype that holds all the components asked for.
    pub fn iter(&self) -> (it: StaticQueryIter<'a>)
        requires
            self.world.wf(),
            self.fetches matches Some(f) ==> forall|k: int| 0 <= k < fetched_ids(f@).len() ==> self.world.alive(
                #[trigger] fetched_ids(f@)[k],
            ),
        ensures
            it.wf(),
            it.world == self.world,
            self.fetches matches Some(f) ==> it.fetches@ == f@ && self.world.lists_holding(it.archetypes@, fetched_ids(f@)),
            self.fetches is None ==> it.archetypes@.len() == 0,
            it.remaining() == rows_after(*self.world, it.archetypes@, 0),
    {
        match &self.fetches {
            None => {
                let it = StaticQueryIter { world: self.world, fetches: Vec::new(), archetypes: Vec::new(), arch_pos: 0, row: 0 };
                proof {
                    assert(it.remaining() =~= rows_after(*self.world, it.archetypes@, 0));
                }
                it
            },
            Some(fetches) => {
                let mut ids: Vec<EcsId> = Vec::new();
                let mut k: usize = 0;
                while k < fetches.len()
                    invariant
                        k <= fetches.len(),
                        ids@ == fetched_ids(fetches@.take(k as int)),
                    decreases fetches.len() - k,
                {
                    proof {
                        assert(fetches@.take(k + 1).drop_last() =~= fetches@.take(k as int));
                    }
                    match fetches[k] {
                        FetchType::EcsId => {},
                        FetchType::Mut(id) | FetchType::Immut(id) => {
                            ids.push(id);
                        },
                    }
                    k = k + 1;
                }
                proof {
                    assert(fetches@.take(k as int) =~= fetches@);
                }
                let archetypes = self.world.query_archetypes(ids.as_slice());
                let it = StaticQueryIter { world: self.world, fetches: fetches.clone(), archetypes, arch_pos: 0, row: 0 };
                proof {
                    assert(it.fetches@ =~= fetches@);
                    if it.archetypes@.len() > 0 {
                        assert(it.remaining() =~= rows_after(*self.world, it.archetypes@, 0));
                    } else {
                        assert(it.remaining() =~= rows_after(*self.world, it.archetypes@, 0));
                    }
                }
                it
            },
        }
    }

    /// The values that the fetches ask for, for `entity`; `None` if it is not alive, not built,
    /// lacks one of the components, or the query has no fetches.
    pub fn get(&self, entity: EcsId) -> (r: Option<Vec<Fetched<'a>>>)
        requires
            self.world.wf(),
            self.world.entities.contains(entity),
        ensures
            r is Some <==> self.world.placed(entity) && self.fetches is Some && self.world.holds_all(
                self.world.arch_of(entity),
                fetched_ids(self.fetches.unwrap()@),
            ),
            r matches Some(items) ==> fetched_at(
                *self.world,
                self.world.arch_of(entity),
                self.world.row_of(entity),
                self.fetches.unwrap()@,
                items@,
            ),
    {
        if !self.world.entities.is_handed_out(entity) {
            return None;
        }
        let meta = match self.world.get_entity_meta(entity) {
            None => {
                return None;
            },
            Some(m) => *m,
        };
        let fetches = match &self.fetches {
            None => {
                return None;
            },
            Some(f) => f,
        };
        let a = meta.instance_meta.archetype.0;
        let row = meta.instance_meta.index;
        let arch = &self.world.archetypes[a];
        let mut k: usize = 0;
        while k < fetches.len()
            invariant
                self.world.wf(),
                a < self.world.archetypes.len(),
                *arch == self.world.archetypes@[a as int],
                self.world.placed(entity),
                a == self.world.arch_of(entity),
                row == self.world.row_of(entity),
                self.fetches == Some(*fetches),
                k <= fetches.len(),
                forall|j: int| 0 <= j < fetched_ids(fetches@.take(k as int)).len() ==> arch.has(#[trigger] fetched_ids(fetches@.take(k as int))[j]),
            decreases fetches.len() - k,
        {
            proof {
                assert(fetches@.take(k + 1).drop_last() =~= fetches@.take(k as int));
                assert(fetches@.take(k + 1).last() == fetches@[k as int]);
                assert(arch.wf());
            }
            match fetches[k] {
                FetchType::EcsId => {
                    proof {
                        assert(fetched_ids(fetches@.take(k + 1)) == fetched_ids(fetches@.take(k as int)));
                    }
                },
                FetchType::Mut(id) | FetchType::Immut(id) => {
                    if !arch.comp_lookup.contains_key(&id.as_u64()) {
                        proof {
                            lemma_fetched_ids(fetches@, id);
                            assert(fetched_ids(fetches@).contains(id)) by {
                                assert(fetches@[k as int] == FetchType::Mut(id) || fetches@[k as int] == FetchType::Immut(id));
                            }
                            if self.world.holds_all(a as int, fetched_ids(fetches@)) {
                                let f = fetched_ids(fetches@);
                                let j = choose|j: int| 0 <= j < f.len() && f[j] == id;
                                assert(arch.has(f[j]));
                                let i = choose|i: int| 0 <= i < arch.comp_ids.len() && arch.comp_ids@[i] == id;
                                assert(arch.comp_lookup@.contains_key(crate::entities::packed(arch.comp_ids@[i]) as u64));
                            }
                            assert(!self.world.holds_all(a as int, fetched_ids(fetches@)));
                            assert(a == self.world.arch_of(entity));
                            assert(self.fetches == Some(*fetches));
                        }
                        return None;
                    }
                    proof {
                        let key = crate::entities::packed(id) as u64;
                        let i = choose|i: int| 0 <= i < arch.comp_ids.len() && crate::entities::packed(arch.comp_ids@[i]) == key;
                        crate::entities::lemma_packed_injective(arch.comp_ids@[i], id);
                        assert(arch.has(id));
                        assert(fetched_ids(fetches@.take(k + 1)) == fetched_ids(fetches@.take(k as int)).push(id));
                    }
                },
            }
            k = k + 1;
        }
        proof {
            assert(fetches@.take(k as int) =~= fetches@);
        }
        Some(self.world.fetch_row(a, row, fetches))
    }
}

impl<'a> StaticQueryIter<'a> {
    pub open spec fn wf(&self) -> bool {
        &&& self.world.wf()
        &&& self.arch_pos <= self.archetypes.len()
        &&& forall|i: int| 0 <= i < self.archetypes.len() ==> (#[trigger] self.archetypes@[i]) < self.world.archetypes.len()
            && self.world.holds_all(self.archetypes@[i] as int, fetched_ids(self.fetches@))
        &&& self.arch_pos < self.archetypes.len() ==> self.row <= self.world.archetypes@[self.archetypes@[self.arch_pos as int] as int].entities.len()
    }

    /// The rows still to visit, as (archetype, row) pairs.
    pub open spec fn remaining(&self) -> Seq<(int, int)> {
        if self.arch_pos < self.archetypes.len() {
            arch_rows(*self.world, self.archetypes@[self.arch_pos as int] as int, self.row as int) + rows_after(
                *self.world,
                self.archetypes@,
                self.arch_pos + 1,
            )
        } else {
            Seq::empty()
        }
    }

    /// The values asked for at the next row, if there is one.
    pub fn next(&mut self) -> (r: Option<Vec<Fetched<'a>>>)
        requires
            old(self).wf(),
        ensures
            final(self).wf(),
            final(self).world == old(self).world,
            final(self).fetches == old(self).fetches,
            final(self).archetypes == old(self).archetypes,
            old(self).remaining().len() == 0 ==> r is None && final(self).remaining().len() == 0,
            old(self).remaining().len() > 0 ==> {
                &&& r matches Some(items)
                &&& fetched_at(*old(self).world, old(self).remaining()[0].0, old(self).remaining()[0].1, old(self).fetches@, items@)
                &&& final(self).remaining() == old(self).remaining().drop_first()
            },
        decreases old(self).archetypes.len() - old(self).arch_pos,
    {
        if self.arch_pos >= self.archetypes.len() {
            return None;
        }
        let a = self.archetypes[self.arch_pos];
        if self.row < self.world.archetypes[a].entities.len() {
            let items = self.world.fetch_row(a, self.row, &self.fetches);
            let ghost before = self.remaining();
            self.row = self.row + 1;
            proof {
                assert(self.remaining() =~= before.drop_first());
            }
            return Some(items);
        }
        let ghost before = self.remaining();
        self.arch_pos = self.arch_pos + 1;
        self.row = 0;
        proof {
            assert(arch_rows(*self.world, a as int, (self.world.archetypes@[a as int].entities.len()) as int).len() == 0);
            if self.arch_pos < self.archetypes.len() {
                assert(self.remaining() =~= before);
            } else {
                assert(before =~= Seq::<(int, int)>::empty());
            }
        }
        self.next()
    }
}

/// The fetch asks for the entity, or for a component that the world's table of component types
/// records for some Rust type.
pub open spec fn recorded(w: World, f: FetchType) -> bool {
    match f {
        FetchType::EcsId => true,
        FetchType::Mut(id) => exists|k: u64| #[trigger] w.type_id_to_ecs_id@.contains_key(k) && w.type_id_to_ecs_id@[k] == id,
        FetchType::Immut(id) => exists|k: u64| #[trigger] w.type_id_to_ecs_id@.contains_key(k) && w.type_id_to_ecs_id@[k] == id,
    }
}

/// What the world's table of component types gives for the key `key`: the recorded component,
/// to be written or only read, or `None` when nothing is recorded under that key.
pub open spec fn recorded_fetch(w: World, key: u64, write: bool) -> Option<FetchType> {
    if w.type_id_to_ecs_id@.contains_key(key) {
        Some(
            if write {
                FetchType::Mut(w.type_id_to_ecs_id@[key])
            } else {
                FetchType::Immut(w.type_id_to_ecs_id@[key])
            },
        )
    } else {
        None
    }
}

/// The fetch recorded in the world's table of component types under `key`.
pub fn fetch_recorded(world: &World, key: u64, write: bool) -> (r: Option<FetchType>)
    ensures
        r == recorded_fetch(*world, key, write),
{
    match world.type_id_to_ecs_id.get(&key) {
        Some(id) => Some(if write {
            FetchType::Mut(*id)
        } else {
            FetchType::Immut(*id)
        }),
        None => None,
    }
}

/// The fetch `f` suits a query parameter that reads, or writes when `writes`, values of the
/// size and alignment `layout`, or that asks for the entity when `layout` is `None`: an entity
/// fetch for the entity, otherwise a fetch of the right kind of a built component whose values
/// have that layout.
pub open spec fn fetch_suits(w: World, f: FetchType, layout: Option<(nat, nat)>, writes: bool) -> bool {
    match f {
        FetchType::EcsId => layout is None,
        FetchType::Mut(id) => writes && w.placed(id) && layout == Some(
            (w.comp_meta(id).layout.spec_size(), w.comp_meta(id).layout.spec_align()),
        ),
        FetchType::Immut(id) => !writes && w.placed(id) && layout == Some(
            (w.comp_meta(id).layout.spec_size(), w.comp_meta(id).layout.spec_align()),
        ),
    }
}

/// The fetch recorded under `key` for a parameter of values of `T`, kept only when the recorded
/// component is built and holds values of the size and alignment of `T`.
pub fn fetch_recorded_values<T>(world: &World, key: u64, write: bool) -> (r: Option<FetchType>)
    ensures
        exists|k: u64| r == #[trigger] recorded_fetch(*world, k, write),
        r is Some ==> r == recorded_fetch(*world, key, write),
        r matches Some(f) ==> fetch_suits(
            *world,
            f,
            Some((vstd::layout::size_of::<T>(), vstd::layout::align_of::<T>())),
            write,
        ),
{
    match world.type_id_to_ecs_id.get(&key) {
        Some(id) => {
            if world.holds_values_of::<T>(*id) {
                Some(if write {
                    FetchType::Mut(*id)
                } else {
                    FetchType::Immut(*id)
                })
            } else {
                let n = world.type_id_to_ecs_id.len();
                proof {
                    broadcast use vstd::std_specs::hash::group_hash_axioms;
                    world.lemma_unrecorded_key();
                    let k = choose|k: u64| !world.type_id_to_ecs_id@.contains_key(k);
                    assert(recorded_fetch(*world, k, write) is None);
                }
                None
            }
        },
        None => None,
    }
}

/// One parameter of a typed query: `EcsIds` for the entity, `&T` to read a `T`, `&mut T` to write
/// one.
pub trait QueryParam {
    /// The parameter is fetched in every world (it asks for no component).
    spec fn always_fetched() -> bool;

    /// The size and alignment of the values the parameter reads or writes; `None` for the entity.
    spec fn value_layout() -> Option<(nat, nat)>;

    /// The parameter writes its values.
    spec fn writes() -> bool;

    /// What to fetch for this parameter; `None` when the type has no component identifier yet.
    fn fetch_type(world: &World) -> (r: Option<FetchType>)
        ensures
            r matches Some(f) ==> recorded(*world, f),
            Self::always_fetched() ==> r == Some(FetchType::EcsId),
            r matches Some(f) ==> fetch_suits(*world, f, Self::value_layout(), Self::writes()),
    ;
}

impl QueryParam for EcsIds {
    open spec fn always_fetched() -> bool {
        true
    }

    open spec fn value_layout() -> Option<(nat, nat)> {
        None
    }

    open spec fn writes() -> bool {
        false
    }

    fn fetch_type(world: &World) -> (r: Option<FetchType>)
        ensures
            r == Some(FetchType::EcsId),
    {
        Some(FetchType::EcsId)
    }
}

impl<'a, T: Component> QueryParam for &'a T {
    open spec fn always_fetched() -> bool {
        false
    }

    open spec fn value_layout() -> Option<(nat, nat)> {
        Some((vstd::layout::size_of::<T>(), vstd::layout::align_of::<T>()))
    }

    open spec fn writes() -> bool {
        false
    }

    /// The component recorded under the key of `T`, to be read, when it holds values of the size
    /// and alignment of `T`.
    fn fetch_type(world: &World) -> (r: Option<FetchType>)
        ensures
            exists|k: u64| r == #[trigger] recorded_fetch(*world, k, false),
    {
        let key = type_key::<T>();
        fetch_recorded_values::<T>(world, key, false)
    }
}

impl<'a, T: Component> QueryParam for &'a mut T {
    open spec fn always_fetched() -> bool {
        false
    }

    open spec fn value_layout() -> Option<(nat, nat)> {
        Some((vstd::layout::size_of::<T>(), vstd::layout::align_of::<T>()))
    }

    open spec fn writes() -> bool {
        true
    }

    /// The component recorded under the key of `T`, to be written, when it holds values of the
    /// size and alignment of `T`.
    fn fetch_type(world: &World) -> (r: Option<FetchType>)
        ensures
            exists|k: u64| r == #[trigger] recorded_fetch(*world, k, true),
    {
        let key = type_key::<T>();
        fetch_recorded_values::<T>(world, key, true)
    }
}

/// A tuple of query parameters.
pub trait QueryTuple {
    /// Every parameter is fetched in every world (none asks for a component).
    spec fn all_fetched() -> bool;

    /// `f` holds one fetch per parameter, in the order of the parameters, each suiting its
    /// parameter.
    spec fn in_order(w: World, f: Seq<FetchType>) -> bool;

    /// The fetches of the parameters, in order; `None` when one of them has none.
    fn fetches(world: &World) -> (r: Option<Vec<FetchType>>)
        ensures
            r matches Some(f) ==> forall|k: int| 0 <= k < f.len() ==> recorded(*world, #[trigger] f@[k]),
            Self::all_fetched() ==> (r matches Some(f) && forall|k: int| 0 <= k < f.len() ==> #[trigger] f@[k] == FetchType::EcsId),
            r matches Some(f) ==> Self::in_order(*world, f@),
    ;
}

impl<A: QueryParam> QueryTuple for (A,) {
    open spec fn in_order(w: World, f: Seq<FetchType>) -> bool {
        &&& f.len() == 1
        &&& fetch_suits(w, f[0], A::value_layout(), A::writes())
    }

    open spec fn all_fetched() -> bool {
        A::always_fetched()
    }

    fn fetches(world: &World) -> (r: Option<Vec<FetchType>>)
        ensures
            r matches Some(f) ==> f.len() == 1,
    {
        let a = A::fetch_type(world);
        match a {
            Some(a) => Some(vec![a]),
            _ => None,
        }
    }
}

impl<A: QueryParam, B: QueryParam> QueryTuple for (A, B) {
    open spec fn in_order(w: World, f: Seq<FetchType>) -> bool {
        &&& f.len() == 2
        &&& fetch_suits(w, f[0], A::value_layout(), A::writes())
        &&& fetch_suits(w, f[1], B::value_layout(), B::writes())
    }

    open spec fn all_fetched() -> bool {
        A::always_fetched() && B::always_fetched()
    }

    fn fetches(world: &World) -> (r: Option<Vec<FetchType>>)
        ensures
            r matches Some(f) ==> f.len() == 2,
    {
        let a = A::fetch_type(world);
        let b = B::fetch_type(world);
        match (a, b) {
            (Some(a), Some(b)) => Some(vec![a, b]),
            _ => None,
        }
    }
}

impl<A: QueryParam, B: QueryParam, C: QueryParam> QueryTuple for (A, B, C) {
    open spec fn in_order(w: World, f: Seq<FetchType>) -> bool {
        &&& f.len() == 3
        &&& fetch_suits(w, f[0], A::value_layout(), A::writes())
        &&& fetch_suits(w, f[1], B::value_layout(), B::writes())
        &&& fetch_suits(w, f[2], C::value_layout(), C::writes())
    }

    open spec fn all_fetched() -> bool {
        A::always_fetched() && B::always_fetched() && C::always_fetched()
    }

    fn fetches(world: &World) -> (r: Option<Vec<FetchType>>)
        ensures
            r matches Some(f) ==> f.len() == 3,
    {
        let a = A::fetch_type(world);
        let b = B::fetch_type(world);
        let c = C::fetch_type(world);
        match (a, b, c) {
            (Some(a), Some(b), Some(c)) => Some(vec![a, b, c]),
            _ => None,
        }
    }
}

impl<A: QueryParam, B: QueryParam, C: QueryParam, D: QueryParam> QueryTuple for (A, B, C, D) {
    open spec fn in_order(w: World, f: Seq<FetchType>) -> bool {
        &&& f.len() == 4
        &&& fetch_suits(w, f[0], A::value_layout(), A::writes())
        &&& fetch_suits(w, f[1], B::value_layout(), B::writes())
        &&& fetch_suits(w, f[2], C::value_layout(), C::writes())
        &&& fetch_suits(w, f[3], D::value_layout(), D::writes())
    }

    open spec fn all_fetched() -> bool {
        A::always_fetched() && B::always_fetched() && C::always_fetched() && D::always_fetched()
    }

    fn fetches(world: &World) -> (r: Option<Vec<FetchType>>)
        ensures
            r matches Some(f) ==> f.len() == 4,
    {
        let a = A::fetch_type(world);
        let b = B::fetch_type(world);
        let c = C::fetch_type(world);
        let d = D::fetch_type(world);
        match (a, b, c, d) {
            (Some(a), Some(b), Some(c), Some(d)) => Some(vec![a, b, c, d]),
            _ => None,
        }
    }
}

impl World {
    /// A query over the entities that have a component for each `&T` and `&mut T` of `Q`. It finds
    /// nothing when one of these types has no alive component identifier.
    pub fn query<Q: QueryTuple>(&self) -> (q: StaticQuery<'_>)
        requires
            self.wf(),
        ensures
            q.world == self,
            q.fetches matches Some(f) ==> {
                &&& forall|k: int| 0 <= k < f.len() ==> recorded(*self, #[trigger] f@[k])
                &&& forall|k: int| 0 <= k < fetched_ids(f@).len() ==> self.alive(#[trigger] fetched_ids(f@)[k])
            },
            Q::all_fetched() ==> (q.fetches matches Some(f) && forall|k: int| 0 <= k < f.len() ==> #[trigger] f@[k]
                == FetchType::EcsId),
            q.fetches matches Some(f) ==> Q::in_order(*self, f@),
    {
        match Q::fetches(self) {
            None => StaticQuery { world: self, fetches: None },
            Some(f) => {
                let ghost fs = f@;
                proof {
                    if Q::all_fetched() {
                        lemma_no_ids(fs);
                    }
                }
                let q = self.query_dynamic(f);
                proof {
                    if q.fetches is Some {
                        assert(q.fetches.unwrap()@ == fs);
                    }
                }
                q
            },
        }
    }
}

/// The component that fetch number `k` asks for is among the identifiers the fetches ask for.
proof fn lemma_fetched_id_listed(fetches: Seq<FetchType>, k: int)
    requires
        0 <= k < fetches.len(),
    ensures
        fetches[k] matches FetchType::Mut(id) ==> fetched_ids(fetches).contains(id),
        fetches[k] matches FetchType::Immut(id) ==> fetched_ids(fetches).contains(id),
    decreases fetches.len(),
{
    let n = fetches.len() - 1;
    let rest = fetched_ids(fetches.drop_last());
    if k < n {
        lemma_fetched_id_listed(fetches.drop_last(), k);
        assert(fetches.drop_last()[k] == fetches[k]);
        match fetches[k] {
            FetchType::Mut(id) | FetchType::Immut(id) => {
                let i = choose|i: int| 0 <= i < rest.len() && rest[i] == id;
                match fetches.last() {
                    FetchType::EcsId => {},
                    FetchType::Mut(x) | FetchType::Immut(x) => {
                        assert(rest.push(x)[i] == id);
                    },
                }
            },
            FetchType::EcsId => {},
        }
    } else {
        assert(fetches.last() == fetches[k]);
        match fetches[k] {
            FetchType::Mut(id) | FetchType::Immut(id) => {
                assert(rest.push(id)[rest.len() as int] == id);
            },
            FetchType::EcsId => {},
        }
    }
}

/// What a fetch suits: an entity fetch suits the entity parameter, a fetch of a component suits
/// the parameter whose values have that component's size and alignment, and it writes exactly
/// when the parameter does.
pub proof fn lemma_fetch_suits(w: World, f: FetchType, layout: Option<(nat, nat)>, writes: bool)
    requires
        fetch_suits(w, f, layout, writes),
    ensures
        f is EcsId <==> layout is None,
        f matches FetchType::Mut(id) ==> writes && w.placed(id) && layout == Some(
            (w.comp_meta(id).layout.spec_size(), w.comp_meta(id).layout.spec_align()),
        ),
        f matches FetchType::Immut(id) ==> !writes && w.placed(id) && layout == Some(
            (w.comp_meta(id).layout.spec_size(), w.comp_meta(id).layout.spec_align()),
        ),
{
}

/// Item `k` of a row fetched with fetch `k` suiting a parameter is the row's entity for the
/// entity parameter, and otherwise bytes of the size of the parameter's values.
pub proof fn lemma_item_fits_parameter(
    w: World,
    a: int,
    r: int,
    fetches: Seq<FetchType>,
    items: Seq<Fetched>,
    k: int,
    layout: Option<(nat, nat)>,
    writes: bool,
)
    requires
        w.wf(),
        0 <= a < w.archetypes.len(),
        0 <= r < w.archetypes@[a].entities.len(),
        w.holds_all(a, fetched_ids(fetches)),
        fetched_at(w, a, r, fetches, items),
        0 <= k < fetches.len(),
        fetch_suits(w, fetches[k], layout, writes),
    ensures
        layout is None ==> items[k] == Fetched::Entity(w.archetypes@[a].entities@[r]),
        layout matches Some(l) ==> items[k] matches Fetched::Component(b) && b@.len() == l.0,
{
    lemma_fetched_id_listed(fetches, k);
    match fetches[k] {
        FetchType::EcsId => {},
        FetchType::Mut(id) | FetchType::Immut(id) => {
            let ids = fetched_ids(fetches);
            let j = choose|j: int| 0 <= j < ids.len() && ids[j] == id;
            assert(w.archetypes@[a].has(ids[j]));
            let arch = w.archetypes@[a];
            assert(arch.wf());
            let i = arch.comp_ids@.index_of(id);
            assert(0 <= i < arch.comp_ids.len() && arch.comp_ids@[i] == id);
            assert(arch.component_storages@[i].1.wf());
            assert(w.comp_meta(id).layout == arch.component_storages@[i].1.type_info().layout);
            arch.component_storages@[i].1.lemma_values_have_size();
            assert(arch.component_storages@[i].1@[r].len() == arch.component_storages@[i].1.elem_size());
        },
    }
}

/// Fetches that all ask for the entity ask for no component.
proof fn lemma_no_ids(fetches: Seq<FetchType>)
    requires
        forall|k: int| 0 <= k < fetches.len() ==> #[trigger] fetches[k] == FetchType::EcsId,
    ensures
        fetched_ids(fetches).len() == 0,
    decreases fetches.len(),
{
    if fetches.len() > 0 {
        lemma_no_ids(fetches.drop_last());
        assert(fetches.last() == fetches[fetches.len() - 1]);
    }
}

/// The rows of `rows_after(w, archs, k)` are the rows of the archetypes `archs[k..]`.
proof fn lemma_rows_after(w: World, archs: Seq<usize>, k: int)
    requires
        0 <= k <= archs.len(),
        forall|i: int| 0 <= i < archs.len() ==> (#[trigger] archs[i]) < w.archetypes.len(),
    ensures
        forall|a: int, r: int| #[trigger] rows_after(w, archs, k).contains((a, r)) <==> (exists|i: int|
            k <= i < archs.len() && archs[i] == a) && 0 <= r < w.archetypes@[a].entities.len(),
    decreases archs.len() - k,
{
    if k < archs.len() {
        lemma_rows_after(w, archs, k + 1);
        let head = arch_rows(w, archs[k] as int, 0);
        let tail = rows_after(w, archs, k + 1);
        assert(rows_after(w, archs, k) == head + tail);
        assert forall|a: int, r: int| #[trigger] rows_after(w, archs, k).contains((a, r)) <==> (exists|i: int|
            k <= i < archs.len() && archs[i] == a) && 0 <= r < w.archetypes@[a].entities.len() by {
            let s = head + tail;
            if s.contains((a, r)) {
                let j = choose|j: int| 0 <= j < s.len() && s[j] == (a, r);
                if j < head.len() {
                    assert(head[j] == (archs[k] as int, j));
                } else {
                    assert(tail[j - head.len()] == (a, r));
                    assert(tail.contains((a, r)));
                }
            }
            if (exists|i: int| k <= i < archs.len() && archs[i] == a) && 0 <= r < w.archetypes@[a].entities.len() {
                let i = choose|i: int| k <= i < archs.len() && archs[i] == a;
                if i == k {
                    assert(head[r] == (a, r));
                    assert(s[r] == (a, r));
                } else {
                    assert(tail.contains((a, r)));
                    let j = choose|j: int| 0 <= j < tail.len() && tail[j] == (a, r);
                    assert(s[head.len() + j] == (a, r));
                }
            }
        }
    } else {
        assert forall|a: int, r: int| #[trigger] rows_after(w, archs, k).contains((a, r)) <==> (exists|i: int|
            k <= i < archs.len() && archs[i] == a) && 0 <= r < w.archetypes@[a].entities.len() by {
        }
    }
}

/// No row appears twice in `rows_after(w, archs, k)` when the archetypes increase.
proof fn lemma_rows_after_distinct(w: World, archs: Seq<usize>, k: int)
    requires
        0 <= k <= archs.len(),
        forall|i: int, j: int| 0 <= i < j < archs.len() ==> archs[i] < archs[j],
        forall|i: int| 0 <= i < archs.len() ==> (#[trigger] archs[i]) < w.archetypes.len(),
    ensures
        rows_after(w, archs, k).no_duplicates(),
        forall|j: int| 0 <= j < rows_after(w, archs, k).len() ==> archs[k] <= #[trigger] rows_after(w, archs, k)[j].0,
    decreases archs.len() - k,
{
    if k < archs.len() {
        lemma_rows_after_distinct(w, archs, k + 1);
        let head = arch_rows(w, archs[k] as int, 0);
        let tail = rows_after(w, archs, k + 1);
        let s = head + tail;
        assert(rows_after(w, archs, k) == s);
        assert forall|a: int, b: int| 0 <= a < b < s.len() implies s[a] != s[b] by {
            if b < head.len() {
                assert(s[a] == (archs[k] as int, a) && s[b] == (archs[k] as int, b));
            } else if a < head.len() {
                assert(tail[b - head.len()] == s[b]);
                if k + 1 < archs.len() {
                    assert(archs[k + 1] <= tail[b - head.len()].0);
                    assert(archs[k] < archs[k + 1]);
                }
            } else {
                assert(tail[a - head.len()] == s[a] && tail[b - head.len()] == s[b]);
            }
        }
        assert forall|j: int| 0 <= j < s.len() implies archs[k] <= #[trigger] s[j].0 by {
            if j >= head.len() {
                assert(tail[j - head.len()] == s[j]);
                if k + 1 < archs.len() {
                    assert(archs[k + 1] <= tail[j - head.len()].0);
                    assert(archs[k] < archs[k + 1]);
                }
            }
        }
    }
}

/// A query visits every built entity that has all the components it asks for, at the entity's
/// place, exactly once, and visits no other row.
pub proof fn lemma_query_visits_each_once(w: World, archs: Seq<usize>, ids: Seq<EcsId>)
    requires
        w.wf(),
        w.lists_holding(archs, ids),
    ensures
        rows_after(w, archs, 0).no_duplicates(),
        forall|e: EcsId| w.placed(e) && (forall|k: int| 0 <= k < ids.len() ==> w.components(e).contains_key(#[trigger] ids[k]))
            ==> #[trigger] rows_after(w, archs, 0).contains((w.arch_of(e), w.row_of(e))),
        forall|j: int| 0 <= j < rows_after(w, archs, 0).len() ==> {
            let (a, r) = #[trigger] rows_after(w, archs, 0)[j];
            let e = w.archetypes@[a].entities@[r];
            &&& 0 <= a < w.archetypes.len()
            &&& 0 <= r < w.archetypes@[a].entities.len()
            &&& w.placed(e)
            &&& w.arch_of(e) == a
            &&& w.row_of(e) == r
            &&& forall|k: int| 0 <= k < ids.len() ==> w.components(e).contains_key(#[trigger] ids[k])
        },
{
    lemma_rows_after(w, archs, 0);
    lemma_rows_after_distinct(w, archs, 0);
    let rows = rows_after(w, archs, 0);
    assert forall|e: EcsId| w.placed(e) && (forall|k: int| 0 <= k < ids.len() ==> w.components(e).contains_key(#[trigger] ids[k]))
        implies #[trigger] rows.contains((w.arch_of(e), w.row_of(e))) by {
        let a = w.arch_of(e);
        assert(w.holds_all(a, ids)) by {
            assert forall|k: int| 0 <= k < ids.len() implies w.archetypes@[a].has(#[trigger] ids[k]) by {
                assert(w.components(e).contains_key(ids[k]));
            }
        }
        assert(archs.contains(a as usize));
        let i = choose|i: int| 0 <= i < archs.len() && archs[i] == a as usize;
        assert(rows.contains((a, w.row_of(e))));
    }
    assert forall|j: int| 0 <= j < rows.len() implies {
        let (a, r) = #[trigger] rows[j];
        let e = w.archetypes@[a].entities@[r];
        &&& 0 <= a < w.archetypes.len()
        &&& 0 <= r < w.archetypes@[a].entities.len()
        &&& w.placed(e)
        &&& w.arch_of(e) == a
        &&& w.row_of(e) == r
        &&& forall|k: int| 0 <= k < ids.len() ==> w.components(e).contains_key(#[trigger] ids[k])
    } by {
        let (a, r) = rows[j];
        assert(rows.contains((a, r)));
        let i = choose|i: int| 0 <= i < archs.len() && archs[i] == a;
        assert(w.holds_all(archs[i] as int, ids));
        let e = w.archetypes@[a].entities@[r];
        assert forall|k: int| 0 <= k < ids.len() implies w.components(e).contains_key(#[trigger] ids[k]) by {
            assert(w.archetypes@[a].has(ids[k]));
        }
    }
}

/// The fetches of a one-parameter query: one, suiting the parameter.
pub proof fn lemma_one_fetch_in_order<A: QueryParam>(w: World, f: Seq<FetchType>)
    requires
        <(A,) as QueryTuple>::in_order(w, f),
    ensures
        f.len() == 1,
        fetch_suits(w, f[0], A::value_layout(), A::writes()),
{
}

/// The fetches of a two-parameter query, in the order of the parameters.
pub proof fn lemma_two_fetches_in_order<A: QueryParam, B: QueryParam>(w: World, f: Seq<FetchType>)
    requires
        <(A, B) as QueryTuple>::in_order(w, f),
    ensures
        f.len() == 2,
        fetch_suits(w, f[0], A::value_layout(), A::writes()),
        fetch_suits(w, f[1], B::value_layout(), B::writes()),
{
}

/// The fetches of a three-parameter query, in the order of the parameters.
pub proof fn lemma_three_fetches_in_order<A: QueryParam, B: QueryParam, C: QueryParam>(w: World, f: Seq<FetchType>)
    requires
        <(A, B, C) as QueryTuple>::in_order(w, f),
    ensures
        f.len() == 3,
        fetch_suits(w, f[0], A::value_layout(), A::writes()),
        fetch_suits(w, f[1], B::value_layout(), B::writes()),
        fetch_suits(w, f[2], C::value_layout(), C::writes()),
{
}

/// The fetches of a four-parameter query, in the order of the parameters.
pub proof fn lemma_four_fetches_in_order<A: QueryParam, B: QueryParam, C: QueryParam, D: QueryParam>(
    w: World,
    f: Seq<FetchType>,
)
    requires
        <(A, B, C, D) as QueryTuple>::in_order(w, f),
    ensures
        f.len() == 4,
        fetch_suits(w, f[0], A::value_layout(), A::writes()),
        fetch_suits(w, f[1], B::value_layout(), B::writes()),
        fetch_suits(w, f[2], C::value_layout(), C::writes()),
        fetch_suits(w, f[3], D::value_layout(), D::writes()),
{
}

/// A read parameter `&T` reads values of the size and alignment of `T`, and an entity parameter
/// reads none.
pub proof fn lemma_parameter_layouts<'a, T: Component>()
    ensures
        <&'a T as QueryParam>::value_layout() == Some((vstd::layout::size_of::<T>(), vstd::layout::align_of::<T>())),
        !<&'a T as QueryParam>::writes(),
        <&'a mut T as QueryParam>::value_layout() == Some((vstd::layout::size_of::<T>(), vstd::layout::align_of::<T>())),
        <&'a mut T as QueryParam>::writes(),
        <EcsIds as QueryParam>::value_layout() is None,
{
}

} // verus!
