use vstd::prelude::*;
use crate::entities::EcsId;
use crate::static_query::{StaticQuery, fetched_ids};
use crate::world::World;

verus! {

/// What a query asks for at each entity it visits: its identifier, or the value of a component
/// (to be written, or only read).
#[derive(Clone, Copy, Debug, PartialEq, Eq, Structural)]
pub enum FetchType {
    EcsId,
    Mut(EcsId),
    Immut(EcsId),
}

impl World {
    /// A query with the given fetches. When a component it asks for is not an alive entity, the
    /// query has no fetches and finds nothing.
    pub fn query_dynamic(&self, fetches: Vec<FetchType>) -> (q: StaticQuery<'_>)
        requires
            self.wf(),
        ensures
            q.world == self,
            (forall|k: int| 0 <= k < fetched_ids(fetches@).len() ==> self.alive(#[trigger] fetched_ids(fetches@)[k]))
                ==> q.fetches == Some(fetches),
            !(forall|k: int| 0 <= k < fetched_ids(fetches@).len() ==> self.alive(#[trigger] fetched_ids(fetches@)[k]))
                ==> q.fetches is None,
    {
        let mut k: usize = 0;
        while k < fetches.len()
            invariant
                self.wf(),
                k <= fetches.len(),
                forall|j: int| 0 <= j < fetched_ids(fetches@.take(k as int)).len() ==> self.alive(
                    #[trigger] fetched_ids(fetches@.take(k as int))[j],
                ),
            decreases fetches.len() - k,
        {
            proof {
                assert(fetches@.take(k + 1).drop_last() =~= fetches@.take(k as int));
                assert(fetches@.take(k + 1).last() == fetches@[k as int]);
            }
            match fetches[k] {
                FetchType::EcsId => {
                    proof {
                        assert(fetched_ids(fetches@.take(k + 1)) == fetched_ids(fetches@.take(k as int)));
                    }
                },
                FetchType::Mut(id) | FetchType::Immut(id) => {
                    proof {
                        assert(fetched_ids(fetches@.take(k + 1)) == fetched_ids(fetches@.take(k as int)).push(id));
                    }
                    let known = id.uindex() < self.entities.generations.len() && self.entities.is_handed_out(id);
                    if !known {
                        proof {
                            let f = fetched_ids(fetches@);
                            let m = fetched_ids(fetches@.take(k + 1)).len() - 1;
                            assert(fetched_ids(fetches@.take(k + 1))[m] == id);
                            lemma_prefix_ids(fetches@, k + 1);
                            assert(f[m] == id);
                        }
                        return StaticQuery { world: self, fetches: None };
                    }
                },
            }
            k = k + 1;
        }
        proof {
            assert(fetches@.take(k as int) =~= fetches@);
        }
        StaticQuery { world: self, fetches: Some(fetches) }
    }
}

/// The identifiers asked for by a prefix of the fetches start those asked for by all of them.
proof fn lemma_prefix_ids(fetches: Seq<FetchType>, n: int)
    requires
        0 <= n <= fetches.len(),
    ensures
        fetched_ids(fetches.take(n)).len() <= fetched_ids(fetches).len(),
        forall|j: int| 0 <= j < fetched_ids(fetches.take(n)).len() ==> #[trigger] fetched_ids(fetches.take(n))[j]
            == fetched_ids(fetches)[j],
    decreases fetches.len() - n,
{
    if n < fetches.len() {
        lemma_prefix_ids(fetches, n + 1);
        assert(fetches.take(n + 1).drop_last() =~= fetches.take(n));
        assert(fetches.take(n + 1).last() == fetches[n]);
        let a = fetched_ids(fetches.take(n));
        let b = fetched_ids(fetches.take(n + 1));
        assert(b.len() >= a.len() && forall|j: int| 0 <= j < a.len() ==> b[j] == a[j]);
    } else {
        assert(fetches.take(n) =~= fetches);
    }
}

} // verus!
