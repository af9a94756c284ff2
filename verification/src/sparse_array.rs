use vstd::prelude::*;

verus! {

/// A map from indices to values that stores them in pages of `PAGE_SIZE` slots, allocating a
/// page only once a value is put in it.
pub struct SparseArray<T, const PAGE_SIZE: usize> {
    sparse: Vec<Option<Vec<Option<T>>>>,
}

impl<T, const PAGE_SIZE: usize> SparseArray<T, PAGE_SIZE> {
    /// Every allocated page has `PAGE_SIZE` slots.
    pub closed spec fn wf(&self) -> bool {
        &&& PAGE_SIZE > 0
        &&& forall|p: int| 0 <= p < self.sparse.len() && (#[trigger] self.sparse@[p]).is_some()
            ==> self.sparse@[p].unwrap().len() == PAGE_SIZE
    }

    /// Number of pages, allocated or not.
    pub closed spec fn pages(&self) -> nat {
        self.sparse@.len()
    }

    /// The value at `index`, if any.
    pub closed spec fn value_at(&self, index: int) -> Option<T> {
        let p = index / PAGE_SIZE as int;
        if 0 <= index && p < self.sparse.len() && self.sparse@[p].is_some() {
            self.sparse@[p].unwrap()@[index % PAGE_SIZE as int]
        } else {
            None
        }
    }

    pub fn new() -> (a: Self)
        requires
            PAGE_SIZE > 0,
        ensures
            a.wf(),
            a.pages() == 0,
            forall|i: int| #[trigger] a.value_at(i).is_none(),
    {
        SparseArray { sparse: Vec::new() }
    }

    fn empty_page() -> (page: Vec<Option<T>>)
        ensures
            page.len() == PAGE_SIZE,
            forall|k: int| 0 <= k < PAGE_SIZE ==> (#[trigger] page@[k]).is_none(),
    {
        let mut page: Vec<Option<T>> = Vec::new();
        while page.len() < PAGE_SIZE
            invariant
                page.len() <= PAGE_SIZE,
                forall|k: int| 0 <= k < page.len() ==> (#[trigger] page@[k]).is_none(),
            decreases PAGE_SIZE - page.len(),
        {
            page.push(None);
        }
        page
    }

    /// An array with `capacity` pages allocated up front.
    pub fn with_capacity(capacity: usize) -> (a: Self)
        requires
            PAGE_SIZE > 0,
        ensures
            a.wf(),
            a.pages() == capacity,
            forall|i: int| #[trigger] a.value_at(i).is_none(),
    {
        let mut sparse: Vec<Option<Vec<Option<T>>>> = Vec::with_capacity(capacity);
        let mut n: usize = 0;
        while n < capacity
            invariant
                n <= capacity,
                sparse.len() == n,
                PAGE_SIZE > 0,
                forall|p: int| 0 <= p < sparse.len() ==> (#[trigger] sparse@[p]).is_some()
                    && sparse@[p].unwrap().len() == PAGE_SIZE
                    && forall|k: int| 0 <= k < PAGE_SIZE ==> (#[trigger] sparse@[p].unwrap()@[k]).is_none(),
            decreases capacity - n,
        {
            sparse.push(Some(Self::empty_page()));
            n = n + 1;
        }
        let a = SparseArray { sparse };
        proof {
            assert forall|i: int| #[trigger] a.value_at(i).is_none() by {
                let p = i / PAGE_SIZE as int;
                if 0 <= i && p < a.sparse.len() {
                    assert(0 <= i % (PAGE_SIZE as int) < PAGE_SIZE);
                }
            }
        }
        a
    }

    /// The value at `index`. An index past the pages of the array is refused.
    pub fn get(&self, index: usize) -> (r: Option<&T>)
        requires
            self.wf(),
            index / PAGE_SIZE < self.pages(),
        ensures
            r == match self.value_at(index as int) {
                Some(v) => Some(&v),
                None => None,
            },
    {
        match &self.sparse[index / PAGE_SIZE] {
            Some(page) => match &page[index % PAGE_SIZE] {
                Some(v) => Some(v),
                None => None,
            },
            None => None,
        }
    }

    /// A mutable reference to the value at `index`, if any. An index past the pages of the array
    /// is refused.
    pub fn get_mut(&mut self, index: usize) -> (r: Option<&mut T>)
        requires
            old(self).wf(),
            index / PAGE_SIZE < old(self).pages(),
        ensures
            r is Some <==> old(self).value_at(index as int) is Some,
            r matches Some(v) ==> {
                &&& *v == old(self).value_at(index as int).unwrap()
                &&& final(self).value_at(index as int) == Some(*final(v))
                &&& forall|i: int| i != index ==> #[trigger] final(self).value_at(i) == old(self).value_at(i)
                &&& final(self).wf()
                &&& final(self).pages() == old(self).pages()
            },
            r is None ==> {
                &&& forall|i: int| #[trigger] final(self).value_at(i) == old(self).value_at(i)
                &&& final(self).wf()
                &&& final(self).pages() == old(self).pages()
            },
    {
        let pi = index / PAGE_SIZE;
        let off = index % PAGE_SIZE;
        proof {
            assert forall|i: int| 0 <= i && i != index && i / PAGE_SIZE as int == pi implies #[trigger] (i % PAGE_SIZE as int) != off by {
                vstd::arithmetic::div_mod::lemma_fundamental_div_mod(i, PAGE_SIZE as int);
                vstd::arithmetic::div_mod::lemma_fundamental_div_mod(index as int, PAGE_SIZE as int);
            }
            assert(0 <= off < PAGE_SIZE);
        }
        match &mut self.sparse[pi] {
            Some(page) => match &mut page[off] {
                Some(v) => Some(v),
                None => None,
            },
            None => None,
        }
    }

    /// Puts `data` at `index`, allocating its page (and the pages before it) as needed, and
    /// returns the value that was there.
    pub fn insert(&mut self, index: usize, data: T) -> (r: Option<T>)
        requires
            old(self).wf(),
        ensures
            final(self).wf(),
            r == old(self).value_at(index as int),
            final(self).value_at(index as int) == Some(data),
            forall|i: int| i != index ==> #[trigger] final(self).value_at(i) == old(self).value_at(i),
            final(self).pages() == (if index / PAGE_SIZE < old(self).pages() {
                old(self).pages()
            } else {
                (index / PAGE_SIZE + 1) as nat
            }),
    {
        let pi = index / PAGE_SIZE;
        let ghost old_sparse = self.sparse@;
        while self.sparse.len() <= pi
            invariant
                PAGE_SIZE > 0,
                pi == index / PAGE_SIZE,
                self.sparse.len() >= old_sparse.len(),
                self.sparse.len() <= pi + 1 || self.sparse.len() == old_sparse.len(),
                forall|p: int| 0 <= p < old_sparse.len() ==> self.sparse@[p] == old_sparse[p],
                forall|p: int| old_sparse.len() <= p < self.sparse.len() ==> (#[trigger] self.sparse@[p]).is_none(),
                forall|p: int| 0 <= p < self.sparse.len() && (#[trigger] self.sparse@[p]).is_some()
                    ==> self.sparse@[p].unwrap().len() == PAGE_SIZE,
            decreases pi + 1 - self.sparse.len(),
        {
            self.sparse.push(None);
        }
        let mut page = match self.sparse[pi].take() {
            Some(page) => page,
            None => Self::empty_page(),
        };
        let off = index % PAGE_SIZE;
        let previous = page[off].take();
        page.set(off, Some(data));
        self.sparse.set(pi, Some(page));
        proof {
            assert forall|i: int| i != index implies #[trigger] self.value_at(i) == old(self).value_at(i) by {
                let p = i / PAGE_SIZE as int;
                if 0 <= i && p == pi {
                    vstd::arithmetic::div_mod::lemma_fundamental_div_mod(i, PAGE_SIZE as int);
                    vstd::arithmetic::div_mod::lemma_fundamental_div_mod(index as int, PAGE_SIZE as int);
                    assert(i % (PAGE_SIZE as int) != off);
                }
            }
        }
        previous
    }

    /// Takes the value at `index` out, if any.
    pub fn remove(&mut self, index: usize) -> (r: Option<T>)
        requires
            old(self).wf(),
        ensures
            final(self).wf(),
            r == old(self).value_at(index as int),
            final(self).value_at(index as int).is_none(),
            forall|i: int| i != index ==> #[trigger] final(self).value_at(i) == old(self).value_at(i),
            final(self).pages() == old(self).pages(),
    {
        let pi = index / PAGE_SIZE;
        if pi >= self.sparse.len() {
            return None;
        }
        let mut page = match self.sparse[pi].take() {
            Some(page) => page,
            None => {
                return None;
            },
        };
        let previous = page[index % PAGE_SIZE].take();
        self.sparse.set(pi, Some(page));
        proof {
            assert forall|i: int| i != index implies #[trigger] self.value_at(i) == old(self).value_at(i) by {
                let p = i / PAGE_SIZE as int;
                if 0 <= i && p == pi {
                    vstd::arithmetic::div_mod::lemma_fundamental_div_mod(i, PAGE_SIZE as int);
                    vstd::arithmetic::div_mod::lemma_fundamental_div_mod(index as int, PAGE_SIZE as int);
                    assert(i % (PAGE_SIZE as int) != index % PAGE_SIZE);
                }
            }
        }
        previous
    }
}

/// Removing a value right after inserting it gives the inserted value back, leaves the index
/// empty and every other index as it was before the insertion.
pub proof fn lemma_insert_then_remove<T, const PAGE_SIZE: usize>(
    before: SparseArray<T, PAGE_SIZE>,
    inserted: SparseArray<T, PAGE_SIZE>,
    removed: SparseArray<T, PAGE_SIZE>,
    index: int,
    data: T,
    returned: Option<T>,
)
    requires
        inserted.value_at(index) == Some(data),
        forall|i: int| i != index ==> #[trigger] inserted.value_at(i) == before.value_at(i),
        returned == inserted.value_at(index),
        removed.value_at(index).is_none(),
        forall|i: int| i != index ==> #[trigger] removed.value_at(i) == inserted.value_at(i),
    ensures
        returned == Some(data),
        removed.value_at(index).is_none(),
        forall|i: int| i != index ==> #[trigger] removed.value_at(i) == before.value_at(i),
{
}

} // verus!
