use vstd::prelude::*;

verus! {

/// A vector of at most `LEN` elements.
pub struct ArrayVec<T, const LEN: usize> {
    array: Vec<T>,
}

impl<T, const LEN: usize> ArrayVec<T, LEN> {
    pub closed spec fn view(&self) -> Seq<T> {
        self.array@
    }

    pub closed spec fn wf(&self) -> bool {
        self.array.len() <= LEN
    }

    pub fn new() -> (v: Self)
        requires
            LEN < isize::MAX,
        ensures
            v.wf(),
            v@ == Seq::<T>::empty(),
            v@.len() <= LEN,
    {
        ArrayVec { array: Vec::new() }
    }

    /// Appends `data`, or gives it back refused with `Err` when the vector is full.
    pub fn push(&mut self, data: T) -> (r: Result<(), ()>)
        requires
            old(self).wf(),
        ensures
            final(self).wf(),
            final(self)@.len() <= LEN,
            old(self)@.len() < LEN ==> r.is_ok() && final(self)@ == old(self)@.push(data),
            old(self)@.len() >= LEN ==> r.is_err() && final(self)@ == old(self)@,
    {
        if self.array.len() < LEN {
            self.array.push(data);
            return Ok(());
        }
        Err(())
    }

    /// Puts `data` first, moving the others up one place; when the vector is full the last
    /// element is dropped to make room.
    pub fn push_start(&mut self, data: T)
        requires
            old(self).wf(),
            LEN > 0,
        ensures
            final(self).wf(),
            final(self)@.len() <= LEN,
            old(self)@.len() < LEN ==> final(self)@ == seq![data] + old(self)@,
            old(self)@.len() >= LEN ==> final(self)@ == seq![data] + old(self)@.drop_last(),
    {
        if self.array.len() == LEN {
            let _ = self.array.pop();
        }
        self.array.insert(0, data);
        proof {
            if old(self)@.len() < LEN {
                assert(self@ =~= seq![data] + old(self)@);
            } else {
                assert(self@ =~= seq![data] + old(self)@.drop_last());
            }
        }
    }

    /// Removes and returns the last element.
    pub fn pop(&mut self) -> (r: Option<T>)
        requires
            old(self).wf(),
        ensures
            final(self).wf(),
            old(self)@.len() == 0 ==> r.is_none() && final(self)@ == old(self)@,
            old(self)@.len() > 0 ==> r == Some(old(self)@.last()) && final(self)@
                == old(self)@.drop_last(),
    {
        self.array.pop()
    }

    /// A vector never holds more than `LEN` elements.
    pub proof fn lemma_len_bound(&self)
        requires
            self.wf(),
        ensures
            self@.len() <= LEN,
    {
    }

    pub fn get(&self, index: usize) -> (r: Option<&T>)
        ensures
            index < self@.len() ==> r == Some(&self@[index as int]),
            index >= self@.len() ==> r.is_none(),
    {
        if index < self.array.len() {
            return Some(&self.array[index]);
        }
        None
    }

    pub fn len(&self) -> (n: usize)
        requires
            self.wf(),
        ensures
            n == self@.len(),
            n <= LEN,
    {
        self.array.len()
    }

    pub fn as_slice(&self) -> (s: &[T])
        ensures
            s@ == self@,
    {
        self.array.as_slice()
    }
}

/// Popping right after a successful push gives the pushed element back and leaves the elements
/// as they were before the push.
pub proof fn lemma_push_then_pop<T>(before: Seq<T>, pushed: Seq<T>, data: T)
    requires
        pushed == before.push(data),
    ensures
        pushed.len() > 0,
        pushed.last() == data,
        pushed.drop_last() == before,
{
    assert(pushed.drop_last() =~= before);
}

} // verus!
