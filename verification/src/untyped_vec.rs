use vstd::prelude::*;

verus! {

use vstd::arithmetic::power2::is_pow2;

fn check_pow2(n: usize) -> (b: bool)
    ensures
        b == is_pow2(n as int),
{
    let mut m = n;
    proof {
        reveal(is_pow2);
    }
    while m > 1 && m % 2 == 0
        invariant
            is_pow2(m as int) == is_pow2(n as int),
        decreases m,
    {
        proof {
            reveal(is_pow2);
        }
        m = m / 2;
    }
    proof {
        reveal(is_pow2);
    }
    m == 1
}

/// The size and alignment of the values a component holds.
#[derive(Clone, Copy, Debug, PartialEq, Eq, Structural)]
pub struct Layout {
    size: usize,
    align: usize,
}

/// The size and alignment given to `Layout::from_size_align` do not form a layout.
#[derive(Clone, Copy, Debug, PartialEq, Eq, Structural)]
pub struct LayoutError;

/// The alignment is a power of two and the size, rounded up to it, stays within `isize::MAX`.
pub open spec fn valid_layout(size: nat, align: nat) -> bool {
    &&& is_pow2(align as int)
    &&& size <= isize::MAX as int - (isize::MAX as int % align as int)
}

impl Layout {
    pub closed spec fn spec_size(&self) -> nat {
        self.size as nat
    }

    pub closed spec fn spec_align(&self) -> nat {
        self.align as nat
    }

    pub closed spec fn wf(&self) -> bool {
        valid_layout(self.size as nat, self.align as nat)
    }

    pub fn from_size_align(size: usize, align: usize) -> (r: Result<Layout, LayoutError>)
        ensures
            r.is_ok() <==> valid_layout(size as nat, align as nat),
            r matches Ok(l) ==> l.spec_size() == size && l.spec_align() == align && l.wf(),
    {
        if !check_pow2(align) {
            return Err(LayoutError);
        }
        proof {
            reveal(is_pow2);
        }
        let max: usize = isize::MAX as usize;
        let slack: usize = max % align;
        proof {
            vstd::arithmetic::div_mod::lemma_mod_bound(max as int, align as int);
            if max < align {
                vstd::arithmetic::div_mod::lemma_small_mod(max as nat, align as nat);
            }
        }
        if size > max - slack {
            return Err(LayoutError);
        }
        Ok(Layout { size, align })
    }

    /// The layout of `()`: size 0, alignment 1.
    pub fn unit() -> (l: Layout)
        ensures
            l.spec_size() == 0,
            l.spec_align() == 1,
            l.wf(),
    {
        proof {
            reveal(is_pow2);
        }
        Layout { size: 0, align: 1 }
    }

    pub fn size(&self) -> (s: usize)
        ensures
            s == self.spec_size(),
    {
        self.size
    }

    pub fn align(&self) -> (a: usize)
        ensures
            a == self.spec_align(),
    {
        self.align
    }
}

/// What a component storage knows about the values it holds.
#[derive(Clone, Copy, Debug, PartialEq, Eq, Structural)]
pub struct TypeInfo {
    pub layout: Layout,
}

impl TypeInfo {
    pub fn new(layout: Layout) -> (t: TypeInfo)
        ensures
            t.layout == layout,
    {
        TypeInfo { layout }
    }

    /// The address an empty storage of this type points at: the alignment itself.
    pub fn dangling(&self) -> (addr: usize)
        ensures
            addr == self.layout.spec_align(),
    {
        self.layout.align()
    }
}

/// A vector of values of one size, each held as its bytes.
///
/// `len` counts bytes, except for values of size 0, where it counts values.
pub struct UntypedVec {
    type_info: TypeInfo,
    data: Vec<Vec<u8>>,
    len: usize,
}

impl UntypedVec {
    pub closed spec fn type_info(&self) -> TypeInfo {
        self.type_info
    }

    pub open spec fn elem_size(&self) -> nat {
        self.type_info().layout.spec_size()
    }

    /// The values held, each as its bytes.
    pub closed spec fn view(&self) -> Seq<Seq<u8>> {
        Seq::new(self.data@.len(), |i: int| self.data@[i]@)
    }

    /// The length in bytes (in values, for values of size 0).
    pub closed spec fn spec_raw_len(&self) -> nat {
        self.len as nat
    }

    pub closed spec fn wf(&self) -> bool {
        &&& self.type_info.layout.wf()
        &&& forall|i: int| 0 <= i < self.data.len() ==> (#[trigger] self.data@[i])@.len() == self.elem_size()
        &&& self.elem_size() == 0 ==> self.len == self.data.len()
        &&& self.elem_size() > 0 ==> self.len == self.data.len() * self.elem_size()
    }

    /// The vector can take one more value without its byte length passing `isize::MAX`.
    pub open spec fn can_push(&self) -> bool {
        if self.elem_size() == 0 {
            self.spec_raw_len() < usize::MAX
        } else {
            self.spec_raw_len() + self.elem_size() <= isize::MAX
        }
    }

    /// Every value has the size of the vector's values.
    pub proof fn lemma_values_have_size(&self)
        requires
            self.wf(),
        ensures
            forall|i: int| 0 <= i < self@.len() ==> (#[trigger] self@[i]).len() == self.elem_size(),
    {
    }

    /// An empty vector can take a value.
    pub proof fn lemma_empty_can_push(&self)
        requires
            self.wf(),
            self@.len() == 0,
        ensures
            self.can_push(),
    {
        reveal(is_pow2);
        if self.elem_size() > 0 {
            vstd::arithmetic::mul::lemma_mul_basics(self.elem_size() as int);
            vstd::arithmetic::div_mod::lemma_mod_bound(isize::MAX as int, self.type_info.layout.spec_align() as int);
        }
    }

    /// An empty vector for values of the given type.
    pub fn new_from_raw(type_info: TypeInfo) -> (v: Self)
        requires
            type_info.layout.wf(),
        ensures
            v.wf(),
            v@ == Seq::<Seq<u8>>::empty(),
            v.type_info() == type_info,
            v.spec_raw_len() == 0,
    {
        UntypedVec { type_info, data: Vec::new(), len: 0 }
    }

    /// An empty vector for the values of another.
    pub fn new_from_untyped_vec(from: &UntypedVec) -> (v: Self)
        requires
            from.wf(),
        ensures
            v.wf(),
            v@ == Seq::<Seq<u8>>::empty(),
            v.type_info() == from.type_info(),
            v.spec_raw_len() == 0,
    {
        Self::new_from_raw(from.type_info)
    }

    pub fn get_type_info(&self) -> (t: TypeInfo)
        ensures
            t == self.type_info(),
    {
        self.type_info
    }

    /// The number of values.
    pub fn len(&self) -> (n: usize)
        requires
            self.wf(),
        ensures
            n == self@.len(),
    {
        self.data.len()
    }

    /// The length in bytes: the number of values times their size, so 0 for values of size 0.
    pub fn raw_len(&self) -> (n: usize)
        requires
            self.wf(),
        ensures
            n == self@.len() * self.elem_size(),
    {
        if self.type_info.layout.size() == 0 {
            proof {
                vstd::arithmetic::mul::lemma_mul_basics(self@.len() as int);
            }
            0
        } else {
            proof {
                vstd::arithmetic::mul::lemma_mul_is_commutative(self.data.len() as int, self.elem_size() as int);
            }
            self.len
        }
    }

    /// Whether the vector can take one more value.
    pub fn has_room(&self) -> (b: bool)
        requires
            self.wf(),
        ensures
            b == self.can_push(),
    {
        let size = self.type_info.layout.size();
        if size == 0 {
            self.len < usize::MAX
        } else {
            let max: usize = isize::MAX as usize;
            self.len <= max && size <= max - self.len
        }
    }

    pub fn is_empty(&self) -> (b: bool)
        requires
            self.wf(),
        ensures
            b == (self@.len() == 0),
    {
        proof {
            if self.elem_size() > 0 && self.data.len() > 0 {
                vstd::arithmetic::mul::lemma_mul_strictly_positive(self.data.len() as int, self.elem_size() as int);
            }
            if self.elem_size() > 0 && self.data.len() == 0 {
                vstd::arithmetic::mul::lemma_mul_basics(self.elem_size() as int);
            }
        }
        self.len == 0
    }

    /// Appends a value given as its bytes.
    pub fn push_raw(&mut self, src: &[u8])
        requires
            old(self).wf(),
            src@.len() == old(self).elem_size(),
            old(self).can_push(),
        ensures
            final(self).wf(),
            final(self)@ == old(self)@.push(src@),
            final(self).type_info() == old(self).type_info(),
    {
        let size = self.type_info.layout.size();
        let bytes = vstd::slice::slice_to_vec(src);
        proof {
            if size > 0 {
                vstd::arithmetic::mul::lemma_mul_is_distributive_add_other_way(size as int, self.data.len() as int, 1);
            }
        }
        self.data.push(bytes);
        if size == 0 {
            self.len = self.len + 1;
        } else {
            self.len = self.len + size;
        }
        proof {
            assert(self@ =~= old(self)@.push(src@));
        }
    }

    /// The bytes of value `element`, if there is one.
    pub fn get_raw(&self, element: usize) -> (r: Option<&[u8]>)
        requires
            self.wf(),
        ensures
            element < self@.len() ==> r.is_some() && r.unwrap()@ == self@[element as int],
            element >= self@.len() ==> r.is_none(),
    {
        if element < self.data.len() {
            Some(self.data[element].as_slice())
        } else {
            None
        }
    }

    /// The bytes of value `element`, to be read or written in place, if there is such a value.
    pub fn get_mut_raw(&mut self, element: usize) -> (r: Option<&mut [u8]>)
        requires
            old(self).wf(),
        ensures
            element >= old(self)@.len() ==> r is None && *final(self) == *old(self),
            element < old(self)@.len() ==> r is Some,
            r matches Some(b) ==> {
                &&& b@ == old(self)@[element as int]
                &&& final(self)@ == old(self)@.update(element as int, final(b)@)
                &&& final(self).type_info() == old(self).type_info()
                &&& final(b)@.len() == b@.len() ==> final(self).wf()
            },
    {
        if element < self.data.len() {
            Some(self.data[element].as_mut_slice())
        } else {
            None
        }
    }

    /// Takes the last value out and hands back its bytes, for the owner of the values to drop;
    /// `None` if there is none.
    pub fn take_last(&mut self) -> (r: Option<Vec<u8>>)
        requires
            old(self).wf(),
        ensures
            final(self).wf(),
            final(self).type_info() == old(self).type_info(),
            old(self)@.len() == 0 ==> r is None && final(self)@ == old(self)@,
            old(self)@.len() > 0 ==> (r matches Some(v) && v@ == old(self)@.last()) && final(self)@ == old(self)@.drop_last(),
    {
        let size = self.type_info.layout.size();
        proof {
            if size > 0 && self.data.len() > 0 {
                vstd::arithmetic::mul::lemma_mul_is_distributive_sub_other_way(size as int, self.data.len() as int, 1);
            }
            if size > 0 && self.data.len() == 0 {
                assert(self.len == 0);
            }
        }
        match self.data.pop() {
            Some(v) => {
                if size == 0 {
                    self.len = self.len - 1;
                } else {
                    self.len = self.len - size;
                }
                proof {
                    assert(self@ =~= old(self)@.drop_last());
                }
                Some(v)
            },
            None => {
                proof {
                    assert(self@ =~= old(self)@);
                }
                None
            },
        }
    }

    /// Takes the last value out; `false` if there is none. Its bytes are discarded: the values
    /// are bytes here, and running their destructor is for the owner of the values, through
    /// `take_last`.
    pub fn pop(&mut self) -> (popped: bool)
        requires
            old(self).wf(),
        ensures
            final(self).wf(),
            popped == (old(self)@.len() > 0),
            popped ==> final(self)@ == old(self)@.drop_last(),
            !popped ==> final(self)@ == old(self)@,
            final(self).type_info() == old(self).type_info(),
    {
        self.take_last().is_some()
    }

    /// Takes value `element` out, putting the last value in its place, and hands back its bytes
    /// for the owner of the values to drop.
    pub fn swap_remove(&mut self, element: usize) -> (removed: Vec<u8>)
        requires
            old(self).wf(),
            element < old(self)@.len(),
        ensures
            final(self).wf(),
            final(self)@ == swap_removed(old(self)@, element as int),
            final(self).type_info() == old(self).type_info(),
            removed@ == old(self)@[element as int],
    {
        let last = self.data.len() - 1;
        if element != last {
            let moved = self.data.pop().unwrap();
            let removed = self.data[element].clone();
            self.data.set(element, moved);
            let size = self.type_info.layout.size();
            proof {
                if size > 0 {
                    vstd::arithmetic::mul::lemma_mul_is_distributive_sub_other_way(size as int, old(self).data.len() as int, 1);
                }
            }
            if size == 0 {
                self.len = self.len - 1;
            } else {
                self.len = self.len - size;
            }
            proof {
                assert(self@ =~= swap_removed(old(self)@, element as int));
            }
            removed
        } else {
            let removed = self.take_last().unwrap();
            proof {
                assert(self@ =~= swap_removed(old(self)@, element as int));
            }
            removed
        }
    }

    /// Moves value `element` to the end of `other`, putting the last value of `self` in its
    /// place. Both vectors must hold values of the same type.
    pub fn swap_move_element_to_other_vec(&mut self, other: &mut UntypedVec, element: usize)
        requires
            old(self).wf(),
            old(other).wf(),
            old(self).type_info() == old(other).type_info(),
            element < old(self)@.len(),
            old(other).can_push(),
        ensures
            final(self).wf(),
            final(other).wf(),
            final(self)@ == swap_removed(old(self)@, element as int),
            final(other)@ == old(other)@.push(old(self)@[element as int]),
            final(self).type_info() == old(self).type_info(),
            final(other).type_info() == old(other).type_info(),
    {
        other.push_raw(self.data[element].as_slice());
        self.swap_remove(element);
    }
}

/// The sequence after `swap_remove(i)`: the last element takes the place of element `i`.
pub open spec fn swap_removed<T>(s: Seq<T>, i: int) -> Seq<T> {
    if i == s.len() - 1 {
        s.drop_last()
    } else {
        s.drop_last().update(i, s.last())
    }
}

} // verus!
