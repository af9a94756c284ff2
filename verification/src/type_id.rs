use vstd::prelude::*;

verus! {

/// The native-endian value of eight bytes: their little-endian value on a little-endian machine,
/// their big-endian value on a big-endian one.
pub open spec fn le_value(b: Seq<u8>) -> int
    decreases b.len(),
{
    if b.len() == 0 {
        0
    } else {
        b[0] as int + 256 * le_value(b.drop_first())
    }
}

/// The hasher of type identifiers: it keeps the native-endian value of the eight bytes it was
/// last given; it is given eight bytes at a time.
#[derive(Clone, Copy, Debug, Default, PartialEq, Eq, Structural)]
pub struct TypeIdHasher(pub u64);

impl std::hash::Hasher for TypeIdHasher {
    /// Keeps the value of `bytes`, which must be eight, as a type identifier writes them.
    fn write(&mut self, bytes: &[u8])
        requires
            bytes@.len() == 8,
        ensures
            final(self).0 == le_value(bytes@) || final(self).0 == le_value(bytes@.reverse()),
    {
        let word = [bytes[0], bytes[1], bytes[2], bytes[3], bytes[4], bytes[5], bytes[6], bytes[7]];
        proof {
            assert(word@ =~= bytes@);
        }
        self.0 = u64_from_ne_bytes(word);
    }

    fn finish(&self) -> (r: u64)
        ensures
            r == self.0,
    {
        self.0
    }
}

/// `u64::from_ne_bytes`: the value of the bytes in the machine's byte order.
#[verifier::external_body]
fn u64_from_ne_bytes(bytes: [u8; 8]) -> (r: u64)
    ensures
        r == le_value(bytes@) || r == le_value(bytes@.reverse()),
{
    u64::from_ne_bytes(bytes)
}

/// Builds the hashers of type identifiers, each starting from 0.
#[derive(Clone, Copy, Debug, PartialEq, Eq, Structural)]
pub struct TypeIdHasherBuilder();

impl std::hash::BuildHasher for TypeIdHasherBuilder {
    type Hasher = TypeIdHasher;

    fn build_hasher(&self) -> (h: TypeIdHasher)
        ensures
            h.0 == 0,
    {
        TypeIdHasher(0)
    }
}

/// Anything that can be a component.
pub trait Component: 'static {}

impl<T: 'static> Component for T {}

#[verifier::external_type_specification]
#[verifier::external_body]
pub struct ExTypeId(std::any::TypeId);

/// `TypeId::of::<T>()`: the identifier of the type `T`. Nothing is stated of it.
#[verifier::external_body]
pub(crate) fn type_id_of<T: ?Sized + 'static>() -> std::any::TypeId {
    std::any::TypeId::of::<T>()
}

/// `<TypeId as PartialEq>::eq`: whether two type identifiers are equal. Nothing is stated of the
/// answer.
#[verifier::external_body]
pub(crate) fn type_id_eq(a: &std::any::TypeId, b: &std::any::TypeId) -> bool {
    *a == *b
}

/// `<TypeId as Hash>::hash`: feeds a type identifier to a `DefaultHasher`. Nothing is stated of
/// the hasher's new state.
#[verifier::external_body]
fn hash_type_id(id: &std::any::TypeId, hasher: &mut std::collections::hash_map::DefaultHasher) {
    std::hash::Hash::hash(id, hasher)
}

/// The key of the type `T` in the world's table of component types: its type identifier, hashed
/// by a fresh `DefaultHasher`.
pub fn type_key<T: Component>() -> u64 {
    let id = type_id_of::<T>();
    let mut hasher = std::collections::hash_map::DefaultHasher::new();
    hash_type_id(&id, &mut hasher);
    std::hash::Hasher::finish(&hasher)
}

} // verus!
