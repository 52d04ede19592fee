//! Compact, type-tagged integer identifiers for graph entities.
//!
//! A handle is an index into one of the frame graph's entity arrays, tagged
//! with the entity type it refers to so that, say, a pass-node handle cannot
//! be confused with a resource handle. An all-ones index is the sentinel for
//! a handle that has not been initialized.

use vstd::prelude::*;

verus! {

use vstd::std_specs::cmp::PartialOrdSpec;

/// Sentinel index of a handle that does not refer to any entity.
pub const UNINITIALIZED_HANDLE_INDEX: usize = usize::MAX;

/// An untyped index into one of the frame graph's entity arrays.
///
/// Graph entities refer to each other through these; the typed wrappers
/// [`TypeHandle`] and [`TypedHandle`] tag them at the API boundary.
#[derive(Debug, Clone, Copy, Hash, PartialEq, Eq, Structural)]
pub struct Handle {
    pub index: usize,
}

impl Handle {
    /// Whether the handle refers to an entity at all.
    pub open spec fn spec_is_valid(self) -> bool {
        self.index != UNINITIALIZED_HANDLE_INDEX
    }

    pub fn new(index: usize) -> (r: Self)
        ensures
            r.index == index,
    {
        Handle { index }
    }

    pub fn is_valid(&self) -> (r: bool)
        ensures
            r == self.spec_is_valid(),
    {
        self.index != UNINITIALIZED_HANDLE_INDEX
    }
}

impl Default for Handle {
    /// A freshly defaulted handle refers to nothing.
    fn default() -> (r: Self)
        ensures
            !r.spec_is_valid(),
    {
        Handle { index: UNINITIALIZED_HANDLE_INDEX }
    }
}

/// A typed index into one of the frame graph's entity arrays.
///
/// The phantom tag `T` records which entity array the index refers to.
pub struct TypeHandle<T> {
    index: usize,
    _marker: core::marker::PhantomData<T>,
}

impl<T> TypeHandle<T> {
    /// The index this handle carries.
    pub closed spec fn spec_index(self) -> usize {
        self.index
    }

    /// Whether the handle refers to an entity at all.
    pub open spec fn spec_is_valid(self) -> bool {
        self.spec_index() != UNINITIALIZED_HANDLE_INDEX
    }

    pub fn new(index: usize) -> (r: Self)
        ensures
            r.spec_index() == index,
    {
        TypeHandle { index, _marker: core::marker::PhantomData }
    }

    pub fn index(&self) -> (r: usize)
        ensures
            r == self.spec_index(),
    {
        self.index
    }

    pub fn is_valid(&self) -> (r: bool)
        ensures
            r == self.spec_is_valid(),
    {
        self.index != UNINITIALIZED_HANDLE_INDEX
    }

    /// The untyped handle this typed index stands for.
    pub fn handle(&self) -> (r: Handle)
        ensures
            r.index == self.spec_index(),
    {
        Handle { index: self.index }
    }
}

impl<T> Clone for TypeHandle<T> {
    fn clone(&self) -> (r: Self)
        ensures
            r == *self,
    {
        TypeHandle { index: self.index, _marker: core::marker::PhantomData }
    }
}

impl<T> Copy for TypeHandle<T> {}

impl<T> PartialEq for TypeHandle<T> {
    fn eq(&self, other: &Self) -> (r: bool)
        ensures
            r == (self.spec_index() == other.spec_index()),
    {
        self.index == other.index
    }
}

impl<T> Eq for TypeHandle<T> {}

impl<T> vstd::std_specs::cmp::PartialEqSpecImpl for TypeHandle<T> {
    open spec fn obeys_eq_spec() -> bool {
        true
    }

    open spec fn eq_spec(&self, other: &Self) -> bool {
        self.spec_index() == other.spec_index()
    }
}

impl<T> Default for TypeHandle<T> {
    /// A freshly defaulted handle refers to nothing.
    fn default() -> (r: Self)
        ensures
            !r.spec_is_valid(),
    {
        TypeHandle { index: UNINITIALIZED_HANDLE_INDEX, _marker: core::marker::PhantomData }
    }
}

/// A typed handle at the public API surface.
///
/// Where [`TypeHandle`] indexes the graph's internal entity arrays, a
/// `TypedHandle` is handed to callers; two typed handles with different
/// resource-type tags are distinct types and cannot be interchanged.
#[derive(Debug)]
pub struct TypedHandle<ResourceType> {
    pub index: usize,
    pub _marker: core::marker::PhantomData<ResourceType>,
}

impl<ResourceType> TypedHandle<ResourceType> {
    /// Whether the handle refers to a resource at all.
    pub open spec fn spec_is_valid(self) -> bool {
        self.index != UNINITIALIZED_HANDLE_INDEX
    }

    pub fn new(index: usize) -> (r: Self)
        ensures
            r.index == index,
    {
        TypedHandle { index, _marker: core::marker::PhantomData }
    }

    pub fn is_valid(&self) -> (r: bool)
        ensures
            r == self.spec_is_valid(),
    {
        self.index != UNINITIALIZED_HANDLE_INDEX
    }

    /// The untyped handle this typed handle stands for.
    pub fn handle(&self) -> (r: Handle)
        ensures
            r.index == self.index,
    {
        Handle { index: self.index }
    }
}

impl<ResourceType> Clone for TypedHandle<ResourceType> {
    fn clone(&self) -> (r: Self)
        ensures
            r == *self,
    {
        TypedHandle { index: self.index, _marker: core::marker::PhantomData }
    }
}

impl<ResourceType> Copy for TypedHandle<ResourceType> {}

impl<ResourceType> PartialEq for TypedHandle<ResourceType> {
    fn eq(&self, other: &Self) -> (r: bool)
        ensures
            r == (self.index == other.index),
    {
        self.index == other.index
    }
}

impl<ResourceType> Eq for TypedHandle<ResourceType> {}

impl<ResourceType> vstd::std_specs::cmp::PartialEqSpecImpl for TypedHandle<ResourceType> {
    open spec fn obeys_eq_spec() -> bool {
        true
    }

    open spec fn eq_spec(&self, other: &Self) -> bool {
        self.index == other.index
    }
}

impl<ResourceType> PartialOrd for TypedHandle<ResourceType> {
    /// Typed handles order by their index.
    fn partial_cmp(&self, other: &Self) -> (r: Option<core::cmp::Ordering>)
        ensures
            r == (if self.index < other.index {
                Some(core::cmp::Ordering::Less)
            } else if self.index == other.index {
                Some(core::cmp::Ordering::Equal)
            } else {
                Some(core::cmp::Ordering::Greater)
            }),
    {
        if self.index < other.index {
            Some(core::cmp::Ordering::Less)
        } else if self.index == other.index {
            Some(core::cmp::Ordering::Equal)
        } else {
            Some(core::cmp::Ordering::Greater)
        }
    }
}

impl<ResourceType> vstd::std_specs::cmp::PartialOrdSpecImpl for TypedHandle<ResourceType> {
    open spec fn obeys_partial_cmp_spec() -> bool {
        true
    }

    open spec fn partial_cmp_spec(&self, other: &Self) -> Option<core::cmp::Ordering> {
        if self.index < other.index {
            Some(core::cmp::Ordering::Less)
        } else if self.index == other.index {
            Some(core::cmp::Ordering::Equal)
        } else {
            Some(core::cmp::Ordering::Greater)
        }
    }
}

impl<ResourceType> Default for TypedHandle<ResourceType> {
    /// A freshly defaulted typed handle refers to nothing.
    fn default() -> (r: Self)
        ensures
            !r.spec_is_valid(),
    {
        TypedHandle { index: UNINITIALIZED_HANDLE_INDEX, _marker: core::marker::PhantomData }
    }
}

/// A value paired with the index it was registered under.
pub struct IndexHandle<T, I> {
    pub index: I,
    pub value: T,
}

impl<T, I> IndexHandle<T, I> {
    pub fn new(value: T, index: I) -> (r: Self)
        ensures
            r.value == value,
            r.index == index,
    {
        IndexHandle { index, value }
    }
}

impl<T: Default, I: Default> Default for IndexHandle<T, I> {
    fn default() -> Self {
        IndexHandle { index: I::default(), value: T::default() }
    }
}

/// Marker for the integer types accepted as registration indices.
pub trait IndexSealed {
}

impl IndexSealed for u32 {

}

impl IndexSealed for u16 {

}

} // verus!
