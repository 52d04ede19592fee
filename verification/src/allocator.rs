//! The transient resource allocator.
//!
//! A pool of concrete GPU resources keyed by `(name, descriptor)`. Each
//! `alloc` of an existing key hands out another reference to the pooled
//! resource and raises the entry's count; each `free` lowers it, and the
//! entry leaves the pool when its count reaches zero. Creation of concrete
//! resources is delegated to an injected [`ResourceCreator`].

use vstd::prelude::*;

use crate::gfx::AnyFGResource;
use crate::gfx::AnyFGResourceDescriptor;
use crate::gfx::AnyResource;

verus! {

/// Materializes a concrete resource from a descriptor; implemented by the
/// embedding application, variant-dispatched over the descriptor tag.
///
/// The contract is the library's interface to unverified creators: whatever
/// object the creator makes, it answers to the descriptor it was asked for.
pub trait ResourceCreator: 'static {
    fn create(&self, desc: AnyFGResourceDescriptor) -> (r: AnyFGResource)
        ensures
            r.spec_desc() == desc,
    ;
}

/// The pool key: a resource name together with its descriptor.
#[derive(Debug, Clone)]
pub struct AllocatorKey {
    pub desc: AnyFGResourceDescriptor,
    pub name: String,
}

impl AllocatorKey {
    pub fn new(name: &str, desc: &AnyFGResourceDescriptor) -> (r: Self)
        ensures
            r.name@ == name@,
            r.desc == *desc,
    {
        AllocatorKey { desc: *desc, name: name.to_owned() }
    }
}

/// One pooled resource and the number of references handed out for it.
pub struct ResourceState {
    pub resource: AnyFGResource,
    pub count: usize,
}

impl ResourceState {
    pub fn new(resource: AnyFGResource, count: usize) -> (r: Self)
        ensures
            r.resource == resource,
            r.count == count,
    {
        ResourceState { resource, count }
    }
}

/// The mathematical image of one pool entry.
#[verifier::ext_equal]
pub ghost struct PoolEntry {
    pub name: Seq<char>,
    pub desc: AnyFGResourceDescriptor,
    pub resource: AnyFGResource,
    pub count: int,
}

/// The mathematical image of the pool.
pub open spec fn pool_view(s: Seq<(AllocatorKey, ResourceState)>) -> Seq<PoolEntry> {
    Seq::new(
        s.len(),
        |i: int| PoolEntry {
            name: s[i].0.name@,
            desc: s[i].0.desc,
            resource: s[i].1.resource,
            count: s[i].1.count as int,
        },
    )
}

/// Whether the pool entry `e` is keyed by `(name, desc)`.
pub open spec fn entry_matches(e: PoolEntry, name: Seq<char>, desc: AnyFGResourceDescriptor) -> bool {
    e.name == name && e.desc == desc
}

/// A well-formed pool: keys are unique and every entry is referenced.
pub open spec fn pool_wf(s: Seq<PoolEntry>) -> bool {
    &&& forall|i: int, j: int|
        0 <= i < j < s.len() ==> !(#[trigger] s[i].name == #[trigger] s[j].name
            && s[i].desc == s[j].desc)
    &&& forall|i: int| 0 <= i < s.len() ==> (#[trigger] s[i]).count >= 1
}

/// Whether the pool holds an entry keyed by `(name, desc)`.
pub open spec fn pool_has(s: Seq<PoolEntry>, name: Seq<char>, desc: AnyFGResourceDescriptor) -> bool {
    exists|i: int| 0 <= i < s.len() && entry_matches(#[trigger] s[i], name, desc)
}

/// The index of the entry keyed by `(name, desc)`; meaningful when
/// `pool_has` holds of a well-formed pool, where that entry is unique.
pub open spec fn pool_index_of(
    s: Seq<PoolEntry>,
    name: Seq<char>,
    desc: AnyFGResourceDescriptor,
) -> int {
    choose|i: int| 0 <= i < s.len() && entry_matches(#[trigger] s[i], name, desc)
}

/// The pool after an `alloc` of `(name, desc)`, where `created` is the
/// resource the creator made if the key was absent.
pub open spec fn pool_after_alloc(
    s: Seq<PoolEntry>,
    name: Seq<char>,
    desc: AnyFGResourceDescriptor,
    created: AnyFGResource,
) -> Seq<PoolEntry> {
    if pool_has(s, name, desc) {
        let i = pool_index_of(s, name, desc);
        s.update(i, PoolEntry { count: s[i].count + 1, ..s[i] })
    } else {
        s.push(PoolEntry { name, desc, resource: created, count: 1 })
    }
}

/// The pool after a `free` of `(name, desc)`.
pub open spec fn pool_after_free(
    s: Seq<PoolEntry>,
    name: Seq<char>,
    desc: AnyFGResourceDescriptor,
) -> Seq<PoolEntry> {
    if pool_has(s, name, desc) {
        let i = pool_index_of(s, name, desc);
        if s[i].count == 1 {
            s.remove(i)
        } else {
            s.update(i, PoolEntry { count: s[i].count - 1, ..s[i] })
        }
    } else {
        s
    }
}

/// Pool of concrete GPU resources keyed by `(name, descriptor)`.
pub struct Allocator<C: ResourceCreator> {
    pub pool: Vec<(AllocatorKey, ResourceState)>,
    pub creator: C,
}

impl<C: ResourceCreator> Allocator<C> {
    /// The mathematical image of this allocator's pool.
    pub open spec fn view_pool(self) -> Seq<PoolEntry> {
        pool_view(self.pool@)
    }

    /// A well-formed allocator: unique keys, positive counts.
    pub open spec fn wf(self) -> bool {
        pool_wf(self.view_pool())
    }

    pub fn new(creator: C) -> (r: Self)
        ensures
            r.wf(),
            r.view_pool().len() == 0,
    {
        Allocator { pool: Vec::new(), creator }
    }

    /// Hand out a reference to the resource pooled under `(name, desc)`,
    /// creating and pooling it first if the key is new.
    pub fn allocate(&mut self, name: &str, desc: &AnyFGResourceDescriptor) -> (r: AnyResource)
        requires
            old(self).wf(),
            pool_has(old(self).view_pool(), name@, *desc) ==> old(self).view_pool()[pool_index_of(
                old(self).view_pool(),
                name@,
                *desc,
            )].count < usize::MAX,
        ensures
            final(self).wf(),
            final(self).view_pool() == pool_after_alloc(old(self).view_pool(), name@, *desc, r.resource),
            r.desc == *desc,
            r.resource.spec_desc() == *desc || pool_has(old(self).view_pool(), name@, *desc),
            pool_has(old(self).view_pool(), name@, *desc) ==> r.resource == old(self).view_pool()[
                pool_index_of(old(self).view_pool(), name@, *desc)
            ].resource,
            final(self).creator == old(self).creator,
    {
        let name_owned: String = name.to_owned();
        let ghost s = self.view_pool();
        let n = self.pool.len();
        let mut i: usize = 0;
        while i < n
            invariant
                n == self.pool@.len(),
                i <= n,
                forall|j: int| 0 <= j < i ==> !entry_matches(#[trigger] pool_view(self.pool@)[j], name_owned@, *desc),
                name_owned@ == name@,
                pool_view(self.pool@) == s,
                s == old(self).view_pool(),
                pool_wf(s),
                self.creator == old(self).creator,
                pool_has(s, name@, *desc) ==> s[pool_index_of(s, name@, *desc)].count < usize::MAX,
            decreases n - i,
        {
            let matches_here = self.pool[i].0.name == name_owned && self.pool[i].0.desc == *desc;
            if matches_here {
                proof {
                    assert(entry_matches(s[i as int], name@, *desc));
                    assert(pool_has(s, name@, *desc));
                    let k = pool_index_of(s, name@, *desc);
                    assert(0 <= k < s.len() && entry_matches(s[k], name@, *desc));
                    assert(k == i);
                }
                let resource = self.pool[i].1.resource;
                let entry = &mut self.pool[i];
                entry.1.count = entry.1.count + 1;
                let r = AnyResource::new(*desc, resource);
                proof {
                    assert(pool_view(self.pool@) =~~= pool_after_alloc(s, name@, *desc, r.resource));
                }
                return r;
            }
            i = i + 1;
        }

        proof {
            assert(!pool_has(s, name@, *desc));
        }
        let resource = self.creator.create(*desc);
        let key = AllocatorKey { desc: *desc, name: name_owned };
        let state = ResourceState::new(resource, 1);
        self.pool.push((key, state));
        proof {
            let s1 = pool_view(self.pool@);
            assert(s1 =~~= pool_after_alloc(s, name@, *desc, resource));
            assert forall|a: int, b: int| 0 <= a < b < s1.len() implies !(
                #[trigger] s1[a].name == #[trigger] s1[b].name && s1[a].desc == s1[b].desc) by {
                if b == s1.len() - 1 {
                    assert(!entry_matches(s[a], name@, *desc));
                }
            }
        }
        AnyResource::new(*desc, resource)
    }

    /// Return the reference handed out under `(name, resource.desc)`;
    /// the entry leaves the pool when its last reference comes back.
    pub fn free(&mut self, name: &str, resource: AnyResource)
        requires
            old(self).wf(),
        ensures
            final(self).wf(),
            final(self).view_pool() == pool_after_free(old(self).view_pool(), name@, resource.desc),
            final(self).creator == old(self).creator,
    {
        let name_owned: String = name.to_owned();
        let ghost s = self.view_pool();
        let n = self.pool.len();
        let mut i: usize = 0;
        while i < n
            invariant
                n == self.pool@.len(),
                i <= n,
                forall|j: int| 0 <= j < i ==> !entry_matches(#[trigger] pool_view(self.pool@)[j], name_owned@, resource.desc),
                name_owned@ == name@,
                pool_view(self.pool@) == s,
                s == old(self).view_pool(),
                pool_wf(s),
                self.creator == old(self).creator,
            decreases n - i,
        {
            let matches_here = self.pool[i].0.name == name_owned && self.pool[i].0.desc == resource.desc;
            if matches_here {
                proof {
                    assert(entry_matches(s[i as int], name@, resource.desc));
                    assert(pool_has(s, name@, resource.desc));
                    let k = pool_index_of(s, name@, resource.desc);
                    assert(0 <= k < s.len() && entry_matches(s[k], name@, resource.desc));
                    assert(k == i);
                }
                if self.pool[i].1.count == 1 {
                    self.pool.remove(i);
                    proof {
                        assert(pool_view(self.pool@) =~~= pool_after_free(s, name@, resource.desc));
                    }
                } else {
                    let entry = &mut self.pool[i];
                    entry.1.count = entry.1.count - 1;
                    proof {
                        assert(pool_view(self.pool@) =~~= pool_after_free(s, name@, resource.desc));
                    }
                }
                return ;
            }
            i = i + 1;
        }
        proof {
            assert(!pool_has(s, name@, resource.desc));
        }
    }
}

/// Allocator conservation: a `free` right after an `alloc` of the same key
/// returns the pool to its prior state, whatever resource the creator made.
pub proof fn lemma_alloc_free_conserves(
    s: Seq<PoolEntry>,
    name: Seq<char>,
    desc: AnyFGResourceDescriptor,
    created: AnyFGResource,
)
    requires
        pool_wf(s),
    ensures
        pool_after_free(pool_after_alloc(s, name, desc, created), name, desc) =~~= s,
{
    let s1 = pool_after_alloc(s, name, desc, created);
    if pool_has(s, name, desc) {
        let i = pool_index_of(s, name, desc);
        assert(0 <= i < s.len() && entry_matches(s[i], name, desc));
        assert(s1 =~~= s.update(i, PoolEntry { count: s[i].count + 1, ..s[i] }));
        assert(entry_matches(s1[i], name, desc));
        assert(pool_has(s1, name, desc));
        let j = pool_index_of(s1, name, desc);
        assert(0 <= j < s1.len() && entry_matches(s1[j], name, desc));
        assert(forall|k: int| 0 <= k < s.len() && k != i ==> !entry_matches(#[trigger] s[k], name, desc));
        assert(j == i);
        assert(s1[i].count == s[i].count + 1);
        assert(s1[i].count != 1);
        assert(pool_after_free(s1, name, desc) =~~= s);
    } else {
        assert(s1 =~~= s.push(PoolEntry { name, desc, resource: created, count: 1 }));
        let i = s.len() as int;
        assert(entry_matches(s1[i], name, desc));
        assert(pool_has(s1, name, desc));
        let j = pool_index_of(s1, name, desc);
        assert(0 <= j < s1.len() && entry_matches(s1[j], name, desc));
        assert(forall|k: int| 0 <= k < s.len() ==> !entry_matches(#[trigger] s[k], name, desc));
        assert(j == i);
        assert(s1[i].count == 1);
        assert(pool_after_free(s1, name, desc) =~~= s1.remove(i));
        assert(s1.remove(i) =~~= s);
    }
}

} // verus!
