//! The per-device-pass resource table.
//!
//! During execution each device pass resolves the virtual resources it
//! requested to concrete resources: imported objects are copied through,
//! transient textures come from the cache when possible and from the device
//! otherwise. Releasing hands owned textures back to the cache.

use vstd::prelude::*;

use crate::gfx::AnyFGResource;
use crate::gfx::AnyFGResourceDescriptor;
use crate::gfx::DeviceTrait;
use crate::handle::Handle;
use crate::handle::TypeHandle;
use crate::resource::FGResource;
use crate::resource::ImportedVirtualResource;
use crate::resource::VirtualResource;
use crate::resource::VirtualResourceState;
use crate::transient::cache_after_get;
use crate::transient::cache_after_insert;
use crate::transient::cache_get_result;
use crate::transient::TransientResourceCache;

verus! {

/// Whether table `s` has an entry for resource handle `h`.
pub open spec fn table_has(s: Seq<(Handle, AnyFGResource)>, h: Handle) -> bool {
    exists|i: int| 0 <= i < s.len() && (#[trigger] s[i]).0 == h
}

/// The index of the entry for `h`; meaningful when `table_has` holds of a
/// well-formed table, where that entry is unique.
pub open spec fn table_index_of(s: Seq<(Handle, AnyFGResource)>, h: Handle) -> int {
    choose|i: int| 0 <= i < s.len() && (#[trigger] s[i]).0 == h
}

/// The table after binding `h` to `v` (overwriting any previous binding).
pub open spec fn table_after_insert(
    s: Seq<(Handle, AnyFGResource)>,
    h: Handle,
    v: AnyFGResource,
) -> Seq<(Handle, AnyFGResource)> {
    if table_has(s, h) {
        s.update(table_index_of(s, h), (h, v))
    } else {
        s.push((h, v))
    }
}

/// The table after dropping the binding of `h`, if any.
pub open spec fn table_after_remove(
    s: Seq<(Handle, AnyFGResource)>,
    h: Handle,
) -> Seq<(Handle, AnyFGResource)> {
    if table_has(s, h) {
        s.remove(table_index_of(s, h))
    } else {
        s
    }
}

/// After binding `h`, the table holds `v` under `h`.
pub proof fn lemma_table_insert_has(s: Seq<(Handle, AnyFGResource)>, h: Handle, v: AnyFGResource)
    requires
        table_wf(s),
    ensures
        table_has(table_after_insert(s, h, v), h),
        table_after_insert(s, h, v)[table_index_of(table_after_insert(s, h, v), h)].1 == v,
{
    let s1 = table_after_insert(s, h, v);
    if table_has(s, h) {
        let i = table_index_of(s, h);
        assert(0 <= i < s.len() && s[i].0 == h);
        assert(s1[i].0 == h);
        assert(table_has(s1, h));
        let j = table_index_of(s1, h);
        assert(0 <= j < s1.len() && s1[j].0 == h);
        assert(forall|k: int| 0 <= k < s.len() && k != i ==> (#[trigger] s[k]).0 != h);
        assert(j == i);
    } else {
        let i = s.len() as int;
        assert(s1[i].0 == h);
        assert(table_has(s1, h));
        let j = table_index_of(s1, h);
        assert(0 <= j < s1.len() && s1[j].0 == h);
        assert(forall|k: int| 0 <= k < s.len() ==> (#[trigger] s[k]).0 != h);
        assert(j == i);
    }
}

/// The transient cache after one resource request: a pending texture pops
/// its descriptor's stack; imported objects and pending buffers leave the
/// cache alone.
pub open spec fn request_cache_one(
    r: VirtualResource,
    c: Seq<crate::transient::CacheEntry>,
) -> Seq<crate::transient::CacheEntry> {
    match r.state {
        VirtualResourceState::Imported(_) => c,
        VirtualResourceState::Setup(desc) => match desc {
            AnyFGResourceDescriptor::Texture(texture_desc) => cache_after_get(c, texture_desc),
            AnyFGResourceDescriptor::Buffer(_) => c,
        },
    }
}

/// A well-formed table: resource handles are unique.
pub open spec fn table_wf(s: Seq<(Handle, AnyFGResource)>) -> bool {
    forall|i: int, j: int| 0 <= i < j < s.len() ==> (#[trigger] s[i]).0 != (#[trigger] s[j]).0
}

/// Map from virtual-resource handle to the concrete resource backing it for
/// the duration of one device pass.
pub struct ResourceTable {
    pub resources: Vec<(Handle, AnyFGResource)>,
}

impl Default for ResourceTable {
    fn default() -> (r: Self)
        ensures
            r.resources@.len() == 0,
    {
        ResourceTable { resources: Vec::new() }
    }
}

impl ResourceTable {
    /// A well-formed table: unique resource handles.
    pub open spec fn wf(self) -> bool {
        table_wf(self.resources@)
    }

    pub fn new() -> (r: Self)
        ensures
            r.wf(),
            r.resources@.len() == 0,
    {
        ResourceTable { resources: Vec::new() }
    }

    /// Look up the concrete resource bound to `handle` and borrow it at the
    /// requested resource type.
    pub fn get_resource<ResourceType: FGResource>(
        &self,
        handle: &TypeHandle<VirtualResource>,
    ) -> (r: Option<&ResourceType>)
        requires
            self.wf(),
        ensures
            r is Some <==> (table_has(self.resources@, Handle { index: handle.spec_index() })
                && ResourceType::can_borrow(
                self.resources@[table_index_of(self.resources@, Handle { index: handle.spec_index() })].1,
            )),
            r is Some ==> *r->0 == ResourceType::borrow_spec(
                self.resources@[table_index_of(self.resources@, Handle { index: handle.spec_index() })].1,
            ),
    {
        let h = handle.handle();
        let ghost s = self.resources@;
        let n = self.resources.len();
        let mut i: usize = 0;
        while i < n
            invariant
                n == self.resources@.len(),
                i <= n,
                forall|j: int| 0 <= j < i ==> (#[trigger] self.resources@[j]).0 != h,
                self.resources@ == s,
                table_wf(s),
                h == (Handle { index: handle.spec_index() }),
            decreases n - i,
        {
            if self.resources[i].0 == h {
                proof {
                    assert(table_has(s, h));
                    let k = table_index_of(s, h);
                    assert(0 <= k < s.len() && s[k].0 == h);
                    assert(k == i);
                }
                return ResourceType::borrow_resource(&self.resources[i].1);
            }
            i = i + 1;
        }
        proof {
            assert(!table_has(s, h));
        }
        None
    }

    /// Bind `handle` to `resource` in this table.
    fn bind(&mut self, handle: Handle, resource: AnyFGResource)
        requires
            old(self).wf(),
        ensures
            final(self).wf(),
            final(self).resources@ == table_after_insert(old(self).resources@, handle, resource),
    {
        let ghost s = self.resources@;
        let n = self.resources.len();
        let mut i: usize = 0;
        while i < n
            invariant
                n == self.resources@.len(),
                i <= n,
                forall|j: int| 0 <= j < i ==> (#[trigger] self.resources@[j]).0 != handle,
                self.resources@ == s,
                s == old(self).resources@,
                table_wf(s),
            decreases n - i,
        {
            if self.resources[i].0 == handle {
                proof {
                    assert(table_has(s, handle));
                    let k = table_index_of(s, handle);
                    assert(0 <= k < s.len() && s[k].0 == handle);
                    assert(k == i);
                }
                let entry = &mut self.resources[i];
                entry.1 = resource;
                proof {
                    assert(self.resources@ =~= table_after_insert(s, handle, resource));
                    assert forall|a: int, b: int| 0 <= a < b < self.resources@.len() implies (
                    #[trigger] self.resources@[a]).0 != (#[trigger] self.resources@[b]).0 by {
                        assert(self.resources@[a].0 == s[a].0);
                        assert(self.resources@[b].0 == s[b].0);
                    }
                }
                return ;
            }
            i = i + 1;
        }
        proof {
            assert(!table_has(s, handle));
        }
        self.resources.push((handle, resource));
        proof {
            let s1 = self.resources@;
            assert(s1 =~= table_after_insert(s, handle, resource));
            assert forall|a: int, b: int| 0 <= a < b < s1.len() implies (#[trigger] s1[a]).0
                != (#[trigger] s1[b]).0 by {
                if b == s1.len() - 1 {
                    assert(s[a].0 != handle);
                }
            }
        }
    }

    /// Resolve `resource` to a concrete resource and bind it: imported
    /// objects are copied through; pending textures come from the transient
    /// cache when it holds a match and from the device otherwise.
    pub fn request_resources<D: DeviceTrait>(
        &mut self,
        resource: &VirtualResource,
        device: &D,
        transient_resource_cache: &mut TransientResourceCache,
    )
        requires
            old(self).wf(),
            old(transient_resource_cache).wf(),
        ensures
            final(self).wf(),
            final(transient_resource_cache).wf(),
            final(transient_resource_cache).view_cache() == request_cache_one(
                *resource,
                old(transient_resource_cache).view_cache(),
            ),
            match resource.state {
                VirtualResourceState::Imported(state) => {
                    &&& final(self).resources@ == table_after_insert(
                        old(self).resources@,
                        resource.info.handle,
                        match state.resource {
                            ImportedVirtualResource::Texture(t) => AnyFGResource::ImportedTexture(t),
                        },
                    )
                    &&& *final(transient_resource_cache) == *old(transient_resource_cache)
                },
                VirtualResourceState::Setup(desc) => match desc {
                    AnyFGResourceDescriptor::Texture(texture_desc) => {
                        &&& final(transient_resource_cache).view_cache() == cache_after_get(
                            old(transient_resource_cache).view_cache(),
                            texture_desc,
                        )
                        &&& table_has(final(self).resources@, resource.info.handle)
                        &&& final(self).resources@[table_index_of(
                            final(self).resources@,
                            resource.info.handle,
                        )].1.spec_desc() == desc
                        &&& (match cache_get_result(
                            old(transient_resource_cache).view_cache(),
                            texture_desc,
                        ) {
                            Some(cached) => final(self).resources@ == table_after_insert(
                                old(self).resources@,
                                resource.info.handle,
                                AnyFGResource::OwnedTexture(cached),
                            ),
                            None => exists|created: AnyFGResource|
                                created.spec_desc() == desc && final(self).resources@
                                    == table_after_insert(
                                    old(self).resources@,
                                    resource.info.handle,
                                    created,
                                ),
                        })
                    },
                    AnyFGResourceDescriptor::Buffer(_) => {
                        &&& *final(self) == *old(self)
                        &&& *final(transient_resource_cache) == *old(transient_resource_cache)
                    },
                },
            },
    {
        let handle = resource.info.handle;

        match &resource.state {
            VirtualResourceState::Imported(state) => {
                let concrete = match &state.resource {
                    ImportedVirtualResource::Texture(t) => AnyFGResource::ImportedTexture(*t),
                };
                self.bind(handle, concrete);
            },
            VirtualResourceState::Setup(desc) => match desc {
                AnyFGResourceDescriptor::Texture(texture_desc) => {
                    let concrete = match transient_resource_cache.get_image(texture_desc) {
                        Some(cached) => AnyFGResource::OwnedTexture(cached),
                        None => device.create(desc),
                    };
                    proof {
                        assert(concrete.spec_desc() == *desc);
                        lemma_table_insert_has(self.resources@, handle, concrete);
                    }
                    self.bind(handle, concrete);
                },
                AnyFGResourceDescriptor::Buffer(_) => {
                    return ;
                },
            },
        }
    }

    /// Unbind `handle`; an owned texture goes back to the transient cache,
    /// an imported one is simply dropped.
    pub fn release_resource(
        &mut self,
        handle: &Handle,
        transient_resource_cache: &mut TransientResourceCache,
    )
        requires
            old(self).wf(),
            old(transient_resource_cache).wf(),
        ensures
            final(self).wf(),
            final(transient_resource_cache).wf(),
            final(self).resources@ == table_after_remove(old(self).resources@, *handle),
            final(transient_resource_cache).view_cache() == (if table_has(old(self).resources@, *handle) {
                match old(self).resources@[table_index_of(old(self).resources@, *handle)].1 {
                    AnyFGResource::OwnedTexture(t) => cache_after_insert(
                        old(transient_resource_cache).view_cache(),
                        t.desc,
                        t,
                    ),
                    AnyFGResource::ImportedTexture(_) => old(transient_resource_cache).view_cache(),
                    AnyFGResource::OwnedBuffer(_) => old(transient_resource_cache).view_cache(),
                }
            } else {
                old(transient_resource_cache).view_cache()
            }),
    {
        let ghost s = self.resources@;
        let n = self.resources.len();
        let mut i: usize = 0;
        while i < n
            invariant
                n == self.resources@.len(),
                i <= n,
                forall|j: int| 0 <= j < i ==> (#[trigger] self.resources@[j]).0 != *handle,
                self.resources@ == s,
                s == old(self).resources@,
                table_wf(s),
                transient_resource_cache == old(transient_resource_cache),
                old(transient_resource_cache).wf(),
            decreases n - i,
        {
            if self.resources[i].0 == *handle {
                proof {
                    assert(table_has(s, *handle));
                    let k = table_index_of(s, *handle);
                    assert(0 <= k < s.len() && s[k].0 == *handle);
                    assert(k == i);
                }
                let removed = self.resources.remove(i);
                proof {
                    assert(self.resources@ =~= table_after_remove(s, *handle));
                }
                match removed.1 {
                    AnyFGResource::OwnedTexture(texture) => {
                        let desc = *texture.get_desc();
                        transient_resource_cache.insert_image(desc, texture);
                    },
                    AnyFGResource::ImportedTexture(_) => {},
                    AnyFGResource::OwnedBuffer(_) => {},
                }
                return ;
            }
            i = i + 1;
        }
        proof {
            assert(!table_has(s, *handle));
        }
    }
}

} // verus!
