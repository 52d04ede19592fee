//! Resource entries: the pending/realized state machine of a transient
//! resource against the allocator.
//!
//! An entry starts `Uninitialized`, holding only its descriptor. `request`
//! draws a concrete resource from the allocator and realizes the entry;
//! `release` hands the resource back and returns to `Uninitialized`,
//! keeping the descriptor. Both are idempotent in the state they target,
//! and a request followed by a release leaves the allocator pool exactly
//! as it was.

use vstd::prelude::*;

use crate::allocator::pool_after_alloc;
use crate::allocator::pool_after_free;
use crate::allocator::pool_has;
use crate::allocator::pool_index_of;
use crate::allocator::Allocator;
use crate::allocator::ResourceCreator;
use crate::gfx::AnyFGResource;
use crate::gfx::AnyFGResourceDescriptor;
use crate::gfx::AnyResource;
use crate::handle::Handle;

verus! {

/// Bookkeeping of one entry's use across the frame.
#[derive(Default)]
pub struct VirtualResourceInfo {
    /// First pass that touches the entry, set by lifetime analysis.
    pub first_pass_index: Option<Handle>,
    /// Last pass that touches the entry, set by lifetime analysis.
    pub last_pass_index: Option<Handle>,
    /// How many surviving views keep the entry alive.
    pub ref_count: usize,
    /// How many passes wrote the entry.
    pub writer_count: usize,
    /// Whether a caller supplied the object; imported entries never pool.
    pub imported: bool,
    /// Whether no pass has loaded the entry's previous contents.
    pub never_loaded: bool,
    /// Whether no pass has stored into the entry.
    pub never_stored: bool,
    /// Whether the entry is a candidate for memoryless storage.
    pub memoryless: bool,
    /// Whether the entry is a memoryless multisample candidate.
    pub memoryless_msaa: bool,
    /// The entry's debug name.
    pub name: String,
    /// The entry's own handle.
    pub handle: Handle,
    /// How many passes have written the entry.
    pub version: usize,
}

impl VirtualResourceInfo {
    /// Record one more write of this entry.
    pub fn new_version(&mut self)
        requires
            old(self).version < usize::MAX,
        ensures
            final(self).version == old(self).version + 1,
            final(self).name == old(self).name,
            final(self).handle == old(self).handle,
            final(self).first_pass_index == old(self).first_pass_index,
            final(self).last_pass_index == old(self).last_pass_index,
    {
        self.version = self.version + 1;
    }

    /// Widen the live range of this entry to cover `handle`.
    pub fn update_lifetime(&mut self, handle: Handle)
        ensures
            final(self).first_pass_index == (if old(self).first_pass_index is None {
                Some(handle)
            } else {
                old(self).first_pass_index
            }),
            final(self).last_pass_index == Some(handle),
            final(self).name == old(self).name,
            final(self).handle == old(self).handle,
            final(self).version == old(self).version,
    {
        if self.first_pass_index.is_none() {
            self.first_pass_index = Some(handle);
        }

        self.last_pass_index = Some(handle);
    }
}

/// The two states of a transient resource entry.
pub enum ResourceEntryState {
    /// Declared: only the descriptor exists.
    Uninitialized(AnyFGResourceDescriptor),
    /// Realized: an allocator-issued resource backs the entry.
    Initialization { resource: AnyResource, desc: AnyFGResourceDescriptor },
}

/// A transient resource entry: its state plus bookkeeping.
pub struct ResourceEntry {
    pub resource: ResourceEntryState,
    pub info: VirtualResourceInfo,
}

impl ResourceEntry {
    pub fn new(handle: Handle, name: &str, desc: AnyFGResourceDescriptor) -> (r: Self)
        ensures
            r.resource == ResourceEntryState::Uninitialized(desc),
            r.info.name@ == name@,
            r.info.handle == handle,
            r.info.version == 0,
            r.info.ref_count == 0,
            r.info.writer_count == 0,
            !r.info.imported,
            r.info.first_pass_index is None,
            r.info.last_pass_index is None,
    {
        ResourceEntry {
            resource: ResourceEntryState::Uninitialized(desc),
            info: VirtualResourceInfo {
                name: name.to_owned(),
                handle,
                first_pass_index: None,
                last_pass_index: None,
                ref_count: 0,
                writer_count: 0,
                imported: false,
                never_loaded: false,
                never_stored: false,
                memoryless: false,
                memoryless_msaa: false,
                version: 0,
            },
        }
    }

    /// The concrete resource backing this entry, if it is realized.
    pub fn get_any_resource(&self) -> (r: Option<AnyFGResource>)
        ensures
            r == (match self.resource {
                ResourceEntryState::Uninitialized(_) => None::<AnyFGResource>,
                ResourceEntryState::Initialization { resource, .. } => Some(resource.resource),
            }),
    {
        match &self.resource {
            ResourceEntryState::Uninitialized(_) => None,
            ResourceEntryState::Initialization { resource, .. } => Some(resource.resource),
        }
    }

    /// Realize the entry: draw a concrete resource for its descriptor from
    /// the allocator. A no-op when the entry is already realized.
    pub fn request<C: ResourceCreator>(&mut self, allocator: &mut Allocator<C>)
        requires
            old(allocator).wf(),
            match old(self).resource {
                ResourceEntryState::Uninitialized(d) => pool_has(
                    old(allocator).view_pool(),
                    old(self).info.name@,
                    d,
                ) ==> old(allocator).view_pool()[pool_index_of(
                    old(allocator).view_pool(),
                    old(self).info.name@,
                    d,
                )].count < usize::MAX,
                ResourceEntryState::Initialization { .. } => true,
            },
        ensures
            final(allocator).wf(),
            final(self).info == old(self).info,
            match old(self).resource {
                ResourceEntryState::Uninitialized(d) => {
                    &&& final(self).resource matches ResourceEntryState::Initialization {
                        resource,
                        desc,
                    } && desc == d && resource.desc == d && final(allocator).view_pool()
                        == pool_after_alloc(
                        old(allocator).view_pool(),
                        old(self).info.name@,
                        d,
                        resource.resource,
                    )
                },
                ResourceEntryState::Initialization { .. } => {
                    &&& final(self).resource == old(self).resource
                    &&& *final(allocator) == *old(allocator)
                },
            },
    {
        let desc_opt = match &self.resource {
            ResourceEntryState::Uninitialized(desc) => Some(*desc),
            ResourceEntryState::Initialization { .. } => None,
        };

        if let Some(desc) = desc_opt {
            let resource = allocator.allocate(self.info.name.as_str(), &desc);
            self.resource = ResourceEntryState::Initialization { desc, resource };
        }
    }

    /// Return the entry to pending: hand its resource back to the
    /// allocator, keeping the descriptor. A no-op when already pending.
    pub fn release<C: ResourceCreator>(&mut self, allocator: &mut Allocator<C>)
        requires
            old(allocator).wf(),
        ensures
            final(allocator).wf(),
            final(self).info == old(self).info,
            match old(self).resource {
                ResourceEntryState::Initialization { resource, desc } => {
                    &&& final(self).resource == ResourceEntryState::Uninitialized(desc)
                    &&& final(allocator).view_pool() == pool_after_free(
                        old(allocator).view_pool(),
                        old(self).info.name@,
                        resource.desc,
                    )
                },
                ResourceEntryState::Uninitialized(_) => {
                    &&& final(self).resource == old(self).resource
                    &&& *final(allocator) == *old(allocator)
                },
            },
    {
        let desc_opt = match &self.resource {
            ResourceEntryState::Uninitialized(_) => None,
            ResourceEntryState::Initialization { desc, .. } => Some(*desc),
        };

        let desc = match desc_opt {
            Some(desc) => desc,
            None => {
                return ;
            },
        };

        let mut temp_state = ResourceEntryState::Uninitialized(desc);
        core::mem::swap(&mut temp_state, &mut self.resource);

        if let ResourceEntryState::Initialization { resource, .. } = temp_state {
            allocator.free(self.info.name.as_str(), resource);
        }
    }
}

} // verus!
