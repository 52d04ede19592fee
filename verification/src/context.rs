//! Execution-time state handed to render callbacks.

use vstd::prelude::*;

use crate::gfx::CommandBuffer;
use crate::gfx::DeviceTrait;
use crate::node::GpuRead;
use crate::node::ResourceRef;
use crate::resource::FGResource;
use crate::table::table_has;
use crate::table::table_index_of;
use crate::table::ResourceTable;
use crate::transient::TransientResourceCache;

verus! {

/// What a render callback sees while its device pass runs: the device, the
/// command buffer being recorded, the resources resolved for this device
/// pass, and the transient cache resources return to.
pub struct RenderContext<'a, D: DeviceTrait> {
    pub device: &'a D,
    pub cb: Option<CommandBuffer>,
    pub resource_table: ResourceTable,
    pub transient_resource_cache: TransientResourceCache,
}

impl<'a, D: DeviceTrait> RenderContext<'a, D> {
    /// The command buffer currently set, if any.
    pub open spec fn spec_cb(self) -> Option<CommandBuffer> {
        self.cb
    }

    /// A well-formed context: table and cache keys are unique.
    pub open spec fn wf(self) -> bool {
        &&& self.resource_table.wf()
        &&& self.transient_resource_cache.wf()
    }

    pub fn new(device: &'a D, transient_resource_cache: TransientResourceCache) -> (r: Self)
        ensures
            r.device == device,
            r.spec_cb() is None,
            r.resource_table.resources@.len() == 0,
            r.resource_table.wf(),
            r.transient_resource_cache == transient_resource_cache,
    {
        RenderContext {
            device,
            cb: None,
            resource_table: ResourceTable::new(),
            transient_resource_cache,
        }
    }

    pub fn device(&self) -> (r: &'a D)
        ensures
            r == self.device,
    {
        self.device
    }

    /// Install the command buffer this device pass records into.
    pub fn set_cb(&mut self, cb: CommandBuffer)
        ensures
            final(self).spec_cb() == Some(cb),
            final(self).resource_table == old(self).resource_table,
            final(self).transient_resource_cache == old(self).transient_resource_cache,
            final(self).device == old(self).device,
    {
        self.cb = Some(cb);
    }

    /// Take the command buffer out of the context.
    pub fn take_cb(&mut self) -> (r: Option<CommandBuffer>)
        ensures
            r == old(self).spec_cb(),
            final(self).spec_cb() is None,
            final(self).resource_table == old(self).resource_table,
            final(self).transient_resource_cache == old(self).transient_resource_cache,
            final(self).device == old(self).device,
    {
        self.cb.take()
    }

    /// Borrow the concrete resource resolved for a read reference.
    pub fn get_resource<ResourceType: FGResource>(
        &self,
        handle: &ResourceRef<ResourceType, GpuRead>,
    ) -> (r: Option<&ResourceType>)
        requires
            self.wf(),
        ensures
            r is Some <==> (table_has(
                self.resource_table.resources@,
                crate::handle::Handle {
                    index: handle.spec_handle().spec_resource_handle().spec_index(),
                },
            ) && ResourceType::can_borrow(
                self.resource_table.resources@[table_index_of(
                    self.resource_table.resources@,
                    crate::handle::Handle {
                        index: handle.spec_handle().spec_resource_handle().spec_index(),
                    },
                )].1,
            )),
    {
        let resource_handle = handle.resource_handle();
        self.resource_table.get_resource::<ResourceType>(&resource_handle)
    }
}

} // verus!
