//! Resource nodes: versioned views into virtual resources.
//!
//! Every write of a virtual resource produces a fresh [`ResourceNode`]
//! capturing the new version, so passes reference a specific version and the
//! pass graph stays acyclic.

use vstd::prelude::*;

use crate::handle::Handle;
use crate::handle::TypeHandle;
use crate::resource::VirtualResource;

verus! {

/// One version of one virtual resource, as referenced by passes.
pub struct ResourceNode {
    /// The virtual resource this node is a view of.
    pub resource_handle: Handle,
    /// This node's own handle.
    pub handle: Handle,
    /// The version of the virtual resource this node captures.
    pub version: usize,
    /// The pass that wrote this version, if any; version 0 has no writer.
    pub pass_node_writer_handle: Option<Handle>,
    /// How many surviving passes read this node; computed during culling.
    pub reader_count: usize,
}

impl ResourceNode {
    pub fn new(
        handle: TypeHandle<ResourceNode>,
        resource_handle: TypeHandle<VirtualResource>,
        version: usize,
    ) -> (r: Self)
        ensures
            r.handle.index == handle.spec_index(),
            r.resource_handle.index == resource_handle.spec_index(),
            r.version == version,
            r.pass_node_writer_handle is None,
            r.reader_count == 0,
    {
        ResourceNode {
            handle: handle.handle(),
            version,
            pass_node_writer_handle: None,
            reader_count: 0,
            resource_handle: resource_handle.handle(),
        }
    }
}

/// A typed pair of (resource node, virtual resource) handles.
pub struct ResourceNodeHandle<ResourceType> {
    resource_node_handle: TypeHandle<ResourceNode>,
    resource_handle: TypeHandle<VirtualResource>,
    _marker: core::marker::PhantomData<ResourceType>,
}

impl<ResourceType> ResourceNodeHandle<ResourceType> {
    /// The resource-node handle this pair carries.
    pub closed spec fn spec_resource_node_handle(self) -> TypeHandle<ResourceNode> {
        self.resource_node_handle
    }

    /// The virtual-resource handle this pair carries.
    pub closed spec fn spec_resource_handle(self) -> TypeHandle<VirtualResource> {
        self.resource_handle
    }

    pub fn resource_node_handle(&self) -> (r: TypeHandle<ResourceNode>)
        ensures
            r == self.spec_resource_node_handle(),
    {
        self.resource_node_handle
    }

    pub fn resource_handle(&self) -> (r: TypeHandle<VirtualResource>)
        ensures
            r == self.spec_resource_handle(),
    {
        self.resource_handle
    }

    pub fn new(
        resource_node_handle: TypeHandle<ResourceNode>,
        resource_handle: TypeHandle<VirtualResource>,
    ) -> (r: Self)
        ensures
            r.spec_resource_node_handle() == resource_node_handle,
            r.spec_resource_handle() == resource_handle,
    {
        ResourceNodeHandle {
            resource_node_handle,
            resource_handle,
            _marker: core::marker::PhantomData,
        }
    }
}

impl<ResourceType> Clone for ResourceNodeHandle<ResourceType> {
    fn clone(&self) -> (r: Self)
        ensures
            r.spec_resource_node_handle() == self.spec_resource_node_handle(),
            r.spec_resource_handle() == self.spec_resource_handle(),
    {
        ResourceNodeHandle {
            resource_node_handle: self.resource_node_handle,
            resource_handle: self.resource_handle,
            _marker: core::marker::PhantomData,
        }
    }
}

impl<ResourceType> Copy for ResourceNodeHandle<ResourceType> {}

/// How a pass accesses a resource through a [`ResourceRef`].
pub trait GpuViewType {
    /// Whether this view kind may write the resource.
    spec fn spec_is_writable() -> bool;
}

/// Read-only access to a resource during execution.
#[derive(Debug)]
pub struct GpuRead {
}

impl GpuViewType for GpuRead {
    open spec fn spec_is_writable() -> bool {
        false
    }
}

/// Writable access to a resource during execution.
#[derive(Debug)]
pub struct GpuWrite {
}

impl GpuViewType for GpuWrite {
    open spec fn spec_is_writable() -> bool {
        true
    }
}

/// A typed reference a pass keeps to a resource node it declared.
pub struct ResourceRef<ResourceType, ViewType> {
    handle: ResourceNodeHandle<ResourceType>,
    _marker: core::marker::PhantomData<ViewType>,
}

impl<ResourceType, ViewType> ResourceRef<ResourceType, ViewType> {
    /// The handle pair this reference carries.
    pub closed spec fn spec_handle(self) -> ResourceNodeHandle<ResourceType> {
        self.handle
    }

    pub fn resource_node_handle(&self) -> (r: TypeHandle<ResourceNode>)
        ensures
            r == self.spec_handle().spec_resource_node_handle(),
    {
        self.handle.resource_node_handle()
    }

    pub fn resource_handle(&self) -> (r: TypeHandle<VirtualResource>)
        ensures
            r == self.spec_handle().spec_resource_handle(),
    {
        self.handle.resource_handle()
    }

    pub fn new(handle: ResourceNodeHandle<ResourceType>) -> (r: Self)
        ensures
            r.spec_handle() == handle,
    {
        ResourceRef { handle, _marker: core::marker::PhantomData }
    }
}

impl<ResourceType, ViewType> Clone for ResourceRef<ResourceType, ViewType> {
    fn clone(&self) -> (r: Self)
        ensures
            r.spec_handle() == self.spec_handle(),
    {
        ResourceRef { handle: self.handle, _marker: core::marker::PhantomData }
    }
}

impl<ResourceType, ViewType> Copy for ResourceRef<ResourceType, ViewType> {}

} // verus!
