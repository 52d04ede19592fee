//! Graph-level resources.
//!
//! A [`VirtualResource`] is what a pass declares against: either a pending
//! descriptor (no GPU object yet) or an imported, caller-owned object. Its
//! [`ResourceInfo`] tracks the version counter — bumped once per write — and
//! the first/last pass window computed during lifetime analysis.

use vstd::prelude::*;

use crate::gfx::AnyFGResourceDescriptor;
use crate::gfx::AnyFGResource;
use crate::handle::Handle;
use crate::handle::TypeHandle;

verus! {

/// A resource a caller handed in; the graph never allocates or frees it.
#[derive(Debug, Clone, PartialEq, Eq, Structural)]
pub enum ImportedVirtualResource {
    Texture(crate::gfx::Texture),
}

/// The imported state: the descriptor the object answers to plus the object.
#[derive(Debug, Clone, PartialEq, Eq, Structural)]
pub struct ImportedVirtualResourceState {
    pub desc: AnyFGResourceDescriptor,
    pub resource: ImportedVirtualResource,
}

/// What a virtual resource currently stands for.
#[derive(Debug, Clone, PartialEq, Eq, Structural)]
pub enum VirtualResourceState {
    /// Declared with a descriptor; the concrete object is made at execution.
    Setup(AnyFGResourceDescriptor),
    /// Supplied by the caller; never pooled or reclaimed.
    Imported(ImportedVirtualResourceState),
}

/// Bookkeeping of one virtual resource's use by the graph.
pub struct ResourceInfo {
    /// The resource's debug name.
    pub name: String,
    /// The resource's own handle.
    pub handle: Handle,
    /// How many passes have written this resource.
    pub version: usize,
    /// First pass that touches the resource, set by lifetime analysis.
    pub first_pass_node_handle: Option<Handle>,
    /// Last pass that touches the resource, set by lifetime analysis.
    pub last_pass_node_handle: Option<Handle>,
}

impl Clone for ResourceInfo {
    fn clone(&self) -> (r: Self)
        ensures
            r == *self,
    {
        ResourceInfo {
            name: self.name.clone(),
            handle: self.handle,
            version: self.version,
            first_pass_node_handle: self.first_pass_node_handle,
            last_pass_node_handle: self.last_pass_node_handle,
        }
    }
}

impl ResourceInfo {
    /// The number of writes recorded against this resource.
    pub open spec fn spec_version(self) -> usize {
        self.version
    }

    pub fn new(name: &str, handle: TypeHandle<VirtualResource>) -> (r: Self)
        ensures
            r.name@ == name@,
            r.handle.index == handle.spec_index(),
            r.spec_version() == 0,
            r.first_pass_node_handle is None,
            r.last_pass_node_handle is None,
    {
        ResourceInfo {
            name: name.to_owned(),
            handle: handle.handle(),
            version: 0,
            first_pass_node_handle: None,
            last_pass_node_handle: None,
        }
    }

    pub fn version(&self) -> (r: usize)
        ensures
            r == self.spec_version(),
    {
        self.version
    }

    /// Record one more write of this resource.
    pub fn new_version(&mut self)
        requires
            old(self).spec_version() < usize::MAX,
        ensures
            final(self).spec_version() == old(self).spec_version() + 1,
            final(self).name == old(self).name,
            final(self).handle == old(self).handle,
            final(self).first_pass_node_handle == old(self).first_pass_node_handle,
            final(self).last_pass_node_handle == old(self).last_pass_node_handle,
    {
        self.version = self.version + 1;
    }

    /// Widen the live range of this resource to cover `handle`.
    ///
    /// The first touching pass is recorded only once; the last touching pass
    /// follows every call, so driving this in pass order leaves
    /// `first_pass_node_handle` at the earliest caller and
    /// `last_pass_node_handle` at the latest.
    pub fn update_lifetime(&mut self, handle: Handle)
        ensures
            final(self).first_pass_node_handle == (if old(self).first_pass_node_handle is None {
                Some(handle)
            } else {
                old(self).first_pass_node_handle
            }),
            final(self).last_pass_node_handle == Some(handle),
            final(self).name == old(self).name,
            final(self).handle == old(self).handle,
            final(self).spec_version() == old(self).spec_version(),
    {
        if self.first_pass_node_handle.is_none() {
            self.first_pass_node_handle = Some(handle);
        }

        self.last_pass_node_handle = Some(handle);
    }
}

/// A graph-level resource entry: bookkeeping plus current state.
pub struct VirtualResource {
    pub info: ResourceInfo,
    pub state: VirtualResourceState,
}

impl VirtualResource {
    /// Declare a fresh transient resource from a typed descriptor.
    pub fn setup<DescriptorType: FGResourceDescriptor>(
        name: &str,
        handle: TypeHandle<VirtualResource>,
        desc: DescriptorType,
    ) -> (r: VirtualResource)
        ensures
            r.info.name@ == name@,
            r.info.handle.index == handle.spec_index(),
            r.info.spec_version() == 0,
            r.info.first_pass_node_handle is None,
            r.info.last_pass_node_handle is None,
            r.state == VirtualResourceState::Setup(desc.any_spec()),
    {
        VirtualResource { state: VirtualResourceState::Setup(desc.to_any()), info: ResourceInfo::new(name, handle) }
    }

    /// Whether this resource was imported rather than declared.
    pub open spec fn spec_is_imported(self) -> bool {
        self.state is Imported
    }
}

/// One write recorded: the version advanced by one and everything else of
/// the resource stands.
pub open spec fn resource_version_bumped(r0: VirtualResource, r1: VirtualResource) -> bool {
    &&& r1.info.spec_version() == r0.info.spec_version() + 1
    &&& r1.info.name == r0.info.name
    &&& r1.info.handle == r0.info.handle
    &&& r1.info.first_pass_node_handle == r0.info.first_pass_node_handle
    &&& r1.info.last_pass_node_handle == r0.info.last_pass_node_handle
    &&& r1.state == r0.state
}

/// A typed resource the graph can hold.
pub trait FGResource: 'static + Sized {
    /// The descriptor type that requests this resource.
    type Descriptor;

    /// Which type-erased resource values this typed view can borrow.
    spec fn can_borrow(res: AnyFGResource) -> bool;

    /// The typed resource inside `res`; meaningful when `can_borrow` holds.
    spec fn borrow_spec(res: AnyFGResource) -> Self;

    /// Borrow the typed resource out of a type-erased value, when the value
    /// holds this resource type.
    fn borrow_resource(res: &AnyFGResource) -> (r: Option<&Self>)
        ensures
            r is Some <==> Self::can_borrow(*res),
            r is Some ==> *r->0 == Self::borrow_spec(*res),
    ;
}

/// A typed descriptor, convertible to the type-erased descriptor set.
pub trait FGResourceDescriptor: 'static + Sized + Clone {
    /// The resource type this descriptor requests.
    type Resource: FGResource;

    /// The type-erased form of this descriptor.
    spec fn any_spec(&self) -> AnyFGResourceDescriptor;

    /// Convert into the type-erased descriptor set.
    fn to_any(&self) -> (r: AnyFGResourceDescriptor)
        ensures
            r == self.any_spec(),
    ;
}

impl FGResource for crate::gfx::Texture {
    type Descriptor = crate::gfx::TextureDescriptor;

    open spec fn can_borrow(res: AnyFGResource) -> bool {
        res is OwnedTexture || res is ImportedTexture
    }

    open spec fn borrow_spec(res: AnyFGResource) -> Self {
        match res {
            AnyFGResource::OwnedTexture(texture) => texture,
            AnyFGResource::ImportedTexture(texture) => texture,
            AnyFGResource::OwnedBuffer(_) => vstd::pervasive::arbitrary(),
        }
    }

    fn borrow_resource(res: &AnyFGResource) -> (r: Option<&Self>) {
        match res {
            AnyFGResource::OwnedTexture(texture) => Some(texture),
            AnyFGResource::ImportedTexture(texture) => Some(texture),
            _ => None,
        }
    }
}

impl FGResourceDescriptor for crate::gfx::TextureDescriptor {
    type Resource = crate::gfx::Texture;

    open spec fn any_spec(&self) -> AnyFGResourceDescriptor {
        AnyFGResourceDescriptor::Texture(*self)
    }

    fn to_any(&self) -> (r: AnyFGResourceDescriptor) {
        AnyFGResourceDescriptor::Texture(*self)
    }
}

impl FGResource for crate::gfx::Buffer {
    type Descriptor = crate::gfx::BufferDescriptor;

    open spec fn can_borrow(res: AnyFGResource) -> bool {
        res is OwnedBuffer
    }

    open spec fn borrow_spec(res: AnyFGResource) -> Self {
        match res {
            AnyFGResource::OwnedBuffer(buffer) => buffer,
            _ => vstd::pervasive::arbitrary(),
        }
    }

    fn borrow_resource(res: &AnyFGResource) -> (r: Option<&Self>) {
        match res {
            AnyFGResource::OwnedBuffer(buffer) => Some(buffer),
            _ => None,
        }
    }
}

impl FGResourceDescriptor for crate::gfx::BufferDescriptor {
    type Resource = crate::gfx::Buffer;

    open spec fn any_spec(&self) -> AnyFGResourceDescriptor {
        AnyFGResourceDescriptor::Buffer(*self)
    }

    fn to_any(&self) -> (r: AnyFGResourceDescriptor) {
        AnyFGResourceDescriptor::Buffer(*self)
    }
}

/// Witness that two types a signature equates are the same type.
pub trait TypeEquals: Sized {
    type Other;

    fn same(value: Self) -> Self::Other;
}

impl<T: Sized> TypeEquals for T {
    type Other = Self;

    fn same(value: Self) -> (r: Self::Other) {
        value
    }
}

} // verus!
