//! Render-target attachments.
//!
//! An attachment binds a texture to a color, depth or stencil slot with its
//! load/store policy. Attachments order by `(usage, slot)`: color targets
//! first, then depth, stencil and combined depth-stencil.

use vstd::prelude::*;

use crate::gfx::AccessFlags;
use crate::gfx::LoadOp;
use crate::gfx::StoreOp;
use crate::gfx::SwapChain;
use crate::gfx::Texture;
use crate::handle::TypedHandle;
use crate::node::GpuRead;
use crate::node::ResourceRef;

verus! {

/// First slot reserved for depth/stencil attachments; color attachments
/// occupy the slots below it.
pub const DEPTH_STENCIL_SLOT_START: u8 = 13;

/// What a render target is used as.
#[derive(Debug, PartialEq, Eq, Structural, Default, Clone, Copy)]
pub enum RenderTargetAttachmentUsage {
    #[default]
    Color,
    Depth,
    Stencil,
    DepthStencil,
}

/// The rank attachments sort by: color first, then depth, stencil and
/// combined depth-stencil.
pub open spec fn usage_rank(u: RenderTargetAttachmentUsage) -> int {
    match u {
        RenderTargetAttachmentUsage::Color => 0,
        RenderTargetAttachmentUsage::Depth => 1,
        RenderTargetAttachmentUsage::Stencil => 2,
        RenderTargetAttachmentUsage::DepthStencil => 3,
    }
}

/// The sorting key of a render-target attachment.
#[derive(Debug, PartialEq, Eq, Structural, Default, Clone, Copy)]
pub struct RenderTargetAttachmentDescriptor {
    pub usage: RenderTargetAttachmentUsage,
    pub slot: u8,
    pub write_mask: u8,
    pub load_op: LoadOp,
    pub end_accesses: AccessFlags,
}

/// A render-target binding with its policies.
#[derive(Debug, Default, Clone, Copy)]
pub struct RenderTargetAttachment {
    pub desc: RenderTargetAttachmentDescriptor,
    pub texture_handle: TypedHandle<Texture>,
    pub level: u8,
    pub layer: u8,
    pub index: u8,
    pub store_op: StoreOp,
}

impl RenderTargetAttachment {
    /// Attachments order by `(usage, slot)`.
    pub open spec fn spec_cmp_key(self) -> (int, int) {
        (usage_rank(self.desc.usage), self.desc.slot as int)
    }

    /// Flatten this attachment for handing to a backend.
    pub fn to_info(&self) -> (r: RenderTargetAttachmentInfo)
        ensures
            r.texture_handle_index == self.texture_handle.index,
            r.store_op == self.store_op,
            r.write_mask == self.desc.write_mask,
            r.load_op == self.desc.load_op,
            r.usage == self.desc.usage,
            r.slot == self.desc.slot,
            r.end_accesses == self.desc.end_accesses,
    {
        RenderTargetAttachmentInfo {
            texture_handle_index: self.texture_handle.index,
            store_op: self.store_op,
            write_mask: self.desc.write_mask,
            load_op: self.desc.load_op,
            usage: self.desc.usage,
            slot: self.desc.slot,
            end_accesses: self.desc.end_accesses,
        }
    }
}

impl PartialEq for RenderTargetAttachment {
    fn eq(&self, other: &Self) -> (r: bool)
        ensures
            r == (self.desc == other.desc && self.texture_handle.index
                == other.texture_handle.index && self.level == other.level && self.layer
                == other.layer && self.index == other.index && self.store_op == other.store_op),
    {
        self.desc == other.desc && self.texture_handle == other.texture_handle && self.level
            == other.level && self.layer == other.layer && self.index == other.index
            && self.store_op == other.store_op
    }
}

impl Eq for RenderTargetAttachment {}

impl vstd::std_specs::cmp::PartialEqSpecImpl for RenderTargetAttachment {
    open spec fn obeys_eq_spec() -> bool {
        true
    }

    open spec fn eq_spec(&self, other: &Self) -> bool {
        self.desc == other.desc && self.texture_handle.index == other.texture_handle.index
            && self.level == other.level && self.layer == other.layer && self.index == other.index
            && self.store_op == other.store_op
    }
}

impl PartialOrd for RenderTargetAttachment {
    /// Attachments order by `(usage, slot)`; attachments equal there are
    /// unordered unless fully equal.
    fn partial_cmp(&self, other: &Self) -> (r: Option<core::cmp::Ordering>)
        ensures
            r == (if self.spec_cmp_key().0 < other.spec_cmp_key().0 || (self.spec_cmp_key().0
                == other.spec_cmp_key().0 && self.spec_cmp_key().1 < other.spec_cmp_key().1) {
                Some(core::cmp::Ordering::Less)
            } else if self.spec_cmp_key() == other.spec_cmp_key() {
                Some(core::cmp::Ordering::Equal)
            } else {
                Some(core::cmp::Ordering::Greater)
            }),
    {
        let a = self.usage_rank_exec();
        let b = other.usage_rank_exec();
        if a < b || (a == b && self.desc.slot < other.desc.slot) {
            Some(core::cmp::Ordering::Less)
        } else if a == b && self.desc.slot == other.desc.slot {
            Some(core::cmp::Ordering::Equal)
        } else {
            Some(core::cmp::Ordering::Greater)
        }
    }
}

impl vstd::std_specs::cmp::PartialOrdSpecImpl for RenderTargetAttachment {
    open spec fn obeys_partial_cmp_spec() -> bool {
        true
    }

    open spec fn partial_cmp_spec(&self, other: &Self) -> Option<core::cmp::Ordering> {
        if self.spec_cmp_key().0 < other.spec_cmp_key().0 || (self.spec_cmp_key().0
            == other.spec_cmp_key().0 && self.spec_cmp_key().1 < other.spec_cmp_key().1) {
            Some(core::cmp::Ordering::Less)
        } else if self.spec_cmp_key() == other.spec_cmp_key() {
            Some(core::cmp::Ordering::Equal)
        } else {
            Some(core::cmp::Ordering::Greater)
        }
    }
}

impl RenderTargetAttachment {
    fn usage_rank_exec(&self) -> (r: u8)
        ensures
            r as int == usage_rank(self.desc.usage),
    {
        match self.desc.usage {
            RenderTargetAttachmentUsage::Color => 0,
            RenderTargetAttachmentUsage::Depth => 1,
            RenderTargetAttachmentUsage::Stencil => 2,
            RenderTargetAttachmentUsage::DepthStencil => 3,
        }
    }
}

/// A flattened attachment, as a backend consumes it.
pub struct RenderTargetAttachmentInfo {
    pub texture_handle_index: usize,
    pub store_op: StoreOp,
    pub write_mask: u8,
    pub load_op: LoadOp,
    pub usage: RenderTargetAttachmentUsage,
    pub slot: u8,
    pub end_accesses: AccessFlags,
}

/// A color attachment source for a physical render pass.
#[derive(Clone, Copy)]
pub enum ColorAttachment {
    SwapChain(ResourceRef<SwapChain, GpuRead>),
}

impl ColorAttachment {
    pub fn swap_chain(handle: ResourceRef<SwapChain, GpuRead>) -> (r: Self)
        ensures
            r == ColorAttachment::SwapChain(handle),
    {
        ColorAttachment::SwapChain(handle)
    }
}

} // verus!
