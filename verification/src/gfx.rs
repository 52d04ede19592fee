//! Concrete GPU resource values and the ports a graphics backend implements.
//!
//! The frame graph never talks to a driver directly. It manipulates plain
//! value types — descriptors, textures, buffers, command-buffer state — and
//! leaves the driver work to implementations of the port traits declared
//! here ([`DeviceTrait`], [`CommandBufferTrait`], [`SwapChainTrait`]).

use vstd::prelude::*;

verus! {

/// Load policy of a render-target attachment at the start of a pass.
#[derive(Debug, PartialEq, Eq, Structural, Default, Clone, Copy)]
pub enum LoadOp {
    /// Load the previous content from memory.
    #[default]
    Load,
}

/// Store policy of a render-target attachment at the end of a pass.
#[derive(Debug, PartialEq, Eq, Structural, Default, Clone, Copy)]
pub enum StoreOp {
    /// Store the pending content to memory.
    #[default]
    Store,
    /// Discard the pending content.
    Discard,
}

/// Access mask a render target transitions to when its pass ends.
#[derive(Debug, PartialEq, Eq, Structural, Default, Clone, Copy)]
pub struct AccessFlags {
    pub bits: u32,
}

/// Describes a requested texture.
#[derive(Debug, Clone, Copy, Hash, PartialEq, Eq, Structural, Default)]
pub struct TextureDescriptor {
    pub width: u32,
    pub height: u32,
}

/// Describes a requested buffer.
#[derive(Debug, Clone, Copy, Hash, PartialEq, Eq, Structural, Default)]
pub struct BufferDescriptor {
    pub width: u32,
}

/// A concrete texture: the descriptor it was created from plus the backend's
/// identifier for the driver object it stands for.
#[derive(Debug, Clone, Copy, PartialEq, Eq, Structural)]
pub struct Texture {
    pub desc: TextureDescriptor,
    pub id: u64,
}

impl Texture {
    pub fn new(desc: TextureDescriptor, id: u64) -> (r: Self)
        ensures
            r.desc == desc,
            r.id == id,
    {
        Texture { desc, id }
    }

    pub fn get_desc(&self) -> (r: &TextureDescriptor)
        ensures
            *r == self.desc,
    {
        &self.desc
    }
}

/// A concrete buffer: descriptor plus backend identifier.
#[derive(Debug, Clone, Copy, PartialEq, Eq, Structural)]
pub struct Buffer {
    pub desc: BufferDescriptor,
    pub id: u64,
}

impl Buffer {
    pub fn new(desc: BufferDescriptor, id: u64) -> (r: Self)
        ensures
            r.desc == desc,
            r.id == id,
    {
        Buffer { desc, id }
    }
}

/// A view onto a texture, as handed out by a swap chain.
#[derive(Debug, Clone, Copy, PartialEq, Eq, Structural)]
pub struct TextureView {
    pub id: u64,
}

/// Describes a swap chain.
#[derive(Debug, Clone, Copy, Hash, PartialEq, Eq, Structural, Default)]
pub struct SwapChainInfo {
}

/// A swap chain as seen by the graph: a plain tag; presentation is driver
/// work behind [`SwapChainTrait`].
#[derive(Debug, Clone, Copy, PartialEq, Eq, Structural, Default)]
pub struct SwapChain {
    pub info: SwapChainInfo,
}

/// Describes one physical render pass.
#[derive(Debug, Clone, PartialEq, Eq, Structural, Default)]
pub struct RenderPassInfo {
}

impl RenderPassInfo {
    pub fn new() -> (r: Self)
        ensures
            r == (RenderPassInfo {  }),
    {
        RenderPassInfo {  }
    }
}

/// A physical render-pass object, created by the device from its descriptor.
#[derive(Debug, Clone, PartialEq, Eq, Structural)]
pub struct RenderPass {
    pub info: RenderPassInfo,
}

/// Command-buffer recording state.
///
/// The graph tracks the render-pass bracketing protocol as plain state: a
/// render pass may only begin when none is open and only end when one is.
/// The backend maps `id` to its own encoder object.
#[derive(Debug, Clone, PartialEq, Eq, Structural)]
pub struct CommandBuffer {
    /// Backend identifier of the encoder this value stands for.
    pub id: u64,
    /// Whether a render pass is currently open on this command buffer.
    pub in_render_pass: bool,
    /// How many render passes have begun on this command buffer.
    pub pass_count: u64,
}

impl CommandBuffer {
    /// A fresh command buffer: nothing recorded yet.
    pub open spec fn spec_is_fresh(self) -> bool {
        &&& !self.in_render_pass
        &&& self.pass_count == 0
    }

    pub fn new(id: u64) -> (r: Self)
        ensures
            r.spec_is_fresh(),
            r.id == id,
    {
        CommandBuffer { id, in_render_pass: false, pass_count: 0 }
    }

    /// Open a render pass described by `render_pass` on this command buffer.
    pub fn begin_render_pass(&mut self, render_pass: RenderPassInfo)
        requires
            !old(self).in_render_pass,
            old(self).pass_count < u64::MAX,
        ensures
            final(self).in_render_pass,
            final(self).pass_count == old(self).pass_count + 1,
            final(self).id == old(self).id,
    {
        self.in_render_pass = true;
        self.pass_count = self.pass_count + 1;
    }

    /// Close the render pass currently open on this command buffer.
    pub fn end_render_pass(&mut self)
        requires
            old(self).in_render_pass,
        ensures
            !final(self).in_render_pass,
            final(self).pass_count == old(self).pass_count,
            final(self).id == old(self).id,
    {
        self.in_render_pass = false;
    }
}

/// One descriptor out of the open set of resource descriptors.
#[derive(Debug, Clone, Copy, Hash, PartialEq, Eq, Structural)]
pub enum AnyFGResourceDescriptor {
    Texture(TextureDescriptor),
    Buffer(BufferDescriptor),
}

/// One concrete resource out of the open set of resource kinds.
#[derive(Debug, Clone, Copy, PartialEq, Eq, Structural)]
pub enum AnyFGResource {
    /// A texture the graph allocated and may pool.
    OwnedTexture(Texture),
    /// A texture a caller imported; never pooled.
    ImportedTexture(Texture),
    /// A buffer the graph allocated.
    OwnedBuffer(Buffer),
}

impl AnyFGResource {
    /// The descriptor this concrete resource answers to.
    pub open spec fn spec_desc(self) -> AnyFGResourceDescriptor {
        match self {
            AnyFGResource::OwnedTexture(t) => AnyFGResourceDescriptor::Texture(t.desc),
            AnyFGResource::ImportedTexture(t) => AnyFGResourceDescriptor::Texture(t.desc),
            AnyFGResource::OwnedBuffer(b) => AnyFGResourceDescriptor::Buffer(b.desc),
        }
    }

    pub fn is_texture(&self) -> (r: bool)
        ensures
            r == (self.spec_desc() is Texture),
    {
        match self {
            AnyFGResource::OwnedTexture(_) => true,
            AnyFGResource::ImportedTexture(_) => true,
            AnyFGResource::OwnedBuffer(_) => false,
        }
    }

    pub fn desc(&self) -> (r: AnyFGResourceDescriptor)
        ensures
            r == self.spec_desc(),
    {
        match self {
            AnyFGResource::OwnedTexture(t) => AnyFGResourceDescriptor::Texture(t.desc),
            AnyFGResource::ImportedTexture(t) => AnyFGResourceDescriptor::Texture(t.desc),
            AnyFGResource::OwnedBuffer(b) => AnyFGResourceDescriptor::Buffer(b.desc),
        }
    }
}

/// A pooled resource reference: the concrete resource together with the
/// descriptor it was requested under.
#[derive(Debug, Clone, PartialEq, Eq, Structural)]
pub struct AnyResource {
    pub desc: AnyFGResourceDescriptor,
    pub resource: AnyFGResource,
}

impl AnyResource {
    pub fn new(desc: AnyFGResourceDescriptor, resource: AnyFGResource) -> (r: Self)
        ensures
            r.desc == desc,
            r.resource == resource,
    {
        AnyResource { desc, resource }
    }
}

/// The device port a backend implements: command buffers, render passes,
/// submission, and materialization of declared resources.
///
/// The contracts here are the library's interface to unverified backends: a
/// fresh command buffer has nothing recorded, and a created resource answers
/// to the descriptor it was created from.
pub trait DeviceTrait {
    fn create_command_buffer(&self) -> (r: CommandBuffer)
        ensures
            r.spec_is_fresh(),
    ;

    fn create_render_pass(&self, desc: RenderPassInfo) -> RenderPass;

    fn submit(&self, command_buffers: Vec<CommandBuffer>);

    /// Materialize a concrete resource from a descriptor.
    fn create(&self, desc: &AnyFGResourceDescriptor) -> (r: AnyFGResource)
        ensures
            r.spec_desc() == *desc,
    ;
}

/// Marker for backend texture objects.
pub trait TextureTrait {
}

/// Marker for backend render-pass objects.
pub trait RenderPassTrait {
}

/// Marker for backend objects in general.
pub trait GfxObject {
}

/// Marker for backend objects owned by the device.
pub trait GFXObject {
}

/// The command recording port a backend implements.
pub trait CommandBufferTrait {
    fn begin_render_pass(&mut self, render_pass: RenderPass);

    fn end_render_pass(&mut self);
}

/// The presentation port a backend implements.
pub trait SwapChainTrait {
    fn get_texture_view(&self) -> TextureView;

    fn present(&mut self);
}

/// An empty pipeline-state cache; compiled-pipeline reuse is backend work.
pub struct PipelineCache {
}

/// A viewport a logic pass may override.
pub struct Viewport {
}

/// A scissor rectangle a logic pass may override.
pub struct Rect {
}

/// Barriers recorded between two passes of one device pass.
pub struct PassBarrierPair {
}

} // verus!
