use std::cell::Cell;

use frame_graph::builder::PassNodeBuilder;
use frame_graph::context::RenderContext;
use frame_graph::gfx::AnyFGResource;
use frame_graph::gfx::AnyFGResourceDescriptor;
use frame_graph::gfx::Buffer;
use frame_graph::gfx::CommandBuffer;
use frame_graph::gfx::DeviceTrait;
use frame_graph::gfx::RenderPass;
use frame_graph::gfx::RenderPassInfo;
use frame_graph::gfx::Texture;
use frame_graph::gfx::TextureDescriptor;
use frame_graph::graph::FrameGraph;
use frame_graph::handle::Handle;
use frame_graph::node::ResourceNodeHandle;
use frame_graph::pass::Pass;
use frame_graph::transient::TransientResourceCache;

pub struct TestDevice {
    pub created: Cell<u32>,
    pub next_id: Cell<u64>,
}

impl TestDevice {
    fn new() -> Self {
        TestDevice { created: Cell::new(0), next_id: Cell::new(1) }
    }
}

impl DeviceTrait for TestDevice {
    fn create_command_buffer(&self) -> CommandBuffer {
        CommandBuffer::new(0)
    }

    fn create_render_pass(&self, desc: RenderPassInfo) -> RenderPass {
        RenderPass { info: desc }
    }

    fn submit(&self, _command_buffers: Vec<CommandBuffer>) {}

    fn create(&self, desc: &AnyFGResourceDescriptor) -> AnyFGResource {
        self.created.set(self.created.get() + 1);
        let id = self.next_id.get();
        self.next_id.set(id + 1);
        match desc {
            AnyFGResourceDescriptor::Texture(d) => AnyFGResource::OwnedTexture(Texture::new(*d, id)),
            AnyFGResourceDescriptor::Buffer(d) => AnyFGResource::OwnedBuffer(Buffer::new(*d, id)),
        }
    }
}

#[derive(Default)]
pub struct TestPass {
    pub create_desc: Option<TextureDescriptor>,
    pub read_handle: Option<ResourceNodeHandle<Texture>>,
    pub side_effect: bool,
    pub written: Option<ResourceNodeHandle<Texture>>,
    pub executed: Cell<u32>,
}

impl Pass<TestDevice> for TestPass {
    fn setup(&mut self, builder: &mut PassNodeBuilder) {
        if let Some(desc) = self.create_desc {
            let created = builder.create("texture", desc);
            let written = builder.write(created);
            self.written = Some(ResourceNodeHandle::new(
                written.resource_node_handle(),
                written.resource_handle(),
            ));
        }
        if let Some(handle) = self.read_handle {
            builder.read(handle);
        }
        builder.set_side_effect(self.side_effect);
    }

    fn execute(&mut self, _render_context: &mut RenderContext<TestDevice>) {
        self.executed.set(self.executed.get() + 1);
    }
}

fn request_array(fg: &FrameGraph, pass: usize) -> &Vec<Handle> {
    &fg.pass_nodes[pass].resource_request_array
}

fn release_array(fg: &FrameGraph, pass: usize) -> &Vec<Handle> {
    &fg.pass_nodes[pass].resource_release_array
}

#[test]
fn test_versioning_counts_writes() {
    let mut fg = FrameGraph::new();
    let mut passes = vec![
        TestPass {
            create_desc: Some(TextureDescriptor { width: 1, height: 1 }),
            side_effect: true,
            ..Default::default()
        },
    ];
    fg.add_pass(0, "writer", &mut passes[0]);

    // One write: version 1; the initial node plus the written node exist.
    assert_eq!(fg.resources.len(), 1);
    assert_eq!(fg.resources[0].info.version(), 1);
    assert_eq!(fg.resource_nodes.len(), 2);
    assert!(fg.resource_nodes[0].pass_node_writer_handle.is_none());
    assert_eq!(fg.resource_nodes[1].pass_node_writer_handle, Some(Handle::new(0)));
}

#[test]
fn test_single_pass_side_effect() {
    // One side-effect pass writing one fresh texture: one device pass, the
    // texture requested and released at that pass, and the released
    // texture pooled for the next frame.
    let device = TestDevice::new();
    let mut cache = TransientResourceCache::new();
    let mut fg = FrameGraph::new();
    let mut passes = vec![
        TestPass {
            create_desc: Some(TextureDescriptor { width: 1, height: 1 }),
            side_effect: true,
            ..Default::default()
        },
    ];
    fg.add_pass(0, "present", &mut passes[0]);

    fg.compile(&device, &mut cache);

    let dps = fg.device_passes.as_ref().unwrap();
    assert_eq!(dps.len(), 1);
    assert_eq!(dps[0].logic_passes.len(), 1);
    assert_eq!(dps[0].logic_passes[0].pass_handle, Handle::new(0));
    assert_eq!(request_array(&fg, 0), &vec![Handle::new(0)]);
    assert_eq!(release_array(&fg, 0), &vec![Handle::new(0)]);
    assert_eq!(device.created.get(), 1);

    fg.execute(&device, &mut cache, &mut passes);
    assert_eq!(passes[0].executed.get(), 1);
    assert_eq!(cache.textures.len(), 1);
    assert!(fg.device_passes.is_none());
}

#[test]
fn test_dead_passes_culled() {
    // A writes T0; B reads T0 and writes T1; nothing consumes T1 and
    // neither pass has a side effect: both are culled, no device passes.
    let device = TestDevice::new();
    let mut cache = TransientResourceCache::new();
    let mut fg = FrameGraph::new();
    let mut passes = vec![
        TestPass {
            create_desc: Some(TextureDescriptor { width: 2, height: 2 }),
            ..Default::default()
        },
        TestPass {
            create_desc: Some(TextureDescriptor { width: 2, height: 2 }),
            ..Default::default()
        },
    ];
    fg.add_pass(0, "a", &mut passes[0]);
    let t0 = passes[0].written.unwrap();
    passes[1].read_handle = Some(t0);
    fg.add_pass(1, "b", &mut passes[1]);

    fg.compile(&device, &mut cache);

    assert_eq!(fg.pass_nodes[0].ref_count, 0);
    assert_eq!(fg.pass_nodes[1].ref_count, 0);
    assert_eq!(fg.device_passes.as_ref().unwrap().len(), 0);
    assert_eq!(device.created.get(), 0);

    fg.execute(&device, &mut cache, &mut passes);
    assert_eq!(passes[0].executed.get(), 0);
    assert_eq!(passes[1].executed.get(), 0);
}

#[test]
fn test_chain_survives() {
    // A writes T0; B reads T0 and writes T1; C reads T1 with a side
    // effect. All three survive; T0 lives [a, b], T1 lives [b, c].
    let device = TestDevice::new();
    let mut cache = TransientResourceCache::new();
    let mut fg = FrameGraph::new();
    let mut passes = vec![
        TestPass {
            create_desc: Some(TextureDescriptor { width: 2, height: 2 }),
            ..Default::default()
        },
        TestPass {
            create_desc: Some(TextureDescriptor { width: 4, height: 4 }),
            ..Default::default()
        },
        TestPass { side_effect: true, ..Default::default() },
    ];
    fg.add_pass(0, "a", &mut passes[0]);
    let t0 = passes[0].written.unwrap();
    passes[1].read_handle = Some(t0);
    fg.add_pass(1, "b", &mut passes[1]);
    let t1 = passes[1].written.unwrap();
    passes[2].read_handle = Some(t1);
    fg.add_pass(2, "c", &mut passes[2]);

    fg.compile(&device, &mut cache);

    assert!(fg.pass_nodes[0].ref_count > 0);
    assert!(fg.pass_nodes[1].ref_count > 0);
    assert!(fg.pass_nodes[2].ref_count > 0);
    assert_eq!(fg.device_passes.as_ref().unwrap().len(), 3);

    // T0 (resource 0): requested at a, released at b.
    assert_eq!(request_array(&fg, 0), &vec![Handle::new(0)]);
    assert_eq!(release_array(&fg, 1), &vec![Handle::new(0)]);
    // T1 (resource 1): requested at b, released at c.
    assert_eq!(request_array(&fg, 1), &vec![Handle::new(1)]);
    assert_eq!(release_array(&fg, 2), &vec![Handle::new(1)]);
    assert_eq!(release_array(&fg, 0), &Vec::<Handle>::new());
    assert_eq!(request_array(&fg, 2), &Vec::<Handle>::new());

    fg.execute(&device, &mut cache, &mut passes);
    assert_eq!(passes[0].executed.get(), 1);
    assert_eq!(passes[1].executed.get(), 1);
    assert_eq!(passes[2].executed.get(), 1);
}

#[test]
fn test_sort_is_stable() {
    // Passes with equal insertion points keep declaration order; smaller
    // insertion points run first.
    let device = TestDevice::new();
    let mut cache = TransientResourceCache::new();
    let mut fg = FrameGraph::new();
    let mut passes = vec![
        TestPass { side_effect: true, ..Default::default() },
        TestPass { side_effect: true, ..Default::default() },
        TestPass { side_effect: true, ..Default::default() },
    ];
    fg.add_pass(2, "late", &mut passes[0]);
    fg.add_pass(1, "early_first", &mut passes[1]);
    fg.add_pass(1, "early_second", &mut passes[2]);

    fg.compile(&device, &mut cache);

    assert_eq!(fg.pass_order, vec![1, 2, 0]);
    let dps = fg.device_passes.as_ref().unwrap();
    assert_eq!(dps.len(), 3);
    assert_eq!(dps[0].logic_passes[0].pass_handle, Handle::new(1));
    assert_eq!(dps[1].logic_passes[0].pass_handle, Handle::new(2));
    assert_eq!(dps[2].logic_passes[0].pass_handle, Handle::new(0));
}

#[test]
fn test_transient_reuse_across_frames() {
    // Two identical frames: the second is serviced from the transient
    // cache and the device creates nothing new.
    let device = TestDevice::new();
    let mut cache = TransientResourceCache::new();

    for frame in 0..2u32 {
        let mut fg = FrameGraph::new();
        let mut passes = vec![
            TestPass {
                create_desc: Some(TextureDescriptor { width: 3, height: 3 }),
                side_effect: true,
                ..Default::default()
            },
        ];
        fg.add_pass(0, "draw", &mut passes[0]);
        fg.compile(&device, &mut cache);
        fg.execute(&device, &mut cache, &mut passes);
        fg.reset();

        assert_eq!(device.created.get(), 1, "frame {frame} must not allocate anew");
        assert_eq!(cache.textures.len(), 1);
    }
}

pub struct DoubleReader {
    pub handle: ResourceNodeHandle<Texture>,
}

impl Pass<TestDevice> for DoubleReader {
    fn setup(&mut self, builder: &mut PassNodeBuilder) {
        builder.read(self.handle);
        builder.read(self.handle);
    }
    fn execute(&mut self, _render_context: &mut RenderContext<TestDevice>) {}
}

#[test]
fn test_read_deduplicates() {
    let mut fg = FrameGraph::new();
    let mut writer = TestPass {
        create_desc: Some(TextureDescriptor { width: 1, height: 1 }),
        ..Default::default()
    };
    fg.add_pass(0, "w", &mut writer);
    let t0 = writer.written.unwrap();

    let mut reader = DoubleReader { handle: t0 };
    fg.add_pass(1, "r", &mut reader);

    assert_eq!(fg.pass_nodes[1].reads.len(), 1);
}

#[test]
fn test_empty_graph_is_noop() {
    let device = TestDevice::new();
    let mut cache = TransientResourceCache::new();
    let mut fg = FrameGraph::new();
    let mut passes: Vec<TestPass> = Vec::new();

    fg.compile(&device, &mut cache);
    assert!(fg.device_passes.is_none());

    fg.execute(&device, &mut cache, &mut passes);
    assert_eq!(device.created.get(), 0);
    assert_eq!(cache.textures.len(), 0);
}

#[test]
fn test_mixed_cull() {
    // A feeds B which presents; C writes something nobody reads. A and B
    // survive, C is culled and its texture is never materialized.
    let device = TestDevice::new();
    let mut cache = TransientResourceCache::new();
    let mut fg = FrameGraph::new();
    let mut passes = vec![
        TestPass {
            create_desc: Some(TextureDescriptor { width: 2, height: 2 }),
            ..Default::default()
        },
        TestPass { side_effect: true, ..Default::default() },
        TestPass {
            create_desc: Some(TextureDescriptor { width: 9, height: 9 }),
            ..Default::default()
        },
    ];
    fg.add_pass(0, "a", &mut passes[0]);
    let t0 = passes[0].written.unwrap();
    passes[1].read_handle = Some(t0);
    fg.add_pass(1, "b", &mut passes[1]);
    fg.add_pass(2, "c", &mut passes[2]);

    fg.compile(&device, &mut cache);

    assert!(fg.pass_nodes[0].ref_count > 0);
    assert!(fg.pass_nodes[1].ref_count > 0);
    assert_eq!(fg.pass_nodes[2].ref_count, 0);
    assert_eq!(fg.device_passes.as_ref().unwrap().len(), 2);
    assert_eq!(device.created.get(), 1);

    fg.execute(&device, &mut cache, &mut passes);
    assert_eq!(passes[0].executed.get(), 1);
    assert_eq!(passes[1].executed.get(), 1);
    assert_eq!(passes[2].executed.get(), 0);
}
