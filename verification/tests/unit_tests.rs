use frame_graph::attachment::RenderTargetAttachment;
use frame_graph::attachment::RenderTargetAttachmentDescriptor;
use frame_graph::attachment::RenderTargetAttachmentUsage;
use frame_graph::blackboard::BlackBoard;
use frame_graph::blackboard::BlackBoardKey;
use frame_graph::callback::CallbackPass;
use frame_graph::gfx::CommandBuffer;
use frame_graph::gfx::RenderPassInfo;
use frame_graph::gfx::StoreOp;
use frame_graph::gfx::Texture;
use frame_graph::gfx::TextureDescriptor;
use frame_graph::handle::Handle;
use frame_graph::handle::TypedHandle;
use frame_graph::AppExit;

#[test]
fn it_works() {
    let result = frame_graph::add(2, 2);
    assert_eq!(result, 4);
}

#[test]
fn test_attachment_ord() {
    let a = RenderTargetAttachment {
        desc: RenderTargetAttachmentDescriptor {
            slot: 0,
            usage: RenderTargetAttachmentUsage::Color,
            ..Default::default()
        },
        texture_handle: Default::default(),
        ..Default::default()
    };

    let mut b = RenderTargetAttachment {
        desc: RenderTargetAttachmentDescriptor {
            slot: 1,
            usage: RenderTargetAttachmentUsage::Color,
            ..Default::default()
        },
        texture_handle: Default::default(),
        ..Default::default()
    };

    let v = a < b;
    assert!(v);

    b.desc.slot = 0;
    let v = a == b;
    assert!(v);

    b.desc.usage = RenderTargetAttachmentUsage::Depth;
    let v = a < b;
    assert!(v);
}

#[test]
fn test_attachment_to_info() {
    let a = RenderTargetAttachment {
        desc: RenderTargetAttachmentDescriptor {
            slot: 3,
            usage: RenderTargetAttachmentUsage::Depth,
            write_mask: 5,
            ..Default::default()
        },
        texture_handle: TypedHandle::<Texture>::new(7),
        store_op: StoreOp::Discard,
        ..Default::default()
    };
    let info = a.to_info();
    assert_eq!(info.texture_handle_index, 7);
    assert_eq!(info.slot, 3);
    assert_eq!(info.write_mask, 5);
    assert!(matches!(info.store_op, StoreOp::Discard));
    assert!(matches!(info.usage, RenderTargetAttachmentUsage::Depth));
}

#[test]
fn test_handles() {
    let h: Handle = Handle::new(4);
    assert!(h.is_valid());
    assert_eq!(h.index, 4);

    let d: Handle = Default::default();
    assert!(!d.is_valid());

    let t: TypedHandle<Texture> = TypedHandle::new(2);
    assert!(t.is_valid());
    assert_eq!(t.handle().index, 2);

    let u: TypedHandle<Texture> = Default::default();
    assert!(!u.is_valid());

    let a: TypedHandle<Texture> = TypedHandle::new(1);
    let b: TypedHandle<Texture> = TypedHandle::new(2);
    assert!(a < b);
    assert!(a == a);
}

#[test]
fn test_command_buffer_protocol() {
    let mut cb = CommandBuffer::new(9);
    assert!(!cb.in_render_pass);
    assert_eq!(cb.pass_count, 0);

    cb.begin_render_pass(RenderPassInfo::new());
    assert!(cb.in_render_pass);
    assert_eq!(cb.pass_count, 1);

    cb.end_render_pass();
    assert!(!cb.in_render_pass);
    assert_eq!(cb.pass_count, 1);
}

#[test]
fn test_blackboard() {
    let mut board = BlackBoard::new();
    assert!(board.get("missing").is_none());

    board.put("color", Handle::new(3));
    board.put("depth", Handle::new(5));
    assert_eq!(board.get("color").unwrap().index, 3);
    assert_eq!(board.get("depth").unwrap().index, 5);

    board.put("color", Handle::new(8));
    assert_eq!(board.get("color").unwrap().index, 8);
    assert_eq!(board.handles.len(), 2);

    let key = BlackBoardKey::new("color");
    assert_eq!(key.key, "color");
}

#[test]
fn test_callback_pass() {
    let pass: CallbackPass<u32, fn(&mut u32), fn(&u32)> =
        CallbackPass::new(|d: &mut u32| *d = 1, |_d: &u32| {});
    assert!(pass.has_setup());
    assert!(pass.has_execute());
    assert_eq!(pass.data, 0);
}

#[test]
fn test_app_exit() {
    let e = AppExit::error();
    assert!(matches!(e, AppExit::Error(1)));
    assert!(matches!(AppExit::Success, AppExit::Success));
}

#[test]
fn test_texture_descriptor_default() {
    let d = TextureDescriptor::default();
    assert_eq!(d.width, 0);
    assert_eq!(d.height, 0);
}
