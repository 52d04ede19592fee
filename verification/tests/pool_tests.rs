use frame_graph::allocator::Allocator;
use frame_graph::allocator::ResourceCreator;
use frame_graph::entry::ResourceEntry;
use frame_graph::entry::ResourceEntryState;
use frame_graph::gfx::AnyFGResource;
use frame_graph::gfx::AnyFGResourceDescriptor;
use frame_graph::gfx::Texture;
use frame_graph::resource::FGResourceDescriptor;
use frame_graph::gfx::TextureDescriptor;
use frame_graph::handle::Handle;
use frame_graph::transient::TransientResourceCache;

pub struct TestResourceCreator {}

impl ResourceCreator for TestResourceCreator {
    fn create(&self, desc: AnyFGResourceDescriptor) -> AnyFGResource {
        match desc {
            AnyFGResourceDescriptor::Texture(d) => {
                AnyFGResource::OwnedTexture(Texture::new(d, 0))
            }
            AnyFGResourceDescriptor::Buffer(d) => {
                AnyFGResource::OwnedBuffer(frame_graph::gfx::Buffer::new(d, 0))
            }
        }
    }
}

fn texture_desc() -> AnyFGResourceDescriptor {
    AnyFGResourceDescriptor::Texture(TextureDescriptor::default())
}

fn pool_count(allocator: &Allocator<TestResourceCreator>, name: &str, desc: &AnyFGResourceDescriptor) -> Option<usize> {
    for (key, state) in allocator.pool.iter() {
        if key.name == name && key.desc == *desc {
            return Some(state.count);
        }
    }
    None
}

#[test]
fn test_allocator() {
    let mut allocator = Allocator::new(TestResourceCreator {});

    let texture_desc = TextureDescriptor::default().to_any();

    let a = allocator.allocate("a", &texture_desc);
    let b = allocator.allocate("a", &texture_desc);

    assert_eq!(a.resource, b.resource);

    let count = pool_count(&allocator, "a", &texture_desc).unwrap();
    assert_eq!(count, 2);

    allocator.free("a", a);
    allocator.free("a", b);

    assert!(pool_count(&allocator, "a", &texture_desc).is_none());
}

#[test]
fn allocator_test_allocator() {
    // Three references drawn under one key share one pooled resource.
    // Where the refcount starts at one per the allocator's contract, three
    // outstanding references leave the entry's count at 3; returning all
    // three empties the pool.
    let mut allocator = Allocator::new(TestResourceCreator {});

    let desc = texture_desc();

    let resource_ref_0 = allocator.allocate("shared", &desc);
    let resource_ref_1 = allocator.allocate("shared", &desc);
    let resource_ref_2 = allocator.allocate("shared", &desc);

    assert_eq!(resource_ref_0.resource, resource_ref_1.resource);
    assert_eq!(resource_ref_1.resource, resource_ref_2.resource);
    assert_eq!(resource_ref_0.resource, resource_ref_2.resource);

    let count = pool_count(&allocator, "shared", &desc).unwrap();
    assert_eq!(count, 3);

    allocator.free("shared", resource_ref_0);
    allocator.free("shared", resource_ref_1);
    allocator.free("shared", resource_ref_2);

    let none = pool_count(&allocator, "shared", &desc).is_none();
    assert!(none);
}

#[test]
fn test_allocator_distinct_keys() {
    let mut allocator = Allocator::new(TestResourceCreator {});
    let desc = texture_desc();

    let a = allocator.allocate("color", &desc);
    let b = allocator.allocate("depth", &desc);
    assert_eq!(allocator.pool.len(), 2);

    allocator.free("color", a);
    assert_eq!(allocator.pool.len(), 1);
    allocator.free("depth", b);
    assert_eq!(allocator.pool.len(), 0);
}

#[test]
fn test_allocator_conservation() {
    // One frame's worth of traffic returns the pool to its pre-frame state.
    let mut allocator = Allocator::new(TestResourceCreator {});
    let desc = texture_desc();

    let held = allocator.allocate("persistent", &desc);
    let baseline = allocator.pool.len();

    let r1 = allocator.allocate("frame", &desc);
    let r2 = allocator.allocate("frame", &desc);
    allocator.free("frame", r2);
    allocator.free("frame", r1);

    assert_eq!(allocator.pool.len(), baseline);
    assert_eq!(pool_count(&allocator, "persistent", &desc), Some(1));

    allocator.free("persistent", held);
    assert_eq!(allocator.pool.len(), 0);
}

#[test]
fn test_entry_request_release() {
    let mut allocator = Allocator::new(TestResourceCreator {});
    let desc = texture_desc();

    let mut entry = ResourceEntry::new(Handle::new(0), "target", desc);
    assert!(entry.get_any_resource().is_none());

    entry.request(&mut allocator);
    assert!(entry.get_any_resource().is_some());
    assert_eq!(allocator.pool.len(), 1);

    // Requesting an already realized entry changes nothing.
    entry.request(&mut allocator);
    assert_eq!(allocator.pool.len(), 1);

    entry.release(&mut allocator);
    assert!(entry.get_any_resource().is_none());
    assert_eq!(allocator.pool.len(), 0);
    match entry.resource {
        ResourceEntryState::Uninitialized(d) => assert_eq!(d, desc),
        ResourceEntryState::Initialization { .. } => panic!("entry must be pending again"),
    }

    // Releasing a pending entry changes nothing.
    entry.release(&mut allocator);
    assert_eq!(allocator.pool.len(), 0);
}

#[test]
fn test_cache_round_trip() {
    let mut cache = TransientResourceCache::new();
    let desc = TextureDescriptor { width: 8, height: 8 };
    let texture = Texture::new(desc, 42);

    assert!(cache.get_image(&desc).is_none());

    cache.insert_image(desc, texture);
    let got = cache.get_image(&desc).unwrap();
    assert_eq!(got, texture);
    assert!(cache.get_image(&desc).is_none());

    // Repeating the round trip never grows the cache.
    cache.insert_image(desc, texture);
    let _ = cache.get_image(&desc).unwrap();
    assert_eq!(cache.textures.len(), 1);
}

#[test]
fn test_cache_stacks_per_descriptor() {
    let mut cache = TransientResourceCache::new();
    let small = TextureDescriptor { width: 1, height: 1 };
    let large = TextureDescriptor { width: 4, height: 4 };

    cache.insert_image(small, Texture::new(small, 1));
    cache.insert_image(small, Texture::new(small, 2));
    cache.insert_image(large, Texture::new(large, 3));

    // Last released under a descriptor comes back first.
    assert_eq!(cache.get_image(&small).unwrap().id, 2);
    assert_eq!(cache.get_image(&small).unwrap().id, 1);
    assert_eq!(cache.get_image(&large).unwrap().id, 3);
}
