//! The transient resource cache.
//!
//! A mapping from texture descriptor to a stack of previously released
//! textures. It persists across frames: resources released at the end of one
//! frame service identical requests in the next, so repeating the same graph
//! does not grow the allocator pool.

use vstd::prelude::*;

use crate::gfx::Texture;
use crate::gfx::TextureDescriptor;

verus! {

/// The mathematical image of one cache entry.
#[verifier::ext_equal]
pub ghost struct CacheEntry {
    pub desc: TextureDescriptor,
    pub textures: Seq<Texture>,
}

/// The mathematical image of the cache.
pub open spec fn cache_view(s: Seq<(TextureDescriptor, Vec<Texture>)>) -> Seq<CacheEntry> {
    Seq::new(s.len(), |i: int| CacheEntry { desc: s[i].0, textures: s[i].1@ })
}

/// A well-formed cache: descriptors are unique, and every cached texture
/// answers to the descriptor it is filed under.
pub open spec fn cache_wf(s: Seq<CacheEntry>) -> bool {
    &&& forall|i: int, j: int|
        0 <= i < j < s.len() ==> (#[trigger] s[i].desc) != (#[trigger] s[j].desc)
    &&& forall|i: int, k: int|
        0 <= i < s.len() && 0 <= k < s[i].textures.len() ==> (#[trigger] s[i].textures[k]).desc
            == s[i].desc
}

/// Whether the cache holds a stack for `desc`.
pub open spec fn cache_has(s: Seq<CacheEntry>, desc: TextureDescriptor) -> bool {
    exists|i: int| 0 <= i < s.len() && (#[trigger] s[i]).desc == desc
}

/// The index of the stack for `desc`; meaningful when `cache_has` holds of
/// a well-formed cache, where that stack is unique.
pub open spec fn cache_index_of(s: Seq<CacheEntry>, desc: TextureDescriptor) -> int {
    choose|i: int| 0 <= i < s.len() && (#[trigger] s[i]).desc == desc
}

/// What `get_image` returns on a cache in state `s`.
pub open spec fn cache_get_result(s: Seq<CacheEntry>, desc: TextureDescriptor) -> Option<Texture> {
    if cache_has(s, desc) && s[cache_index_of(s, desc)].textures.len() > 0 {
        Some(s[cache_index_of(s, desc)].textures.last())
    } else {
        None
    }
}

/// The cache after a `get_image` of `desc`.
pub open spec fn cache_after_get(s: Seq<CacheEntry>, desc: TextureDescriptor) -> Seq<CacheEntry> {
    if cache_has(s, desc) && s[cache_index_of(s, desc)].textures.len() > 0 {
        let i = cache_index_of(s, desc);
        s.update(i, CacheEntry { desc, textures: s[i].textures.drop_last() })
    } else {
        s
    }
}

/// The cache after an `insert_image` of `resource` under `desc`.
pub open spec fn cache_after_insert(
    s: Seq<CacheEntry>,
    desc: TextureDescriptor,
    resource: Texture,
) -> Seq<CacheEntry> {
    if cache_has(s, desc) {
        let i = cache_index_of(s, desc);
        s.update(i, CacheEntry { desc, textures: s[i].textures.push(resource) })
    } else {
        s.push(CacheEntry { desc, textures: seq![resource] })
    }
}

/// Inserting a matching texture preserves cache well-formedness.
pub proof fn lemma_cache_insert_preserves_wf(
    s: Seq<CacheEntry>,
    desc: TextureDescriptor,
    resource: Texture,
)
    requires
        cache_wf(s),
        resource.desc == desc,
    ensures
        cache_wf(cache_after_insert(s, desc, resource)),
{
    let s1 = cache_after_insert(s, desc, resource);
    if cache_has(s, desc) {
        let i = cache_index_of(s, desc);
        assert(0 <= i < s.len() && s[i].desc == desc);
        assert forall|a: int, b: int| 0 <= a < b < s1.len() implies (#[trigger] s1[a].desc) != (
        #[trigger] s1[b].desc) by {
            assert(s1[a].desc == s[a].desc);
            assert(s1[b].desc == s[b].desc);
        }
        assert forall|a: int, k: int|
            0 <= a < s1.len() && 0 <= k < s1[a].textures.len() implies (
        #[trigger] s1[a].textures[k]).desc == s1[a].desc by {
            if a != i {
                assert(s1[a] == s[a]);
                assert(s[a].textures[k].desc == s[a].desc);
            } else {
                assert(s1[a].textures == s[i].textures.push(resource));
                if k < s[i].textures.len() {
                    assert(s1[a].textures[k] == s[i].textures[k]);
                    assert(s[i].textures[k].desc == s[i].desc);
                } else {
                    assert(s1[a].textures[k] == resource);
                }
            }
        }
    } else {
        assert forall|a: int, b: int| 0 <= a < b < s1.len() implies (#[trigger] s1[a].desc) != (
        #[trigger] s1[b].desc) by {
            if b == s1.len() - 1 {
                assert(!cache_has(s, desc));
                assert(s[a].desc != desc);
            }
        }
        assert forall|a: int, k: int|
            0 <= a < s1.len() && 0 <= k < s1[a].textures.len() implies (
        #[trigger] s1[a].textures[k]).desc == s1[a].desc by {
            if a < s.len() {
                assert(s1[a] == s[a]);
                assert(s[a].textures[k].desc == s[a].desc);
            } else {
                assert(s1[a].textures == seq![resource]);
                assert(s1[a].textures[k] == resource);
            }
        }
    }
}

/// Popping a texture preserves cache well-formedness.
pub proof fn lemma_cache_get_preserves_wf(s: Seq<CacheEntry>, desc: TextureDescriptor)
    requires
        cache_wf(s),
    ensures
        cache_wf(cache_after_get(s, desc)),
{
    let s1 = cache_after_get(s, desc);
    if cache_has(s, desc) && s[cache_index_of(s, desc)].textures.len() > 0 {
        let i = cache_index_of(s, desc);
        assert(0 <= i < s.len() && s[i].desc == desc);
        assert forall|a: int, b: int| 0 <= a < b < s1.len() implies (#[trigger] s1[a].desc) != (
        #[trigger] s1[b].desc) by {
            assert(s1[a].desc == s[a].desc);
            assert(s1[b].desc == s[b].desc);
        }
        assert forall|a: int, k: int|
            0 <= a < s1.len() && 0 <= k < s1[a].textures.len() implies (
        #[trigger] s1[a].textures[k]).desc == s1[a].desc by {
            if a != i {
                assert(s1[a] == s[a]);
                assert(s[a].textures[k].desc == s[a].desc);
            } else {
                assert(s1[a].textures == s[i].textures.drop_last());
                assert(s1[a].textures[k] == s[i].textures[k]);
                assert(s[i].textures[k].desc == s[i].desc);
            }
        }
    }
}

/// Frame-to-frame cache of released transient textures, keyed by descriptor.
#[derive(Debug)]
pub struct TransientResourceCache {
    pub textures: Vec<(TextureDescriptor, Vec<Texture>)>,
}

impl Default for TransientResourceCache {
    fn default() -> (r: Self)
        ensures
            r.view_cache().len() == 0,
    {
        TransientResourceCache { textures: Vec::new() }
    }
}

impl TransientResourceCache {
    /// The mathematical image of this cache.
    pub open spec fn view_cache(self) -> Seq<CacheEntry> {
        cache_view(self.textures@)
    }

    /// A well-formed cache: unique descriptors.
    pub open spec fn wf(self) -> bool {
        cache_wf(self.view_cache())
    }

    pub fn new() -> (r: Self)
        ensures
            r.wf(),
            r.view_cache().len() == 0,
    {
        TransientResourceCache { textures: Vec::new() }
    }

    /// Pop the most recently released texture cached under `desc`, if any.
    pub fn get_image(&mut self, desc: &TextureDescriptor) -> (r: Option<Texture>)
        requires
            old(self).wf(),
        ensures
            final(self).wf(),
            r == cache_get_result(old(self).view_cache(), *desc),
            final(self).view_cache() == cache_after_get(old(self).view_cache(), *desc),
            r is Some ==> r->0.desc == *desc,
    {
        let ghost s = self.view_cache();
        let n = self.textures.len();
        let mut i: usize = 0;
        while i < n
            invariant
                n == self.textures@.len(),
                i <= n,
                forall|j: int| 0 <= j < i ==> (#[trigger] cache_view(self.textures@)[j]).desc != *desc,
                cache_view(self.textures@) == s,
                s == old(self).view_cache(),
                cache_wf(s),
            decreases n - i,
        {
            if self.textures[i].0 == *desc {
                proof {
                    assert(s[i as int].desc == *desc);
                    assert(cache_has(s, *desc));
                    let k = cache_index_of(s, *desc);
                    assert(0 <= k < s.len() && s[k].desc == *desc);
                    assert(k == i);
                }
                let entry = &mut self.textures[i];
                let r = entry.1.pop();
                proof {
                    assert(cache_view(self.textures@) =~~= cache_after_get(s, *desc));
                    lemma_cache_get_preserves_wf(s, *desc);
                }
                return r;
            }
            i = i + 1;
        }
        proof {
            assert(!cache_has(s, *desc));
        }
        None
    }

    /// Push a released texture under `desc` for reuse in a later frame.
    pub fn insert_image(&mut self, desc: TextureDescriptor, resource: Texture)
        requires
            old(self).wf(),
            resource.desc == desc,
        ensures
            final(self).wf(),
            final(self).view_cache() == cache_after_insert(old(self).view_cache(), desc, resource),
    {
        let ghost s = self.view_cache();
        let n = self.textures.len();
        let mut i: usize = 0;
        while i < n
            invariant
                n == self.textures@.len(),
                i <= n,
                forall|j: int| 0 <= j < i ==> (#[trigger] cache_view(self.textures@)[j]).desc != desc,
                cache_view(self.textures@) == s,
                s == old(self).view_cache(),
                cache_wf(s),
                resource.desc == desc,
            decreases n - i,
        {
            if self.textures[i].0 == desc {
                proof {
                    assert(s[i as int].desc == desc);
                    assert(cache_has(s, desc));
                    let k = cache_index_of(s, desc);
                    assert(0 <= k < s.len() && s[k].desc == desc);
                    assert(k == i);
                }
                let entry = &mut self.textures[i];
                entry.1.push(resource);
                proof {
                    assert(cache_view(self.textures@) =~~= cache_after_insert(s, desc, resource));
                    lemma_cache_insert_preserves_wf(s, desc, resource);
                }
                return ;
            }
            i = i + 1;
        }
        proof {
            assert(!cache_has(s, desc));
        }
        let mut stack: Vec<Texture> = Vec::new();
        stack.push(resource);
        self.textures.push((desc, stack));
        proof {
            assert(cache_view(self.textures@) =~~= cache_after_insert(s, desc, resource));
            lemma_cache_insert_preserves_wf(s, desc, resource);
        }
    }
}

/// Transient-cache round trip: releasing a texture and then requesting the
/// same descriptor hands the texture back and leaves the cached contents as
/// they were; at most an empty stack for a first-seen descriptor remains.
pub proof fn lemma_cache_insert_get_returns(
    s: Seq<CacheEntry>,
    desc: TextureDescriptor,
    resource: Texture,
)
    requires
        cache_wf(s),
        resource.desc == desc,
    ensures
        cache_get_result(cache_after_insert(s, desc, resource), desc) == Some(resource),
        cache_has(s, desc) ==> cache_after_get(cache_after_insert(s, desc, resource), desc) =~~= s,
        !cache_has(s, desc) ==> cache_after_get(cache_after_insert(s, desc, resource), desc)
            =~~= s.push(CacheEntry { desc, textures: Seq::empty() }),
{
    let s1 = cache_after_insert(s, desc, resource);
    if cache_has(s, desc) {
        let i = cache_index_of(s, desc);
        assert(0 <= i < s.len() && s[i].desc == desc);
        assert(s1 =~~= s.update(i, CacheEntry { desc, textures: s[i].textures.push(resource) }));
        assert(s1[i].desc == desc);
        assert(cache_has(s1, desc));
        let j = cache_index_of(s1, desc);
        assert(0 <= j < s1.len() && s1[j].desc == desc);
        assert(forall|k: int| 0 <= k < s.len() && k != i ==> (#[trigger] s[k]).desc != desc);
        assert(j == i);
        assert(s1[i].textures.len() > 0);
        assert(s1[i].textures.last() == resource);
        assert(s1[i].textures.drop_last() =~~= s[i].textures);
        assert(cache_after_get(s1, desc) =~~= s);
    } else {
        assert(s1 =~~= s.push(CacheEntry { desc, textures: seq![resource] }));
        let i = s.len() as int;
        assert(s1[i].desc == desc);
        assert(cache_has(s1, desc));
        let j = cache_index_of(s1, desc);
        assert(0 <= j < s1.len() && s1[j].desc == desc);
        assert(forall|k: int| 0 <= k < s.len() ==> (#[trigger] s[k]).desc != desc);
        assert(j == i);
        assert(s1[i].textures.len() == 1);
        assert(s1[i].textures.last() == resource);
        assert(s1[i].textures.drop_last() =~~= Seq::<Texture>::empty());
        assert(cache_after_get(s1, desc) =~~= s.push(CacheEntry { desc, textures: Seq::empty() }));
    }
}

/// A descriptor once cached stays cached: after any insert or get of `desc`,
/// a later round trip for `desc` is an exact identity. Together with
/// [`lemma_cache_insert_get_returns`] this bounds the cache: repeating an
/// identical frame can never grow it.
pub proof fn lemma_cache_round_trip_idempotent(
    s: Seq<CacheEntry>,
    desc: TextureDescriptor,
    resource: Texture,
)
    requires
        cache_wf(s),
        cache_has(s, desc),
        resource.desc == desc,
    ensures
        cache_after_get(cache_after_insert(s, desc, resource), desc) =~~= s,
        cache_get_result(cache_after_insert(s, desc, resource), desc) == Some(resource),
{
    lemma_cache_insert_get_returns(s, desc, resource);
}

} // verus!
