//! Pass nodes: one unit of GPU work and what it touches.

use vstd::prelude::*;

use crate::builder::PassNodeBuilder;
use crate::context::RenderContext;
use crate::gfx::DeviceTrait;
use crate::graph::count_nodes_of;
use crate::graph::lemma_count_nodes_le_len;
use crate::graph::lemma_count_nodes_push;
use crate::graph::lemma_count_nodes_update;
use crate::graph::FrameGraph;
use crate::handle::Handle;
use crate::handle::TypeHandle;
use crate::node::GpuRead;
use crate::node::GpuWrite;
use crate::node::ResourceNode;
use crate::node::ResourceNodeHandle;
use crate::node::ResourceRef;
use crate::resource::resource_version_bumped;

verus! {

/// After a write appends one node written by the pending pass and lists it
/// in that pass's write set, every written node is still covered.
proof fn lemma_write_coverage(
    g_nodes0: Seq<ResourceNode>,
    g_nodes1: Seq<ResourceNode>,
    g_passes: Seq<PassNode>,
    p0: PassNode,
    p1: PassNode,
)
    requires
        g_nodes0.len() < usize::MAX,
        g_nodes1.len() == g_nodes0.len() + 1,
        g_nodes1 == g_nodes0.push(g_nodes1.last()),
        g_nodes1.last().pass_node_writer_handle == Some(p0.handle),
        g_nodes1.last().handle == (Handle { index: g_nodes0.len() as usize }),
        forall|j: int|
            0 <= j < g_nodes0.len() ==> match (#[trigger] g_nodes0[j]).pass_node_writer_handle {
                Some(w) => (w.index as int) < g_passes.len() ==> g_passes[
                    w.index as int
                ].writes@.contains(g_nodes0[j].handle),
                None => true,
            },
        forall|j: int|
            0 <= j < g_nodes0.len() ==> ((#[trigger] g_nodes0[j]).pass_node_writer_handle == Some(
                p0.handle,
            ) ==> p0.writes@.contains(g_nodes0[j].handle)),
        p1.writes@ == p0.writes@.push(Handle { index: g_nodes0.len() as usize }),
        p1.handle == p0.handle,
        p0.handle.index == g_passes.len(),
    ensures
        forall|j: int|
            0 <= j < g_nodes1.len() ==> match (#[trigger] g_nodes1[j]).pass_node_writer_handle {
                Some(w) => (w.index as int) < g_passes.len() ==> g_passes[
                    w.index as int
                ].writes@.contains(g_nodes1[j].handle),
                None => true,
            },
        forall|j: int|
            0 <= j < g_nodes1.len() ==> ((#[trigger] g_nodes1[j]).pass_node_writer_handle == Some(
                p1.handle,
            ) ==> p1.writes@.contains(g_nodes1[j].handle)),
{
    let nlen = g_nodes0.len() as int;
    assert forall|j: int|
        0 <= j < g_nodes1.len() implies match (#[trigger] g_nodes1[j]).pass_node_writer_handle {
        Some(w) => (w.index as int) < g_passes.len() ==> g_passes[w.index as int].writes@.contains(
            g_nodes1[j].handle,
        ),
        None => true,
    } by {
        if j < nlen {
            assert(g_nodes1[j] == g_nodes0[j]);
        } else {
            assert(g_nodes1[j].pass_node_writer_handle == Some(p0.handle));
            assert((p0.handle.index as int) >= g_passes.len());
        }
    }
    assert forall|j: int|
        0 <= j < g_nodes1.len() implies ((#[trigger] g_nodes1[j]).pass_node_writer_handle == Some(
        p1.handle,
    ) ==> p1.writes@.contains(g_nodes1[j].handle)) by {
        if g_nodes1[j].pass_node_writer_handle == Some(p1.handle) {
            if j < nlen {
                assert(g_nodes1[j] == g_nodes0[j]);
                assert(p0.writes@.contains(g_nodes0[j].handle));
                let k = choose|k: int|
                    0 <= k < p0.writes@.len() && p0.writes@[k] == g_nodes0[j].handle;
                assert(p1.writes@[k] == g_nodes1[j].handle);
            } else {
                assert(g_nodes1[j].handle == (Handle { index: nlen as usize }));
                assert(p1.writes@.last() == (Handle { index: nlen as usize }));
            }
        }
    }
}

/// After a write appends the bumped resource's fresh node, the graph's
/// entities stay well formed.
proof fn lemma_write_entities(g0: FrameGraph, g1: FrameGraph, ni: int)
    requires
        g0.wf_entities(),
        0 <= ni < g0.resource_nodes@.len(),
        ({
            let ri = g0.resource_nodes@[ni].resource_handle.index as int;
            &&& g1.resource_nodes@.len() == g0.resource_nodes@.len() + 1
            &&& g1.resource_nodes@ == g0.resource_nodes@.push(g1.resource_nodes@.last())
            &&& g1.resource_nodes@.last().resource_handle == g0.resource_nodes@[ni].resource_handle
            &&& g1.resource_nodes@.last().version == g0.resources@[ri].info.spec_version() + 1
            &&& g1.resource_nodes@.last().handle.index == g0.resource_nodes@.len()
            &&& g1.resource_nodes@.last().pass_node_writer_handle is Some
            &&& g1.resources@.len() == g0.resources@.len()
            &&& g1.resources@ == g0.resources@.update(ri, g1.resources@[ri])
            &&& resource_version_bumped(g0.resources@[ri], g1.resources@[ri])
        }),
    ensures
        g1.wf_entities(),
{
    let ri = g0.resource_nodes@[ni].resource_handle.index as int;
    let nodes = g1.resource_nodes@;
    let old_nodes = g0.resource_nodes@;
    let n = nodes.last();
    let nlen = old_nodes.len() as int;
    lemma_count_nodes_le_len(old_nodes, ri);
    assert(count_nodes_of(old_nodes, ri) == g0.resources@[ri].info.spec_version() + 1);
    assert forall|i: int|
        0 <= i < g1.resources@.len() implies (#[trigger] g1.resources@[i]).info.handle.index
        == i by {
        if i != ri {
            assert(g1.resources@[i] == g0.resources@[i]);
        }
    }
    assert forall|i: int|
        0 <= i < g1.resources@.len() implies count_nodes_of(nodes, i) == (
    #[trigger] g1.resources@[i]).info.spec_version() + 1 by {
        lemma_count_nodes_push(old_nodes, i, n);
        if i != ri {
            assert(g1.resources@[i] == g0.resources@[i]);
        }
    }
    assert forall|j: int|
        0 <= j < nodes.len() implies (#[trigger] nodes[j]).version == count_nodes_of(
        nodes.take(j),
        nodes[j].resource_handle.index as int,
    ) by {
        if j < nlen {
            assert(nodes[j] == old_nodes[j]);
            assert(nodes.take(j) =~~= old_nodes.take(j));
        } else {
            assert(nodes.take(j) =~~= old_nodes);
        }
    }
    assert forall|j: int|
        0 <= j < nodes.len() implies (#[trigger] nodes[j]).handle.index == j by {
        if j < nlen {
            assert(nodes[j] == old_nodes[j]);
        }
    }
    assert forall|j: int|
        0 <= j < nodes.len() implies ((#[trigger] nodes[j]).resource_handle.index as int)
        < g1.resources@.len() by {
        if j < nlen {
            assert(nodes[j] == old_nodes[j]);
        }
    }
    assert forall|j: int|
        0 <= j < nodes.len() implies ((#[trigger] nodes[j]).pass_node_writer_handle is None
        <==> nodes[j].version == 0) by {
        if j < nlen {
            assert(nodes[j] == old_nodes[j]);
        }
    }
}

/// After a write, the pending pass and the graph's writer bookkeeping are
/// still sound.
proof fn lemma_write_pass_wf(g0: FrameGraph, g1: FrameGraph, p0: PassNode, p1: PassNode)
    requires
        p0.is_pending_on(g0),
        g0.resource_nodes@.len() < usize::MAX,
        g1.pass_nodes == g0.pass_nodes,
        g1.resource_nodes@.len() == g0.resource_nodes@.len() + 1,
        g1.resource_nodes@ == g0.resource_nodes@.push(g1.resource_nodes@.last()),
        g1.resource_nodes@.last().pass_node_writer_handle == Some(p0.handle),
        g1.resource_nodes@.last().handle == (Handle {
            index: g0.resource_nodes@.len() as usize,
        }),
        p1.writes@ == p0.writes@.push(Handle { index: g0.resource_nodes@.len() as usize }),
        p1.reads == p0.reads,
        p1.handle == p0.handle,
        p1.resource_request_array == p0.resource_request_array,
        p1.resource_release_array == p0.resource_release_array,
        p1.ref_count == p0.ref_count,
        g1.wf_entities(),
    ensures
        g1.wf_pass(p1),
        g1.writers_bounded(g1.pass_nodes@.len() as int + 1),
        p1.handle.index == g1.pass_nodes@.len(),
        p1.resource_request_array@.len() == 0,
        p1.resource_release_array@.len() == 0,
        p1.ref_count == 0,
{
    let nlen = g0.resource_nodes@.len() as int;
    assert(g0.wf_pass(p0));
    assert forall|k: int|
        0 <= k < p1.reads@.len() implies (#[trigger] p1.reads@[k]).index
        < g1.resource_nodes@.len() by {
        assert(p0.reads@[k].index < g0.resource_nodes@.len());
    }
    assert forall|k: int|
        0 <= k < p1.reads@.len() implies (g1.resource_nodes@[(
    #[trigger] p1.reads@[k]).index as int].pass_node_writer_handle matches Some(w) ==> w.index
        < p1.handle.index) by {
        assert(p1.reads@[k] == p0.reads@[k]);
        assert((p0.reads@[k].index as int) < nlen);
        assert(g1.resource_nodes@[p0.reads@[k].index as int] == g0.resource_nodes@[p0.reads@[
            k
        ].index as int]);
    }
    assert forall|k: int|
        0 <= k < p1.writes@.len() implies g1.resource_nodes@[(
    #[trigger] p1.writes@[k]).index as int].pass_node_writer_handle == Some(p1.handle) by {
        if k < p0.writes@.len() {
            assert(p1.writes@[k] == p0.writes@[k]);
            assert((p0.writes@[k].index as int) < nlen);
            assert(g1.resource_nodes@[p0.writes@[k].index as int] == g0.resource_nodes@[p0.writes@[
                k
            ].index as int]);
        } else {
            assert(p1.writes@[k] == (Handle { index: nlen as usize }));
        }
    }
    assert(p1.writes@.no_duplicates()) by {
        assert forall|a: int, b: int|
            0 <= a < p1.writes@.len() && 0 <= b < p1.writes@.len() && a != b implies p1.writes@[a]
            != p1.writes@[b] by {
            let s0 = p0.writes@;
            if a < s0.len() && b < s0.len() {
                assert(p1.writes@[a] == s0[a]);
                assert(p1.writes@[b] == s0[b]);
                assert(s0.no_duplicates());
            } else if a == s0.len() {
                assert(p1.writes@[b] == s0[b]);
                assert(s0[b].index < nlen);
            } else {
                assert(p1.writes@[a] == s0[a]);
                assert(s0[a].index < nlen);
            }
        }
    }
    assert forall|j: int|
        0 <= j < g1.resource_nodes@.len() implies ((
    #[trigger] g1.resource_nodes@[j]).pass_node_writer_handle matches Some(w) ==> w.index
        < g1.pass_nodes@.len() + 1) by {
        if j < nlen {
            assert(g1.resource_nodes@[j] == g0.resource_nodes@[j]);
        } else {
            assert(g1.resource_nodes@[j].pass_node_writer_handle == Some(p0.handle));
        }
    }
}

/// A declared pass: its ordering key, the resource nodes it reads and
/// writes, the resources acquired and released at its boundaries, and the
/// reference count culling leaves it with.
pub struct PassNode {
    /// Caller-supplied ordering key; passes sort by it before culling.
    pub insert_point: usize,
    /// The pass's debug name.
    pub name: String,
    /// The pass's own handle: its declaration index.
    pub handle: Handle,
    /// Virtual resources acquired when this pass opens.
    pub resource_request_array: Vec<Handle>,
    /// Virtual resources released when this pass closes.
    pub resource_release_array: Vec<Handle>,
    /// Resource nodes this pass produces, one per write.
    pub writes: Vec<Handle>,
    /// Resource nodes this pass consumes, deduplicated.
    pub reads: Vec<Handle>,
    /// Keeps the pass alive through culling even if nothing reads it.
    pub side_effect: bool,
    /// References that keep this pass alive; 0 after culling means culled.
    pub ref_count: usize,
}

impl PassNode {
    pub fn new(insert_point: usize, name: &str, handle: TypeHandle<PassNode>) -> (r: Self)
        ensures
            r.insert_point == insert_point,
            r.name@ == name@,
            r.handle.index == handle.spec_index(),
            r.resource_request_array@.len() == 0,
            r.resource_release_array@.len() == 0,
            r.writes@.len() == 0,
            r.reads@.len() == 0,
            !r.side_effect,
            r.ref_count == 0,
    {
        PassNode {
            name: name.to_owned(),
            handle: handle.handle(),
            writes: Vec::new(),
            reads: Vec::new(),
            insert_point,
            resource_request_array: Vec::new(),
            resource_release_array: Vec::new(),
            side_effect: false,
            ref_count: 0,
        }
    }

    /// Whether this pass is being declared as the next pass of `graph`.
    pub open spec fn is_pending_on(self, graph: FrameGraph) -> bool {
        &&& self.handle.index == graph.pass_nodes@.len()
        &&& graph.wf_entities()
        &&& graph.writers_bounded(graph.pass_nodes@.len() as int + 1)
        &&& graph.wf_pass(self)
        &&& self.resource_request_array@.len() == 0
        &&& self.resource_release_array@.len() == 0
        &&& self.ref_count == 0
        &&& graph.writer_covered()
        &&& forall|j: int|
            0 <= j < graph.resource_nodes@.len() ==> ((
            #[trigger] graph.resource_nodes@[j]).pass_node_writer_handle == Some(self.handle)
                ==> self.writes@.contains(graph.resource_nodes@[j].handle))
    }

    /// Declare that this pass reads the resource node `resource_node_handle`.
    ///
    /// The node is appended to the pass's read set unless it is already
    /// there; the returned reference captures the node and its resource.
    pub fn read<ResourceType>(
        &mut self,
        graph: &FrameGraph,
        resource_node_handle: ResourceNodeHandle<ResourceType>,
    ) -> (r: ResourceRef<ResourceType, GpuRead>)
        requires
            old(self).is_pending_on(*graph),
            resource_node_handle.spec_resource_node_handle().spec_index()
                < graph.resource_nodes@.len(),
            graph.resource_nodes@[resource_node_handle.spec_resource_node_handle().spec_index() as int].pass_node_writer_handle
                != Some(old(self).handle),
        ensures
            final(self).is_pending_on(*graph),
            final(self).reads@ == (if old(self).reads@.contains(
                Handle { index: resource_node_handle.spec_resource_node_handle().spec_index() },
            ) {
                old(self).reads@
            } else {
                old(self).reads@.push(
                    Handle { index: resource_node_handle.spec_resource_node_handle().spec_index() },
                )
            }),
            final(self).reads@.contains(
                Handle { index: resource_node_handle.spec_resource_node_handle().spec_index() },
            ),
            final(self).writes == old(self).writes,
            final(self).handle == old(self).handle,
            final(self).insert_point == old(self).insert_point,
            final(self).name == old(self).name,
            final(self).side_effect == old(self).side_effect,
            final(self).ref_count == old(self).ref_count,
            final(self).resource_request_array == old(self).resource_request_array,
            final(self).resource_release_array == old(self).resource_release_array,
            r.spec_handle().spec_resource_node_handle().spec_index()
                == resource_node_handle.spec_resource_node_handle().spec_index(),
            r.spec_handle().spec_resource_handle().spec_index() == graph.resource_nodes@[
                resource_node_handle.spec_resource_node_handle().spec_index() as int
            ].resource_handle.index,
    {
        let node_handle = resource_node_handle.resource_node_handle();
        let h = node_handle.handle();

        let mut already: bool = false;
        let n = self.reads.len();
        let mut i: usize = 0;
        while i < n
            invariant
                n == self.reads@.len(),
                i <= n,
                already == exists|j: int| 0 <= j < i && self.reads@[j] == h,
                *self == *old(self),
                h == (Handle {
                    index: resource_node_handle.spec_resource_node_handle().spec_index(),
                }),
            decreases n - i,
        {
            if self.reads[i] == h {
                already = true;
            }
            i = i + 1;
        }
        proof {
            assert(already == self.reads@.contains(h));
        }

        if !already {
            self.reads.push(h);
            proof {
                assert(self.reads@.last() == h);
                assert(self.reads@.contains(h));
                assert(self.reads@.no_duplicates()) by {
                    assert forall|a: int, b: int|
                        0 <= a < self.reads@.len() && 0 <= b < self.reads@.len() && a != b implies
                        self.reads@[a] != self.reads@[b] by {
                        let s0 = old(self).reads@;
                        if a < s0.len() && b < s0.len() {
                            assert(s0.no_duplicates());
                        } else if a == s0.len() {
                            assert(self.reads@[a] == h);
                            assert(!s0.contains(h));
                            assert(s0[b] != h);
                        } else {
                            assert(self.reads@[b] == h);
                            assert(!s0.contains(h));
                            assert(s0[a] != h);
                        }
                    }
                }
            }
        }

        let resource_handle = graph.get_resource_node(&node_handle).resource_handle;

        ResourceRef::new(ResourceNodeHandle::new(
            node_handle,
            TypeHandle::new(resource_handle.index),
        ))
    }

    /// The mutation of a write: bump the version, append the fresh node,
    /// link it to this pass and extend the write set.
    #[verifier::rlimit(100)]
    fn write_step<ResourceType>(
        &mut self,
        graph: &mut FrameGraph,
        resource_node_handle: ResourceNodeHandle<ResourceType>,
    ) -> (r: ResourceRef<ResourceType, GpuWrite>)
        requires
            old(self).is_pending_on(*old(graph)),
            resource_node_handle.spec_resource_node_handle().spec_index()
                < old(graph).resource_nodes@.len(),
        ensures
            old(graph).resource_nodes@.len() < usize::MAX,
            final(graph).resource_nodes@.last().handle == (Handle {
                index: old(graph).resource_nodes@.len() as usize,
            }),
            final(graph).pass_nodes == old(graph).pass_nodes,
            final(graph).pass_order == old(graph).pass_order,
            final(graph).device_passes == old(graph).device_passes,
            final(graph).resource_nodes@.len() == old(graph).resource_nodes@.len() + 1,
            final(graph).resource_nodes@ == old(graph).resource_nodes@.push(
                final(graph).resource_nodes@.last(),
            ),
            final(graph).resource_nodes@.last().resource_handle == old(graph).resource_nodes@[
                resource_node_handle.spec_resource_node_handle().spec_index() as int
            ].resource_handle,
            final(graph).resource_nodes@.last().pass_node_writer_handle == Some(
                old(self).handle,
            ),
            final(graph).resources@.len() == old(graph).resources@.len(),
            ({
                let ri = old(graph).resource_nodes@[
                    resource_node_handle.spec_resource_node_handle().spec_index() as int
                ].resource_handle.index as int;
                &&& final(graph).resources@ == old(graph).resources@.update(
                    ri,
                    final(graph).resources@[ri],
                )
                &&& resource_version_bumped(
                    old(graph).resources@[ri],
                    final(graph).resources@[ri],
                )
                &&& final(graph).resource_nodes@.last().version == old(graph).resources@[
                    ri
                ].info.spec_version() + 1
            }),
            final(self).writes@ == old(self).writes@.push(
                Handle { index: old(graph).resource_nodes@.len() as usize },
            ),
            final(self).reads == old(self).reads,
            final(self).handle == old(self).handle,
            final(self).insert_point == old(self).insert_point,
            final(self).name == old(self).name,
            final(self).side_effect == old(self).side_effect,
            final(self).ref_count == old(self).ref_count,
            final(self).resource_request_array == old(self).resource_request_array,
            final(self).resource_release_array == old(self).resource_release_array,
            r.spec_handle().spec_resource_node_handle().spec_index()
                == old(graph).resource_nodes@.len(),
            r.spec_handle().spec_resource_handle().spec_index() == old(graph).resource_nodes@[
                resource_node_handle.spec_resource_node_handle().spec_index() as int
            ].resource_handle.index,
    {
        let ghost old_nodes = graph.resource_nodes@;
        let ghost old_resources = graph.resources@;

        let node_handle = resource_node_handle.resource_node_handle();
        let resource_handle = graph.get_resource_node(&node_handle).resource_handle;
        let ghost ri = resource_handle.index as int;

        let typed_resource: TypeHandle<crate::resource::VirtualResource> = TypeHandle::new(
            resource_handle.index,
        );

        proof {
            lemma_count_nodes_le_len(old_nodes, ri);
            assert(old_nodes[resource_node_handle.spec_resource_node_handle().spec_index() as int]
                .resource_handle.index < old(graph).resources@.len());
            assert(count_nodes_of(old_nodes, ri) == old(graph).resources@[ri].info.spec_version()
                + 1);
        }
        let nodes_len = graph.resource_nodes.len();

        let resource = graph.get_resource_mut(&typed_resource);
        resource.info.new_version();
        let resource_info = resource.info.clone();

        let new_resource_node_handle = graph.create_resource_node(resource_info);
        let ghost mid_nodes = graph.resource_nodes@;
        let new_resource_node = graph.get_resource_node_mut(&new_resource_node_handle);
        new_resource_node.pass_node_writer_handle = Some(self.handle);

        self.writes.push(new_resource_node_handle.handle());

        let post_len = graph.resource_nodes.len();
        proof {
            let nodes = graph.resource_nodes@;
            let n = nodes.last();
            assert(post_len == old(graph).resource_nodes@.len() + 1);
            assert(nodes =~~= old_nodes.push(n));
            assert(graph.resources@ =~~= old_resources.update(ri, graph.resources@[ri]));
        }

        ResourceRef::new(ResourceNodeHandle::new(new_resource_node_handle, typed_resource))
    }

    /// Declare that this pass writes the resource behind
    /// `resource_node_handle`: the resource's version is bumped, a fresh
    /// node for the new version is created with this pass as its writer,
    /// and the node joins the pass's write set.
    pub fn write<ResourceType>(
        &mut self,
        graph: &mut FrameGraph,
        resource_node_handle: ResourceNodeHandle<ResourceType>,
    ) -> (r: ResourceRef<ResourceType, GpuWrite>)
        requires
            old(self).is_pending_on(*old(graph)),
            resource_node_handle.spec_resource_node_handle().spec_index()
                < old(graph).resource_nodes@.len(),
        ensures
            final(self).is_pending_on(*final(graph)),
            final(graph).pass_nodes == old(graph).pass_nodes,
            final(graph).pass_order == old(graph).pass_order,
            final(graph).device_passes == old(graph).device_passes,
            final(graph).resource_nodes@.len() == old(graph).resource_nodes@.len() + 1,
            final(graph).resource_nodes@ == old(graph).resource_nodes@.push(
                final(graph).resource_nodes@.last(),
            ),
            final(graph).resource_nodes@.last().resource_handle == old(graph).resource_nodes@[
                resource_node_handle.spec_resource_node_handle().spec_index() as int
            ].resource_handle,
            final(graph).resource_nodes@.last().pass_node_writer_handle == Some(
                old(self).handle,
            ),
            final(graph).resources@.len() == old(graph).resources@.len(),
            ({
                let ri = old(graph).resource_nodes@[
                    resource_node_handle.spec_resource_node_handle().spec_index() as int
                ].resource_handle.index as int;
                &&& final(graph).resources@ == old(graph).resources@.update(
                    ri,
                    final(graph).resources@[ri],
                )
                &&& resource_version_bumped(
                    old(graph).resources@[ri],
                    final(graph).resources@[ri],
                )
                &&& final(graph).resource_nodes@.last().version == old(graph).resources@[
                    ri
                ].info.spec_version() + 1
            }),
            final(self).writes@ == old(self).writes@.push(
                Handle { index: old(graph).resource_nodes@.len() as usize },
            ),
            final(self).reads == old(self).reads,
            final(self).handle == old(self).handle,
            final(self).insert_point == old(self).insert_point,
            final(self).name == old(self).name,
            final(self).side_effect == old(self).side_effect,
            final(self).ref_count == old(self).ref_count,
            final(self).resource_request_array == old(self).resource_request_array,
            final(self).resource_release_array == old(self).resource_release_array,
            r.spec_handle().spec_resource_node_handle().spec_index()
                == old(graph).resource_nodes@.len(),
            r.spec_handle().spec_resource_handle().spec_index() == old(graph).resource_nodes@[
                resource_node_handle.spec_resource_node_handle().spec_index() as int
            ].resource_handle.index,
    {
        let r = self.write_step(graph, resource_node_handle);
        proof {
            lemma_write_entities(
                *old(graph),
                *graph,
                resource_node_handle.spec_resource_node_handle().spec_index() as int,
            );
            lemma_write_pass_wf(*old(graph), *graph, *old(self), *self);
            lemma_write_coverage(
                old(graph).resource_nodes@,
                graph.resource_nodes@,
                graph.pass_nodes@,
                *old(self),
                *self,
            );
        }
        r
    }

    /// Mark whether this pass must survive culling even when nothing reads
    /// its outputs.
    pub fn set_side_effect(&mut self, side_effect: bool)
        ensures
            final(self).side_effect == side_effect,
            final(self).reads == old(self).reads,
            final(self).writes == old(self).writes,
            final(self).handle == old(self).handle,
            final(self).insert_point == old(self).insert_point,
            final(self).name == old(self).name,
            final(self).ref_count == old(self).ref_count,
            final(self).resource_request_array == old(self).resource_request_array,
            final(self).resource_release_array == old(self).resource_release_array,
    {
        self.side_effect = side_effect;
    }
}

/// A unit of GPU work: declares what it touches during setup, and records
/// its commands when its device pass runs.
///
/// `setup` may only declare resources, reads, writes and side effects
/// through the builder; the pending pass's identity and the passes already
/// installed stay as they are. `execute` records commands against the
/// context's command buffer and reads resolved resources; the resource
/// table and the transient cache are the graph's own bookkeeping and pass
/// through a callback untouched.
pub trait Pass<D: DeviceTrait>: Sized {
    fn setup(&mut self, builder: &mut PassNodeBuilder)
        requires
            old(builder).wf(),
        ensures
            final(builder).wf(),
            final(builder).graph.pass_nodes == old(builder).graph.pass_nodes,
            final(builder).pass_node.handle == old(builder).pass_node.handle,
            final(builder).pass_node.insert_point == old(builder).pass_node.insert_point,
            final(builder).pass_node.name == old(builder).pass_node.name,
    ;

    fn execute(&mut self, render_context: &mut RenderContext<D>)
        requires
            old(render_context).wf(),
        ensures
            final(render_context).wf(),
            final(render_context).resource_table == old(render_context).resource_table,
            final(render_context).transient_resource_cache == old(
                render_context,
            ).transient_resource_cache,
            final(render_context).device == old(render_context).device,
    ;
}

} // verus!
