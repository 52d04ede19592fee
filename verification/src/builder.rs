//! The declarative API pass authors use during setup.
//!
//! While a pass is being declared the builder owns the frame graph and the
//! pending pass node; `build` hands both back so the graph can install the
//! pass.

use vstd::prelude::*;

use crate::graph::FrameGraph;
use crate::handle::Handle;
use crate::handle::TypeHandle;
use crate::node::GpuRead;
use crate::node::GpuWrite;
use crate::node::ResourceNodeHandle;
use crate::node::ResourceRef;
use crate::pass::PassNode;
use crate::resource::FGResourceDescriptor;

verus! {

/// Builder for one pass: owns the graph and the pass node being declared.
pub struct PassNodeBuilder {
    pub graph: FrameGraph,
    pub pass_node: PassNode,
}

impl PassNodeBuilder {
    /// The builder is declaring the graph's next pass, every pass already
    /// installed stays well formed, and the graph is still in its
    /// declaration phase: no lifetimes computed, no boundary arrays filled.
    pub open spec fn wf(self) -> bool {
        &&& self.pass_node.is_pending_on(self.graph)
        &&& forall|i: int|
            0 <= i < self.graph.pass_nodes@.len() ==> (
            #[trigger] self.graph.pass_nodes@[i]).handle.index == i
        &&& forall|i: int|
            0 <= i < self.graph.pass_nodes@.len() ==> self.graph.wf_pass(
                #[trigger] self.graph.pass_nodes@[i],
            )
        &&& self.graph.lifetimes_unset()
        &&& self.graph.arrays_empty()
    }

    pub fn new(insert_point: usize, name: &str, handle: TypeHandle<PassNode>, graph: FrameGraph) -> (r: Self)
        requires
            graph.wf_building(),
            graph.lifetimes_unset(),
            graph.arrays_empty(),
            handle.spec_index() == graph.pass_nodes@.len(),
        ensures
            r.wf(),
            r.graph == graph,
            r.pass_node.insert_point == insert_point,
            r.pass_node.name@ == name@,
            r.pass_node.handle.index == handle.spec_index(),
            r.pass_node.reads@.len() == 0,
            r.pass_node.writes@.len() == 0,
            !r.pass_node.side_effect,
    {
        PassNodeBuilder { graph, pass_node: PassNode::new(insert_point, name, handle) }
    }

    /// Hand the graph and the finished pass node back.
    pub fn build(self) -> (r: (FrameGraph, PassNode))
        ensures
            r.0 == self.graph,
            r.1 == self.pass_node,
    {
        let PassNodeBuilder { graph, pass_node } = self;
        (graph, pass_node)
    }

    /// Declare a fresh transient resource.
    pub fn create<DescriptorType: FGResourceDescriptor>(
        &mut self,
        name: &str,
        desc: DescriptorType,
    ) -> (r: ResourceNodeHandle<DescriptorType::Resource>)
        requires
            old(self).wf(),
        ensures
            final(self).wf(),
            final(self).pass_node == old(self).pass_node,
            final(self).graph.pass_nodes == old(self).graph.pass_nodes,
            final(self).graph.resources@.len() == old(self).graph.resources@.len() + 1,
            final(self).graph.resource_nodes@.len() == old(self).graph.resource_nodes@.len() + 1,
            r.spec_resource_handle().spec_index() == old(self).graph.resources@.len(),
            r.spec_resource_node_handle().spec_index() == old(self).graph.resource_nodes@.len(),
            final(self).graph.resources@.last().info.name@ == name@,
            final(self).graph.resources@.last().info.spec_version() == 0,
            final(self).graph.resources@.last().info.first_pass_node_handle is None,
            final(self).graph.resources@.last().info.last_pass_node_handle is None,
            final(self).graph.resources@.last().state == crate::resource::VirtualResourceState::Setup(
                desc.any_spec(),
            ),
            final(self).graph.resources@ == old(self).graph.resources@.push(
                final(self).graph.resources@.last(),
            ),
            final(self).graph.resource_nodes@ == old(self).graph.resource_nodes@.push(
                final(self).graph.resource_nodes@.last(),
            ),
    {
        let r = self.graph.create(name, desc);
        proof {
            assert forall|ri: int|
                0 <= ri < self.graph.resources@.len() implies ((
            #[trigger] self.graph.resources@[ri]).info.first_pass_node_handle is None
                && self.graph.resources@[ri].info.last_pass_node_handle is None) by {
                if ri < old(self).graph.resources@.len() {
                    assert(self.graph.resources@[ri] == old(self).graph.resources@[ri]);
                }
            }
            assert forall|i: int|
                0 <= i < self.graph.pass_nodes@.len() implies self.graph.wf_pass(
                #[trigger] self.graph.pass_nodes@[i],
            ) by {
                let p = self.graph.pass_nodes@[i];
                assert(old(self).graph.wf_pass(p));
                assert forall|k: int|
                    0 <= k < p.reads@.len() implies (self.graph.resource_nodes@[(
                #[trigger] p.reads@[k]).index as int].pass_node_writer_handle matches Some(w)
                    ==> w.index < p.handle.index) by {
                    assert(self.graph.resource_nodes@[p.reads@[k].index as int]
                        == old(self).graph.resource_nodes@[p.reads@[k].index as int]);
                }
                assert forall|k: int|
                    0 <= k < p.writes@.len() implies self.graph.resource_nodes@[(
                #[trigger] p.writes@[k]).index as int].pass_node_writer_handle == Some(
                    p.handle,
                ) by {
                    assert(self.graph.resource_nodes@[p.writes@[k].index as int]
                        == old(self).graph.resource_nodes@[p.writes@[k].index as int]);
                }
            }
            assert(self.pass_node.is_pending_on(self.graph)) by {
                let p = self.pass_node;
                assert(old(self).graph.wf_pass(p));
                assert forall|k: int|
                    0 <= k < p.reads@.len() implies (self.graph.resource_nodes@[(
                #[trigger] p.reads@[k]).index as int].pass_node_writer_handle matches Some(w)
                    ==> w.index < p.handle.index) by {
                    assert(self.graph.resource_nodes@[p.reads@[k].index as int]
                        == old(self).graph.resource_nodes@[p.reads@[k].index as int]);
                }
                assert forall|k: int|
                    0 <= k < p.writes@.len() implies self.graph.resource_nodes@[(
                #[trigger] p.writes@[k]).index as int].pass_node_writer_handle == Some(
                    p.handle,
                ) by {
                    assert(self.graph.resource_nodes@[p.writes@[k].index as int]
                        == old(self).graph.resource_nodes@[p.writes@[k].index as int]);
                }
            }
        }
        r
    }

    /// Declare that the pending pass reads `resource_node_handle`.
    pub fn read<ResourceType>(
        &mut self,
        resource_node_handle: ResourceNodeHandle<ResourceType>,
    ) -> (r: ResourceRef<ResourceType, GpuRead>)
        requires
            old(self).wf(),
            resource_node_handle.spec_resource_node_handle().spec_index()
                < old(self).graph.resource_nodes@.len(),
            old(self).graph.resource_nodes@[
                resource_node_handle.spec_resource_node_handle().spec_index() as int
            ].pass_node_writer_handle != Some(old(self).pass_node.handle),
        ensures
            final(self).wf(),
            final(self).graph == old(self).graph,
            final(self).pass_node.reads@ == (if old(self).pass_node.reads@.contains(
                Handle { index: resource_node_handle.spec_resource_node_handle().spec_index() },
            ) {
                old(self).pass_node.reads@
            } else {
                old(self).pass_node.reads@.push(
                    Handle { index: resource_node_handle.spec_resource_node_handle().spec_index() },
                )
            }),
            final(self).pass_node.reads@.contains(
                Handle { index: resource_node_handle.spec_resource_node_handle().spec_index() },
            ),
            final(self).pass_node.writes == old(self).pass_node.writes,
            final(self).pass_node.handle == old(self).pass_node.handle,
            final(self).pass_node.insert_point == old(self).pass_node.insert_point,
            final(self).pass_node.name == old(self).pass_node.name,
            final(self).pass_node.side_effect == old(self).pass_node.side_effect,
            r.spec_handle().spec_resource_node_handle().spec_index()
                == resource_node_handle.spec_resource_node_handle().spec_index(),
            r.spec_handle().spec_resource_handle().spec_index() == old(self).graph.resource_nodes@[
                resource_node_handle.spec_resource_node_handle().spec_index() as int
            ].resource_handle.index,
    {
        self.pass_node.read(&self.graph, resource_node_handle)
    }

    /// Declare that the pending pass writes the resource behind
    /// `resource_node_handle`.
    pub fn write<ResourceType>(
        &mut self,
        resource_node_handle: ResourceNodeHandle<ResourceType>,
    ) -> (r: ResourceRef<ResourceType, GpuWrite>)
        requires
            old(self).wf(),
            resource_node_handle.spec_resource_node_handle().spec_index()
                < old(self).graph.resource_nodes@.len(),
        ensures
            final(self).wf(),
            final(self).graph.pass_nodes == old(self).graph.pass_nodes,
            final(self).graph.pass_order == old(self).graph.pass_order,
            final(self).graph.device_passes == old(self).graph.device_passes,
            final(self).graph.resources@.len() == old(self).graph.resources@.len(),
            final(self).graph.resource_nodes@.len() == old(self).graph.resource_nodes@.len() + 1,
            final(self).graph.resource_nodes@ == old(self).graph.resource_nodes@.push(
                final(self).graph.resource_nodes@.last(),
            ),
            final(self).graph.resource_nodes@.last().resource_handle == old(
                self,
            ).graph.resource_nodes@[
                resource_node_handle.spec_resource_node_handle().spec_index() as int
            ].resource_handle,
            final(self).graph.resource_nodes@.last().pass_node_writer_handle == Some(
                old(self).pass_node.handle,
            ),
            ({
                let ri = old(self).graph.resource_nodes@[
                    resource_node_handle.spec_resource_node_handle().spec_index() as int
                ].resource_handle.index as int;
                &&& final(self).graph.resources@ == old(self).graph.resources@.update(
                    ri,
                    final(self).graph.resources@[ri],
                )
                &&& crate::resource::resource_version_bumped(
                    old(self).graph.resources@[ri],
                    final(self).graph.resources@[ri],
                )
                &&& final(self).graph.resource_nodes@.last().version == old(
                    self,
                ).graph.resources@[ri].info.spec_version() + 1
            }),
            final(self).pass_node.writes@ == old(self).pass_node.writes@.push(
                Handle { index: old(self).graph.resource_nodes@.len() as usize },
            ),
            final(self).pass_node.reads == old(self).pass_node.reads,
            final(self).pass_node.handle == old(self).pass_node.handle,
            final(self).pass_node.insert_point == old(self).pass_node.insert_point,
            final(self).pass_node.name == old(self).pass_node.name,
            final(self).pass_node.side_effect == old(self).pass_node.side_effect,
            r.spec_handle().spec_resource_node_handle().spec_index()
                == old(self).graph.resource_nodes@.len(),
            r.spec_handle().spec_resource_handle().spec_index()
                == old(self).graph.resource_nodes@[
                resource_node_handle.spec_resource_node_handle().spec_index() as int
            ].resource_handle.index,
    {
        let r = self.pass_node.write(&mut self.graph, resource_node_handle);
        proof {
            assert forall|i: int|
                0 <= i < self.graph.pass_nodes@.len() implies self.graph.wf_pass(
                #[trigger] self.graph.pass_nodes@[i],
            ) by {
                let p = self.graph.pass_nodes@[i];
                assert(old(self).graph.wf_pass(p));
                assert forall|k: int|
                    0 <= k < p.reads@.len() implies (self.graph.resource_nodes@[(
                #[trigger] p.reads@[k]).index as int].pass_node_writer_handle matches Some(w)
                    ==> w.index < p.handle.index) by {
                    assert(self.graph.resource_nodes@[p.reads@[k].index as int]
                        == old(self).graph.resource_nodes@[p.reads@[k].index as int]);
                }
                assert forall|k: int|
                    0 <= k < p.writes@.len() implies self.graph.resource_nodes@[(
                #[trigger] p.writes@[k]).index as int].pass_node_writer_handle == Some(
                    p.handle,
                ) by {
                    assert(self.graph.resource_nodes@[p.writes@[k].index as int]
                        == old(self).graph.resource_nodes@[p.writes@[k].index as int]);
                }
            }
        }
        r
    }

    /// Keep the pending pass through culling even if nothing reads it.
    pub fn set_side_effect(&mut self, side_effect: bool)
        requires
            old(self).wf(),
        ensures
            final(self).wf(),
            final(self).graph == old(self).graph,
            final(self).pass_node.side_effect == side_effect,
            final(self).pass_node.reads == old(self).pass_node.reads,
            final(self).pass_node.writes == old(self).pass_node.writes,
            final(self).pass_node.handle == old(self).pass_node.handle,
            final(self).pass_node.insert_point == old(self).pass_node.insert_point,
            final(self).pass_node.name == old(self).pass_node.name,
    {
        self.pass_node.set_side_effect(side_effect);
    }
}

} // verus!
