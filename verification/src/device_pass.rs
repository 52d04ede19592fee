//! Device passes: one physical render pass each.
//!
//! Compilation emits one device pass per surviving pass node. A device pass
//! carries the logic passes it executes, the resource table resolved for it,
//! and releases each logic pass's resources as that pass finishes.

use vstd::prelude::*;

use crate::context::RenderContext;
use crate::gfx::AnyFGResource;
use crate::gfx::DeviceTrait;
use crate::gfx::RenderPassInfo;
use crate::graph::FrameGraph;
use crate::handle::Handle;
use crate::handle::TypeHandle;
use crate::pass::Pass;
use crate::pass::PassNode;
use crate::table::table_after_remove;
use crate::table::table_has;
use crate::table::table_index_of;
use crate::table::ResourceTable;
use crate::transient::cache_after_insert;
use crate::transient::CacheEntry;
use crate::transient::TransientResourceCache;

verus! {

/// The table and cache after releasing one resource handle: the binding
/// leaves the table, and an owned texture joins the cache.
pub open spec fn release_one(
    s: Seq<(Handle, AnyFGResource)>,
    c: Seq<CacheEntry>,
    h: Handle,
) -> (Seq<(Handle, AnyFGResource)>, Seq<CacheEntry>) {
    (
        table_after_remove(s, h),
        if table_has(s, h) {
            match s[table_index_of(s, h)].1 {
                AnyFGResource::OwnedTexture(t) => cache_after_insert(c, t.desc, t),
                AnyFGResource::ImportedTexture(_) => c,
                AnyFGResource::OwnedBuffer(_) => c,
            }
        } else {
            c
        },
    )
}

/// The table and cache after releasing every handle of `arr`, in order.
pub open spec fn release_fold(
    s: Seq<(Handle, AnyFGResource)>,
    c: Seq<CacheEntry>,
    arr: Seq<Handle>,
) -> (Seq<(Handle, AnyFGResource)>, Seq<CacheEntry>)
    decreases arr.len(),
{
    if arr.len() == 0 {
        (s, c)
    } else {
        let step = release_one(s, c, arr.first());
        release_fold(step.0, step.1, arr.drop_first())
    }
}

/// The table and cache after each logic pass in turn has released its
/// resources.
pub open spec fn logic_release_fold(
    s: Seq<(Handle, AnyFGResource)>,
    c: Seq<CacheEntry>,
    lps: Seq<LogicPass>,
) -> (Seq<(Handle, AnyFGResource)>, Seq<CacheEntry>)
    decreases lps.len(),
{
    if lps.len() == 0 {
        (s, c)
    } else {
        let step = release_fold(s, c, lps.first().resource_release_array@);
        logic_release_fold(step.0, step.1, lps.drop_first())
    }
}

/// Copy a handle array.
fn copy_handles(src: &Vec<Handle>) -> (r: Vec<Handle>)
    ensures
        r@ == src@,
{
    let mut out: Vec<Handle> = Vec::new();
    let n = src.len();
    let mut i: usize = 0;
    while i < n
        invariant
            i <= n,
            n == src@.len(),
            out@ == src@.take(i as int),
        decreases n - i,
    {
        out.push(src[i]);
        proof {
            assert(out@ =~~= src@.take(i as int + 1));
        }
        i = i + 1;
    }
    proof {
        assert(src@.take(n as int) =~~= src@);
    }
    out
}

/// One logical pass inside a device pass: which declared pass runs, and
/// which resources it releases when it is done.
pub struct LogicPass {
    /// Handle of the pass node this logic pass runs.
    pub pass_handle: Handle,
    /// Virtual resources to release once the pass has run.
    pub resource_release_array: Vec<Handle>,
}

impl LogicPass {
    /// Hand every resource this pass owns back: each handle's binding is
    /// removed from the table in array order, owned textures joining the
    /// transient cache.
    pub fn release_resources(
        &self,
        resource_table: &mut ResourceTable,
        transient_resource_cache: &mut TransientResourceCache,
    )
        requires
            old(resource_table).wf(),
            old(transient_resource_cache).wf(),
        ensures
            final(resource_table).wf(),
            final(transient_resource_cache).wf(),
            final(resource_table).resources@ == release_fold(
                old(resource_table).resources@,
                old(transient_resource_cache).view_cache(),
                self.resource_release_array@,
            ).0,
            final(transient_resource_cache).view_cache() == release_fold(
                old(resource_table).resources@,
                old(transient_resource_cache).view_cache(),
                self.resource_release_array@,
            ).1,
    {
        let ghost arr = self.resource_release_array@;
        let ghost s0 = resource_table.resources@;
        let ghost c0 = transient_resource_cache.view_cache();
        proof {
            assert(arr.skip(0) =~~= arr);
        }
        let n = self.resource_release_array.len();
        let mut i: usize = 0;
        while i < n
            invariant
                i <= n,
                n == self.resource_release_array@.len(),
                arr == self.resource_release_array@,
                resource_table.wf(),
                transient_resource_cache.wf(),
                release_fold(
                    resource_table.resources@,
                    transient_resource_cache.view_cache(),
                    arr.skip(i as int),
                ) == release_fold(s0, c0, arr),
            decreases n - i,
        {
            let handle = self.resource_release_array[i];
            let ghost s_cur = resource_table.resources@;
            let ghost c_cur = transient_resource_cache.view_cache();
            resource_table.release_resource(&handle, transient_resource_cache);
            proof {
                assert(arr.skip(i as int).first() == arr[i as int]);
                assert(arr.skip(i as int).drop_first() =~~= arr.skip(i as int + 1));
                assert(release_one(s_cur, c_cur, arr[i as int]).0 == resource_table.resources@);
                assert(release_one(s_cur, c_cur, arr[i as int]).1
                    == transient_resource_cache.view_cache());
            }
            i = i + 1;
        }
        proof {
            assert(arr.skip(n as int) =~~= Seq::<Handle>::empty());
        }
    }
}

/// One physical render pass: its logic passes and the resources resolved
/// for them.
pub struct DevicePass {
    pub logic_passes: Vec<LogicPass>,
    pub resource_table: ResourceTable,
}

impl DevicePass {
    pub fn new(resource_table: ResourceTable) -> (r: DevicePass)
        ensures
            r.logic_passes@.len() == 0,
            r.resource_table == resource_table,
    {
        DevicePass { logic_passes: Vec::new(), resource_table }
    }

    /// Fold the pass node behind `handle` into this device pass.
    pub fn extra(&mut self, fg: &FrameGraph, handle: TypeHandle<PassNode>)
        requires
            handle.spec_index() < fg.pass_nodes@.len(),
        ensures
            final(self).resource_table == old(self).resource_table,
            final(self).logic_passes@.len() == old(self).logic_passes@.len() + 1,
            final(self).logic_passes@ == old(self).logic_passes@.push(
                final(self).logic_passes@.last(),
            ),
            final(self).logic_passes@.last().pass_handle == fg.pass_nodes@[
                handle.spec_index() as int
            ].handle,
            final(self).logic_passes@.last().resource_release_array@ == fg.pass_nodes@[
                handle.spec_index() as int
            ].resource_release_array@,
    {
        let pass_node = fg.get_pass_node(&handle);

        let logic_pass = LogicPass {
            pass_handle: pass_node.handle,
            resource_release_array: copy_handles(&pass_node.resource_release_array),
        };

        self.logic_passes.push(logic_pass);
    }

    /// Open this device pass: install its resource table, obtain a fresh
    /// command buffer from the device and begin the render pass on it.
    pub fn begin<D: DeviceTrait>(&mut self, render_context: &mut RenderContext<D>)
        requires
            old(self).resource_table.wf(),
            old(render_context).wf(),
        ensures
            final(render_context).wf(),
            final(self).resource_table == old(render_context).resource_table,
            final(self).logic_passes == old(self).logic_passes,
            final(render_context).resource_table == old(self).resource_table,
            final(render_context).spec_cb() matches Some(cb) && cb.in_render_pass && cb.pass_count
                == 1,
            final(render_context).transient_resource_cache == old(
                render_context,
            ).transient_resource_cache,
            final(render_context).device == old(render_context).device,
    {
        core::mem::swap(&mut self.resource_table, &mut render_context.resource_table);

        let mut command_buffer = render_context.device().create_command_buffer();

        let render_pass_info: RenderPassInfo = RenderPassInfo::new();
        command_buffer.begin_render_pass(render_pass_info);

        render_context.set_cb(command_buffer);
    }

    /// Close this device pass: drop the pass-local resource table and end
    /// the render pass on the command buffer, if one is still installed.
    pub fn end<D: DeviceTrait>(&self, render_context: &mut RenderContext<D>)
        requires
            old(render_context).wf(),
        ensures
            final(render_context).wf(),
            final(render_context).spec_cb() is None,
            final(render_context).resource_table.resources@.len() == 0,
            final(render_context).transient_resource_cache == old(
                render_context,
            ).transient_resource_cache,
            final(render_context).device == old(render_context).device,
    {
        render_context.resource_table = ResourceTable::new();

        if let Some(mut command_buffer) = render_context.take_cb() {
            if command_buffer.in_render_pass {
                command_buffer.end_render_pass();
            }
        }
    }

    /// Run this device pass: begin it, run each logic pass's render work
    /// and release its resources in turn, then end it. The context comes
    /// back with an empty table, no command buffer, and the cache extended
    /// by exactly the released owned textures.
    pub fn execute<D: DeviceTrait, P: Pass<D>>(
        &mut self,
        render_context: &mut RenderContext<D>,
        passes: &mut Vec<P>,
    )
        requires
            old(self).resource_table.wf(),
            old(render_context).wf(),
            forall|k: int|
                0 <= k < old(self).logic_passes@.len() ==> ((
                #[trigger] old(self).logic_passes@[k]).pass_handle.index as int) < old(
                    passes,
                )@.len(),
        ensures
            final(render_context).wf(),
            final(passes)@.len() == old(passes)@.len(),
            final(render_context).spec_cb() is None,
            final(render_context).resource_table.resources@.len() == 0,
            final(render_context).device == old(render_context).device,
            final(self).logic_passes == old(self).logic_passes,
            final(self).resource_table == old(render_context).resource_table,
            final(render_context).transient_resource_cache.view_cache() == logic_release_fold(
                old(self).resource_table.resources@,
                old(render_context).transient_resource_cache.view_cache(),
                old(self).logic_passes@,
            ).1,
    {
        let ghost lps = self.logic_passes@;
        let ghost t0 = self.resource_table.resources@;
        let ghost c0 = render_context.transient_resource_cache.view_cache();

        self.begin(render_context);

        proof {
            assert(lps.skip(0) =~~= lps);
        }
        let n = self.logic_passes.len();
        let mut i: usize = 0;
        while i < n
            invariant
                i <= n,
                n == self.logic_passes@.len(),
                self.logic_passes == old(self).logic_passes,
                lps == old(self).logic_passes@,
                self.resource_table == old(render_context).resource_table,
                render_context.wf(),
                render_context.device == old(render_context).device,
                passes@.len() == old(passes)@.len(),
                forall|k: int|
                    0 <= k < self.logic_passes@.len() ==> ((
                    #[trigger] self.logic_passes@[k]).pass_handle.index as int) < passes@.len(),
                logic_release_fold(
                    render_context.resource_table.resources@,
                    render_context.transient_resource_cache.view_cache(),
                    lps.skip(i as int),
                ) == logic_release_fold(t0, c0, lps),
            decreases n - i,
        {
            let pass_index = self.logic_passes[i].pass_handle.index;
            let ghost t_cur = render_context.resource_table.resources@;
            let ghost c_cur = render_context.transient_resource_cache.view_cache();
            let pass = &mut passes[pass_index];
            pass.execute(render_context);

            self.logic_passes[i].release_resources(
                &mut render_context.resource_table,
                &mut render_context.transient_resource_cache,
            );
            proof {
                assert(lps.skip(i as int).first() == lps[i as int]);
                assert(lps.skip(i as int).drop_first() =~~= lps.skip(i as int + 1));
                assert(release_fold(t_cur, c_cur, lps[i as int].resource_release_array@).0
                    == render_context.resource_table.resources@);
                assert(release_fold(t_cur, c_cur, lps[i as int].resource_release_array@).1
                    == render_context.transient_resource_cache.view_cache());
            }
            i = i + 1;
        }

        proof {
            assert(lps.skip(n as int) =~~= Seq::<LogicPass>::empty());
        }
        self.end(render_context);
    }
}

} // verus!
