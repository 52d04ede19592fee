//! The frame graph: the per-frame DAG of passes and resources.
//!
//! Passes declare what they create, read and write; every write bumps the
//! written resource's version and yields a fresh resource node, so the graph
//! is acyclic by construction. `compile` then sorts passes by insertion
//! point, culls passes nothing depends on, computes resource lifetimes, and
//! emits one device pass per surviving pass; `execute` drives the device
//! passes against a backend.

use vstd::prelude::*;

use crate::builder::PassNodeBuilder;
use crate::context::RenderContext;
use crate::device_pass::logic_release_fold;
use crate::device_pass::DevicePass;
use crate::transient::CacheEntry;
use crate::gfx::DeviceTrait;
use crate::pass::Pass;
use crate::handle::Handle;
use crate::handle::TypeHandle;
use crate::node::ResourceNode;
use crate::node::ResourceNodeHandle;
use crate::pass::PassNode;
use crate::resource::FGResourceDescriptor;
use crate::resource::ResourceInfo;
use crate::resource::VirtualResource;
use crate::table::ResourceTable;
use crate::transient::TransientResourceCache;

verus! {

/// How many of the nodes in `s` are views of the resource at index `ri`.
pub open spec fn count_nodes_of(s: Seq<ResourceNode>, ri: int) -> int
    decreases s.len(),
{
    if s.len() == 0 {
        0
    } else {
        count_nodes_of(s.drop_last(), ri) + if s.last().resource_handle.index == ri {
            1int
        } else {
            0int
        }
    }
}

/// How many of the nodes in `s` are written views of the resource at `ri`.
pub open spec fn count_written_nodes_of(s: Seq<ResourceNode>, ri: int) -> int
    decreases s.len(),
{
    if s.len() == 0 {
        0
    } else {
        count_written_nodes_of(s.drop_last(), ri) + if s.last().resource_handle.index == ri
            && s.last().pass_node_writer_handle is Some {
            1int
        } else {
            0int
        }
    }
}

pub proof fn lemma_count_nodes_push(s: Seq<ResourceNode>, ri: int, n: ResourceNode)
    ensures
        count_nodes_of(s.push(n), ri) == count_nodes_of(s, ri) + if n.resource_handle.index == ri {
            1int
        } else {
            0int
        },
{
    assert(s.push(n).drop_last() =~~= s);
    assert(s.push(n).last() == n);
}

pub proof fn lemma_count_nodes_le_len(s: Seq<ResourceNode>, ri: int)
    ensures
        0 <= count_nodes_of(s, ri) <= s.len(),
    decreases s.len(),
{
    if s.len() > 0 {
        lemma_count_nodes_le_len(s.drop_last(), ri);
    }
}

pub proof fn lemma_count_nodes_nonneg(s: Seq<ResourceNode>, ri: int)
    ensures
        0 <= count_nodes_of(s, ri),
{
    lemma_count_nodes_le_len(s, ri);
}

/// If no node in `s` is a view of `ri`, the count is zero.
pub proof fn lemma_count_nodes_none(s: Seq<ResourceNode>, ri: int)
    requires
        forall|j: int| 0 <= j < s.len() ==> (#[trigger] s[j]).resource_handle.index != ri,
    ensures
        count_nodes_of(s, ri) == 0,
    decreases s.len(),
{
    if s.len() > 0 {
        assert(forall|j: int|
            0 <= j < s.drop_last().len() ==> (#[trigger] s.drop_last()[j]).resource_handle.index
                != ri);
        lemma_count_nodes_none(s.drop_last(), ri);
        assert(s.last() == s[s.len() - 1]);
    }
}

/// Counting over a prefix never exceeds counting over the whole.
pub proof fn lemma_count_nodes_take_le(s: Seq<ResourceNode>, ri: int, j: int)
    requires
        0 <= j <= s.len(),
    ensures
        0 <= count_nodes_of(s.take(j), ri) <= count_nodes_of(s, ri),
    decreases s.len() - j,
{
    if j == s.len() {
        assert(s.take(j) =~~= s);
        lemma_count_nodes_nonneg(s, ri);
    } else {
        lemma_count_nodes_take_le(s, ri, j + 1);
        lemma_count_nodes_nonneg(s.take(j), ri);
        assert(s.take(j + 1).drop_last() =~~= s.take(j));
        assert(s.take(j + 1).last() == s[j]);
        assert(count_nodes_of(s.take(j + 1), ri) == count_nodes_of(s.take(j), ri)
            + if s[j].resource_handle.index == ri {
            1int
        } else {
            0int
        });
    }
}

/// Updating a node without changing which resource it views keeps every
/// resource's node count as it was.
pub proof fn lemma_count_nodes_update(s: Seq<ResourceNode>, k: int, n: ResourceNode)
    requires
        0 <= k < s.len(),
        s[k].resource_handle == n.resource_handle,
    ensures
        forall|ri: int| count_nodes_of(s.update(k, n), ri) == count_nodes_of(s, ri),
    decreases s.len(),
{
    let s1 = s.update(k, n);
    if k == s.len() - 1 {
        assert(s1.drop_last() =~~= s.drop_last());
        assert(s1.last() == n);
        assert(s.last() == s[k]);
        assert forall|ri: int| count_nodes_of(s1, ri) == count_nodes_of(s, ri) by {}
    } else {
        lemma_count_nodes_update(s.drop_last(), k, n);
        assert(s1.drop_last() =~~= s.drop_last().update(k, n));
        assert(s1.last() == s.last());
        assert forall|ri: int| count_nodes_of(s1, ri) == count_nodes_of(s, ri) by {
            assert(count_nodes_of(s1.drop_last(), ri) == count_nodes_of(s.drop_last(), ri));
        }
    }
}

/// The versioning law: with well-formed entities, a resource's version
/// equals the number of written views of it — one per pass write.
pub proof fn lemma_written_count(s: Seq<ResourceNode>, ri: int)
    requires
        forall|j: int|
            0 <= j < s.len() ==> (#[trigger] s[j]).version == count_nodes_of(
                s.take(j),
                s[j].resource_handle.index as int,
            ),
        forall|j: int|
            0 <= j < s.len() ==> ((#[trigger] s[j]).pass_node_writer_handle is None <==> s[j].version
                == 0),
    ensures
        count_written_nodes_of(s, ri) == if count_nodes_of(s, ri) > 0 {
            count_nodes_of(s, ri) - 1
        } else {
            0
        },
    decreases s.len(),
{
    if s.len() > 0 {
        let s0 = s.drop_last();
        assert forall|j: int|
            0 <= j < s0.len() implies (#[trigger] s0[j]).version == count_nodes_of(
            s0.take(j),
            s0[j].resource_handle.index as int,
        ) by {
            assert(s0[j] == s[j]);
            assert(s0.take(j) =~~= s.take(j));
        }
        assert forall|j: int|
            0 <= j < s0.len() implies ((#[trigger] s0[j]).pass_node_writer_handle is None <==> s0[j].version
            == 0) by {
            assert(s0[j] == s[j]);
        }
        lemma_written_count(s0, ri);
        let n = s.last();
        assert(n == s[s.len() - 1]);
        assert(s.take(s.len() - 1) =~~= s0);
        if n.resource_handle.index == ri {
            assert(n.version == count_nodes_of(s0, ri));
            lemma_count_nodes_nonneg(s0, ri);
        }
    }
}

/// The combined reference count of a sequence of passes.
pub open spec fn sum_ref_counts(s: Seq<PassNode>) -> int
    decreases s.len(),
{
    if s.len() == 0 {
        0
    } else {
        sum_ref_counts(s.drop_last()) + s.last().ref_count
    }
}

/// The combined reader count of a sequence of resource nodes.
pub open spec fn sum_reader_counts(s: Seq<ResourceNode>) -> int
    decreases s.len(),
{
    if s.len() == 0 {
        0
    } else {
        sum_reader_counts(s.drop_last()) + s.last().reader_count
    }
}

pub proof fn lemma_sum_ref_counts_update(s: Seq<PassNode>, k: int, p: PassNode)
    requires
        0 <= k < s.len(),
    ensures
        sum_ref_counts(s.update(k, p)) == sum_ref_counts(s) - s[k].ref_count + p.ref_count,
    decreases s.len(),
{
    let s1 = s.update(k, p);
    if k == s.len() - 1 {
        assert(s1.drop_last() =~~= s.drop_last());
        assert(s1.last() == p);
        assert(s.last() == s[k]);
    } else {
        lemma_sum_ref_counts_update(s.drop_last(), k, p);
        assert(s1.drop_last() =~~= s.drop_last().update(k, p));
        assert(s1.last() == s.last());
    }
}

pub proof fn lemma_sum_reader_counts_update(s: Seq<ResourceNode>, k: int, n: ResourceNode)
    requires
        0 <= k < s.len(),
    ensures
        sum_reader_counts(s.update(k, n)) == sum_reader_counts(s) - s[k].reader_count
            + n.reader_count,
    decreases s.len(),
{
    let s1 = s.update(k, n);
    if k == s.len() - 1 {
        assert(s1.drop_last() =~~= s.drop_last());
        assert(s1.last() == n);
        assert(s.last() == s[k]);
    } else {
        lemma_sum_reader_counts_update(s.drop_last(), k, n);
        assert(s1.drop_last() =~~= s.drop_last().update(k, n));
        assert(s1.last() == s.last());
    }
}

pub proof fn lemma_sum_ref_counts_nonneg(s: Seq<PassNode>)
    ensures
        sum_ref_counts(s) >= 0,
    decreases s.len(),
{
    if s.len() > 0 {
        lemma_sum_ref_counts_nonneg(s.drop_last());
    }
}

pub proof fn lemma_sum_reader_counts_nonneg(s: Seq<ResourceNode>)
    ensures
        sum_reader_counts(s) >= 0,
    decreases s.len(),
{
    if s.len() > 0 {
        lemma_sum_reader_counts_nonneg(s.drop_last());
    }
}

/// The reference count culling seeds a pass with: one per write, plus one
/// for a side effect, capped at the machine limit.
pub open spec fn init_ref_count(p: PassNode) -> int {
    if p.side_effect {
        if p.writes@.len() < usize::MAX {
            p.writes@.len() as int + 1
        } else {
            usize::MAX as int
        }
    } else {
        p.writes@.len() as int
    }
}

/// How many of `entries` point at a marked node.
pub open spec fn count_marked_entries(entries: Seq<Handle>, marks: Seq<bool>) -> int
    decreases entries.len(),
{
    if entries.len() == 0 {
        0
    } else {
        count_marked_entries(entries.drop_last(), marks) + if (entries.last().index as int)
            < marks.len() && marks[entries.last().index as int] {
            1int
        } else {
            0int
        }
    }
}

pub proof fn lemma_cme_zero(entries: Seq<Handle>, marks: Seq<bool>)
    requires
        forall|q: int| 0 <= q < marks.len() ==> !marks[q],
    ensures
        count_marked_entries(entries, marks) == 0,
    decreases entries.len(),
{
    if entries.len() > 0 {
        lemma_cme_zero(entries.drop_last(), marks);
    }
}

pub proof fn lemma_cme_le_len(entries: Seq<Handle>, marks: Seq<bool>)
    ensures
        0 <= count_marked_entries(entries, marks) <= entries.len(),
    decreases entries.len(),
{
    if entries.len() > 0 {
        lemma_cme_le_len(entries.drop_last(), marks);
    }
}

/// Marking a node no entry points at leaves the count alone.
pub proof fn lemma_cme_update_absent(entries: Seq<Handle>, marks: Seq<bool>, e: int)
    requires
        0 <= e < marks.len(),
        !entries.contains(Handle { index: e as usize }),
        marks.len() <= usize::MAX,
    ensures
        count_marked_entries(entries, marks.update(e, true)) == count_marked_entries(
            entries,
            marks,
        ),
    decreases entries.len(),
{
    if entries.len() > 0 {
        assert forall|q: int|
            0 <= q < entries.drop_last().len() implies entries.drop_last()[q] == entries[q] by {}
        assert(!entries.drop_last().contains(Handle { index: e as usize })) by {
            if entries.drop_last().contains(Handle { index: e as usize }) {
                let w = choose|w: int|
                    0 <= w < entries.drop_last().len() && entries.drop_last()[w] == Handle {
                        index: e as usize,
                    };
                assert(entries[w] == Handle { index: e as usize });
            }
        }
        lemma_cme_update_absent(entries.drop_last(), marks, e);
        assert(entries.last() == entries[entries.len() - 1]);
        assert(entries.last() != Handle { index: e as usize });
        assert((entries.last().index as int) != e);
    }
}

/// Marking a node pointed at by exactly one entry raises the count by one.
pub proof fn lemma_cme_update(entries: Seq<Handle>, marks: Seq<bool>, e: int)
    requires
        0 <= e < marks.len(),
        !marks[e],
        entries.no_duplicates(),
        marks.len() <= usize::MAX,
    ensures
        count_marked_entries(entries, marks.update(e, true)) == count_marked_entries(
            entries,
            marks,
        ) + if entries.contains(Handle { index: e as usize }) {
            1int
        } else {
            0int
        },
    decreases entries.len(),
{
    if entries.len() == 0 {
        assert(!entries.contains(Handle { index: e as usize }));
    } else {
        let last = entries.last();
        assert(last == entries[entries.len() - 1]);
        assert(entries.drop_last().no_duplicates()) by {
            assert forall|a: int, b: int|
                0 <= a < entries.drop_last().len() && 0 <= b < entries.drop_last().len() && a != b
                    implies entries.drop_last()[a] != entries.drop_last()[b] by {
                assert(entries.drop_last()[a] == entries[a]);
                assert(entries.drop_last()[b] == entries[b]);
            }
        }
        if (last.index as int) == e {
            assert(!entries.drop_last().contains(Handle { index: e as usize })) by {
                if entries.drop_last().contains(Handle { index: e as usize }) {
                    let w = choose|w: int|
                        0 <= w < entries.drop_last().len() && entries.drop_last()[w] == Handle {
                            index: e as usize,
                        };
                    assert(entries[w] == Handle { index: e as usize });
                    assert(last == Handle { index: e as usize });
                    assert(entries[w] == entries[entries.len() - 1] && w != entries.len() - 1);
                }
            }
            lemma_cme_update_absent(entries.drop_last(), marks, e);
            assert(entries.contains(Handle { index: e as usize })) by {
                assert(entries[entries.len() - 1] == Handle { index: e as usize });
            }
        } else {
            lemma_cme_update(entries.drop_last(), marks, e);
            assert(entries.contains(Handle { index: e as usize }) == entries.drop_last().contains(
                Handle { index: e as usize },
            )) by {
                if entries.contains(Handle { index: e as usize }) {
                    let w = choose|w: int|
                        0 <= w < entries.len() && entries[w] == Handle { index: e as usize };
                    assert(w != entries.len() - 1);
                    assert(entries.drop_last()[w] == Handle { index: e as usize });
                }
                if entries.drop_last().contains(Handle { index: e as usize }) {
                    let w = choose|w: int|
                        0 <= w < entries.drop_last().len() && entries.drop_last()[w] == Handle {
                            index: e as usize,
                        };
                    assert(entries[w] == Handle { index: e as usize });
                }
            }
        }
    }
}

/// A full count marks every entry.
pub proof fn lemma_cme_full(entries: Seq<Handle>, marks: Seq<bool>)
    requires
        count_marked_entries(entries, marks) == entries.len(),
    ensures
        forall|k: int|
            0 <= k < entries.len() ==> ((#[trigger] entries[k]).index as int) < marks.len()
                && marks[entries[k].index as int],
    decreases entries.len(),
{
    if entries.len() > 0 {
        lemma_cme_le_len(entries.drop_last(), marks);
        assert(count_marked_entries(entries.drop_last(), marks) == entries.len() - 1);
        lemma_cme_full(entries.drop_last(), marks);
        assert(entries.last() == entries[entries.len() - 1]);
        assert forall|k: int|
            0 <= k < entries.len() implies ((#[trigger] entries[k]).index as int) < marks.len()
                && marks[entries[k].index as int] by {
            if k < entries.len() - 1 {
                assert(entries.drop_last()[k] == entries[k]);
            }
        }
    }
}

/// Every entry marked makes the count full.
pub proof fn lemma_cme_all_marked(entries: Seq<Handle>, marks: Seq<bool>)
    requires
        forall|k: int|
            0 <= k < entries.len() ==> ((#[trigger] entries[k]).index as int) < marks.len()
                && marks[entries[k].index as int],
    ensures
        count_marked_entries(entries, marks) == entries.len(),
    decreases entries.len(),
{
    if entries.len() > 0 {
        assert forall|k: int|
            0 <= k < entries.drop_last().len() implies ((
        #[trigger] entries.drop_last()[k]).index as int) < marks.len() && marks[
            entries.drop_last()[k].index as int
        ] by {
            assert(entries.drop_last()[k] == entries[k]);
        }
        lemma_cme_all_marked(entries.drop_last(), marks);
        assert(entries.last() == entries[entries.len() - 1]);
    }
}

/// The drain stack is sound: distinct, in-range, unmarked nodes that have
/// a writer and no remaining reader.
pub open spec fn cull_stack_ok(nodes: Seq<ResourceNode>, stack: Seq<usize>, marks: Seq<bool>) -> bool {
    &&& stack.no_duplicates()
    &&& forall|e: int| 0 <= e < stack.len() ==> ((#[trigger] stack[e]) as int) < nodes.len()
    &&& forall|e: int| 0 <= e < stack.len() ==> !marks[(#[trigger] stack[e]) as int]
    &&& forall|e: int|
        0 <= e < stack.len() ==> (nodes[(#[trigger] stack[e]) as int].reader_count == 0
            && nodes[stack[e] as int].pass_node_writer_handle is Some)
}

/// A node is retired or queued for retirement exactly when it has a writer
/// and no remaining reader.
pub open spec fn cull_frontier_ok(
    nodes: Seq<ResourceNode>,
    stack: Seq<usize>,
    marks: Seq<bool>,
) -> bool {
    forall|q: usize|
        (q as int) < nodes.len() ==> ((nodes[q as int].reader_count == 0
            && nodes[q as int].pass_node_writer_handle is Some) <==> (#[trigger] marks[q as int]
            || stack.contains(q)))
}

/// Every pass's reference count accounts exactly for its retired writes.
pub open spec fn cull_counts_ok(passes: Seq<PassNode>, marks: Seq<bool>) -> bool {
    forall|p: int|
        0 <= p < passes.len() ==> (#[trigger] passes[p]).ref_count as int == init_ref_count(
            passes[p],
        ) - count_marked_entries(passes[p].writes@, marks)
}

/// Popping the top of the drain stack and marking it keeps the stack and
/// the retirement frontier sound.
pub proof fn lemma_cull_pop(
    nodes: Seq<ResourceNode>,
    stack0: Seq<usize>,
    stack1: Seq<usize>,
    marks0: Seq<bool>,
    marks1: Seq<bool>,
    node_idx: usize,
)
    requires
        marks0.len() == nodes.len(),
        nodes.len() <= usize::MAX,
        stack0.len() > 0,
        stack0.last() == node_idx,
        stack1 == stack0.drop_last(),
        cull_stack_ok(nodes, stack0, marks0),
        cull_frontier_ok(nodes, stack0, marks0),
        marks1 == marks0.update(node_idx as int, true),
    ensures
        cull_stack_ok(nodes, stack1, marks1),
        cull_frontier_ok(nodes, stack1, marks1),
        !marks0[node_idx as int],
        (node_idx as int) < nodes.len(),
        nodes[node_idx as int].reader_count == 0,
        nodes[node_idx as int].pass_node_writer_handle is Some,
        marks1.len() == marks0.len(),
{
    assert(stack0[stack0.len() - 1] == node_idx);
    assert(!marks0[node_idx as int]);
    assert forall|e: int| 0 <= e < stack1.len() implies stack0[e] == stack1[e] by {}
    assert(stack1.no_duplicates()) by {
        assert forall|a: int, b: int|
            0 <= a < stack1.len() && 0 <= b < stack1.len() && a != b implies stack1[a] != stack1[
            b
        ] by {
            assert(stack1[a] == stack0[a]);
            assert(stack1[b] == stack0[b]);
        }
    }
    assert forall|e: int| 0 <= e < stack1.len() implies !marks1[(#[trigger] stack1[e]) as int] by {
        assert(stack1[e] == stack0[e]);
        assert(stack0[e] != stack0[stack0.len() - 1]);
        assert(stack0[e] != node_idx);
    }
    assert forall|q: usize|
        (q as int) < nodes.len() implies ((nodes[q as int].reader_count == 0
            && nodes[q as int].pass_node_writer_handle is Some) <==> (#[trigger] marks1[q as int]
            || stack1.contains(q))) by {
        assert((nodes[q as int].reader_count == 0 && nodes[q as int].pass_node_writer_handle
            is Some) <==> (marks0[q as int] || stack0.contains(q)));
        if q == node_idx {
            assert(marks1[q as int]);
        } else {
            assert(marks1[q as int] == marks0[q as int]);
            if stack0.contains(q) {
                let e = choose|e: int| 0 <= e < stack0.len() && stack0[e] == q;
                assert(e != stack0.len() - 1);
                assert(stack1[e] == q);
            }
            if stack1.contains(q) {
                let e = choose|e: int| 0 <= e < stack1.len() && stack1[e] == q;
                assert(stack0[e] == q);
            }
        }
    }
}

/// Marking a popped node raises exactly its writer's retired-write count,
/// whose reference count was still positive.
pub proof fn lemma_cull_count_pop(
    g: FrameGraph,
    passes: Seq<PassNode>,
    marks0: Seq<bool>,
    marks1: Seq<bool>,
    node_idx: usize,
    w: Handle,
)
    requires
        g.wf_building(),
        passes.len() == g.pass_nodes@.len(),
        forall|i: int|
            0 <= i < g.pass_nodes@.len() ==> pass_eq_except_ref(
                #[trigger] g.pass_nodes@[i],
                passes[i],
            ),
        marks0.len() == g.resource_nodes@.len(),
        marks0.len() <= usize::MAX,
        (node_idx as int) < g.resource_nodes@.len(),
        g.resource_nodes@[node_idx as int].pass_node_writer_handle == Some(w),
        !marks0[node_idx as int],
        marks1 == marks0.update(node_idx as int, true),
        cull_counts_ok(passes, marks0),
        (w.index as int) < passes.len(),
        passes[w.index as int].writes@.len() <= usize::MAX,
    ensures
        passes[w.index as int].ref_count > 0,
        passes[w.index as int].writes@.contains(Handle { index: node_idx }),
        count_marked_entries(passes[w.index as int].writes@, marks1) == count_marked_entries(
            passes[w.index as int].writes@,
            marks0,
        ) + 1,
        forall|p: int|
            0 <= p < passes.len() && p != w.index as int ==> count_marked_entries(
                (#[trigger] passes[p]).writes@,
                marks1,
            ) == count_marked_entries(passes[p].writes@, marks0),
{
    assert(g.pass_nodes@[w.index as int].writes@.contains(
        g.resource_nodes@[node_idx as int].handle,
    ));
    assert(g.resource_nodes@[node_idx as int].handle == Handle { index: node_idx });
    assert(pass_eq_except_ref(g.pass_nodes@[w.index as int], passes[w.index as int]));
    assert(passes[w.index as int].writes@.contains(Handle { index: node_idx }));
    assert(g.wf_pass(g.pass_nodes@[w.index as int]));
    assert(passes[w.index as int].writes@.no_duplicates());
    lemma_cme_le_len(passes[w.index as int].writes@, marks0);
    lemma_cme_update(passes[w.index as int].writes@, marks0, node_idx as int);
    if count_marked_entries(passes[w.index as int].writes@, marks0) == passes[
        w.index as int
    ].writes@.len() {
        lemma_cme_full(passes[w.index as int].writes@, marks0);
        let q = choose|q: int|
            0 <= q < passes[w.index as int].writes@.len() && passes[w.index as int].writes@[q]
                == Handle { index: node_idx };
        assert(marks0[passes[w.index as int].writes@[q].index as int]);
        assert(false);
    }
    assert(passes[w.index as int].ref_count as int == init_ref_count(passes[w.index as int])
        - count_marked_entries(passes[w.index as int].writes@, marks0));
    assert(init_ref_count(passes[w.index as int]) >= passes[w.index as int].writes@.len());
    assert(passes[w.index as int].ref_count > 0);
    assert forall|p: int|
        0 <= p < passes.len() && p != w.index as int implies count_marked_entries(
        (#[trigger] passes[p]).writes@,
        marks1,
    ) == count_marked_entries(passes[p].writes@, marks0) by {
        assert(g.wf_pass(g.pass_nodes@[p]));
        assert(pass_eq_except_ref(g.pass_nodes@[p], passes[p]));
        assert(!passes[p].writes@.contains(Handle { index: node_idx })) by {
            if passes[p].writes@.contains(Handle { index: node_idx }) {
                let q = choose|q: int|
                    0 <= q < passes[p].writes@.len() && passes[p].writes@[q] == Handle {
                        index: node_idx,
                    };
                assert(g.pass_nodes@[p].writes@[q] == Handle { index: node_idx });
                assert(g.resource_nodes@[node_idx as int].pass_node_writer_handle == Some(
                    g.pass_nodes@[p].handle,
                ));
                assert(g.pass_nodes@[p].handle.index == p);
            }
        }
        lemma_cme_update_absent(passes[p].writes@, marks0, node_idx as int);
    }
}

/// Retiring one reference keeps the count accounting sound.
pub proof fn lemma_cull_counts_decrement(
    passes0: Seq<PassNode>,
    passes1: Seq<PassNode>,
    marks0: Seq<bool>,
    marks1: Seq<bool>,
    widx: int,
)
    requires
        0 <= widx < passes0.len(),
        passes1 == passes0.update(widx, passes1[widx]),
        passes1.len() == passes0.len(),
        pass_eq_except_ref(passes0[widx], passes1[widx]),
        passes1[widx].ref_count as int == passes0[widx].ref_count - 1,
        cull_counts_ok(passes0, marks0),
        count_marked_entries(passes0[widx].writes@, marks1) == count_marked_entries(
            passes0[widx].writes@,
            marks0,
        ) + 1,
        forall|p: int|
            0 <= p < passes0.len() && p != widx ==> count_marked_entries(
                (#[trigger] passes0[p]).writes@,
                marks1,
            ) == count_marked_entries(passes0[p].writes@, marks0),
    ensures
        cull_counts_ok(passes1, marks1),
{
    assert forall|p: int|
        0 <= p < passes1.len() implies (#[trigger] passes1[p]).ref_count as int == init_ref_count(
        passes1[p],
    ) - count_marked_entries(passes1[p].writes@, marks1) by {
        if p == widx {
            assert(passes1[p].writes@ == passes0[p].writes@);
            assert(passes1[p].side_effect == passes0[p].side_effect);
            assert(init_ref_count(passes1[p]) == init_ref_count(passes0[p]));
        } else {
            assert(passes1[p] == passes0[p]);
        }
    }
}

/// Pushing a node that just lost its last reader keeps the drain state
/// sound.
pub proof fn lemma_cull_push(
    nodes0: Seq<ResourceNode>,
    nodes1: Seq<ResourceNode>,
    stack1: Seq<usize>,
    stack2: Seq<usize>,
    marks: Seq<bool>,
    h: usize,
)
    requires
        marks.len() == nodes0.len(),
        nodes0.len() <= usize::MAX,
        (h as int) < nodes0.len(),
        nodes0[h as int].reader_count == 1,
        nodes0[h as int].pass_node_writer_handle is Some,
        nodes1 == nodes0.update(h as int, nodes1[h as int]),
        nodes1.len() == nodes0.len(),
        node_eq_except_reader(nodes0[h as int], nodes1[h as int]),
        nodes1[h as int].reader_count == 0,
        stack2 == stack1.push(h),
        cull_stack_ok(nodes0, stack1, marks),
        cull_frontier_ok(nodes0, stack1, marks),
    ensures
        cull_stack_ok(nodes1, stack2, marks),
        cull_frontier_ok(nodes1, stack2, marks),
{
    assert(stack2.last() == h);
    assert(!stack1.contains(h)) by {
        if stack1.contains(h) {
            let e = choose|e: int| 0 <= e < stack1.len() && stack1[e] == h;
            assert(nodes0[stack1[e] as int].reader_count == 0);
        }
    }
    assert(!marks[h as int]) by {
        if marks[h as int] {
            assert((nodes0[h as int].reader_count == 0 && nodes0[
                h as int
            ].pass_node_writer_handle is Some) <==> (marks[h as int] || stack1.contains(h)));
            assert(nodes0[h as int].reader_count == 0);
        }
    }
    assert(stack2.no_duplicates()) by {
        assert forall|a: int, b: int|
            0 <= a < stack2.len() && 0 <= b < stack2.len() && a != b implies stack2[a] != stack2[
            b
        ] by {
            if a < stack1.len() && b < stack1.len() {
                assert(stack2[a] == stack1[a]);
                assert(stack2[b] == stack1[b]);
            } else if a == stack1.len() {
                assert(stack2[b] == stack1[b]);
            } else {
                assert(stack2[a] == stack1[a]);
            }
        }
    }
    assert forall|e: int|
        0 <= e < stack2.len() implies (nodes1[(#[trigger] stack2[e]) as int].reader_count == 0
            && nodes1[stack2[e] as int].pass_node_writer_handle is Some) by {
        if e < stack1.len() {
            assert(stack2[e] == stack1[e]);
            assert(stack1[e] != h);
            assert(nodes1[stack1[e] as int] == nodes0[stack1[e] as int]);
            assert(nodes0[(stack1[e]) as int].reader_count == 0);
            assert(nodes0[(stack1[e]) as int].pass_node_writer_handle is Some);
        } else {
            assert(stack2[e] == h);
        }
    }
    assert forall|q: usize|
        (q as int) < nodes1.len() implies ((nodes1[q as int].reader_count == 0
            && nodes1[q as int].pass_node_writer_handle is Some) <==> (#[trigger] marks[q as int]
            || stack2.contains(q))) by {
        assert((nodes0[q as int].reader_count == 0 && nodes0[q as int].pass_node_writer_handle
            is Some) <==> (marks[q as int] || stack1.contains(q)));
        if q == h {
            assert(stack2.contains(q));
        } else {
            assert(nodes1[q as int] == nodes0[q as int]);
            if stack1.contains(q) {
                let e = choose|e: int| 0 <= e < stack1.len() && stack1[e] == q;
                assert(stack2[e] == q);
            }
            if stack2.contains(q) {
                let e = choose|e: int| 0 <= e < stack2.len() && stack2[e] == q;
                assert(e < stack1.len());
                assert(stack1[e] == q);
            }
        }
    }
}

/// A reader decrement that retires nothing keeps the drain state sound.
pub proof fn lemma_cull_read_step(
    nodes0: Seq<ResourceNode>,
    nodes1: Seq<ResourceNode>,
    stack: Seq<usize>,
    marks: Seq<bool>,
    h: usize,
)
    requires
        marks.len() == nodes0.len(),
        nodes0.len() <= usize::MAX,
        (h as int) < nodes0.len(),
        nodes1.len() == nodes0.len(),
        nodes1 == nodes0.update(h as int, nodes1[h as int]),
        node_eq_except_reader(nodes0[h as int], nodes1[h as int]),
        nodes1[h as int].reader_count as int == (if nodes0[h as int].reader_count > 0 {
            nodes0[h as int].reader_count - 1
        } else {
            0
        }),
        !(nodes0[h as int].reader_count == 1 && nodes0[h as int].pass_node_writer_handle is Some),
        cull_stack_ok(nodes0, stack, marks),
        cull_frontier_ok(nodes0, stack, marks),
    ensures
        cull_stack_ok(nodes1, stack, marks),
        cull_frontier_ok(nodes1, stack, marks),
{
    assert forall|e: int|
        0 <= e < stack.len() implies (nodes1[(#[trigger] stack[e]) as int].reader_count == 0
            && nodes1[stack[e] as int].pass_node_writer_handle is Some) by {
        assert(nodes0[(stack[e]) as int].reader_count == 0);
        assert(nodes0[(stack[e]) as int].pass_node_writer_handle is Some);
        if stack[e] == h {
            assert(nodes1[h as int].reader_count == 0);
        } else {
            assert(nodes1[stack[e] as int] == nodes0[stack[e] as int]);
        }
    }
    assert forall|q: usize|
        (q as int) < nodes1.len() implies ((nodes1[q as int].reader_count == 0
            && nodes1[q as int].pass_node_writer_handle is Some) <==> (#[trigger] marks[q as int]
            || stack.contains(q))) by {
        assert((nodes0[q as int].reader_count == 0 && nodes0[q as int].pass_node_writer_handle
            is Some) <==> (marks[q as int] || stack.contains(q)));
        if q == h {
            let rc0 = nodes0[q as int].reader_count;
            if rc0 == 0 {
                assert(nodes1[q as int].reader_count == 0);
            } else if rc0 == 1 {
                assert(nodes0[q as int].pass_node_writer_handle is None);
                assert(nodes1[q as int].pass_node_writer_handle is None);
            } else {
                assert(nodes1[q as int].reader_count > 0);
            }
        } else {
            assert(nodes1[q as int] == nodes0[q as int]);
        }
    }
}

/// A pass as it stands after culling: only the reference count may differ
/// from the declared pass.
pub open spec fn pass_eq_except_ref(p: PassNode, q: PassNode) -> bool {
    &&& q.insert_point == p.insert_point
    &&& q.name == p.name
    &&& q.handle == p.handle
    &&& q.resource_request_array == p.resource_request_array
    &&& q.resource_release_array == p.resource_release_array
    &&& q.writes == p.writes
    &&& q.reads == p.reads
    &&& q.side_effect == p.side_effect
}

/// A node as it stands after culling: only the reader count may differ
/// from the declared node.
pub open spec fn node_eq_except_reader(n: ResourceNode, m: ResourceNode) -> bool {
    &&& m.resource_handle == n.resource_handle
    &&& m.handle == n.handle
    &&& m.version == n.version
    &&& m.pass_node_writer_handle == n.pass_node_writer_handle
}

/// Unfolds `requests_in` over one more resource.
pub proof fn lemma_requests_in_take_step(res: Seq<VirtualResource>, r: int)
    requires
        0 <= r < res.len(),
    ensures
        forall|i: int|
            requests_in(res.take(r + 1), i) == (if (res[r].info.first_pass_node_handle matches Some(
                h,
            ) && h.index == i) && res[r].info.last_pass_node_handle is Some {
                requests_in(res.take(r), i).push(Handle { index: r as usize })
            } else {
                requests_in(res.take(r), i)
            }),
{
    assert(res.take(r + 1).drop_last() =~~= res.take(r));
    assert(res.take(r + 1).last() == res[r]);
    assert(res.take(r + 1).len() == r + 1);
    assert forall|i: int|
        requests_in(res.take(r + 1), i) == (if (res[r].info.first_pass_node_handle matches Some(h)
            && h.index == i) && res[r].info.last_pass_node_handle is Some {
            requests_in(res.take(r), i).push(Handle { index: r as usize })
        } else {
            requests_in(res.take(r), i)
        }) by {}
}

/// Unfolds `releases_in` over one more resource.
pub proof fn lemma_releases_in_take_step(res: Seq<VirtualResource>, r: int)
    requires
        0 <= r < res.len(),
    ensures
        forall|i: int|
            releases_in(res.take(r + 1), i) == (if (res[r].info.last_pass_node_handle matches Some(
                h,
            ) && h.index == i) && res[r].info.first_pass_node_handle is Some {
                releases_in(res.take(r), i).push(Handle { index: r as usize })
            } else {
                releases_in(res.take(r), i)
            }),
{
    assert(res.take(r + 1).drop_last() =~~= res.take(r));
    assert(res.take(r + 1).last() == res[r]);
    assert(res.take(r + 1).len() == r + 1);
    assert forall|i: int|
        releases_in(res.take(r + 1), i) == (if (res[r].info.last_pass_node_handle matches Some(h)
            && h.index == i) && res[r].info.first_pass_node_handle is Some {
            releases_in(res.take(r), i).push(Handle { index: r as usize })
        } else {
            releases_in(res.take(r), i)
        }) by {}
}

/// The boundary arrays play no part in well-formedness.
pub proof fn lemma_wf_building_arrays(g: FrameGraph, h: FrameGraph)
    requires
        g.wf_building(),
        h.pass_nodes@.len() == g.pass_nodes@.len(),
        forall|i: int|
            0 <= i < g.pass_nodes@.len() ==> pass_eq_except_arrays(
                #[trigger] g.pass_nodes@[i],
                h.pass_nodes@[i],
            ),
        h.resource_nodes == g.resource_nodes,
        h.resources == g.resources,
    ensures
        h.wf_building(),
{
    assert forall|i: int|
        0 <= i < h.pass_nodes@.len() implies (#[trigger] h.pass_nodes@[i]).handle.index == i by {
        assert(pass_eq_except_arrays(g.pass_nodes@[i], h.pass_nodes@[i]));
    }
    assert forall|i: int|
        0 <= i < h.pass_nodes@.len() implies h.wf_pass(#[trigger] h.pass_nodes@[i]) by {
        assert(pass_eq_except_arrays(g.pass_nodes@[i], h.pass_nodes@[i]));
        assert(g.wf_pass(g.pass_nodes@[i]));
    }
    assert forall|j: int|
        0 <= j < h.resource_nodes@.len() implies match (
    #[trigger] h.resource_nodes@[j]).pass_node_writer_handle {
        Some(w) => (w.index as int) < h.pass_nodes@.len() ==> h.pass_nodes@[
            w.index as int
        ].writes@.contains(h.resource_nodes@[j].handle),
        None => true,
    } by {
        if h.resource_nodes@[j].pass_node_writer_handle is Some {
            let w = h.resource_nodes@[j].pass_node_writer_handle->0;
            if (w.index as int) < h.pass_nodes@.len() {
                assert(pass_eq_except_arrays(g.pass_nodes@[w.index as int], h.pass_nodes@[
                    w.index as int
                ]));
                assert(g.pass_nodes@[w.index as int].writes@.contains(g.resource_nodes@[
                    j
                ].handle));
                let k = choose|k: int|
                    0 <= k < g.pass_nodes@[w.index as int].writes@.len() && g.pass_nodes@[
                        w.index as int
                    ].writes@[k] == g.resource_nodes@[j].handle;
                assert(h.pass_nodes@[w.index as int].writes@[k] == h.resource_nodes@[j].handle);
            }
        }
    }
}

/// Extends the lifetime invariant across a surviving pass that just had
/// its touched resources widened.
pub proof fn lemma_lifetimes_upto_step(
    base: FrameGraph,
    prev: FrameGraph,
    cur: FrameGraph,
    pi: int,
    x: int,
)
    requires
        base.wf_building(),
        base.order_sorted(),
        0 <= pi < base.pass_order@.len(),
        x == base.pass_order@[pi] as int,
        prev.pass_nodes == base.pass_nodes,
        prev.resource_nodes == base.resource_nodes,
        prev.pass_order == base.pass_order,
        cur.pass_nodes == base.pass_nodes,
        cur.resource_nodes == base.resource_nodes,
        cur.pass_order == base.pass_order,
        prev.surviving(x),
        prev.lifetimes_computed_upto(base, pi),
        prev.resources@.len() == base.resources@.len(),
        cur.resources@.len() == prev.resources@.len(),
        forall|ri: int|
            0 <= ri < prev.resources@.len() && prev.touches(prev.pass_nodes@[x], ri) ==> ((
            #[trigger] cur.resources@[ri]).info.first_pass_node_handle == (
            if prev.resources@[ri].info.first_pass_node_handle is None {
                Some(prev.pass_nodes@[x].handle)
            } else {
                prev.resources@[ri].info.first_pass_node_handle
            }) && cur.resources@[ri].info.last_pass_node_handle == Some(
                prev.pass_nodes@[x].handle,
            )),
        forall|ri: int|
            0 <= ri < prev.resources@.len() && !prev.touches(prev.pass_nodes@[x], ri) ==> (
            #[trigger] cur.resources@[ri]) == prev.resources@[ri],
    ensures
        cur.lifetimes_computed_upto(base, pi + 1),
{
    let handle = prev.pass_nodes@[x].handle;
    assert(handle.index == x);
    assert forall|ri: int| 0 <= ri < cur.resources@.len() implies {
        let info = (#[trigger] cur.resources@[ri]).info;
        &&& (info.first_pass_node_handle is Some <==> exists|pos: int|
            0 <= pos < pi + 1 && cur.surviving((#[trigger] cur.pass_order@[pos]) as int)
                && cur.touches(cur.pass_nodes@[cur.pass_order@[pos] as int], ri))
        &&& (info.first_pass_node_handle matches Some(f) ==> exists|fpos: int|
            0 <= fpos < pi + 1 && (#[trigger] cur.pass_order@[fpos]) as int == f.index
                && cur.surviving(f.index as int) && cur.touches(cur.pass_nodes@[f.index as int], ri)
                && forall|pos: int|
                0 <= pos < pi + 1 && cur.surviving((#[trigger] cur.pass_order@[pos]) as int)
                    && cur.touches(cur.pass_nodes@[cur.pass_order@[pos] as int], ri) ==> fpos
                    <= pos)
        &&& (info.last_pass_node_handle matches Some(l) ==> exists|lpos: int|
            0 <= lpos < pi + 1 && (#[trigger] cur.pass_order@[lpos]) as int == l.index
                && cur.surviving(l.index as int) && cur.touches(cur.pass_nodes@[l.index as int], ri)
                && forall|pos: int|
                0 <= pos < pi + 1 && cur.surviving((#[trigger] cur.pass_order@[pos]) as int)
                    && cur.touches(cur.pass_nodes@[cur.pass_order@[pos] as int], ri) ==> pos
                    <= lpos)
        &&& (info.first_pass_node_handle is Some <==> info.last_pass_node_handle is Some)
        &&& (info.first_pass_node_handle is None ==> cur.resources@[ri] == base.resources@[ri])
    } by {
        let touched = prev.touches(prev.pass_nodes@[x], ri);
        if touched {
            assert(cur.resources@[ri].info.last_pass_node_handle == Some(handle));
            assert(cur.pass_order@[pi] as int == x);
            assert(cur.surviving(x));
            assert(cur.touches(cur.pass_nodes@[x], ri));
            if prev.resources@[ri].info.first_pass_node_handle is None {
                assert(!(exists|pos: int|
                    0 <= pos < pi && prev.surviving((#[trigger] prev.pass_order@[pos]) as int)
                        && prev.touches(prev.pass_nodes@[prev.pass_order@[pos] as int], ri)));
                assert(cur.resources@[ri].info.first_pass_node_handle == Some(handle));
                assert forall|pos: int|
                    0 <= pos < pi + 1 && cur.surviving((#[trigger] cur.pass_order@[pos]) as int)
                        && cur.touches(cur.pass_nodes@[cur.pass_order@[pos] as int], ri) implies pi
                    <= pos by {
                    if pos < pi {
                        assert(prev.surviving(prev.pass_order@[pos] as int));
                        assert(prev.touches(prev.pass_nodes@[prev.pass_order@[pos] as int], ri));
                    }
                }
            } else {
                let f0 = prev.resources@[ri].info.first_pass_node_handle->0;
                let fpos = choose|fpos: int|
                    0 <= fpos < pi && (#[trigger] prev.pass_order@[fpos]) as int == f0.index
                        && prev.surviving(f0.index as int) && prev.touches(
                        prev.pass_nodes@[f0.index as int],
                        ri,
                    ) && forall|pos: int|
                        0 <= pos < pi && prev.surviving((#[trigger] prev.pass_order@[pos]) as int)
                            && prev.touches(prev.pass_nodes@[prev.pass_order@[pos] as int], ri)
                            ==> fpos <= pos;
                assert(cur.resources@[ri].info.first_pass_node_handle == Some(f0));
                assert forall|pos: int|
                    0 <= pos < pi + 1 && cur.surviving((#[trigger] cur.pass_order@[pos]) as int)
                        && cur.touches(cur.pass_nodes@[cur.pass_order@[pos] as int], ri) implies
                    fpos <= pos by {
                    if pos < pi {
                        assert(prev.surviving(prev.pass_order@[pos] as int));
                        assert(prev.touches(prev.pass_nodes@[prev.pass_order@[pos] as int], ri));
                    } else {
                        assert(fpos < pi);
                    }
                }
            }
            assert forall|pos: int|
                0 <= pos < pi + 1 && cur.surviving((#[trigger] cur.pass_order@[pos]) as int)
                    && cur.touches(cur.pass_nodes@[cur.pass_order@[pos] as int], ri) implies pos
                <= pi by {}
        } else {
            assert(cur.resources@[ri] == prev.resources@[ri]);
            let info = cur.resources@[ri].info;
            if info.first_pass_node_handle is Some {
                let fpos = choose|fpos: int|
                    0 <= fpos < pi && (#[trigger] prev.pass_order@[fpos]) as int
                        == info.first_pass_node_handle->0.index && prev.surviving(
                        info.first_pass_node_handle->0.index as int,
                    ) && prev.touches(
                        prev.pass_nodes@[info.first_pass_node_handle->0.index as int],
                        ri,
                    ) && forall|pos: int|
                        0 <= pos < pi && prev.surviving((#[trigger] prev.pass_order@[pos]) as int)
                            && prev.touches(prev.pass_nodes@[prev.pass_order@[pos] as int], ri)
                            ==> fpos <= pos;
                assert forall|pos: int|
                    0 <= pos < pi + 1 && cur.surviving((#[trigger] cur.pass_order@[pos]) as int)
                        && cur.touches(cur.pass_nodes@[cur.pass_order@[pos] as int], ri) implies
                    fpos <= pos by {
                    if pos == pi {
                        assert(cur.pass_order@[pos] as int == x);
                        assert(!cur.touches(cur.pass_nodes@[x], ri));
                        assert(false);
                    } else {
                        assert(prev.surviving(prev.pass_order@[pos] as int));
                        assert(prev.touches(prev.pass_nodes@[prev.pass_order@[pos] as int], ri));
                    }
                }
                let l0 = info.last_pass_node_handle->0;
                let lpos = choose|lpos: int|
                    0 <= lpos < pi && (#[trigger] prev.pass_order@[lpos]) as int == l0.index
                        && prev.surviving(l0.index as int) && prev.touches(
                        prev.pass_nodes@[l0.index as int],
                        ri,
                    ) && forall|pos: int|
                        0 <= pos < pi && prev.surviving((#[trigger] prev.pass_order@[pos]) as int)
                            && prev.touches(prev.pass_nodes@[prev.pass_order@[pos] as int], ri)
                            ==> pos <= lpos;
                assert forall|pos: int|
                    0 <= pos < pi + 1 && cur.surviving((#[trigger] cur.pass_order@[pos]) as int)
                        && cur.touches(cur.pass_nodes@[cur.pass_order@[pos] as int], ri) implies pos
                    <= lpos by {
                    if pos == pi {
                        assert(!cur.touches(cur.pass_nodes@[x], ri));
                        assert(false);
                    } else {
                        assert(prev.surviving(prev.pass_order@[pos] as int));
                        assert(prev.touches(prev.pass_nodes@[prev.pass_order@[pos] as int], ri));
                    }
                }
            } else {
                assert forall|pos: int|
                    !(0 <= pos < pi + 1 && cur.surviving((#[trigger] cur.pass_order@[pos]) as int)
                        && cur.touches(cur.pass_nodes@[cur.pass_order@[pos] as int], ri)) by {
                    if 0 <= pos < pi {
                        if cur.surviving(cur.pass_order@[pos] as int) && cur.touches(
                            cur.pass_nodes@[cur.pass_order@[pos] as int],
                            ri,
                        ) {
                            assert(prev.surviving(prev.pass_order@[pos] as int));
                            assert(prev.touches(prev.pass_nodes@[prev.pass_order@[pos] as int], ri));
                            assert(false);
                        }
                    } else if pos == pi {
                        assert(!cur.touches(cur.pass_nodes@[x], ri));
                    }
                }
            }
        }
    }
}

/// Extends the lifetime invariant across a culled pass, which lifetime
/// analysis skips.
pub proof fn lemma_lifetimes_upto_skip(base: FrameGraph, cur: FrameGraph, pi: int, x: int)
    requires
        0 <= pi < cur.pass_order@.len(),
        x == cur.pass_order@[pi] as int,
        !cur.surviving(x),
        cur.lifetimes_computed_upto(base, pi),
    ensures
        cur.lifetimes_computed_upto(base, pi + 1),
{
    assert forall|ri: int| 0 <= ri < cur.resources@.len() implies {
        let info = (#[trigger] cur.resources@[ri]).info;
        &&& (info.first_pass_node_handle is Some <==> exists|pos: int|
            0 <= pos < pi + 1 && cur.surviving((#[trigger] cur.pass_order@[pos]) as int)
                && cur.touches(cur.pass_nodes@[cur.pass_order@[pos] as int], ri))
        &&& (info.first_pass_node_handle matches Some(f) ==> exists|fpos: int|
            0 <= fpos < pi + 1 && (#[trigger] cur.pass_order@[fpos]) as int == f.index
                && cur.surviving(f.index as int) && cur.touches(cur.pass_nodes@[f.index as int], ri)
                && forall|pos: int|
                0 <= pos < pi + 1 && cur.surviving((#[trigger] cur.pass_order@[pos]) as int)
                    && cur.touches(cur.pass_nodes@[cur.pass_order@[pos] as int], ri) ==> fpos
                    <= pos)
        &&& (info.last_pass_node_handle matches Some(l) ==> exists|lpos: int|
            0 <= lpos < pi + 1 && (#[trigger] cur.pass_order@[lpos]) as int == l.index
                && cur.surviving(l.index as int) && cur.touches(cur.pass_nodes@[l.index as int], ri)
                && forall|pos: int|
                0 <= pos < pi + 1 && cur.surviving((#[trigger] cur.pass_order@[pos]) as int)
                    && cur.touches(cur.pass_nodes@[cur.pass_order@[pos] as int], ri) ==> pos
                    <= lpos)
        &&& (info.first_pass_node_handle is Some <==> info.last_pass_node_handle is Some)
        &&& (info.first_pass_node_handle is None ==> cur.resources@[ri] == base.resources@[ri])
    } by {
        let info = cur.resources@[ri].info;
        if info.first_pass_node_handle is Some {
            let fpos = choose|fpos: int|
                0 <= fpos < pi && (#[trigger] cur.pass_order@[fpos]) as int
                    == info.first_pass_node_handle->0.index && cur.surviving(
                    info.first_pass_node_handle->0.index as int,
                ) && cur.touches(
                    cur.pass_nodes@[info.first_pass_node_handle->0.index as int],
                    ri,
                ) && forall|pos: int|
                    0 <= pos < pi && cur.surviving((#[trigger] cur.pass_order@[pos]) as int)
                        && cur.touches(cur.pass_nodes@[cur.pass_order@[pos] as int], ri) ==> fpos
                        <= pos;
            assert forall|pos: int|
                0 <= pos < pi + 1 && cur.surviving((#[trigger] cur.pass_order@[pos]) as int)
                    && cur.touches(cur.pass_nodes@[cur.pass_order@[pos] as int], ri) implies fpos
                <= pos by {
                if pos == pi {
                    assert(false);
                }
            }
            let lpos = choose|lpos: int|
                0 <= lpos < pi && (#[trigger] cur.pass_order@[lpos]) as int
                    == info.last_pass_node_handle->0.index && cur.surviving(
                    info.last_pass_node_handle->0.index as int,
                ) && cur.touches(cur.pass_nodes@[info.last_pass_node_handle->0.index as int], ri)
                    && forall|pos: int|
                    0 <= pos < pi && cur.surviving((#[trigger] cur.pass_order@[pos]) as int)
                        && cur.touches(cur.pass_nodes@[cur.pass_order@[pos] as int], ri) ==> pos
                        <= lpos;
            assert forall|pos: int|
                0 <= pos < pi + 1 && cur.surviving((#[trigger] cur.pass_order@[pos]) as int)
                    && cur.touches(cur.pass_nodes@[cur.pass_order@[pos] as int], ri) implies pos
                <= lpos by {
                if pos == pi {
                    assert(false);
                }
            }
        } else {
            assert forall|pos: int|
                !(0 <= pos < pi + 1 && cur.surviving((#[trigger] cur.pass_order@[pos]) as int)
                    && cur.touches(cur.pass_nodes@[cur.pass_order@[pos] as int], ri)) by {
                if pos == pi {
                    assert(!cur.surviving(x));
                }
            }
        }
    }
}

/// Every entry of `requests_in` names a resource index below the length.
pub proof fn lemma_requests_in_bounded(res: Seq<VirtualResource>, i: int)
    ensures
        forall|k: int|
            0 <= k < requests_in(res, i).len() ==> ((#[trigger] requests_in(res, i)[k]).index as int)
                < res.len(),
    decreases res.len(),
{
    if res.len() > 0 {
        lemma_requests_in_bounded(res.drop_last(), i);
        assert forall|k: int|
            0 <= k < requests_in(res, i).len() implies ((#[trigger] requests_in(res, i)[k]).index
            as int) < res.len() by {
            if k < requests_in(res.drop_last(), i).len() {
                assert(requests_in(res, i)[k] == requests_in(res.drop_last(), i)[k]);
            }
        }
    }
}

/// The cache fold of generation depends only on passes, resources and the
/// order.
pub proof fn lemma_generate_fold_congruent(
    g1: FrameGraph,
    g2: FrameGraph,
    c: Seq<CacheEntry>,
    pi: int,
)
    requires
        g2.pass_nodes == g1.pass_nodes,
        g2.resources == g1.resources,
        g2.pass_order == g1.pass_order,
    ensures
        g2.generate_cache_fold(c, pi) == g1.generate_cache_fold(c, pi),
    decreases g1.pass_order@.len() - pi,
{
    if 0 <= pi < g1.pass_order@.len() {
        let x = g1.pass_order@[pi] as int;
        let c2 = if g1.pass_nodes@[x].ref_count > 0 {
            FrameGraph::request_cache_fold(
                g1.resources@,
                c,
                g1.pass_nodes@[x].resource_request_array@,
            )
        } else {
            c
        };
        lemma_generate_fold_congruent(g1, g2, c2, pi + 1);
    }
}

/// The surviving-pass order depends only on the passes and the order.
pub proof fn lemma_survivors_congruent(g1: FrameGraph, g2: FrameGraph, k: int)
    requires
        g2.pass_nodes == g1.pass_nodes,
        g2.pass_order == g1.pass_order,
        k <= g1.pass_order@.len(),
    ensures
        g2.survivors_upto(k) == g1.survivors_upto(k),
    decreases k,
{
    if k > 0 {
        lemma_survivors_congruent(g1, g2, k - 1);
    }
}

/// Every surviving pass index is a valid pass index.
pub proof fn lemma_survivors_bounded(g: FrameGraph, k: int)
    requires
        0 <= k <= g.pass_order@.len(),
        forall|j: int|
            0 <= j < g.pass_order@.len() ==> ((#[trigger] g.pass_order@[j]) as int)
                < g.pass_nodes@.len(),
    ensures
        forall|c: int|
            0 <= c < g.survivors_upto(k).len() ==> ((#[trigger] g.survivors_upto(k)[c]) as int)
                < g.pass_nodes@.len(),
        g.survivors_upto(k).len() <= k,
    decreases k,
{
    if k > 0 {
        lemma_survivors_bounded(g, k - 1);
        assert forall|c: int|
            0 <= c < g.survivors_upto(k).len() implies ((#[trigger] g.survivors_upto(k)[c]) as int)
            < g.pass_nodes@.len() by {
            if c < g.survivors_upto(k - 1).len() {
                assert(g.survivors_upto(k)[c] == g.survivors_upto(k - 1)[c]);
            } else {
                assert(g.survivors_upto(k)[c] == g.pass_order@[k - 1]);
            }
        }
    }
}

/// What `requests_in` holds: exactly the resources whose first pass is `i`.
pub proof fn lemma_requests_in_contains(res: Seq<VirtualResource>, i: int)
    requires
        res.len() <= usize::MAX,
    ensures
        forall|h: Handle|
            #[trigger] requests_in(res, i).contains(h) <==> ((h.index as int) < res.len()
                && (res[h.index as int].info.first_pass_node_handle matches Some(f) && f.index == i)
                && res[h.index as int].info.last_pass_node_handle is Some),
    decreases res.len(),
{
    if res.len() > 0 {
        lemma_requests_in_contains(res.drop_last(), i);
        assert(res.last() == res[res.len() - 1]);
        assert forall|h: Handle| #[trigger]
            requests_in(res, i).contains(h) <==> ((h.index as int) < res.len() && (res[
            h.index as int
        ].info.first_pass_node_handle matches Some(f) && f.index == i) && res[
            h.index as int
        ].info.last_pass_node_handle is Some) by {
            let prefix = requests_in(res.drop_last(), i);
            let qualifies = (res.last().info.first_pass_node_handle matches Some(f) && f.index == i)
                && res.last().info.last_pass_node_handle is Some;
            if qualifies {
                assert(requests_in(res, i) == prefix.push(Handle { index: (res.len() - 1) as usize }));
                if requests_in(res, i).contains(h) {
                    let w = choose|w: int|
                        0 <= w < requests_in(res, i).len() && requests_in(res, i)[w] == h;
                    if w < prefix.len() {
                        assert(prefix.contains(h));
                        assert(res.drop_last()[h.index as int] == res[h.index as int]);
                    } else {
                        assert(h == Handle { index: (res.len() - 1) as usize });
                    }
                }
                if ((h.index as int) < res.len() && (res[
                    h.index as int
                ].info.first_pass_node_handle matches Some(f) && f.index == i) && res[
                    h.index as int
                ].info.last_pass_node_handle is Some) {
                    if (h.index as int) < res.len() - 1 {
                        assert(res.drop_last()[h.index as int] == res[h.index as int]);
                        assert(prefix.contains(h));
                        let w = choose|w: int| 0 <= w < prefix.len() && prefix[w] == h;
                        assert(requests_in(res, i)[w] == h);
                    } else {
                        assert(requests_in(res, i).last() == h);
                    }
                }
            } else {
                assert(requests_in(res, i) == prefix);
                if requests_in(res, i).contains(h) {
                    assert(res.drop_last()[h.index as int] == res[h.index as int]);
                }
                if ((h.index as int) < res.len() && (res[
                    h.index as int
                ].info.first_pass_node_handle matches Some(f) && f.index == i) && res[
                    h.index as int
                ].info.last_pass_node_handle is Some) {
                    assert((h.index as int) != res.len() - 1);
                    assert(res.drop_last()[h.index as int] == res[h.index as int]);
                }
            }
        }
    }
}

/// What `releases_in` holds: exactly the resources whose last pass is `i`.
pub proof fn lemma_releases_in_contains(res: Seq<VirtualResource>, i: int)
    requires
        res.len() <= usize::MAX,
    ensures
        forall|h: Handle|
            #[trigger] releases_in(res, i).contains(h) <==> ((h.index as int) < res.len()
                && (res[h.index as int].info.last_pass_node_handle matches Some(l) && l.index == i)
                && res[h.index as int].info.first_pass_node_handle is Some),
    decreases res.len(),
{
    if res.len() > 0 {
        lemma_releases_in_contains(res.drop_last(), i);
        assert(res.last() == res[res.len() - 1]);
        assert forall|h: Handle| #[trigger]
            releases_in(res, i).contains(h) <==> ((h.index as int) < res.len() && (res[
            h.index as int
        ].info.last_pass_node_handle matches Some(l) && l.index == i) && res[
            h.index as int
        ].info.first_pass_node_handle is Some) by {
            let prefix = releases_in(res.drop_last(), i);
            let qualifies = (res.last().info.last_pass_node_handle matches Some(l) && l.index == i)
                && res.last().info.first_pass_node_handle is Some;
            if qualifies {
                assert(releases_in(res, i) == prefix.push(Handle { index: (res.len() - 1) as usize }));
                if releases_in(res, i).contains(h) {
                    let w = choose|w: int|
                        0 <= w < releases_in(res, i).len() && releases_in(res, i)[w] == h;
                    if w < prefix.len() {
                        assert(prefix.contains(h));
                        assert(res.drop_last()[h.index as int] == res[h.index as int]);
                    } else {
                        assert(h == Handle { index: (res.len() - 1) as usize });
                    }
                }
                if ((h.index as int) < res.len() && (res[
                    h.index as int
                ].info.last_pass_node_handle matches Some(l) && l.index == i) && res[
                    h.index as int
                ].info.first_pass_node_handle is Some) {
                    if (h.index as int) < res.len() - 1 {
                        assert(res.drop_last()[h.index as int] == res[h.index as int]);
                        assert(prefix.contains(h));
                        let w = choose|w: int| 0 <= w < prefix.len() && prefix[w] == h;
                        assert(releases_in(res, i)[w] == h);
                    } else {
                        assert(releases_in(res, i).last() == h);
                    }
                }
            } else {
                assert(releases_in(res, i) == prefix);
                if releases_in(res, i).contains(h) {
                    assert(res.drop_last()[h.index as int] == res[h.index as int]);
                }
                if ((h.index as int) < res.len() && (res[
                    h.index as int
                ].info.last_pass_node_handle matches Some(l) && l.index == i) && res[
                    h.index as int
                ].info.first_pass_node_handle is Some) {
                    assert((h.index as int) != res.len() - 1);
                    assert(res.drop_last()[h.index as int] == res[h.index as int]);
                }
            }
        }
    }
}

/// A request list never names a resource twice.
pub proof fn lemma_requests_in_no_duplicates(res: Seq<VirtualResource>, i: int)
    requires
        res.len() <= usize::MAX,
    ensures
        requests_in(res, i).no_duplicates(),
    decreases res.len(),
{
    if res.len() > 0 {
        lemma_requests_in_no_duplicates(res.drop_last(), i);
        lemma_requests_in_bounded(res.drop_last(), i);
        let prefix = requests_in(res.drop_last(), i);
        if requests_in(res, i).len() > prefix.len() {
            assert(requests_in(res, i) == prefix.push(Handle { index: (res.len() - 1) as usize }));
            assert forall|a: int, b: int|
                0 <= a < requests_in(res, i).len() && 0 <= b < requests_in(res, i).len() && a != b
                    implies requests_in(res, i)[a] != requests_in(res, i)[b] by {
                if a < prefix.len() && b < prefix.len() {
                    assert(requests_in(res, i)[a] == prefix[a]);
                    assert(requests_in(res, i)[b] == prefix[b]);
                    assert(prefix.no_duplicates());
                } else if a == prefix.len() {
                    assert(requests_in(res, i)[a] == Handle { index: (res.len() - 1) as usize });
                    assert(requests_in(res, i)[b] == prefix[b]);
                    assert(((#[trigger] prefix[b]).index as int) < res.len() - 1);
                } else {
                    assert(requests_in(res, i)[b] == Handle { index: (res.len() - 1) as usize });
                    assert(requests_in(res, i)[a] == prefix[a]);
                    assert(((#[trigger] prefix[a]).index as int) < res.len() - 1);
                }
            }
        }
    }
}

/// A release list never names a resource twice.
pub proof fn lemma_releases_in_no_duplicates(res: Seq<VirtualResource>, i: int)
    requires
        res.len() <= usize::MAX,
    ensures
        releases_in(res, i).no_duplicates(),
    decreases res.len(),
{
    if res.len() > 0 {
        lemma_releases_in_no_duplicates(res.drop_last(), i);
        lemma_releases_in_bounded(res.drop_last(), i);
        let prefix = releases_in(res.drop_last(), i);
        if releases_in(res, i).len() > prefix.len() {
            assert(releases_in(res, i) == prefix.push(Handle { index: (res.len() - 1) as usize }));
            assert forall|a: int, b: int|
                0 <= a < releases_in(res, i).len() && 0 <= b < releases_in(res, i).len() && a != b
                    implies releases_in(res, i)[a] != releases_in(res, i)[b] by {
                if a < prefix.len() && b < prefix.len() {
                    assert(releases_in(res, i)[a] == prefix[a]);
                    assert(releases_in(res, i)[b] == prefix[b]);
                    assert(prefix.no_duplicates());
                } else if a == prefix.len() {
                    assert(releases_in(res, i)[a] == Handle { index: (res.len() - 1) as usize });
                    assert(releases_in(res, i)[b] == prefix[b]);
                    assert(((#[trigger] prefix[b]).index as int) < res.len() - 1);
                } else {
                    assert(releases_in(res, i)[b] == Handle { index: (res.len() - 1) as usize });
                    assert(releases_in(res, i)[a] == prefix[a]);
                    assert(((#[trigger] prefix[a]).index as int) < res.len() - 1);
                }
            }
        }
    }
}

/// Every entry of `releases_in` names a resource index below the length.
pub proof fn lemma_releases_in_bounded(res: Seq<VirtualResource>, i: int)
    ensures
        forall|k: int|
            0 <= k < releases_in(res, i).len() ==> ((#[trigger] releases_in(res, i)[k]).index
                as int) < res.len(),
    decreases res.len(),
{
    if res.len() > 0 {
        lemma_releases_in_bounded(res.drop_last(), i);
        assert forall|k: int|
            0 <= k < releases_in(res, i).len() implies ((#[trigger] releases_in(res, i)[k]).index
            as int) < res.len() by {
            if k < releases_in(res.drop_last(), i).len() {
                assert(releases_in(res, i)[k] == releases_in(res.drop_last(), i)[k]);
            }
        }
    }
}

/// Request/release balance: after compilation, a live resource is
/// requested by exactly its first pass, released by exactly its last pass,
/// and the releasing pass runs no earlier than the requesting pass; a
/// resource with no computed lifetime appears in no array at all.
pub proof fn lemma_request_release_balance(g: FrameGraph, base: FrameGraph, ri: int)
    requires
        0 <= ri < g.resources@.len(),
        g.resources@.len() <= usize::MAX,
        g.order_sorted(),
        g.lifetimes_computed_upto(base, g.pass_order@.len() as int),
        forall|i: int|
            0 <= i < g.pass_nodes@.len() ==> ((
            #[trigger] g.pass_nodes@[i]).resource_request_array@ == requests_in(g.resources@, i)
                && g.pass_nodes@[i].resource_release_array@ == releases_in(g.resources@, i)),
    ensures
        g.resources@[ri].info.first_pass_node_handle matches Some(f) ==> {
            let l = g.resources@[ri].info.last_pass_node_handle->0;
            &&& (f.index as int) < g.pass_nodes@.len()
            &&& (l.index as int) < g.pass_nodes@.len()
            &&& g.pass_nodes@[f.index as int].resource_request_array@.contains(
                Handle { index: ri as usize },
            )
            &&& g.pass_nodes@[l.index as int].resource_release_array@.contains(
                Handle { index: ri as usize },
            )
            &&& forall|i: int|
                0 <= i < g.pass_nodes@.len() && i != f.index ==> !(
                #[trigger] g.pass_nodes@[i]).resource_request_array@.contains(
                    Handle { index: ri as usize },
                )
            &&& forall|i: int|
                0 <= i < g.pass_nodes@.len() && i != l.index ==> !(
                #[trigger] g.pass_nodes@[i]).resource_release_array@.contains(
                    Handle { index: ri as usize },
                )
            &&& g.pass_nodes@[f.index as int].resource_request_array@.no_duplicates()
            &&& g.pass_nodes@[l.index as int].resource_release_array@.no_duplicates()
            &&& exists|fpos: int, lpos: int|
                0 <= fpos < g.pass_order@.len() && 0 <= lpos < g.pass_order@.len() && (
                #[trigger] g.pass_order@[fpos]) as int == f.index && (
                #[trigger] g.pass_order@[lpos]) as int == l.index && fpos <= lpos
        },
        g.resources@[ri].info.first_pass_node_handle is None ==> forall|i: int|
            0 <= i < g.pass_nodes@.len() ==> (!(
            #[trigger] g.pass_nodes@[i]).resource_request_array@.contains(
                Handle { index: ri as usize },
            ) && !g.pass_nodes@[i].resource_release_array@.contains(Handle { index: ri as usize })),
{
    let h = Handle { index: ri as usize };
    if g.resources@[ri].info.first_pass_node_handle is Some {
        let f = g.resources@[ri].info.first_pass_node_handle->0;
        let l = g.resources@[ri].info.last_pass_node_handle->0;
        let upto = g.pass_order@.len() as int;
        let fpos = choose|fpos: int|
            0 <= fpos < upto && (#[trigger] g.pass_order@[fpos]) as int == f.index && g.surviving(
                f.index as int,
            ) && g.touches(g.pass_nodes@[f.index as int], ri) && forall|pos: int|
                0 <= pos < upto && g.surviving((#[trigger] g.pass_order@[pos]) as int)
                    && g.touches(g.pass_nodes@[g.pass_order@[pos] as int], ri) ==> fpos <= pos;
        let lpos = choose|lpos: int|
            0 <= lpos < upto && (#[trigger] g.pass_order@[lpos]) as int == l.index && g.surviving(
                l.index as int,
            ) && g.touches(g.pass_nodes@[l.index as int], ri) && forall|pos: int|
                0 <= pos < upto && g.surviving((#[trigger] g.pass_order@[pos]) as int)
                    && g.touches(g.pass_nodes@[g.pass_order@[pos] as int], ri) ==> pos <= lpos;
        assert((g.pass_order@[fpos] as int) < g.pass_nodes@.len());
        assert((g.pass_order@[lpos] as int) < g.pass_nodes@.len());
        assert(g.surviving(l.index as int) && g.touches(g.pass_nodes@[l.index as int], ri));
        assert(fpos <= lpos);
        lemma_requests_in_contains(g.resources@, f.index as int);
        assert(g.pass_nodes@[f.index as int].resource_request_array@ == requests_in(
            g.resources@,
            f.index as int,
        ));
        assert(requests_in(g.resources@, f.index as int).contains(h));
        lemma_releases_in_contains(g.resources@, l.index as int);
        assert(releases_in(g.resources@, l.index as int).contains(h));
        lemma_requests_in_no_duplicates(g.resources@, f.index as int);
        lemma_releases_in_no_duplicates(g.resources@, l.index as int);
        assert forall|i: int|
            0 <= i < g.pass_nodes@.len() && i != f.index implies !(
        #[trigger] g.pass_nodes@[i]).resource_request_array@.contains(h) by {
            lemma_requests_in_contains(g.resources@, i);
        }
        assert forall|i: int|
            0 <= i < g.pass_nodes@.len() && i != l.index implies !(
        #[trigger] g.pass_nodes@[i]).resource_release_array@.contains(h) by {
            lemma_releases_in_contains(g.resources@, i);
        }
    } else {
        assert forall|i: int|
            0 <= i < g.pass_nodes@.len() implies (!(
        #[trigger] g.pass_nodes@[i]).resource_request_array@.contains(h)
            && !g.pass_nodes@[i].resource_release_array@.contains(h)) by {
            lemma_requests_in_contains(g.resources@, i);
            lemma_releases_in_contains(g.resources@, i);
        }
    }
}

/// Versioning: with well-formed entities, a resource's version equals the
/// number of written views of it — one per pass that wrote it.
pub proof fn lemma_versioning(g: FrameGraph, ri: int)
    requires
        g.wf_entities(),
        0 <= ri < g.resources@.len(),
    ensures
        count_written_nodes_of(g.resource_nodes@, ri) == g.resources@[ri].info.spec_version(),
{
    lemma_written_count(g.resource_nodes@, ri);
}

/// Topological consistency: a surviving pass reads only versions written
/// by passes that appear no later in the sorted execution order, provided
/// the writer's insertion point does not exceed the reader's.
pub proof fn lemma_topological_consistency(g: FrameGraph, x: int, k: int)
    requires
        g.wf_building(),
        g.order_sorted(),
        0 <= x < g.pass_nodes@.len(),
        0 <= k < g.pass_nodes@[x].reads@.len(),
        g.resource_nodes@[g.pass_nodes@[x].reads@[k].index as int].pass_node_writer_handle
            is Some,
        g.pass_nodes@[g.resource_nodes@[g.pass_nodes@[x].reads@[
            k
        ].index as int].pass_node_writer_handle->0.index as int].insert_point
            <= g.pass_nodes@[x].insert_point,
    ensures
        exists|wpos: int, xpos: int|
            0 <= wpos < g.pass_order@.len() && 0 <= xpos < g.pass_order@.len() && (
            #[trigger] g.pass_order@[wpos]) as int == g.resource_nodes@[g.pass_nodes@[x].reads@[
                k
            ].index as int].pass_node_writer_handle->0.index && (
            #[trigger] g.pass_order@[xpos]) as int == x && wpos < xpos,
{
    let w = g.resource_nodes@[g.pass_nodes@[x].reads@[k].index as int].pass_node_writer_handle->0;
    assert(g.wf_pass(g.pass_nodes@[x]));
    assert((g.pass_nodes@[x].reads@[k].index as int) < g.resource_nodes@.len());
    assert(w.index < g.pass_nodes@[x].handle.index);
    assert(g.pass_nodes@[x].handle.index == x);
    assert((w.index as int) < x);
    assert(g.pass_order@.contains(w.index as usize)) by {
        assert((w.index as int) < g.pass_nodes@.len());
    }
    assert(g.pass_order@.contains(x as usize));
    let wpos = choose|wpos: int|
        0 <= wpos < g.pass_order@.len() && g.pass_order@[wpos] == w.index as usize;
    let xpos = choose|xpos: int|
        0 <= xpos < g.pass_order@.len() && g.pass_order@[xpos] == x as usize;
    assert(wpos != xpos);
    if wpos > xpos {
        assert(g.lex_le(g.pass_order@[xpos] as int, g.pass_order@[wpos] as int));
        assert(g.lex_le(x, w.index as int));
        assert(g.pass_nodes@[x].insert_point == g.pass_nodes@[w.index as int].insert_point);
        assert(x <= w.index as int);
        assert(false);
    }
}

/// The lifetime invariant ignores the boundary arrays, so it transfers to
/// the graph with its arrays assigned.
pub proof fn lemma_lifetimes_upto_transfer(
    base: FrameGraph,
    mid: FrameGraph,
    cur: FrameGraph,
    upto: int,
)
    requires
        mid.lifetimes_computed_upto(base, upto),
        cur.pass_nodes@.len() == mid.pass_nodes@.len(),
        forall|i: int|
            0 <= i < mid.pass_nodes@.len() ==> pass_eq_except_arrays(
                #[trigger] mid.pass_nodes@[i],
                cur.pass_nodes@[i],
            ),
        cur.resources == mid.resources,
        cur.resource_nodes == mid.resource_nodes,
        cur.pass_order == mid.pass_order,
        forall|j: int|
            0 <= j < mid.pass_order@.len() ==> ((#[trigger] mid.pass_order@[j]) as int)
                < mid.pass_nodes@.len(),
        0 <= upto <= mid.pass_order@.len(),
    ensures
        cur.lifetimes_computed_upto(base, upto),
{
    assert forall|i: int|
        0 <= i < mid.pass_nodes@.len() implies (forall|ri: int|
        cur.touches(#[trigger] cur.pass_nodes@[i], ri) == mid.touches(mid.pass_nodes@[i], ri))
        && cur.surviving(i) == mid.surviving(i) by {
        assert(pass_eq_except_arrays(mid.pass_nodes@[i], cur.pass_nodes@[i]));
        assert forall|ri: int|
            cur.touches(#[trigger] cur.pass_nodes@[i], ri) == mid.touches(
            mid.pass_nodes@[i],
            ri,
        ) by {
            assert(cur.pass_nodes@[i].reads == mid.pass_nodes@[i].reads);
            assert(cur.pass_nodes@[i].writes == mid.pass_nodes@[i].writes);
        }
    }
    assert forall|ri: int| 0 <= ri < cur.resources@.len() implies {
        let info = (#[trigger] cur.resources@[ri]).info;
        &&& (info.first_pass_node_handle is Some <==> exists|pos: int|
            0 <= pos < upto && cur.surviving((#[trigger] cur.pass_order@[pos]) as int)
                && cur.touches(cur.pass_nodes@[cur.pass_order@[pos] as int], ri))
        &&& (info.first_pass_node_handle matches Some(f) ==> exists|fpos: int|
            0 <= fpos < upto && (#[trigger] cur.pass_order@[fpos]) as int == f.index
                && cur.surviving(f.index as int) && cur.touches(cur.pass_nodes@[f.index as int], ri)
                && forall|pos: int|
                0 <= pos < upto && cur.surviving((#[trigger] cur.pass_order@[pos]) as int)
                    && cur.touches(cur.pass_nodes@[cur.pass_order@[pos] as int], ri) ==> fpos
                    <= pos)
        &&& (info.last_pass_node_handle matches Some(l) ==> exists|lpos: int|
            0 <= lpos < upto && (#[trigger] cur.pass_order@[lpos]) as int == l.index
                && cur.surviving(l.index as int) && cur.touches(cur.pass_nodes@[l.index as int], ri)
                && forall|pos: int|
                0 <= pos < upto && cur.surviving((#[trigger] cur.pass_order@[pos]) as int)
                    && cur.touches(cur.pass_nodes@[cur.pass_order@[pos] as int], ri) ==> pos
                    <= lpos)
        &&& (info.first_pass_node_handle is Some <==> info.last_pass_node_handle is Some)
        &&& (info.first_pass_node_handle is None ==> cur.resources@[ri] == base.resources@[ri])
    } by {
        let info = cur.resources@[ri].info;
        if info.first_pass_node_handle is Some {
            let f = info.first_pass_node_handle->0;
            let fpos = choose|fpos: int|
                0 <= fpos < upto && (#[trigger] mid.pass_order@[fpos]) as int == f.index
                    && mid.surviving(f.index as int) && mid.touches(
                    mid.pass_nodes@[f.index as int],
                    ri,
                ) && forall|pos: int|
                    0 <= pos < upto && mid.surviving((#[trigger] mid.pass_order@[pos]) as int)
                        && mid.touches(mid.pass_nodes@[mid.pass_order@[pos] as int], ri) ==> fpos
                        <= pos;
            assert(0 <= fpos < upto && (cur.pass_order@[fpos] as int) == f.index);
            assert(cur.surviving(f.index as int) && cur.touches(cur.pass_nodes@[f.index as int], ri));
            assert forall|pos: int|
                0 <= pos < upto && cur.surviving((#[trigger] cur.pass_order@[pos]) as int)
                    && cur.touches(cur.pass_nodes@[cur.pass_order@[pos] as int], ri) implies fpos
                <= pos by {
                assert(mid.surviving(mid.pass_order@[pos] as int));
                assert(mid.touches(mid.pass_nodes@[mid.pass_order@[pos] as int], ri));
            }
            let l = info.last_pass_node_handle->0;
            let lpos = choose|lpos: int|
                0 <= lpos < upto && (#[trigger] mid.pass_order@[lpos]) as int == l.index
                    && mid.surviving(l.index as int) && mid.touches(
                    mid.pass_nodes@[l.index as int],
                    ri,
                ) && forall|pos: int|
                    0 <= pos < upto && mid.surviving((#[trigger] mid.pass_order@[pos]) as int)
                        && mid.touches(mid.pass_nodes@[mid.pass_order@[pos] as int], ri) ==> pos
                        <= lpos;
            assert(0 <= lpos < upto && (cur.pass_order@[lpos] as int) == l.index);
            assert(cur.surviving(l.index as int) && cur.touches(cur.pass_nodes@[l.index as int], ri));
            assert forall|pos: int|
                0 <= pos < upto && cur.surviving((#[trigger] cur.pass_order@[pos]) as int)
                    && cur.touches(cur.pass_nodes@[cur.pass_order@[pos] as int], ri) implies pos
                <= lpos by {
                assert(mid.surviving(mid.pass_order@[pos] as int));
                assert(mid.touches(mid.pass_nodes@[mid.pass_order@[pos] as int], ri));
            }
        } else {
            assert forall|pos: int|
                !(0 <= pos < upto && cur.surviving((#[trigger] cur.pass_order@[pos]) as int)
                    && cur.touches(cur.pass_nodes@[cur.pass_order@[pos] as int], ri)) by {
                if 0 <= pos < upto {
                    if cur.surviving(cur.pass_order@[pos] as int) && cur.touches(
                        cur.pass_nodes@[cur.pass_order@[pos] as int],
                        ri,
                    ) {
                        assert(mid.surviving(mid.pass_order@[pos] as int));
                        assert(mid.touches(mid.pass_nodes@[mid.pass_order@[pos] as int], ri));
                        assert(false);
                    }
                }
            }
        }
    }
}

/// Node counts only look at which resource a node views, so they agree on
/// sequences that differ just in reader counts.
pub proof fn lemma_count_nodes_congruent(s: Seq<ResourceNode>, s2: Seq<ResourceNode>)
    requires
        s2.len() == s.len(),
        forall|j: int| 0 <= j < s.len() ==> node_eq_except_reader(#[trigger] s[j], s2[j]),
    ensures
        forall|ri: int| count_nodes_of(s2, ri) == count_nodes_of(s, ri),
    decreases s.len(),
{
    if s.len() > 0 {
        assert forall|j: int|
            0 <= j < s.drop_last().len() implies node_eq_except_reader(
            #[trigger] s.drop_last()[j],
            s2.drop_last()[j],
        ) by {
            assert(s.drop_last()[j] == s[j]);
            assert(s2.drop_last()[j] == s2[j]);
        }
        lemma_count_nodes_congruent(s.drop_last(), s2.drop_last());
        assert(s.last() == s[s.len() - 1]);
        assert(s2.last() == s2[s.len() - 1]);
        assert(node_eq_except_reader(s[s.len() - 1], s2[s.len() - 1]));
        assert forall|ri: int| count_nodes_of(s2, ri) == count_nodes_of(s, ri) by {
            assert(count_nodes_of(s.drop_last(), ri) == count_nodes_of(s2.drop_last(), ri));
            assert(count_nodes_of(s, ri) == count_nodes_of(s.drop_last(), ri)
                + if s.last().resource_handle.index == ri {
                1int
            } else {
                0int
            });
            assert(count_nodes_of(s2, ri) == count_nodes_of(s2.drop_last(), ri)
                + if s2.last().resource_handle.index == ri {
                1int
            } else {
                0int
            });
        }
    }
}

/// Culling changes only counts, and counts play no part in the graph's
/// well-formedness, so well-formedness survives culling.
pub proof fn lemma_wf_building_counts(g: FrameGraph, h: FrameGraph)
    requires
        g.wf_building(),
        g.eq_except_counts(h),
    ensures
        h.wf_building(),
{
    lemma_count_nodes_congruent(g.resource_nodes@, h.resource_nodes@);
    assert forall|j: int|
        0 <= j < h.resource_nodes@.len() implies (#[trigger] h.resource_nodes@[j]).version
        == count_nodes_of(
        h.resource_nodes@.take(j),
        h.resource_nodes@[j].resource_handle.index as int,
    ) by {
        assert(node_eq_except_reader(g.resource_nodes@[j], h.resource_nodes@[j]));
        assert forall|q: int|
            0 <= q < g.resource_nodes@.take(j).len() implies node_eq_except_reader(
            #[trigger] g.resource_nodes@.take(j)[q],
            h.resource_nodes@.take(j)[q],
        ) by {
            assert(g.resource_nodes@.take(j)[q] == g.resource_nodes@[q]);
            assert(h.resource_nodes@.take(j)[q] == h.resource_nodes@[q]);
        }
        lemma_count_nodes_congruent(g.resource_nodes@.take(j), h.resource_nodes@.take(j));
    }
    assert forall|i: int|
        0 <= i < h.pass_nodes@.len() implies h.wf_pass(#[trigger] h.pass_nodes@[i]) by {
        assert(pass_eq_except_ref(g.pass_nodes@[i], h.pass_nodes@[i]));
        let p = h.pass_nodes@[i];
        let q = g.pass_nodes@[i];
        assert(g.wf_pass(q));
        assert forall|k: int|
            0 <= k < p.reads@.len() implies (h.resource_nodes@[(
        #[trigger] p.reads@[k]).index as int].pass_node_writer_handle matches Some(w)
            ==> w.index < p.handle.index) by {
            assert(p.reads@[k] == q.reads@[k]);
            assert(node_eq_except_reader(
                g.resource_nodes@[p.reads@[k].index as int],
                h.resource_nodes@[p.reads@[k].index as int],
            ));
        }
        assert forall|k: int|
            0 <= k < p.writes@.len() implies h.resource_nodes@[(
        #[trigger] p.writes@[k]).index as int].pass_node_writer_handle == Some(p.handle) by {
            assert(p.writes@[k] == q.writes@[k]);
            assert(node_eq_except_reader(
                g.resource_nodes@[p.writes@[k].index as int],
                h.resource_nodes@[p.writes@[k].index as int],
            ));
        }
    }
    assert forall|j: int|
        0 <= j < h.resource_nodes@.len() implies ((
    #[trigger] h.resource_nodes@[j]).pass_node_writer_handle matches Some(w) ==> w.index
        < h.pass_nodes@.len()) by {
        assert(node_eq_except_reader(g.resource_nodes@[j], h.resource_nodes@[j]));
    }
    assert forall|j: int|
        0 <= j < h.resource_nodes@.len() implies (#[trigger] h.resource_nodes@[j]).handle.index
        == j by {
        assert(node_eq_except_reader(g.resource_nodes@[j], h.resource_nodes@[j]));
    }
    assert forall|j: int|
        0 <= j < h.resource_nodes@.len() implies ((
    #[trigger] h.resource_nodes@[j]).resource_handle.index as int) < h.resources@.len() by {
        assert(node_eq_except_reader(g.resource_nodes@[j], h.resource_nodes@[j]));
    }
    assert forall|i: int|
        0 <= i < h.resources@.len() implies count_nodes_of(h.resource_nodes@, i) == (
    #[trigger] h.resources@[i]).info.spec_version() + 1 by {
        assert(count_nodes_of(h.resource_nodes@, i) == count_nodes_of(g.resource_nodes@, i));
    }
    assert forall|j: int|
        0 <= j < h.resource_nodes@.len() implies ((
    #[trigger] h.resource_nodes@[j]).pass_node_writer_handle is None <==> h.resource_nodes@[
        j
    ].version == 0) by {
        assert(node_eq_except_reader(g.resource_nodes@[j], h.resource_nodes@[j]));
    }
    assert forall|i: int|
        0 <= i < h.pass_nodes@.len() implies (#[trigger] h.pass_nodes@[i]).handle.index == i by {
        assert(pass_eq_except_ref(g.pass_nodes@[i], h.pass_nodes@[i]));
    }
    assert forall|j: int|
        0 <= j < h.resource_nodes@.len() implies match (
    #[trigger] h.resource_nodes@[j]).pass_node_writer_handle {
        Some(w) => (w.index as int) < h.pass_nodes@.len() ==> h.pass_nodes@[
            w.index as int
        ].writes@.contains(h.resource_nodes@[j].handle),
        None => true,
    } by {
        assert(node_eq_except_reader(g.resource_nodes@[j], h.resource_nodes@[j]));
        if h.resource_nodes@[j].pass_node_writer_handle is Some {
            let w = h.resource_nodes@[j].pass_node_writer_handle->0;
            if (w.index as int) < h.pass_nodes@.len() {
                assert(pass_eq_except_ref(g.pass_nodes@[w.index as int], h.pass_nodes@[
                    w.index as int
                ]));
                assert(g.pass_nodes@[w.index as int].writes@.contains(g.resource_nodes@[
                    j
                ].handle));
                let k = choose|k: int|
                    0 <= k < g.pass_nodes@[w.index as int].writes@.len() && g.pass_nodes@[
                        w.index as int
                    ].writes@[k] == g.resource_nodes@[j].handle;
                assert(h.pass_nodes@[w.index as int].writes@[k] == h.resource_nodes@[j].handle);
            }
        }
    }
}

/// Whether one of the first `k` node handles in `entries` is a view of the
/// resource at `ri`.
pub open spec fn touched_by_prefix(
    nodes: Seq<ResourceNode>,
    entries: Seq<Handle>,
    k: int,
    ri: int,
) -> bool {
    exists|q: int|
        0 <= q < k && q < entries.len() && nodes[(#[trigger] entries[q]).index as int].resource_handle.index
            == ri
}

/// Whether a prefix of the reads or a prefix of the writes touches `ri`.
pub open spec fn touched_two(
    nodes: Seq<ResourceNode>,
    reads: Seq<Handle>,
    ka: int,
    writes: Seq<Handle>,
    kb: int,
    ri: int,
) -> bool {
    touched_by_prefix(nodes, reads, ka, ri) || touched_by_prefix(nodes, writes, kb, ri)
}

/// The lifetime-analysis loop invariant: resources touched by the processed
/// prefix carry the widened lifetime; the rest are untouched.
pub open spec fn lifetime_loop_inv(
    nodes: Seq<ResourceNode>,
    reads: Seq<Handle>,
    ka: int,
    writes: Seq<Handle>,
    kb: int,
    res0: Seq<VirtualResource>,
    res: Seq<VirtualResource>,
    handle: Handle,
) -> bool {
    &&& res.len() == res0.len()
    &&& forall|ri: int|
        0 <= ri < res0.len() && touched_two(nodes, reads, ka, writes, kb, ri) ==> ((
        #[trigger] res[ri]).info.first_pass_node_handle == (
        if res0[ri].info.first_pass_node_handle is None {
            Some(handle)
        } else {
            res0[ri].info.first_pass_node_handle
        }) && res[ri].info.last_pass_node_handle == Some(handle) && res[ri].state == res0[ri].state
            && res[ri].info.name == res0[ri].info.name && res[ri].info.handle == res0[
            ri
        ].info.handle && res[ri].info.spec_version() == res0[ri].info.spec_version())
    &&& forall|ri: int|
        0 <= ri < res0.len() && !touched_two(nodes, reads, ka, writes, kb, ri) ==> (
        #[trigger] res[ri]) == res0[ri]
}

/// One lifetime-analysis step: widening the lifetime of the resource behind
/// the next read (when `stepping_reads`) or write entry preserves the loop
/// invariant with that entry counted.
pub proof fn lemma_lifetime_step(
    nodes: Seq<ResourceNode>,
    reads: Seq<Handle>,
    writes: Seq<Handle>,
    ka: int,
    kb: int,
    res0: Seq<VirtualResource>,
    rb: Seq<VirtualResource>,
    ra: Seq<VirtualResource>,
    handle: Handle,
    ridx: int,
    stepping_reads: bool,
)
    requires
        stepping_reads ==> (0 <= kb < reads.len() && 0 <= ka == 0 && ridx == nodes[reads[
            kb
        ].index as int].resource_handle.index),
        !stepping_reads ==> (0 <= kb < writes.len() && ka == reads.len() && ridx == nodes[writes[
            kb
        ].index as int].resource_handle.index),
        0 <= ridx < res0.len(),
        rb.len() == res0.len(),
        ra.len() == res0.len(),
        ra == rb.update(ridx, ra[ridx]),
        ra[ridx].info.first_pass_node_handle == (
        if rb[ridx].info.first_pass_node_handle is None {
            Some(handle)
        } else {
            rb[ridx].info.first_pass_node_handle
        }),
        ra[ridx].info.last_pass_node_handle == Some(handle),
        ra[ridx].state == rb[ridx].state,
        ra[ridx].info.name == rb[ridx].info.name,
        ra[ridx].info.handle == rb[ridx].info.handle,
        ra[ridx].info.spec_version() == rb[ridx].info.spec_version(),
        stepping_reads ==> lifetime_loop_inv(nodes, reads, kb, writes, 0, res0, rb, handle),
        !stepping_reads ==> lifetime_loop_inv(nodes, reads, ka, writes, kb, res0, rb, handle),
    ensures
        stepping_reads ==> lifetime_loop_inv(nodes, reads, kb + 1, writes, 0, res0, ra, handle),
        !stepping_reads ==> lifetime_loop_inv(nodes, reads, ka, writes, kb + 1, res0, ra, handle),
{
    let ka1 = if stepping_reads { kb + 1 } else { ka };
    let kb0 = if stepping_reads { 0int } else { kb };
    let kb1 = if stepping_reads { 0int } else { kb + 1 };
    let ka0 = if stepping_reads { kb } else { ka };
    assert forall|ri: int|
        0 <= ri < res0.len() && touched_two(nodes, reads, ka1, writes, kb1, ri) implies ((
    #[trigger] ra[ri]).info.first_pass_node_handle == (
    if res0[ri].info.first_pass_node_handle is None {
        Some(handle)
    } else {
        res0[ri].info.first_pass_node_handle
    }) && ra[ri].info.last_pass_node_handle == Some(handle) && ra[ri].state == res0[ri].state
        && ra[ri].info.name == res0[ri].info.name && ra[ri].info.handle == res0[ri].info.handle
        && ra[ri].info.spec_version() == res0[ri].info.spec_version()) by {
        if ri != ridx {
            assert(ra[ri] == rb[ri]);
            assert(touched_two(nodes, reads, ka0, writes, kb0, ri)) by {
                let q = choose|q: int|
                    (0 <= q < ka1 && q < reads.len() && nodes[(
                    #[trigger] reads[q]).index as int].resource_handle.index == ri) || (0 <= q < kb1
                        && q < writes.len() && nodes[(
                    #[trigger] writes[q]).index as int].resource_handle.index == ri);
                if touched_by_prefix(nodes, reads, ka1, ri) {
                    let qa = choose|qa: int|
                        0 <= qa < ka1 && qa < reads.len() && nodes[(
                        #[trigger] reads[qa]).index as int].resource_handle.index == ri;
                    if stepping_reads && qa == kb {
                        assert(false);
                    } else {
                        assert(touched_by_prefix(nodes, reads, ka0, ri));
                    }
                } else {
                    let qb = choose|qb: int|
                        0 <= qb < kb1 && qb < writes.len() && nodes[(
                        #[trigger] writes[qb]).index as int].resource_handle.index == ri;
                    if !stepping_reads && qb == kb {
                        assert(false);
                    } else {
                        assert(touched_by_prefix(nodes, writes, kb0, ri));
                    }
                }
            }
        } else {
            if touched_two(nodes, reads, ka0, writes, kb0, ri) {
            } else {
                assert(rb[ri] == res0[ri]);
            }
        }
    }
    assert forall|ri: int|
        0 <= ri < res0.len() && !touched_two(nodes, reads, ka1, writes, kb1, ri) implies (
    #[trigger] ra[ri]) == res0[ri] by {
        if stepping_reads {
            assert(nodes[reads[kb].index as int].resource_handle.index == ridx);
            assert(touched_by_prefix(nodes, reads, ka1, ridx));
        } else {
            assert(nodes[writes[kb].index as int].resource_handle.index == ridx);
            assert(touched_by_prefix(nodes, writes, kb1, ridx));
        }
        assert(ri != ridx);
        assert(ra[ri] == rb[ri]);
        assert(!touched_two(nodes, reads, ka0, writes, kb0, ri)) by {
            if touched_by_prefix(nodes, reads, ka0, ri) {
                let qa = choose|qa: int|
                    0 <= qa < ka0 && qa < reads.len() && nodes[(
                    #[trigger] reads[qa]).index as int].resource_handle.index == ri;
                assert(touched_by_prefix(nodes, reads, ka1, ri));
            } else if touched_by_prefix(nodes, writes, kb0, ri) {
                let qb = choose|qb: int|
                    0 <= qb < kb0 && qb < writes.len() && nodes[(
                    #[trigger] writes[qb]).index as int].resource_handle.index == ri;
                assert(touched_by_prefix(nodes, writes, kb1, ri));
            }
        }
    }
}

/// The resources (by index) whose computed first pass is pass `i`, in
/// index order; these are acquired when pass `i` opens.
pub open spec fn requests_in(res: Seq<VirtualResource>, i: int) -> Seq<Handle>
    decreases res.len(),
{
    if res.len() == 0 {
        Seq::empty()
    } else {
        let prefix = requests_in(res.drop_last(), i);
        if (res.last().info.first_pass_node_handle matches Some(h) && h.index == i)
            && res.last().info.last_pass_node_handle is Some {
            prefix.push(Handle { index: (res.len() - 1) as usize })
        } else {
            prefix
        }
    }
}

/// The resources (by index) whose computed last pass is pass `i`, in index
/// order; these are released when pass `i` closes.
pub open spec fn releases_in(res: Seq<VirtualResource>, i: int) -> Seq<Handle>
    decreases res.len(),
{
    if res.len() == 0 {
        Seq::empty()
    } else {
        let prefix = releases_in(res.drop_last(), i);
        if (res.last().info.last_pass_node_handle matches Some(h) && h.index == i)
            && res.last().info.first_pass_node_handle is Some {
            prefix.push(Handle { index: (res.len() - 1) as usize })
        } else {
            prefix
        }
    }
}

/// Only the request and release arrays may differ.
pub open spec fn pass_eq_except_arrays(p: PassNode, q: PassNode) -> bool {
    &&& q.insert_point == p.insert_point
    &&& q.name == p.name
    &&& q.handle == p.handle
    &&& q.writes == p.writes
    &&& q.reads == p.reads
    &&& q.side_effect == p.side_effect
    &&& q.ref_count == p.ref_count
}

/// Per-frame directed acyclic graph of render passes and the resources they
/// produce and consume.
pub struct FrameGraph {
    /// Declared passes, in declaration order; a pass's handle is its index.
    pub pass_nodes: Vec<PassNode>,
    /// One node per (resource, version) pair the graph references.
    pub resource_nodes: Vec<ResourceNode>,
    /// The virtual resources; a resource's handle is its index.
    pub resources: Vec<VirtualResource>,
    /// Execution order of `pass_nodes` computed by `sort`.
    pub pass_order: Vec<usize>,
    /// The device passes `compile` produced, until `execute` takes them.
    pub device_passes: Option<Vec<DevicePass>>,
}

impl FrameGraph {
    /// Entity well-formedness: handles index their arrays, every node's
    /// version counts the earlier views of its resource, a resource's
    /// version counts all its views but the initial one, and exactly the
    /// non-initial views have a writing pass.
    pub open spec fn wf_entities(self) -> bool {
        &&& forall|i: int|
            0 <= i < self.resources@.len() ==> (#[trigger] self.resources@[i]).info.handle.index
                == i
        &&& forall|j: int|
            0 <= j < self.resource_nodes@.len() ==> (#[trigger] self.resource_nodes@[j]).handle.index
                == j
        &&& forall|j: int|
            0 <= j < self.resource_nodes@.len() ==> (
            #[trigger] self.resource_nodes@[j]).resource_handle.index < self.resources@.len()
        &&& forall|j: int|
            0 <= j < self.resource_nodes@.len() ==> (#[trigger] self.resource_nodes@[j]).version
                == count_nodes_of(
                self.resource_nodes@.take(j),
                self.resource_nodes@[j].resource_handle.index as int,
            )
        &&& forall|i: int|
            0 <= i < self.resources@.len() ==> count_nodes_of(self.resource_nodes@, i) == (
            #[trigger] self.resources@[i]).info.spec_version() + 1
        &&& forall|j: int|
            0 <= j < self.resource_nodes@.len() ==> ((
            #[trigger] self.resource_nodes@[j]).pass_node_writer_handle is None
                <==> self.resource_nodes@[j].version == 0)
    }

    /// Every written node's writer refers to a pass below `bound`.
    pub open spec fn writers_bounded(self, bound: int) -> bool {
        forall|j: int|
            0 <= j < self.resource_nodes@.len() ==> ((
            #[trigger] self.resource_nodes@[j]).pass_node_writer_handle matches Some(w)
                ==> w.index < bound)
    }

    /// Well-formedness of one pass against this graph's entities.
    pub open spec fn wf_pass(self, p: PassNode) -> bool {
        &&& forall|k: int|
            0 <= k < p.reads@.len() ==> (#[trigger] p.reads@[k]).index
                < self.resource_nodes@.len()
        &&& p.reads@.no_duplicates()
        &&& forall|k: int|
            0 <= k < p.reads@.len() ==> (self.resource_nodes@[(
            #[trigger] p.reads@[k]).index as int].pass_node_writer_handle matches Some(w)
                ==> w.index < p.handle.index)
        &&& forall|k: int|
            0 <= k < p.writes@.len() ==> (#[trigger] p.writes@[k]).index
                < self.resource_nodes@.len()
        &&& forall|k: int|
            0 <= k < p.writes@.len() ==> self.resource_nodes@[(
            #[trigger] p.writes@[k]).index as int].pass_node_writer_handle == Some(p.handle)
        &&& p.writes@.no_duplicates()
    }

    /// Every written node is listed in its writing pass's write set.
    pub open spec fn writer_covered(self) -> bool {
        forall|j: int|
            0 <= j < self.resource_nodes@.len() ==> match (
            #[trigger] self.resource_nodes@[j]).pass_node_writer_handle {
                Some(w) => (w.index as int) < self.pass_nodes@.len() ==> self.pass_nodes@[
                    w.index as int
                ].writes@.contains(self.resource_nodes@[j].handle),
                None => true,
            }
    }

    /// Well-formedness of the graph while passes are being declared.
    pub open spec fn wf_building(self) -> bool {
        &&& self.wf_entities()
        &&& self.writers_bounded(self.pass_nodes@.len() as int)
        &&& forall|i: int|
            0 <= i < self.pass_nodes@.len() ==> (#[trigger] self.pass_nodes@[i]).handle.index == i
        &&& forall|i: int| 0 <= i < self.pass_nodes@.len() ==> self.wf_pass(#[trigger] self.pass_nodes@[i])
        &&& self.writer_covered()
    }

    pub fn new() -> (r: FrameGraph)
        ensures
            r.wf_building(),
            r.pass_nodes@.len() == 0,
            r.resource_nodes@.len() == 0,
            r.resources@.len() == 0,
            r.pass_order@.len() == 0,
            r.device_passes is None,
    {
        FrameGraph {
            pass_nodes: Vec::new(),
            resource_nodes: Vec::new(),
            resources: Vec::new(),
            pass_order: Vec::new(),
            device_passes: None,
        }
    }

    /// Clear the graph for the next frame.
    pub fn reset(&mut self)
        ensures
            final(self).wf_building(),
            final(self).pass_nodes@.len() == 0,
            final(self).resource_nodes@.len() == 0,
            final(self).resources@.len() == 0,
            final(self).pass_order@.len() == 0,
            final(self).device_passes is None,
    {
        *self = FrameGraph::new();
    }

    /// The handle the next declared pass will carry.
    pub fn get_current_pass_node_handle(&self) -> (r: TypeHandle<PassNode>)
        ensures
            r.spec_index() == self.pass_nodes@.len(),
    {
        TypeHandle::new(self.pass_nodes.len())
    }

    pub fn get_pass_node(&self, handle: &TypeHandle<PassNode>) -> (r: &PassNode)
        requires
            handle.spec_index() < self.pass_nodes@.len(),
        ensures
            *r == self.pass_nodes@[handle.spec_index() as int],
    {
        &self.pass_nodes[handle.index()]
    }

    pub fn get_pass_node_mut(&mut self, handle: &TypeHandle<PassNode>) -> (r: &mut PassNode)
        requires
            handle.spec_index() < old(self).pass_nodes@.len(),
        ensures
            *r == old(self).pass_nodes@[handle.spec_index() as int],
            final(self).pass_nodes@ == old(self).pass_nodes@.update(
                handle.spec_index() as int,
                *final(r),
            ),
            final(self).resource_nodes == old(self).resource_nodes,
            final(self).resources == old(self).resources,
            final(self).pass_order == old(self).pass_order,
            final(self).device_passes == old(self).device_passes,
    {
        &mut self.pass_nodes[handle.index()]
    }

    pub fn get_resource_node(&self, handle: &TypeHandle<ResourceNode>) -> (r: &ResourceNode)
        requires
            handle.spec_index() < self.resource_nodes@.len(),
        ensures
            *r == self.resource_nodes@[handle.spec_index() as int],
    {
        &self.resource_nodes[handle.index()]
    }

    pub fn get_resource_node_mut(&mut self, handle: &TypeHandle<ResourceNode>) -> (r: &mut ResourceNode)
        requires
            handle.spec_index() < old(self).resource_nodes@.len(),
        ensures
            *r == old(self).resource_nodes@[handle.spec_index() as int],
            final(self).resource_nodes@ == old(self).resource_nodes@.update(
                handle.spec_index() as int,
                *final(r),
            ),
            final(self).pass_nodes == old(self).pass_nodes,
            final(self).resources == old(self).resources,
            final(self).pass_order == old(self).pass_order,
            final(self).device_passes == old(self).device_passes,
    {
        &mut self.resource_nodes[handle.index()]
    }

    pub fn get_resource(&self, handle: &TypeHandle<VirtualResource>) -> (r: &VirtualResource)
        requires
            handle.spec_index() < self.resources@.len(),
        ensures
            *r == self.resources@[handle.spec_index() as int],
    {
        &self.resources[handle.index()]
    }

    pub fn get_resource_mut(&mut self, handle: &TypeHandle<VirtualResource>) -> (r: &mut VirtualResource)
        requires
            handle.spec_index() < old(self).resources@.len(),
        ensures
            *r == old(self).resources@[handle.spec_index() as int],
            final(self).resources@ == old(self).resources@.update(
                handle.spec_index() as int,
                *final(r),
            ),
            final(self).pass_nodes == old(self).pass_nodes,
            final(self).resource_nodes == old(self).resource_nodes,
            final(self).pass_order == old(self).pass_order,
            final(self).device_passes == old(self).device_passes,
    {
        &mut self.resources[handle.index()]
    }

    /// Append a resource node capturing `resource_info`'s current version.
    pub fn create_resource_node(&mut self, resource_info: ResourceInfo) -> (r: TypeHandle<ResourceNode>)
        ensures
            r.spec_index() == old(self).resource_nodes@.len(),
            final(self).resource_nodes@.len() == old(self).resource_nodes@.len() + 1,
            final(self).resource_nodes@ == old(self).resource_nodes@.push(
                final(self).resource_nodes@.last(),
            ),
            final(self).resource_nodes@.last().handle.index == old(self).resource_nodes@.len(),
            final(self).resource_nodes@.last().resource_handle == resource_info.handle,
            final(self).resource_nodes@.last().version == resource_info.spec_version(),
            final(self).resource_nodes@.last().pass_node_writer_handle is None,
            final(self).resource_nodes@.last().reader_count == 0,
            final(self).pass_nodes == old(self).pass_nodes,
            final(self).resources == old(self).resources,
            final(self).pass_order == old(self).pass_order,
            final(self).device_passes == old(self).device_passes,
    {
        let resource_handle = resource_info.handle;
        let version = resource_info.version();

        let handle: TypeHandle<ResourceNode> = TypeHandle::new(self.resource_nodes.len());

        self.resource_nodes.push(
            ResourceNode::new(handle, TypeHandle::new(resource_handle.index), version),
        );

        handle
    }

    /// Declare a fresh transient resource and its initial (version 0) node.
    pub fn create<DescriptorType: FGResourceDescriptor>(
        &mut self,
        name: &str,
        desc: DescriptorType,
    ) -> (r: ResourceNodeHandle<DescriptorType::Resource>)
        requires
            old(self).wf_entities(),
        ensures
            final(self).wf_entities(),
            forall|b: int| old(self).writers_bounded(b) ==> final(self).writers_bounded(b),
            final(self).pass_nodes == old(self).pass_nodes,
            final(self).resources@.len() == old(self).resources@.len() + 1,
            final(self).resource_nodes@.len() == old(self).resource_nodes@.len() + 1,
            r.spec_resource_handle().spec_index() == old(self).resources@.len(),
            r.spec_resource_node_handle().spec_index() == old(self).resource_nodes@.len(),
            final(self).resources@ == old(self).resources@.push(final(self).resources@.last()),
            final(self).resources@.last().info.name@ == name@,
            final(self).resources@.last().info.spec_version() == 0,
            final(self).resources@.last().info.first_pass_node_handle is None,
            final(self).resources@.last().info.last_pass_node_handle is None,
            final(self).resources@.last().state == crate::resource::VirtualResourceState::Setup(
                desc.any_spec(),
            ),
            final(self).resource_nodes@ == old(self).resource_nodes@.push(
                final(self).resource_nodes@.last(),
            ),
            final(self).resource_nodes@.last().version == 0,
            final(self).resource_nodes@.last().resource_handle.index == old(self).resources@.len(),
            final(self).resource_nodes@.last().pass_node_writer_handle is None,
            final(self).pass_order == old(self).pass_order,
            final(self).device_passes == old(self).device_passes,
    {
        let ghost old_nodes = self.resource_nodes@;
        let ghost old_resources = self.resources@;

        let resource_handle: TypeHandle<VirtualResource> = TypeHandle::new(self.resources.len());

        let resource: VirtualResource = VirtualResource::setup(
            name,
            resource_handle,
            desc,
        );

        let resource_info = resource.info.clone();
        self.resources.push(resource);

        let handle = self.create_resource_node(resource_info);

        proof {
            let nodes = self.resource_nodes@;
            let ri = old_resources.len() as int;
            let n = nodes.last();
            assert(nodes =~~= old_nodes.push(n));
            lemma_count_nodes_push(old_nodes, ri, n);
            assert forall|j: int|
                0 <= j < old_nodes.len() implies (#[trigger] old_nodes[j]).resource_handle.index
                != ri by {}
            lemma_count_nodes_none(old_nodes, ri);
            assert(count_nodes_of(nodes, ri) == 1);
            assert forall|i: int|
                0 <= i < self.resources@.len() implies count_nodes_of(nodes, i) == (
            #[trigger] self.resources@[i]).info.spec_version() + 1 by {
                lemma_count_nodes_push(old_nodes, i, n);
                if i < ri {
                    assert(self.resources@[i] == old_resources[i]);
                }
            }
            assert forall|j: int|
                0 <= j < nodes.len() implies (#[trigger] nodes[j]).version == count_nodes_of(
                nodes.take(j),
                nodes[j].resource_handle.index as int,
            ) by {
                if j < old_nodes.len() {
                    assert(nodes[j] == old_nodes[j]);
                    assert(nodes.take(j) =~~= old_nodes.take(j));
                } else {
                    assert(nodes.take(j) =~~= old_nodes);
                    lemma_count_nodes_none(old_nodes, ri);
                }
            }
            assert(self.wf_entities());
        }

        ResourceNodeHandle::new(handle, resource_handle)
    }

    /// Whether the graphs differ only in pass reference counts and node
    /// reader counts — all culling is allowed to change.
    pub open spec fn eq_except_counts(self, other: FrameGraph) -> bool {
        &&& other.pass_nodes@.len() == self.pass_nodes@.len()
        &&& forall|i: int|
            0 <= i < self.pass_nodes@.len() ==> pass_eq_except_ref(
                #[trigger] self.pass_nodes@[i],
                other.pass_nodes@[i],
            )
        &&& other.resource_nodes@.len() == self.resource_nodes@.len()
        &&& forall|j: int|
            0 <= j < self.resource_nodes@.len() ==> node_eq_except_reader(
                #[trigger] self.resource_nodes@[j],
                other.resource_nodes@[j],
            )
        &&& other.resources == self.resources
        &&& other.pass_order == self.pass_order
        &&& other.device_passes == self.device_passes
    }

    /// Cull dead work: seed reference counts from writes and side effects,
    /// count readers per resource node, then drain: an unread node retires
    /// its writer's reference; a pass that loses its last reference retires
    /// its reads in turn.
    ///
    /// The postconditions carry cull soundness: a side-effect pass always
    /// survives; a culled pass wrote only nodes that end with no surviving
    /// reader; and a surviving pass without a side effect has some written
    /// node a surviving reader still wants.
    pub fn cull(&mut self)
        requires
            old(self).wf_building(),
        ensures
            final(self).wf_building(),
            old(self).eq_except_counts(*final(self)),
            forall|i: int|
                0 <= i < final(self).pass_nodes@.len() && (
                #[trigger] final(self).pass_nodes@[i]).side_effect && final(self).pass_nodes@[
                    i
                ].writes@.len() < usize::MAX ==> final(self).pass_nodes@[i].ref_count > 0,
            forall|i: int|
                0 <= i < final(self).pass_nodes@.len() && !(
                #[trigger] final(self).pass_nodes@[i]).side_effect && final(self).pass_nodes@[
                    i
                ].ref_count == 0 ==> forall|k: int|
                    0 <= k < final(self).pass_nodes@[i].writes@.len() ==> final(self).resource_nodes@[(
                    #[trigger] final(self).pass_nodes@[i].writes@[k]).index as int].reader_count
                        == 0,
            forall|i: int|
                0 <= i < final(self).pass_nodes@.len() && !(
                #[trigger] final(self).pass_nodes@[i]).side_effect && final(self).pass_nodes@[
                    i
                ].ref_count > 0 ==> exists|k: int|
                    0 <= k < final(self).pass_nodes@[i].writes@.len() && final(self).resource_nodes@[(
                    #[trigger] final(self).pass_nodes@[i].writes@[k]).index as int].reader_count
                        > 0,
    {
        let n = self.pass_nodes.len();
        let m = self.resource_nodes.len();

        let mut i: usize = 0;
        while i < n
            invariant
                i <= n,
                n == self.pass_nodes@.len(),
                m == self.resource_nodes@.len(),
                old(self).wf_building(),
                old(self).eq_except_counts(*self),
                forall|p: int|
                    0 <= p < i ==> (#[trigger] self.pass_nodes@[p]).ref_count as int
                        == init_ref_count(self.pass_nodes@[p]),
            decreases n - i,
        {
            let ghost passes0 = self.pass_nodes@;
            let w = self.pass_nodes[i].writes.len();
            let side = self.pass_nodes[i].side_effect;
            let rc: usize = if side {
                if w < usize::MAX {
                    w + 1
                } else {
                    w
                }
            } else {
                w
            };
            let p = &mut self.pass_nodes[i];
            p.ref_count = rc;
            proof {
                assert(self.pass_nodes@ == passes0.update(i as int, self.pass_nodes@[i as int]));
            }
            i = i + 1;
        }

        let mut j: usize = 0;
        while j < m
            invariant
                j <= m,
                n == self.pass_nodes@.len(),
                m == self.resource_nodes@.len(),
                old(self).wf_building(),
                old(self).eq_except_counts(*self),
                forall|p: int|
                    0 <= p < n ==> (#[trigger] self.pass_nodes@[p]).ref_count as int
                        == init_ref_count(self.pass_nodes@[p]),
            decreases m - j,
        {
            let ghost nodes0 = self.resource_nodes@;
            let node = &mut self.resource_nodes[j];
            node.reader_count = 0;
            proof {
                assert(self.resource_nodes@ == nodes0.update(j as int, self.resource_nodes@[
                    j as int
                ]));
            }
            j = j + 1;
        }

        i = 0;
        while i < n
            invariant
                i <= n,
                n == self.pass_nodes@.len(),
                m == self.resource_nodes@.len(),
                old(self).wf_building(),
                old(self).eq_except_counts(*self),
                forall|p: int|
                    0 <= p < n ==> (#[trigger] self.pass_nodes@[p]).ref_count as int
                        == init_ref_count(self.pass_nodes@[p]),
            decreases n - i,
        {
            let reads_len = self.pass_nodes[i].reads.len();
            let mut k: usize = 0;
            while k < reads_len
                invariant
                    k <= reads_len,
                    i < n,
                    n == self.pass_nodes@.len(),
                    m == self.resource_nodes@.len(),
                    reads_len == self.pass_nodes@[i as int].reads@.len(),
                    old(self).wf_building(),
                    old(self).eq_except_counts(*self),
                    forall|p: int|
                        0 <= p < n ==> (#[trigger] self.pass_nodes@[p]).ref_count as int
                            == init_ref_count(self.pass_nodes@[p]),
                decreases reads_len - k,
            {
                let h = self.pass_nodes[i].reads[k];
                proof {
                    assert(pass_eq_except_ref(
                        old(self).pass_nodes@[i as int],
                        self.pass_nodes@[i as int],
                    ));
                    assert(old(self).wf_pass(old(self).pass_nodes@[i as int]));
                    assert(old(self).pass_nodes@[i as int].reads@[k as int].index < m);
                }
                let ghost nodes0 = self.resource_nodes@;
                let node = &mut self.resource_nodes[h.index];
                let rc = node.reader_count;
                if rc < usize::MAX {
                    node.reader_count = rc + 1;
                }
                proof {
                    assert(self.resource_nodes@ == nodes0.update(
                        h.index as int,
                        self.resource_nodes@[h.index as int],
                    ));
                }
                k = k + 1;
            }
            i = i + 1;
        }

        let mut stack: Vec<usize> = Vec::new();
        let ghost mut marks: Seq<bool> = Seq::new(m as nat, |q: int| false);
        j = 0;
        while j < m
            invariant
                j <= m,
                n == self.pass_nodes@.len(),
                m == self.resource_nodes@.len(),
                old(self).wf_building(),
                old(self).eq_except_counts(*self),
                forall|p: int|
                    0 <= p < n ==> (#[trigger] self.pass_nodes@[p]).ref_count as int
                        == init_ref_count(self.pass_nodes@[p]),
                marks.len() == m,
                forall|q: int| 0 <= q < m ==> !marks[q],
                cull_stack_ok(self.resource_nodes@, stack@, marks),
                forall|e: int| 0 <= e < stack@.len() ==> ((#[trigger] stack@[e]) as int) < j,
                forall|q: usize|
                    (q as int) < j ==> ((self.resource_nodes@[q as int].reader_count == 0
                        && self.resource_nodes@[q as int].pass_node_writer_handle is Some) <==> (
                    #[trigger] marks[q as int] || stack@.contains(q))),
            decreases m - j,
        {
            if self.resource_nodes[j].reader_count == 0 && self.resource_nodes[
                j
            ].pass_node_writer_handle.is_some() {
                let ghost stack0 = stack@;
                stack.push(j);
                proof {
                    assert(stack@.last() == j);
                    assert(!stack0.contains(j)) by {
                        if stack0.contains(j) {
                            let e = choose|e: int| 0 <= e < stack0.len() && stack0[e] == j;
                            assert((stack0[e] as int) < j);
                        }
                    }
                    assert(stack@.no_duplicates()) by {
                        assert forall|a: int, b: int|
                            0 <= a < stack@.len() && 0 <= b < stack@.len() && a != b implies stack@[
                            a
                        ] != stack@[b] by {
                            if a < stack0.len() && b < stack0.len() {
                                assert(stack@[a] == stack0[a]);
                                assert(stack@[b] == stack0[b]);
                            } else if a == stack0.len() {
                                assert(stack@[b] == stack0[b]);
                            } else {
                                assert(stack@[a] == stack0[a]);
                            }
                        }
                    }
                    assert forall|q: usize|
                        (q as int) < j + 1 implies ((self.resource_nodes@[q as int].reader_count
                            == 0 && self.resource_nodes@[q as int].pass_node_writer_handle is Some)
                        <==> (#[trigger] marks[q as int] || stack@.contains(q))) by {
                        if q == j {
                            assert(stack@.contains(q));
                        } else {
                            if stack0.contains(q) {
                                let e = choose|e: int| 0 <= e < stack0.len() && stack0[e] == q;
                                assert(stack@[e] == q);
                            }
                            if stack@.contains(q) {
                                let e = choose|e: int| 0 <= e < stack@.len() && stack@[e] == q;
                                if e < stack0.len() {
                                    assert(stack0[e] == q);
                                } else {
                                    assert(stack@[e] == j);
                                }
                            }
                        }
                    }
                }
            } else {
                proof {
                    assert forall|q: usize|
                        (q as int) < j + 1 implies ((self.resource_nodes@[q as int].reader_count
                            == 0 && self.resource_nodes@[q as int].pass_node_writer_handle is Some)
                        <==> (#[trigger] marks[q as int] || stack@.contains(q))) by {
                        if q == j {
                            if stack@.contains(q) {
                                let e = choose|e: int| 0 <= e < stack@.len() && stack@[e] == q;
                                assert((stack@[e] as int) < j);
                            }
                        }
                    }
                }
            }
            j = j + 1;
        }

        proof {
            assert forall|p: int|
                0 <= p < n implies (#[trigger] self.pass_nodes@[p]).ref_count as int
                == init_ref_count(self.pass_nodes@[p]) - count_marked_entries(
                self.pass_nodes@[p].writes@,
                marks,
            ) by {
                lemma_cme_zero(self.pass_nodes@[p].writes@, marks);
            }
            assert(cull_frontier_ok(self.resource_nodes@, stack@, marks));
        }

        while stack.len() > 0
            invariant
                n == self.pass_nodes@.len(),
                m == self.resource_nodes@.len(),
                m <= usize::MAX,
                old(self).wf_building(),
                old(self).eq_except_counts(*self),
                marks.len() == m,
                cull_stack_ok(self.resource_nodes@, stack@, marks),
                cull_frontier_ok(self.resource_nodes@, stack@, marks),
                cull_counts_ok(self.pass_nodes@, marks),
            decreases sum_ref_counts(self.pass_nodes@) + sum_reader_counts(self.resource_nodes@)
                + stack@.len(),
        {
            let ghost pot0 = sum_ref_counts(self.pass_nodes@) + sum_reader_counts(
                self.resource_nodes@,
            ) + stack@.len();
            proof {
                lemma_sum_ref_counts_nonneg(self.pass_nodes@);
                lemma_sum_reader_counts_nonneg(self.resource_nodes@);
            }
            let ghost stack_before = stack@;
            let node_idx = match stack.pop() {
                Some(idx) => idx,
                None => {
                    return ;
                },
            };

            let writer_opt = self.resource_nodes[node_idx].pass_node_writer_handle;
            let ghost marks0 = marks;
            proof {
                marks = marks.update(node_idx as int, true);
                assert(stack@ =~~= stack_before.drop_last());
                lemma_cull_pop(
                    self.resource_nodes@,
                    stack_before,
                    stack@,
                    marks0,
                    marks,
                    node_idx,
                );
            }

            let w = match writer_opt {
                Some(w) => w,
                None => {
                    proof {
                        assert(false);
                    }
                    return ;
                },
            };
            proof {
                assert(node_eq_except_reader(
                    old(self).resource_nodes@[node_idx as int],
                    self.resource_nodes@[node_idx as int],
                ));
                assert(old(self).writers_bounded(n as int));
                assert((w.index as int) < n);
            }
            let writes_len = self.pass_nodes[w.index].writes.len();
            proof {
                lemma_cull_count_pop(
                    *old(self),
                    self.pass_nodes@,
                    marks0,
                    marks,
                    node_idx,
                    w,
                );
            }

            let ghost passes0 = self.pass_nodes@;
            let pass_ref = &mut self.pass_nodes[w.index];
            let was = pass_ref.ref_count;
            pass_ref.ref_count = was - 1;
            proof {
                assert(self.pass_nodes@ == passes0.update(
                    w.index as int,
                    self.pass_nodes@[w.index as int],
                ));
                lemma_sum_ref_counts_update(passes0, w.index as int, self.pass_nodes@[
                    w.index as int
                ]);
                lemma_cull_counts_decrement(
                    passes0,
                    self.pass_nodes@,
                    marks0,
                    marks,
                    w.index as int,
                );
            }

            if was == 1 {
                let ghost inner0 = sum_reader_counts(self.resource_nodes@) + stack@.len();
                let reads_len = self.pass_nodes[w.index].reads.len();
                let mut k: usize = 0;
                while k < reads_len
                    invariant
                        k <= reads_len,
                        n == self.pass_nodes@.len(),
                        m == self.resource_nodes@.len(),
                        m <= usize::MAX,
                        ((w.index as int) < n),
                        reads_len == self.pass_nodes@[w.index as int].reads@.len(),
                        old(self).wf_building(),
                        old(self).eq_except_counts(*self),
                        marks.len() == m,
                        cull_stack_ok(self.resource_nodes@, stack@, marks),
                        cull_frontier_ok(self.resource_nodes@, stack@, marks),
                        cull_counts_ok(self.pass_nodes@, marks),
                        sum_reader_counts(self.resource_nodes@) + stack@.len() <= inner0,
                        sum_ref_counts(self.pass_nodes@) == sum_ref_counts(passes0) - 1,
                        self.pass_nodes@ == passes0.update(
                            w.index as int,
                            self.pass_nodes@[w.index as int],
                        ),
                    decreases reads_len - k,
                {
                    let h = self.pass_nodes[w.index].reads[k];
                    proof {
                        assert(pass_eq_except_ref(
                            old(self).pass_nodes@[w.index as int],
                            self.pass_nodes@[w.index as int],
                        ));
                        assert(old(self).wf_pass(old(self).pass_nodes@[w.index as int]));
                        assert(old(self).pass_nodes@[w.index as int].reads@[k as int].index < m);
                    }
                    let ghost nodes0 = self.resource_nodes@;
                    let ghost stack1 = stack@;
                    let node = &mut self.resource_nodes[h.index];
                    let rc = node.reader_count;
                    let has_writer = node.pass_node_writer_handle.is_some();
                    if rc > 0 {
                        node.reader_count = rc - 1;
                    }
                    proof {
                        assert(self.resource_nodes@ == nodes0.update(
                            h.index as int,
                            self.resource_nodes@[h.index as int],
                        ));
                        lemma_sum_reader_counts_update(nodes0, h.index as int, self.resource_nodes@[
                            h.index as int
                        ]);
                    }
                    if rc == 1 && has_writer {
                        stack.push(h.index);
                        proof {
                            lemma_cull_push(
                                nodes0,
                                self.resource_nodes@,
                                stack1,
                                stack@,
                                marks,
                                h.index,
                            );
                        }
                    } else {
                        proof {
                            lemma_cull_read_step(
                                nodes0,
                                self.resource_nodes@,
                                stack@,
                                marks,
                                h.index,
                            );
                        }
                    }
                    k = k + 1;
                }
            }
            proof {
                lemma_sum_ref_counts_nonneg(self.pass_nodes@);
                lemma_sum_reader_counts_nonneg(self.resource_nodes@);
                assert(sum_ref_counts(self.pass_nodes@) + sum_reader_counts(self.resource_nodes@)
                    + stack@.len() < pot0);
            }
        }

        proof {
            lemma_wf_building_counts(*old(self), *self);
            // With the stack drained, the retirement frontier is exactly
            // the marked nodes, and the count accounting yields the three
            // soundness facts.
            assert forall|i: int|
                0 <= i < self.pass_nodes@.len() && (#[trigger] self.pass_nodes@[i]).side_effect
                    && self.pass_nodes@[i].writes@.len() < usize::MAX implies self.pass_nodes@[
                i
            ].ref_count > 0 by {
                lemma_cme_le_len(self.pass_nodes@[i].writes@, marks);
            }
            assert forall|i: int|
                0 <= i < self.pass_nodes@.len() && !(#[trigger] self.pass_nodes@[i]).side_effect
                    && self.pass_nodes@[i].ref_count == 0 implies forall|k: int|
                0 <= k < self.pass_nodes@[i].writes@.len() ==> self.resource_nodes@[(
            #[trigger] self.pass_nodes@[i].writes@[k]).index as int].reader_count == 0 by {
                lemma_cme_le_len(self.pass_nodes@[i].writes@, marks);
                assert(count_marked_entries(self.pass_nodes@[i].writes@, marks)
                    == self.pass_nodes@[i].writes@.len());
                lemma_cme_full(self.pass_nodes@[i].writes@, marks);
                assert forall|k: int|
                    0 <= k < self.pass_nodes@[i].writes@.len() implies self.resource_nodes@[(
                #[trigger] self.pass_nodes@[i].writes@[k]).index as int].reader_count == 0 by {
                    let q = self.pass_nodes@[i].writes@[k].index;
                    assert(marks[q as int]);
                    assert((self.resource_nodes@[q as int].reader_count == 0
                        && self.resource_nodes@[q as int].pass_node_writer_handle is Some) <==> (
                    marks[q as int] || stack@.contains(q)));
                }
            }
            assert forall|i: int|
                0 <= i < self.pass_nodes@.len() && !(#[trigger] self.pass_nodes@[i]).side_effect
                    && self.pass_nodes@[i].ref_count > 0 implies exists|k: int|
                0 <= k < self.pass_nodes@[i].writes@.len() && self.resource_nodes@[(
            #[trigger] self.pass_nodes@[i].writes@[k]).index as int].reader_count > 0 by {
                assert(count_marked_entries(self.pass_nodes@[i].writes@, marks)
                    < self.pass_nodes@[i].writes@.len());
                if forall|k: int|
                    0 <= k < self.pass_nodes@[i].writes@.len() ==> ((
                    #[trigger] self.pass_nodes@[i].writes@[k]).index as int) < marks.len() && marks[
                        self.pass_nodes@[i].writes@[k].index as int
                    ] {
                    lemma_cme_all_marked(self.pass_nodes@[i].writes@, marks);
                    assert(false);
                }
                let k = choose|k: int|
                    !(0 <= k < self.pass_nodes@[i].writes@.len() ==> ((
                    #[trigger] self.pass_nodes@[i].writes@[k]).index as int) < marks.len() && marks[
                        self.pass_nodes@[i].writes@[k].index as int
                    ]);
                assert(old(self).wf_pass(old(self).pass_nodes@[i]));
                assert(pass_eq_except_ref(old(self).pass_nodes@[i], self.pass_nodes@[i]));
                assert((self.pass_nodes@[i].writes@[k].index as int) < m);
                assert(!marks[self.pass_nodes@[i].writes@[k].index as int]);
                let q = self.pass_nodes@[i].writes@[k].index;
                assert(old(self).resource_nodes@[q as int].pass_node_writer_handle == Some(
                    old(self).pass_nodes@[i].handle,
                ));
                assert(node_eq_except_reader(
                    old(self).resource_nodes@[q as int],
                    self.resource_nodes@[q as int],
                ));
                assert(self.resource_nodes@[q as int].pass_node_writer_handle is Some);
                assert((self.resource_nodes@[q as int].reader_count == 0
                    && self.resource_nodes@[q as int].pass_node_writer_handle is Some) <==> (marks[
                    q as int
                ] || stack@.contains(q)));
                assert(!stack@.contains(q));
                assert(self.resource_nodes@[q as int].reader_count != 0);
            }
        }
    }

    /// Execution precedes: pass `a` runs no later than pass `b` when its
    /// insertion point is smaller, or equal with `a` declared first.
    pub open spec fn lex_le(self, a: int, b: int) -> bool {
        self.pass_nodes@[a].insert_point < self.pass_nodes@[b].insert_point
            || (self.pass_nodes@[a].insert_point == self.pass_nodes@[b].insert_point && a <= b)
    }

    /// The order `sort` computes: a permutation of the declared passes,
    /// sorted by insertion point with declaration order breaking ties.
    pub open spec fn order_sorted(self) -> bool {
        &&& self.pass_order@.len() == self.pass_nodes@.len()
        &&& forall|j: int|
            0 <= j < self.pass_order@.len() ==> ((#[trigger] self.pass_order@[j]) as int)
                < self.pass_nodes@.len()
        &&& forall|a: int, b: int|
            0 <= a < b < self.pass_order@.len() ==> self.lex_le(
                self.pass_order@[a] as int,
                self.pass_order@[b] as int,
            )
        &&& forall|k: int|
            0 <= k < self.pass_nodes@.len() ==> self.pass_order@.contains(#[trigger] (k as usize))
    }

    /// Stable-sort the declared passes by insertion point: `pass_order`
    /// becomes the execution order, leaving equal insertion points in
    /// declaration order.
    pub fn sort(&mut self)
        ensures
            final(self).order_sorted(),
            final(self).pass_nodes == old(self).pass_nodes,
            final(self).resource_nodes == old(self).resource_nodes,
            final(self).resources == old(self).resources,
            final(self).device_passes == old(self).device_passes,
    {
        let n = self.pass_nodes.len();
        let mut order: Vec<usize> = Vec::new();
        let mut i: usize = 0;
        while i < n
            invariant
                i <= n,
                n == self.pass_nodes@.len(),
                *self == *old(self),
                order@.len() == i,
                forall|j: int| 0 <= j < order@.len() ==> ((#[trigger] order@[j]) as int) < i,
                forall|a: int, b: int|
                    0 <= a < b < order@.len() ==> self.lex_le(order@[a] as int, order@[b] as int),
                forall|k: int| 0 <= k < i ==> order@.contains(#[trigger] (k as usize)),
            decreases n - i,
        {
            let ghost order0 = order@;
            let ip = self.pass_nodes[i].insert_point;
            let mut p: usize = order.len();
            while p > 0 && self.pass_nodes[order[p - 1]].insert_point > ip
                invariant
                    p <= order@.len(),
                    n == self.pass_nodes@.len(),
                    *self == *old(self),
                    order@ == order0,
                    order@.len() == i,
                    i < n,
                    ip == self.pass_nodes@[i as int].insert_point,
                    forall|j: int| 0 <= j < order@.len() ==> ((#[trigger] order@[j]) as int) < i,
                    forall|a: int, b: int|
                        0 <= a < b < order@.len() ==> self.lex_le(
                            order@[a] as int,
                            order@[b] as int,
                        ),
                    forall|q: int|
                        p <= q < order@.len() ==> self.pass_nodes@[(#[trigger] order@[q]) as int].insert_point
                            > ip,
                decreases p,
            {
                p = p - 1;
            }
            order.insert(p, i);
            proof {
                let s = order@;
                assert(s == order0.insert(p as int, i as usize));
                assert forall|j: int| 0 <= j < s.len() implies ((#[trigger] s[j]) as int) < i + 1 by {
                    if j < p {
                        assert(s[j] == order0[j]);
                    } else if j == p {
                        assert(s[j] == i as usize);
                    } else {
                        assert(s[j] == order0[j - 1]);
                    }
                }
                assert forall|k: int| 0 <= k < i + 1 implies s.contains(#[trigger] (k as usize)) by {
                    if k == i {
                        assert(s[p as int] == i as usize);
                    } else {
                        assert(order0.contains(k as usize));
                        let w = choose|w: int| 0 <= w < order0.len() && order0[w] == k as usize;
                        if w < p {
                            assert(s[w] == k as usize);
                        } else {
                            assert(s[w + 1] == k as usize);
                        }
                    }
                }
                assert forall|a: int, b: int|
                    0 <= a < b < s.len() implies self.lex_le(s[a] as int, s[b] as int) by {
                    if b < p {
                        assert(s[a] == order0[a] && s[b] == order0[b]);
                    } else if a > p {
                        assert(s[a] == order0[a - 1] && s[b] == order0[b - 1]);
                    } else if a < p && b > p {
                        assert(s[a] == order0[a] && s[b] == order0[b - 1]);
                    } else if a == p {
                        assert(s[a] == i as usize && s[b] == order0[b - 1]);
                        assert(self.pass_nodes@[s[b] as int].insert_point > ip);
                    } else {
                        assert(b == p);
                        assert(s[a] == order0[a] && s[b] == i as usize);
                        if p > 0 {
                            assert(self.pass_nodes@[order0[p - 1] as int].insert_point <= ip);
                            assert(self.lex_le(order0[a] as int, order0[p - 1] as int));
                            assert((order0[a] as int) < i);
                        }
                    }
                }
            }
            i = i + 1;
        }
        let ghost sorted = order@;
        self.pass_order = order;
        proof {
            assert(self.pass_order@ == sorted);
            assert forall|a: int, b: int|
                0 <= a < b < self.pass_order@.len() implies self.lex_le(
                self.pass_order@[a] as int,
                self.pass_order@[b] as int,
            ) by {
                assert(self.pass_order@[a] == sorted[a]);
                assert(self.pass_order@[b] == sorted[b]);
                assert(old(self).lex_le(sorted[a] as int, sorted[b] as int));
                assert(self.pass_nodes@ == old(self).pass_nodes@);
            }
            assert forall|k: int|
                0 <= k < self.pass_nodes@.len() implies self.pass_order@.contains(
                #[trigger] (k as usize),
            ) by {
                assert(sorted.contains(k as usize));
            }
        }
    }

    /// Whether pass `p` reads or writes any view of the resource at `ri`.
    pub open spec fn touches(self, p: PassNode, ri: int) -> bool {
        (exists|k: int|
            0 <= k < p.reads@.len() && self.resource_nodes@[(
            #[trigger] p.reads@[k]).index as int].resource_handle.index == ri) || (exists|k: int|
            0 <= k < p.writes@.len() && self.resource_nodes@[(
            #[trigger] p.writes@[k]).index as int].resource_handle.index == ri)
    }

    /// Whether the pass at `i` survived culling.
    pub open spec fn surviving(self, i: int) -> bool {
        self.pass_nodes@[i].ref_count > 0
    }

    /// All fields of every resource except the two lifetime bounds agree.
    pub open spec fn resources_eq_except_lifetime(self, other: FrameGraph) -> bool {
        &&& other.resources@.len() == self.resources@.len()
        &&& forall|ri: int|
            0 <= ri < self.resources@.len() ==> ((#[trigger] other.resources@[ri]).state
                == self.resources@[ri].state && other.resources@[ri].info.name
                == self.resources@[ri].info.name && other.resources@[ri].info.handle
                == self.resources@[ri].info.handle && other.resources@[ri].info.spec_version()
                == self.resources@[ri].info.spec_version())
    }

    /// Widen the lifetime of every resource pass `pass_idx` touches to
    /// cover that pass.
    fn update_lifetimes_for_pass(&mut self, pass_idx: usize)
        requires
            old(self).wf_building(),
            (pass_idx as int) < old(self).pass_nodes@.len(),
        ensures
            final(self).wf_building(),
            final(self).pass_nodes == old(self).pass_nodes,
            final(self).resource_nodes == old(self).resource_nodes,
            final(self).pass_order == old(self).pass_order,
            final(self).device_passes == old(self).device_passes,
            old(self).resources_eq_except_lifetime(*final(self)),
            forall|ri: int|
                0 <= ri < old(self).resources@.len() && old(self).touches(
                    old(self).pass_nodes@[pass_idx as int],
                    ri,
                ) ==> ((#[trigger] final(self).resources@[ri]).info.first_pass_node_handle == (
                if old(self).resources@[ri].info.first_pass_node_handle is None {
                    Some(old(self).pass_nodes@[pass_idx as int].handle)
                } else {
                    old(self).resources@[ri].info.first_pass_node_handle
                }) && final(self).resources@[ri].info.last_pass_node_handle == Some(
                    old(self).pass_nodes@[pass_idx as int].handle,
                )),
            forall|ri: int|
                0 <= ri < old(self).resources@.len() && !old(self).touches(
                    old(self).pass_nodes@[pass_idx as int],
                    ri,
                ) ==> (#[trigger] final(self).resources@[ri]) == old(self).resources@[ri],
    {
        let handle = self.pass_nodes[pass_idx].handle;
        let ghost p = self.pass_nodes@[pass_idx as int];
        let ghost res0 = self.resources@;
        let ghost nodes = self.resource_nodes@;

        let reads_len = self.pass_nodes[pass_idx].reads.len();
        let mut k: usize = 0;
        while k < reads_len
            invariant
                k <= reads_len,
                old(self).wf_building(),
                (pass_idx as int) < old(self).pass_nodes@.len(),
                p == old(self).pass_nodes@[pass_idx as int],
                res0 == old(self).resources@,
                nodes == old(self).resource_nodes@,
                handle == p.handle,
                reads_len == p.reads@.len(),
                self.pass_nodes == old(self).pass_nodes,
                self.resource_nodes == old(self).resource_nodes,
                self.pass_order == old(self).pass_order,
                self.device_passes == old(self).device_passes,
                lifetime_loop_inv(nodes, p.reads@, k as int, p.writes@, 0, res0, self.resources@, handle),
            decreases reads_len - k,
        {
            let nh = self.pass_nodes[pass_idx].reads[k];
            proof {
                assert(old(self).wf_pass(p));
                assert((p.reads@[k as int].index as int) < nodes.len());
                assert((nodes[p.reads@[k as int].index as int].resource_handle.index as int)
                    < res0.len());
            }
            let ridx = self.resource_nodes[nh.index].resource_handle;
            let ghost before = self.resources@;
            let res = &mut self.resources[ridx.index];
            res.info.update_lifetime(handle);
            proof {
                assert(self.resources@ == before.update(ridx.index as int, self.resources@[
                    ridx.index as int
                ]));
                lemma_lifetime_step(
                    nodes,
                    p.reads@,
                    p.writes@,
                    0,
                    k as int,
                    res0,
                    before,
                    self.resources@,
                    handle,
                    ridx.index as int,
                    true,
                );
            }
            k = k + 1;
        }

        let writes_len = self.pass_nodes[pass_idx].writes.len();
        let mut w: usize = 0;
        while w < writes_len
            invariant
                w <= writes_len,
                old(self).wf_building(),
                (pass_idx as int) < old(self).pass_nodes@.len(),
                p == old(self).pass_nodes@[pass_idx as int],
                res0 == old(self).resources@,
                nodes == old(self).resource_nodes@,
                handle == p.handle,
                writes_len == p.writes@.len(),
                self.pass_nodes == old(self).pass_nodes,
                self.resource_nodes == old(self).resource_nodes,
                self.pass_order == old(self).pass_order,
                self.device_passes == old(self).device_passes,
                lifetime_loop_inv(
                    nodes,
                    p.reads@,
                    p.reads@.len() as int,
                    p.writes@,
                    w as int,
                    res0,
                    self.resources@,
                    handle,
                ),
            decreases writes_len - w,
        {
            let nh = self.pass_nodes[pass_idx].writes[w];
            proof {
                assert(old(self).wf_pass(p));
                assert((p.writes@[w as int].index as int) < nodes.len());
                assert((nodes[p.writes@[w as int].index as int].resource_handle.index as int)
                    < res0.len());
            }
            let ridx = self.resource_nodes[nh.index].resource_handle;
            let ghost before = self.resources@;
            let res = &mut self.resources[ridx.index];
            res.info.update_lifetime(handle);
            proof {
                assert(self.resources@ == before.update(ridx.index as int, self.resources@[
                    ridx.index as int
                ]));
                lemma_lifetime_step(
                    nodes,
                    p.reads@,
                    p.writes@,
                    p.reads@.len() as int,
                    w as int,
                    res0,
                    before,
                    self.resources@,
                    handle,
                    ridx.index as int,
                    false,
                );
            }
            w = w + 1;
        }

        proof {
            assert forall|ri: int|
                0 <= ri < res0.len() implies (old(self).touches(p, ri) == touched_two(
                nodes,
                p.reads@,
                p.reads@.len() as int,
                p.writes@,
                p.writes@.len() as int,
                ri,
            )) by {}
            assert(self.wf_building()) by {
                assert forall|i: int|
                    0 <= i < self.resources@.len() implies (
                #[trigger] self.resources@[i]).info.handle.index == i by {}
                assert forall|i: int|
                    0 <= i < self.resources@.len() implies count_nodes_of(self.resource_nodes@, i)
                    == (#[trigger] self.resources@[i]).info.spec_version() + 1 by {}
            }
        }
    }

    /// No resource has a computed lifetime yet.
    pub open spec fn lifetimes_unset(self) -> bool {
        forall|ri: int|
            0 <= ri < self.resources@.len() ==> ((
            #[trigger] self.resources@[ri]).info.first_pass_node_handle is None && self.resources@[
                ri
            ].info.last_pass_node_handle is None)
    }

    /// No pass requests or releases anything yet.
    pub open spec fn arrays_empty(self) -> bool {
        forall|i: int|
            0 <= i < self.pass_nodes@.len() ==> ((
            #[trigger] self.pass_nodes@[i]).resource_request_array@.len() == 0
                && self.pass_nodes@[i].resource_release_array@.len() == 0)
    }

    /// The lifetime-sandwich invariant over the first `upto` execution
    /// positions: a resource's first pass is the earliest surviving pass
    /// that touches it, its last pass the latest, and resources no
    /// surviving pass touches are untouched.
    pub open spec fn lifetimes_computed_upto(self, base: FrameGraph, upto: int) -> bool {
        forall|ri: int|
            0 <= ri < self.resources@.len() ==> {
                let info = (#[trigger] self.resources@[ri]).info;
                &&& (info.first_pass_node_handle is Some <==> exists|pos: int|
                    0 <= pos < upto && self.surviving((#[trigger] self.pass_order@[pos]) as int)
                        && self.touches(self.pass_nodes@[self.pass_order@[pos] as int], ri))
                &&& (info.first_pass_node_handle matches Some(f) ==> exists|fpos: int|
                    0 <= fpos < upto && (#[trigger] self.pass_order@[fpos]) as int == f.index
                        && self.surviving(f.index as int) && self.touches(
                        self.pass_nodes@[f.index as int],
                        ri,
                    ) && forall|pos: int|
                        0 <= pos < upto && self.surviving((#[trigger] self.pass_order@[pos]) as int)
                            && self.touches(self.pass_nodes@[self.pass_order@[pos] as int], ri)
                            ==> fpos <= pos)
                &&& (info.last_pass_node_handle matches Some(l) ==> exists|lpos: int|
                    0 <= lpos < upto && (#[trigger] self.pass_order@[lpos]) as int == l.index
                        && self.surviving(l.index as int) && self.touches(
                        self.pass_nodes@[l.index as int],
                        ri,
                    ) && forall|pos: int|
                        0 <= pos < upto && self.surviving((#[trigger] self.pass_order@[pos]) as int)
                            && self.touches(self.pass_nodes@[self.pass_order@[pos] as int], ri)
                            ==> pos <= lpos)
                &&& (info.first_pass_node_handle is Some <==> info.last_pass_node_handle is Some)
                &&& (info.first_pass_node_handle is None ==> self.resources@[ri] == base.resources@[
                    ri
                ])
            }
    }

    /// Compute resource lifetimes and boundary arrays: walk surviving
    /// passes in execution order widening each touched resource's live
    /// range, then hand every live resource to its first pass's request
    /// array and its last pass's release array.
    ///
    /// The postconditions carry the lifetime sandwich — a live resource's
    /// first pass is no later than any surviving pass touching it and its
    /// last pass no earlier — and pin the request and release arrays
    /// exactly, so that every requested resource is released by exactly one
    /// pass, and no pass requests what it never saw.
    pub fn compute_resource_lifetime(&mut self)
        requires
            old(self).wf_building(),
            old(self).order_sorted(),
            old(self).lifetimes_unset(),
            old(self).arrays_empty(),
        ensures
            final(self).wf_building(),
            final(self).order_sorted(),
            final(self).resource_nodes == old(self).resource_nodes,
            final(self).pass_order == old(self).pass_order,
            final(self).device_passes == old(self).device_passes,
            old(self).resources_eq_except_lifetime(*final(self)),
            final(self).pass_nodes@.len() == old(self).pass_nodes@.len(),
            forall|i: int|
                0 <= i < old(self).pass_nodes@.len() ==> pass_eq_except_arrays(
                    #[trigger] old(self).pass_nodes@[i],
                    final(self).pass_nodes@[i],
                ),
            final(self).lifetimes_computed_upto(*old(self), final(self).pass_order@.len() as int),
            forall|i: int|
                0 <= i < final(self).pass_nodes@.len() ==> (
                #[trigger] final(self).pass_nodes@[i]).resource_request_array@ == requests_in(
                    final(self).resources@,
                    i,
                ),
            forall|i: int|
                0 <= i < final(self).pass_nodes@.len() ==> (
                #[trigger] final(self).pass_nodes@[i]).resource_release_array@ == releases_in(
                    final(self).resources@,
                    i,
                ),
            forall|ri: int|
                0 <= ri < final(self).resources@.len() ==> (((
                #[trigger] final(self).resources@[ri]).info.first_pass_node_handle matches Some(f)
                    ==> (f.index as int) < final(self).pass_nodes@.len())
                    && (final(self).resources@[ri].info.last_pass_node_handle matches Some(l)
                    ==> (l.index as int) < final(self).pass_nodes@.len())),
    {
        let order_len = self.pass_order.len();
        let mut pi: usize = 0;
        while pi < order_len
            invariant
                pi <= order_len,
                old(self).wf_building(),
                old(self).order_sorted(),
                old(self).lifetimes_unset(),
                old(self).arrays_empty(),
                order_len == self.pass_order@.len(),
                self.wf_building(),
                self.pass_nodes == old(self).pass_nodes,
                self.resource_nodes == old(self).resource_nodes,
                self.pass_order == old(self).pass_order,
                self.device_passes == old(self).device_passes,
                old(self).resources_eq_except_lifetime(*self),
                self.lifetimes_computed_upto(*old(self), pi as int),
            decreases order_len - pi,
        {
            let pass_idx = self.pass_order[pi];
            proof {
                assert((self.pass_order@[pi as int] as int) < self.pass_nodes@.len());
            }
            let ghost prev = *self;
            if self.pass_nodes[pass_idx].ref_count > 0 {
                self.update_lifetimes_for_pass(pass_idx);
                proof {
                    lemma_lifetimes_upto_step(*old(self), prev, *self, pi as int, pass_idx as int);
                }
            } else {
                proof {
                    lemma_lifetimes_upto_skip(*old(self), *self, pi as int, pass_idx as int);
                }
            }
            pi = pi + 1;
        }

        let ghost mid = *self;
        proof {
            assert forall|ri: int|
                0 <= ri < self.resources@.len() implies (((
            #[trigger] self.resources@[ri]).info.first_pass_node_handle matches Some(f) ==> (
            f.index as int) < self.pass_nodes@.len()) && (self.resources@[
                ri
            ].info.last_pass_node_handle matches Some(l) ==> (l.index as int)
                < self.pass_nodes@.len())) by {
                let info = self.resources@[ri].info;
                if info.first_pass_node_handle is Some {
                    let f = info.first_pass_node_handle->0;
                    let fpos = choose|fpos: int|
                        0 <= fpos < order_len && (#[trigger] self.pass_order@[fpos]) as int
                            == f.index && self.surviving(f.index as int) && self.touches(
                            self.pass_nodes@[f.index as int],
                            ri,
                        );
                    assert((self.pass_order@[fpos] as int) < self.pass_nodes@.len());
                    let l = info.last_pass_node_handle->0;
                    let lpos = choose|lpos: int|
                        0 <= lpos < order_len && (#[trigger] self.pass_order@[lpos]) as int
                            == l.index && self.surviving(l.index as int) && self.touches(
                            self.pass_nodes@[l.index as int],
                            ri,
                        );
                    assert((self.pass_order@[lpos] as int) < self.pass_nodes@.len());
                }
            }
        }

        self.assign_request_release_arrays();

        proof {
            assert forall|a: int, b: int|
                0 <= a < b < self.pass_order@.len() implies self.lex_le(
                self.pass_order@[a] as int,
                self.pass_order@[b] as int,
            ) by {
                assert(old(self).lex_le(old(self).pass_order@[a] as int, old(self).pass_order@[b] as int));
                assert(mid.pass_nodes@ == old(self).pass_nodes@);
                assert(mid.pass_order@ == old(self).pass_order@);
                assert(mid.lex_le(mid.pass_order@[a] as int, mid.pass_order@[b] as int));
                assert(pass_eq_except_arrays(
                    mid.pass_nodes@[mid.pass_order@[a] as int],
                    self.pass_nodes@[self.pass_order@[a] as int],
                ));
                assert(pass_eq_except_arrays(
                    mid.pass_nodes@[mid.pass_order@[b] as int],
                    self.pass_nodes@[self.pass_order@[b] as int],
                ));
            }
            assert(self.order_sorted());
            lemma_lifetimes_upto_transfer(*old(self), mid, *self, order_len as int);
        }
    }

    /// Install the boundary arrays: each resource with a computed live
    /// range is pushed onto its first pass's request array and its last
    /// pass's release array.
    fn assign_request_release_arrays(&mut self)
        requires
            old(self).wf_building(),
            old(self).arrays_empty(),
            forall|ri: int|
                0 <= ri < old(self).resources@.len() ==> (((
                #[trigger] old(self).resources@[ri]).info.first_pass_node_handle matches Some(f)
                    ==> (f.index as int) < old(self).pass_nodes@.len())
                    && (old(self).resources@[ri].info.last_pass_node_handle matches Some(l)
                    ==> (l.index as int) < old(self).pass_nodes@.len())),
        ensures
            final(self).wf_building(),
            final(self).resources == old(self).resources,
            final(self).resource_nodes == old(self).resource_nodes,
            final(self).pass_order == old(self).pass_order,
            final(self).device_passes == old(self).device_passes,
            final(self).pass_nodes@.len() == old(self).pass_nodes@.len(),
            forall|i: int|
                0 <= i < old(self).pass_nodes@.len() ==> pass_eq_except_arrays(
                    #[trigger] old(self).pass_nodes@[i],
                    final(self).pass_nodes@[i],
                ),
            forall|i: int|
                0 <= i < final(self).pass_nodes@.len() ==> (
                #[trigger] final(self).pass_nodes@[i]).resource_request_array@ == requests_in(
                    final(self).resources@,
                    i,
                ),
            forall|i: int|
                0 <= i < final(self).pass_nodes@.len() ==> (
                #[trigger] final(self).pass_nodes@[i]).resource_release_array@ == releases_in(
                    final(self).resources@,
                    i,
                ),
    {
        let ghost res = self.resources@;
        let n = self.pass_nodes.len();
        let rlen = self.resources.len();
        let mut r: usize = 0;
        while r < rlen
            invariant
                r <= rlen,
                old(self).wf_building(),
                old(self).arrays_empty(),
                forall|ri: int|
                    0 <= ri < res.len() ==> (((
                    #[trigger] res[ri]).info.first_pass_node_handle matches Some(f) ==> (
                    f.index as int) < n) && (res[ri].info.last_pass_node_handle matches Some(l)
                        ==> (l.index as int) < n)),
                n == self.pass_nodes@.len(),
                rlen == res.len(),
                res == old(self).resources@,
                self.resources == old(self).resources,
                self.resource_nodes == old(self).resource_nodes,
                self.pass_order == old(self).pass_order,
                self.device_passes == old(self).device_passes,
                forall|i: int|
                    0 <= i < n ==> pass_eq_except_arrays(
                        #[trigger] old(self).pass_nodes@[i],
                        self.pass_nodes@[i],
                    ),
                forall|i: int|
                    0 <= i < n ==> (#[trigger] self.pass_nodes@[i]).resource_request_array@
                        == requests_in(res.take(r as int), i),
                forall|i: int|
                    0 <= i < n ==> (#[trigger] self.pass_nodes@[i]).resource_release_array@
                        == releases_in(res.take(r as int), i),
            decreases rlen - r,
        {
            proof {
                lemma_requests_in_take_step(res, r as int);
                lemma_releases_in_take_step(res, r as int);
            }
            let first = self.resources[r].info.first_pass_node_handle;
            let last = self.resources[r].info.last_pass_node_handle;
            if first.is_some() && last.is_some() {
                let f = match first {
                    Some(f) => f,
                    None => {
                        return ;
                    },
                };
                let l = match last {
                    Some(l) => l,
                    None => {
                        return ;
                    },
                };
                let ghost passes_mid = self.pass_nodes@;
                let pf = &mut self.pass_nodes[f.index];
                pf.resource_request_array.push(Handle::new(r));
                proof {
                    assert(self.pass_nodes@ == passes_mid.update(f.index as int, self.pass_nodes@[
                        f.index as int
                    ]));
                }
                let ghost passes_mid2 = self.pass_nodes@;
                let pl = &mut self.pass_nodes[l.index];
                pl.resource_release_array.push(Handle::new(r));
                proof {
                    assert(self.pass_nodes@ == passes_mid2.update(l.index as int, self.pass_nodes@[
                        l.index as int
                    ]));
                    assert forall|i: int|
                        0 <= i < n implies (#[trigger] self.pass_nodes@[i]).resource_request_array@
                        == requests_in(res.take(r as int + 1), i) by {
                        if i == f.index as int {
                            assert(self.pass_nodes@[i].resource_request_array@ == passes_mid[
                                i
                            ].resource_request_array@.push(Handle { index: r }));
                        } else {
                            assert(self.pass_nodes@[i].resource_request_array@ == passes_mid[
                                i
                            ].resource_request_array@);
                        }
                    }
                    assert forall|i: int|
                        0 <= i < n implies (#[trigger] self.pass_nodes@[i]).resource_release_array@
                        == releases_in(res.take(r as int + 1), i) by {
                        if i == l.index as int {
                            assert(self.pass_nodes@[i].resource_release_array@ == passes_mid2[
                                i
                            ].resource_release_array@.push(Handle { index: r }));
                        } else {
                            assert(self.pass_nodes@[i].resource_release_array@ == passes_mid2[
                                i
                            ].resource_release_array@);
                        }
                    }
                }
            } else {
                proof {
                    assert forall|i: int|
                        0 <= i < n implies (#[trigger] self.pass_nodes@[i]).resource_request_array@
                        == requests_in(res.take(r as int + 1), i) by {}
                    assert forall|i: int|
                        0 <= i < n implies (#[trigger] self.pass_nodes@[i]).resource_release_array@
                        == releases_in(res.take(r as int + 1), i) by {}
                }
            }
            r = r + 1;
        }
        proof {
            assert(res.take(rlen as int) =~~= res);
            lemma_wf_building_arrays(*old(self), *self);
        }
    }

    /// The passes that survived culling, in execution order, over the
    /// first `k` positions of the pass order.
    pub open spec fn survivors_upto(self, k: int) -> Seq<usize>
        decreases k,
    {
        if k <= 0 {
            Seq::empty()
        } else {
            let prefix = self.survivors_upto(k - 1);
            if self.pass_nodes@[self.pass_order@[k - 1] as int].ref_count > 0 {
                prefix.push(self.pass_order@[k - 1])
            } else {
                prefix
            }
        }
    }

    /// The transient cache after requesting every resource of `arr`.
    pub open spec fn request_cache_fold(
        resources: Seq<VirtualResource>,
        c: Seq<CacheEntry>,
        arr: Seq<Handle>,
    ) -> Seq<CacheEntry>
        decreases arr.len(),
    {
        if arr.len() == 0 {
            c
        } else {
            FrameGraph::request_cache_fold(
                resources,
                crate::table::request_cache_one(resources[arr.first().index as int], c),
                arr.drop_first(),
            )
        }
    }

    /// The transient cache after device-pass generation has serviced the
    /// request arrays of every surviving pass from position `pi` on.
    pub open spec fn generate_cache_fold(self, c: Seq<CacheEntry>, pi: int) -> Seq<CacheEntry>
        decreases self.pass_order@.len() - pi,
    {
        if pi < 0 || pi >= self.pass_order@.len() {
            c
        } else {
            let x = self.pass_order@[pi] as int;
            let c2 = if self.pass_nodes@[x].ref_count > 0 {
                FrameGraph::request_cache_fold(
                    self.resources@,
                    c,
                    self.pass_nodes@[x].resource_request_array@,
                )
            } else {
                c
            };
            self.generate_cache_fold(c2, pi + 1)
        }
    }

    /// Emit one device pass per surviving pass, in execution order, each
    /// with its resources resolved: imported objects copied through,
    /// transients taken from the cache or created by the device.
    pub fn generate_device_passes<D: DeviceTrait>(
        &mut self,
        device: &D,
        transient_resource_cache: &mut TransientResourceCache,
    )
        requires
            old(self).wf_building(),
            old(self).order_sorted(),
            old(transient_resource_cache).wf(),
            forall|i: int, k: int|
                0 <= i < old(self).pass_nodes@.len() && 0 <= k < old(self).pass_nodes@[
                    i
                ].resource_request_array@.len() ==> (((#[trigger] old(self).pass_nodes@[
                    i
                ].resource_request_array@[k]).index as int) < old(self).resources@.len()),
        ensures
            final(self).pass_nodes == old(self).pass_nodes,
            final(self).resource_nodes == old(self).resource_nodes,
            final(self).resources == old(self).resources,
            final(self).pass_order == old(self).pass_order,
            final(transient_resource_cache).wf(),
            final(transient_resource_cache).view_cache() == old(self).generate_cache_fold(
                old(transient_resource_cache).view_cache(),
                0,
            ),
            final(self).device_passes matches Some(dps) && dps@.len() == old(self).survivors_upto(
                old(self).pass_order@.len() as int,
            ).len() && forall|c: int|
                0 <= c < dps@.len() ==> ((#[trigger] dps@[c]).logic_passes@.len() == 1
                    && dps@[c].logic_passes@[0].pass_handle == old(self).pass_nodes@[
                    old(self).survivors_upto(old(self).pass_order@.len() as int)[c] as int
                ].handle && dps@[c].logic_passes@[0].resource_release_array@ == old(
                    self,
                ).pass_nodes@[
                    old(self).survivors_upto(old(self).pass_order@.len() as int)[c] as int
                ].resource_release_array@ && dps@[c].resource_table.wf()),
    {
        let ghost c0 = transient_resource_cache.view_cache();
        let mut device_passes: Vec<DevicePass> = Vec::new();
        let order_len = self.pass_order.len();
        let mut pi: usize = 0;
        while pi < order_len
            invariant
                pi <= order_len,
                old(self).wf_building(),
                old(self).order_sorted(),
                old(self).generate_cache_fold(
                    transient_resource_cache.view_cache(),
                    pi as int,
                ) == old(self).generate_cache_fold(c0, 0),
                forall|i: int, k: int|
                    0 <= i < old(self).pass_nodes@.len() && 0 <= k < old(self).pass_nodes@[
                        i
                    ].resource_request_array@.len() ==> (((#[trigger] old(self).pass_nodes@[
                        i
                    ].resource_request_array@[k]).index as int) < old(self).resources@.len()),
                order_len == self.pass_order@.len(),
                *self == *old(self),
                transient_resource_cache.wf(),
                device_passes@.len() == old(self).survivors_upto(pi as int).len(),
                forall|c: int|
                    0 <= c < device_passes@.len() ==> ((#[trigger] device_passes@[
                        c
                    ]).logic_passes@.len() == 1 && device_passes@[c].logic_passes@[0].pass_handle
                        == old(self).pass_nodes@[
                        old(self).survivors_upto(pi as int)[c] as int
                    ].handle && device_passes@[c].logic_passes@[0].resource_release_array@ == old(
                        self,
                    ).pass_nodes@[
                        old(self).survivors_upto(pi as int)[c] as int
                    ].resource_release_array@ && device_passes@[c].resource_table.wf()),
            decreases order_len - pi,
        {
            let pass_idx = self.pass_order[pi];
            proof {
                assert((self.pass_order@[pi as int] as int) < self.pass_nodes@.len());
            }
            let ghost survivors0 = old(self).survivors_upto(pi as int);
            let ghost cache_at_pass = transient_resource_cache.view_cache();
            let ghost arr = self.pass_nodes@[pass_idx as int].resource_request_array@;
            if self.pass_nodes[pass_idx].ref_count > 0 {
                proof {
                    assert(arr.skip(0) =~~= arr);
                }
                let mut resource_table = ResourceTable::new();
                let req_len = self.pass_nodes[pass_idx].resource_request_array.len();
                let mut k: usize = 0;
                while k < req_len
                    invariant
                        k <= req_len,
                        *self == *old(self),
                        (pass_idx as int) < self.pass_nodes@.len(),
                        old(self).wf_building(),
                        forall|i: int, kk: int|
                            0 <= i < old(self).pass_nodes@.len() && 0 <= kk < old(self).pass_nodes@[
                                i
                            ].resource_request_array@.len() ==> (((#[trigger] old(self).pass_nodes@[
                                i
                            ].resource_request_array@[kk]).index as int) < old(
                                self,
                            ).resources@.len()),
                        req_len == self.pass_nodes@[pass_idx as int].resource_request_array@.len(),
                        arr == self.pass_nodes@[pass_idx as int].resource_request_array@,
                        resource_table.wf(),
                        transient_resource_cache.wf(),
                        FrameGraph::request_cache_fold(
                            self.resources@,
                            transient_resource_cache.view_cache(),
                            arr.skip(k as int),
                        ) == FrameGraph::request_cache_fold(self.resources@, cache_at_pass, arr),
                    decreases req_len - k,
                {
                    let rh = self.pass_nodes[pass_idx].resource_request_array[k];
                    proof {
                        assert((self.pass_nodes@[pass_idx as int].resource_request_array@[
                            k as int
                        ].index as int) < self.resources@.len());
                    }
                    let ghost c_cur = transient_resource_cache.view_cache();
                    let resource = &self.resources[rh.index];
                    resource_table.request_resources(resource, device, transient_resource_cache);
                    proof {
                        assert(arr.skip(k as int).first() == arr[k as int]);
                        assert(arr.skip(k as int).drop_first() =~~= arr.skip(k as int + 1));
                        assert(transient_resource_cache.view_cache()
                            == crate::table::request_cache_one(
                            self.resources@[arr[k as int].index as int],
                            c_cur,
                        ));
                    }
                    k = k + 1;
                }
                proof {
                    assert(arr.skip(req_len as int) =~~= Seq::<Handle>::empty());
                    assert(transient_resource_cache.view_cache()
                        == FrameGraph::request_cache_fold(self.resources@, cache_at_pass, arr));
                }

                let mut device_pass = DevicePass::new(resource_table);

                device_pass.extra(self, TypeHandle::new(pass_idx));

                device_passes.push(device_pass);
                proof {
                    assert(old(self).survivors_upto(pi as int + 1) =~~= survivors0.push(pass_idx));
                    assert forall|c: int|
                        0 <= c < device_passes@.len() implies ((#[trigger] device_passes@[
                        c
                    ]).logic_passes@.len() == 1 && device_passes@[c].logic_passes@[0].pass_handle
                        == old(self).pass_nodes@[
                        old(self).survivors_upto(pi as int + 1)[c] as int
                    ].handle && device_passes@[c].logic_passes@[0].resource_release_array@ == old(
                        self,
                    ).pass_nodes@[
                        old(self).survivors_upto(pi as int + 1)[c] as int
                    ].resource_release_array@ && device_passes@[c].resource_table.wf()) by {
                        if c < device_passes@.len() - 1 {
                            assert(old(self).survivors_upto(pi as int + 1)[c] == survivors0[c]);
                        } else {
                            assert(old(self).survivors_upto(pi as int + 1)[c] == pass_idx);
                        }
                    }
                }
            } else {
                proof {
                    assert(old(self).survivors_upto(pi as int + 1) =~~= survivors0);
                }
            }
            proof {
                assert(old(self).generate_cache_fold(
                    transient_resource_cache.view_cache(),
                    pi as int + 1,
                ) == old(self).generate_cache_fold(cache_at_pass, pi as int));
            }
            pi = pi + 1;
        }
        self.device_passes = Some(device_passes);
    }

    /// Compile the declared graph: sort passes by insertion point, cull
    /// work nothing depends on, compute resource lifetimes and boundary
    /// arrays, and emit the device passes.
    pub fn compile<D: DeviceTrait>(
        &mut self,
        device: &D,
        transient_resource_cache: &mut TransientResourceCache,
    )
        requires
            old(self).wf_building(),
            old(self).lifetimes_unset(),
            old(self).arrays_empty(),
            old(transient_resource_cache).wf(),
        ensures
            final(transient_resource_cache).wf(),
            final(self).wf_building(),
            old(self).pass_nodes@.len() == 0 ==> *final(self) == *old(self),
            old(self).pass_nodes@.len() == 0 ==> *final(transient_resource_cache) == *old(
                transient_resource_cache,
            ),
            old(self).pass_nodes@.len() > 0 ==> (final(self).device_passes matches Some(dps)
                && forall|c: int|
                0 <= c < dps@.len() ==> ((#[trigger] dps@[c]).resource_table.wf() && forall|q: int|
                    0 <= q < dps@[c].logic_passes@.len() ==> (((#[trigger] dps@[
                        c
                    ].logic_passes@[q]).pass_handle.index as int) < final(self).pass_nodes@.len()))),
            old(self).pass_nodes@.len() > 0 ==> final(self).order_sorted(),
            old(self).pass_nodes@.len() > 0 ==> final(self).lifetimes_computed_upto(
                *old(self),
                final(self).pass_order@.len() as int,
            ),
            old(self).pass_nodes@.len() > 0 ==> (forall|i: int|
                0 <= i < final(self).pass_nodes@.len() ==> ((
                #[trigger] final(self).pass_nodes@[i]).resource_request_array@ == requests_in(
                    final(self).resources@,
                    i,
                ) && final(self).pass_nodes@[i].resource_release_array@ == releases_in(
                    final(self).resources@,
                    i,
                ))),
            old(self).pass_nodes@.len() > 0 ==> (forall|i: int|
                0 <= i < final(self).pass_nodes@.len() && (
                #[trigger] final(self).pass_nodes@[i]).side_effect && final(self).pass_nodes@[
                    i
                ].writes@.len() < usize::MAX ==> final(self).pass_nodes@[i].ref_count > 0),
            old(self).pass_nodes@.len() > 0 ==> (forall|i: int|
                0 <= i < final(self).pass_nodes@.len() && !(
                #[trigger] final(self).pass_nodes@[i]).side_effect && final(self).pass_nodes@[
                    i
                ].ref_count == 0 ==> forall|k: int|
                    0 <= k < final(self).pass_nodes@[i].writes@.len() ==> final(self).resource_nodes@[(
                    #[trigger] final(self).pass_nodes@[i].writes@[k]).index as int].reader_count
                        == 0),
            old(self).pass_nodes@.len() > 0 ==> (forall|i: int|
                0 <= i < final(self).pass_nodes@.len() && !(
                #[trigger] final(self).pass_nodes@[i]).side_effect && final(self).pass_nodes@[
                    i
                ].ref_count > 0 ==> exists|k: int|
                    0 <= k < final(self).pass_nodes@[i].writes@.len() && final(self).resource_nodes@[(
                    #[trigger] final(self).pass_nodes@[i].writes@[k]).index as int].reader_count
                        > 0),
            old(self).pass_nodes@.len() > 0 ==> final(transient_resource_cache).view_cache()
                == final(self).generate_cache_fold(old(transient_resource_cache).view_cache(), 0),
            old(self).pass_nodes@.len() > 0 ==> (final(self).device_passes matches Some(dps)
                && dps@.len() == final(self).survivors_upto(final(self).pass_order@.len() as int).len()
                && forall|c: int|
                0 <= c < dps@.len() ==> ((#[trigger] dps@[c]).logic_passes@.len() == 1
                    && dps@[c].logic_passes@[0].pass_handle == final(self).pass_nodes@[
                    final(self).survivors_upto(final(self).pass_order@.len() as int)[c] as int
                ].handle && dps@[c].logic_passes@[0].resource_release_array@ == final(self).pass_nodes@[
                    final(self).survivors_upto(final(self).pass_order@.len() as int)[c] as int
                ].resource_release_array@)),
    {
        if self.pass_nodes.is_empty() {
            return ;
        }

        self.sort();
        let ghost after_sort = *self;
        proof {
            assert(after_sort.wf_building());
        }

        self.cull();
        let ghost after_cull = *self;
        proof {
            assert(after_cull.wf_building());
            assert forall|a: int, b: int|
                0 <= a < b < self.pass_order@.len() implies self.lex_le(
                self.pass_order@[a] as int,
                self.pass_order@[b] as int,
            ) by {
                assert(after_sort.lex_le(
                    after_sort.pass_order@[a] as int,
                    after_sort.pass_order@[b] as int,
                ));
                assert(pass_eq_except_ref(
                    after_sort.pass_nodes@[after_sort.pass_order@[a] as int],
                    self.pass_nodes@[self.pass_order@[a] as int],
                ));
                assert(pass_eq_except_ref(
                    after_sort.pass_nodes@[after_sort.pass_order@[b] as int],
                    self.pass_nodes@[self.pass_order@[b] as int],
                ));
            }
            assert(self.order_sorted());
            assert forall|ri: int|
                0 <= ri < self.resources@.len() implies ((
            #[trigger] self.resources@[ri]).info.first_pass_node_handle is None && self.resources@[
                ri
            ].info.last_pass_node_handle is None) by {
                assert(self.resources@[ri] == old(self).resources@[ri]);
            }
            assert forall|i: int|
                0 <= i < self.pass_nodes@.len() implies ((
            #[trigger] self.pass_nodes@[i]).resource_request_array@.len() == 0
                && self.pass_nodes@[i].resource_release_array@.len() == 0) by {
                assert(pass_eq_except_ref(after_sort.pass_nodes@[i], self.pass_nodes@[i]));
                assert(after_sort.pass_nodes@[i].resource_request_array@.len() == 0);
            }
        }

        self.compute_resource_lifetime();
        proof {
            assert forall|i: int, k: int|
                0 <= i < self.pass_nodes@.len() && 0 <= k < self.pass_nodes@[
                    i
                ].resource_request_array@.len() implies (((#[trigger] self.pass_nodes@[
                    i
                ].resource_request_array@[k]).index as int) < self.resources@.len()) by {
                lemma_requests_in_bounded(self.resources@, i);
            }
        }

        let ghost after_lifetime = *self;
        self.generate_device_passes(device, transient_resource_cache);

        proof {
            assert(self.wf_building()) by {
                lemma_wf_building_arrays(after_lifetime, *self);
            }
            assert forall|a: int, b: int|
                0 <= a < b < self.pass_order@.len() implies self.lex_le(
                self.pass_order@[a] as int,
                self.pass_order@[b] as int,
            ) by {
                assert(after_lifetime.lex_le(
                    after_lifetime.pass_order@[a] as int,
                    after_lifetime.pass_order@[b] as int,
                ));
            }
            assert(self.order_sorted());
            lemma_lifetimes_upto_transfer(
                *old(self),
                after_lifetime,
                *self,
                self.pass_order@.len() as int,
            );
            // Culling's soundness facts transfer: later phases change only
            // the boundary arrays and the device passes.
            assert forall|i: int|
                0 <= i < self.pass_nodes@.len() implies pass_eq_except_arrays(
                after_cull.pass_nodes@[i],
                #[trigger] self.pass_nodes@[i],
            ) by {}
            assert(self.resource_nodes@ == after_cull.resource_nodes@);
            assert forall|i: int|
                0 <= i < self.pass_nodes@.len() && (#[trigger] self.pass_nodes@[i]).side_effect
                    && self.pass_nodes@[i].writes@.len() < usize::MAX implies self.pass_nodes@[
                i
            ].ref_count > 0 by {
                assert(pass_eq_except_arrays(after_cull.pass_nodes@[i], self.pass_nodes@[i]));
                assert(after_cull.pass_nodes@[i].side_effect
                    && after_cull.pass_nodes@[i].writes@.len() < usize::MAX);
            }
            assert forall|i: int|
                0 <= i < self.pass_nodes@.len() && !(#[trigger] self.pass_nodes@[i]).side_effect
                    && self.pass_nodes@[i].ref_count == 0 implies forall|k: int|
                0 <= k < self.pass_nodes@[i].writes@.len() ==> self.resource_nodes@[(
            #[trigger] self.pass_nodes@[i].writes@[k]).index as int].reader_count == 0 by {
                assert(pass_eq_except_arrays(after_cull.pass_nodes@[i], self.pass_nodes@[i]));
                assert(!after_cull.pass_nodes@[i].side_effect
                    && after_cull.pass_nodes@[i].ref_count == 0);
                assert forall|k: int|
                    0 <= k < self.pass_nodes@[i].writes@.len() implies self.resource_nodes@[(
                #[trigger] self.pass_nodes@[i].writes@[k]).index as int].reader_count == 0 by {
                    assert(self.pass_nodes@[i].writes@[k] == after_cull.pass_nodes@[i].writes@[k]);
                    assert(after_cull.resource_nodes@[after_cull.pass_nodes@[i].writes@[
                        k
                    ].index as int].reader_count == 0);
                }
            }
            assert forall|i: int|
                0 <= i < self.pass_nodes@.len() && !(#[trigger] self.pass_nodes@[i]).side_effect
                    && self.pass_nodes@[i].ref_count > 0 implies exists|k: int|
                0 <= k < self.pass_nodes@[i].writes@.len() && self.resource_nodes@[(
            #[trigger] self.pass_nodes@[i].writes@[k]).index as int].reader_count > 0 by {
                assert(pass_eq_except_arrays(after_cull.pass_nodes@[i], self.pass_nodes@[i]));
                assert(!after_cull.pass_nodes@[i].side_effect
                    && after_cull.pass_nodes@[i].ref_count > 0);
                let k = choose|k: int|
                    0 <= k < after_cull.pass_nodes@[i].writes@.len()
                        && after_cull.resource_nodes@[(
                    #[trigger] after_cull.pass_nodes@[i].writes@[k]).index as int].reader_count
                        > 0;
                assert(self.pass_nodes@[i].writes@[k] == after_cull.pass_nodes@[i].writes@[k]);
                assert(self.resource_nodes@[(self.pass_nodes@[i].writes@[k]).index as int].reader_count
                    > 0);
            }
            lemma_survivors_congruent(
                after_lifetime,
                *self,
                after_lifetime.pass_order@.len() as int,
            );
            lemma_generate_fold_congruent(
                after_lifetime,
                *self,
                old(transient_resource_cache).view_cache(),
                0,
            );
            let dps = self.device_passes->0;
            let survivors = after_lifetime.survivors_upto(after_lifetime.pass_order@.len() as int);
            assert forall|c: int|
                0 <= c < dps@.len() implies ((#[trigger] dps@[c]).resource_table.wf() && forall|
                q: int,
            |
                0 <= q < dps@[c].logic_passes@.len() ==> (((#[trigger] dps@[
                    c
                ].logic_passes@[q]).pass_handle.index as int) < self.pass_nodes@.len())) by {
                lemma_survivors_bounded(after_lifetime, after_lifetime.pass_order@.len() as int);
                assert((survivors[c] as int) < self.pass_nodes@.len());
                assert(dps@[c].logic_passes@[0].pass_handle == after_lifetime.pass_nodes@[
                    survivors[c] as int
                ].handle);
            }
        }
    }

    /// The transient cache after every compiled device pass has run and
    /// released its resources in order.
    pub open spec fn frame_release_fold(dps: Seq<DevicePass>, c: Seq<CacheEntry>) -> Seq<CacheEntry>
        decreases dps.len(),
    {
        if dps.len() == 0 {
            c
        } else {
            FrameGraph::frame_release_fold(
                dps.drop_first(),
                logic_release_fold(
                    dps.first().resource_table.resources@,
                    c,
                    dps.first().logic_passes@,
                ).1,
            )
        }
    }

    /// Execute the compiled device passes in order against the device,
    /// running each pass's render work and recycling its transients; the
    /// compiled passes are consumed and the transient cache ends as their
    /// releases left it.
    pub fn execute<D: DeviceTrait, P: Pass<D>>(
        &mut self,
        device: &D,
        transient_resource_cache: &mut TransientResourceCache,
        passes: &mut Vec<P>,
    )
        requires
            old(transient_resource_cache).wf(),
            old(self).device_passes matches Some(dps) ==> forall|c: int|
                0 <= c < dps@.len() ==> ((#[trigger] dps@[c]).resource_table.wf() && forall|q: int|
                    0 <= q < dps@[c].logic_passes@.len() ==> (((#[trigger] dps@[
                        c
                    ].logic_passes@[q]).pass_handle.index as int) < old(passes)@.len())),
        ensures
            final(transient_resource_cache).wf(),
            final(self).device_passes is None,
            final(passes)@.len() == old(passes)@.len(),
            final(self).pass_nodes == old(self).pass_nodes,
            final(self).resource_nodes == old(self).resource_nodes,
            final(self).resources == old(self).resources,
            final(self).pass_order == old(self).pass_order,
            old(self).device_passes is None ==> *final(transient_resource_cache)
                == *old(transient_resource_cache),
            old(self).device_passes matches Some(dps) ==> final(transient_resource_cache).view_cache()
                == FrameGraph::frame_release_fold(
                dps@,
                old(transient_resource_cache).view_cache(),
            ),
    {
        let device_passes_opt = self.device_passes.take();

        let mut device_passes = match device_passes_opt {
            Some(dps) => dps,
            None => {
                return ;
            },
        };

        let ghost dps0 = old(self).device_passes->0@;
        let ghost c0 = transient_resource_cache.view_cache();

        let mut cache_local = TransientResourceCache::new();
        core::mem::swap(transient_resource_cache, &mut cache_local);
        let mut render_context = RenderContext::new(device, cache_local);
        proof {
            assert(dps0.skip(0) =~~= dps0);
        }

        let n = device_passes.len();
        let mut i: usize = 0;
        while i < n
            invariant
                i <= n,
                n == device_passes@.len(),
                old(self).device_passes is Some,
                n == old(self).device_passes->0@.len(),
                render_context.wf(),
                passes@.len() == old(passes)@.len(),
                forall|c: int|
                    i <= c < n ==> (#[trigger] device_passes@[c]) == old(self).device_passes->0@[c],
                dps0 == old(self).device_passes->0@,
                FrameGraph::frame_release_fold(
                    dps0.skip(i as int),
                    render_context.transient_resource_cache.view_cache(),
                ) == FrameGraph::frame_release_fold(dps0, c0),
                old(self).device_passes matches Some(dps) ==> forall|c: int|
                    0 <= c < dps@.len() ==> ((#[trigger] dps@[c]).resource_table.wf() && forall|
                    q: int,
                |
                    0 <= q < dps@[c].logic_passes@.len() ==> (((#[trigger] dps@[
                        c
                    ].logic_passes@[q]).pass_handle.index as int) < old(passes)@.len())),
            decreases n - i,
        {
            proof {
                assert(device_passes@[i as int] == old(self).device_passes->0@[i as int]);
                let dps = old(self).device_passes->0;
                assert(dps@[i as int].resource_table.wf());
                assert(forall|q: int|
                    0 <= q < dps@[i as int].logic_passes@.len() ==> (((#[trigger] dps@[
                        i as int
                    ].logic_passes@[q]).pass_handle.index as int) < old(passes)@.len()));
            }
            let ghost c_cur = render_context.transient_resource_cache.view_cache();
            let device_pass = &mut device_passes[i];
            device_pass.execute(&mut render_context, passes);
            proof {
                assert(dps0.skip(i as int).first() == dps0[i as int]);
                assert(dps0.skip(i as int).drop_first() =~~= dps0.skip(i as int + 1));
                assert(render_context.transient_resource_cache.view_cache() == logic_release_fold(
                    dps0[i as int].resource_table.resources@,
                    c_cur,
                    dps0[i as int].logic_passes@,
                ).1);
            }
            i = i + 1;
        }

        proof {
            assert(dps0.skip(n as int) =~~= Seq::<DevicePass>::empty());
        }
        core::mem::swap(transient_resource_cache, &mut render_context.transient_resource_cache);
    }

    /// Declare a pass: run its setup against a builder, then install the
    /// finished pass node.
    pub fn add_pass<D: DeviceTrait, P: Pass<D>>(
        &mut self,
        insert_point: usize,
        name: &str,
        pass: &mut P,
    )
        requires
            old(self).wf_building(),
            old(self).lifetimes_unset(),
            old(self).arrays_empty(),
        ensures
            final(self).wf_building(),
            final(self).lifetimes_unset(),
            final(self).arrays_empty(),
            final(self).pass_nodes@.len() == old(self).pass_nodes@.len() + 1,
            final(self).pass_nodes@.last().insert_point == insert_point,
            final(self).pass_nodes@.last().name@ == name@,
            final(self).pass_nodes@.last().handle.index == old(self).pass_nodes@.len(),
            final(self).pass_nodes@.last().ref_count == 0,
            final(self).pass_nodes@.last().resource_request_array@.len() == 0,
            final(self).pass_nodes@.last().resource_release_array@.len() == 0,
            final(self).pass_nodes@ == old(self).pass_nodes@.push(final(self).pass_nodes@.last()),
    {
        let handle = self.get_current_pass_node_handle();

        let mut tmp = FrameGraph::new();
        core::mem::swap(self, &mut tmp);

        let mut builder = PassNodeBuilder::new(insert_point, name, handle, tmp);
        pass.setup(&mut builder);

        let (mut g, pass_node) = builder.build();
        core::mem::swap(self, &mut g);

        self.pass_nodes.push(pass_node);

        proof {
            assert(self.pass_nodes@.drop_last() =~~= old(self).pass_nodes@);
            assert(self.pass_nodes@ =~~= old(self).pass_nodes@.push(self.pass_nodes@.last()));
            assert forall|i: int|
                0 <= i < self.pass_nodes@.len() implies (#[trigger] self.pass_nodes@[i]).handle.index
                == i by {}
            assert forall|i: int|
                0 <= i < self.pass_nodes@.len() implies self.wf_pass(
                #[trigger] self.pass_nodes@[i],
            ) by {}
        }
    }
}

} // verus!
