//! What holds of the tree as a whole.

use vstd::prelude::*;

use crate::state::arena;
use crate::state::change;
use crate::state::change::{Edit, Notify};
use crate::state::commit;
use crate::state::error::Fault;
use crate::state::exchanging;
use crate::state::growth;
use crate::state::folding;
use crate::state::guard;
use crate::state::journal;
use crate::state::journal::Tree;
use crate::state::keyed;
use crate::state::marker;
use crate::state::marker::Form;
use crate::state::model;
use crate::state::model::{Tx, MAX_DEPTH, MAX_WALK};
use crate::state::naming;
use crate::state::naming::Title;
use crate::state::node;
use crate::state::node::{NodeId, Projection, Sem};
use crate::state::patching;
use crate::state::plain;
use crate::state::pointer;
use crate::state::pointer::ArrayIndex;
use crate::state::reading;
use crate::state::reconciling;
use crate::state::replay;
use crate::state::replay::Watch;
use crate::state::seeding;
use crate::state::settlement;
use crate::state::shape;
use crate::state::shifting;
use crate::state::slots;
use crate::state::slots::{Entry, MAX_NODES};
use crate::state::state;
use crate::state::streaming;
use crate::state::subscription::SubscriberId;
use crate::state::telling;
use crate::state::text::Chars;
use crate::state::tree;
use crate::state::upkeep;
use crate::state::value;
use crate::state::value::Json;
use crate::state::wire::{PatchOp, Path, StreamOp};

verus! {

/// A tree at rest: it is a tree, no deeper than the cap, in which every node but
/// the root is held once, by its parent; its indices name what is in it; every
/// node has the value its children's values make; and none has the null id.
pub open spec fn sound(tree: Tree) -> bool {
    let s = journal::opened(tree);
    &&& shape::rooted(s)
    &&& shape::linked(s)
    &&& shape::tidied(s)
    &&& shape::bounded(tree.nodes)
    &&& shape::indexed(s)
    &&& shape::consistent(s)
    &&& exchanging::calm(s)
    &&& !tree.nodes.contains_key(NodeId::none())
    &&& forall|id: NodeId| #[trigger]
        tree.nodes.contains_key(id) && tree.nodes[id].parent is None ==> id == tree.root
}

/// Documents of ordered keys, as patch ops carry them.
pub open spec fn formed(ops: Seq<PatchOp>) -> bool {
    forall|i: int| 0 <= i < ops.len() ==> patching::op_formed(#[trigger] ops[i])
}

/// Documents of ordered keys, as stream ops carry them.
pub open spec fn formed_streams(ops: Seq<StreamOp>) -> bool {
    forall|i: int| 0 <= i < ops.len() ==> streaming::op_formed(#[trigger] ops[i])
}

// ----------------------------------------------------------------- transactions

/// A transaction that has done nothing yet is steady.
pub proof fn opened_steady(tree: Tree, ids: Seq<NodeId>)
    requires
        sound(tree),
        shape::unused(journal::opened(tree), ids),
    ensures
        patching::steady(journal::opened(tree), tree.nodes, ids),
{
    let s = journal::opened(tree);
    assert(shape::afloat(s)) by {
        assert forall|id: NodeId| #[trigger] s.live(id) && s.parent_of(id) is None implies id
            == s.root || s.is_pending.contains(id) || shape::carried(s, id) by {
            assert(tree.nodes.contains_key(id));
        }
    }
    reveal(shape::good);
}

/// The ids a transaction took were nobody's before it.
pub proof fn taken_unused(tree: Tree, s: Tx)
    requires
        journal::carries(journal::opened(tree), s),
    ensures
        shape::unused(journal::opened(tree), s.allocated),
        journal::follows(s, s.allocated),
        !tree.nodes.contains_key(NodeId::none()) ==> !s.live(NodeId::none()),
{
    let o = journal::opened(tree);
    let ids = s.allocated;
    reveal(journal::carries);
    reveal(journal::follows);
    journal::before_opened(tree);
    assert forall|k: int| 0 <= k < ids.len() implies !o.live(#[trigger] ids[k]) by {
        assert(s.allocated.contains(ids[k]));
        assert(!journal::before(s).nodes.contains_key(ids[k]));
    }
    if s.live(NodeId::none()) && !s.allocated.contains(NodeId::none()) {
        assert(journal::before(s).nodes.contains_key(NodeId::none()));
    }
}

proof fn patches_steady(
    s: Tx,
    ops: Seq<PatchOp>,
    i: int,
    ids: Seq<NodeId>,
    was: Map<NodeId, Entry>,
)
    requires
        patching::steady(s, was, ids),
        formed(ops),
        0 <= i <= ops.len(),
        model::apply_patches(s, ops, i, ids).1 is Ok,
        model::apply_patches(s, ops, i, ids).0.allocated.len() <= ids.len(),
    ensures
        patching::steady(model::apply_patches(s, ops, i, ids).0, was, ids),
        model::apply_patches(s, ops, i, ids).0.root == s.root,
    decreases ops.len() - i,
{
    if i < ops.len() {
        let t = model::apply_patch_op(s, ops[i], ids).0;
        growth::patches_grow(t, ops, i + 1, ids);
        patching::patch_op_keeps(s, ops[i], ids, was);
        patches_steady(t, ops, i + 1, ids, was);
    }
}

proof fn streams_steady(
    s: Tx,
    ops: Seq<StreamOp>,
    i: int,
    ids: Seq<NodeId>,
    was: Map<NodeId, Entry>,
)
    requires
        patching::steady(s, was, ids),
        formed_streams(ops),
        0 <= i <= ops.len(),
        model::apply_streams(s, ops, i, ids).1 is Ok,
        model::apply_streams(s, ops, i, ids).0.allocated.len() <= ids.len(),
    ensures
        patching::steady(model::apply_streams(s, ops, i, ids).0, was, ids),
        model::apply_streams(s, ops, i, ids).0.root == s.root,
    decreases ops.len() - i,
{
    if i < ops.len() {
        let t = model::apply_stream_op(s, ops[i], ids).0;
        growth::streams_grow(t, ops, i + 1, ids);
        streaming::stream_op_keeps(s, ops[i], ids, was);
        streams_steady(t, ops, i + 1, ids, was);
    }
}

/// A batch that succeeds leaves a steady transaction.
proof fn batch_steady(tree: Tree, ops: Seq<PatchOp>, stream_ops: Seq<StreamOp>, s: Tx)
    requires
        sound(tree),
        formed(ops),
        formed_streams(stream_ops),
        tree::batch(tree, ops, stream_ops, s, Ok(())),
    ensures
        patching::steady(s, tree.nodes, s.allocated),
        s.root == tree.root,
        !s.live(NodeId::none()),
{
    let o = journal::opened(tree);
    let ids = s.allocated;
    taken_unused(tree, s);
    opened_steady(tree, ids);
    assert(model::apply_batch(o, ops, stream_ops, ids) == (s, Ok::<(), Fault>(())));
    let t = model::apply_patches(o, ops, 0, ids).0;
    growth::streams_grow(t, stream_ops, 0, ids);
    patches_steady(o, ops, 0, ids, tree.nodes);
    streams_steady(t, stream_ops, 0, ids, tree.nodes);
}

/// Closing leaves a steady transaction.
proof fn closing_steady(tree: Tree, s: Tx)
    requires
        sound(tree),
        tree::closing(tree, s),
    ensures
        patching::steady(s, tree.nodes, s.allocated),
        s.root == tree.root,
        !s.live(NodeId::none()),
        guard::shows(s, s.root, Json::Null, 1),
{
    let o = journal::opened(tree);
    let ids = s.allocated;
    taken_unused(tree, s);
    opened_steady(tree, ids);
    assert(model::close_tree(o, ids) == s);
    let (t, done) = model::reconcile(o, o.root, Json::Null, Seq::empty(), 0, ids);
    assert(done is Ok) by {
        reveal_with_fuel(model::reconcile, 2);
        reveal_with_fuel(model::rebuild, 2);
        reveal_with_fuel(model::install, 2);
    }
    patching::root_written(o, Json::Null, ids, 1, tree.nodes);
    if s != t {
        patching::steady_alike(t, s, tree.nodes, ids);
    }
}

/// What is committed from a steady transaction is sound.
proof fn committed_sound(s: Tx, was: Map<NodeId, Entry>, ids: Seq<NodeId>)
    requires
        patching::steady(s, was, ids),
        !s.live(NodeId::none()),
    ensures
        sound(commit::committed(s)),
{
    settlement::concluded_all(s, was, ids);
    reveal(shape::good);
    let tree = commit::committed(s);
    let o = journal::opened(tree);
    assert forall|x: NodeId| #[trigger] o.live(x) implies s.live(x) && o.parent_of(x)
        == s.parent_of(x) && o.kids(x) == s.kids(x) && settlement::top(s, x) == s.root by {
        assert(tree.nodes.contains_key(x));
    }
    assert(shape::rooted(o)) by {
        settlement::top_step(s, s.root);
        assert(tree.nodes.contains_key(s.root));
    }
    assert forall|x: NodeId| #[trigger] o.live(x) && s.parent_of(x) is Some implies o.live(
        s.parent_of(x)->0,
    ) by {
        settlement::top_step(s, x);
        shape::depth_step(s, x);
        assert(tree.nodes.contains_key(s.parent_of(x)->0));
    }
    assert(shape::linked(o)) by {
        assert forall|p: NodeId, c: NodeId| #[trigger] o.kids(p).contains(c) implies o.parent_of(c)
            == Some(p) by {
            assert(o.live(p));
            assert(s.kids(p).contains(c));
            assert(s.parent_of(c) == Some(p));
            settlement::top_step(s, c);
            assert(tree.nodes.contains_key(c));
            assert(o.live(c));
        }
        assert forall|p: NodeId| #[trigger] o.kids(p).no_duplicates() by {
            if o.live(p) {
                assert(s.kids(p).no_duplicates());
            }
        }
    }
    assert(shape::tidied(o)) by {
        assert forall|x: NodeId| #[trigger] o.live(x) implies shape::tidy(o.kind(x)) by {
            assert(tree.nodes.contains_key(x));
            assert(s.live(x));
        }
    }
    assert(shape::bounded(tree.nodes)) by {
        assert forall|x: NodeId| #[trigger] tree.nodes.contains_key(x) implies shape::climbs(
            tree.nodes,
            x,
            MAX_DEPTH as nat,
        ) by {
            assert(s.live(x));
            climbs_attached(s, tree, x, MAX_DEPTH as nat);
        }
    }
    assert(shape::indexed(o)) by {
        assert forall|p: Path| #[trigger] o.stores.contains_key(p) implies o.is_store(
            o.stores[p],
            p,
        ) by {
            assert(tree.stores.contains_key(p));
            assert(s.is_store(s.stores[p], p));
            assert(tree.nodes.contains_key(s.stores[p]));
        }
        assert forall|k: (Path, Chars)| #[trigger] o.streams.contains_key(k) implies shape::is_stream(
            o,
            o.streams[k],
            k,
        ) by {
            assert(tree.streams.contains_key(k));
            assert(shape::is_stream(s, s.streams[k], k));
            assert(tree.nodes.contains_key(s.streams[k]));
        }
    }
    assert(shape::consistent(o)) by {
        assert forall|x: NodeId| #[trigger] o.live(x) && !o.settle.contains_key(x) implies
            node::alike(o.nodes[x].sem, o.shallow(x)) by {
            assert(tree.nodes.contains_key(x));
        }
    }
    assert(exchanging::calm(o)) by {
        assert forall|x: NodeId| !#[trigger] shape::adrift(o, x) by {
            if o.parent_of(x) is Some {
                assert(o.live(x));
                assert(!shape::adrift(s, x));
                assert(o.live(s.parent_of(x)->0));
            }
        }
    }
    assert forall|id: NodeId| #[trigger]
        tree.nodes.contains_key(id) && tree.nodes[id].parent is None implies id == tree.root by {
        settlement::top_step(s, id);
    }
}

proof fn climbs_attached(s: Tx, tree: Tree, id: NodeId, n: nat)
    requires
        shape::bounded(s.nodes),
        forall|x: NodeId| #[trigger]
            tree.nodes.contains_key(x) <==> s.live(x) && settlement::top(s, x) == s.root,
        forall|x: NodeId| #[trigger]
            tree.nodes.contains_key(x) ==> tree.nodes[x].parent == s.nodes[x].parent,
        tree.nodes.contains_key(id),
        shape::climbs(s.nodes, id, n),
    ensures
        shape::climbs(tree.nodes, id, n),
    decreases n,
{
    settlement::top_step(s, id);
    if let Some(up) = s.nodes[id].parent {
        shape::depth_step(s, id);
        assert(tree.nodes.contains_key(up));
        climbs_attached(s, tree, up, (n - 1) as nat);
    }
}

// ------------------------------------------------------------------------- laws

/// A new tree is sound.
pub proof fn a_new_tree_is_sound(root: NodeId)
    requires
        root != NodeId::none(),
    ensures
        sound(arena::empty_tree(root)),
{
    let tree = arena::empty_tree(root);
    let s = journal::opened(tree);
    assert(s.kids(root) =~= Seq::<NodeId>::empty());
    assert forall|p: NodeId| (#[trigger] s.kids(p)).len() == 0 by {}
    assert(shape::climbs(tree.nodes, root, MAX_DEPTH as nat));
}

/// A batch that succeeds keeps a tree sound, and keeps its root.
pub proof fn applying_keeps_a_tree_sound(
    tree: Tree,
    ops: Seq<PatchOp>,
    stream_ops: Seq<StreamOp>,
    s: Tx,
)
    requires
        sound(tree),
        formed(ops),
        formed_streams(stream_ops),
        tree::batch(tree, ops, stream_ops, s, Ok(())),
    ensures
        sound(commit::committed(s)),
        commit::committed(s).root == tree.root,
{
    batch_steady(tree, ops, stream_ops, s);
    committed_sound(s, tree.nodes, s.allocated);
    settlement::concluded_all(s, tree.nodes, s.allocated);
}

/// Closing keeps a tree sound, and keeps its root.
pub proof fn closing_keeps_a_tree_sound(tree: Tree, s: Tx)
    requires
        sound(tree),
        tree::closing(tree, s),
    ensures
        sound(commit::committed(s)),
        commit::committed(s).root == tree.root,
{
    closing_steady(tree, s);
    committed_sound(s, tree.nodes, s.allocated);
    settlement::concluded_all(s, tree.nodes, s.allocated);
}

/// Subscribing, and what else writes subscribers alone, keeps a tree sound.
pub proof fn subscribing_keeps_a_tree_sound(
    tree: Tree,
    id: NodeId,
    subs: Seq<SubscriberId>,
    next: u64,
)
    requires
        sound(tree),
    ensures
        sound(
            Tree {
                nodes: slots::with_subs(tree.nodes, id, subs),
                next_subscriber: next,
                ..tree
            },
        ),
{
    let new = Tree {
        nodes: slots::with_subs(tree.nodes, id, subs),
        next_subscriber: next,
        ..tree
    };
    let s = journal::opened(tree);
    let t = journal::opened(new);
    assert(forall|x: NodeId| #[trigger] t.live(x) == s.live(x));
    assert(forall|x: NodeId| #[trigger] t.parent_of(x) == s.parent_of(x));
    assert(forall|x: NodeId| #[trigger] t.kids(x) == s.kids(x));
    assert(shape::linked(t)) by {
        assert forall|p: NodeId, c: NodeId| #[trigger] t.kids(p).contains(c) implies t.parent_of(c)
            == Some(p) by {
            assert(s.kids(p).contains(c));
        }
        assert forall|p: NodeId| #[trigger] t.kids(p).no_duplicates() by {
            assert(s.kids(p).no_duplicates());
        }
    }
    assert(shape::tidied(t)) by {
        assert forall|x: NodeId| #[trigger] t.live(x) implies shape::tidy(t.kind(x)) by {
            assert(s.live(x));
        }
    }
    shape::bounded_cut(s.nodes, t.nodes);
    assert(shape::indexed(t)) by {
        assert forall|p: Path| #[trigger] t.stores.contains_key(p) implies t.is_store(
            t.stores[p],
            p,
        ) by {
            assert(s.stores.contains_key(p));
        }
        assert forall|k: (Path, Chars)| #[trigger] t.streams.contains_key(k) implies shape::is_stream(
            t,
            t.streams[k],
            k,
        ) by {
            assert(s.streams.contains_key(k));
        }
    }
    assert(shape::consistent(t)) by {
        assert forall|x: NodeId| #[trigger] t.live(x) && !t.settle.contains_key(x) implies
            node::alike(t.nodes[x].sem, t.shallow(x)) by {
            assert(s.live(x));
            upkeep::cached_same(s.nodes, t.nodes, s.kids(x));
        }
    }
    assert(exchanging::calm(t)) by {
        assert forall|x: NodeId| !#[trigger] shape::adrift(t, x) by {
            assert(!shape::adrift(s, x));
        }
    }
    assert forall|x: NodeId| #[trigger]
        new.nodes.contains_key(x) && new.nodes[x].parent is None implies x == new.root by {
        assert(tree.nodes.contains_key(x));
    }
}

proof fn deep_is_cached(tree: Tree, id: NodeId, levels: nat)
    requires
        sound(tree),
        tree.nodes.contains_key(id),
        levels + journal::opened(tree).depth(id) >= MAX_DEPTH + 1,
    ensures
        node::alike(model::deep_value(tree.nodes, id, levels), tree.nodes[id].sem),
    decreases levels,
{
    let s = journal::opened(tree);
    shape::depth_step(s, id);
    assert(s.live(id));
    let kids = s.kids(id);
    let parts = model::deep_values(tree.nodes, kids, (levels - 1) as nat);
    let held = model::cached(tree.nodes, kids);
    assert forall|i: int| 0 <= i < kids.len() implies node::alike(parts[i], held[i]) by {
        assert(s.kids(id).contains(kids[i]));
        assert(s.parent_of(kids[i]) == Some(id));
        assert(s.live(kids[i]));
        shape::depth_step(s, kids[i]);
        deep_is_cached(tree, kids[i], (levels - 1) as nat);
    }
    node::alike_assembled(tree.nodes[id].kind, parts, held);
    assert(node::alike(tree.nodes[id].sem, s.shallow(id)));
}

/// The value a node keeps equals the value of its whole subtree.
pub proof fn a_kept_value_is_the_subtree_s(tree: Tree, id: NodeId)
    requires
        sound(tree),
        tree.nodes.contains_key(id),
    ensures
        node::alike(tree.nodes[id].sem, model::subtree_value(tree.nodes, id)),
{
    let s = journal::opened(tree);
    assert(s.live(id));
    shape::depth_step(s, id);
    deep_is_cached(tree, id, MAX_WALK as nat);
}

/// A tree is never empty: its root is always in it.
pub proof fn a_tree_is_never_empty(tree: Tree)
    requires
        sound(tree),
    ensures
        tree.nodes.contains_key(tree.root),
{
}

/// A handle on a key that was not there is dead in every tree: nothing ever gets
/// the id it was given.
pub proof fn a_handle_on_nothing_stays_dead(tree: Tree)
    requires
        sound(tree),
    ensures
        !state::alive(tree, NodeId::none()),
{
}

/// Dropping a subscription undoes it.
pub proof fn dropping_a_subscription_undoes_it(
    tree: Tree,
    id: NodeId,
    subscriber: SubscriberId,
)
    requires
        tree.nodes.contains_key(id),
        !tree.nodes[id].subs.contains(subscriber),
    ensures
        ({
            let subs = tree.nodes[id].subs;
            let with = slots::with_subs(tree.nodes, id, subs.push(subscriber));
            slots::with_subs(
                with,
                id,
                tree::without_subscriber(with[id].subs, subscriber),
            ) == tree.nodes
        }),
{
    let subs = tree.nodes[id].subs;
    let with = slots::with_subs(tree.nodes, id, subs.push(subscriber));
    assert(subs.push(subscriber).drop_last() =~= subs);
    without_nobody(subs, subscriber);
    assert(slots::with_subs(with, id, subs) =~= tree.nodes);
}

proof fn without_nobody(subs: Seq<SubscriberId>, subscriber: SubscriberId)
    requires
        !subs.contains(subscriber),
    ensures
        tree::without_subscriber(subs, subscriber) == subs,
    decreases subs.len(),
{
    if subs.len() > 0 {
        assert(subs[subs.len() - 1] == subs.last());
        assert forall|i: int| 0 <= i < subs.drop_last().len() implies subs.drop_last()[i]
            != subscriber by {
            assert(subs.contains(subs[i]));
        }
        without_nobody(subs.drop_last(), subscriber);
        assert(subs.drop_last().push(subs.last()) =~= subs);
    }
}

/// What a transaction tells of a node that it did not make and does not remove:
/// it is told exactly when the value of its subtree is no longer equal, and its
/// revision is the next one exactly then; any other keeps the very value it had.
pub open spec fn told_of_changes(before: Tree, after: Tree, changed: Seq<NodeId>) -> bool {
    forall|id: NodeId| #[trigger]
        before.nodes.contains_key(id) && after.nodes.contains_key(id) ==> {
            &&& changed.contains(id) <==> !node::alike(
                model::subtree_value(before.nodes, id),
                model::subtree_value(after.nodes, id),
            )
            &&& !changed.contains(id) ==> after.nodes[id].sem == before.nodes[id].sem
            &&& after.nodes[id].revision == (if changed.contains(id) {
                commit::bumped(before.nodes[id].revision)
            } else {
                before.nodes[id].revision
            })
            &&& after.nodes[id].subs == before.nodes[id].subs
        }
}

/// What a transaction tells of the nodes that it removes: all of them, and each
/// node once.
pub open spec fn told_of_removals(before: Tree, after: Tree, changed: Seq<NodeId>) -> bool {
    &&& forall|id: NodeId| #[trigger]
        before.nodes.contains_key(id) && !after.nodes.contains_key(id) ==> changed.contains(id)
    &&& changed.no_duplicates()
}

proof fn commit_tells(tree: Tree, s: Tx)
    requires
        sound(tree),
        patching::steady(s, tree.nodes, s.allocated),
        !s.live(NodeId::none()),
    ensures
        told_of_changes(tree, commit::committed(s), commit::concluded(s).changed),
        told_of_removals(tree, commit::committed(s), commit::concluded(s).changed),
{
    settlement::concluded_all(s, tree.nodes, s.allocated);
    committed_sound(s, tree.nodes, s.allocated);
    let after = commit::committed(s);
    let changed = commit::concluded(s).changed;
    assert(shape::recalled(s, tree.nodes)) by {
        reveal(shape::good);
    }
    assert forall|id: NodeId| #[trigger]
        tree.nodes.contains_key(id) && after.nodes.contains_key(id) implies ({
        &&& changed.contains(id) <==> !node::alike(
            model::subtree_value(tree.nodes, id),
            model::subtree_value(after.nodes, id),
        )
        &&& !changed.contains(id) ==> after.nodes[id].sem == tree.nodes[id].sem
        &&& after.nodes[id].revision == (if changed.contains(id) {
            commit::bumped(tree.nodes[id].revision)
        } else {
            tree.nodes[id].revision
        })
        &&& after.nodes[id].subs == tree.nodes[id].subs
    }) by {
        a_kept_value_is_the_subtree_s(tree, id);
        a_kept_value_is_the_subtree_s(after, id);
    }
    assert forall|id: NodeId| #[trigger]
        tree.nodes.contains_key(id) && !after.nodes.contains_key(id) implies changed.contains(
        id,
    ) by {
        assert(s.live(id));
    }
}

/// A batch tells of a node exactly when its value changed, whatever happened to
/// it on the way, and of every node it removes.
pub proof fn a_node_is_told_exactly_when_its_value_changed(
    tree: Tree,
    ops: Seq<PatchOp>,
    stream_ops: Seq<StreamOp>,
    s: Tx,
)
    requires
        sound(tree),
        formed(ops),
        formed_streams(stream_ops),
        tree::batch(tree, ops, stream_ops, s, Ok(())),
    ensures
        told_of_changes(tree, commit::committed(s), commit::concluded(s).changed),
        told_of_removals(tree, commit::committed(s), commit::concluded(s).changed),
{
    batch_steady(tree, ops, stream_ops, s);
    commit_tells(tree, s);
}

/// An upload slot is quiet: of one that a batch leaves as it was nothing is told,
/// and its revision stays.
pub proof fn an_upload_slot_is_quiet(
    tree: Tree,
    ops: Seq<PatchOp>,
    stream_ops: Seq<StreamOp>,
    s: Tx,
    id: NodeId,
)
    requires
        sound(tree),
        formed(ops),
        formed_streams(stream_ops),
        tree::batch(tree, ops, stream_ops, s, Ok(())),
        tree.nodes.contains_key(id),
        tree.nodes[id].kind is Upload,
        commit::committed(s).nodes.contains_key(id),
        commit::committed(s).nodes[id].kind == tree.nodes[id].kind,
    ensures
        !commit::concluded(s).changed.contains(id),
        commit::committed(s).nodes[id].revision == tree.nodes[id].revision,
{
    let after = commit::committed(s);
    a_node_is_told_exactly_when_its_value_changed(tree, ops, stream_ops, s);
    let a = model::deep_values(tree.nodes, tree.nodes[id].kind.kids(), (MAX_WALK - 1) as nat);
    let b = model::deep_values(after.nodes, tree.nodes[id].kind.kids(), (MAX_WALK - 1) as nat);
    assert(a =~= b);
}

/// Whether a batch of a transaction leads from one state of it to another.
pub open spec fn joins(s: Tx, ops: Seq<PatchOp>, stream_ops: Seq<StreamOp>, t: Tx) -> bool {
    &&& journal::carries(s, t)
    &&& forall|ids: Seq<NodeId>| #[trigger]
        journal::follows(t, ids) ==> model::apply_batch(s, ops, stream_ops, ids) == (
            t,
            Ok::<(), Fault>(()),
        )
}

/// Whether a transaction on a tree went through some states, by one batch after
/// another.
pub open spec fn driven(
    tree: Tree,
    batches: Seq<(Seq<PatchOp>, Seq<StreamOp>)>,
    states: Seq<Tx>,
) -> bool {
    &&& states.len() == batches.len() + 1
    &&& states[0] == journal::opened(tree)
    &&& forall|i: int|
        0 <= i < batches.len() ==> joins(
            states[i],
            (#[trigger] batches[i]).0,
            batches[i].1,
            states[i + 1],
        )
}

proof fn driven_carries(
    tree: Tree,
    batches: Seq<(Seq<PatchOp>, Seq<StreamOp>)>,
    states: Seq<Tx>,
    i: int,
)
    requires
        driven(tree, batches, states),
        0 <= i < states.len(),
        batches.len() > 0,
    ensures
        i < batches.len() ==> journal::carries(states[i], states.last()),
        i == batches.len() ==> states[i] == states.last(),
    decreases batches.len() - i,
{
    if i < batches.len() {
        driven_carries(tree, batches, states, i + 1);
        assert(joins(states[i], batches[i].0, batches[i].1, states[i + 1]));
        if i + 1 < batches.len() {
            journal::carries_on(states[i], states[i + 1], states.last());
        }
    }
}

proof fn driven_steady(
    tree: Tree,
    batches: Seq<(Seq<PatchOp>, Seq<StreamOp>)>,
    states: Seq<Tx>,
    i: int,
)
    requires
        sound(tree),
        driven(tree, batches, states),
        0 <= i < states.len(),
        batches.len() > 0,
        forall|k: int|
            0 <= k < batches.len() ==> formed((#[trigger] batches[k]).0) && formed_streams(
                batches[k].1,
            ),
    ensures
        patching::steady(states[i], tree.nodes, states.last().allocated),
        states[i].root == tree.root,
    decreases i,
{
    let end = states.last();
    let ids = end.allocated;
    if i == 0 {
        driven_carries(tree, batches, states, 0);
        taken_unused(tree, end);
        opened_steady(tree, ids);
    } else {
        driven_steady(tree, batches, states, i - 1);
        let a = states[i - 1];
        let b = states[i];
        let ops = batches[i - 1].0;
        let stream_ops = batches[i - 1].1;
        assert(joins(a, ops, stream_ops, b));
        driven_carries(tree, batches, states, i);
        reveal(journal::follows);
        reveal(journal::carries);
        assert(journal::follows(b, ids));
        assert(model::apply_batch(a, ops, stream_ops, ids) == (b, Ok::<(), Fault>(())));
        let t = model::apply_patches(a, ops, 0, ids).0;
        growth::streams_grow(t, stream_ops, 0, ids);
        patches_steady(a, ops, 0, ids, tree.nodes);
        streams_steady(t, stream_ops, 0, ids, tree.nodes);
    }
}

/// Every batch joins the same transaction: whatever batches it takes, what is
/// committed is sound, the root is the same, and a node is told exactly when its
/// value is not what it was when the transaction opened; and until then, taking
/// it back leaves the tree as it was.
pub proof fn batches_join_one_transaction(
    tree: Tree,
    batches: Seq<(Seq<PatchOp>, Seq<StreamOp>)>,
    states: Seq<Tx>,
)
    requires
        sound(tree),
        driven(tree, batches, states),
        batches.len() > 0,
        forall|k: int|
            0 <= k < batches.len() ==> formed((#[trigger] batches[k]).0) && formed_streams(
                batches[k].1,
            ),
    ensures
        ({
            let s = states.last();
            let after = commit::committed(s);
            &&& sound(after)
            &&& after.root == tree.root
            &&& told_of_changes(tree, after, commit::concluded(s).changed)
            &&& told_of_removals(tree, after, commit::concluded(s).changed)
            &&& journal::before(s) == tree
        }),
{
    let s = states.last();
    driven_steady(tree, batches, states, batches.len() as int);
    driven_carries(tree, batches, states, 0);
    taken_unused(tree, s);
    committed_sound(s, tree.nodes, s.allocated);
    settlement::concluded_all(s, tree.nodes, s.allocated);
    commit_tells(tree, s);
    reveal(journal::carries);
    journal::before_opened(tree);
}

/// Closing tells of a node exactly when its value changed, and of every node it
/// removes: of all but the root.
pub proof fn closing_tells_everyone(tree: Tree, s: Tx)
    requires
        sound(tree),
        tree::closing(tree, s),
    ensures
        told_of_changes(tree, commit::committed(s), commit::concluded(s).changed),
        told_of_removals(tree, commit::committed(s), commit::concluded(s).changed),
        forall|id: NodeId| #[trigger]
            commit::committed(s).nodes.contains_key(id) ==> id == tree.root,
        commit::committed(s).nodes[tree.root].sem == Sem::Null,
        commit::committed(s).closed,
{
    closing_steady(tree, s);
    commit_tells(tree, s);
    settlement::concluded_all(s, tree.nodes, s.allocated);
    committed_sound(s, tree.nodes, s.allocated);
    let after = commit::committed(s);
    let o = journal::opened(after);
    assert(s.kind(s.root) is Null);
    assert(o.live(after.root));
    assert forall|id: NodeId| #[trigger] after.nodes.contains_key(id) implies id == tree.root by {
        assert(o.live(id));
        only_the_root(after, id, o.depth(id));
    }
    assert(node::alike(after.nodes[tree.root].sem, o.shallow(tree.root)));
    taken_unused(tree, s);
    assert(model::close_tree(journal::opened(tree), s.allocated) == s);
}

proof fn only_the_root(tree: Tree, id: NodeId, n: nat)
    requires
        sound(tree),
        tree.nodes[tree.root].kind is Null,
        tree.nodes.contains_key(id),
        n == journal::opened(tree).depth(id),
    ensures
        id == tree.root,
    decreases n,
{
    let o = journal::opened(tree);
    assert(o.live(id));
    shape::depth_step(o, id);
    if let Some(up) = o.parent_of(id) {
        assert(tree.nodes.contains_key(up));
        only_the_root(tree, up, o.depth(up));
        assert(!shape::adrift(o, id));
        assert(o.kids(up).contains(id));
    }
}

/// A closed tree refuses every batch, with nothing done.
pub proof fn a_closed_tree_refuses(
    s: Tx,
    ops: Seq<PatchOp>,
    stream_ops: Seq<StreamOp>,
    ids: Seq<NodeId>,
)
    requires
        s.closed,
    ensures
        model::apply_batch(s, ops, stream_ops, ids) == (s, Err::<(), Fault>(Fault::Closed)),
{
}

// ---------------------------------------------------------------- reading back

/// The transaction that a batch's last op is applied to.
pub open spec fn before_last(tree: Tree, ops: Seq<PatchOp>, s: Tx) -> Tx {
    model::apply_patches(journal::opened(tree), ops.drop_last(), 0, s.allocated).0.unclaim()
}

/// Where a pointer leads in a tree at rest.
pub open spec fn found(tree: Tree, tokens: Seq<Chars>, path: Chars) -> Result<NodeId, Fault> {
    model::walk(journal::opened(tree), tokens, path)
}

/// The document an op writes.
pub open spec fn written(op: PatchOp) -> Option<Json> {
    match op {
        PatchOp::Add { value, .. } => Some(value@),
        PatchOp::Replace { value, .. } => Some(value@),
        PatchOp::Remove { .. } => None,
    }
}

/// Whether an op is an `add` at the end of an array.
pub open spec fn pushes(s: Tx, op: PatchOp, tokens: Seq<Chars>) -> bool {
    op is Add && patching::appends(s, tokens, op.path_text())
}

/// One patch op.
#[verifier::opaque]
pub open spec fn one_op(s: Tx, op: PatchOp, ids: Seq<NodeId>) -> model::Outcome<()> {
    model::apply_patch_op(s, op, ids)
}

spec fn each_op(s: Tx, ops: Seq<PatchOp>, i: int, ids: Seq<NodeId>) -> model::Outcome<()>
    decreases ops.len() - i,
{
    if i < 0 || i >= ops.len() {
        (s, Ok(()))
    } else {
        let (t, done) = one_op(s, ops[i], ids);
        match done {
            Ok(_) => each_op(t, ops, i + 1, ids),
            Err(fault) => (t, Err(fault)),
        }
    }
}

proof fn op_by_op(s: Tx, ops: Seq<PatchOp>, i: int, ids: Seq<NodeId>)
    ensures
        each_op(s, ops, i, ids) == model::apply_patches(s, ops, i, ids),
    decreases ops.len() - i,
{
    if 0 <= i < ops.len() {
        reveal(one_op);
        op_by_op(one_op(s, ops[i], ids).0, ops, i + 1, ids);
    }
}

/// The ops before the last one succeed, and the last one follows them.
proof fn but_last(s: Tx, ops: Seq<PatchOp>, i: int, ids: Seq<NodeId>)
    requires
        0 <= i < ops.len(),
        each_op(s, ops, i, ids).1 is Ok,
    ensures
        each_op(s, ops.drop_last(), i, ids).1 is Ok,
        each_op(s, ops, i, ids) == one_op(
            each_op(s, ops.drop_last(), i, ids).0,
            ops.last(),
            ids,
        ),
    decreases ops.len() - i,
{
    let (t, done) = one_op(s, ops[i], ids);
    if i < ops.len() - 1 {
        assert(ops.drop_last()[i] == ops[i]);
        but_last(t, ops, i + 1, ids);
    } else {
        assert(each_op(s, ops.drop_last(), i, ids) == (s, Ok::<(), Fault>(())));
        assert(each_op(t, ops, i + 1, ids) == (t, Ok::<(), Fault>(())));
        assert(done is Ok);
        if let Ok(unit) = done {
            assert(unit == ());
        }
    }
}

/// A batch of patch ops ends with its last one.
pub proof fn last_op(tree: Tree, ops: Seq<PatchOp>, s: Tx)
    requires
        sound(tree),
        formed(ops),
        ops.len() > 0,
        tree::batch(tree, ops, Seq::empty(), s, Ok(())),
    ensures
        patching::steady(before_last(tree, ops, s), tree.nodes, s.allocated),
        one_op(before_last(tree, ops, s), ops.last(), s.allocated) == (s, Ok::<(), Fault>(())),
        !s.live(NodeId::none()),
{
    let o = journal::opened(tree);
    let ids = s.allocated;
    let front = ops.drop_last();
    let t = model::apply_patches(o, front, 0, ids).0;
    taken_unused(tree, s);
    opened_steady(tree, ids);
    assert(one_op(t, ops.last(), ids) == (s, Ok::<(), Fault>(())) && model::apply_patches(
        o,
        front,
        0,
        ids,
    ).1 is Ok) by {
        assert(model::apply_batch(o, ops, Seq::empty(), ids) == (s, Ok::<(), Fault>(())));
        op_by_op(o, ops, 0, ids);
        op_by_op(o, front, 0, ids);
        let (all, done) = each_op(o, ops, 0, ids);
        assert(model::apply_streams(all, Seq::empty(), 0, ids) == (all, Ok::<(), Fault>(())));
        but_last(o, ops, 0, ids);
        if let Ok(unit) = done {
            assert(unit == ());
        }
    }
    assert(formed(front)) by {
        assert forall|i: int| 0 <= i < front.len() implies patching::op_formed(
            #[trigger] front[i],
        ) by {
            assert(patching::op_formed(ops[i]));
        }
    }
    unclaimed_op(t, ops.last(), ids);
    one_op_grows(t, ops.last(), ids);
    patches_steady(o, front, 0, ids, tree.nodes);
    patching::steady_alike(t, t.unclaim(), tree.nodes, ids);
}

/// An op starts with nothing claimed, whatever was.
pub proof fn unclaimed_op(t: Tx, op: PatchOp, ids: Seq<NodeId>)
    ensures
        one_op(t.unclaim(), op, ids) == one_op(t, op, ids),
{
    reveal(one_op);
    assert(t.unclaim().unclaim() == t.unclaim());
}

proof fn one_op_grows(t: Tx, op: PatchOp, ids: Seq<NodeId>)
    ensures
        t.allocated.len() <= one_op(t, op, ids).0.allocated.len(),
{
    reveal(one_op);
    growth::patch_op_grows(t, op, ids);
}

/// A pointer leads in the committed tree where it led before.
pub proof fn walk_committed(s: Tx, tree: Tree, id: NodeId, tokens: Seq<Chars>, path: Chars)
    requires
        shape::linked(s),
        shape::bounded(s.nodes),
        settlement::concludes(s, tree, commit::concluded(s).changed),
        tree.nodes.contains_key(id),
    ensures
        model::walk_from(journal::opened(tree), id, tokens, path) == model::walk_from(
            s,
            id,
            tokens,
            path,
        ),
        model::walk_from(s, id, tokens, path) is Ok ==> tree.nodes.contains_key(
            model::walk_from(s, id, tokens, path)->Ok_0,
        ),
    decreases tokens.len(),
{
    if tokens.len() > 0 {
        let o = journal::opened(tree);
        assert(s.live(id) && o.live(id) && o.kind(id) == s.kind(id));
        assert(model::step_to(o, id, tokens[0], path) == model::step_to(s, id, tokens[0], path));
        if let Ok(next) = model::step_to(s, id, tokens[0], path) {
            patching::step_child(s, id, tokens[0], path);
            kid_committed(s, tree, id, next);
            walk_committed(s, tree, next, tokens.drop_first(), path);
        }
    }
}

/// The children of a node that stays in the tree stay in it.
pub proof fn kid_committed(s: Tx, tree: Tree, id: NodeId, kid: NodeId)
    requires
        shape::linked(s),
        shape::bounded(s.nodes),
        settlement::concludes(s, tree, commit::concluded(s).changed),
        tree.nodes.contains_key(id),
        s.kids(id).contains(kid),
    ensures
        tree.nodes.contains_key(kid),
{
    assert(s.parent_of(kid) == Some(id));
    assert(s.live(kid));
    assert(s.live(id));
    settlement::top_step(s, kid);
}

/// A node that stays in the tree has the subtree it had.
proof fn deep_committed(s: Tx, tree: Tree, id: NodeId, levels: nat)
    requires
        shape::linked(s),
        shape::bounded(s.nodes),
        settlement::concludes(s, tree, commit::concluded(s).changed),
        tree.nodes.contains_key(id),
    ensures
        model::deep_value(tree.nodes, id, levels) == model::deep_value(s.nodes, id, levels),
    decreases levels,
{
    if levels > 0 {
        assert(s.live(id));
        let kids = s.kids(id);
        let less = (levels - 1) as nat;
        assert forall|i: int| 0 <= i < kids.len() implies model::deep_values(
            tree.nodes,
            kids,
            less,
        )[i] == model::deep_values(s.nodes, kids, less)[i] by {
            assert(s.kids(id).contains(kids[i]));
            kid_committed(s, tree, id, kids[i]);
            deep_committed(s, tree, kids[i], less);
        }
        assert(model::deep_values(tree.nodes, kids, less) =~= model::deep_values(
            s.nodes,
            kids,
            less,
        ));
    }
}

/// What a node of a transaction shows, it has as its value once that is
/// committed.
proof fn shown_committed(
    s: Tx,
    id: NodeId,
    v: Json,
    n: nat,
    was: Map<NodeId, Entry>,
    ids: Seq<NodeId>,
)
    requires
        patching::steady(s, was, ids),
        !s.live(NodeId::none()),
        v.well_formed(),
        guard::shows(s, id, v, n),
        commit::committed(s).nodes.contains_key(id),
    ensures
        folding::reads_as(node::wire(commit::committed(s).nodes[id].sem), reading::normal(v)),
{
    let tree = commit::committed(s);
    settlement::concluded_all(s, was, ids);
    committed_sound(s, was, ids);
    reveal(shape::good);
    a_kept_value_is_the_subtree_s(tree, id);
    deep_committed(s, tree, id, MAX_WALK as nat);
    assert(s.live(id));
    shape::depth_step(s, id);
    reading::shown_reads(s, id, v, n, MAX_WALK as nat);
    folding::folded_projected(tree.nodes[id].sem, Projection::Wire);
    folding::folded_projected(model::subtree_value(tree.nodes, id), Projection::Wire);
    folding::equal_reads(node::wire(tree.nodes[id].sem), reading::normal(v));
}

/// A document that a batch writes last reads back: the pointer it was written at
/// leads to a node whose wire value is that document, in its normal form, but for the
/// sign of a float zero.
pub proof fn a_written_document_reads_back(tree: Tree, ops: Seq<PatchOp>, s: Tx, v: Json)
    requires
        sound(tree),
        formed(ops),
        ops.len() > 0,
        tree::batch(tree, ops, Seq::empty(), s, Ok(())),
        written(ops.last()) == Some(v),
    ensures
        ({
            let path = ops.last().path_text();
            let tokens = pointer::pointer_tokens(path)->0;
            let before = before_last(tree, ops, s);
            let after = commit::committed(s);
            let plain = model::marker_index(tokens) >= tokens.len() && !patching::is_status(
                before,
                tokens,
                path,
            );
            &&& plain && !pushes(before, ops.last(), tokens) ==> found(after, tokens, path) is Ok
                && after.nodes.contains_key(found(after, tokens, path)->Ok_0) && folding::reads_as(
                node::wire(after.nodes[found(after, tokens, path)->Ok_0].sem),
                reading::normal(v),
            )
            &&& plain && pushes(before, ops.last(), tokens) ==> {
                let array = found(after, tokens.drop_last(), path)->Ok_0;
                let items = journal::opened(after).kids(array);
                &&& found(after, tokens.drop_last(), path) == model::walk(
                    before,
                    tokens.drop_last(),
                    path,
                )
                &&& items.len() == before.kids(array).len() + 1
                &&& after.nodes.contains_key(items.last())
                &&& folding::reads_as(
                    node::wire(after.nodes[items.last()].sem),
                    reading::normal(v),
                )
            }
        }),
{
    let path = ops.last().path_text();
    let tokens = pointer::pointer_tokens(path)->0;
    let before = before_last(tree, ops, s);
    let after = commit::committed(s);
    let ids = s.allocated;
    let n = value::nesting(v) + 1;
    last_op(tree, ops, s);
    reveal(one_op);
    assert(patching::op_formed(ops[ops.len() - 1]));
    assert(before.unclaim() == before);
    if model::marker_index(tokens) >= tokens.len() && !patching::is_status(before, tokens, path) {
        if ops.last() is Add {
            patching::add_keeps(before, tokens, v, path, ids, n, tree.nodes);
        } else {
            patching::replace_keeps(before, tokens, v, path, ids, n, tree.nodes);
        }
        settlement::concluded_all(s, tree.nodes, ids);
        assert(shape::linked(s) && shape::bounded(s.nodes) && s.live(s.root) && s.parent_of(s.root)
            is None) by {
            reveal(shape::good);
        }
        settlement::top_step(s, s.root);
        assert(after.nodes.contains_key(s.root));
        if pushes(before, ops.last(), tokens) {
            let front = tokens.drop_last();
            walk_committed(s, after, s.root, front, path);
            let array = found(after, front, path)->Ok_0;
            let kid = s.kids(array).last();
            assert(journal::opened(after).kids(array) == s.kids(array));
            assert(s.kids(array).contains(kid));
            kid_committed(s, after, array, kid);
            shown_committed(s, kid, v, n, tree.nodes, ids);
        } else {
            walk_committed(s, after, s.root, tokens, path);
            shown_committed(s, found(after, tokens, path)->Ok_0, v, n, tree.nodes, ids);
        }
    }
}

/// A status that a batch writes last reads back: the pointer above it leads to an
/// async node of that status.
pub proof fn a_written_status_reads_back(tree: Tree, ops: Seq<PatchOp>, s: Tx, v: Json)
    requires
        sound(tree),
        formed(ops),
        ops.len() > 0,
        tree::batch(tree, ops, Seq::empty(), s, Ok(())),
        written(ops.last()) == Some(v),
        ({
            let path = ops.last().path_text();
            let tokens = pointer::pointer_tokens(path)->0;
            &&& model::marker_index(tokens) >= tokens.len()
            &&& patching::is_status(before_last(tree, ops, s), tokens, path)
        }),
    ensures
        ({
            let path = ops.last().path_text();
            let tokens = pointer::pointer_tokens(path)->0;
            patching::status_reads(
                journal::opened(commit::committed(s)),
                tokens.drop_last(),
                path,
                v,
            )
        }),
{
    let path = ops.last().path_text();
    let tokens = pointer::pointer_tokens(path)->0;
    let before = before_last(tree, ops, s);
    let after = commit::committed(s);
    let ids = s.allocated;
    let n = value::nesting(v) + 1;
    last_op(tree, ops, s);
    reveal(one_op);
    assert(patching::op_formed(ops[ops.len() - 1]));
    assert(before.unclaim() == before);
    if ops.last() is Add {
        patching::add_keeps(before, tokens, v, path, ids, n, tree.nodes);
    } else {
        patching::replace_keeps(before, tokens, v, path, ids, n, tree.nodes);
    }
    rest_reached(tree, s, tokens.drop_last(), path);
}

/// A pointer leads in the committed tree where it led before, from the root.
proof fn rest_reached(tree: Tree, s: Tx, tokens: Seq<Chars>, path: Chars)
    requires
        patching::steady(s, tree.nodes, s.allocated),
    ensures
        found(commit::committed(s), tokens, path) == model::walk(s, tokens, path),
        model::walk(s, tokens, path) matches Ok(id) ==> commit::committed(s).nodes.contains_key(id)
            && commit::committed(s).nodes[id].kind == s.kind(id),
{
    let after = commit::committed(s);
    settlement::concluded_all(s, tree.nodes, s.allocated);
    assert(shape::linked(s) && shape::bounded(s.nodes) && s.live(s.root) && s.parent_of(s.root)
        is None) by {
        reveal(shape::good);
    }
    settlement::top_step(s, s.root);
    assert(after.nodes.contains_key(s.root));
    walk_committed(s, after, s.root, tokens, path);
}

/// What a batch removes last is gone: an object or a store has the key no more,
/// and an array has closed the gap.
pub proof fn a_removed_slot_is_gone(tree: Tree, ops: Seq<PatchOp>, s: Tx)
    requires
        sound(tree),
        formed(ops),
        ops.len() > 0,
        tree::batch(tree, ops, Seq::empty(), s, Ok(())),
        ops.last() is Remove,
        ({
            let tokens = pointer::pointer_tokens(ops.last().path_text())->0;
            model::marker_index(tokens) >= tokens.len()
        }),
    ensures
        ({
            let path = ops.last().path_text();
            patching::taken_out(
                before_last(tree, ops, s),
                journal::opened(commit::committed(s)),
                pointer::pointer_tokens(path)->0,
                path,
            )
        }),
{
    let path = ops.last().path_text();
    let tokens = pointer::pointer_tokens(path)->0;
    let before = before_last(tree, ops, s);
    last_op(tree, ops, s);
    reveal(one_op);
    assert(before.unclaim() == before);
    patching::remove_keeps(before, tokens, path, tree.nodes, s.allocated);
    rest_reached(tree, s, tokens.drop_last(), path);
}

/// One stream op.
#[verifier::opaque]
pub open spec fn one_stream_op(s: Tx, op: StreamOp, ids: Seq<NodeId>) -> model::Outcome<()> {
    model::apply_stream_op(s, op, ids)
}

spec fn each_stream_op(s: Tx, ops: Seq<StreamOp>, i: int, ids: Seq<NodeId>) -> model::Outcome<()>
    decreases ops.len() - i,
{
    if i < 0 || i >= ops.len() {
        (s, Ok(()))
    } else {
        let (t, done) = one_stream_op(s, ops[i], ids);
        match done {
            Ok(_) => each_stream_op(t, ops, i + 1, ids),
            Err(fault) => (t, Err(fault)),
        }
    }
}

proof fn stream_op_by_op(s: Tx, ops: Seq<StreamOp>, i: int, ids: Seq<NodeId>)
    ensures
        each_stream_op(s, ops, i, ids) == model::apply_streams(s, ops, i, ids),
    decreases ops.len() - i,
{
    if 0 <= i < ops.len() {
        reveal(one_stream_op);
        stream_op_by_op(one_stream_op(s, ops[i], ids).0, ops, i + 1, ids);
    }
}

/// The stream ops before the last one succeed, and the last one follows them.
proof fn but_last_stream(s: Tx, ops: Seq<StreamOp>, i: int, ids: Seq<NodeId>)
    requires
        0 <= i < ops.len(),
        each_stream_op(s, ops, i, ids).1 is Ok,
    ensures
        each_stream_op(s, ops.drop_last(), i, ids).1 is Ok,
        each_stream_op(s, ops, i, ids) == one_stream_op(
            each_stream_op(s, ops.drop_last(), i, ids).0,
            ops.last(),
            ids,
        ),
    decreases ops.len() - i,
{
    let (t, done) = one_stream_op(s, ops[i], ids);
    if i < ops.len() - 1 {
        assert(ops.drop_last()[i] == ops[i]);
        but_last_stream(t, ops, i + 1, ids);
    } else {
        assert(each_stream_op(s, ops.drop_last(), i, ids) == (s, Ok::<(), Fault>(())));
        assert(each_stream_op(t, ops, i + 1, ids) == (t, Ok::<(), Fault>(())));
        assert(done is Ok);
        if let Ok(unit) = done {
            assert(unit == ());
        }
    }
}

/// Where an `add` under a key of an array inserts.
pub open spec fn inserts_at(s: Tx, array: NodeId, key: Chars) -> int {
    match pointer::index_meaning(key) {
        Some(ArrayIndex::At(at)) => at as int,
        _ => s.kids(array).len() as int,
    }
}

/// An `add` into an array moves nodes, not values: every element is the node it
/// was, and those from the place of the insertion on are one place further. Only
/// a stream may have moved into what was inserted.
pub proof fn an_insertion_moves_nodes(
    tree: Tree,
    ops: Seq<PatchOp>,
    s: Tx,
    v: Json,
    array: NodeId,
)
    requires
        sound(tree),
        formed(ops),
        ops.len() > 0,
        tree::batch(tree, ops, Seq::empty(), s, Ok(())),
        ops.last() is Add,
        written(ops.last()) == Some(v),
        ({
            let path = ops.last().path_text();
            let tokens = pointer::pointer_tokens(path)->0;
            let before = before_last(tree, ops, s);
            &&& model::marker_index(tokens) >= tokens.len()
            &&& tokens.len() > 0
            &&& model::walk(before, tokens.drop_last(), path) == Ok::<NodeId, Fault>(array)
            &&& before.kind(array) is Array
        }),
        commit::committed(s).nodes.contains_key(array),
    ensures
        ({
            let tokens = pointer::pointer_tokens(ops.last().path_text())->0;
            let before = before_last(tree, ops, s);
            shifting::shifted(
                before,
                before.kids(array),
                journal::opened(commit::committed(s)).kids(array),
                inserts_at(before, array, tokens.last()),
            )
        }),
{
    let path = ops.last().path_text();
    let tokens = pointer::pointer_tokens(path)->0;
    let front = tokens.drop_last();
    let before = before_last(tree, ops, s);
    let ids = s.allocated;
    last_op(tree, ops, s);
    reveal(one_op);
    assert(patching::op_formed(ops[ops.len() - 1]));
    assert(before.unclaim() == before);
    patching::walk_ready(before, front, path, tree.nodes, ids);
    shifting::array_add_shifts(
        before,
        array,
        inserts_at(before, array, tokens.last()),
        v,
        before.owner_of(array),
        model::deeper(front.len()),
        ids,
        tree.nodes,
    );
    batch_steady(tree, ops, Seq::empty(), s);
    settlement::concluded_all(s, tree.nodes, ids);
}

/// The transaction that a batch's last stream op is applied to.
pub open spec fn before_last_stream(
    tree: Tree,
    ops: Seq<PatchOp>,
    stream_ops: Seq<StreamOp>,
    s: Tx,
) -> Tx {
    model::apply_streams(
        model::apply_patches(journal::opened(tree), ops, 0, s.allocated).0,
        stream_ops.drop_last(),
        0,
        s.allocated,
    ).0.unclaim()
}

proof fn one_stream_op_grows(t: Tx, op: StreamOp, ids: Seq<NodeId>)
    ensures
        t.allocated.len() <= one_stream_op(t, op, ids).0.allocated.len(),
        one_stream_op(t.unclaim(), op, ids) == one_stream_op(t, op, ids),
{
    reveal(one_stream_op);
    growth::stream_op_grows(t, op, ids);
    assert(t.unclaim().unclaim() == t.unclaim());
}

/// A batch ends with its last stream op.
pub proof fn last_stream_op(tree: Tree, ops: Seq<PatchOp>, stream_ops: Seq<StreamOp>, s: Tx)
    requires
        sound(tree),
        formed(ops),
        formed_streams(stream_ops),
        stream_ops.len() > 0,
        tree::batch(tree, ops, stream_ops, s, Ok(())),
    ensures
        patching::steady(
            before_last_stream(tree, ops, stream_ops, s),
            tree.nodes,
            s.allocated,
        ),
        one_stream_op(
            before_last_stream(tree, ops, stream_ops, s),
            stream_ops.last(),
            s.allocated,
        ) == (s, Ok::<(), Fault>(())),
        !s.live(NodeId::none()),
{
    let o = journal::opened(tree);
    let ids = s.allocated;
    let front = stream_ops.drop_last();
    taken_unused(tree, s);
    opened_steady(tree, ids);
    assert(model::apply_batch(o, ops, stream_ops, ids) == (s, Ok::<(), Fault>(())));
    let p = model::apply_patches(o, ops, 0, ids).0;
    let t = model::apply_streams(p, front, 0, ids).0;
    stream_op_by_op(p, stream_ops, 0, ids);
    stream_op_by_op(p, front, 0, ids);
    but_last_stream(p, stream_ops, 0, ids);
    one_stream_op_grows(t, stream_ops.last(), ids);
    growth::streams_grow(p, front, 0, ids);
    patches_steady(o, ops, 0, ids, tree.nodes);
    assert(formed_streams(front)) by {
        assert forall|i: int| 0 <= i < front.len() implies streaming::op_formed(
            #[trigger] front[i],
        ) by {
            assert(streaming::op_formed(stream_ops[i]));
        }
    }
    streams_steady(p, front, 0, ids, tree.nodes);
    patching::steady_alike(t, t.unclaim(), tree.nodes, ids);
}

/// A batch's last stream op follows the one before it.
pub proof fn last_but_one(tree: Tree, ops: Seq<PatchOp>, stream_ops: Seq<StreamOp>, s: Tx)
    requires
        sound(tree),
        formed(ops),
        formed_streams(stream_ops),
        stream_ops.len() > 1,
        tree::batch(tree, ops, stream_ops, s, Ok(())),
    ensures
        patching::steady(
            before_last_stream(tree, ops, stream_ops.drop_last(), s),
            tree.nodes,
            s.allocated,
        ),
        before_last_stream(tree, ops, stream_ops, s) == one_stream_op(
            before_last_stream(tree, ops, stream_ops.drop_last(), s),
            stream_ops.drop_last().last(),
            s.allocated,
        ).0.unclaim(),
{
    let o = journal::opened(tree);
    let ids = s.allocated;
    let front = stream_ops.drop_last();
    let first = front.drop_last();
    taken_unused(tree, s);
    opened_steady(tree, ids);
    assert(model::apply_batch(o, ops, stream_ops, ids) == (s, Ok::<(), Fault>(())));
    let p = model::apply_patches(o, ops, 0, ids).0;
    let t = model::apply_streams(p, front, 0, ids).0;
    let u = model::apply_streams(p, first, 0, ids).0;
    stream_op_by_op(p, stream_ops, 0, ids);
    stream_op_by_op(p, front, 0, ids);
    stream_op_by_op(p, first, 0, ids);
    but_last_stream(p, stream_ops, 0, ids);
    but_last_stream(p, front, 0, ids);
    one_stream_op_grows(t, stream_ops.last(), ids);
    one_stream_op_grows(u, front.last(), ids);
    growth::streams_grow(p, first, 0, ids);
    patches_steady(o, ops, 0, ids, tree.nodes);
    assert(formed_streams(first)) by {
        assert forall|i: int| 0 <= i < first.len() implies streaming::op_formed(
            #[trigger] first[i],
        ) by {
            assert(streaming::op_formed(stream_ops[i]));
        }
    }
    streams_steady(p, first, 0, ids, tree.nodes);
    patching::steady_alike(u, u.unclaim(), tree.nodes, ids);
}

/// What one stream op leaves of the rows of a collection.
pub open spec fn streamed(
    before: Seq<(Chars, NodeId)>,
    op: StreamOp,
    after: Seq<(Chars, NodeId)>,
    tree: Tree,
) -> bool {
    match op {
        StreamOp::Reset { .. } => after.len() == 0,
        StreamOp::Delete { item_key, .. } => after == keyed::without(before, item_key@),
        StreamOp::Insert { item_key, at, item, limit, .. } => {
            &&& exists|others: Seq<(Chars, NodeId)>, row: NodeId| #[trigger]
                streaming::lands(before, others, item_key@, row, at, limit, after) && (plain::plain(
                    item@,
                ) ==> others == keyed::without(before, item_key@))
            &&& forall|i: int|
                0 <= i < after.len() && (#[trigger] after[i]).0 == item_key@
                    ==> tree.nodes.contains_key(after[i].1) && folding::reads_as(
                    node::wire(tree.nodes[after[i].1].sem),
                    reading::normal(item@),
                )
        },
    }
}

/// What a batch does last to a stream shows in its rows: none are left of a reset;
/// a deleted key is gone, and nothing else; an inserted item is where the insert
/// puts it, reads back, and the limit is kept, and where the item is plain, all
/// other rows are as they were. An op on a stream that the tree does not have
/// changes nothing.
pub proof fn the_last_stream_op_shows(
    tree: Tree,
    ops: Seq<PatchOp>,
    stream_ops: Seq<StreamOp>,
    s: Tx,
)
    requires
        sound(tree),
        formed(ops),
        formed_streams(stream_ops),
        stream_ops.len() > 0,
        tree::batch(tree, ops, stream_ops, s, Ok(())),
    ensures
        ({
            let before = before_last_stream(tree, ops, stream_ops, s);
            let after = commit::committed(s);
            let op = stream_ops.last();
            let at = before.streams[op.target()];
            &&& before.streams.contains_key(op.target()) && after.nodes.contains_key(at)
                ==> streamed(before.rows(at), op, journal::opened(after).rows(at), after)
            &&& !before.streams.contains_key(op.target()) ==> s.nodes == before.nodes
        }),
{
    let before = before_last_stream(tree, ops, stream_ops, s);
    let after = commit::committed(s);
    let op = stream_ops.last();
    let ids = s.allocated;
    let at = before.streams[op.target()];
    last_stream_op(tree, ops, stream_ops, s);
    reveal(one_stream_op);
    assert(streaming::op_formed(stream_ops[stream_ops.len() - 1]));
    assert(before.unclaim() == before);
    if before.streams.contains_key(op.target()) && after.nodes.contains_key(at) {
        streaming::stream_op_keeps(before, op, ids, tree.nodes);
        settlement::concluded_all(s, tree.nodes, ids);
        assert(s.live(at) && journal::opened(after).rows(at) == s.rows(at));
        match op {
            StreamOp::Reset { .. } => {
                streaming::reset_keeps(before, at, tree.nodes, ids);
            },
            StreamOp::Delete { item_key, .. } => {
                streaming::delete_keeps(before, at, item_key@, tree.nodes, ids);
            },
            StreamOp::Insert { item_key, at: position, item, limit, .. } => {
                let n = value::nesting(item@) + 1;
                streaming::insert_keeps(
                    before,
                    at,
                    item_key@,
                    item@,
                    position,
                    limit,
                    ids,
                    n,
                    tree.nodes,
                );
                let rows = s.rows(at);
                assert(shape::linked(s) && shape::bounded(s.nodes)) by {
                    reveal(shape::good);
                }
                assert forall|i: int|
                    0 <= i < rows.len() && (#[trigger] rows[i]).0
                        == item_key@ implies after.nodes.contains_key(rows[i].1) && folding::reads_as(
                    node::wire(after.nodes[rows[i].1].sem),
                    reading::normal(item@),
                ) by {
                    assert(s.kids(at)[i] == rows[i].1);
                    assert(s.kids(at).contains(rows[i].1));
                    kid_committed(s, after, at, rows[i].1);
                    shown_committed(s, rows[i].1, item@, n, tree.nodes, ids);
                }
            },
        }
    }
}

// ---------------------------------------------------------------------- edits

proof fn patches_loyal(s: Tx, ops: Seq<PatchOp>, i: int, w: Watch)
    requires
        replay::fresh(w),
    ensures
        replay::loyal(s, model::apply_patches(s, ops, i, w.ids).0, w),
{
    replay::patches_shrink(s, ops, i, w);
}

proof fn streams_loyal(
    s: Tx,
    ops: Seq<StreamOp>,
    i: int,
    w: Watch,
    was: Map<NodeId, Entry>,
)
    requires
        replay::fresh(w),
        patching::steady(s, was, w.ids),
        formed_streams(ops),
        0 <= i <= ops.len(),
        model::apply_streams(s, ops, i, w.ids).1 is Ok,
        model::apply_streams(s, ops, i, w.ids).0.allocated.len() <= w.ids.len(),
    ensures
        replay::loyal(s, model::apply_streams(s, ops, i, w.ids).0, w),
    decreases ops.len() - i,
{
    if i < ops.len() {
        let t = model::apply_stream_op(s, ops[i], w.ids).0;
        growth::streams_grow(t, ops, i + 1, w.ids);
        streaming::stream_op_keeps(s, ops[i], w.ids, was);
        replay::stream_op_loyal(s, ops[i], w);
        streams_loyal(t, ops, i + 1, w, was);
    }
}

/// A collection that is not told of has the row keys it had.
proof fn unchanged_keys(tree: Tree, after: Tree, id: NodeId)
    requires
        sound(tree),
        sound(after),
        tree.nodes.contains_key(id),
        after.nodes.contains_key(id),
        after.nodes[id].kind is Collection,
        node::alike(
            model::subtree_value(tree.nodes, id),
            model::subtree_value(after.nodes, id),
        ),
    ensures
        listed_keys(tree, id) == listed_keys(after, id),
{
    let a = journal::opened(tree);
    let b = journal::opened(after);
    a_kept_value_is_the_subtree_s(tree, id);
    a_kept_value_is_the_subtree_s(after, id);
    assert(a.live(id) && b.live(id));
    assert(node::alike(a.shallow(id), b.shallow(id)));
    node::folds(a.shallow(id));
    node::folds(b.shallow(id));
    let x = a.rows(id);
    let y = b.rows(id);
    let kids = model::cached(tree.nodes, a.kids(id));
    let others = model::cached(after.nodes, b.kids(id));
    let seen = node::folded_fields(node::paired(x, kids));
    let seen_after = node::folded_fields(node::paired(y, others));
    assert(seen == seen_after);
    assert(seen.len() == x.len() && seen_after.len() == y.len());
    assert forall|i: int| 0 <= i < x.len() implies x[i].0 == y[i].0 by {
        assert(seen[i].0 == x[i].0);
        assert(seen_after[i].0 == y[i].0);
    }
    assert(listed_keys(tree, id) =~= listed_keys(after, id));
}

/// The row keys of a collection, none where there is no such collection.
pub open spec fn listed_keys(tree: Tree, id: NodeId) -> Seq<Chars> {
    replay::names(journal::opened(tree), id)
}

/// The edits that a batch reports of a collection lead from the rows it had to the
/// rows it has: replayed in order onto the keys before, each fits the list it is
/// applied to, and the last leaves the keys after. A collection of which nothing
/// is reported has the keys it had.
pub proof fn reported_edits_replay(
    tree: Tree,
    ops: Seq<PatchOp>,
    stream_ops: Seq<StreamOp>,
    s: Tx,
    id: NodeId,
)
    requires
        sound(tree),
        formed(ops),
        formed_streams(stream_ops),
        tree::batch(tree, ops, stream_ops, s, Ok(())),
        tree.nodes.contains_key(id),
        commit::committed(s).nodes.contains_key(id),
        commit::committed(s).nodes[id].kind is Collection,
    ensures
        ({
            let t = commit::concluded(s);
            let reported = commit::kept_edits(t.nodes, s.edits, t.changed);
            let edits = if reported.contains_key(id) {
                reported[id]
            } else {
                Seq::empty()
            };
            change::replayed(edits, listed_keys(tree, id)) == Some(
                listed_keys(commit::committed(s), id),
            )
        }),
{
    let o = journal::opened(tree);
    let ids = s.allocated;
    let w = Watch { id, keys: listed_keys(tree, id), ids };
    taken_unused(tree, s);
    opened_steady(tree, ids);
    assert(o.live(id));
    assert(replay::fresh(w));
    assert(model::apply_batch(o, ops, stream_ops, ids) == (s, Ok::<(), Fault>(())));
    let t = model::apply_patches(o, ops, 0, ids).0;
    growth::streams_grow(t, stream_ops, 0, ids);
    patches_steady(o, ops, 0, ids, tree.nodes);
    patches_loyal(o, ops, 0, w);
    streams_loyal(t, stream_ops, 0, w, tree.nodes);
    assert(replay::holds(o, w)) by {
        reveal(replay::holds);
    }
    assert(replay::holds(s, w));
    batch_steady(tree, ops, stream_ops, s);
    settlement::concluded_all(s, tree.nodes, ids);
    let after = commit::committed(s);
    let u = commit::concluded(s);
    assert(replay::names(journal::opened(after), id) == replay::names(s, id));
    let edits = change::edits_of(s.edits, id);
    assert(change::replayed(edits, w.keys) == Some(replay::names(s, id))) by {
        reveal(replay::holds);
    }
    if !u.changed.contains(id) {
        commit_tells(tree, s);
        committed_sound(s, tree.nodes, ids);
        unchanged_keys(tree, after, id);
        assert(Seq::<Edit>::empty().len() == 0);
    }
}

/// What a batch changed is told in order: first the nodes that are in the tree
/// still, then those that it removed, and in each run children before parents.
pub proof fn changes_are_told_children_first(
    tree: Tree,
    ops: Seq<PatchOp>,
    stream_ops: Seq<StreamOp>,
    s: Tx,
)
    requires
        sound(tree),
        formed(ops),
        formed_streams(stream_ops),
        tree::batch(tree, ops, stream_ops, s, Ok(())),
    ensures
        exists|n: int|
            telling::in_order(
                commit::concluded(s).nodes,
                commit::committed(s),
                commit::concluded(s).changed,
                n,
            ),
{
    batch_steady(tree, ops, stream_ops, s);
    telling::told_in_order(s, tree.nodes, s.allocated);
}

/// Every subscriber of a node that changed is owed its notification, with the
/// node's new revision, and nobody else is owed one.
pub proof fn subscribers_of_what_changed_are_owed(s: Tx, notify: Notify)
    requires
        commit::notifies(s, notify),
    ensures
        telling::owed_all(
            commit::concluded(s).nodes,
            notify.change_set().nodes(),
            notify.change_set().nodes().len() as int,
            notify.debts(),
        ),
{
    let t = commit::concluded(s);
    telling::debts_are(t.nodes, t.changed, t.changed.len() as int);
}

/// Whether each subscription is on its node once, and was minted before the next
/// one.
pub open spec fn subscribed_once(tree: Tree) -> bool {
    forall|id: NodeId| #[trigger]
        tree.nodes.contains_key(id) ==> minted_once(tree.nodes[id].subs, tree.next_subscriber)
}

/// Whether the subscribers of a list differ, and were minted before `next`.
pub open spec fn minted_once(subs: Seq<SubscriberId>, next: u64) -> bool {
    &&& subs.no_duplicates()
    &&& forall|i: int| 0 <= i < subs.len() ==> (#[trigger] subs[i]).raw() < next
}

/// Subscribing gives each subscription an id of its own, as long as the ids last.
pub proof fn a_subscription_is_registered_once(tree: Tree, id: NodeId, subscriber: SubscriberId)
    requires
        subscribed_once(tree),
        subscriber.raw() == tree.next_subscriber,
        tree.next_subscriber < u64::MAX,
    ensures
        tree.nodes.contains_key(id) ==> !tree.nodes[id].subs.contains(subscriber),
        subscribed_once(
            Tree {
                nodes: if tree.nodes.contains_key(id) {
                    slots::with_subs(tree.nodes, id, tree.nodes[id].subs.push(subscriber))
                } else {
                    tree.nodes
                },
                next_subscriber: commit::bumped(tree.next_subscriber),
                ..tree
            },
        ),
{
    let next = commit::bumped(tree.next_subscriber);
    assert forall|x: NodeId| #[trigger] tree.nodes.contains_key(x) implies minted_once(
        tree.nodes[x].subs,
        next,
    ) && !tree.nodes[x].subs.contains(subscriber) by {
        let subs = tree.nodes[x].subs;
        assert(minted_once(subs, tree.next_subscriber));
        if subs.contains(subscriber) {
            let i = choose|i: int| 0 <= i < subs.len() && subs[i] == subscriber;
            assert(subs[i].raw() < tree.next_subscriber);
        }
    }
    if tree.nodes.contains_key(id) {
        let subs = tree.nodes[id].subs;
        let more = subs.push(subscriber);
        assert(minted_once(subs, next));
        assert forall|i: int, j: int| 0 <= i < more.len() && 0 <= j < more.len() && i != j implies
            more[i] != more[j] by {
            if i < subs.len() && j < subs.len() {
                assert(subs[i] != subs[j]);
            } else if i < subs.len() {
                assert(subs.contains(subs[i]));
            } else {
                assert(subs.contains(subs[j]));
            }
        }
        assert forall|i: int| 0 <= i < more.len() implies (#[trigger] more[i]).raw() < next by {
            if i < subs.len() {
                assert(subs[i].raw() < next);
            }
        }
        assert(minted_once(more, next));
    }
}

proof fn without_minted(subs: Seq<SubscriberId>, subscriber: SubscriberId, next: u64)
    requires
        minted_once(subs, next),
    ensures
        minted_once(tree::without_subscriber(subs, subscriber), next),
        forall|one: SubscriberId| #[trigger]
            tree::without_subscriber(subs, subscriber).contains(one) <==> subs.contains(one) && one
                != subscriber,
    decreases subs.len(),
{
    let left = tree::without_subscriber(subs, subscriber);
    if subs.len() > 0 {
        let front = subs.drop_last();
        let rest = tree::without_subscriber(front, subscriber);
        assert(minted_once(front, next)) by {
            assert forall|i: int| 0 <= i < front.len() implies (#[trigger] front[i]).raw()
                < next by {
                assert(subs[i].raw() < next);
            }
            assert forall|i: int, j: int|
                0 <= i < front.len() && 0 <= j < front.len() && i != j implies front[i]
                != front[j] by {
                assert(subs[i] != subs[j]);
            }
        }
        without_minted(front, subscriber, next);
        let last = subs.last();
        assert(subs[subs.len() - 1] == last);
        assert(!front.contains(last)) by {
            if front.contains(last) {
                let i = choose|i: int| 0 <= i < front.len() && front[i] == last;
                assert(subs[i] != subs[subs.len() - 1]);
            }
        }
        assert(!rest.contains(last));
        assert forall|one: SubscriberId| subs.contains(one) == (front.contains(one) || one
            == last) by {
            if subs.contains(one) {
                let i = choose|i: int| 0 <= i < subs.len() && subs[i] == one;
                if i < front.len() {
                    assert(front[i] == one);
                }
            }
            if front.contains(one) {
                let i = choose|i: int| 0 <= i < front.len() && front[i] == one;
                assert(subs[i] == one);
            }
        }
        if last != subscriber {
            assert(left == rest.push(last));
            assert forall|i: int, j: int|
                0 <= i < left.len() && 0 <= j < left.len() && i != j implies left[i] != left[j] by {
                if i < rest.len() && j < rest.len() {
                    assert(rest[i] != rest[j]);
                } else if i < rest.len() {
                    assert(rest.contains(rest[i]));
                } else {
                    assert(rest.contains(rest[j]));
                }
            }
            assert forall|i: int| 0 <= i < left.len() implies (#[trigger] left[i]).raw() < next by {
                if i < rest.len() {
                    assert(rest[i].raw() < next);
                }
            }
            assert forall|one: SubscriberId| left.contains(one) == (rest.contains(one) || one
                == last) by {
                if left.contains(one) {
                    let i = choose|i: int| 0 <= i < left.len() && left[i] == one;
                    if i < rest.len() {
                        assert(rest[i] == one);
                    }
                }
                if rest.contains(one) {
                    let i = choose|i: int| 0 <= i < rest.len() && rest[i] == one;
                    assert(left[i] == one);
                }
                if one == last {
                    assert(left[rest.len() as int] == one);
                }
            }
        }
    }
}

/// Dropping a subscription leaves the others registered, each once.
pub proof fn dropping_a_subscription_leaves_the_others(
    tree: Tree,
    id: NodeId,
    subscriber: SubscriberId,
)
    requires
        subscribed_once(tree),
        tree.nodes.contains_key(id),
    ensures
        ({
            let left = tree::without_subscriber(tree.nodes[id].subs, subscriber);
            &&& subscribed_once(
                Tree { nodes: slots::with_subs(tree.nodes, id, left), ..tree },
            )
            &&& forall|one: SubscriberId| #[trigger]
                left.contains(one) <==> tree.nodes[id].subs.contains(one) && one != subscriber
        }),
{
    without_minted(tree.nodes[id].subs, subscriber, tree.next_subscriber);
}

proof fn steady_subscribed(tree: Tree, s: Tx)
    requires
        subscribed_once(tree),
        patching::steady(s, tree.nodes, s.allocated),
        s.next_subscriber == tree.next_subscriber,
    ensures
        forall|id: NodeId| #[trigger]
            s.live(id) ==> minted_once(s.nodes[id].subs, tree.next_subscriber),
        forall|id: NodeId| #[trigger]
            tree.nodes.contains_key(id) ==> s.live(id) && s.nodes[id].subs == tree.nodes[id].subs,
        subscribed_once(commit::committed(s)),
{
    settlement::concluded_all(s, tree.nodes, s.allocated);
    assert(shape::recalled(s, tree.nodes) && shape::unheard(s, tree.nodes)) by {
        reveal(shape::good);
    }
    assert forall|id: NodeId| #[trigger] s.live(id) implies minted_once(
        s.nodes[id].subs,
        tree.next_subscriber,
    ) by {
        if tree.nodes.contains_key(id) {
            assert(minted_once(tree.nodes[id].subs, tree.next_subscriber));
        }
    }
    let after = commit::committed(s);
    assert forall|id: NodeId| #[trigger] after.nodes.contains_key(id) implies minted_once(
        after.nodes[id].subs,
        after.next_subscriber,
    ) by {
        assert(s.live(id));
    }
}

proof fn next_stays(tree: Tree, s: Tx)
    requires
        journal::carries(journal::opened(tree), s),
    ensures
        s.next_subscriber == tree.next_subscriber,
{
    reveal(journal::carries);
    journal::before_opened(tree);
}

/// What a commit owes the subscribers of a tree.
pub open spec fn owes_each_once(tree: Tree, s: Tx, notify: Notify) -> bool {
    let changed = notify.change_set().nodes();
    &&& forall|id: NodeId, k: int|
        tree.nodes.contains_key(id) && 0 <= k < tree.nodes[id].subs.len()
            ==> #[trigger] telling::times_owed(
            notify.debts(),
            id,
            tree.nodes[id].subs[k],
        ) == (if changed.contains(id) {
            1nat
        } else {
            0nat
        })
    &&& forall|i: int|
        0 <= i < notify.debts().len() ==> {
            let debt = #[trigger] notify.debts()[i];
            &&& changed.contains(debt.node)
            &&& tree.nodes.contains_key(debt.node)
            &&& tree.nodes[debt.node].subs.contains(debt.subscriber)
            &&& debt.change.revision == commit::concluded(s).nodes[debt.node].revision
        }
}

proof fn commit_owes(tree: Tree, s: Tx, notify: Notify)
    requires
        subscribed_once(tree),
        patching::steady(s, tree.nodes, s.allocated),
        s.next_subscriber == tree.next_subscriber,
        commit::notifies(s, notify),
    ensures
        owes_each_once(tree, s, notify),
{
    let t = commit::concluded(s);
    let n = t.changed.len() as int;
    steady_subscribed(tree, s);
    settlement::concluded_all(s, tree.nodes, s.allocated);
    assert(shape::unheard(s, tree.nodes)) by {
        reveal(shape::good);
    }
    assert forall|id: NodeId, k: int|
        tree.nodes.contains_key(id) && 0 <= k < tree.nodes[id].subs.len() implies
        #[trigger] telling::times_owed(notify.debts(), id, tree.nodes[id].subs[k]) == (
    if t.changed.contains(id) {
        1nat
    } else {
        0nat
    }) by {
        assert(s.live(id));
        assert(minted_once(s.nodes[id].subs, tree.next_subscriber));
        telling::owed_once(t.nodes, t.changed, n, id, k);
        if t.changed.contains(id) {
            let j = choose|j: int| 0 <= j < n && t.changed[j] == id;
            assert(settlement::before_at(t.changed, n, id));
        }
        if settlement::before_at(t.changed, n, id) {
            let j = choose|j: int| 0 <= j < n && j < t.changed.len() && #[trigger] t.changed[j]
                == id;
            assert(t.changed.contains(id));
        }
    }
    telling::debts_are(t.nodes, t.changed, n);
    assert forall|i: int| 0 <= i < notify.debts().len() implies ({
        let debt = #[trigger] notify.debts()[i];
        &&& t.changed.contains(debt.node)
        &&& tree.nodes.contains_key(debt.node)
        &&& tree.nodes[debt.node].subs.contains(debt.subscriber)
        &&& debt.change.revision == t.nodes[debt.node].revision
    }) by {
        let d = notify.debts()[i];
        assert(notify.debts().contains(d));
        let (j, k) = choose|j: int, k: int|
            0 <= j < n && t.nodes.contains_key(t.changed[j]) && 0 <= k
                < t.nodes[t.changed[j]].subs.len() && d == #[trigger] telling::debt(
                t.nodes,
                t.changed[j],
                k,
            );
        let id = t.changed[j];
        assert(t.changed.contains(id));
        assert(s.live(id));
        assert(t.nodes[id].subs == s.nodes[id].subs);
        assert(tree.nodes.contains_key(id));
        assert(tree.nodes[id].subs[k] == d.subscriber);
    }
}

/// A batch owes every subscriber of every node that changed, each exactly once and
/// with the node's revision after it, and nobody else.
pub proof fn each_subscriber_is_owed_once(
    tree: Tree,
    ops: Seq<PatchOp>,
    stream_ops: Seq<StreamOp>,
    s: Tx,
    notify: Notify,
)
    requires
        sound(tree),
        subscribed_once(tree),
        formed(ops),
        formed_streams(stream_ops),
        tree::batch(tree, ops, stream_ops, s, Ok(())),
        commit::notifies(s, notify),
    ensures
        owes_each_once(tree, s, notify),
        subscribed_once(commit::committed(s)),
{
    batch_steady(tree, ops, stream_ops, s);
    next_stays(tree, s);
    commit_owes(tree, s, notify);
    steady_subscribed(tree, s);
}

/// Closing a tree owes every subscriber of every node that changed, each exactly
/// once, and nobody else.
pub proof fn closing_owes_each_subscriber_once(tree: Tree, s: Tx, notify: Notify)
    requires
        sound(tree),
        subscribed_once(tree),
        tree::closing(tree, s),
        commit::notifies(s, notify),
    ensures
        owes_each_once(tree, s, notify),
        subscribed_once(commit::committed(s)),
{
    closing_steady(tree, s);
    next_stays(tree, s);
    commit_owes(tree, s, notify);
    steady_subscribed(tree, s);
}

// -------------------------------------------------------------------- identity

/// A store keeps its node: a slot that holds it holds the node still, and a slot
/// that is given it takes the node the store has, wherever that is, unless this
/// op has placed it already or the node may not move there.
pub proof fn a_store_keeps_its_node(
    s: Tx,
    parent: NodeId,
    existing: Option<NodeId>,
    v: Json,
    owner: Path,
    depth: nat,
    ids: Seq<NodeId>,
    path: Path,
)
    requires
        marker::form_of(v) matches Form::Store { id, .. } && id == path,
        model::reconcile_child(s, parent, existing, v, owner, depth, ids).1 is Ok,
    ensures
        ({
            let kid = model::reconcile_child(s, parent, existing, v, owner, depth, ids).1->Ok_0;
            let held = existing is Some && s.is_store(existing->0, path);
            &&& held ==> Some(kid) == existing
            &&& !held && !s.claimed.contains(path) && s.adoptable_store(
                parent,
                existing,
                path,
            ) is Some ==> Some(kid) == s.adoptable_store(parent, existing, path)
        }),
{
    let t = s.claim(path);
    assert(t.adoptable_store(parent, existing, path) == s.adoptable_store(parent, existing, path))
        by {
        if let Some(found) = s.stores.get(path) {
            reconciling::met_same(s, t, found, Some(parent), MAX_WALK as nat);
        }
    }
}

proof fn patches_titled(
    s: Tx,
    ops: Seq<PatchOp>,
    i: int,
    w: Title,
    was: Map<NodeId, Entry>,
)
    requires
        naming::fresh(w),
        s.root != w.id,
        patching::steady(s, was, w.ids),
        formed(ops),
        0 <= i <= ops.len(),
        model::apply_patches(s, ops, i, w.ids).1 is Ok,
        model::apply_patches(s, ops, i, w.ids).0.allocated.len() <= w.ids.len(),
    ensures
        naming::keeps(s, model::apply_patches(s, ops, i, w.ids).0, w),
    decreases ops.len() - i,
{
    if i < ops.len() {
        let t = model::apply_patch_op(s, ops[i], w.ids).0;
        growth::patches_grow(t, ops, i + 1, w.ids);
        patching::patch_op_keeps(s, ops[i], w.ids, was);
        naming::patch_op_keeps(s, ops[i], w);
        patches_titled(t, ops, i + 1, w, was);
    }
}

proof fn streams_titled(s: Tx, ops: Seq<StreamOp>, i: int, w: Title)
    requires
        naming::fresh(w),
        0 <= i <= ops.len(),
    ensures
        naming::keeps(s, model::apply_streams(s, ops, i, w.ids).0, w),
    decreases ops.len() - i,
{
    if i < ops.len() {
        let t = model::apply_stream_op(s, ops[i], w.ids).0;
        naming::stream_op_keeps(s, ops[i], w);
        streams_titled(t, ops, i + 1, w);
    }
}

/// A store node is the store it was made for: below the root, which is rewritten
/// in place, one that a batch leaves in the tree has the id it had.
pub proof fn a_store_node_keeps_its_id(
    tree: Tree,
    ops: Seq<PatchOp>,
    stream_ops: Seq<StreamOp>,
    s: Tx,
    id: NodeId,
)
    requires
        sound(tree),
        formed(ops),
        formed_streams(stream_ops),
        tree::batch(tree, ops, stream_ops, s, Ok(())),
        id != tree.root,
        tree.nodes.contains_key(id),
        tree.nodes[id].kind is Store,
        commit::committed(s).nodes.contains_key(id),
    ensures
        commit::committed(s).nodes[id].kind is Store,
        commit::committed(s).nodes[id].kind->Store_id == tree.nodes[id].kind->Store_id,
{
    let o = journal::opened(tree);
    let ids = s.allocated;
    let w = Title { id, path: tree.nodes[id].kind->Store_id, ids };
    taken_unused(tree, s);
    opened_steady(tree, ids);
    assert(o.live(id));
    assert(model::apply_batch(o, ops, stream_ops, ids) == (s, Ok::<(), Fault>(())));
    let t = model::apply_patches(o, ops, 0, ids).0;
    growth::streams_grow(t, stream_ops, 0, ids);
    patches_titled(o, ops, 0, w, tree.nodes);
    streams_titled(t, stream_ops, 0, w);
    batch_steady(tree, ops, stream_ops, s);
    settlement::concluded_all(s, tree.nodes, ids);
}

/// A slot keeps its node where it is rewritten with anything but a store or a
/// stream, and held no store.
pub proof fn a_slot_keeps_its_node(
    s: Tx,
    parent: NodeId,
    id: NodeId,
    v: Json,
    owner: Path,
    depth: nat,
    ids: Seq<NodeId>,
)
    requires
        !(marker::form_of(v) is Store),
        !(marker::form_of(v) is Collection),
        !s.is_store_node(id),
        model::reconcile_child(s, parent, Some(id), v, owner, depth, ids).1 is Ok,
    ensures
        model::reconcile_child(s, parent, Some(id), v, owner, depth, ids).1->Ok_0 == id,
{
}

// ------------------------------------------------------------------- documents

/// An item keeps its node: an insert for a key that a stream has, or had in the
/// same batch, lands the node of that key, unless it is a store, or its item is to
/// be a store or a stream.
pub proof fn an_item_keeps_its_node(
    tree: Tree,
    ops: Seq<PatchOp>,
    stream_ops: Seq<StreamOp>,
    s: Tx,
    key: Chars,
    v: Json,
    row: NodeId,
)
    requires
        sound(tree),
        formed(ops),
        formed_streams(stream_ops),
        stream_ops.len() > 0,
        tree::batch(tree, ops, stream_ops, s, Ok(())),
        stream_ops.last() matches StreamOp::Insert { item_key, item, .. } && item_key@ == key
            && item@ == v,
        !(marker::form_of(v) is Store),
        !(marker::form_of(v) is Collection),
        ({
            let before = before_last_stream(tree, ops, stream_ops, s);
            let at = before.streams[stream_ops.last().target()];
            let (a, claimed) = model::claim_row(
                before.touch_dirty(at),
                at,
                key,
                model::deeper(before.depth(at)),
            );
            &&& before.streams.contains_key(stream_ops.last().target())
            &&& commit::committed(s).nodes.contains_key(at)
            &&& claimed == Ok::<Option<NodeId>, Fault>(Some(row))
            &&& !a.is_store_node(row)
        }),
    ensures
        ({
            let before = before_last_stream(tree, ops, stream_ops, s);
            let at = before.streams[stream_ops.last().target()];
            let rows = journal::opened(commit::committed(s)).rows(at);
            forall|i: int|
                0 <= i < rows.len() && (#[trigger] rows[i]).0 == key ==> rows[i].1 == row
        }),
{
    let before = before_last_stream(tree, ops, stream_ops, s);
    let after = commit::committed(s);
    let op = stream_ops.last();
    let ids = s.allocated;
    let at = before.streams[op.target()];
    last_stream_op(tree, ops, stream_ops, s);
    reveal(one_stream_op);
    assert(streaming::op_formed(stream_ops[stream_ops.len() - 1]));
    assert(before.unclaim() == before);
    streaming::stream_op_keeps(before, op, ids, tree.nodes);
    settlement::concluded_all(s, tree.nodes, ids);
    assert(s.live(at) && journal::opened(after).rows(at) == s.rows(at));
    if let StreamOp::Insert { item_key, at: position, item, limit, .. } = op {
        let n = value::nesting(v) + 1;
        streaming::insert_keeps(before, at, key, v, position, limit, ids, n, tree.nodes);
        let depth = model::deeper(before.depth(at));
        let a = model::claim_row(before.touch_dirty(at), at, key, depth).0;
        let owner = before.kind(at)->Collection_owner;
        a_slot_keeps_its_node(a, at, row, v, owner, depth, ids);
    }
}

/// The two projections of a value differ only in how a stream slot is rendered.
pub proof fn projections_differ_only_in_streams(v: Sem)
    requires
        reading::streamless(v),
    ensures
        node::hydrated(v) == node::wire(v),
{
    reading::projections_agree(v);
}

/// What is committed from a transaction that removes nothing has its index.
proof fn nothing_removed(s: Tx)
    requires
        s.pending.len() == 0,
        s.carry_order.len() == 0,
    ensures
        commit::committed(s).stores == s.stores,
        commit::committed(s).streams == s.streams,
{
    assert(commit::removed_nodes(s, commit::settled(s).nodes) =~= Seq::<NodeId>::empty());
}

/// A new tree that is seeded with a document is that document: it takes it, it
/// renders it, and its stores are the document's, where the document nests within
/// the cap, renders no store and no stream twice, has async objects of just their
/// four keys, and has not more values than a tree has nodes.
pub proof fn a_seeded_tree_is_its_document(
    root: NodeId,
    ops: Seq<PatchOp>,
    s: Tx,
    done: Result<(), Fault>,
    v: Json,
)
    requires
        root != NodeId::none(),
        v.well_formed(),
        seeding::whole(v),
        forall|path: Path| #[trigger] seeding::renders(v, path) <= 1,
        forall|key: (Path, Chars)| #[trigger] seeding::streams(v, Seq::empty(), key) <= 1,
        value::nesting(v) <= MAX_DEPTH,
        seeding::values(v) <= MAX_NODES,
        ops.len() == 1,
        ops[0] is Replace,
        ops[0].path_text().len() == 0,
        written(ops[0]) == Some(v),
        tree::batch(arena::empty_tree(root), ops, Seq::empty(), s, done),
    ensures
        done == Ok::<(), Fault>(()),
        commit::committed(s).root == root,
        commit::committed(s).nodes.contains_key(root),
        node::wire(commit::committed(s).nodes[root].sem) == v,
        forall|path: Path| #[trigger]
            commit::committed(s).stores.contains_key(path) <==> seeding::renders(v, path) > 0,
{
    let tree = arena::empty_tree(root);
    let o = journal::opened(tree);
    let ids = s.allocated;
    let path = ops[0].path_text();
    let tokens = pointer::pointer_tokens(path)->0;
    a_new_tree_is_sound(root);
    taken_unused(tree, s);
    assert(formed(ops)) by {
        assert(patching::op_formed(ops[0]));
    }
    assert(o.nodes.dom() =~= Set::<NodeId>::empty().insert(root));
    seeding::root_planted(o, v, ids);
    assert(o.unclaim() =~= o);
    assert(tokens =~= Seq::<Chars>::empty());
    let (t, unit) = model::reconcile(o, root, v, Seq::empty(), 0, ids);
    assert(model::apply_patch_op(o, ops[0], ids) == (t, unit));
    assert(s == t && done == Ok::<(), Fault>(())) by {
        assert(model::apply_batch(o, ops, Seq::empty(), ids) == (s, done));
        reveal_with_fuel(model::apply_patches, 3);
        reveal_with_fuel(model::apply_streams, 2);
        if let Ok(held) = done {
            assert(held == ());
        }
    }
    nothing_removed(s);
    seeding::whole_is_normal(v);
    batch_steady(tree, ops, Seq::empty(), s);
    settlement::concluded_all(s, tree.nodes, ids);
    applying_keeps_a_tree_sound(tree, ops, Seq::empty(), s);
    root_settled(s, root, tree.nodes, ids);
}

/// A root whose children are not dirty, and whose value was made of theirs after it
/// was `null`, keeps it once the transaction is committed.
proof fn root_settled(s: Tx, root: NodeId, was: Map<NodeId, Entry>, ids: Seq<NodeId>)
    requires
        patching::steady(s, was, ids),
        s.root == root,
        s.live(root),
        s.nodes[root].sem == s.shallow(root),
        forall|kid: NodeId| #[trigger]
            s.kids(root).contains(kid) ==> !s.settle.contains_key(kid),
        s.settle.contains_key(root) ==> s.settle[root] == Sem::Null,
    ensures
        commit::committed(s).nodes[root].sem == s.nodes[root].sem,
{
    let after = commit::committed(s);
    settlement::concluded_all(s, was, ids);
    assert(shape::linked(s) && shape::bounded(s.nodes) && s.parent_of(root) is None) by {
        reveal(shape::good);
    }
    settlement::top_step(s, root);
    assert(after.nodes.contains_key(root));
    let kids = s.kids(root);
    assert forall|i: int| 0 <= i < kids.len() implies s.nodes.contains_key(#[trigger] kids[i])
        == after.nodes.contains_key(kids[i]) && (s.nodes.contains_key(kids[i])
        ==> s.nodes[kids[i]].sem == after.nodes[kids[i]].sem) by {
        assert(s.kids(root).contains(kids[i]));
        kid_committed(s, after, root, kids[i]);
        assert(s.live(kids[i]));
    }
    upkeep::cached_same(s.nodes, after.nodes, kids);
    assert(model::shallow_value(after.nodes, root) == s.shallow(root));
}

/// What a seeded tree renders seeds an identical one: a tree whose root was last
/// written with what the wire renders of another that was seeded so renders the
/// same.
pub proof fn a_wire_projection_seeds_an_identical_tree(
    tree: Tree,
    ops: Seq<PatchOp>,
    s: Tx,
    v: Json,
    other: Tree,
    again: Seq<PatchOp>,
    t: Tx,
)
    requires
        sound(tree),
        formed(ops),
        ops.len() > 0,
        tree::batch(tree, ops, Seq::empty(), s, Ok(())),
        ops.last() is Replace,
        ops.last().path_text().len() == 0,
        written(ops.last()) == Some(v),
        sound(other),
        formed(again),
        again.len() > 0,
        tree::batch(other, again, Seq::empty(), t, Ok(())),
        again.last() is Replace,
        again.last().path_text().len() == 0,
        written(again.last()) == Some(
            node::wire(commit::committed(s).nodes[tree.root].sem),
        ),
    ensures
        folding::reads_as(
            node::wire(commit::committed(t).nodes[other.root].sem),
            node::wire(commit::committed(s).nodes[tree.root].sem),
        ),
{
    let w = node::wire(commit::committed(s).nodes[tree.root].sem);
    root_reads_back(tree, ops, s, v);
    root_reads_back(other, again, t, w);
    reading::normal_twice(value::folded(v));
    folding::folded_normal(v);
    folding::folded_normal(w);
    folding::equal_reads(node::wire(commit::committed(t).nodes[other.root].sem), w);
}

/// A document written last at the root is what the root renders.
proof fn root_reads_back(tree: Tree, ops: Seq<PatchOp>, s: Tx, v: Json)
    requires
        sound(tree),
        formed(ops),
        ops.len() > 0,
        tree::batch(tree, ops, Seq::empty(), s, Ok(())),
        ops.last() is Replace,
        ops.last().path_text().len() == 0,
        written(ops.last()) == Some(v),
    ensures
        folding::reads_as(
            node::wire(commit::committed(s).nodes[tree.root].sem),
            reading::normal(v),
        ),
{
    let path = ops.last().path_text();
    let tokens = pointer::pointer_tokens(path)->0;
    a_written_document_reads_back(tree, ops, s, v);
    applying_keeps_a_tree_sound(tree, ops, Seq::empty(), s);
    assert(found(commit::committed(s), tokens, path) == Ok::<NodeId, Fault>(
        commit::committed(s).root,
    ));
}

} // verus!
