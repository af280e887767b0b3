//! What moves keeps its node: the collection of a stream, with its rows, and a child
//! store are taken along to the slot that is given their marker.

use vstd::prelude::*;

use crate::state::commit;
use crate::state::error::Fault;
use crate::state::granting;
use crate::state::growth;
use crate::state::journal;
use crate::state::journal::Tree;
use crate::state::keyed;
use crate::state::laws;
use crate::state::marker;
use crate::state::marker::Form;
use crate::state::model;
use crate::state::model::{Tx, MAX_DEPTH, MAX_WALK};
use crate::state::node::{Kind, NodeId};
use crate::state::patching;
use crate::state::placing;
use crate::state::plain;
use crate::state::reconciling;
use crate::state::replay;
use crate::state::seeding;
use crate::state::settlement;
use crate::state::shape;
use crate::state::slots::Entry;
use crate::state::text::Chars;
use crate::state::tree;
use crate::state::value;
use crate::state::value::Json;
use crate::state::wire::{PatchOp, Path};

verus! {

// ------------------------------------------------------------------------- the way up

/// Whether `id` is `below`, or stands above it by at most `n` levels.
pub open spec fn above(s: Tx, id: NodeId, below: NodeId, n: nat) -> bool
    decreases n,
{
    id == below || (n > 0 && match s.parent_of(below) {
        Some(up) => above(s, id, up, (n - 1) as nat),
        None => false,
    })
}

/// Whether `id` is neither `below` nor anywhere above it.
pub open spec fn apart(s: Tx, id: NodeId, below: NodeId) -> bool {
    forall|n: nat| !#[trigger] above(s, id, below, n)
}

proof fn apart_up(s: Tx, id: NodeId, below: NodeId, up: NodeId)
    requires
        apart(s, id, below),
        s.parent_of(below) == Some(up),
    ensures
        apart(s, id, up),
        id != below,
{
    assert forall|n: nat| !#[trigger] above(s, id, up, n) by {
        assert(!above(s, id, below, n + 1));
    }
    assert(!above(s, id, below, 0));
}

proof fn apart_down(s: Tx, id: NodeId, up: NodeId, below: NodeId)
    requires
        apart(s, id, up),
        s.parent_of(below) == Some(up),
        id != below,
    ensures
        apart(s, id, below),
{
    assert forall|n: nat| !#[trigger] above(s, id, below, n) by {
        if n > 0 {
            assert(!above(s, id, up, (n - 1) as nat));
        }
    }
}

/// A walk up does not meet what is apart from it.
pub proof fn apart_unmet(s: Tx, id: NodeId, below: NodeId, n: nat, walk: nat)
    requires
        shape::climbs(s.nodes, below, n),
        n + 1 < walk,
        apart(s, id, below),
    ensures
        !s.met_above(id, Some(below), walk),
    decreases n,
{
    assert(!above(s, id, below, 0));
    if let Some(up) = s.parent_of(below) {
        apart_up(s, id, below, up);
        apart_unmet(s, id, up, (n - 1) as nat, (walk - 1) as nat);
    } else {
        assert(!s.met_above(id, None, (walk - 1) as nat));
    }
}

/// Whether the nearest store at a node or above it, within `n` levels, has a path; the
/// empty path where there is none.
pub open spec fn owned(s: Tx, id: NodeId, path: Path, n: nat) -> bool
    decreases n,
{
    s.live(id) && match s.kind(id) {
        Kind::Store { id: own, .. } => own == path,
        _ => match s.parent_of(id) {
            Some(up) => n > 0 && owned(s, up, path, (n - 1) as nat),
            None => path == Seq::<Chars>::empty(),
        },
    }
}

proof fn owned_is(s: Tx, id: NodeId, path: Path, n: nat, walk: nat)
    requires
        owned(s, id, path, n),
        n < walk,
    ensures
        s.store_above(Some(id), walk) == path,
    decreases n,
{
    if !(s.kind(id) is Store) {
        if let Some(up) = s.parent_of(id) {
            owned_is(s, up, path, (n - 1) as nat, (walk - 1) as nat);
        } else {
            assert(s.store_above(None, (walk - 1) as nat) == Seq::<Chars>::empty());
        }
    }
}

/// Whether a list of tokens leads from a node to a node, past no step onto `not`.
pub open spec fn leads_past(s: Tx, id: NodeId, tokens: Seq<Chars>, to: NodeId, not: NodeId) -> bool
    decreases tokens.len(),
{
    if tokens.len() == 0 {
        id == to
    } else {
        exists|next: NodeId| #[trigger]
            granting::steps(s, id, tokens[0], next) && next != not && leads_past(
                s,
                next,
                tokens.drop_first(),
                to,
                not,
            )
    }
}

proof fn past_leads(s: Tx, id: NodeId, tokens: Seq<Chars>, to: NodeId, not: NodeId)
    requires
        leads_past(s, id, tokens, to, not),
    ensures
        granting::leads(s, id, tokens, to),
    decreases tokens.len(),
{
    if tokens.len() > 0 {
        let next = choose|next: NodeId| #[trigger]
            granting::steps(s, id, tokens[0], next) && next != not && leads_past(
                s,
                next,
                tokens.drop_first(),
                to,
                not,
            );
        past_leads(s, next, tokens.drop_first(), to, not);
    }
}

proof fn steps_kid(s: Tx, id: NodeId, token: Chars, next: NodeId)
    requires
        granting::steps(s, id, token, next),
        shape::linked(s),
    ensures
        s.kids(id).contains(next),
        s.parent_of(next) == Some(id),
{
    match s.kind(id) {
        Kind::Object(fields) => {
            let i = choose|i: int| 0 <= i < fields.len() && fields[i] == (token, next);
            assert(s.kids(id)[i] == next);
        },
        Kind::Store { fields, .. } => {
            let i = choose|i: int| 0 <= i < fields.len() && fields[i] == (token, next);
            assert(s.kids(id)[i] == next);
        },
        Kind::Array(items) => {
            let i = choose|i: int|
                0 <= i < items.len() && #[trigger] items[i] == next && token == granting::digits(
                    i as nat,
                );
            assert(s.kids(id)[i] == next);
        },
        Kind::Async { result, reason, .. } => {
            assert(s.kids(id)[0] == result && s.kids(id)[1] == reason);
        },
        _ => {},
    }
    assert(s.kids(id).contains(next));
}

proof fn past_apart(s: Tx, id: NodeId, tokens: Seq<Chars>, to: NodeId, not: NodeId)
    requires
        leads_past(s, id, tokens, to, not),
        shape::linked(s),
        apart(s, not, id),
    ensures
        apart(s, not, to),
    decreases tokens.len(),
{
    if tokens.len() > 0 {
        let next = choose|next: NodeId| #[trigger]
            granting::steps(s, id, tokens[0], next) && next != not && leads_past(
                s,
                next,
                tokens.drop_first(),
                to,
                not,
            );
        steps_kid(s, id, tokens[0], next);
        apart_down(s, not, id, next);
        past_apart(s, next, tokens.drop_first(), to, not);
    }
}

// ----------------------------------------------------------------- what a step leaves

/// A step that leaves the nodes and the indices as they were.
pub open spec fn noted(s: Tx, t: Tx) -> bool {
    &&& t.nodes == s.nodes
    &&& t.root == s.root
    &&& t.stores == s.stores
    &&& t.streams == s.streams
    &&& t.allocated == s.allocated
    &&& t.is_pending == s.is_pending
    &&& t.claimed == s.claimed
    &&& t.claimed_streams == s.claimed_streams
    &&& t.carry == s.carry
}

pub proof fn dirty_up_noted(s: Tx, cursor: Option<NodeId>, walk: nat)
    ensures
        noted(s, s.dirty_up(cursor, walk)),
    decreases walk,
{
    if let Some(id) = cursor {
        if walk > 0 && s.live(id) {
            dirty_up_noted(s.note_dirty(id), s.nodes[id].parent, (walk - 1) as nat);
        }
    }
}

/// A step that leaves the indices, and what every node but one is, as they were.
spec fn spares(s: Tx, t: Tx, but: NodeId) -> bool {
    &&& t.root == s.root
    &&& t.stores == s.stores
    &&& t.streams == s.streams
    &&& forall|x: NodeId|
        #![trigger t.live(x)]
        #![trigger t.kind(x)]
        s.live(x) ==> t.live(x) && (x != but ==> t.kind(x) == s.kind(x))
}

proof fn adopt_spares(s: Tx, parent: NodeId, id: NodeId, ids: Seq<NodeId>)
    requires
        s.live(id),
        s.parent_of(id) != Some(id),
        s.adopt(parent, id, ids).1 is Ok,
        shape::unused(s, ids),
        s.adopt(parent, id, ids).0.allocated.len() <= ids.len(),
    ensures
        ({
            let t = s.adopt(parent, id, ids).0;
            &&& t.root == s.root
            &&& t.stores == s.stores
            &&& t.streams == s.streams
            &&& t.live(id)
            &&& t.kind(id) == s.kind(id)
            &&& s.parent_of(id) matches Some(up) ==> spares(s, t, up)
            &&& s.parent_of(id) is None ==> forall|x: NodeId|
                #![trigger t.live(x)]
                #![trigger t.kind(x)]
                s.live(x) ==> t.live(x) && t.kind(x) == s.kind(x)
        }),
{
    let a = s.touch(id).unpend(id);
    let (t, left) = match a.parent_of(id) {
        Some(up) => a.detach(up, id, ids),
        None => (a, Ok(())),
    };
    if let Some(up) = a.parent_of(id) {
        dirty_up_noted(a.touch(up), Some(up), MAX_WALK as nat);
    }
    dirty_up_noted(t.put_parent(id, Some(parent)), Some(parent), MAX_WALK as nat);
    if t.allocated.len() > s.allocated.len() {
        assert(!s.live(ids[s.allocated.len() as int]));
    }
}

proof fn swap_in_spares(
    s: Tx,
    parent: NodeId,
    key: Chars,
    existing: Option<NodeId>,
    kid: NodeId,
    before: Seq<(Chars, NodeId)>,
)
    ensures
        spares(s, model::swap_in_field(s, parent, key, existing, kid, before), parent),
        model::swap_in_field(s, parent, key, existing, kid, before).allocated == s.allocated,
{
    dirty_up_noted(s.touch(parent), Some(parent), MAX_WALK as nat);
}

// ---------------------------------------------------------------------------- a stream

/// The marker a stream is rendered as.
pub open spec fn stream_marker(name: Chars) -> Json {
    Json::Object(seq![("__musubi_stream__"@, Json::Text(name))])
}

/// Whether a slot's node is no collection of this name.
pub open spec fn other_slot(s: Tx, existing: Option<NodeId>, name: Chars) -> bool {
    existing matches Some(e) ==> !(s.live(e) && (s.kind(e) matches Kind::Collection {
        name: own,
        ..
    } && own == name))
}

/// A stream keeps its collection: a slot that is given the marker of a stream takes the
/// collection the stream has, whether that stands elsewhere or was taken out of the tree
/// by this batch, and the collection has the rows it had. It does not where this op has
/// placed the stream already, nor where the collection stands under the same parent.
pub proof fn a_stream_moves(
    s: Tx,
    parent: NodeId,
    existing: Option<NodeId>,
    name: Chars,
    owner: Path,
    depth: nat,
    ids: Seq<NodeId>,
    node: NodeId,
)
    requires
        shape::bounded(s.nodes),
        shape::unused(s, ids),
        s.live(parent),
        s.streams.contains_key((owner, name)),
        s.streams[(owner, name)] == node,
        s.live(node),
        s.kind(node) matches Kind::Collection { name: own, .. } && own == name,
        node != s.root,
        s.parent_of(node) != Some(parent),
        apart(s, node, parent),
        !s.claimed_streams.contains((owner, name)),
        other_slot(s, existing, name),
        ({
            let (t, done) = model::reconcile_child(
                s,
                parent,
                existing,
                stream_marker(name),
                owner,
                depth,
                ids,
            );
            done is Ok && t.allocated.len() <= ids.len()
        }),
    ensures
        ({
            let (t, done) = model::reconcile_child(
                s,
                parent,
                existing,
                stream_marker(name),
                owner,
                depth,
                ids,
            );
            &&& done == Ok::<NodeId, Fault>(node)
            &&& t.live(node)
            &&& t.kind(node) == s.kind(node)
            &&& t.streams == s.streams
            &&& t.root == s.root
            &&& forall|x: NodeId|
                #![trigger t.live(x)]
                #![trigger t.kind(x)]
                s.live(x) ==> t.live(x) && (s.parent_of(node) != Some(x) ==> t.kind(x) == s.kind(
                    x,
                ))
        }),
{
    let v = stream_marker(name);
    assert(marker::form_of(v) == Form::Collection { name });
    let t = s.claim_stream((owner, name));
    assert(shape::climbs(s.nodes, parent, MAX_DEPTH as nat));
    apart_unmet(s, node, parent, MAX_DEPTH as nat, MAX_WALK as nat);
    reconciling::met_same(s, t, node, Some(parent), MAX_WALK as nat);
    assert(t.adoptable_stream(parent, existing, (owner, name)) == Some(node));
    shape::depth_step(s, node);
    let (u, moved) = t.adopt(parent, node, ids);
    assert(shape::unused(t, ids)) by {
        assert forall|k: int| t.allocated.len() <= k < ids.len() implies !t.live(
            #[trigger] ids[k],
        ) by {
            assert(!s.live(ids[k]));
        }
    }
    assert(t.fits_at(node, depth));
    assert(moved is Ok);
    growth::reconcile_grows(u, node, v, owner, depth, ids);
    adopt_spares(t, parent, node, ids);
    assert(model::reconcile(u, node, v, owner, depth, ids) == (u, Ok::<(), Fault>(())));
}

/// A stream that is rendered where it stands stays as it is: the slot that holds a
/// collection of its name keeps it, with its rows, and nothing else changes.
pub proof fn a_stream_stays(
    s: Tx,
    parent: NodeId,
    node: NodeId,
    name: Chars,
    owner: Path,
    depth: nat,
    ids: Seq<NodeId>,
)
    requires
        s.live(node),
        s.kind(node) matches Kind::Collection { name: own, .. } && own == name,
    ensures
        ({
            let (t, done) = model::reconcile_child(
                s,
                parent,
                Some(node),
                stream_marker(name),
                owner,
                depth,
                ids,
            );
            &&& done == Ok::<NodeId, Fault>(node)
            &&& t.nodes == s.nodes
            &&& t.streams == s.streams
            &&& t.stores == s.stores
            &&& t.edits == s.edits
        }),
{
    assert(marker::form_of(stream_marker(name)) == Form::Collection { name });
}

/// A child store keeps its node: a slot that is given the document of a store takes the
/// node the store has, whether that stands elsewhere or was taken out of the tree by this
/// batch. It does not where this op has placed the store already.
pub proof fn a_store_moves(
    s: Tx,
    parent: NodeId,
    existing: Option<NodeId>,
    v: Json,
    path: Path,
    owner: Path,
    depth: nat,
    ids: Seq<NodeId>,
    node: NodeId,
)
    requires
        shape::bounded(s.nodes),
        s.live(parent),
        marker::form_of(v) matches Form::Store { id, .. } && id == path,
        s.stores.contains_key(path),
        s.stores[path] == node,
        s.live(node),
        s.kind(node) matches Kind::Store { id, .. } && id == path,
        node != s.root,
        apart(s, node, parent),
        !s.claimed.contains(path),
        existing matches Some(e) ==> !(s.live(e) && (s.kind(e) matches Kind::Store { id, .. } && id
            == path)),
        model::reconcile_child(s, parent, existing, v, owner, depth, ids).1 is Ok,
    ensures
        model::reconcile_child(s, parent, existing, v, owner, depth, ids).1 == Ok::<NodeId, Fault>(
            node,
        ),
{
    let t = s.claim(path);
    assert(shape::climbs(s.nodes, parent, MAX_DEPTH as nat));
    apart_unmet(s, node, parent, MAX_DEPTH as nat, MAX_WALK as nat);
    reconciling::met_same(s, t, node, Some(parent), MAX_WALK as nat);
    assert(t.adoptable_store(parent, existing, path) == Some(node));
}

/// A child store that is rendered where it stands keeps its node.
pub proof fn a_store_stays(
    s: Tx,
    parent: NodeId,
    node: NodeId,
    v: Json,
    path: Path,
    owner: Path,
    depth: nat,
    ids: Seq<NodeId>,
)
    requires
        marker::form_of(v) matches Form::Store { id, .. } && id == path,
        s.live(node),
        s.kind(node) matches Kind::Store { id, .. } && id == path,
        model::reconcile_child(s, parent, Some(node), v, owner, depth, ids).1 is Ok,
    ensures
        model::reconcile_child(s, parent, Some(node), v, owner, depth, ids).1 == Ok::<
            NodeId,
            Fault,
        >(node),
{
}

proof fn above_met(s: Tx, id: NodeId, below: NodeId, n: nat, walk: nat)
    requires
        above(s, id, below, n),
    ensures
        s.met_above(id, Some(below), walk),
    decreases n,
{
    if id != below && walk > 1 {
        above_met(s, id, s.parent_of(below)->0, (n - 1) as nat, (walk - 1) as nat);
    }
}

proof fn built_fresh(
    s: Tx,
    parent: NodeId,
    v: Json,
    owner: Path,
    depth: nat,
    ids: Seq<NodeId>,
    node: NodeId,
)
    requires
        shape::unused(s, ids),
        s.live(node),
        model::build(s, parent, v, owner, depth, ids).1 is Ok,
        model::build(s, parent, v, owner, depth, ids).0.allocated.len() <= ids.len(),
    ensures
        model::build(s, parent, v, owner, depth, ids).1->Ok_0 != node,
{
    let (t, made) = s.make(Some(parent), ids);
    let id = ids[s.allocated.len() as int];
    growth::install_grows(t, id, v, owner, depth, ids);
    assert(!s.live(id));
}

/// A stream is placed once, and never where it may not be: a slot takes no collection that
/// the stream's name does not stand for, none for a stream that this op has placed
/// already, none that stands under the same parent, and none that holds the slot itself.
pub proof fn a_stream_is_not_taken(
    s: Tx,
    parent: NodeId,
    existing: Option<NodeId>,
    name: Chars,
    owner: Path,
    depth: nat,
    ids: Seq<NodeId>,
    node: NodeId,
    n: nat,
)
    requires
        shape::unused(s, ids),
        s.live(node),
        existing != Some(node),
        ({
            ||| !(s.streams.contains_key((owner, name)) && s.streams[(owner, name)] == node)
            ||| s.claimed_streams.contains((owner, name))
            ||| s.parent_of(node) == Some(parent)
            ||| above(s, node, parent, n)
            ||| node == s.root
        }),
        ({
            let (t, done) = model::reconcile_child(
                s,
                parent,
                existing,
                stream_marker(name),
                owner,
                depth,
                ids,
            );
            done is Ok && t.allocated.len() <= ids.len()
        }),
    ensures
        model::reconcile_child(
            s,
            parent,
            existing,
            stream_marker(name),
            owner,
            depth,
            ids,
        ).1->Ok_0 != node,
{
    let v = stream_marker(name);
    assert(marker::form_of(v) == Form::Collection { name });
    let t = s.claim_stream((owner, name));
    if above(s, node, parent, n) {
        above_met(s, node, parent, n, MAX_WALK as nat);
        reconciling::met_same(s, t, node, Some(parent), MAX_WALK as nat);
    }
    assert(shape::unused(t, ids)) by {
        assert forall|k: int| t.allocated.len() <= k < ids.len() implies !t.live(
            #[trigger] ids[k],
        ) by {
            assert(!s.live(ids[k]));
        }
    }
    if model::build(t, parent, v, owner, depth, ids).1 is Ok && model::build(
        t,
        parent,
        v,
        owner,
        depth,
        ids,
    ).0.allocated.len() <= ids.len() {
        built_fresh(t, parent, v, owner, depth, ids, node);
    }
}

/// A child store is placed once, and never where it may not be: a slot takes no node that
/// the store's path does not stand for, none for a store that this op has placed already,
/// none that holds the slot itself, and not the root.
pub proof fn a_store_is_not_taken(
    s: Tx,
    parent: NodeId,
    existing: Option<NodeId>,
    v: Json,
    path: Path,
    owner: Path,
    depth: nat,
    ids: Seq<NodeId>,
    node: NodeId,
    n: nat,
)
    requires
        shape::unused(s, ids),
        marker::form_of(v) matches Form::Store { id, .. } && id == path,
        s.live(node),
        existing != Some(node),
        ({
            ||| !(s.stores.contains_key(path) && s.stores[path] == node)
            ||| s.claimed.contains(path)
            ||| above(s, node, parent, n)
            ||| node == s.root
        }),
        ({
            let (t, done) = model::reconcile_child(s, parent, existing, v, owner, depth, ids);
            done is Ok && t.allocated.len() <= ids.len()
        }),
    ensures
        model::reconcile_child(s, parent, existing, v, owner, depth, ids).1->Ok_0 != node,
{
    let t = s.claim(path);
    if above(s, node, parent, n) {
        above_met(s, node, parent, n, MAX_WALK as nat);
        reconciling::met_same(s, t, node, Some(parent), MAX_WALK as nat);
    }
    assert(shape::unused(t, ids)) by {
        assert forall|k: int| t.allocated.len() <= k < ids.len() implies !t.live(
            #[trigger] ids[k],
        ) by {
            assert(!s.live(ids[k]));
        }
    }
    if model::build(t, parent, v, owner, depth, ids).1 is Ok && model::build(
        t,
        parent,
        v,
        owner,
        depth,
        ids,
    ).0.allocated.len() <= ids.len() {
        built_fresh(t, parent, v, owner, depth, ids, node);
    }
}

/// A stream that is new is made: an empty slot that is given its marker gets a new, empty
/// collection, which the stream's name stands for from then on, and nothing else changes.
pub proof fn a_new_stream_is_made(
    s: Tx,
    parent: NodeId,
    name: Chars,
    owner: Path,
    depth: nat,
    ids: Seq<NodeId>,
)
    requires
        shape::unused(s, ids),
        s.allocated.len() < ids.len(),
        granting::roomy(s, 1),
        depth <= 256,
        !s.streams.contains_key((owner, name)) || s.claimed_streams.contains((owner, name)),
    ensures
        ({
            let (t, done) = model::reconcile_child(
                s,
                parent,
                None,
                stream_marker(name),
                owner,
                depth,
                ids,
            );
            let id = ids[s.allocated.len() as int];
            &&& done == Ok::<NodeId, Fault>(id)
            &&& t.live(id)
            &&& t.kind(id) == Kind::Collection { name, owner, items: Seq::empty() }
            &&& t.parent_of(id) == Some(parent)
            &&& t.streams == s.streams.insert((owner, name), id)
            &&& t.stores == s.stores
            &&& forall|x: NodeId| x != id ==> #[trigger] t.live(x) == s.live(x)
            &&& forall|x: NodeId| s.live(x) ==> #[trigger] t.nodes[x] == s.nodes[x]
        }),
{
    let v = stream_marker(name);
    assert(marker::form_of(v) == Form::Collection { name });
    let a = s.claim_stream((owner, name));
    let id = ids[s.allocated.len() as int];
    assert(!s.live(id));
    let (b, made) = a.make(Some(parent), ids);
    assert(made == Ok::<NodeId, Fault>(id));
    let (t, done) = model::install(b, id, v, owner, depth, ids);
    assert(model::build(a, parent, v, owner, depth, ids) == (t, Ok::<NodeId, Fault>(id)));
    assert(model::reconcile_slot(a, parent, None, v, owner, depth, ids) == model::build(
        a,
        parent,
        v,
        owner,
        depth,
        ids,
    ));
    assert(t.nodes.contains_key(id));
    assert forall|x: NodeId| x != id implies #[trigger] t.live(x) == s.live(x) by {
        assert(t.nodes.contains_key(x) == b.nodes.contains_key(x));
    }
}

/// A slot that holds neither a store nor a collection of the name, and is given the marker
/// of a stream that is new, becomes an empty collection of it, in place.
pub proof fn a_new_stream_is_made_in_place(
    s: Tx,
    parent: NodeId,
    node: NodeId,
    name: Chars,
    owner: Path,
    depth: nat,
    ids: Seq<NodeId>,
)
    requires
        s.live(node),
        !(s.kind(node) is Store),
        other_slot(s, Some(node), name),
        !s.streams.contains_key((owner, name)) || s.claimed_streams.contains((owner, name)),
    ensures
        ({
            let (t, done) = model::reconcile_child(
                s,
                parent,
                Some(node),
                stream_marker(name),
                owner,
                depth,
                ids,
            );
            &&& done == Ok::<NodeId, Fault>(node)
            &&& t.live(node)
            &&& t.kind(node) == Kind::Collection { name, owner, items: Seq::empty() }
            &&& t.streams.contains_key((owner, name))
            &&& t.streams[(owner, name)] == node
        }),
{
    let v = stream_marker(name);
    assert(marker::form_of(v) == Form::Collection { name });
    let a = s.claim_stream((owner, name));
    let b = a.log_loss(node).touch_dirty(node);
    replay::touch_dirty_still(a.log_loss(node), node);
    let c = b.unregister(node).put_kind(node, Kind::Null);
    let gone = b.kids(node);
    replay::release_each_still(c, gone, 0);
    let d = c.release_each(gone, 0);
    assert(b.live(node));
    assert(c.live(node));
    assert(d.live(node));
    assert(model::rebuild(a, node, v, owner, depth, ids) == model::install(
        d,
        node,
        v,
        owner,
        depth,
        ids,
    ));
    assert(model::reconcile(a, node, v, owner, depth, ids) == model::rebuild(
        a,
        node,
        v,
        owner,
        depth,
        ids,
    ));
}

/// A stream belongs to the store it is rendered in: a slot that is given the document of a
/// new store, which holds a new stream under a key, makes the stream under the store's
/// path, and one that is given an object or an array that holds it makes it under the path
/// of the store that the slot is in.
pub proof fn a_stream_belongs_to_its_store(
    s: Tx,
    parent: NodeId,
    v: Json,
    fields: Seq<(Chars, Json)>,
    path: Path,
    key: Chars,
    name: Chars,
    owner: Path,
    depth: nat,
    ids: Seq<NodeId>,
)
    requires
        shape::unused(s, ids),
        s.allocated.len() + 1 < ids.len(),
        granting::roomy(s, 2),
        depth < 256,
        ({
            ||| v == Json::Object(fields) && fields == seq![(key, stream_marker(name))] && path
                == owner && key != "__musubi_store_id__"@
            ||| v == Json::Array(seq![stream_marker(name)]) && path == owner
            ||| v == Json::Object(fields) && marker::form_of(v) == Form::Store { id: path, fields }
                && !s.stores.contains_key(path) && key != "__musubi_store_id__"@ && fields.len()
                == 2 && ((fields[0].0 == "__musubi_store_id__"@ && fields[1] == (
                key,
                stream_marker(name),
            )) || (fields[1].0 == "__musubi_store_id__"@ && fields[0] == (
                key,
                stream_marker(name),
            )))
        }),
        !s.streams.contains_key((path, name)),
    ensures
        ({
            let (t, done) = model::reconcile_child(s, parent, None, v, owner, depth, ids);
            let made = ids[s.allocated.len() as int + 1];
            &&& done is Ok
            &&& t.streams.contains_key((path, name))
            &&& t.streams[(path, name)] == made
            &&& t.kind(made) == Kind::Collection { name, owner: path, items: Seq::empty() }
        }),
{
    let mark = stream_marker(name);
    let id = ids[s.allocated.len() as int];
    let kid = ids[s.allocated.len() as int + 1];
    assert(!s.live(id) && !s.live(kid) && id != kid);
    let a = if marker::form_of(v) is Store {
        s.claim(path)
    } else {
        s
    };
    let (b, made) = a.make(Some(parent), ids);
    assert(made == Ok::<NodeId, Fault>(id));
    assert(b.nodes.dom() =~= s.nodes.dom().insert(id));
    assert(shape::unused(b, ids)) by {
        assert forall|k: int| b.allocated.len() <= k < ids.len() implies !b.live(
            #[trigger] ids[k],
        ) by {
            assert(!s.live(ids[k]));
            assert(ids[s.allocated.len() as int] != ids[k]);
        }
    }
    let deep = model::deeper(depth);
    a_new_stream_is_made(b, id, name, path, deep, ids);
    let (c, child) = model::reconcile_child(b, id, None, mark, path, deep, ids);
    assert(child == Ok::<NodeId, Fault>(kid));
    assert(c.live(id) && c.live(kid));
    let bare = Seq::<(Chars, NodeId)>::empty();
    let none = Seq::<NodeId>::empty();
    keyed::key_index_meaning(bare, key);
    assert(b.unclaimed(id, keyed::lookup(bare, key), keyed::items_of(bare)) is None);
    reveal_with_fuel(model::place_fields, 4);
    reveal_with_fuel(model::place_items, 3);
    match marker::form_of(v) {
        Form::Array(items) => {
            assert(model::place_items(b, id, none, items, owner, depth, 0, none, ids) == (
                c,
                Ok::<Seq<NodeId>, Fault>(none.push(kid)),
            ));
        },
        Form::Object(list) => {
            assert(model::place_fields(b, id, bare, list, false, owner, depth, 0, bare, ids) == (
                c,
                Ok::<Seq<(Chars, NodeId)>, Fault>(bare.push((key, kid))),
            ));
        },
        Form::Store { .. } => {
            assert(model::place_fields(b, id, bare, fields, true, path, depth, 0, bare, ids) == (
                c,
                Ok::<Seq<(Chars, NodeId)>, Fault>(bare.push((key, kid))),
            ));
        },
        _ => {},
    }
    let (t, done) = model::install(b, id, v, owner, depth, ids);
    assert(done is Ok);
    assert(model::build(a, parent, v, owner, depth, ids) == (t, Ok::<NodeId, Fault>(id)));
    assert(model::reconcile_child(s, parent, None, v, owner, depth, ids) == model::build(
        a,
        parent,
        v,
        owner,
        depth,
        ids,
    ));
}

proof fn release_each_names(s: Tx, list: Seq<NodeId>, i: int)
    ensures
        s.release_each(list, i).stores == s.stores,
        s.release_each(list, i).streams == s.streams,
    decreases list.len() - i,
{
    if 0 <= i < list.len() {
        release_each_names(s.release(list[i]), list, i + 1);
    }
}

/// A node that becomes something else gives up its own name, and no other: every stream
/// and every store that another node stands for is still that node's.
pub proof fn only_its_own_name_is_given_up(
    s: Tx,
    id: NodeId,
    owner: Path,
    depth: nat,
    ids: Seq<NodeId>,
)
    requires
        shape::indexed(s),
        s.live(id),
        !(s.kind(id) is Null),
    ensures
        ({
            let (t, done) = model::reconcile(s, id, Json::Null, owner, depth, ids);
            &&& done is Ok
            &&& t.live(id)
            &&& t.kind(id) is Null
            &&& forall|path: Path| #[trigger]
                t.stores.contains_key(path) <==> s.stores.contains_key(path) && s.stores[path] != id
            &&& forall|path: Path| #[trigger]
                t.stores.contains_key(path) ==> t.stores[path] == s.stores[path]
            &&& forall|key: (Path, Chars)| #[trigger]
                t.streams.contains_key(key) <==> s.streams.contains_key(key) && s.streams[key] != id
            &&& forall|key: (Path, Chars)| #[trigger]
                t.streams.contains_key(key) ==> t.streams[key] == s.streams[key]
        }),
{
    let a = s.log_loss(id).touch_dirty(id);
    dirty_up_noted(s.log_loss(id).touch(id), Some(id), MAX_WALK as nat);
    let b = a.unregister(id).put_kind(id, Kind::Null);
    let gone = a.kids(id);
    release_each_names(b, gone, 0);
    replay::release_each_still(b, gone, 0);
    let c = b.release_each(gone, 0);
    assert(b.live(id) && c.live(id));
    assert(model::rebuild(s, id, Json::Null, owner, depth, ids) == model::install(
        c,
        id,
        Json::Null,
        owner,
        depth,
        ids,
    ));
    assert(model::reconcile(s, id, Json::Null, owner, depth, ids) == model::rebuild(
        s,
        id,
        Json::Null,
        owner,
        depth,
        ids,
    ));
    let t = model::reconcile(s, id, Json::Null, owner, depth, ids).0;
    assert(t.stores == b.stores && t.streams == b.streams);
    assert forall|path: Path| #[trigger]
        t.stores.contains_key(path) <==> s.stores.contains_key(path) && s.stores[path] != id by {
        if s.stores.contains_key(path) && s.stores[path] == id {
            assert(s.is_store(s.stores[path], path));
        }
    }
    assert forall|key: (Path, Chars)| #[trigger]
        t.streams.contains_key(key) <==> s.streams.contains_key(key) && s.streams[key] != id by {
        if s.streams.contains_key(key) && s.streams[key] == id {
            assert(shape::is_stream(s, s.streams[key], key));
        }
    }
}

/// What a node that moves leaves behind: its slot in an object, in a store, in an array or
/// in an async node holds a new null node, and its row in a collection is gone; every
/// other slot of the parent is as it was.
pub proof fn a_move_leaves_null(
    s: Tx,
    parent: NodeId,
    node: NodeId,
    up: NodeId,
    at: int,
    ids: Seq<NodeId>,
)
    requires
        shape::unused(s, ids),
        shape::linked(s),
        s.live(node),
        s.live(up),
        up != node,
        s.kids(up).len() > at >= 0,
        s.kids(up)[at] == node,
        s.adopt(parent, node, ids).1 is Ok,
        s.adopt(parent, node, ids).0.allocated.len() <= ids.len(),
    ensures
        ({
            let t = s.adopt(parent, node, ids).0;
            let filler = ids[s.allocated.len() as int];
            &&& t.parent_of(node) == Some(parent)
            &&& t.kind(node) == s.kind(node)
            &&& match s.kind(up) {
                Kind::Collection { name, owner, items } => t.kind(up) == Kind::Collection {
                    name,
                    owner,
                    items: items.remove(at),
                },
                Kind::Array(items) => t.kind(up) == Kind::Array(items.update(at, filler)),
                Kind::Object(fields) => t.kind(up) == Kind::Object(
                    fields.update(at, (fields[at].0, filler)),
                ),
                Kind::Store { id, fields } => t.kind(up) == Kind::Store {
                    id,
                    fields: fields.update(at, (fields[at].0, filler)),
                },
                Kind::Async { status, result, reason } => t.kind(up) == if at == 0 {
                    Kind::Async { status, result: filler, reason }
                } else {
                    Kind::Async { status, result, reason: filler }
                },
                _ => true,
            }
            &&& !(s.kind(up) is Collection) ==> !s.live(filler) && t.live(filler) && t.kind(filler)
                is Null && t.parent_of(filler) == Some(up)
        }),
{
    assert(s.kids(up).contains(node));
    assert(s.parent_of(node) == Some(up));
    let a = s.touch(node).unpend(node);
    let (b, left) = a.detach(up, node, ids);
    dirty_up_noted(a.touch(up), Some(up), MAX_WALK as nat);
    dirty_up_noted(b.put_parent(node, Some(parent)), Some(parent), MAX_WALK as nat);
    placing::node_index_meaning(s.kids(up), node);
    assert(s.kids(up).no_duplicates());
    assert(model::node_index(s.kids(up), node) == at);
    let filler = ids[s.allocated.len() as int];
    if !(s.kind(up) is Collection) {
        assert(b.allocated == a.allocated.push(filler));
        assert(!s.live(filler));
    }
}

// ------------------------------------------------------------------------------ an op

/// Whether an op writes a document.
pub open spec fn gives(op: PatchOp, v: Json) -> bool {
    match op {
        PatchOp::Add { value, .. } => value@ == v,
        PatchOp::Replace { value, .. } => value@ == v,
        PatchOp::Remove { .. } => false,
    }
}

/// Whether a node is an object or a store.
pub open spec fn keyed_node(s: Tx, id: NodeId) -> bool {
    s.live(id) && (s.kind(id) is Object || s.kind(id) is Store)
}

proof fn field_op(
    s: Tx,
    op: PatchOp,
    tokens: Seq<Chars>,
    parent: NodeId,
    v: Json,
    ids: Seq<NodeId>,
)
    requires
        s.unclaim() == s,
        gives(op, v),
        granting::points(op.path_text(), tokens),
        tokens.len() > 0,
        model::walk(s, tokens.drop_last(), op.path_text()) == Ok::<NodeId, Fault>(parent),
        keyed_node(s, parent),
        op is Add || model::apply_patch_op(s, op, ids).1 is Ok,
    ensures
        model::apply_patch_op(s, op, ids) == model::put_field(
            s,
            parent,
            tokens.last(),
            v,
            s.owner_of(parent),
            model::deeper((tokens.len() - 1) as nat),
            ids,
        ),
{
    granting::unmarked_tokens(tokens);
}

/// What stands at a key of a node, if anything, is no store, and no collection of this
/// name.
pub open spec fn open_slot(s: Tx, parent: NodeId, key: Chars, name: Chars) -> bool {
    forall|e: NodeId| #[trigger]
        granting::steps(s, parent, key, e) ==> !(s.kind(e) is Store) && other_slot(s, Some(e), name)
}

proof fn held_is(s: Tx, parent: NodeId, key: Chars, v: Json)
    requires
        keyed_node(s, parent),
        forall|e: NodeId| #[trigger] granting::steps(s, parent, key, e) ==> !(s.kind(e) is Store),
    ensures
        patching::before_field(s, parent, key, v) == s,
        patching::held_field(s, parent, key, v) == keyed::lookup(s.links(parent), key),
        keyed::lookup(s.links(parent), key) matches Some(e) ==> granting::steps(
            s,
            parent,
            key,
            e,
        ),
{
    let fields = s.links(parent);
    keyed::key_index_meaning(fields, key);
    if let Some(e) = keyed::lookup(fields, key) {
        assert(fields[keyed::key_index(fields, key) as int] == (key, e));
        assert(granting::steps(s, parent, key, e));
    }
}

/// Whether a key of a node holds a node, in a tree.
pub open spec fn holds(tree: Tree, parent: NodeId, key: Chars, node: NodeId) -> bool {
    &&& tree.nodes.contains_key(parent)
    &&& tree.nodes.contains_key(node)
    &&& tree.nodes[node].parent == Some(parent)
    &&& granting::steps(journal::opened(tree), parent, key, node)
}

/// The last op of a batch gives a slot the marker of a stream, and the collection of the
/// stream is in the slot then, with the rows it had.
pub proof fn a_stream_moves_to_its_slot(
    tree: Tree,
    ops: Seq<PatchOp>,
    s: Tx,
    tokens: Seq<Chars>,
    parent: NodeId,
    name: Chars,
    owner: Path,
    node: NodeId,
)
    requires
        laws::sound(tree),
        laws::formed(ops),
        ops.len() > 0,
        tree::batch(tree, ops, Seq::empty(), s, Ok(())),
        gives(ops.last(), stream_marker(name)),
        granting::points(ops.last().path_text(), tokens),
        tokens.len() > 0,
        ({
            let b = laws::before_last(tree, ops, s);
            &&& granting::countable(b)
            &&& may_move(b, tokens, parent, name, owner, node)
        }),
    ensures
        moved(
            laws::before_last(tree, ops, s),
            commit::committed(s),
            tokens,
            ops.last().path_text(),
            parent,
            name,
            owner,
            node,
        ),
{
    laws::last_op(tree, ops, s);
    assert(patching::op_formed(ops[ops.len() - 1]));
    unclaimed(tree, ops, s);
    stream_committed(
        tree,
        laws::before_last(tree, ops, s),
        s,
        ops.last(),
        tokens,
        parent,
        name,
        owner,
        node,
    );
}

proof fn unclaimed(tree: Tree, ops: Seq<PatchOp>, s: Tx)
    ensures
        laws::before_last(tree, ops, s).unclaim() == laws::before_last(tree, ops, s),
{
}

/// What became of a stream's collection when its marker was written at a key.
pub open spec fn moved(
    b: Tx,
    after: Tree,
    tokens: Seq<Chars>,
    path: Chars,
    parent: NodeId,
    name: Chars,
    owner: Path,
    node: NodeId,
) -> bool {
    &&& holds(after, parent, tokens.last(), node)
    &&& laws::found(after, tokens, path) == Ok::<NodeId, Fault>(node)
    &&& after.nodes[node].kind == b.kind(node)
    &&& after.streams.contains_key((owner, name))
    &&& after.streams[(owner, name)] == node
    &&& forall|x: NodeId|
        #![trigger after.nodes[x]]
        after.nodes.contains_key(x) && b.live(x) && x != parent && b.parent_of(node) != Some(x)
            ==> after.nodes[x].kind == b.kind(x)
}

proof fn stream_committed(
    tree: Tree,
    b: Tx,
    s: Tx,
    op: PatchOp,
    tokens: Seq<Chars>,
    parent: NodeId,
    name: Chars,
    owner: Path,
    node: NodeId,
)
    requires
        patching::steady(b, tree.nodes, s.allocated),
        b.unclaim() == b,
        granting::countable(b),
        gives(op, stream_marker(name)),
        patching::op_formed(op),
        granting::points(op.path_text(), tokens),
        tokens.len() > 0,
        laws::one_op(b, op, s.allocated) == (s, Ok::<(), Fault>(())),
        may_move(b, tokens, parent, name, owner, node),
    ensures
        moved(b, commit::committed(s), tokens, op.path_text(), parent, name, owner, node),
{
    let ids = s.allocated;
    let was = tree.nodes;
    let after = commit::committed(s);
    stream_put(b, s, op, tokens, parent, name, owner, node, was, ids);
    field_committed(tree, s, tokens, parent, node, b, op.path_text());
    settlement::concluded_all(s, was, ids);
    assert forall|x: NodeId|
        #![trigger after.nodes[x]]
        after.nodes.contains_key(x) && b.live(x) && x != parent && b.parent_of(node) != Some(
            x,
        ) implies after.nodes[x].kind == b.kind(x) by {
        assert(s.live(x) && s.kind(x) == b.kind(x));
    }
    assert(s.streams.contains_key((owner, name)) && s.streams[(owner, name)] == node);
    assert(after.streams.contains_key((owner, name)));
    assert(after.nodes.contains_key(node));
    assert(after.nodes[node].kind == b.kind(node));
}

/// Whether a stream may move to a slot.
pub open spec fn may_move(
    b: Tx,
    tokens: Seq<Chars>,
    parent: NodeId,
    name: Chars,
    owner: Path,
    node: NodeId,
) -> bool {
    &&& granting::leads(b, b.root, tokens.drop_last(), parent)
    &&& keyed_node(b, parent)
    &&& open_slot(b, parent, tokens.last(), name)
    &&& owned(b, parent, owner, MAX_DEPTH as nat)
    &&& b.streams.contains_key((owner, name))
    &&& b.streams[(owner, name)] == node
    &&& b.live(node)
    &&& b.kind(node) matches Kind::Collection { name: own, .. } && own == name
    &&& node != b.root
    &&& b.parent_of(node) != Some(parent)
    &&& apart(b, node, parent)
}

/// Writing the marker of a stream at a key.
proof fn stream_put(
    b: Tx,
    s: Tx,
    op: PatchOp,
    tokens: Seq<Chars>,
    parent: NodeId,
    name: Chars,
    owner: Path,
    node: NodeId,
    was: Map<NodeId, Entry>,
    ids: Seq<NodeId>,
)
    requires
        patching::steady(b, was, ids),
        b.unclaim() == b,
        granting::countable(b),
        gives(op, stream_marker(name)),
        patching::op_formed(op),
        granting::points(op.path_text(), tokens),
        tokens.len() > 0,
        laws::one_op(b, op, ids) == (s, Ok::<(), Fault>(())),
        s.allocated.len() <= ids.len(),
        may_move(b, tokens, parent, name, owner, node),
    ensures
        patching::steady(s, was, ids),
        s.root == b.root,
        s.streams == b.streams,
        model::walk(b, tokens.drop_last(), op.path_text()) == Ok::<NodeId, Fault>(parent),
        patching::steps_kept(b, s, parent, op.path_text()),
        s.fields(parent) is Some,
        keyed::lookup(s.links(parent), tokens.last()) == Some(node),
        s.live(node),
        s.kind(node) == b.kind(node),
        forall|x: NodeId|
            #![trigger s.live(x)]
            #![trigger s.kind(x)]
            b.live(x) ==> s.live(x) && (x != parent && b.parent_of(node) != Some(x) ==> s.kind(x)
                == b.kind(x)),
{
    let path = op.path_text();
    let v = stream_marker(name);
    let front = tokens.drop_last();
    let key = tokens.last();
    let depth = model::deeper((tokens.len() - 1) as nat);
    let n = value::nesting(v) + 1;
    assert(shape::tidied(b) && shape::bounded(b.nodes) && shape::unused(b, ids)) by {
        reveal(shape::good);
    }
    granting::walk_is(b, b.root, front, parent, path);
    reveal(laws::one_op);
    field_op(b, op, tokens, parent, v, ids);
    owned_is(b, parent, owner, MAX_DEPTH as nat, MAX_WALK as nat);
    patching::walk_ready(b, front, path, was, ids);
    patching::field_written(b, parent, key, v, owner, depth, path, ids, n, was);
    held_is(b, parent, key, v);
    let existing = keyed::lookup(b.links(parent), key);
    assert(other_slot(b, existing, name));
    put_stream(b, parent, key, existing, name, owner, depth, ids, node);
}

proof fn put_stream(
    b: Tx,
    parent: NodeId,
    key: Chars,
    existing: Option<NodeId>,
    name: Chars,
    owner: Path,
    depth: nat,
    ids: Seq<NodeId>,
    node: NodeId,
)
    requires
        shape::bounded(b.nodes),
        shape::unused(b, ids),
        keyed_node(b, parent),
        patching::before_field(b, parent, key, stream_marker(name)) == b,
        patching::held_field(b, parent, key, stream_marker(name)) == existing,
        b.streams.contains_key((owner, name)),
        b.streams[(owner, name)] == node,
        b.live(node),
        b.kind(node) matches Kind::Collection { name: own, .. } && own == name,
        node != b.root,
        b.parent_of(node) != Some(parent),
        apart(b, node, parent),
        b.claimed_streams == Set::<(Path, Chars)>::empty(),
        other_slot(b, existing, name),
        ({
            let (s, done) = model::put_field(
                b,
                parent,
                key,
                stream_marker(name),
                owner,
                depth,
                ids,
            );
            done is Ok && s.allocated.len() <= ids.len()
        }),
    ensures
        ({
            let s = model::put_field(b, parent, key, stream_marker(name), owner, depth, ids).0;
            &&& model::reconcile_child(
                b,
                parent,
                existing,
                stream_marker(name),
                owner,
                depth,
                ids,
            ).1 == Ok::<NodeId, Fault>(node)
            &&& s.streams == b.streams
            &&& s.live(node)
            &&& s.kind(node) == b.kind(node)
            &&& forall|x: NodeId|
                #![trigger s.live(x)]
                #![trigger s.kind(x)]
                b.live(x) ==> s.live(x) && (x != parent && b.parent_of(node) != Some(x) ==> s.kind(
                    x,
                ) == b.kind(x))
        }),
{
    let v = stream_marker(name);
    let s = model::put_field(b, parent, key, v, owner, depth, ids).0;
    let (c, child) = model::reconcile_child(b, parent, existing, v, owner, depth, ids);
    assert(child is Ok);
    if existing != Some(child->Ok_0) {
        swap_in_spares(c, parent, key, existing, child->Ok_0, b.links(parent));
    }
    a_stream_moves(b, parent, existing, name, owner, depth, ids, node);
    assert(node != parent) by {
        assert(!above(b, node, parent, 0));
    }
    assert forall|x: NodeId|
        #![trigger s.live(x)]
        #![trigger s.kind(x)]
        b.live(x) implies s.live(x) && (x != parent && b.parent_of(node) != Some(x) ==> s.kind(x)
        == b.kind(x)) by {
        assert(c.live(x));
        assert(b.parent_of(node) != Some(x) ==> c.kind(x) == b.kind(x));
    }
}

/// What the last op put under a key is under it in the tree that is committed.
proof fn field_committed(
    tree: Tree,
    s: Tx,
    tokens: Seq<Chars>,
    parent: NodeId,
    node: NodeId,
    b: Tx,
    path: Chars,
)
    requires
        patching::steady(b, tree.nodes, s.allocated),
        patching::steady(s, tree.nodes, s.allocated),
        s.root == b.root,
        tokens.len() > 0,
        model::walk(b, tokens.drop_last(), path) == Ok::<NodeId, Fault>(parent),
        patching::steps_kept(b, s, parent, path),
        s.fields(parent) is Some,
        keyed::lookup(s.links(parent), tokens.last()) == Some(node),
    ensures
        holds(commit::committed(s), parent, tokens.last(), node),
        laws::found(commit::committed(s), tokens, path) == Ok::<NodeId, Fault>(node),
        settlement::top(s, node) == s.root,
        s.live(node),
{
    let after = commit::committed(s);
    let front = tokens.drop_last();
    let key = tokens.last();
    let was = tree.nodes;
    let ids = s.allocated;
    settlement::concluded_all(s, was, ids);
    assert(shape::linked(s) && shape::bounded(s.nodes) && shape::rooted(s) && shape::linked(b)
        && shape::bounded(b.nodes) && shape::rooted(b)) by {
        reveal(shape::good);
    }
    settlement::top_step(s, s.root);
    assert(shape::climbs(b.nodes, b.root, 0));
    patching::walk_kept(b, s, b.root, front, path, 0);
    patching::walk_last(s, s.root, tokens, path);
    laws::walk_committed(s, after, s.root, tokens, path);
    laws::walk_committed(s, after, s.root, front, path);
    let fields = s.links(parent);
    keyed::key_index_meaning(fields, key);
    let at = keyed::key_index(fields, key) as int;
    assert(fields[at] == (key, node));
    assert(s.kids(parent)[at] == node);
    assert(s.kids(parent).contains(node));
    laws::kid_committed(s, after, parent, node);
}

// ---------------------------------------------------------------- taken out, put back

/// Whether one key of a node was taken out, and the node it held with it: everything else
/// is what it was, and where it was.
spec fn taken(s: Tx, t: Tx, parent: NodeId, key: Chars, node: NodeId) -> bool {
    &&& t.root == s.root
    &&& t.stores == s.stores
    &&& t.streams == s.streams
    &&& keyed_node(s, parent)
    &&& keyed_node(t, parent)
    &&& s.live(node)
    &&& t.parent_of(node) is None
    &&& t.links(parent) == keyed::without(s.links(parent), key)
    &&& s.kind(parent) is Store <==> t.kind(parent) is Store
    &&& s.kind(parent) is Store ==> t.kind(parent)->Store_id == s.kind(parent)->Store_id
    &&& forall|x: NodeId| #[trigger] t.live(x) == s.live(x)
    &&& forall|x: NodeId| x != parent ==> #[trigger] t.kind(x) == s.kind(x)
    &&& forall|x: NodeId| x != node ==> #[trigger] t.parent_of(x) == s.parent_of(x)
}

proof fn removal(
    s: Tx,
    op: PatchOp,
    tokens: Seq<Chars>,
    parent: NodeId,
    node: NodeId,
    ids: Seq<NodeId>,
)
    requires
        s.unclaim() == s,
        shape::tidied(s),
        shape::linked(s),
        granting::countable(s),
        op is Remove,
        granting::points(op.path_text(), tokens),
        tokens.len() > 0,
        granting::leads(s, s.root, tokens.drop_last(), parent),
        keyed_node(s, parent),
        granting::steps(s, parent, tokens.last(), node),
        !s.is_pending.contains(node),
    ensures
        taken(s, laws::one_op(s, op, ids).0.unclaim(), parent, tokens.last(), node),
{
    let path = op.path_text();
    let key = tokens.last();
    reveal(laws::one_op);
    granting::unmarked_tokens(tokens);
    granting::walk_is(s, s.root, tokens.drop_last(), parent, path);
    granting::step_is(s, parent, key, node, path);
    steps_kid(s, parent, key, node);
    dirty_up_noted(s.touch(parent), Some(parent), MAX_WALK as nat);
    let fields = s.links(parent);
    let a = s.touch_dirty(parent);
    let b = a.put_kind(parent, a.kind(parent).with_fields(keyed::without(fields, key)));
    let t = b.release(node);
    assert(s.fields(parent) == Some(fields));
    assert(keyed::lookup(fields, key) == Some(node));
    assert(model::remove_field(s, parent, fields, key, path).0 == t);
    assert(model::apply_patch_op(s, op, ids).0 == t);
    let u = t.unclaim();
    assert(u.nodes == t.nodes);
    assert(b.live(node)) by {
        assert(s.live(node));
    }
    assert(t.nodes == b.file_pending(node).touch(node).put_parent(node, None).nodes);
    assert(u.kind(parent) == s.kind(parent).with_fields(keyed::without(fields, key)));
}

proof fn without_others(list: Seq<(Chars, NodeId)>, key: Chars, pair: (Chars, NodeId))
    ensures
        keyed::without(list, key).contains(pair) ==> list.contains(pair),
        list.contains(pair) && pair.0 != key ==> keyed::without(list, key).contains(pair),
{
    let new = keyed::without(list, key);
    keyed::key_index_meaning(list, key);
    let at = keyed::key_index(list, key) as int;
    if new.contains(pair) {
        let i = choose|i: int| 0 <= i < new.len() && new[i] == pair;
        if keyed::has_key(list, key) {
            assert(list[if i < at { i } else { i + 1 }] == pair);
        }
    }
    if list.contains(pair) && pair.0 != key {
        let i = choose|i: int| 0 <= i < list.len() && list[i] == pair;
        if keyed::has_key(list, key) {
            assert(new[if i < at { i } else { i - 1 }] == pair);
        }
    }
}

proof fn taken_steps(
    s: Tx,
    t: Tx,
    parent: NodeId,
    key: Chars,
    node: NodeId,
    id: NodeId,
    token: Chars,
    next: NodeId,
)
    requires
        taken(s, t, parent, key, node),
        shape::tidied(s),
        granting::steps(s, parent, key, node),
    ensures
        granting::steps(s, id, token, next) && next != node ==> granting::steps(t, id, token, next),
        granting::steps(t, id, token, next) ==> granting::steps(s, id, token, next),
{
    assert(t.live(id) == s.live(id));
    if id == parent {
        without_others(s.links(parent), key, (token, next));
        assert(shape::tidy(s.kind(parent)));
        granting::key_is(s.links(parent), key, node);
        if granting::steps(s, id, token, next) && next != node {
            granting::key_is(s.links(parent), token, next);
        }
        assert(granting::steps(s, id, token, next) == s.links(parent).contains((token, next)));
        assert(granting::steps(t, id, token, next) == t.links(parent).contains((token, next)));
    } else {
        assert(t.kind(id) == s.kind(id));
    }
}

proof fn taken_leads(
    s: Tx,
    t: Tx,
    parent: NodeId,
    key: Chars,
    node: NodeId,
    id: NodeId,
    tokens: Seq<Chars>,
    to: NodeId,
)
    requires
        taken(s, t, parent, key, node),
        shape::tidied(s),
        granting::steps(s, parent, key, node),
        leads_past(s, id, tokens, to, node),
    ensures
        leads_past(t, id, tokens, to, node),
    decreases tokens.len(),
{
    if tokens.len() > 0 {
        let next = choose|next: NodeId| #[trigger]
            granting::steps(s, id, tokens[0], next) && next != node && leads_past(
                s,
                next,
                tokens.drop_first(),
                to,
                node,
            );
        taken_steps(s, t, parent, key, node, id, tokens[0], next);
        taken_leads(s, t, parent, key, node, next, tokens.drop_first(), to);
    }
}

proof fn taken_owned(
    s: Tx,
    t: Tx,
    parent: NodeId,
    key: Chars,
    node: NodeId,
    id: NodeId,
    path: Path,
    n: nat,
)
    requires
        taken(s, t, parent, key, node),
        owned(s, id, path, n),
        apart(s, node, id),
    ensures
        owned(t, id, path, n),
    decreases n,
{
    assert(!above(s, node, id, 0));
    assert(t.live(id) == s.live(id));
    assert(t.parent_of(id) == s.parent_of(id));
    assert(id != parent ==> t.kind(id) == s.kind(id));
    if !(s.kind(id) is Store) {
        if let Some(up) = s.parent_of(id) {
            apart_up(s, node, id, up);
            taken_owned(s, t, parent, key, node, up, path, (n - 1) as nat);
        }
    }
}

proof fn root_apart(s: Tx, node: NodeId)
    requires
        shape::rooted(s),
        node != s.root,
    ensures
        apart(s, node, s.root),
{
    assert forall|n: nat| !#[trigger] above(s, node, s.root, n) by {}
}

/// Whether what stands at a key of a node, if it is anything but `node`, is no store, and
/// no collection of this name.
pub open spec fn slot_for(s: Tx, parent: NodeId, key: Chars, name: Chars, node: NodeId) -> bool {
    forall|e: NodeId| #[trigger]
        granting::steps(s, parent, key, e) && e != node ==> !(s.kind(e) is Store) && other_slot(
            s,
            Some(e),
            name,
        )
}

proof fn taken_may_move(
    s: Tx,
    t: Tx,
    parent: NodeId,
    key: Chars,
    node: NodeId,
    tokens: Seq<Chars>,
    to: NodeId,
    name: Chars,
    owner: Path,
)
    requires
        taken(s, t, parent, key, node),
        shape::tidied(s),
        shape::linked(s),
        shape::rooted(s),
        shape::linked(t),
        granting::steps(s, parent, key, node),
        node != s.root,
        leads_past(s, s.root, tokens.drop_last(), to, node),
        keyed_node(s, to),
        slot_for(s, to, tokens.last(), name, node),
        owned(s, to, owner, MAX_DEPTH as nat),
        s.streams.contains_key((owner, name)),
        s.streams[(owner, name)] == node,
        s.kind(node) matches Kind::Collection { name: own, .. } && own == name,
    ensures
        may_move(t, tokens, to, name, owner, node),
{
    root_apart(s, node);
    past_apart(s, s.root, tokens.drop_last(), to, node);
    taken_owned(s, t, parent, key, node, to, owner, MAX_DEPTH as nat);
    taken_leads(s, t, parent, key, node, s.root, tokens.drop_last(), to);
    past_leads(t, t.root, tokens.drop_last(), to, node);
    assert(t.parent_of(s.root) == s.parent_of(s.root) && t.live(s.root) == s.live(s.root));
    root_apart(t, node);
    past_apart(t, t.root, tokens.drop_last(), to, node);
    assert(t.live(to) == s.live(to) && t.live(node) == s.live(node));
    assert(to != parent ==> t.kind(to) == s.kind(to));
    assert(node != parent);
    assert(t.kind(node) == s.kind(node));
    assert forall|e: NodeId| #[trigger] granting::steps(t, to, tokens.last(), e) implies !(t.kind(
        e,
    ) is Store) && other_slot(t, Some(e), name) by {
        taken_steps(s, t, parent, key, node, to, tokens.last(), e);
        steps_kid(t, to, tokens.last(), e);
        steps_kid(s, to, tokens.last(), e);
        assert(e != node);
        assert(t.live(e) == s.live(e));
        if e == parent {
            assert(t.kind(e) is Collection ==> false);
        } else {
            assert(t.kind(e) == s.kind(e));
        }
    }
}

/// Whether the slot of a node, at a key of an object or of a store, may be removed and its
/// stream rendered at a key of another object or store, or at that of the same.
pub open spec fn may_travel(
    o: Tx,
    out: Seq<Chars>,
    from: NodeId,
    into: Seq<Chars>,
    to: NodeId,
    name: Chars,
    owner: Path,
    node: NodeId,
) -> bool {
    &&& out.len() > 0
    &&& granting::leads(o, o.root, out.drop_last(), from)
    &&& keyed_node(o, from)
    &&& granting::steps(o, from, out.last(), node)
    &&& into.len() > 0
    &&& leads_past(o, o.root, into.drop_last(), to, node)
    &&& keyed_node(o, to)
    &&& slot_for(o, to, into.last(), name, node)
    &&& owned(o, to, owner, MAX_DEPTH as nat)
    &&& o.streams.contains_key((owner, name))
    &&& o.streams[(owner, name)] == node
    &&& o.kind(node) matches Kind::Collection { name: own, .. } && own == name
}

proof fn after_first(tree: Tree, ops: Seq<PatchOp>, s: Tx)
    requires
        ops.len() == 2,
    ensures
        laws::before_last(tree, ops, s) == laws::one_op(
            journal::opened(tree),
            ops[0],
            s.allocated,
        ).0.unclaim(),
{
    reveal(laws::one_op);
    reveal_with_fuel(model::apply_patches, 2);
    let front = ops.drop_last();
    assert(front.len() == 1 && front[0] == ops[0]);
}

/// A stream survives a move: where a batch removes the slot of a stream at one pointer
/// and adds its marker at another, or at the same one, the collection that was in the
/// first slot is in the second, with the rows it had; the stream still names it; and no
/// other node but the two parents is anything else than it was.
pub proof fn a_stream_survives_a_move(
    tree: Tree,
    ops: Seq<PatchOp>,
    s: Tx,
    out: Seq<Chars>,
    from: NodeId,
    into: Seq<Chars>,
    to: NodeId,
    name: Chars,
    owner: Path,
    node: NodeId,
)
    requires
        laws::sound(tree),
        laws::formed(ops),
        granting::countable(journal::opened(tree)),
        tree::batch(tree, ops, Seq::empty(), s, Ok(())),
        ops.len() == 2,
        ops[0] is Remove,
        granting::points(ops[0].path_text(), out),
        gives(ops[1], stream_marker(name)),
        granting::points(ops[1].path_text(), into),
        may_travel(journal::opened(tree), out, from, into, to, name, owner, node),
    ensures
        ({
            let after = commit::committed(s);
            &&& holds(after, to, into.last(), node)
            &&& laws::found(after, into, ops[1].path_text()) == Ok::<NodeId, Fault>(node)
            &&& after.nodes[node].kind == tree.nodes[node].kind
            &&& after.streams.contains_key((owner, name))
            &&& after.streams[(owner, name)] == node
            &&& forall|x: NodeId|
                #![trigger after.nodes[x]]
                after.nodes.contains_key(x) && tree.nodes.contains_key(x) && x != from && x != to
                    ==> after.nodes[x].kind == tree.nodes[x].kind
        }),
{
    let o = journal::opened(tree);
    let b = laws::before_last(tree, ops, s);
    let after = commit::committed(s);
    assert(o.unclaim() == o);
    laws::last_op(tree, ops, s);
    unclaimed(tree, ops, s);
    after_first(tree, ops, s);
    assert(patching::op_formed(ops[1]));
    removal(o, ops[0], out, from, node, s.allocated);
    steps_kid(o, from, out.last(), node);
    assert(shape::linked(b)) by {
        reveal(shape::good);
    }
    taken_may_move(o, b, from, out.last(), node, into, to, name, owner);
    taken_countable(o, b, from, out.last(), node);
    stream_committed(tree, b, s, ops[1], into, to, name, owner, node);
    assert forall|x: NodeId|
        #![trigger after.nodes[x]]
        after.nodes.contains_key(x) && tree.nodes.contains_key(x) && x != from && x
            != to implies after.nodes[x].kind == tree.nodes[x].kind by {
        assert(o.live(x) && b.live(x) == o.live(x));
        assert(b.kind(x) == o.kind(x));
    }
}

// ----------------------------------------------------------------- a move is granted

/// Whether nothing stands more than `n` levels below a node.
pub open spec fn levels(s: Tx, id: NodeId, n: nat) -> bool
    decreases n,
{
    if n == 0 {
        s.kids(id).len() == 0
    } else {
        forall|i: int|
            0 <= i < s.kids(id).len() ==> levels(s, #[trigger] s.kids(id)[i], (n - 1) as nat)
    }
}

/// What has few levels fits where there is room for them.
pub proof fn levels_fit(s: Tx, t: Tx, id: NodeId, n: nat, room: nat)
    requires
        t.nodes == s.nodes,
        levels(s, id, n),
        n <= room,
    ensures
        t.fits(id, room),
    decreases n,
{
    assert(t.kids(id) == s.kids(id));
    if n > 0 {
        assert forall|i: int| 0 <= i < t.kids(id).len() implies t.fits(
            #[trigger] t.kids(id)[i],
            (room - 1) as nat,
        ) by {
            assert(levels(s, s.kids(id)[i], (n - 1) as nat));
            levels_fit(s, t, t.kids(id)[i], (n - 1) as nat, (room - 1) as nat);
        }
    }
}

/// A move of a stream is granted, where its collection fits under the depth cap at its new
/// place and, if it leaves a slot behind, there is room for one more node.
pub proof fn a_stream_move_is_granted(
    s: Tx,
    parent: NodeId,
    existing: Option<NodeId>,
    name: Chars,
    owner: Path,
    depth: nat,
    ids: Seq<NodeId>,
    node: NodeId,
    n: nat,
)
    requires
        shape::bounded(s.nodes),
        shape::unused(s, ids),
        s.live(parent),
        s.streams.contains_key((owner, name)),
        s.streams[(owner, name)] == node,
        s.live(node),
        s.kind(node) matches Kind::Collection { name: own, .. } && own == name,
        node != s.root,
        s.parent_of(node) != Some(parent),
        apart(s, node, parent),
        !s.claimed_streams.contains((owner, name)),
        other_slot(s, existing, name),
        levels(s, node, n),
        depth + n <= 256,
        s.allocated.len() <= ids.len(),
        s.parent_of(node) is Some ==> s.allocated.len() < ids.len() && granting::roomy(s, 1),
    ensures
        model::reconcile_child(
            s,
            parent,
            existing,
            stream_marker(name),
            owner,
            depth,
            ids,
        ).1 == Ok::<NodeId, Fault>(node),
{
    let v = stream_marker(name);
    assert(marker::form_of(v) == Form::Collection { name });
    let t = s.claim_stream((owner, name));
    assert(shape::climbs(s.nodes, parent, MAX_DEPTH as nat));
    apart_unmet(s, node, parent, MAX_DEPTH as nat, MAX_WALK as nat);
    reconciling::met_same(s, t, node, Some(parent), MAX_WALK as nat);
    assert(t.adoptable_stream(parent, existing, (owner, name)) == Some(node));
    shape::depth_step(s, node);
    levels_fit(s, t, node, n, (MAX_DEPTH - depth) as nat);
    assert(t.fits_at(node, depth));
    assert(shape::unused(t, ids)) by {
        assert forall|k: int| t.allocated.len() <= k < ids.len() implies !t.live(
            #[trigger] ids[k],
        ) by {
            assert(!s.live(ids[k]));
        }
    }
    let (u, moved) = t.adopt(parent, node, ids);
    let a = t.touch(node).unpend(node);
    let (b, left) = match a.parent_of(node) {
        Some(up) => a.detach(up, node, ids),
        None => (a, Ok(())),
    };
    if let Some(up) = a.parent_of(node) {
        dirty_up_noted(a.touch(up), Some(up), MAX_WALK as nat);
    }
    dirty_up_noted(b.put_parent(node, Some(parent)), Some(parent), MAX_WALK as nat);
    assert(left is Ok);
    assert(u.allocated.len() <= ids.len());
    adopt_spares(t, parent, node, ids);
    assert(model::reconcile(u, node, v, owner, depth, ids) == (u, Ok::<(), Fault>(())));
}

/// Whether the values of a document's fields are plain.
pub open spec fn plain_fields(fields: Seq<(Chars, Json)>) -> bool {
    forall|i: int| 0 <= i < fields.len() ==> plain::plain((#[trigger] fields[i]).1)
}

proof fn store_sized(v: Json, path: Path)
    requires
        marker::form_of(v) matches Form::Store { id, .. } && id == path,
    ensures
        ({
            let fields = v->Object_0;
            &&& v == Json::Object(fields)
            &&& marker::form_of(v) == Form::Store { id: path, fields }
            &&& granting::needs(v) == 2 + 2 * seeding::fields_values(fields, 0)
            &&& model::nesting_of_fields(fields) == value::nesting(v)
        }),
{
    model::form_nesting(v);
}

/// A new store is made: a slot that does not hold it, and is given the document of a store
/// that the tree does not have, or that this op has placed already, gets a node for it,
/// which its path stands for from then on.
pub proof fn a_new_store_is_made(
    s: Tx,
    parent: NodeId,
    existing: Option<NodeId>,
    v: Json,
    path: Path,
    owner: Path,
    depth: nat,
    ids: Seq<NodeId>,
)
    requires
        marker::form_of(v) matches Form::Store { id, .. } && id == path,
        plain_fields(v->Object_0),
        depth + value::nesting(v) <= 256,
        granting::roomy(s, granting::needs(v)),
        !s.stores.contains_key(path) || s.claimed.contains(path),
        existing matches Some(e) ==> !(s.live(e) && (s.kind(e) matches Kind::Store { id, .. } && id
            == path)),
    ensures
        ({
            let (t, done) = model::reconcile_child(s, parent, existing, v, owner, depth, ids);
            let id = ids[s.allocated.len() as int];
            &&& done == Ok::<NodeId, Fault>(id)
            &&& t.live(id)
            &&& t.kind(id) matches Kind::Store { id: own, .. } && own == path
            &&& t.stores.contains_key(path)
            &&& t.stores[path] == id
        }),
{
    store_sized(v, path);
    let fields = v->Object_0;
    let a = s.claim(path);
    let id = ids[s.allocated.len() as int];
    let (b, made) = a.make(Some(parent), ids);
    assert(made == Ok::<NodeId, Fault>(id));
    assert(b.nodes.dom() =~= s.nodes.dom().insert(id));
    let none = Seq::<(Chars, NodeId)>::empty();
    granting::fields_granted(b, id, none, fields, true, path, depth, 0, none, ids);
    plain::place_fields_fades(b, id, none, fields, true, path, depth, 0, none, id, ids);
    let (c, new) = model::place_fields(b, id, none, fields, true, path, depth, 0, none, ids);
    assert(b.live(id) && c.live(id));
    assert(model::install(b, id, v, owner, depth, ids).1 is Ok);
    assert(model::build(a, parent, v, owner, depth, ids) == (
        model::install(b, id, v, owner, depth, ids).0,
        Ok::<NodeId, Fault>(id),
    ));
    assert(model::reconcile_child(s, parent, existing, v, owner, depth, ids) == model::build(
        a,
        parent,
        v,
        owner,
        depth,
        ids,
    )) by {
        assert(s.claimed.contains(path) || a.adoptable_store(parent, existing, path) is None);
    }
}

/// Rendering a store where it stands is granted.
pub proof fn a_store_stays_is_granted(
    s: Tx,
    parent: NodeId,
    node: NodeId,
    v: Json,
    path: Path,
    owner: Path,
    depth: nat,
    ids: Seq<NodeId>,
)
    requires
        marker::form_of(v) matches Form::Store { id, .. } && id == path,
        plain_fields(v->Object_0),
        depth + value::nesting(v) <= 256,
        granting::roomy(s, granting::needs(v)),
        s.live(node),
        s.kind(node) matches Kind::Store { id, .. } && id == path,
    ensures
        model::reconcile_child(s, parent, Some(node), v, owner, depth, ids).1 == Ok::<
            NodeId,
            Fault,
        >(node),
{
    store_sized(v, path);
    let fields = v->Object_0;
    let a = s.claim(path);
    let old = s.kind(node)->Store_fields;
    let none = Seq::<(Chars, NodeId)>::empty();
    granting::fields_granted(a, node, old, fields, true, path, depth, 0, none, ids);
}

/// A move of a child store is granted, where it fits under the depth cap at its new place
/// and there is room.
pub proof fn a_store_move_is_granted(
    s: Tx,
    parent: NodeId,
    existing: Option<NodeId>,
    v: Json,
    path: Path,
    owner: Path,
    depth: nat,
    ids: Seq<NodeId>,
    node: NodeId,
    n: nat,
)
    requires
        shape::bounded(s.nodes),
        shape::unused(s, ids),
        s.live(parent),
        marker::form_of(v) matches Form::Store { id, .. } && id == path,
        plain_fields(v->Object_0),
        depth + value::nesting(v) <= 256,
        granting::roomy(s, granting::needs(v)),
        s.stores.contains_key(path),
        s.stores[path] == node,
        s.live(node),
        s.kind(node) matches Kind::Store { id, .. } && id == path,
        node != s.root,
        apart(s, node, parent),
        !s.claimed.contains(path),
        existing matches Some(e) ==> !(s.live(e) && (s.kind(e) matches Kind::Store { id, .. } && id
            == path)),
        levels(s, node, n),
        depth + n <= 256,
        s.allocated.len() <= ids.len(),
        s.parent_of(node) is Some ==> s.allocated.len() < ids.len(),
    ensures
        model::reconcile_child(s, parent, existing, v, owner, depth, ids).1 == Ok::<NodeId, Fault>(
            node,
        ),
{
    store_sized(v, path);
    let fields = v->Object_0;
    let t = s.claim(path);
    assert(shape::climbs(s.nodes, parent, MAX_DEPTH as nat));
    apart_unmet(s, node, parent, MAX_DEPTH as nat, MAX_WALK as nat);
    reconciling::met_same(s, t, node, Some(parent), MAX_WALK as nat);
    assert(t.adoptable_store(parent, existing, path) == Some(node));
    shape::depth_step(s, node);
    levels_fit(s, t, node, n, (MAX_DEPTH - depth) as nat);
    assert(t.fits_at(node, depth));
    assert(shape::unused(t, ids)) by {
        assert forall|k: int| t.allocated.len() <= k < ids.len() implies !t.live(
            #[trigger] ids[k],
        ) by {
            assert(!s.live(ids[k]));
        }
    }
    let (u, moved) = t.adopt(parent, node, ids);
    let a = t.touch(node).unpend(node);
    let (b, left) = match a.parent_of(node) {
        Some(up) => a.detach(up, node, ids),
        None => (a, Ok(())),
    };
    if let Some(up) = a.parent_of(node) {
        dirty_up_noted(a.touch(up), Some(up), MAX_WALK as nat);
    }
    dirty_up_noted(b.put_parent(node, Some(parent)), Some(parent), MAX_WALK as nat);
    assert(left is Ok);
    adopt_spares(t, parent, node, ids);
    let filler = ids[s.allocated.len() as int];
    assert(u.nodes.dom() =~= s.nodes.dom() || u.nodes.dom() =~= s.nodes.dom().insert(filler));
    let old = s.kind(node)->Store_fields;
    let none = Seq::<(Chars, NodeId)>::empty();
    granting::fields_granted(u, node, old, fields, true, path, depth, 0, none, ids);
    assert(model::reconcile(u, node, v, owner, depth, ids).1 is Ok);
}

proof fn taken_levels(s: Tx, t: Tx, parent: NodeId, key: Chars, node: NodeId, x: NodeId, n: nat)
    requires
        taken(s, t, parent, key, node),
        shape::linked(s),
        shape::bounded(s.nodes),
        s.live(x),
        s.depth(x) > s.depth(parent),
        levels(s, x, n),
    ensures
        levels(t, x, n),
    decreases n,
{
    assert(t.live(x) == s.live(x));
    assert(t.kind(x) == s.kind(x));
    assert(t.kids(x) == s.kids(x));
    if n > 0 {
        assert forall|i: int| 0 <= i < t.kids(x).len() implies levels(
            t,
            #[trigger] t.kids(x)[i],
            (n - 1) as nat,
        ) by {
            let kid = s.kids(x)[i];
            assert(s.kids(x).contains(kid));
            assert(s.parent_of(kid) == Some(x));
            shape::depth_step(s, kid);
            assert(levels(s, kid, (n - 1) as nat));
            taken_levels(s, t, parent, key, node, kid, (n - 1) as nat);
        }
    }
}

/// Putting the marker of a stream that was taken out at a key of an object or of a store.
proof fn put_back(
    b: Tx,
    op: PatchOp,
    tokens: Seq<Chars>,
    to: NodeId,
    name: Chars,
    owner: Path,
    node: NodeId,
    n: nat,
    ids: Seq<NodeId>,
)
    requires
        b.unclaim() == b,
        shape::tidied(b),
        shape::bounded(b.nodes),
        shape::unused(b, ids),
        granting::countable(b),
        op is Add,
        gives(op, stream_marker(name)),
        granting::points(op.path_text(), tokens),
        tokens.len() > 0,
        may_move(b, tokens, to, name, owner, node),
        b.parent_of(node) is None,
        b.allocated.len() <= ids.len(),
        levels(b, node, n),
        tokens.len() + n <= 256,
    ensures
        laws::one_op(b, op, ids).1 is Ok,
{
    let v = stream_marker(name);
    let key = tokens.last();
    let depth = model::deeper((tokens.len() - 1) as nat);
    assert(depth == tokens.len());
    granting::walk_is(b, b.root, tokens.drop_last(), to, op.path_text());
    reveal(laws::one_op);
    field_op(b, op, tokens, to, v, ids);
    owned_is(b, to, owner, MAX_DEPTH as nat, MAX_WALK as nat);
    held_is(b, to, key, v);
    let existing = keyed::lookup(b.links(to), key);
    assert(other_slot(b, existing, name));
    a_stream_move_is_granted(b, to, existing, name, owner, depth, ids, node, n);
}

/// A move of a stream succeeds: a batch that removes the slot of a stream at one pointer
/// and adds its marker at another, to an open tree, is applied, where the collection fits
/// under the depth cap at its new place.
pub proof fn a_stream_move_succeeds(
    tree: Tree,
    ops: Seq<PatchOp>,
    s: Tx,
    done: Result<(), Fault>,
    out: Seq<Chars>,
    from: NodeId,
    into: Seq<Chars>,
    to: NodeId,
    name: Chars,
    owner: Path,
    node: NodeId,
    n: nat,
)
    requires
        laws::sound(tree),
        laws::formed(ops),
        !tree.closed,
        granting::countable(journal::opened(tree)),
        tree::batch(tree, ops, Seq::empty(), s, done),
        ops.len() == 2,
        ops[0] is Remove,
        granting::points(ops[0].path_text(), out),
        ops[1] is Add,
        gives(ops[1], stream_marker(name)),
        granting::points(ops[1].path_text(), into),
        may_travel(journal::opened(tree), out, from, into, to, name, owner, node),
        levels(journal::opened(tree), node, n),
        into.len() + n <= 256,
    ensures
        done is Ok,
{
    let o = journal::opened(tree);
    let ids = s.allocated;
    laws::taken_unused(tree, s);
    laws::opened_steady(tree, ids);
    assert(o.unclaim() == o);
    removal(o, ops[0], out, from, node, ids);
    let (a, gone) = laws::one_op(o, ops[0], ids);
    assert(gone is Ok) by {
        reveal(laws::one_op);
        granting::a_remove_is_granted(o, ops[0], out, from, node, ids);
    }
    assert(a.allocated == o.allocated) by {
        removed_makes_none(o, ops[0], out, from, node, ids);
    }
    let b = a.unclaim();
    patched_steady(o, ops[0], ids, tree.nodes);
    patching::steady_alike(a, b, tree.nodes, ids);
    assert(shape::linked(b) && shape::tidied(b) && shape::bounded(b.nodes) && shape::unused(
        b,
        ids,
    )) by {
        reveal(shape::good);
    }
    steps_kid(o, from, out.last(), node);
    shape::depth_step(o, node);
    taken_may_move(o, b, from, out.last(), node, into, to, name, owner);
    taken_countable(o, b, from, out.last(), node);
    taken_levels(o, b, from, out.last(), node, node, n);
    put_back(b, ops[1], into, to, name, owner, node, n, ids);
    two_ops(tree, ops, s, done);
}

proof fn patched_steady(o: Tx, op: PatchOp, ids: Seq<NodeId>, was: Map<NodeId, Entry>)
    requires
        patching::steady(o, was, ids),
        op is Remove,
        laws::one_op(o, op, ids).1 is Ok,
        laws::one_op(o, op, ids).0.allocated.len() <= ids.len(),
    ensures
        patching::steady(laws::one_op(o, op, ids).0, was, ids),
{
    reveal(laws::one_op);
    patching::patch_op_keeps(o, op, ids, was);
}

proof fn removed_makes_none(
    s: Tx,
    op: PatchOp,
    tokens: Seq<Chars>,
    parent: NodeId,
    node: NodeId,
    ids: Seq<NodeId>,
)
    requires
        s.unclaim() == s,
        shape::tidied(s),
        granting::countable(s),
        op is Remove,
        granting::points(op.path_text(), tokens),
        tokens.len() > 0,
        granting::leads(s, s.root, tokens.drop_last(), parent),
        keyed_node(s, parent),
        granting::steps(s, parent, tokens.last(), node),
    ensures
        laws::one_op(s, op, ids).0.allocated == s.allocated,
{
    let path = op.path_text();
    reveal(laws::one_op);
    granting::unmarked_tokens(tokens);
    granting::walk_is(s, s.root, tokens.drop_last(), parent, path);
    granting::step_is(s, parent, tokens.last(), node, path);
    dirty_up_noted(s.touch(parent), Some(parent), MAX_WALK as nat);
}

/// A batch of two ops that each succeed succeeds.
proof fn two_ops(tree: Tree, ops: Seq<PatchOp>, s: Tx, done: Result<(), Fault>)
    requires
        !tree.closed,
        ops.len() == 2,
        tree::batch(tree, ops, Seq::empty(), s, done),
        laws::one_op(journal::opened(tree), ops[0], s.allocated).1 is Ok,
        laws::one_op(
            laws::one_op(journal::opened(tree), ops[0], s.allocated).0.unclaim(),
            ops[1],
            s.allocated,
        ).1 is Ok,
    ensures
        done is Ok,
{
    let o = journal::opened(tree);
    let ids = s.allocated;
    laws::taken_unused(tree, s);
    assert(model::apply_batch(o, ops, Seq::empty(), ids) == (s, done));
    let a = laws::one_op(o, ops[0], ids).0;
    laws::unclaimed_op(a, ops[1], ids);
    let c = laws::one_op(a, ops[1], ids).0;
    assert(model::apply_patches(o, ops, 0, ids).1 is Ok) by {
        reveal(laws::one_op);
        assert(model::apply_patches(c, ops, 2, ids) == (c, Ok::<(), Fault>(())));
        assert(model::apply_patches(a, ops, 1, ids) == model::apply_patches(c, ops, 2, ids));
        assert(model::apply_patches(o, ops, 0, ids) == model::apply_patches(a, ops, 1, ids));
    }
    let t = model::apply_patches(o, ops, 0, ids).0;
    assert(model::apply_streams(t, Seq::empty(), 0, ids) == (t, Ok::<(), Fault>(())));
}

/// Whether the slot of a child store, at a key of an object or of a store, may be removed
/// and the store rendered at a key of another object or store, or at that of the same.
pub open spec fn store_may_travel(
    o: Tx,
    out: Seq<Chars>,
    from: NodeId,
    into: Seq<Chars>,
    to: NodeId,
    path: Path,
    node: NodeId,
) -> bool {
    &&& out.len() > 0
    &&& granting::leads(o, o.root, out.drop_last(), from)
    &&& keyed_node(o, from)
    &&& granting::steps(o, from, out.last(), node)
    &&& into.len() > 0
    &&& leads_past(o, o.root, into.drop_last(), to, node)
    &&& keyed_node(o, to)
    &&& forall|e: NodeId| #[trigger]
        granting::steps(o, to, into.last(), e) && e != node ==> !(o.kind(e) is Store)
    &&& o.stores.contains_key(path)
    &&& o.stores[path] == node
    &&& o.kind(node) matches Kind::Store { id, .. } && id == path
}

/// Writing the document of a store at a key.
proof fn store_put(
    b: Tx,
    s: Tx,
    op: PatchOp,
    tokens: Seq<Chars>,
    parent: NodeId,
    v: Json,
    path: Path,
    node: NodeId,
    was: Map<NodeId, Entry>,
    ids: Seq<NodeId>,
)
    requires
        patching::steady(b, was, ids),
        b.unclaim() == b,
        granting::countable(b),
        gives(op, v),
        marker::form_of(v) matches Form::Store { id, .. } && id == path,
        patching::op_formed(op),
        granting::points(op.path_text(), tokens),
        tokens.len() > 0,
        laws::one_op(b, op, ids) == (s, Ok::<(), Fault>(())),
        s.allocated.len() <= ids.len(),
        granting::leads(b, b.root, tokens.drop_last(), parent),
        keyed_node(b, parent),
        forall|e: NodeId| #[trigger]
            granting::steps(b, parent, tokens.last(), e) ==> !(b.kind(e) is Store),
        b.stores.contains_key(path),
        b.stores[path] == node,
        b.live(node),
        b.kind(node) matches Kind::Store { id, .. } && id == path,
        node != b.root,
        apart(b, node, parent),
    ensures
        patching::steady(s, was, ids),
        s.root == b.root,
        model::walk(b, tokens.drop_last(), op.path_text()) == Ok::<NodeId, Fault>(parent),
        patching::steps_kept(b, s, parent, op.path_text()),
        s.fields(parent) is Some,
        keyed::lookup(s.links(parent), tokens.last()) == Some(node),
{
    let text = op.path_text();
    let front = tokens.drop_last();
    let key = tokens.last();
    let depth = model::deeper((tokens.len() - 1) as nat);
    let n = value::nesting(v) + 1;
    let owner = b.owner_of(parent);
    assert(shape::tidied(b) && shape::bounded(b.nodes)) by {
        reveal(shape::good);
    }
    granting::walk_is(b, b.root, front, parent, text);
    reveal(laws::one_op);
    field_op(b, op, tokens, parent, v, ids);
    patching::walk_ready(b, front, text, was, ids);
    patching::field_written(b, parent, key, v, owner, depth, text, ids, n, was);
    held_is(b, parent, key, v);
    let existing = keyed::lookup(b.links(parent), key);
    a_store_moves(b, parent, existing, v, path, owner, depth, ids, node);
}

/// A child store survives a move: where a batch removes the slot of a store at one pointer
/// and adds the store at another, or at the same one, the node that was in the first slot
/// is in the second.
pub proof fn a_store_survives_a_move(
    tree: Tree,
    ops: Seq<PatchOp>,
    s: Tx,
    out: Seq<Chars>,
    from: NodeId,
    into: Seq<Chars>,
    to: NodeId,
    v: Json,
    path: Path,
    node: NodeId,
)
    requires
        laws::sound(tree),
        laws::formed(ops),
        granting::countable(journal::opened(tree)),
        tree::batch(tree, ops, Seq::empty(), s, Ok(())),
        ops.len() == 2,
        ops[0] is Remove,
        granting::points(ops[0].path_text(), out),
        gives(ops[1], v),
        marker::form_of(v) matches Form::Store { id, .. } && id == path,
        granting::points(ops[1].path_text(), into),
        store_may_travel(journal::opened(tree), out, from, into, to, path, node),
    ensures
        holds(commit::committed(s), to, into.last(), node),
        laws::found(commit::committed(s), into, ops[1].path_text()) == Ok::<NodeId, Fault>(node),
{
    let o = journal::opened(tree);
    let b = laws::before_last(tree, ops, s);
    assert(o.unclaim() == o);
    laws::last_op(tree, ops, s);
    unclaimed(tree, ops, s);
    after_first(tree, ops, s);
    assert(patching::op_formed(ops[1]));
    removal(o, ops[0], out, from, node, s.allocated);
    steps_kid(o, from, out.last(), node);
    assert(shape::linked(b)) by {
        reveal(shape::good);
    }
    taken_leads(o, b, from, out.last(), node, o.root, into.drop_last(), to);
    past_leads(b, b.root, into.drop_last(), to, node);
    assert(b.parent_of(o.root) == o.parent_of(o.root) && b.live(o.root) == o.live(o.root));
    root_apart(b, node);
    past_apart(b, b.root, into.drop_last(), to, node);
    assert(b.live(to) == o.live(to) && b.live(node) == o.live(node));
    assert(to != from ==> b.kind(to) == o.kind(to));
    assert(node != from) by {
        shape::depth_step(o, node);
    }
    assert(b.kind(node) == o.kind(node));
    assert forall|e: NodeId| #[trigger] granting::steps(b, to, into.last(), e) implies !(b.kind(
        e,
    ) is Store) by {
        taken_steps(o, b, from, out.last(), node, to, into.last(), e);
        steps_kid(b, to, into.last(), e);
        assert(e != node);
        assert(e != from ==> b.kind(e) == o.kind(e));
    }
    taken_countable(o, b, from, out.last(), node);
    store_put(b, s, ops[1], into, to, v, path, node, tree.nodes, s.allocated);
    field_committed(tree, s, into, to, node, b, ops[1].path_text());
}

proof fn taken_countable(s: Tx, t: Tx, parent: NodeId, key: Chars, node: NodeId)
    requires
        taken(s, t, parent, key, node),
        granting::countable(s),
    ensures
        granting::countable(t),
{
    assert forall|x: NodeId| #[trigger] t.live(x) implies t.kids(x).len() <= usize::MAX by {
        assert(s.live(x));
        if x == parent {
            keyed::key_index_meaning(s.links(parent), key);
            assert(t.kids(x).len() <= s.kids(x).len());
        } else {
            assert(t.kind(x) == s.kind(x));
        }
    }
}

} // verus!
