//! An insertion into an array moves nodes, not values.

use vstd::prelude::*;

use crate::state::guard;
use crate::state::model;
use crate::state::model::Tx;
use crate::state::node::{Kind, NodeId};
use crate::state::patching;
use crate::state::placing;
use crate::state::reconciling;
use crate::state::replay;
use crate::state::shape;
use crate::state::slots::Entry;
use crate::state::value;
use crate::state::value::Json;
use crate::state::wire::Path;

verus! {

/// Where an element is once another was inserted at `index`.
pub open spec fn moved(i: int, index: int) -> int {
    if i < index {
        i
    } else {
        i + 1
    }
}

/// Whether one list of elements is another with one more, inserted at `index`:
/// every element is the node it was, one place further where it came after. A
/// stream may have moved into what was inserted: then a new node is in its place.
pub open spec fn shifted(s: Tx, old: Seq<NodeId>, new: Seq<NodeId>, index: int) -> bool {
    &&& new.len() == old.len() + 1
    &&& forall|i: int|
        0 <= i < old.len() ==> new[moved(i, index)] == #[trigger] old[i] || (s.kind(old[i])
            is Collection && !s.live(new[moved(i, index)]))
}

/// Claiming the stores among some nodes claims each.
proof fn claim_stores_all(s: Tx, list: Seq<NodeId>, i: int, k: int)
    requires
        0 <= i <= list.len(),
        0 <= k < list.len(),
        s.live(list[k]),
        k >= i || placed(s, list[k]),
    ensures
        placed(s.claim_stores(list, i), list[k]),
    decreases list.len() - i,
{
    if i < list.len() {
        if s.live(list[i]) {
            match s.kind(list[i]) {
                Kind::Store { id: path, .. } => {
                    claim_stores_all(s.claim(path), list, i + 1, k);
                },
                _ => {
                    claim_stores_all(s, list, i + 1, k);
                },
            }
        } else {
            claim_stores_all(s, list, i + 1, k);
        }
    }
}

/// Whether a store's id is claimed, where a node is one.
spec fn placed(s: Tx, id: NodeId) -> bool {
    s.kind(id) matches Kind::Store { id: path, .. } ==> s.claimed.contains(path)
}

/// What an insertion into an array leaves alone: what is above the array, and its
/// elements.
spec fn guarded(s: Tx, parent: NodeId) -> Set<NodeId> {
    Set::new(
        |x: NodeId|
            guard::spine(s, parent).contains(x) || (s.kids(parent).contains(x) && s.live(x) && !(
            s.kind(x) is Collection)),
    )
}

/// Inserting one array element.
pub proof fn array_add_shifts(
    s: Tx,
    parent: NodeId,
    index: int,
    v: Json,
    owner: Path,
    depth: nat,
    ids: Seq<NodeId>,
    was: Map<NodeId, Entry>,
)
    requires
        patching::steady(s, was, ids),
        s.live(parent),
        s.kind(parent) is Array,
        0 <= index <= s.kids(parent).len(),
        depth >= 1,
        shape::climbs(s.nodes, parent, (depth - 1) as nat),
        v.well_formed(),
        model::array_add(s, parent, index, v, owner, depth, ids).1 is Ok,
        model::array_add(s, parent, index, v, owner, depth, ids).0.allocated.len() <= ids.len(),
    ensures
        shifted(
            s,
            s.kids(parent),
            model::array_add(s, parent, index, v, owner, depth, ids).0.kids(parent),
            index,
        ),
{
    let old = s.kids(parent);
    let a = s.claim_stores(old, 0);
    let n = value::nesting(v) + 1;
    patching::claim_stores_aside(s, old, 0);
    patching::steady_alike(s, a, was, ids);
    patching::slot_ready(a, parent, None, depth, was, ids);
    let spine = guard::spine(a, parent);
    let kept = guarded(a, parent);
    assert(shape::linked(a)) by {
        reveal(shape::good);
    }
    assert(guard::guards(a, kept, parent)) by {
        reveal(guard::guards);
        assert forall|x: NodeId| #[trigger] kept.contains(x) implies a.live(x) && (a.parent_of(x)
            matches Some(up) ==> kept.contains(up)) && (a.is_ancestor(x, parent)
            || guard::placed_once(a, x)) by {
            if !spine.contains(x) {
                assert(a.kids(parent).contains(x));
                assert(a.parent_of(x) == Some(parent));
                let k = choose|k: int| 0 <= k < old.len() && old[k] == x;
                claim_stores_all(s, old, 0, k);
            }
        }
    }
    assert(placing::moored(a, kept, Set::empty())) by {
        assert forall|x: NodeId| #[trigger] shape::adrift(a, x) implies kept.contains(x) by {
            assert(!shape::adrift(a, x));
        }
    }
    let (b, child) = model::reconcile_child(a, parent, None, v, owner, depth, ids);
    let t = model::array_add(s, parent, index, v, owner, depth, ids).0;
    let kid = child->Ok_0;
    let held = b.kids(parent);
    let at = if index <= held.len() {
        index
    } else {
        held.len() as int
    };
    let new = held.insert(at, kid);
    let d = b.touch_dirty(parent);
    replay::touch_dirty_still(b, parent);
    let e = if held == new {
        b
    } else {
        d.put_kind(parent, Kind::Array(new))
    };
    replay::release_displaced_still(e, parent, old + held, new.to_set(), 0);
    assert(t.live(parent) == e.live(parent));
    reconciling::reconcile_child_keeps(
        a,
        parent,
        None,
        v,
        owner,
        depth,
        ids,
        n,
        Set::empty(),
        kept,
        was,
    );
    assert(guard::eroded(a, kept, a.kind(parent), b.kind(parent)) && b.live(parent)) by {
        reveal(guard::keeps);
        assert(kept.contains(parent) && a.live(parent));
    }
    assert(held.len() == old.len());
    assert(held != new);
    assert(t.kids(parent) == new);
    assert forall|i: int| 0 <= i < old.len() implies new[moved(i, index)] == #[trigger] old[i] || (
    s.kind(old[i]) is Collection && !s.live(new[moved(i, index)])) by {
        assert(new[moved(i, index)] == held[i]);
        assert(guard::worn(a, kept, old[i], held[i]));
        assert(a.kids(parent).contains(old[i]));
        assert(a.parent_of(old[i]) == Some(parent));
    }
}

} // verus!
