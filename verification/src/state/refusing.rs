//! What is asked for out of order is refused, with the reason why, and changes nothing.

use vstd::prelude::*;

use crate::state::error::Fault;
use crate::state::granting;
use crate::state::journal;
use crate::state::journal::Tree;
use crate::state::keyed;
use crate::state::laws;
use crate::state::model;
use crate::state::model::Tx;
use crate::state::node::{Kind, NodeId};
use crate::state::pointer;
use crate::state::pointer::ArrayIndex;
use crate::state::reading;
use crate::state::shape;
use crate::state::text::Chars;
use crate::state::tree;
use crate::state::value::Json;
use crate::state::wire::PatchOp;

verus! {

// -------------------------------------------------------------------------- an index

proof fn spelled(token: Chars)
    requires
        token.len() > 0,
        forall|i: int| 0 <= i < token.len() ==> pointer::is_digit(#[trigger] token[i]),
        token.len() > 1 ==> token[0] != '0',
    ensures
        token == granting::digits(pointer::decimal(token)),
        token.len() > 1 ==> pointer::decimal(token) >= 10,
        token.len() == 1 ==> pointer::decimal(token) < 10,
    decreases token.len(),
{
    let front = token.drop_last();
    assert(pointer::is_digit(token[token.len() - 1]));
    if token.len() == 1 {
        assert(front =~= Seq::<char>::empty());
        assert(pointer::decimal(front) == 0);
        assert(token =~= seq![token[0]]);
        assert(token =~= granting::digits(pointer::decimal(token)));
    } else {
        assert forall|i: int| 0 <= i < front.len() implies pointer::is_digit(
            #[trigger] front[i],
        ) by {
            assert(pointer::is_digit(token[i]));
        }
        assert(front[0] == token[0]);
        spelled(front);
        if front.len() == 1 {
            assert(pointer::decimal(front) != 0) by {
                assert(pointer::is_digit(front[0]));
                assert(front.drop_last() =~= Seq::<char>::empty());
                assert(pointer::decimal(front.drop_last()) == 0);
            }
        }
        assert(token =~= granting::digits(pointer::decimal(token)));
    }
}

/// A position is spelled one way: what is read as an index is the digits of it, with no
/// sign and no zero in front.
pub proof fn an_index_is_its_digits(token: Chars, n: usize)
    requires
        pointer::index_meaning(token) == Some(ArrayIndex::At(n)),
    ensures
        token == granting::digits(n as nat),
{
    spelled(token);
}

/// Only `-` stands for the end.
pub proof fn only_a_dash_is_the_end(token: Chars)
    ensures
        pointer::index_meaning(token) == Some(ArrayIndex::End) <==> token == seq!['-'],
{
}

// ---------------------------------------------------------------------------- a step

/// Whether a token leads nowhere from a node.
pub open spec fn nowhere(s: Tx, id: NodeId, token: Chars) -> bool {
    forall|next: NodeId| !#[trigger] granting::steps(s, id, token, next)
}

/// Why a token that leads nowhere is refused.
pub open spec fn refusal(s: Tx, id: NodeId, path: Chars) -> Fault {
    match s.kind(id) {
        Kind::Object(_) => Fault::Pointer { path, reason: "no such key"@ },
        Kind::Store { .. } => Fault::Pointer { path, reason: "no such key"@ },
        Kind::Array(_) => Fault::Index { path },
        Kind::Async { .. } => Fault::Pointer {
            path,
            reason: "an async node has only `result` and `reason` as children"@,
        },
        Kind::Collection { .. } => Fault::Pointer {
            path,
            reason: "stream items are not pointer-addressable (§3.1)"@,
        },
        _ => Fault::Pointer { path, reason: "cannot descend into a scalar"@ },
    }
}

/// A token that leads nowhere is refused.
pub proof fn a_step_is_refused(s: Tx, id: NodeId, token: Chars, path: Chars)
    requires
        s.live(id),
        nowhere(s, id, token),
    ensures
        model::step_to(s, id, token, path) == Err::<NodeId, Fault>(refusal(s, id, path)),
{
    reading::async_keys_differ();
    match s.kind(id) {
        Kind::Object(fields) => {
            no_key(s, id, fields, token);
        },
        Kind::Store { fields, .. } => {
            no_key(s, id, fields, token);
        },
        Kind::Array(items) => {
            if let Some(ArrayIndex::At(at)) = pointer::index_meaning(token) {
                if at < items.len() {
                    an_index_is_its_digits(token, at);
                    assert(items[at as int] == items[at as int] && token == granting::digits(
                        (at as int) as nat,
                    ));
                    assert(granting::steps(s, id, token, items[at as int]));
                }
            }
        },
        Kind::Async { result, reason, .. } => {
            assert(!granting::steps(s, id, token, result));
            assert(!granting::steps(s, id, token, reason));
        },
        _ => {},
    }
}

proof fn no_key(s: Tx, id: NodeId, fields: Seq<(Chars, NodeId)>, token: Chars)
    requires
        s.live(id),
        s.fields(id) == Some(fields),
        nowhere(s, id, token),
    ensures
        keyed::lookup(fields, token) is None,
        !keyed::has_key(fields, token),
{
    keyed::key_index_meaning(fields, token);
    if keyed::has_key(fields, token) {
        let at = keyed::key_index(fields, token) as int;
        assert(fields[at] == (token, fields[at].1));
        assert(fields.contains((token, fields[at].1)));
        assert(granting::steps(s, id, token, fields[at].1));
    }
}

/// A pointer that loses its way is refused, for the token that leads nowhere.
pub proof fn a_walk_is_refused(
    s: Tx,
    id: NodeId,
    tokens: Seq<Chars>,
    at: int,
    to: NodeId,
    path: Chars,
)
    requires
        shape::tidied(s),
        granting::countable(s),
        0 <= at < tokens.len(),
        granting::leads(s, id, tokens.take(at), to),
        s.live(to),
        nowhere(s, to, tokens[at]),
    ensures
        model::walk_from(s, id, tokens, path) == Err::<NodeId, Fault>(refusal(s, to, path)),
    decreases tokens.len(),
{
    if at == 0 {
        a_step_is_refused(s, to, tokens[0], path);
    } else {
        let front = tokens.take(at);
        let next = choose|next: NodeId| #[trigger]
            granting::steps(s, id, front[0], next) && granting::leads(
                s,
                next,
                front.drop_first(),
                to,
            );
        granting::step_is(s, id, tokens[0], next, path);
        assert(front.drop_first() =~= tokens.drop_first().take(at - 1));
        a_walk_is_refused(s, next, tokens.drop_first(), at - 1, to, path);
    }
}

// ------------------------------------------------------------------------------- an op

/// Whether an op is refused, and changes nothing.
pub open spec fn refused(s: Tx, op: PatchOp, ids: Seq<NodeId>, fault: Fault) -> bool {
    let (t, done) = model::apply_patch_op(s, op, ids);
    &&& done == Err::<(), Fault>(fault)
    &&& t == s.unclaim()
}

/// An op whose pointer is not empty and has no slash in front is refused.
pub proof fn a_pointer_starts_with_a_slash(s: Tx, op: PatchOp, ids: Seq<NodeId>)
    requires
        op.path_text().len() > 0,
        op.path_text()[0] != '/',
    ensures
        refused(
            s,
            op,
            ids,
            Fault::Pointer {
                path: op.path_text(),
                reason: "a non-empty pointer must start with '/'"@,
            },
        ),
{
}

/// What holds of the nodes holds with nothing claimed.
pub proof fn unclaim_same(s: Tx)
    requires
        shape::tidied(s),
        granting::countable(s),
    ensures
        shape::tidied(s.unclaim()),
        granting::countable(s.unclaim()),
{
    let t = s.unclaim();
    assert forall|x: NodeId| #[trigger] t.live(x) implies shape::tidy(t.kind(x)) by {
        assert(s.live(x));
    }
    assert forall|x: NodeId| #[trigger] t.live(x) implies t.kids(x).len() <= usize::MAX by {
        assert(s.live(x));
    }
}

/// An op whose pointer loses its way before its last token is refused.
pub proof fn an_op_to_nowhere_is_refused(
    s: Tx,
    op: PatchOp,
    tokens: Seq<Chars>,
    at: int,
    to: NodeId,
    ids: Seq<NodeId>,
)
    requires
        shape::tidied(s),
        granting::countable(s),
        granting::points(op.path_text(), tokens),
        0 <= at < tokens.len() - 1,
        granting::leads(s, s.root, tokens.take(at), to),
        s.live(to),
        nowhere(s, to, tokens[at]),
    ensures
        refused(s, op, ids, refusal(s, to, op.path_text())),
{
    let t = s.unclaim();
    let front = tokens.drop_last();
    granting::unmarked_tokens(tokens);
    unclaim_same(s);
    assert(front.take(at) =~= tokens.take(at));
    granting::still_leads(s, t, s.root, tokens.take(at), to);
    assert(nowhere(t, to, tokens[at])) by {
        assert forall|next: NodeId| !#[trigger] granting::steps(t, to, tokens[at], next) by {
            assert(!granting::steps(s, to, tokens[at], next));
        }
    }
    a_walk_is_refused(t, t.root, front, at, to, op.path_text());
}

/// A replace of what is not there is refused.
pub proof fn a_replace_of_nothing_is_refused(
    s: Tx,
    op: PatchOp,
    tokens: Seq<Chars>,
    parent: NodeId,
    ids: Seq<NodeId>,
)
    requires
        shape::tidied(s),
        granting::countable(s),
        op is Replace,
        granting::points(op.path_text(), tokens),
        tokens.len() > 0,
        granting::leads(s, s.root, tokens.drop_last(), parent),
        s.live(parent),
        nowhere(s, parent, tokens.last()),
        !(s.kind(parent) is Async && tokens.last() == "status"@),
    ensures
        refused(s, op, ids, refusal(s, parent, op.path_text())),
{
    let t = s.unclaim();
    let front = tokens.drop_last();
    let key = tokens.last();
    granting::unmarked_tokens(tokens);
    unclaim_same(s);
    granting::still_leads(s, t, s.root, front, parent);
    granting::walk_is(t, t.root, front, parent, op.path_text());
    assert(nowhere(t, parent, key)) by {
        assert forall|next: NodeId| !#[trigger] granting::steps(t, parent, key, next) by {
            assert(!granting::steps(s, parent, key, next));
        }
    }
    a_step_is_refused(t, parent, key, op.path_text());
    reading::async_keys_differ();
    match t.kind(parent) {
        Kind::Object(fields) => {
            no_key(t, parent, fields, key);
        },
        Kind::Store { fields, .. } => {
            no_key(t, parent, fields, key);
        },
        _ => {},
    }
}

/// Whether a node's children can be removed by a pointer.
pub open spec fn removable(s: Tx, parent: NodeId) -> bool {
    s.kind(parent) is Object || s.kind(parent) is Store || s.kind(parent) is Array
}

/// A remove of what is not there is refused, and so is one under a node that is no object,
/// no store and no array.
pub proof fn a_remove_of_nothing_is_refused(
    s: Tx,
    op: PatchOp,
    tokens: Seq<Chars>,
    parent: NodeId,
    ids: Seq<NodeId>,
)
    requires
        shape::tidied(s),
        granting::countable(s),
        op is Remove,
        granting::points(op.path_text(), tokens),
        tokens.len() > 0,
        granting::leads(s, s.root, tokens.drop_last(), parent),
        s.live(parent),
        nowhere(s, parent, tokens.last()) || !removable(s, parent),
    ensures
        refused(
            s,
            op,
            ids,
            if removable(s, parent) {
                refusal(s, parent, op.path_text())
            } else {
                Fault::Pointer {
                    path: op.path_text(),
                    reason: "the parent is not a container a `remove` can address"@,
                }
            },
        ),
{
    let t = s.unclaim();
    let front = tokens.drop_last();
    let key = tokens.last();
    granting::unmarked_tokens(tokens);
    unclaim_same(s);
    granting::still_leads(s, t, s.root, front, parent);
    granting::walk_is(t, t.root, front, parent, op.path_text());
    if removable(s, parent) {
        assert(nowhere(t, parent, key)) by {
            assert forall|next: NodeId| !#[trigger] granting::steps(t, parent, key, next) by {
                assert(!granting::steps(s, parent, key, next));
            }
        }
        a_step_is_refused(t, parent, key, op.path_text());
        match t.kind(parent) {
            Kind::Object(fields) => {
                no_key(t, parent, fields, key);
            },
            Kind::Store { fields, .. } => {
                no_key(t, parent, fields, key);
            },
            _ => {},
        }
    }
}

/// The root cannot be removed.
pub proof fn the_root_is_not_removed(s: Tx, op: PatchOp, ids: Seq<NodeId>)
    requires
        op is Remove,
        op.path_text().len() == 0,
    ensures
        refused(
            s,
            op,
            ids,
            Fault::Pointer {
                path: op.path_text(),
                reason: "the document root cannot be removed"@,
            },
        ),
{
    assert(pointer::pointer_tokens(op.path_text()) == Some(Seq::<Chars>::empty()));
    assert(model::marker_index(Seq::<Chars>::empty()) == 0);
}

/// An add where nothing can be added is refused: past the end of an array, or at what is
/// no position of it; at anything but the slots and the status of an async node; and under
/// a stream or a scalar.
pub proof fn an_add_to_nowhere_is_refused(
    s: Tx,
    op: PatchOp,
    tokens: Seq<Chars>,
    parent: NodeId,
    ids: Seq<NodeId>,
)
    requires
        shape::tidied(s),
        granting::countable(s),
        op is Add,
        granting::points(op.path_text(), tokens),
        tokens.len() > 0,
        granting::leads(s, s.root, tokens.drop_last(), parent),
        s.live(parent),
        !granting::addable(s, parent, tokens.last()),
        !(s.kind(parent) is Async && tokens.last() == "status"@),
    ensures
        refused(
            s,
            op,
            ids,
            match s.kind(parent) {
                Kind::Array(_) => Fault::Index { path: op.path_text() },
                Kind::Async { .. } => Fault::Pointer {
                    path: op.path_text(),
                    reason: "an async node has only `result` and `reason` as children"@,
                },
                _ => Fault::Pointer {
                    path: op.path_text(),
                    reason: "the parent is not a container an `add` can address"@,
                },
            },
        ),
{
    let t = s.unclaim();
    let front = tokens.drop_last();
    let key = tokens.last();
    granting::unmarked_tokens(tokens);
    unclaim_same(s);
    granting::still_leads(s, t, s.root, front, parent);
    granting::walk_is(t, t.root, front, parent, op.path_text());
    reading::async_keys_differ();
    if let Kind::Array(items) = s.kind(parent) {
        if let Some(ArrayIndex::At(at)) = pointer::index_meaning(key) {
            an_index_is_its_digits(key, at);
            if at <= items.len() {
                assert(key == granting::digits(at as nat));
            }
        }
    }
}

/// A status that is none of the three words is refused.
pub proof fn a_bad_status_is_refused(
    s: Tx,
    op: PatchOp,
    tokens: Seq<Chars>,
    parent: NodeId,
    v: Json,
    ids: Seq<NodeId>,
)
    requires
        shape::tidied(s),
        granting::countable(s),
        (op matches PatchOp::Replace { value, .. } && value@ == v) || (
        op matches PatchOp::Add { value, .. } && value@ == v),
        v != Json::Text("loading"@),
        v != Json::Text("ok"@),
        v != Json::Text("failed"@),
        granting::points(op.path_text(), tokens),
        tokens.len() > 0,
        tokens.last() == "status"@,
        granting::leads(s, s.root, tokens.drop_last(), parent),
        s.live(parent),
        s.kind(parent) is Async,
    ensures
        refused(
            s,
            op,
            ids,
            Fault::Pointer {
                path: op.path_text(),
                reason: "an async node's status must be one of loading, ok or failed"@,
            },
        ),
{
    let t = s.unclaim();
    let front = tokens.drop_last();
    granting::unmarked_tokens(tokens);
    unclaim_same(s);
    granting::still_leads(s, t, s.root, front, parent);
    granting::walk_is(t, t.root, front, parent, op.path_text());
    reading::async_keys_differ();
}

/// A batch ends with the first op that is refused, for the reason it is refused for.
pub proof fn a_refused_op_refuses_the_batch(
    tree: Tree,
    op: PatchOp,
    ops: Seq<PatchOp>,
    s: Tx,
    done: Result<(), Fault>,
    fault: Fault,
)
    requires
        !tree.closed,
        ops.len() > 0,
        ops[0] == op,
        tree::batch(tree, ops, Seq::empty(), s, done),
        refused(journal::opened(tree), op, s.allocated, fault),
    ensures
        done == Err::<(), Fault>(fault),
{
    laws::taken_unused(tree, s);
    assert(model::apply_batch(journal::opened(tree), ops, Seq::empty(), s.allocated) == (s, done));
}

} // verus!
