//! What holds of every batch, on batches that put it to the test.

use musubi::state::change::{CollectionEdit, Notify};
use musubi::state::node::{NodeId, NodeKind};
use musubi::state::state::{State, StreamState};
use musubi::state::tree::StateTree;
use musubi::state::value::{JsonValue, Number, Object};
use musubi::state::wire::{PatchOp, StoreId, StreamOp};

fn json(text: &str) -> JsonValue {
    from_serde(serde_json::from_str(text).expect("a JSON document"))
}

fn from_serde(value: serde_json::Value) -> JsonValue {
    match value {
        serde_json::Value::Null => JsonValue::Null,
        serde_json::Value::Bool(flag) => JsonValue::Bool(flag),
        serde_json::Value::Number(number) => {
            JsonValue::Number(Number::PosInt(number.as_u64().expect("a whole number")))
        }
        serde_json::Value::String(text) => JsonValue::String(text),
        serde_json::Value::Array(items) => {
            JsonValue::Array(items.into_iter().map(from_serde).collect())
        }
        serde_json::Value::Object(fields) => {
            let mut object = Object::new();
            for (key, value) in fields {
                object.insert(key, from_serde(value));
            }
            JsonValue::Object(object)
        }
    }
}

fn replace(path: &str, text: &str) -> PatchOp {
    PatchOp::Replace {
        path: path.to_owned(),
        value: json(text),
    }
}

fn add(path: &str, text: &str) -> PatchOp {
    PatchOp::Add {
        path: path.to_owned(),
        value: json(text),
    }
}

fn remove(path: &str) -> PatchOp {
    PatchOp::Remove {
        path: path.to_owned(),
    }
}

fn insert(key: &str, at: i64, text: &str, limit: Option<i64>) -> StreamOp {
    StreamOp::Insert {
        stream: "feed".to_owned(),
        store_id: StoreId::root(),
        item_key: key.to_owned(),
        at,
        item: json(text),
        limit,
    }
}

fn delete(key: &str) -> StreamOp {
    StreamOp::Delete {
        stream: "feed".to_owned(),
        store_id: StoreId::root(),
        item_key: key.to_owned(),
    }
}

fn reset() -> StreamOp {
    StreamOp::Reset {
        stream: "feed".to_owned(),
        store_id: StoreId::root(),
    }
}

fn seeded(text: &str) -> StateTree {
    let mut tree = StateTree::new();
    apply(&mut tree, vec![replace("", text)], vec![]);
    tree
}

fn apply(tree: &mut StateTree, ops: Vec<PatchOp>, stream_ops: Vec<StreamOp>) -> Notify {
    tree.apply(&ops, &stream_ops).expect("a batch that applies")
}

/// The node a path of keys leads to.
fn at(tree: &StateTree, keys: &[&str]) -> NodeId {
    let mut found = tree.root_id();
    for key in keys {
        found = tree.child_by_key(found, key).expect("a key that is there");
    }
    found
}

fn wire(tree: &StateTree, keys: &[&str]) -> JsonValue {
    tree.to_wire(at(tree, keys)).expect("a node")
}

fn feed(tree: &StateTree) -> StreamState<JsonValue> {
    StreamState::from_state(State::new(at(tree, &["feed"])))
}

fn keys(tree: &StateTree) -> Vec<String> {
    feed(tree).keys(tree)
}

/// A list of keys after the edits of one transaction, each at the index that is
/// valid when it is applied.
fn replayed(mut keys: Vec<String>, edits: &[CollectionEdit]) -> Vec<String> {
    for edit in edits {
        match edit {
            CollectionEdit::Inserted {
                item_key, index, ..
            } => keys.insert(*index, item_key.clone()),
            CollectionEdit::Removed { item_key, index } => {
                assert_eq!(keys.remove(*index), *item_key);
            }
            CollectionEdit::Moved { item_key, from, to } => {
                let moved = keys.remove(*from);
                assert_eq!(moved, *item_key);
                keys.insert(*to, moved);
            }
            CollectionEdit::Reset => keys.clear(),
            _ => unreachable!(),
        }
    }
    keys
}

const FEED: &str = r#"{"__musubi_stream__": "feed"}"#;

#[test]
fn a_document_that_is_written_reads_back() {
    let mut tree = seeded(r#"{"a": {"b": [1, 2]}}"#);
    let doc = r#"{"x": [true, null], "__musubi_store_id__": ["s"], "f": {"__musubi_stream__": "f"}}"#;
    apply(&mut tree, vec![replace("/a/b", doc)], vec![]);
    assert_eq!(wire(&tree, &["a", "b"]), json(doc));
    apply(&mut tree, vec![add("/a/c", "[3]")], vec![]);
    assert_eq!(wire(&tree, &["a", "c"]), json("[3]"));
    apply(&mut tree, vec![add("/a/c/-", "4")], vec![]);
    assert_eq!(wire(&tree, &["a", "c"]), json("[3, 4]"));
}

#[test]
fn an_async_object_reads_back_with_its_four_keys() {
    let mut tree = seeded(r#"{"job": null}"#);
    apply(
        &mut tree,
        vec![replace(
            "/job",
            r#"{"__musubi_async__": true, "status": "ok", "result": 7, "extra": 1}"#,
        )],
        vec![],
    );
    assert_eq!(
        wire(&tree, &["job"]),
        json(r#"{"__musubi_async__": true, "status": "ok", "result": 7, "reason": null}"#)
    );
    apply(&mut tree, vec![replace("/job/status", r#""failed""#)], vec![]);
    assert_eq!(
        wire(&tree, &["job"]),
        json(r#"{"__musubi_async__": true, "status": "failed", "result": 7, "reason": null}"#)
    );
}

#[test]
fn what_a_tree_renders_seeds_a_tree_that_renders_the_same() {
    let first = seeded(
        r#"{"job": {"__musubi_async__": true, "status": "loading", "junk": 1}, "feed": {"__musubi_stream__": "feed"}}"#,
    );
    let rendered = wire(&first, &[]);
    let mut second = StateTree::new();
    let ops = vec![PatchOp::Replace {
        path: String::new(),
        value: rendered.clone(),
    }];
    apply(&mut second, ops, vec![]);
    assert_eq!(wire(&second, &[]), rendered);
}

#[test]
fn the_projections_agree_where_there_is_no_stream() {
    let mut tree = seeded(r#"{"plain": {"__musubi_store_id__": ["s"], "n": 1}, "feed": {"__musubi_stream__": "feed"}}"#);
    apply(&mut tree, vec![], vec![insert("a", -1, "1", None)]);
    let plain = at(&tree, &["plain"]);
    assert_eq!(tree.to_hydrated(plain), tree.to_wire(plain));
    let list = at(&tree, &["feed"]);
    assert_eq!(tree.to_hydrated(list), Some(json("[1]")));
    assert_eq!(tree.to_wire(list), Some(json(FEED)));
}

#[test]
fn a_slot_that_is_removed_is_gone() {
    let mut tree = seeded(r#"{"a": 1, "b": 2, "list": [1, 2, 3]}"#);
    apply(&mut tree, vec![remove("/a")], vec![]);
    assert_eq!(tree.child_by_key(tree.root_id(), "a"), None);
    assert_eq!(wire(&tree, &["b"]), json("2"));
    apply(&mut tree, vec![remove("/list/1")], vec![]);
    assert_eq!(wire(&tree, &["list"]), json("[1, 3]"));
}

#[test]
fn a_stream_op_shows_in_the_rows() {
    let mut tree = seeded(&format!(r#"{{"feed": {FEED}}}"#));
    apply(&mut tree, vec![], vec![insert("a", -1, "1", None), insert("b", -1, "2", None)]);
    apply(&mut tree, vec![], vec![insert("c", 1, "[3]", None)]);
    assert_eq!(keys(&tree), ["a", "c", "b"]);
    let row = feed(&tree).by_key(&tree, "c").expect("a row");
    assert_eq!(tree.to_wire(row.node()), Some(json("[3]")));
    apply(&mut tree, vec![], vec![insert("d", -1, "4", Some(-2))]);
    assert_eq!(keys(&tree), ["b", "d"]);
    apply(&mut tree, vec![], vec![insert("e", 0, "5", Some(-2))]);
    assert_eq!(keys(&tree), ["e", "b"]);
    apply(&mut tree, vec![], vec![delete("b")]);
    assert_eq!(keys(&tree), ["e"]);
    apply(&mut tree, vec![], vec![reset()]);
    assert!(keys(&tree).is_empty());
    let other = StreamOp::Reset {
        stream: "other".to_owned(),
        store_id: StoreId::root(),
    };
    let notify = apply(&mut tree, vec![], vec![other]);
    assert!(notify.changes().is_empty());
}

#[test]
fn reported_edits_lead_from_the_rows_before_to_the_rows_after() {
    let mut tree = seeded(&format!(r#"{{"feed": {FEED}, "other": null}}"#));
    let store = |n: &str| format!(r#"{{"__musubi_store_id__": ["{n}"], "n": "{n}"}}"#);
    let batches: Vec<(Vec<PatchOp>, Vec<StreamOp>)> = vec![
        (vec![], vec![insert("a", -1, &store("a"), None), insert("b", 0, &store("b"), None)]),
        (vec![], vec![insert("c", 1, &store("c"), None), insert("a", 0, &store("a"), None)]),
        // A row that a patch op takes out of the list leaves an edit.
        (vec![replace("/other", &store("c"))], vec![insert("d", -1, "1", Some(2))]),
        (vec![], vec![reset(), insert("x", -1, "1", None), insert("y", 0, "2", None)]),
        (vec![], vec![delete("x"), insert("z", 5, "3", None), insert("y", -1, "4", None)]),
    ];
    for (ops, stream_ops) in batches {
        let before = keys(&tree);
        let list = feed(&tree).node();
        let notify = apply(&mut tree, ops, stream_ops);
        let edits = notify.changes().collection_edits(list);
        assert_eq!(replayed(before, edits), keys(&tree));
    }
}

#[test]
fn a_stream_that_is_rebuilt_in_its_slot_is_reported_from_nothing() {
    let mut tree = seeded(&format!(r#"{{"feed": {FEED}}}"#));
    apply(&mut tree, vec![], vec![insert("a", -1, "1", None), insert("b", -1, "2", None)]);
    let before = keys(&tree);
    let list = feed(&tree).node();
    let notify = apply(
        &mut tree,
        vec![replace("/feed", "null"), replace("/feed", FEED)],
        vec![insert("c", -1, "3", None)],
    );
    assert_eq!(feed(&tree).node(), list);
    assert_eq!(keys(&tree), ["c"]);
    let edits = notify.changes().collection_edits(list);
    assert_eq!(replayed(before, edits), ["c"]);
    assert_eq!(edits.first(), Some(&CollectionEdit::Reset));
}

#[test]
fn a_node_that_is_no_collection_has_no_edits() {
    let mut tree = seeded(&format!(r#"{{"feed": {FEED}}}"#));
    apply(&mut tree, vec![], vec![insert("a", -1, "1", None)]);
    let list = feed(&tree).node();
    let notify = apply(&mut tree, vec![replace("/feed", "7")], vec![]);
    assert_eq!(at(&tree, &["feed"]), list);
    assert!(notify.changes().contains(list));
    assert!(notify.changes().collection_edits(list).is_empty());
}

#[test]
fn what_stays_is_told_before_what_leaves_and_children_before_parents() {
    let mut tree = seeded(r#"{"a": {"b": {"c": 1}}, "z": {"y": 1}}"#);
    let root = tree.root_id();
    let z = at(&tree, &["z"]);
    let y = at(&tree, &["z", "y"]);
    let a = at(&tree, &["a"]);
    let b = at(&tree, &["a", "b"]);
    let c = at(&tree, &["a", "b", "c"]);
    // The subtree that leaves has changed on the way.
    let notify = apply(
        &mut tree,
        vec![replace("/a/b/c", "2"), remove("/a"), replace("/z/y", "2")],
        vec![],
    );
    assert_eq!(notify.changes().changed(), [y, z, root, c, b, a]);
}

#[test]
fn every_subscriber_of_a_changed_node_is_owed_and_nobody_else() {
    let mut tree = seeded(r#"{"a": 1, "b": 2}"#);
    let a = at(&tree, &["a"]);
    let b = at(&tree, &["b"]);
    let first = tree.subscribe(a);
    let second = tree.subscribe(a);
    let _other = tree.subscribe(b);
    let notify = apply(&mut tree, vec![replace("/a", "3")], vec![]);
    let owed: Vec<_> = notify.owed().iter().map(|debt| (debt.node, debt.subscriber)).collect();
    assert_eq!(owed, [(a, first), (a, second)]);
    let revision = State::<JsonValue>::new(a).revision(&tree);
    assert!(notify.owed().iter().all(|debt| debt.change.revision == revision));
}

#[test]
fn a_node_is_told_exactly_when_its_value_changed() {
    let mut tree = seeded(r#"{"a": {"n": 1}, "b": 2}"#);
    let a = at(&tree, &["a"]);
    let n = at(&tree, &["a", "n"]);
    let b = at(&tree, &["b"]);
    let notify = apply(
        &mut tree,
        vec![replace("/a/n", "5"), replace("/a/n", "1"), replace("/b", "3")],
        vec![],
    );
    assert!(!notify.changes().contains(a));
    assert!(!notify.changes().contains(n));
    assert!(notify.changes().contains(b));
    assert!(notify.changes().contains(tree.root_id()));
}

#[test]
fn a_store_keeps_its_node_wherever_it_is_rendered() {
    let mut tree = seeded(r#"{"left": {"__musubi_store_id__": ["s"], "n": 1}, "right": null}"#);
    let store = at(&tree, &["left"]);
    apply(
        &mut tree,
        vec![
            replace("/right", r#"{"__musubi_store_id__": ["s"], "n": 2}"#),
            replace("/left", "null"),
        ],
        vec![],
    );
    assert_eq!(at(&tree, &["right"]), store);
    assert_eq!(wire(&tree, &["right", "n"]), json("2"));
}

#[test]
fn every_node_is_held_once_by_its_parent() {
    let mut tree = seeded(&format!(r#"{{"feed": {FEED}, "a": {{"b": [1, [2]]}}}}"#));
    apply(&mut tree, vec![add("/a/c", "[[]]")], vec![insert("k", -1, r#"{"deep": [1]}"#, None)]);
    apply(&mut tree, vec![remove("/a/b/0")], vec![]);
    let mut seen = vec![tree.root_id()];
    let mut next = 0;
    while next < seen.len() {
        let id = seen[next];
        let node = tree.node(id).expect("a node");
        if let Some(parent) = node.parent {
            assert!(children(&tree, parent).contains(&id));
        } else {
            assert_eq!(id, tree.root_id());
        }
        for child in children(&tree, id) {
            assert!(!seen.contains(&child));
            assert_eq!(tree.node(child).expect("a node").parent, Some(id));
            seen.push(child);
        }
        next += 1;
    }
    assert_eq!(seen.len(), tree.len());
}

fn children(tree: &StateTree, id: NodeId) -> Vec<NodeId> {
    let mut found = tree.ordered_children(id);
    for key in ["feed", "a", "b", "c", "deep", "left", "right"] {
        found.extend(tree.child_by_key(id, key));
    }
    found
}

#[test]
fn a_refused_batch_leaves_the_tree_as_it_was() {
    let mut tree = seeded(r#"{"a": 1}"#);
    let before = wire(&tree, &[]);
    let revision = State::<JsonValue>::new(tree.root_id()).revision(&tree);
    assert!(tree.apply(&vec![replace("/a", "2"), remove("/none")], &vec![]).is_err());
    assert_eq!(wire(&tree, &[]), before);
    assert_eq!(State::<JsonValue>::new(tree.root_id()).revision(&tree), revision);
}

/// The store a node is, if it is one.
fn store_at(tree: &StateTree, id: NodeId) -> Option<StoreId> {
    match tree.node(id).expect("a node").kind {
        NodeKind::Store { store_id, .. } => Some(store_id),
        _ => None,
    }
}

#[test]
fn a_store_node_that_stays_is_the_store_it_was() {
    let mut tree = seeded(
        r#"{"a": {"__musubi_store_id__": ["s"], "n": 1}, "b": {"__musubi_store_id__": ["t"], "n": 2}}"#,
    );
    let first = at(&tree, &["a"]);
    let second = at(&tree, &["b"]);
    let one = store_at(&tree, first);

    apply(
        &mut tree,
        vec![
            replace("/a", r#"{"__musubi_store_id__": ["t"], "n": 2}"#),
            replace("/b", r#"{"__musubi_store_id__": ["s"], "n": 1}"#),
        ],
        vec![],
    );

    assert_eq!(at(&tree, &["a"]), second);
    assert_eq!(at(&tree, &["b"]), first);
    assert!(store_at(&tree, first) == one);

    apply(
        &mut tree,
        vec![replace("/b", r#"{"__musubi_store_id__": ["u"]}"#), replace("/a", "1")],
        vec![],
    );

    assert!(tree.node(first).is_none());
    assert!(tree.node(second).is_none());
}

#[test]
fn an_insertion_moves_nodes_and_a_stream_may_move_into_it() {
    let mut tree = seeded(r#"{"list": [1, {"__musubi_stream__": "feed"}, 3]}"#);
    let list = at(&tree, &["list"]);
    let before = tree.ordered_children(list);

    apply(&mut tree, vec![add("/list/1", "2")], vec![]);
    let plain = tree.ordered_children(list);
    assert_eq!(plain.len(), 4);
    assert_eq!([plain[0], plain[2], plain[3]], before[..]);

    let op = add("/list/0", r#"{"held": {"__musubi_stream__": "feed"}}"#);
    apply(&mut tree, vec![op], vec![]);
    let after = tree.ordered_children(list);
    assert_eq!(after.len(), 5);
    assert_eq!([after[1], after[2], after[4]], [plain[0], plain[1], plain[3]]);
    assert!(!plain.contains(&after[3]));
    assert_eq!(tree.child_by_key(after[0], "held"), Some(plain[2]));
}

#[test]
fn an_item_keeps_its_node_whether_it_is_listed_or_left_in_the_same_batch() {
    let mut tree = seeded(r#"{"feed": {"__musubi_stream__": "feed"}}"#);
    apply(&mut tree, vec![], vec![insert("a", -1, "1", None), insert("b", -1, "2", None)]);
    let row = feed(&tree).by_key(&tree, "a").expect("a row").node();

    apply(&mut tree, vec![], vec![insert("a", -1, "3", None)]);
    assert_eq!(keys(&tree), ["b", "a"]);
    assert_eq!(feed(&tree).by_key(&tree, "a").expect("a row").node(), row);

    apply(&mut tree, vec![], vec![reset(), insert("a", 0, "4", None)]);
    assert_eq!(keys(&tree), ["a"]);
    assert_eq!(feed(&tree).by_key(&tree, "a").expect("a row").node(), row);

    apply(&mut tree, vec![], vec![delete("a")]);
    apply(&mut tree, vec![], vec![insert("a", 0, "5", None)]);
    assert_ne!(feed(&tree).by_key(&tree, "a").expect("a row").node(), row);
}

#[test]
fn a_handle_on_nothing_stays_dead_in_a_tree_that_is_never_empty() {
    let mut tree = StateTree::new();
    let root: State<JsonValue> = tree.root();
    let nothing: State<JsonValue> = root.child(&tree, "later");

    assert!(!tree.is_empty());
    apply(&mut tree, vec![replace("", r#"{"later": 1}"#)], vec![]);
    assert!(!nothing.is_live(&tree));
    assert!(nothing.try_value(&tree).is_err());
    tree.close();
    assert!(!nothing.is_live(&tree));
    assert!(!tree.is_empty());
}

#[test]
fn a_node_that_is_gone_is_not_none() {
    let mut tree = seeded(r#"{"maybe": 7, "null": null}"#);
    let maybe: State<Option<JsonValue>> = State::new(at(&tree, &["maybe"]));
    let null: State<Option<JsonValue>> = State::new(at(&tree, &["null"]));

    assert!(!maybe.is_none(&tree));
    assert!(null.is_none(&tree));
    assert!(null.as_some(&tree).is_none());

    apply(&mut tree, vec![remove("/maybe"), remove("/null")], vec![]);
    assert!(!maybe.is_live(&tree));
    assert!(!maybe.is_none(&tree));
    assert!(!null.is_none(&tree));
    assert_eq!(null.as_some(&tree).map(|state| state.node()), Some(null.node()));
}

#[test]
fn a_seeded_tree_is_its_document_and_knows_its_stores() {
    let doc = r#"{"__musubi_store_id__": [], "n": 1,
        "left": {"__musubi_store_id__": ["l"], "feed": {"__musubi_stream__": "feed"}},
        "list": [{"__musubi_store_id__": ["l", "deep"]}, {"__musubi_upload__": "avatar"}],
        "job": {"__musubi_async__": true, "status": "ok", "result": {"__musubi_store_id__": ["j"]},
            "reason": null}}"#;
    let tree = seeded(doc);
    let mut ids: Vec<Vec<String>> =
        tree.store_ids().iter().map(|id| id.as_slice().to_vec()).collect();
    ids.sort();

    assert_eq!(wire(&tree, &[]), json(doc));
    let expected: Vec<Vec<String>> = vec![
        vec![],
        vec!["j".to_owned()],
        vec!["l".to_owned()],
        vec!["l".to_owned(), "deep".to_owned()],
    ];
    assert_eq!(ids, expected);
}

#[test]
fn a_plain_item_leaves_the_other_rows_as_they_were() {
    let mut tree = seeded(&format!(r#"{{"feed": {FEED}}}"#));
    apply(
        &mut tree,
        vec![],
        vec![insert("a", -1, r#"{"n": 1}"#, None), insert("b", -1, "2", None), insert("c", -1, "3", None)],
    );
    let rows: Vec<NodeId> =
        ["a", "c"].iter().map(|key| feed(&tree).by_key(&tree, key).expect("a row").node()).collect();

    apply(&mut tree, vec![], vec![insert("b", 0, r#"{"x": [1, {"y": null}]}"#, None)]);
    assert_eq!(keys(&tree), ["b", "a", "c"]);
    let after: Vec<NodeId> =
        ["a", "c"].iter().map(|key| feed(&tree).by_key(&tree, key).expect("a row").node()).collect();
    assert_eq!(after, rows);
    assert_eq!(tree.to_wire(rows[0]), Some(json(r#"{"n": 1}"#)));
}

#[test]
fn a_float_zero_reads_back_with_its_sign() {
    let zero = JsonValue::Number(Number::Float(0.0f64.to_bits()));
    let negative = JsonValue::Number(Number::Float((-0.0f64).to_bits()));
    let sign = |value: Option<JsonValue>| match value {
        Some(JsonValue::Number(Number::Float(bits))) => bits,
        other => panic!("no float: {other:?}"),
    };
    let mut tree = StateTree::new();
    let write = |value: &JsonValue| {
        vec![PatchOp::Replace {
            path: "".to_owned(),
            value: value.clone(),
        }]
    };

    assert_eq!(zero, negative);
    apply(&mut tree, write(&negative), vec![]);
    let root = tree.root_id();
    assert_eq!(sign(tree.to_wire(root)), (-0.0f64).to_bits());
    assert_eq!(sign(tree.to_hydrated(root)), (-0.0f64).to_bits());

    // The other zero is the same number, so nothing is written.
    let notify = apply(&mut tree, write(&zero), vec![]);
    assert!(notify.changes().is_empty());
    assert_eq!(sign(tree.to_wire(root)), (-0.0f64).to_bits());

    apply(&mut tree, write(&json("1")), vec![]);
    apply(&mut tree, write(&zero), vec![]);
    assert_eq!(sign(tree.to_wire(root)), 0);

    // A value that comes out equal is kept as it was; the kinds hold what was written.
    let mut open = tree.begin();
    open.apply(&write(&json("1")), &vec![]).expect("a batch that applies");
    open.apply(&write(&negative), &vec![]).expect("a batch that applies");
    assert_eq!(sign(open.to_hydrated(root)), (-0.0f64).to_bits());
    let (tree, notify) = open.commit();
    assert!(notify.changes().is_empty());
    assert_eq!(sign(tree.to_wire(root)), 0);

    // What is taken back is taken back to the sign.
    let mut open = tree.begin();
    open.apply(&write(&json("2")), &vec![]).expect("a batch that applies");
    let tree = open.rollback();
    assert_eq!(sign(tree.to_wire(root)), 0);
}

#[test]
fn a_seeded_tree_keeps_the_signs_of_its_document() {
    let bits = |value: &JsonValue| match value {
        JsonValue::Array(items) => items
            .iter()
            .map(|item| match item {
                JsonValue::Number(Number::Float(bits)) => *bits,
                other => panic!("no float: {other:?}"),
            })
            .collect::<Vec<u64>>(),
        other => panic!("no list: {other:?}"),
    };
    let float = |number: f64| JsonValue::Number(Number::Float(number.to_bits()));
    let list = JsonValue::Array(vec![float(-0.0), float(0.0), float(-1.5)]);
    let mut tree = StateTree::new();
    let ops = vec![PatchOp::Replace {
        path: "".to_owned(),
        value: list.clone(),
    }];
    apply(&mut tree, ops, vec![]);
    let root = tree.root_id();

    assert_eq!(bits(&tree.to_wire(root).expect("a root")), bits(&list));
    assert_eq!(bits(&tree.to_hydrated(root).expect("a root")), bits(&list));
}

#[test]
fn each_subscriber_of_a_changed_node_is_owed_once() {
    let mut tree = seeded(r#"{"kept": {"n": 1}, "gone": 2, "same": 3}"#);
    let nodes = [
        at(&tree, &["kept"]),
        at(&tree, &["kept", "n"]),
        at(&tree, &["gone"]),
        at(&tree, &["same"]),
    ];
    let mut ids = Vec::new();
    for node in nodes {
        ids.push((node, tree.subscribe(node)));
        ids.push((node, tree.subscribe(node)));
    }
    tree.unsubscribe(ids[0].0, ids[0].1);

    let notify = apply(
        &mut tree,
        vec![replace("/kept/n", "4"), replace("/kept/n", "5"), remove("/gone")],
        vec![],
    );
    let times: Vec<usize> = ids
        .iter()
        .map(|(node, id)| {
            notify.owed().iter().filter(|debt| debt.node == *node && debt.subscriber == *id).count()
        })
        .collect();
    assert_eq!(times, [0, 1, 1, 1, 1, 1, 0, 0]);

    let notify = tree.close();
    let owed = |at: usize| {
        notify.owed().iter().filter(|debt| debt.node == ids[at].0 && debt.subscriber == ids[at].1).count()
    };
    assert_eq!([owed(1), owed(2), owed(3), owed(6), owed(7)], [1, 1, 1, 1, 1]);
    assert_eq!(notify.owed().len(), 5);
}
