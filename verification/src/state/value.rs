//! JSON values as the tree holds them.

use vstd::prelude::*;

use crate::state::keyed;
use crate::state::text;
use crate::state::text::Chars;

verus! {

/// A JSON number, kept in the form it was parsed in.
///
/// An integer and a float are different numbers even where they agree in
/// value. A float is held by its IEEE 754 bits. The two float zeros are equal, and
/// kept apart: a value that is read back has the sign it is kept with.
#[derive(Clone, Copy, Debug, PartialEq, Eq, Structural)]
pub enum Number {
    /// A non-negative integer.
    PosInt(u64),
    /// A negative integer.
    NegInt(i64),
    /// A finite float, as its bits.
    Float(u64),
}

/// The bits of the float `-0.0`.
pub const NEGATIVE_ZERO: u64 = 0x8000_0000_0000_0000;

impl Number {
    /// The number as equality sees it: the two float zeros are one number.
    pub open spec fn canon(self) -> Number {
        match self {
            Number::Float(bits) => if bits == NEGATIVE_ZERO {
                Number::Float(0)
            } else {
                self
            },
            _ => self,
        }
    }

    /// Whether two numbers are equal.
    pub fn same(self, other: Number) -> (equal: bool)
        ensures
            equal == (self.canon() == other.canon()),
            equal == (self == other || (float_zero(self) && float_zero(other))),
    {
        match (self, other) {
            (Number::Float(a), Number::Float(b)) => a == b || ((a == 0 || a == NEGATIVE_ZERO) && (b
                == 0 || b == NEGATIVE_ZERO)),
            _ => self == other,
        }
    }
}

/// Whether a number is a float zero, of either sign.
pub open spec fn float_zero(number: Number) -> bool {
    number == Number::Float(0) || number == Number::Float(0x8000_0000_0000_0000)
}

/// Two numbers are equal exactly where they are the same one, or where both are
/// float zeros.
pub proof fn numbers_are_equal(a: Number, b: Number)
    ensures
        a.canon() == b.canon() <==> a == b || (float_zero(a) && float_zero(b)),
{
}

/// A JSON document.
#[derive(Debug)]
pub enum JsonValue {
    /// `null`.
    Null,
    /// A boolean.
    Bool(bool),
    /// A number.
    Number(Number),
    /// A string.
    String(String),
    /// An array.
    Array(Vec<JsonValue>),
    /// An object.
    Object(Object),
}

/// A JSON object: its keys are kept in order, each once.
#[derive(Debug)]
pub struct Object {
    entries: Vec<(String, JsonValue)>,
}

/// A JSON document as contracts see it.
#[verifier::ext_equal]
pub enum Json {
    Null,
    Bool(bool),
    Number(Number),
    Text(Chars),
    Array(Seq<Json>),
    Object(Seq<(Chars, Json)>),
}

impl Json {
    /// Every object in the document has its keys in order, each once.
    pub open spec fn well_formed(self) -> bool
        decreases self,
    {
        match self {
            Json::Array(items) => forall|i: int|
                0 <= i < items.len() ==> (#[trigger] items[i]).well_formed(),
            Json::Object(fields) => {
                &&& keyed::sorted(fields)
                &&& forall|i: int| 0 <= i < fields.len() ==> (#[trigger] fields[i]).1.well_formed()
            },
            _ => true,
        }
    }
}

/// A document as equality sees it: the two float zeros are one number.
pub open spec fn folded(v: Json) -> Json
    decreases v,
{
    match v {
        Json::Number(number) => Json::Number(number.canon()),
        Json::Array(items) => Json::Array(
            Seq::new(
                items.len(),
                |i: int|
                    if 0 <= i < items.len() {
                        folded(items[i])
                    } else {
                        Json::Null
                    },
            ),
        ),
        Json::Object(fields) => Json::Object(
            Seq::new(
                fields.len(),
                |i: int|
                    if 0 <= i < fields.len() {
                        (fields[i].0, folded(fields[i].1))
                    } else {
                        (Seq::empty(), Json::Null)
                    },
            ),
        ),
        _ => v,
    }
}

/// A list of documents as equality sees it.
pub open spec fn folded_items(items: Seq<Json>) -> Seq<Json> {
    Seq::new(items.len(), |i: int| folded(items[i]))
}

/// A list of fields as equality sees it.
pub open spec fn folded_fields(fields: Seq<(Chars, Json)>) -> Seq<(Chars, Json)> {
    Seq::new(fields.len(), |i: int| (fields[i].0, folded(fields[i].1)))
}

/// Whether two documents are equal.
pub open spec fn alike(a: Json, b: Json) -> bool {
    folded(a) == folded(b)
}

/// What equality sees of a list, and of an object.
pub proof fn folds(v: Json)
    ensures
        v matches Json::Array(items) ==> folded(v) == Json::Array(folded_items(items)),
        v matches Json::Object(fields) ==> folded(v) == Json::Object(folded_fields(fields)),
{
    match v {
        Json::Array(items) => {
            assert(folded(v)->Array_0 =~= folded_items(items));
        },
        Json::Object(fields) => {
            assert(folded(v)->Object_0 =~= folded_fields(fields));
        },
        _ => {},
    }
}

/// How deep a document nests: `0` for a scalar.
pub open spec fn nesting(v: Json) -> nat
    decreases v,
{
    match v {
        Json::Array(items) => 1 + items_nesting(items),
        Json::Object(fields) => 1 + fields_nesting(fields),
        _ => 0,
    }
}

/// The deepest nesting among `items`.
pub open spec fn items_nesting(items: Seq<Json>) -> nat
    decreases items,
{
    if items.len() == 0 {
        0
    } else {
        let first = nesting(items[0]);
        let rest = items_nesting(items.subrange(1, items.len() as int));
        if first > rest {
            first
        } else {
            rest
        }
    }
}

/// The deepest nesting among the values of `fields`.
pub open spec fn fields_nesting(fields: Seq<(Chars, Json)>) -> nat
    decreases fields,
{
    if fields.len() == 0 {
        0
    } else {
        let first = nesting(fields[0].1);
        let rest = fields_nesting(fields.subrange(1, fields.len() as int));
        if first > rest {
            first
        } else {
            rest
        }
    }
}

/// An element nests no deeper than its list.
pub proof fn item_nesting(items: Seq<Json>, i: int)
    requires
        0 <= i < items.len(),
    ensures
        nesting(items[i]) <= items_nesting(items),
    decreases items.len(),
{
    if i > 0 {
        let rest = items.subrange(1, items.len() as int);
        item_nesting(rest, i - 1);
        assert(rest[i - 1] == items[i]);
    }
}

/// A field's value nests no deeper than its list.
pub proof fn field_nesting(fields: Seq<(Chars, Json)>, i: int)
    requires
        0 <= i < fields.len(),
    ensures
        nesting(fields[i].1) <= fields_nesting(fields),
    decreases fields.len(),
{
    if i > 0 {
        let rest = fields.subrange(1, fields.len() as int);
        field_nesting(rest, i - 1);
        assert(rest[i - 1] == fields[i]);
    }
}

impl View for JsonValue {
    type V = Json;

    open spec fn view(&self) -> Json
        decreases self,
    {
        value_view(*self)
    }
}

/// A value as contracts see it.
pub closed spec fn value_view(v: JsonValue) -> Json
    decreases v,
{
    match v {
        JsonValue::Null => Json::Null,
        JsonValue::Bool(flag) => Json::Bool(flag),
        JsonValue::Number(number) => Json::Number(number),
        JsonValue::String(text) => Json::Text(text@),
        JsonValue::Array(items) => Json::Array(
            Seq::new(
                items@.len(),
                |i: int|
                    if 0 <= i < items@.len() {
                        value_view(items@[i])
                    } else {
                        Json::Null
                    },
            ),
        ),
        JsonValue::Object(object) => Json::Object(
            Seq::new(
                object.entries@.len(),
                |i: int|
                    if 0 <= i < object.entries@.len() {
                        (object.entries@[i].0@, value_view(object.entries@[i].1))
                    } else {
                        (Seq::empty(), Json::Null)
                    },
            ),
        ),
    }
}

impl View for Object {
    type V = Seq<(Chars, Json)>;

    closed spec fn view(&self) -> Seq<(Chars, Json)> {
        entries_view(self.entries@)
    }
}

/// A list of entries as contracts see it.
pub open spec fn entries_view(entries: Seq<(String, JsonValue)>) -> Seq<(Chars, Json)> {
    Seq::new(entries.len(), |i: int| (entries[i].0@, entries[i].1@))
}

/// A list of values as contracts see it.
pub open spec fn values_view(items: Seq<JsonValue>) -> Seq<Json> {
    Seq::new(items.len(), |i: int| items[i]@)
}

/// What the view of each kind of value is.
pub broadcast proof fn value_views(v: JsonValue)
    ensures
        #![trigger v@]
        v is Null ==> v@ == Json::Null,
        v matches JsonValue::Bool(flag) ==> v@ == Json::Bool(flag),
        v matches JsonValue::Number(number) ==> v@ == Json::Number(number),
        v matches JsonValue::String(text) ==> v@ == Json::Text(text@),
        v matches JsonValue::Array(items) ==> v@ == Json::Array(values_view(items@)),
        v matches JsonValue::Object(object) ==> v@ == Json::Object(object@),
{
    match v {
        JsonValue::Array(items) => {
            assert(v@->Array_0 =~= values_view(items@));
        },
        JsonValue::Object(object) => {
            assert(v@->Object_0 =~= object@);
        },
        _ => {},
    }
}

impl Object {
    /// An object without keys.
    pub fn new() -> (object: Object)
        ensures
            object@ == Seq::<(Chars, Json)>::empty(),
    {
        let object = Object { entries: Vec::new() };
        assert(object@ =~= Seq::<(Chars, Json)>::empty());
        object
    }

    /// An object from entries already in key order.
    pub(crate) fn from_entries(entries: Vec<(String, JsonValue)>) -> (object: Object)
        ensures
            object@ == entries_view(entries@),
    {
        Object { entries }
    }

    /// How many keys the object has.
    pub fn len(&self) -> (count: usize)
        ensures
            count == self@.len(),
    {
        self.entries.len()
    }

    /// Whether the object has no key.
    pub fn is_empty(&self) -> (empty: bool)
        ensures
            empty == (self@.len() == 0),
    {
        self.entries.len() == 0
    }

    /// The key at a position, in key order.
    pub fn key_at(&self, at: usize) -> (key: &String)
        requires
            at < self@.len(),
        ensures
            key@ == self@[at as int].0,
    {
        &self.entries[at].0
    }

    /// The value at a position, in key order.
    pub fn value_at(&self, at: usize) -> (value: &JsonValue)
        requires
            at < self@.len(),
        ensures
            value@ == self@[at as int].1,
    {
        &self.entries[at].1
    }

    /// Where a key is, or the length when it is absent.
    pub(crate) fn position(&self, key: &str) -> (at: usize)
        ensures
            at == keyed::key_index(self@, key@),
    {
        let mut i: usize = 0;
        while i < self.entries.len()
            invariant
                i <= self.entries@.len(),
                forall|j: int| 0 <= j < i ==> (#[trigger] self@[j]).0 != key@,
            decreases self.entries.len() - i,
        {
            if text::text_eq(self.entries[i].0.as_str(), key) {
                proof {
                    keyed::key_index_is(self@, key@, i as int);
                }
                return i;
            }
            assert(self@[i as int].0 != key@);
            i = i + 1;
        }
        proof {
            keyed::key_index_is(self@, key@, i as int);
        }
        i
    }

    /// The value filed under a key.
    pub fn get(&self, key: &str) -> (value: Option<&JsonValue>)
        ensures
            match value {
                Some(found) => keyed::lookup(self@, key@) == Some(found@),
                None => keyed::lookup(self@, key@) is None,
            },
    {
        let at: usize = self.position(key);
        proof {
            keyed::key_index_meaning(self@, key@);
        }
        if at < self.entries.len() {
            Some(&self.entries[at].1)
        } else {
            None
        }
    }

    /// Files a value under a key, handing back the one it displaced.
    pub fn insert(&mut self, key: String, value: JsonValue) -> (displaced: Option<JsonValue>)
        ensures
            final(self)@ == keyed::put(old(self)@, key@, value@),
            match displaced {
                Some(found) => keyed::lookup(old(self)@, key@) == Some(found@),
                None => keyed::lookup(old(self)@, key@) is None,
            },
    {
        let at: usize = self.position(key.as_str());
        proof {
            keyed::key_index_meaning(self@, key@);
            keyed::key_slot_meaning(self@, key@);
        }
        if at < self.entries.len() {
            let ghost before = self@;
            let mut entry = (key, value);
            std::mem::swap(&mut self.entries[at], &mut entry);
            assert(self@ =~= keyed::put(before, key@, value@));
            Some(entry.1)
        } else {
            let mut i: usize = 0;
            while i < self.entries.len() && text::text_lt(self.entries[i].0.as_str(), key.as_str())
                invariant
                    i <= self.entries@.len(),
                    *self == *old(self),
                    forall|j: int| 0 <= j < i ==> text::text_less((#[trigger] self@[j]).0, key@),
                decreases self.entries.len() - i,
            {
                i = i + 1;
            }
            proof {
                keyed::key_slot_is(self@, key@, i as int);
            }
            self.entries.insert(i, (key, value));
            assert(self@ =~= keyed::put(old(self)@, key@, value@));
            None
        }
    }

    /// Drops a key, handing back its value.
    pub fn remove(&mut self, key: &str) -> (removed: Option<JsonValue>)
        ensures
            final(self)@ == keyed::without(old(self)@, key@),
            match removed {
                Some(found) => keyed::lookup(old(self)@, key@) == Some(found@),
                None => keyed::lookup(old(self)@, key@) is None,
            },
    {
        let at: usize = self.position(key);
        proof {
            keyed::key_index_meaning(self@, key@);
        }
        if at < self.entries.len() {
            let entry = self.entries.remove(at);
            assert(self@ =~= keyed::without(old(self)@, key@));
            Some(entry.1)
        } else {
            None
        }
    }

    /// A copy of the object.
    pub fn copy(&self) -> (copy: Object)
        ensures
            copy@ == self@,
        decreases self,
    {
        let mut entries: Vec<(String, JsonValue)> = Vec::new();
        let mut i: usize = 0;
        while i < self.entries.len()
            invariant
                i <= self.entries@.len(),
                entries@.len() == i,
                forall|j: int|
                    0 <= j < i ==> (#[trigger] entries@[j]).0@ == self.entries@[j].0@
                        && entries@[j].1@ == self.entries@[j].1@,
            decreases self.entries.len() - i,
        {
            entries.push((self.entries[i].0.clone(), self.entries[i].1.copy()));
            i = i + 1;
        }
        let copy = Object { entries };
        assert(copy@ =~= self@);
        copy
    }

    /// Whether two objects are equal.
    pub fn same(&self, other: &Object) -> (equal: bool)
        ensures
            equal == (folded_fields(self@) == folded_fields(other@)),
        decreases self,
    {
        if self.entries.len() != other.entries.len() {
            assert(folded_fields(self@).len() != folded_fields(other@).len());
            return false;
        }
        let mut i: usize = 0;
        while i < self.entries.len()
            invariant
                i <= self.entries@.len(),
                self.entries@.len() == other.entries@.len(),
                forall|j: int|
                    0 <= j < i ==> folded_fields(self@)[j] == folded_fields(other@)[j],
            decreases self.entries.len() - i,
        {
            if self.entries[i].0 != other.entries[i].0 || !self.entries[i].1.same(
                &other.entries[i].1,
            ) {
                assert(folded_fields(self@)[i as int] != folded_fields(other@)[i as int]);
                return false;
            }
            assert(folded_fields(self@)[i as int] == folded_fields(other@)[i as int]);
            i = i + 1;
        }
        assert(folded_fields(self@) =~= folded_fields(other@));
        true
    }
}

impl JsonValue {
    /// A copy of the value.
    pub fn copy(&self) -> (copy: JsonValue)
        ensures
            copy@ == self@,
        decreases self,
    {
        broadcast use value_views;

        match self {
            JsonValue::Null => JsonValue::Null,
            JsonValue::Bool(flag) => JsonValue::Bool(*flag),
            JsonValue::Number(number) => JsonValue::Number(*number),
            JsonValue::String(text) => JsonValue::String(text.clone()),
            JsonValue::Array(items) => {
                let mut copy: Vec<JsonValue> = Vec::new();
                let mut i: usize = 0;
                while i < items.len()
                    invariant
                        self matches JsonValue::Array(held) && held == items,
                        i <= items@.len(),
                        copy@.len() == i,
                        forall|j: int| 0 <= j < i ==> (#[trigger] copy@[j])@ == items@[j]@,
                    decreases items.len() - i,
                {
                    copy.push(items[i].copy());
                    i = i + 1;
                }
                assert(values_view(copy@) =~= values_view(items@));
                JsonValue::Array(copy)
            },
            JsonValue::Object(object) => JsonValue::Object(object.copy()),
        }
    }

    /// Whether two values are equal.
    pub fn same(&self, other: &JsonValue) -> (equal: bool)
        ensures
            equal == alike(self@, other@),
        decreases self,
    {
        broadcast use value_views;

        proof {
            folds(self@);
            folds(other@);
        }

        match (self, other) {
            (JsonValue::Null, JsonValue::Null) => true,
            (JsonValue::Bool(a), JsonValue::Bool(b)) => *a == *b,
            (JsonValue::Number(a), JsonValue::Number(b)) => (*a).same(*b),
            (JsonValue::String(a), JsonValue::String(b)) => *a == *b,
            (JsonValue::Array(a), JsonValue::Array(b)) => {
                if a.len() != b.len() {
                    assert(folded_items(values_view(a@)).len() != folded_items(
                        values_view(b@),
                    ).len());
                    return false;
                }
                let mut i: usize = 0;
                while i < a.len()
                    invariant
                        self matches JsonValue::Array(held) && held == a,
                        folded(self@) == Json::Array(folded_items(values_view(a@))),
                        folded(other@) == Json::Array(folded_items(values_view(b@))),
                        i <= a@.len(),
                        a@.len() == b@.len(),
                        forall|j: int|
                            0 <= j < i ==> folded_items(values_view(a@))[j] == folded_items(
                                values_view(b@),
                            )[j],
                    decreases a.len() - i,
                {
                    if !a[i].same(&b[i]) {
                        assert(folded_items(values_view(a@))[i as int] != folded_items(
                            values_view(b@),
                        )[i as int]);
                        return false;
                    }
                    i = i + 1;
                }
                assert(folded_items(values_view(a@)) =~= folded_items(values_view(b@)));
                true
            },
            (JsonValue::Object(a), JsonValue::Object(b)) => a.same(b),
            _ => false,
        }
    }

    /// The text of a string value.
    pub fn as_str(&self) -> (text: Option<&String>)
        ensures
            match text {
                Some(found) => self@ == Json::Text(found@),
                None => !(self@ is Text),
            },
    {
        broadcast use value_views;

        match self {
            JsonValue::String(text) => Some(text),
            _ => None,
        }
    }
}

impl Clone for JsonValue {
    fn clone(&self) -> (copy: JsonValue)
        ensures
            copy@ == self@,
    {
        self.copy()
    }
}

impl Clone for Object {
    fn clone(&self) -> (copy: Object)
        ensures
            copy@ == self@,
    {
        self.copy()
    }
}

impl PartialEq for JsonValue {
    fn eq(&self, other: &JsonValue) -> (equal: bool) {
        self.same(other)
    }
}

impl vstd::std_specs::cmp::PartialEqSpecImpl for JsonValue {
    open spec fn obeys_eq_spec() -> bool {
        true
    }

    open spec fn eq_spec(&self, other: &JsonValue) -> bool {
        alike(self@, other@)
    }
}

} // verus!
