//! The endpoint address: `<base>/websocket?vsn=2.0.0&<connect params>`.

use vstd::prelude::*;
use vstd::utf8;

use crate::state::keyed;
use crate::state::pointer;
use crate::state::text;
use crate::state::text::Chars;

verus! {

/// The serializer version this crate speaks.
pub const VSN: &'static str = "2.0.0";

/// Whether a byte stands for itself in a query component.
pub open spec fn unreserved(b: u8) -> bool {
    ||| 'A' as u8 <= b <= 'Z' as u8
    ||| 'a' as u8 <= b <= 'z' as u8
    ||| '0' as u8 <= b <= '9' as u8
    ||| b == '-' as u8
    ||| b == '_' as u8
    ||| b == '.' as u8
    ||| b == '~' as u8
}

/// The upper-case hexadecimal digit of a number below sixteen.
pub open spec fn hex(n: int) -> char {
    if n < 10 {
        ('0' as int + n) as char
    } else {
        ('A' as int + n - 10) as char
    }
}

/// One byte of a query component.
pub open spec fn escaped(b: u8) -> Chars {
    if unreserved(b) {
        seq![b as char]
    } else {
        seq!['%', hex(b as int / 16), hex(b as int % 16)]
    }
}

/// A query component: its unreserved bytes, and `%XX` for every other.
pub open spec fn encoded(bytes: Seq<u8>) -> Chars
    decreases bytes.len(),
{
    if bytes.len() == 0 {
        Seq::empty()
    } else {
        encoded(bytes.drop_last()) + escaped(bytes.last())
    }
}

/// The number a hexadecimal digit stands for.
pub open spec fn unhex(c: char) -> int {
    if '0' <= c <= '9' {
        c as int - '0' as int
    } else {
        c as int - 'A' as int + 10
    }
}

/// The bytes a query component stands for.
pub open spec fn decoded(text: Chars) -> Seq<u8>
    decreases text.len(),
{
    if text.len() == 0 {
        Seq::empty()
    } else if text[0] == '%' && text.len() >= 3 {
        seq![(unhex(text[1]) * 16 + unhex(text[2])) as u8] + decoded(text.skip(3))
    } else {
        seq![text[0] as u8] + decoded(text.skip(1))
    }
}

proof fn decoded_after(b: u8, rest: Chars)
    ensures
        decoded(escaped(b) + rest) == seq![b] + decoded(rest),
{
    let text = escaped(b) + rest;
    if unreserved(b) {
        assert(text.skip(1) =~= rest);
        assert(text[0] == b as char);
        assert(text[0] as u8 == b);
    } else {
        assert(text.skip(3) =~= rest);
        let high = b as int / 16;
        let low = b as int % 16;
        assert(unhex(hex(high)) == high);
        assert(unhex(hex(low)) == low);
        assert(high * 16 + low == b);
    }
}

proof fn encoded_front(bytes: Seq<u8>)
    requires
        bytes.len() > 0,
    ensures
        encoded(bytes) == escaped(bytes[0]) + encoded(bytes.drop_first()),
    decreases bytes.len(),
{
    if bytes.len() == 1 {
        assert(bytes.drop_last() =~= Seq::<u8>::empty());
        assert(bytes.drop_first() =~= Seq::<u8>::empty());
        assert(encoded(bytes) =~= escaped(bytes[0]) + encoded(bytes.drop_first()));
    } else {
        let rest = bytes.drop_first();
        encoded_front(bytes.drop_last());
        assert(bytes.drop_last().drop_first() =~= rest.drop_last());
        assert(encoded(bytes) =~= escaped(bytes[0]) + encoded(rest));
    }
}

/// A query component is read back as the bytes it was made from.
pub proof fn percent_round_trip(bytes: Seq<u8>)
    ensures
        decoded(encoded(bytes)) == bytes,
    decreases bytes.len(),
{
    if bytes.len() > 0 {
        let rest = bytes.drop_first();
        percent_round_trip(rest);
        encoded_front(bytes);
        decoded_after(bytes[0], encoded(rest));
        assert(seq![bytes[0]] + rest =~= bytes);
    } else {
        assert(bytes =~= Seq::<u8>::empty());
    }
}

/// A query component holds nothing that could end it or start another: only
/// unreserved characters and escapes.
pub proof fn percent_stays_inside(bytes: Seq<u8>, i: int)
    requires
        0 <= i < encoded(bytes).len(),
    ensures
        encoded(bytes)[i] == '%' || (encoded(bytes)[i] as int <= 127 && unreserved(
            encoded(bytes)[i] as u8,
        )),
    decreases bytes.len(),
{
    let front = encoded(bytes.drop_last());
    if i < front.len() {
        percent_stays_inside(bytes.drop_last(), i);
    } else {
        let b = bytes.last();
        assert(encoded(bytes)[i] == escaped(b)[i - front.len()]);
    }
}

/// A text without the slashes it ends in.
pub open spec fn trimmed(base: Chars) -> Chars
    decreases base.len(),
{
    if base.len() > 0 && base.last() == '/' {
        trimmed(base.drop_last())
    } else {
        base
    }
}

/// The connect params as they stand in the address.
pub open spec fn query(params: Seq<(Chars, Chars)>) -> Chars
    decreases params.len(),
{
    if params.len() == 0 {
        Seq::empty()
    } else {
        query(params.drop_last()) + seq!['&'] + encoded(utf8::encode_utf8(params.last().0))
            + seq!['='] + encoded(utf8::encode_utf8(params.last().1))
    }
}

/// The whole address.
pub open spec fn endpoint(base: Chars, params: Seq<(Chars, Chars)>) -> Chars {
    trimmed(base) + "/websocket?vsn="@ + VSN@ + query(params)
}

/// Connect params: each key once, in order.
#[derive(Debug)]
pub struct Params {
    entries: Vec<(String, String)>,
}

/// A list of params as contracts see it.
pub open spec fn pairs(entries: Seq<(String, String)>) -> Seq<(Chars, Chars)> {
    Seq::new(entries.len(), |i: int| (entries[i].0@, entries[i].1@))
}

impl View for Params {
    type V = Seq<(Chars, Chars)>;

    closed spec fn view(&self) -> Seq<(Chars, Chars)> {
        pairs(self.entries@)
    }
}

impl Params {
    #[verifier::type_invariant]
    spec fn ordered(self) -> bool {
        keyed::sorted(pairs(self.entries@))
    }

    /// No params.
    pub fn new() -> (params: Params)
        ensures
            params@ == Seq::<(Chars, Chars)>::empty(),
    {
        let entries: Vec<(String, String)> = Vec::new();
        assert(pairs(entries@) =~= Seq::<(Chars, Chars)>::empty());
        Params { entries }
    }

    /// Sets one param; the last value set for a key is the one kept. The keys
    /// stay in order, so the address does not depend on the order of the calls.
    pub fn insert(&mut self, key: String, value: String)
        ensures
            final(self)@ == keyed::put(old(self)@, key@, value@),
    {
        proof {
            use_type_invariant(&*self);
        }
        let ghost before = self@;
        let mut entries: Vec<(String, String)> = Vec::new();
        assert(pairs(entries@) =~= Seq::<(Chars, Chars)>::empty());
        std::mem::swap(&mut entries, &mut self.entries);
        let mut at: usize = 0;
        while at < entries.len() && text::text_lt(entries[at].0.as_str(), key.as_str())
            invariant
                at <= entries@.len(),
                pairs(entries@) == before,
                forall|j: int|
                    0 <= j < at ==> text::text_less((#[trigger] before[j]).0, key@),
            decreases entries.len() - at,
        {
            assert(before[at as int].0 == entries@[at as int].0@);
            at = at + 1;
        }
        let ghost k = key@;
        let ghost v = value@;
        proof {
            if at < before.len() {
                assert(before[at as int].0 == entries@[at as int].0@);
            }
            keyed::key_slot_is(before, k, at as int);
            keyed::key_index_meaning(before, k);
            text::text_less_irreflexive(k);
            if at < before.len() && before[at as int].0 == k {
                keyed::sorted_key_index(before, at as int);
            } else if keyed::has_key(before, k) {
                let found = keyed::key_index(before, k) as int;
                assert(before[found].0 == k);
                if at < found {
                    assert(text::text_less(before[at as int].0, before[found].0));
                }
            }
        }
        if at < entries.len() && text::text_eq(entries[at].0.as_str(), key.as_str()) {
            entries.set(at, (key, value));
            assert(pairs(entries@) =~= before.update(at as int, (k, v)));
        } else {
            entries.insert(at, (key, value));
            assert(pairs(entries@) =~= before.insert(at as int, (k, v)));
        }
        proof {
            keyed::put_sorted(before, k, v);
        }
        self.entries = entries;
    }
}

/// The address of the WebSocket endpoint: the base without its trailing slashes,
/// `/websocket`, the serializer version, and the connect params in key order.
///
/// Connect params are the only place credentials belong.
pub fn endpoint_url(base: &str, params: &Params) -> (url: String)
    ensures
        url@ == endpoint(base@, params@),
{
    let mut url = trim(base);
    url.append("/websocket?vsn=");
    url.append(VSN);
    let ghost head = url@;
    let mut i: usize = 0;
    assert(params@.take(0) =~= Seq::<(Chars, Chars)>::empty());
    assert(head + query(params@.take(0)) =~= head);
    while i < params.entries.len()
        invariant
            i <= params.entries@.len(),
            params@ == pairs(params.entries@),
            url@ == head + query(params@.take(i as int)),
        decreases params.entries.len() - i,
    {
        url.push('&');
        url.append(percent_encode(params.entries[i].0.as_str()).as_str());
        url.push('=');
        url.append(percent_encode(params.entries[i].1.as_str()).as_str());
        proof {
            let more = params@.take(i + 1);
            assert(more.drop_last() =~= params@.take(i as int));
            assert(more.last() == params@[i as int]);
            assert(url@ =~= head + query(more));
        }
        i = i + 1;
    }
    assert(params@.take(i as int) =~= params@);
    url
}

/// A text without the slashes it ends in.
fn trim(base: &str) -> (text: String)
    ensures
        text@ == trimmed(base@),
{
    let all = pointer::chars_of(base);
    let mut end: usize = all.len();
    assert(base@.take(end as int) =~= base@);
    while end > 0 && all[end - 1] == '/'
        invariant
            end <= all@.len(),
            all@ == base@,
            trimmed(base@.take(end as int)) == trimmed(base@),
        decreases end,
    {
        assert(base@.take(end as int).drop_last() =~= base@.take(end - 1));
        end = end - 1;
    }
    let mut text = String::new();
    let mut i: usize = 0;
    while i < end
        invariant
            i <= end <= all@.len(),
            all@ == base@,
            text@ == base@.take(i as int),
        decreases end - i,
    {
        text.push(all[i]);
        assert(text@ =~= base@.take(i + 1));
        i = i + 1;
    }
    text
}

/// The hexadecimal digit of a number below sixteen.
fn hex_digit(n: u8) -> (c: char)
    requires
        n < 16,
    ensures
        c == hex(n as int),
{
    let code: u8 = if n < 10 {
        48 + n
    } else {
        55 + n
    };
    code as char
}

/// Percent-encodes one query component.
pub fn percent_encode(value: &str) -> (text: String)
    ensures
        text@ == encoded(utf8::encode_utf8(value@)),
{
    let bytes = value.as_bytes();
    let mut text = String::new();
    let mut i: usize = 0;
    assert(bytes@.take(0) =~= Seq::<u8>::empty());
    while i < bytes.len()
        invariant
            i <= bytes@.len(),
            bytes@ == utf8::encode_utf8(value@),
            text@ == encoded(bytes@.take(i as int)),
        decreases bytes.len() - i,
    {
        let b: u8 = bytes[i];
        proof {
            let more = bytes@.take(i + 1);
            assert(more.drop_last() =~= bytes@.take(i as int));
            assert(more.last() == b);
        }
        let ghost before = text@;
        if is_unreserved(b) {
            text.push(b as char);
        } else {
            text.push('%');
            text.push(hex_digit(b / 16));
            text.push(hex_digit(b % 16));
        }
        assert(text@ =~= before + escaped(b));
        i = i + 1;
    }
    assert(bytes@.take(i as int) =~= bytes@);
    text
}

/// Whether a byte stands for itself in a query component.
fn is_unreserved(b: u8) -> (plain: bool)
    ensures
        plain == unreserved(b),
{
    (65 <= b && b <= 90) || (97 <= b && b <= 122) || (48 <= b && b <= 57) || b == 45 || b == 95
        || b == 46 || b == 126
}

} // verus!
