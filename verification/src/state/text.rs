//! Text: comparison, ordering and the few `String` operations the tree needs.

use vstd::prelude::*;

verus! {

/// A text's characters, as contracts see them.
pub type Chars = Seq<char>;

/// Lexicographic order by code point, which is also the order of the UTF-8
/// bytes.
pub open spec fn text_less(a: Chars, b: Chars) -> bool
    decreases a.len(),
{
    if b.len() == 0 {
        false
    } else if a.len() == 0 {
        true
    } else if a[0] != b[0] {
        (a[0] as int) < (b[0] as int)
    } else {
        text_less(a.drop_first(), b.drop_first())
    }
}

/// No text is less than itself.
pub proof fn text_less_irreflexive(a: Chars)
    ensures
        !text_less(a, a),
    decreases a.len(),
{
    if a.len() > 0 {
        text_less_irreflexive(a.drop_first());
    }
}

/// The order is transitive.
pub proof fn text_less_transitive(a: Chars, b: Chars, c: Chars)
    requires
        text_less(a, b),
        text_less(b, c),
    ensures
        text_less(a, c),
    decreases a.len(),
{
    if a.len() > 0 && b.len() > 0 && c.len() > 0 && a[0] == b[0] && b[0] == c[0] {
        text_less_transitive(a.drop_first(), b.drop_first(), c.drop_first());
    }
}

/// Any two texts are equal or ordered.
pub proof fn text_less_total(a: Chars, b: Chars)
    ensures
        a == b || text_less(a, b) || text_less(b, a),
    decreases a.len(),
{
    if a.len() > 0 && b.len() > 0 {
        if a[0] == b[0] {
            text_less_total(a.drop_first(), b.drop_first());
            if a.drop_first() == b.drop_first() {
                assert(a =~= seq![a[0]] + a.drop_first());
                assert(b =~= seq![b[0]] + b.drop_first());
            }
        }
    } else if a.len() == 0 && b.len() == 0 {
        assert(a =~= b);
    }
}

/// The first difference decides: of two texts that begin alike, the one whose next
/// character has the smaller code point is less, and one that goes on is not less than
/// one that ends.
pub proof fn the_first_difference_decides(start: Chars, a: char, b: char, x: Chars, y: Chars)
    requires
        a != b,
    ensures
        text_less(start + seq![a] + x, start + seq![b] + y) == ((a as int) < (b as int)),
        text_less(start, start + seq![a] + x),
        !text_less(start + seq![a] + x, start),
    decreases start.len(),
{
    let first = start + seq![a] + x;
    let second = start + seq![b] + y;
    if start.len() > 0 {
        let rest = start.drop_first();
        the_first_difference_decides(rest, a, b, x, y);
        assert(first.drop_first() =~= rest + seq![a] + x);
        assert(second.drop_first() =~= rest + seq![b] + y);
        assert(first[0] == start[0] && second[0] == start[0]);
    } else {
        assert(first[0] == a && second[0] == b);
    }
}

/// Calls `<str as PartialEq>::eq`: two strings are equal exactly when they hold
/// the same characters.
#[verifier::external_body]
pub(crate) fn text_eq(a: &str, b: &str) -> (equal: bool)
    ensures
        equal == (a@ == b@),
{
    a == b
}

/// Calls `<str as PartialOrd>::lt`: strings are ordered lexicographically by
/// their bytes, which orders their characters by code point.
#[verifier::external_body]
pub(crate) fn text_lt(a: &str, b: &str) -> (less: bool)
    ensures
        less == text_less(a@, b@),
{
    a < b
}

/// `String::push` appends one character.
pub assume_specification[ std::string::String::push ](s: &mut std::string::String, c: char)
    ensures
        final(s)@ == old(s)@.push(c),
;

/// The characters of a list of strings.
pub open spec fn texts(list: Seq<String>) -> Seq<Chars> {
    Seq::new(list.len(), |i: int| list[i]@)
}

/// A copy of a list of strings.
pub fn copy_texts(list: &Vec<String>) -> (copy: Vec<String>)
    ensures
        texts(copy@) == texts(list@),
{
    let mut copy: Vec<String> = Vec::new();
    let mut i: usize = 0;
    while i < list.len()
        invariant
            i <= list.len(),
            copy@.len() == i,
            forall|j: int| 0 <= j < i ==> (#[trigger] copy@[j])@ == list@[j]@,
        decreases list.len() - i,
    {
        copy.push(list[i].clone());
        i = i + 1;
    }
    assert(texts(copy@) =~= texts(list@));
    copy
}

/// Whether two lists hold the same strings in the same order.
pub fn texts_eq(a: &Vec<String>, b: &Vec<String>) -> (equal: bool)
    ensures
        equal == (texts(a@) == texts(b@)),
{
    if a.len() != b.len() {
        proof {
            assert(texts(a@).len() != texts(b@).len());
        }
        return false;
    }
    let mut i: usize = 0;
    while i < a.len()
        invariant
            i <= a.len(),
            a.len() == b.len(),
            forall|j: int| 0 <= j < i ==> (#[trigger] a@[j])@ == b@[j]@,
        decreases a.len() - i,
    {
        if a[i] != b[i] {
            assert(texts(a@)[i as int] != texts(b@)[i as int]);
            return false;
        }
        i = i + 1;
    }
    assert(texts(a@) =~= texts(b@));
    true
}

} // verus!
