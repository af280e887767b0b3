//! The RFC 6901 pointer: token unescaping and the array index rules.

use vstd::prelude::*;

use crate::state::error::{Fault, TreeError};
use crate::state::text;
use crate::state::text::Chars;

verus! {

/// Why a pointer without its leading slash is refused.
pub const NO_LEADING_SLASH: &'static str = "a non-empty pointer must start with '/'";

/// Where the first `/` is, or the length when there is none.
pub open spec fn slash_index(s: Chars) -> nat
    decreases s.len(),
{
    if s.len() == 0 {
        0
    } else if s[0] == '/' {
        0
    } else {
        1 + slash_index(s.drop_first())
    }
}

/// The pieces of a text between its slashes.
pub open spec fn pieces(s: Chars) -> Seq<Chars>
    decreases s.len(),
{
    let at = slash_index(s) as int;
    if at < s.len() {
        seq![s.take(at)] + pieces(s.skip(at + 1))
    } else {
        seq![s]
    }
}

/// A reference token without its escapes: `~1` is `/`, `~0` is `~`, and any
/// other `~` stands for itself.
pub open spec fn unescaped(token: Chars) -> Chars
    decreases token.len(),
{
    if token.len() == 0 {
        token
    } else if token[0] != '~' {
        seq![token[0]] + unescaped(token.skip(1))
    } else if token.len() == 1 {
        seq!['~']
    } else if token[1] == '0' {
        seq!['~'] + unescaped(token.skip(2))
    } else if token[1] == '1' {
        seq!['/'] + unescaped(token.skip(2))
    } else {
        seq!['~'] + unescaped(token.skip(1))
    }
}

/// The tokens of a pointer, or `None` when it does not start with a slash.
pub open spec fn pointer_tokens(path: Chars) -> Option<Seq<Chars>> {
    if path.len() == 0 {
        Some(Seq::empty())
    } else if path[0] == '/' {
        let raw = pieces(path.skip(1));
        Some(Seq::new(raw.len(), |i: int| unescaped(raw[i])))
    } else {
        None
    }
}

/// The characters of a string.
pub(crate) fn chars_of(source: &str) -> (list: Vec<char>)
    ensures
        list@ == source@,
{
    let mut list: Vec<char> = Vec::new();
    for c in it: source.chars()
        invariant
            list@ == it.seq().take(it.index() as int),
    {
        list.push(c);
        assert(it.seq().take(it.index() as int).push(c) =~= it.seq().take(it.index() + 1));
    }
    assert(list@ =~= source@);
    list
}

proof fn slash_index_is(s: Chars, at: int)
    requires
        0 <= at <= s.len(),
        at < s.len() ==> s[at] == '/',
        forall|j: int| 0 <= j < at ==> s[j] != '/',
    ensures
        slash_index(s) == at,
    decreases s.len(),
{
    if at > 0 {
        let rest = s.drop_first();
        assert forall|j: int| 0 <= j < at - 1 implies rest[j] != '/' by {
            assert(rest[j] == s[j + 1]);
        }
        slash_index_is(rest, at - 1);
    }
}

/// Unescapes one reference token. A stray `~` is kept as it is, and what follows
/// it is read on its own.
pub fn unescape(token: &Vec<char>) -> (text: String)
    ensures
        text@ == unescaped(token@),
{
    let mut out = String::new();
    let mut i: usize = 0;
    assert(token@.skip(0) =~= token@);
    assert(out@ + unescaped(token@) =~= unescaped(token@));
    while i < token.len()
        invariant
            i <= token.len(),
            out@ + unescaped(token@.skip(i as int)) == unescaped(token@),
        decreases token.len() - i,
    {
        let ghost rest = token@.skip(i as int);
        let character = token[i];
        if character != '~' {
            out.push(character);
            assert(rest.skip(1) =~= token@.skip(i + 1));
            i = i + 1;
        } else if i + 1 == token.len() {
            out.push('~');
            assert(token@.skip(i + 1) =~= Seq::<char>::empty());
            i = i + 1;
        } else {
            let next = token[i + 1];
            assert(rest.skip(1) =~= token@.skip(i + 1));
            assert(rest.skip(2) =~= token@.skip(i + 2));
            if next == '0' {
                out.push('~');
                i = i + 2;
            } else if next == '1' {
                out.push('/');
                i = i + 2;
            } else {
                out.push('~');
                i = i + 1;
            }
        }
        assert(out@ + unescaped(token@.skip(i as int)) =~= unescaped(token@));
    }
    assert(token@.skip(i as int) =~= Seq::<char>::empty());
    assert(out@ =~= unescaped(token@));
    out
}

/// Splits a pointer into its unescaped reference tokens.
///
/// `""` addresses the whole document and yields no tokens. Anything else must
/// start with `/`.
pub fn tokens(path: &str) -> (list: Result<Vec<String>, TreeError>)
    ensures
        match list {
            Ok(found) => pointer_tokens(path@) == Some(text::texts(found@)),
            Err(error) => pointer_tokens(path@) is None && error@ == (Fault::Pointer {
                path: path@,
                reason: NO_LEADING_SLASH@,
            }),
        },
{
    let all = chars_of(path);
    if all.len() == 0 {
        let list: Vec<String> = Vec::new();
        assert(text::texts(list@) =~= Seq::<Chars>::empty());
        return Ok(list);
    }
    if all[0] != '/' {
        return Err(TreeError::pointer(path, NO_LEADING_SLASH));
    }
    let ghost raw = pieces(all@.skip(1));
    let mut list: Vec<String> = Vec::new();
    let mut piece: Vec<char> = Vec::new();
    let mut i: usize = 1;
    let ghost mut start: int = 1;
    while i < all.len()
        invariant
            1 <= start <= i <= all.len(),
            list@.len() <= raw.len(),
            raw == pieces(all@.skip(1)),
            raw.skip(list@.len() as int) == pieces(all@.skip(start)),
            forall|j: int| 0 <= j < list@.len() ==> (#[trigger] list@[j])@ == unescaped(raw[j]),
            piece@ == all@.subrange(start, i as int),
            forall|j: int| start <= j < i ==> all@[j] != '/',
        decreases all.len() - i,
    {
        let character = all[i];
        if character == '/' {
            proof {
                let rest = all@.skip(start);
                slash_index_is(rest, i - start);
                assert(rest.take(i - start) =~= piece@);
                assert(rest.skip(i - start + 1) =~= all@.skip(i + 1));
                assert(pieces(rest).len() >= 1);
                assert(raw.skip(list@.len() as int)[0] == raw[list@.len() as int]);
                assert(pieces(rest)[0] == piece@);
                assert(pieces(rest).skip(1) =~= pieces(all@.skip(i + 1)));
                assert(raw.skip(list@.len() as int).skip(1) =~= raw.skip(list@.len() as int + 1));
                start = i + 1;
            }
            list.push(unescape(&piece));
            piece = Vec::new();
            assert(piece@ =~= all@.subrange(start, i + 1));
        } else {
            piece.push(character);
            assert(piece@ =~= all@.subrange(start, i + 1));
        }
        i = i + 1;
    }
    proof {
        let rest = all@.skip(start);
        slash_index_is(rest, rest.len() as int);
        assert(rest =~= piece@);
        assert(raw.skip(list@.len() as int) == seq![piece@]);
        assert(raw.skip(list@.len() as int)[0] == raw[list@.len() as int]);
        assert(raw.len() == list@.len() + 1);
    }
    list.push(unescape(&piece));
    assert(text::texts(list@) =~= Seq::new(raw.len(), |j: int| unescaped(raw[j])));
    Ok(list)
}

/// Where an array index token points.
#[derive(Debug, Clone, Copy, PartialEq, Eq, Structural)]
pub enum ArrayIndex {
    /// A numeric token.
    At(usize),
    /// The `-` token: one past the end. Only `add` accepts it.
    End,
}

/// Whether a character is an ASCII digit.
pub open spec fn is_digit(c: char) -> bool {
    '0' <= c <= '9'
}

/// The number a run of digits spells.
pub open spec fn decimal(token: Chars) -> nat
    decreases token.len(),
{
    if token.len() == 0 {
        0
    } else {
        decimal(token.drop_last()) * 10 + (token.last() as int - '0' as int) as nat
    }
}

/// What an index token means: `-` is the end; a run of digits without a leading
/// zero is the position it spells, where a position can be that large; nothing
/// else is an index.
pub open spec fn index_meaning(token: Chars) -> Option<ArrayIndex> {
    if token == seq!['-'] {
        Some(ArrayIndex::End)
    } else if token.len() == 0 || exists|i: int| 0 <= i < token.len() && !is_digit(token[i]) {
        None
    } else if token.len() > 1 && token[0] == '0' {
        None
    } else if decimal(token) > usize::MAX {
        None
    } else {
        Some(ArrayIndex::At(decimal(token) as usize))
    }
}

proof fn decimal_grows(token: Chars, k: int)
    requires
        0 <= k <= token.len(),
        forall|i: int| 0 <= i < token.len() ==> is_digit(#[trigger] token[i]),
    ensures
        decimal(token.take(k)) <= decimal(token),
    decreases token.len(),
{
    if k < token.len() {
        let shorter = token.drop_last();
        decimal_grows(shorter, k);
        assert(shorter.take(k) =~= token.take(k));
    } else {
        assert(token.take(k) =~= token);
    }
}

/// Reads an RFC 6901 array index token.
pub fn array_index(token: &str) -> (index: Option<ArrayIndex>)
    ensures
        index == index_meaning(token@),
{
    let all = chars_of(token);
    if all.len() == 1 && all[0] == '-' {
        assert(token@ =~= seq!['-']);
        return Some(ArrayIndex::End);
    }
    if all.len() == 0 {
        return None;
    }
    let mut i: usize = 0;
    while i < all.len()
        invariant
            i <= all.len(),
            all@ == token@,
            token@ != seq!['-'],
            forall|j: int| 0 <= j < i ==> is_digit(#[trigger] all@[j]),
        decreases all.len() - i,
    {
        if !('0' <= all[i] && all[i] <= '9') {
            assert(!is_digit(token@[i as int]));
            return None;
        }
        i = i + 1;
    }
    if all.len() > 1 && all[0] == '0' {
        return None;
    }
    let mut total: usize = 0;
    i = 0;
    while i < all.len()
        invariant
            i <= all.len(),
            all@ == token@,
            token@ != seq!['-'],
            token@.len() > 0,
            !(all@.len() > 1 && all@[0] == '0'),
            forall|j: int| 0 <= j < all.len() ==> is_digit(#[trigger] all@[j]),
            total == decimal(all@.take(i as int)),
        decreases all.len() - i,
    {
        let ghost longer = all@.take(i + 1);
        let digit: usize = (all[i] as u32 - '0' as u32) as usize;
        proof {
            assert(longer.drop_last() =~= all@.take(i as int));
            assert(longer.last() == all@[i as int]);
            decimal_grows(all@, i + 1);
        }
        let scaled = match total.checked_mul(10) {
            Some(scaled) => scaled,
            None => {
                return None;
            },
        };
        total = match scaled.checked_add(digit) {
            Some(sum) => sum,
            None => {
                return None;
            },
        };
        i = i + 1;
    }
    assert(all@.take(i as int) =~= token@);
    Some(ArrayIndex::At(total))
}

/// A reference token with its escapes.
pub open spec fn escaped(token: Chars) -> Chars
    decreases token.len(),
{
    if token.len() == 0 {
        token
    } else {
        (if token[0] == '~' {
            seq!['~', '0']
        } else if token[0] == '/' {
            seq!['~', '1']
        } else {
            seq![token[0]]
        }) + escaped(token.skip(1))
    }
}

/// The pointer that addresses a list of tokens.
pub open spec fn pointer_of(list: Seq<Chars>) -> Chars
    decreases list.len(),
{
    if list.len() == 0 {
        Seq::empty()
    } else {
        seq!['/'] + escaped(list[0]) + pointer_of(list.skip(1))
    }
}

/// Unescaping undoes escaping.
pub proof fn unescape_undoes_escape(token: Chars)
    ensures
        unescaped(escaped(token)) == token,
    decreases token.len(),
{
    if token.len() > 0 {
        let rest = escaped(token.skip(1));
        let all = escaped(token);
        unescape_undoes_escape(token.skip(1));
        assert(token =~= seq![token[0]] + token.skip(1));
        if token[0] == '~' || token[0] == '/' {
            assert(all[0] == '~');
            assert(all.skip(2) =~= rest);
        } else {
            assert(all[0] == token[0]);
            assert(all.skip(1) =~= rest);
        }
    } else {
        assert(unescaped(escaped(token)) =~= token);
    }
}

proof fn escaped_has_no_slash(token: Chars)
    ensures
        forall|i: int| 0 <= i < escaped(token).len() ==> escaped(token)[i] != '/',
    decreases token.len(),
{
    if token.len() > 0 {
        let rest = escaped(token.skip(1));
        let all = escaped(token);
        escaped_has_no_slash(token.skip(1));
        let head: int = all.len() - rest.len();
        assert forall|i: int| 0 <= i < all.len() implies all[i] != '/' by {
            if i >= head {
                assert(all[i] == rest[i - head]);
            }
        }
    }
}

proof fn pieces_of_rendered(list: Seq<Chars>)
    requires
        list.len() > 0,
    ensures
        pieces(pointer_of(list).skip(1)) == Seq::new(list.len(), |i: int| escaped(list[i])),
    decreases list.len(),
{
    let text = pointer_of(list).skip(1);
    let head = escaped(list[0]);
    let tail = pointer_of(list.skip(1));
    escaped_has_no_slash(list[0]);
    assert(text =~= head + tail);
    if list.len() == 1 {
        assert(tail =~= Seq::<char>::empty());
        slash_index_is(text, text.len() as int);
        assert(pieces(text) =~= Seq::new(list.len(), |i: int| escaped(list[i])));
    } else {
        slash_index_is(text, head.len() as int);
        pieces_of_rendered(list.skip(1));
        assert(text.take(head.len() as int) =~= head);
        assert(text.skip(head.len() as int + 1) =~= tail.skip(1));
        assert(pieces(text) =~= Seq::new(list.len(), |i: int| escaped(list[i])));
    }
}

/// Rendering a list of tokens as a pointer and reading it back yields the list.
pub proof fn pointer_round_trip(list: Seq<Chars>)
    ensures
        pointer_tokens(pointer_of(list)) == Some(list),
{
    if list.len() == 0 {
        assert(list =~= Seq::<Chars>::empty());
    } else {
        pieces_of_rendered(list);
        assert forall|i: int| 0 <= i < list.len() implies unescaped(escaped(#[trigger] list[i]))
            == list[i] by {
            unescape_undoes_escape(list[i]);
        }
        assert(pointer_of(list)[0] == '/');
        assert(pointer_tokens(pointer_of(list))->0 =~= list);
    }
}

} // verus!
