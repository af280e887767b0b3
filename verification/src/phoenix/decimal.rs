//! Message refs as text: decimal, both ways.

use vstd::prelude::*;

use crate::state::pointer;
use crate::state::text::Chars;

verus! {

/// The decimal spelling of a number, without leading zeros.
pub open spec fn spelled(n: nat) -> Chars
    decreases n,
{
    if n < 10 {
        seq![('0' as int + n as int) as char]
    } else {
        spelled(n / 10).push(('0' as int + (n % 10) as int) as char)
    }
}

/// A ref's text without its sign.
pub open spec fn unsigned(text: Chars) -> Chars {
    if text.len() > 0 && text[0] == '+' {
        text.drop_first()
    } else {
        text
    }
}

/// What a ref's text means: digits, after an optional `+`, that spell a number
/// no larger than a ref can be.
pub open spec fn meaning(text: Chars) -> Option<u64> {
    let digits = unsigned(text);
    if digits.len() == 0 || exists|i: int|
        0 <= i < digits.len() && !pointer::is_digit(digits[i]) {
        None
    } else if pointer::decimal(digits) > u64::MAX {
        None
    } else {
        Some(pointer::decimal(digits) as u64)
    }
}

proof fn spelled_digits(n: nat)
    ensures
        spelled(n).len() > 0,
        forall|i: int| 0 <= i < spelled(n).len() ==> pointer::is_digit(#[trigger] spelled(n)[i]),
        pointer::decimal(spelled(n)) == n,
    decreases n,
{
    if n < 10 {
        let one = spelled(n);
        assert(one.drop_last() =~= Seq::<char>::empty());
        assert(pointer::decimal(one.drop_last()) == 0);
    } else {
        let text = spelled(n);
        spelled_digits(n / 10);
        assert(text.drop_last() =~= spelled(n / 10));
        assert forall|i: int| 0 <= i < text.len() implies pointer::is_digit(#[trigger] text[i]) by {
            if i < text.len() - 1 {
                assert(text[i] == spelled(n / 10)[i]);
            }
        }
        assert(pointer::decimal(text) == (n / 10) * 10 + n % 10);
    }
}

/// A ref is read back from its own spelling.
pub proof fn ref_round_trip(n: u64)
    ensures
        meaning(spelled(n as nat)) == Some(n),
{
    spelled_digits(n as nat);
    let text = spelled(n as nat);
    assert(pointer::is_digit(text[0]));
}

/// Two refs are spelled alike only if they are the same.
pub proof fn spelled_once(a: u64, b: u64)
    requires
        spelled(a as nat) == spelled(b as nat),
    ensures
        a == b,
{
    ref_round_trip(a);
    ref_round_trip(b);
}

/// The digit of a number below ten.
fn digit(n: u64) -> (c: char)
    requires
        n < 10,
    ensures
        c == ('0' as int + n as int) as char,
{
    let code: u8 = 48u8 + n as u8;
    code as char
}

/// A ref's text.
pub fn ref_text(n: u64) -> (text: String)
    ensures
        text@ == spelled(n as nat),
    decreases n,
{
    let mut text = if n < 10 {
        String::new()
    } else {
        ref_text(n / 10)
    };
    text.push(digit(n % 10));
    proof {
        if n < 10 {
            assert(text@ =~= spelled(n as nat));
        }
    }
    text
}

proof fn decimal_prefix(digits: Chars, k: int)
    requires
        0 <= k <= digits.len(),
        forall|i: int| 0 <= i < digits.len() ==> pointer::is_digit(#[trigger] digits[i]),
    ensures
        pointer::decimal(digits.take(k)) <= pointer::decimal(digits),
    decreases digits.len(),
{
    if k < digits.len() {
        let shorter = digits.drop_last();
        decimal_prefix(shorter, k);
        assert(shorter.take(k) =~= digits.take(k));
    } else {
        assert(digits.take(k) =~= digits);
    }
}

/// Reads a ref's text.
pub fn read_ref(text: &str) -> (found: Option<u64>)
    ensures
        found == meaning(text@),
{
    let all = pointer::chars_of(text);
    let mut start: usize = 0;
    if all.len() > 0 && all[0] == '+' {
        start = 1;
    }
    let ghost digits = unsigned(text@);
    assert(digits =~= all@.skip(start as int));
    if start == all.len() {
        return None;
    }
    let mut i: usize = start;
    while i < all.len()
        invariant
            start <= i <= all@.len(),
            digits == all@.skip(start as int),
            digits == unsigned(text@),
            forall|j: int| start <= j < i ==> pointer::is_digit(#[trigger] all@[j]),
        decreases all.len() - i,
    {
        if !('0' <= all[i] && all[i] <= '9') {
            assert(!pointer::is_digit(digits[i - start]));
            return None;
        }
        i = i + 1;
    }
    assert forall|j: int| 0 <= j < digits.len() implies pointer::is_digit(#[trigger] digits[j]) by {
        assert(digits[j] == all@[j + start]);
    }
    let mut total: u64 = 0;
    let mut k: usize = start;
    assert(digits.take(0) =~= Seq::<char>::empty());
    while k < all.len()
        invariant
            start <= k <= all@.len(),
            digits == all@.skip(start as int),
            digits.len() == all@.len() - start,
            forall|j: int| 0 <= j < digits.len() ==> pointer::is_digit(#[trigger] digits[j]),
            digits.len() > 0,
            digits == unsigned(text@),
            total == pointer::decimal(digits.take(k - start)),
        decreases all.len() - k,
    {
        let ghost at = k - start;
        proof {
            assert(digits[at] == all@[k as int]);
            assert(pointer::is_digit(digits[at]));
        }
        let value: u64 = all[k] as u64 - 48;
        proof {
            let more = digits.take(at + 1);
            assert(more.drop_last() =~= digits.take(at));
            assert(more.last() == digits[at]);
            assert(pointer::decimal(more) == total as nat * 10 + value as nat);
            decimal_prefix(digits, at + 1);
        }
        if total > u64::MAX / 10 || total * 10 > u64::MAX - value {
            return None;
        }
        total = total * 10 + value;
        k = k + 1;
    }
    assert(digits.take(k - start) =~= digits);
    Some(total)
}

} // verus!
