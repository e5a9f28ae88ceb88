//! Numbers in messages, and patterns in paths.

use vstd::prelude::*;
use vstd::string::StringExecFns;

use crate::key::TaskKey;

verus! {

/// A decimal digit.
pub open spec fn digit(d: nat) -> Seq<char> {
    if d == 0 {
        "0"@
    } else if d == 1 {
        "1"@
    } else if d == 2 {
        "2"@
    } else if d == 3 {
        "3"@
    } else if d == 4 {
        "4"@
    } else if d == 5 {
        "5"@
    } else if d == 6 {
        "6"@
    } else if d == 7 {
        "7"@
    } else if d == 8 {
        "8"@
    } else {
        "9"@
    }
}

/// A number in decimal notation.
pub open spec fn decimal(n: nat) -> Seq<char>
    decreases n,
{
    if n < 10 {
        digit(n)
    } else {
        decimal(n / 10) + digit(n % 10)
    }
}

/// An integer in decimal notation, with a sign where it is negative.
pub open spec fn signed_decimal(i: int) -> Seq<char> {
    if i < 0 {
        "-"@ + decimal((-i) as nat)
    } else {
        decimal(i as nat)
    }
}

/// The numbers of some keys, separated by commas.
pub open spec fn listed<K: TaskKey>(keys: Seq<K>) -> Seq<char>
    decreases keys.len(),
{
    if keys.len() == 0 {
        Seq::empty()
    } else if keys.len() == 1 {
        decimal(keys[0].rank())
    } else {
        listed(keys.drop_last()) + ", "@ + decimal(keys.last().rank())
    }
}

/// The numbers of some keys as a list in brackets.
pub open spec fn bracketed<K: TaskKey>(keys: Seq<K>) -> Seq<char> {
    "["@ + listed(keys) + "]"@
}

/// Appends a decimal digit.
fn push_digit(out: &mut String, d: u64)
    requires
        d < 10,
    ensures
        final(out)@ == old(out)@ + digit(d as nat),
{
    out.append(
        match d {
            0 => "0",
            1 => "1",
            2 => "2",
            3 => "3",
            4 => "4",
            5 => "5",
            6 => "6",
            7 => "7",
            8 => "8",
            _ => "9",
        },
    );
}

/// Appends a number in decimal notation.
pub fn push_decimal(out: &mut String, n: u64)
    ensures
        final(out)@ == old(out)@ + decimal(n as nat),
    decreases n,
{
    if n >= 10 {
        push_decimal(out, n / 10);
    }
    push_digit(out, n % 10);
    assert(out@ =~= old(out)@ + decimal(n as nat));
}

/// Appends an integer in decimal notation.
pub fn push_signed(out: &mut String, i: i32)
    ensures
        final(out)@ == old(out)@ + signed_decimal(i as int),
{
    if i < 0 {
        out.append("-");
        let magnitude: i64 = -(i as i64);
        push_decimal(out, magnitude as u64);
    } else {
        push_decimal(out, i as u64);
    }
    assert(out@ =~= old(out)@ + signed_decimal(i as int));
}

/// Appends the numbers of some keys as a list in brackets.
pub fn push_bracketed<K: TaskKey>(out: &mut String, keys: &Vec<K>)
    ensures
        final(out)@ == old(out)@ + bracketed(keys@),
{
    out.append("[");
    let ghost start = out@;
    let mut i: usize = 0;
    assert(out@ =~= start + listed(keys@.take(0)));
    while i < keys.len()
        invariant
            i <= keys@.len(),
            out@ == start + listed(keys@.take(i as int)),
        decreases keys.len() - i,
    {
        if i > 0 {
            out.append(", ");
        }
        push_decimal(out, keys[i].number());
        proof {
            assert(keys@.take(i + 1).drop_last() =~= keys@.take(i as int));
            assert(out@ =~= start + listed(keys@.take(i + 1)));
        }
        i = i + 1;
    }
    assert(keys@.take(i as int) =~= keys@);
    out.append("]");
    assert(out@ =~= old(out)@ + bracketed(keys@));
}

/// Whether `pattern` stands in `text` at position `i`.
pub open spec fn occurs_at(text: Seq<char>, pattern: Seq<char>, i: int) -> bool {
    &&& 0 <= i
    &&& i + pattern.len() <= text.len()
    &&& text.subrange(i, i + pattern.len()) == pattern
}

/// Whether `pattern` stands anywhere in `text`.
pub open spec fn contains_text(text: Seq<char>, pattern: Seq<char>) -> bool {
    exists|i: int| #[trigger] occurs_at(text, pattern, i)
}

/// Whether position `i` is the first one from `from` on at which `pattern` stands in `text`.
pub open spec fn first_occurrence(text: Seq<char>, pattern: Seq<char>, from: int, i: int) -> bool {
    &&& from <= i
    &&& occurs_at(text, pattern, i)
    &&& forall|j: int| from <= j < i ==> !#[trigger] occurs_at(text, pattern, j)
}

/// The first position from `from` on at which `pattern` stands in `text`, if there is one.
pub open spec fn position_of(text: Seq<char>, pattern: Seq<char>, from: int) -> Option<int> {
    if exists|i: int| #[trigger] first_occurrence(text, pattern, from, i) {
        Some(choose|i: int| #[trigger] first_occurrence(text, pattern, from, i))
    } else {
        None
    }
}

/// The characters of a string.
pub fn characters(s: &str) -> (chars: Vec<char>)
    ensures
        chars@ == s@,
{
    let mut chars: Vec<char> = Vec::new();
    for c in it: s.chars()
        invariant
            chars@.len() == it.index(),
            it.seq() == s@,
            forall|i: int| 0 <= i < chars@.len() ==> chars@[i] == it.seq()[i],
    {
        chars.push(c);
    }
    assert(chars@ =~= s@);
    chars
}

/// Whether `pattern` stands in `text` at position `i`.
fn matches_at(text: &Vec<char>, pattern: &Vec<char>, i: usize) -> (found: bool)
    requires
        i + pattern@.len() <= text@.len(),
    ensures
        found == occurs_at(text@, pattern@, i as int),
{
    let mut j: usize = 0;
    while j < pattern.len()
        invariant
            j <= pattern@.len(),
            i + pattern.len() <= text.len(),
            forall|k: int| 0 <= k < j ==> text@[i + k] == #[trigger] pattern@[k],
        decreases pattern.len() - j,
    {
        if text[i + j] != pattern[j] {
            assert(text@.subrange(i as int, i + pattern@.len())[j as int] != pattern@[j as int]);
            return false;
        }
        j = j + 1;
    }
    assert(text@.subrange(i as int, i + pattern@.len()) =~= pattern@);
    true
}

/// The first position from `from` on at which `pattern` stands in `text`.
pub fn find(text: &Vec<char>, pattern: &Vec<char>, from: usize) -> (position: Option<usize>)
    ensures
        match position {
            Some(i) => {
                &&& first_occurrence(text@, pattern@, from as int, i as int)
                &&& position_of(text@, pattern@, from as int) == Some(i as int)
            },
            None => {
                &&& forall|j: int| from <= j ==> !#[trigger] occurs_at(text@, pattern@, j)
                &&& position_of(text@, pattern@, from as int) is None
            },
        },
{
    if pattern.len() > text.len() {
        return None;
    }
    let last: usize = text.len() - pattern.len();
    let mut i: usize = from;
    while i <= last
        invariant
            last + pattern@.len() == text@.len(),
            from <= i,
            forall|j: int| from <= j < i ==> !#[trigger] occurs_at(text@, pattern@, j),
        decreases last + 1 - i,
    {
        if matches_at(text, pattern, i) {
            assert(first_occurrence(text@, pattern@, from as int, i as int));
            return Some(i);
        }
        if i == last {
            return None;
        }
        i = i + 1;
    }
    None
}

/// Whether `pattern` stands anywhere in `text`.
pub fn contains(text: &str, pattern: &str) -> (found: bool)
    ensures
        found == contains_text(text@, pattern@),
{
    match find(&characters(text), &characters(pattern), 0) {
        Some(i) => {
            assert(occurs_at(text@, pattern@, i as int));
            true
        },
        None => false,
    }
}

/// Each digit is written with its own character.
pub proof fn law_digits()
    ensures
        decimal(0) == seq!['0'],
        decimal(1) == seq!['1'],
        decimal(2) == seq!['2'],
        decimal(3) == seq!['3'],
        decimal(4) == seq!['4'],
        decimal(5) == seq!['5'],
        decimal(6) == seq!['6'],
        decimal(7) == seq!['7'],
        decimal(8) == seq!['8'],
        decimal(9) == seq!['9'],
{
    reveal_strlit("0");
    reveal_strlit("1");
    reveal_strlit("2");
    reveal_strlit("3");
    reveal_strlit("4");
    reveal_strlit("5");
    reveal_strlit("6");
    reveal_strlit("7");
    reveal_strlit("8");
    reveal_strlit("9");
    assert(decimal(0) =~= seq!['0']);
    assert(decimal(1) =~= seq!['1']);
    assert(decimal(2) =~= seq!['2']);
    assert(decimal(3) =~= seq!['3']);
    assert(decimal(4) =~= seq!['4']);
    assert(decimal(5) =~= seq!['5']);
    assert(decimal(6) =~= seq!['6']);
    assert(decimal(7) =~= seq!['7']);
    assert(decimal(8) =~= seq!['8']);
    assert(decimal(9) =~= seq!['9']);
}

/// Ten times a number, plus a digit, is written as the number followed by the digit.
pub proof fn law_decimal_places(n: nat, d: nat)
    requires
        n > 0,
        d < 10,
    ensures
        decimal(10 * n + d) == decimal(n) + decimal(d),
{
    assert((10 * n + d) / 10 == n && (10 * n + d) % 10 == d);
}

/// A number that is not negative is written without a sign, and a negative one as a minus sign
/// before its magnitude.
pub proof fn law_signs(n: nat)
    ensures
        signed_decimal(n as int) == decimal(n),
        n > 0 ==> signed_decimal(-(n as int)) == seq!['-'] + decimal(n),
{
    reveal_strlit("-");
    assert("-"@ =~= seq!['-']);
}

/// A list is written between brackets: the empty one as nothing, one key as its number, and a
/// further key after a comma and a space.
pub proof fn law_lists<K: TaskKey>(keys: Seq<K>, key: K)
    ensures
        bracketed(Seq::<K>::empty()) == seq!['[', ']'],
        bracketed(seq![key]) == seq!['['] + decimal(key.rank()) + seq![']'],
        keys.len() > 0 ==> bracketed(keys.push(key)) == bracketed(keys).drop_last() + seq![
            ',',
            ' ',
        ] + decimal(key.rank()) + seq![']'],
{
    reveal_strlit("[");
    reveal_strlit("]");
    reveal_strlit(", ");
    assert(bracketed(Seq::<K>::empty()) =~= seq!['[', ']']);
    assert(bracketed(seq![key]) =~= seq!['['] + decimal(key.rank()) + seq![']']);
    if keys.len() > 0 {
        assert(keys.push(key).drop_last() =~= keys);
        assert(bracketed(keys.push(key)) =~= bracketed(keys).drop_last() + seq![',', ' ']
            + decimal(key.rank()) + seq![']']);
    }
}

/// A pattern is found in a text exactly if the text is made of something, the pattern, and
/// something.
pub proof fn law_found_is_contained(
    text: Seq<char>,
    pattern: Seq<char>,
    before: Seq<char>,
    after: Seq<char>,
)
    ensures
        text == before + pattern + after ==> contains_text(text, pattern) && occurs_at(
            text,
            pattern,
            before.len() as int,
        ),
        contains_text(text, pattern) ==> exists|i: int|
            0 <= i <= text.len() - pattern.len() && text == #[trigger] text.take(i) + pattern
                + text.skip(i + pattern.len()),
{
    if text == before + pattern + after {
        let i = before.len() as int;
        assert(text.subrange(i, i + pattern.len()) =~= pattern);
        assert(occurs_at(text, pattern, i));
    }
    if contains_text(text, pattern) {
        let i = choose|i: int| #[trigger] occurs_at(text, pattern, i);
        assert(text =~= text.take(i) + pattern + text.skip(i + pattern.len()));
    }
}

/// A pattern stands at a position exactly if each of its characters does.
pub proof fn law_occurrence_is_character_by_character(
    text: Seq<char>,
    pattern: Seq<char>,
    i: int,
)
    ensures
        occurs_at(text, pattern, i) <==> 0 <= i && i + pattern.len() <= text.len() && forall|j: int|
            0 <= j < pattern.len() ==> text[i + j] == #[trigger] pattern[j],
        contains_text(text, pattern) <==> exists|i: int| #[trigger] occurs_at(text, pattern, i),
{
    if occurs_at(text, pattern, i) {
        assert forall|j: int| 0 <= j < pattern.len() implies text[i + j]
            == #[trigger] pattern[j] by {
            assert(text.subrange(i, i + pattern.len())[j] == pattern[j]);
        }
    }
    if 0 <= i && i + pattern.len() <= text.len() && forall|j: int|
        0 <= j < pattern.len() ==> text[i + j] == #[trigger] pattern[j] {
        assert(text.subrange(i, i + pattern.len()) =~= pattern);
    }
}

/// The position that is found is one at which the pattern stands, from the given position on, and
/// the pattern stands at no earlier one; and none is found only where the pattern does not stand.
pub proof fn law_position_is_the_first(text: Seq<char>, pattern: Seq<char>, from: int, j: int)
    ensures
        match position_of(text, pattern, from) {
            Some(i) => {
                &&& from <= i
                &&& occurs_at(text, pattern, i)
                &&& from <= j && occurs_at(text, pattern, j) ==> i <= j
            },
            None => from <= j ==> !occurs_at(text, pattern, j),
        },
    decreases j - from,
{
    if position_of(text, pattern, from) is None && from <= j && occurs_at(text, pattern, j) {
        if exists|k: int| from <= k < j && #[trigger] occurs_at(text, pattern, k) {
            let k = choose|k: int| from <= k < j && #[trigger] occurs_at(text, pattern, k);
            law_position_is_the_first(text, pattern, from, k);
        } else {
            assert(first_occurrence(text, pattern, from, j));
        }
    }
}

} // verus!
