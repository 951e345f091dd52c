//! Decimal numbers and replacement in text.

use vstd::prelude::*;
use vstd::string::{StrSliceExecFns, StringExecFns};

verus! {

/// The character of a decimal digit.
pub open spec fn digit_char(d: nat) -> char {
    (48 + d) as char
}

/// A number in base ten, without leading zeros.
pub open spec fn decimal_digits(n: nat) -> Seq<char>
    decreases n,
{
    if n < 10 {
        seq![digit_char(n)]
    } else {
        decimal_digits(n / 10).push(digit_char(n % 10))
    }
}

/// Whether `pattern` stands at the front of `text`.
pub open spec fn starts_with(text: Seq<char>, pattern: Seq<char>) -> bool {
    pattern.len() <= text.len() && text.take(pattern.len() as int) == pattern
}

/// `text` with every occurrence of `pattern` replaced, from the left and without overlaps.
pub open spec fn replaced(text: Seq<char>, pattern: Seq<char>, with: Seq<char>) -> Seq<char>
    decreases text.len(),
{
    if text.len() == 0 || pattern.len() == 0 {
        text
    } else if starts_with(text, pattern) {
        with + replaced(text.skip(pattern.len() as int), pattern, with)
    } else {
        seq![text[0]] + replaced(text.skip(1), pattern, with)
    }
}

/// The text of one decimal digit.
fn digit_text(d: usize) -> (text: &'static str)
    requires
        d < 10,
    ensures
        text@ == seq![digit_char(d as nat)],
{
    proof {
        reveal_strlit("0");
        reveal_strlit("1");
        reveal_strlit("2");
        reveal_strlit("3");
        reveal_strlit("4");
        reveal_strlit("5");
        reveal_strlit("6");
        reveal_strlit("7");
        reveal_strlit("8");
        reveal_strlit("9");
    }
    match d {
        0 => "0",
        1 => "1",
        2 => "2",
        3 => "3",
        4 => "4",
        5 => "5",
        6 => "6",
        7 => "7",
        8 => "8",
        _ => "9",
    }
}

/// Appends a number in base ten.
pub fn push_decimal(text: &mut String, n: usize)
    ensures
        final(text)@ == old(text)@ + decimal_digits(n as nat),
    decreases n,
{
    if n >= 10 {
        push_decimal(text, n / 10);
    }
    let ghost front = text@;
    text.append(digit_text(n % 10));
    proof {
        if n >= 10 {
            assert(text@ =~= old(text)@ + decimal_digits(n as nat));
        }
    }
}

/// The characters of a text.
fn chars_of(text: &str) -> (chars: Vec<char>)
    ensures
        chars@ == text@,
{
    let mut chars: Vec<char> = Vec::new();
    for c in it: text.chars()
        invariant
            it.seq() == text@,
            chars@ == text@.take(it.index() as int),
    {
        chars.push(c);
        assert(chars@ =~= text@.take(it.index() + 1));
    }
    assert(text@.take(text@.len() as int) =~= text@);
    chars
}

/// Whether `pattern` stands in `text` at `pos`.
fn matches_at(text: &Vec<char>, pos: usize, pattern: &Vec<char>) -> (found: bool)
    requires
        pos <= text.len(),
    ensures
        found == starts_with(text@.skip(pos as int), pattern@),
{
    if pattern.len() > text.len() - pos {
        return false;
    }
    let ghost rest = text@.skip(pos as int);
    let mut i: usize = 0;
    while i < pattern.len()
        invariant
            i <= pattern.len(),
            pos + pattern.len() <= text.len(),
            rest == text@.skip(pos as int),
            rest.take(i as int) == pattern@.take(i as int),
        decreases pattern.len() - i,
    {
        if text[pos + i] != pattern[i] {
            assert(rest.take(pattern@.len() as int)[i as int] != pattern@[i as int]);
            return false;
        }
        i += 1;
        assert(rest.take(i as int) =~= pattern@.take(i as int));
    }
    assert(pattern@.take(i as int) =~= pattern@);
    true
}

/// Replaces every occurrence of `pattern` in `text`, from the left and without overlaps.
pub fn replace_all(text: &str, pattern: &str, with: &str) -> (result: String)
    requires
        pattern@.len() > 0,
    ensures
        result@ == replaced(text@, pattern@, with@),
{
    let chars = chars_of(text);
    let wanted = chars_of(pattern);
    let mut result = String::new();
    let mut copied: usize = 0;
    let mut pos: usize = 0;
    proof {
        assert(text@.skip(0) =~= text@);
        assert(result@ + text@.subrange(0, 0) + replaced(text@, pattern@, with@) =~= replaced(
            text@,
            pattern@,
            with@,
        ));
    }
    while pos < chars.len()
        invariant
            chars@ == text@,
            wanted@ == pattern@,
            wanted.len() > 0,
            copied <= pos <= chars.len(),
            result@ + text@.subrange(copied as int, pos as int) + replaced(
                text@.skip(pos as int),
                pattern@,
                with@,
            ) == replaced(text@, pattern@, with@),
        decreases chars.len() - pos,
    {
        let ghost rest = text@.skip(pos as int);
        if matches_at(&chars, pos, &wanted) {
            let ghost before = result@;
            result.append(text.substring_char(copied, pos));
            result.append(with);
            proof {
                let after = rest.skip(pattern@.len() as int);
                assert(text@.skip(pos + wanted.len()) =~= after);
                assert(before + text@.subrange(copied as int, pos as int) + (with@ + replaced(
                    after,
                    pattern@,
                    with@,
                )) =~= result@ + Seq::<char>::empty() + replaced(after, pattern@, with@));
                assert(text@.subrange(pos + wanted.len(), pos + wanted.len()) =~= Seq::empty());
            }
            pos += wanted.len();
            copied = pos;
        } else {
            proof {
                assert(text@.skip(pos + 1) =~= rest.skip(1));
                assert(result@ + text@.subrange(copied as int, pos as int) + (seq![rest[0]]
                    + replaced(rest.skip(1), pattern@, with@)) =~= result@ + text@.subrange(
                    copied as int,
                    pos + 1,
                ) + replaced(rest.skip(1), pattern@, with@));
            }
            pos += 1;
        }
    }
    result.append(text.substring_char(copied, pos));
    proof {
        assert(replaced(text@.skip(pos as int), pattern@, with@) =~= Seq::<char>::empty());
        assert(result@ + Seq::<char>::empty() =~= result@);
    }
    result
}

/// The first occurrence of the pattern is replaced, what stands before it stays, and the search
/// goes on behind it. The replacement itself is not searched.
pub proof fn lemma_first_replaced(a: Seq<char>, b: Seq<char>, pattern: Seq<char>, with: Seq<char>)
    requires
        pattern.len() > 0,
        forall|i: int|
            0 <= i < a.len() ==> #[trigger] (a + pattern).subrange(i, i + pattern.len())
                != pattern,
    ensures
        replaced(a + pattern + b, pattern, with) == a + with + replaced(b, pattern, with),
    decreases a.len(),
{
    let text = a + pattern + b;
    let n = pattern.len() as int;
    if a.len() == 0 {
        assert(text.take(n) =~= pattern);
        assert(text.skip(n) =~= b);
        assert(a + with =~= with);
    } else {
        let rest = a.skip(1);
        assert((a + pattern).subrange(0, 0 + n) != pattern);
        assert(text.take(n) =~= (a + pattern).subrange(0, n));
        assert(!starts_with(text, pattern));
        assert(text.skip(1) =~= rest + pattern + b);
        assert forall|i: int| 0 <= i < rest.len() implies #[trigger] (rest + pattern).subrange(
            i,
            i + n,
        ) != pattern by {
            assert((rest + pattern).subrange(i, i + n) =~= (a + pattern).subrange(
                i + 1,
                i + 1 + n,
            ));
        }
        lemma_first_replaced(rest, b, pattern, with);
        assert(seq![text[0]] + (rest + with + replaced(b, pattern, with)) =~= a + with + replaced(
            b,
            pattern,
            with,
        ));
    }
}

/// A text that the pattern does not stand in anywhere stays as it is.
pub proof fn lemma_absent_pattern(text: Seq<char>, pattern: Seq<char>, with: Seq<char>)
    requires
        forall|i: int|
            0 <= i <= text.len() - pattern.len() ==> #[trigger] text.subrange(
                i,
                i + pattern.len(),
            ) != pattern,
    ensures
        replaced(text, pattern, with) == text,
{
    assert forall|i: int| 0 <= i < text.len() implies !starts_with(
        #[trigger] text.skip(i),
        pattern,
    ) by {
        if i + pattern.len() <= text.len() {
            assert(text.skip(i).take(pattern.len() as int) =~= text.subrange(
                i,
                i + pattern.len(),
            ));
        }
    }
    lemma_nothing_to_replace(text, pattern, with);
}

/// A number below ten is written as its digit; a larger one as its tenth, followed by the digit of
/// the remainder. The digit `d` is the character with the code `48 + d`.
pub proof fn lemma_decimal_digits(n: nat)
    ensures
        n < 10 ==> decimal_digits(n).len() == 1,
        n >= 10 ==> decimal_digits(n).drop_last() == decimal_digits(n / 10),
        decimal_digits(n).len() > 0,
        decimal_digits(n).last() as int == 48 + n % 10,
{
    if n >= 10 {
        assert(decimal_digits(n).drop_last() =~= decimal_digits(n / 10));
    }
}

/// A text in which the pattern does not occur stays as it is.
pub proof fn lemma_nothing_to_replace(text: Seq<char>, pattern: Seq<char>, with: Seq<char>)
    requires
        forall|i: int| 0 <= i < text.len() ==> !starts_with(#[trigger] text.skip(i), pattern),
    ensures
        replaced(text, pattern, with) == text,
    decreases text.len(),
{
    if text.len() > 0 && pattern.len() > 0 {
        let rest = text.skip(1);
        assert(text.skip(0) =~= text);
        assert forall|i: int| 0 <= i < rest.len() implies !starts_with(
            #[trigger] rest.skip(i),
            pattern,
        ) by {
            assert(rest.skip(i) =~= text.skip(i + 1));
        }
        lemma_nothing_to_replace(rest, pattern, with);
        assert(seq![text[0]] + rest =~= text);
    }
}

} // verus!
