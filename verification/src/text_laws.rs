//! What the text helpers give, said of the characters alone.

use crate::text::{
    decimal, hex_byte, is_white_space, trimmed, without_end_slashes, without_end_space,
    without_prefixes, without_start_space,
};
use vstd::prelude::*;

verus! {

/// The number that a text of decimal digits stands for.
pub open spec fn number_of(text: Seq<char>) -> int
    decreases text.len(),
{
    if text.len() == 0 {
        0
    } else {
        10 * number_of(text.drop_last()) + (text.last() as int - '0' as int)
    }
}

/// A number in decimal is digits alone, starts with no needless zero and stands
/// for the number.
pub proof fn decimal_stands_for_its_number(value: nat)
    ensures
        number_of(decimal(value)) == value,
        decimal(value).len() > 0,
        forall|i: int| 0 <= i < decimal(value).len() ==> '0' <= #[trigger] decimal(value)[i] <= '9',
        decimal(value)[0] == '0' ==> value == 0 && decimal(value).len() == 1,
    decreases value,
{
    reveal_strlit("0123456789abcdef");
    reveal_with_fuel(number_of, 2);
    if value < 10 {
        assert(decimal(value).drop_last() =~= Seq::<char>::empty());
    } else {
        let (front, digit) = (decimal(value / 10), decimal(value).last());
        decimal_stands_for_its_number(value / 10);
        assert(decimal(value).drop_last() =~= front);
        assert('0' <= digit <= '9' && digit as int - '0' as int == value % 10);
        assert forall|i: int| 0 <= i < decimal(value).len() implies '0' <= #[trigger] decimal(
            value,
        )[i] <= '9' by {
            if i < front.len() {
                assert(decimal(value)[i] == front[i]);
            }
        }
        assert(decimal(value)[0] == front[0]);
    }
}

/// What a hexadecimal digit counts, small letters alone.
pub open spec fn hex_value(c: char) -> int {
    if '0' <= c <= '9' {
        c as int - '0' as int
    } else if 'a' <= c <= 'f' {
        10 + (c as int - 'a' as int)
    } else {
        -1
    }
}

/// A byte in hexadecimal is two digits that stand for it.
pub proof fn hex_stands_for_its_byte(value: u8)
    ensures
        hex_byte(value).len() == 2,
        0 <= hex_value(hex_byte(value)[0]) < 16,
        0 <= hex_value(hex_byte(value)[1]) < 16,
        16 * hex_value(hex_byte(value)[0]) + hex_value(hex_byte(value)[1]) == value,
{
    reveal_strlit("0123456789abcdef");
}

/// What is left of `text` is a part of it; what is gone at either end is white
/// space alone, and no more of it is left there.
pub proof fn trimming_takes_the_ends_alone(text: Seq<char>)
    ensures
        exists|from: int, to: int|
            0 <= from <= to <= text.len() && trimmed(text) == #[trigger] text.subrange(from, to)
                && is_blank(text, 0, from) && is_blank(text, to, text.len() as int),
        trimmed(text).len() > 0 ==> !is_white_space(trimmed(text)[0]) && !is_white_space(
            trimmed(text).last(),
        ),
{
    start_is_cut(text);
    let rest = without_start_space(text);
    end_is_cut(rest);
    let from = text.len() - rest.len();
    let to = from + trimmed(text).len();
    assert(text.subrange(from, to) =~= trimmed(text)) by {
        assert forall|i: int| 0 <= i < trimmed(text).len() implies text.subrange(from, to)[i]
            == trimmed(text)[i] by {
            assert(rest[i] == text.skip(from)[i]);
        }
    }
    assert forall|i: int| to <= i < text.len() implies is_white_space(#[trigger] text[i]) by {
        assert(rest[i - from] == text.skip(from)[i - from]);
    }
    assert(is_blank(text, 0, from) && is_blank(text, to, text.len() as int));
    if trimmed(text).len() > 0 {
        assert(trimmed(text)[0] == rest[0]);
    }
}

/// Whether the characters from `from` up to `to` are white space.
pub open spec fn is_blank(text: Seq<char>, from: int, to: int) -> bool {
    forall|i: int| from <= i < to ==> is_white_space(#[trigger] text[i])
}

/// What is cut at the start.
proof fn start_is_cut(text: Seq<char>)
    ensures
        without_start_space(text).len() <= text.len(),
        without_start_space(text) == text.skip(text.len() - without_start_space(text).len()),
        is_blank(text, 0, text.len() - without_start_space(text).len()),
        without_start_space(text).len() > 0 ==> !is_white_space(without_start_space(text)[0]),
    decreases text.len(),
{
    if text.len() > 0 && is_white_space(text[0]) {
        let rest = text.drop_first();
        start_is_cut(rest);
        let cut = text.len() - without_start_space(text).len();
        assert forall|i: int| 0 <= i < cut implies is_white_space(#[trigger] text[i]) by {
            if i > 0 {
                assert(rest[i - 1] == text[i]);
            }
        }
        assert(text.skip(cut) =~= rest.skip(cut - 1));
    } else {
        assert(text.skip(0) =~= text);
    }
}

/// What is cut at the end.
proof fn end_is_cut(text: Seq<char>)
    ensures
        without_end_space(text).len() <= text.len(),
        without_end_space(text) == text.take(without_end_space(text).len() as int),
        is_blank(text, without_end_space(text).len() as int, text.len() as int),
        without_end_space(text).len() > 0 ==> !is_white_space(without_end_space(text).last()),
    decreases text.len(),
{
    if text.len() > 0 && is_white_space(text.last()) {
        let rest = text.drop_last();
        end_is_cut(rest);
        let kept = without_end_space(text).len() as int;
        assert forall|i: int| kept <= i < text.len() implies is_white_space(#[trigger] text[i]) by {
            if i < rest.len() {
                assert(rest[i] == text[i]);
            }
        }
        assert(text.take(kept) =~= rest.take(kept));
    } else {
        assert(text.take(text.len() as int) =~= text);
    }
}

/// White space is what Unicode gives that property.
pub proof fn white_space_is_that_of_unicode(c: char)
    ensures
        is_white_space(c) <==> {
            let code = c as u32;
            ||| 0x9 <= code <= 0xd
            ||| code == 0x20
            ||| code == 0x85
            ||| code == 0xa0
            ||| code == 0x1680
            ||| 0x2000 <= code <= 0x200a
            ||| code == 0x2028
            ||| code == 0x2029
            ||| code == 0x202f
            ||| code == 0x205f
            ||| code == 0x3000
        },
{
}

/// Taking slashes from the end takes all of them and nothing else.
pub proof fn only_end_slashes_are_taken(text: Seq<char>)
    ensures
        without_end_slashes(text).len() <= text.len(),
        without_end_slashes(text) == text.take(without_end_slashes(text).len() as int),
        forall|i: int|
            without_end_slashes(text).len() <= i < text.len() ==> #[trigger] text[i] == '/',
        without_end_slashes(text).len() > 0 ==> without_end_slashes(text).last() != '/',
    decreases text.len(),
{
    if text.len() > 0 && text.last() == '/' {
        let rest = text.drop_last();
        only_end_slashes_are_taken(rest);
        let kept = without_end_slashes(text).len() as int;
        assert forall|i: int| kept <= i < text.len() implies #[trigger] text[i] == '/' by {
            if i < rest.len() {
                assert(rest[i] == text[i]);
            }
        }
        assert(text.take(kept) =~= rest.take(kept));
    } else {
        assert(text.take(text.len() as int) =~= text);
    }
}

/// `n` copies of `prefix`.
pub open spec fn copies(prefix: Seq<char>, n: nat) -> Seq<char>
    decreases n,
{
    if n == 0 {
        Seq::empty()
    } else {
        prefix + copies(prefix, (n - 1) as nat)
    }
}

/// Taking copies of a prefix takes all of them and nothing else.
pub proof fn only_prefixes_are_taken(text: Seq<char>, prefix: Seq<char>)
    requires
        prefix.len() > 0,
    ensures
        exists|n: nat| text == #[trigger] copies(prefix, n) + without_prefixes(text, prefix),
        !prefix.is_prefix_of(without_prefixes(text, prefix)),
    decreases text.len(),
{
    if prefix.is_prefix_of(text) {
        let rest = text.skip(prefix.len() as int);
        only_prefixes_are_taken(rest, prefix);
        let n = choose|n: nat| rest == #[trigger] copies(prefix, n) + without_prefixes(rest, prefix);
        assert(text =~= prefix + rest);
        assert(text =~= copies(prefix, n + 1) + without_prefixes(text, prefix));
    } else {
        assert(text =~= copies(prefix, 0) + without_prefixes(text, prefix));
    }
}

} // verus!
