//! Text helpers: what they do is stated over the characters of the strings.

use vstd::prelude::*;

verus! {

/// `text` without the slashes at its end.
pub open spec fn without_end_slashes(text: Seq<char>) -> Seq<char>
    decreases text.len(),
{
    if text.len() > 0 && text.last() == '/' {
        without_end_slashes(text.drop_last())
    } else {
        text
    }
}

/// `text` without the copies of `prefix` that it starts with.
pub open spec fn without_prefixes(text: Seq<char>, prefix: Seq<char>) -> Seq<char>
    decreases text.len(),
{
    if prefix.len() > 0 && prefix.is_prefix_of(text) {
        without_prefixes(text.skip(prefix.len() as int), prefix)
    } else {
        text
    }
}

/// Whether `c` has the Unicode property `White_Space`.
pub open spec fn is_white_space(c: char) -> bool {
    ||| '\u{9}' <= c <= '\u{d}'
    ||| c == ' '
    ||| c == '\u{85}'
    ||| c == '\u{a0}'
    ||| c == '\u{1680}'
    ||| '\u{2000}' <= c <= '\u{200a}'
    ||| c == '\u{2028}'
    ||| c == '\u{2029}'
    ||| c == '\u{202f}'
    ||| c == '\u{205f}'
    ||| c == '\u{3000}'
}

/// `text` without the white space at its end.
pub open spec fn without_end_space(text: Seq<char>) -> Seq<char>
    decreases text.len(),
{
    if text.len() > 0 && is_white_space(text.last()) {
        without_end_space(text.drop_last())
    } else {
        text
    }
}

/// `text` without the white space at its start.
pub open spec fn without_start_space(text: Seq<char>) -> Seq<char>
    decreases text.len(),
{
    if text.len() > 0 && is_white_space(text[0]) {
        without_start_space(text.drop_first())
    } else {
        text
    }
}

/// `text` without the white space at its start and at its end.
pub open spec fn trimmed(text: Seq<char>) -> Seq<char> {
    without_end_space(without_start_space(text))
}

/// The digit for `value`, which is below 16.
pub open spec fn digit(value: nat) -> char {
    "0123456789abcdef"@[value as int]
}

/// `value` in decimal, without leading zeros.
pub open spec fn decimal(value: nat) -> Seq<char>
    decreases value,
{
    if value < 10 {
        seq![digit(value)]
    } else {
        decimal(value / 10).push(digit(value % 10))
    }
}

/// `value` as two hexadecimal digits.
pub open spec fn hex_byte(value: u8) -> Seq<char> {
    seq![digit((value / 16) as nat), digit((value % 16) as nat)]
}

/// Whether both strings hold the same characters.
pub fn same_text(a: &str, b: &str) -> (same: bool)
    ensures
        same == (a@ == b@),
{
    a.to_owned() == b.to_owned()
}

/// The characters of a string, in order.
pub fn characters(s: &str) -> (chars: Vec<char>)
    ensures
        chars@ == s@,
{
    let mut chars: Vec<char> = Vec::new();
    for c in it: s.chars()
        invariant
            it.seq() == s@,
            chars@ == s@.take(it.index()),
    {
        chars.push(c);
    }
    chars
}

/// The characters of `s` from `from` up to `to`, as a string.
pub fn part(s: &str, from: usize, to: usize) -> (res: String)
    requires
        from <= to <= s@.len(),
    ensures
        res@ == s@.subrange(from as int, to as int),
{
    s.substring_char(from, to).to_owned()
}

/// Whether `prefix` stands in `chars` at `at`.
fn stands_at(chars: &Vec<char>, at: usize, prefix: &Vec<char>) -> (stands: bool)
    requires
        at <= chars@.len(),
    ensures
        stands == prefix@.is_prefix_of(chars@.skip(at as int)),
{
    if chars.len() - at < prefix.len() {
        return false;
    }
    let mut i: usize = 0;
    while i < prefix.len()
        invariant
            at + prefix@.len() <= chars.len(),
            i <= prefix@.len(),
            forall|k: int| 0 <= k < i ==> prefix@[k] == chars@[at + k],
        decreases prefix.len() - i,
    {
        if chars[at + i] != prefix[i] {
            proof {
                assert(chars@.skip(at as int)[i as int] == chars@[at + i]);
                assert(chars@.skip(at as int).take(prefix@.len() as int)[i as int] == chars@[at + i]);
            }
            return false;
        }
        i = i + 1;
    }
    proof {
        assert(prefix@ =~= chars@.skip(at as int).take(prefix@.len() as int));
    }
    true
}

/// Whether `s` starts with `prefix`.
pub fn starts_with(s: &str, prefix: &str) -> (starts: bool)
    ensures
        starts == prefix@.is_prefix_of(s@),
{
    let chars: Vec<char> = characters(s);
    let wanted: Vec<char> = characters(prefix);
    proof {
        assert(chars@.skip(0) =~= chars@);
    }
    stands_at(&chars, 0, &wanted)
}

/// Drops the slashes at the end of `s`.
pub fn trim_end_slashes(s: &str) -> (res: String)
    ensures
        res@ == without_end_slashes(s@),
{
    let chars: Vec<char> = characters(s);
    let mut end: usize = chars.len();
    proof {
        assert(s@.take(end as int) =~= s@);
    }
    while end > 0 && chars[end - 1] == '/'
        invariant
            chars@ == s@,
            end <= chars@.len(),
            without_end_slashes(s@.take(end as int)) == without_end_slashes(s@),
        decreases end,
    {
        proof {
            assert(s@.take(end as int).drop_last() =~= s@.take(end - 1));
        }
        end = end - 1;
    }
    proof {
        assert(s@.subrange(0, end as int) =~= s@.take(end as int));
    }
    part(s, 0, end)
}

/// Drops the copies of `prefix` that `s` starts with.
pub fn trim_prefixes(s: &str, prefix: &str) -> (res: String)
    ensures
        res@ == without_prefixes(s@, prefix@),
{
    let chars: Vec<char> = characters(s);
    let wanted: Vec<char> = characters(prefix);
    let mut start: usize = 0;
    proof {
        assert(s@.skip(0) =~= s@);
    }
    if wanted.len() > 0 {
        while stands_at(&chars, start, &wanted)
            invariant
                chars@ == s@,
                wanted@ == prefix@,
                prefix@.len() > 0,
                start <= chars.len(),
                without_prefixes(s@.skip(start as int), prefix@) == without_prefixes(s@, prefix@),
            decreases chars@.len() - start,
        {
            proof {
                assert(s@.skip(start as int).skip(prefix@.len() as int) =~= s@.skip(
                    start + prefix@.len(),
                ));
            }
            start = start + wanted.len();
        }
    }
    proof {
        assert(s@.subrange(start as int, s@.len() as int) =~= s@.skip(start as int));
    }
    part(s, start, chars.len())
}

/// Whether `c` is white space.
pub fn char_is_white_space(c: char) -> (is: bool)
    ensures
        is == is_white_space(c),
{
    ('\u{9}' <= c && c <= '\u{d}') || c == ' ' || c == '\u{85}' || c == '\u{a0}' || c == '\u{1680}'
        || ('\u{2000}' <= c && c <= '\u{200a}') || c == '\u{2028}' || c == '\u{2029}' || c
        == '\u{202f}' || c == '\u{205f}' || c == '\u{3000}'
}

/// Drops the white space at both ends of `s`.
pub fn trim(s: &str) -> (res: String)
    ensures
        res@ == trimmed(s@),
{
    let chars: Vec<char> = characters(s);
    let mut start: usize = 0;
    proof {
        assert(s@.skip(0) =~= s@);
    }
    while start < chars.len() && char_is_white_space(chars[start])
        invariant
            chars@ == s@,
            start <= chars@.len(),
            without_start_space(s@.skip(start as int)) == without_start_space(s@),
        decreases chars@.len() - start,
    {
        proof {
            assert(s@.skip(start as int).drop_first() =~= s@.skip(start + 1));
        }
        start = start + 1;
    }
    let mut end: usize = chars.len();
    let ghost rest = s@.skip(start as int);
    proof {
        assert(s@.subrange(start as int, end as int) =~= rest);
    }
    while end > start && char_is_white_space(chars[end - 1])
        invariant
            chars@ == s@,
            start <= end <= chars@.len(),
            without_end_space(s@.subrange(start as int, end as int)) == without_end_space(rest),
        decreases end,
    {
        proof {
            assert(s@.subrange(start as int, end as int).drop_last() =~= s@.subrange(
                start as int,
                end - 1,
            ));
        }
        end = end - 1;
    }
    part(s, start, end)
}

/// The digit for `value`, as a string.
fn digit_text(value: u64) -> (res: String)
    requires
        value < 16,
    ensures
        res@ == seq![digit(value as nat)],
{
    proof {
        reveal_strlit("0123456789abcdef");
    }
    let res: String = part("0123456789abcdef", value as usize, value as usize + 1);
    proof {
        assert(res@ =~= seq![digit(value as nat)]);
    }
    res
}

/// Writes `value` in decimal.
pub fn decimal_text(value: u64) -> (res: String)
    ensures
        res@ == decimal(value as nat),
    decreases value,
{
    if value < 10 {
        digit_text(value)
    } else {
        let mut res: String = decimal_text(value / 10);
        let last: String = digit_text(value % 10);
        res.append(last.as_str());
        proof {
            assert(res@ =~= decimal(value as nat / 10).push(digit(value as nat % 10)));
        }
        res
    }
}

/// Writes `value` as two hexadecimal digits.
pub fn hex_byte_text(value: u8) -> (res: String)
    ensures
        res@ == hex_byte(value),
{
    let mut res: String = digit_text((value / 16) as u64);
    let low: String = digit_text((value % 16) as u64);
    res.append(low.as_str());
    proof {
        assert(res@ =~= hex_byte(value));
    }
    res
}

/// `a` followed by `b`.
pub fn joined(a: &str, b: &str) -> (res: String)
    ensures
        res@ == a@ + b@,
{
    let mut res: String = a.to_owned();
    res.append(b);
    res
}

/// The strings of a list, as characters.
pub open spec fn texts(list: Seq<String>) -> Seq<Seq<char>> {
    list.map_values(|s: String| s@)
}

/// A copy of a list of strings.
pub fn copy_texts(list: &Vec<String>) -> (copy: Vec<String>)
    ensures
        texts(copy@) == texts(list@),
{
    let mut copy: Vec<String> = Vec::new();
    let mut i: usize = 0;
    while i < list.len()
        invariant
            i <= list@.len(),
            copy@ == list@.take(i as int),
        decreases list@.len() - i,
    {
        copy.push(list[i].clone());
        proof {
            assert(copy@ =~= list@.take(i + 1));
        }
        i = i + 1;
    }
    proof {
        assert(copy@ =~= list@);
    }
    copy
}

/// Whether `text` is one of the list.
pub fn lists_text(list: &Vec<String>, text: &String) -> (found: bool)
    ensures
        found == texts(list@).contains(text@),
{
    let mut i: usize = 0;
    while i < list.len()
        invariant
            i <= list@.len(),
            forall|k: int| 0 <= k < i ==> (#[trigger] list@[k])@ != text@,
        decreases list@.len() - i,
    {
        if list[i] == *text {
            proof {
                assert(texts(list@)[i as int] == text@);
            }
            return true;
        }
        i = i + 1;
    }
    proof {
        if texts(list@).contains(text@) {
            let k = choose|k: int| 0 <= k < texts(list@).len() && texts(list@)[k] == text@;
            assert(list@[k]@ == text@);
        }
    }
    false
}

} // verus!
