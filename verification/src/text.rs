//! Text helpers.

use vstd::prelude::*;

verus! {

/// Whether two texts hold the same characters in the same order.
pub(crate) fn text_eq(a: &str, b: &str) -> (r: bool)
    ensures
        r == (a@ == b@),
{
    let (left, right): (Vec<char>, Vec<char>) = (chars_of(a), chars_of(b));
    if left.len() != right.len() {
        return false;
    }
    let mut i: usize = 0;
    while i < left.len()
        invariant
            i <= left@.len(),
            left@ == a@,
            right@ == b@,
            left@.len() == right@.len(),
            forall|k: int| 0 <= k < i ==> left@[k] == right@[k],
        decreases left@.len() - i,
    {
        if left[i] != right[i] {
            return false;
        }
        i = i + 1;
    }
    assert(a@ =~= b@);
    true
}

/// `String::from` of std on a character: the string that holds it alone.
#[verifier::external_body]
pub(crate) fn char_text(ch: char) -> (r: String)
    ensures
        r@ == seq![ch],
{
    String::from(ch)
}

/// The number of bytes of a text in UTF-8.
pub open spec fn utf8_len(text: Seq<char>) -> nat {
    vstd::utf8::encode_utf8(text).len()
}

pub(crate) fn byte_len(text: &str) -> (r: usize)
    ensures
        r == utf8_len(text@),
{
    text.as_bytes().len()
}

/// The characters of a text.
pub(crate) fn chars_of(text: &str) -> (r: Vec<char>)
    ensures
        r@ == text@,
{
    let mut chars: Vec<char> = Vec::new();
    for ch in it: text.chars()
        invariant
            chars@ == it.seq().take(it.index() as int),
            it.seq() == text@,
    {
        chars.push(ch);
        assert(chars@ =~= it.seq().take(it.index() + 1));
    }
    assert(chars@ =~= text@);
    chars
}

/// The characters of the Unicode property White_Space.
pub open spec fn is_space(c: char) -> bool {
    let n = c as u32;
    ||| 0x9 <= n <= 0xd
    ||| n == 0x20
    ||| n == 0x85
    ||| n == 0xa0
    ||| n == 0x1680
    ||| 0x2000 <= n <= 0x200a
    ||| n == 0x2028
    ||| n == 0x2029
    ||| n == 0x202f
    ||| n == 0x205f
    ||| n == 0x3000
}

fn is_space_char(c: char) -> (r: bool)
    ensures
        r == is_space(c),
{
    let n: u32 = c as u32;
    (0x9 <= n && n <= 0xd) || n == 0x20 || n == 0x85 || n == 0xa0 || n == 0x1680 || (0x2000 <= n
        && n <= 0x200a) || n == 0x2028 || n == 0x2029 || n == 0x202f || n == 0x205f || n == 0x3000
}

/// A text without the white space at its start.
pub open spec fn trim_start(s: Seq<char>) -> Seq<char>
    decreases s.len(),
{
    if s.len() > 0 && is_space(s.first()) {
        trim_start(s.drop_first())
    } else {
        s
    }
}

/// A text without the white space at its end.
pub open spec fn trim_end(s: Seq<char>) -> Seq<char>
    decreases s.len(),
{
    if s.len() > 0 && is_space(s.last()) {
        trim_end(s.drop_last())
    } else {
        s
    }
}

/// A text without the white space around it.
pub open spec fn trim(s: Seq<char>) -> Seq<char> {
    trim_end(trim_start(s))
}

/// The range of the characters that are left when the white space around them
/// is cut off.
pub(crate) fn trimmed_range(chars: &Vec<char>) -> (r: (usize, usize))
    ensures
        r.0 <= r.1 <= chars@.len(),
        chars@.subrange(r.0 as int, r.1 as int) == trim(chars@),
{
    let n: usize = chars.len();
    let mut start: usize = 0;
    assert(chars@.subrange(0, n as int) =~= chars@);
    while start < n && is_space_char(chars[start])
        invariant
            start <= n,
            n == chars@.len(),
            trim_start(chars@.subrange(start as int, n as int)) == trim_start(chars@),
        decreases n - start,
    {
        assert(chars@.subrange(start as int, n as int).drop_first() =~= chars@.subrange(
            start + 1,
            n as int,
        ));
        start = start + 1;
    }
    let ghost rest = chars@.subrange(start as int, n as int);
    assert(rest == trim_start(chars@));
    let mut end: usize = n;
    while end > start && is_space_char(chars[end - 1])
        invariant
            start <= end <= n,
            n == chars@.len(),
            trim_end(chars@.subrange(start as int, end as int)) == trim_end(rest),
        decreases end,
    {
        assert(chars@.subrange(start as int, end as int).drop_last() =~= chars@.subrange(
            start as int,
            end - 1,
        ));
        end = end - 1;
    }
    (start, end)
}

/// Whether all characters are spaces.
pub open spec fn all_spaces(s: Seq<char>) -> bool {
    forall|i: int| 0 <= i < s.len() ==> is_space(#[trigger] s[i])
}

/// A text with nothing but spaces around it is trimmed to itself; one of spaces
/// alone to nothing.
pub proof fn law_spaces_around_a_text_are_trimmed(
    before: Seq<char>,
    text: Seq<char>,
    after: Seq<char>,
)
    requires
        all_spaces(before),
        all_spaces(after),
        text.len() > 0 ==> !is_space(text.first()) && !is_space(text.last()),
    ensures
        trim(before + text + after) == text,
{
    if text.len() == 0 {
        assert(before + text + after =~= before + after);
        let all = before + after;
        assert forall|i: int| 0 <= i < all.len() implies is_space(#[trigger] all[i]) by {
            if i < before.len() {
                assert(all[i] == before[i]);
            } else {
                assert(all[i] == after[i - before.len()]);
            }
        }
        lemma_trim_spaces(all);
        assert(Seq::<char>::empty() =~= text);
    } else {
        assert(before + text + after =~= before + (text + after));
        assert((text + after).first() == text.first());
        lemma_trim_start(before, text + after);
        lemma_trim_end(text, after);
    }
}

proof fn lemma_trim_spaces(s: Seq<char>)
    requires
        all_spaces(s),
    ensures
        trim(s) == Seq::<char>::empty(),
{
    assert(s + Seq::<char>::empty() =~= s);
    lemma_trim_start(s, Seq::empty());
}

proof fn lemma_trim_start(before: Seq<char>, text: Seq<char>)
    requires
        all_spaces(before),
        text.len() > 0 ==> !is_space(text.first()),
    ensures
        trim_start(before + text) == text,
    decreases before.len(),
{
    if before.len() > 0 {
        assert(is_space(before[0]));
        assert((before + text).drop_first() =~= before.drop_first() + text);
        assert forall|i: int| 0 <= i < before.drop_first().len() implies is_space(
            #[trigger] before.drop_first()[i],
        ) by {
            assert(before.drop_first()[i] == before[i + 1]);
        }
        lemma_trim_start(before.drop_first(), text);
    } else {
        assert(before + text =~= text);
    }
}

proof fn lemma_trim_end(text: Seq<char>, after: Seq<char>)
    requires
        all_spaces(after),
        text.len() > 0 ==> !is_space(text.last()),
    ensures
        trim_end(text + after) == text,
    decreases after.len(),
{
    if after.len() > 0 {
        assert(is_space(after[after.len() - 1]));
        assert((text + after).drop_last() =~= text + after.drop_last());
        assert forall|i: int| 0 <= i < after.drop_last().len() implies is_space(
            #[trigger] after.drop_last()[i],
        ) by {
            assert(after.drop_last()[i] == after[i]);
        }
        lemma_trim_end(text, after.drop_last());
    } else {
        assert(text + after =~= text);
    }
}

/// Of the characters of ASCII the blank and the five controls from tab to carriage
/// return are spaces, and no others.
pub proof fn law_ascii_spaces(c: char)
    requires
        (c as int) < 128,
    ensures
        is_space(c) <==> c as int == 32 || 9 <= c as int <= 13,
{
}

} // verus!
