//! Text as a sequence of Unicode scalar values.
//!
//! Every function here is specified over `Seq<char>`, the view of `str` and
//! `String`; lengths in bytes are lengths of the UTF-8 encoding.
use vstd::prelude::*;
use vstd::string::*;
use vstd::utf8::*;

verus! {

/// `String::push` appends one scalar value at the end of the text.
pub assume_specification[ String::push ](target: &mut String, c: char)
    ensures
        final(target)@ == old(target)@.push(c),
;

/// The scalar values of a text, one by one.
pub fn chars_of(text: &str) -> (chars: Vec<char>)
    ensures
        chars@ == text@,
{
    let mut chars: Vec<char> = Vec::new();
    for c in it: text.chars()
        invariant
            chars@ == it.seq().take(it.index()),
            it.seq() == text@,
    {
        chars.push(c);
    }
    chars
}

/// The text made of the given scalar values.
pub fn text_of(chars: &[char]) -> (text: String)
    ensures
        text@ == chars@,
{
    let mut text = String::new();
    let mut index: usize = 0;
    while index < chars.len()
        invariant
            index <= chars@.len(),
            text@ == chars@.take(index as int),
        decreases chars@.len() - index,
    {
        text.push(chars[index]);
        index += 1;
    }
    text
}

/// Whether two texts are the same.
pub fn same(left: &str, right: &str) -> (equal: bool)
    ensures
        equal == (left@ == right@),
{
    let a = left.as_bytes();
    let b = right.as_bytes();
    if a.len() != b.len() {
        return false;
    }
    let mut index: usize = 0;
    while index < a.len()
        invariant
            a@.len() == b@.len(),
            index <= a@.len(),
            a@ == encode_utf8(left@),
            b@ == encode_utf8(right@),
            a@.take(index as int) == b@.take(index as int),
        decreases a@.len() - index,
    {
        if a[index] != b[index] {
            return false;
        }
        assert(a@.take(index + 1) == a@.take(index as int).push(a@[index as int]));
        assert(b@.take(index + 1) == b@.take(index as int).push(b@[index as int]));
        index += 1;
    }
    proof {
        assert(a@ == a@.take(a@.len() as int));
        assert(b@ == b@.take(b@.len() as int));
        encode_utf8_decode_utf8(left@);
        encode_utf8_decode_utf8(right@);
    }
    true
}

/// The Unicode property White_Space.
pub open spec fn white_space(c: char) -> bool {
    ||| 0x9 <= c as u32 <= 0xd
    ||| c as u32 == 0x20
    ||| c as u32 == 0x85
    ||| c as u32 == 0xa0
    ||| c as u32 == 0x1680
    ||| 0x2000 <= c as u32 <= 0x200a
    ||| c as u32 == 0x2028
    ||| c as u32 == 0x2029
    ||| c as u32 == 0x202f
    ||| c as u32 == 0x205f
    ||| c as u32 == 0x3000
}

/// Whether a scalar value is white space.
pub fn is_white_space(c: char) -> (white: bool)
    ensures
        white == white_space(c),
{
    let code: u32 = c as u32;
    (0x9 <= code && code <= 0xd) || code == 0x20 || code == 0x85 || code == 0xa0 || code == 0x1680
        || (0x2000 <= code && code <= 0x200a) || code == 0x2028 || code == 0x2029 || code == 0x202f
        || code == 0x205f || code == 0x3000
}

/// The text from its first scalar value on that is not white space.
pub open spec fn trim_start(s: Seq<char>) -> Seq<char>
    decreases s.len(),
{
    if s.len() > 0 && white_space(s[0]) {
        trim_start(s.drop_first())
    } else {
        s
    }
}

/// The text up to its last scalar value that is not white space.
pub open spec fn trim_end(s: Seq<char>) -> Seq<char>
    decreases s.len(),
{
    if s.len() > 0 && white_space(s.last()) {
        trim_end(s.drop_last())
    } else {
        s
    }
}

/// The text without white space at its ends.
pub open spec fn trim(s: Seq<char>) -> Seq<char> {
    trim_end(trim_start(s))
}

fn start_of(chars: &Vec<char>) -> (start: usize)
    ensures
        start <= chars@.len(),
        trim_start(chars@) == chars@.skip(start as int),
{
    let mut start: usize = 0;
    assert(chars@.skip(0) =~= chars@);
    while start < chars.len() && is_white_space(chars[start])
        invariant
            start <= chars@.len(),
            trim_start(chars@) == trim_start(chars@.skip(start as int)),
        decreases chars@.len() - start,
    {
        assert(chars@.skip(start as int).drop_first() =~= chars@.skip(start + 1));
        start += 1;
    }
    start
}

/// The text from its first scalar value on that is not white space.
pub fn trimmed_start(text: &str) -> (trimmed: String)
    ensures
        trimmed@ == trim_start(text@),
{
    let chars = chars_of(text);
    let start: usize = start_of(&chars);
    text_of(vstd::slice::slice_subrange(chars.as_slice(), start, chars.len()))
}

/// The text without white space at its ends.
pub fn trimmed(text: &str) -> (trimmed: String)
    ensures
        trimmed@ == trim(text@),
{
    let chars = chars_of(text);
    let start: usize = start_of(&chars);
    let mut end: usize = chars.len();
    let ghost rest = chars@.skip(start as int);
    assert(chars@.subrange(start as int, end as int) =~= rest);
    while start < end && is_white_space(chars[end - 1])
        invariant
            start <= end <= chars@.len(),
            trim_end(rest) == trim_end(chars@.subrange(start as int, end as int)),
        decreases end,
    {
        assert(chars@.subrange(start as int, end as int).drop_last() =~= chars@.subrange(
            start as int,
            end - 1,
        ));
        assert(chars@.subrange(start as int, end as int).last() == chars@[end - 1]);
        end -= 1;
    }
    text_of(vstd::slice::slice_subrange(chars.as_slice(), start, end))
}

/// Whether nothing but white space is in the text.
pub fn is_blank(text: &str) -> (blank: bool)
    ensures
        blank == (trim(text@).len() == 0),
{
    trimmed(text).as_str().is_empty()
}

/// An ASCII letter in lower case; any other scalar value as it is.
pub open spec fn lower_char(c: char) -> char {
    if 'A' <= c && c <= 'Z' {
        ((c as u8) + 32) as char
    } else {
        c
    }
}

/// The text with its ASCII letters in lower case.
pub open spec fn lower(s: Seq<char>) -> Seq<char> {
    s.map_values(|c: char| lower_char(c))
}

/// The text with its ASCII letters in lower case.
pub fn lowered(text: &str) -> (result: String)
    ensures
        result@ == lower(text@),
{
    let chars = chars_of(text);
    let mut result = String::new();
    let mut index: usize = 0;
    while index < chars.len()
        invariant
            index <= chars@.len(),
            chars@ == text@,
            result@ == lower(text@.take(index as int)),
        decreases chars@.len() - index,
    {
        let c = chars[index];
        let mapped = if 'A' <= c && c <= 'Z' {
            ((c as u8) + 32) as char
        } else {
            c
        };
        assert(lower(text@.take(index + 1)) =~= lower(text@.take(index as int)).push(
            lower_char(c),
        ));
        result.push(mapped);
        index += 1;
    }
    assert(text@.take(index as int) =~= text@);
    result
}

/// Whether two texts are the same but for the case of ASCII letters.
pub fn same_ignoring_case(left: &str, right: &str) -> (equal: bool)
    ensures
        equal == (lower(left@) == lower(right@)),
{
    same(&lowered(left), &lowered(right))
}

/// Whether a list begins with another one.
pub open spec fn begins<T>(s: Seq<T>, prefix: Seq<T>) -> bool {
    prefix.len() <= s.len() && s.take(prefix.len() as int) == prefix
}

/// Whether a list ends with another one.
pub open spec fn ends<T>(s: Seq<T>, suffix: Seq<T>) -> bool {
    suffix.len() <= s.len() && s.skip(s.len() - suffix.len()) == suffix
}

/// Whether a list holds another one as a part without gaps.
pub open spec fn holds<T>(s: Seq<T>, part: Seq<T>) -> bool {
    exists|i: int| #![trigger s.skip(i)] 0 <= i <= s.len() && begins(s.skip(i), part)
}

fn matches_at(chars: &Vec<char>, part: &Vec<char>, from: usize) -> (found: bool)
    requires
        from <= chars@.len(),
    ensures
        found == begins(chars@.skip(from as int), part@),
{
    let total: usize = chars.len();
    if part.len() > total - from {
        return false;
    }
    let ghost rest = chars@.skip(from as int);
    let mut index: usize = 0;
    while index < part.len()
        invariant
            index <= part@.len() <= rest.len(),
            from <= chars@.len(),
            rest == chars@.skip(from as int),
            rest.len() == chars@.len() - from,
            total == chars@.len(),
            forall|i: int| 0 <= i < index ==> rest[i] == part@[i],
        decreases part@.len() - index,
    {
        if chars[from + index] != part[index] {
            assert(rest[index as int] == chars@[from + index]);
            assert(rest.take(part@.len() as int)[index as int] != part@[index as int]);
            return false;
        }
        index += 1;
    }
    assert(rest.take(part@.len() as int) =~= part@);
    true
}

/// Whether the text begins with the prefix.
pub fn starts_with(text: &str, prefix: &str) -> (found: bool)
    ensures
        found == begins(text@, prefix@),
{
    let chars = chars_of(text);
    assert(chars@.skip(0) =~= chars@);
    matches_at(&chars, &chars_of(prefix), 0)
}

/// Whether the text ends with the suffix.
pub fn ends_with(text: &str, suffix: &str) -> (found: bool)
    ensures
        found == ends(text@, suffix@),
{
    let chars = chars_of(text);
    let part = chars_of(suffix);
    if part.len() > chars.len() {
        return false;
    }
    let from: usize = chars.len() - part.len();
    assert(chars@.skip(from as int).take(part@.len() as int) =~= chars@.skip(from as int));
    matches_at(&chars, &part, from)
}

/// Whether the text holds the part.
pub fn contains(text: &str, part: &str) -> (found: bool)
    ensures
        found == holds(text@, part@),
{
    let chars = chars_of(text);
    let wanted = chars_of(part);
    let mut from: usize = 0;
    while from < chars.len()
        invariant
            from <= chars@.len(),
            chars@ == text@,
            wanted@ == part@,
            forall|i: int| 0 <= i < from ==> !begins(#[trigger] text@.skip(i), part@),
        decreases chars@.len() - from,
    {
        if matches_at(&chars, &wanted, from) {
            return true;
        }
        from += 1;
    }
    matches_at(&chars, &wanted, from)
}

/// What follows the prefix, where the text begins with it.
pub open spec fn after_prefix(s: Seq<char>, prefix: Seq<char>) -> Option<Seq<char>> {
    if begins(s, prefix) {
        Some(s.skip(prefix.len() as int))
    } else {
        None
    }
}

/// What a text that may be missing holds.
pub open spec fn string_view(text: Option<String>) -> Option<Seq<char>> {
    match text {
        Some(text) => Some(text@),
        None => None,
    }
}

/// What follows the prefix, where the text begins with it.
pub fn strip_prefix(text: &str, prefix: &str) -> (rest: Option<String>)
    ensures
        string_view(rest) == after_prefix(text@, prefix@),
{
    let chars = chars_of(text);
    let part = chars_of(prefix);
    assert(chars@.skip(0) =~= chars@);
    if matches_at(&chars, &part, 0) {
        Some(text_of(vstd::slice::slice_subrange(chars.as_slice(), part.len(), chars.len())))
    } else {
        None
    }
}

/// What the texts of a list hold.
pub open spec fn texts(list: Seq<String>) -> Seq<Seq<char>> {
    Seq::new(list.len(), |i: int| list[i]@)
}

/// The pieces of a text between separators, where the first piece begins with
/// what was read before.
pub open spec fn pieces_after(
    s: Seq<char>,
    separators: Seq<char>,
    before: Seq<char>,
) -> Seq<Seq<char>>
    decreases s.len(),
{
    if s.len() == 0 {
        seq![before]
    } else if separators.contains(s[0]) {
        seq![before] + pieces_after(s.drop_first(), separators, seq![])
    } else {
        pieces_after(s.drop_first(), separators, before.push(s[0]))
    }
}

/// The pieces of a text between separators.
pub open spec fn pieces(s: Seq<char>, separators: Seq<char>) -> Seq<Seq<char>> {
    pieces_after(s, separators, seq![])
}

fn is_one_of(c: char, set: &[char]) -> (found: bool)
    ensures
        found == set@.contains(c),
{
    let mut index: usize = 0;
    while index < set.len()
        invariant
            index <= set@.len(),
            forall|i: int| 0 <= i < index ==> set@[i] != c,
        decreases set@.len() - index,
    {
        if set[index] == c {
            return true;
        }
        index += 1;
    }
    false
}

/// The pieces of a text between separators.
pub fn split(text: &str, separators: &[char]) -> (list: Vec<String>)
    ensures
        texts(list@) == pieces(text@, separators@),
{
    let chars = chars_of(text);
    let mut list: Vec<String> = Vec::new();
    let mut current = String::new();
    let mut index: usize = 0;
    assert(chars@.skip(0) =~= chars@);
    assert(texts(list@) + pieces_after(text@, separators@, seq![]) =~= pieces(
        text@,
        separators@,
    ));
    while index < chars.len()
        invariant
            index <= chars@.len(),
            chars@ == text@,
            texts(list@) + pieces_after(chars@.skip(index as int), separators@, current@) == pieces(
                text@,
                separators@,
            ),
        decreases chars@.len() - index,
    {
        let ghost rest = chars@.skip(index as int);
        assert(rest.drop_first() =~= chars@.skip(index + 1));
        let ghost done = texts(list@);
        if is_one_of(chars[index], separators) {
            let ghost piece = current@;
            list.push(current);
            current = String::new();
            assert(texts(list@) =~= done.push(piece));
            assert(done + (seq![piece] + pieces_after(rest.drop_first(), separators@, seq![]))
                =~= done.push(piece) + pieces_after(rest.drop_first(), separators@, seq![]));
        } else {
            current.push(chars[index]);
        }
        index += 1;
    }
    let ghost done = texts(list@);
    let ghost piece = current@;
    list.push(current);
    assert(texts(list@) =~= done + seq![piece]);
    list
}

/// Texts in a row, with a separator between each two.
pub open spec fn joined(parts: Seq<Seq<char>>, separator: Seq<char>) -> Seq<char>
    decreases parts.len(),
{
    if parts.len() == 0 {
        seq![]
    } else if parts.len() == 1 {
        parts[0]
    } else {
        joined(parts.drop_last(), separator) + separator + parts.last()
    }
}

/// Texts in a row, with a separator between each two.
pub fn join(parts: &Vec<String>, separator: &str) -> (result: String)
    ensures
        result@ == joined(texts(parts@), separator@),
{
    let mut result = String::new();
    let mut index: usize = 0;
    while index < parts.len()
        invariant
            index <= parts@.len(),
            result@ == joined(texts(parts@).take(index as int), separator@),
        decreases parts@.len() - index,
    {
        let ghost all = texts(parts@);
        assert(all.take(index + 1).drop_last() =~= all.take(index as int));
        assert(all.take(index + 1).last() == parts@[index as int]@);
        if index > 0 {
            result.append(separator);
        } else {
            assert(seq![] + parts@[0]@ =~= parts@[0]@);
        }
        result.append(&parts[index]);
        index += 1;
    }
    assert(texts(parts@).take(index as int) =~= texts(parts@));
    result
}

/// The first scalar values of a text, at most so many.
pub open spec fn cut(s: Seq<char>, limit: int) -> Seq<char> {
    if s.len() <= limit {
        s
    } else {
        s.take(limit)
    }
}

/// The first scalar values of a text, at most so many.
pub fn cut_to(text: &str, limit: usize) -> (result: String)
    ensures
        result@ == cut(text@, limit as int),
{
    let chars = chars_of(text);
    if chars.len() <= limit {
        text.to_owned()
    } else {
        text_of(vstd::slice::slice_subrange(chars.as_slice(), 0, limit))
    }
}

/// Where a scalar value first occurs.
pub open spec fn position(s: Seq<char>, c: char) -> int
    decreases s.len(),
{
    if s.len() == 0 || s[0] == c {
        0
    } else {
        1 + position(s.drop_first(), c)
    }
}

/// The text before and after the first occurrence of a scalar value.
pub open spec fn parted(s: Seq<char>, c: char) -> Option<(Seq<char>, Seq<char>)> {
    if position(s, c) < s.len() {
        Some((s.take(position(s, c)), s.skip(position(s, c) + 1)))
    } else {
        None
    }
}

/// What a pair of texts that may be missing holds.
pub open spec fn pair_view(pair: Option<(String, String)>) -> Option<(Seq<char>, Seq<char>)> {
    match pair {
        Some(pair) => Some((pair.0@, pair.1@)),
        None => None,
    }
}

/// The text before and after the first occurrence of a scalar value.
pub fn split_once(text: &str, c: char) -> (pair: Option<(String, String)>)
    ensures
        pair_view(pair) == parted(text@, c),
{
    let chars = chars_of(text);
    let mut index: usize = 0;
    assert(chars@.skip(0) =~= chars@);
    while index < chars.len()
        invariant
            index <= chars@.len(),
            chars@ == text@,
            position(text@, c) == index + position(chars@.skip(index as int), c),
        decreases chars@.len() - index,
    {
        assert(chars@.skip(index as int)[0] == chars@[index as int]);
        assert(chars@.skip(index as int).drop_first() =~= chars@.skip(index + 1));
        if chars[index] == c {
            let head = text_of(vstd::slice::slice_subrange(chars.as_slice(), 0, index));
            let tail = text_of(
                vstd::slice::slice_subrange(chars.as_slice(), index + 1, chars.len()),
            );
            return Some((head, tail));
        }
        index += 1;
    }
    None
}

/// A digit of a numeral.
pub open spec fn digit(value: nat) -> char {
    if value < 10 {
        (48 + value) as char
    } else {
        (87 + value) as char
    }
}

/// The digits of a number in a base up to 16, without leading zeros.
pub open spec fn numeral(value: nat, base: nat) -> Seq<char>
    decreases value,
    when base >= 2
{
    if value < base {
        seq![digit(value)]
    } else {
        proof {
            assert(value / base < value) by (nonlinear_arith)
                requires
                    value >= base,
                    base >= 2,
            ;
        }
        numeral(value / base, base).push(digit(value % base))
    }
}

fn digit_of(value: u128) -> (c: char)
    requires
        value < 16,
    ensures
        c == digit(value as nat),
{
    if value < 10 {
        (48 + value as u8) as char
    } else {
        (87 + value as u8) as char
    }
}

fn push_numeral(text: &mut String, value: u128, base: u128)
    requires
        2 <= base <= 16,
    ensures
        final(text)@ == old(text)@ + numeral(value as nat, base as nat),
    decreases value,
{
    if value < base {
        text.push(digit_of(value));
    } else {
        assert(value / base < value) by (nonlinear_arith)
            requires
                value >= base,
                base >= 2,
        ;
        push_numeral(text, value / base, base);
        text.push(digit_of(value % base));
    }
}

/// A number in decimal digits.
pub fn decimal(value: u64) -> (text: String)
    ensures
        text@ == numeral(value as nat, 10),
{
    let mut text = String::new();
    push_numeral(&mut text, value as u128, 10);
    assert(Seq::<char>::empty() + numeral(value as nat, 10) =~= numeral(value as nat, 10));
    text
}

/// A number in lower-case hexadecimal digits.
pub fn hexadecimal(value: u128) -> (text: String)
    ensures
        text@ == numeral(value as nat, 16),
{
    let mut text = String::new();
    push_numeral(&mut text, value, 16);
    assert(Seq::<char>::empty() + numeral(value as nat, 16) =~= numeral(value as nat, 16));
    text
}

/// Two texts in a row.
pub fn concat2(first: &str, second: &str) -> (text: String)
    ensures
        text@ == first@ + second@,
{
    let mut text = first.to_owned();
    text.append(second);
    text
}

/// Three texts in a row.
pub fn concat3(first: &str, second: &str, third: &str) -> (text: String)
    ensures
        text@ == first@ + second@ + third@,
{
    let mut text = concat2(first, second);
    text.append(third);
    text
}

/// How many bytes a text takes in UTF-8.
pub fn byte_len(text: &str) -> (bytes: usize)
    ensures
        bytes == encode_utf8(text@).len(),
{
    text.as_bytes().len()
}

/// UTF-8 encodes texts in a row one after the other.
pub proof fn lemma_encode_concat(first: Seq<char>, second: Seq<char>)
    ensures
        encode_utf8(first + second) == encode_utf8(first) + encode_utf8(second),
    decreases first.len(),
{
    if first.len() == 0 {
        assert(first + second =~= second);
        assert(encode_utf8(first) + encode_utf8(second) =~= encode_utf8(second));
    } else {
        assert((first + second).drop_first() =~= first.drop_first() + second);
        lemma_encode_concat(first.drop_first(), second);
        assert(encode_utf8(first + second) =~= encode_utf8(first) + encode_utf8(second));
    }
}

/// The words of a text between white space, where the first begins with what was
/// read before.
pub open spec fn words_after(s: Seq<char>, before: Seq<char>) -> Seq<Seq<char>>
    decreases s.len(),
{
    let word = if before.len() == 0 {
        Seq::<Seq<char>>::empty()
    } else {
        seq![before]
    };
    if s.len() == 0 {
        word
    } else if white_space(s[0]) {
        word + words_after(s.drop_first(), seq![])
    } else {
        words_after(s.drop_first(), before.push(s[0]))
    }
}

/// A text with one space wherever it has white space between words, and none at
/// its ends.
pub open spec fn spaced(s: Seq<char>) -> Seq<char> {
    joined(words_after(s, seq![]), " "@)
}

/// A text with one space wherever it has white space between words.
pub fn respaced(text: &str) -> (result: String)
    ensures
        result@ == spaced(text@),
{
    let chars = chars_of(text);
    let mut list: Vec<String> = Vec::new();
    let mut current = String::new();
    let mut index: usize = 0;
    assert(chars@.skip(0) =~= chars@);
    assert(texts(list@) + words_after(chars@, current@) =~= words_after(chars@, seq![])) by {
        assert(current@ =~= seq![]);
    }
    while index < chars.len()
        invariant
            index <= chars@.len(),
            texts(list@) + words_after(chars@.skip(index as int), current@) == words_after(
                chars@,
                seq![],
            ),
        decreases chars@.len() - index,
    {
        let ghost rest = chars@.skip(index as int);
        let ghost before = texts(list@);
        assert(rest[0] == chars@[index as int]);
        assert(rest.drop_first() =~= chars@.skip(index + 1));
        let c: char = chars[index];
        if is_white_space(c) {
            if current.as_str().is_empty() {
                assert(current@ =~= seq![]);
                assert(before + words_after(rest, current@) =~= before + words_after(
                    rest.drop_first(),
                    seq![],
                ));
            } else {
                let ghost word = current@;
                list.push(current);
                current = String::new();
                assert(current@ =~= seq![]);
                assert(texts(list@) =~= before + seq![word]);
                assert(before + words_after(rest, word) =~= texts(list@) + words_after(
                    rest.drop_first(),
                    current@,
                ));
            }
        } else {
            current.push(c);
        }
        index += 1;
    }
    let ghost before = texts(list@);
    let ghost word = current@;
    assert(chars@.skip(index as int) =~= seq![]);
    if !current.as_str().is_empty() {
        list.push(current);
        assert(texts(list@) =~= before + seq![word]);
    } else {
        assert(before + words_after(chars@.skip(index as int), word) =~= before);
    }
    join(&list, " ")
}

proof fn lemma_digits_differ(left: nat, right: nat)
    requires
        left < 16,
        right < 16,
        digit(left) == digit(right),
    ensures
        left == right,
{
}

/// A numeral holds digits only, and is never empty.
pub proof fn lemma_numeral_digits(value: nat, base: nat)
    requires
        2 <= base <= 16,
    ensures
        numeral(value, base).len() > 0,
        forall|i: int|
            0 <= i < numeral(value, base).len() ==> (#[trigger] numeral(value, base)[i]) != '-',
    decreases value,
{
    if value >= base {
        assert(value / base < value) by (nonlinear_arith)
            requires
                value >= base,
                base >= 2,
        ;
        lemma_numeral_digits(value / base, base);
        assert(value % base < base) by (nonlinear_arith)
            requires
                base >= 2,
        ;
    }
}

/// Two numbers with the same digits are equal.
pub proof fn lemma_numeral_is_unique(left: nat, right: nat, base: nat)
    requires
        2 <= base <= 16,
        numeral(left, base) == numeral(right, base),
    ensures
        left == right,
    decreases left,
{
    let a = numeral(left, base);
    let b = numeral(right, base);
    vstd::arithmetic::div_mod::lemma_fundamental_div_mod(left as int, base as int);
    vstd::arithmetic::div_mod::lemma_fundamental_div_mod(right as int, base as int);
    assert(left % base < base && right % base < base) by (nonlinear_arith)
        requires
            base >= 2,
    ;
    if left >= base && right >= base {
        assert(left / base < left) by (nonlinear_arith)
            requires
                left >= base,
                base >= 2,
        ;
        assert(a.drop_last() =~= numeral(left / base, base));
        assert(b.drop_last() =~= numeral(right / base, base));
        lemma_numeral_is_unique(left / base, right / base, base);
        assert(a.last() == digit(left % base));
        assert(b.last() == digit(right % base));
        lemma_digits_differ(left % base, right % base);
    } else if left < base && right < base {
        assert(a[0] == digit(left));
        assert(b[0] == digit(right));
        lemma_digits_differ(left, right);
    } else if left >= base {
        lemma_numeral_digits(left / base, base);
        assert(a.len() >= 2);
        assert(b.len() == 1);
    } else {
        lemma_numeral_digits(right / base, base);
        assert(b.len() >= 2);
        assert(a.len() == 1);
    }
}

/// A text with zeros in front up to a length.
pub open spec fn zero_padded(s: Seq<char>, length: int) -> Seq<char> {
    if s.len() < length {
        Seq::new((length - s.len()) as nat, |i: int| '0') + s
    } else {
        s
    }
}

/// A text with zeros in front up to a length.
pub fn pad_zeros(text: &str, length: usize) -> (result: String)
    ensures
        result@ == zero_padded(text@, length as int),
{
    let count: usize = chars_of(text).len();
    let mut result = String::new();
    let mut index: usize = count;
    while index < length
        invariant
            count <= index,
            index <= length || index == count,
            result@ == Seq::new((index - count) as nat, |i: int| '0'),
        decreases length - index,
    {
        let ghost before = result@;
        result.push('0');
        index += 1;
        assert(result@ =~= Seq::new((index - count) as nat, |i: int| '0'));
    }
    let ghost zeros = result@;
    result.append(text);
    assert(result@ =~= zero_padded(text@, length as int));
    result
}

/// The number in decimal digits, with a sign where it is negative.
pub open spec fn signed_numeral(value: i64) -> Seq<char> {
    if value < 0 {
        "-"@ + numeral((-value) as nat, 10)
    } else {
        numeral(value as nat, 10)
    }
}

/// A number in decimal digits, with a sign where it is negative.
pub fn signed_decimal(value: i64) -> (result: String)
    ensures
        result@ == signed_numeral(value),
{
    if value < 0 {
        let digits = decimal((-(value as i128)) as u64);
        concat2("-", digits.as_str())
    } else {
        decimal(value as u64)
    }
}

/// Whether a text is white space throughout.
pub open spec fn all_white(s: Seq<char>) -> bool {
    forall|i: int| 0 <= i < s.len() ==> white_space(#[trigger] s[i])
}

proof fn lemma_trim_start(s: Seq<char>) -> (front: Seq<char>)
    ensures
        all_white(front),
        s == front + trim_start(s),
        trim_start(s).len() > 0 ==> !white_space(trim_start(s)[0]),
    decreases s.len(),
{
    if s.len() > 0 && white_space(s[0]) {
        let rest = lemma_trim_start(s.drop_first());
        let front = seq![s[0]] + rest;
        assert(s =~= front + trim_start(s)) by {
            assert(s =~= seq![s[0]] + s.drop_first());
        }
        front
    } else {
        assert(s =~= Seq::<char>::empty() + s);
        Seq::empty()
    }
}

proof fn lemma_trim_end(s: Seq<char>) -> (back: Seq<char>)
    ensures
        all_white(back),
        s == trim_end(s) + back,
        trim_end(s).len() > 0 ==> !white_space(trim_end(s).last()) && trim_end(s)[0] == s[0],
    decreases s.len(),
{
    if s.len() > 0 && white_space(s.last()) {
        let rest = lemma_trim_end(s.drop_last());
        let back = rest.push(s.last());
        assert(s =~= trim_end(s) + back) by {
            assert(s =~= s.drop_last().push(s.last()));
        }
        back
    } else {
        assert(s =~= s + Seq::<char>::empty());
        Seq::empty()
    }
}

/// Only white space is taken off the ends of a text, and all of it: what is left
/// neither begins nor ends with any, and nothing between is lost.
pub proof fn law_trimming_takes_only_white_space(s: Seq<char>)
    ensures
        exists|front: Seq<char>, back: Seq<char>|
            #![trigger all_white(front), all_white(back)]
            all_white(front) && all_white(back) && s == front + trim(s) + back,
        trim(s).len() > 0 ==> !white_space(trim(s)[0]) && !white_space(trim(s).last()),
{
    let front = lemma_trim_start(s);
    let back = lemma_trim_end(trim_start(s));
    assert(s =~= front + trim(s) + back);
    assert(all_white(front) && all_white(back));
}

/// A text in lower case is as long as the text, and differs from it in ASCII
/// capitals only; it holds none of those.
pub proof fn law_lower_case_changes_capitals_only(s: Seq<char>, i: int)
    requires
        0 <= i < s.len(),
    ensures
        lower(s).len() == s.len(),
        !('A' <= lower(s)[i] && lower(s)[i] <= 'Z'),
        !('A' <= s[i] && s[i] <= 'Z') ==> lower(s)[i] == s[i],
        'A' <= s[i] && s[i] <= 'Z' ==> lower(s)[i] as u32 == s[i] as u32 + 32,
{
}

/// A text that is cut keeps what stands in front, and loses nothing where it is
/// short enough.
pub proof fn law_cutting_keeps_the_front(s: Seq<char>, limit: int)
    requires
        0 <= limit,
    ensures
        cut(s, limit).len() <= limit,
        begins(s, cut(s, limit)),
        s.len() <= limit ==> cut(s, limit) == s,
        s.len() > limit ==> cut(s, limit).len() == limit,
{
    assert(s.take(s.len() as int) =~= s);
}

/// A text is parted at the first place where a scalar value stands.
pub proof fn law_texts_are_parted_at_the_first_place(s: Seq<char>, c: char, place: int)
    requires
        0 <= place < s.len(),
        s[place] == c,
        forall|i: int| 0 <= i < place ==> (#[trigger] s[i]) != c,
    ensures
        parted(s, c) == Some((s.take(place), s.skip(place + 1))),
{
    lemma_position_at(s, c, place);
}

proof fn lemma_position_at(s: Seq<char>, c: char, place: int)
    requires
        0 <= place < s.len(),
        s[place] == c,
        forall|i: int| 0 <= i < place ==> (#[trigger] s[i]) != c,
    ensures
        position(s, c) == place,
    decreases place,
{
    if place > 0 {
        let rest = s.drop_first();
        assert(rest[place - 1] == s[place]);
        assert forall|i: int| 0 <= i < place - 1 implies (#[trigger] rest[i]) != c by {
            assert(rest[i] == s[i + 1]);
        }
        lemma_position_at(rest, c, place - 1);
    }
}

/// A text that does not hold a scalar value is not parted by it.
pub proof fn law_texts_without_a_mark_are_not_parted(s: Seq<char>, c: char)
    requires
        forall|i: int| 0 <= i < s.len() ==> (#[trigger] s[i]) != c,
    ensures
        parted(s, c) is None,
    decreases s.len(),
{
    if s.len() > 0 {
        let rest = s.drop_first();
        assert forall|i: int| 0 <= i < rest.len() implies (#[trigger] rest[i]) != c by {
            assert(rest[i] == s[i + 1]);
        }
        law_texts_without_a_mark_are_not_parted(rest, c);
    }
}

/// What stands in a text besides white space.
pub open spec fn dark_part(s: Seq<char>) -> Seq<char>
    decreases s.len(),
{
    if s.len() == 0 {
        seq![]
    } else if white_space(s.last()) {
        dark_part(s.drop_last())
    } else {
        dark_part(s.drop_last()).push(s.last())
    }
}

proof fn lemma_dark_together(first: Seq<char>, second: Seq<char>)
    ensures
        dark_part(first + second) == dark_part(first) + dark_part(second),
    decreases second.len(),
{
    if second.len() == 0 {
        assert(first + second =~= first);
        assert(dark_part(first) + dark_part(second) =~= dark_part(first));
    } else {
        assert((first + second).drop_last() =~= first + second.drop_last());
        lemma_dark_together(first, second.drop_last());
        assert(dark_part(first) + dark_part(second.drop_last()).push(second.last()) =~= (dark_part(
            first,
        ) + dark_part(second.drop_last())).push(second.last()));
    }
}

/// The words of a text put together.
pub open spec fn run_together(words: Seq<Seq<char>>) -> Seq<char>
    decreases words.len(),
{
    if words.len() == 0 {
        seq![]
    } else {
        run_together(words.drop_last()) + words.last()
    }
}

proof fn lemma_run_on(first: Seq<Seq<char>>, second: Seq<Seq<char>>)
    ensures
        run_together(first + second) == run_together(first) + run_together(second),
    decreases second.len(),
{
    if second.len() == 0 {
        assert(first + second =~= first);
        assert(run_together(first) + run_together(second) =~= run_together(first));
    } else {
        assert((first + second).drop_last() =~= first + second.drop_last());
        lemma_run_on(first, second.drop_last());
        assert(run_together(first) + run_together(second.drop_last()) + second.last()
            =~= run_together(first) + run_together(second));
    }
}

proof fn lemma_words(s: Seq<char>, before: Seq<char>)
    requires
        forall|i: int| 0 <= i < before.len() ==> !white_space(#[trigger] before[i]),
    ensures
        run_together(words_after(s, before)) == before + dark_part(s),
        forall|w: int, i: int|
            #![trigger words_after(s, before)[w][i]]
            0 <= w < words_after(s, before).len() && 0 <= i < words_after(s, before)[w].len()
                ==> !white_space(words_after(s, before)[w][i]),
        forall|w: int|
            0 <= w < words_after(s, before).len() ==> (#[trigger] words_after(s, before)[w]).len()
                > 0,
    decreases s.len(),
{
    let word = if before.len() == 0 {
        Seq::<Seq<char>>::empty()
    } else {
        seq![before]
    };
    assert(run_together(word) =~= before) by {
        if before.len() > 0 {
            assert(word.drop_last() =~= Seq::<Seq<char>>::empty());
            assert(run_together(word.drop_last()) =~= Seq::<char>::empty());
        }
    }
    if s.len() == 0 {
        assert(before + dark_part(s) =~= before);
    } else {
        let rest = s.drop_first();
        assert(s =~= seq![s[0]] + rest);
        lemma_dark_together(seq![s[0]], rest);
        let first = seq![s[0]];
        assert(first.drop_last() =~= Seq::<char>::empty());
        assert(dark_part(first.drop_last()) =~= Seq::<char>::empty());
        if white_space(s[0]) {
            lemma_words(rest, seq![]);
            let later = words_after(rest, seq![]);
            lemma_run_on(word, later);
            assert(dark_part(first) =~= Seq::<char>::empty());
            assert(before + dark_part(s) =~= before + (Seq::<char>::empty() + dark_part(rest)));
            let all = words_after(s, before);
            assert(all == word + later);
            assert forall|w: int, i: int|
                #![trigger all[w][i]]
                0 <= w < all.len() && 0 <= i < all[w].len() implies !white_space(all[w][i]) by {
                if w < word.len() {
                    assert(all[w] == before);
                } else {
                    assert(all[w] == later[w - word.len()]);
                    assert(!white_space(later[w - word.len()][i]));
                }
            }
            assert forall|w: int| 0 <= w < all.len() implies (#[trigger] all[w]).len() > 0 by {
                if w >= word.len() {
                    assert(all[w] == later[w - word.len()]);
                }
            }
        } else {
            lemma_words(rest, before.push(s[0]));
            assert(dark_part(first) =~= seq![s[0]]);
            assert(before.push(s[0]) + dark_part(rest) =~= before + (seq![s[0]] + dark_part(rest)));
        }
    }
}

proof fn lemma_joined_dark(words: Seq<Seq<char>>)
    requires
        forall|w: int, i: int|
            #![trigger words[w][i]]
            0 <= w < words.len() && 0 <= i < words[w].len() ==> !white_space(words[w][i]),
    ensures
        dark_part(joined(words, " "@)) == run_together(words),
    decreases words.len(),
{
    reveal_strlit(" ");
    if words.len() == 1 {
        lemma_dark_throughout(words[0]);
        assert(words.drop_last() =~= Seq::<Seq<char>>::empty());
        assert(run_together(words.drop_last()) =~= Seq::<char>::empty());
        assert(run_together(words) =~= words[0]);
    } else if words.len() > 1 {
        let front = words.drop_last();
        assert forall|w: int, i: int|
            #![trigger front[w][i]]
            0 <= w < front.len() && 0 <= i < front[w].len() implies !white_space(front[w][i]) by {
            assert(!white_space(words[w][i]));
        }
        lemma_joined_dark(front);
        let last = words.last();
        assert forall|i: int| 0 <= i < last.len() implies !white_space(#[trigger] last[i]) by {
            assert(!white_space(words[words.len() - 1][i]));
        }
        lemma_dark_throughout(last);
        let space = " "@;
        assert(space.len() == 1 && space[0] == ' ');
        assert(white_space(space.last()));
        assert(space.drop_last() =~= Seq::<char>::empty());
        assert(dark_part(space.drop_last()) =~= Seq::<char>::empty());
        assert(dark_part(space) =~= Seq::<char>::empty());
        lemma_dark_together(joined(front, space) + space, last);
        lemma_dark_together(joined(front, space), space);
        assert(dark_part(joined(words, space)) =~= run_together(words));
    }
}

proof fn lemma_dark_throughout(s: Seq<char>)
    requires
        forall|i: int| 0 <= i < s.len() ==> !white_space(#[trigger] s[i]),
    ensures
        dark_part(s) == s,
    decreases s.len(),
{
    if s.len() > 0 {
        let front = s.drop_last();
        assert forall|i: int| 0 <= i < front.len() implies !white_space(#[trigger] front[i]) by {
            assert(front[i] == s[i]);
        }
        lemma_dark_throughout(front);
        assert(!white_space(s[s.len() - 1]));
        assert(front.push(s.last()) =~= s);
    } else {
        assert(dark_part(s) =~= s);
    }
}

/// A text on one line holds everything of the text but its white space, in the
/// same order.
pub proof fn law_one_line_keeps_every_word(s: Seq<char>)
    ensures
        dark_part(spaced(s)) == dark_part(s),
{
    let none = Seq::<char>::empty();
    lemma_words(s, none);
    lemma_joined_dark(words_after(s, none));
    assert(none + dark_part(s) =~= dark_part(s));
}

/// What digits of a base stand for.
pub open spec fn number_of(digits: Seq<char>, base: nat) -> int
    decreases digits.len(),
{
    if digits.len() == 0 {
        0
    } else {
        number_of(digits.drop_last(), base) * base + digit_value(digits.last())
    }
}

/// What a digit stands for.
pub open spec fn digit_value(c: char) -> int {
    if '0' <= c && c <= '9' {
        c as int - '0' as int
    } else {
        c as int - 'a' as int + 10
    }
}

/// The digits of a number stand for that number.
pub proof fn law_numerals_stand_for_their_number(value: nat, base: nat)
    requires
        2 <= base <= 16,
    ensures
        number_of(numeral(value, base), base) == value,
    decreases value,
{
    if value < base {
        let one = seq![digit(value)];
        assert(numeral(value, base) == one);
        assert(one.drop_last() =~= Seq::<char>::empty());
        assert(number_of(one.drop_last(), base) == 0);
        assert(0 * base == 0) by (nonlinear_arith);
    } else {
        assert(value / base < value) by (nonlinear_arith)
            requires
                value >= base,
                base >= 2,
        ;
        law_numerals_stand_for_their_number(value / base, base);
        let front = numeral(value / base, base);
        assert(front.push(digit(value % base)).drop_last() =~= front);
        vstd::arithmetic::div_mod::lemma_fundamental_div_mod(value as int, base as int);
        vstd::arithmetic::div_mod::lemma_mod_bound(value as int, base as int);
        assert((value / base) * base == base * (value / base)) by (nonlinear_arith);
    }
}

proof fn lemma_first_piece(
    first: Seq<char>,
    mark: char,
    rest: Seq<char>,
    separators: Seq<char>,
    before: Seq<char>,
)
    requires
        separators.contains(mark),
        forall|i: int| 0 <= i < first.len() ==> !separators.contains(#[trigger] first[i]),
    ensures
        pieces_after(first + seq![mark] + rest, separators, before) == seq![before + first]
            + pieces(rest, separators),
        pieces_after(first, separators, before) == seq![before + first],
    decreases first.len(),
{
    let all = first + seq![mark] + rest;
    if first.len() == 0 {
        assert(all[0] == mark);
        assert(all.drop_first() =~= rest);
        assert(before + first =~= before);
    } else {
        assert(all[0] == first[0]);
        assert(all.drop_first() =~= first.drop_first() + seq![mark] + rest);
        lemma_first_piece(first.drop_first(), mark, rest, separators, before.push(first[0]));
        assert(before.push(first[0]) + first.drop_first() =~= before + first);
    }
}

/// What stands in front of the first separator is the first piece of a text, and
/// the pieces of what stands behind follow; a text with no separator is one piece.
pub proof fn law_pieces_stand_between_separators(
    first: Seq<char>,
    mark: char,
    rest: Seq<char>,
    separators: Seq<char>,
)
    requires
        separators.contains(mark),
        forall|i: int| 0 <= i < first.len() ==> !separators.contains(#[trigger] first[i]),
    ensures
        pieces(first + seq![mark] + rest, separators) == seq![first] + pieces(rest, separators),
        pieces(first, separators) == seq![first],
{
    lemma_first_piece(first, mark, rest, separators, seq![]);
    assert(Seq::<char>::empty() + first =~= first);
}

} // verus!
