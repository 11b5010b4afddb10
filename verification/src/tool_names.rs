//! Names of tools that live in a namespace, flattened to one name of limited
//! length.
use crate::text::{
    byte_len, chars_of, concat2, concat3, digit, hexadecimal, lemma_encode_concat, numeral,
    pad_zeros, zero_padded,
};
use vstd::prelude::*;
use vstd::string::*;
use vstd::utf8::*;

verus! {

/// The most bytes that the name of a tool may take.
pub const CHAT_TOOL_NAME_MAX_LEN: usize = 64;

/// One step of the hash: a byte is mixed in, then the prime multiplied.
pub open spec fn hash_step(hash: u32, byte: u8) -> u32 {
    (hash ^ (byte as u32)).wrapping_mul(16777619)
}

/// The FNV-1a hash of a byte string.
pub open spec fn fnv(bytes: Seq<u8>) -> u32
    decreases bytes.len(),
{
    if bytes.len() == 0 {
        2166136261
    } else {
        hash_step(fnv(bytes.drop_last()), bytes.last())
    }
}

/// The FNV-1a hash of a text in UTF-8.
pub fn stable_short_hash(value: &str) -> (hash: u32)
    ensures
        hash == fnv(encode_utf8(value@)),
{
    let bytes = value.as_bytes();
    let mut hash: u32 = 2166136261;
    let mut index: usize = 0;
    while index < bytes.len()
        invariant
            index <= bytes@.len(),
            hash == fnv(bytes@.take(index as int)),
        decreases bytes@.len() - index,
    {
        assert(bytes@.take(index + 1).drop_last() =~= bytes@.take(index as int));
        hash = (hash ^ (bytes[index] as u32)).wrapping_mul(16777619);
        index += 1;
    }
    assert(bytes@.take(index as int) =~= bytes@);
    hash
}

/// How many bytes a scalar value takes in UTF-8.
pub open spec fn width(c: char) -> nat {
    encode_scalar(c as u32).len()
}

/// The longest beginning of a text that takes no more bytes than allowed.
pub open spec fn fitting(s: Seq<char>, allowed: int) -> Seq<char>
    decreases s.len(),
{
    if s.len() == 0 || width(s[0]) > allowed {
        seq![]
    } else {
        seq![s[0]] + fitting(s.drop_first(), allowed - width(s[0]))
    }
}

/// A number in hexadecimal with zeros in front, up to eight digits.
pub open spec fn padded_hex(value: nat) -> Seq<char> {
    zero_padded(numeral(value, 16), 8)
}

fn padded_hexadecimal(value: u32) -> (text: String)
    ensures
        text@ == padded_hex(value as nat),
{
    let digits = hexadecimal(value as u128);
    pad_zeros(digits.as_str(), 8)
}

/// The name of a tool in a namespace. One that is too long is cut, and a hash
/// of the whole name is put behind it.
pub open spec fn flat_name(namespace: Seq<char>, name: Seq<char>) -> Seq<char> {
    let full = namespace + "__"@ + name;
    if encode_utf8(full).len() <= CHAT_TOOL_NAME_MAX_LEN {
        full
    } else {
        let suffix = "__"@ + padded_hex(fnv(encode_utf8(full)) as nat);
        fitting(full, CHAT_TOOL_NAME_MAX_LEN - encode_utf8(suffix).len()) + suffix
    }
}

/// How many bytes a scalar value takes in UTF-8.
fn width_of(c: char) -> (bytes: usize)
    ensures
        bytes == width(c),
        1 <= bytes <= 4,
{
    broadcast use char_is_scalar;

    let code: u32 = c as u32;
    if code <= 0x7f {
        1
    } else if code <= 0x7ff {
        2
    } else if code <= 0xffff {
        3
    } else {
        4
    }
}

fn fitting_prefix(text: &str, allowed: usize) -> (prefix: String)
    ensures
        prefix@ == fitting(text@, allowed as int),
{
    let chars = chars_of(text);
    let mut prefix = String::new();
    let mut left: usize = allowed;
    let mut index: usize = 0;
    assert(chars@.skip(0) =~= chars@);
    assert(prefix@ + fitting(text@, allowed as int) =~= fitting(text@, allowed as int));
    while index < chars.len()
        invariant
            index <= chars@.len(),
            chars@ == text@,
            prefix@ + fitting(chars@.skip(index as int), left as int) == fitting(
                text@,
                allowed as int,
            ),
        decreases chars@.len() - index,
    {
        let ghost rest = chars@.skip(index as int);
        assert(rest[0] == chars@[index as int]);
        assert(rest.drop_first() =~= chars@.skip(index + 1));
        let bytes: usize = width_of(chars[index]);
        if bytes > left {
            assert(prefix@ + seq![] =~= prefix@);
            return prefix;
        }
        let ghost before = prefix@;
        prefix.push(chars[index]);
        assert(before + (seq![rest[0]] + fitting(rest.drop_first(), left - bytes)) =~= prefix@
            + fitting(rest.drop_first(), left - bytes));
        left -= bytes;
        index += 1;
    }
    assert(prefix@ + seq![] =~= prefix@);
    prefix
}

/// The digits of a hexadecimal numeral are ASCII.
proof fn lemma_hex_is_ascii(value: nat)
    ensures
        is_ascii_chars(numeral(value, 16)),
    decreases value,
{
    if value >= 16 {
        lemma_hex_is_ascii(value / 16);
    }
    assert forall|i: int| 0 <= i < numeral(value, 16).len() implies 0
        <= #[trigger] numeral(value, 16)[i] as nat <= 127 by {
        assert(0 <= digit(value % 16) as nat <= 127);
        if value >= 16 && i < numeral(value / 16, 16).len() {
            assert(numeral(value, 16)[i] == numeral(value / 16, 16)[i]);
        }
    }
}

/// The suffix of a shortened name takes ten bytes.
proof fn lemma_suffix_length(hash: u32)
    ensures
        encode_utf8("__"@ + padded_hex(hash as nat)).len() == 10,
{
    reveal_strlit("__");
    assert(numeral(hash as nat, 16).len() <= 8) by {
        reveal_with_fuel(numeral, 9);
    }
    lemma_hex_is_ascii(hash as nat);
    let suffix = "__"@ + padded_hex(hash as nat);
    assert forall|i: int| 0 <= i < suffix.len() implies 0 <= #[trigger] suffix[i] as nat <= 127 by {
        if i >= 2 && i - 2 >= 8 - numeral(hash as nat, 16).len() {
            let j = i - 2 - (8 - numeral(hash as nat, 16).len());
            assert(suffix[i] == numeral(hash as nat, 16)[j]);
        }
    }
    is_ascii_chars_encode_utf8(suffix);
}

/// The longest beginning that fits takes no more bytes than allowed.
proof fn lemma_fitting_fits(s: Seq<char>, allowed: int)
    requires
        allowed >= 0,
    ensures
        encode_utf8(fitting(s, allowed)).len() <= allowed,
    decreases s.len(),
{
    if s.len() > 0 && width(s[0]) <= allowed {
        let rest = fitting(s.drop_first(), allowed - width(s[0]));
        lemma_fitting_fits(s.drop_first(), allowed - width(s[0]));
        assert((seq![s[0]] + rest).drop_first() =~= rest);
        assert(encode_utf8(seq![s[0]] + rest) == encode_scalar(s[0] as u32) + encode_utf8(rest));
    }
}

/// A flattened name never takes more bytes than the name of a tool may take.
pub proof fn law_flat_names_are_short(namespace: Seq<char>, name: Seq<char>)
    ensures
        encode_utf8(flat_name(namespace, name)).len() <= CHAT_TOOL_NAME_MAX_LEN,
{
    let full = namespace + "__"@ + name;
    if encode_utf8(full).len() > CHAT_TOOL_NAME_MAX_LEN {
        let hash = fnv(encode_utf8(full));
        let suffix = "__"@ + padded_hex(hash as nat);
        lemma_suffix_length(hash);
        let allowed = CHAT_TOOL_NAME_MAX_LEN - encode_utf8(suffix).len();
        lemma_fitting_fits(full, allowed);
        lemma_encode_concat(fitting(full, allowed), suffix);
    }
}

/// The name of a tool in a namespace.
pub fn flatten_namespace_tool_name(namespace: &str, name: &str) -> (flat: String)
    ensures
        flat@ == flat_name(namespace@, name@),
{
    let full_name = concat3(namespace, "__", name);
    if byte_len(&full_name) <= CHAT_TOOL_NAME_MAX_LEN {
        return full_name;
    }
    let hash: u32 = stable_short_hash(&full_name);
    let suffix = concat2("__", &padded_hexadecimal(hash));
    proof {
        lemma_suffix_length(hash);
    }
    let allowed: usize = CHAT_TOOL_NAME_MAX_LEN - byte_len(&suffix);
    let prefix = fitting_prefix(&full_name, allowed);
    concat2(&prefix, &suffix)
}

/// A name that is not too long is kept whole: the namespace, two underscores and
/// the name. So functions of one namespace keep different names.
pub proof fn law_short_names_are_kept_whole(namespace: Seq<char>, name: Seq<char>, other: Seq<char>)
    requires
        encode_utf8(namespace + "__"@ + name).len() <= 64,
        encode_utf8(namespace + "__"@ + other).len() <= 64,
    ensures
        flat_name(namespace, name) == namespace + "__"@ + name,
        name != other ==> flat_name(namespace, name) != flat_name(namespace, other),
{
    reveal_strlit("__");
    let one = namespace + "__"@ + name;
    let two = namespace + "__"@ + other;
    if one == two {
        assert(one.skip(namespace.len() as int + 2) =~= name);
        assert(two.skip(namespace.len() as int + 2) =~= other);
    }
}

} // verus!
