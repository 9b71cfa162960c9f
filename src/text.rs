//! Reading numbers and names from argument text, and writing error messages.
use crate::cache::ReplacementPolicy;
use vstd::prelude::*;
use vstd::string::{StrSliceExecFns, StringExecFns};

verus! {

/// `c` is an ASCII decimal digit.
pub open spec fn is_digit(c: char) -> bool {
    '0' <= c <= '9'
}

/// The number that the decimal digits `s` spell.
pub open spec fn digits_value(s: Seq<char>) -> nat
    decreases s.len(),
{
    if s.len() == 0 {
        0
    } else {
        digits_value(s.drop_last()) * 10 + (s.last() as int - 48) as nat
    }
}

/// `s` without one leading `+`.
pub open spec fn unsigned_digits(s: Seq<char>) -> Seq<char> {
    if s.len() > 0 && s[0] == '+' {
        s.drop_first()
    } else {
        s
    }
}

/// `s` is an optional `+` followed by one or more decimal digits, whose value
/// is at most `max`.
pub open spec fn parses_within(s: Seq<char>, max: nat) -> bool {
    &&& unsigned_digits(s).len() > 0
    &&& forall|i: int| 0 <= i < unsigned_digits(s).len() ==> is_digit(#[trigger] unsigned_digits(s)[i])
    &&& digits_value(unsigned_digits(s)) <= max
}

/// The number that `s` spells, when `parses_within` holds.
pub open spec fn unsigned_value(s: Seq<char>) -> nat {
    digits_value(unsigned_digits(s))
}

/// Relies on `str::parse::<usize>`: `Ok` exactly for an optional `+` and one
/// or more ASCII digits whose value fits, with that value.
#[verifier::external_body]
pub(crate) fn parse_usize(s: &str) -> (r: Option<usize>)
    ensures
        r is Some <==> parses_within(s@, usize::MAX as nat),
        r matches Some(v) ==> v == unsigned_value(s@),
{
    s.parse::<usize>().ok()
}

/// Relies on `str::parse::<u64>`: `Ok` exactly for an optional `+` and one or
/// more ASCII digits whose value fits, with that value.
#[verifier::external_body]
pub(crate) fn parse_u64(s: &str) -> (r: Option<u64>)
    ensures
        r is Some <==> parses_within(s@, u64::MAX as nat),
        r matches Some(v) ==> v == unsigned_value(s@),
{
    s.parse::<u64>().ok()
}

/// Relies on `str::parse::<u8>`: `Ok` exactly for an optional `+` and one or
/// more ASCII digits whose value fits, with that value.
#[verifier::external_body]
pub(crate) fn parse_u8(s: &str) -> (r: Option<u8>)
    ensures
        r is Some <==> parses_within(s@, u8::MAX as nat),
        r matches Some(v) ==> v == unsigned_value(s@),
{
    s.parse::<u8>().ok()
}

/// `c` with an ASCII capital letter turned into its small letter.
pub open spec fn ascii_lower(c: char) -> char {
    if 'A' <= c <= 'Z' {
        ((c as u32) + 32) as char
    } else {
        c
    }
}

/// `s` with ASCII letters in small case.
pub open spec fn lowered(s: Seq<char>) -> Seq<char> {
    s.map_values(|c: char| ascii_lower(c))
}

/// The policy that `name` names, in any ASCII case: `l` or `lru`, `f` or
/// `fifo`, `r` or `random`.
pub open spec fn policy_named(name: Seq<char>) -> Option<ReplacementPolicy> {
    let l = lowered(name);
    if l == seq!['l'] || l == seq!['l', 'r', 'u'] {
        Some(ReplacementPolicy::Lru)
    } else if l == seq!['f'] || l == seq!['f', 'i', 'f', 'o'] {
        Some(ReplacementPolicy::Fifo)
    } else if l == seq!['r'] || l == seq!['r', 'a', 'n', 'd', 'o', 'm'] {
        Some(ReplacementPolicy::Random)
    } else {
        None
    }
}

/// Whether `c` is the small letter `small` in either case.
fn same_letter(c: char, small: char) -> (r: bool)
    requires
        'a' <= small <= 'z',
    ensures
        r == (ascii_lower(c) == small),
{
    c == small || (c as u32) + 32 == small as u32
}

/// Whether `s`, in small case, is `word`.
fn is_word(s: &str, word: &Vec<char>) -> (r: bool)
    requires
        forall|i: int| 0 <= i < word@.len() ==> 'a' <= #[trigger] word@[i] <= 'z',
    ensures
        r == (lowered(s@) == word@),
{
    let n = s.unicode_len();
    if n != word.len() {
        return false;
    }
    let mut i: usize = 0;
    while i < n
        invariant
            n == s@.len(),
            n == word@.len(),
            i <= n,
            forall|j: int| 0 <= j < word@.len() ==> 'a' <= #[trigger] word@[j] <= 'z',
            forall|j: int| 0 <= j < i ==> ascii_lower(s@[j]) == word@[j],
        decreases n - i,
    {
        if !same_letter(s.get_char(i), word[i]) {
            assert(lowered(s@)[i as int] != word@[i as int]);
            return false;
        }
        i = i + 1;
    }
    assert(lowered(s@) =~= word@);
    true
}

/// The policy that `name` names, if any.
pub fn policy_from_name(name: &str) -> (r: Option<ReplacementPolicy>)
    ensures
        r == policy_named(name@),
{
    let l = vec!['l'];
    let lru = vec!['l', 'r', 'u'];
    let f = vec!['f'];
    let fifo = vec!['f', 'i', 'f', 'o'];
    let rr = vec!['r'];
    let random = vec!['r', 'a', 'n', 'd', 'o', 'm'];
    assert(l@ =~= seq!['l']);
    assert(lru@ =~= seq!['l', 'r', 'u']);
    assert(f@ =~= seq!['f']);
    assert(fifo@ =~= seq!['f', 'i', 'f', 'o']);
    assert(rr@ =~= seq!['r']);
    assert(random@ =~= seq!['r', 'a', 'n', 'd', 'o', 'm']);
    if is_word(name, &l) || is_word(name, &lru) {
        Some(ReplacementPolicy::Lru)
    } else if is_word(name, &f) || is_word(name, &fifo) {
        Some(ReplacementPolicy::Fifo)
    } else if is_word(name, &rr) || is_word(name, &random) {
        Some(ReplacementPolicy::Random)
    } else {
        None
    }
}

/// The message for an argument `value` of field `field_name` that is not a
/// `expected_type`.
pub open spec fn conversion_text(field_name: Seq<char>, value: Seq<char>, expected_type: Seq<char>) -> Seq<char> {
    "Malformed argument <"@ + field_name + ">: cannot convert '"@ + value + "' into "@ + expected_type
}

/// The message for an argument `value` of field `field_name`, given as it
/// was written, whose number is not a power of two.
pub open spec fn power_of_two_text(field_name: Seq<char>, value: Seq<char>) -> Seq<char> {
    "Malformed argument <"@ + field_name + ">: '"@ + value + "' is not a power of 2"@
}

/// The message for a field whose text does not convert into `expected_type`.
pub fn conversion_error(field_name: &str, value: &str, expected_type: &str) -> (r: String)
    ensures
        r@ == conversion_text(field_name@, value@, expected_type@),
{
    let mut r = String::from_str("Malformed argument <");
    r.append(field_name);
    r.append(">: cannot convert '");
    r.append(value);
    r.append("' into ");
    r.append(expected_type);
    r
}

/// The message for a field whose value, written as `value`, is not a power
/// of two.
pub fn power_of_two_error(field_name: &str, value: &str) -> (r: String)
    ensures
        r@ == power_of_two_text(field_name@, value@),
{
    let mut r = String::from_str("Malformed argument <");
    r.append(field_name);
    r.append(">: '");
    r.append(value);
    r.append("' is not a power of 2");
    r
}

} // verus!
