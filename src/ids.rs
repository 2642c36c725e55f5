//! Session ids: a random UUID followed by a registry-wide serial number.
use vstd::prelude::*;

verus! {

/// The decimal digit character for `d < 10`.
pub open spec fn digit_char(d: nat) -> char {
    ((d + 48) as u8) as char
}

/// The value of one decimal digit character.
pub open spec fn char_value(c: char) -> nat {
    if '0' <= c && c <= '9' {
        (c as u32 - 48) as nat
    } else {
        0
    }
}

/// The decimal representation of `n`, without leading zeros.
pub open spec fn decimal(n: nat) -> Seq<char>
    decreases n,
{
    if n < 10 {
        seq![digit_char(n)]
    } else {
        decimal(n / 10).push(digit_char(n % 10))
    }
}

/// The number that a string of decimal digits denotes.
pub open spec fn digits_value(s: Seq<char>) -> nat
    decreases s.len(),
{
    if s.len() == 0 {
        0
    } else {
        digits_value(s.drop_last()) * 10 + char_value(s.last())
    }
}

proof fn lemma_digit_value(d: nat)
    requires
        d < 10,
    ensures
        char_value(digit_char(d)) == d,
{
    let c = digit_char(d);
    assert(c as u32 == d + 48);
}

pub proof fn lemma_decimal_value(n: nat)
    ensures
        digits_value(decimal(n)) == n,
    decreases n,
{
    lemma_digit_value(n % 10);
    if n < 10 {
        assert(n % 10 == n);
        assert(decimal(n).drop_last() =~= Seq::<char>::empty());
        assert(digits_value(Seq::<char>::empty()) == 0);
        assert(decimal(n).last() == digit_char(n));
    } else {
        lemma_decimal_value(n / 10);
        assert(decimal(n).drop_last() =~= decimal(n / 10));
        assert(decimal(n).last() == digit_char(n % 10));
        assert(n == (n / 10) * 10 + n % 10);
        assert(digits_value(decimal(n)) == digits_value(decimal(n / 10)) * 10 + char_value(
            digit_char(n % 10),
        ));
    }
}

/// Distinct numbers have distinct decimal representations.
pub proof fn lemma_decimal_injective(a: nat, b: nat)
    ensures
        decimal(a) == decimal(b) ==> a == b,
{
    lemma_decimal_value(a);
    lemma_decimal_value(b);
}

/// The length of the textual form of a UUID in hyphenated form.
pub const UUID_TEXT_LEN: usize = 36;

/// True when `c` is a lowercase hexadecimal digit.
pub open spec fn is_lower_hex(c: char) -> bool {
    ('0' <= c && c <= '9') || ('a' <= c && c <= 'f')
}

/// True when `s` has the hyphenated shape `xxxxxxxx-xxxx-xxxx-xxxx-xxxxxxxxxxxx`
/// with lowercase hexadecimal digits.
pub open spec fn is_hyphenated_uuid(s: Seq<char>) -> bool {
    &&& s.len() == UUID_TEXT_LEN
    &&& forall|i: int|
        0 <= i < s.len() ==> if i == 8 || i == 13 || i == 18 || i == 23 {
            s[i] == '-'
        } else {
            is_lower_hex(#[trigger] s[i])
        }
}

/// The part of a session id after the UUID and its separating hyphen.
pub open spec fn id_serial_part(id: Seq<char>) -> Seq<char> {
    id.subrange(UUID_TEXT_LEN as int + 1, id.len() as int)
}

/// True when `id` is a session id carrying serial number `serial`.
pub open spec fn id_has_serial(id: Seq<char>, serial: nat) -> bool {
    &&& id.len() > UUID_TEXT_LEN + 1
    &&& id_serial_part(id) == decimal(serial)
}

/// Ids that carry different serial numbers are different.
pub proof fn lemma_ids_distinct(a: Seq<char>, sa: nat, b: Seq<char>, sb: nat)
    requires
        id_has_serial(a, sa),
        id_has_serial(b, sb),
        sa != sb,
    ensures
        a != b,
{
    lemma_decimal_injective(sa, sb);
}

/// Relies on uuid's `Uuid::new_v4` for a random UUID and on its `Display`
/// impl, which writes the hyphenated lowercase form.
#[verifier::external_body]
fn random_uuid_text() -> (r: String)
    ensures
        is_hyphenated_uuid(r@),
{
    uuid::Uuid::new_v4().to_string()
}

/// Relies on the `Display` impl of `u64` (through `to_string`), which writes
/// the number in decimal without leading zeros.
#[verifier::external_body]
fn decimal_text(n: u64) -> (r: String)
    ensures
        r@ == decimal(n as nat),
{
    n.to_string()
}

/// A fresh session id for serial number `serial`: a random UUID, a hyphen and
/// the serial number in decimal.
pub fn session_id(serial: u64) -> (r: String)
    ensures
        id_has_serial(r@, serial as nat),
        is_hyphenated_uuid(r@.subrange(0, UUID_TEXT_LEN as int)),
        r@[UUID_TEXT_LEN as int] == '-',
{
    let uuid = random_uuid_text();
    let digits = decimal_text(serial);
    let with_dash = uuid.concat("-");
    proof {
        reveal_strlit("-");
    }
    let id = with_dash.concat(digits.as_str());
    assert(id@.subrange(0, UUID_TEXT_LEN as int) =~= uuid@);
    assert(id_serial_part(id@) =~= digits@);
    id
}

} // verus!
