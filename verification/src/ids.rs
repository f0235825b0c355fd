//! Ids of entities and events: the numbers of UUIDs, and their text form.
use vstd::arithmetic::power::*;
use vstd::prelude::*;

verus! {

/// The character of a hexadecimal digit, in lower case.
pub open spec fn lower_hex(d: int) -> char {
    if d < 10 {
        (0x30 + d) as char
    } else {
        (0x61 + d - 10) as char
    }
}

/// The 32 hexadecimal digits of an id.
pub open spec fn id_digits(id: u128) -> Seq<char> {
    Seq::new(32, |i: int| lower_hex((id as int / pow(16, (31 - i) as nat)) % 16))
}

/// The text form of an id: its digits in groups of 8, 4, 4, 4 and 12, with
/// hyphens between them.
pub open spec fn uuid_form(id: u128) -> Seq<char> {
    let d = id_digits(id);
    d.subrange(0, 8) + seq!['-'] + d.subrange(8, 12) + seq!['-'] + d.subrange(12, 16) + seq!['-']
        + d.subrange(16, 20) + seq!['-'] + d.subrange(20, 32)
}

/// `uuid::Uuid::from_u128`, and `to_string` of what it gives: the 32
/// hexadecimal digits of the number in lower case, in groups of 8, 4, 4, 4 and
/// 12 with hyphens between them.
#[verifier::external_body]
pub(crate) fn uuid_text(id: u128) -> (r: String)
    ensures
        r@ == uuid_form(id),
{
    uuid::Uuid::from_u128(id).to_string()
}

/// The id is marked as a random one: its version is 4 and its variant the
/// standard one.
pub open spec fn is_random_id(id: u128) -> bool {
    &&& (id / 0x1000_0000_0000_0000_0000) % 16 == 4
    &&& (id / 0x4000_0000_0000_0000) % 4 == 2
}

/// `uuid::Uuid::new_v4`, as a number. It is random, but for the bits of its
/// version and variant.
#[verifier::external_body]
pub(crate) fn fresh_id() -> (r: u128)
    ensures
        is_random_id(r),
{
    uuid::Uuid::new_v4().as_u128()
}

/// The text form of an id has 36 characters.
pub proof fn law_uuid_length(id: u128)
    ensures
        uuid_form(id).len() == 36,
{
}

/// The text form of an id has hyphens at four places and, at all others, one
/// digit for each four bits, the highest first.
pub proof fn law_uuid_places(id: u128, k: int)
    requires
        0 <= k < 36,
    ensures
        ({
            let w = uuid_form(id);
            let hyphen = k == 8 || k == 13 || k == 18 || k == 23;
            let before = (if k > 8 {
                1int
            } else {
                0
            }) + (if k > 13 {
                1int
            } else {
                0
            }) + (if k > 18 {
                1int
            } else {
                0
            }) + (if k > 23 {
                1int
            } else {
                0
            });
            let d = (id as int / pow(16, (31 - (k - before)) as nat)) % 16;
            &&& hyphen ==> w[k] == '-'
            &&& !hyphen && d < 10 ==> w[k] == ('0' as int + d) as char
            &&& !hyphen && d >= 10 ==> w[k] == ('a' as int + (d - 10)) as char
        }),
{
    let d = id_digits(id);
    let a = d.subrange(0, 8) + seq!['-'];
    let b = a + d.subrange(8, 12) + seq!['-'];
    let c = b + d.subrange(12, 16) + seq!['-'];
    let e = c + d.subrange(16, 20) + seq!['-'];
    let w = uuid_form(id);
    assert(w == e + d.subrange(20, 32));
    if k < 9 {
        assert(w[k] == a[k]);
    } else if k < 14 {
        assert(w[k] == b[k]);
    } else if k < 19 {
        assert(w[k] == c[k]);
    } else if k < 24 {
        assert(w[k] == e[k]);
    }
}

/// The text form of a random id has a 4 as the first digit of its third group,
/// and 8, 9, a or b as the first one of its fourth.
pub proof fn law_random_ids(id: u128)
    requires
        is_random_id(id),
    ensures
        uuid_form(id)[14] == '4',
        uuid_form(id)[19] == '8' || uuid_form(id)[19] == '9' || uuid_form(id)[19] == 'a'
            || uuid_form(id)[19] == 'b',
{
    law_uuid_places(id, 14);
    law_uuid_places(id, 19);
    reveal_with_fuel(pow, 6);
    lemma_pow_adds(16, 5, 10);
    lemma_pow_adds(16, 5, 5);
    lemma_pow_adds(16, 4, 15);
    assert(pow(16, 4) == 0x1_0000);
    assert(pow(16, 5) == 0x10_0000);
    assert(pow(16, 10) == 0x100_0000_0000);
    assert(pow(16, 15) == 0x1000_0000_0000_0000);
    assert(pow(16, 19) == 0x1000_0000_0000_0000_0000);
    let q = id as int / 0x1000_0000_0000_0000;
    assert(id as int / 0x4000_0000_0000_0000 == q / 4);
    assert((q / 4) % 4 == 2 ==> 8 <= q % 16 < 12);
}

} // verus!
