//! Identifiers of rooms and participants: a fixed prefix followed by a
//! positive number in decimal.
use vstd::prelude::*;
use vstd::string::StringExecFns;

verus! {

/// The character of a decimal digit.
pub open spec fn digit_char(d: nat) -> char {
    if d == 0 { '0' }
    else if d == 1 { '1' }
    else if d == 2 { '2' }
    else if d == 3 { '3' }
    else if d == 4 { '4' }
    else if d == 5 { '5' }
    else if d == 6 { '6' }
    else if d == 7 { '7' }
    else if d == 8 { '8' }
    else { '9' }
}

/// The decimal representation of `n`, without leading zeros.
pub open spec fn decimal(n: nat) -> Seq<char>
    decreases n,
{
    if n < 10 {
        seq![digit_char(n)]
    } else {
        decimal(n / 10).push(digit_char(n % 10))
    }
}

/// `"room_"`.
pub open spec fn room_prefix() -> Seq<char> {
    seq!['r', 'o', 'o', 'm', '_']
}

/// `"participant_"`.
pub open spec fn participant_prefix() -> Seq<char> {
    seq!['p', 'a', 'r', 't', 'i', 'c', 'i', 'p', 'a', 'n', 't', '_']
}

/// The identifier of the `n`-th room created: `room_<n>`.
pub open spec fn room_name(n: nat) -> Seq<char> {
    room_prefix() + decimal(n)
}

/// The identifier given to a participant that joins as the `n`-th member:
/// `participant_<n>`.
pub open spec fn participant_name(n: nat) -> Seq<char> {
    participant_prefix() + decimal(n)
}

proof fn lemma_digit_char_injective(a: nat, b: nat)
    requires
        a < 10,
        b < 10,
        digit_char(a) == digit_char(b),
    ensures
        a == b,
{
}

proof fn lemma_decimal_len(n: nat)
    ensures
        decimal(n).len() >= 1,
        n >= 10 ==> decimal(n).len() >= 2,
    decreases n,
{
    if n >= 10 {
        lemma_decimal_len(n / 10);
    }
}

/// Distinct numbers have distinct decimal representations.
pub proof fn lemma_decimal_injective(a: nat, b: nat)
    requires
        decimal(a) == decimal(b),
    ensures
        a == b,
    decreases a,
{
    lemma_decimal_len(a);
    lemma_decimal_len(b);
    let da = decimal(a);
    let db = decimal(b);
    let last = (da.len() - 1) as int;
    assert(da[last] == db[last]);
    if a < 10 && b < 10 {
        lemma_digit_char_injective(a, b);
    } else if a >= 10 && b >= 10 {
        assert(da.drop_last() == decimal(a / 10));
        assert(db.drop_last() == decimal(b / 10));
        lemma_decimal_injective(a / 10, b / 10);
        lemma_digit_char_injective(a % 10, b % 10);
    } else {
        assert(false);
    }
}

/// Distinct numbers give distinct room identifiers.
pub proof fn lemma_room_name_injective(a: nat, b: nat)
    requires
        room_name(a) == room_name(b),
    ensures
        a == b,
{
    let k = room_prefix().len() as int;
    assert(room_name(a).subrange(k, room_name(a).len() as int) == decimal(a));
    assert(room_name(b).subrange(k, room_name(b).len() as int) == decimal(b));
    lemma_decimal_injective(a, b);
}

/// Distinct numbers give distinct participant identifiers.
pub proof fn lemma_participant_name_injective(a: nat, b: nat)
    requires
        participant_name(a) == participant_name(b),
    ensures
        a == b,
{
    let k = participant_prefix().len() as int;
    assert(participant_name(a).subrange(k, participant_name(a).len() as int) == decimal(a));
    assert(participant_name(b).subrange(k, participant_name(b).len() as int) == decimal(b));
    lemma_decimal_injective(a, b);
}

/// The one-character string of the decimal digit `d`.
fn digit_str(d: u64) -> (r: &'static str)
    requires
        d < 10,
    ensures
        r@ == seq![digit_char(d as nat)],
{
    proof {
        reveal_strlit("0");
        reveal_strlit("1");
        reveal_strlit("2");
        reveal_strlit("3");
        reveal_strlit("4");
        reveal_strlit("5");
        reveal_strlit("6");
        reveal_strlit("7");
        reveal_strlit("8");
        reveal_strlit("9");
    }
    if d == 0 {
        "0"
    } else if d == 1 {
        "1"
    } else if d == 2 {
        "2"
    } else if d == 3 {
        "3"
    } else if d == 4 {
        "4"
    } else if d == 5 {
        "5"
    } else if d == 6 {
        "6"
    } else if d == 7 {
        "7"
    } else if d == 8 {
        "8"
    } else {
        "9"
    }
}

/// Appends the decimal representation of `n` to `s`.
fn append_decimal(s: &mut String, n: u64)
    ensures
        final(s)@ == old(s)@ + decimal(n as nat),
    decreases n,
{
    if n >= 10 {
        append_decimal(s, n / 10);
    }
    s.append(digit_str(n % 10));
    proof {
        if n >= 10 {
            assert(decimal(n as nat) == decimal((n / 10) as nat).push(digit_char((n % 10) as nat)));
        }
    }
}

/// The id `room_<n>`.
pub fn format_room_name(n: u64) -> (r: String)
    ensures
        r@ == room_name(n as nat),
{
    let mut s = String::from_str("room_");
    proof {
        reveal_strlit("room_");
    }
    append_decimal(&mut s, n);
    s
}

/// The id `participant_<n>`.
pub fn format_participant_name(n: u64) -> (r: String)
    ensures
        r@ == participant_name(n as nat),
{
    let mut s = String::from_str("participant_");
    proof {
        reveal_strlit("participant_");
    }
    append_decimal(&mut s, n);
    s
}

} // verus!
