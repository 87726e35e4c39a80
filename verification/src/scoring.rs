//! Kill and death counters and the texts shown about them.
//!
//! A counter steps by one like a single-precision float that is bumped by
//! `1.0`: exactly, until it reaches `COUNT_LIMIT`, where a float can no
//! longer tell `n + 1` from `n` and the counter stays put.

use vstd::prelude::*;

verus! {

/// The count at which a counter stops growing (two to the twenty-fourth).
pub const COUNT_LIMIT: u32 = 16_777_216;

/// A counter after one more event.
pub open spec fn spec_count_up(c: u32) -> u32 {
    if c < COUNT_LIMIT {
        (c + 1) as u32
    } else {
        c
    }
}

/// A counter after one more event: one more, or the same once the limit is reached.
pub fn count_up(c: u32) -> (r: u32)
    ensures
        r == spec_count_up(c),
{
    if c < COUNT_LIMIT {
        c + 1
    } else {
        c
    }
}

/// Counting up never passes the limit, and below it always adds exactly one.
pub proof fn count_up_bounded(c: u32)
    requires
        c <= COUNT_LIMIT,
    ensures
        spec_count_up(c) <= COUNT_LIMIT,
        c < COUNT_LIMIT ==> spec_count_up(c) == c + 1,
        c == COUNT_LIMIT ==> spec_count_up(c) == c,
{
}

/// The character of a decimal digit.
pub open spec fn digit_char(d: nat) -> char {
    if d == 0 {
        '0'
    } else if d == 1 {
        '1'
    } else if d == 2 {
        '2'
    } else if d == 3 {
        '3'
    } else if d == 4 {
        '4'
    } else if d == 5 {
        '5'
    } else if d == 6 {
        '6'
    } else if d == 7 {
        '7'
    } else if d == 8 {
        '8'
    } else {
        '9'
    }
}

/// The decimal writing of a number, most significant digit first, without
/// leading zeros ("0" for zero).
pub open spec fn decimal(n: nat) -> Seq<char>
    decreases n,
{
    if n < 10 {
        seq![digit_char(n)]
    } else {
        decimal(n / 10).push(digit_char(n % 10))
    }
}

fn digit_str(d: u32) -> (r: &'static str)
    requires
        d < 10,
    ensures
        r@ == seq![digit_char(d as nat)],
{
    proof {
        reveal_strlit("0");
        reveal_strlit("1");
        reveal_strlit("2");
        reveal_strlit("3");
        reveal_strlit("4");
        reveal_strlit("5");
        reveal_strlit("6");
        reveal_strlit("7");
        reveal_strlit("8");
        reveal_strlit("9");
    }
    if d == 0 {
        "0"
    } else if d == 1 {
        "1"
    } else if d == 2 {
        "2"
    } else if d == 3 {
        "3"
    } else if d == 4 {
        "4"
    } else if d == 5 {
        "5"
    } else if d == 6 {
        "6"
    } else if d == 7 {
        "7"
    } else if d == 8 {
        "8"
    } else {
        "9"
    }
}

fn push_decimal(s: &mut String, n: u32)
    ensures
        final(s)@ == old(s)@ + decimal(n as nat),
    decreases n,
{
    if n >= 10 {
        push_decimal(s, n / 10);
    }
    s.append(digit_str(n % 10));
    proof {
        if n >= 10 {
            assert(old(s)@ + decimal((n / 10) as nat) + seq![digit_char((n % 10) as nat)] =~= old(
                s,
            )@ + decimal(n as nat));
        } else {
            assert(old(s)@ + seq![digit_char(n as nat)] =~= old(s)@ + decimal(n as nat));
        }
    }
}

/// The decimal writing of a count, as a string ("12" for twelve).
pub fn count_text(n: u32) -> (r: String)
    ensures
        r@ == decimal(n as nat),
{
    let mut s = String::new();
    push_decimal(&mut s, n);
    assert(s@ =~= decimal(n as nat));
    s
}

/// The score line shown to a player.
pub open spec fn spec_kd_text(kills: u32, deaths: u32) -> Seq<char> {
    "Kills: "@ + decimal(kills as nat) + " | Deaths: "@ + decimal(deaths as nat)
}

/// The score line shown to a player: `Kills: <kills> | Deaths: <deaths>`.
pub fn kd_text(kills: u32, deaths: u32) -> (r: String)
    ensures
        r@ == spec_kd_text(kills, deaths),
{
    let mut s = String::from_str("Kills: ");
    push_decimal(&mut s, kills);
    s.append(" | Deaths: ");
    push_decimal(&mut s, deaths);
    s
}

/// The banner shown to a player whose tank is knocked out.
pub open spec fn spec_dead_banner() -> Seq<char> {
    "You are dead! Click 'R' to respawn! (Wait 5 seconds)"@
}

/// The banner shown above the score: the respawn hint while the player's tank
/// is knocked out, nothing while it is in play.
pub fn banner_message(in_play: bool) -> (r: &'static str)
    ensures
        in_play ==> r@ == Seq::<char>::empty(),
        !in_play ==> r@ == spec_dead_banner(),
{
    proof {
        reveal_strlit("");
    }
    if in_play {
        ""
    } else {
        "You are dead! Click 'R' to respawn! (Wait 5 seconds)"
    }
}

/// The number a character stands for as a decimal digit.
pub open spec fn digit_value(c: char) -> int {
    (c as int) - ('0' as int)
}

/// A string of decimal digits read as a number, most significant first.
pub open spec fn decimal_value(s: Seq<char>) -> int
    decreases s.len(),
{
    if s.len() == 0 {
        0
    } else {
        decimal_value(s.drop_last()) * 10 + digit_value(s.last())
    }
}

proof fn lemma_digit_char(d: nat)
    requires
        d < 10,
    ensures
        digit_value(digit_char(d)) == d,
        '0' <= digit_char(d) <= '9',
{
}

/// The written count reads back as the count: it is made of the characters
/// `0` to `9` only, has no leading zero, and read in base ten it is `n`.
pub proof fn decimal_reads_back(n: nat)
    ensures
        decimal(n).len() >= 1,
        decimal_value(decimal(n)) == n,
        forall|i: int| 0 <= i < decimal(n).len() ==> '0' <= #[trigger] decimal(n)[i] <= '9',
        decimal(n)[0] == '0' ==> n == 0,
    decreases n,
{
    if n < 10 {
        lemma_digit_char(n);
        assert(decimal(n).drop_last() =~= Seq::<char>::empty());
        assert(decimal_value(Seq::<char>::empty()) == 0);
        assert(decimal_value(decimal(n)) == decimal_value(decimal(n).drop_last()) * 10
            + digit_value(decimal(n).last()));
    } else {
        decimal_reads_back(n / 10);
        lemma_digit_char(n % 10);
        let s = decimal(n);
        assert(s.drop_last() =~= decimal(n / 10));
        assert(n == (n / 10) * 10 + n % 10);
        assert(s.last() == digit_char(n % 10));
        assert(decimal_value(s) == decimal_value(s.drop_last()) * 10 + digit_value(s.last()));
        assert forall|i: int| 0 <= i < s.len() implies '0' <= #[trigger] s[i] <= '9' by {
            if i < s.len() - 1 {
                assert(s[i] == decimal(n / 10)[i]);
            }
        }
        assert(s[0] == decimal(n / 10)[0]);
    }
}

/// Two different counts are never written alike.
pub proof fn decimal_distinct(m: nat, n: nat)
    requires
        m != n,
    ensures
        decimal(m) != decimal(n),
{
    decimal_reads_back(m);
    decimal_reads_back(n);
}

/// The score line starts with the kills written in decimal, after `Kills: `,
/// and ends with the deaths written in decimal, after ` | Deaths: `.
pub proof fn kd_text_parts(kills: u32, deaths: u32)
    ensures
        spec_kd_text(kills, deaths).take(7) == "Kills: "@,
        spec_kd_text(kills, deaths).len() == 18 + decimal(kills as nat).len() + decimal(
            deaths as nat,
        ).len(),
        spec_kd_text(kills, deaths).subrange(7, 7 + decimal(kills as nat).len() as int) == decimal(
            kills as nat,
        ),
        spec_kd_text(kills, deaths).skip(18 + decimal(kills as nat).len() as int) == decimal(
            deaths as nat,
        ),
{
    reveal_strlit("Kills: ");
    reveal_strlit(" | Deaths: ");
    let k = decimal(kills as nat);
    let d = decimal(deaths as nat);
    let s = spec_kd_text(kills, deaths);
    assert(s.take(7) =~= "Kills: "@);
    assert(s.subrange(7, 7 + k.len() as int) =~= k);
    assert(s.skip(18 + k.len() as int) =~= d);
}

} // verus!
