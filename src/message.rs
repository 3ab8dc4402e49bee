//! The instruction text of the exchange stage.
use vstd::prelude::*;

verus! {

/// The decimal digit `d`.
pub open spec fn digit_char(d: int) -> char {
    if d == 0 {
        '0'
    } else if d == 1 {
        '1'
    } else if d == 2 {
        '2'
    } else if d == 3 {
        '3'
    } else if d == 4 {
        '4'
    } else if d == 5 {
        '5'
    } else if d == 6 {
        '6'
    } else if d == 7 {
        '7'
    } else if d == 8 {
        '8'
    } else {
        '9'
    }
}

/// `n` written in decimal, without leading zeros.
pub open spec fn decimal(n: nat) -> Seq<char>
    decreases n,
{
    if n < 10 {
        seq![digit_char(n as int)]
    } else {
        decimal(n / 10).push(digit_char((n % 10) as int))
    }
}

/// The swap instruction: one action on pool `pool_id` that converts
/// `amount_in` of `token_in` into at least `min_amount_out` of `token_out`.
pub open spec fn swap_message(
    pool_id: nat,
    token_in: Seq<char>,
    token_out: Seq<char>,
    amount_in: nat,
    min_amount_out: nat,
) -> Seq<char> {
    "{\"force\":0,\"actions\":[{\"pool_id\":"@ + decimal(pool_id) + ",\"token_in\":\""@ + token_in
        + "\",\"token_out\":\""@ + token_out + "\",\"amount_in\":\""@ + decimal(amount_in)
        + "\",\"amount_out\":\"0\",\"min_amount_out\":\""@ + decimal(min_amount_out) + "\"}]}"@
}

fn digit_str(d: u128) -> (r: &'static str)
    requires
        d < 10,
    ensures
        r@ == seq![digit_char(d as int)],
{
    proof {
        reveal_strlit("0");
        reveal_strlit("1");
        reveal_strlit("2");
        reveal_strlit("3");
        reveal_strlit("4");
        reveal_strlit("5");
        reveal_strlit("6");
        reveal_strlit("7");
        reveal_strlit("8");
        reveal_strlit("9");
    }
    if d == 0 {
        "0"
    } else if d == 1 {
        "1"
    } else if d == 2 {
        "2"
    } else if d == 3 {
        "3"
    } else if d == 4 {
        "4"
    } else if d == 5 {
        "5"
    } else if d == 6 {
        "6"
    } else if d == 7 {
        "7"
    } else if d == 8 {
        "8"
    } else {
        "9"
    }
}

/// Appends `n` in decimal to `s`.
pub fn push_decimal(s: &mut String, n: u128)
    ensures
        final(s)@ == old(s)@ + decimal(n as nat),
    decreases n,
{
    if n < 10 {
        s.append(digit_str(n));
    } else {
        push_decimal(s, n / 10);
        s.append(digit_str(n % 10));
        proof {
            assert(old(s)@ + decimal(n as nat) =~= old(s)@ + decimal((n / 10) as nat) + seq![
                digit_char((n % 10) as int),
            ]);
        }
    }
}

/// Renders the swap instruction.
pub fn render_swap_message(
    pool_id: u16,
    token_in: &String,
    token_out: &String,
    amount_in: u128,
    min_amount_out: u128,
) -> (r: String)
    ensures
        r@ == swap_message(
            pool_id as nat,
            token_in@,
            token_out@,
            amount_in as nat,
            min_amount_out as nat,
        ),
{
    let mut s = String::from_str("{\"force\":0,\"actions\":[{\"pool_id\":");
    push_decimal(&mut s, pool_id as u128);
    s.append(",\"token_in\":\"");
    s.append(token_in.as_str());
    s.append("\",\"token_out\":\"");
    s.append(token_out.as_str());
    s.append("\",\"amount_in\":\"");
    push_decimal(&mut s, amount_in);
    s.append("\",\"amount_out\":\"0\",\"min_amount_out\":\"");
    push_decimal(&mut s, min_amount_out);
    s.append("\"}]}");
    s
}

} // verus!
