//! Where the server listens.
use vstd::prelude::*;
use vstd::string::StringExecFns;
use crate::text::push_char;

verus! {

pub const SERVER_PORT: u16 = 9999;

pub const SERVER_ADDRESS: &'static str = "127.0.0.1";

/// The decimal digit of `d`.
pub open spec fn digit(d: nat) -> char {
    (d + 48) as char
}

/// The decimal numeral of `n`, without leading zeros.
pub open spec fn decimal(n: nat) -> Seq<char>
    decreases n,
{
    if n < 10 {
        seq![digit(n)]
    } else {
        decimal(n / 10).push(digit(n % 10))
    }
}

fn push_decimal(out: &mut String, n: u16)
    ensures
        final(out)@ == old(out)@ + decimal(n as nat),
    decreases n,
{
    if n >= 10 {
        push_decimal(out, n / 10);
    }
    let d: u8 = (n % 10) as u8;
    push_char(out, (d + 48) as char);
    proof {
        assert(final(out)@ =~= old(out)@ + decimal(n as nat));
    }
}

/// `host:port` of the server.
pub fn get_address() -> (r: String)
    ensures
        r@ == SERVER_ADDRESS@ + seq![':'] + decimal(SERVER_PORT as nat),
{
    let mut s = String::from_str(SERVER_ADDRESS);
    push_char(&mut s, ':');
    push_decimal(&mut s, SERVER_PORT);
    s
}

} // verus!
