//! Addresses of hosts, as records carry them.

use vstd::prelude::*;

verus! {

/// An IPv4 address: its four octets, first to last.
#[derive(Clone, Copy, Debug, PartialEq, Eq, Hash, PartialOrd, Ord, Structural)]
pub struct Ipv4(pub u8, pub u8, pub u8, pub u8);

/// An IPv6 address: its eight groups of sixteen bits, first to last.
#[derive(Clone, Copy, Debug, PartialEq, Eq, Hash, PartialOrd, Ord, Structural)]
pub struct Ipv6(pub u16, pub u16, pub u16, pub u16, pub u16, pub u16, pub u16, pub u16);

/// The character for one decimal digit.
pub open spec fn digit(d: int) -> char
    recommends
        0 <= d < 10,
{
    ((48 + d) as u8) as char
}

/// A number in decimal, without leading zeros.
pub open spec fn decimal(n: nat) -> Seq<char>
    decreases n,
{
    if n < 10 {
        seq![digit(n as int)]
    } else {
        decimal(n / 10).push(digit(n as int % 10))
    }
}

/// An IPv4 address in the usual text form: four decimal numbers with dots
/// between them.
pub open spec fn dotted_quad(ip: Ipv4) -> Seq<char> {
    decimal(ip.0 as nat) + seq!['.'] + decimal(ip.1 as nat) + seq!['.'] + decimal(ip.2 as nat)
        + seq!['.'] + decimal(ip.3 as nat)
}

fn push_decimal(text: &mut String, n: u8)
    ensures
        final(text)@ == old(text)@ + decimal(n as nat),
{
    proof {
        reveal_with_fuel(decimal, 3);
    }
    if n >= 100 {
        text.push((48 + n / 100) as char);
    }
    if n >= 10 {
        text.push((48 + n / 10 % 10) as char);
    }
    text.push((48 + n % 10) as char);
    assert(text@ =~= old(text)@ + decimal(n as nat));
}

impl Ipv4 {
    pub fn new(a: u8, b: u8, c: u8, d: u8) -> (ip: Ipv4)
        ensures
            ip == Ipv4(a, b, c, d),
    {
        Ipv4(a, b, c, d)
    }

    /// The address as text, such as `198.41.0.4`.
    pub fn to_string(&self) -> (text: String)
        ensures
            text@ == dotted_quad(*self),
    {
        let mut text = String::new();
        push_decimal(&mut text, self.0);
        text.push('.');
        push_decimal(&mut text, self.1);
        text.push('.');
        push_decimal(&mut text, self.2);
        text.push('.');
        push_decimal(&mut text, self.3);
        assert(text@ =~= dotted_quad(*self));
        text
    }
}

} // verus!
