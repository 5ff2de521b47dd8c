//! The text form of addresses.

use vstd::prelude::*;
use vstd::string::StringExecFns;
use crate::address::InetAddress;
use crate::address::IpAddress;

verus! {

/// The character for a digit below sixteen.
pub open spec fn digit_char(d: nat) -> char {
    if d == 0 {
        '0'
    } else if d == 1 {
        '1'
    } else if d == 2 {
        '2'
    } else if d == 3 {
        '3'
    } else if d == 4 {
        '4'
    } else if d == 5 {
        '5'
    } else if d == 6 {
        '6'
    } else if d == 7 {
        '7'
    } else if d == 8 {
        '8'
    } else if d == 9 {
        '9'
    } else if d == 10 {
        'a'
    } else if d == 11 {
        'b'
    } else if d == 12 {
        'c'
    } else if d == 13 {
        'd'
    } else if d == 14 {
        'e'
    } else {
        'f'
    }
}

/// Dividing a number by a base of two or more makes it smaller.
pub proof fn lemma_quotient_is_smaller(n: nat, base: nat)
    requires
        2 <= base <= n,
    ensures
        n / base < n,
{
    vstd::arithmetic::div_mod::lemma_div_decreases(n as int, base as int);
}

/// The digits of a number in a base from two to sixteen, without leading
/// zeros.
pub open spec fn digits(n: nat, base: nat) -> Seq<char>
    recommends
        2 <= base <= 16,
    decreases n,
{
    if base < 2 || n < base {
        seq![digit_char(n)]
    } else {
        proof {
            lemma_quotient_is_smaller(n, base);
        }
        digits(n / base, base).push(digit_char(n % base))
    }
}

/// The byte at position `k` of an IPv4 address, counted from the most
/// significant.
pub open spec fn octet(address: u32, k: nat) -> nat
    recommends
        k < 4,
{
    ((address >> ((24 - 8 * k) as u32)) & 0xff) as nat
}

/// The group of sixteen bits at position `k` of an IPv6 address, counted
/// from the most significant.
pub open spec fn group(address: u128, k: nat) -> nat
    recommends
        k < 8,
{
    ((address >> ((112 - 16 * k) as u128)) & 0xffff) as nat
}

/// The groups of an IPv6 address from position `k` on, in hexadecimal,
/// each with a colon before it.
pub open spec fn groups_from(address: u128, k: nat) -> Seq<char>
    decreases 8 - k,
{
    if k >= 8 {
        Seq::empty()
    } else {
        seq![':'] + digits(group(address, k), 16) + groups_from(address, k + 1)
    }
}

/// The text of an IP address: four decimal numbers with dots between them,
/// or eight hexadecimal groups with colons between them.
pub open spec fn ip_text(ip: IpAddress) -> Seq<char> {
    match ip {
        IpAddress::V4(a) => digits(octet(a, 0), 10) + seq!['.'] + digits(octet(a, 1), 10) + seq![
            '.',
        ] + digits(octet(a, 2), 10) + seq!['.'] + digits(octet(a, 3), 10),
        IpAddress::V6(a) => digits(group(a, 0), 16) + groups_from(a, 1),
    }
}

/// The text of an address with its port: the IP address, a slash, and the
/// port in decimal.
pub open spec fn inet_text(address: InetAddress) -> Seq<char> {
    ip_text(address.ip) + seq!['/'] + digits(address.port as nat, 10)
}

/// The text of one digit.
fn digit_str(d: u32) -> (text: &'static str)
    requires
        d < 16,
    ensures
        text@ == seq![digit_char(d as nat)],
{
    proof {
        reveal_strlit("0");
        reveal_strlit("1");
        reveal_strlit("2");
        reveal_strlit("3");
        reveal_strlit("4");
        reveal_strlit("5");
        reveal_strlit("6");
        reveal_strlit("7");
        reveal_strlit("8");
        reveal_strlit("9");
        reveal_strlit("a");
        reveal_strlit("b");
        reveal_strlit("c");
        reveal_strlit("d");
        reveal_strlit("e");
        reveal_strlit("f");
    }
    let text = if d == 0 {
        "0"
    } else if d == 1 {
        "1"
    } else if d == 2 {
        "2"
    } else if d == 3 {
        "3"
    } else if d == 4 {
        "4"
    } else if d == 5 {
        "5"
    } else if d == 6 {
        "6"
    } else if d == 7 {
        "7"
    } else if d == 8 {
        "8"
    } else if d == 9 {
        "9"
    } else if d == 10 {
        "a"
    } else if d == 11 {
        "b"
    } else if d == 12 {
        "c"
    } else if d == 13 {
        "d"
    } else if d == 14 {
        "e"
    } else {
        "f"
    };
    proof {
        assert(text@ =~= seq![digit_char(d as nat)]);
    }
    text
}

/// Adds the digits of `n` in the given base to `out`.
fn append_digits(out: &mut String, n: u32, base: u32)
    requires
        2 <= base <= 16,
    ensures
        final(out)@ == old(out)@ + digits(n as nat, base as nat),
    decreases n,
{
    if n >= base {
        proof {
            lemma_quotient_is_smaller(n as nat, base as nat);
        }
        append_digits(out, n / base, base);
    }
    let ghost front = out@;
    out.append(digit_str(n % base));
    proof {
        assert((n / base) as nat == (n as nat) / (base as nat));
        assert((n % base) as nat == (n as nat) % (base as nat));
        if n < base {
            vstd::arithmetic::div_mod::lemma_small_mod(n as nat, base as nat);
        }
        assert(out@ =~= old(out)@ + digits(n as nat, base as nat));
    }
}

impl IpAddress {
    /// The address as text: `10.0.0.5`, or `fe80:0:0:0:0:0:0:1`.
    pub fn to_string(&self) -> (text: String)
        ensures
            text@ == ip_text(*self),
    {
        let mut out = String::new();
        match *self {
            IpAddress::V4(a) => {
                append_digits(&mut out, (a >> 24) & 0xff, 10);
                proof {
                    reveal_strlit(".");
                }
                out.append(".");
                append_digits(&mut out, (a >> 16) & 0xff, 10);
                out.append(".");
                append_digits(&mut out, (a >> 8) & 0xff, 10);
                out.append(".");
                append_digits(&mut out, (a >> 0) & 0xff, 10);
                proof {
                    assert("."@ =~= seq!['.']);
                    assert(out@ =~= ip_text(*self));
                }
            },
            IpAddress::V6(a) => {
                proof {
                    reveal_strlit(":");
                    assert(":"@ =~= seq![':']);
                }
                let first: u128 = (a >> 112) & 0xffff;
                assert(first <= 0xffff) by (bit_vector)
                    requires
                        first == (a >> 112) & 0xffff,
                ;
                append_digits(&mut out, first as u32, 16);
                let ghost head = out@;
                let mut k: u32 = 1;
                while k < 8
                    invariant
                        1 <= k <= 8,
                        ":"@ == seq![':'],
                        head + groups_from(a, 1) == out@ + groups_from(a, k as nat),
                    decreases 8 - k,
                {
                    let shift: u128 = (112 - 16 * k) as u128;
                    let g: u128 = (a >> shift) & 0xffff;
                    assert(g <= 0xffff) by (bit_vector)
                        requires
                            g == (a >> shift) & 0xffff,
                    ;
                    let ghost before = out@;
                    out.append(":");
                    append_digits(&mut out, g as u32, 16);
                    proof {
                        assert(out@ + groups_from(a, (k + 1) as nat) =~= before + groups_from(
                            a,
                            k as nat,
                        ));
                    }
                    k = k + 1;
                }
                proof {
                    assert(out@ + groups_from(a, 8) =~= out@);
                    assert(out@ =~= ip_text(*self));
                }
            },
        }
        out
    }
}

impl InetAddress {
    /// The address as text: the IP address, a slash, and the port.
    pub fn to_string(&self) -> (text: String)
        ensures
            text@ == inet_text(*self),
    {
        let mut out = self.ip.to_string();
        proof {
            reveal_strlit("/");
            assert("/"@ =~= seq!['/']);
        }
        out.append("/");
        append_digits(&mut out, self.port as u32, 10);
        out
    }
}

} // verus!
