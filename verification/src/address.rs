//! Transport endpoint identity: an IPv4 address and a port, held as plain
//! values so that every rule about peers can be stated and checked directly.
//! The unverified shell around the library converts between this type and
//! whatever the operating system's socket layer uses.

use vstd::prelude::*;
use vstd::string::StringSliceAdditionalSpecFns;

verus! {

/// Whether `b` is an ASCII decimal digit.
pub open spec fn is_digit(b: u8) -> bool {
    0x30 <= b <= 0x39
}

/// The first position at or after `i` that does not hold a digit.
pub open spec fn take_digits(s: Seq<u8>, i: int) -> int
    decreases s.len() - i,
{
    if i < s.len() && is_digit(s[i]) {
        take_digits(s, i + 1)
    } else {
        i
    }
}

/// The decimal value of the digits at positions `i` up to `j`.
pub open spec fn digits_value(s: Seq<u8>, i: int, j: int) -> int
    decreases j - i,
{
    if j <= i {
        0
    } else {
        digits_value(s, i, j - 1) * 10 + (s[j - 1] - 0x30)
    }
}

/// Ten to the `k`.
pub open spec fn pow10(k: int) -> int
    decreases k,
{
    if k <= 0 {
        1
    } else {
        10 * pow10(k - 1)
    }
}

/// `take_digits` lands between `i` and the end, and everything it passed
/// over is a digit.
pub proof fn lemma_take_digits_range(s: Seq<u8>, i: int)
    requires
        0 <= i <= s.len(),
    ensures
        i <= take_digits(s, i) <= s.len(),
        forall|k: int| i <= k < take_digits(s, i) ==> is_digit(s[k]),
    decreases s.len() - i,
{
    if i < s.len() && is_digit(s[i]) {
        lemma_take_digits_range(s, i + 1);
    }
}

/// A run of `j - i` digits is worth less than ten to that count.
pub proof fn lemma_digits_value_bound(s: Seq<u8>, i: int, j: int)
    requires
        i <= j,
        forall|k: int| i <= k < j ==> is_digit(s[k]),
    ensures
        0 <= digits_value(s, i, j) < pow10(j - i),
    decreases j - i,
{
    if j > i {
        lemma_digits_value_bound(s, i, j - 1);
    }
}

/// A peer's identity: the four octets of an IPv4 address packed big-endian
/// into one integer, and a port.
#[derive(Clone, Copy, PartialEq, Eq, Structural, Hash, Debug)]
pub struct Address {
    /// The IPv4 address, octet `a.b.c.d` packed as `a<<24 | b<<16 | c<<8 | d`.
    pub ip: u32,
    /// The UDP port.
    pub port: u16,
}

impl Address {
    /// Build an address from its packed IPv4 value and port.
    pub fn new(ip: u32, port: u16) -> (r: Address)
        ensures
            r == (Address { ip, port }),
    {
        Address { ip, port }
    }

    /// Build an address from the four dotted-quad octets and a port.
    pub fn from_octets(a: u8, b: u8, c: u8, d: u8, port: u16) -> (r: Address)
        ensures
            r.port == port,
            r.ip == ((a as u32) << 24 | (b as u32) << 16 | (c as u32) << 8 | (d as u32)),
    {
        Address { ip: (a as u32) << 24 | (b as u32) << 16 | (c as u32) << 8 | (d as u32), port }
    }

    /// The address written in the bytes `s` as `a.b.c.d:port` — each octet
    /// one to three decimal digits up to 255, the port one to five decimal
    /// digits up to 65535, nothing before or after — or nothing when `s`
    /// reads otherwise.
    pub open spec fn spec_parse(s: Seq<u8>) -> Option<Address> {
        let e1 = take_digits(s, 0);
        let v1 = digits_value(s, 0, e1);
        if !(1 <= e1 <= 3 && e1 < s.len() && s[e1] == 46 && v1 <= 255) {
            None
        } else {
            let b2 = e1 + 1;
            let e2 = take_digits(s, b2);
            let v2 = digits_value(s, b2, e2);
            if !(1 <= e2 - b2 <= 3 && e2 < s.len() && s[e2] == 46 && v2 <= 255) {
                None
            } else {
                let b3 = e2 + 1;
                let e3 = take_digits(s, b3);
                let v3 = digits_value(s, b3, e3);
                if !(1 <= e3 - b3 <= 3 && e3 < s.len() && s[e3] == 46 && v3 <= 255) {
                    None
                } else {
                    let b4 = e3 + 1;
                    let e4 = take_digits(s, b4);
                    let v4 = digits_value(s, b4, e4);
                    if !(1 <= e4 - b4 <= 3 && e4 < s.len() && s[e4] == 58 && v4 <= 255) {
                        None
                    } else {
                        let bp = e4 + 1;
                        let ep = take_digits(s, bp);
                        let vp = digits_value(s, bp, ep);
                        if !(1 <= ep - bp <= 5 && ep == s.len() && vp <= 65535) {
                            None
                        } else {
                            Some(
                                Address {
                                    ip: (
                                    (v1 as u32) << 24 | (v2 as u32) << 16 | (v3 as u32) << 8 | (
                                    v4 as u32)) as u32,
                                    port: vp as u16,
                                },
                            )
                        }
                    }
                }
            }
        }
    }

    /// Parse `a.b.c.d:port` from a string slice; exactly `spec_parse` of its
    /// bytes.
    pub fn parse(s: &str) -> (r: Option<Address>)
        ensures
            r == Address::spec_parse(s.spec_bytes()),
    {
        Address::parse_bytes(s.as_bytes())
    }

    /// Parse `a.b.c.d:port` from raw bytes.
    pub fn parse_bytes(bytes: &[u8]) -> (r: Option<Address>)
        ensures
            r == Address::spec_parse(bytes@),
    {
        let ghost s = bytes@;
        proof {
            lemma_take_digits_range(s, 0);
        }
        let e1 = scan_digits(bytes, 0);
        if !(1 <= e1 && e1 <= 3 && e1 < bytes.len() && bytes[e1] == 46) {
            return None;
        }
        let v1 = digits_to_value(bytes, 0, e1);
        if v1 > 255 {
            return None;
        }
        let b2 = e1 + 1;
        proof {
            lemma_take_digits_range(s, b2 as int);
        }
        let e2 = scan_digits(bytes, b2);
        if !(b2 + 1 <= e2 && e2 <= b2 + 3 && e2 < bytes.len() && bytes[e2] == 46) {
            return None;
        }
        let v2 = digits_to_value(bytes, b2, e2);
        if v2 > 255 {
            return None;
        }
        let b3 = e2 + 1;
        proof {
            lemma_take_digits_range(s, b3 as int);
        }
        let e3 = scan_digits(bytes, b3);
        if !(b3 + 1 <= e3 && e3 <= b3 + 3 && e3 < bytes.len() && bytes[e3] == 46) {
            return None;
        }
        let v3 = digits_to_value(bytes, b3, e3);
        if v3 > 255 {
            return None;
        }
        let b4 = e3 + 1;
        proof {
            lemma_take_digits_range(s, b4 as int);
        }
        let e4 = scan_digits(bytes, b4);
        if !(b4 + 1 <= e4 && e4 <= b4 + 3 && e4 < bytes.len() && bytes[e4] == 58) {
            return None;
        }
        let v4 = digits_to_value(bytes, b4, e4);
        if v4 > 255 {
            return None;
        }
        let bp = e4 + 1;
        proof {
            lemma_take_digits_range(s, bp as int);
        }
        let ep = scan_digits(bytes, bp);
        if !(bp + 1 <= ep && ep <= bp + 5 && ep == bytes.len()) {
            return None;
        }
        let vp = digits_to_value(bytes, bp, ep);
        if vp > 65535 {
            return None;
        }
        Some(Address { ip: v1 << 24 | v2 << 16 | v3 << 8 | v4, port: vp as u16 })
    }
}

/// The end of the digit run starting at `start`.
fn scan_digits(bytes: &[u8], start: usize) -> (end: usize)
    requires
        start <= bytes@.len(),
    ensures
        end as int == take_digits(bytes@, start as int),
        start <= end <= bytes@.len(),
{
    proof {
        lemma_take_digits_range(bytes@, start as int);
    }
    let mut i = start;
    while i < bytes.len() && bytes[i] >= 0x30 && bytes[i] <= 0x39
        invariant
            start <= i <= bytes@.len(),
            take_digits(bytes@, start as int) == take_digits(bytes@, i as int),
        decreases bytes@.len() - i,
    {
        i += 1;
    }
    i
}

/// The decimal value of the digit run from `start` to `end`; fits easily in
/// five digits.
fn digits_to_value(bytes: &[u8], start: usize, end: usize) -> (v: u32)
    requires
        start <= end <= bytes@.len(),
        end - start <= 5,
        forall|k: int| start <= k < end ==> is_digit(bytes@[k]),
    ensures
        v as int == digits_value(bytes@, start as int, end as int),
{
    let mut v: u32 = 0;
    let mut j = start;
    while j < end
        invariant
            start <= j <= end <= bytes@.len(),
            end - start <= 5,
            forall|k: int| start <= k < end ==> is_digit(bytes@[k]),
            v as int == digits_value(bytes@, start as int, j as int),
            v < pow10(j - start),
        decreases end - j,
    {
        proof {
            lemma_digits_value_bound(bytes@, start as int, j as int + 1);
            assert(pow10(j - start + 1) <= pow10(5)) by {
                lemma_pow10_le(j - start + 1, 5);
            }
            assert(pow10(0) == 1);
            assert(pow10(1) == 10);
            assert(pow10(2) == 100);
            assert(pow10(3) == 1000);
            assert(pow10(4) == 10000);
            assert(pow10(5) == 100000);
        }
        v = v * 10 + ((bytes[j] - 0x30) as u32);
        j += 1;
    }
    v
}

/// `pow10` grows with its argument.
proof fn lemma_pow10_le(a: int, b: int)
    requires
        a <= b,
    ensures
        pow10(a) <= pow10(b),
    decreases b,
{
    if a < b && b > 0 {
        lemma_pow10_le(a, b - 1);
        assert(pow10(b - 1) >= 1) by {
            lemma_pow10_pos(b - 1);
        }
    }
}

/// `pow10` is positive.
proof fn lemma_pow10_pos(k: int)
    ensures
        pow10(k) >= 1,
    decreases k,
{
    if k > 0 {
        lemma_pow10_pos(k - 1);
    }
}

} // verus!
