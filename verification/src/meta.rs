//! Per-replay metadata: the match date, the recording player's name and the
//! playlist label, as plain values.

use vstd::prelude::*;
use vstd::string::StringExecFns;

verus! {

/// The lower-case hex digit of a value below sixteen.
pub open spec fn hex_digit(n: int) -> char {
    "0123456789abcdef"@[n]
}

/// The two hex digits of a byte value.
pub open spec fn byte_hex(b: u64) -> Seq<char> {
    seq![hex_digit((b / 16) as int), hex_digit((b % 16) as int)]
}

/// The hex rendering of the low `k` bytes of a word, least significant
/// byte first.
pub open spec fn le_hex_upto(v: u64, k: int) -> Seq<char>
    decreases k,
{
    if k <= 0 {
        Seq::empty()
    } else {
        le_hex_upto(v, k - 1) + byte_hex((v >> ((8 * (k - 1)) as u64)) & 0xff)
    }
}

/// The little-endian hex rendering of a word: sixteen digits, low byte
/// first.
pub open spec fn le_hex(v: u64) -> Seq<char> {
    le_hex_upto(v, 8)
}

fn nibble_str(n: u64) -> (r: &'static str)
    requires
        n < 16,
    ensures
        r@ == seq![hex_digit(n as int)],
{
    proof {
        reveal_strlit("0123456789abcdef");
    }
    let r: &'static str = if n == 0 {
        "0"
    } else if n == 1 {
        "1"
    } else if n == 2 {
        "2"
    } else if n == 3 {
        "3"
    } else if n == 4 {
        "4"
    } else if n == 5 {
        "5"
    } else if n == 6 {
        "6"
    } else if n == 7 {
        "7"
    } else if n == 8 {
        "8"
    } else if n == 9 {
        "9"
    } else if n == 10 {
        "a"
    } else if n == 11 {
        "b"
    } else if n == 12 {
        "c"
    } else if n == 13 {
        "d"
    } else if n == 14 {
        "e"
    } else {
        "f"
    };
    proof {
        reveal_strlit("0");
        reveal_strlit("1");
        reveal_strlit("2");
        reveal_strlit("3");
        reveal_strlit("4");
        reveal_strlit("5");
        reveal_strlit("6");
        reveal_strlit("7");
        reveal_strlit("8");
        reveal_strlit("9");
        reveal_strlit("a");
        reveal_strlit("b");
        reveal_strlit("c");
        reveal_strlit("d");
        reveal_strlit("e");
        reveal_strlit("f");
        assert(r@ =~= seq![hex_digit(n as int)]);
    }
    r
}

/// Renders a numeric identifier as the sixteen hex digits of its bytes in
/// little-endian order, as identity keys are written.
pub fn fix_bytes(b: u64) -> (r: String)
    ensures
        r@ == le_hex(b),
{
    let mut s = String::new();
    let mut k: usize = 0;
    while k < 8
        invariant
            k <= 8,
            s@ == le_hex_upto(b, k as int),
        decreases 8 - k,
    {
        let byte: u64 = (b >> ((8 * k) as u64)) & 0xff;
        proof {
            assert(byte < 256) by (bit_vector)
                requires
                    byte == (b >> ((8 * k) as u64)) & 0xff,
            ;
        }
        let hi = byte / 16;
        let lo = byte % 16;
        s.append(nibble_str(hi));
        s.append(nibble_str(lo));
        proof {
            assert(s@ =~= le_hex_upto(b, k + 1));
        }
        k += 1;
    }
    s
}

/// A calendar date as plain values; the field order makes the derived
/// ordering chronological.
#[derive(Debug, Clone, Copy, PartialEq, Eq, PartialOrd, Ord, Hash, Structural)]
pub struct Date {
    pub year: i32,
    pub month: u8,
    pub day: u8,
}

/// The metadata record attached to one replay's results.
#[derive(Debug, Clone)]
pub struct Metadata {
    pub name: Option<String>,
    pub date: Date,
    pub playlist: String,
}

impl Metadata {
    pub fn new(name: Option<String>, date: Date, playlist: String) -> (r: Self)
        ensures
            r == (Metadata { name, date, playlist }),
    {
        Self { name, date, playlist }
    }
}

} // verus!
