//! The protocol between the frontend and the compiler wrapper.

use vstd::prelude::*;
use vstd::string::{StringExecFns, StringSliceAdditionalSpecFns};

verus! {

/// The protocol version that this library speaks.
pub const VERSION: u32 = 2;

/// The argument with which the frontend asks the wrapper for its protocol version.
pub const VERSION_ARGUMENT: &'static str = "--hawk-protocol-version";

/// The environment variable that carries the collection options.
pub const COLLECTION_OPTIONS_ENV: &'static str = "HAWK_COLLECTION_OPTIONS";

/// The environment variable that names the directory the wrapper writes
/// fragments to.
pub const OUTPUT_DIR_ENV: &'static str = "HAWK_OUTPUT_DIR";

/// The environment variable that names the crate of the production binary.
pub const ROOT_CRATE_ENV: &'static str = "HAWK_ROOT_CRATE";

/// The environment variable that names the fix plan a fix compilation applies.
pub const FIX_PLAN_ENV: &'static str = "HAWK_FIX_PLAN";

/// The environment variable that carries the frontend's protocol version.
pub const VERSION_ENV: &'static str = "HAWK_PROTOCOL_VERSION";

/// The environment variable that tells the wrapper which consumers compile.
pub const CONSUMER_MODE_ENV: &'static str = "HAWK_CONSUMER_MODE";

/// The environment variable that identifies one analysis run.
pub const RUN_ID_ENV: &'static str = "HAWK_RUN_ID";

/// The environment variable that names where a compiler probe reports.
pub const RUSTC_PROBE_ENV: &'static str = "HAWK_RUSTC_PROBE";

/// The environment variable that carries the token of a compiler probe.
pub const RUSTC_PROBE_TOKEN_ENV: &'static str = "HAWK_RUSTC_PROBE_TOKEN";

/// An ASCII decimal digit.
pub open spec fn is_digit(b: u8) -> bool {
    48 <= b <= 57
}

/// The value of a sequence of ASCII decimal digits.
pub open spec fn digits_value(s: Seq<u8>) -> nat
    decreases s.len(),
{
    if s.len() == 0 {
        0
    } else {
        digits_value(s.drop_last()) * 10 + (s.last() - 48) as nat
    }
}

/// The digits after an optional leading `+`.
pub open spec fn unsigned_digits(s: Seq<u8>) -> Seq<u8> {
    if s.len() > 0 && s[0] == 43 {
        s.drop_first()
    } else {
        s
    }
}

/// The `u32` that the text `s` denotes: an optional `+` and one or more
/// decimal digits whose value fits.
pub open spec fn parsed_u32(s: Seq<u8>) -> Option<u32> {
    let d = unsigned_digits(s);
    if d.len() > 0 && (forall|i: int| 0 <= i < d.len() ==> is_digit(#[trigger] d[i])) && digits_value(d)
        <= u32::MAX {
        Some(digits_value(d) as u32)
    } else {
        None
    }
}

proof fn lemma_digits_value_grows(s: Seq<u8>, i: int)
    requires
        0 <= i <= s.len(),
        forall|j: int| 0 <= j < s.len() ==> is_digit(#[trigger] s[j]),
    ensures
        digits_value(s.take(i)) <= digits_value(s),
    decreases s.len() - i,
{
    if i < s.len() {
        lemma_digits_value_grows(s, i + 1);
        assert(s.take(i + 1).drop_last() =~= s.take(i));
    } else {
        assert(s.take(i) =~= s);
    }
}

/// Reads a `u32` written in decimal.
pub fn parse_u32(text: &str) -> (r: Option<u32>)
    ensures
        r == parsed_u32(text.spec_bytes()),
{
    let bytes = text.as_bytes();
    let ghost s = text.spec_bytes();
    let start: usize = if bytes.len() > 0 && bytes[0] == 43 {
        1
    } else {
        0
    };
    let ghost d = unsigned_digits(s);
    proof {
        assert(d =~= s.skip(start as int));
    }
    if start == bytes.len() {
        return None;
    }
    let mut value: u64 = 0;
    let mut i: usize = start;
    while i < bytes.len()
        invariant
            bytes@ == s,
            s == text.spec_bytes(),
            d == unsigned_digits(s),
            d == s.skip(start as int),
            start <= i <= bytes@.len(),
            forall|j: int| start <= j < i ==> is_digit(#[trigger] bytes@[j]),
            value == digits_value(d.take(i - start)),
            value <= u32::MAX,
        decreases bytes@.len() - i,
    {
        let b = bytes[i];
        if b < 48 || b > 57 {
            proof {
                assert(d[i - start] == bytes@[i as int]);
                assert(!is_digit(d[i - start]));
            }
            return None;
        }
        proof {
            assert(d.take(i - start + 1).drop_last() =~= d.take(i - start));
            assert(d.take(i - start + 1).last() == b);
        }
        value = value * 10 + (b - 48) as u64;
        if value > 4294967295 {
            proof {
                assert(value == digits_value(d.take(i - start + 1)));
                if forall|k: int| 0 <= k < d.len() ==> is_digit(#[trigger] d[k]) {
                    lemma_digits_value_grows(d, i - start + 1);
                }
            }
            return None;
        }
        i = i + 1;
    }
    proof {
        assert(d.take(i - start) =~= d);
        assert forall|j: int| 0 <= j < d.len() implies is_digit(#[trigger] d[j]) by {
            assert(d[j] == bytes@[start + j]);
        }
    }
    Some(value as u32)
}

/// The decimal digits of `n`.
pub open spec fn decimal(n: nat) -> Seq<char>
    decreases n,
{
    if n < 10 {
        seq![digit_char(n)]
    } else {
        decimal(n / 10).push(digit_char(n % 10))
    }
}

/// The character of a decimal digit.
pub open spec fn digit_char(d: nat) -> char {
    if d == 0 {
        '0'
    } else if d == 1 {
        '1'
    } else if d == 2 {
        '2'
    } else if d == 3 {
        '3'
    } else if d == 4 {
        '4'
    } else if d == 5 {
        '5'
    } else if d == 6 {
        '6'
    } else if d == 7 {
        '7'
    } else if d == 8 {
        '8'
    } else {
        '9'
    }
}

/// The text of one decimal digit.
fn digit_text(d: u64) -> (r: &'static str)
    requires
        d < 10,
    ensures
        r@ == seq![digit_char(d as nat)],
{
    proof {
        reveal_strlit("0");
        reveal_strlit("1");
        reveal_strlit("2");
        reveal_strlit("3");
        reveal_strlit("4");
        reveal_strlit("5");
        reveal_strlit("6");
        reveal_strlit("7");
        reveal_strlit("8");
        reveal_strlit("9");
    }
    if d == 0 {
        "0"
    } else if d == 1 {
        "1"
    } else if d == 2 {
        "2"
    } else if d == 3 {
        "3"
    } else if d == 4 {
        "4"
    } else if d == 5 {
        "5"
    } else if d == 6 {
        "6"
    } else if d == 7 {
        "7"
    } else if d == 8 {
        "8"
    } else {
        "9"
    }
}

/// Appends the decimal digits of `n` to `out`.
pub fn push_decimal(out: &mut String, n: u64)
    ensures
        final(out)@ == old(out)@ + decimal(n as nat),
    decreases n,
{
    if n >= 10 {
        push_decimal(out, n / 10);
    }
    out.append(digit_text(n % 10));
    proof {
        if n >= 10 {
            assert(decimal(n as nat) == decimal((n / 10) as nat).push(digit_char((n % 10) as nat)));
        }
    }
}

/// Why the frontend's protocol version was refused.
#[derive(Clone, Copy, Debug, PartialEq, Eq, Structural)]
pub enum ProtocolError {
    /// The version is not a decimal `u32`.
    Invalid,
    /// The frontend speaks another version.
    Mismatch { version: u32 },
}

/// The message of a protocol error.
pub open spec fn protocol_message(e: ProtocolError) -> Seq<char> {
    match e {
        ProtocolError::Invalid => "Hawk frontend provided an invalid compiler driver protocol version"@,
        ProtocolError::Mismatch { version } => "Hawk frontend uses compiler driver protocol "@ + decimal(
            version as nat,
        ) + ", but this driver uses protocol "@ + decimal(VERSION as nat)
            + "; install `cargo-hawk` and `cargo-hawk-driver` from the same release"@,
    }
}

impl ProtocolError {
    /// The message of this error.
    pub fn message(&self) -> (r: String)
        ensures
            r@ == protocol_message(*self),
    {
        match self {
            ProtocolError::Invalid => String::from_str(
                "Hawk frontend provided an invalid compiler driver protocol version",
            ),
            ProtocolError::Mismatch { version } => {
                let mut r = String::from_str("Hawk frontend uses compiler driver protocol ");
                push_decimal(&mut r, *version as u64);
                r.append(", but this driver uses protocol ");
                push_decimal(&mut r, VERSION as u64);
                r.append("; install `cargo-hawk` and `cargo-hawk-driver` from the same release");
                r
            },
        }
    }
}

/// Accepts the frontend's protocol version when it is this library's.
pub fn validate_frontend_protocol_version(version: &str) -> (r: Result<(), ProtocolError>)
    ensures
        r == match parsed_u32(version.spec_bytes()) {
            None => Err(ProtocolError::Invalid),
            Some(v) => if v == VERSION {
                Ok(())
            } else {
                Err(ProtocolError::Mismatch { version: v })
            },
        },
{
    match parse_u32(version) {
        None => Err(ProtocolError::Invalid),
        Some(v) => if v != VERSION {
            Err(ProtocolError::Mismatch { version: v })
        } else {
            Ok(())
        },
    }
}

} // verus!
