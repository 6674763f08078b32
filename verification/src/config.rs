//! The configuration values the program runs with, drawn from the raw
//! key values of a configuration file's main section. Reading the file
//! itself is the caller's business; the rules for interpreting the
//! values live here.

use vstd::prelude::*;
use crate::text::str_eq;

verus! {

/// The configuration: the owner's identity, the transport token, and
/// whether the auto-notify path runs.
pub struct Config {
    pub owner_id: u64,
    pub token: String,
    pub auto_subscribe: bool,
}

/// A decimal digit.
pub open spec fn is_digit(c: char) -> bool {
    '0' <= c && c <= '9'
}

/// The value of one decimal digit.
pub open spec fn digit_val(c: char) -> int {
    c as int - '0' as int
}

/// Every character is a decimal digit.
pub open spec fn all_digits(s: Seq<char>) -> bool {
    forall|i: int| 0 <= i < s.len() ==> is_digit(#[trigger] s[i])
}

/// The number a run of decimal digits denotes.
pub open spec fn digits_val(s: Seq<char>) -> int
    decreases s.len(),
{
    if s.len() == 0 {
        0
    } else {
        digits_val(s.drop_last()) * 10 + digit_val(s.last())
    }
}

/// The digit run of an unsigned decimal text: everything after an
/// optional leading plus sign.
pub open spec fn spec_digits(s: Seq<char>) -> Seq<char> {
    if s.len() > 0 && s[0] == '+' {
        s.drop_first()
    } else {
        s
    }
}

/// The number an unsigned decimal text denotes: an optional leading
/// plus sign, then at least one digit, with a value that fits in 64
/// bits; anything else denotes nothing.
pub open spec fn spec_parse_u64(s: Seq<char>) -> Option<u64> {
    let digits = spec_digits(s);
    if digits.len() > 0 && all_digits(digits) && digits_val(digits) <= u64::MAX {
        Some(digits_val(digits) as u64)
    } else {
        None
    }
}

proof fn lemma_digits_val_nonneg(s: Seq<char>)
    requires
        all_digits(s),
    ensures
        digits_val(s) >= 0,
    decreases s.len(),
{
    if s.len() > 0 {
        assert(all_digits(s.drop_last())) by {
            assert(forall|i: int| 0 <= i < s.len() - 1 ==> s.drop_last()[i] == s[i]);
        }
        lemma_digits_val_nonneg(s.drop_last());
        assert(is_digit(s.last()));
    }
}

/// A longer run of digits denotes no smaller a number.
proof fn lemma_digits_val_mono(s: Seq<char>, k: int)
    requires
        all_digits(s),
        0 <= k <= s.len(),
    ensures
        digits_val(s) >= digits_val(s.take(k)),
    decreases s.len() - k,
{
    if k == s.len() {
        assert(s.take(k) =~= s);
    } else {
        lemma_digits_val_mono(s, k + 1);
        let t = s.take(k + 1);
        assert(t.drop_last() =~= s.take(k));
        assert(all_digits(t)) by {
            assert(forall|i: int| 0 <= i < t.len() ==> t[i] == s[i]);
        }
        assert(all_digits(s.take(k))) by {
            assert(forall|i: int| 0 <= i < k ==> s.take(k)[i] == s[i]);
        }
        lemma_digits_val_nonneg(s.take(k));
        assert(is_digit(t.last()));
        assert(digits_val(t) == digits_val(s.take(k)) * 10 + digit_val(t.last()));
    }
}

/// The number an unsigned decimal text denotes; see `spec_parse_u64`.
pub fn parse_u64(s: &str) -> (r: Option<u64>)
    ensures
        r == spec_parse_u64(s@),
{
    let n = s.unicode_len();
    let start: usize = if n > 0 && s.get_char(0) == '+' {
        1
    } else {
        0
    };
    let ghost digits = spec_digits(s@);
    proof {
        assert(digits =~= s@.skip(start as int));
    }
    if n == start {
        return None;
    }
    let mut acc: u64 = 0;
    let mut i = start;
    while i < n
        invariant
            n == s@.len(),
            start <= i <= n,
            start < n,
            digits == spec_digits(s@),
            digits =~= s@.skip(start as int),
            all_digits(s@.subrange(start as int, i as int)),
            acc == digits_val(s@.subrange(start as int, i as int)),
        decreases n - i,
    {
        let ghost dpre = s@.subrange(start as int, i as int);
        let ghost dpre1 = s@.subrange(start as int, i + 1);
        proof {
            assert(dpre1.drop_last() =~= dpre);
            assert(dpre1.last() == s@[i as int]);
        }
        let c = s.get_char(i);
        if !('0' <= c && c <= '9') {
            proof {
                assert(!is_digit(digits[i - start]));
                assert(digits[i - start] == s@[i as int]);
                assert(!all_digits(digits));
            }
            return None;
        }
        let d: u64 = (c as u32 - '0' as u32) as u64;
        assert(d == digit_val(c));
        if acc > (u64::MAX - d) / 10 {
            proof {
                assert(all_digits(dpre1));
                assert(acc as int * 10 + d as int > u64::MAX as int) by (nonlinear_arith)
                    requires
                        acc as int > (u64::MAX as int - d as int) / 10,
                        0 <= d as int <= 9,
                        acc as int >= 0,
                {
                }
                assert(digits_val(dpre1) == acc * 10 + d);
                assert(digits_val(dpre1) > u64::MAX);
                assert(dpre1 =~= digits.take(i + 1 - start));
                if all_digits(digits) {
                    lemma_digits_val_mono(digits, i + 1 - start);
                    assert(digits_val(digits) > u64::MAX);
                }
            }
            return None;
        }
        acc = acc * 10 + d;
        i += 1;
    }
    proof {
        assert(s@.subrange(start as int, n as int) =~= digits);
    }
    Some(acc)
}

/// The truth value a text denotes: exactly `true` or `false`.
pub open spec fn spec_parse_bool(s: Seq<char>) -> Option<bool> {
    if s == "true"@ {
        Some(true)
    } else if s == "false"@ {
        Some(false)
    } else {
        None
    }
}

/// The truth value a text denotes; see `spec_parse_bool`.
pub fn parse_bool(s: &str) -> (r: Option<bool>)
    ensures
        r == spec_parse_bool(s@),
{
    if str_eq(s, "true") {
        Some(true)
    } else if str_eq(s, "false") {
        Some(false)
    } else {
        None
    }
}

/// The auto-notify setting a raw value denotes: absent or unreadable
/// values mean on.
pub open spec fn spec_auto_value(a: Option<Seq<char>>) -> bool {
    match a {
        Some(s) => match spec_parse_bool(s) {
            Some(b) => b,
            None => true,
        },
        None => true,
    }
}

/// The configuration the raw main-section values denote: `token` is
/// taken as it stands and is required; `owner_id` is required and must
/// read as a number; `auto_subscribe` defaults to on.
pub fn config_from_values(token: Option<&str>, owner_id: Option<&str>, auto_subscribe: Option<
    &str,
>) -> (r: Option<Config>)
    ensures
        match r {
            Some(c) => {
                &&& token matches Some(t) && c.token@ == t@
                &&& owner_id matches Some(o) && Some(c.owner_id) == spec_parse_u64(o@)
                &&& c.auto_subscribe == spec_auto_value(
                    match auto_subscribe {
                        Some(a) => Some(a@),
                        None => None,
                    },
                )
            },
            None => token is None || owner_id is None || (owner_id matches Some(o)
                && spec_parse_u64(o@) is None),
        },
{
    let t = match token {
        Some(t) => t,
        None => {
            return None;
        },
    };
    let o = match owner_id {
        Some(o) => o,
        None => {
            return None;
        },
    };
    let owner = match parse_u64(o) {
        Some(v) => v,
        None => {
            return None;
        },
    };
    let auto = match auto_subscribe {
        Some(a) => match parse_bool(a) {
            Some(b) => b,
            None => true,
        },
        None => true,
    };
    Some(Config { owner_id: owner, token: String::from_str(t), auto_subscribe: auto })
}

} // verus!
