//! Counting the validated links, and reading an exit code.

use vstd::prelude::*;
use crate::lookup::{digits_value, is_digit, parse_digits};
use crate::text::chars_of;

verus! {

/// The number of links that passed and that failed validation.
pub struct Counter {
    success: i32,
    failed: i32,
}

impl Counter {
    #[verifier::type_invariant]
    spec fn counts_non_negative(self) -> bool {
        self.success >= 0 && self.failed >= 0
    }

    /// The number of links that passed.
    pub closed spec fn passed(self) -> nat {
        self.success as nat
    }

    /// The number of links that failed.
    pub closed spec fn rejected(self) -> nat {
        self.failed as nat
    }

    /// A counter with nothing counted.
    pub fn new() -> (res: Counter)
        ensures
            res.passed() == 0,
            res.rejected() == 0,
    {
        Counter { success: 0, failed: 0 }
    }

    /// Counts one more link, as passed when `ok` holds and as failed when it
    /// does not.
    pub fn record(&mut self, ok: bool)
        requires
            ok ==> old(self).passed() < i32::MAX,
            !ok ==> old(self).rejected() < i32::MAX,
        ensures
            final(self).passed() == old(self).passed() + (if ok { 1nat } else { 0nat }),
            final(self).rejected() == old(self).rejected() + (if ok { 0nat } else { 1nat }),
    {
        proof {
            use_type_invariant(&*self);
        }
        if ok {
            self.success = self.success + 1;
        } else {
            self.failed = self.failed + 1;
        }
    }

    /// The number of links that passed.
    pub fn success(&self) -> (res: i32)
        ensures
            res == self.passed(),
    {
        proof {
            use_type_invariant(self);
        }
        self.success
    }

    /// The number of links that failed.
    pub fn failed(&self) -> (res: i32)
        ensures
            res == self.rejected(),
    {
        proof {
            use_type_invariant(self);
        }
        self.failed
    }
}

/// The final tally of a counter: links that passed, links that failed, and
/// all links validated.
pub fn unwrap(counter: &Counter) -> (res: (i32, i32, i32))
    requires
        counter.passed() + counter.rejected() <= i32::MAX,
    ensures
        res.0 == counter.passed(),
        res.1 == counter.rejected(),
        res.2 == counter.passed() + counter.rejected(),
{
    let success_count = counter.success();
    let failed_count = counter.failed();
    (success_count, failed_count, success_count + failed_count)
}

/// The exit status of a run: 1 when some link failed or the wiki that was
/// cloned could not be found, 0 otherwise.
pub fn exit_status(failed: i32, wiki_missing: bool) -> (res: i32)
    ensures
        res == (if failed > 0 || wiki_missing {
            1i32
        } else {
            0i32
        }),
{
    if failed > 0 || wiki_missing {
        1
    } else {
        0
    }
}

/// Every character of `d` is an ASCII digit.
pub open spec fn all_digits(d: Seq<char>) -> bool {
    forall|i: int| 0 <= i < d.len() ==> is_digit(#[trigger] d[i])
}

/// The value of `s` read as an `i32` the way `str::parse` reads it: an
/// optional `+` or `-`, then one or more ASCII digits, the value in range.
pub open spec fn parse_i32(s: Seq<char>) -> Option<int> {
    let signed = s.len() > 0 && (s[0] == '+' || s[0] == '-');
    let digits = if signed {
        s.drop_first()
    } else {
        s
    };
    let magnitude = digits_value(digits) as int;
    let value = if signed && s[0] == '-' {
        -magnitude
    } else {
        magnitude
    };
    if digits.len() > 0 && all_digits(digits) && i32::MIN <= value <= i32::MAX {
        Some(value)
    } else {
        None
    }
}

/// The exit code that `s` holds, or 0 when it holds none.
pub open spec fn exit_code_of(s: Seq<char>) -> int {
    match parse_i32(s) {
        Some(v) => v,
        None => 0,
    }
}

/// Reads an exit code from `s`, with 0 when `s` is not a number that fits
/// in an `i32`.
pub fn parse_exit_code(s: &str) -> (res: i32)
    ensures
        res == exit_code_of(s@),
{
    let cs = chars_of(s);
    let len = cs.len();
    let signed = len > 0 && (cs[0] == '+' || cs[0] == '-');
    let start: usize = if signed {
        1
    } else {
        0
    };
    let ghost digits = if signed {
        s@.drop_first()
    } else {
        s@
    };
    assert(digits =~= s@.subrange(start as int, len as int));
    if start >= len {
        return 0;
    }
    let mut i = start;
    while i < len
        invariant
            start <= i <= len,
            len == cs@.len(),
            cs@ == s@,
            digits == s@.subrange(start as int, len as int),
            signed == (s@.len() > 0 && (s@[0] == '+' || s@[0] == '-')),
            digits == (if signed {
                s@.drop_first()
            } else {
                s@
            }),
            forall|k: int| start <= k < i ==> is_digit(#[trigger] cs@[k]),
        decreases len - i,
    {
        if !(48 <= cs[i] as u32 && cs[i] as u32 <= 57) {
            assert(digits[i - start] == cs@[i as int]);
            assert(!is_digit(digits[i - start]));
            return 0;
        }
        i = i + 1;
    }
    assert forall|k: int| 0 <= k < digits.len() implies is_digit(#[trigger] digits[k]) by {
        assert(digits[k] == cs@[k + start]);
    }
    match parse_digits(&cs, start, len) {
        Some(m) => {
            if signed && cs[0] == '-' {
                if m <= 2147483648 {
                    return (0 - (m as i64)) as i32;
                }
            } else if m <= 2147483647 {
                return m as i32;
            }
            0
        },
        None => 0,
    }
}

} // verus!
