use vstd::prelude::*;
use crate::text::chars_of;
use vstd::string::StringExecFns;

verus! {

/// Relies on num_cpus::get: the number of logical CPUs available, which its
/// documentation says is always at least 1.
#[verifier::external_body]
fn available_cpus() -> (r: usize)
    ensures
        r >= 1,
{
    num_cpus::get()
}

/// The number of threads to use: the requested number, or all CPUs when none
/// (0) or more than the CPUs are requested.
pub open spec fn thread_count_of(requested: nat, cpus: nat) -> nat {
    if requested == 0 || requested > cpus {
        cpus
    } else {
        requested
    }
}

/// The number of threads to use on a machine with `cpus` CPUs (see `thread_count_of`).
pub fn thread_count(requested: usize, cpus: usize) -> (r: usize)
    ensures
        r == thread_count_of(requested as nat, cpus as nat),
{
    let t = if requested > cpus {
        cpus
    } else {
        requested
    };
    if t > 0 {
        t
    } else {
        cpus
    }
}

/// The number of threads to use on this machine for a request; never more than
/// the CPUs available, and at least one.
pub fn set_threads(requested: usize) -> (r: usize)
    ensures
        r >= 1,
        requested >= 1 ==> r <= requested,
{
    let cpus = available_cpus();
    thread_count(requested, cpus)
}

/// Whether `c` is a decimal digit.
pub open spec fn is_digit(c: char) -> bool {
    '0' <= c && c <= '9'
}

/// Value of a string of decimal digits.
pub open spec fn decimal_value(s: Seq<char>) -> nat
    decreases s.len(),
{
    if s.len() == 0 {
        0
    } else {
        decimal_value(s.drop_last()) * 10 + (s.last() as u32 - '0' as u32) as nat
    }
}

/// The digits of an unsigned number as written: an optional `+`, then at least one digit.
pub open spec fn digits_of(s: Seq<char>) -> Seq<char> {
    if s.len() > 0 && s[0] == '+' {
        s.subrange(1, s.len() as int)
    } else {
        s
    }
}

/// The value of `s` as an unsigned number, if it writes one that fits in `usize`.
pub open spec fn parse_count(s: Seq<char>) -> Option<nat> {
    let d = digits_of(s);
    if d.len() > 0 && (forall|i: int| 0 <= i < d.len() ==> is_digit(#[trigger] d[i]))
        && decimal_value(d) <= usize::MAX {
        Some(decimal_value(d))
    } else {
        None
    }
}

proof fn lemma_decimal_prefix_le(s: Seq<char>, i: int)
    requires
        0 <= i <= s.len(),
        forall|j: int| 0 <= j < s.len() ==> is_digit(#[trigger] s[j]),
    ensures
        decimal_value(s.take(i)) <= decimal_value(s),
    decreases s.len(),
{
    if i < s.len() {
        assert(s.drop_last().take(i) =~= s.take(i));
        assert forall|j: int| 0 <= j < s.drop_last().len() implies is_digit(#[trigger] s.drop_last()[j]) by {
            assert(s.drop_last()[j] == s[j]);
        }
        lemma_decimal_prefix_le(s.drop_last(), i);
        assert(decimal_value(s) >= decimal_value(s.drop_last()) * 10);
        assert(decimal_value(s.drop_last()) * 10 >= decimal_value(s.drop_last())) by (nonlinear_arith);
    } else {
        assert(s.take(i) =~= s);
    }
}

/// Reads a threshold in percent: a number from 0 to 100.
pub fn threshold_in_range(s: &str) -> (r: Result<usize, String>)
    ensures
        match r {
            Ok(t) => parse_count(s@) == Some(t as nat) && t <= 100,
            Err(e) => match parse_count(s@) {
                None => e@ == "Not a number"@,
                Some(v) => v > 100 && e@ == "Threshold `"@ + s@ + "` is not in range 0 to 100"@,
            },
        },
{
    let cs = chars_of(s);
    let start: usize = if cs.len() > 0 && cs[0] == '+' {
        1
    } else {
        0
    };
    let ghost d = digits_of(s@);
    proof {
        assert(d =~= cs@.subrange(start as int, cs@.len() as int));
    }
    if start >= cs.len() {
        return Err(String::from_str("Not a number"));
    }
    let mut acc: usize = 0;
    let mut i = start;
    proof {
        assert(d.take(0) =~= Seq::<char>::empty());
    }
    while i < cs.len()
        invariant
            start <= i <= cs@.len(),
            cs@ == s@,
            d == cs@.subrange(start as int, cs@.len() as int),
            d == digits_of(s@),
            forall|j: int| 0 <= j < i - start ==> is_digit(#[trigger] d[j]),
            acc as nat == decimal_value(d.take(i - start)),
        decreases cs@.len() - i,
    {
        let c = cs[i];
        proof {
            assert(d[i - start] == c);
        }
        if !('0' <= c && c <= '9') {
            proof {
                assert(!is_digit(d[i - start]));
                assert(parse_count(s@).is_none());
            }
            return Err(String::from_str("Not a number"));
        }
        let dv = (c as u32 - '0' as u32) as usize;
        proof {
            assert(d.take(i - start + 1).drop_last() =~= d.take(i - start));
            assert(d.take(i - start + 1).last() == c);
        }
        if acc > (usize::MAX - dv) / 10 {
            proof {
                assert((acc as nat) * 10 + (dv as nat) > usize::MAX) by (nonlinear_arith)
                    requires
                        acc > (usize::MAX - dv) / 10,
                        dv <= 9,
                ;
                assert(decimal_value(d.take(i - start + 1)) == (acc as nat) * 10 + (dv as nat));
                if forall|j: int| 0 <= j < d.len() ==> is_digit(#[trigger] d[j]) {
                    lemma_decimal_prefix_le(d, i - start + 1);
                }
                assert(parse_count(s@).is_none());
            }
            return Err(String::from_str("Not a number"));
        }
        proof {
            assert((acc as nat) * 10 + (dv as nat) <= usize::MAX) by (nonlinear_arith)
                requires
                    acc <= (usize::MAX - dv) / 10,
                    dv <= 9,
            ;
        }
        acc = acc * 10 + dv;
        i = i + 1;
    }
    proof {
        assert(d.take(i - start) =~= d);
    }
    if acc > 100 {
        Err(String::from_str("Threshold `").concat(s).concat("` is not in range 0 to 100"))
    } else {
        Ok(acc)
    }
}

} // verus!
