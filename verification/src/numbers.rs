//! Reading unsigned decimal numbers, as `str::parse::<u32>` does.

use vstd::prelude::*;
use crate::text::chars_of;

verus! {

/// Every character of `s` is an ASCII digit.
pub open spec fn all_digits(s: Seq<char>) -> bool {
    forall|i: int| 0 <= i < s.len() ==> 48 <= #[trigger] (s[i] as u32) <= 57
}

/// The value of the decimal digits `s`.
pub open spec fn digits_value(s: Seq<char>) -> int
    decreases s.len(),
{
    if s.len() == 0 {
        0
    } else {
        digits_value(s.drop_last()) * 10 + ((s.last() as u32) - 48)
    }
}

/// The digits of `s` after an optional leading `+`.
pub open spec fn unsigned_digits(s: Seq<char>) -> Seq<char> {
    if s.len() > 0 && s[0] == '+' {
        s.drop_first()
    } else {
        s
    }
}

/// What `str::parse::<u32>` gives for `s`: the value of its digits after an
/// optional `+`, when there is at least one digit, nothing else, and the
/// value fits in a `u32`.
pub open spec fn parse_u32_spec(s: Seq<char>) -> Option<u32> {
    let d = unsigned_digits(s);
    if d.len() > 0 && all_digits(d) && digits_value(d) <= u32::MAX {
        Some(digits_value(d) as u32)
    } else {
        None
    }
}

proof fn lemma_digits_value_nonneg(s: Seq<char>)
    requires
        all_digits(s),
    ensures
        digits_value(s) >= 0,
    decreases s.len(),
{
    if s.len() > 0 {
        assert(all_digits(s.drop_last())) by {
            assert forall|i: int| 0 <= i < s.drop_last().len() implies 48 <= #[trigger] (
            s.drop_last()[i] as u32) <= 57 by {
                assert(s.drop_last()[i] == s[i]);
            }
        }
        lemma_digits_value_nonneg(s.drop_last());
        assert(48 <= (s[s.len() - 1] as u32));
    }
}

/// Reads an unsigned 32-bit decimal number as `str::parse::<u32>` does.
pub fn parse_u32(s: &str) -> (r: Option<u32>)
    ensures
        r == parse_u32_spec(s@),
{
    let v = chars_of(s);
    let start: usize = if v.len() > 0 && v[0] == '+' {
        1
    } else {
        0
    };
    let ghost d = unsigned_digits(v@);
    assert(d =~= v@.subrange(start as int, v.len() as int));
    if start == v.len() {
        return None;
    }
    // The value read so far, capped just above `u32::MAX`.
    let cap: u64 = 0x1_0000_0000;
    let mut val: u64 = 0;
    let mut i = start;
    assert(d.take(0) =~= Seq::<char>::empty());
    while i < v.len()
        invariant
            start <= i <= v.len(),
            cap == 0x1_0000_0000u64,
            v@ == s@,
            d == unsigned_digits(v@),
            d == v@.subrange(start as int, v.len() as int),
            all_digits(d.take(i - start)),
            val == if digits_value(d.take(i - start)) < cap {
                digits_value(d.take(i - start))
            } else {
                cap as int
            },
        decreases v.len() - i,
    {
        let u = v[i] as u32;
        if !(48 <= u && u <= 57) {
            proof {
                assert(d[i - start] == v@[i as int]);
                assert(!(48 <= (d[i - start] as u32) <= 57));
                assert(!all_digits(d));
            }
            return None;
        }
        let ghost p = d.take(i - start);
        let ghost q = d.take(i - start + 1);
        assert(q.drop_last() =~= p);
        assert(q.last() == v@[i as int]);
        proof {
            lemma_digits_value_nonneg(p);
            assert(all_digits(q)) by {
                assert forall|j: int| 0 <= j < q.len() implies 48 <= #[trigger] (q[j] as u32) <= 57 by {
                    if j < q.len() - 1 {
                        assert(q[j] == p[j]);
                    }
                }
            }
        }
        assert(val <= cap);
        let next = val * 10 + (u - 48) as u64;
        proof {
            let dp = digits_value(p);
            assert(digits_value(q) == dp * 10 + (u - 48));
            if dp >= cap {
                assert(dp * 10 >= cap) by (nonlinear_arith)
                    requires
                        dp >= cap,
                        cap > 0,
                ;
            }
        }
        val = if next < cap {
            next
        } else {
            cap
        };
        i = i + 1;
    }
    assert(d.take(v.len() - start) =~= d);
    if val < cap {
        Some(val as u32)
    } else {
        None
    }
}

} // verus!
