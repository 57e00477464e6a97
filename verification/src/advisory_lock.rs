//! The database advisory-lock helpers a host program needs: the numeric
//! key derived from a name, and the statements that take and release the
//! lock. Running the statements is the host's business.

use vstd::prelude::*;

use crate::text::dec_str;
use crate::text::u64_to_string;

verus! {

/// The sum of a string's character code points.
pub open spec fn char_sum(s: Seq<char>) -> int
    decreases s.len(),
{
    if s.len() == 0 {
        0
    } else {
        char_sum(s.drop_last()) + (s.last() as u32) as int
    }
}

/// A prefix never sums to more than the whole string.
proof fn lemma_char_sum_prefix(s: Seq<char>, i: int)
    requires
        0 <= i <= s.len(),
    ensures
        char_sum(s.take(i)) <= char_sum(s),
        char_sum(s.take(i)) >= 0,
    decreases s.len() - i,
{
    if i == s.len() {
        assert(s.take(i) =~= s);
        lemma_char_sum_nonneg(s);
    } else {
        lemma_char_sum_prefix(s, i + 1);
        assert(s.take(i + 1).drop_last() =~= s.take(i));
        lemma_char_sum_nonneg(s.take(i));
    }
}

proof fn lemma_char_sum_nonneg(s: Seq<char>)
    ensures
        char_sum(s) >= 0,
    decreases s.len(),
{
    if s.len() > 0 {
        lemma_char_sum_nonneg(s.drop_last());
    }
}

/// The advisory-lock key for a name: the character code points summed.
/// Names whose sum does not fit the key type are a caller error.
#[verifier::loop_isolation(false)]
pub fn make_unique_key(x: &str) -> (r: u32)
    requires
        char_sum(x@) <= u32::MAX,
    ensures
        r == char_sum(x@),
{
    let n = x.unicode_len();
    let mut sum: u32 = 0;
    let mut i: usize = 0;
    proof {
        assert(x@.take(0int) =~= Seq::<char>::empty());
    }
    while i < n
        invariant
            n == x@.len(),
            0 <= i <= n,
            sum == char_sum(x@.take(i as int)),
        decreases n - i,
    {
        let c = x.get_char(i);
        proof {
            lemma_char_sum_prefix(x@, i + 1);
            assert(x@.take(i + 1).drop_last() =~= x@.take(i as int));
            assert(x@.take(i + 1).last() == x@[i as int]);
        }
        sum = sum + (c as u32);
        i = i + 1;
    }
    proof {
        assert(x@.take(n as int) =~= x@);
    }
    sum
}

/// The statement that tries to take the advisory lock for `key`.
pub fn lock_statement(key: u32) -> (r: String)
    ensures
        r@ == "SELECT pg_try_advisory_lock("@ + dec_str(key as int) + ") as locked"@,
{
    let mut out = String::from_str("SELECT pg_try_advisory_lock(");
    let digits = u64_to_string(key as u64);
    out.append(digits.as_str());
    out.append(") as locked");
    out
}

/// The statement that releases the advisory lock for `key`.
pub fn unlock_statement(key: u32) -> (r: String)
    ensures
        r@ == "SELECT pg_advisory_unlock("@ + dec_str(key as int) + ") as was_locked"@,
{
    let mut out = String::from_str("SELECT pg_advisory_unlock(");
    let digits = u64_to_string(key as u64);
    out.append(digits.as_str());
    out.append(") as was_locked");
    out
}

} // verus!
