//! Identifiers of requests.

use vstd::prelude::*;

verus! {

/// The identifier of a request made at `now_millis`: `r` and the last six
/// decimal digits of the time, without leading zeros.
pub open spec fn request_id(now_millis: u64) -> Seq<char> {
    seq!['r'] + crate::text::decimal((now_millis % 1000000) as nat)
}

/// The identifier of a request made at `now_millis` (milliseconds since the epoch).
pub fn gen_id(now_millis: u64) -> (id: String)
    ensures
        id@ == request_id(now_millis),
{
    let mut out: Vec<char> = Vec::new();
    out.push('r');
    crate::text::push_decimal(&mut out, now_millis % 1000000);
    assert(out@ =~= request_id(now_millis));
    crate::text::string_of(&out)
}

} // verus!

verus! {

/// A request identifier is `r` and one to six digits.
pub proof fn lemma_request_id_shape(now_millis: u64)
    ensures
        request_id(now_millis)[0] == 'r',
        2 <= request_id(now_millis).len() <= 7,
{
    let n = (now_millis % 1000000) as nat;
    crate::text::lemma_decimal_len(n);
    lemma_decimal_at_most_six(n);
}

/// Ten to the power `k`.
pub open spec fn pow10(k: nat) -> nat
    decreases k,
{
    if k == 0 {
        1
    } else {
        10 * pow10((k - 1) as nat)
    }
}

proof fn lemma_decimal_len_le(n: nat, k: nat)
    requires
        k >= 1,
        n < pow10(k),
    ensures
        crate::text::decimal(n).len() <= k,
    decreases k,
{
    if n >= 10 {
        assert(k >= 2) by {
            if k == 1 {
                assert(pow10(1) == 10 * pow10(0));
            }
        }
        assert(pow10(k) == 10 * pow10((k - 1) as nat));
        assert(n / 10 < pow10((k - 1) as nat));
        lemma_decimal_len_le(n / 10, (k - 1) as nat);
    }
}

proof fn lemma_decimal_at_most_six(n: nat)
    requires
        n < 1000000,
    ensures
        crate::text::decimal(n).len() <= 6,
{
    reveal_with_fuel(pow10, 7);
    assert(pow10(6) == 1000000);
    lemma_decimal_len_le(n, 6);
}

} // verus!
