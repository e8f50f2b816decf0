//! The progress surface's texts: the spinner's tick strings and the status
//! line shown after each sample. Purely observational — nothing here feeds
//! back into the sampling decisions.

use vstd::prelude::*;

use vstd::arithmetic::div_mod::lemma_fundamental_div_mod_converse;

use crate::decimal::{dec_digits, padded_digits, u64_to_dec, u64_to_padded};
use crate::trace::NANOS_PER_SEC;

verus! {

/// The spinner's tick strings: every prefix of the banner in growing
/// order, from the empty prefix to the whole banner, each repeated `rep`
/// times in a row, so the banner appears to be typed out slowly.
pub fn tick_strings(rep: usize, banner: &str) -> (v: Vec<String>)
    requires
        rep * (banner@.len() + 1) <= usize::MAX,
    ensures
        v@.len() == rep * (banner@.len() + 1),
        forall|i: int|
            0 <= i < v@.len() ==> #[trigger] v@[i]@ == banner@.subrange(0, i / rep as int),
{
    if rep == 0 {
        let v: Vec<String> = Vec::new();
        return v;
    }
    let n = banner.unicode_len();
    proof {
        assert(1 * (banner@.len() + 1) <= rep * (banner@.len() + 1)) by (nonlinear_arith)
            requires
                rep >= 1,
                banner@.len() >= 0,
        ;
    }
    let mut v: Vec<String> = Vec::new();
    let mut p: usize = 0;
    while p <= n
        invariant
            rep >= 1,
            n == banner@.len(),
            n + 1 <= usize::MAX,
            rep * (n + 1) <= usize::MAX,
            0 <= p <= n + 1,
            v@.len() == p * rep,
            forall|i: int|
                0 <= i < v@.len() ==> #[trigger] v@[i]@ == banner@.subrange(0, i / rep as int),
        decreases n + 1 - p,
    {
        let prefix = banner.substring_char(0, p);
        let mut r: usize = 0;
        proof {
            assert(p * rep + rep <= rep * (n + 1)) by (nonlinear_arith)
                requires
                    0 <= p <= n,
                    rep >= 1,
            ;
        }
        while r < rep
            invariant
                rep >= 1,
                n == banner@.len(),
                0 <= p <= n,
                0 <= r <= rep,
                p * rep + rep <= usize::MAX,
                prefix@ == banner@.subrange(0, p as int),
                v@.len() == p * rep + r,
                forall|i: int|
                    0 <= i < v@.len() ==> #[trigger] v@[i]@ == banner@.subrange(0, i / rep as int),
            decreases rep - r,
        {
            proof {
                lemma_fundamental_div_mod_converse(
                    (p * rep + r) as int,
                    rep as int,
                    p as int,
                    r as int,
                );
            }
            v.push(String::from_str(prefix));
            r = r + 1;
        }
        proof {
            assert((p + 1) * rep == p * rep + rep) by (nonlinear_arith);
        }
        p = p + 1;
    }
    proof {
        assert((n + 1) * rep == rep * (n + 1)) by (nonlinear_arith);
    }
    v
}

/// A duration in nanoseconds rendered as seconds with nine fractional
/// digits and a unit.
pub open spec fn duration_secs_display(nanos: u64) -> Seq<char> {
    dec_digits((nanos / NANOS_PER_SEC) as nat) + seq!['.'] + padded_digits(
        (nanos % NANOS_PER_SEC) as nat,
        9,
    ) + seq!['s']
}

/// The status line: which scale is being timed and the most recent
/// sample's duration.
pub open spec fn status_message_spec(scale: u32, last_nanos: u64) -> Seq<char> {
    "Timing enums with "@ + dec_digits(scale as nat) + " values (most recent time: "@
        + duration_secs_display(last_nanos) + ")"@
}

/// Renders the status line shown after one sample.
pub fn status_message(scale: u32, last_duration_nanos: u64) -> (s: String)
    ensures
        s@ == status_message_spec(scale, last_duration_nanos),
{
    let mut out = String::from_str("Timing enums with ");
    let d = u64_to_dec(scale as u64);
    out.append(d.as_str());
    out.append(" values (most recent time: ");
    let secs = u64_to_dec(last_duration_nanos / NANOS_PER_SEC);
    out.append(secs.as_str());
    out.append(".");
    let frac = u64_to_padded(last_duration_nanos % NANOS_PER_SEC, 9);
    out.append(frac.as_str());
    out.append("s");
    out.append(")");
    proof {
        reveal_strlit(".");
        reveal_strlit("s");
        assert("."@ =~= seq!['.']);
        assert("s"@ =~= seq!['s']);
        assert(out@ =~= status_message_spec(scale, last_duration_nanos));
    }
    out
}

} // verus!
