//! The hit counter behind the service's single endpoint.

use crate::codec::all_ascii_bytes;
use crate::codec::all_digit_bytes;
use crate::codec::ascii_chars_of;
use crate::codec::ascii_to_string;
use crate::codec::lemma_digits_shape;
use crate::codec::render_u64;
use crate::codec::spec_digits;
use vstd::prelude::*;

verus! {

/// The process-wide hit counter: a single integer, starting at zero,
/// bumped by exactly one for each request served.
///
/// Each bump is a single atomic step, so a batch of concurrent requests
/// is some interleaving of these steps: whatever that order turns out
/// to be, its responses are those of a sequential run of hits.
pub struct HitCount {
    pub count: u64,
}

impl HitCount {
    /// A fresh counter, as the service owns at startup.
    pub fn new() -> (r: HitCount)
        ensures
            r.count == 0,
    {
        HitCount { count: 0 }
    }

    /// Increment the counter and hand back the post-increment value.
    pub fn hit(&mut self) -> (r: u64)
        requires
            old(self).count < u64::MAX,
        ensures
            final(self).count == old(self).count + 1,
            r == final(self).count,
    {
        self.count = self.count + 1;
        self.count
    }
}

/// The text a hit's response carries: the post-increment count in decimal.
pub open spec fn spec_response(count: nat) -> Seq<char> {
    ascii_chars_of(spec_digits(count))
}

/// Serve one `GET /`: bump the shared counter and answer with the new
/// count, rendered in decimal.
pub fn index(hit_count: &mut HitCount) -> (r: String)
    requires
        old(hit_count).count < u64::MAX,
    ensures
        final(hit_count).count == old(hit_count).count + 1,
        r@ == spec_response(final(hit_count).count as nat),
{
    let count = hit_count.hit();
    let bytes = render_u64(count);
    proof {
        lemma_digits_shape(count as nat);
        assert(all_digit_bytes(bytes@));
        assert(all_ascii_bytes(bytes@));
    }
    ascii_to_string(&bytes)
}

/// Serve `n` hits in a row, collecting each response's post-increment
/// value: the counter climbs by exactly one per hit, so the values are
/// `old count + 1, old count + 2, ...` in order.
pub fn serve_hits(hit_count: &mut HitCount, n: u64) -> (r: Vec<u64>)
    requires
        old(hit_count).count + n <= u64::MAX,
    ensures
        final(hit_count).count == old(hit_count).count + n,
        r@.len() == n,
        forall|i: int| 0 <= i < n ==> r@[i] == old(hit_count).count + i + 1,
{
    let mut out: Vec<u64> = Vec::new();
    let mut served: u64 = 0;
    while served < n
        invariant
            served <= n,
            old(hit_count).count + n <= u64::MAX,
            hit_count.count == old(hit_count).count + served,
            out@.len() == served,
            forall|i: int| 0 <= i < served ==> out@[i] == old(hit_count).count + i + 1,
        decreases n - served,
    {
        let v = hit_count.hit();
        out.push(v);
        served = served + 1;
    }
    out
}

/// No duplicates and no gaps: `n` hits starting from count `k` — in
/// whatever order concurrent requests were interleaved into — return
/// exactly the values `k + 1, ..., k + n`, each strictly larger than
/// the one before it, and never the same value twice; the counter ends
/// at `k + n`.
pub proof fn lemma_hits_exact_range(vals: Seq<u64>, k: u64, n: u64)
    requires
        k + n <= u64::MAX,
        vals.len() == n,
        forall|i: int| 0 <= i < n ==> vals[i] == k + i + 1,
    ensures
        forall|v: u64| vals.contains(v) <==> k < v <= k + n,
        forall|i: int, j: int| 0 <= i < j < n ==> vals[i] < vals[j],
        forall|i: int, j: int| 0 <= i < j < n ==> vals[i] != vals[j],
{
    assert forall|v: u64| vals.contains(v) <==> k < v <= k + n by {
        if k < v <= k + n {
            assert(vals[v - k - 1] == v);
        }
    }
}

} // verus!
