use vstd::prelude::*;
use crate::mask::{count_ones, sp_and, Mask};

verus! {

/// Largest decay coefficient the search considers, in thousandths:
/// the search interval is [0, 0.5].
pub const COEFF_SEARCH_MAX: u32 = 500;

/// `m` is the valley of `s`: energies fall strictly until `m` and rise
/// strictly after it.
pub open spec fn valley_at(s: Seq<i64>, m: int) -> bool {
    &&& 0 <= m < s.len()
    &&& forall|i: int| 0 <= i < m ==> #[trigger] s[i] > s[i + 1]
    &&& forall|i: int| m <= i < s.len() - 1 ==> #[trigger] s[i] < s[i + 1]
}

/// The energy curve is strictly unimodal over the candidate grid.
pub open spec fn unimodal(s: Seq<i64>) -> bool {
    exists|m: int| valley_at(s, m)
}

/// Left of the valley the curve falls strictly.
proof fn lemma_valley_desc(s: Seq<i64>, m: int, i: int, j: int)
    requires
        valley_at(s, m),
        0 <= i < j <= m,
    ensures
        s[i] > s[j],
    decreases j - i,
{
    assert(s[i] > s[i + 1]);
    if i + 1 < j {
        lemma_valley_desc(s, m, i + 1, j);
    }
}

/// Right of the valley the curve rises strictly.
proof fn lemma_valley_asc(s: Seq<i64>, m: int, i: int, j: int)
    requires
        valley_at(s, m),
        m <= i < j < s.len(),
    ensures
        s[i] < s[j],
    decreases j - i,
{
    assert(s[i] < s[i + 1]);
    if i + 1 < j {
        lemma_valley_asc(s, m, i + 1, j);
    }
}

/// The valley is the strict global minimum.
pub proof fn lemma_valley_min(s: Seq<i64>, m: int, k: int)
    requires
        valley_at(s, m),
        0 <= k < s.len(),
        k != m,
    ensures
        s[m] < s[k],
{
    if k < m {
        lemma_valley_desc(s, m, k, m);
    } else {
        lemma_valley_asc(s, m, m, k);
    }
}

/// Bounded bracketing search for the minimum of a unimodal energy curve.
/// Each step compares two adjacent candidates and discards the half of the
/// bracket that cannot contain the valley, so the minimizer is found with
/// a logarithmic number of energy evaluations.
pub fn min_unimodal_index(energies: &Vec<i64>) -> (r: usize)
    requires
        energies@.len() >= 1,
    ensures
        r < energies@.len(),
        unimodal(energies@) ==> forall|k: int|
            0 <= k < energies@.len() ==> energies@[r as int] <= #[trigger] energies@[k],
{
    let ghost s = energies@;
    let mut lo: usize = 0;
    let mut hi: usize = energies.len() - 1;
    while lo < hi
        invariant
            0 <= lo <= hi < s.len(),
            energies@ == s,
            unimodal(s) ==> exists|m: int| valley_at(s, m) && lo <= m <= hi,
        decreases hi - lo,
    {
        let mid = lo + (hi - lo) / 2;
        proof {
            if unimodal(s) {
                let m = choose|m: int| valley_at(s, m) && lo <= m <= hi;
                if energies@[mid as int] < energies@[mid + 1] {
                    if m > mid {
                        lemma_valley_desc(s, m, mid as int, mid + 1);
                    }
                    assert(valley_at(s, m) && lo <= m <= mid as int);
                } else {
                    if m <= mid {
                        lemma_valley_asc(s, m, mid as int, mid + 1);
                    }
                    assert(valley_at(s, m) && mid + 1 <= m <= hi);
                }
            }
        }
        if energies[mid] < energies[mid + 1] {
            hi = mid;
        } else {
            lo = mid + 1;
        }
    }
    proof {
        if unimodal(s) {
            let m = choose|m: int| valley_at(s, m) && lo <= m <= hi;
            assert(m == lo as int);
            assert forall|k: int| 0 <= k < s.len() implies s[lo as int] <= #[trigger] s[k] by {
                if k != m {
                    lemma_valley_min(s, m, k);
                }
            }
        }
    }
    lo
}

/// The `k`-th of `n` evenly spread candidate coefficients over the search
/// interval, in thousandths.
pub fn candidate_coefficient(k: usize, n: usize) -> (c: u32)
    requires
        2 <= n,
        k < n,
        n <= u32::MAX,
    ensures
        c == (k as int * COEFF_SEARCH_MAX as int) / (n - 1) as int,
        c <= COEFF_SEARCH_MAX,
{
    proof {
        assert(k as int * COEFF_SEARCH_MAX as int <= (n - 1) as int * COEFF_SEARCH_MAX as int)
            by (nonlinear_arith)
            requires
                k as int <= (n - 1) as int,
        ;
        vstd::arithmetic::div_mod::lemma_div_is_ordered(
            k as int * COEFF_SEARCH_MAX as int,
            (n - 1) as int * COEFF_SEARCH_MAX as int,
            (n - 1) as int,
        );
        vstd::arithmetic::div_mod::lemma_div_multiples_vanish(
            COEFF_SEARCH_MAX as int,
            (n - 1) as int,
        );
    }
    let prod = (k as u64) * (COEFF_SEARCH_MAX as u64);
    let c = prod / ((n - 1) as u64);
    c as u32
}

/// The sharpness / total-variation energy of a candidate reconstruction,
/// scaled by 100 to stay in integers: `100 * (0.03 * tv - sharpness)`,
/// where `tv` counts the thresholded latent-gradient mask and `sharpness`
/// counts pixels kept by both thinned masks. Lower is preferred.
pub fn energy_score(edge_thinned: &Mask, latent_thinned: &Mask, latent_mask: &Mask) -> (e: i64)
    requires
        edge_thinned.wf(),
        latent_thinned.wf(),
        latent_mask.wf(),
        edge_thinned.same_shape(*latent_thinned),
        edge_thinned.same_shape(*latent_mask),
        latent_mask.grid().len() <= 0x1000_0000_0000,
    ensures
        e == 3 * count_ones(latent_mask.grid()) - 100 * count_ones(
            sp_and(edge_thinned.grid(), latent_thinned.grid()),
        ),
{
    let tv = latent_mask.count_foreground();
    let sharpness = edge_thinned.overlap(latent_thinned);
    proof {
        crate::mask::lemma_count_le_len(latent_mask.grid());
        crate::mask::lemma_count_le_len(sp_and(edge_thinned.grid(), latent_thinned.grid()));
    }
    3 * (tv as i64) - 100 * (sharpness as i64)
}

} // verus!
