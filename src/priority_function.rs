use vstd::prelude::*;

verus! {

/// A scoring rule that ranks how much a file deserves to stay cached: higher survives.
pub trait PriorityFunction {
    spec fn spec_priority(&self, access_count: nat, size: nat) -> nat;

    fn priority(&self, access_count: usize, size: usize) -> (r: usize)
        ensures
            r as nat == self.spec_priority(access_count as nat, size as nat),
    ;
}

/// `r` is `sqrt(n)` rounded to the nearest integer.
pub open spec fn is_rounded_root(n: nat, r: nat) -> bool {
    &&& n <= r * r + r
    &&& (r == 0 || r * r < n + r)
}

pub open spec fn rounded_root(n: nat) -> nat {
    choose|r: nat| is_rounded_root(n, r)
}

/// The largest `n` whose rounded square root still fits in a `usize`.
pub open spec fn root_limit() -> nat {
    (usize::MAX as nat) * (usize::MAX as nat) + usize::MAX as nat
}

/// `round(sqrt(size) * access_count)`, saturated at `usize::MAX`.
pub open spec fn default_priority(access_count: nat, size: nat) -> nat {
    let n = size * access_count * access_count;
    if n > root_limit() {
        usize::MAX as nat
    } else {
        rounded_root(n)
    }
}

pub proof fn lemma_rounded_root_unique(n: nat, a: nat, b: nat)
    requires
        is_rounded_root(n, a),
        is_rounded_root(n, b),
    ensures
        a == b,
{
    if a < b {
        assert(b * b - b >= a * a + a) by (nonlinear_arith)
            requires a + 1 <= b;
    } else if b < a {
        assert(a * a - a >= b * b + b) by (nonlinear_arith)
            requires b + 1 <= a;
    }
}

/// Sub-linear in the size and linear in the access count, so that many small and frequently
/// requested files can outweigh one large and rarely requested file.
pub struct DefaultPriority;

impl PriorityFunction for DefaultPriority {
    open spec fn spec_priority(&self, access_count: nat, size: nat) -> nat {
        default_priority(access_count, size)
    }

    fn priority(&self, access_count: usize, size: usize) -> (r: usize) {
        default_priority_function(access_count, size)
    }
}

/// Computes `round(sqrt(size) * access_count)` exactly, as `round(sqrt(size * access_count^2))`,
/// saturating at `usize::MAX`.
pub fn default_priority_function(access_count: usize, size: usize) -> (r: usize)
    ensures
        r as nat == default_priority(access_count as nat, size as nat),
{
    let max: u128 = usize::MAX as u128;
    let c: u128 = access_count as u128;
    let s: u128 = size as u128;
    assert(c * c <= max * max) by (nonlinear_arith)
        requires c <= max;
    assert(max * max + max < u128::MAX) by (nonlinear_arith)
        requires max <= u64::MAX;
    let cc: u128 = c * c;
    let ghost n: nat = size as nat * access_count as nat * access_count as nat;
    assert(n == s * cc) by (nonlinear_arith)
        requires n == size as nat * access_count as nat * access_count as nat, cc == c * c,
            s == size, c == access_count;
    if cc > 0 && s > u128::MAX / cc {
        assert(s * cc > u128::MAX) by (nonlinear_arith)
            requires cc > 0, s > u128::MAX / cc;
        return usize::MAX;
    }
    assert(s * cc <= u128::MAX) by (nonlinear_arith)
        requires cc == 0 || s <= u128::MAX / cc;
    let n_exec: u128 = s * cc;
    if n_exec > max * max + max {
        return usize::MAX;
    }
    let mut lo: u128 = 0;
    let mut hi: u128 = max;
    while lo < hi
        invariant
            lo <= hi <= max,
            max == usize::MAX,
            n_exec <= max * max + max,
            max * max + max < u128::MAX,
            n_exec <= hi * hi + hi,
            lo == 0 || (lo - 1) * (lo - 1) + (lo - 1) < n_exec,
        decreases hi - lo,
    {
        let mid: u128 = lo + (hi - lo) / 2;
        assert(mid * mid + mid <= max * max + max) by (nonlinear_arith)
            requires mid <= max;
        if n_exec <= mid * mid + mid {
            hi = mid;
        } else {
            lo = mid + 1;
        }
    }
    assert(is_rounded_root(n, lo as nat)) by (nonlinear_arith)
        requires
            n == n_exec,
            n_exec <= lo * lo + lo,
            lo == 0 || (lo - 1) * (lo - 1) + (lo - 1) < n_exec;
    proof {
        lemma_rounded_root_unique(n, lo as nat, rounded_root(n));
    }
    lo as usize
}

} // verus!
