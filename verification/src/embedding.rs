//! The embedding store: two dense fixed-point matrices shared by the
//! training loop, with saturated row updates so every coordinate stays in
//! a provable range for the whole run.
use vstd::prelude::*;
use crate::fixedpoint::{clamp_i128, mul_fp, spec_abs, spec_clamp, spec_mul_fp, Rng};

verus! {

/// A well-formed row: `dim` coordinates, each within the saturation range.
pub open spec fn row_ok(row: Seq<i64>, dim: int) -> bool {
    &&& row.len() == dim
    &&& forall|k: int| 0 <= k < row.len() ==> -4194304 <= #[trigger] row[k] <= 4194304
}

/// Dot product of two rows in fixed point, term by term.
pub open spec fn spec_dot_upto(a: Seq<i64>, b: Seq<i64>, i: int) -> int
    decreases i,
{
    if i <= 0 {
        0
    } else {
        spec_dot_upto(a, b, i - 1) + spec_mul_fp(a[i - 1] as int, b[i - 1] as int)
    }
}

/// Dot products are clamped to +-6.0 before the logistic step, as the
/// sigmoid saturates beyond that range.
pub open spec fn spec_clamp6(v: int) -> int {
    if v > 393216 {
        393216
    } else if v < -393216 {
        -393216
    } else {
        v
    }
}

/// One saturated gradient step on a row: `a[k] + g * b[k]`, coordinatewise,
/// clamped to the coordinate range.
pub open spec fn spec_axpy(a: Seq<i64>, b: Seq<i64>, g: int) -> Seq<i64> {
    Seq::new(a.len(), |k: int| spec_clamp(a[k] + spec_mul_fp(g, b[k] as int)) as i64)
}

/// Computes the clamped fixed-point dot product; pinned to its spec.
pub fn dot_rows(a: &Vec<i64>, b: &Vec<i64>) -> (r: i64)
    requires
        a.len() == b.len(),
        row_ok(a@, a.len() as int),
        row_ok(b@, b.len() as int),
    ensures
        r as int == spec_clamp6(spec_dot_upto(a@, b@, a.len() as int)),
        spec_abs(r as int) <= 393216,
{
    let mut acc: i128 = 0;
    let mut i: usize = 0;
    while i < a.len()
        invariant
            i <= a.len(),
            a.len() == b.len(),
            row_ok(a@, a.len() as int),
            row_ok(b@, b.len() as int),
            acc as int == spec_dot_upto(a@, b@, i as int),
            -(i as int) * 268435456 <= acc as int <= (i as int) * 268435456,
        decreases a.len() - i,
    {
        proof {
            assert(spec_abs((a@[i as int] as int) * (b@[i as int] as int)) <= 4194304 * 4194304)
                by (nonlinear_arith)
                requires
                    spec_abs(a@[i as int] as int) <= 4194304,
                    spec_abs(b@[i as int] as int) <= 4194304,
            ;
        }
        let t = mul_fp(a[i], b[i]);
        acc = acc + (t as i128);
        i = i + 1;
    }
    if acc > 393216 {
        393216
    } else if acc < -393216 {
        -393216
    } else {
        acc as i64
    }
}

/// Applies one saturated gradient step to `row`; pinned to `spec_axpy`.
pub fn add_scaled(row: &mut Vec<i64>, other: &Vec<i64>, g: i64)
    requires
        old(row).len() == other.len(),
        row_ok(old(row)@, old(row).len() as int),
        row_ok(other@, other.len() as int),
        spec_abs(g as int) <= 67108864,
    ensures
        final(row)@ == spec_axpy(old(row)@, other@, g as int),
        row_ok(final(row)@, old(row).len() as int),
{
    let ghost orig = row@;
    let mut k: usize = 0;
    while k < other.len()
        invariant
            k <= other.len(),
            row.len() == other.len(),
            orig.len() == other.len(),
            row_ok(orig, other.len() as int),
            row_ok(other@, other.len() as int),
            spec_abs(g as int) <= 67108864,
            forall|j: int| k <= j < other.len() ==> #[trigger] row@[j] == orig[j],
            forall|j: int| 0 <= j < k ==> #[trigger] row@[j] == spec_axpy(orig, other@, g as int)[j],
            forall|j: int| 0 <= j < k ==> -4194304 <= #[trigger] row@[j] <= 4194304,
        decreases other.len() - k,
    {
        let d = mul_fp(g, other[k]);
        let nv = clamp_i128((row[k] as i128) + (d as i128));
        row[k] = nv;
        k = k + 1;
    }
    proof {
        assert(row@ =~= spec_axpy(orig, other@, g as int));
    }
}

/// The two dense matrices of the model.  `input` has one row per
/// vocabulary entry; `output` has one row per vocabulary entry under
/// negative sampling, or one per internal tree node under hierarchical
/// softmax.  Rows are mutated in place and never resized.
pub struct EmbeddingStore {
    pub dim: usize,
    pub input: Vec<Vec<i64>>,
    pub output: Vec<Vec<i64>>,
}

impl EmbeddingStore {
    pub open spec fn wf(&self) -> bool {
        &&& self.dim >= 1
        &&& forall|i: int|
            0 <= i < self.input.len() ==> row_ok(#[trigger] self.input@[i]@, self.dim as int)
        &&& forall|i: int|
            0 <= i < self.output.len() ==> row_ok(#[trigger] self.output@[i]@, self.dim as int)
    }

    /// A zero row (initial output vectors).
    pub fn zero_row(dim: usize) -> (r: Vec<i64>)
        requires
            dim >= 1,
        ensures
            row_ok(r@, dim as int),
            forall|k: int| 0 <= k < r.len() ==> #[trigger] r@[k] == 0,
    {
        let mut r: Vec<i64> = Vec::new();
        let mut k: usize = 0;
        while k < dim
            invariant
                k <= dim,
                r.len() == k,
                forall|j: int| 0 <= j < k ==> #[trigger] r@[j] == 0,
            decreases dim - k,
        {
            r.push(0);
            k = k + 1;
        }
        r
    }

    /// A small pseudo-random row scaled by `1 / dim` (initial input
    /// vectors): each coordinate is drawn from `(-0.5, 0.5)` then divided
    /// by the dimensionality.
    #[verifier::rlimit(50)]
    pub fn random_row(dim: usize, rng: &mut Rng) -> (r: Vec<i64>)
        requires
            1 <= dim <= 1048576,
        ensures
            row_ok(r@, dim as int),
    {
        let mut r: Vec<i64> = Vec::new();
        let mut k: usize = 0;
        while k < dim
            invariant
                k <= dim,
                1 <= dim <= 1048576,
                r.len() == k,
                forall|j: int| 0 <= j < k ==> -32768 <= #[trigger] r@[j] <= 32768,
            decreases dim - k,
        {
            let draw = rng.next_below(65536);
            let c: i64 = (draw as i64) - 32768;
            let mag: i64 = if c >= 0 {
                c
            } else {
                -c
            };
            let q: i64 = mag / (dim as i64);
            proof {
                assert(0 <= q as int <= mag as int) by (nonlinear_arith)
                    requires
                        q as int == mag as int / dim as int,
                        0 <= mag as int,
                        dim as int >= 1,
                ;
            }
            let v: i64 = if c >= 0 {
                q
            } else {
                -q
            };
            r.push(v);
            k = k + 1;
        }
        r
    }

    /// Allocates and initializes both matrices.
    pub fn init(n_input: usize, n_output: usize, dim: usize, rng: &mut Rng) -> (s: EmbeddingStore)
        requires
            1 <= dim <= 1048576,
        ensures
            s.wf(),
            s.dim == dim,
            s.input.len() == n_input,
            s.output.len() == n_output,
    {
        let mut input: Vec<Vec<i64>> = Vec::new();
        let mut i: usize = 0;
        while i < n_input
            invariant
                i <= n_input,
                1 <= dim <= 1048576,
                input.len() == i,
                forall|j: int| 0 <= j < i ==> row_ok(#[trigger] input@[j]@, dim as int),
            decreases n_input - i,
        {
            let row = Self::random_row(dim, rng);
            input.push(row);
            i = i + 1;
        }
        let mut output: Vec<Vec<i64>> = Vec::new();
        let mut o: usize = 0;
        while o < n_output
            invariant
                o <= n_output,
                dim >= 1,
                output.len() == o,
                forall|j: int| 0 <= j < o ==> row_ok(#[trigger] output@[j]@, dim as int),
            decreases n_output - o,
        {
            let row = Self::zero_row(dim);
            output.push(row);
            o = o + 1;
        }
        EmbeddingStore { dim, input, output }
    }
}

/// Converts a learning rate in micro units to fixed point.
pub fn lr_to_fp(lr_micro: u64) -> (r: i64)
    requires
        lr_micro <= 1000000000,
    ensures
        r as int == (lr_micro as int * 65536) / 1000000,
        0 <= r <= 65536000,
{
    let w: u64 = (lr_micro * 65536) / 1000000;
    proof {
        assert(w <= 65536000) by (nonlinear_arith)
            requires
                w as int == (lr_micro as int * 65536) / 1000000,
                lr_micro <= 1000000000,
        ;
    }
    w as i64
}

} // verus!
