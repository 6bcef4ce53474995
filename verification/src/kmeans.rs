//! Clustering: argument rules, seeding, and what every iteration decides.
//!
//! Distances, potentials and means are computed elsewhere and arrive as
//! binary32 and binary64 patterns.
use rand::rngs::StdRng;
use rand::{RngExt, SeedableRng};
use vstd::prelude::*;

use crate::builder::RESERVOIR_SEED_XOR_MASK;
use crate::float_bits::{
    f32_lt, f32_nan, f32_total_key, f64_lt, f64_nan, law_total_order_is_injective, less32, less64,
    F32_INFINITY,
};
use crate::ivf::members;
use crate::scored::{before, law_sort_is_sorted_permutation, sort, sort_scored, Scored};

verus! {

/// Keeps the clustering's random stream apart from that of the rotation.
pub const KMEANS_SEED_OFFSET: u64 = 7;

/// Fewest centroids for which assignment goes through super-centroids.
pub const COARSE_ASSIGN_MIN_K: usize = 1024;

/// Super-centroids probed per row.
pub const COARSE_SUPER_NPROBE: usize = 4;

/// Training iterations of the super-centroids.
pub const COARSE_SUPER_ITERS: usize = 8;

/// Seed of the super-centroids.
pub const COARSE_SUPER_SEED: u64 = 0x00C0_A55E;

/// Pattern of binary64 infinity.
pub const F64_INFINITY: u64 = 0x7ff0_0000_0000_0000;

// ---------------- arguments ----------------

/// Why clustering cannot start.
#[derive(Clone, Copy, Debug, PartialEq, Eq, Structural)]
pub enum KmeansFault {
    ZeroDim,
    ZeroK,
    /// The input does not hold whole rows.
    Unaligned,
    NoRows,
    /// More clusters than rows.
    KAboveRows,
}

/// What is wrong with the arguments, in the order in which they are checked.
pub open spec fn kmeans_fault(len: int, dim: int, k: int) -> Option<KmeansFault> {
    if dim == 0 {
        Some(KmeansFault::ZeroDim)
    } else if k == 0 {
        Some(KmeansFault::ZeroK)
    } else if len % dim != 0 {
        Some(KmeansFault::Unaligned)
    } else if len / dim == 0 {
        Some(KmeansFault::NoRows)
    } else if k > len / dim {
        Some(KmeansFault::KAboveRows)
    } else {
        None
    }
}

/// The number of rows, where clustering can start.
pub fn check_kmeans(len: usize, dim: usize, k: usize) -> (r: Result<usize, KmeansFault>)
    ensures
        match r {
            Ok(n) => kmeans_fault(len as int, dim as int, k as int) is None && n == len
                / dim && n * dim == len,
            Err(e) => kmeans_fault(len as int, dim as int, k as int) == Some(e),
        },
{
    if dim == 0 {
        return Err(KmeansFault::ZeroDim);
    }
    if k == 0 {
        return Err(KmeansFault::ZeroK);
    }
    if len % dim != 0 {
        return Err(KmeansFault::Unaligned);
    }
    let n: usize = len / dim;
    if n == 0 {
        return Err(KmeansFault::NoRows);
    }
    if k > n {
        return Err(KmeansFault::KAboveRows);
    }
    proof {
        vstd::arithmetic::div_mod::lemma_fundamental_div_mod(len as int, dim as int);
        assert(n * dim == dim * n) by (nonlinear_arith);
    }
    Ok(n)
}

/// What is wrong with the arguments of an assignment.
#[derive(Clone, Copy, Debug, PartialEq, Eq, Structural)]
pub enum AssignFault {
    ZeroDim,
    ZeroK,
    Unaligned,
    CentroidLength,
    AssignmentLength,
}

pub open spec fn assign_fault(len: int, centroids: int, dim: int, k: int, slots: int) -> Option<
    AssignFault,
> {
    if dim == 0 {
        Some(AssignFault::ZeroDim)
    } else if k == 0 {
        Some(AssignFault::ZeroK)
    } else if len % dim != 0 {
        Some(AssignFault::Unaligned)
    } else if centroids != k * dim {
        Some(AssignFault::CentroidLength)
    } else if slots != len / dim {
        Some(AssignFault::AssignmentLength)
    } else {
        None
    }
}

/// Check the arguments of an assignment of `len / dim` rows to `k` centroids.
pub fn check_assign(len: usize, centroids: usize, dim: usize, k: usize, slots: usize) -> (r: Option<
    AssignFault,
>)
    ensures
        r == assign_fault(len as int, centroids as int, dim as int, k as int, slots as int),
{
    if dim == 0 {
        return Some(AssignFault::ZeroDim);
    }
    if k == 0 {
        return Some(AssignFault::ZeroK);
    }
    if len % dim != 0 {
        return Some(AssignFault::Unaligned);
    }
    proof {
        assert(0 <= k * dim && k * dim <= 0xffff_ffff_ffff_ffff * 0xffff_ffff_ffff_ffff)
            by (nonlinear_arith)
            requires
                0 <= k <= 0xffff_ffff_ffff_ffff,
                0 <= dim <= 0xffff_ffff_ffff_ffff,
        ;
    }
    if (centroids as u128) != (k as u128) * (dim as u128) {
        return Some(AssignFault::CentroidLength);
    }
    if slots != len / dim {
        return Some(AssignFault::AssignmentLength);
    }
    None
}

/// Clustering starts exactly where the input is whole rows, at least one, and
/// no more clusters are asked for than there are rows, but one at least; and
/// what is reported is the first of these that fails.
pub proof fn law_clustering_starts_on_whole_rows(len: int, dim: int, k: int)
    requires
        0 <= len,
        0 <= dim,
        0 <= k,
    ensures
        kmeans_fault(len, dim, k) is None <==> dim > 0 && 1 <= k && exists|rows: int|
            #![trigger rows * dim]
            rows * dim == len && k <= rows,
        kmeans_fault(len, dim, k) == Some(KmeansFault::ZeroDim) <==> dim == 0,
        kmeans_fault(len, dim, k) == Some(KmeansFault::ZeroK) <==> dim > 0 && k == 0,
        kmeans_fault(len, dim, k) == Some(KmeansFault::Unaligned) <==> dim > 0 && k > 0 && !exists|
            rows: int,
        |
            #![trigger rows * dim]
            rows * dim == len,
        kmeans_fault(len, dim, k) == Some(KmeansFault::NoRows) <==> dim > 0 && k > 0 && len == 0,
        kmeans_fault(len, dim, k) == Some(KmeansFault::KAboveRows) ==> exists|rows: int|
            #![trigger rows * dim]
            rows * dim == len && 0 < rows < k,
{
    if dim > 0 {
        lemma_whole_rows(len, dim);
        vstd::arithmetic::div_mod::lemma_fundamental_div_mod(len, dim);
        let rows = len / dim;
        assert(dim * rows == rows * dim) by (nonlinear_arith);
        assert(rows >= 0) by (nonlinear_arith)
            requires
                rows == len / dim,
                len >= 0,
                dim > 0,
        ;
        assert(len % dim == 0 ==> rows * dim == len);
        if len == 0 {
            assert(0 * dim == 0);
        }
        if rows == 0 {
            assert(rows * dim == 0) by (nonlinear_arith)
                requires
                    rows == 0,
            ;
        }
    }
}

/// A length is `rows` whole rows only for the quotient.
proof fn lemma_whole_rows(len: int, dim: int)
    requires
        dim > 0,
    ensures
        forall|rows: int| #[trigger] (rows * dim) == len ==> rows == len / dim && len % dim == 0,
{
    assert forall|rows: int| #[trigger] (rows * dim) == len implies rows == len / dim && len % dim
        == 0 by {
        assert(rows * dim == dim * rows) by (nonlinear_arith);
        vstd::arithmetic::div_mod::lemma_fundamental_div_mod_converse(len, dim, rows, 0);
    }
}

/// An assignment is accepted exactly where rows, centroids and slots fit one
/// another: as many slots as rows, and `k` whole centroids.
pub proof fn law_assignment_fits(len: int, centroids: int, dim: int, k: int, slots: int)
    requires
        0 <= len,
        0 <= dim,
        0 <= k,
        0 <= slots,
    ensures
        assign_fault(len, centroids, dim, k, slots) is None <==> dim > 0 && k > 0 && slots * dim
            == len && centroids == k * dim,
        assign_fault(len, centroids, dim, k, slots) == Some(AssignFault::ZeroDim) <==> dim == 0,
        assign_fault(len, centroids, dim, k, slots) == Some(AssignFault::ZeroK) <==> dim > 0 && k
            == 0,
        assign_fault(len, centroids, dim, k, slots) == Some(AssignFault::CentroidLength) ==> centroids
            != k * dim,
        assign_fault(len, centroids, dim, k, slots) == Some(AssignFault::AssignmentLength) ==> slots
            * dim != len && centroids == k * dim,
        assign_fault(len, centroids, dim, k, slots) == Some(AssignFault::Unaligned) <==> dim > 0 && k
            > 0 && !exists|rows: int|
            #![trigger rows * dim]
            rows * dim == len,
{
    if dim > 0 {
        lemma_whole_rows(len, dim);
        vstd::arithmetic::div_mod::lemma_fundamental_div_mod(len, dim);
        let rows = len / dim;
        assert(dim * rows == rows * dim) by (nonlinear_arith);
        assert(len % dim == 0 ==> rows * dim == len);
        assert(slots * dim == len || slots * dim != len);
    }
}

// ---------------- seeding ----------------

/// A random number generator.
#[verifier::external_type_specification]
#[verifier::external_body]
pub struct ExStdRng(rand::rngs::StdRng);

/// What a generator holds: the words of its key and how far it has come.
pub uninterp spec fn generator_words(rng: StdRng) -> Seq<u64>;

/// What `SeedableRng::seed_from_u64` of `StdRng` puts into a generator.
pub uninterp spec fn seeded_words(seed: u64) -> Seq<u64>;

/// What `RngExt::random_range` on `0..n` gives on a generator that holds
/// `words`, and what the generator then holds.
pub uninterp spec fn drawn_below(words: Seq<u64>, n: usize) -> (usize, Seq<u64>);

/// `SeedableRng::seed_from_u64` of `StdRng`: the generator's key is expanded
/// from the seed alone and nothing has been drawn yet. The stream is that of
/// the crate's present algorithm; the crate does not promise it for another
/// version.
#[verifier::external_body]
pub(crate) fn seeded(seed: u64) -> (r: StdRng)
    ensures
        generator_words(r) == seeded_words(seed),
{
    StdRng::seed_from_u64(seed)
}

/// `RngExt::random_range` on `0..n`: a number below `n`, which follows from
/// what the generator holds and from `n` alone, as does what it holds
/// afterwards. How even the numbers are is left unsaid.
#[verifier::external_body]
pub(crate) fn draw_below(rng: &mut StdRng, n: usize) -> (r: usize)
    requires
        n > 0,
    ensures
        r < n,
        (r, generator_words(*final(rng))) == drawn_below(generator_words(*old(rng)), n),
{
    rng.random_range(0..n)
}

/// Seed of the clustering's random stream.
pub open spec fn clustering_seed(seed: u64) -> u64 {
    if seed + KMEANS_SEED_OFFSET > u64::MAX {
        (seed + KMEANS_SEED_OFFSET - 0x1_0000_0000_0000_0000) as u64
    } else {
        (seed + KMEANS_SEED_OFFSET) as u64
    }
}

/// What the generator holds after `i` draws below `n`.
pub open spec fn words_after(words: Seq<u64>, n: usize, i: nat) -> Seq<u64>
    decreases i,
{
    if i == 0 {
        words
    } else {
        drawn_below(words_after(words, n, (i - 1) as nat), n).1
    }
}

/// The rows that `k` draws from the clustering's stream pick of `n`.
pub open spec fn seed_picks(n: usize, k: nat, seed: u64) -> Seq<usize> {
    Seq::new(
        k,
        |i: int|
            drawn_below(words_after(seeded_words(clustering_seed(seed)), n, i as nat), n).0,
    )
}

/// Draw `k` rows of `n`, repetition allowed: the same seed draws the same
/// rows.
pub fn seed_rows(n: usize, k: usize, seed: u64) -> (r: Vec<usize>)
    requires
        n > 0,
    ensures
        r@ == seed_picks(n, k as nat, seed),
        r@.len() == k,
        forall|i: int| 0 <= i < k ==> #[trigger] r@[i] < n,
{
    let mut rng = seeded(seed.wrapping_add(KMEANS_SEED_OFFSET));
    let ghost words = seeded_words(clustering_seed(seed));
    let mut out: Vec<usize> = Vec::new();
    let mut i: usize = 0;
    while i < k
        invariant
            i <= k,
            n > 0,
            words == seeded_words(clustering_seed(seed)),
            generator_words(rng) == words_after(words, n, i as nat),
            out@ == seed_picks(n, i as nat, seed),
            forall|j: int| 0 <= j < i ==> #[trigger] out@[j] < n,
        decreases k - i,
    {
        let row: usize = draw_below(&mut rng, n);
        out.push(row);
        i = i + 1;
        proof {
            assert(out@ =~= seed_picks(n, i as nat, seed));
        }
    }
    out
}

/// Seeding with fewer clusters draws the first of the same rows, each draw
/// goes on from what the one before it left, and the stream starts from the
/// column's seed plus seven.
pub proof fn law_seed_rows_follow_one_stream(n: usize, few: nat, many: nat, seed: u64)
    requires
        few <= many,
    ensures
        seed_picks(n, few, seed) == seed_picks(n, many, seed).subrange(0, few as int),
        clustering_seed(seed) as int == (seed + 7) % 0x1_0000_0000_0000_0000,
        many > 0 ==> seed_picks(n, many, seed)[0] == drawn_below(
            seeded_words(clustering_seed(seed)),
            n,
        ).0,
        forall|i: int|
            0 < i < many ==> #[trigger] seed_picks(n, many, seed)[i] == drawn_below(
                drawn_below(
                    words_after(seeded_words(clustering_seed(seed)), n, (i - 1) as nat),
                    n,
                ).1,
                n,
            ).0,
{
    assert(seed_picks(n, few, seed) =~= seed_picks(n, many, seed).subrange(0, few as int));
}

/// A column's one seed gives three different seeds: that of the rotation, that
/// of the clustering and that of the training sample.
pub proof fn law_three_streams(rot_seed: u64)
    ensures
        clustering_seed(rot_seed) != rot_seed,
        rot_seed ^ RESERVOIR_SEED_XOR_MASK != rot_seed,
        rot_seed ^ RESERVOIR_SEED_XOR_MASK != clustering_seed(rot_seed),
{
    let mask: u64 = 0x5a5a_5a5a_5a5a_5a5a;
    assert(rot_seed ^ mask != rot_seed && (rot_seed ^ mask) % 2 == rot_seed % 2) by (bit_vector)
        requires
            mask == 0x5a5a_5a5a_5a5a_5a5au64,
    ;
}

/// The values of row `row`.
pub open spec fn row_of(vectors: Seq<u32>, dim: int, row: int) -> Seq<u32> {
    vectors.subrange(row * dim, row * dim + dim)
}

/// The first `n` picked rows, one behind the other.
pub open spec fn gathered(vectors: Seq<u32>, dim: int, picks: Seq<usize>, n: nat) -> Seq<u32>
    decreases n,
{
    if n == 0 {
        Seq::empty()
    } else {
        gathered(vectors, dim, picks, (n - 1) as nat) + row_of(vectors, dim, picks[n - 1] as int)
    }
}

proof fn lemma_row_in_range(vectors: int, dim: int, n: int, row: int)
    requires
        n * dim == vectors,
        0 <= row < n,
        0 <= dim,
    ensures
        0 <= row * dim,
        row * dim + dim <= vectors,
{
    assert(0 <= row * dim && row * dim + dim <= n * dim) by (nonlinear_arith)
        requires
            0 <= row,
            row + 1 <= n,
            0 <= dim,
    ;
}

/// Copy the picked rows.
pub fn gather_rows(vectors: &Vec<u32>, dim: usize, n: usize, picks: &Vec<usize>) -> (r: Vec<u32>)
    requires
        n * dim == vectors@.len(),
        forall|i: int| 0 <= i < picks@.len() ==> #[trigger] picks@[i] < n,
    ensures
        r@ == gathered(vectors@, dim as int, picks@, picks@.len()),
        r@.len() == picks@.len() * dim,
{
    let mut out: Vec<u32> = Vec::new();
    let mut i: usize = 0;
    proof {
        assert(0 * dim == 0);
    }
    while i < picks.len()
        invariant
            i <= picks@.len(),
            n * dim == vectors@.len(),
            forall|j: int| 0 <= j < picks@.len() ==> #[trigger] picks@[j] < n,
            out@ == gathered(vectors@, dim as int, picks@, i as nat),
            out@.len() == i * dim,
        decreases picks.len() - i,
    {
        let row: usize = picks[i];
        proof {
            assert(picks@[i as int] < n);
            lemma_row_in_range(vectors@.len() as int, dim as int, n as int, row as int);
            assert(vectors@.len() == vectors.len());
        }
        let ghost before = out@;
        let from: usize = row * dim;
        let mut j: usize = 0;
        while j < dim
            invariant
                j <= dim,
                from == row * dim,
                from + dim <= vectors@.len(),
                vectors@.len() == vectors.len(),
                out@ == before + vectors@.subrange(from as int, from + j),
            decreases dim - j,
        {
            out.push(vectors[from + j]);
            j = j + 1;
            proof {
                assert(out@ =~= before + vectors@.subrange(from as int, from + j));
            }
        }
        i = i + 1;
        proof {
            assert(i * dim == (i - 1) * dim + dim) by (nonlinear_arith);
            assert(out@ =~= gathered(vectors@, dim as int, picks@, i as nat));
        }
    }
    out
}

/// The initial centroids are rows of the input: the `c`-th is the row that was
/// picked `c`-th.
pub proof fn law_seeds_are_input_rows(
    vectors: Seq<u32>,
    dim: int,
    rows: int,
    picks: Seq<usize>,
    n: nat,
    c: int,
)
    requires
        rows * dim == vectors.len(),
        0 <= dim,
        n <= picks.len(),
        0 <= c < n,
        forall|i: int| 0 <= i < picks.len() ==> (#[trigger] picks[i]) < rows,
    ensures
        gathered(vectors, dim, picks, n).len() == n * dim,
        row_of(gathered(vectors, dim, picks, n), dim, c) == row_of(vectors, dim, picks[c] as int),
    decreases n,
{
    let all = gathered(vectors, dim, picks, n);
    let less = gathered(vectors, dim, picks, (n - 1) as nat);
    let m = n as int;
    assert(picks[n - 1] < rows);
    lemma_row_in_range(vectors.len() as int, dim, rows, picks[n - 1] as int);
    assert(m * dim == (m - 1) * dim + dim) by (nonlinear_arith);
    if n > 1 {
        law_seeds_are_input_rows(vectors, dim, rows, picks, (n - 1) as nat, if c < n - 1 {
            c
        } else {
            0
        });
    } else {
        assert(0 * dim == 0);
    }
    assert(less.len() == (m - 1) * dim);
    lemma_row_in_range(m * dim, dim, m, c);
    if c == n - 1 {
        assert(row_of(all, dim, c) =~= row_of(vectors, dim, picks[c] as int));
    } else {
        lemma_row_in_range((m - 1) * dim, dim, m - 1, c);
        assert(row_of(all, dim, c) =~= row_of(less, dim, c));
    }
}

// ---------------- iterations ----------------

/// Rows of every cluster.
pub fn cluster_counts(assign: &Vec<u32>, k: usize) -> (r: Vec<u64>)
    requires
        forall|i: int| 0 <= i < assign@.len() ==> #[trigger] assign@[i] < k,
    ensures
        r@.len() == k,
        forall|c: int|
            0 <= c < k ==> #[trigger] r@[c] == members(assign@, c, assign@.len()).len(),
{
    let mut out: Vec<u64> = Vec::new();
    let mut c: usize = 0;
    while c < k
        invariant
            c <= k,
            out@.len() == c,
            forall|q: int| 0 <= q < c ==> #[trigger] out@[q] == 0,
        decreases k - c,
    {
        out.push(0);
        c = c + 1;
    }
    let mut i: usize = 0;
    while i < assign.len()
        invariant
            i <= assign@.len(),
            forall|j: int| 0 <= j < assign@.len() ==> #[trigger] assign@[j] < k,
            out@.len() == k,
            forall|q: int| 0 <= q < k ==> #[trigger] out@[q] == members(assign@, q, i as nat).len(),
        decreases assign.len() - i,
    {
        let to: usize = assign[i] as usize;
        proof {
            assert(assign@[i as int] < k);
            lemma_members_len(assign@, to as int, i as nat);
            assert(assign@.len() == assign.len());
        }
        out.set(to, out[to] + 1);
        i = i + 1;
    }
    out
}

proof fn lemma_members_len(assign: Seq<u32>, c: int, n: nat)
    ensures
        members(assign, c, n).len() <= n,
    decreases n,
{
    if n > 0 {
        lemma_members_len(assign, c, (n - 1) as nat);
    }
}

/// Rows of clusters `0..k` among the first `n` rows.
pub open spec fn total_members(assign: Seq<u32>, k: nat, n: nat) -> nat
    decreases k,
{
    if k == 0 {
        0
    } else {
        total_members(assign, (k - 1) as nat, n) + members(assign, k - 1, n).len()
    }
}

proof fn lemma_total_members_step(assign: Seq<u32>, k: nat, n: nat)
    requires
        n > 0,
    ensures
        total_members(assign, k, n) == total_members(assign, k, (n - 1) as nat) + (if assign[n - 1]
            < k {
            1int
        } else {
            0
        }),
    decreases k,
{
    if k > 0 {
        lemma_total_members_step(assign, (k - 1) as nat, n);
    }
}

/// Every row is counted in exactly one cluster.
pub proof fn law_counts_add_up(assign: Seq<u32>, k: nat, n: nat)
    requires
        n <= assign.len(),
        forall|i: int| 0 <= i < n ==> #[trigger] assign[i] < k,
    ensures
        total_members(assign, k, n) == n,
    decreases n,
{
    if n > 0 {
        law_counts_add_up(assign, k, (n - 1) as nat);
        lemma_total_members_step(assign, k, n);
        assert(assign[n - 1] < k);
    } else {
        lemma_no_members(assign, k);
    }
}

proof fn lemma_no_members(assign: Seq<u32>, k: nat)
    ensures
        total_members(assign, k, 0) == 0,
    decreases k,
{
    if k > 0 {
        lemma_no_members(assign, (k - 1) as nat);
    }
}

/// The centroids after an update: the mean where the cluster has rows, else
/// unchanged.
pub fn refreshed(centroids: &Vec<u32>, means: &Vec<u32>, counts: &Vec<u64>, dim: usize) -> (r: Vec<
    u32,
>)
    requires
        dim > 0,
        centroids@.len() == counts@.len() * dim,
        means@.len() == centroids@.len(),
    ensures
        r@.len() == centroids@.len(),
        forall|i: int|
            0 <= i < r@.len() ==> #[trigger] r@[i] == (if counts@[i / dim as int] > 0 {
                means@[i]
            } else {
                centroids@[i]
            }),
{
    let mut out: Vec<u32> = Vec::new();
    let mut i: usize = 0;
    while i < centroids.len()
        invariant
            i <= centroids@.len(),
            dim > 0,
            centroids@.len() == counts@.len() * dim,
            means@.len() == centroids@.len(),
            out@.len() == i,
            forall|j: int|
                0 <= j < i ==> #[trigger] out@[j] == (if counts@[j / dim as int] > 0 {
                    means@[j]
                } else {
                    centroids@[j]
                }),
        decreases centroids.len() - i,
    {
        let c: usize = i / dim;
        assert(c < counts@.len()) by (nonlinear_arith)
            requires
                c == i / dim,
                i < counts@.len() * dim,
                dim > 0,
        ;
        if counts[c] > 0 {
            out.push(means[i]);
        } else {
            out.push(centroids[i]);
        }
        i = i + 1;
    }
    out
}

// ---------------- coarse assignment ----------------

/// Whether assignment to `k` centroids goes through super-centroids.
pub fn uses_coarse(k: usize) -> (r: bool)
    ensures
        r == (k >= 1024),
{
    k >= COARSE_ASSIGN_MIN_K
}

/// The number of super-centroids: the square root of `k`, rounded up.
pub fn super_count(k: usize) -> (r: usize)
    requires
        k <= u32::MAX,
    ensures
        r * r >= k,
        r > 0 ==> (r - 1) * (r - 1) < k,
        k > 0 ==> 0 < r <= k,
{
    let mut m: usize = 0;
    let mut square: u64 = 0;
    while square < k as u64
        invariant
            k <= u32::MAX,
            m <= 0x1_0000,
            square == m * m,
            m <= k,
            m > 0 ==> (m - 1) * (m - 1) < k,
        decreases k - m,
    {
        proof {
            assert(m < 0x1_0000) by (nonlinear_arith)
                requires
                    m * m < k,
                    k <= 0xffff_ffff,
                    m <= 0x1_0000,
            ;
            if m > 0 {
                assert(m <= m * m) by (nonlinear_arith)
                    requires
                        m >= 1,
                ;
            }
            assert((m + 1) * (m + 1) == m * m + 2 * m + 1) by (nonlinear_arith);
        }
        square = square + 2 * (m as u64) + 1;
        m = m + 1;
    }
    m
}

/// The super-centroids in the order in which a row probes them: nearest first,
/// ties by id.
pub open spec fn probe_order(dists: Seq<u32>) -> Seq<Scored> {
    sort_scored(Seq::new(dists.len(), |i: int| Scored { dist: dists[i], node: i as u32 }))
}

/// The cells beneath the first `n` super-centroids of `order`.
pub open spec fn cells_beneath(cells: Seq<Vec<usize>>, order: Seq<Scored>, n: nat) -> Seq<usize>
    decreases n,
{
    if n == 0 {
        Seq::empty()
    } else {
        cells_beneath(cells, order, (n - 1) as nat) + cells[order[n - 1].node as int]@
    }
}

/// How many super-centroids a row probes.
pub open spec fn probes(m: nat) -> nat {
    if m < COARSE_SUPER_NPROBE {
        m
    } else {
        COARSE_SUPER_NPROBE as nat
    }
}

/// A super-centroid that is not probed is no nearer than one that is.
pub proof fn law_probed_are_nearest(dists: Seq<u32>, i: int, j: int)
    requires
        0 <= i < probes(dists.len()) <= j < dists.len(),
    ensures
        probe_order(dists).len() == dists.len(),
        !before(probe_order(dists)[j], probe_order(dists)[i]),
{
    law_sort_is_sorted_permutation(
        Seq::new(dists.len(), |i: int| Scored { dist: dists[i], node: i as u32 }),
    );
}

/// `picks` are the up to four super-centroids that a row with these distances
/// is nearest to, nearest first, ties by id.
pub open spec fn nearest_supers(dists: Seq<u32>, picks: Seq<int>) -> bool {
    &&& picks.len() == (if dists.len() < 4 {
        dists.len() as int
    } else {
        4
    })
    &&& forall|i: int| 0 <= i < picks.len() ==> 0 <= #[trigger] picks[i] < dists.len()
    &&& forall|i: int, j: int|
        0 <= i < j < picks.len() ==> nearer_super(dists, #[trigger] picks[i], #[trigger] picks[j])
    &&& forall|i: int, t: int|
        0 <= i < picks.len() && 0 <= t < dists.len() && !picks.contains(t)
            ==> #[trigger] nearer_super(dists, picks[i], t)
}

/// `a` is nearer than `b`, or as near with a smaller id.
pub open spec fn nearer_super(dists: Seq<u32>, a: int, b: int) -> bool {
    f32_total_key(dists[a]) < f32_total_key(dists[b]) || (dists[a] == dists[b] && a < b)
}

proof fn lemma_probe_order(dists: Seq<u32>)
    requires
        dists.len() <= u32::MAX,
    ensures
        ({
            let order = probe_order(dists);
            &&& order.len() == dists.len()
            &&& forall|i: int|
                0 <= i < order.len() ==> (#[trigger] order[i]).node < dists.len() && order[i].dist
                    == dists[order[i].node as int]
            &&& forall|i: int, j: int|
                0 <= i < j < order.len() ==> nearer_super(
                    dists,
                    (#[trigger] order[i]).node as int,
                    (#[trigger] order[j]).node as int,
                )
            &&& forall|t: int|
                0 <= t < dists.len() ==> order.contains(
                    (Scored { dist: #[trigger] dists[t], node: t as u32 }),
                )
        }),
{
    let all = Seq::new(dists.len(), |i: int| Scored { dist: dists[i], node: i as u32 });
    let order = probe_order(dists);
    law_sort_is_sorted_permutation(all);
    assert forall|i: int| 0 <= i < order.len() implies (#[trigger] order[i]).node < dists.len()
        && order[i].dist == dists[order[i].node as int] by {
        assert(order.contains(order[i]));
        let q = choose|q: int| 0 <= q < all.len() && all[q] == order[i];
        assert(order[i].node == q);
    }
    assert(all.no_duplicates()) by {
        assert forall|i: int, j: int|
            0 <= i < all.len() && 0 <= j < all.len() && i != j implies all[i] != all[j] by {
            assert(all[i].node == i as u32 && all[j].node == j as u32);
        }
    }
    all.lemma_multiset_has_no_duplicates();
    order.lemma_multiset_has_no_duplicates_conv();
    assert forall|i: int, j: int| 0 <= i < j < order.len() implies nearer_super(
        dists,
        (#[trigger] order[i]).node as int,
        (#[trigger] order[j]).node as int,
    ) by {
        assert(!before(order[j], order[i]));
        assert(order[i] != order[j]);
        law_total_order_is_injective(order[i].dist, order[j].dist);
    }
    assert forall|t: int| 0 <= t < dists.len() implies order.contains(
        (Scored { dist: #[trigger] dists[t], node: t as u32 }),
    ) by {
        assert(all[t] == (Scored { dist: dists[t], node: t as u32 }));
        assert(all.contains(all[t]));
    }
}

proof fn lemma_beneath_flat(cells: Seq<Vec<usize>>, order: Seq<Scored>, n: nat)
    requires
        n <= order.len(),
    ensures
        cells_beneath(cells, order, n) == Seq::new(
            n,
            |i: int| cells[order[i].node as int]@,
        ).flatten(),
    decreases n,
{
    let parts = Seq::new(n, |i: int| cells[order[i].node as int]@);
    if n > 0 {
        lemma_beneath_flat(cells, order, (n - 1) as nat);
        assert(parts.drop_last() =~= Seq::new(
            (n - 1) as nat,
            |i: int| cells[order[i].node as int]@,
        ));
        parts.lemma_flatten_and_flatten_alt_are_equivalent();
        parts.drop_last().lemma_flatten_and_flatten_alt_are_equivalent();
    }
}

/// A row is compared to the cells of its up to four nearest super-centroids,
/// all of them and no others, one super-centroid's cells behind the other's.
pub proof fn law_probed_cells_are_those_of_the_nearest(dists: Seq<u32>, cells: Seq<Vec<usize>>)
    requires
        dists.len() == cells.len() <= u32::MAX,
    ensures
        exists|picks: Seq<int>| #[trigger]
            nearest_supers(dists, picks) && cells_beneath(
                cells,
                probe_order(dists),
                probes(dists.len()),
            ) == Seq::new(picks.len(), |i: int| cells[picks[i]]@).flatten(),
{
    let order = probe_order(dists);
    lemma_probe_order(dists);
    let n = probes(dists.len());
    let picks = Seq::new(n, |i: int| order[i].node as int);
    assert forall|i: int, t: int|
        0 <= i < picks.len() && 0 <= t < dists.len() && !picks.contains(
            t,
        ) implies #[trigger] nearer_super(dists, picks[i], t) by {
        let c = Scored { dist: dists[t], node: t as u32 };
        assert(order.contains(c));
        let q = choose|q: int| 0 <= q < order.len() && order[q] == c;
        if q < n {
            assert(picks[q] == t);
        }
        assert(nearer_super(dists, order[i].node as int, order[q].node as int));
    }
    assert forall|i: int, j: int| 0 <= i < j < picks.len() implies nearer_super(
        dists,
        #[trigger] picks[i],
        #[trigger] picks[j],
    ) by {
        assert(nearer_super(dists, order[i].node as int, order[j].node as int));
    }
    assert(nearest_supers(dists, picks));
    lemma_beneath_flat(cells, order, n);
    assert(Seq::new(n, |i: int| cells[order[i].node as int]@) =~= Seq::new(
        picks.len(),
        |i: int| cells[picks[i]]@,
    ));
}

/// The cells that a row is compared to: those beneath the super-centroids it
/// is nearest to, given its distance to each.
pub fn probed_cells(dists: &Vec<u32>, cells: &Vec<Vec<usize>>) -> (r: Vec<usize>)
    requires
        dists@.len() == cells@.len() <= u32::MAX,
    ensures
        r@ == cells_beneath(cells@, probe_order(dists@), probes(dists@.len())),
{
    let ghost all = Seq::new(
        dists@.len(),
        |i: int| Scored { dist: dists@[i], node: i as u32 },
    );
    let mut scored: Vec<Scored> = Vec::new();
    let mut i: usize = 0;
    while i < dists.len()
        invariant
            i <= dists@.len() <= u32::MAX,
            scored@.len() == i,
            forall|j: int|
                0 <= j < i ==> #[trigger] scored@[j] == (Scored { dist: dists@[j], node: j as u32 }),
        decreases dists.len() - i,
    {
        scored.push(Scored { dist: dists[i], node: i as u32 });
        i = i + 1;
    }
    let order = sort(&scored);
    proof {
        assert(scored@ =~= all);
        law_sort_is_sorted_permutation(all);
        assert forall|j: int| 0 <= j < order@.len() implies (#[trigger] order@[j]).node
            < cells@.len() by {
            assert(sort_scored(all).contains(order@[j]));
            let q = choose|q: int| 0 <= q < all.len() && all[q] == order@[j];
            assert(order@[j].node == q);
        }
    }
    let n: usize = if order.len() < COARSE_SUPER_NPROBE {
        order.len()
    } else {
        COARSE_SUPER_NPROBE
    };
    let mut out: Vec<usize> = Vec::new();
    let mut s: usize = 0;
    while s < n
        invariant
            s <= n <= order@.len(),
            forall|j: int| 0 <= j < order@.len() ==> (#[trigger] order@[j]).node < cells@.len(),
            out@ == cells_beneath(cells@, order@, s as nat),
        decreases n - s,
    {
        let ghost before_s = out@;
        let beneath = &cells[order[s].node as usize];
        let mut c: usize = 0;
        while c < beneath.len()
            invariant
                c <= beneath@.len(),
                out@ == before_s + beneath@.subrange(0, c as int),
            decreases beneath.len() - c,
        {
            out.push(beneath[c]);
            c = c + 1;
            proof {
                assert(out@ =~= before_s + beneath@.subrange(0, c as int));
            }
        }
        s = s + 1;
        proof {
            assert(beneath@.subrange(0, c as int) =~= beneath@);
        }
    }
    out
}

/// The nearest of the first `n` candidates, each a cell with its distance, and
/// that distance: the first of equally near ones, none where no distance is
/// below infinity.
pub open spec fn nearest_cell(cells: Seq<(u32, u32)>, n: nat) -> (Option<u32>, u32)
    decreases n,
{
    if n == 0 {
        (None, F32_INFINITY)
    } else {
        let best = nearest_cell(cells, (n - 1) as nat);
        if f32_lt(cells[n - 1].1, best.1) {
            (Some(cells[n - 1].0), cells[n - 1].1)
        } else {
            best
        }
    }
}

proof fn lemma_none_at_infinity(cells: Seq<(u32, u32)>, n: nat)
    ensures
        nearest_cell(cells, n).0 is None ==> nearest_cell(cells, n).1 == F32_INFINITY,
    decreases n,
{
    if n > 0 {
        lemma_none_at_infinity(cells, (n - 1) as nat);
    }
}

/// No probed candidate is nearer than the one that is taken, and one is taken
/// as soon as a distance is below infinity.
pub proof fn law_nearest_cell(cells: Seq<(u32, u32)>, n: nat, i: int)
    requires
        n <= cells.len(),
        0 <= i < n,
    ensures
        !f32_lt(cells[i].1, nearest_cell(cells, n).1),
        f32_lt(cells[i].1, F32_INFINITY) ==> nearest_cell(cells, n).0 is Some,
    decreases n,
{
    lemma_none_at_infinity(cells, (n - 1) as nat);
    if n > 1 && i < n - 1 {
        law_nearest_cell(cells, (n - 1) as nat, i);
    }
}

/// Place `i` holds the first of the nearest cells: none is nearer, and every
/// one before it is farther.
pub open spec fn first_of_nearest(cells: Seq<(u32, u32)>, i: int) -> bool {
    &&& 0 <= i < cells.len()
    &&& f32_lt(cells[i].1, 0x7f80_0000)
    &&& forall|j: int| 0 <= j < cells.len() ==> !f32_lt((#[trigger] cells[j]).1, cells[i].1)
    &&& forall|j: int|
        0 <= j < i ==> f32_lt(cells[i].1, (#[trigger] cells[j]).1) || f32_nan(cells[j].1)
}

proof fn lemma_nearest_cell(cells: Seq<(u32, u32)>, n: nat) -> (at: int)
    requires
        n <= cells.len(),
    ensures
        ({
            let best = nearest_cell(cells, n);
            &&& at < n
            &&& at < 0 ==> best == (None::<u32>, 0x7f80_0000u32)
            &&& at >= 0 ==> best == (Some(cells[at].0), cells[at].1) && f32_lt(best.1, 0x7f80_0000)
            &&& forall|j: int| 0 <= j < n ==> !f32_lt((#[trigger] cells[j]).1, best.1)
            &&& forall|j: int|
                0 <= j < at ==> f32_lt(best.1, (#[trigger] cells[j]).1) || f32_nan(cells[j].1)
        }),
    decreases n,
{
    if n == 0 {
        -1
    } else {
        let at = lemma_nearest_cell(cells, (n - 1) as nat);
        let best = nearest_cell(cells, (n - 1) as nat);
        if f32_lt(cells[n - 1].1, best.1) {
            n - 1
        } else {
            at
        }
    }
}

/// The cell that a row goes to is the first of the nearest ones, and there is
/// one exactly where a distance is below infinity.
pub proof fn law_coarse_cell_is_the_first_of_the_nearest(cells: Seq<(u32, u32)>)
    ensures
        nearest_cell(cells, cells.len()).0 is None <==> (forall|j: int|
            0 <= j < cells.len() ==> !f32_lt((#[trigger] cells[j]).1, 0x7f80_0000)),
        nearest_cell(cells, cells.len()).0 is Some ==> exists|i: int|
            first_of_nearest(cells, i) && nearest_cell(cells, cells.len()).0 == Some(
                (#[trigger] cells[i]).0,
            ),
        forall|i: int| #[trigger]
            first_of_nearest(cells, i) ==> nearest_cell(cells, cells.len()).0 == Some(cells[i].0),
{
    let at = lemma_nearest_cell(cells, cells.len());
    if at >= 0 {
        assert(first_of_nearest(cells, at));
        assert(nearest_cell(cells, cells.len()).0 == Some(cells[at].0));
        assert(f32_lt(cells[at].1, 0x7f80_0000));
        assert forall|i: int| #[trigger] first_of_nearest(cells, i) implies i == at by {
            assert(!f32_lt(cells[i].1, cells[at].1));
            assert(!f32_lt(cells[at].1, cells[i].1));
        }
    } else {
        assert forall|i: int| #[trigger] first_of_nearest(cells, i) implies false by {
            assert(!f32_lt(cells[i].1, 0x7f80_0000));
        }
    }
}

/// The cell of a row: the nearest of the candidates beneath the probed
/// super-centroids. `None` where they give none: the row then takes the nearest
/// of all centroids.
pub fn coarse_cell(cells: &Vec<(u32, u32)>) -> (r: Option<u32>)
    ensures
        r == nearest_cell(cells@, cells@.len()).0,
{
    let mut best: Option<u32> = None;
    let mut dist: u32 = F32_INFINITY;
    let mut i: usize = 0;
    while i < cells.len()
        invariant
            i <= cells@.len(),
            (best, dist) == nearest_cell(cells@, i as nat),
        decreases cells.len() - i,
    {
        let (cell, d) = cells[i];
        if less32(d, dist) {
            dist = d;
            best = Some(cell);
        }
        i = i + 1;
    }
    best
}

// ---------------- spread seeding ----------------

/// The first of the first `n` candidates, each a row with the potential that
/// it would leave, of the least potential; `last` where none is below
/// infinity.
pub open spec fn least_potential(cands: Seq<(usize, u64)>, last: usize, n: nat) -> (usize, u64)
    decreases n,
{
    if n == 0 {
        (last, F64_INFINITY)
    } else {
        let best = least_potential(cands, last, (n - 1) as nat);
        if f64_lt(cands[n - 1].1, best.1) {
            cands[n - 1]
        } else {
            best
        }
    }
}

/// Place `i` holds the first of the candidates that leave the least potential:
/// none leaves less, and every one before it leaves more.
pub open spec fn first_of_least(cands: Seq<(usize, u64)>, i: int) -> bool {
    &&& 0 <= i < cands.len()
    &&& f64_lt(cands[i].1, 0x7ff0_0000_0000_0000)
    &&& forall|j: int| 0 <= j < cands.len() ==> !f64_lt((#[trigger] cands[j]).1, cands[i].1)
    &&& forall|j: int|
        0 <= j < i ==> f64_lt(cands[i].1, (#[trigger] cands[j]).1) || f64_nan(cands[j].1)
}

proof fn lemma_least_potential(cands: Seq<(usize, u64)>, last: usize, n: nat) -> (at: int)
    requires
        n <= cands.len(),
    ensures
        ({
            let best = least_potential(cands, last, n);
            &&& at < n
            &&& at < 0 ==> best == (last, 0x7ff0_0000_0000_0000u64)
            &&& at >= 0 ==> best == cands[at] && f64_lt(best.1, 0x7ff0_0000_0000_0000)
            &&& forall|j: int| 0 <= j < n ==> !f64_lt((#[trigger] cands[j]).1, best.1)
            &&& forall|j: int|
                0 <= j < at ==> f64_lt(best.1, (#[trigger] cands[j]).1) || f64_nan(cands[j].1)
        }),
    decreases n,
{
    if n == 0 {
        -1
    } else {
        let at = lemma_least_potential(cands, last, (n - 1) as nat);
        let best = least_potential(cands, last, (n - 1) as nat);
        if f64_lt(cands[n - 1].1, best.1) {
            n - 1
        } else {
            at
        }
    }
}

/// The row that is committed is that of the first candidate that leaves the
/// least potential; where none leaves a potential below infinity, it is the
/// last row.
pub proof fn law_committed_candidate_leaves_least(cands: Seq<(usize, u64)>, last: usize)
    ensures
        (exists|j: int| 0 <= j < cands.len() && f64_lt((#[trigger] cands[j]).1, 0x7ff0_0000_0000_0000))
            ==> exists|i: int|
            first_of_least(cands, i) && least_potential(cands, last, cands.len()).0 == (
            #[trigger] cands[i]).0,
        (forall|j: int|
            0 <= j < cands.len() ==> !f64_lt((#[trigger] cands[j]).1, 0x7ff0_0000_0000_0000))
            ==> least_potential(cands, last, cands.len()).0 == last,
        forall|i: int| #[trigger]
            first_of_least(cands, i) ==> least_potential(cands, last, cands.len()).0 == cands[i].0,
{
    let at = lemma_least_potential(cands, last, cands.len());
    if at >= 0 {
        assert(first_of_least(cands, at));
        assert(cands[at].0 == least_potential(cands, last, cands.len()).0);
        assert(f64_lt(cands[at].1, 0x7ff0_0000_0000_0000));
        assert forall|i: int| #[trigger] first_of_least(cands, i) implies i == at by {
            assert(!f64_lt(cands[i].1, cands[at].1));
            assert(!f64_lt(cands[at].1, cands[i].1));
        }
    } else {
        assert forall|i: int| #[trigger] first_of_least(cands, i) implies false by {
            assert(!f64_lt(cands[i].1, 0x7ff0_0000_0000_0000));
        }
    }
}

/// The candidate to commit: the one of least potential, or the last row.
pub fn choose_candidate(cands: &Vec<(usize, u64)>, rows: usize) -> (r: usize)
    requires
        rows > 0,
        forall|i: int| 0 <= i < cands@.len() ==> (#[trigger] cands@[i]).0 < rows,
    ensures
        r == least_potential(cands@, (rows - 1) as usize, cands@.len()).0,
        r < rows,
        forall|i: int| #[trigger] first_of_least(cands@, i) ==> r == cands@[i].0,
        (forall|j: int|
            0 <= j < cands@.len() ==> !f64_lt((#[trigger] cands@[j]).1, 0x7ff0_0000_0000_0000))
            ==> r == rows - 1,
{
    proof {
        law_committed_candidate_leaves_least(cands@, (rows - 1) as usize);
    }
    let mut best: usize = rows - 1;
    let mut potential: u64 = F64_INFINITY;
    let mut i: usize = 0;
    while i < cands.len()
        invariant
            i <= cands@.len(),
            rows > 0,
            best < rows,
            forall|j: int| 0 <= j < cands@.len() ==> (#[trigger] cands@[j]).0 < rows,
            (best, potential) == least_potential(cands@, (rows - 1) as usize, i as nat),
        decreases cands.len() - i,
    {
        let (row, p) = cands[i];
        assert(cands@[i as int].0 < rows);
        if less64(p, potential) {
            potential = p;
            best = row;
        }
        i = i + 1;
    }
    best
}

/// Fold the distances to a new center into the nearest distances.
pub fn fold_nearest(nearest: &mut Vec<u32>, dists: &Vec<u32>)
    requires
        old(nearest)@.len() == dists@.len(),
    ensures
        final(nearest)@.len() == dists@.len(),
        forall|i: int|
            0 <= i < dists@.len() ==> #[trigger] final(nearest)@[i] == (if f32_lt(
                dists@[i],
                old(nearest)@[i],
            ) {
                dists@[i]
            } else {
                old(nearest)@[i]
            }),
        forall|i: int|
            0 <= i < dists@.len() ==> !f32_lt(old(nearest)@[i], #[trigger] final(nearest)@[i])
                && !f32_lt(dists@[i], final(nearest)@[i]),
{
    let ghost before = nearest@;
    let mut i: usize = 0;
    while i < dists.len()
        invariant
            i <= dists@.len(),
            before.len() == dists@.len(),
            nearest@.len() == dists@.len(),
            forall|j: int|
                0 <= j < i ==> #[trigger] nearest@[j] == (if f32_lt(dists@[j], before[j]) {
                    dists@[j]
                } else {
                    before[j]
                }),
            forall|j: int| i <= j < dists@.len() ==> #[trigger] nearest@[j] == before[j],
        decreases dists.len() - i,
    {
        if less32(dists[i], nearest[i]) {
            nearest.set(i, dists[i]);
        }
        i = i + 1;
    }
}

} // verus!
