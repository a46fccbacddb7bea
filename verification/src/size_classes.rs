//! Size classes of small-object allocation: the list of cell sizes and the
//! table that maps each size step to the cell size that serves it.
use vstd::prelude::*;
use vstd::arithmetic::div_mod::{lemma_fundamental_div_mod, lemma_fundamental_div_mod_converse};
use crate::align::{align_down, round_up, lemma_power_of_two};
use vstd::arithmetic::power2::lemma2_to64;

verus! {

/// Granularity of sizes served by size classes.
pub const SIZE_STEP: usize = 16;
/// Sizes up to this amount get a size class for each size step.
pub const PRECISE_CUTOFF: usize = 80;
/// A size class added for objects allocated in high volume.
pub const EXTRA_SIZE_CLASS: usize = 256;

/// Index of the size step that serves `size` bytes.
pub fn size_class_to_index(size: usize) -> (r: usize)
    requires
        size + SIZE_STEP - 1 <= usize::MAX,
    ensures
        r == (size + SIZE_STEP - 1) / (SIZE_STEP as int),
{
    (size + (SIZE_STEP - 1)) / SIZE_STEP
}

/// Size in bytes of size step `index`.
pub fn index_to_size_class(index: usize) -> (r: usize)
    requires
        index * SIZE_STEP <= usize::MAX,
    ensures
        r == index * SIZE_STEP,
{
    index * SIZE_STEP
}

/// The cells per block of a class: `payload` bytes split into cells of
/// `size_class` bytes.
pub open spec fn cells_per_block(payload: int, size_class: int) -> int {
    payload / size_class
}

/// The class chosen for an approximate size: its rounded-up step, or the
/// largest step-multiple cell that keeps the same number of cells per
/// block, whichever wastes less.
pub open spec fn better_size_class(approximate: int, payload: int) -> int {
    let size_class = round_up_step(approximate);
    let cells = cells_per_block(payload, size_class);
    let possibly_better = round_down_step(payload / cells);
    let original_wastage = payload - cells * SIZE_STEP;
    let new_wastage = (possibly_better - size_class) * cells;
    if new_wastage > original_wastage { size_class } else { possibly_better }
}

/// `x` rounded up to a multiple of the size step.
pub open spec fn round_up_step(x: int) -> int {
    ((x + SIZE_STEP - 1) / (SIZE_STEP as int)) * SIZE_STEP
}

/// `x` rounded down to a multiple of the size step.
pub open spec fn round_down_step(x: int) -> int {
    (x / (SIZE_STEP as int)) * SIZE_STEP
}

/// The largest cell served by size classes: half the payload, rounded down
/// to a size step.
pub open spec fn large_cutoff(payload: int) -> int {
    round_down_step(payload / 2)
}

/// The position, from `j` on, where the progression of approximate sizes
/// stops: the first size, or the first chosen class, past the large cutoff.
pub open spec fn progression_stop(approx: Seq<usize>, payload: int, j: int) -> int
    decreases approx.len() - j,
{
    if j >= approx.len() {
        approx.len() as int
    } else if approx[j] > large_cutoff(payload) || better_size_class(approx[j] as int, payload) > large_cutoff(payload) {
        j
    } else {
        progression_stop(approx, payload, j + 1)
    }
}

/// The size classes for a progression of approximate sizes: every size
/// step below the precise cutoff, the class chosen for each approximate size
/// before the progression stops, and the extra class.
pub open spec fn size_class_set(approx: Seq<usize>, payload: int) -> Set<int> {
    Set::new(|x: int| {
        ||| x == 16 || x == 32 || x == 48 || x == 64
        ||| x == EXTRA_SIZE_CLASS
        ||| (exists|j: int| 0 <= j < progression_stop(approx, payload, 0) && x == better_size_class(#[trigger] approx[j] as int, payload))
    })
}

/// The elements of `s` are strictly increasing.
pub open spec fn strictly_increasing(s: Seq<usize>) -> bool {
    forall|i: int, j: int| 0 <= i < j < s.len() ==> s[i] < s[j]
}

/// `after` holds the members of `before` and `x`, and nothing else.
pub open spec fn adds_member(before: Seq<usize>, after: Seq<usize>, x: usize) -> bool {
    forall|y: usize| after.contains(y) <==> (before.contains(y) || y == x)
}

/// Inserts `x` into a strictly increasing vector, keeping it so.
pub fn insert_sorted_unique(v: &mut Vec<usize>, x: usize)
    requires
        strictly_increasing(old(v)@),
    ensures
        strictly_increasing(final(v)@),
        adds_member(old(v)@, final(v)@, x),
{
    let mut p: usize = 0;
    while p < v.len() && v[p] < x
        invariant
            p <= v@.len(),
            v@ == old(v)@,
            forall|i: int| 0 <= i < p ==> v@[i] < x,
        decreases v@.len() - p,
    {
        p += 1;
    }
    if p < v.len() && v[p] == x {
        proof {
            assert forall|y: usize| v@.contains(y) <==> (old(v)@.contains(y) || y == x) by {
                if y == x {
                    assert(v@[p as int] == x);
                }
            }
            assert(adds_member(old(v)@, v@, x));
        }
        return;
    }
    let ghost before = v@;
    v.insert(p, x);
    proof {
        assert forall|i: int, j: int| 0 <= i < j < v@.len() implies v@[i] < v@[j] by {
            if j < p {
            } else if j == p {
            } else if i < p {
                assert(v@[j] == before[j - 1]);
                assert(before[j - 1] >= x) by {
                    if p < before.len() {
                        assert(before[p as int] >= x);
                    }
                }
            } else if i == p {
                assert(v@[j] == before[j - 1]);
                assert(before[p as int] > x);
            } else {
                assert(v@[i] == before[i - 1]);
                assert(v@[j] == before[j - 1]);
            }
        }
        assert forall|y: usize| v@.contains(y) <==> (before.contains(y) || y == x) by {
            if v@.contains(y) {
                let k = choose|k: int| 0 <= k < v@.len() && v@[k] == y;
                if k < p {
                    assert(before[k] == y);
                } else if k > p {
                    assert(before[k - 1] == y);
                }
            }
            if before.contains(y) {
                let k = choose|k: int| 0 <= k < before.len() && before[k] == y;
                if k < p {
                    assert(v@[k] == y);
                } else {
                    assert(v@[k + 1] == y);
                }
            }
            if y == x {
                assert(v@[p as int] == x);
            }
        }
        assert(before == old(v)@);
        assert(adds_member(old(v)@, v@, x));
    }
}


proof fn lemma_step_is_power_of_two()
    ensures
        crate::align::is_power_of_two(SIZE_STEP),
{
    lemma2_to64();
    lemma_power_of_two(SIZE_STEP, 4);
}

proof fn lemma_better_size_class(a: int, payload: int)
    requires
        1 <= a <= large_cutoff(payload),
        payload >= 2 * EXTRA_SIZE_CLASS,
    ensures
        SIZE_STEP <= round_up_step(a) <= large_cutoff(payload),
        round_up_step(a) % (SIZE_STEP as int) == 0,
        cells_per_block(payload, round_up_step(a)) >= 2,
        cells_per_block(payload, round_up_step(a)) * SIZE_STEP <= payload,
        cells_per_block(payload, round_up_step(a)) * round_up_step(a) <= payload,
        better_size_class_by_cells(a, payload) % (SIZE_STEP as int) == 0,
        better_size_class_by_cells(a, payload) >= SIZE_STEP,
        round_down_step(payload / cells_per_block(payload, round_up_step(a))) >= round_up_step(a),
        round_down_step(payload / cells_per_block(payload, round_up_step(a))) * cells_per_block(payload, round_up_step(a)) <= payload,
        (round_down_step(payload / cells_per_block(payload, round_up_step(a))) - round_up_step(a))
            * cells_per_block(payload, round_up_step(a)) <= payload,
        better_size_class(a, payload) % (SIZE_STEP as int) == 0,
        better_size_class(a, payload) >= SIZE_STEP,
{
    let sc = round_up_step(a);
    let c = large_cutoff(payload);
    let q = (a + SIZE_STEP - 1) / (SIZE_STEP as int);
    lemma_fundamental_div_mod(a + SIZE_STEP - 1, SIZE_STEP as int);
    lemma_fundamental_div_mod(payload / 2, SIZE_STEP as int);
    let qc = (payload / 2) / (SIZE_STEP as int);
    assert(c == qc * 16);
    assert(sc == q * 16);
    assert(1 <= q) by (nonlinear_arith)
        requires a + 15 == 16 * q + (a + 15) % 16, 0 <= (a + 15) % 16 < 16, a >= 1;
    assert(q <= qc) by (nonlinear_arith)
        requires a + 15 == 16 * q + (a + 15) % 16, 0 <= (a + 15) % 16 < 16, a <= qc * 16;
    assert(16 <= sc <= c) by (nonlinear_arith)
        requires sc == q * 16, c == qc * 16, 1 <= q <= qc;
    lemma_fundamental_div_mod_converse(sc, 16, q, 0);
    lemma_fundamental_div_mod(payload, 2);
    assert(2 * sc <= payload) by (nonlinear_arith)
        requires sc <= c, c == qc * 16, payload / 2 == 16 * qc + (payload / 2) % 16,
            0 <= (payload / 2) % 16, payload == 2 * (payload / 2) + payload % 2, 0 <= payload % 2;
    let cells = payload / sc;
    lemma_fundamental_div_mod(payload, sc);
    assert(cells >= 2) by (nonlinear_arith)
        requires payload == sc * cells + payload % sc, 0 <= payload % sc < sc, 2 * sc <= payload, sc > 0;
    assert(cells * 16 <= payload) by (nonlinear_arith)
        requires payload == sc * cells + payload % sc, 0 <= payload % sc, sc >= 16, cells >= 0;
    let d = payload / cells;
    lemma_fundamental_div_mod(payload, cells);
    assert(d >= sc) by (nonlinear_arith)
        requires payload == cells * d + payload % cells, 0 <= payload % cells < cells,
            payload == sc * cells + payload % sc, 0 <= payload % sc, cells >= 2;
    let pb = round_down_step(d);
    lemma_fundamental_div_mod(d, 16);
    let qd = d / 16;
    assert(pb == qd * 16);
    assert(pb >= sc) by (nonlinear_arith)
        requires d == 16 * qd + d % 16, 0 <= d % 16 < 16, d >= sc, sc == q * 16, pb == qd * 16;
    assert(pb * cells <= payload) by (nonlinear_arith)
        requires pb <= d, payload == cells * d + payload % cells, 0 <= payload % cells, cells >= 0, pb >= 0,
            d == 16 * qd + d % 16, 0 <= d % 16, pb == qd * 16;
    lemma_fundamental_div_mod_converse(pb, 16, qd, 0);
    assert((pb - sc) * cells <= pb * cells) by (nonlinear_arith)
        requires sc >= 0, cells >= 0, pb >= sc;
}

/// The largest multiple of the size step that gives a block of `payload`
/// bytes the same number of cells as `s` does is `payload / (payload / s)`
/// rounded down to the size step.
proof fn lemma_largest_class_with_cells(payload: int, s: int, m: int)
    requires
        16 <= s,
        2 * s <= payload,
        s % 16 == 0,
        m % 16 == 0,
        m > 0,
        payload / m == payload / s,
        forall|y: int| y % 16 == 0 && y > 0 && #[trigger] (payload / y) == payload / s ==> y <= m,
    ensures
        m == round_down_step(payload / (payload / s)),
{
    let c = payload / s;
    lemma_fundamental_div_mod(payload, s);
    assert(c >= 2) by (nonlinear_arith)
        requires payload == s * c + payload % s, 0 <= payload % s < s, 2 * s <= payload;
    let d = payload / c;
    lemma_fundamental_div_mod(payload, c);
    let pb = round_down_step(d);
    lemma_fundamental_div_mod(d, 16);
    assert(pb == (d / 16) * 16);
    assert(d >= s) by (nonlinear_arith)
        requires payload == c * d + payload % c, 0 <= payload % c < c, payload == s * c + payload % s, 0 <= payload % s, c >= 2;
    assert(pb >= s) by (nonlinear_arith)
        requires d == 16 * (d / 16) + d % 16, 0 <= d % 16 < 16, d >= s, s % 16 == 0, pb == (d / 16) * 16,
            s == 16 * (s / 16) + s % 16;
    assert(pb <= d);
    lemma_fundamental_div_mod_converse(pb, 16, d / 16, 0);
    // payload / pb == c
    vstd::arithmetic::div_mod::lemma_div_is_ordered_by_denominator(payload, s, pb);
    assert(pb * c <= payload) by (nonlinear_arith)
        requires pb <= d, payload == c * d + payload % c, 0 <= payload % c, c >= 0, pb >= 0;
    lemma_fundamental_div_mod(payload, pb);
    assert(payload / pb >= c) by (nonlinear_arith)
        requires pb * c <= payload, payload == pb * (payload / pb) + payload % pb, 0 <= payload % pb < pb, pb > 0;
    assert(pb <= m);
    // m <= pb
    lemma_fundamental_div_mod(payload, m);
    assert(m * c <= payload) by (nonlinear_arith)
        requires payload == m * (payload / m) + payload % m, 0 <= payload % m, payload / m == c, m > 0;
    assert(m <= d) by (nonlinear_arith)
        requires m * c <= payload, payload == c * d + payload % c, 0 <= payload % c < c, c > 0;
    lemma_fundamental_div_mod(m, 16);
    assert(m <= pb) by (nonlinear_arith)
        requires m <= d, m == 16 * (m / 16), d == 16 * (d / 16) + d % 16, 0 <= d % 16 < 16, pb == (d / 16) * 16;
}

/// How a class is chosen for an approximate size `a`: let `s` be `a` rounded
/// up to the size step, `c` the cells that `s` fits in a block, and `m` the
/// largest multiple of the size step that still fits `c` cells. The class
/// is `m`, unless stretching the cells from `s` to `m` wastes more than the
/// payload left beyond `c` size steps, in which case it is `s`. Either way
/// the class fits as many cells per block as `s` does.
pub proof fn lemma_size_class_choice(a: int, payload: int, m: int)
    requires
        1 <= a <= large_cutoff(payload),
        payload >= 2 * EXTRA_SIZE_CLASS,
        m % 16 == 0,
        m > 0,
        payload / m == payload / (((a + 15) / 16) * 16),
        forall|y: int| y % 16 == 0 && y > 0 && #[trigger] (payload / y) == payload / (((a + 15) / 16) * 16) ==> y <= m,
    ensures
        ({
            let s = ((a + 15) / 16) * 16;
            let c = payload / s;
            &&& better_size_class(a, payload) == (if (m - s) * c > payload - c * 16 { s } else { m })
            &&& payload / better_size_class(a, payload) == c
            &&& better_size_class(a, payload) % 16 == 0
        }),
{
    lemma_better_size_class(a, payload);
    let s = round_up_step(a);
    lemma_fundamental_div_mod(s, 16);
    lemma_largest_class_with_cells(payload, s, m);
}

/// The global heap chooses a class the same way, except that the waste it
/// weighs `m` against is the payload left beyond `c` cells of `s` bytes.
pub proof fn lemma_size_class_choice_by_cells(a: int, payload: int, m: int)
    requires
        1 <= a <= large_cutoff(payload),
        payload >= 2 * EXTRA_SIZE_CLASS,
        m % 16 == 0,
        m > 0,
        payload / m == payload / (((a + 15) / 16) * 16),
        forall|y: int| y % 16 == 0 && y > 0 && #[trigger] (payload / y) == payload / (((a + 15) / 16) * 16) ==> y <= m,
    ensures
        ({
            let s = ((a + 15) / 16) * 16;
            let c = payload / s;
            &&& better_size_class_by_cells(a, payload) == (if (m - s) * c > payload - c * s { s } else { m })
            &&& payload / better_size_class_by_cells(a, payload) == c
            &&& better_size_class_by_cells(a, payload) % 16 == 0
        }),
{
    lemma_better_size_class(a, payload);
    let s = round_up_step(a);
    lemma_fundamental_div_mod(s, 16);
    lemma_largest_class_with_cells(payload, s, m);
}

/// The size classes for the approximate sizes of a class progression and a
/// block payload of `payload` bytes, in increasing order without repeats:
/// every size step below the precise cutoff; for each approximate size
/// until the progression passes the large cutoff, the class that wastes
/// less of a block; and the extra class.
#[verifier::spinoff_prover]
#[verifier::rlimit(60)]
pub fn size_classes(approximate_sizes: &[usize], payload: usize) -> (r: Vec<usize>)
    requires
        forall|j: int| 0 <= j < approximate_sizes@.len() ==> approximate_sizes@[j] >= 1,
        payload >= 2 * EXTRA_SIZE_CLASS,
    ensures
        strictly_increasing(r@),
        forall|x: usize| r@.contains(x) <==> size_class_set(approximate_sizes@, payload as int).contains(x as int),
{
    let ghost approx = approximate_sizes@;
    let ghost pl = payload as int;
    proof {
        lemma_step_is_power_of_two();
    }
    let cutoff = align_down(payload / 2, SIZE_STEP);
    let mut result: Vec<usize> = Vec::new();
    let mut size: usize = SIZE_STEP;
    while size < PRECISE_CUTOFF
        invariant
            size % SIZE_STEP == 0,
            SIZE_STEP <= size <= PRECISE_CUTOFF,
            strictly_increasing(result@),
            forall|x: usize| result@.contains(x) <==> (x % SIZE_STEP == 0 && SIZE_STEP <= x < size),
        decreases PRECISE_CUTOFF - size,
    {
        let ghost before = result@;
        insert_sorted_unique(&mut result, size);
        size += SIZE_STEP;
    }
    let mut last: usize = 64;
    let mut j: usize = 0;
    while j < approximate_sizes.len()
        invariant_except_break
            j <= approx.len(),
            progression_stop(approx, pl, 0) == progression_stop(approx, pl, j as int),
        invariant
            approx == approximate_sizes@,
            pl == payload,
            payload >= 2 * EXTRA_SIZE_CLASS,
            crate::align::is_power_of_two(SIZE_STEP),
            cutoff == large_cutoff(pl),
            forall|i: int| 0 <= i < approx.len() ==> approx[i] >= 1,
            strictly_increasing(result@),
            result@.contains(last),
            last <= cutoff,
            forall|x: usize| result@.contains(x) <==> (
                (x == 16 || x == 32 || x == 48 || x == 64)
                || (exists|i: int| 0 <= i < j && x == better_size_class(#[trigger] approx[i] as int, pl))),
        ensures
            j <= approx.len(),
            j == progression_stop(approx, pl, 0),
        decreases approx.len() - j,
    {
        let a = approximate_sizes[j];
        if a > cutoff {
            break;
        }
        proof {
            lemma_better_size_class(a as int, pl);
        }
        let size_class = round_up(a, SIZE_STEP);
        let cells = payload / size_class;
        let possibly_better = align_down(payload / cells, SIZE_STEP);
        let original_wastage = payload - cells * SIZE_STEP;
        let new_wastage = (possibly_better - size_class) * cells;
        let better = if new_wastage > original_wastage {
            size_class
        } else {
            possibly_better
        };
        assert(better == better_size_class(approx[j as int] as int, pl));
        if better == last {
            proof {
                assert forall|x: usize| result@.contains(x) <==> (
                    (x == 16 || x == 32 || x == 48 || x == 64)
                    || (exists|i: int| 0 <= i < j + 1 && x == better_size_class(#[trigger] approx[i] as int, pl))) by {
                    if x == better {
                        assert(result@.contains(last));
                    }
                    if exists|i: int| 0 <= i < j + 1 && x == better_size_class(#[trigger] approx[i] as int, pl) {
                        let i = choose|i: int| 0 <= i < j + 1 && x == better_size_class(#[trigger] approx[i] as int, pl);
                        if i < j {
                            assert(exists|i2: int| 0 <= i2 < j && x == better_size_class(#[trigger] approx[i2] as int, pl));
                        }
                    }
                }
            }
            j += 1;
            continue;
        }
        if better > cutoff {
            break;
        }
        let ghost before = result@;
        insert_sorted_unique(&mut result, round_up(better, SIZE_STEP));
        proof {
            assert forall|x: usize| result@.contains(x) <==> (
                (x == 16 || x == 32 || x == 48 || x == 64)
                || (exists|i: int| 0 <= i < j + 1 && x == better_size_class(#[trigger] approx[i] as int, pl))) by {
                if exists|i: int| 0 <= i < j + 1 && x == better_size_class(#[trigger] approx[i] as int, pl) {
                    let i = choose|i: int| 0 <= i < j + 1 && x == better_size_class(#[trigger] approx[i] as int, pl);
                    if i < j {
                        assert(exists|i2: int| 0 <= i2 < j && x == better_size_class(#[trigger] approx[i2] as int, pl));
                    }
                }
                if x == better {
                    assert(x == better_size_class(approx[j as int] as int, pl));
                }
            }
        }
        last = better;
        j += 1;
    }
    let ghost before = result@;
    insert_sorted_unique(&mut result, EXTRA_SIZE_CLASS);
    proof {
        assert forall|x: usize| result@.contains(x) <==> size_class_set(approx, pl).contains(x as int) by {
            if exists|i: int| 0 <= i < j && x == better_size_class(#[trigger] approx[i] as int, pl) {
                let i = choose|i: int| 0 <= i < j && x == better_size_class(#[trigger] approx[i] as int, pl);
                assert(size_class_set(approx, pl).contains(x as int));
            }
            if size_class_set(approx, pl).contains(x as int) {
                if exists|i: int| 0 <= i < progression_stop(approx, pl, 0) && x == better_size_class(#[trigger] approx[i] as int, pl) {
                    let i = choose|i: int| 0 <= i < progression_stop(approx, pl, 0) && x == better_size_class(#[trigger] approx[i] as int, pl);
                    assert(before.contains(x));
                }
            }
        }
    }
    result
}


/// The class the global heap chooses for an approximate size: its
/// rounded-up step, or the largest step-multiple cell that keeps the same
/// number of cells per block, whichever wastes less, the wastage of the
/// first counted as the payload left over by its cells.
pub open spec fn better_size_class_by_cells(approximate: int, payload: int) -> int {
    let size_class = round_up_step(approximate);
    let cells = cells_per_block(payload, size_class);
    let possibly_better = round_down_step(payload / cells);
    let original_wastage = payload - cells * size_class;
    let new_wastage = (possibly_better - size_class) * cells;
    if new_wastage > original_wastage { size_class } else { possibly_better }
}

/// The position, from `j` on, where the global heap's progression stops:
/// the first size that reaches the large cutoff, or the first chosen class
/// past it.
pub open spec fn generation_stop(approx: Seq<usize>, payload: int, j: int) -> int
    decreases approx.len() - j,
{
    if j >= approx.len() {
        approx.len() as int
    } else if approx[j] >= large_cutoff(payload) || better_size_class_by_cells(approx[j] as int, payload) > large_cutoff(payload) {
        j
    } else {
        generation_stop(approx, payload, j + 1)
    }
}

/// The progression does not stop before position `j`.
proof fn lemma_generation_stop_from(approx: Seq<usize>, payload: int, j: int)
    requires
        0 <= j <= approx.len(),
    ensures
        generation_stop(approx, payload, j) >= j,
    decreases approx.len() - j,
{
    if j < approx.len() {
        lemma_generation_stop_from(approx, payload, j + 1);
    }
}

/// The global heap's size classes for a progression of approximate sizes.
pub open spec fn generated_size_class_set(approx: Seq<usize>, payload: int) -> Set<int> {
    Set::new(|x: int| {
        ||| x == 16 || x == 32 || x == 48 || x == 64
        ||| x == EXTRA_SIZE_CLASS
        ||| (exists|j: int| 0 <= j < generation_stop(approx, payload, 0) && x == better_size_class_by_cells(#[trigger] approx[j] as int, payload))
    })
}

/// The size classes of the global heap for the approximate sizes of a class
/// progression and a block payload of `payload` bytes, in increasing order
/// without repeats: every size step below the precise cutoff; for each
/// approximate size until the progression reaches the large cutoff, the
/// class that wastes less of a block, wastage counted in whole cells; and
/// the extra class.
#[verifier::spinoff_prover]
#[verifier::rlimit(60)]
pub fn generate_size_classes(approximate_sizes: &[usize], payload: usize) -> (r: Vec<usize>)
    requires
        forall|j: int| 0 <= j < approximate_sizes@.len() && j <= generation_stop(approximate_sizes@, payload as int, 0)
            ==> approximate_sizes@[j] >= PRECISE_CUTOFF,
        payload >= 2 * EXTRA_SIZE_CLASS,
    ensures
        strictly_increasing(r@),
        forall|x: usize| r@.contains(x) <==> generated_size_class_set(approximate_sizes@, payload as int).contains(x as int),
{
    let ghost approx = approximate_sizes@;
    let ghost pl = payload as int;
    proof {
        lemma_step_is_power_of_two();
    }
    let cutoff = align_down(payload / 2, SIZE_STEP);
    let mut result: Vec<usize> = Vec::new();
    let mut size: usize = SIZE_STEP;
    while size < PRECISE_CUTOFF
        invariant
            size % SIZE_STEP == 0,
            SIZE_STEP <= size <= PRECISE_CUTOFF,
            strictly_increasing(result@),
            forall|x: usize| result@.contains(x) <==> (x % SIZE_STEP == 0 && SIZE_STEP <= x < size),
        decreases PRECISE_CUTOFF - size,
    {
        let ghost before = result@;
        insert_sorted_unique(&mut result, size);
        size += SIZE_STEP;
    }
    let mut last: usize = 64;
    let mut j: usize = 0;
    while j < approximate_sizes.len()
        invariant_except_break
            j <= approx.len(),
            generation_stop(approx, pl, 0) == generation_stop(approx, pl, j as int),
        invariant
            approx == approximate_sizes@,
            pl == payload,
            payload >= 2 * EXTRA_SIZE_CLASS,
            crate::align::is_power_of_two(SIZE_STEP),
            cutoff == large_cutoff(pl),
            forall|i: int| 0 <= i < approx.len() && i <= generation_stop(approx, pl, 0) ==> approx[i] >= PRECISE_CUTOFF,
            strictly_increasing(result@),
            result@.contains(last),
            last <= cutoff,
            forall|x: usize| result@.contains(x) <==> (
                (x == 16 || x == 32 || x == 48 || x == 64)
                || (exists|i: int| 0 <= i < j && x == better_size_class_by_cells(#[trigger] approx[i] as int, pl))),
        ensures
            j <= approx.len(),
            j == generation_stop(approx, pl, 0),
        decreases approx.len() - j,
    {
        let a = approximate_sizes[j];
        if a >= cutoff {
            break;
        }
        proof {
            lemma_generation_stop_from(approx, pl, j as int);
            lemma_better_size_class(a as int, pl);
        }
        let size_class = round_up(a, SIZE_STEP);
        let cells = payload / size_class;
        let possibly_better = align_down(payload / cells, SIZE_STEP);
        let original_wastage = payload - cells * size_class;
        let new_wastage = (possibly_better - size_class) * cells;
        let better = if new_wastage > original_wastage {
            size_class
        } else {
            possibly_better
        };
        assert(better == better_size_class_by_cells(approx[j as int] as int, pl));
        if better == last {
            proof {
                assert forall|x: usize| result@.contains(x) <==> (
                    (x == 16 || x == 32 || x == 48 || x == 64)
                    || (exists|i: int| 0 <= i < j + 1 && x == better_size_class_by_cells(#[trigger] approx[i] as int, pl))) by {
                    if x == better {
                        assert(result@.contains(last));
                    }
                    if exists|i: int| 0 <= i < j + 1 && x == better_size_class_by_cells(#[trigger] approx[i] as int, pl) {
                        let i = choose|i: int| 0 <= i < j + 1 && x == better_size_class_by_cells(#[trigger] approx[i] as int, pl);
                        if i < j {
                            assert(exists|i2: int| 0 <= i2 < j && x == better_size_class_by_cells(#[trigger] approx[i2] as int, pl));
                        }
                    }
                }
            }
            j += 1;
            continue;
        }
        if better > cutoff {
            break;
        }
        let ghost before = result@;
        insert_sorted_unique(&mut result, round_up(better, SIZE_STEP));
        proof {
            assert forall|x: usize| result@.contains(x) <==> (
                (x == 16 || x == 32 || x == 48 || x == 64)
                || (exists|i: int| 0 <= i < j + 1 && x == better_size_class_by_cells(#[trigger] approx[i] as int, pl))) by {
                if exists|i: int| 0 <= i < j + 1 && x == better_size_class_by_cells(#[trigger] approx[i] as int, pl) {
                    let i = choose|i: int| 0 <= i < j + 1 && x == better_size_class_by_cells(#[trigger] approx[i] as int, pl);
                    if i < j {
                        assert(exists|i2: int| 0 <= i2 < j && x == better_size_class_by_cells(#[trigger] approx[i2] as int, pl));
                    }
                }
                if x == better {
                    assert(x == better_size_class_by_cells(approx[j as int] as int, pl));
                }
            }
        }
        last = better;
        j += 1;
    }
    let ghost before = result@;
    insert_sorted_unique(&mut result, EXTRA_SIZE_CLASS);
    proof {
        assert forall|x: usize| result@.contains(x) <==> generated_size_class_set(approx, pl).contains(x as int) by {
            if exists|i: int| 0 <= i < j && x == better_size_class_by_cells(#[trigger] approx[i] as int, pl) {
                let i = choose|i: int| 0 <= i < j && x == better_size_class_by_cells(#[trigger] approx[i] as int, pl);
                assert(generated_size_class_set(approx, pl).contains(x as int));
            }
            if generated_size_class_set(approx, pl).contains(x as int) {
                if exists|i: int| 0 <= i < generation_stop(approx, pl, 0) && x == better_size_class_by_cells(#[trigger] approx[i] as int, pl) {
                    let i = choose|i: int| 0 <= i < generation_stop(approx, pl, 0) && x == better_size_class_by_cells(#[trigger] approx[i] as int, pl);
                    assert(before.contains(x));
                }
            }
        }
    }
    result
}


/// The size step of a class.
pub open spec fn step_index(size: int) -> int {
    (size + SIZE_STEP - 1) / (SIZE_STEP as int)
}

/// The cell size that the table gives size step `i`: class `i` itself when
/// its size step reaches step `i`, nothing (`0`) when it does not, and the
/// step's own size past the last class. Class `k` is written over steps
/// `k ..= step_index(class k)`, and later classes overwrite earlier ones.
pub open spec fn table_entry(classes: Seq<usize>, i: int) -> int {
    if i >= classes.len() {
        i * SIZE_STEP
    } else if step_index(classes[i] as int) >= i {
        classes[i] as int
    } else {
        0
    }
}

/// The table entry for step `i` once the first `k` classes are written.
spec fn partial_entry(classes: Seq<usize>, k: int, i: int) -> int {
    if i < k {
        if step_index(classes[i] as int) >= i { classes[i] as int } else { 0 }
    } else if k > 0 && step_index(classes[k - 1] as int) >= i {
        classes[k - 1] as int
    } else {
        0
    }
}

proof fn lemma_step_index_monotone(a: int, b: int)
    requires
        0 <= a <= b,
    ensures
        step_index(a) <= step_index(b),
{
    vstd::arithmetic::div_mod::lemma_div_is_ordered(a + SIZE_STEP - 1, b + SIZE_STEP - 1, SIZE_STEP as int);
}

/// The table from size steps `0 .. num_size_classes` to cell sizes: each
/// class `k`, in order, is written over the steps from `k` to its own size
/// step, then the steps from the number of classes on get their own size.
pub fn build_size_class_table(classes: &[usize], num_size_classes: usize) -> (table: Vec<usize>)
    requires
        strictly_increasing(classes@),
        forall|j: int| 0 <= j < classes@.len() ==> step_index(#[trigger] classes@[j] as int) < num_size_classes,
        forall|j: int| 0 <= j < classes@.len() ==> #[trigger] classes@[j] + SIZE_STEP <= usize::MAX,
        num_size_classes * SIZE_STEP <= usize::MAX,
    ensures
        table@.len() == num_size_classes,
        forall|i: int| 0 <= i < num_size_classes ==> #[trigger] table@[i] == table_entry(classes@, i),
{
    let mut table: Vec<usize> = Vec::new();
    while table.len() < num_size_classes
        invariant
            table@.len() <= num_size_classes,
            forall|i: int| 0 <= i < table@.len() ==> #[trigger] table@[i] == 0,
        decreases num_size_classes - table@.len(),
    {
        table.push(0);
    }
    let mut next_index: usize = 0;
    let mut k: usize = 0;
    while k < classes.len()
        invariant
            k <= classes@.len(),
            next_index == k,
            strictly_increasing(classes@),
            forall|j: int| 0 <= j < classes@.len() ==> step_index(#[trigger] classes@[j] as int) < num_size_classes,
            forall|j: int| 0 <= j < classes@.len() ==> #[trigger] classes@[j] + SIZE_STEP <= usize::MAX,
            table@.len() == num_size_classes,
            forall|i: int| 0 <= i < num_size_classes ==> #[trigger] table@[i] == partial_entry(classes@, k as int, i),
        decreases classes@.len() - k,
    {
        let size_class = classes[k];
        let index = size_class_to_index(size_class);
        let ghost before = table@;
        proof {
            assert forall|m: int| 0 <= m < k implies step_index(#[trigger] classes@[m] as int) <= index by {
                lemma_step_index_monotone(classes@[m] as int, size_class as int);
            }
        }
        let mut i = next_index;
        while i <= index
            invariant
                k < classes@.len(),
                next_index == k,
                size_class == classes@[k as int],
                index == step_index(size_class as int),
                index < num_size_classes,
                next_index <= i,
                i <= index + 1 || i == next_index,
                before.len() == num_size_classes,
                table@.len() == num_size_classes,
                forall|i2: int| 0 <= i2 < num_size_classes ==> #[trigger] table@[i2] == (
                    if next_index <= i2 < i { size_class as int } else { before[i2] as int }),
            decreases index + 1 - i,
        {
            table.set(i, size_class);
            i += 1;
        }
        proof {
            assert forall|i2: int| 0 <= i2 < num_size_classes implies #[trigger] table@[i2] == partial_entry(classes@, k + 1, i2) by {
                assert(before[i2] == partial_entry(classes@, k as int, i2));
                if i2 < k {
                } else if i2 == k {
                    if k > 0 {
                        lemma_step_index_monotone(classes@[k - 1] as int, size_class as int);
                    }
                } else {
                    if k > 0 {
                        lemma_step_index_monotone(classes@[k - 1] as int, size_class as int);
                    }
                }
            }
        }
        next_index += 1;
        k += 1;
    }
    let mut i = next_index;
    while i < num_size_classes
        invariant
            k == classes@.len(),
            next_index == k,
            next_index <= i,
            i <= num_size_classes || i == next_index,
            num_size_classes * SIZE_STEP <= usize::MAX,
            table@.len() == num_size_classes,
            forall|i2: int| 0 <= i2 < num_size_classes ==> #[trigger] table@[i2] == (
                if next_index <= i2 < i { i2 * SIZE_STEP } else { partial_entry(classes@, k as int, i2) }),
        decreases num_size_classes - i,
    {
        proof {
            assert(i * SIZE_STEP <= usize::MAX) by (nonlinear_arith)
                requires i < num_size_classes, num_size_classes * SIZE_STEP <= usize::MAX;
        }
        table.set(i, index_to_size_class(i));
        i += 1;
    }
    proof {
        assert forall|i2: int| 0 <= i2 < num_size_classes implies #[trigger] table@[i2] == table_entry(classes@, i2) by {
            if i2 >= classes@.len() {
                assert(i2 < i);
            }
        }
    }
    table
}

} // verus!

verus! {

/// The first class, from position `j` on, whose size step reaches step `i`,
/// or the number of classes when none does.
pub open spec fn first_covering(classes: Seq<usize>, i: int, j: int) -> int
    decreases classes.len() - j,
{
    if j >= classes.len() {
        classes.len() as int
    } else if step_index(classes[j] as int) >= i {
        j
    } else {
        first_covering(classes, i, j + 1)
    }
}

/// The cell size that the global heap's table gives size step `i`: the
/// first class that reaches the step, or the step's own size past the last
/// class.
pub open spec fn step_table_entry(classes: Seq<usize>, i: int) -> int {
    let j = first_covering(classes, i, 0);
    if j < classes.len() { classes[j] as int } else { i * SIZE_STEP }
}

proof fn lemma_first_covering(classes: Seq<usize>, i: int, j: int, k: int)
    requires
        0 <= j <= k <= classes.len(),
        forall|m: int| j <= m < k ==> step_index(#[trigger] classes[m] as int) < i,
        k < classes.len() ==> step_index(classes[k] as int) >= i,
    ensures
        first_covering(classes, i, j) == k,
    decreases k - j,
{
    if j < k {
        lemma_first_covering(classes, i, j + 1, k);
    }
}

/// The global heap's table from size steps `0 .. num_size_classes` to cell
/// sizes: each class, in order, is written over the steps from the one
/// after the previous class's step up to its own, then the remaining steps
/// get their own size.
pub fn build_step_size_table(classes: &[usize], num_size_classes: usize) -> (table: Vec<usize>)
    requires
        strictly_increasing(classes@),
        forall|j: int| 0 <= j < classes@.len() ==> step_index(#[trigger] classes@[j] as int) < num_size_classes,
        forall|j: int| 0 <= j < classes@.len() ==> #[trigger] classes@[j] + SIZE_STEP <= usize::MAX,
        num_size_classes * SIZE_STEP <= usize::MAX,
    ensures
        table@.len() == num_size_classes,
        forall|i: int| 0 <= i < num_size_classes ==> #[trigger] table@[i] == step_table_entry(classes@, i),
{
    let mut table: Vec<usize> = Vec::new();
    let mut next_index: usize = 0;
    let mut k: usize = 0;
    while k < classes.len()
        invariant
            k <= classes@.len(),
            strictly_increasing(classes@),
            forall|j: int| 0 <= j < classes@.len() ==> step_index(#[trigger] classes@[j] as int) < num_size_classes,
            forall|j: int| 0 <= j < classes@.len() ==> #[trigger] classes@[j] + SIZE_STEP <= usize::MAX,
            table@.len() == next_index,
            next_index <= num_size_classes,
            k == 0 ==> next_index == 0,
            k > 0 ==> next_index == step_index(classes@[k - 1] as int) + 1,
            forall|i: int| 0 <= i < next_index ==> #[trigger] table@[i] == step_table_entry(classes@, i),
        decreases classes@.len() - k,
    {
        let size_class = classes[k];
        let index = size_class_to_index(size_class);
        proof {
            if k > 0 {
                lemma_step_index_monotone(classes@[k - 1] as int, size_class as int);
            }
        }
        let mut i = next_index;
        while i <= index
            invariant
                k < classes@.len(),
                size_class == classes@[k as int],
                index == step_index(size_class as int),
                index < num_size_classes,
                next_index <= i <= index + 1,
                strictly_increasing(classes@),
                k == 0 ==> next_index == 0,
                k > 0 ==> next_index == step_index(classes@[k - 1] as int) + 1,
                table@.len() == i,
                forall|i2: int| 0 <= i2 < i ==> #[trigger] table@[i2] == step_table_entry(classes@, i2),
            decreases index + 1 - i,
        {
            proof {
                assert forall|m: int| 0 <= m < k implies step_index(#[trigger] classes@[m] as int) < i by {
                    lemma_step_index_monotone(classes@[m] as int, classes@[k - 1] as int);
                }
                lemma_first_covering(classes@, i as int, 0, k as int);
            }
            table.push(size_class);
            i += 1;
        }
        next_index = index + 1;
        k += 1;
    }
    let mut i = next_index;
    while i < num_size_classes
        invariant
            k == classes@.len(),
            strictly_increasing(classes@),
            next_index <= i <= num_size_classes,
            num_size_classes * SIZE_STEP <= usize::MAX,
            k == 0 ==> next_index == 0,
            k > 0 ==> next_index == step_index(classes@[k - 1] as int) + 1,
            table@.len() == i,
            forall|i2: int| 0 <= i2 < i ==> #[trigger] table@[i2] == step_table_entry(classes@, i2),
        decreases num_size_classes - i,
    {
        proof {
            assert forall|m: int| 0 <= m < k implies step_index(#[trigger] classes@[m] as int) < i by {
                lemma_step_index_monotone(classes@[m] as int, classes@[k - 1] as int);
            }
            lemma_first_covering(classes@, i as int, 0, k as int);
            assert(i * SIZE_STEP <= usize::MAX) by (nonlinear_arith)
                requires i < num_size_classes, num_size_classes * SIZE_STEP <= usize::MAX;
        }
        table.push(index_to_size_class(i));
        i += 1;
    }
    table
}

} // verus!
