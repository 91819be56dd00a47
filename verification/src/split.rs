//! The region splitter: divides a rectangle among an ordered list of
//! constrained children along one axis.
//!
//! Sizes are resolved in one deterministic pass. First every child gets its
//! fixed demand: a `Length` its cells, a `Min` its floor, a `Percentage` its
//! rounded-down share, with the whole rounding surplus of the percentages
//! going to the earliest percentage child. Extent left over is then dealt to
//! the flexible (`Min`/`Max`) children in declaration order, each getting the
//! ceiling of an even share, a `Max` never more than its bound; what capped
//! `Max` children leave behind is dealt to the `Min` children the same way.
//! Finally the sizes are clipped, in order, to the extent that is actually
//! available, so an over-committed region starves later children to zero
//! rather than overflowing.

use vstd::prelude::*;

use crate::constraint::{Constraint, SplitOptions};
use crate::geometry::{inner_rect, spec_inner_rect, Direction, Rect};

verus! {

/// Sum of a sequence of integers.
pub open spec fn seq_sum(s: Seq<int>) -> int
    decreases s.len(),
{
    if s.len() == 0 {
        0
    } else {
        s[0] + seq_sum(s.skip(1))
    }
}

/// Sum of the first `i` elements.
pub open spec fn prefix_sum(s: Seq<int>, i: int) -> int
    decreases i,
{
    if i <= 0 {
        0
    } else {
        prefix_sum(s, i - 1) + s[i - 1]
    }
}

pub proof fn lemma_seq_sum_is_prefix_sum(s: Seq<int>)
    ensures
        seq_sum(s) == prefix_sum(s, s.len() as int),
    decreases s.len(),
{
    if s.len() > 0 {
        let a = s.drop_last();
        lemma_seq_sum_is_prefix_sum(a);
        lemma_seq_sum_push(s);
        lemma_prefix_sum_agrees(a, s, s.len() - 1);
    }
}

proof fn lemma_seq_sum_push(s: Seq<int>)
    ensures
        s.len() > 0 ==> seq_sum(s) == seq_sum(s.drop_last()) + s.last(),
    decreases s.len(),
{
    if s.len() == 1 {
        assert(s.skip(1).len() == 0);
        assert(s.drop_last().len() == 0);
        assert(seq_sum(s) == s[0] + seq_sum(s.skip(1)));
        assert(seq_sum(s.skip(1)) == 0);
        assert(seq_sum(s.drop_last()) == 0);
        assert(s.last() == s[0]);
    } else if s.len() > 1 {
        lemma_seq_sum_push(s.skip(1));
        assert(s.skip(1).drop_last() =~= s.drop_last().skip(1));
        assert(s.skip(1).last() == s.last());
        assert(s.drop_last()[0] == s[0]);
        assert(s.drop_last().len() > 0);
        assert(seq_sum(s.drop_last()) == s[0] + seq_sum(s.drop_last().skip(1)));
        assert(seq_sum(s) == s[0] + seq_sum(s.skip(1)));
        assert(seq_sum(s.skip(1)) == seq_sum(s.skip(1).drop_last()) + s.skip(1).last());
        assert(seq_sum(s.skip(1).drop_last()) == seq_sum(s.drop_last().skip(1)));
    }
}

proof fn lemma_prefix_sum_agrees(a: Seq<int>, b: Seq<int>, i: int)
    requires
        0 <= i <= a.len(),
        i <= b.len(),
        forall|j: int| 0 <= j < i ==> a[j] == b[j],
    ensures
        prefix_sum(a, i) == prefix_sum(b, i),
    decreases i,
{
    if i > 0 {
        lemma_prefix_sum_agrees(a, b, i - 1);
    }
}

pub proof fn lemma_prefix_sum_bounds(s: Seq<int>, i: int)
    requires
        0 <= i <= s.len(),
        forall|j: int| 0 <= j < s.len() ==> s[j] >= 0,
    ensures
        0 <= prefix_sum(s, i),
        forall|j: int| i <= j <= s.len() ==> prefix_sum(s, i) <= prefix_sum(s, j),
    decreases s.len() - i,
{
    if i > 0 {
        lemma_prefix_sum_nonneg(s, i);
    }
    assert forall|j: int| i <= j <= s.len() implies prefix_sum(s, i) <= prefix_sum(s, j) by {
        lemma_prefix_sum_monotone(s, i, j);
    }
}

proof fn lemma_prefix_sum_nonneg(s: Seq<int>, i: int)
    requires
        0 <= i <= s.len(),
        forall|j: int| 0 <= j < s.len() ==> s[j] >= 0,
    ensures
        prefix_sum(s, i) >= 0,
    decreases i,
{
    if i > 0 {
        lemma_prefix_sum_nonneg(s, i - 1);
    }
}

proof fn lemma_prefix_sum_monotone(s: Seq<int>, i: int, j: int)
    requires
        0 <= i <= j <= s.len(),
        forall|k: int| 0 <= k < s.len() ==> s[k] >= 0,
    ensures
        prefix_sum(s, i) <= prefix_sum(s, j),
    decreases j - i,
{
    if i < j {
        lemma_prefix_sum_monotone(s, i, j - 1);
    }
}

/// Division rounding up, 0 when there is nobody to share among.
pub open spec fn ceil_div(r: int, k: int) -> int {
    if k <= 0 {
        0
    } else {
        (r + k - 1) / k
    }
}

proof fn lemma_ceil_div_bounds(r: int, k: int)
    requires
        r >= 0,
        k >= 1,
    ensures
        0 <= ceil_div(r, k) <= r,
        k == 1 ==> ceil_div(r, k) == r,
{
    assert(0 <= (r + k - 1) / k <= r) by (nonlinear_arith)
        requires
            r >= 0,
            k >= 1,
    ;
    if k == 1 {
        assert((r + 1 - 1) / 1 == r);
    }
}

/// Rounding-down division is superadditive: summing first loses no more.
proof fn lemma_div100_superadd(x: int, y: int)
    requires
        x >= 0,
        y >= 0,
    ensures
        (x + y) / 100 >= x / 100 + y / 100,
{
    assert((x + y) / 100 >= x / 100 + y / 100) by (nonlinear_arith)
        requires
            x >= 0,
            y >= 0,
    ;
}

/// The fixed demand of one constraint against extent `e`: its cells for a
/// `Length`, its floor for a `Min`, its rounded-down share for a
/// `Percentage`, nothing for a `Max`.
pub open spec fn base_size(c: Constraint, e: int) -> int {
    match c {
        Constraint::Length(n) => n as int,
        Constraint::Min(n) => n as int,
        Constraint::Max(_) => 0,
        Constraint::Percentage(p) => (p as int * e) / 100,
    }
}

/// Sum of the fixed demands of `cs[i..]`.
pub open spec fn base_total(cs: Seq<Constraint>, i: int, e: int) -> int
    decreases cs.len() - i,
{
    if i < 0 || i >= cs.len() {
        0
    } else {
        base_size(cs[i], e) + base_total(cs, i + 1, e)
    }
}

/// Sum of the percentage figures of `cs[i..]`.
pub open spec fn pct_total(cs: Seq<Constraint>, i: int) -> int
    decreases cs.len() - i,
{
    if i < 0 || i >= cs.len() {
        0
    } else {
        (match cs[i] {
            Constraint::Percentage(p) => p as int,
            _ => 0,
        }) + pct_total(cs, i + 1)
    }
}

/// Sum of the rounded-down percentage shares of `cs[i..]`.
pub open spec fn pct_floor_total(cs: Seq<Constraint>, i: int, e: int) -> int
    decreases cs.len() - i,
{
    if i < 0 || i >= cs.len() {
        0
    } else {
        (match cs[i] {
            Constraint::Percentage(p) => (p as int * e) / 100,
            _ => 0,
        }) + pct_floor_total(cs, i + 1, e)
    }
}

/// Index of the first percentage constraint, or `cs.len()` if there is none.
pub open spec fn first_pct(cs: Seq<Constraint>, i: int) -> int
    decreases cs.len() - i,
{
    if i < 0 || i >= cs.len() {
        cs.len() as int
    } else if cs[i] is Percentage {
        i
    } else {
        first_pct(cs, i + 1)
    }
}

/// What the percentage children lose to rounding down as a group: dealt to
/// the earliest of them. Percentages past a full region get no surplus.
pub open spec fn pct_deficit(cs: Seq<Constraint>, e: int) -> int {
    if pct_total(cs, 0) <= 100 {
        (pct_total(cs, 0) * e) / 100 - pct_floor_total(cs, 0, e)
    } else {
        0
    }
}

/// The fixed demand of `cs[j]` once the percentage rounding surplus has been
/// dealt to the earliest percentage child.
pub open spec fn padded_base(cs: Seq<Constraint>, e: int, j: int) -> int {
    base_size(cs[j], e) + if j == first_pct(cs, 0) {
        pct_deficit(cs, e)
    } else {
        0
    }
}

/// Sum of all fixed demands, surplus included.
pub open spec fn fixed_total(cs: Seq<Constraint>, e: int) -> int {
    base_total(cs, 0, e) + pct_deficit(cs, e)
}

/// Is this constraint dealt a share of the leftover extent in the given pass?
/// The second pass deals only to `Min` children, who can absorb anything.
pub open spec fn is_eligible(c: Constraint, min_only: bool) -> bool {
    c is Min || (!min_only && c is Max)
}

/// How many of `cs[i..]` are eligible in the given pass.
pub open spec fn count_eligible(cs: Seq<Constraint>, i: int, min_only: bool) -> int
    decreases cs.len() - i,
{
    if i < 0 || i >= cs.len() {
        0
    } else {
        (if is_eligible(cs[i], min_only) {
            1int
        } else {
            0int
        }) + count_eligible(cs, i + 1, min_only)
    }
}

proof fn lemma_count_eligible_nonneg(cs: Seq<Constraint>, i: int, min_only: bool)
    ensures
        count_eligible(cs, i, min_only) >= 0,
    decreases cs.len() - i,
{
    if 0 <= i < cs.len() {
        lemma_count_eligible_nonneg(cs, i + 1, min_only);
    }
}

/// The share dealt to `cs[i]` when `r` is left and `k` eligible children
/// remain: the ceiling of an even share, bounded by a `Max` child's cap.
pub open spec fn grant_at(c: Constraint, min_only: bool, r: int, k: int) -> int {
    if is_eligible(c, min_only) {
        let share = ceil_div(r, k);
        match c {
            Constraint::Max(n) => if n as int <= share {
                n as int
            } else {
                share
            },
            _ => share,
        }
    } else {
        0
    }
}

/// The shares dealt to `cs[i..]`, processed in declaration order, starting
/// with `r` cells to deal among `k` eligible children.
pub open spec fn grants(cs: Seq<Constraint>, i: int, min_only: bool, r: int, k: int) -> Seq<int>
    decreases cs.len() - i,
{
    if i < 0 || i >= cs.len() {
        Seq::empty()
    } else {
        let g = grant_at(cs[i], min_only, r, k);
        let k2 = if is_eligible(cs[i], min_only) {
            k - 1
        } else {
            k
        };
        seq![g] + grants(cs, i + 1, min_only, r - g, k2)
    }
}

proof fn lemma_grants_len(cs: Seq<Constraint>, i: int, min_only: bool, r: int, k: int)
    requires
        0 <= i <= cs.len(),
    ensures
        grants(cs, i, min_only, r, k).len() == cs.len() - i,
    decreases cs.len() - i,
{
    if i < cs.len() {
        let g = grant_at(cs[i], min_only, r, k);
        let k2 = if is_eligible(cs[i], min_only) {
            k - 1
        } else {
            k
        };
        lemma_grants_len(cs, i + 1, min_only, r - g, k2);
    }
}

/// Shares are nonnegative and never overspend the leftover.
proof fn lemma_grants_bounds(cs: Seq<Constraint>, i: int, min_only: bool, r: int, k: int)
    requires
        0 <= i <= cs.len(),
        r >= 0,
        k == count_eligible(cs, i, min_only),
    ensures
        forall|j: int|
            0 <= j < grants(cs, i, min_only, r, k).len() ==> grants(cs, i, min_only, r, k)[j] >= 0,
        0 <= seq_sum(grants(cs, i, min_only, r, k)) <= r,
    decreases cs.len() - i,
{
    lemma_grants_len(cs, i, min_only, r, k);
    if i < cs.len() {
        let g = grant_at(cs[i], min_only, r, k);
        let k2 = if is_eligible(cs[i], min_only) {
            k - 1
        } else {
            k
        };
        if is_eligible(cs[i], min_only) {
            lemma_count_eligible_nonneg(cs, i + 1, min_only);
            lemma_ceil_div_bounds(r, k);
        }
        assert(0 <= g <= r);
        lemma_grants_bounds(cs, i + 1, min_only, r - g, k2);
        let rest = grants(cs, i + 1, min_only, r - g, k2);
        assert(grants(cs, i, min_only, r, k) == seq![g] + rest);
        assert((seq![g] + rest).skip(1) =~= rest);
        assert(seq_sum(seq![g] + rest) == g + seq_sum(rest));
        assert forall|j: int| 0 <= j < grants(cs, i, min_only, r, k).len() implies grants(
            cs,
            i,
            min_only,
            r,
            k,
        )[j] >= 0 by {
            if j > 0 {
                assert(grants(cs, i, min_only, r, k)[j] == rest[j - 1]);
            }
        }
    }
}

/// With only `Min` children eligible, everything is dealt out, provided
/// somebody is there to take it.
proof fn lemma_grants_exact(cs: Seq<Constraint>, i: int, r: int, k: int)
    requires
        0 <= i <= cs.len(),
        r >= 0,
        k == count_eligible(cs, i, true),
        k >= 1 || r == 0,
    ensures
        seq_sum(grants(cs, i, true, r, k)) == r,
    decreases cs.len() - i,
{
    lemma_grants_bounds(cs, i, true, r, k);
    if i < cs.len() {
        let g = grant_at(cs[i], true, r, k);
        let k2 = if is_eligible(cs[i], true) {
            k - 1
        } else {
            k
        };
        if is_eligible(cs[i], true) {
            lemma_count_eligible_nonneg(cs, i + 1, true);
            lemma_ceil_div_bounds(r, k);
            assert(g == ceil_div(r, k));
            if k == 1 {
                assert(g == r);
                assert(k2 == 0);
            }
        }
        lemma_grants_exact(cs, i + 1, r - g, k2);
        let rest = grants(cs, i + 1, true, r - g, k2);
        assert(grants(cs, i, true, r, k) == seq![g] + rest);
        assert((seq![g] + rest).skip(1) =~= rest);
        assert(seq_sum(seq![g] + rest) == g + seq_sum(rest));
    }
}

proof fn lemma_pct_total_nonneg(cs: Seq<Constraint>, i: int)
    ensures
        pct_total(cs, i) >= 0,
    decreases cs.len() - i,
{
    if 0 <= i < cs.len() {
        lemma_pct_total_nonneg(cs, i + 1);
    }
}

proof fn lemma_base_size_nonneg(c: Constraint, e: int)
    requires
        e >= 0,
    ensures
        base_size(c, e) >= 0,
{
    if let Constraint::Percentage(p) = c {
        assert(p as int * e >= 0) by (nonlinear_arith)
            requires
                e >= 0,
                p as int >= 0,
        ;
        assert((p as int * e) / 100 >= 0) by (nonlinear_arith)
            requires
                p as int * e >= 0,
        ;
    }
}

/// The floors of the percentage shares never exceed the share of the summed
/// percentages, so the rounding surplus is never negative.
proof fn lemma_pct_floor_le(cs: Seq<Constraint>, i: int, e: int)
    requires
        e >= 0,
    ensures
        0 <= pct_floor_total(cs, i, e) <= (pct_total(cs, i) * e) / 100,
    decreases cs.len() - i,
{
    lemma_pct_total_nonneg(cs, i);
    if i < 0 || i >= cs.len() {
    } else {
        lemma_pct_floor_le(cs, i + 1, e);
        lemma_pct_total_nonneg(cs, i + 1);
        let p: int = match cs[i] {
            Constraint::Percentage(p) => p as int,
            _ => 0,
        };
        let q = pct_total(cs, i + 1);
        assert(p * e >= 0 && q * e >= 0 && (p + q) * e == p * e + q * e) by (nonlinear_arith)
            requires
                p >= 0,
                q >= 0,
                e >= 0,
        ;
        lemma_div100_superadd(p * e, q * e);
        if !(cs[i] is Percentage) {
            assert(p == 0 && p * e == 0);
        }
        assert((p * e) / 100 >= 0) by (nonlinear_arith)
            requires
                p * e >= 0,
        ;
    }
}

pub proof fn lemma_pct_deficit_nonneg(cs: Seq<Constraint>, e: int)
    requires
        e >= 0,
    ensures
        pct_deficit(cs, e) >= 0,
{
    lemma_pct_floor_le(cs, 0, e);
}

proof fn lemma_padded_base_nonneg(cs: Seq<Constraint>, e: int, j: int)
    requires
        e >= 0,
        0 <= j < cs.len(),
    ensures
        padded_base(cs, e, j) >= 0,
{
    lemma_base_size_nonneg(cs[j], e);
    lemma_pct_deficit_nonneg(cs, e);
}

proof fn lemma_seq_sum_nonneg(s: Seq<int>)
    requires
        forall|j: int| 0 <= j < s.len() ==> s[j] >= 0,
    ensures
        seq_sum(s) >= 0,
{
    lemma_seq_sum_is_prefix_sum(s);
    lemma_prefix_sum_bounds(s, s.len() as int);
}

/// Sizes cut down, in order, to what is actually available: each child takes
/// what it can of the remaining budget, later children get what is left.
pub open spec fn clip_sizes(s: Seq<int>, budget: int) -> Seq<int>
    decreases s.len(),
{
    if s.len() == 0 {
        Seq::empty()
    } else {
        let b = if budget < 0 {
            0
        } else {
            budget
        };
        let t = if s[0] < 0 {
            0
        } else if s[0] <= b {
            s[0]
        } else {
            b
        };
        seq![t] + clip_sizes(s.skip(1), b - t)
    }
}

proof fn lemma_clip_sizes_props(s: Seq<int>, budget: int)
    requires
        budget >= 0,
        forall|j: int| 0 <= j < s.len() ==> s[j] >= 0,
    ensures
        clip_sizes(s, budget).len() == s.len(),
        forall|j: int| 0 <= j < s.len() ==> 0 <= #[trigger] clip_sizes(s, budget)[j] <= s[j],
        seq_sum(clip_sizes(s, budget)) == if seq_sum(s) <= budget {
            seq_sum(s)
        } else {
            budget
        },
    decreases s.len(),
{
    if s.len() > 0 {
        let t = if s[0] <= budget {
            s[0]
        } else {
            budget
        };
        let rest = clip_sizes(s.skip(1), budget - t);
        lemma_clip_sizes_props(s.skip(1), budget - t);
        lemma_seq_sum_nonneg(s.skip(1));
        assert(clip_sizes(s, budget) == seq![t] + rest);
        assert((seq![t] + rest).skip(1) =~= rest);
        assert(seq_sum(seq![t] + rest) == t + seq_sum(rest));
        assert(seq_sum(s) == s[0] + seq_sum(s.skip(1)));
        assert forall|j: int| 0 <= j < s.len() implies 0 <= #[trigger] clip_sizes(s, budget)[j]
            <= s[j] by {
            if j > 0 {
                assert(clip_sizes(s, budget)[j] == rest[j - 1]);
                assert(s.skip(1)[j - 1] == s[j]);
            }
        }
    }
}

/// The extent left once every fixed demand is met; nothing when the fixed
/// demands already overflow.
pub open spec fn flex_remainder(cs: Seq<Constraint>, e: int) -> int {
    if fixed_total(cs, e) <= e {
        e - fixed_total(cs, e)
    } else {
        0
    }
}

/// First leftover pass: every flexible child, `Max` children capped.
pub open spec fn pass_a(cs: Seq<Constraint>, e: int) -> Seq<int> {
    grants(cs, 0, false, flex_remainder(cs, e), count_eligible(cs, 0, false))
}

/// Second leftover pass: what capped `Max` children refused goes to the
/// `Min` children.
pub open spec fn pass_b(cs: Seq<Constraint>, e: int) -> Seq<int> {
    grants(
        cs,
        0,
        true,
        flex_remainder(cs, e) - seq_sum(pass_a(cs, e)),
        count_eligible(cs, 0, true),
    )
}

/// The ideal sizes before clipping: fixed demand plus dealt-out shares.
pub open spec fn prelim_sizes(cs: Seq<Constraint>, e: int) -> Seq<int> {
    Seq::new(cs.len(), |j: int| padded_base(cs, e, j) + pass_a(cs, e)[j] + pass_b(cs, e)[j])
}

/// The resolved size of every child: ideal sizes clipped, in order, to the
/// available extent.
pub open spec fn resolved_sizes(cs: Seq<Constraint>, e: int) -> Seq<int> {
    clip_sizes(prelim_sizes(cs, e), e)
}

proof fn lemma_prelim_sizes_nonneg(cs: Seq<Constraint>, e: int)
    requires
        e >= 0,
    ensures
        prelim_sizes(cs, e).len() == cs.len(),
        forall|j: int| 0 <= j < cs.len() ==> #[trigger] prelim_sizes(cs, e)[j] >= 0,
{
    let r0 = flex_remainder(cs, e);
    lemma_grants_bounds(cs, 0, false, r0, count_eligible(cs, 0, false));
    lemma_grants_len(cs, 0, false, r0, count_eligible(cs, 0, false));
    let r1 = r0 - seq_sum(pass_a(cs, e));
    lemma_grants_bounds(cs, 0, true, r1, count_eligible(cs, 0, true));
    lemma_grants_len(cs, 0, true, r1, count_eligible(cs, 0, true));
    assert forall|j: int| 0 <= j < cs.len() implies #[trigger] prelim_sizes(cs, e)[j] >= 0 by {
        lemma_padded_base_nonneg(cs, e, j);
    }
}

/// Every resolved size is a nonnegative extent, and no child starts or ends
/// past the available extent.
pub proof fn lemma_resolved_sizes_props(cs: Seq<Constraint>, e: int)
    requires
        e >= 0,
    ensures
        resolved_sizes(cs, e).len() == cs.len(),
        forall|j: int| 0 <= j < cs.len() ==> 0 <= #[trigger] resolved_sizes(cs, e)[j],
        forall|j: int|
            0 <= j <= cs.len() ==> 0 <= #[trigger] prefix_sum(resolved_sizes(cs, e), j) <= e,
        seq_sum(resolved_sizes(cs, e)) <= e,
{
    lemma_prelim_sizes_nonneg(cs, e);
    lemma_clip_sizes_props(prelim_sizes(cs, e), e);
    let out = resolved_sizes(cs, e);
    lemma_seq_sum_is_prefix_sum(out);
    lemma_prefix_sum_bounds(out, 0);
    assert forall|j: int| 0 <= j <= cs.len() implies 0 <= #[trigger] prefix_sum(out, j) <= e by {
        lemma_prefix_sum_bounds(out, j);
        assert(prefix_sum(out, j) <= prefix_sum(out, out.len() as int));
    }
}

proof fn lemma_sum_split3(x: Seq<int>, y: Seq<int>, z: Seq<int>)
    requires
        x.len() == y.len(),
        x.len() == z.len(),
    ensures
        seq_sum(Seq::new(x.len(), |j: int| x[j] + y[j] + z[j])) == seq_sum(x) + seq_sum(y)
            + seq_sum(z),
    decreases x.len(),
{
    let s = Seq::new(x.len(), |j: int| x[j] + y[j] + z[j]);
    if x.len() > 0 {
        lemma_sum_split3(x.skip(1), y.skip(1), z.skip(1));
        assert(s.skip(1) =~= Seq::new(x.skip(1).len(), |j: int| x.skip(1)[j] + y.skip(1)[j] + z.skip(1)[j]));
        assert(seq_sum(s) == s[0] + seq_sum(s.skip(1)));
        assert(seq_sum(x) == x[0] + seq_sum(x.skip(1)));
        assert(seq_sum(y) == y[0] + seq_sum(y.skip(1)));
        assert(seq_sum(z) == z[0] + seq_sum(z.skip(1)));
    }
}

proof fn lemma_bases_sum(cs: Seq<Constraint>, e: int, i: int)
    requires
        0 <= i <= cs.len(),
    ensures
        seq_sum(Seq::new((cs.len() - i) as nat, |j: int| base_size(cs[i + j], e))) == base_total(
            cs,
            i,
            e,
        ),
    decreases cs.len() - i,
{
    let s = Seq::new((cs.len() - i) as nat, |j: int| base_size(cs[i + j], e));
    if i < cs.len() {
        lemma_bases_sum(cs, e, i + 1);
        let s2 = Seq::new((cs.len() - i - 1) as nat, |j: int| base_size(cs[i + 1 + j], e));
        assert(s.skip(1) =~= s2);
        assert(seq_sum(s) == s[0] + seq_sum(s.skip(1)));
    }
}

proof fn lemma_sum_single(n: nat, idx: int, v: int)
    ensures
        seq_sum(Seq::new(n, |j: int| if j == idx { v } else { 0 })) == if 0 <= idx < n {
            v
        } else {
            0
        },
    decreases n,
{
    let s = Seq::new(n, |j: int| if j == idx { v } else { 0 });
    if n > 0 {
        lemma_sum_single((n - 1) as nat, idx - 1, v);
        let s2 = Seq::new((n - 1) as nat, |j: int| if j == idx - 1 { v } else { 0 });
        assert(s.skip(1) =~= s2);
        assert(seq_sum(s) == s[0] + seq_sum(s.skip(1)));
    }
}

proof fn lemma_no_pct_no_deficit(cs: Seq<Constraint>, i: int, e: int)
    requires
        first_pct(cs, i) == cs.len(),
        0 <= i,
    ensures
        pct_total(cs, i) == 0,
        pct_floor_total(cs, i, e) == 0,
    decreases cs.len() - i,
{
    if i < cs.len() {
        lemma_no_pct_no_deficit(cs, i + 1, e);
    }
}

/// The fixed demands, with the percentage surplus dealt to the earliest
/// percentage child, sum to `fixed_total`.
proof fn lemma_padded_sum(cs: Seq<Constraint>, e: int)
    ensures
        seq_sum(Seq::new(cs.len(), |j: int| padded_base(cs, e, j))) == fixed_total(cs, e),
{
    let n = cs.len();
    let bases = Seq::new(n, |j: int| base_size(cs[j], e));
    let fp = first_pct(cs, 0);
    let d = pct_deficit(cs, e);
    let surplus = Seq::new(n, |j: int| if j == fp { d } else { 0 });
    let zero = Seq::new(n, |j: int| 0int);
    let padded = Seq::new(n, |j: int| padded_base(cs, e, j));
    assert(padded =~= Seq::new(n, |j: int| bases[j] + surplus[j] + zero[j]));
    lemma_sum_split3(bases, surplus, zero);
    lemma_bases_sum(cs, e, 0);
    assert(Seq::new(n, |j: int| base_size(cs[0 + j], e)) =~= bases);
    lemma_sum_single(n, fp, d);
    lemma_sum_zero(n);
    lemma_first_pct_range(cs, 0);
    if fp == cs.len() {
        lemma_no_pct_no_deficit(cs, 0, e);
        assert((0int * e) == 0) by (nonlinear_arith);
        assert(d == 0);
    }
}

proof fn lemma_sum_zero(n: nat)
    ensures
        seq_sum(Seq::new(n, |j: int| 0int)) == 0,
    decreases n,
{
    let s = Seq::new(n, |j: int| 0int);
    if n > 0 {
        lemma_sum_zero((n - 1) as nat);
        assert(s.skip(1) =~= Seq::new((n - 1) as nat, |j: int| 0int));
        assert(seq_sum(s) == s[0] + seq_sum(s.skip(1)));
    }
}

proof fn lemma_first_pct_range(cs: Seq<Constraint>, i: int)
    requires
        0 <= i <= cs.len(),
    ensures
        i <= first_pct(cs, i) <= cs.len(),
        first_pct(cs, i) < cs.len() ==> cs[first_pct(cs, i)] is Percentage,
    decreases cs.len() - i,
{
    if i < cs.len() && !(cs[i] is Percentage) {
        lemma_first_pct_range(cs, i + 1);
    }
}

/// Room for every fixed demand, and a `Min` child to soak up any leftover
/// (or no leftover at all): the situations in which the split is a perfect
/// partition of the region.
pub open spec fn within_capacity(cs: Seq<Constraint>, e: int) -> bool {
    fixed_total(cs, e) <= e && (fixed_total(cs, e) == e || exists|i: int|
        0 <= i < cs.len() && cs[i] is Min)
}

proof fn lemma_count_eligible_pos(cs: Seq<Constraint>, i: int, min_only: bool, w: int)
    requires
        0 <= i <= w < cs.len(),
        is_eligible(cs[w], min_only),
    ensures
        count_eligible(cs, i, min_only) >= 1,
    decreases cs.len() - i,
{
    lemma_count_eligible_nonneg(cs, i + 1, min_only);
    if i < w {
        lemma_count_eligible_pos(cs, i + 1, min_only, w);
    }
}

/// Within capacity, the resolved sizes sum to exactly the available extent:
/// the children tile it with no gap and no overlap.
pub proof fn lemma_resolved_sizes_fill(cs: Seq<Constraint>, e: int)
    requires
        e >= 0,
        within_capacity(cs, e),
    ensures
        seq_sum(resolved_sizes(cs, e)) == e,
{
    let n = cs.len();
    let r0 = flex_remainder(cs, e);
    let ka = count_eligible(cs, 0, false);
    let kb = count_eligible(cs, 0, true);
    let ga = pass_a(cs, e);
    lemma_grants_bounds(cs, 0, false, r0, ka);
    lemma_grants_len(cs, 0, false, r0, ka);
    let r1 = r0 - seq_sum(ga);
    let gb = pass_b(cs, e);
    lemma_grants_len(cs, 0, true, r1, kb);
    if fixed_total(cs, e) == e {
        assert(r0 == 0);
        assert(seq_sum(ga) == 0);
        assert(r1 == 0);
        lemma_grants_exact(cs, 0, r1, kb);
    } else {
        let w = choose|i: int| 0 <= i < cs.len() && cs[i] is Min;
        lemma_count_eligible_pos(cs, 0, true, w);
        lemma_grants_exact(cs, 0, r1, kb);
    }
    assert(seq_sum(gb) == r1);
    let padded = Seq::new(n, |j: int| padded_base(cs, e, j));
    assert(prelim_sizes(cs, e) =~= Seq::new(n, |j: int| padded[j] + ga[j] + gb[j]));
    lemma_sum_split3(padded, ga, gb);
    lemma_padded_sum(cs, e);
    assert(seq_sum(prelim_sizes(cs, e)) == fixed_total(cs, e) + seq_sum(ga) + r1);
    assert(seq_sum(prelim_sizes(cs, e)) == e);
    lemma_prelim_sizes_nonneg(cs, e);
    lemma_clip_sizes_props(prelim_sizes(cs, e), e);
}

proof fn lemma_clip_identity(s: Seq<int>, budget: int)
    requires
        budget >= 0,
        forall|j: int| 0 <= j < s.len() ==> s[j] >= 0,
        seq_sum(s) <= budget,
    ensures
        clip_sizes(s, budget) == s,
    decreases s.len(),
{
    if s.len() > 0 {
        lemma_seq_sum_nonneg(s.skip(1));
        assert(seq_sum(s) == s[0] + seq_sum(s.skip(1)));
        lemma_clip_identity(s.skip(1), budget - s[0]);
        assert(clip_sizes(s, budget) == seq![s[0]] + s.skip(1));
        assert(seq![s[0]] + s.skip(1) =~= s);
    }
}

proof fn lemma_grants_zero(cs: Seq<Constraint>, i: int, min_only: bool, k: int)
    requires
        0 <= i <= cs.len(),
        k == count_eligible(cs, i, min_only),
    ensures
        forall|j: int|
            0 <= j < grants(cs, i, min_only, 0, k).len() ==> grants(cs, i, min_only, 0, k)[j] == 0,
    decreases cs.len() - i,
{
    lemma_grants_len(cs, i, min_only, 0, k);
    if i < cs.len() {
        let g = grant_at(cs[i], min_only, 0, k);
        let k2 = if is_eligible(cs[i], min_only) {
            k - 1
        } else {
            k
        };
        if is_eligible(cs[i], min_only) {
            lemma_count_eligible_nonneg(cs, i + 1, min_only);
            assert((0 + k - 1) / k == 0) by (nonlinear_arith)
                requires
                    k >= 1,
            ;
        }
        assert(g == 0);
        lemma_grants_zero(cs, i + 1, min_only, k2);
        let rest = grants(cs, i + 1, min_only, 0, k2);
        assert(grants(cs, i, min_only, 0, k) == seq![0int] + rest);
        assert forall|j: int| 0 <= j < grants(cs, i, min_only, 0, k).len() implies grants(
            cs,
            i,
            min_only,
            0,
            k,
        )[j] == 0 by {
            if j > 0 {
                assert(grants(cs, i, min_only, 0, k)[j] == rest[j - 1]);
            }
        }
    }
}

proof fn lemma_all_pct_base_is_floor(cs: Seq<Constraint>, i: int, e: int)
    requires
        0 <= i <= cs.len(),
        forall|j: int| 0 <= j < cs.len() ==> cs[j] is Percentage,
    ensures
        base_total(cs, i, e) == pct_floor_total(cs, i, e),
        count_eligible(cs, i, false) == 0,
        count_eligible(cs, i, true) == 0,
    decreases cs.len() - i,
{
    if i < cs.len() {
        lemma_all_pct_base_is_floor(cs, i + 1, e);
    }
}

/// Percentage constraints that sum to one hundred resolve to sizes that sum
/// to exactly the available extent, the whole rounding surplus going to the
/// earliest child.
pub proof fn lemma_percentages_fill_exactly(cs: Seq<Constraint>, e: int)
    requires
        e >= 0,
        cs.len() > 0,
        forall|j: int| 0 <= j < cs.len() ==> cs[j] is Percentage,
        pct_total(cs, 0) == 100,
    ensures
        seq_sum(resolved_sizes(cs, e)) == e,
        resolved_sizes(cs, e)[0] == base_size(cs[0], e) + pct_deficit(cs, e),
{
    lemma_all_pct_base_is_floor(cs, 0, e);
    assert((100 * e) / 100 == e) by (nonlinear_arith)
        requires
            e >= 0,
    ;
    assert(pct_deficit(cs, e) == e - pct_floor_total(cs, 0, e));
    assert(fixed_total(cs, e) == e);
    assert(within_capacity(cs, e));
    lemma_resolved_sizes_fill(cs, e);
    let r0 = flex_remainder(cs, e);
    assert(r0 == 0);
    lemma_grants_zero(cs, 0, false, 0);
    lemma_grants_bounds(cs, 0, false, 0, 0);
    lemma_grants_len(cs, 0, false, 0, 0);
    assert(seq_sum(pass_a(cs, e)) == 0);
    lemma_grants_zero(cs, 0, true, 0);
    lemma_grants_len(cs, 0, true, 0, 0);
    assert(pass_a(cs, e)[0] == 0);
    assert(pass_b(cs, e)[0] == 0);
    lemma_first_pct_range(cs, 0);
    assert(first_pct(cs, 0) == 0);
    assert(prelim_sizes(cs, e)[0] == padded_base(cs, e, 0));
    assert(padded_base(cs, e, 0) == base_size(cs[0], e) + pct_deficit(cs, e));
    lemma_prelim_sizes_nonneg(cs, e);
    lemma_grants_bounds(cs, 0, true, 0, 0);
    let padded = Seq::new(cs.len(), |j: int| padded_base(cs, e, j));
    assert(prelim_sizes(cs, e) =~= Seq::new(
        cs.len(),
        |j: int| padded[j] + pass_a(cs, e)[j] + pass_b(cs, e)[j],
    ));
    lemma_sum_split3(padded, pass_a(cs, e), pass_b(cs, e));
    lemma_padded_sum(cs, e);
    assert(seq_sum(prelim_sizes(cs, e)) == e);
    lemma_clip_identity(prelim_sizes(cs, e), e);
}

/// The sub-rectangle at offset `pos` with extent `size` along the axis.
pub open spec fn chunk_rect(inner: Rect, direction: Direction, pos: int, size: int) -> Rect {
    match direction {
        Direction::Horizontal => Rect {
            x: (inner.x + pos) as u16,
            y: inner.y,
            width: size as u16,
            height: inner.height,
        },
        Direction::Vertical => Rect {
            x: inner.x,
            y: (inner.y + pos) as u16,
            width: inner.width,
            height: size as u16,
        },
    }
}

/// What `split` returns: the region less its margin, divided along the axis
/// into one sub-rectangle per constraint, at the resolved sizes, in order.
pub open spec fn spec_split(
    region: Rect,
    direction: Direction,
    cs: Seq<Constraint>,
    options: SplitOptions,
) -> Seq<Rect> {
    let inner = spec_inner_rect(region, options.margin as int);
    let e = inner.spec_extent(direction);
    let sizes = resolved_sizes(cs, e);
    Seq::new(cs.len(), |i: int| chunk_rect(inner, direction, prefix_sum(sizes, i), sizes[i]))
}

/// The other axis.
pub open spec fn cross_axis(direction: Direction) -> Direction {
    match direction {
        Direction::Horizontal => Direction::Vertical,
        Direction::Vertical => Direction::Horizontal,
    }
}

/// The start coordinate of a rectangle along the split axis.
pub open spec fn axis_start(r: Rect, direction: Direction) -> int {
    match direction {
        Direction::Horizontal => r.x as int,
        Direction::Vertical => r.y as int,
    }
}

/// A split of a region among N constrained children returns exactly N
/// sub-rectangles, laid end to end along the split axis from the inner
/// origin — no overlap, no gap between neighbours — each spanning the full
/// inner extent across the axis; and within capacity they cover the inner
/// extent completely.
pub proof fn lemma_split_partitions(
    region: Rect,
    direction: Direction,
    cs: Seq<Constraint>,
    options: SplitOptions,
)
    requires
        region.wf(),
    ensures
        ({
            let inner = spec_inner_rect(region, options.margin as int);
            let e = inner.spec_extent(direction);
            let sizes = resolved_sizes(cs, e);
            let out = spec_split(region, direction, cs, options);
            &&& out.len() == cs.len()
            &&& forall|i: int|
                0 <= i < out.len() ==> #[trigger] out[i].spec_extent(direction) == sizes[i]
            &&& forall|i: int|
                0 <= i < out.len() ==> #[trigger] axis_start(out[i], direction) == axis_start(
                    inner,
                    direction,
                ) + prefix_sum(sizes, i)
            &&& forall|i: int|
                0 <= i < out.len() ==> #[trigger] out[i].spec_extent(cross_axis(direction))
                    == inner.spec_extent(cross_axis(direction))
            &&& forall|i: int| 0 <= i < out.len() ==> #[trigger] out[i].wf()
            &&& (within_capacity(cs, e) ==> seq_sum(sizes) == e)
        }),
{
    let inner = spec_inner_rect(region, options.margin as int);
    let e = inner.spec_extent(direction);
    let sizes = resolved_sizes(cs, e);
    let out = spec_split(region, direction, cs, options);
    crate::geometry::lemma_inner_rect_wf(region, options.margin as int);
    lemma_resolved_sizes_props(cs, e);
    assert forall|i: int| 0 <= i < out.len() implies {
        &&& #[trigger] out[i].spec_extent(direction) == sizes[i]
        &&& axis_start(out[i], direction) == axis_start(inner, direction) + prefix_sum(sizes, i)
        &&& out[i].spec_extent(cross_axis(direction)) == inner.spec_extent(cross_axis(direction))
        &&& out[i].wf()
    } by {
        lemma_prefix_sum_bounds(sizes, i);
        lemma_prefix_sum_bounds(sizes, i + 1);
        assert(prefix_sum(sizes, i + 1) == prefix_sum(sizes, i) + sizes[i]);
        assert(prefix_sum(sizes, i + 1) <= e);
    }
    assert forall|i: int| 0 <= i < out.len() implies #[trigger] axis_start(out[i], direction)
        == axis_start(inner, direction) + prefix_sum(sizes, i) by {
        assert(out[i].spec_extent(direction) == sizes[i]);
    }
    assert forall|i: int| 0 <= i < out.len() implies #[trigger] out[i].spec_extent(
        cross_axis(direction),
    ) == inner.spec_extent(cross_axis(direction)) by {
        assert(out[i].spec_extent(direction) == sizes[i]);
    }
    assert forall|i: int| 0 <= i < out.len() implies #[trigger] out[i].wf() by {
        assert(out[i].spec_extent(direction) == sizes[i]);
    }
    if within_capacity(cs, e) {
        lemma_resolved_sizes_fill(cs, e);
    }
}

/// A `u16` sequence as mathematical integers.
pub open spec fn ints_of(s: Seq<u16>) -> Seq<int> {
    s.map_values(|v: u16| v as int)
}

/// A `u64` sequence as mathematical integers.
pub open spec fn ints_of64(s: Seq<u64>) -> Seq<int> {
    s.map_values(|v: u64| v as int)
}

/// Percentage figures summed, stopping once they pass a full region: enough
/// to know both the exact total when it matters and that it is over 100 when
/// it does not.
fn pct_total_capped(cs: &Vec<Constraint>, i: usize) -> (r: u32)
    requires
        i <= cs@.len(),
    ensures
        pct_total(cs@, i as int) <= 100 ==> r == pct_total(cs@, i as int),
        r <= 101,
        (pct_total(cs@, i as int) > 100) == (r > 100),
    decreases cs@.len() - i,
{
    if i == cs.len() {
        0
    } else {
        let p: u32 = match cs[i] {
            Constraint::Percentage(p) => p as u32,
            _ => 0,
        };
        let rest = pct_total_capped(cs, i + 1);
        proof {
            lemma_pct_total_nonneg(cs@, i as int + 1);
            lemma_pct_total_nonneg(cs@, i as int);
        }
        if p + rest > 101 {
            101
        } else {
            p + rest
        }
    }
}

/// Exact sum of the rounded-down percentage shares; callable once the total
/// percentage is known not to pass 100, which bounds it by the extent.
fn pct_floor_total_exec(cs: &Vec<Constraint>, i: usize, e: u16) -> (r: u64)
    requires
        i <= cs@.len(),
        pct_total(cs@, i as int) <= 100,
    ensures
        r as int == pct_floor_total(cs@, i as int, e as int),
        r <= e,
    decreases cs@.len() - i,
{
    proof {
        lemma_pct_floor_le(cs@, i as int, e as int);
        lemma_pct_total_nonneg(cs@, i as int);
        assert((pct_total(cs@, i as int) * e) / 100 <= (100 * e) / 100) by (nonlinear_arith)
            requires
                0 <= pct_total(cs@, i as int) <= 100,
                e >= 0,
        ;
        assert((100 * (e as int)) / 100 == e as int) by (nonlinear_arith);
    }
    if i == cs.len() {
        0
    } else {
        proof {
            lemma_pct_total_nonneg(cs@, i as int + 1);
        }
        let f: u64 = match cs[i] {
            Constraint::Percentage(p) => {
                proof {
                    assert((p as int) * (e as int) < 0x1_0000_0000) by (nonlinear_arith)
                        requires
                            0 <= p as int <= 0xFFFF,
                            0 <= e as int <= 0xFFFF,
                    ;
                }
                (p as u64 * e as u64) / 100
            },
            _ => 0,
        };
        let rest = pct_floor_total_exec(cs, i + 1, e);
        proof {
            lemma_pct_floor_le(cs@, i as int, e as int);
        }
        f + rest
    }
}

/// Index of the first percentage constraint, or the length if there is none.
fn first_pct_exec(cs: &Vec<Constraint>, i: usize) -> (r: usize)
    requires
        i <= cs@.len(),
    ensures
        r as int == first_pct(cs@, i as int),
        r <= cs@.len(),
    decreases cs@.len() - i,
{
    if i == cs.len() {
        cs.len()
    } else if matches!(cs[i], Constraint::Percentage(_)) {
        i
    } else {
        first_pct_exec(cs, i + 1)
    }
}

/// How many children are dealt a share in the given pass.
fn count_eligible_exec(cs: &Vec<Constraint>, i: usize, min_only: bool) -> (r: usize)
    requires
        i <= cs@.len(),
    ensures
        r as int == count_eligible(cs@, i as int, min_only),
        r <= cs@.len() - i,
    decreases cs@.len() - i,
{
    if i == cs.len() {
        0
    } else {
        let here: usize = match cs[i] {
            Constraint::Min(_) => 1,
            Constraint::Max(_) => if min_only {
                0
            } else {
                1
            },
            _ => 0,
        };
        here + count_eligible_exec(cs, i + 1, min_only)
    }
}

/// The fixed demand of one constraint.
fn base_size_exec(c: Constraint, e: u16) -> (r: u64)
    ensures
        r as int == base_size(c, e as int),
        r < 0x1_0000_0000,
{
    match c {
        Constraint::Length(n) => n as u64,
        Constraint::Min(n) => n as u64,
        Constraint::Max(_) => 0,
        Constraint::Percentage(p) => {
            proof {
                assert((p as int) * (e as int) < 0x1_0000_0000) by (nonlinear_arith)
                    requires
                        0 <= p as int <= 0xFFFF,
                        0 <= e as int <= 0xFFFF,
                ;
            }
            let prod = p as u64 * e as u64;
            proof {
                assert(prod / 100 <= prod) by (nonlinear_arith)
                    requires
                        prod >= 0,
                ;
            }
            prod / 100
        },
    }
}

/// Sum of the fixed demands, stopping once it passes the whole extent: the
/// splitter only ever needs the sum compared against the extent.
fn base_total_capped(cs: &Vec<Constraint>, i: usize, e: u16) -> (r: u64)
    requires
        i <= cs@.len(),
    ensures
        r == if base_total(cs@, i as int, e as int) <= 0x1_0000u64 {
            base_total(cs@, i as int, e as int)
        } else {
            0x1_0000u64 as int
        },
    decreases cs@.len() - i,
{
    proof {
        lemma_base_total_nonneg(cs@, i as int, e as int);
    }
    if i == cs.len() {
        0
    } else {
        let b = base_size_exec(cs[i], e);
        let rest = base_total_capped(cs, i + 1, e);
        proof {
            lemma_base_total_nonneg(cs@, i as int + 1, e as int);
            lemma_base_size_nonneg(cs@[i as int], e as int);
        }
        if b + rest > 0x1_0000 {
            0x1_0000
        } else {
            b + rest
        }
    }
}

proof fn lemma_base_total_nonneg(cs: Seq<Constraint>, i: int, e: int)
    requires
        e >= 0,
    ensures
        base_total(cs, i, e) >= 0,
    decreases cs.len() - i,
{
    if 0 <= i < cs.len() {
        lemma_base_total_nonneg(cs, i + 1, e);
        lemma_base_size_nonneg(cs[i], e);
    }
}

/// Deal the leftover extent to the eligible children of `cs[i..]`, appending
/// one share per child (zero for the ineligible) to `out`.
fn grants_exec(
    cs: &Vec<Constraint>,
    i: usize,
    min_only: bool,
    r: u16,
    k: usize,
    out: &mut Vec<u16>,
)
    requires
        i <= cs@.len(),
        k as int == count_eligible(cs@, i as int, min_only),
    ensures
        ints_of(final(out)@) =~= ints_of(old(out)@) + grants(
            cs@,
            i as int,
            min_only,
            r as int,
            k as int,
        ),
    decreases cs@.len() - i,
{
    if i < cs.len() {
        let eligible = match cs[i] {
            Constraint::Min(_) => true,
            Constraint::Max(_) => !min_only,
            _ => false,
        };
        let c = cs[i];
        let ghost spec_g = grant_at(cs@[i as int], min_only, r as int, k as int);
        let (g, k2): (u16, usize) = if eligible {
            proof {
                assert(is_eligible(cs@[i as int], min_only));
                lemma_count_eligible_nonneg(cs@, i as int + 1, min_only);
                assert(count_eligible(cs@, i as int, min_only) == 1 + count_eligible(
                    cs@,
                    i as int + 1,
                    min_only,
                ));
                assert(k >= 1);
                lemma_ceil_div_bounds(r as int, k as int);
            }
            let share: u16 = if r == 0 {
                proof {
                    assert((0 + k as int - 1) / (k as int) == 0) by (nonlinear_arith)
                        requires
                            k as int >= 1,
                    ;
                }
                0
            } else if k as u64 > r as u64 {
                proof {
                    assert((r as int + k as int - 1) / (k as int) == 1) by (nonlinear_arith)
                        requires
                            1 <= r as int,
                            (r as int) < (k as int),
                    ;
                }
                1
            } else {
                let share64 = (r as u64 + (k as u64 - 1)) / (k as u64);
                assert(share64 as int == ceil_div(r as int, k as int));
                share64 as u16
            };
            assert(share as int == ceil_div(r as int, k as int));
            let g = match c {
                Constraint::Max(n) => if n <= share {
                    n
                } else {
                    share
                },
                _ => share,
            };
            (g, k - 1)
        } else {
            (0, k)
        };
        assert(g as int == spec_g);
        out.push(g);
        grants_exec(cs, i + 1, min_only, r - g, k2, out);
        proof {
            let whole = grants(cs@, i as int, min_only, r as int, k as int);
            let rest = grants(cs@, i as int + 1, min_only, r as int - g, k2 as int);
            assert(whole == seq![spec_g] + rest);
        }
    }
}

/// Clip the ideal sizes, in order, to the remaining budget, appending the
/// final size of every child of `prelim[i..]` to `out`.
fn clip_exec(prelim: &Vec<u64>, i: usize, budget: u16, out: &mut Vec<u16>)
    requires
        i <= prelim@.len(),
    ensures
        ints_of(final(out)@) =~= ints_of(old(out)@) + clip_sizes(
            ints_of64(prelim@).skip(i as int),
            budget as int,
        ),
    decreases prelim@.len() - i,
{
    if i < prelim.len() {
        let p = prelim[i];
        let t: u16 = if p <= budget as u64 {
            p as u16
        } else {
            budget
        };
        out.push(t);
        clip_exec(prelim, i + 1, budget - t, out);
        proof {
            let s = ints_of64(prelim@).skip(i as int);
            assert(s[0] == prelim@[i as int] as int);
            assert(s.skip(1) =~= ints_of64(prelim@).skip(i as int + 1));
            assert(clip_sizes(s, budget as int) == seq![t as int] + clip_sizes(
                s.skip(1),
                budget as int - t as int,
            ));
        }
    }
}

/// The size every child receives when extent `e` is divided among `cs`.
#[verifier::loop_isolation(false)]
pub fn resolve_sizes(cs: &Vec<Constraint>, e: u16) -> (out: Vec<u16>)
    ensures
        ints_of(out@) =~= resolved_sizes(cs@, e as int),
{
    let ghost csg = cs@;
    let ghost ei = e as int;

    // Rounding surplus of the percentage children.
    let pt = pct_total_capped(cs, 0);
    let deficit: u64 = if pt <= 100 {
        let floors = pct_floor_total_exec(cs, 0, e);
        proof {
            lemma_pct_floor_le(csg, 0, ei);
            assert((pct_total(csg, 0) * ei) / 100 <= (100 * ei) / 100) by (nonlinear_arith)
                requires
                    0 <= pct_total(csg, 0) <= 100,
                    ei >= 0,
            ;
            assert((100 * ei) / 100 == ei) by (nonlinear_arith);
        }
        (pt as u64 * e as u64) / 100 - floors
    } else {
        0
    };
    assert(deficit as int == pct_deficit(csg, ei));
    assert(deficit <= e);

    // Extent left once the fixed demands are met.
    let sat_base = base_total_capped(cs, 0, e);
    proof {
        lemma_base_total_nonneg(csg, 0, ei);
    }
    let sat_fixed: u64 = if sat_base + deficit > 0x1_0000 {
        0x1_0000
    } else {
        sat_base + deficit
    };
    assert(sat_fixed == if fixed_total(csg, ei) <= 0x1_0000u64 {
        fixed_total(csg, ei)
    } else {
        0x1_0000u64 as int
    });
    let r0: u16 = if sat_fixed >= e as u64 {
        0
    } else {
        e - (sat_fixed as u16)
    };
    assert(r0 as int == flex_remainder(csg, ei));

    // Deal the leftover out: all flexible children, then the unbounded ones.
    let ka = count_eligible_exec(cs, 0, false);
    let mut ga: Vec<u16> = Vec::new();
    grants_exec(cs, 0, false, r0, ka, &mut ga);
    assert(ints_of(ga@) =~= pass_a(csg, ei));
    proof {
        lemma_grants_bounds(csg, 0, false, r0 as int, ka as int);
        lemma_grants_len(csg, 0, false, r0 as int, ka as int);
    }
    let sa = sum_u16(&ga);
    assert(sa as int == seq_sum(pass_a(csg, ei)) && sa <= r0) by {
        lemma_seq_sum_is_prefix_sum(pass_a(csg, ei));
    }
    let r1: u16 = r0 - sa;
    let kb = count_eligible_exec(cs, 0, true);
    let mut gb: Vec<u16> = Vec::new();
    grants_exec(cs, 0, true, r1, kb, &mut gb);
    assert(ints_of(gb@) =~= pass_b(csg, ei));
    proof {
        lemma_grants_len(csg, 0, true, r1 as int, kb as int);
    }

    // Ideal sizes, then clipped to what the region really has.
    let fp = first_pct_exec(cs, 0);
    let mut prelim: Vec<u64> = Vec::new();
    let mut j: usize = 0;
    while j < cs.len()
        invariant
            j <= cs@.len(),
            prelim@.len() == j,
            forall|m: int|
                0 <= m < j ==> ints_of64(prelim@)[m] == prelim_sizes(csg, ei)[m],
        decreases cs@.len() - j,
    {
        let b = base_size_exec(cs[j], e);
        let pad: u64 = if j == fp {
            deficit
        } else {
            0
        };
        let v: u64 = b + pad + ga[j] as u64 + gb[j] as u64;
        assert(v as int == prelim_sizes(csg, ei)[j as int]);
        prelim.push(v);
        j += 1;
    }
    assert(ints_of64(prelim@) =~= prelim_sizes(csg, ei));
    let mut out: Vec<u16> = Vec::new();
    clip_exec(&prelim, 0, e, &mut out);
    assert(ints_of64(prelim@).skip(0) =~= ints_of64(prelim@));
    out
}

/// Sum of the entries; callable when it is known to fit.
#[verifier::loop_isolation(false)]
fn sum_u16(v: &Vec<u16>) -> (r: u16)
    requires
        seq_sum(ints_of(v@)) <= u16::MAX,
    ensures
        r as int == seq_sum(ints_of(v@)),
{
    let ghost s = ints_of(v@);
    proof {
        assert(forall|j: int| 0 <= j < s.len() ==> s[j] >= 0);
        lemma_seq_sum_is_prefix_sum(s);
    }
    let mut acc: u16 = 0;
    let mut i: usize = 0;
    while i < v.len()
        invariant
            i <= v@.len(),
            acc as int == prefix_sum(s, i as int),
        decreases v@.len() - i,
    {
        proof {
            lemma_prefix_sum_bounds(s, i as int + 1);
            assert(prefix_sum(s, i as int + 1) <= prefix_sum(s, s.len() as int));
            assert(s[i as int] == v@[i as int] as int);
            assert(prefix_sum(s, i as int + 1) == acc as int + v@[i as int] as int);
        }
        acc = acc + v[i];
        i += 1;
    }
    acc
}

/// Divide `region`, less the margin of `options`, along `direction` among
/// the children described by `constraints`: one sub-rectangle per
/// constraint, in order, sized by the resolution the module describes.
#[verifier::loop_isolation(false)]
pub fn split(
    region: Rect,
    direction: Direction,
    constraints: &Vec<Constraint>,
    options: SplitOptions,
) -> (out: Vec<Rect>)
    requires
        region.wf(),
    ensures
        out@ =~= spec_split(region, direction, constraints@, options),
        forall|i: int| 0 <= i < out@.len() ==> #[trigger] out@[i].wf(),
{
    let ghost csg = constraints@;
    let inner = inner_rect(region, options.margin);
    let e = inner.extent(direction);
    let ghost ei = e as int;
    let sizes = resolve_sizes(constraints, e);
    proof {
        lemma_resolved_sizes_props(csg, ei);
    }
    let mut out: Vec<Rect> = Vec::new();
    let mut pos: u16 = 0;
    let mut i: usize = 0;
    while i < sizes.len()
        invariant
            i <= sizes@.len(),
            out@.len() == i,
            pos as int == prefix_sum(resolved_sizes(csg, ei), i as int),
            pos <= e,
            forall|m: int|
                0 <= m < i ==> #[trigger] out@[m] == spec_split(region, direction, csg, options)[m]
                    && out@[m].wf(),
        decreases sizes@.len() - i,
    {
        let size = sizes[i];
        proof {
            lemma_prefix_sum_bounds(resolved_sizes(csg, ei), i as int + 1);
            assert(prefix_sum(resolved_sizes(csg, ei), i as int + 1) <= ei);
            assert(resolved_sizes(csg, ei)[i as int] == size as int);
        }
        let rect = match direction {
            Direction::Horizontal => Rect {
                x: inner.x + pos,
                y: inner.y,
                width: size,
                height: inner.height,
            },
            Direction::Vertical => Rect {
                x: inner.x,
                y: inner.y + pos,
                width: inner.width,
                height: size,
            },
        };
        assert(rect == spec_split(region, direction, csg, options)[i as int]);
        assert(rect.wf());
        out.push(rect);
        pos = pos + size;
        i += 1;
    }
    out
}

} // verus!
