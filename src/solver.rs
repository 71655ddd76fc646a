//! Splitting the space along an axis among children laid out one after the
//! other.

use vstd::prelude::*;
use crate::size_rules::{
    all_wf, imax, lemma_nonneg, lemma_prefix_fits, lemma_seq_sizes, max_stretch, seq_fits,
    seq_rules, sum_gaps, sum_ideal, sum_min, SizeRules, StretchPolicy,
};

verus! {

/// The number of rules of `s` whose policy is `p`.
pub open spec fn count_policy(s: Seq<SizeRules>, p: StretchPolicy) -> nat
    decreases s.len(),
{
    if s.len() == 0 {
        0
    } else {
        count_policy(s.drop_last(), p) + if s.last().stretch == p {
            1nat
        } else {
            0nat
        }
    }
}

/// `v` held to the range `0..=hi`.
pub open spec fn clamp_to(v: int, hi: int) -> int {
    if v < 0 {
        0
    } else if v > hi {
        hi
    } else {
        v
    }
}

/// The room between minimum and ideal of the children before `i`.
pub open spec fn slack_before(s: Seq<SizeRules>, i: int) -> int {
    sum_ideal(s.take(i)) - sum_min(s.take(i))
}

/// The space left to the children of `s` in `target` once the margins
/// between them are kept; never below zero.
pub open spec fn child_space(s: Seq<SizeRules>, target: int) -> int {
    imax(target - sum_gaps(s), 0)
}

/// The size that child `i` of `s` gets out of `target`.
///
/// Every child gets at least its minimum. Space beyond the sum of minima
/// raises the children towards their ideal sizes, first child first. Space
/// beyond the sum of ideal sizes goes to the children with the highest
/// policy in equal shares, the first ones taking one more each until none is
/// left; where that policy is `Fixed` it goes to nobody.
pub open spec fn share_width(s: Seq<SizeRules>, target: int, i: int) -> int {
    let extra = child_space(s, target) - sum_min(s);
    let base = s[i].min + clamp_to(extra - slack_before(s, i), s[i].ideal - s[i].min);
    let top = max_stretch(s);
    let excess = child_space(s, target) - sum_ideal(s);
    if excess > 0 && top != StretchPolicy::Fixed && s[i].stretch == top {
        let k = count_policy(s, top) as int;
        let rank = count_policy(s.take(i), top) as int;
        base + excess / k + if rank < excess % k {
            1int
        } else {
            0int
        }
    } else {
        base
    }
}

/// The sum of the margins kept between neighbours of `rules`.
fn gaps_of(rules: &Vec<SizeRules>) -> (g: u32)
    requires
        all_wf(rules@),
        seq_fits(rules@),
    ensures
        g == sum_gaps(rules@),
{
    let mut g: u32 = 0;
    let mut i: usize = 1;
    while i < rules.len()
        invariant
            1 <= i,
            i <= rules.len() || rules.len() == 0,
            all_wf(rules@),
            seq_fits(rules@),
            rules.len() > 0 ==> g == sum_gaps(rules@.take(i as int)),
            rules.len() == 0 ==> g == 0,
        decreases rules.len() - i,
    {
        proof {
            let p = rules@.take(i as int + 1);
            let q = rules@.take(i as int);
            assert(p.drop_last() == q);
            assert(p[p.len() - 2] == rules@[i - 1]);
            lemma_prefix_fits(rules@, i as int + 1);
            lemma_nonneg(p);
        }
        let a = rules[i - 1].margins.1;
        let b = rules[i].margins.0;
        let c = if a >= b {
            a
        } else {
            b
        };
        g = g + c;
        i = i + 1;
    }
    proof {
        if rules.len() > 0 {
            assert(rules@.take(rules.len() as int) == rules@);
        } else {
            assert(sum_gaps(rules@) == 0);
        }
    }
    g
}

/// The number of rules of `rules` whose policy is `p`.
fn count_of(rules: &Vec<SizeRules>, p: StretchPolicy) -> (c: usize)
    ensures
        c == count_policy(rules@, p),
{
    let mut c: usize = 0;
    let mut i: usize = 0;
    while i < rules.len()
        invariant
            i <= rules.len(),
            c == count_policy(rules@.take(i as int), p),
            c <= i,
        decreases rules.len() - i,
    {
        proof {
            assert(rules@.take(i as int + 1).drop_last() == rules@.take(i as int));
        }
        if rules[i].stretch == p {
            c = c + 1;
        }
        i = i + 1;
    }
    proof {
        assert(rules@.take(rules.len() as int) == rules@);
    }
    c
}

/// Counting over a prefix counts no more than over the whole, and a rule
/// with the policy counted is counted before the end.
proof fn lemma_count_prefix(s: Seq<SizeRules>, i: int, p: StretchPolicy)
    requires
        0 <= i <= s.len(),
    ensures
        count_policy(s.take(i), p) <= count_policy(s, p),
        i < s.len() && s[i].stretch == p ==> count_policy(s.take(i), p) < count_policy(s, p),
    decreases s.len(),
{
    if i < s.len() {
        let t = s.drop_last();
        if i == s.len() - 1 {
            assert(t == s.take(i));
        } else {
            assert(t.take(i) == s.take(i));
            assert(t[i] == s[i]);
            lemma_count_prefix(t, i, p);
        }
    } else {
        assert(s.take(i) == s);
    }
}

/// A child's sizes never exceed the sums over all children, and the room
/// before a child grows by that child's room.
proof fn lemma_elem_le_sum(s: Seq<SizeRules>, i: int)
    requires
        0 <= i < s.len(),
        all_wf(s),
    ensures
        s[i].ideal <= sum_ideal(s),
        s[i].min <= sum_min(s),
        0 <= slack_before(s, i),
        slack_before(s, i + 1) == slack_before(s, i) + s[i].ideal - s[i].min,
        slack_before(s, i + 1) <= sum_ideal(s),
    decreases s.len(),
{
    let t = s.drop_last();
    assert(s.take(i + 1).drop_last() == s.take(i));
    assert(all_wf(s.take(i)));
    assert(all_wf(s.take(i + 1)));
    lemma_seq_sizes(s.take(i));
    lemma_seq_sizes(s.take(i + 1));
    lemma_nonneg(s);
    lemma_nonneg(s.take(i + 1));
    lemma_nonneg(s.take(i));
    if i < s.len() - 1 {
        assert(all_wf(t));
        assert(t[i] == s[i]);
        assert(t.take(i) == s.take(i));
        assert(t.take(i + 1) == s.take(i + 1));
        lemma_elem_le_sum(t, i);
    } else {
        assert(s.take(i + 1) == s);
        lemma_seq_sizes(t);
        assert(t == s.take(i));
    }
}

/// One share of the excess, plus the one extra unit that the first ones get,
/// stays within the excess.
proof fn lemma_share_bound(e: int, k: int)
    requires
        e > 0,
        k >= 1,
    ensures
        0 <= e / k,
        0 <= e % k < k,
        e / k + (if e % k > 0 { 1int } else { 0int }) <= e,
{
    assert(e == k * (e / k) + e % k) by (nonlinear_arith)
        requires
            k >= 1,
    ;
    assert(0 <= e % k < k) by (nonlinear_arith)
        requires
            k >= 1,
    ;
    assert(e / k >= 0) by (nonlinear_arith)
        requires
            k >= 1,
            e > 0,
    ;
    assert(k * (e / k) >= e / k) by (nonlinear_arith)
        requires
            k >= 1,
            e / k >= 0,
    ;
}

/// Splits `target` among the children `rules` laid out one after the other,
/// keeping the margins between them: child `i` gets `share_width(rules, target, i)`.
pub fn solve_seq(rules: &Vec<SizeRules>, target: u32) -> (widths: Vec<u32>)
    requires
        all_wf(rules@),
        seq_fits(rules@),
    ensures
        widths.len() == rules.len(),
        forall|i: int| 0 <= i < rules.len() ==> widths[i] == share_width(rules@, target as int, i),
{
    let total = SizeRules::sum(rules);
    let g = gaps_of(rules);
    proof {
        lemma_nonneg(rules@);
        lemma_seq_sizes(rules@);
    }
    let smin = total.min - g;
    let sideal = total.ideal - g;
    let top = total.stretch;
    let avail: u32 = if target > g {
        target - g
    } else {
        0
    };
    let extra: u32 = if avail > smin {
        avail - smin
    } else {
        0
    };
    let excess: u32 = if avail > sideal {
        avail - sideal
    } else {
        0
    };
    let k = count_of(rules, top);
    let stretchy = excess > 0 && top != StretchPolicy::Fixed && k > 0;
    let q: u64 = if stretchy {
        excess as u64 / k as u64
    } else {
        0
    };
    let r: u64 = if stretchy {
        excess as u64 % k as u64
    } else {
        0
    };
    proof {
        if rules.len() == 0 {
            assert(max_stretch(rules@) == StretchPolicy::Fixed);
        }
        assert(top == max_stretch(rules@));
        assert(avail == child_space(rules@, target as int));
        if stretchy {
            lemma_share_bound(excess as int, k as int);
        }
    }
    let mut widths: Vec<u32> = Vec::new();
    let mut slack: u64 = 0;
    let mut rank: usize = 0;
    let mut i: usize = 0;
    while i < rules.len()
        invariant
            i <= rules.len(),
            all_wf(rules@),
            seq_fits(rules@),
            widths.len() == i,
            forall|j: int| 0 <= j < i ==> widths[j] == share_width(rules@, target as int, j),
            slack == slack_before(rules@, i as int),
            slack <= u32::MAX,
            rank == count_policy(rules@.take(i as int), top),
            rank <= count_policy(rules@, top),
            top == max_stretch(rules@),
            avail == child_space(rules@, target as int),
            avail <= u32::MAX,
            smin == sum_min(rules@),
            sideal == sum_ideal(rules@),
            avail > smin ==> extra == avail - smin,
            avail <= smin ==> extra == 0,
            avail > sideal ==> excess == avail - sideal,
            avail <= sideal ==> excess == 0,
            k == count_policy(rules@, top),
            stretchy == (excess > 0 && top != StretchPolicy::Fixed && k > 0),
            stretchy ==> q == (excess as int) / (k as int) && r == (excess as int) % (k as int),
            stretchy ==> q + (if r > 0 { 1int } else { 0int }) <= excess,
        decreases rules.len() - i,
    {
        let rule = rules[i];
        proof {
            lemma_elem_le_sum(rules@, i as int);
            lemma_count_prefix(rules@, i as int, top);
            lemma_count_prefix(rules@, i as int + 1, top);
            assert(rules@.take(i as int + 1).drop_last() == rules@.take(i as int));
            assert(rule.wf());
        }
        let room = rule.ideal - rule.min;
        let take: u32 = if extra as u64 <= slack {
            0
        } else if extra as u64 - slack > room as u64 {
            room
        } else {
            (extra as u64 - slack) as u32
        };
        let base: u32 = rule.min + take;
        proof {
            let extra_s = child_space(rules@, target as int) - sum_min(rules@);
            assert(take == clamp_to(extra_s - slack_before(rules@, i as int), rule.ideal - rule.min));
        }
        let mut w: u32 = base;
        if rule.stretch == top {
            if stretchy {
                let one: u64 = if (rank as u64) < r {
                    1
                } else {
                    0
                };
                w = (base as u64 + q + one) as u32;
            }
            rank = rank + 1;
        }
        widths.push(w);
        slack = slack + room as u64;
        i = i + 1;
    }
    widths
}

proof fn lemma_slack_mono(s: Seq<SizeRules>, j: int)
    requires
        0 <= j <= s.len(),
        all_wf(s),
    ensures
        slack_before(s, j) <= sum_ideal(s) - sum_min(s),
    decreases s.len() - j,
{
    if j < s.len() {
        lemma_elem_le_sum(s, j);
        lemma_slack_mono(s, j + 1);
    } else {
        assert(s.take(j) == s);
    }
}

/// Offered at least the ideal size of the whole row, every child gets at
/// least its own ideal size.
pub proof fn lemma_ideal_round_trip(s: Seq<SizeRules>, target: int)
    requires
        all_wf(s),
        seq_fits(s),
        target >= seq_rules(s).ideal,
    ensures
        forall|i: int| 0 <= i < s.len() ==> share_width(s, target, i) >= (#[trigger] s[i]).ideal,
{
    lemma_nonneg(s);
    lemma_seq_sizes(s);
    assert forall|i: int| 0 <= i < s.len() implies share_width(s, target, i) >= (#[trigger] s[i]).ideal by {
        lemma_elem_le_sum(s, i);
        lemma_slack_mono(s, i + 1);
        assert(s[i].wf());
        if s.len() > 0 {
            assert(seq_rules(s).ideal == sum_ideal(s) + sum_gaps(s));
        }
        let top = max_stretch(s);
        lemma_count_prefix(s, i, top);
        let excess = child_space(s, target) - sum_ideal(s);
        let extra = child_space(s, target) - sum_min(s);
        assert(extra - slack_before(s, i) >= s[i].ideal - s[i].min);
        if excess > 0 && s[i].stretch == top {
            lemma_share_bound(excess, count_policy(s, top) as int);
        }
    }
}

/// The sum of the sizes that the first `k` children of `s` get out of `target`.
pub open spec fn widths_sum(s: Seq<SizeRules>, target: int, k: int) -> int
    decreases k,
{
    if k <= 0 {
        0
    } else {
        widths_sum(s, target, k - 1) + share_width(s, target, k - 1)
    }
}

/// Where child `k` of `s` starts, from the start of the row: after the
/// children before it and the margins between them.
pub open spec fn seq_offset(s: Seq<SizeRules>, target: int, k: int) -> int {
    widths_sum(s, target, k) + sum_gaps(s.take(k + 1))
}

/// Whether some child of `s` takes space beyond the ideal sizes from `target`.
pub open spec fn stretches(s: Seq<SizeRules>, target: int) -> bool {
    child_space(s, target) - sum_ideal(s) > 0 && max_stretch(s) != StretchPolicy::Fixed
}

/// The highest policy among non-empty rules is held by one of them.
proof fn lemma_top_counted(s: Seq<SizeRules>)
    requires
        s.len() > 0,
    ensures
        count_policy(s, max_stretch(s)) >= 1,
    decreases s.len(),
{
    let t = s.drop_last();
    if t.len() > 0 && max_stretch(s) == max_stretch(t) {
        lemma_top_counted(t);
    }
}

proof fn lemma_clamp_add(e: int, a: int, b: int)
    requires
        a >= 0,
        b >= 0,
    ensures
        clamp_to(e, a) + clamp_to(e - a, b) == clamp_to(e, a + b),
{
}

/// What the children before `k` get beyond their ideal sizes.
pub open spec fn stretch_part(s: Seq<SizeRules>, target: int, k: int) -> int {
    let excess = child_space(s, target) - sum_ideal(s);
    let kk = count_policy(s, max_stretch(s)) as int;
    let c = count_policy(s.take(k), max_stretch(s)) as int;
    if stretches(s, target) {
        (excess / kk) * c + if c < excess % kk {
            c
        } else {
            excess % kk
        }
    } else {
        0
    }
}

/// What child `j` gets beyond its minimum and its share of the room below
/// its ideal size.
proof fn lemma_stretch_step(s: Seq<SizeRules>, target: int, j: int)
    requires
        0 <= j < s.len(),
    ensures
        stretch_part(s, target, j + 1) == stretch_part(s, target, j) + share_width(s, target, j) - s[j].min
            - clamp_to(child_space(s, target) - sum_min(s) - slack_before(s, j), s[j].ideal - s[j].min),
{
    let excess = child_space(s, target) - sum_ideal(s);
    let top = max_stretch(s);
    let kk = count_policy(s, top) as int;
    let c = count_policy(s.take(j), top) as int;
    assert(s.take(j + 1).drop_last() == s.take(j));
    assert(s.take(j + 1).last() == s[j]);
    assert(count_policy(s.take(j + 1), top) == c + if s[j].stretch == top {
        1int
    } else {
        0int
    });
    if stretches(s, target) {
        let q = excess / kk;
        assert(q * (c + 1) == q * c + q) by (nonlinear_arith);
    }
}

proof fn lemma_widths_prefix(s: Seq<SizeRules>, target: int, k: int)
    requires
        all_wf(s),
        0 <= k <= s.len(),
        stretches(s, target) ==> count_policy(s, max_stretch(s)) >= 1,
    ensures
        widths_sum(s, target, k) == sum_min(s.take(k)) + clamp_to(child_space(s, target) - sum_min(s), slack_before(s, k))
            + stretch_part(s, target, k),
    decreases k,
{
    let extra = child_space(s, target) - sum_min(s);
    if k == 0 {
        assert(s.take(0) =~= Seq::<SizeRules>::empty());
        assert(slack_before(s, 0) == 0);
        assert(count_policy(s.take(0), max_stretch(s)) == 0);
        if stretches(s, target) {
            let excess = child_space(s, target) - sum_ideal(s);
            let kk = count_policy(s, max_stretch(s)) as int;
            assert((excess / kk) * 0 == 0);
            assert(excess % kk >= 0) by (nonlinear_arith)
                requires
                    kk >= 1,
            ;
        }
    } else {
        let j = k - 1;
        lemma_widths_prefix(s, target, j);
        lemma_elem_le_sum(s, j);
        lemma_stretch_step(s, target, j);
        assert(s.take(k).drop_last() == s.take(j));
        assert(s.take(k).last() == s[j]);
        assert(sum_min(s.take(k)) == sum_min(s.take(j)) + s[j].min);
        lemma_clamp_add(extra, slack_before(s, j), s[j].ideal - s[j].min);
        assert(s[j].wf());
        assert(widths_sum(s, target, k) == widths_sum(s, target, j) + share_width(s, target, j));
    }
}

/// The sizes of all children together: their minima where the space falls
/// short of them; the space itself where it lies between the minima and the
/// ideal sizes, or beyond where some child stretches; else the ideal sizes.
pub proof fn lemma_widths_total(s: Seq<SizeRules>, target: int)
    requires
        all_wf(s),
    ensures
        widths_sum(s, target, s.len() as int) == if child_space(s, target) <= sum_min(s) {
            sum_min(s)
        } else if child_space(s, target) <= sum_ideal(s) || stretches(s, target) {
            child_space(s, target)
        } else {
            sum_ideal(s)
        },
{
    if stretches(s, target) {
        if s.len() == 0 {
            assert(max_stretch(s) == StretchPolicy::Fixed);
        }
        lemma_top_counted(s);
    }
    lemma_widths_prefix(s, target, s.len() as int);
    assert(s.take(s.len() as int) == s);
    lemma_seq_sizes(s);
    if stretches(s, target) {
        let excess = child_space(s, target) - sum_ideal(s);
        let kk = count_policy(s, max_stretch(s)) as int;
        lemma_share_bound(excess, kk);
        assert(excess == kk * (excess / kk) + excess % kk) by (nonlinear_arith)
            requires
                kk >= 1,
        ;
        assert((excess / kk) * kk == kk * (excess / kk)) by (nonlinear_arith);
    }
}

/// Sizes already given never shrink as more children are counted.
proof fn lemma_widths_mono(s: Seq<SizeRules>, target: int, k: int, m: int)
    requires
        all_wf(s),
        0 <= k <= m <= s.len(),
    ensures
        0 <= widths_sum(s, target, k) <= widths_sum(s, target, m),
    decreases m,
{
    if k < m {
        lemma_widths_mono(s, target, k, m - 1);
        lemma_share_nonneg(s, target, m - 1);
    } else {
        lemma_widths_nonneg(s, target, k);
    }
}

proof fn lemma_widths_nonneg(s: Seq<SizeRules>, target: int, k: int)
    requires
        all_wf(s),
        0 <= k <= s.len(),
    ensures
        0 <= widths_sum(s, target, k),
    decreases k,
{
    if k > 0 {
        lemma_widths_nonneg(s, target, k - 1);
        lemma_share_nonneg(s, target, k - 1);
    }
}

proof fn lemma_share_nonneg(s: Seq<SizeRules>, target: int, i: int)
    requires
        all_wf(s),
        0 <= i < s.len(),
    ensures
        share_width(s, target, i) >= s[i].min,
{
    let top = max_stretch(s);
    let excess = child_space(s, target) - sum_ideal(s);
    assert(s[i].wf());
    lemma_count_prefix(s, i, top);
    if excess > 0 && top != StretchPolicy::Fixed && s[i].stretch == top {
        lemma_share_bound(excess, count_policy(s, top) as int);
    }
}

/// Every child starts within reach of the row's start: no further than
/// the space offered or the combined size of the row.
pub proof fn lemma_offset_bound(s: Seq<SizeRules>, target: int, k: int)
    requires
        all_wf(s),
        seq_fits(s),
        0 <= target <= u32::MAX,
        0 <= k < s.len(),
    ensures
        0 <= seq_offset(s, target, k),
        seq_offset(s, target, k) + share_width(s, target, k) <= 2 * (u32::MAX as int),
{
    lemma_widths_total(s, target);
    lemma_widths_mono(s, target, k + 1, s.len() as int);
    lemma_widths_mono(s, target, k, k + 1);
    lemma_share_nonneg(s, target, k);
    lemma_prefix_fits(s, k + 1);
    lemma_nonneg(s.take(k + 1));
    lemma_nonneg(s);
    lemma_seq_sizes(s);
}

} // verus!
