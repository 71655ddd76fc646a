//! Size rules: what a widget asks for along one axis, and how containers
//! combine the rules of their children.

use vstd::prelude::*;

verus! {

/// How a widget takes space beyond its ideal size; a higher policy takes the
/// excess before a lower one receives more than its ideal.
#[derive(Clone, Copy, Debug, PartialEq, Eq, Structural)]
pub enum StretchPolicy {
    /// Never grows past its ideal size.
    Fixed,
    /// May grow, but gains little from it.
    LowUtility,
    /// Gains from extra space.
    HighUtility,
    /// Fills whatever space is left.
    Filler,
}

/// The position of a policy in the order `Fixed < LowUtility < HighUtility < Filler`.
pub open spec fn stretch_rank(p: StretchPolicy) -> nat {
    match p {
        StretchPolicy::Fixed => 0,
        StretchPolicy::LowUtility => 1,
        StretchPolicy::HighUtility => 2,
        StretchPolicy::Filler => 3,
    }
}

/// The higher of two policies.
pub open spec fn stretch_max(p: StretchPolicy, q: StretchPolicy) -> StretchPolicy {
    if stretch_rank(p) >= stretch_rank(q) {
        p
    } else {
        q
    }
}

/// The larger of two integers.
pub open spec fn imax(a: int, b: int) -> int {
    if a >= b {
        a
    } else {
        b
    }
}

impl StretchPolicy {
    /// The position of this policy in the order of policies.
    pub fn rank(self) -> (r: u8)
        ensures
            r as nat == stretch_rank(self),
    {
        match self {
            StretchPolicy::Fixed => 0,
            StretchPolicy::LowUtility => 1,
            StretchPolicy::HighUtility => 2,
            StretchPolicy::Filler => 3,
        }
    }

    /// The higher of `self` and `other`.
    pub fn max(self, other: StretchPolicy) -> (r: StretchPolicy)
        ensures
            r == stretch_max(self, other),
    {
        if self.rank() >= other.rank() {
            self
        } else {
            other
        }
    }
}

/// The space a widget wants before (`.0`) and after (`.1`) itself along one axis.
#[derive(Clone, Copy, Debug, PartialEq, Eq, Structural)]
pub struct Margins(pub u32, pub u32);

/// The size preference of a widget along one axis.
///
/// `margins` is the space wanted before and after the widget; between two
/// neighbours the larger of the two facing margins is kept.
#[derive(Clone, Copy, Debug, PartialEq, Eq, Structural)]
pub struct SizeRules {
    pub min: u32,
    pub ideal: u32,
    pub margins: Margins,
    pub stretch: StretchPolicy,
}

impl SizeRules {
    /// A rule never asks for less than its minimum as its ideal.
    pub open spec fn wf(&self) -> bool {
        self.min <= self.ideal
    }
}

/// The margin kept between two neighbours `a` and `b`, `a` first.
pub open spec fn gap(a: SizeRules, b: SizeRules) -> int {
    imax(a.margins.1 as int, b.margins.0 as int)
}

/// Whether every rule of `s` is well formed.
pub open spec fn all_wf(s: Seq<SizeRules>) -> bool {
    forall|i: int| 0 <= i < s.len() ==> (#[trigger] s[i]).wf()
}

/// The sum of the minima of `s`.
pub open spec fn sum_min(s: Seq<SizeRules>) -> int
    decreases s.len(),
{
    if s.len() == 0 {
        0
    } else {
        sum_min(s.drop_last()) + s.last().min
    }
}

/// The sum of the ideal sizes of `s`.
pub open spec fn sum_ideal(s: Seq<SizeRules>) -> int
    decreases s.len(),
{
    if s.len() == 0 {
        0
    } else {
        sum_ideal(s.drop_last()) + s.last().ideal
    }
}

/// The sum of the margins kept between neighbours of `s`.
pub open spec fn sum_gaps(s: Seq<SizeRules>) -> int
    decreases s.len(),
{
    if s.len() <= 1 {
        0
    } else {
        sum_gaps(s.drop_last()) + gap(s[s.len() - 2], s.last())
    }
}

/// The highest policy of `s`; `Fixed` when `s` is empty.
pub open spec fn max_stretch(s: Seq<SizeRules>) -> StretchPolicy
    decreases s.len(),
{
    if s.len() == 0 {
        StretchPolicy::Fixed
    } else {
        stretch_max(max_stretch(s.drop_last()), s.last().stretch)
    }
}

/// The largest minimum of `s`; 0 when `s` is empty.
pub open spec fn max_min(s: Seq<SizeRules>) -> int
    decreases s.len(),
{
    if s.len() == 0 {
        0
    } else {
        imax(max_min(s.drop_last()), s.last().min as int)
    }
}

/// The largest ideal size of `s`; 0 when `s` is empty.
pub open spec fn max_ideal(s: Seq<SizeRules>) -> int
    decreases s.len(),
{
    if s.len() == 0 {
        0
    } else {
        imax(max_ideal(s.drop_last()), s.last().ideal as int)
    }
}

/// The largest leading margin of `s`; 0 when `s` is empty.
pub open spec fn max_front(s: Seq<SizeRules>) -> int
    decreases s.len(),
{
    if s.len() == 0 {
        0
    } else {
        imax(max_front(s.drop_last()), s.last().margins.0 as int)
    }
}

/// The largest trailing margin of `s`; 0 when `s` is empty.
pub open spec fn max_back(s: Seq<SizeRules>) -> int
    decreases s.len(),
{
    if s.len() == 0 {
        0
    } else {
        imax(max_back(s.drop_last()), s.last().margins.1 as int)
    }
}

/// Whether the rules of `s`, laid out one after the other, fit in `u32`.
pub open spec fn seq_fits(s: Seq<SizeRules>) -> bool {
    sum_ideal(s) + sum_gaps(s) <= u32::MAX
}

/// The rule with nothing in it.
pub open spec fn empty_rules() -> SizeRules {
    SizeRules { min: 0, ideal: 0, margins: Margins(0, 0), stretch: StretchPolicy::Fixed }
}

/// The rule of the children `s` laid out one after the other: minima and
/// ideal sizes add up with the margins between neighbours, the outer margins
/// are those of the first and the last child, and the policy is the highest.
pub open spec fn seq_rules(s: Seq<SizeRules>) -> SizeRules {
    if s.len() == 0 {
        empty_rules()
    } else {
        SizeRules {
            min: (sum_min(s) + sum_gaps(s)) as u32,
            ideal: (sum_ideal(s) + sum_gaps(s)) as u32,
            margins: Margins(s[0].margins.0, s.last().margins.1),
            stretch: max_stretch(s),
        }
    }
}

/// The rule of the children `s` laid over one another: each quantity is the
/// largest among the children.
pub open spec fn par_rules(s: Seq<SizeRules>) -> SizeRules {
    SizeRules {
        min: max_min(s) as u32,
        ideal: max_ideal(s) as u32,
        margins: Margins(max_front(s) as u32, max_back(s) as u32),
        stretch: max_stretch(s),
    }
}

/// `content` inside `frame`: the frame's sizes add to the content's; the
/// policy is the content's, or the higher of both where `expand` is set.
pub open spec fn surround_rules(content: SizeRules, frame: SizeRules, expand: bool) -> SizeRules {
    SizeRules {
        min: (content.min + frame.min) as u32,
        ideal: (content.ideal + frame.ideal) as u32,
        margins: frame.margins,
        stretch: if expand {
            stretch_max(content.stretch, frame.stretch)
        } else {
            content.stretch
        },
    }
}

/// `b` placed after `a`: sizes add up with the margin between them.
pub open spec fn append_rules(a: SizeRules, b: SizeRules) -> SizeRules {
    SizeRules {
        min: (a.min + gap(a, b) + b.min) as u32,
        ideal: (a.ideal + gap(a, b) + b.ideal) as u32,
        margins: Margins(a.margins.0, b.margins.1),
        stretch: stretch_max(a.stretch, b.stretch),
    }
}

/// `a` and `b` laid over one another: each quantity is the larger of the two.
pub open spec fn max_rules(a: SizeRules, b: SizeRules) -> SizeRules {
    SizeRules {
        min: imax(a.min as int, b.min as int) as u32,
        ideal: imax(a.ideal as int, b.ideal as int) as u32,
        margins: Margins(
            imax(a.margins.0 as int, b.margins.0 as int) as u32,
            imax(a.margins.1 as int, b.margins.1 as int) as u32,
        ),
        stretch: stretch_max(a.stretch, b.stretch),
    }
}

fn max_u32(a: u32, b: u32) -> (r: u32)
    ensures
        r == imax(a as int, b as int),
{
    if a >= b {
        a
    } else {
        b
    }
}

impl SizeRules {
    /// A rule with the given minimum and ideal size; an ideal below the
    /// minimum is raised to the minimum.
    pub fn new(min: u32, ideal: u32, margins: Margins, stretch: StretchPolicy) -> (r: SizeRules)
        ensures
            r.min == min,
            r.ideal == imax(min as int, ideal as int),
            r.margins == margins,
            r.stretch == stretch,
            r.wf(),
    {
        SizeRules { min, ideal: max_u32(min, ideal), margins, stretch }
    }

    /// A rule that asks for exactly `size` and never stretches.
    pub fn fixed(size: u32, margins: Margins) -> (r: SizeRules)
        ensures
            r == (SizeRules { min: size, ideal: size, margins, stretch: StretchPolicy::Fixed }),
            r.wf(),
    {
        SizeRules { min: size, ideal: size, margins, stretch: StretchPolicy::Fixed }
    }

    /// The rule of an empty container.
    pub fn empty() -> (r: SizeRules)
        ensures
            r == empty_rules(),
            r.wf(),
    {
        SizeRules { min: 0, ideal: 0, margins: Margins(0, 0), stretch: StretchPolicy::Fixed }
    }

    pub fn min_size(&self) -> (r: u32)
        ensures
            r == self.min,
    {
        self.min
    }

    pub fn ideal_size(&self) -> (r: u32)
        ensures
            r == self.ideal,
    {
        self.ideal
    }

    pub fn margins(&self) -> (r: Margins)
        ensures
            r == self.margins,
    {
        self.margins
    }

    pub fn stretch(&self) -> (r: StretchPolicy)
        ensures
            r == self.stretch,
    {
        self.stretch
    }

    /// Places `rhs` after `self` along the axis.
    pub fn append(&mut self, rhs: SizeRules)
        requires
            old(self).ideal + gap(*old(self), rhs) + rhs.ideal <= u32::MAX,
            old(self).wf(),
            rhs.wf(),
        ensures
            *final(self) == append_rules(*old(self), rhs),
            final(self).wf(),
    {
        let c = max_u32(self.margins.1, rhs.margins.0);
        self.min = self.min + c + rhs.min;
        self.ideal = self.ideal + c + rhs.ideal;
        self.margins.1 = rhs.margins.1;
        self.stretch = self.stretch.max(rhs.stretch);
    }

    /// Lays `rhs` over `self`: each quantity becomes the larger of the two.
    pub fn max_with(&mut self, rhs: SizeRules)
        requires
            old(self).wf(),
            rhs.wf(),
        ensures
            *final(self) == max_rules(*old(self), rhs),
            final(self).wf(),
    {
        self.min = max_u32(self.min, rhs.min);
        self.ideal = max_u32(self.ideal, rhs.ideal);
        self.margins.0 = max_u32(self.margins.0, rhs.margins.0);
        self.margins.1 = max_u32(self.margins.1, rhs.margins.1);
        self.stretch = self.stretch.max(rhs.stretch);
    }

    /// This rule inside `frame` (a border, say): the frame's sizes add to
    /// this rule's, and the policy grows to the frame's only where `expand`
    /// is set.
    pub fn surrounded_by(&self, frame: SizeRules, expand: bool) -> (r: SizeRules)
        requires
            self.wf(),
            frame.wf(),
            self.ideal + frame.ideal <= u32::MAX,
        ensures
            r == surround_rules(*self, frame, expand),
            r.wf(),
    {
        let stretch = if expand {
            self.stretch.max(frame.stretch)
        } else {
            self.stretch
        };
        SizeRules {
            min: self.min + frame.min,
            ideal: self.ideal + frame.ideal,
            margins: frame.margins,
            stretch,
        }
    }

    /// The rule of `rules` laid out one after the other.
    pub fn sum(rules: &Vec<SizeRules>) -> (r: SizeRules)
        requires
            all_wf(rules@),
            seq_fits(rules@),
        ensures
            r == seq_rules(rules@),
            r.wf(),
            r.min == sum_min(rules@) + sum_gaps(rules@),
            r.ideal == sum_ideal(rules@) + sum_gaps(rules@),
    {
        if rules.len() == 0 {
            return SizeRules::empty();
        }
        let mut acc = rules[0];
        let mut i: usize = 1;
        proof {
            lemma_prefix_fits(rules@, 1);
            lemma_seq_rules_step(rules@, 1);
        }
        while i < rules.len()
            invariant
                1 <= i <= rules.len(),
                all_wf(rules@),
                seq_fits(rules@),
                acc == seq_rules(rules@.take(i as int)),
                acc.wf(),
            decreases rules.len() - i,
        {
            proof {
                lemma_prefix_fits(rules@, i as int + 1);
                lemma_seq_rules_step(rules@, i as int + 1);
            }
            acc.append(rules[i]);
            i = i + 1;
        }
        proof {
            assert(rules@.take(rules.len() as int) == rules@);
            lemma_seq_sizes(rules@);
        }
        acc
    }

    /// The rule of `rules` laid over one another.
    pub fn max_of(rules: &Vec<SizeRules>) -> (r: SizeRules)
        requires
            all_wf(rules@),
        ensures
            r == par_rules(rules@),
            r.wf(),
    {
        let mut acc = SizeRules::empty();
        let mut i: usize = 0;
        while i < rules.len()
            invariant
                0 <= i <= rules.len(),
                all_wf(rules@),
                acc == par_rules(rules@.take(i as int)),
                acc.wf(),
            decreases rules.len() - i,
        {
            proof {
                lemma_par_rules_step(rules@, i as int + 1);
            }
            acc.max_with(rules[i]);
            i = i + 1;
        }
        proof {
            assert(rules@.take(rules.len() as int) == rules@);
        }
        acc
    }
}

/// Minima never exceed ideal sizes, in a sum or in a maximum.
pub proof fn lemma_seq_sizes(s: Seq<SizeRules>)
    requires
        all_wf(s),
    ensures
        sum_min(s) <= sum_ideal(s),
        max_min(s) <= max_ideal(s),
        0 <= sum_min(s),
        0 <= sum_gaps(s),
        0 <= max_min(s),
    decreases s.len(),
{
    if s.len() > 0 {
        let t = s.drop_last();
        assert(all_wf(t)) by {
            assert forall|i: int| 0 <= i < t.len() implies (#[trigger] t[i]).wf() by {
                assert(t[i] == s[i]);
            }
        }
        assert(s.last().wf());
        lemma_seq_sizes(t);
    }
}

/// A prefix of rules that fit in `u32` fits too.
pub proof fn lemma_prefix_fits(s: Seq<SizeRules>, n: int)
    requires
        0 <= n <= s.len(),
        seq_fits(s),
    ensures
        seq_fits(s.take(n)),
        sum_ideal(s.take(n)) + sum_gaps(s.take(n)) <= sum_ideal(s) + sum_gaps(s),
    decreases s.len(),
{
    if n < s.len() {
        let t = s.drop_last();
        assert(t.take(n) == s.take(n));
        lemma_nonneg(s);
        lemma_nonneg(t);
        assert(seq_fits(t));
        lemma_prefix_fits(t, n);
    } else {
        assert(s.take(n) == s);
    }
}

/// Sums over rules are never negative, and never shrink as rules are added.
pub proof fn lemma_nonneg(s: Seq<SizeRules>)
    ensures
        sum_ideal(s) >= 0,
        sum_gaps(s) >= 0,
        sum_min(s) >= 0,
        s.len() > 0 ==> sum_ideal(s) >= sum_ideal(s.drop_last()),
        s.len() > 1 ==> sum_gaps(s) >= sum_gaps(s.drop_last()),
    decreases s.len(),
{
    if s.len() > 0 {
        lemma_nonneg(s.drop_last());
    }
}

/// One more child appended to a prefix of `s`.
proof fn lemma_seq_rules_step(s: Seq<SizeRules>, n: int)
    requires
        1 <= n <= s.len(),
        all_wf(s),
        seq_fits(s.take(n)),
    ensures
        n == 1 ==> seq_rules(s.take(n)) == s[0],
        n > 1 ==> seq_rules(s.take(n)) == append_rules(seq_rules(s.take(n - 1)), s[n - 1]),
        n > 1 ==> seq_rules(s.take(n - 1)).ideal + gap(seq_rules(s.take(n - 1)), s[n - 1])
            + s[n - 1].ideal <= u32::MAX,
{
    let p = s.take(n);
    let q = s.take(n - 1);
    assert(p.drop_last() == q);
    assert(all_wf(p));
    assert(all_wf(q));
    lemma_seq_sizes(p);
    lemma_seq_sizes(q);
    lemma_nonneg(p);
    lemma_nonneg(q);
    if n == 1 {
        assert(p.last() == s[0]);
        assert(q.len() == 0);
        assert(stretch_max(StretchPolicy::Fixed, s[0].stretch) == s[0].stretch);
    } else {
        assert(q[q.len() - 1] == p[p.len() - 2]);
        assert(q[0] == p[0]);
        assert(q.last() == s[n - 2]);
        assert(p.last() == s[n - 1]);
    }
}

/// The maxima of rules that are `u32` stay in the range of `u32`.
pub proof fn lemma_max_bounds(s: Seq<SizeRules>)
    ensures
        0 <= max_min(s) <= u32::MAX,
        0 <= max_ideal(s) <= u32::MAX,
        0 <= max_front(s) <= u32::MAX,
        0 <= max_back(s) <= u32::MAX,
    decreases s.len(),
{
    if s.len() > 0 {
        lemma_max_bounds(s.drop_last());
    }
}

/// One more child laid over a prefix of `s`.
proof fn lemma_par_rules_step(s: Seq<SizeRules>, n: int)
    requires
        1 <= n <= s.len(),
    ensures
        par_rules(s.take(n)) == max_rules(par_rules(s.take(n - 1)), s[n - 1]),
{
    let p = s.take(n);
    let q = s.take(n - 1);
    assert(p.drop_last() == q);
    lemma_max_bounds(q);
}

/// Whether no two neighbours of `s` keep a margin between them.
pub open spec fn no_gaps(s: Seq<SizeRules>) -> bool {
    forall|i: int| 0 <= i < s.len() ==> (#[trigger] s[i]).margins == Margins(0, 0)
}

/// Combining rules keeps minima below ideals. Laid over one another, the
/// children give a minimum no smaller than any child's minimum; laid one
/// after the other, a minimum equal to the sum of the children's minima plus
/// the margins between neighbours, so exactly that sum where no child has
/// margins.
pub proof fn lemma_combined_rules(s: Seq<SizeRules>)
    requires
        all_wf(s),
        seq_fits(s),
    ensures
        seq_rules(s).min <= seq_rules(s).ideal,
        par_rules(s).min <= par_rules(s).ideal,
        forall|i: int| 0 <= i < s.len() ==> par_rules(s).min >= (#[trigger] s[i]).min,
        seq_rules(s).min == sum_min(s) + sum_gaps(s),
        no_gaps(s) ==> seq_rules(s).min == sum_min(s),
{
    lemma_seq_sizes(s);
    lemma_max_bounds(s);
    lemma_nonneg(s);
    assert forall|i: int| 0 <= i < s.len() implies par_rules(s).min >= (#[trigger] s[i]).min by {
        lemma_max_min_ge(s, i);
    }
    if no_gaps(s) {
        lemma_no_gaps(s);
    }
}

proof fn lemma_max_min_ge(s: Seq<SizeRules>, i: int)
    requires
        0 <= i < s.len(),
    ensures
        max_min(s) >= s[i].min,
    decreases s.len(),
{
    if i < s.len() - 1 {
        assert(s.drop_last()[i] == s[i]);
        lemma_max_min_ge(s.drop_last(), i);
    }
}

proof fn lemma_no_gaps(s: Seq<SizeRules>)
    requires
        no_gaps(s),
    ensures
        sum_gaps(s) == 0,
    decreases s.len(),
{
    if s.len() > 1 {
        let t = s.drop_last();
        assert(no_gaps(t)) by {
            assert forall|i: int| 0 <= i < t.len() implies (#[trigger] t[i]).margins == Margins(0, 0) by {
                assert(t[i] == s[i]);
            }
        }
        assert(s[s.len() - 2].margins == Margins(0, 0));
        assert(s[s.len() - 1].margins == Margins(0, 0));
        lemma_no_gaps(t);
    }
}

/// The most that a rule can add to a combined size: its ideal size and
/// both its margins.
pub open spec fn rule_weight(r: SizeRules) -> int {
    r.ideal + r.margins.0 + r.margins.1
}

/// The sum of the weights of the rules of `s`.
pub open spec fn sum_weight(s: Seq<SizeRules>) -> int
    decreases s.len(),
{
    if s.len() == 0 {
        0
    } else {
        sum_weight(s.drop_last()) + rule_weight(s.last())
    }
}

/// Weights add up the same from the front.
pub proof fn lemma_sum_weight_cons(x: SizeRules, t: Seq<SizeRules>)
    ensures
        sum_weight(seq![x] + t) == rule_weight(x) + sum_weight(t),
    decreases t.len(),
{
    let s = seq![x] + t;
    if t.len() > 0 {
        assert(s.drop_last() =~= seq![x] + t.drop_last());
        assert(s.last() == t.last());
        lemma_sum_weight_cons(x, t.drop_last());
    } else {
        assert(s.drop_last() =~= Seq::<SizeRules>::empty());
        assert(s.last() == x);
        assert(sum_weight(s.drop_last()) == 0);
    }
}

/// Weights add up the same in reverse order.
pub proof fn lemma_sum_weight_reverse(s: Seq<SizeRules>)
    ensures
        sum_weight(s.reverse()) == sum_weight(s),
    decreases s.len(),
{
    if s.len() > 0 {
        let t = s.drop_last();
        assert(s.reverse() =~= seq![s.last()] + t.reverse());
        lemma_sum_weight_cons(s.last(), t.reverse());
        lemma_sum_weight_reverse(t);
    }
}

/// Laid one after the other, rules take no more than their weights: the
/// sizes with the margins between neighbours and the outer margins.
pub proof fn lemma_seq_weight(s: Seq<SizeRules>)
    ensures
        s.len() > 0 ==> sum_ideal(s) + sum_gaps(s) + s[0].margins.0 + s.last().margins.1 <= sum_weight(s),
        sum_ideal(s) + sum_gaps(s) <= sum_weight(s),
    decreases s.len(),
{
    lemma_nonneg(s);
    if s.len() > 1 {
        let t = s.drop_last();
        assert(t[0] == s[0]);
        assert(t.last() == s[s.len() - 2]);
        lemma_seq_weight(t);
        assert(sum_gaps(s) == sum_gaps(t) + gap(t.last(), s.last()));
        assert(gap(t.last(), s.last()) <= t.last().margins.1 + s.last().margins.0);
        assert(sum_ideal(s) == sum_ideal(t) + s.last().ideal);
        assert(sum_weight(s) == sum_weight(t) + rule_weight(s.last()));
    } else if s.len() == 1 {
        let t = s.drop_last();
        assert(t.len() == 0);
        assert(sum_gaps(s) == 0);
        assert(sum_ideal(s) == sum_ideal(t) + s.last().ideal);
        assert(sum_weight(s) == sum_weight(t) + rule_weight(s.last()));
        assert(s[0] == s.last());
    }
}

/// Laid over one another, rules take no more than their weights.
pub proof fn lemma_par_weight(s: Seq<SizeRules>)
    ensures
        max_ideal(s) + max_front(s) + max_back(s) <= sum_weight(s),
    decreases s.len(),
{
    if s.len() > 0 {
        lemma_par_weight(s.drop_last());
        lemma_max_bounds(s.drop_last());
    }
}

} // verus!
