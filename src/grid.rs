//! Grids: the rules of the columns (or rows) of a grid, from the rules of
//! its cells.

use vstd::prelude::*;
use crate::size_rules::{
    SizeRules, all_wf, empty_rules, imax, lemma_nonneg, lemma_seq_sizes, lemma_seq_weight, max_rules,
    rule_weight, sum_gaps, sum_ideal, sum_min, sum_weight,
};

verus! {

/// Where a cell lies on one axis: its first line and the number of lines it
/// spans.
#[derive(Clone, Copy, Debug, PartialEq, Eq, Structural)]
pub struct Span {
    pub first: u32,
    pub len: u32,
}

/// The lines `first..first + len` of `lines`, laid out one after the other,
/// with `r` raised where they ask for less than the cell `r`: the last line
/// gets what is missing of the minimum and of the ideal size.
pub open spec fn raise_lines(lines: Seq<SizeRules>, sp: Span, r: SizeRules) -> Seq<SizeRules> {
    let s = lines.subrange(sp.first as int, sp.first + sp.len);
    let last_i = sp.first + sp.len - 1;
    let last = lines[last_i];
    let dm = imax(r.min - (sum_min(s) + sum_gaps(s)), 0);
    let di = imax(r.ideal - (sum_ideal(s) + sum_gaps(s)), 0);
    let new_min = last.min + dm;
    let new_ideal = imax(last.ideal + di, new_min);
    lines.update(last_i, SizeRules { min: new_min as u32, ideal: new_ideal as u32, ..last })
}

/// Whether every span of `spans` covers at least one line, all below `n`.
pub open spec fn spans_ok(spans: Seq<Span>, n: int) -> bool {
    forall|k: int| 0 <= k < spans.len() ==> {
        let sp = #[trigger] spans[k];
        sp.len >= 1 && sp.first + sp.len <= n
    }
}

/// The lines after the cells of span one: each the cells on it laid over
/// one another.
pub open spec fn single_lines(spans: Seq<Span>, rules: Seq<SizeRules>, n: nat) -> Seq<SizeRules>
    decreases spans.len(),
{
    if spans.len() == 0 || rules.len() != spans.len() {
        Seq::new(n, |i: int| empty_rules())
    } else {
        let acc = single_lines(spans.drop_last(), rules.drop_last(), n);
        let sp = spans.last();
        if sp.len == 1 && sp.first < acc.len() {
            acc.update(sp.first as int, max_rules(acc[sp.first as int], rules.last()))
        } else {
            acc
        }
    }
}

/// The wider cells of `spans`, in turn, raising the last line each spans,
/// starting from `base`.
pub open spec fn span_pass(spans: Seq<Span>, rules: Seq<SizeRules>, base: Seq<SizeRules>) -> Seq<SizeRules>
    decreases spans.len(),
{
    if spans.len() == 0 || rules.len() != spans.len() {
        base
    } else {
        let acc = span_pass(spans.drop_last(), rules.drop_last(), base);
        let sp = spans.last();
        if sp.len > 1 && sp.first + sp.len <= acc.len() {
            raise_lines(acc, sp, rules.last())
        } else {
            acc
        }
    }
}

/// The lines of a grid of `n` lines on one axis: first the cells of span
/// one laid over one another on their line, then each wider cell in turn
/// raising the last line it spans.
pub open spec fn grid_lines(spans: Seq<Span>, rules: Seq<SizeRules>, n: nat) -> Seq<SizeRules> {
    span_pass(spans, rules, single_lines(spans, rules, n))
}

/// The sum of the weights of the cells of span one (`wide` false) or of
/// the wider cells (`wide` true).
pub open spec fn cells_weight(spans: Seq<Span>, rules: Seq<SizeRules>, wide: bool) -> int
    decreases spans.len(),
{
    if spans.len() == 0 || rules.len() != spans.len() {
        0
    } else {
        cells_weight(spans.drop_last(), rules.drop_last(), wide) + if (spans.last().len > 1) == wide {
            rule_weight(rules.last())
        } else {
            0
        }
    }
}

proof fn lemma_cells_weight(spans: Seq<Span>, rules: Seq<SizeRules>)
    requires
        spans.len() == rules.len(),
    ensures
        cells_weight(spans, rules, false) + cells_weight(spans, rules, true) == sum_weight(rules),
        cells_weight(spans, rules, false) >= 0,
        cells_weight(spans, rules, true) >= 0,
    decreases spans.len(),
{
    if spans.len() > 0 {
        lemma_cells_weight(spans.drop_last(), rules.drop_last());
    }
}

/// Replacing one rule changes the weight by the difference.
pub proof fn lemma_sum_weight_update(s: Seq<SizeRules>, c: int, x: SizeRules)
    requires
        0 <= c < s.len(),
    ensures
        sum_weight(s.update(c, x)) == sum_weight(s) - rule_weight(s[c]) + rule_weight(x),
    decreases s.len(),
{
    let u = s.update(c, x);
    if c == s.len() - 1 {
        assert(u.drop_last() == s.drop_last());
    } else {
        assert(u.drop_last() == s.drop_last().update(c, x));
        lemma_sum_weight_update(s.drop_last(), c, x);
    }
}

proof fn lemma_sum_weight_concat(x: Seq<SizeRules>, y: Seq<SizeRules>)
    ensures
        sum_weight(x + y) == sum_weight(x) + sum_weight(y),
        sum_weight(y) >= 0,
    decreases y.len(),
{
    if y.len() > 0 {
        assert((x + y).drop_last() == x + y.drop_last());
        assert((x + y).last() == y.last());
        lemma_sum_weight_concat(x, y.drop_last());
    } else {
        assert(x + y == x);
    }
}

/// A run of rules weighs no more than the whole.
pub proof fn lemma_sum_weight_subrange(s: Seq<SizeRules>, a: int, b: int)
    requires
        0 <= a <= b <= s.len(),
    ensures
        sum_weight(s.subrange(a, b)) <= sum_weight(s),
{
    let p = s.take(a);
    let m = s.subrange(a, b);
    let q = s.skip(b);
    assert(s == p + m + q);
    lemma_sum_weight_concat(p + m, q);
    lemma_sum_weight_concat(p, m);
    lemma_sum_weight_concat(Seq::empty(), p);
    assert(Seq::<SizeRules>::empty() + p == p);
}

proof fn lemma_max_rules_weight(a: SizeRules, b: SizeRules)
    ensures
        rule_weight(max_rules(a, b)) <= rule_weight(a) + rule_weight(b),
{
}

proof fn lemma_empty_lines_weight(n: nat)
    ensures
        sum_weight(Seq::new(n, |i: int| empty_rules())) == 0,
        all_wf(Seq::new(n, |i: int| empty_rules())),
    decreases n,
{
    if n > 0 {
        let s = Seq::new(n, |i: int| empty_rules());
        assert(s.drop_last() == Seq::new((n - 1) as nat, |i: int| empty_rules()));
        lemma_empty_lines_weight((n - 1) as nat);
    }
}

/// The lines `lines[first..first + len]`.
fn copy_run(lines: &Vec<SizeRules>, first: usize, len: usize) -> (r: Vec<SizeRules>)
    requires
        first + len <= lines.len(),
    ensures
        r@ == lines@.subrange(first as int, first + len),
{
    let mut r: Vec<SizeRules> = Vec::new();
    let mut k: usize = 0;
    while k < len
        invariant
            k <= len,
            first + len <= lines.len(),
            r@ == lines@.subrange(first as int, first + k),
        decreases len - k,
    {
        r.push(lines[first + k]);
        proof {
            assert(r@ =~= lines@.subrange(first as int, first + k + 1));
        }
        k = k + 1;
    }
    r
}

/// Raises the last line of `sp` where the lines of `sp` ask for less than `r`.
fn raise_run(lines: &mut Vec<SizeRules>, sp: Span, r: SizeRules)
    requires
        all_wf(old(lines)@),
        r.wf(),
        sp.len > 1,
        sp.first + sp.len <= old(lines).len(),
        sum_weight(old(lines)@) + rule_weight(r) <= u32::MAX,
    ensures
        final(lines)@ == raise_lines(old(lines)@, sp, r),
        all_wf(final(lines)@),
        sum_weight(final(lines)@) <= sum_weight(old(lines)@) + rule_weight(r),
{
    let ghost s0 = lines@;
    let first = sp.first as usize;
    let len = sp.len as usize;
    let run = copy_run(lines, first, len);
    proof {
        assert(all_wf(run@)) by {
            assert forall|k: int| 0 <= k < run@.len() implies (#[trigger] run@[k]).wf() by {
                assert(run@[k] == s0[first + k]);
            }
        }
        lemma_seq_weight(run@);
        lemma_sum_weight_subrange(s0, first as int, first + len);
        lemma_nonneg(run@);
        lemma_seq_sizes(run@);
        lemma_nonneg(s0);
    }
    let t = SizeRules::sum(&run);
    let li = first + len - 1;
    let last = lines[li];
    let dm: u64 = if r.min > t.min {
        (r.min - t.min) as u64
    } else {
        0
    };
    let di: u64 = if r.ideal > t.ideal {
        (r.ideal - t.ideal) as u64
    } else {
        0
    };
    let new_min: u64 = last.min as u64 + dm;
    let raised: u64 = last.ideal as u64 + di;
    let new_ideal: u64 = if raised >= new_min {
        raised
    } else {
        new_min
    };
    proof {
        assert(s0[li as int].wf());
        lemma_single_weight_le(s0, li as int);
    }
    let x = SizeRules { min: new_min as u32, ideal: new_ideal as u32, ..last };
    lines.set(li, x);
    proof {
        lemma_sum_weight_update(s0, li as int, x);
        assert forall|k: int| 0 <= k < lines@.len() implies (#[trigger] lines@[k]).wf() by {
            if k != li {
                assert(lines@[k] == s0[k]);
            }
        }
    }
}

/// One rule weighs no more than the sequence it is in.
proof fn lemma_single_weight_le(s: Seq<SizeRules>, i: int)
    requires
        0 <= i < s.len(),
    ensures
        rule_weight(s[i]) <= sum_weight(s),
{
    lemma_sum_weight_subrange(s, i, i + 1);
    let t = s.subrange(i, i + 1);
    assert(t.drop_last().len() == 0);
    assert(sum_weight(t.drop_last()) == 0);
    assert(t.last() == s[i]);
    assert(sum_weight(t) == rule_weight(s[i]));
}

/// The rules of the `n` lines of a grid on one axis, from the spans and the
/// rules of its cells.
pub fn grid_lines_of(spans: &Vec<Span>, rules: &Vec<SizeRules>, n: usize) -> (lines: Vec<SizeRules>)
    requires
        spans.len() == rules.len(),
        all_wf(rules@),
        spans_ok(spans@, n as int),
        sum_weight(rules@) <= u32::MAX,
    ensures
        lines@ == grid_lines(spans@, rules@, n as nat),
        lines.len() == n,
        all_wf(lines@),
        sum_weight(lines@) <= sum_weight(rules@),
{
    let mut lines: Vec<SizeRules> = Vec::new();
    while lines.len() < n
        invariant
            lines.len() <= n,
            lines@ == Seq::new(lines.len() as nat, |i: int| empty_rules()),
        decreases n - lines.len(),
    {
        lines.push(SizeRules::empty());
        proof {
            assert(lines@ =~= Seq::new(lines.len() as nat, |i: int| empty_rules()));
        }
    }
    proof {
        lemma_empty_lines_weight(n as nat);
        lemma_cells_weight(spans@, rules@);
        assert(spans@.take(0) =~= Seq::<Span>::empty());
        assert(rules@.take(0) =~= Seq::<SizeRules>::empty());
    }
    let mut k: usize = 0;
    while k < spans.len()
        invariant
            k <= spans.len(),
            spans.len() == rules.len(),
            all_wf(rules@),
            spans_ok(spans@, n as int),
            lines.len() == n,
            lines@ == single_lines(spans@.take(k as int), rules@.take(k as int), n as nat),
            all_wf(lines@),
            sum_weight(lines@) <= cells_weight(spans@.take(k as int), rules@.take(k as int), false),
        decreases spans.len() - k,
    {
        proof {
            assert(spans@.take(k as int + 1).drop_last() == spans@.take(k as int));
            assert(rules@.take(k as int + 1).drop_last() == rules@.take(k as int));
            assert(spans@.take(k as int + 1).last() == spans@[k as int]);
            assert(rules@.take(k as int + 1).last() == rules@[k as int]);
            assert(rules@[k as int].wf());
            let sp = spans@[k as int];
            assert(sp.len >= 1 && sp.first + sp.len <= n);
        }
        let sp = spans[k];
        if sp.len == 1 {
            let f = sp.first as usize;
            let mut x = lines[f];
            proof {
                assert(x.wf());
                lemma_max_rules_weight(x, rules@[k as int]);
                lemma_sum_weight_update(lines@, f as int, max_rules(x, rules@[k as int]));
            }
            x.max_with(rules[k]);
            let ghost before = lines@;
            lines.set(f, x);
            proof {
                assert forall|j: int| 0 <= j < lines@.len() implies (#[trigger] lines@[j]).wf() by {
                    if j != f {
                        assert(lines@[j] == before[j]);
                    }
                }
            }
        }
        k = k + 1;
    }
    proof {
        assert(spans@.take(k as int) == spans@);
        assert(rules@.take(k as int) == rules@);
    }
    let ghost base = lines@;
    let mut k: usize = 0;
    while k < spans.len()
        invariant
            k <= spans.len(),
            spans.len() == rules.len(),
            all_wf(rules@),
            spans_ok(spans@, n as int),
            lines.len() == n,
            base == single_lines(spans@, rules@, n as nat),
            lines@ == span_pass(spans@.take(k as int), rules@.take(k as int), base),
            all_wf(lines@),
            sum_weight(lines@) <= cells_weight(spans@, rules@, false) + cells_weight(spans@.take(k as int), rules@.take(k as int), true),
            cells_weight(spans@, rules@, false) + cells_weight(spans@, rules@, true) == sum_weight(rules@),
            sum_weight(rules@) <= u32::MAX,
        decreases spans.len() - k,
    {
        proof {
            assert(spans@.take(k as int + 1).drop_last() == spans@.take(k as int));
            assert(rules@.take(k as int + 1).drop_last() == rules@.take(k as int));
            assert(spans@.take(k as int + 1).last() == spans@[k as int]);
            assert(rules@.take(k as int + 1).last() == rules@[k as int]);
            assert(rules@[k as int].wf());
            let sp = spans@[k as int];
            assert(sp.len >= 1 && sp.first + sp.len <= n);
            lemma_cells_prefix(spans@, rules@, k as int + 1);
        }
        let sp = spans[k];
        if sp.len > 1 {
            raise_run(&mut lines, sp, rules[k]);
        }
        k = k + 1;
    }
    proof {
        assert(spans@.take(k as int) == spans@);
        assert(rules@.take(k as int) == rules@);
    }
    lines
}

/// The weight of the wider cells among the first `k` is no more than among all.
proof fn lemma_cells_prefix(spans: Seq<Span>, rules: Seq<SizeRules>, k: int)
    requires
        spans.len() == rules.len(),
        0 <= k <= spans.len(),
    ensures
        cells_weight(spans.take(k), rules.take(k), true) <= cells_weight(spans, rules, true),
    decreases spans.len(),
{
    if k < spans.len() {
        let s1 = spans.drop_last();
        let r1 = rules.drop_last();
        assert(s1.take(k) == spans.take(k));
        assert(r1.take(k) == rules.take(k));
        lemma_cells_prefix(s1, r1, k);
        lemma_cells_weight(s1, r1);
    } else {
        assert(spans.take(k) == spans);
        assert(rules.take(k) == rules);
    }
}

} // verus!
