use vstd::prelude::*;

use crate::errors::Error;
use crate::path::Path;
use crate::consts::SMALL_FILE_UPPER_BOUND;
use crate::unit::{all_small, is_hidden, files_len, lemma_files_len_append, File, Files, Unit};

verus! {

/// Total length of a sequence of units.
pub open spec fn units_len(units: Seq<Unit>) -> int
    decreases units.len(),
{
    if units.len() == 0 {
        0
    } else {
        units_len(units.drop_last()) + units.last().len
    }
}

pub proof fn lemma_units_len_nonneg(s: Seq<Unit>)
    ensures
        units_len(s) >= 0,
    decreases s.len(),
{
    if s.len() > 0 {
        lemma_units_len_nonneg(s.drop_last());
    }
}

pub proof fn lemma_units_len_update(s: Seq<Unit>, i: int, u: Unit)
    requires
        0 <= i < s.len(),
    ensures
        units_len(s.update(i, u)) == units_len(s) - s[i].len + u.len,
    decreases s.len(),
{
    if i == s.len() - 1 {
        assert(s.update(i, u).drop_last() =~= s.drop_last());
    } else {
        assert(s.update(i, u).drop_last() =~= s.drop_last().update(i, u));
        lemma_units_len_update(s.drop_last(), i, u);
    }
}

pub proof fn lemma_units_len_insert(s: Seq<Unit>, i: int, u: Unit)
    requires
        0 <= i <= s.len(),
    ensures
        units_len(s.insert(i, u)) == units_len(s) + u.len,
    decreases s.len(),
{
    if i == s.len() {
        assert(s.insert(i, u).drop_last() =~= s);
    } else {
        assert(s.insert(i, u).drop_last() =~= s.drop_last().insert(i, u));
        lemma_units_len_insert(s.drop_last(), i, u);
    }
}

pub proof fn lemma_units_len_remove(s: Seq<Unit>, i: int)
    requires
        0 <= i < s.len(),
    ensures
        units_len(s.remove(i)) == units_len(s) - s[i].len,
{
    lemma_units_len_insert(s.remove(i), i, s[i]);
    assert(s.remove(i).insert(i, s[i]) =~= s);
}

/// Every unit after the first names an earlier unit as its parent, and the
/// first unit is its own parent: the shape a depth-first scan produces.
pub open spec fn tree_wf(units: Seq<Unit>) -> bool {
    &&& units.len() > 0 ==> units[0].parent == 0
    &&& forall|i: int| 0 < i < units.len() ==> (#[trigger] units[i]).parent < i
}

/// Where the walk from unit `a` towards the root stops: at the root, or at
/// the first unit that is not small.
pub open spec fn merge_target(units: Seq<Unit>, a: int) -> int
    decreases a,
{
    if a <= 0 || a >= units.len() || !units[a].small() || units[a].parent >= a {
        a
    } else {
        merge_target(units, units[a].parent as int)
    }
}

/// The merge plan over the first `n` units: each small unit paired with the
/// unit it folds into, when that is another unit.
pub open spec fn plan_upto(units: Seq<Unit>, n: int) -> Seq<(usize, usize)>
    decreases n,
{
    if n <= 0 {
        Seq::empty()
    } else {
        let i = n - 1;
        let t = merge_target(units, units[i].parent as int);
        if units[i].small() && t != i {
            plan_upto(units, i).push((i as usize, t as usize))
        } else {
            plan_upto(units, i)
        }
    }
}

/// A plan that `execute_merges` can carry out over `n` units: indices in
/// range, no unit merged into itself, sources in increasing order, and no
/// source that also receives files.
pub open spec fn plan_ok(plan: Seq<(usize, usize)>, n: int) -> bool {
    &&& forall|k: int|
        0 <= k < plan.len() ==> (#[trigger] plan[k]).0 < n && plan[k].1 < n && plan[k].0
            != plan[k].1
    &&& forall|k: int, l: int| 0 <= k < l < plan.len() ==> (#[trigger] plan[k]).0 < (#[trigger] plan[l]).0
    &&& forall|k: int, l: int|
        0 <= k < plan.len() && 0 <= l < plan.len() ==> (#[trigger] plan[k]).0 != (#[trigger] plan[l]).1
}

/// Whether unit `j` is merged away by one of the first `k` steps of `plan`.
pub open spec fn is_source(plan: Seq<(usize, usize)>, k: int, j: int) -> bool {
    exists|t: int| 0 <= t < k && (#[trigger] plan[t]).0 == j
}

/// The files that the first `k` steps of `plan` move into unit `j`, in order.
pub open spec fn incoming(units: Seq<Unit>, plan: Seq<(usize, usize)>, k: int, j: int) -> Seq<File>
    decreases k,
{
    if k <= 0 {
        Seq::empty()
    } else {
        let rest = incoming(units, plan, k - 1, j);
        if plan[k - 1].1 == j {
            rest + units[plan[k - 1].0 as int].files.0@
        } else {
            rest
        }
    }
}

/// The indices below `n` of the units that `plan` keeps, in order.
pub open spec fn kept(plan: Seq<(usize, usize)>, n: int) -> Seq<int>
    decreases n,
{
    if n <= 0 {
        Seq::empty()
    } else if is_source(plan, plan.len() as int, n - 1) {
        kept(plan, n - 1)
    } else {
        kept(plan, n - 1).push(n - 1)
    }
}

pub proof fn lemma_kept_bounds(plan: Seq<(usize, usize)>, n: int)
    ensures
        forall|t: int| 0 <= t < kept(plan, n).len() ==> 0 <= #[trigger] kept(plan, n)[t] < n,
        forall|t: int|
            0 <= t < kept(plan, n).len() ==> !is_source(plan, plan.len() as int, #[trigger] kept(plan, n)[t]),
        forall|s: int, t: int|
            0 <= s < t < kept(plan, n).len() ==> #[trigger] kept(plan, n)[s] < #[trigger] kept(plan, n)[t],
    decreases n,
{
    if n > 0 {
        lemma_kept_bounds(plan, n - 1);
        let prev = kept(plan, n - 1);
        if !is_source(plan, plan.len() as int, n - 1) {
            assert(kept(plan, n) == prev.push(n - 1));
            assert forall|t: int| 0 <= t < kept(plan, n).len() implies 0 <= #[trigger] kept(
                plan,
                n,
            )[t] < n && !is_source(plan, plan.len() as int, kept(plan, n)[t]) by {
                if t < prev.len() {
                    assert(kept(plan, n)[t] == prev[t]);
                }
            }
            assert forall|s: int, t: int| 0 <= s < t < kept(plan, n).len() implies #[trigger] kept(
                plan,
                n,
            )[s] < #[trigger] kept(plan, n)[t] by {
                assert(kept(plan, n)[s] == prev[s]);
                if t < prev.len() {
                    assert(kept(plan, n)[t] == prev[t]);
                }
            }
        }
    }
}

/// The files of a sequence of units, unit after unit.
pub open spec fn all_files(units: Seq<Unit>) -> Seq<File>
    decreases units.len(),
{
    if units.len() == 0 {
        Seq::empty()
    } else {
        units[0].files.0@ + all_files(units.drop_first())
    }
}

/// What `execute_merges` leaves of `before` under `plan`: the units that are
/// not merged away, in order, each with the files merged into it appended.
pub open spec fn merged(before: Seq<Unit>, plan: Seq<(usize, usize)>, after: Seq<Unit>) -> bool {
    let keep = kept(plan, before.len() as int);
    &&& after.len() == keep.len()
    &&& forall|t: int|
        0 <= t < after.len() ==> {
            let j = #[trigger] keep[t];
            &&& after[t].parent == before[j].parent
            &&& after[t].path == before[j].path
            &&& after[t].files.0@ == before[j].files.0@ + incoming(
                before,
                plan,
                plan.len() as int,
                j,
            )
        }
}

pub proof fn lemma_units_len_two(s: Seq<Unit>, i: int, j: int)
    requires
        0 <= i < s.len(),
        0 <= j < s.len(),
        i != j,
    ensures
        s[i].len + s[j].len <= units_len(s),
{
    lemma_units_len_remove(s, i);
    let r = s.remove(i);
    let jj = if j < i { j } else { j - 1 };
    assert(r[jj] == s[j]);
    lemma_units_len_remove(r, jj);
    lemma_units_len_nonneg(r.remove(jj));
}

proof fn lemma_incoming_none(units: Seq<Unit>, plan: Seq<(usize, usize)>, k: int, j: int)
    requires
        0 <= k <= plan.len(),
        forall|t: int| 0 <= t < k ==> (#[trigger] plan[t]).1 != j,
    ensures
        incoming(units, plan, k, j) == Seq::<File>::empty(),
    decreases k,
{
    if k > 0 {
        lemma_incoming_none(units, plan, k - 1, j);
    }
}

proof fn lemma_merge_target(units: Seq<Unit>, a: int)
    requires
        tree_wf(units),
        0 <= a < units.len(),
    ensures
        0 <= merge_target(units, a) <= a,
        merge_target(units, a) == 0 || !units[merge_target(units, a)].small(),
    decreases a,
{
    if a > 0 && units[a].small() {
        lemma_merge_target(units, units[a].parent as int);
    }
}

proof fn lemma_plan_facts(units: Seq<Unit>, n: int)
    requires
        tree_wf(units),
        0 <= n <= units.len() <= usize::MAX,
    ensures
        forall|k: int|
            0 <= k < plan_upto(units, n).len() ==> {
                let (s, d) = #[trigger] plan_upto(units, n)[k];
                &&& 0 < s < n
                &&& units[s as int].small()
                &&& d < s
                &&& d == 0 || !units[d as int].small()
            },
        forall|k: int, l: int|
            0 <= k < l < plan_upto(units, n).len() ==> (#[trigger] plan_upto(units, n)[k]).0 < (
            #[trigger] plan_upto(units, n)[l]).0,
    decreases n,
{
    if n > 0 {
        let i = n - 1;
        lemma_plan_facts(units, i);
        let prev = plan_upto(units, i);
        let t = merge_target(units, units[i].parent as int);
        if i > 0 {
            lemma_merge_target(units, units[i].parent as int);
        }
        if units[i].small() && t != i {
            assert(plan_upto(units, n) == prev.push((i as usize, t as usize)));
            assert(i > 0);
            assert forall|k: int| 0 <= k < plan_upto(units, n).len() implies {
                let (s, d) = #[trigger] plan_upto(units, n)[k];
                &&& 0 < s < n
                &&& units[s as int].small()
                &&& d < s
                &&& d == 0 || !units[d as int].small()
            } by {
                if k < prev.len() {
                    assert(plan_upto(units, n)[k] == prev[k]);
                }
            }
            assert forall|k: int, l: int|
                0 <= k < l < plan_upto(units, n).len() implies (#[trigger] plan_upto(units, n)[k]).0
                < (#[trigger] plan_upto(units, n)[l]).0 by {
                assert(plan_upto(units, n)[k] == prev[k]);
                if l < prev.len() {
                    assert(plan_upto(units, n)[l] == prev[l]);
                }
            }
        } else {
            assert(plan_upto(units, n) == prev);
        }
    }
}

proof fn lemma_small_is_source(units: Seq<Unit>, n: int, i: int)
    requires
        tree_wf(units),
        0 < i < n <= units.len() <= usize::MAX,
        units[i].small(),
    ensures
        is_source(plan_upto(units, n), plan_upto(units, n).len() as int, i),
    decreases n,
{
    let p = plan_upto(units, n);
    if i == n - 1 {
        lemma_merge_target(units, units[i].parent as int);
        let t = merge_target(units, units[i].parent as int);
        assert(t != i);
        assert(p == plan_upto(units, i).push((i as usize, t as usize)));
        assert(p[p.len() - 1].0 == i);
    } else {
        lemma_small_is_source(units, n - 1, i);
        let q = plan_upto(units, n - 1);
        let t = choose|t: int| 0 <= t < q.len() && (#[trigger] q[t]).0 == i;
        let last = n - 1;
        let d = merge_target(units, units[last].parent as int);
        if units[last].small() && d != last {
            assert(p == q.push((last as usize, d as usize)));
        } else {
            assert(p == q);
        }
        assert(p[t] == q[t]);
    }
}

proof fn lemma_not_small_append(a: Seq<File>, b: Seq<File>)
    requires
        !all_small(a),
    ensures
        !all_small(a + b),
{
    let i = choose|i: int|
        0 <= i < a.len() && !is_hidden(#[trigger] a[i]) && a[i].len > SMALL_FILE_UPPER_BOUND;
    assert((a + b)[i] == a[i]);
}

/// Merging a unit set by its own merge plan is always possible, and leaves
/// no small unit but the root: every other remaining unit holds a visible file
/// over the small-file bound. Every remaining unit's length is the sum of its
/// files' lengths.
pub proof fn lemma_merge_soundness(before: UnitSet, after: UnitSet)
    requires
        before.wf(),
        tree_wf(before.0@),
        after.wf(),
        merged(before.0@, plan_upto(before.0@, before.0@.len() as int), after.0@),
    ensures
        plan_ok(plan_upto(before.0@, before.0@.len() as int), before.0@.len() as int),
        forall|t: int| 0 <= t < after.0@.len() && (#[trigger] after.0@[t]).small() ==> t == 0,
        forall|t: int| 0 <= t < after.0@.len() ==> (#[trigger] after.0@[t]).wf(),
{
    let units = before.0@;
    let n = units.len() as int;
    let plan = plan_upto(units, n);
    assert(units.len() == before.0.len());
    lemma_plan_facts(units, n);
    lemma_kept_bounds(plan, n);
    let keep = kept(plan, n);
    assert forall|t: int| 0 <= t < after.0@.len() && (#[trigger] after.0@[t]).small() implies t
        == 0 by {
        if t > 0 {
            let j = keep[t];
            assert(keep[0] < j);
            if units[j].small() {
                lemma_small_is_source(units, n, j);
            }
            lemma_not_small_append(
                units[j].files.0@,
                incoming(units, plan, plan.len() as int, j),
            );
        }
    }
}

/// An ordered list of units with their cached total length.
#[derive(Debug)]
pub struct UnitSet(pub Vec<Unit>, pub u64);

impl UnitSet {
    /// The cached total length.
    pub open spec fn total(&self) -> int {
        self.1 as int
    }

    /// The cached total is the sum of the units' lengths, and each unit's
    /// length is the sum of its files' lengths.
    pub open spec fn wf(&self) -> bool {
        &&& self.total() == units_len(self.0@)
        &&& forall|i: int| 0 <= i < self.0@.len() ==> (#[trigger] self.0@[i]).wf()
    }

    /// An empty unit set.
    pub fn new() -> (r: UnitSet)
        ensures
            r.wf(),
            r.0@ == Seq::<Unit>::empty(),
            r.total() == 0,
    {
        UnitSet(Vec::new(), 0)
    }

    /// Appends a unit; fails when the total would not fit in 64 bits.
    pub fn push(&mut self, unit: Unit) -> (r: Result<(), Error>)
        requires
            old(self).wf(),
            unit.wf(),
        ensures
            final(self).wf(),
            r is Ok <==> old(self).total() + unit.len <= u64::MAX,
            r is Ok ==> final(self).0@ == old(self).0@.push(unit) && final(self).total()
                == old(self).total() + unit.len,
            r is Err ==> r == Err::<(), Error>(Error::LengthOverflow) && final(self).0@ == old(
                self,
            ).0@ && final(self).total() == old(self).total(),
    {
        if unit.len > u64::MAX - self.1 {
            return Err(Error::LengthOverflow);
        }
        self.1 = self.1 + unit.len;
        self.0.push(unit);
        proof {
            assert(self.0@.drop_last() =~= old(self).0@);
        }
        Ok(())
    }

    /// The total length of the units.
    pub fn len(&self) -> (r: u64)
        ensures
            r == self.total(),
    {
        self.1
    }

    /// Moves the last unit of `self` to the front of `other`. Fails, changing
    /// nothing, with `EmptyUnitSet` when `self` is empty, and with
    /// `LengthOverflow` when `other`'s total would not fit in 64 bits.
    pub fn shift_to(&mut self, other: &mut UnitSet) -> (r: Result<(), Error>)
        requires
            old(self).wf(),
            old(other).wf(),
        ensures
            final(self).wf(),
            final(other).wf(),
            final(self).total() + final(other).total() == old(self).total() + old(other).total(),
            r is Ok <==> old(self).0@.len() > 0 && old(other).total() + old(self).0@.last().len
                <= u64::MAX,
            r is Ok ==> final(self).0@ == old(self).0@.drop_last() && final(other).0@ == seq![
                old(self).0@.last(),
            ] + old(other).0@ && final(self).total() == old(self).total() - old(
                self,
            ).0@.last().len,
            old(self).0@.len() == 0 ==> r == Err::<(), Error>(Error::EmptyUnitSet),
            old(self).0@.len() > 0 && r is Err ==> r == Err::<(), Error>(Error::LengthOverflow),
            r is Err ==> final(self).0@ == old(self).0@ && final(other).0@ == old(other).0@
                && final(self).total() == old(self).total() && final(other).total() == old(other).total(),
    {
        let n = self.0.len();
        if n == 0 {
            return Err(Error::EmptyUnitSet);
        }
        if self.0[n - 1].len > u64::MAX - other.1 {
            return Err(Error::LengthOverflow);
        }
        match self.0.pop() {
            None => Err(Error::EmptyUnitSet),
            Some(last) => {
                proof {
                    lemma_units_len_nonneg(self.0@);
                    lemma_units_len_insert(other.0@, 0, last);
                    assert(other.0@.insert(0, last) =~= seq![last] + other.0@);
                }
                self.1 = self.1 - last.len;
                other.1 = other.1 + last.len;
                other.0.insert(0, last);
                Ok(())
            },
        }
    }

    /// Moves the first unit of `unit_set` to the end of `self`.
    pub fn shift_from(&mut self, unit_set: &mut UnitSet)
        requires
            old(self).wf(),
            old(unit_set).wf(),
            old(unit_set).0@.len() > 0,
            old(self).total() + old(unit_set).total() <= u64::MAX,
        ensures
            final(self).wf(),
            final(unit_set).wf(),
            final(self).0@ == old(self).0@.push(old(unit_set).0@[0]),
            final(unit_set).0@ == old(unit_set).0@.drop_first(),
            final(self).total() + final(unit_set).total() == old(self).total() + old(
                unit_set,
            ).total(),
    {
        let first = unit_set.0.remove(0);
        proof {
            lemma_units_len_remove(old(unit_set).0@, 0);
            lemma_units_len_nonneg(unit_set.0@);
            assert(old(unit_set).0@.remove(0) =~= old(unit_set).0@.drop_first());
        }
        unit_set.1 = unit_set.1 - first.len;
        self.1 = self.1 + first.len;
        self.0.push(first);
        proof {
            assert(self.0@.drop_last() =~= old(self).0@);
        }
    }

    /// Moves the last unit of `self` back to the front of `unit_set`.
    pub fn undo_shift(&mut self, unit_set: &mut UnitSet)
        requires
            old(self).wf(),
            old(unit_set).wf(),
            old(self).0@.len() > 0,
            old(self).total() + old(unit_set).total() <= u64::MAX,
        ensures
            final(self).wf(),
            final(unit_set).wf(),
            final(self).0@ == old(self).0@.drop_last(),
            final(unit_set).0@ == seq![old(self).0@.last()] + old(unit_set).0@,
            final(self).total() + final(unit_set).total() == old(self).total() + old(
                unit_set,
            ).total(),
    {
        proof {
            lemma_units_len_nonneg(old(self).0@.drop_last());
        }
        let r = self.shift_to(unit_set);
        assert(r is Ok);
    }

    /// The indices of the small units, in order.
    pub fn small_units(&self) -> (r: Vec<usize>)
        ensures
            forall|k: int| 0 <= k < r@.len() ==> (#[trigger] r@[k]) < self.0@.len() && self.0@[r@[k] as int].small(),
            forall|k: int, l: int| 0 <= k < l < r@.len() ==> (#[trigger] r@[k]) < (#[trigger] r@[l]),
            forall|i: int| 0 <= i < self.0@.len() && (#[trigger] self.0@[i]).small() ==> r@.contains(i as usize),
    {
        let mut r: Vec<usize> = Vec::new();
        let mut i: usize = 0;
        while i < self.0.len()
            invariant
                i <= self.0@.len(),
                forall|k: int| 0 <= k < r@.len() ==> (#[trigger] r@[k]) < i && self.0@[r@[k] as int].small(),
                forall|k: int, l: int| 0 <= k < l < r@.len() ==> (#[trigger] r@[k]) < (#[trigger] r@[l]),
                forall|j: int| 0 <= j < i && (#[trigger] self.0@[j]).small() ==> r@.contains(j as usize),
            decreases self.0@.len() - i,
        {
            let ghost before = r@;
            if self.0[i].is_small() {
                r.push(i);
                assert forall|j: int|
                    0 <= j < i + 1 && (#[trigger] self.0@[j]).small() implies r@.contains(
                    j as usize,
                ) by {
                    if j < i {
                        let k = choose|k: int| 0 <= k < before.len() && before[k] == j as usize;
                        assert(r@[k] == j as usize);
                    } else {
                        assert(r@[r@.len() - 1] == j as usize);
                    }
                }
            }
            i += 1;
        }
        r
    }

    /// Pairs each small unit other than the root with the unit it folds into:
    /// its nearest ancestor that is not small, or the root.
    pub fn plan_merges(&self) -> (r: Vec<(usize, usize)>)
        requires
            tree_wf(self.0@),
        ensures
            r@ == plan_upto(self.0@, self.0@.len() as int),
            plan_ok(r@, self.0@.len() as int),
    {
        let mut plan: Vec<(usize, usize)> = Vec::new();
        let mut index: usize = 0;
        while index < self.0.len()
            invariant
                index <= self.0@.len(),
                tree_wf(self.0@),
                plan@ == plan_upto(self.0@, index as int),
            decreases self.0@.len() - index,
        {
            if self.0[index].is_small() {
                let mut ancestor = self.0[index].parent;
                while ancestor != 0
                    invariant
                        ancestor < self.0@.len(),
                        ancestor <= index,
                        tree_wf(self.0@),
                        index < self.0@.len(),
                        merge_target(self.0@, ancestor as int) == merge_target(
                            self.0@,
                            self.0@[index as int].parent as int,
                        ),
                    ensures
                        merge_target(self.0@, ancestor as int) == ancestor,
                    decreases ancestor,
                {
                    if !self.0[ancestor].is_small() {
                        break;
                    } else {
                        ancestor = self.0[ancestor].parent;
                    }
                }
                if index != ancestor {
                    plan.push((index, ancestor));
                }
            }
            index += 1;
        }
        proof {
            assert(self.0@.len() == self.0.len());
            lemma_plan_facts(self.0@, self.0@.len() as int);
        }
        plan
    }

    /// Carries out a merge plan: for each pair, in order, the first unit's
    /// files move to the end of the second unit's; then the units that were
    /// merged away are dropped.
    #[verifier::rlimit(60)]
    pub fn execute_merges(&mut self, plan: &[(usize, usize)])
        requires
            old(self).wf(),
            plan_ok(plan@, old(self).0@.len() as int),
        ensures
            final(self).wf(),
            final(self).total() == old(self).total(),
            merged(old(self).0@, plan@, final(self).0@),
    {
        let ghost before = self.0@;
        let ghost n = before.len() as int;
        let mut k: usize = 0;
        while k < plan.len()
            invariant
                k <= plan@.len(),
                plan_ok(plan@, n),
                self.0@.len() == n,
                self.wf(),
                self.total() == old(self).total(),
                forall|j: int|
                    0 <= j < n ==> {
                        &&& (#[trigger] self.0@[j]).parent == before[j].parent
                        &&& self.0@[j].path == before[j].path
                        &&& self.0@[j].files.0@ == if is_source(plan@, k as int, j) {
                            Seq::<File>::empty()
                        } else {
                            before[j].files.0@ + incoming(before, plan@, k as int, j)
                        }
                    },
            decreases plan@.len() - k,
        {
            let (m, into) = plan[k];
            proof {
                assert(plan@[k as int] == (m, into));
                assert(!is_source(plan@, k as int, m as int)) by {
                    if is_source(plan@, k as int, m as int) {
                        let t = choose|t: int| 0 <= t < k && (#[trigger] plan@[t]).0 == m;
                        assert(plan@[t].0 < plan@[k as int].0);
                    }
                }
                assert forall|t: int| 0 <= t < k implies (#[trigger] plan@[t]).1 != m by {
                    assert(plan@[k as int].0 != plan@[t].1);
                }
                lemma_incoming_none(before, plan@, k as int, m as int);
                assert(self.0@[m as int].files.0@ =~= before[m as int].files.0@);
                lemma_units_len_two(self.0@, m as int, into as int);
            }
            let ghost cur = self.0@;
            let mut moved: Vec<File> = Vec::new();
            std::mem::swap(&mut moved, &mut self.0[m].files.0);
            let mlen = self.0[m].len;
            self.0[m].len = 0;
            self.0[into].files.0.append(&mut moved);
            self.0[into].len = self.0[into].len + mlen;
            proof {
                lemma_units_len_update(cur, m as int, self.0@[m as int]);
                lemma_units_len_update(cur.update(m as int, self.0@[m as int]), into as int, self.0@[into as int]);
                assert(self.0@ =~= cur.update(m as int, self.0@[m as int]).update(into as int, self.0@[into as int]));
                lemma_files_len_append(cur[into as int].files.0@, cur[m as int].files.0@);
                assert forall|j: int| 0 <= j < n implies {
                    &&& (#[trigger] self.0@[j]).parent == before[j].parent
                    &&& self.0@[j].path == before[j].path
                    &&& self.0@[j].files.0@ == if is_source(plan@, k + 1, j) {
                        Seq::<File>::empty()
                    } else {
                        before[j].files.0@ + incoming(before, plan@, k + 1, j)
                    }
                } by {
                    if j == m {
                        assert(is_source(plan@, k + 1, j)) by {
                            assert(plan@[k as int].0 == j);
                        }
                    } else {
                        assert(is_source(plan@, k + 1, j) == is_source(plan@, k as int, j)) by {
                            if is_source(plan@, k + 1, j) {
                                let t = choose|t: int| 0 <= t < k + 1 && (#[trigger] plan@[t]).0 == j;
                                assert(t < k);
                            }
                        }
                        if j == into {
                            assert(!is_source(plan@, k as int, j)) by {
                                if is_source(plan@, k as int, j) {
                                    let t = choose|t: int| 0 <= t < k && (#[trigger] plan@[t]).0 == j;
                                    assert(plan@[t].0 != plan@[k as int].1);
                                }
                            }
                            assert(self.0@[j].files.0@ =~= before[j].files.0@ + incoming(
                                before,
                                plan@,
                                k + 1,
                                j,
                            ));
                        }
                    }
                }
                assert forall|i: int| 0 <= i < self.0@.len() implies (#[trigger] self.0@[i]).wf() by {
                    if i == m {
                        assert(self.0@[i].files.0@ =~= Seq::<File>::empty());
                    }
                }
            }
            k += 1;
        }
        let ghost mid = self.0@;

        let mut source: Vec<bool> = Vec::new();
        let mut j: usize = 0;
        while j < self.0.len()
            invariant
                j <= n,
                self.0@ == mid,
                mid.len() == n,
                source@.len() == j,
                forall|i: int| 0 <= i < j ==> !(#[trigger] source@[i]),
            decreases n - j,
        {
            source.push(false);
            j += 1;
        }
        let mut k: usize = 0;
        while k < plan.len()
            invariant
                k <= plan@.len(),
                plan_ok(plan@, n),
                source@.len() == n,
                forall|i: int| 0 <= i < n ==> (#[trigger] source@[i]) == is_source(plan@, k as int, i),
            decreases plan@.len() - k,
        {
            let m = plan[k].0;
            source[m] = true;
            proof {
                assert forall|i: int| 0 <= i < n implies (#[trigger] source@[i]) == is_source(
                    plan@,
                    k + 1,
                    i,
                ) by {
                    if is_source(plan@, k + 1, i) && i != m {
                        let t = choose|t: int| 0 <= t < k + 1 && (#[trigger] plan@[t]).0 == i;
                        assert(t < k);
                    }
                    if i == m {
                        assert(plan@[k as int].0 == i);
                    }
                }
            }
            k += 1;
        }

        let mut all: Vec<Unit> = Vec::new();
        std::mem::swap(&mut all, &mut self.0);
        let mut rev: Vec<Unit> = Vec::new();
        while all.len() > 0
            invariant
                all@.len() + rev@.len() == n,
                mid.len() == n,
                all@ == mid.subrange(0, all@.len() as int),
                forall|t: int| 0 <= t < rev@.len() ==> #[trigger] rev@[t] == mid[n - 1 - t],
            decreases all@.len(),
        {
            let u = all.pop().unwrap();
            rev.push(u);
        }
        let mut keep: Vec<Unit> = Vec::new();
        let mut j: usize = 0;
        while j < source.len()
            invariant
                j <= n,
                source@.len() == n,
                mid.len() == n,
                rev@.len() == n - j,
                forall|t: int| 0 <= t < rev@.len() ==> #[trigger] rev@[t] == mid[n - 1 - t],
                forall|i: int| 0 <= i < n ==> (#[trigger] source@[i]) == is_source(plan@, plan@.len() as int, i),
                keep@.len() == kept(plan@, j as int).len(),
                forall|t: int| 0 <= t < keep@.len() ==> #[trigger] keep@[t] == mid[kept(plan@, j as int)[t]],
                units_len(keep@) == units_len(mid.subrange(0, j as int)),
                forall|i: int| 0 <= i < n ==> (#[trigger] mid[i]).wf(),
                forall|i: int| 0 <= i < n && is_source(plan@, plan@.len() as int, i) ==> (#[trigger] mid[i]).len == 0,
            decreases n - j,
        {
            let u = rev.pop().unwrap();
            proof {
                lemma_kept_bounds(plan@, j as int);
                assert(mid.subrange(0, j + 1).drop_last() =~= mid.subrange(0, j as int));
            }
            if !source[j] {
                let ghost prev = keep@;
                keep.push(u);
                proof {
                    assert(keep@.drop_last() =~= prev);
                }
            }
            j += 1;
        }
        proof {
            assert(mid.subrange(0, n) =~= mid);
            lemma_kept_bounds(plan@, n);
        }
        self.0 = keep;
    }

    /// All files of the set, unit after unit.
    pub fn into_files(self) -> (r: Vec<File>)
        ensures
            r@ == all_files(self.0@),
    {
        let mut units = self.0;
        let ghost all = units@;
        let mut files: Vec<File> = Vec::new();
        while units.len() > 0
            invariant
                files@ + all_files(units@) == all_files(all),
            decreases units@.len(),
        {
            let ghost rest = units@;
            let mut unit = units.remove(0);
            proof {
                assert(units@ =~= rest.drop_first());
                assert(files@ + unit.files.0@ + all_files(units@) =~= files@ + all_files(rest));
            }
            files.append(&mut unit.files.0);
        }
        assert(files@ + all_files(units@) =~= files@);
        files
    }

    /// The indices of the units on the way from unit `parent` up to the
    /// root, `parent` first and the root last.
    pub fn ancestors(&self, parent: usize) -> (r: Vec<usize>)
        requires
            tree_wf(self.0@),
            parent < self.0@.len(),
        ensures
            r@.len() > 0,
            r@[0] == parent,
            r@.last() == 0,
            forall|k: int| 0 <= k < r@.len() ==> (#[trigger] r@[k]) < self.0@.len(),
            forall|k: int|
                0 <= k < r@.len() - 1 ==> #[trigger] r@[k + 1] == self.0@[r@[k] as int].parent,
    {
        let mut r: Vec<usize> = Vec::new();
        r.push(parent);
        let mut finger = parent;
        while finger != 0
            invariant
                tree_wf(self.0@),
                finger < self.0@.len(),
                r@.len() > 0,
                r@[0] == parent,
                r@.last() == finger,
                forall|k: int| 0 <= k < r@.len() ==> (#[trigger] r@[k]) < self.0@.len(),
                forall|k: int|
                    0 <= k < r@.len() - 1 ==> #[trigger] r@[k + 1] == self.0@[r@[k] as int].parent,
            decreases finger,
        {
            finger = self.0[finger].parent;
            r.push(finger);
        }
        r
    }
}

/// Whether a symbolic link to a directory would lead back into the scanned
/// tree: `target` is the canonical form of the directory it points to, and
/// `ancestors` holds the canonical forms of the units from its would-be parent
/// up to the root. A cycle is one where the target contains, or is, one of them.
pub fn detect_cycle(target: &Path, ancestors: &Vec<Path>) -> (r: bool)
    ensures
        r == exists|k: int|
            0 <= k < ancestors@.len() && crate::path::stripped_of(
                (#[trigger] ancestors@[k])@.1,
                target@.1,
            ) is Some,
{
    let mut k: usize = 0;
    while k < ancestors.len()
        invariant
            k <= ancestors@.len(),
            forall|j: int|
                0 <= j < k ==> crate::path::stripped_of((#[trigger] ancestors@[j])@.1, target@.1) is None,
        decreases ancestors@.len() - k,
    {
        if target.is_ancestor(&ancestors[k]) {
            return true;
        }
        k += 1;
    }
    false
}

/// Builds the unit set of a depth-first directory walk. The caller reads the
/// directories; the walk's bookkeeping stays here, so every unit's parent is
/// the directory being read when it was entered, and the set keeps the tree
/// shape that merge planning needs.
#[derive(Debug)]
pub struct Scan {
    set: UnitSet,
    stack: Vec<usize>,
}

impl Scan {
    pub closed spec fn spec_set(&self) -> UnitSet {
        self.set
    }

    /// The indices of the directories being read, outermost first.
    pub closed spec fn spec_stack(&self) -> Seq<usize> {
        self.stack@
    }

    pub closed spec fn wf(&self) -> bool {
        &&& self.set.wf()
        &&& tree_wf(self.set.0@)
        &&& self.set.0@.len() > 0
        &&& forall|k: int| 0 <= k < self.stack@.len() ==> (#[trigger] self.stack@[k]) < self.set.0@.len()
    }

    /// A walk that starts in the root directory, holding `files`.
    pub fn new(root: Path, files: Vec<File>) -> (r: Result<Scan, Error>)
        ensures
            files_len(files@) <= u64::MAX <==> r is Ok,
            r is Err ==> r == Err::<Scan, Error>(Error::LengthOverflow),
            r matches Ok(s) ==> s.wf() && s.spec_stack() == seq![0usize] && s.spec_set().0@.len() == 1
                && s.spec_set().0@[0].path == root && s.spec_set().0@[0].files.0@ == files@,
    {
        let unit = Unit::root(root, files)?;
        let mut set = UnitSet::new();
        let pushed = set.push(unit);
        assert(pushed is Ok);
        let mut stack: Vec<usize> = Vec::new();
        stack.push(0);
        Ok(Scan { set, stack })
    }

    /// The unit whose directory is being read, if any.
    pub fn current(&self) -> (r: Option<usize>)
        requires
            self.wf(),
        ensures
            self.spec_stack().len() == 0 ==> r is None,
            self.spec_stack().len() > 0 ==> r == Some(self.spec_stack().last()),
    {
        if self.stack.len() == 0 {
            None
        } else {
            Some(self.stack[self.stack.len() - 1])
        }
    }

    /// The units from the directory being read up to the root, for cycle
    /// detection.
    pub fn ancestors(&self) -> (r: Vec<usize>)
        requires
            self.wf(),
            self.spec_stack().len() > 0,
        ensures
            r@.len() > 0,
            r@[0] == self.spec_stack().last(),
            r@.last() == 0,
            forall|k: int| 0 <= k < r@.len() ==> (#[trigger] r@[k]) < self.spec_set().0@.len(),
            forall|k: int|
                0 <= k < r@.len() - 1 ==> #[trigger] r@[k + 1] == self.spec_set().0@[r@[k] as int].parent,
    {
        self.set.ancestors(self.stack[self.stack.len() - 1])
    }

    /// The unit at `index`.
    pub fn unit(&self, index: usize) -> (r: &Unit)
        requires
            index < self.spec_set().0@.len(),
        ensures
            *r == self.spec_set().0@[index as int],
    {
        &self.set.0[index]
    }

    /// Enters a subdirectory of the directory being read: its unit, holding
    /// `files`, gets that directory as parent, and its own entries are read
    /// next.
    pub fn enter(&mut self, path: Path, files: Vec<File>) -> (r: Result<(), Error>)
        requires
            old(self).wf(),
            old(self).spec_stack().len() > 0,
        ensures
            final(self).wf(),
            r is Ok <==> files_len(files@) <= u64::MAX && old(self).spec_set().total() + files_len(files@)
                <= u64::MAX,
            r is Ok ==> {
                let n = old(self).spec_set().0@.len();
                &&& final(self).spec_set().0@.len() == n + 1
                &&& final(self).spec_set().0@.drop_last() == old(self).spec_set().0@
                &&& final(self).spec_set().0@.last().parent == old(self).spec_stack().last()
                &&& final(self).spec_set().0@.last().path == path
                &&& final(self).spec_set().0@.last().files.0@ == files@
                &&& final(self).spec_stack() == old(self).spec_stack().push(n as usize)
            },
            r is Err ==> r == Err::<(), Error>(Error::LengthOverflow) && final(self).spec_set().0@
                == old(self).spec_set().0@ && final(self).spec_stack() == old(self).spec_stack(),
    {
        let parent = self.stack[self.stack.len() - 1];
        let unit = Unit::new(path, parent, files)?;
        let index = self.set.0.len();
        let ghost before = self.set.0@;
        self.set.push(unit)?;
        proof {
            assert forall|i: int| 0 < i < self.set.0@.len() implies (#[trigger] self.set.0@[i]).parent < i by {
                if i < before.len() {
                    assert(self.set.0@[i] == before[i]);
                }
            }
            assert(self.set.0@[0] == before[0]);
            assert(self.set.0@.drop_last() =~= before);
        }
        self.stack.push(index);
        Ok(())
    }

    /// Leaves the directory being read.
    pub fn finish_dir(&mut self)
        requires
            old(self).wf(),
        ensures
            final(self).wf(),
            final(self).spec_set() == old(self).spec_set(),
            final(self).spec_stack() == old(self).spec_stack().drop_last() || old(self).spec_stack().len() == 0,
    {
        let _ = self.stack.pop();
    }

    /// The unit set found, in the shape merge planning needs.
    pub fn into_set(self) -> (r: UnitSet)
        requires
            self.wf(),
        ensures
            r.wf(),
            tree_wf(r.0@),
            r == self.spec_set(),
    {
        self.set
    }
}

} // verus!
