use vstd::prelude::*;

use crate::errors::Error;
use crate::unitset::UnitSet;

verus! {

/// The occupancy of each medium.
pub open spec fn lens_of(media: Seq<UnitSet>) -> Seq<u64> {
    Seq::new(media.len(), |i: int| media[i].1)
}

pub open spec fn sum(s: Seq<u64>) -> int
    decreases s.len(),
{
    if s.len() == 0 {
        0
    } else {
        sum(s.drop_last()) + s.last()
    }
}

pub open spec fn sum_sq(s: Seq<u64>) -> int
    decreases s.len(),
{
    if s.len() == 0 {
        0
    } else {
        sum_sq(s.drop_last()) + s.last() * s.last()
    }
}

/// `M * Σ Lᵢ² - (Σ Lᵢ)²` for `M` occupancies `Lᵢ`: `M²` times the sum of the
/// squared deviations from the mean, so `M² (M - 1)` times the variance. With
/// the total and the number of media fixed it orders occupancies as the
/// standard deviation does.
pub open spec fn spread(s: Seq<u64>) -> int {
    s.len() * sum_sq(s) - sum(s) * sum(s)
}

/// Whether the standard deviation of the occupancies, with an `M - 1`
/// denominator, is under `goal` percent of their mean:
/// `sqrt(Σ (Lᵢ - mean)² / (M - 1)) / mean * 100 < goal`, squared and
/// multiplied out so that it is exact. Never met with fewer than two media or
/// nothing to place.
pub open spec fn goal_met(s: Seq<u64>, goal: u64) -> bool {
    let m = s.len() as int;
    &&& m >= 2
    &&& sum(s) > 0
    &&& 10000 * m * spread(s) < goal * goal * (m - 1) * sum(s) * sum(s)
}

/// The occupancies after the last unit of medium `i`, of length `u`, moves to
/// medium `i + 1`.
pub open spec fn shifted(s: Seq<u64>, i: int, u: u64) -> Seq<u64> {
    s.update(i, (s[i] - u) as u64).update(i + 1, (s[i + 1] + u) as u64)
}

proof fn lemma_sum_update(s: Seq<u64>, i: int, v: u64)
    requires
        0 <= i < s.len(),
    ensures
        sum(s.update(i, v)) == sum(s) - s[i] + v,
        sum_sq(s.update(i, v)) == sum_sq(s) - s[i] * s[i] + v * v,
    decreases s.len(),
{
    if i == s.len() - 1 {
        assert(s.update(i, v).drop_last() =~= s.drop_last());
    } else {
        assert(s.update(i, v).drop_last() =~= s.drop_last().update(i, v));
        lemma_sum_update(s.drop_last(), i, v);
    }
}

pub proof fn lemma_sum_bounds(s: Seq<u64>)
    ensures
        0 <= sum(s),
        0 <= sum_sq(s) <= sum(s) * sum(s),
        forall|i: int| 0 <= i < s.len() ==> #[trigger] s[i] <= sum(s),
        forall|i: int, j: int| 0 <= i < j < s.len() ==> #[trigger] s[i] + #[trigger] s[j] <= sum(s),
    decreases s.len(),
{
    if s.len() > 0 {
        let p = s.drop_last();
        lemma_sum_bounds(p);
        let x = s.last() as int;
        let a = sum(p);
        assert(sum_sq(p) + x * x <= (a + x) * (a + x)) by (nonlinear_arith)
            requires
                0 <= sum_sq(p) <= a * a,
                0 <= x,
                0 <= a,
        ;
        assert(0 <= x * x) by (nonlinear_arith);
        assert forall|i: int| 0 <= i < s.len() implies #[trigger] s[i] <= sum(s) by {
            if i < s.len() - 1 {
                assert(s[i] == p[i]);
            }
        }
        assert forall|i: int, j: int| 0 <= i < j < s.len() implies #[trigger] s[i] + #[trigger] s[j]
            <= sum(s) by {
            assert(s[i] == p[i]);
            if j < s.len() - 1 {
                assert(s[j] == p[j]);
            }
        }
    }
}

proof fn lemma_prefix_sums(s: Seq<u64>, n: int)
    requires
        0 <= n <= s.len(),
    ensures
        sum(s.subrange(0, n)) <= sum(s),
    decreases s.len(),
{
    lemma_sum_bounds(s);
    if n < s.len() {
        assert(s.drop_last().subrange(0, n) =~= s.subrange(0, n));
        lemma_prefix_sums(s.drop_last(), n);
    } else {
        assert(s.subrange(0, n) =~= s);
    }
}

/// `Σ Lᵢ²`; it fits because it is at most `(Σ Lᵢ)²`.
fn sum_of_squares(lens: &Vec<u64>) -> (r: u128)
    requires
        sum(lens@) <= u64::MAX,
    ensures
        r == sum_sq(lens@),
{
    let mut acc: u128 = 0;
    let mut i: usize = 0;
    proof {
        lemma_sum_bounds(lens@);
    }
    while i < lens.len()
        invariant
            i <= lens@.len(),
            sum(lens@) <= u64::MAX,
            acc == sum_sq(lens@.subrange(0, i as int)),
        decreases lens@.len() - i,
    {
        let ghost next = lens@.subrange(0, i + 1);
        proof {
            assert(next.drop_last() =~= lens@.subrange(0, i as int));
            lemma_sum_bounds(next);
            lemma_prefix_sums(lens@, i + 1);
            assert(sum(next) * sum(next) <= u64::MAX * u64::MAX) by (nonlinear_arith)
                requires
                    0 <= sum(next) <= u64::MAX,
            ;
        }
        let x = lens[i] as u128;
        acc = acc + x * x;
        i += 1;
    }
    assert(lens@.subrange(0, i as int) =~= lens@);
    acc
}

/// The units of all media, medium after medium.
pub open spec fn all_units(media: Seq<UnitSet>) -> Seq<crate::unit::Unit>
    decreases media.len(),
{
    if media.len() == 0 {
        Seq::empty()
    } else {
        all_units(media.drop_last()) + media.last().0@
    }
}

/// Medium `i` holds something and has a next medium to give its last unit to.
pub open spec fn movable(media: Seq<UnitSet>, i: int) -> bool {
    0 <= i < media.len() - 1 && media[i].total() > 0
}

/// `Σ Lᵢ²` after the last unit of medium `i` moves to medium `i + 1`.
pub open spec fn move_value(media: Seq<UnitSet>, i: int) -> int {
    sum_sq(shifted(lens_of(media), i, media[i].0@.last().len))
}

/// `f` is the move with the least `Σ Lᵢ²`, the lowest medium on a tie.
pub open spec fn best_move(media: Seq<UnitSet>, f: int) -> bool {
    &&& movable(media, f)
    &&& forall|j: int| #[trigger] movable(media, j) ==> move_value(media, f) <= move_value(media, j)
    &&& forall|j: int| 0 <= j < f && #[trigger] movable(media, j) ==> move_value(media, f) < move_value(media, j)
}

/// A run of the disperser: each state after the first is the one before it
/// with its best move made, taken only while the goal was unmet and the move
/// lowered `Σ Lᵢ²`.
pub open spec fn greedy_trace(trace: Seq<Seq<UnitSet>>, goal: u64) -> bool {
    forall|j: int|
        0 <= j < trace.len() - 1 ==> {
            &&& !goal_met(lens_of(#[trigger] trace[j]), goal)
            &&& exists|f: int|
                best_move(trace[j], f) && move_value(trace[j], f) < sum_sq(lens_of(trace[j]))
                    && #[trigger] shift_of(trace[j], trace[j + 1], f)
        }
}

/// `after` is `before` with the last unit of medium `i` moved to the front
/// of medium `i + 1`.
pub open spec fn shift_of(before: Seq<UnitSet>, after: Seq<UnitSet>, i: int) -> bool {
    &&& 0 <= i
    &&& i + 1 < before.len()
    &&& after.len() == before.len()
    &&& before[i].0@.len() > 0
    &&& after[i].0@ == before[i].0@.drop_last()
    &&& after[i + 1].0@ == seq![before[i].0@.last()] + before[i + 1].0@
    &&& forall|k: int| 0 <= k < before.len() && k != i && k != i + 1 ==> #[trigger] after[k] == before[k]
}

/// Moving the last unit of medium `i` to the front of medium `i + 1` keeps
/// the units of all media in the same order.
proof fn lemma_shift_keeps_order(before: Seq<UnitSet>, after: Seq<UnitSet>, i: int)
    requires
        shift_of(before, after, i),
    ensures
        all_units(after) == all_units(before),
    decreases before.len(),
{
    let n = before.len();
    if i + 2 == n {
        let b2 = before.drop_last().drop_last();
        let a2 = after.drop_last().drop_last();
        assert(a2 =~= b2);
        assert(all_units(before.drop_last()) == all_units(b2) + before[i].0@);
        assert(all_units(after.drop_last()) == all_units(a2) + after[i].0@);
        assert(before[i].0@ =~= before[i].0@.drop_last() + seq![before[i].0@.last()]);
        assert(all_units(after) =~= all_units(before));
    } else {
        lemma_shift_keeps_order(before.drop_last(), after.drop_last(), i);
        assert(after.last() == before.last());
    }
}

/// Spreads units over media so that the media fill evenly. Units only ever
/// move from a medium to the next one, so their order along all media is kept.
#[derive(Debug)]
pub struct Disperse {
    media: Vec<UnitSet>,
    total: u64,
    goal: u64,
}

impl Disperse {
    pub closed spec fn spec_media(&self) -> Seq<UnitSet> {
        self.media@
    }

    pub closed spec fn spec_goal(&self) -> u64 {
        self.goal
    }

    /// Every medium is well formed.
    pub open spec fn media_wf(&self) -> bool {
        forall|i: int| 0 <= i < self.spec_media().len() ==> (#[trigger] self.spec_media()[i]).wf()
    }

    /// Every medium is well formed, the total is fixed, and the goal test can
    /// be carried out in 128-bit integers.
    pub closed spec fn wf(&self) -> bool {
        &&& forall|i: int| 0 <= i < self.media@.len() ==> (#[trigger] self.media@[i]).wf()
        &&& self.total == sum(lens_of(self.media@))
        &&& fits(self.media@.len() as int, self.total as int, self.goal as int)
    }

    /// A disperser over `media` that aims at a standard deviation under
    /// `goal` percent of the mean. Fails when the goal test would not fit in
    /// 128-bit integers, that is when `total² · M² · (goal² + 10⁴)` exceeds
    /// `u128::MAX` for `M` media.
    pub fn new(media: Vec<UnitSet>, goal: u64) -> (r: Result<Disperse, Error>)
        requires
            forall|i: int| 0 <= i < media@.len() ==> (#[trigger] media@[i]).wf(),
            sum(lens_of(media@)) <= u64::MAX,
        ensures
            r is Ok <==> fits(media@.len() as int, sum(lens_of(media@)), goal as int),
            r matches Ok(d) ==> d.wf() && d.spec_media() == media@ && d.spec_goal() == goal && d.media_wf(),
            r is Err ==> r == Err::<Disperse, Error>(Error::LengthOverflow),
    {
        let lens = lens_vec(&media);
        let total = sum_u64(&lens);
        let ghost gi = goal as int;
        let ghost mi = media@.len() as int;
        let ghost ti = total as int;
        let ghost c = gi * gi + 10000;
        proof {
            assert(gi * gi >= 0) by (nonlinear_arith);
        }
        if total == 0 || media.len() == 0 {
            proof {
                assert(ti * ti * mi * mi * c == 0) by (nonlinear_arith)
                    requires ti == 0 || mi == 0;
            }
            return Ok(Disperse { media, total, goal });
        }
        let m = media.len() as u128;
        let t = total as u128;
        let g = goal as u128;
        assert(t * t <= u128::MAX) by (nonlinear_arith)
            requires t <= u64::MAX;
        let tt = t * t;
        proof {
            assert(tt >= 1) by (nonlinear_arith) requires t >= 1, tt == t * t;
        }
        let a = match tt.checked_mul(m) {
            Some(a) => a,
            None => {
                proof {
                    assert(ti * ti * mi * mi * c > u128::MAX) by (nonlinear_arith)
                        requires tt * m > u128::MAX, tt == ti * ti, m == mi, mi >= 1, c >= 1;
                }
                return Err(Error::LengthOverflow);
            },
        };
        let b = match a.checked_mul(m) {
            Some(b) => b,
            None => {
                proof {
                    assert(ti * ti * mi * mi * c > u128::MAX) by (nonlinear_arith)
                        requires a * m > u128::MAX, a == ti * ti * mi, m == mi, c >= 1;
                }
                return Err(Error::LengthOverflow);
            },
        };
        proof {
            assert(b >= 1) by (nonlinear_arith)
                requires b == a * m, a == tt * m, tt >= 1, m >= 1;
        }
        let gg = match g.checked_mul(g) {
            Some(gg) => gg,
            None => {
                proof {
                    assert(ti * ti * mi * mi * c > u128::MAX) by (nonlinear_arith)
                        requires g * g > u128::MAX, c == g * g + 10000, b == ti * ti * mi * mi, b >= 1;
                }
                return Err(Error::LengthOverflow);
            },
        };
        let cc = match gg.checked_add(10000) {
            Some(cc) => cc,
            None => {
                proof {
                    assert(ti * ti * mi * mi * c > u128::MAX) by (nonlinear_arith)
                        requires gg + 10000 > u128::MAX, gg == g * g, c == g * g + 10000, b == ti * ti * mi * mi, b >= 1;
                }
                return Err(Error::LengthOverflow);
            },
        };
        if b.checked_mul(cc).is_none() {
            proof {
                assert(ti * ti * mi * mi * c > u128::MAX) by (nonlinear_arith)
                    requires b * cc > u128::MAX, b == ti * ti * mi * mi, cc == c;
            }
            return Err(Error::LengthOverflow);
        }
        Ok(Disperse { media, total, goal })
    }

    /// The media as they stand.
    pub fn media(&self) -> (r: &Vec<UnitSet>)
        ensures
            r@ == self.spec_media(),
    {
        &self.media
    }

    /// Gives the media back.
    pub fn into_media(self) -> (r: Vec<UnitSet>)
        ensures
            r@ == self.spec_media(),
    {
        self.media
    }

    /// The mean occupancy, rounded down; 0 without media.
    pub fn mean(&self) -> (r: u64)
        requires
            self.wf(),
        ensures
            self.spec_media().len() > 0 ==> r == sum(lens_of(self.spec_media())) / (self.spec_media().len() as int),
            self.spec_media().len() == 0 ==> r == 0,
    {
        if self.media.len() == 0 {
            0
        } else {
            self.total / (self.media.len() as u64)
        }
    }

    /// `Σ Lᵢ²` over the occupancies: with the total and the number of media
    /// fixed, it orders states as the standard deviation does.
    pub fn measure(&self) -> (r: u128)
        requires
            self.wf(),
        ensures
            r == sum_sq(lens_of(self.spec_media())),
    {
        let lens = lens_vec(&self.media);
        sum_of_squares(&lens)
    }

    /// Whether the standard deviation is under the goal (see `goal_met`).
    pub fn is_goal_met(&self) -> (r: bool)
        requires
            self.wf(),
        ensures
            r == goal_met(lens_of(self.spec_media()), self.spec_goal()),
    {
        let lens = lens_vec(&self.media);
        let m = self.media.len() as u128;
        if m < 2 || self.total == 0 {
            return false;
        }
        let q = sum_of_squares(&lens);
        let t = self.total as u128;
        let g = self.goal as u128;
        proof {
            let mi = m as int;
            let qi = q as int;
            let ti = t as int;
            let gi = g as int;
            let c = gi * gi + 10000;
            lemma_sum_bounds(lens@);
            assert(lens@ == lens_of(self.media@));
            assert(ti * ti * mi * mi * c <= u128::MAX);
            assert(gi * gi >= 0) by (nonlinear_arith);
            assert(ti * ti >= 1) by (nonlinear_arith) requires ti >= 1;
            assert(10000 * mi * mi <= ti * ti * mi * mi * c) by (nonlinear_arith)
                requires ti * ti >= 1, c >= 10000, mi >= 2;
            assert(10000 * mi <= 10000 * mi * mi) by (nonlinear_arith) requires mi >= 2;
            assert(10000 * mi * mi * qi <= ti * ti * mi * mi * c) by (nonlinear_arith)
                requires 0 <= qi <= ti * ti, c >= 10000, mi >= 2;
            assert(gi * gi * (mi - 1) <= gi * gi * mi) by (nonlinear_arith)
                requires gi * gi >= 0, mi >= 2;
            assert(gi * gi * (mi - 1) >= 0) by (nonlinear_arith) requires gi * gi >= 0, mi >= 2;
            assert(c * mi <= c * mi * mi) by (nonlinear_arith) requires c >= 0, mi >= 2;
            let x = gi * gi * (mi - 1) + 10000 * mi;
            assert(x <= c * mi * mi) by (nonlinear_arith)
                requires x == gi * gi * (mi - 1) + 10000 * mi, gi * gi * (mi - 1) <= gi * gi * mi, c == gi * gi + 10000, c * mi <= c * mi * mi;
            assert(c * mi * mi <= ti * ti * mi * mi * c) by (nonlinear_arith)
                requires ti * ti >= 1, c >= 0, mi >= 0;
            assert(x >= 0);
            assert(x * ti <= x * ti * ti) by (nonlinear_arith) requires x >= 0, ti >= 1;
            assert(x * ti * ti <= ti * ti * mi * mi * c) by (nonlinear_arith)
                requires x <= c * mi * mi, ti >= 1;
            assert(gi * gi * (mi - 1) >= gi * gi) by (nonlinear_arith) requires gi * gi >= 0, mi >= 2;
            assert(gi * gi <= x) by (nonlinear_arith) requires gi * gi * (mi - 1) >= gi * gi, x == gi * gi * (mi - 1) + 10000 * mi, mi >= 2, gi * gi >= 0;
            assert(10000 * mi * (mi * qi - ti * ti) < gi * gi * (mi - 1) * ti * ti
                <==> 10000 * mi * mi * qi < x * ti * ti) by (nonlinear_arith)
                requires x == gi * gi * (mi - 1) + 10000 * mi;
        }
        let lhs = 10000 * m * m * q;
        let gg = g * g;
        let a1 = gg * (m - 1);
        let s1 = a1 + 10000 * m;
        let s2 = s1 * t;
        let rhs = s2 * t;
        lhs < rhs
    }

    /// What `Σ Lᵢ²` would become if the last unit of medium `from` moved to
    /// medium `from + 1`; `None` when medium `from` holds no unit.
    fn candidate(&self, lens: &Vec<u64>, from: usize) -> (r: Option<u128>)
        requires
            self.wf(),
            lens@ == lens_of(self.media@),
            from + 1 < self.media@.len(),
        ensures
            self.media@[from as int].0@.len() == 0 ==> r is None,
            self.media@[from as int].0@.len() > 0 ==> (r matches Some(v) && v == sum_sq(
                shifted(lens@, from as int, self.media@[from as int].0@.last().len),
            )),
    {
        let set = &self.media[from];
        if set.0.len() == 0 {
            return None;
        }
        let u = set.0[set.0.len() - 1].len;
        proof {
            let units = set.0@;
            crate::unitset::lemma_units_len_nonneg(units.drop_last());
            assert(units.last().len <= set.total());
            lemma_sum_bounds(lens@);
            assert(lens@[from as int] + lens@[from + 1] <= sum(lens@));
        }
        let mut new_lens = lens.clone();
        proof {
            assert(new_lens@ =~= lens@);
        }
        new_lens.set(from, lens[from] - u);
        new_lens.set(from + 1, lens[from + 1] + u);
        proof {
            assert(new_lens@ =~= shifted(lens@, from as int, u));
            lemma_sum_update(lens@, from as int, (lens@[from as int] - u) as u64);
            lemma_sum_update(lens@.update(from as int, (lens@[from as int] - u) as u64), from + 1, (lens@[from + 1] + u) as u64);
            lemma_sum_bounds(new_lens@);
        }
        Some(sum_of_squares(&new_lens))
    }

    /// One step of the disperser: among the media that hold something, the
    /// move of a medium's last unit to the next medium that gives the smallest
    /// `Σ Lᵢ²` (the lowest medium on a tie) is made when it is smaller than
    /// now. Returns whether a move was made: every move strictly lowers the
    /// spread, hence the standard deviation, and keeps the total.
    pub fn step(&mut self) -> (moved: bool)
        requires
            old(self).wf(),
        ensures
            final(self).wf(),
            final(self).spec_goal() == old(self).spec_goal(),
            final(self).spec_media().len() == old(self).spec_media().len(),
            sum(lens_of(final(self).spec_media())) == sum(lens_of(old(self).spec_media())),
            moved ==> spread(lens_of(final(self).spec_media())) < spread(lens_of(old(self).spec_media())),
            moved ==> sum_sq(lens_of(final(self).spec_media())) < sum_sq(lens_of(old(self).spec_media())),
            !moved ==> final(self).spec_media() == old(self).spec_media(),
            all_units(final(self).spec_media()) == all_units(old(self).spec_media()),
            moved ==> exists|f: int|
                #[trigger] best_move(old(self).spec_media(), f) && move_value(old(self).spec_media(), f)
                    < sum_sq(lens_of(old(self).spec_media())) && shift_of(
                    old(self).spec_media(),
                    final(self).spec_media(),
                    f,
                ),
            !moved ==> forall|i: int|
                0 <= i < old(self).spec_media().len() - 1 && (#[trigger] old(self).spec_media()[i]).total() > 0
                    ==> sum_sq(shifted(lens_of(old(self).spec_media()), i, old(self).spec_media()[i].0@.last().len))
                    >= sum_sq(lens_of(old(self).spec_media())),
    {
        let n = self.media.len();
        if n < 2 {
            return false;
        }
        let lens = lens_vec(&self.media);
        let current = sum_of_squares(&lens);
        let mut best: Option<(usize, u128)> = None;
        let mut i: usize = 0;
        while i < n - 1
            invariant
                self.wf(),
                n == self.media@.len(),
                n >= 2,
                i <= n - 1,
                lens@ == lens_of(self.media@),
                current == sum_sq(lens@),
                best matches Some(b) ==> b.0 < i && self.media@[b.0 as int].0@.len() > 0 && b.1 == sum_sq(shifted(lens@, b.0 as int, self.media@[b.0 as int].0@.last().len)),
                best matches Some(b) ==> self.media@[b.0 as int].total() > 0,
                forall|j: int|
                    0 <= j < i && (#[trigger] self.media@[j]).total() > 0 ==> (best matches Some(b) && (j < b.0 ==> b.1 < sum_sq(shifted(lens@, j, self.media@[j].0@.last().len)))),
                forall|j: int|
                    0 <= j < i && (#[trigger] self.media@[j]).total() > 0 ==> (best matches Some(b) && b.1 <= sum_sq(shifted(lens@, j, self.media@[j].0@.last().len))),
            decreases n - 1 - i,
        {
            if self.media[i].len() > 0 {
                proof {
                    assert(self.media@[i as int].wf());
                    if self.media@[i as int].0@.len() == 0 {
                        assert(crate::unitset::units_len(self.media@[i as int].0@) == 0);
                    }
                }
                match self.candidate(&lens, i) {
                    Some(v) => {
                        let better = match best {
                            None => true,
                            Some(b) => v < b.1,
                        };
                        if better {
                            best = Some((i, v));
                        }
                    },
                    None => {},
                }
            }
            proof {
                assert forall|j: int|
                    0 <= j < i + 1 && (#[trigger] self.media@[j]).total() > 0 implies (best matches Some(b)
                        && b.1 <= sum_sq(shifted(lens@, j, self.media@[j].0@.last().len))) by {}
                assert forall|j: int|
                    0 <= j < i + 1 && (#[trigger] self.media@[j]).total() > 0 implies (best matches Some(b)
                        && (j < b.0 ==> b.1 < sum_sq(shifted(lens@, j, self.media@[j].0@.last().len)))) by {}
            }
            i += 1;
        }
        match best {
            None => false,
            Some((from, value)) => {
                if value < current {
                    let ghost before = self.media@;
                    let mut to = UnitSet::new();
                    std::mem::swap(&mut to, &mut self.media[from + 1]);
                    proof {
                        lemma_sum_bounds(lens@);
                        assert(lens@[from as int] + lens@[from + 1] <= sum(lens@));
                        crate::unitset::lemma_units_len_nonneg(before[from as int].0@.drop_last());
                    }
                    let r = self.media[from].shift_to(&mut to);
                    std::mem::swap(&mut to, &mut self.media[from + 1]);
                    proof {
                        assert(r is Ok);
                        let u = before[from as int].0@.last().len;
                        assert(lens_of(self.media@) =~= shifted(lens@, from as int, u));
                        lemma_sum_update(lens@, from as int, (lens@[from as int] - u) as u64);
                        lemma_sum_update(lens@.update(from as int, (lens@[from as int] - u) as u64), from + 1, (lens@[from + 1] + u) as u64);
                        assert forall|k: int| 0 <= k < self.media@.len() implies (#[trigger] self.media@[k]).wf() by {
                            if k != from && k != from + 1 {
                                assert(self.media@[k] == before[k]);
                            }
                        }
                        assert(shift_of(before, self.media@, from as int));
                        lemma_shift_keeps_order(before, self.media@, from as int);
                        assert(lens@ == lens_of(before));
                        assert forall|j: int| #[trigger] movable(before, j) implies move_value(before, from as int) <= move_value(before, j) by {
                            assert(before[j].total() > 0);
                        }
                        assert forall|j: int| 0 <= j < from && #[trigger] movable(before, j) implies move_value(before, from as int) < move_value(before, j) by {
                            assert(before[j].total() > 0);
                        }
                        assert(best_move(before, from as int));
                        let m = n as int;
                        assert(m * value < m * current) by (nonlinear_arith)
                            requires value < current, m >= 2;
                    }
                    true
                } else {
                    false
                }
            },
        }
    }

    /// Moves units until the goal is met or no move improves the spread.
    /// Every move strictly lowers `Σ Lᵢ²`, so this ends.
    pub fn disperse(&mut self)
        requires
            old(self).wf(),
        ensures
            final(self).wf(),
            final(self).media_wf(),
            final(self).spec_goal() == old(self).spec_goal(),
            final(self).spec_media().len() == old(self).spec_media().len(),
            sum(lens_of(final(self).spec_media())) == sum(lens_of(old(self).spec_media())),
            spread(lens_of(final(self).spec_media())) <= spread(lens_of(old(self).spec_media())),
            final(self).spec_media() == old(self).spec_media() || spread(lens_of(final(self).spec_media()))
                < spread(lens_of(old(self).spec_media())),
            all_units(final(self).spec_media()) == all_units(old(self).spec_media()),
            goal_met(lens_of(final(self).spec_media()), final(self).spec_goal()) || forall|i: int|
                0 <= i < final(self).spec_media().len() - 1 && (#[trigger] final(self).spec_media()[i]).total() > 0
                    ==> sum_sq(shifted(lens_of(final(self).spec_media()), i, final(self).spec_media()[i].0@.last().len))
                    >= sum_sq(lens_of(final(self).spec_media())),
            exists|trace: Seq<Seq<UnitSet>>|
                #[trigger] greedy_trace(trace, old(self).spec_goal()) && trace.len() > 0 && trace[0]
                    == old(self).spec_media() && trace.last() == final(self).spec_media(),
    {
        let ghost start = self.media@;
        let ghost mut trace: Seq<Seq<UnitSet>> = seq![start];
        loop
            invariant
                self.wf(),
                self.spec_goal() == old(self).spec_goal(),
                self.media@.len() == start.len(),
                sum(lens_of(self.media@)) == sum(lens_of(start)),
                spread(lens_of(self.media@)) <= spread(lens_of(start)),
                self.media@ == start || spread(lens_of(self.media@)) < spread(lens_of(start)),
                all_units(self.media@) == all_units(start),
                trace.len() > 0,
                trace[0] == start,
                trace.last() == self.media@,
                greedy_trace(trace, self.goal),
            ensures
                goal_met(lens_of(self.media@), self.goal) || forall|i: int|
                    0 <= i < self.media@.len() - 1 && (#[trigger] self.media@[i]).total() > 0
                        ==> sum_sq(shifted(lens_of(self.media@), i, self.media@[i].0@.last().len))
                        >= sum_sq(lens_of(self.media@)),
            decreases sum_sq(lens_of(self.media@)),
        {
            proof {
                lemma_sum_bounds(lens_of(self.media@));
            }
            if self.is_goal_met() {
                break;
            }
            let ghost before = self.media@;
            if !self.step() {
                break;
            }
            proof {
                lemma_sum_bounds(lens_of(self.media@));
                let next = trace.push(self.media@);
                assert forall|j: int| 0 <= j < next.len() - 1 implies {
                    &&& !goal_met(lens_of(#[trigger] next[j]), self.goal)
                    &&& exists|f: int|
                        best_move(next[j], f) && move_value(next[j], f) < sum_sq(lens_of(next[j]))
                            && #[trigger] shift_of(next[j], next[j + 1], f)
                } by {
                    if j < trace.len() - 1 {
                        assert(next[j] == trace[j]);
                        assert(next[j + 1] == trace[j + 1]);
                    } else {
                        assert(next[j] == before);
                        assert(next[j + 1] == self.media@);
                    }
                }
                trace = next;
            }
        }
    }
}

/// `total² · M² · (goal² + 10⁴)` fits in 128 bits.
pub open spec fn fits(m: int, total: int, goal: int) -> bool {
    total * total * m * m * (goal * goal + 10000) <= u128::MAX
}

fn lens_vec(media: &Vec<UnitSet>) -> (r: Vec<u64>)
    ensures
        r@ == lens_of(media@),
{
    let mut r: Vec<u64> = Vec::new();
    let mut i: usize = 0;
    while i < media.len()
        invariant
            i <= media@.len(),
            r@ == lens_of(media@).subrange(0, i as int),
        decreases media@.len() - i,
    {
        r.push(media[i].len());
        i += 1;
        assert(r@ =~= lens_of(media@).subrange(0, i as int));
    }
    assert(lens_of(media@).subrange(0, i as int) =~= lens_of(media@));
    r
}

fn sum_u64(lens: &Vec<u64>) -> (r: u64)
    requires
        sum(lens@) <= u64::MAX,
    ensures
        r == sum(lens@),
{
    let mut acc: u64 = 0;
    let mut i: usize = 0;
    while i < lens.len()
        invariant
            i <= lens@.len(),
            sum(lens@) <= u64::MAX,
            acc == sum(lens@.subrange(0, i as int)),
        decreases lens@.len() - i,
    {
        proof {
            assert(lens@.subrange(0, i + 1).drop_last() =~= lens@.subrange(0, i as int));
            lemma_prefix_sums(lens@, i + 1);
            lemma_sum_bounds(lens@.subrange(0, i as int));
        }
        acc = acc + lens[i];
        i += 1;
    }
    assert(lens@.subrange(0, i as int) =~= lens@);
    acc
}

} // verus!
