use vstd::prelude::*;

use crate::block_size::{candidate, cost, BlockSize, BLOCK_SIZE_COUNT};
use crate::disperse::{all_units, fits, goal_met, lens_of, shifted, sum, sum_sq, Disperse};
use crate::errors::Error;
use crate::index::{FileTable, MediaTable, RedundancyTable};
use crate::medium::Medium;
use crate::redundancy::redun::{indexes, redundancy_index, PartialIndex};
use crate::path::stripped_of;
use crate::stats::{logical_len, Stats};
use crate::unit::File;
use crate::unitset::{units_len, UnitSet};

verus! {

/// The names that media get, in order.
pub const MEDIUM_NAMES: [&'static str; 6] = ["Apple", "Avocado", "Banana", "Blueberry", "Cherry", "Cranberry"];

/// The disperser's goal: a standard deviation under this percentage of the
/// mean occupancy.
pub const DISPERSE_GOAL: u64 = 5;

/// Picks where the workspace goes among candidate places, each given as
/// `(same_fs, writable)`: the first writable one on the source's file
/// system, else the first writable one elsewhere; `None` when none is
/// writable.
pub fn select_location(options: &Vec<(bool, bool)>) -> (r: Option<usize>)
    ensures
        match r {
            Some(k) => {
                &&& k < options@.len()
                &&& options@[k as int].1
                &&& options@[k as int].0 ==> forall|j: int|
                    0 <= j < k ==> !(#[trigger] options@[j]).0 || !options@[j].1
                &&& !options@[k as int].0 ==> forall|j: int|
                    0 <= j < options@.len() ==> !(#[trigger] options@[j]).0 || !options@[j].1
                &&& !options@[k as int].0 ==> forall|j: int| 0 <= j < k ==> !(#[trigger] options@[j]).1
            },
            None => forall|j: int| 0 <= j < options@.len() ==> !(#[trigger] options@[j]).1,
        },
{
    let mut i: usize = 0;
    while i < options.len()
        invariant
            i <= options@.len(),
            forall|j: int| 0 <= j < i ==> !(#[trigger] options@[j]).0 || !options@[j].1,
        decreases options@.len() - i,
    {
        if options[i].0 && options[i].1 {
            return Some(i);
        }
        i += 1;
    }
    let mut i: usize = 0;
    while i < options.len()
        invariant
            i <= options@.len(),
            forall|j: int| 0 <= j < options@.len() ==> !(#[trigger] options@[j]).0 || !options@[j].1,
            forall|j: int| 0 <= j < i ==> !(#[trigger] options@[j]).1,
        decreases options@.len() - i,
    {
        if !options[i].0 && options[i].1 {
            return Some(i);
        }
        i += 1;
    }
    None
}

/// Fails with `MediumOverflow` when some unit is larger than a medium.
pub fn check_units_fit(units: &UnitSet, medium_size: u64) -> (r: Result<(), Error>)
    ensures
        r is Ok <==> forall|i: int| 0 <= i < units.0@.len() ==> (#[trigger] units.0@[i]).len <= medium_size,
        r is Err ==> r == Err::<(), Error>(Error::MediumOverflow),
{
    let mut i: usize = 0;
    while i < units.0.len()
        invariant
            i <= units.0@.len(),
            forall|j: int| 0 <= j < i ==> (#[trigger] units.0@[j]).len <= medium_size,
        decreases units.0@.len() - i,
    {
        if units.0[i].len > medium_size {
            return Err(Error::MediumOverflow);
        }
        i += 1;
    }
    Ok(())
}

/// The first estimate of the number of data media: enough to hold `total`
/// bytes, rounded up to an even number.
pub fn estimate_media_count(total: u64, medium_size: u64) -> (r: u128)
    requires
        medium_size > 0,
    ensures
        r % 2 == 0,
        r * medium_size >= total,
        r == 0 || (r - 2) * medium_size < total,
{
    let q = total / medium_size;
    let rem = total % medium_size;
    proof {
        vstd::arithmetic::div_mod::lemma_fundamental_div_mod(total as int, medium_size as int);
        assert(q * medium_size <= total) by (nonlinear_arith)
            requires total == medium_size * q + rem, 0 <= rem;
    }
    let ceil: u128 = if rem != 0 { q as u128 + 1 } else { q as u128 };
    proof {
        assert(ceil * medium_size >= total && (ceil == 0 || (ceil - 1) * medium_size < total)) by (nonlinear_arith)
            requires
                total == medium_size * q + rem,
                0 <= rem < medium_size,
                rem != 0 ==> ceil == q + 1,
                rem == 0 ==> ceil == q,
        ;
    }
    let count: u128 = if ceil % 2 == 1 { ceil + 1 } else { ceil };
    proof {
        if count != 0 && count != ceil {
            assert((count - 2) * medium_size <= (ceil - 1) * medium_size) by (nonlinear_arith)
                requires count == ceil + 1, ceil >= 1, medium_size > 0;
        }
        if count == ceil && count != 0 {
            assert((count - 2) * medium_size <= (ceil - 1) * medium_size) by (nonlinear_arith)
                requires count == ceil, ceil >= 2, medium_size > 0;
        }
        assert(count * medium_size >= ceil * medium_size) by (nonlinear_arith)
            requires count >= ceil, medium_size > 0;
    }
    count
}

/// Whether every medium's occupancy is within `medium_size`.
pub fn all_fit(sets: &Vec<UnitSet>, medium_size: u64) -> (r: bool)
    ensures
        r == forall|i: int| 0 <= i < sets@.len() ==> (#[trigger] sets@[i]).1 <= medium_size,
{
    let mut i: usize = 0;
    while i < sets.len()
        invariant
            i <= sets@.len(),
            forall|j: int| 0 <= j < i ==> (#[trigger] sets@[j]).1 <= medium_size,
        decreases sets@.len() - i,
    {
        if sets[i].len() > medium_size {
            return false;
        }
        i += 1;
    }
    true
}

/// Adds empty media up to `count`, then spreads the units over them.
pub fn disperse_over(count: usize, sets: Vec<UnitSet>, goal: u64) -> (r: Result<Vec<UnitSet>, Error>)
    requires
        sets@.len() <= count,
        forall|i: int| 0 <= i < sets@.len() ==> (#[trigger] sets@[i]).wf(),
        sum(lens_of(sets@)) <= u64::MAX,
    ensures
        r is Ok <==> fits(count as int, sum(lens_of(sets@)), goal as int),
        r matches Ok(v) ==> v@.len() == count && sum(lens_of(v@)) == sum(lens_of(sets@)) && all_units(v@)
            == all_units(sets@) && forall|i: int| 0 <= i < v@.len() ==> (#[trigger] v@[i]).wf(),
        r matches Ok(v) ==> goal_met(lens_of(v@), goal) || forall|i: int|
            0 <= i < v@.len() - 1 && (#[trigger] v@[i]).total() > 0 ==> sum_sq(
                shifted(lens_of(v@), i, v@[i].0@.last().len),
            ) >= sum_sq(lens_of(v@)),
        r is Err ==> r == Err::<Vec<UnitSet>, Error>(Error::LengthOverflow),
{
    let mut sets = sets;
    let ghost before = lens_of(sets@);
    let ghost start = sets@;
    while sets.len() < count
        invariant
            sets@.len() <= count,
            forall|i: int| 0 <= i < sets@.len() ==> (#[trigger] sets@[i]).wf(),
            sum(lens_of(sets@)) == sum(before),
            all_units(sets@) == all_units(start),
        decreases count - sets@.len(),
    {
        let ghost prev = sets@;
        sets.push(UnitSet::new());
        proof {
            assert(lens_of(sets@).drop_last() =~= lens_of(prev));
            assert(sets@.drop_last() =~= prev);
            assert(all_units(sets@) =~= all_units(prev));
        }
    }
    let mut disperse = Disperse::new(sets, goal)?;
    disperse.disperse();
    Ok(disperse.into_media())
}

/// Spreads a unit set over data media of `medium_size` bytes: starting from
/// the estimate of `estimate_media_count`, two media are added until the
/// disperser leaves every medium within its size. Fails with `MediumOverflow`
/// when a single unit is larger than a medium, and with `LengthOverflow`
/// when the arithmetic would not fit.
pub fn plan_media(units: UnitSet, medium_size: u64) -> (r: Result<Vec<UnitSet>, Error>)
    requires
        units.wf(),
        medium_size > 0,
    ensures
        r matches Ok(v) ==> v@.len() % 2 == 0 && sum(lens_of(v@)) == units.total() && all_units(v@)
            == units.0@ && forall|i: int|
            0 <= i < v@.len() ==> (#[trigger] v@[i]).wf() && v@[i].1 <= medium_size,
        r is Err ==> r == Err::<Vec<UnitSet>, Error>(Error::MediumOverflow) || r == Err::<
            Vec<UnitSet>,
            Error,
        >(Error::LengthOverflow) || r == Err::<Vec<UnitSet>, Error>(Error::TooManyMedia),
        r == Err::<Vec<UnitSet>, Error>(Error::TooManyMedia) ==> usize::MAX < u64::MAX,
        r == Err::<Vec<UnitSet>, Error>(Error::MediumOverflow) <==> exists|i: int|
            0 <= i < units.0@.len() && (#[trigger] units.0@[i]).len > medium_size,
        r == Err::<Vec<UnitSet>, Error>(Error::LengthOverflow) ==> exists|c: int|
            2 <= c && !fits(c, units.total(), DISPERSE_GOAL as int),
        units.total() <= medium_size && fits(2, units.total(), DISPERSE_GOAL as int) ==> (r matches Ok(
            v,
        ) && v@.len() == 2),
{
    match check_units_fit(&units, medium_size) {
        Ok(()) => {},
        Err(e) => {
            proof {
                let i = choose|i: int| 0 <= i < units.0@.len() && (#[trigger] units.0@[i]).len > medium_size;
                crate::unitset::lemma_units_len_remove(units.0@, i);
                crate::unitset::lemma_units_len_nonneg(units.0@.remove(i));
            }
            return Err(e);
        },
    }
    let ghost total = units.total();
    let est = estimate_media_count(units.len(), medium_size);
    proof {
        if total <= medium_size {
            assert(est <= 2) by (nonlinear_arith)
                requires
                    est == 0 || (est - 2) * medium_size < total,
                    total <= medium_size,
                    medium_size >= 1,
                    est % 2 == 0,
            ;
        }
    }
    if est > usize::MAX as u128 {
        if (usize::MAX as u64) < u64::MAX {
            return Err(Error::TooManyMedia);
        }
        proof {
            assert(total >= 0xffff_ffff_ffff_fffe) by (nonlinear_arith)
                requires
                    est > 0xffff_ffff_ffff_ffff,
                    est == 0 || (est - 2) * medium_size < total,
                    medium_size >= 1,
            ;
            assert(!fits(2, total, DISPERSE_GOAL as int)) by (nonlinear_arith)
                requires
                    total >= 0xffff_ffff_ffff_fffe,
            ;
        }
        return Err(Error::LengthOverflow);
    }
    let mut count: usize = if est == 0 { 2 } else { est as usize };
    proof {
        if total <= medium_size {
            assert(est <= 2) by (nonlinear_arith)
                requires
                    est == 0 || (est - 2) * medium_size < total,
                    total <= medium_size,
                    medium_size >= 1,
                    est % 2 == 0,
            ;
        }
    }
    let mut sets: Vec<UnitSet> = Vec::new();
    sets.push(units);
    proof {
        assert(lens_of(sets@).drop_last() =~= Seq::<u64>::empty());
        assert(sum(lens_of(sets@)) == sum(lens_of(sets@).drop_last()) + lens_of(sets@).last());
        assert(sets@.drop_last() =~= Seq::<UnitSet>::empty());
        assert(all_units(sets@.drop_last()) == Seq::<crate::unit::Unit>::empty());
        assert(sets@.last() == units);
        assert(all_units(sets@) == all_units(sets@.drop_last()) + sets@.last().0@);
        assert(all_units(sets@) =~= units.0@);
    }
    loop
        invariant
            count % 2 == 0,
            count >= 2,
            sets@.len() <= count,
            forall|i: int| 0 <= i < sets@.len() ==> (#[trigger] sets@[i]).wf(),
            sum(lens_of(sets@)) == total,
            total == units.total(),
            all_units(sets@) == units.0@,
            total <= u64::MAX,
            forall|i: int| 0 <= i < units.0@.len() ==> (#[trigger] units.0@[i]).len <= medium_size,
            total <= medium_size ==> count == 2,
        decreases usize::MAX - count,
    {
        sets = match disperse_over(count, sets, DISPERSE_GOAL) {
            Ok(v) => v,
            Err(e) => {
                return Err(e);
            },
        };
        if all_fit(&sets, medium_size) {
            return Ok(sets);
        }
        proof {
            let k = choose|k: int| 0 <= k < sets@.len() && (#[trigger] sets@[k]).1 > medium_size;
            crate::disperse::lemma_sum_bounds(lens_of(sets@));
            assert(lens_of(sets@)[k] == sets@[k].1);
            assert(total > medium_size);
        }
        if count > usize::MAX - 2 {
            if (usize::MAX as u64) < u64::MAX {
                return Err(Error::TooManyMedia);
            }
            proof {
                let c = count + 2;
                assert(!fits(c, total, DISPERSE_GOAL as int)) by (nonlinear_arith)
                    requires
                        c >= 0x1_0000_0000_0000_0000,
                        total >= 1,
                ;
            }
            return Err(Error::LengthOverflow);
        }
        count = count + 2;
    }
}

/// The name of medium `k` in naming order.
pub open spec fn name_of(k: int) -> Seq<char> {
    MEDIUM_NAMES@[k]@
}

/// Position of data medium `n` once a redundancy medium follows every second
/// data medium.
pub open spec fn data_position(n: int) -> int {
    n + n / 2
}

/// Makes data media from the unit sets, named in order, and puts a
/// redundancy medium after every second one; the redundancy media take the
/// names after those of the data media. Fails with `OutOfNames` when the
/// names do not suffice.
pub fn make_media(sets: Vec<UnitSet>, medium_size: u64) -> (r: Result<Vec<Medium>, Error>)
    ensures
        r is Ok <==> sets@.len() + sets@.len() / 2 <= 6,
        r is Err ==> r == Err::<Vec<Medium>, Error>(Error::OutOfNames),
        r matches Ok(media) ==> {
            let d = sets@.len() as int;
            &&& media@.len() == d + d / 2
            &&& forall|n: int| 0 <= n < d ==> {
                let m = #[trigger] media@[data_position(n)];
                &&& !m.spec_redundancy()
                &&& m.spec_size() == medium_size
                &&& m.spec_name() == name_of(n)
                &&& m.spec_len() == sets@[n].total()
                &&& m.spec_files() == crate::unitset::all_files(sets@[n].0@)
            }
            &&& forall|j: int| 0 <= j < d / 2 ==> {
                let m = #[trigger] media@[3 * j + 2];
                &&& m.spec_redundancy()
                &&& m.spec_size() == medium_size
                &&& m.spec_name() == name_of(d + j)
                &&& m.spec_files().len() == 0
            }
        },
{
    let d = sets.len();
    if d > 6 || d + d / 2 > 6 {
        return Err(Error::OutOfNames);
    }
    let names = MEDIUM_NAMES;
    let mut sets = sets;
    let ghost all = sets@;
    let mut media: Vec<Medium> = Vec::new();
    let mut n: usize = 0;
    let mut next_redundancy: usize = d;
    while sets.len() > 0
        invariant
            d == all.len(),
            d + d / 2 <= 6,
            n + sets@.len() == d,
            sets@ == all.subrange(n as int, d as int),
            next_redundancy == d + n / 2,
            names == MEDIUM_NAMES,
            media@.len() == n + n / 2,
            forall|k: int| 0 <= k < n ==> {
                let m = #[trigger] media@[data_position(k)];
                &&& !m.spec_redundancy()
                &&& m.spec_size() == medium_size
                &&& m.spec_name() == name_of(k)
                &&& m.spec_len() == all[k].total()
                &&& m.spec_files() == crate::unitset::all_files(all[k].0@)
            },
            forall|j: int| 0 <= j < n / 2 ==> {
                let m = #[trigger] media@[3 * j + 2];
                &&& m.spec_redundancy()
                &&& m.spec_size() == medium_size
                &&& m.spec_name() == name_of(d + j)
                &&& m.spec_files().len() == 0
            },
        decreases sets@.len(),
    {
        let set = sets.remove(0);
        let ghost before = media@;
        let medium = Medium::new(names[n], medium_size).unit_set(set);
        media.push(medium);
        proof {
            assert(sets@ =~= all.subrange(n + 1, d as int));
        }
        if n % 2 == 1 {
            let redundancy = Medium::new(names[next_redundancy], medium_size).redundancy(true);
            media.push(redundancy);
            next_redundancy = next_redundancy + 1;
        }
        proof {
            assert forall|k: int| 0 <= k < n + 1 implies {
                let m = #[trigger] media@[data_position(k)];
                &&& !m.spec_redundancy()
                &&& m.spec_size() == medium_size
                &&& m.spec_name() == name_of(k)
                &&& m.spec_len() == all[k].total()
                &&& m.spec_files() == crate::unitset::all_files(all[k].0@)
            } by {
                if k < n {
                    assert(media@[data_position(k)] == before[data_position(k)]);
                }
            }
            assert forall|j: int| 0 <= j < (n + 1) / 2 implies {
                let m = #[trigger] media@[3 * j + 2];
                &&& m.spec_redundancy()
                &&& m.spec_size() == medium_size
                &&& m.spec_name() == name_of(d + j)
                &&& m.spec_files().len() == 0
            } by {
                if j < n / 2 {
                    assert(media@[3 * j + 2] == before[3 * j + 2]);
                }
            }
        }
        n += 1;
    }
    Ok(media)
}

/// Cuts the media into groups of three, in order; the last group holds what
/// is left when the count is not a multiple of three.
pub fn split_groups(media: Vec<Medium>) -> (r: Vec<Vec<Medium>>)
    ensures
        r@.len() == (media@.len() + 2) / 3,
        forall|g: int, k: int|
            0 <= g < r@.len() && 0 <= k < r@[g]@.len() ==> 3 * g + k < media@.len() && #[trigger] r@[g]@[k] == media@[3 * g + k],
        forall|g: int| 0 <= g < r@.len() ==> (#[trigger] r@[g])@.len() == if 3 * g + 3 <= media@.len() { 3 } else { media@.len() - 3 * g },
{
    let mut rest = media;
    let ghost all = rest@;
    let mut groups: Vec<Vec<Medium>> = Vec::new();
    while rest.len() > 0
        invariant
            rest@.len() > 0 ==> rest@ == all.subrange(3 * groups@.len() as int, all.len() as int) && 3 * groups@.len() < all.len(),
            rest@.len() == 0 ==> groups@.len() == (all.len() + 2) / 3,
            forall|g: int, k: int|
                0 <= g < groups@.len() && 0 <= k < groups@[g]@.len() ==> 3 * g + k < all.len() && #[trigger] groups@[g]@[k] == all[3 * g + k],
            forall|g: int| 0 <= g < groups@.len() ==> (#[trigger] groups@[g])@.len() == if 3 * g + 3 <= all.len() { 3 } else { all.len() - 3 * g },
        decreases rest@.len(),
    {
        let g = groups.len();
        let mut group: Vec<Medium> = Vec::new();
        let mut k: usize = 0;
        while k < 3 && rest.len() > 0
            invariant
                k <= 3,
                3 * g + k <= all.len(),
                g == groups@.len(),
                rest@ == all.subrange(3 * g + k, all.len() as int),
                group@.len() == k,
                forall|j: int| 0 <= j < k ==> #[trigger] group@[j] == all[3 * g + j],
            decreases 3 - k,
        {
            let m = rest.remove(0);
            group.push(m);
            k += 1;
            proof {
                assert(rest@ =~= all.subrange(3 * g + k, all.len() as int));
            }
        }
        let ghost before = groups@;
        groups.push(group);
        proof {
            assert(k >= 1);
            assert forall|gg: int, kk: int|
                0 <= gg < groups@.len() && 0 <= kk < groups@[gg]@.len() implies 3 * gg + kk < all.len() && #[trigger] groups@[gg]@[kk] == all[3 * gg + kk] by {
                if gg < before.len() {
                    assert(groups@[gg] == before[gg]);
                }
            }
            assert forall|gg: int| 0 <= gg < groups@.len() implies (#[trigger] groups@[gg])@.len() == if 3 * gg + 3 <= all.len() { 3 } else { all.len() - 3 * gg } by {
                if gg < before.len() {
                    assert(groups@[gg] == before[gg]);
                }
            }
        }
    }
    groups
}

/// Gives each medium of a group the group's id and its id within the group,
/// and lists them in a media table.
pub fn register_group(group: &mut Vec<Medium>, group_id: usize) -> (r: MediaTable)
    requires
        old(group)@.len() <= 3,
    ensures
        final(group)@.len() == old(group)@.len(),
        r.spec_table().len() == old(group)@.len(),
        forall|k: int| 0 <= k < final(group)@.len() ==> {
            let m = #[trigger] final(group)@[k];
            &&& m.spec_id() == Some(k as usize)
            &&& m.spec_group_id() == Some(group_id)
            &&& m.spec_name() == old(group)@[k].spec_name()
            &&& m.spec_files() == old(group)@[k].spec_files()
            &&& m.spec_redundancy() == old(group)@[k].spec_redundancy()
            &&& r.spec_table()[k] == (k as usize, m.spec_name())
        },
{
    let mut table = MediaTable::new();
    let mut k: usize = 0;
    while k < group.len()
        invariant
            k <= group@.len(),
            group@.len() == old(group)@.len(),
            group@.len() <= 3,
            table.spec_table().len() == k,
            forall|j: int| k <= j < group@.len() ==> #[trigger] group@[j] == old(group)@[j],
            forall|j: int| 0 <= j < k ==> {
                let m = #[trigger] group@[j];
                &&& m.spec_id() == Some(j as usize)
                &&& m.spec_group_id() == Some(group_id)
                &&& m.spec_name() == old(group)@[j].spec_name()
                &&& m.spec_files() == old(group)@[j].spec_files()
                &&& m.spec_redundancy() == old(group)@[j].spec_redundancy()
                &&& table.spec_table()[j] == (j as usize, m.spec_name())
            },
        decreases group@.len() - k,
    {
        group[k].set_group_id(group_id);
        let id = table.add(&group[k]);
        group[k].set_id(id);
        k += 1;
    }
    table
}

/// The files of a sequence of media, medium after medium.
pub open spec fn media_files(media: Seq<Medium>) -> Seq<File>
    decreases media.len(),
{
    if media.len() == 0 {
        Seq::empty()
    } else {
        media_files(media.drop_last()) + media.last().spec_files()
    }
}

/// The block size for a whole backup: the candidate of least cost for all
/// files of all media, the smallest one among equals. Fails when a file does
/// not lie under its root.
pub fn backup_block_size(media: &Vec<Medium>) -> (r: Result<u64, Error>)
    ensures
        ({
            let files = media_files(media@);
            let sizes = Seq::new(files.len(), |i: int| files[i].len);
            let lens = Seq::new(files.len(), |i: int| logical_len(files[i]));
            &&& r is Ok <==> forall|i: int|
                0 <= i < files.len() ==> stripped_of((#[trigger] files[i]).path@.1, files[i].path@.0) is Some
            &&& r is Err ==> r == Err::<u64, Error>(Error::NotUnderPrefix)
            &&& r matches Ok(b) ==> {
                &&& exists|k: nat| k < BLOCK_SIZE_COUNT && b == candidate(k)
                &&& forall|k: nat|
                    k < BLOCK_SIZE_COUNT ==> cost(sizes, lens, b as nat) <= cost(sizes, lens, #[trigger] candidate(k))
                &&& forall|k: nat|
                    k < BLOCK_SIZE_COUNT && #[trigger] candidate(k) < b ==> cost(sizes, lens, b as nat)
                        < cost(sizes, lens, candidate(k))
            }
        }),
{
    let mut files: Vec<&File> = Vec::new();
    let mut i: usize = 0;
    while i < media.len()
        invariant
            i <= media@.len(),
            files@.len() == media_files(media@.subrange(0, i as int)).len(),
            forall|t: int| 0 <= t < files@.len() ==> *files@[t] == #[trigger] media_files(media@.subrange(0, i as int))[t],
        decreases media@.len() - i,
    {
        let list = media[i].files();
        let ghost done = media_files(media@.subrange(0, i as int));
        proof {
            assert(media@.subrange(0, i + 1).drop_last() =~= media@.subrange(0, i as int));
        }
        let mut j: usize = 0;
        while j < list.len()
            invariant
                j <= list@.len(),
                i < media@.len(),
                list@ == media@[i as int].spec_files(),
                files@.len() == done.len() + j,
                forall|t: int| 0 <= t < done.len() ==> *files@[t] == #[trigger] done[t],
                forall|t: int| 0 <= t < j ==> *files@[done.len() + t] == #[trigger] list@[t],
            decreases list@.len() - j,
        {
            files.push(&list[j]);
            j += 1;
        }
        proof {
            let next = media_files(media@.subrange(0, i + 1));
            assert(next == done + list@);
            assert forall|t: int| 0 <= t < files@.len() implies *files@[t] == #[trigger] next[t] by {
                if t >= done.len() {
                    assert(*files@[done.len() + (t - done.len())] == list@[t - done.len()]);
                }
            }
        }
        i += 1;
    }
    let ghost all = media_files(media@);
    proof {
        assert(media@.subrange(0, i as int) =~= media@);
        assert(files@.len() == all.len());
        assert forall|t: int| 0 <= t < files@.len() implies *files@[t] == all[t] by {
            assert(*files@[t] == media_files(media@.subrange(0, i as int))[t]);
        }
    }
    let stats = match Stats::new().files(files.as_slice()) {
        Ok(stats) => stats,
        Err(e) => {
            proof {
                let bad = choose|t: int| 0 <= t < files@.len() && !(stripped_of(files@[t].path@.1, files@[t].path@.0) is Some);
                assert(*files@[bad] == all[bad]);
            }
            return Err(e);
        },
    };
    proof {
        assert forall|t: int| 0 <= t < all.len() implies stripped_of((#[trigger] all[t]).path@.1, all[t].path@.0) is Some by {
            assert(*files@[t] == all[t]);
        }
        assert forall|t: int| 0 <= t < all.len() implies #[trigger] stats.file_sizes@[t] == all[t].len
            && stats.path_lens@[t] == logical_len(all[t]) by {
            assert(*files@[t] == all[t]);
            assert(stats.file_sizes@[t] == files@[t].len);
            assert(stats.path_lens@[t] == logical_len(*files@[t]));
        }
        assert(stats.file_sizes@ =~= Seq::new(all.len(), |i: int| all[i].len));
        assert forall|t: int| 0 <= t < all.len() implies #[trigger] stats.path_lens@[t] == logical_len(all[t]) by {
            assert(stats.file_sizes@[t] == all[t].len);
        }
        assert(stats.path_lens@ =~= Seq::new(all.len(), |i: int| logical_len(all[i])));
    }
    Ok(BlockSize::new(stats).block_size())
}

/// Records a redundancy file in the group's tables: the file gets the next
/// id in the file table, and each of its blocks a record naming that id.
pub fn add_redundancy_file(
    file_table: &mut FileTable,
    redun_table: &mut RedundancyTable,
    redun: &Medium,
    file: &File,
    partial_indices: &Vec<PartialIndex>,
) -> (r: Result<usize, Error>)
    requires
        old(file_table).wf(),
        redun.spec_id() is Some,
        old(file_table).spec_table().len() < usize::MAX,
    ensures
        final(file_table).wf(),
        r is Ok <==> crate::path::stripped_of(file.path@.1, file.path@.0) is Some,
        r matches Ok(id) ==> id == old(file_table).spec_table().len() && final(file_table).spec_table().len()
            == id + 1 && crate::index::entry_for(
            final(file_table).spec_table()[id as int],
            id as int,
            redun.spec_id()->0,
            *file,
        ) && final(redun_table).spec_table().len() == old(redun_table).spec_table().len()
            + partial_indices@.len() && final(redun_table).spec_table().subrange(
            0,
            old(redun_table).spec_table().len() as int,
        ) == old(redun_table).spec_table() && forall|k: int|
            0 <= k < partial_indices@.len() ==> indexes(
                #[trigger] final(redun_table).spec_table()[old(redun_table).spec_table().len() + k],
                partial_indices@[k],
                id,
            ),
        r is Err ==> r == Err::<usize, Error>(Error::NotUnderPrefix) && final(redun_table).spec_table() == old(redun_table).spec_table(),
{
    let file_id = file_table.add(redun, file)?;
    let mut k: usize = 0;
    while k < partial_indices.len()
        invariant
            k <= partial_indices@.len(),
            redun_table.spec_table().len() == old(redun_table).spec_table().len() + k,
            redun_table.spec_table().subrange(0, old(redun_table).spec_table().len() as int)
                == old(redun_table).spec_table(),
            forall|j: int|
                0 <= j < k ==> indexes(
                    #[trigger] redun_table.spec_table()[old(redun_table).spec_table().len() + j],
                    partial_indices@[j],
                    file_id,
                ),
        decreases partial_indices@.len() - k,
    {
        let ghost before = redun_table.spec_table();
        redun_table.add(redundancy_index(&partial_indices[k], file_id));
        proof {
            assert forall|j: int| 0 <= j < k + 1 implies indexes(
                #[trigger] redun_table.spec_table()[old(redun_table).spec_table().len() + j],
                partial_indices@[j],
                file_id,
            ) by {
                if j < k {
                    assert(redun_table.spec_table()[old(redun_table).spec_table().len() + j]
                        == before[old(redun_table).spec_table().len() + j]);
                }
            }
            assert(redun_table.spec_table().subrange(0, old(redun_table).spec_table().len() as int)
                =~= old(redun_table).spec_table());
        }
        k += 1;
    }
    Ok(file_id)
}

} // verus!
