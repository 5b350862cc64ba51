use redundant_backup::block::{Block, BlockIter, File as BlockFile};
use redundant_backup::block_size::{estimate_size_of_tables, BlockSize};
use redundant_backup::disperse::Disperse;
use redundant_backup::errors::Error;
use redundant_backup::index::{FileTable, MediaTable, RedundancyIndex, RedundancyTable};
use redundant_backup::medium::Medium;
use redundant_backup::path::{make_logical_path, Path};
use redundant_backup::plan::{
    add_redundancy_file, check_units_fit, estimate_media_count, make_media, plan_media,
    register_group, select_location, split_groups,
};
use redundant_backup::redundancy::redun::{PartialIndex, PartialIndexKind};
use redundant_backup::stats::Stats;
use redundant_backup::unit::{file_is_hidden, File, Unit};
use redundant_backup::unitset::{detect_cycle, Scan, UnitSet};

fn file(root: &str, path: &str, len: u64) -> File {
    File::new(Path::with_prefix(root).path(path), len)
}

fn unit(root: &str, path: &str, parent: usize, files: Vec<File>) -> Unit {
    Unit::new(Path::with_prefix(root).path(path), parent, files).unwrap()
}

fn set_of(units: Vec<Unit>) -> UnitSet {
    let mut set = UnitSet::new();
    for u in units {
        set.push(u).unwrap();
    }
    set
}

#[test]
fn logical_path_strips_prefix() {
    let p = Path::with_prefix("/a").path("/a/b/c");
    assert_eq!(p.logical().unwrap(), "b/c");
    assert!(Path::with_prefix("/x").path("/a/b").logical().is_none());
    assert_eq!(make_logical_path("/a", "/a").unwrap(), "");
}

#[test]
fn ancestors_by_component() {
    let a = Path::with_prefix("/").path("/a/b");
    let inside = Path::with_prefix("/").path("/a/b/c");
    let sibling = Path::with_prefix("/").path("/a/bc");
    assert!(a.is_ancestor(&inside));
    assert!(a.is_ancestor(&a));
    assert!(!a.is_ancestor(&sibling));
}

#[test]
fn hidden_files_by_name() {
    assert!(file_is_hidden(&file("/", "/a/.hidden", 1)));
    assert!(!file_is_hidden(&file("/", "/a/seen", 1)));
}

#[test]
fn small_units_ignore_hidden_files() {
    let big = 20 * 1024 * 1024;
    let u = unit("/", "/a", 0, vec![file("/", "/a/.big", big), file("/", "/a/x", 1)]);
    assert!(u.is_small());
    let v = unit("/", "/b", 0, vec![file("/", "/b/big", big)]);
    assert!(!v.is_small());
}

#[test]
fn unit_length_is_sum_of_files() {
    let u = unit("/", "/a", 0, vec![file("/", "/a/x", 3), file("/", "/a/y", 4)]);
    assert_eq!(u.len, 7);
    let e = Unit::new(
        Path::with_prefix("/"),
        0,
        vec![file("/", "/a/x", u64::MAX), file("/", "/a/y", 1)],
    );
    assert_eq!(e.unwrap_err(), Error::LengthOverflow);
}

/// Three nested directories of small files all fold into the root.
#[test]
fn small_files_coalesce() {
    let mut set = set_of(vec![
        unit("/a", "/a", 0, vec![file("/a", "/a/x", 1024)]),
        unit("/a", "/a/b", 0, vec![file("/a", "/a/b/y", 1024)]),
        unit("/a", "/a/b/c", 1, vec![file("/a", "/a/b/c/z", 1024)]),
    ]);
    let plan = set.plan_merges();
    assert_eq!(plan, vec![(1, 0), (2, 0)]);
    set.execute_merges(&plan);
    assert_eq!(set.0.len(), 1);
    assert_eq!(set.0[0].files.0.len(), 3);
    assert_eq!(set.0[0].len, 3072);
    assert_eq!(set.len(), 3072);
}

/// A small directory under a large one folds into the large one, not the root.
#[test]
fn merge_stops_at_large_ancestor() {
    let big = 11 * 1024 * 1024;
    let mut set = set_of(vec![
        unit("/r", "/r", 0, vec![file("/r", "/r/a", 1)]),
        unit("/r", "/r/big", 0, vec![file("/r", "/r/big/f", big)]),
        unit("/r", "/r/big/s", 1, vec![file("/r", "/r/big/s/g", 5)]),
        unit("/r", "/r/t", 0, vec![file("/r", "/r/t/h", 7)]),
    ]);
    let plan = set.plan_merges();
    assert_eq!(plan, vec![(2, 1), (3, 0)]);
    set.execute_merges(&plan);
    assert_eq!(set.0.len(), 2);
    assert_eq!(set.0[1].len, big + 5);
    assert_eq!(set.0[0].len, 8);
    assert!(!set.0[1].is_small());
    assert_eq!(set.small_units(), vec![0]);
}

#[test]
fn shifting_keeps_total() {
    let mut a = set_of(vec![
        unit("/", "/a", 0, vec![file("/", "/a/x", 5)]),
        unit("/", "/b", 0, vec![file("/", "/b/x", 6)]),
    ]);
    let mut b = UnitSet::new();
    a.shift_to(&mut b).unwrap();
    assert_eq!((a.len(), b.len()), (5, 6));
    a.shift_to(&mut b).unwrap();
    assert_eq!((a.len(), b.len()), (0, 11));
    assert_eq!(a.shift_to(&mut b), Err(Error::EmptyUnitSet));
    a.shift_from(&mut b);
    assert_eq!((a.len(), b.len()), (5, 6));
    a.undo_shift(&mut b);
    assert_eq!((a.len(), b.len()), (0, 11));
}

#[test]
fn ancestors_and_cycles() {
    let set = set_of(vec![
        unit("/", "/r", 0, vec![]),
        unit("/", "/r/a", 0, vec![]),
        unit("/", "/r/a/b", 1, vec![]),
    ]);
    assert_eq!(set.ancestors(2), vec![2, 1, 0]);
    let chain: Vec<Path> = vec![
        Path::with_prefix("/").path("/r/a/b"),
        Path::with_prefix("/").path("/r/a"),
        Path::with_prefix("/").path("/r"),
    ];
    assert!(detect_cycle(&Path::with_prefix("/").path("/r/a"), &chain));
    assert!(!detect_cycle(&Path::with_prefix("/").path("/elsewhere"), &chain));
}

/// Media lengths [100, 0, 0, 0] made of units of 40, 30, 20 and 10 spread to
/// one unit per medium.
#[test]
fn disperser_balances() {
    let first = set_of(vec![
        unit("/", "/a", 0, vec![file("/", "/a/x", 40)]),
        unit("/", "/b", 0, vec![file("/", "/b/x", 30)]),
        unit("/", "/c", 0, vec![file("/", "/c/x", 20)]),
        unit("/", "/d", 0, vec![file("/", "/d/x", 10)]),
    ]);
    let media = vec![first, UnitSet::new(), UnitSet::new(), UnitSet::new()];
    let mut d = Disperse::new(media, 5).unwrap();
    assert!(!d.is_goal_met());
    let before = d.measure();
    d.disperse();
    assert!(d.measure() < before);
    let lens: Vec<u64> = d.media().iter().map(|m| m.len()).collect();
    assert_eq!(lens, vec![40, 30, 20, 10]);
    assert_eq!(d.mean(), 25);
    assert_eq!(d.into_media().iter().map(|m| m.len()).sum::<u64>(), 100);
}

#[test]
fn disperser_goal_on_even_media() {
    let a = set_of(vec![unit("/", "/a", 0, vec![file("/", "/a/x", 50)])]);
    let b = set_of(vec![unit("/", "/b", 0, vec![file("/", "/b/x", 50)])]);
    let d = Disperse::new(vec![a, b], 5).unwrap();
    assert!(d.is_goal_met());
    let e = Disperse::new(vec![UnitSet::new(), UnitSet::new()], 5).unwrap();
    assert!(!e.is_goal_met());
}

#[test]
fn disperser_step_stops_without_improvement() {
    let a = set_of(vec![unit("/", "/a", 0, vec![file("/", "/a/x", 10)])]);
    let b = set_of(vec![unit("/", "/b", 0, vec![file("/", "/b/x", 10)])]);
    let mut d = Disperse::new(vec![a, b], 0).unwrap();
    assert!(!d.step());
}

#[test]
fn disperser_rejects_oversized_arithmetic() {
    let a = set_of(vec![unit("/", "/a", 0, vec![file("/", "/a/x", u64::MAX)])]);
    let r = Disperse::new(vec![a, UnitSet::new()], 5);
    assert_eq!(r.err(), Some(Error::LengthOverflow));
}

fn total_cost(sizes: &[u64], path_lens: &[usize], b: u64) -> u128 {
    let b = b as u128;
    let loss: u128 = sizes.iter().map(|&s| b - (s as u128) % b).sum();
    let records: u128 = sizes.iter().map(|&s| (s as u128 + b - 1) * 64 / b).sum();
    let index: u128 = path_lens.iter().map(|&p| p as u128).sum();
    loss + records + index
}

#[test]
fn block_size_is_argmin() {
    let sizes = vec![1_000u64, 10_000, 1_000_000];
    let path_lens = vec![30usize, 30, 40];
    let mut best = (u128::MAX, 0u64);
    for k in 9..28 {
        let b = 1u64 << k;
        let c = total_cost(&sizes, &path_lens, b);
        if c < best.0 {
            best = (c, b);
        }
    }
    let stats = Stats { path_lens, file_sizes: sizes };
    assert_eq!(BlockSize::new(stats).block_size(), best.1);
}

#[test]
fn block_size_of_nothing_is_smallest() {
    assert_eq!(BlockSize::new(Stats::new()).block_size(), 512);
}

#[test]
fn table_size_formula() {
    // (1000 + 511) * 64 / 512 = 188, plus the path lengths
    assert_eq!(estimate_size_of_tables(512, &[10, 20], &[1000]), 188 + 30);
    assert_eq!(estimate_size_of_tables(512, &[], &[512]), 127);
}

#[test]
fn stats_from_files() {
    let a = file("/r", "/r/x/yé", 5);
    let b = file("/r", "/r/z", 7);
    let stats = Stats::new().files(&[&a, &b]).unwrap();
    assert_eq!(stats.file_sizes, vec![5, 7]);
    assert_eq!(stats.path_lens, vec![5, 1]);
    let c = file("/q", "/r/z", 7);
    assert_eq!(Stats::new().files(&[&c]).err(), Some(Error::NotUnderPrefix));
}

#[test]
fn media_count_is_even() {
    assert_eq!(estimate_media_count(1024, 1 << 20), 2);
    assert_eq!(estimate_media_count(3 << 20, 1 << 20), 4);
    assert_eq!(estimate_media_count(4 << 20, 1 << 20), 4);
    assert_eq!(estimate_media_count(0, 1 << 20), 0);
    assert_eq!(estimate_media_count(u64::MAX, 1), 1 << 64);
}

#[test]
fn oversized_unit_is_fatal() {
    let size = 1 << 20;
    let set = set_of(vec![unit("/", "/a", 0, vec![file("/", "/a/x", size + 1)])]);
    assert_eq!(check_units_fit(&set, size), Err(Error::MediumOverflow));
    assert_eq!(plan_media(set, size).err(), Some(Error::MediumOverflow));
}

#[test]
fn single_small_file_plan() {
    let set = set_of(vec![unit("/", "/a", 0, vec![file("/", "/a/x", 1024)])]);
    let sets = plan_media(set, 1 << 20).unwrap();
    assert_eq!(sets.len(), 2);
    assert_eq!(sets[0].len() + sets[1].len(), 1024);
    let media = make_media(sets, 1 << 20).unwrap();
    assert_eq!(media.len(), 3);
    assert_eq!(media[0].name(), "Apple");
    assert_eq!(media[1].name(), "Avocado");
    assert_eq!(media[2].name(), "Banana");
    assert!(media[2].is_redundancy());
    let groups = split_groups(media);
    assert_eq!(groups.len(), 1);
    assert_eq!(groups[0].len(), 3);
}

#[test]
fn too_many_media_for_names() {
    let sets: Vec<UnitSet> = (0..6).map(|_| UnitSet::new()).collect();
    assert_eq!(make_media(sets, 1).err(), Some(Error::OutOfNames));
}

#[test]
fn groups_of_three_with_tail() {
    let media: Vec<Medium> = (0..7).map(|_| Medium::new("m", 1)).collect();
    let groups = split_groups(media);
    let sizes: Vec<usize> = groups.iter().map(|g| g.len()).collect();
    assert_eq!(sizes, vec![3, 3, 1]);
}

#[test]
fn group_registration_and_tables() {
    let mut data = Medium::new("Apple", 100);
    data.push_file(file("/r", "/r/one", 3));
    data.push_file(file("/r", "/r/two", 4));
    let other = Medium::new("Avocado", 100);
    let redun = Medium::new("Banana", 100).redundancy(true);
    let mut group = vec![data, other, redun];
    let table: MediaTable = register_group(&mut group, 7);
    assert_eq!(table.identifier(), "Media Index Table");
    assert_eq!(
        table.entries(),
        &vec![
            (0, "Apple".to_string()),
            (1, "Avocado".to_string()),
            (2, "Banana".to_string())
        ]
    );
    assert_eq!(group[2].id(), 2);
    assert_eq!(group[1].group_id(), 7);

    let mut files = FileTable::new(&group).unwrap();
    assert_eq!(files.identifier(), "File Index Table");
    let entries = files.entries();
    assert_eq!(entries.len(), 2);
    assert_eq!(entries[1].id(), 1);
    assert_eq!(entries[1].medium_id(), 0);
    assert_eq!(entries[1].path(), "two");
    assert_eq!(entries[1].size(), 4);
    assert_eq!(entries[1].actual_path(), "/r/two");
    let streamed = files.block_files(0);
    assert_eq!(streamed.len(), 2);
    assert_eq!(streamed[0].path, "/r/one");
    assert!(files.block_files(1).is_empty());

    let mut redun_table = RedundancyTable::new();
    assert_eq!(redun_table.identifier(), "Redundancy Index Table");
    let hash = [7u8; 20];
    let partials = vec![PartialIndex {
        kind: PartialIndexKind::Replication {
            original: redundant_backup::index::Block::new(0, 0, 3, &hash),
        },
        id: 0,
        len: 3,
        hash,
    }];
    let spill = file("/w", "/w/0000000000", 19);
    let id = add_redundancy_file(&mut files, &mut redun_table, &group[2], &spill, &partials).unwrap();
    assert_eq!(id, 2);
    assert_eq!(files.entries()[2].medium_id(), 2);
    match &redun_table.entries()[0] {
        RedundancyIndex::Replication { original, replication } => {
            assert_eq!(original.file, 0);
            assert_eq!(replication.file, 2);
            assert_eq!(replication.block, 0);
            assert_eq!(replication.size, 3);
        }
        _ => panic!("expected a replication"),
    }
}

/// Three files of 4, 16 and 20 bytes streamed in blocks of 16 bytes.
#[test]
fn test_block_iter() {
    let contents: [&[u8]; 3] = [b"1234", b"1234567890123456", b"12345678901234567890"];
    let files = vec![
        BlockFile::new(0, "./test1"),
        BlockFile::new(1, "./test2"),
        BlockFile::new(2, "./test3"),
    ];
    let mut iter = BlockIter::new(16, files);

    // the caller's side: read the open file block by block
    let mut current: Option<(usize, usize)> = None;
    let mut opened = 0;
    let mut next_block = |iter: &mut BlockIter| -> Option<Block> {
        loop {
            if !iter.is_open() {
                match iter.open_next() {
                    Some(_) => {
                        current = Some((opened, 0));
                        opened += 1;
                    }
                    None => return None,
                }
            }
            let (f, offset) = current.unwrap();
            let data = contents[f];
            let n = std::cmp::min(16, data.len() - offset);
            let mut buf = vec![0u8; 16];
            buf[..n].copy_from_slice(&data[offset..offset + n]);
            current = Some((f, offset + n));
            if let Some(block) = iter.cut(buf, n) {
                return Some(block);
            }
        }
    };

    let mut file_id = 0;
    let mut block_count = 0;
    let blocks: [&[u8]; 4] = [b"1234", b"1234567890123456", b"1234567890123456", b"7890"];

    fn abs(n: isize) -> isize {
        if n < 0 {
            -n
        } else {
            n
        }
    }

    while let Some(block) = next_block(&mut iter) {
        assert_eq!(
            block.file_id(),
            (-abs(2 * file_id as isize - 5) + 5) as usize / 2
        );
        file_id += 1;
        assert_eq!(block.block_id(), (block_count + 1) / 4);
        assert_eq!(block.data(), blocks[block_count]);
        block_count += 1;
    }
    assert_eq!(block_count, 4);
}

#[test]
fn location_prefers_same_file_system() {
    assert_eq!(select_location(&vec![(false, true), (true, true)]), Some(1));
    assert_eq!(select_location(&vec![(true, false), (false, true)]), Some(1));
    assert_eq!(select_location(&vec![(true, false), (false, false)]), None);
    assert_eq!(select_location(&vec![(true, true), (false, true)]), Some(0));
}

#[test]
fn scan_builds_a_tree() {
    let mut scan = Scan::new(Path::with_prefix("/r").path("/r"), vec![file("/r", "/r/f", 2)]).unwrap();
    assert_eq!(scan.current(), Some(0));
    scan.enter(Path::with_prefix("/r").path("/r/a"), vec![file("/r", "/r/a/g", 3)]).unwrap();
    scan.enter(Path::with_prefix("/r").path("/r/a/b"), vec![]).unwrap();
    assert_eq!(scan.ancestors(), vec![2, 1, 0]);
    scan.finish_dir();
    scan.finish_dir();
    scan.enter(Path::with_prefix("/r").path("/r/c"), vec![]).unwrap();
    assert_eq!(scan.unit(3).parent, 0);
    scan.finish_dir();
    scan.finish_dir();
    assert_eq!(scan.current(), None);
    let set = scan.into_set();
    assert_eq!(set.len(), 5);
    let parents: Vec<usize> = set.0.iter().map(|u| u.parent).collect();
    assert_eq!(parents, vec![0, 0, 1, 0]);
}

#[test]
fn shift_to_refuses_overflow() {
    let mut a = set_of(vec![unit("/", "/a", 0, vec![file("/", "/a/x", 10)])]);
    let mut b = set_of(vec![unit("/", "/b", 0, vec![file("/", "/b/x", u64::MAX - 5)])]);
    assert_eq!(a.shift_to(&mut b), Err(Error::LengthOverflow));
    assert_eq!((a.len(), b.len()), (10, u64::MAX - 5));
    assert_eq!(a.0.len(), 1);
}

/// Two moves lower the sum of squares equally; the lower medium moves.
#[test]
fn step_breaks_ties_towards_lower_medium() {
    let a = set_of(vec![
        unit("/", "/a", 0, vec![file("/", "/a/x", 1)]),
        unit("/", "/b", 0, vec![file("/", "/b/x", 1)]),
    ]);
    let c = set_of(vec![
        unit("/", "/c", 0, vec![file("/", "/c/x", 1)]),
        unit("/", "/d", 0, vec![file("/", "/d/x", 1)]),
    ]);
    let mut d = Disperse::new(vec![a, UnitSet::new(), c, UnitSet::new()], 5).unwrap();
    assert!(d.step());
    let lens: Vec<u64> = d.media().iter().map(|m| m.len()).collect();
    assert_eq!(lens, vec![1, 1, 2, 0]);
}

#[test]
fn file_table_lists_media_in_order() {
    let mut m0 = Medium::new("Apple", 100);
    m0.push_file(file("/r", "/r/a", 1));
    let mut m1 = Medium::new("Avocado", 100);
    m1.push_file(file("/r", "/r/b", 2));
    m1.push_file(file("/r", "/r/c", 3));
    let mut group = vec![m0, m1];
    let _ = register_group(&mut group, 0);
    let table = FileTable::new(&group).unwrap();
    let rows: Vec<(usize, usize, String, u64)> = table
        .entries()
        .iter()
        .map(|e| (e.id(), e.medium_id(), e.path().to_string(), e.size()))
        .collect();
    assert_eq!(
        rows,
        vec![
            (0, 0, "a".to_string(), 1),
            (1, 1, "b".to_string(), 2),
            (2, 1, "c".to_string(), 3)
        ]
    );
}
