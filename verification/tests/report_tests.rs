use folder_stats::record::{build_record, FileInfo};
use folder_stats::report::{aggregate, FileTypeInfo};

fn rec(path: &str, name: &str, size: u64, modified_ts: i64, depth: usize) -> FileInfo {
    build_record(
        path.to_string(),
        name.to_string(),
        size,
        String::new(),
        modified_ts,
        depth,
    )
}

fn bucket(report_types: &Vec<(String, FileTypeInfo)>, key: &str) -> Option<FileTypeInfo> {
    for (k, info) in report_types.iter() {
        if k.as_str() == key {
            return Some(*info);
        }
    }
    None
}

#[test]
fn empty_tree_gives_zeroed_report() {
    let r = aggregate(Vec::new(), 0, 0, 1_000_000);
    assert_eq!(r.total_files, 0);
    assert_eq!(r.total_size, 0);
    assert_eq!(r.total_folders, 0);
    assert!(r.file_types.is_empty());
    assert!(r.largest_files.is_empty());
    assert!(r.oldest_file.is_none());
    assert!(r.newest_file.is_none());
    assert_eq!(r.total_age_seconds, 0);
    assert_eq!(r.max_depth, 0);
    assert_eq!(r.hidden_file_count, 0);
    assert!(r.duplicate_patterns.is_empty());
    assert_eq!(r.naming_stats.snake_case_count, 0);
    assert_eq!(r.naming_stats.kebab_case_count, 0);
    assert_eq!(r.naming_stats.camel_case_count, 0);
}

#[test]
fn mixed_directory_scenario() {
    let files = vec![
        rec("d/a.txt", "a.txt", 10, 600, 1),
        rec("d/a.md", "a.md", 20, 600, 1),
        rec("d/B_final.TXT", "B_final.TXT", 5, 600, 1),
        rec("d/.hidden", ".hidden", 1, 600, 1),
    ];
    let r = aggregate(files, 0, 1, 600);
    assert_eq!(r.total_files, 4);
    assert_eq!(r.total_size, 36);
    assert!(r.hidden_file_count >= 1);

    let txt = bucket(&r.file_types, "txt").expect("txt bucket");
    assert_eq!(txt.count, 2);
    assert_eq!(txt.total_size, 15);
    assert_eq!(txt.average_size, 7);
    let md = bucket(&r.file_types, "md").expect("md bucket");
    assert_eq!(md.count, 1);
    assert_eq!(md.total_size, 20);
    assert_eq!(md.average_size, 20);
    let none = bucket(&r.file_types, "no-extension").expect("no-extension bucket");
    assert_eq!(none.count, 1);
    assert_eq!(none.total_size, 1);

    assert_eq!(r.duplicate_patterns.len(), 1);
    let dup = &r.duplicate_patterns[0];
    assert_eq!(dup.pattern, "a");
    assert_eq!(dup.count, 2);
    assert_eq!(dup.files, vec!["a.txt".to_string(), "a.md".to_string()]);

    assert_eq!(r.naming_stats.snake_case_count, 1);
    assert_eq!(r.naming_stats.kebab_case_count, 0);
    assert_eq!(r.naming_stats.camel_case_count, 0);
}

#[test]
fn bucket_counts_partition_the_files() {
    let files = vec![
        rec("x/a.rs", "a.rs", 1, 0, 1),
        rec("x/b.rs", "b.rs", 2, 0, 1),
        rec("x/c.toml", "c.toml", 3, 0, 1),
        rec("x/d", "d", 4, 0, 1),
        rec("x/e.RS", "e.RS", 5, 0, 2),
    ];
    let r = aggregate(files, 1, 0, 0);
    let count_sum: usize = r.file_types.iter().map(|(_, b)| b.count).sum();
    let size_sum: u64 = r.file_types.iter().map(|(_, b)| b.total_size).sum();
    assert_eq!(count_sum, r.total_files);
    assert_eq!(size_sum, r.total_size);
    let rs = bucket(&r.file_types, "rs").expect("rs bucket");
    assert_eq!(rs.count, 3);
    assert_eq!(rs.total_size, 8);
    assert_eq!(rs.average_size, 2);
}

#[test]
fn largest_files_sorted_capped_and_stable() {
    let mut files = Vec::new();
    for i in 0..12u64 {
        let name = format!("f{}.bin", i);
        files.push(rec(&format!("d/{}", name), &name, i + 1, 0, 1));
    }
    let r = aggregate(files, 0, 0, 0);
    assert_eq!(r.largest_files.len(), 10);
    for w in r.largest_files.windows(2) {
        assert!(w[0].size >= w[1].size);
    }
    assert_eq!(r.largest_files[0].size, 12);
    assert_eq!(r.largest_files[9].size, 3);
}

#[test]
fn largest_files_ties_keep_encounter_order() {
    let files = vec![
        rec("d/first.a", "first.a", 7, 0, 1),
        rec("d/big.a", "big.a", 9, 0, 1),
        rec("d/second.a", "second.a", 7, 0, 1),
    ];
    let r = aggregate(files, 0, 0, 0);
    assert_eq!(r.largest_files[0].name, "big.a");
    assert_eq!(r.largest_files[1].name, "first.a");
    assert_eq!(r.largest_files[2].name, "second.a");
}

#[test]
fn oldest_and_newest_first_seen_win_ties() {
    let files = vec![
        rec("d/a", "a", 1, 500, 1),
        rec("d/b", "b", 1, 300, 1),
        rec("d/c", "c", 1, 300, 1),
        rec("d/d", "d", 1, 900, 1),
        rec("d/e", "e", 1, 900, 1),
    ];
    let r = aggregate(files, 0, 0, 1000);
    assert_eq!(r.oldest_file.expect("oldest").name, "b");
    assert_eq!(r.newest_file.expect("newest").name, "d");
}

#[test]
fn age_sum_is_exact() {
    let files = vec![
        rec("d/a", "a", 1, 86_400, 1),
        rec("d/b", "b", 1, 86_400, 1),
        rec("d/c", "c", 1, 0, 1),
    ];
    let r = aggregate(files, 0, 0, 172_800);
    // two files one day old, one file two days old
    assert_eq!(r.total_age_seconds, 86_400 + 86_400 + 172_800);
}

#[test]
fn age_sum_handles_future_timestamps() {
    let files = vec![rec("d/a", "a", 1, 2_000, 1)];
    let r = aggregate(files, 0, 0, 1_000);
    assert_eq!(r.total_age_seconds, -1_000);
}

#[test]
fn duplicates_group_across_directories() {
    let files = vec![
        rec("one/report.txt", "report.txt", 1, 0, 1),
        rec("two/report.md", "report.md", 2, 0, 2),
        rec("three/report.pdf", "report.pdf", 3, 0, 3),
        rec("one/unique.txt", "unique.txt", 4, 0, 1),
    ];
    let r = aggregate(files, 3, 0, 0);
    assert_eq!(r.duplicate_patterns.len(), 1);
    let dup = &r.duplicate_patterns[0];
    assert_eq!(dup.pattern, "report");
    assert_eq!(dup.count, 3);
    assert_eq!(
        dup.files,
        vec![
            "report.txt".to_string(),
            "report.md".to_string(),
            "report.pdf".to_string()
        ]
    );
    assert_eq!(r.total_folders, 3);
}

#[test]
fn naming_classes_are_mutually_exclusive_per_file() {
    let files = vec![
        rec("d/snake_and-kebab.rs", "snake_and-kebab.rs", 1, 0, 1),
        rec("d/Kebab-Upper.rs", "Kebab-Upper.rs", 1, 0, 1),
        rec("d/CamelOnly.rs", "CamelOnly.rs", 1, 0, 1),
        rec("d/flat.rs", "flat.rs", 1, 0, 1),
    ];
    let r = aggregate(files, 0, 0, 0);
    assert_eq!(r.naming_stats.snake_case_count, 1);
    assert_eq!(r.naming_stats.kebab_case_count, 1);
    assert_eq!(r.naming_stats.camel_case_count, 1);
    let total = r.naming_stats.snake_case_count
        + r.naming_stats.kebab_case_count
        + r.naming_stats.camel_case_count;
    assert!(total <= r.total_files);
}

#[test]
fn max_depth_comes_from_files_only() {
    let files = vec![
        rec("d/a", "a", 1, 0, 1),
        rec("d/e/f/deep.txt", "deep.txt", 1, 0, 3),
        rec("d/e/mid.txt", "mid.txt", 1, 0, 2),
    ];
    let r = aggregate(files, 2, 0, 0);
    assert_eq!(r.max_depth, 3);
}

#[test]
fn reports_are_identical_apart_from_ages() {
    let make = || {
        vec![
            rec("d/a.txt", "a.txt", 10, 100, 1),
            rec("d/b.txt", "b.txt", 20, 200, 1),
        ]
    };
    let r1 = aggregate(make(), 1, 0, 1_000);
    let r2 = aggregate(make(), 1, 0, 4_000);
    assert_eq!(r1.total_files, r2.total_files);
    assert_eq!(r1.total_size, r2.total_size);
    assert_eq!(r1.file_types, r2.file_types);
    assert_eq!(
        r1.largest_files.iter().map(|f| f.name.clone()).collect::<Vec<_>>(),
        r2.largest_files.iter().map(|f| f.name.clone()).collect::<Vec<_>>()
    );
    assert_eq!(
        r1.oldest_file.as_ref().map(|f| f.name.clone()),
        r2.oldest_file.as_ref().map(|f| f.name.clone())
    );
    assert_eq!(
        r1.newest_file.as_ref().map(|f| f.name.clone()),
        r2.newest_file.as_ref().map(|f| f.name.clone())
    );
    assert_eq!(r1.max_depth, r2.max_depth);
    assert_eq!(r1.naming_stats, r2.naming_stats);
    // the age sum moves by exactly file count times the elapsed seconds
    assert_eq!(r2.total_age_seconds - r1.total_age_seconds, 2 * 3_000);
}

#[test]
fn average_age_in_days_derives_from_the_age_sum() {
    // one file half a day old, one file one and a half days old
    let files = vec![
        rec("d/a", "a", 1, 129_600, 1),
        rec("d/b", "b", 1, 43_200, 1),
    ];
    let r = aggregate(files, 0, 0, 172_800);
    let avg_days = (r.total_age_seconds as f64) / 86400.0 / (r.total_files as f64);
    assert!((avg_days - 1.0).abs() < 1e-9);

    let empty = aggregate(Vec::new(), 0, 0, 172_800);
    let empty_avg = if empty.total_files > 0 {
        (empty.total_age_seconds as f64) / 86400.0 / (empty.total_files as f64)
    } else {
        0.0
    };
    assert_eq!(empty_avg, 0.0);
}

#[test]
fn largest_files_carry_whole_records() {
    let files = vec![
        rec("root/sub/big.dat", "big.dat", 100, 60, 2),
        rec("root/small.dat", "small.dat", 1, 120, 1),
    ];
    let r = aggregate(files, 1, 0, 180);
    assert_eq!(r.largest_files.len(), 2);
    assert_eq!(r.largest_files[0].path, "root/sub/big.dat");
    assert_eq!(r.largest_files[0].name, "big.dat");
    assert_eq!(r.largest_files[0].extension, "dat");
    assert_eq!(r.largest_files[0].size, 100);
    assert_eq!(r.largest_files[0].depth, 2);
    assert_eq!(r.oldest_file.as_ref().expect("oldest").name, "big.dat");
    assert_eq!(r.newest_file.as_ref().expect("newest").name, "small.dat");
}

#[test]
fn try_aggregate_matches_aggregate_on_ordinary_input() {
    let files = vec![rec("d/a.txt", "a.txt", 10, 0, 1)];
    let r = folder_stats::report::try_aggregate(files, 0, 0, 60).expect("in bounds");
    assert_eq!(r.total_files, 1);
    assert_eq!(r.total_size, 10);
    assert_eq!(r.total_age_seconds, 60);
}

#[test]
fn try_aggregate_refuses_an_overflowing_byte_total() {
    let files = vec![
        rec("d/a", "a", u64::MAX, 0, 1),
        rec("d/b", "b", 1, 0, 1),
    ];
    assert!(folder_stats::report::try_aggregate(files, 0, 0, 0).is_none());
}
