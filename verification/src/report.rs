//! Aggregation of the collected file records into one report.

use vstd::prelude::*;
use crate::names::{
    is_snake_name, is_kebab_name, is_camel_name, lemma_naming_exclusive,
    spec_base_name,
};
use crate::record::FileInfo;

verus! {

/// Aggregate for one extension group.
#[derive(Debug, Clone, Copy, PartialEq, Eq, Structural)]
pub struct FileTypeInfo {
    pub count: usize,
    pub total_size: u64,
    pub average_size: u64,
}

/// Files sharing one base name (extension stripped), wherever they stand.
#[derive(Debug)]
pub struct DuplicateInfo {
    pub pattern: String,
    pub count: usize,
    pub files: Vec<String>,
}

/// Mutually exclusive per-file naming-convention counters.
#[derive(Debug, Clone, Copy, PartialEq, Eq, Structural)]
pub struct NamingStats {
    pub camel_case_count: usize,
    pub snake_case_count: usize,
    pub kebab_case_count: usize,
}

/// The whole report for one analysis call.
///
/// `total_age_seconds` is the sum over all files of `now - modified_ts`
/// in seconds; the caller derives the average age in days from it as
/// `total_age_seconds / 86400 / total_files` (0 when there are no files).
#[derive(Debug)]
pub struct AnalysisResult {
    pub total_files: usize,
    pub total_size: u64,
    pub total_folders: usize,
    pub file_types: Vec<(String, FileTypeInfo)>,
    pub largest_files: Vec<FileInfo>,
    pub oldest_file: Option<FileInfo>,
    pub newest_file: Option<FileInfo>,
    pub total_age_seconds: i128,
    pub max_depth: usize,
    pub hidden_file_count: usize,
    pub duplicate_patterns: Vec<DuplicateInfo>,
    pub naming_stats: NamingStats,
}

// ---------------------------------------------------------------------
// Sums, depth, ages
// ---------------------------------------------------------------------

/// Sum of the sizes of all records.
pub open spec fn sum_sizes(s: Seq<FileInfo>) -> int
    decreases s.len(),
{
    if s.len() == 0 {
        0
    } else {
        sum_sizes(s.drop_last()) + s.last().size
    }
}

/// Sum over all records of the age `now - modified_ts` in seconds.
pub open spec fn sum_ages(s: Seq<FileInfo>, now: int) -> int
    decreases s.len(),
{
    if s.len() == 0 {
        0
    } else {
        sum_ages(s.drop_last(), now) + (now - s.last().modified_ts)
    }
}

/// The greatest depth among the records, 0 when there are none.
pub open spec fn spec_max_depth(s: Seq<FileInfo>) -> int
    decreases s.len(),
{
    if s.len() == 0 {
        0
    } else if s.last().depth >= spec_max_depth(s.drop_last()) {
        s.last().depth as int
    } else {
        spec_max_depth(s.drop_last())
    }
}

pub proof fn lemma_sum_sizes_nonneg(s: Seq<FileInfo>)
    ensures
        0 <= sum_sizes(s),
    decreases s.len(),
{
    if s.len() > 0 {
        lemma_sum_sizes_nonneg(s.drop_last());
    }
}

pub proof fn lemma_sum_sizes_bounds(s: Seq<FileInfo>, i: int)
    requires
        0 <= i <= s.len(),
    ensures
        0 <= sum_sizes(s.take(i)) <= sum_sizes(s),
    decreases s.len() - i,
{
    lemma_sum_sizes_nonneg(s.take(i));
    if i == s.len() {
        assert(s.take(i) =~= s);
    } else {
        lemma_sum_sizes_bounds(s, i + 1);
        assert(s.take(i + 1).drop_last() =~= s.take(i));
        assert(s.take(i + 1).last() == s[i]);
    }
}

proof fn lemma_sum_sizes_upper(s: Seq<FileInfo>)
    ensures
        sum_sizes(s) <= s.len() * 0xffff_ffff_ffff_ffff,
    decreases s.len(),
{
    if s.len() > 0 {
        lemma_sum_sizes_upper(s.drop_last());
        assert(s.len() * 0xffff_ffff_ffff_ffff == (s.len() - 1) * 0xffff_ffff_ffff_ffff
            + 0xffff_ffff_ffff_ffff) by (nonlinear_arith);
    }
}

/// Two capture instants shift the age sum by the file count times their
/// distance: every field of the report but the age sum is a function of
/// the records, folder count and hidden count alone.
pub proof fn lemma_age_shift(s: Seq<FileInfo>, now1: int, now2: int)
    ensures
        sum_ages(s, now2) == sum_ages(s, now1) + s.len() * (now2 - now1),
    decreases s.len(),
{
    if s.len() > 0 {
        lemma_age_shift(s.drop_last(), now1, now2);
        assert(s.len() * (now2 - now1) == (s.len() - 1) * (now2 - now1) + (now2 - now1))
            by (nonlinear_arith);
    }
}

proof fn lemma_sum_ages_bound(s: Seq<FileInfo>, now: int)
    requires
        i64::MIN <= now <= i64::MAX,
    ensures
        -(s.len() as int) * 0x2_0000_0000_0000_0000 <= sum_ages(s, now)
            <= (s.len() as int) * 0x2_0000_0000_0000_0000,
    decreases s.len(),
{
    if s.len() > 0 {
        lemma_sum_ages_bound(s.drop_last(), now);
        assert((s.len() as int) * 0x2_0000_0000_0000_0000
            == ((s.len() - 1) as int) * 0x2_0000_0000_0000_0000 + 0x2_0000_0000_0000_0000)
            by (nonlinear_arith);
    }
}

/// Total byte size of the records.
pub fn total_size_of(files: &Vec<FileInfo>) -> (r: u64)
    requires
        sum_sizes(files@) <= u64::MAX,
    ensures
        r as int == sum_sizes(files@),
{
    let mut r: u64 = 0;
    let mut i: usize = 0;
    while i < files.len()
        invariant
            i <= files@.len(),
            sum_sizes(files@) <= u64::MAX,
            r as int == sum_sizes(files@.take(i as int)),
        decreases files@.len() - i,
    {
        proof {
            lemma_sum_sizes_bounds(files@, i + 1);
            assert(files@.take(i + 1).drop_last() =~= files@.take(i as int));
        }
        r = r + files[i].size;
        i = i + 1;
    }
    proof {
        assert(files@.take(files@.len() as int) =~= files@);
    }
    r
}

/// Sum of the ages of all records against the capture instant `now`.
pub fn total_age_of(files: &Vec<FileInfo>, now: i64) -> (r: i128)
    requires
        files@.len() < 0x2000_0000_0000_0000,
    ensures
        r as int == sum_ages(files@, now as int),
{
    let mut r: i128 = 0;
    let mut i: usize = 0;
    while i < files.len()
        invariant
            i <= files@.len(),
            files@.len() < 0x2000_0000_0000_0000,
            r as int == sum_ages(files@.take(i as int), now as int),
        decreases files@.len() - i,
    {
        proof {
            lemma_sum_ages_bound(files@.take(i as int), now as int);
            assert((files@.take(i as int).len() as int) * 0x2_0000_0000_0000_0000
                <= (files@.len() as int) * 0x2_0000_0000_0000_0000) by (nonlinear_arith)
                requires files@.take(i as int).len() <= files@.len();
            assert((files@.len() as int) * 0x2_0000_0000_0000_0000
                < 0x4000_0000_0000_0000_0000_0000_0000_0000) by (nonlinear_arith)
                requires files@.len() < 0x2000_0000_0000_0000;
            assert(files@.take(i + 1).drop_last() =~= files@.take(i as int));
        }
        let age: i128 = (now as i128) - (files[i].modified_ts as i128);
        r = r + age;
        i = i + 1;
    }
    proof {
        assert(files@.take(files@.len() as int) =~= files@);
    }
    r
}

/// The greatest depth among the records.
pub fn max_depth_of(files: &Vec<FileInfo>) -> (r: usize)
    ensures
        r as int == spec_max_depth(files@),
{
    let mut r: usize = 0;
    let mut i: usize = 0;
    while i < files.len()
        invariant
            i <= files@.len(),
            r as int == spec_max_depth(files@.take(i as int)),
        decreases files@.len() - i,
    {
        proof {
            assert(files@.take(i + 1).drop_last() =~= files@.take(i as int));
        }
        if files[i].depth > r {
            r = files[i].depth;
        }
        i = i + 1;
    }
    proof {
        assert(files@.take(files@.len() as int) =~= files@);
    }
    r
}

// ---------------------------------------------------------------------
// Per-extension buckets
// ---------------------------------------------------------------------

/// The grouping key of a record: its extension, or the literal
/// `no-extension` group when it has none.
pub open spec fn bucket_key(f: FileInfo) -> Seq<char> {
    if f.extension@.len() == 0 {
        "no-extension"@
    } else {
        f.extension@
    }
}

/// How many records fall under the key `k`.
pub open spec fn count_key(s: Seq<FileInfo>, k: Seq<char>) -> int
    decreases s.len(),
{
    if s.len() == 0 {
        0
    } else {
        count_key(s.drop_last(), k) + if bucket_key(s.last()) == k { 1int } else { 0int }
    }
}

/// Total byte size of the records falling under the key `k`.
pub open spec fn size_key(s: Seq<FileInfo>, k: Seq<char>) -> int
    decreases s.len(),
{
    if s.len() == 0 {
        0
    } else {
        size_key(s.drop_last(), k) + if bucket_key(s.last()) == k { s.last().size as int } else { 0int }
    }
}

/// The distinct keys of the records, in order of first encounter.
pub open spec fn keys_of(s: Seq<FileInfo>) -> Seq<Seq<char>>
    decreases s.len(),
{
    if s.len() == 0 {
        Seq::empty()
    } else {
        let rest = keys_of(s.drop_last());
        if rest.contains(bucket_key(s.last())) {
            rest
        } else {
            rest.push(bucket_key(s.last()))
        }
    }
}

/// The key column of a bucket list.
pub open spec fn bucket_keys(bs: Seq<(String, FileTypeInfo)>) -> Seq<Seq<char>> {
    bs.map_values(|p: (String, FileTypeInfo)| p.0@)
}

pub open spec fn sum_counts(bs: Seq<(String, FileTypeInfo)>) -> int
    decreases bs.len(),
{
    if bs.len() == 0 {
        0
    } else {
        sum_counts(bs.drop_last()) + bs.last().1.count
    }
}

pub open spec fn sum_bucket_sizes(bs: Seq<(String, FileTypeInfo)>) -> int
    decreases bs.len(),
{
    if bs.len() == 0 {
        0
    } else {
        sum_bucket_sizes(bs.drop_last()) + bs.last().1.total_size
    }
}

/// What the finished bucket list states about the records: the keys are
/// the distinct bucket keys in first-encounter order, each bucket carries
/// the exact count, byte total and truncated average of its group, and
/// the bucket counts and byte totals partition the whole file set.
pub open spec fn buckets_ok(bs: Seq<(String, FileTypeInfo)>, files: Seq<FileInfo>) -> bool {
    &&& bucket_keys(bs) == keys_of(files)
    &&& forall|i: int, j: int| 0 <= i < j < bs.len() ==> bs[i].0@ != bs[j].0@
    &&& forall|j: int|
        0 <= j < bs.len() ==> {
            &&& (#[trigger] bs[j].1).count as int == count_key(files, bs[j].0@)
            &&& bs[j].1.count > 0
            &&& bs[j].1.total_size as int == size_key(files, bs[j].0@)
            &&& bs[j].1.average_size as int == bs[j].1.total_size as int / bs[j].1.count as int
        }
    &&& forall|i: int|
        0 <= i < files.len() ==> keys_of(files).contains(#[trigger] bucket_key(files[i]))
    &&& sum_counts(bs) == files.len()
    &&& sum_bucket_sizes(bs) == sum_sizes(files)
}

proof fn lemma_contains_push(s: Seq<Seq<char>>, x: Seq<char>, y: Seq<char>)
    requires
        s.contains(y) || x == y,
    ensures
        s.push(x).contains(y),
{
    if s.contains(y) {
        let idx = choose|idx: int| 0 <= idx < s.len() && s[idx] == y;
        assert(s.push(x)[idx] == y);
    } else {
        assert(s.push(x)[s.len() as int] == y);
    }
}

/// Every record's key stands in the key list of the whole sequence.
pub proof fn lemma_keys_complete(s: Seq<FileInfo>, i: int)
    requires
        0 <= i < s.len(),
    ensures
        keys_of(s).contains(bucket_key(s[i])),
    decreases s.len(),
{
    let rest = keys_of(s.drop_last());
    if i == s.len() - 1 {
        if !rest.contains(bucket_key(s.last())) {
            lemma_contains_push(rest, bucket_key(s.last()), bucket_key(s.last()));
        }
    } else {
        lemma_keys_complete(s.drop_last(), i);
        if !rest.contains(bucket_key(s.last())) {
            lemma_contains_push(rest, bucket_key(s.last()), bucket_key(s[i]));
        }
    }
}

proof fn lemma_count_key_bounds(s: Seq<FileInfo>, k: Seq<char>)
    ensures
        0 <= count_key(s, k) <= s.len(),
        0 <= size_key(s, k) <= sum_sizes(s),
    decreases s.len(),
{
    if s.len() > 0 {
        lemma_count_key_bounds(s.drop_last(), k);
    }
}

proof fn lemma_sums_update(bs: Seq<(String, FileTypeInfo)>, j: int, p: (String, FileTypeInfo))
    requires
        0 <= j < bs.len(),
    ensures
        sum_counts(bs.update(j, p)) == sum_counts(bs) - bs[j].1.count + p.1.count,
        sum_bucket_sizes(bs.update(j, p)) == sum_bucket_sizes(bs) - bs[j].1.total_size
            + p.1.total_size,
    decreases bs.len(),
{
    if j == bs.len() - 1 {
        assert(bs.update(j, p).drop_last() =~= bs.drop_last());
        assert(bs.update(j, p).last() == p);
    } else {
        lemma_sums_update(bs.drop_last(), j, p);
        assert(bs.update(j, p).drop_last() =~= bs.drop_last().update(j, p));
        assert(bs.update(j, p).last() == bs.last());
    }
}

fn bucket_key_of(f: &FileInfo) -> (k: String)
    ensures
        k@ == bucket_key(*f),
{
    if f.extension.as_str().is_empty() {
        String::from_str("no-extension")
    } else {
        f.extension.clone()
    }
}

fn find_key(r: &Vec<(String, FileTypeInfo)>, key: &String) -> (res: Option<usize>)
    ensures
        match res {
            Some(j) => j < r@.len() && r@[j as int].0@ == key@,
            None => forall|a: int| 0 <= a < r@.len() ==> r@[a].0@ != key@,
        },
{
    let mut j: usize = 0;
    while j < r.len()
        invariant
            j <= r@.len(),
            forall|a: int| 0 <= a < j ==> r@[a].0@ != key@,
        decreases r@.len() - j,
    {
        if r[j].0 == *key {
            return Some(j);
        }
        j = j + 1;
    }
    None
}

/// Group the records by bucket key, in first-encounter order, carrying
/// count, byte total and truncated average size per group.
pub fn type_buckets(files: &Vec<FileInfo>) -> (r: Vec<(String, FileTypeInfo)>)
    requires
        sum_sizes(files@) <= u64::MAX,
    ensures
        buckets_ok(r@, files@),
{
    let mut r: Vec<(String, FileTypeInfo)> = Vec::new();
    let mut i: usize = 0;
    while i < files.len()
        invariant
            i <= files@.len(),
            sum_sizes(files@) <= u64::MAX,
            bucket_keys(r@) == keys_of(files@.take(i as int)),
            forall|a: int, b: int| 0 <= a < b < r@.len() ==> r@[a].0@ != r@[b].0@,
            forall|j: int|
                0 <= j < r@.len() ==> {
                    &&& (#[trigger] r@[j].1).count as int == count_key(
                        files@.take(i as int),
                        r@[j].0@,
                    )
                    &&& r@[j].1.count > 0
                    &&& r@[j].1.total_size as int == size_key(files@.take(i as int), r@[j].0@)
                },
            sum_counts(r@) == i,
            sum_bucket_sizes(r@) == sum_sizes(files@.take(i as int)),
        decreases files@.len() - i,
    {
        let ghost prefix = files@.take(i as int);
        let ghost next = files@.take(i + 1);
        proof {
            assert(next.drop_last() =~= prefix);
            assert(next.last() == files@[i as int]);
            lemma_sum_sizes_bounds(files@, i + 1);
        }
        let key = bucket_key_of(&files[i]);
        let size = files[i].size;
        let found = find_key(&r, &key);
        proof {
            lemma_count_key_bounds(next, key@);
            assert(count_key(next, key@) == count_key(prefix, key@) + 1);
            assert(size_key(next, key@) == size_key(prefix, key@) + size);
            assert(next.len() == i + 1);
        }
        if let Some(j) = found {
            let ghost bs0 = r@;
            proof {
                assert(bucket_keys(bs0)[j as int] == key@);
                assert(keys_of(prefix).contains(key@));
                assert(keys_of(next) == keys_of(prefix));
                assert(r@[j as int].1.count as int == count_key(prefix, key@));
                assert(r@[j as int].1.total_size as int == size_key(prefix, key@));
            }
            let old_info = r[j].1;
            let new_info = FileTypeInfo {
                count: old_info.count + 1,
                total_size: old_info.total_size + size,
                average_size: old_info.average_size,
            };
            r[j] = (key, new_info);
            proof {
                lemma_sums_update(bs0, j as int, r@[j as int]);
                assert(bucket_keys(r@) =~= bucket_keys(bs0));
                assert forall|jj: int| 0 <= jj < r@.len() implies {
                    &&& (#[trigger] r@[jj].1).count as int == count_key(next, r@[jj].0@)
                    &&& r@[jj].1.count > 0
                    &&& r@[jj].1.total_size as int == size_key(next, r@[jj].0@)
                } by {
                    if jj != j {
                        assert(r@[jj] == bs0[jj]);
                        assert(r@[jj].0@ != key@);
                        assert(count_key(next, r@[jj].0@) == count_key(prefix, r@[jj].0@));
                        assert(size_key(next, r@[jj].0@) == size_key(prefix, r@[jj].0@));
                    }
                }
            }
        } else {
            let ghost bs0 = r@;
            proof {
                assert(!keys_of(prefix).contains(key@)) by {
                    if keys_of(prefix).contains(key@) {
                        let idx = choose|idx: int|
                            0 <= idx < keys_of(prefix).len() && keys_of(prefix)[idx] == key@;
                        assert(bucket_keys(bs0)[idx] == key@);
                        assert(bs0[idx].0@ == key@);
                    }
                }
                assert(keys_of(next) == keys_of(prefix).push(key@));
            }
            let info = FileTypeInfo { count: 1, total_size: size, average_size: size };
            r.push((key, info));
            proof {
                assert(r@.drop_last() =~= bs0);
                assert(r@.last() == r@[r@.len() - 1]);
                assert(bucket_keys(r@) =~= bucket_keys(bs0).push(r@[r@.len() - 1].0@));
                assert forall|jj: int| 0 <= jj < r@.len() implies {
                    &&& (#[trigger] r@[jj].1).count as int == count_key(next, r@[jj].0@)
                    &&& r@[jj].1.count > 0
                    &&& r@[jj].1.total_size as int == size_key(next, r@[jj].0@)
                } by {
                    if jj < r@.len() - 1 {
                        assert(r@[jj] == bs0[jj]);
                        assert(r@[jj].0@ != key@);
                        assert(count_key(next, r@[jj].0@) == count_key(prefix, r@[jj].0@));
                        assert(size_key(next, r@[jj].0@) == size_key(prefix, r@[jj].0@));
                    } else {
                        assert(r@[jj].0@ == key@);
                        assert(count_key(prefix, key@) == 0) by {
                            lemma_count_key_zero(prefix, key@);
                        }
                        assert(size_key(prefix, key@) == 0) by {
                            lemma_count_key_zero(prefix, key@);
                        }
                    }
                }
            }
        }
        i = i + 1;
    }
    proof {
        assert(files@.take(files@.len() as int) =~= files@);
    }
    // Second pass: fill in each bucket's truncated average.
    let n = r.len();
    let ghost bs1 = r@;
    let mut j: usize = 0;
    while j < n
        invariant
            n == r@.len(),
            bs1.len() == n,
            forall|a: int| 0 <= a < n ==> (#[trigger] r@[a]).0 == bs1[a].0,
            forall|a: int| 0 <= a < n ==> (#[trigger] r@[a]).1.count == bs1[a].1.count,
            forall|a: int| 0 <= a < n ==> (#[trigger] r@[a]).1.total_size == bs1[a].1.total_size,
            forall|a: int| 0 <= a < n ==> bs1[a].1.count > 0,
            forall|a: int|
                0 <= a < j ==> (#[trigger] r@[a]).1.average_size as int == r@[a].1.total_size as int
                    / r@[a].1.count as int,
            sum_counts(r@) == sum_counts(bs1),
            sum_bucket_sizes(r@) == sum_bucket_sizes(bs1),
        decreases n - j,
    {
        let ghost bs0 = r@;
        let info = r[j].1;
        let key2 = r[j].0.clone();
        let avg = info.total_size / (info.count as u64);
        r[j] = (
            key2,
            FileTypeInfo { count: info.count, total_size: info.total_size, average_size: avg },
        );
        proof {
            lemma_sums_update(bs0, j as int, r@[j as int]);
        }
        j = j + 1;
    }
    proof {
        assert(bucket_keys(r@) =~= bucket_keys(bs1));
        assert forall|idx: int| 0 <= idx < files@.len() implies keys_of(files@).contains(
            #[trigger] bucket_key(files@[idx]),
        ) by {
            lemma_keys_complete(files@, idx);
        }
    }
    r
}

/// A key that no bucket holds belongs to no record of the prefix.
proof fn lemma_count_key_zero(s: Seq<FileInfo>, k: Seq<char>)
    requires
        !keys_of(s).contains(k),
    ensures
        count_key(s, k) == 0,
        size_key(s, k) == 0,
    decreases s.len(),
{
    if s.len() > 0 {
        let rest = keys_of(s.drop_last());
        if rest.contains(bucket_key(s.last())) {
            assert(!rest.contains(k));
        } else {
            assert(!rest.contains(k)) by {
                if rest.contains(k) {
                    lemma_contains_push(rest, bucket_key(s.last()), k);
                }
            }
            assert(bucket_key(s.last()) != k) by {
                if bucket_key(s.last()) == k {
                    lemma_contains_push(rest, bucket_key(s.last()), k);
                }
            }
        }
        lemma_count_key_zero(s.drop_last(), k);
    }
}

// ---------------------------------------------------------------------
// Largest files
// ---------------------------------------------------------------------

/// Where a record lands in the descending order: before the first record
/// strictly smaller, so records of equal size keep their encounter order.
pub open spec fn insert_pos(r: Seq<FileInfo>, f: FileInfo) -> int
    decreases r.len(),
{
    if r.len() == 0 {
        0
    } else if r[0].size < f.size {
        0
    } else {
        1 + insert_pos(r.drop_first(), f)
    }
}

/// The records sorted by size, descending and stable.
pub open spec fn sort_desc(s: Seq<FileInfo>) -> Seq<FileInfo>
    decreases s.len(),
{
    if s.len() == 0 {
        Seq::empty()
    } else {
        let r = sort_desc(s.drop_last());
        r.insert(insert_pos(r, s.last()), s.last())
    }
}

pub open spec fn sorted_desc(r: Seq<FileInfo>) -> bool {
    forall|a: int, b: int| 0 <= a <= b < r.len() ==> r[a].size >= r[b].size
}

/// How many of the sorted records the report keeps.
pub open spec fn largest_take(s: Seq<FileInfo>) -> int {
    if s.len() < 10 {
        s.len() as int
    } else {
        10
    }
}

proof fn lemma_insert_pos_bounds(r: Seq<FileInfo>, f: FileInfo)
    ensures
        0 <= insert_pos(r, f) <= r.len(),
    decreases r.len(),
{
    if r.len() > 0 && !(r[0].size < f.size) {
        lemma_insert_pos_bounds(r.drop_first(), f);
    }
}

proof fn lemma_insert_pos_char(r: Seq<FileInfo>, f: FileInfo, p: int)
    requires
        0 <= p <= r.len(),
        forall|a: int| 0 <= a < p ==> r[a].size >= f.size,
        p < r.len() ==> r[p].size < f.size,
    ensures
        insert_pos(r, f) == p,
    decreases r.len(),
{
    if r.len() > 0 && !(r[0].size < f.size) {
        lemma_insert_pos_char(r.drop_first(), f, p - 1);
    }
}

proof fn lemma_insert_keeps_sorted(r: Seq<FileInfo>, f: FileInfo)
    requires
        sorted_desc(r),
    ensures
        sorted_desc(r.insert(insert_pos(r, f), f)),
{
    lemma_insert_pos_bounds(r, f);
    let p = insert_pos(r, f);
    lemma_insert_pos_mid(r, f, p);
    let out = r.insert(p, f);
    assert forall|a: int, b: int| 0 <= a <= b < out.len() implies out[a].size >= out[b].size by {
        r.insert_ensures(p, f);
    }
}

/// Everything before the insertion point is at least as large as the new
/// record, everything from it on strictly smaller.
proof fn lemma_insert_pos_mid(r: Seq<FileInfo>, f: FileInfo, p: int)
    requires
        p == insert_pos(r, f),
    ensures
        forall|a: int| 0 <= a < p ==> r[a].size >= f.size,
        p < r.len() ==> r[p].size < f.size,
    decreases r.len(),
{
    lemma_insert_pos_bounds(r, f);
    if r.len() > 0 && !(r[0].size < f.size) {
        lemma_insert_pos_bounds(r.drop_first(), f);
        assert(p == 1 + insert_pos(r.drop_first(), f));
        lemma_insert_pos_mid(r.drop_first(), f, p - 1);
        assert(forall|a: int| 1 <= a < p ==> r[a] == r.drop_first()[a - 1]);
        if p < r.len() {
            assert(r.drop_first()[p - 1] == r[p]);
        }
    }
}

proof fn lemma_insert_multiset(r: Seq<FileInfo>, p: int, f: FileInfo)
    requires
        0 <= p <= r.len(),
    ensures
        r.insert(p, f).to_multiset() =~= r.to_multiset().insert(f),
    decreases r.len() - p,
{
    broadcast use vstd::seq_lib::group_to_multiset_ensures;

    if p == r.len() {
        assert(r.insert(p, f) =~= r.push(f));
    } else {
        let last = r.last();
        let r0 = r.drop_last();
        lemma_insert_multiset(r0, p, f);
        assert(r.insert(p, f) =~= r0.insert(p, f).push(last));
        assert(r =~= r0.push(last));
        assert(r0.insert(p, f).push(last).to_multiset() =~= r0.insert(p, f).to_multiset().insert(
            last,
        ));
        assert(r0.push(last).to_multiset() =~= r0.to_multiset().insert(last));
        assert(r0.to_multiset().insert(f).insert(last) =~= r0.to_multiset().insert(last).insert(f));
    }
}

/// The stable descending sort is descending.
pub proof fn lemma_sort_desc_sorted(s: Seq<FileInfo>)
    ensures
        sorted_desc(sort_desc(s)),
        sort_desc(s).len() == s.len(),
    decreases s.len(),
{
    if s.len() > 0 {
        lemma_sort_desc_sorted(s.drop_last());
        let r = sort_desc(s.drop_last());
        lemma_insert_pos_bounds(r, s.last());
        lemma_insert_keeps_sorted(r, s.last());
    }
}

/// The stable descending sort is a permutation of its input.
pub proof fn lemma_sort_desc_multiset(s: Seq<FileInfo>)
    ensures
        sort_desc(s).to_multiset() =~= s.to_multiset(),
    decreases s.len(),
{
    broadcast use vstd::seq_lib::group_to_multiset_ensures;

    if s.len() > 0 {
        lemma_sort_desc_multiset(s.drop_last());
        let r = sort_desc(s.drop_last());
        lemma_insert_pos_bounds(r, s.last());
        lemma_insert_multiset(r, insert_pos(r, s.last()), s.last());
        assert(s =~= s.drop_last().push(s.last()));
        assert(s.drop_last().push(s.last()).to_multiset() =~= s.drop_last().to_multiset().insert(
            s.last(),
        ));
    }
}

/// The kept prefix of the sort is descending, no longer than ten, and
/// drawn from the file set itself.
pub proof fn lemma_largest_files_ok(s: Seq<FileInfo>)
    ensures
        sorted_desc(sort_desc(s).take(largest_take(s))),
        sort_desc(s).take(largest_take(s)).len() <= 10,
        forall|i: int|
            0 <= i < largest_take(s) ==> s.to_multiset().contains(
                #[trigger] sort_desc(s).take(largest_take(s))[i],
            ),
{
    broadcast use vstd::seq_lib::group_to_multiset_ensures;

    lemma_sort_desc_sorted(s);
    lemma_sort_desc_multiset(s);
    let k = largest_take(s);
    assert forall|i: int| 0 <= i < k implies s.to_multiset().contains(
        #[trigger] sort_desc(s).take(k)[i],
    ) by {
        assert(sort_desc(s).take(k)[i] == sort_desc(s)[i]);
        assert(sort_desc(s).contains(sort_desc(s)[i]));
    }
}

/// All records, stably sorted by size in descending order.
pub fn sorted_by_size_desc(files: &Vec<FileInfo>) -> (r: Vec<FileInfo>)
    ensures
        r@ == sort_desc(files@),
{
    let mut r: Vec<FileInfo> = Vec::new();
    let mut i: usize = 0;
    while i < files.len()
        invariant
            i <= files@.len(),
            r@ == sort_desc(files@.take(i as int)),
            r@.len() == i,
        decreases files@.len() - i,
    {
        let ghost prefix = files@.take(i as int);
        let f = files[i].clone();
        let mut pos: usize = 0;
        while pos < r.len() && r[pos].size >= f.size
            invariant
                pos <= r@.len(),
                forall|a: int| 0 <= a < pos ==> r@[a].size >= f.size,
            decreases r@.len() - pos,
        {
            pos = pos + 1;
        }
        proof {
            lemma_insert_pos_char(r@, f, pos as int);
            assert(files@.take(i + 1).drop_last() =~= prefix);
            assert(files@.take(i + 1).last() == files@[i as int]);
        }
        r.insert(pos, f);
        i = i + 1;
    }
    proof {
        assert(files@.take(files@.len() as int) =~= files@);
    }
    r
}

/// The up-to-ten largest records, descending; ties keep encounter order.
pub fn largest_files_of(files: &Vec<FileInfo>) -> (r: Vec<FileInfo>)
    ensures
        r@ == sort_desc(files@).take(largest_take(files@)),
{
    proof {
        lemma_sort_desc_sorted(files@);
    }
    let sorted = sorted_by_size_desc(files);
    let keep = if sorted.len() < 10 {
        sorted.len()
    } else {
        10
    };
    let mut r: Vec<FileInfo> = Vec::new();
    let mut k: usize = 0;
    while k < keep
        invariant
            k <= keep,
            keep as int == largest_take(files@),
            keep <= sorted@.len(),
            sorted@ == sort_desc(files@),
            r@ == sort_desc(files@).take(k as int),
        decreases keep - k,
    {
        let f = sorted[k].clone();
        r.push(f);
        proof {
            assert(r@ =~= sort_desc(files@).take(k + 1));
        }
        k = k + 1;
    }
    r
}

// ---------------------------------------------------------------------
// Oldest and newest
// ---------------------------------------------------------------------

/// Index of the record the oldest-file scan keeps: the first one with
/// the least modification instant (strictly older replaces).
pub open spec fn oldest_index(s: Seq<FileInfo>) -> int
    decreases s.len(),
{
    if s.len() <= 1 {
        0
    } else {
        let p = oldest_index(s.drop_last());
        if s.last().modified_ts < s[p].modified_ts {
            s.len() - 1
        } else {
            p
        }
    }
}

/// Index of the record the newest-file scan keeps: the first one with
/// the greatest modification instant (strictly newer replaces).
pub open spec fn newest_index(s: Seq<FileInfo>) -> int
    decreases s.len(),
{
    if s.len() <= 1 {
        0
    } else {
        let p = newest_index(s.drop_last());
        if s.last().modified_ts > s[p].modified_ts {
            s.len() - 1
        } else {
            p
        }
    }
}

/// The oldest record has the least modification instant of all, and is
/// the first record with it; dually for the newest.
pub proof fn lemma_extreme_index_props(s: Seq<FileInfo>)
    requires
        s.len() > 0,
    ensures
        0 <= oldest_index(s) < s.len(),
        0 <= newest_index(s) < s.len(),
        forall|j: int|
            0 <= j < s.len() ==> s[oldest_index(s)].modified_ts <= (#[trigger] s[j]).modified_ts,
        forall|j: int| 0 <= j < oldest_index(s) ==> (#[trigger] s[j]).modified_ts
            > s[oldest_index(s)].modified_ts,
        forall|j: int|
            0 <= j < s.len() ==> s[newest_index(s)].modified_ts >= (#[trigger] s[j]).modified_ts,
        forall|j: int| 0 <= j < newest_index(s) ==> (#[trigger] s[j]).modified_ts
            < s[newest_index(s)].modified_ts,
    decreases s.len(),
{
    if s.len() > 1 {
        lemma_extreme_index_props(s.drop_last());
        assert(forall|j: int| 0 <= j < s.len() - 1 ==> s[j] == s.drop_last()[j]);
    }
}

/// The first record with the least modification instant, none when the
/// tree holds no files.
pub fn oldest_of(files: &Vec<FileInfo>) -> (r: Option<FileInfo>)
    ensures
        files@.len() == 0 <==> r is None,
        files@.len() > 0 ==> r == Some(files@[oldest_index(files@)]),
{
    if files.len() == 0 {
        return None;
    }
    let mut best: usize = 0;
    let mut i: usize = 1;
    while i < files.len()
        invariant
            1 <= i <= files@.len(),
            best < i,
            best as int == oldest_index(files@.take(i as int)),
        decreases files@.len() - i,
    {
        proof {
            lemma_extreme_index_props(files@.take(i as int));
            assert(files@.take(i + 1).drop_last() =~= files@.take(i as int));
            assert(files@.take(i + 1).last() == files@[i as int]);
        }
        if files[i].modified_ts < files[best].modified_ts {
            best = i;
        }
        i = i + 1;
    }
    proof {
        assert(files@.take(files@.len() as int) =~= files@);
    }
    Some(files[best].clone())
}

/// The first record with the greatest modification instant, none when
/// the tree holds no files.
pub fn newest_of(files: &Vec<FileInfo>) -> (r: Option<FileInfo>)
    ensures
        files@.len() == 0 <==> r is None,
        files@.len() > 0 ==> r == Some(files@[newest_index(files@)]),
{
    if files.len() == 0 {
        return None;
    }
    let mut best: usize = 0;
    let mut i: usize = 1;
    while i < files.len()
        invariant
            1 <= i <= files@.len(),
            best < i,
            best as int == newest_index(files@.take(i as int)),
        decreases files@.len() - i,
    {
        proof {
            lemma_extreme_index_props(files@.take(i as int));
            assert(files@.take(i + 1).drop_last() =~= files@.take(i as int));
            assert(files@.take(i + 1).last() == files@[i as int]);
        }
        if files[i].modified_ts > files[best].modified_ts {
            best = i;
        }
        i = i + 1;
    }
    proof {
        assert(files@.take(files@.len() as int) =~= files@);
    }
    Some(files[best].clone())
}

// ---------------------------------------------------------------------
// Duplicate base names
// ---------------------------------------------------------------------

/// The names (extension kept) of the records whose base name is `b`,
/// in encounter order.
pub open spec fn names_with_base(s: Seq<FileInfo>, b: Seq<char>) -> Seq<Seq<char>>
    decreases s.len(),
{
    if s.len() == 0 {
        Seq::empty()
    } else {
        let rest = names_with_base(s.drop_last(), b);
        if spec_base_name(s.last().name@) == b {
            rest.push(s.last().name@)
        } else {
            rest
        }
    }
}

/// The distinct base names of the records, in order of first encounter.
pub open spec fn bases_of(s: Seq<FileInfo>) -> Seq<Seq<char>>
    decreases s.len(),
{
    if s.len() == 0 {
        Seq::empty()
    } else {
        let rest = bases_of(s.drop_last());
        if rest.contains(spec_base_name(s.last().name@)) {
            rest
        } else {
            rest.push(spec_base_name(s.last().name@))
        }
    }
}

/// The view of a list of owned names.
pub open spec fn names_view(v: Seq<String>) -> Seq<Seq<char>> {
    v.map_values(|n: String| n@)
}

/// The view of the pattern column of the duplicate list.
pub open spec fn patterns_view(ds: Seq<DuplicateInfo>) -> Seq<Seq<char>> {
    ds.map_values(|d: DuplicateInfo| d.pattern@)
}

/// The base names out of `bases` that two or more records share, kept
/// in their order.
pub open spec fn keep_dups(bases: Seq<Seq<char>>, files: Seq<FileInfo>) -> Seq<Seq<char>>
    decreases bases.len(),
{
    if bases.len() == 0 {
        Seq::empty()
    } else {
        let rest = keep_dups(bases.drop_last(), files);
        if names_with_base(files, bases.last()).len() >= 2 {
            rest.push(bases.last())
        } else {
            rest
        }
    }
}

/// Every name grouped under a base name carries that base name.
pub proof fn lemma_duplicate_members_match(s: Seq<FileInfo>, b: Seq<char>)
    ensures
        forall|i: int|
            0 <= i < names_with_base(s, b).len() ==> spec_base_name(
                #[trigger] names_with_base(s, b)[i],
            ) == b,
    decreases s.len(),
{
    if s.len() > 0 {
        lemma_duplicate_members_match(s.drop_last(), b);
        let rest = names_with_base(s.drop_last(), b);
        if spec_base_name(s.last().name@) == b {
            assert(forall|i: int|
                0 <= i < rest.len() ==> names_with_base(s, b)[i] == rest[i]);
            assert(names_with_base(s, b)[rest.len() as int] == s.last().name@);
        }
    }
}

/// What the duplicate list states: each entry carries one base name
/// shared by two or more records, with exactly the names of those
/// records in encounter order; the patterns are distinct, and every
/// base name shared by two or more records appears.
pub open spec fn duplicates_ok(ds: Seq<DuplicateInfo>, files: Seq<FileInfo>) -> bool {
    &&& forall|j: int|
        0 <= j < ds.len() ==> {
            &&& names_view((#[trigger] ds[j]).files@) == names_with_base(files, ds[j].pattern@)
            &&& ds[j].count == ds[j].files@.len()
            &&& ds[j].count >= 2
        }
    &&& patterns_view(ds) == keep_dups(bases_of(files), files)
    &&& forall|a: int, b: int| 0 <= a < b < ds.len() ==> ds[a].pattern@ != ds[b].pattern@
    &&& forall|i: int|
        0 <= i < files.len() && names_with_base(
            files,
            spec_base_name(files[i].name@),
        ).len() >= 2 ==> exists|j: int|
            0 <= j < ds.len() && (#[trigger] ds[j]).pattern@ == spec_base_name(
                #[trigger] files[i].name@,
            )
}

/// Every record's base name stands in the base list of the sequence.
proof fn lemma_bases_complete(s: Seq<FileInfo>, i: int)
    requires
        0 <= i < s.len(),
    ensures
        bases_of(s).contains(spec_base_name(s[i].name@)),
    decreases s.len(),
{
    let rest = bases_of(s.drop_last());
    if i == s.len() - 1 {
        if !rest.contains(spec_base_name(s.last().name@)) {
            lemma_contains_push(rest, spec_base_name(s.last().name@), spec_base_name(s.last().name@));
        }
    } else {
        lemma_bases_complete(s.drop_last(), i);
        if !rest.contains(spec_base_name(s.last().name@)) {
            lemma_contains_push(rest, spec_base_name(s.last().name@), spec_base_name(s[i].name@));
        }
    }
}

/// A base name outside the base list names no record.
proof fn lemma_names_with_base_empty(s: Seq<FileInfo>, b: Seq<char>)
    requires
        !bases_of(s).contains(b),
    ensures
        names_with_base(s, b).len() == 0,
    decreases s.len(),
{
    if s.len() > 0 {
        let rest = bases_of(s.drop_last());
        let last_base = spec_base_name(s.last().name@);
        if rest.contains(last_base) {
            assert(!rest.contains(b));
        } else {
            assert(!rest.contains(b)) by {
                if rest.contains(b) {
                    lemma_contains_push(rest, last_base, b);
                }
            }
            assert(last_base != b) by {
                if last_base == b {
                    lemma_contains_push(rest, last_base, b);
                }
            }
        }
        lemma_names_with_base_empty(s.drop_last(), b);
    }
}

/// The key column of the name groups.
pub open spec fn group_keys(gs: Seq<(String, Vec<String>)>) -> Seq<Seq<char>> {
    gs.map_values(|p: (String, Vec<String>)| p.0@)
}

fn find_group(gs: &Vec<(String, Vec<String>)>, key: &String) -> (res: Option<usize>)
    ensures
        match res {
            Some(j) => j < gs@.len() && gs@[j as int].0@ == key@,
            None => forall|a: int| 0 <= a < gs@.len() ==> gs@[a].0@ != key@,
        },
{
    let mut j: usize = 0;
    while j < gs.len()
        invariant
            j <= gs@.len(),
            forall|a: int| 0 <= a < j ==> gs@[a].0@ != key@,
        decreases gs@.len() - j,
    {
        if gs[j].0 == *key {
            return Some(j);
        }
        j = j + 1;
    }
    None
}

fn clone_names(v: &Vec<String>) -> (r: Vec<String>)
    ensures
        r@ == v@,
{
    let mut r: Vec<String> = Vec::new();
    let mut i: usize = 0;
    while i < v.len()
        invariant
            i <= v@.len(),
            r@ == v@.take(i as int),
        decreases v@.len() - i,
    {
        r.push(v[i].clone());
        proof {
            assert(r@ =~= v@.take(i + 1));
        }
        i = i + 1;
    }
    proof {
        assert(v@.take(v@.len() as int) =~= v@);
    }
    r
}

/// Group the records by base name; every group with two or more members
/// becomes a duplicate entry, in first-encounter order of the base name.
pub fn duplicate_patterns_of(files: &Vec<FileInfo>) -> (r: Vec<DuplicateInfo>)
    ensures
        duplicates_ok(r@, files@),
{
    let mut gs: Vec<(String, Vec<String>)> = Vec::new();
    let mut i: usize = 0;
    while i < files.len()
        invariant
            i <= files@.len(),
            group_keys(gs@) == bases_of(files@.take(i as int)),
            forall|a: int, b: int| 0 <= a < b < gs@.len() ==> gs@[a].0@ != gs@[b].0@,
            forall|j: int|
                0 <= j < gs@.len() ==> names_view((#[trigger] gs@[j]).1@) == names_with_base(
                    files@.take(i as int),
                    gs@[j].0@,
                ),
        decreases files@.len() - i,
    {
        let ghost prefix = files@.take(i as int);
        let ghost next = files@.take(i + 1);
        proof {
            assert(next.drop_last() =~= prefix);
            assert(next.last() == files@[i as int]);
        }
        let base = crate::names::base_name_of(files[i].name.as_str());
        let name = files[i].name.clone();
        let found = find_group(&gs, &base);
        if let Some(j) = found {
            let ghost gs0 = gs@;
            proof {
                assert(group_keys(gs0)[j as int] == base@);
                assert(bases_of(prefix).contains(base@));
                assert(bases_of(next) == bases_of(prefix));
            }
            let mut ns = clone_names(&gs[j].1);
            ns.push(name);
            let key2 = gs[j].0.clone();
            gs[j] = (key2, ns);
            proof {
                assert(group_keys(gs@) =~= group_keys(gs0));
                assert(names_view(gs@[j as int].1@) =~= names_view(gs0[j as int].1@).push(
                    files@[i as int].name@,
                ));
                assert forall|jj: int| 0 <= jj < gs@.len() implies names_view(
                    (#[trigger] gs@[jj]).1@,
                ) == names_with_base(next, gs@[jj].0@) by {
                    if jj != j {
                        assert(gs@[jj] == gs0[jj]);
                        assert(gs@[jj].0@ != base@);
                        assert(names_with_base(next, gs@[jj].0@) == names_with_base(
                            prefix,
                            gs@[jj].0@,
                        ));
                    }
                }
            }
        } else {
            let ghost gs0 = gs@;
            proof {
                assert(!bases_of(prefix).contains(base@)) by {
                    if bases_of(prefix).contains(base@) {
                        let idx = choose|idx: int|
                            0 <= idx < bases_of(prefix).len() && bases_of(prefix)[idx] == base@;
                        assert(group_keys(gs0)[idx] == base@);
                        assert(gs0[idx].0@ == base@);
                    }
                }
                assert(bases_of(next) == bases_of(prefix).push(base@));
                lemma_names_with_base_empty(prefix, base@);
            }
            let mut ns: Vec<String> = Vec::new();
            ns.push(name);
            gs.push((base, ns));
            proof {
                assert(gs@.drop_last() =~= gs0);
                assert(group_keys(gs@) =~= group_keys(gs0).push(gs@[gs@.len() - 1].0@));
                assert forall|jj: int| 0 <= jj < gs@.len() implies names_view(
                    (#[trigger] gs@[jj]).1@,
                ) == names_with_base(next, gs@[jj].0@) by {
                    if jj < gs@.len() - 1 {
                        assert(gs@[jj] == gs0[jj]);
                        assert(gs@[jj].0@ != base@);
                        assert(names_with_base(next, gs@[jj].0@) == names_with_base(
                            prefix,
                            gs@[jj].0@,
                        ));
                    } else {
                        assert(names_view(gs@[jj].1@) =~= Seq::<Seq<char>>::empty().push(
                            files@[i as int].name@,
                        ));
                        assert(names_with_base(next, base@) =~= Seq::<Seq<char>>::empty().push(
                            files@[i as int].name@,
                        ));
                    }
                }
            }
        }
        i = i + 1;
    }
    proof {
        assert(files@.take(files@.len() as int) =~= files@);
    }
    // Keep only the groups with two or more members.
    let mut r: Vec<DuplicateInfo> = Vec::new();
    let n = gs.len();
    let mut j: usize = 0;
    while j < n
        invariant
            n == gs@.len(),
            j <= n,
            group_keys(gs@) == bases_of(files@),
            forall|a: int, b: int| 0 <= a < b < gs@.len() ==> gs@[a].0@ != gs@[b].0@,
            forall|g: int|
                0 <= g < gs@.len() ==> names_view((#[trigger] gs@[g]).1@) == names_with_base(
                    files@,
                    gs@[g].0@,
                ),
            forall|d: int|
                0 <= d < r@.len() ==> {
                    &&& names_view((#[trigger] r@[d]).files@) == names_with_base(
                        files@,
                        r@[d].pattern@,
                    )
                    &&& r@[d].count == r@[d].files@.len()
                    &&& r@[d].count >= 2
                },
            forall|a: int, b: int| 0 <= a < b < r@.len() ==> r@[a].pattern@ != r@[b].pattern@,
            patterns_view(r@) == keep_dups(bases_of(files@).take(j as int), files@),
            forall|d: int|
                0 <= d < r@.len() ==> exists|g: int|
                    0 <= g < j && gs@[g].0@ == (#[trigger] r@[d]).pattern@,
            forall|g: int|
                0 <= g < j && gs@[g].1@.len() >= 2 ==> exists|d: int|
                    0 <= d < r@.len() && (#[trigger] r@[d]).pattern@ == gs@[g].0@,
        decreases n - j,
    {
        let ghost bases = bases_of(files@);
        proof {
            assert(bases.take(j + 1).drop_last() =~= bases.take(j as int));
            assert(bases.take(j + 1).last() == bases[j as int]);
            assert(group_keys(gs@)[j as int] == bases[j as int]);
            assert(names_view(gs@[j as int].1@) == names_with_base(files@, bases[j as int]));
        }
        if gs[j].1.len() >= 2 {
            let ghost r0 = r@;
            let pattern = gs[j].0.clone();
            let members = clone_names(&gs[j].1);
            let cnt = members.len();
            r.push(DuplicateInfo { pattern, count: cnt, files: members });
            proof {
                assert(r@.drop_last() =~= r0);
                let d_new = r@.len() - 1;
                assert(r@[d_new].pattern@ == gs@[j as int].0@);
                assert(patterns_view(r@) =~= patterns_view(r0).push(bases[j as int]));
                assert forall|a: int, b: int| 0 <= a < b < r@.len() implies r@[a].pattern@
                    != r@[b].pattern@ by {
                    if b == d_new {
                        let ga = choose|g: int| 0 <= g < j && gs@[g].0@ == r@[a].pattern@;
                        assert(gs@[ga].0@ != gs@[j as int].0@);
                    }
                }
            }
        } else {
            proof {
                assert(patterns_view(r@) =~= keep_dups(bases.take(j + 1), files@));
            }
        }
        j = j + 1;
    }
    proof {
        assert(bases_of(files@).take(bases_of(files@).len() as int) =~= bases_of(files@));
        assert forall|i2: int|
            0 <= i2 < files@.len() && names_with_base(
                files@,
                spec_base_name(files@[i2].name@),
            ).len() >= 2 implies exists|d: int|
            0 <= d < r@.len() && (#[trigger] r@[d]).pattern@ == spec_base_name(
                #[trigger] files@[i2].name@,
            ) by {
            let b = spec_base_name(files@[i2].name@);
            lemma_bases_complete(files@, i2);
            let idx = choose|idx: int|
                0 <= idx < bases_of(files@).len() && bases_of(files@)[idx] == b;
            assert(group_keys(gs@)[idx] == b);
            assert(gs@[idx].0@ == b);
            assert(names_view(gs@[idx].1@) == names_with_base(files@, b));
            assert(gs@[idx].1@.len() >= 2);
        }
    }
    r
}

// ---------------------------------------------------------------------
// Naming tally
// ---------------------------------------------------------------------

pub open spec fn count_snake(s: Seq<FileInfo>) -> int
    decreases s.len(),
{
    if s.len() == 0 {
        0
    } else {
        count_snake(s.drop_last()) + if is_snake_name(s.last().name@) { 1int } else { 0int }
    }
}

pub open spec fn count_kebab(s: Seq<FileInfo>) -> int
    decreases s.len(),
{
    if s.len() == 0 {
        0
    } else {
        count_kebab(s.drop_last()) + if is_kebab_name(s.last().name@) { 1int } else { 0int }
    }
}

pub open spec fn count_camel(s: Seq<FileInfo>) -> int
    decreases s.len(),
{
    if s.len() == 0 {
        0
    } else {
        count_camel(s.drop_last()) + if is_camel_name(s.last().name@) { 1int } else { 0int }
    }
}

/// The three naming classes are mutually exclusive per file, so their
/// counts are each non-negative and together never exceed the file count.
pub proof fn lemma_naming_counts_bounded(s: Seq<FileInfo>)
    ensures
        0 <= count_snake(s),
        0 <= count_kebab(s),
        0 <= count_camel(s),
        count_snake(s) + count_kebab(s) + count_camel(s) <= s.len(),
    decreases s.len(),
{
    if s.len() > 0 {
        lemma_naming_counts_bounded(s.drop_last());
        lemma_naming_exclusive(s.last().name@);
    }
}

/// Classify every record's name: underscore first, else hyphen, else any
/// ASCII uppercase; flat all-lowercase names stay uncounted.
pub fn naming_tally(files: &Vec<FileInfo>) -> (r: NamingStats)
    ensures
        r.snake_case_count as int == count_snake(files@),
        r.kebab_case_count as int == count_kebab(files@),
        r.camel_case_count as int == count_camel(files@),
{
    let mut snake: usize = 0;
    let mut kebab: usize = 0;
    let mut camel: usize = 0;
    let mut i: usize = 0;
    while i < files.len()
        invariant
            i <= files@.len(),
            snake as int == count_snake(files@.take(i as int)),
            kebab as int == count_kebab(files@.take(i as int)),
            camel as int == count_camel(files@.take(i as int)),
        decreases files@.len() - i,
    {
        proof {
            lemma_naming_counts_bounded(files@.take(i as int));
            assert(files@.take(i as int).len() == i);
            assert(files@.take(i + 1).drop_last() =~= files@.take(i as int));
        }
        let name = files[i].name.as_str();
        if crate::names::contains_char(name, '_') {
            snake = snake + 1;
        } else if crate::names::contains_char(name, '-') {
            kebab = kebab + 1;
        } else if crate::names::has_ascii_upper(name) {
            camel = camel + 1;
        }
        i = i + 1;
    }
    proof {
        assert(files@.take(files@.len() as int) =~= files@);
    }
    NamingStats { camel_case_count: camel, snake_case_count: snake, kebab_case_count: kebab }
}

// ---------------------------------------------------------------------
// The whole report
// ---------------------------------------------------------------------

/// Everything the report states about the records `files`, the folder
/// count, the hidden count and the capture instant `now`.  Only the age
/// sum depends on `now`; every other field is a function of the other
/// three arguments.
pub open spec fn report_ok(
    r: AnalysisResult,
    files: Seq<FileInfo>,
    total_folders: usize,
    hidden_file_count: usize,
    now: int,
) -> bool {
    &&& r.total_files == files.len()
    &&& r.total_size as int == sum_sizes(files)
    &&& r.total_folders == total_folders
    &&& buckets_ok(r.file_types@, files)
    &&& r.largest_files@ == sort_desc(files).take(largest_take(files))
    &&& (files.len() == 0 <==> r.oldest_file is None)
    &&& (files.len() == 0 <==> r.newest_file is None)
    &&& (files.len() > 0 ==> r.oldest_file == Some(files[oldest_index(files)]))
    &&& (files.len() > 0 ==> r.newest_file == Some(files[newest_index(files)]))
    &&& r.total_age_seconds as int == sum_ages(files, now)
    &&& (files.len() == 0 ==> r.total_age_seconds == 0)
    &&& r.max_depth as int == spec_max_depth(files)
    &&& r.hidden_file_count == hidden_file_count
    &&& duplicates_ok(r.duplicate_patterns@, files)
    &&& r.naming_stats.snake_case_count as int == count_snake(files)
    &&& r.naming_stats.kebab_case_count as int == count_kebab(files)
    &&& r.naming_stats.camel_case_count as int == count_camel(files)
}

/// Two reports over the same records, folder count and hidden count
/// agree on every field except the age sum, which moves by exactly the
/// file count times the distance between the two capture instants.
pub proof fn lemma_reports_agree(
    r1: AnalysisResult,
    r2: AnalysisResult,
    files: Seq<FileInfo>,
    total_folders: usize,
    hidden_file_count: usize,
    now1: int,
    now2: int,
)
    requires
        report_ok(r1, files, total_folders, hidden_file_count, now1),
        report_ok(r2, files, total_folders, hidden_file_count, now2),
    ensures
        r1.total_files == r2.total_files,
        r1.total_size == r2.total_size,
        r1.total_folders == r2.total_folders,
        r1.file_types@.len() == r2.file_types@.len(),
        forall|j: int|
            0 <= j < r1.file_types@.len() ==> (#[trigger] r1.file_types@[j]).0@
                == r2.file_types@[j].0@ && r1.file_types@[j].1 == r2.file_types@[j].1,
        r1.largest_files@ == r2.largest_files@,
        r1.oldest_file == r2.oldest_file,
        r1.newest_file == r2.newest_file,
        r1.max_depth == r2.max_depth,
        r1.hidden_file_count == r2.hidden_file_count,
        r1.duplicate_patterns@.len() == r2.duplicate_patterns@.len(),
        forall|d: int|
            0 <= d < r1.duplicate_patterns@.len() ==> {
                &&& (#[trigger] r1.duplicate_patterns@[d]).pattern@
                    == r2.duplicate_patterns@[d].pattern@
                &&& r1.duplicate_patterns@[d].count == r2.duplicate_patterns@[d].count
                &&& names_view(r1.duplicate_patterns@[d].files@) == names_view(
                    r2.duplicate_patterns@[d].files@,
                )
            },
        r1.naming_stats == r2.naming_stats,
        r2.total_age_seconds - r1.total_age_seconds == files.len() * (now2 - now1),
{
    lemma_age_shift(files, now1, now2);
    let bs1 = r1.file_types@;
    let bs2 = r2.file_types@;
    assert(bucket_keys(bs1).len() == bs1.len());
    assert(bucket_keys(bs2).len() == bs2.len());
    assert forall|j: int| 0 <= j < bs1.len() implies (#[trigger] bs1[j]).0@ == bs2[j].0@
        && bs1[j].1 == bs2[j].1 by {
        assert(bucket_keys(bs1)[j] == bs1[j].0@);
        assert(bucket_keys(bs2)[j] == bs2[j].0@);
        assert(bs1[j].1.count == bs2[j].1.count);
        assert(bs1[j].1.total_size == bs2[j].1.total_size);
        assert(bs1[j].1.average_size == bs2[j].1.average_size);
    }
    let ds1 = r1.duplicate_patterns@;
    let ds2 = r2.duplicate_patterns@;
    assert(patterns_view(ds1).len() == ds1.len());
    assert(patterns_view(ds2).len() == ds2.len());
    assert forall|d: int| 0 <= d < ds1.len() implies {
        &&& (#[trigger] ds1[d]).pattern@ == ds2[d].pattern@
        &&& ds1[d].count == ds2[d].count
        &&& names_view(ds1[d].files@) == names_view(ds2[d].files@)
    } by {
        assert(patterns_view(ds1)[d] == ds1[d].pattern@);
        assert(patterns_view(ds2)[d] == ds2[d].pattern@);
        assert(names_view(ds1[d].files@) == names_with_base(files, ds1[d].pattern@));
        assert(names_view(ds2[d].files@) == names_with_base(files, ds2[d].pattern@));
        assert(ds1[d].count == names_view(ds1[d].files@).len());
    }
}

/// Aggregate the collected records into one report.
///
/// `files` holds one record per regular file whose metadata was
/// readable, in encounter order; `total_folders` counts the directories
/// below the root (the root excluded); `hidden_file_count` counts every
/// entry whose final name begins with a dot; `now_ts` is the capture
/// instant in epoch seconds.  The bounds in `requires` only keep the
/// byte and age sums within their machine words.
pub fn aggregate(
    files: Vec<FileInfo>,
    total_folders: usize,
    hidden_file_count: usize,
    now_ts: i64,
) -> (r: AnalysisResult)
    requires
        sum_sizes(files@) <= u64::MAX,
        files@.len() < 0x2000_0000_0000_0000,
    ensures
        report_ok(r, files@, total_folders, hidden_file_count, now_ts as int),
{
    let total_size = total_size_of(&files);
    let file_types = type_buckets(&files);
    let largest_files = largest_files_of(&files);
    let oldest_file = oldest_of(&files);
    let newest_file = newest_of(&files);
    let total_age_seconds = total_age_of(&files, now_ts);
    let max_depth = max_depth_of(&files);
    let duplicate_patterns = duplicate_patterns_of(&files);
    let naming_stats = naming_tally(&files);
    AnalysisResult {
        total_files: files.len(),
        total_size,
        total_folders,
        file_types,
        largest_files,
        oldest_file,
        newest_file,
        total_age_seconds,
        max_depth,
        hidden_file_count,
        duplicate_patterns,
        naming_stats,
    }
}

/// Like `aggregate`, but with the machine-word bounds checked here:
/// `None` exactly when the byte total would overflow a `u64` or the
/// file count is too large for the age sum.
pub fn try_aggregate(
    files: Vec<FileInfo>,
    total_folders: usize,
    hidden_file_count: usize,
    now_ts: i64,
) -> (r: Option<AnalysisResult>)
    ensures
        match r {
            Some(rep) => {
                &&& report_ok(rep, files@, total_folders, hidden_file_count, now_ts as int)
                &&& sum_sizes(files@) <= u64::MAX
                &&& files@.len() < 0x2000_0000_0000_0000
            },
            None => sum_sizes(files@) > u64::MAX || files@.len() >= 0x2000_0000_0000_0000,
        },
{
    if (files.len() as u64) >= 0x2000_0000_0000_0000u64 {
        return None;
    }
    let mut acc: u128 = 0;
    let mut i: usize = 0;
    while i < files.len()
        invariant
            i <= files@.len(),
            files@.len() < 0x2000_0000_0000_0000,
            acc as int == sum_sizes(files@.take(i as int)),
        decreases files@.len() - i,
    {
        proof {
            lemma_sum_sizes_upper(files@.take(i + 1));
            assert(files@.take(i + 1).len() * 0xffff_ffff_ffff_ffff
                < 0x1_0000_0000_0000_0000_0000_0000_0000_0000) by (nonlinear_arith)
                requires files@.take(i + 1).len() < 0x2000_0000_0000_0000;
            assert(files@.take(i + 1).drop_last() =~= files@.take(i as int));
            assert(files@.take(i + 1).last() == files@[i as int]);
        }
        acc = acc + (files[i].size as u128);
        i = i + 1;
    }
    proof {
        assert(files@.take(files@.len() as int) =~= files@);
    }
    if acc > (u64::MAX as u128) {
        return None;
    }
    Some(aggregate(files, total_folders, hidden_file_count, now_ts))
}

} // verus!
