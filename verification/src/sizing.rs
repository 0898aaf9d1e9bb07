//! Directory-size aggregation against the snapshot, with a memo keyed by
//! the exact path string, and the sorted path previews of a breakdown row.

use vstd::prelude::*;

use crate::fs::DirEntry;
use crate::fs::FsSnapshot;
use crate::chars::string_to_chars;
use crate::matching::sat_add_u64;
use crate::matching::exec_sat_add;
use crate::sort::DescU64;
use crate::sort::sort_desc_m;
use crate::sort::sort_by_key_desc;
use crate::sort::lemma_sort_desc_commute;
use crate::sort::dv_seq;

verus! {

broadcast use {crate::chars::lemma_dv, crate::chars::lemma_vec_dv};

/// The invocation-scoped size memo. Every stored pair agrees with the
/// snapshot, so a hit returns exactly what a walk would have.
pub struct SizeCache {
    pub entries: Vec<DirEntry>,
}

impl SizeCache {
    pub open spec fn agrees_with(self, fs: FsSnapshot) -> bool {
        forall|i: int|
            0 <= i < self.entries@.len() ==> (#[trigger] self.entries@[i]).bytes
                == fs.spec_dir_size(self.entries@[i].path@)
    }

    pub fn new() -> (r: SizeCache)
        ensures
            forall|fs: FsSnapshot| r.agrees_with(fs),
    {
        SizeCache { entries: Vec::new() }
    }
}

/// The memoized recursive size of `path`: a cache hit returns the stored
/// value, a miss consults the snapshot and stores the answer.
pub fn directory_size_cached(fs: &FsSnapshot, cache: &mut SizeCache, path: &str) -> (r: u64)
    requires
        old(cache).agrees_with(*fs),
    ensures
        r == fs.spec_dir_size(path@),
        final(cache).agrees_with(*fs),
{
    let pc = string_to_chars(path);
    let n: usize = cache.entries.len();
    let mut i: usize = 0;
    while i < n
        invariant
            i <= n,
            n == cache.entries@.len(),
            cache.agrees_with(*fs),
            pc@ == path@,
        decreases n - i,
    {
        if crate::text::str_eq_chars(cache.entries[i].path.as_str(), &pc) {
            return cache.entries[i].bytes;
        }
        i = i + 1;
    }
    let bytes = fs.dir_size(&pc);
    let ghost pre = cache.entries@;
    cache.entries.push(DirEntry { path: String::from_str(path), bytes });
    proof {
        assert forall|j: int| 0 <= j < cache.entries@.len() implies (#[trigger] cache.entries@[
            j]).bytes == fs.spec_dir_size(cache.entries@[j].path@) by {
            if j < pre.len() {
                assert(cache.entries@[j] == pre[j]);
            }
        }
    }
    bytes
}

/// The saturating sum of the snapshot sizes of the listed paths.
pub open spec fn spec_sum_total(fs: FsSnapshot, ps: Seq<Seq<char>>) -> u64
    decreases ps.len(),
{
    if ps.len() == 0 {
        0
    } else {
        sat_add_u64(spec_sum_total(fs, ps.drop_last()), fs.spec_dir_size(ps.last()))
    }
}

/// One measured path of a breakdown row.
pub struct SizedPath {
    pub bytes: u64,
    pub path: String,
}

pub ghost struct SizedModel {
    pub bytes: u64,
    pub path: Seq<char>,
}

impl View for SizedPath {
    type V = SizedModel;

    open spec fn view(&self) -> SizedModel {
        SizedModel { bytes: self.bytes, path: self.path@ }
    }
}

impl DeepView for SizedPath {
    type V = SizedModel;

    open spec fn deep_view(&self) -> SizedModel {
        self.view()
    }
}

impl DescU64 for SizedPath {
    open spec fn dkey(&self) -> u64 {
        self.bytes
    }

    fn key_gt(&self, other: &Self) -> (r: bool) {
        self.bytes > other.bytes
    }
}

/// The descending-size key, as one shared term.
pub open spec fn sized_key_fn() -> spec_fn(SizedModel) -> u64 {
    |m: SizedModel| m.bytes
}

/// The measured paths, largest first, stable on ties.
pub open spec fn spec_sized_sorted(fs: FsSnapshot, ps: Seq<Seq<char>>) -> Seq<SizedModel> {
    sort_desc_m(
        ps.map_values(|p: Seq<char>| SizedModel { bytes: fs.spec_dir_size(p), path: p }),
        sized_key_fn(),
    )
}

/// The preview paths of a row: the five largest directories, in
/// decreasing size order.
pub open spec fn spec_shown_paths(fs: FsSnapshot, ps: Seq<Seq<char>>) -> Seq<Seq<char>> {
    let sorted = spec_sized_sorted(fs, ps);
    let cut = if sorted.len() <= 5 {
        sorted
    } else {
        sorted.take(5)
    };
    cut.map_values(|m: SizedModel| m.path)
}

/// Sum the memoized sizes of the listed paths; return the saturating
/// total and up to five paths sorted by decreasing size.
pub fn sum_paths(paths: &Vec<String>, fs: &FsSnapshot, cache: &mut SizeCache) -> (r: (
    u64,
    Vec<String>,
))
    requires
        old(cache).agrees_with(*fs),
    ensures
        final(cache).agrees_with(*fs),
        r.0 == spec_sum_total(*fs, paths.deep_view()),
        r.1.deep_view() == spec_shown_paths(*fs, paths.deep_view()),
{
    let ghost pv = paths.deep_view();
    let n: usize = paths.len();
    let mut items: Vec<SizedPath> = Vec::new();
    let mut total: u64 = 0;
    let mut i: usize = 0;
    proof {
        assert(pv.take(0) =~= Seq::<Seq<char>>::empty());
        assert(items.deep_view() =~= pv.take(0).map_values(
            |p: Seq<char>| SizedModel { bytes: fs.spec_dir_size(p), path: p },
        ));
    }
    while i < n
        invariant
            i <= n,
            n == paths@.len(),
            pv == paths.deep_view(),
            cache.agrees_with(*fs),
            total == spec_sum_total(*fs, pv.take(i as int)),
            items.deep_view() == pv.take(i as int).map_values(
                |p: Seq<char>| SizedModel { bytes: fs.spec_dir_size(p), path: p },
            ),
        decreases n - i,
    {
        let p = &paths[i];
        proof {
            assert(p@ == pv[i as int]);
            assert(pv.take(i + 1).drop_last() =~= pv.take(i as int));
            assert(pv.take(i + 1).last() == pv[i as int]);
        }
        let bytes = directory_size_cached(fs, cache, p.as_str());
        total = exec_sat_add(total, bytes);
        let ghost pre = items.deep_view();
        items.push(SizedPath { bytes, path: p.clone() });
        i = i + 1;
        proof {
            assert forall|j: int| 0 <= j < items@.len() implies items.deep_view()[j] == pv.take(
                i as int,
            ).map_values(|q: Seq<char>| SizedModel { bytes: fs.spec_dir_size(q), path: q })[
                j] by {
                assert(items.deep_view()[j] == items@[j]@);
                if j < items@.len() - 1 {
                    assert(items@[j]@ == pre[j]);
                }
            }
            assert(items.deep_view() =~= pv.take(i as int).map_values(
                |q: Seq<char>| SizedModel { bytes: fs.spec_dir_size(q), path: q },
            ));
        }
    }
    proof {
        assert(pv.take(n as int) =~= pv);
    }
    let ghost items_at = items@;
    let sorted = sort_by_key_desc(items);
    proof {
        assert forall|t: SizedPath| sized_key_fn()(#[trigger] t.deep_view()) == t.dkey() by {}
        lemma_sort_desc_commute(items_at, sized_key_fn());
        assert(dv_seq(items_at) =~= pv.map_values(
            |q: Seq<char>| SizedModel { bytes: fs.spec_dir_size(q), path: q },
        ));
        assert(sorted.deep_view() =~= dv_seq(sorted@));
        assert(sorted.deep_view() == spec_sized_sorted(*fs, pv));
    }
    let m: usize = sorted.len();
    let keep: usize = if m <= 5 {
        m
    } else {
        5
    };
    let mut shown: Vec<String> = Vec::new();
    let mut j: usize = 0;
    while j < keep
        invariant
            j <= keep,
            keep <= m,
            m == sorted@.len(),
            sorted.deep_view() == spec_sized_sorted(*fs, pv),
            keep == (if sorted.deep_view().len() <= 5 {
                sorted.deep_view().len() as int
            } else {
                5int
            }),
            shown@.len() == j,
            forall|k: int|
                0 <= k < j ==> shown.deep_view()[k] == (#[trigger] sorted.deep_view()[k]).path,
        decreases keep - j,
    {
        shown.push(sorted[j].path.clone());
        j = j + 1;
        proof {
            assert(shown.deep_view()[j - 1] == sorted@[j - 1]@.path);
        }
    }
    proof {
        let cut = if spec_sized_sorted(*fs, pv).len() <= 5 {
            spec_sized_sorted(*fs, pv)
        } else {
            spec_sized_sorted(*fs, pv).take(5)
        };
        assert(shown.deep_view() =~= cut.map_values(|q: SizedModel| q.path));
    }
    (total, shown)
}


/// The program row inputs of one entry: the memoized size of its hinted
/// install directory and that directory as the row's single path; zero
/// and no paths without a hint.
pub fn compute_install_bytes(
    e: &crate::uninstall::UninstallEntry,
    fs: &FsSnapshot,
    cache: &mut SizeCache,
) -> (r: (u64, Vec<String>))
    requires
        old(cache).agrees_with(*fs),
    ensures
        final(cache).agrees_with(*fs),
        match crate::uninstall::spec_install_dir_hint(*fs, e@) {
            Option::Some(d) => r.0 == fs.spec_dir_size(d) && r.1.deep_view() =~= seq![d],
            Option::None => r.0 == 0 && r.1.deep_view() =~= Seq::<Seq<char>>::empty(),
        },
{
    match crate::uninstall::install_dir_hint_chars(e, fs) {
        Some(d) => {
            let ds = crate::chars::chars_to_string(&d);
            let bytes = directory_size_cached(fs, cache, ds.as_str());
            let mut paths: Vec<String> = Vec::new();
            paths.push(ds);
            proof {
                assert(d.deep_view() =~= d@);
                assert(paths.deep_view() =~= seq![d@]);
            }
            (bytes, paths)
        },
        None => {
            let paths: Vec<String> = Vec::new();
            proof {
                assert(paths.deep_view() =~= Seq::<Seq<char>>::empty());
            }
            (0, paths)
        },
    }
}


/// Equal snapshots size path lists alike.
pub proof fn lemma_sum_total_fs_eq(f1: FsSnapshot, f2: FsSnapshot, ps: Seq<Seq<char>>)
    requires
        crate::fs::fs_eq(f1, f2),
    ensures
        spec_sum_total(f1, ps) == spec_sum_total(f2, ps),
    decreases ps.len(),
{
    if ps.len() > 0 {
        lemma_sum_total_fs_eq(f1, f2, ps.drop_last());
        crate::fs::lemma_fs_eq(f1, f2, ps.last());
    }
}

/// Equal snapshots order and preview path lists alike.
pub proof fn lemma_shown_paths_fs_eq(f1: FsSnapshot, f2: FsSnapshot, ps: Seq<Seq<char>>)
    requires
        crate::fs::fs_eq(f1, f2),
    ensures
        spec_shown_paths(f1, ps) == spec_shown_paths(f2, ps),
{
    let m1 = ps.map_values(|p: Seq<char>| SizedModel { bytes: f1.spec_dir_size(p), path: p });
    let m2 = ps.map_values(|p: Seq<char>| SizedModel { bytes: f2.spec_dir_size(p), path: p });
    assert forall|i: int| 0 <= i < ps.len() implies m1[i] == m2[i] by {
        crate::fs::lemma_fs_eq(f1, f2, ps[i]);
    }
    assert(m1 =~= m2);
    assert(spec_sized_sorted(f1, ps) == spec_sized_sorted(f2, ps));
}

} // verus!
