//! The audit overview: coverage statistics over the canonical entries and
//! the folder assignment, with no deep directory walks.

use vstd::prelude::*;

use crate::chars::chars_to_string;
use crate::chars::string_to_chars;
use crate::fs::FsSnapshot;
use crate::matching::build_app_tokens;
use crate::matching::build_owner_keys;
use crate::matching::owner_keys;
use crate::matching::spec_app_tokens;
use crate::matching::spec_owners;
use crate::matching::OwnerModel;
use crate::matching::OwnerSlot;
use crate::matching::TokModel;
use crate::roots::RootFolders;
use crate::roots::Roots;
use crate::roots::slot_keys;
use crate::scan::sort_entries;
use crate::scan::spec_canonical;
use crate::scan::lemma_sort_entries;
use crate::sort::dv_seq;
use crate::sort::sort_asc_m;
use crate::sort::sort_desc_m;
use crate::sort::sort_by_key_asc;
use crate::sort::sort_by_key_desc;
use crate::sort::sort_str;
use crate::sort::lemma_sort_str;
use crate::sort::lemma_sort_asc_commute;
use crate::sort::lemma_sort_desc_commute;
use crate::sort::AscChars;
use crate::sort::DescU64;
use crate::text::dedup_adj;
use crate::text::dedup_adj_chars;
use crate::text::find_str_idx;
use crate::text::lower_seq;
use crate::text::lower_chars;
use crate::text::str_eq_chars;
use crate::uninstall::dedupe_uninstall_entries;
use crate::uninstall::spec_install_dir_hint;
use crate::uninstall::install_dir_hint_chars;
use crate::uninstall::EntryModel;
use crate::uninstall::UninstallEntry;

verus! {

broadcast use {crate::chars::lemma_dv, crate::chars::lemma_vec_dv};

/// Saturating addition on u32.
pub open spec fn sat_add_u32(a: u32, b: u32) -> u32 {
    if a + b <= u32::MAX {
        (a + b) as u32
    } else {
        u32::MAX
    }
}

/// How many canonical entries report no size and no usable install-dir
/// hint.
pub open spec fn spec_unknown_count(fs: FsSnapshot, canon: Seq<EntryModel>) -> u32
    decreases canon.len(),
{
    if canon.len() == 0 {
        0
    } else {
        let rest = spec_unknown_count(fs, canon.drop_last());
        if canon.last().estimated_bytes == 0 && spec_install_dir_hint(fs, canon.last())
            is None {
            sat_add_u32(rest, 1)
        } else {
            rest
        }
    }
}

fn unknown_count(fs: &FsSnapshot, canon: &Vec<UninstallEntry>) -> (r: u32)
    ensures
        r == spec_unknown_count(*fs, canon.deep_view()),
{
    let n: usize = canon.len();
    let mut count: u32 = 0;
    let mut i: usize = 0;
    proof {
        assert(canon.deep_view().take(0) =~= Seq::<EntryModel>::empty());
    }
    while i < n
        invariant
            i <= n,
            n == canon@.len(),
            count == spec_unknown_count(*fs, canon.deep_view().take(i as int)),
        decreases n - i,
    {
        proof {
            assert(canon.deep_view().take(i + 1).drop_last() =~= canon.deep_view().take(
                i as int,
            ));
            assert(canon.deep_view().take(i + 1).last() == canon.deep_view()[i as int]);
            assert(canon.deep_view()[i as int] == canon@[i as int]@);
        }
        let e = &canon[i];
        if e.estimated_bytes == 0 && install_dir_hint_chars(e, fs).is_none() {
            if count <= u32::MAX - 1 {
                count = count + 1;
            } else {
                count = u32::MAX;
            }
        }
        i = i + 1;
    }
    proof {
        assert(canon.deep_view().take(n as int) =~= canon.deep_view());
    }
    count
}

/// The canonical entries grouped by their case-folded install-dir hint.
pub struct DupGroup {
    pub dir: String,
    pub names: Vec<String>,
}

pub ghost struct GroupModel {
    pub dir: Seq<char>,
    pub names: Seq<Seq<char>>,
}

impl View for DupGroup {
    type V = GroupModel;

    open spec fn view(&self) -> GroupModel {
        GroupModel { dir: self.dir@, names: self.names.deep_view() }
    }
}

impl DeepView for DupGroup {
    type V = GroupModel;

    open spec fn deep_view(&self) -> GroupModel {
        self.view()
    }
}

pub open spec fn group_dirs(gs: Seq<GroupModel>) -> Seq<Seq<char>> {
    gs.map_values(|g: GroupModel| g.dir)
}

/// One entry folded into the install-dir groups.
pub open spec fn group_step(gs: Seq<GroupModel>, fs: FsSnapshot, m: EntryModel) -> Seq<
    GroupModel,
> {
    match spec_install_dir_hint(fs, m) {
        Option::Some(p) => {
            let k = lower_seq(p);
            let i = find_str_idx(group_dirs(gs), k);
            if i >= 0 {
                gs.update(i, GroupModel { dir: gs[i].dir, names: gs[i].names.push(m.name) })
            } else {
                gs.push(GroupModel { dir: k, names: seq![m.name] })
            }
        },
        Option::None => gs,
    }
}

pub open spec fn spec_groups(gs: Seq<GroupModel>, fs: FsSnapshot, canon: Seq<EntryModel>) -> Seq<
    GroupModel,
>
    decreases canon.len(),
{
    if canon.len() == 0 {
        gs
    } else {
        spec_groups(group_step(gs, fs, canon[0]), fs, canon.drop_first())
    }
}

fn find_group(gs: &Vec<DupGroup>, k: &Vec<char>) -> (r: Option<usize>)
    ensures
        match r {
            Some(i) => i < gs@.len() && find_str_idx(group_dirs(gs.deep_view()), k@) == i as int,
            None => find_str_idx(group_dirs(gs.deep_view()), k@) == -1,
        },
{
    let n: usize = gs.len();
    let mut i: usize = 0;
    proof {
        crate::text::lemma_find_str_idx(group_dirs(gs.deep_view()), k@);
    }
    while i < n
        invariant
            i <= n,
            n == gs@.len(),
            -1 <= find_str_idx(group_dirs(gs.deep_view()), k@) < n as int,
            find_str_idx(group_dirs(gs.deep_view()), k@) >= 0 ==> group_dirs(gs.deep_view())[
                find_str_idx(group_dirs(gs.deep_view()), k@)] == k@,
            find_str_idx(group_dirs(gs.deep_view()), k@) == -1 ==> forall|j: int|
                0 <= j < n ==> group_dirs(gs.deep_view())[j] != k@,
            forall|j: int| 0 <= j < find_str_idx(group_dirs(gs.deep_view()), k@) ==> group_dirs(
                gs.deep_view(),
            )[j] != k@,
            forall|j: int| 0 <= j < i ==> group_dirs(gs.deep_view())[j] != k@,
        decreases n - i,
    {
        proof {
            assert(group_dirs(gs.deep_view())[i as int] == gs@[i as int]@.dir);
        }
        if str_eq_chars(gs[i].dir.as_str(), k) {
            return Some(i);
        }
        i = i + 1;
    }
    None
}

fn build_groups(fs: &FsSnapshot, canon: &Vec<UninstallEntry>) -> (r: Vec<DupGroup>)
    ensures
        r.deep_view() == spec_groups(Seq::empty(), *fs, canon.deep_view()),
{
    let ghost cm = canon.deep_view();
    let mut gs: Vec<DupGroup> = Vec::new();
    let n: usize = canon.len();
    let mut i: usize = 0;
    proof {
        assert(cm.skip(0) =~= cm);
        assert(gs.deep_view() =~= Seq::<GroupModel>::empty());
    }
    while i < n
        invariant
            i <= n,
            n == canon@.len(),
            cm == canon.deep_view(),
            spec_groups(Seq::empty(), *fs, cm) == spec_groups(
                gs.deep_view(),
                *fs,
                cm.skip(i as int),
            ),
        decreases n - i,
    {
        let e = &canon[i];
        proof {
            assert(e@ == cm[i as int]);
            assert(cm.skip(i as int)[0] == cm[i as int]);
            assert(cm.skip(i as int).drop_first() =~= cm.skip(i + 1));
        }
        let ghost pre = gs.deep_view();
        match install_dir_hint_chars(e, fs) {
            Some(p) => {
                proof {
                    assert(p.deep_view() =~= p@);
                }
                let k = lower_chars(&p);
                match find_group(&gs, &k) {
                    Some(gi) => {
                        let ghost pre_at = gs@;
                        let mut cur = gs.remove(gi);
                        let ghost cur_pre = cur@;
                        cur.names.push(e.name.clone());
                        proof {
                            assert(cur.names.deep_view() =~= cur_pre.names.push(e@.name));
                        }
                        gs.insert(gi, cur);
                        proof {
                            let st = group_step(pre, *fs, cm[i as int]);
                            assert(pre_at[gi as int]@ == pre[gi as int]);
                            assert(gs.deep_view()[gi as int] == gs@[gi as int]@);
                            assert forall|j: int| 0 <= j < gs@.len() implies gs.deep_view()[j]
                                == st[j] by {
                                assert(gs.deep_view()[j] == gs@[j]@);
                                if j != gi {
                                    assert(gs@[j] == pre_at[j]);
                                    assert(pre_at[j]@ == pre[j]);
                                }
                            }
                            assert(gs.deep_view() =~= st);
                        }
                    },
                    None => {
                        let ghost pre_at = gs@;
                        let mut names: Vec<String> = Vec::new();
                        names.push(e.name.clone());
                        let g = DupGroup { dir: chars_to_string(&k), names };
                        proof {
                            assert(g@.names =~= seq![e@.name]);
                        }
                        gs.push(g);
                        proof {
                            let st = group_step(pre, *fs, cm[i as int]);
                            assert forall|j: int| 0 <= j < gs@.len() implies gs.deep_view()[j]
                                == st[j] by {
                                assert(gs.deep_view()[j] == gs@[j]@);
                                if j < gs@.len() - 1 {
                                    assert(gs@[j] == pre_at[j]);
                                    assert(pre_at[j]@ == pre[j]);
                                }
                            }
                            assert(gs.deep_view() =~= st);
                        }
                    },
                }
            },
            None => {
                proof {
                    assert(group_step(pre, *fs, cm[i as int]) == pre);
                }
            },
        }
        i = i + 1;
    }
    proof {
        assert(cm.skip(n as int).len() == 0);
    }
    gs
}

/// One shared install location claimed by several distinct apps.
pub struct AuditDuplicateInstallLocation {
    pub install_dir: String,
    pub apps: Vec<String>,
}

pub ghost struct DupModel {
    pub install_dir: Seq<char>,
    pub apps: Seq<Seq<char>>,
}

impl View for AuditDuplicateInstallLocation {
    type V = DupModel;

    open spec fn view(&self) -> DupModel {
        DupModel { install_dir: self.install_dir@, apps: self.apps.deep_view() }
    }
}

impl DeepView for AuditDuplicateInstallLocation {
    type V = DupModel;

    open spec fn deep_view(&self) -> DupModel {
        self.view()
    }
}

impl DescU64 for AuditDuplicateInstallLocation {
    open spec fn dkey(&self) -> u64 {
        self.apps@.len() as u64
    }

    fn key_gt(&self, other: &Self) -> (r: bool) {
        self.apps.len() > other.apps.len()
    }
}

/// The app count of a duplicate group, as one shared term.
pub open spec fn dup_key_fn() -> spec_fn(DupModel) -> u64 {
    |d: DupModel| d.apps.len() as u64
}

/// A group kept only when, after sorting and removing duplicate names, at
/// least two distinct apps point at the directory.
pub open spec fn spec_dup_of_group(g: GroupModel) -> Option<DupModel> {
    if g.names.len() <= 1 {
        Option::None
    } else {
        let dd = dedup_adj(sort_str(g.names));
        if dd.len() <= 1 {
            Option::None
        } else {
            Option::Some(DupModel { install_dir: g.dir, apps: dd })
        }
    }
}

pub open spec fn spec_dups_raw(gs: Seq<GroupModel>) -> Seq<DupModel>
    decreases gs.len(),
{
    if gs.len() == 0 {
        Seq::empty()
    } else {
        let rest = spec_dups_raw(gs.drop_last());
        match spec_dup_of_group(gs.last()) {
            Option::Some(d) => rest.push(d),
            Option::None => rest,
        }
    }
}

/// The duplicate install locations, most-shared first, stable.
pub open spec fn spec_dups(gs: Seq<GroupModel>) -> Seq<DupModel> {
    sort_desc_m(spec_dups_raw(gs), dup_key_fn())
}

fn dups_of_groups(gs: Vec<DupGroup>) -> (r: Vec<AuditDuplicateInstallLocation>)
    ensures
        r.deep_view() == spec_dups(gs.deep_view()),
{
    let ghost gm = gs.deep_view();
    let n: usize = gs.len();
    let mut raw: Vec<AuditDuplicateInstallLocation> = Vec::new();
    let mut i: usize = 0;
    proof {
        assert(gm.take(0) =~= Seq::<GroupModel>::empty());
        assert(raw.deep_view() =~= spec_dups_raw(gm.take(0)));
    }
    while i < n
        invariant
            i <= n,
            n == gs@.len(),
            gm == gs.deep_view(),
            raw.deep_view() == spec_dups_raw(gm.take(i as int)),
        decreases n - i,
    {
        let g = &gs[i];
        proof {
            assert(g@ == gm[i as int]);
            assert(gm.take(i + 1).drop_last() =~= gm.take(i as int));
            assert(gm.take(i + 1).last() == gm[i as int]);
        }
        let ghost pre = raw.deep_view();
        if g.names.len() > 1 {
            let mut ncs: Vec<Vec<char>> = Vec::new();
            let m: usize = g.names.len();
            let mut j: usize = 0;
            while j < m
                invariant
                    j <= m,
                    m == g.names@.len(),
                    ncs.deep_view() == g.names.deep_view().take(j as int),
                    ncs@.len() == j,
                decreases m - j,
            {
                ncs.push(string_to_chars(g.names[j].as_str()));
                j = j + 1;
                proof {
                    assert(ncs.deep_view() =~= g.names.deep_view().take(j as int));
                }
            }
            proof {
                assert(g.names.deep_view().take(m as int) =~= g.names.deep_view());
            }
            let ghost ncs_at = ncs@;
            let sorted = sort_by_key_asc(ncs);
            proof {
                lemma_sort_str(ncs_at);
                assert(dv_seq(ncs_at) =~= g.names.deep_view());
                assert(sorted.deep_view() =~= dv_seq(sorted@));
                assert(sorted.deep_view() == sort_str(gm[i as int].names));
            }
            let dd = dedup_adj_chars(sorted);
            if dd.len() > 1 {
                let mut apps: Vec<String> = Vec::new();
                let dm: usize = dd.len();
                let mut q: usize = 0;
                while q < dm
                    invariant
                        q <= dm,
                        dm == dd@.len(),
                        apps.deep_view() == dd.deep_view().take(q as int),
                        apps@.len() == q,
                    decreases dm - q,
                {
                    apps.push(chars_to_string(&dd[q]));
                    q = q + 1;
                    proof {
                        assert(apps.deep_view() =~= dd.deep_view().take(q as int));
                    }
                }
                proof {
                    assert(dd.deep_view().take(dm as int) =~= dd.deep_view());
                }
                let d = AuditDuplicateInstallLocation { install_dir: g.dir.clone(), apps };
                proof {
                    assert(d@ == spec_dup_of_group(gm[i as int]) -> 0);
                }
                raw.push(d);
                proof {
                    assert(raw.deep_view() =~= spec_dups_raw(gm.take(i + 1)));
                }
            } else {
                proof {
                    assert(raw.deep_view() == spec_dups_raw(gm.take(i + 1)));
                }
            }
        } else {
            proof {
                assert(raw.deep_view() == spec_dups_raw(gm.take(i + 1)));
            }
        }
        i = i + 1;
    }
    proof {
        assert(gm.take(n as int) =~= gm);
    }
    let ghost raw_at = raw@;
    let out = sort_by_key_desc(raw);
    proof {
        assert forall|t: AuditDuplicateInstallLocation| dup_key_fn()(#[trigger] t.deep_view())
            == t.dkey() by {
            assert(t.deep_view().apps =~= t.apps.deep_view());
        }
        lemma_sort_desc_commute(raw_at, dup_key_fn());
        assert(dv_seq(raw_at) =~= spec_dups_raw(gm));
        assert(out.deep_view() =~= dv_seq(out@));
        assert(out.deep_view() == spec_dups(gm));
    }
    out
}

/// The memoized directory size of one named folder under one app-data
/// root; 0 on an unknown kind, an absent root or an unknown folder.
pub open spec fn spec_measure(roots: Roots, fs: FsSnapshot, kind: Seq<char>, folder: Seq<
    char,
>) -> u64 {
    let rt_opt = if kind == "appDataLocal"@ {
        roots.local
    } else if kind == "appDataRoaming"@ {
        roots.roaming
    } else if kind == "appDataLocalLow"@ {
        roots.local_low
    } else if kind == "programData"@ {
        roots.program_data
    } else {
        Option::None
    };
    match rt_opt {
        Option::Some(rt) => match rt.spec_get(lower_seq(folder)) {
            Option::Some(p) => fs.spec_dir_size(p),
            Option::None => 0,
        },
        Option::None => 0,
    }
}

/// Measure one named app-data folder against the snapshot.
pub fn measure_folder_size(kind: &str, folder: &str, roots: &Roots, fs: &FsSnapshot) -> (r: u64)
    ensures
        r == spec_measure(*roots, *fs, kind@, folder@),
{
    let kc = string_to_chars(kind);
    let k_local = string_to_chars("appDataLocal");
    let k_roaming = string_to_chars("appDataRoaming");
    let k_locallow = string_to_chars("appDataLocalLow");
    let k_progdata = string_to_chars("programData");
    let rt_opt: Option<&RootFolders> = if crate::text::chars_eq(&kc, &k_local) {
        roots.local.as_ref()
    } else if crate::text::chars_eq(&kc, &k_roaming) {
        roots.roaming.as_ref()
    } else if crate::text::chars_eq(&kc, &k_locallow) {
        roots.local_low.as_ref()
    } else if crate::text::chars_eq(&kc, &k_progdata) {
        roots.program_data.as_ref()
    } else {
        None
    };
    let fc = string_to_chars(folder);
    let key = lower_chars(&fc);
    match rt_opt {
        Some(rt) => {
            match rt.get_path(&key) {
                Some(p) => {
                    let pc = string_to_chars(p.as_str());
                    fs.dir_size(&pc)
                },
                None => 0,
            }
        },
        None => 0,
    }
}


/// The coverage summary of one root.
pub struct AuditRootSummary {
    pub kind: String,
    pub assigned_folders: u32,
    pub unassigned_folders: u32,
}

pub ghost struct SummaryModel {
    pub kind: Seq<char>,
    pub assigned_folders: u32,
    pub unassigned_folders: u32,
}

impl View for AuditRootSummary {
    type V = SummaryModel;

    open spec fn view(&self) -> SummaryModel {
        SummaryModel {
            kind: self.kind@,
            assigned_folders: self.assigned_folders,
            unassigned_folders: self.unassigned_folders,
        }
    }
}

impl DeepView for AuditRootSummary {
    type V = SummaryModel;

    open spec fn deep_view(&self) -> SummaryModel {
        self.view()
    }
}

/// One unowned top-level folder of a root.
pub struct AuditUnassignedFolder {
    pub kind: String,
    pub folder: String,
    pub path: String,
}

pub ghost struct UnassignedModel {
    pub kind: Seq<char>,
    pub folder: Seq<char>,
    pub path: Seq<char>,
}

impl View for AuditUnassignedFolder {
    type V = UnassignedModel;

    open spec fn view(&self) -> UnassignedModel {
        UnassignedModel { kind: self.kind@, folder: self.folder@, path: self.path@ }
    }
}

impl DeepView for AuditUnassignedFolder {
    type V = UnassignedModel;

    open spec fn deep_view(&self) -> UnassignedModel {
        self.view()
    }
}

impl AscChars for AuditUnassignedFolder {
    open spec fn skey(&self) -> Seq<char> {
        self.path@
    }

    fn key_lt(&self, other: &Self) -> (r: bool) {
        let a = string_to_chars(self.path.as_str());
        let b = string_to_chars(other.path.as_str());
        crate::text::chars_lt(&a, &b)
    }
}

/// The absolute path of an unassigned folder, as one shared term.
pub open spec fn un_key_fn() -> spec_fn(UnassignedModel) -> Seq<char> {
    |m: UnassignedModel| m.path
}

/// The folder keys of a root that no app owns, in listing order.
pub open spec fn unassigned_keys(sl: Seq<crate::roots::SlotModel>, os: Seq<OwnerModel>) -> Seq<
    Seq<char>,
>
    decreases sl.len(),
{
    if sl.len() == 0 {
        Seq::empty()
    } else {
        let rest = unassigned_keys(sl.drop_last(), os);
        if find_str_idx(owner_keys(os), sl.last().key) < 0 {
            rest.push(sl.last().key)
        } else {
            rest
        }
    }
}

pub open spec fn preview_fold(
    rt: RootFolders,
    kind: Seq<char>,
    cut: Seq<Seq<char>>,
) -> Seq<UnassignedModel>
    decreases cut.len(),
{
    if cut.len() == 0 {
        Seq::empty()
    } else {
        let rest = preview_fold(rt, kind, cut.drop_last());
        match rt.spec_get(cut.last()) {
            Option::Some(p) => rest.push(
                UnassignedModel { kind, folder: cut.last(), path: p },
            ),
            Option::None => rest,
        }
    }
}

/// Up to 80 unassigned folders of one root, keys in ascending order.
pub open spec fn spec_preview(rt: RootFolders, os: Seq<OwnerModel>, kind: Seq<char>) -> Seq<
    UnassignedModel,
> {
    let ks = sort_str(unassigned_keys(rt.model(), os));
    let cut = if ks.len() <= 80 {
        ks
    } else {
        ks.take(80)
    };
    preview_fold(rt, kind, cut)
}

/// The summary row of one root.
pub open spec fn spec_summary(rt: RootFolders, os: Seq<OwnerModel>, kind: Seq<char>) -> SummaryModel {
    SummaryModel {
        kind,
        assigned_folders: os.len() as u32,
        unassigned_folders: unassigned_keys(rt.model(), os).len() as u32,
    }
}

fn unassigned_keys_of(rt: &RootFolders, owners: &Vec<OwnerSlot>) -> (r: Vec<Vec<char>>)
    ensures
        r.deep_view() == unassigned_keys(rt.model(), owners.deep_view()),
{
    let n: usize = rt.folders.len();
    let mut out: Vec<Vec<char>> = Vec::new();
    let mut i: usize = 0;
    proof {
        assert(rt.model().take(0) =~= Seq::<crate::roots::SlotModel>::empty());
        assert(out.deep_view() =~= unassigned_keys(rt.model().take(0), owners.deep_view()));
    }
    while i < n
        invariant
            i <= n,
            n == rt.folders@.len(),
            out.deep_view() == unassigned_keys(rt.model().take(i as int), owners.deep_view()),
        decreases n - i,
    {
        proof {
            assert(rt.model().take(i + 1).drop_last() =~= rt.model().take(i as int));
            assert(rt.model().take(i + 1).last() == rt.model()[i as int]);
            assert(rt.model()[i as int] == rt.folders@[i as int]@);
        }
        let k = string_to_chars(rt.folders[i].key.as_str());
        match crate::matching::find_owner(owners, &k) {
            Some(_) => {
                proof {
                    assert(find_str_idx(owner_keys(owners.deep_view()), rt.model()[i as int].key)
                        >= 0);
                }
            },
            None => {
                out.push(k);
                proof {
                    assert(out.deep_view() =~= unassigned_keys(
                        rt.model().take(i + 1),
                        owners.deep_view(),
                    ));
                }
            },
        }
        i = i + 1;
    }
    proof {
        assert(rt.model().take(n as int) =~= rt.model());
    }
    out
}

fn root_summary(rt: &RootFolders, owners: &Vec<OwnerSlot>, kind: &str) -> (r: AuditRootSummary)
    ensures
        r@ == spec_summary(*rt, owners.deep_view(), kind@),
{
    let un = unassigned_keys_of(rt, owners);
    let summary = AuditRootSummary {
        kind: String::from_str(kind),
        assigned_folders: #[verifier::truncate] (owners.len() as u32),
        unassigned_folders: #[verifier::truncate] (un.len() as u32),
    };
    proof {
        assert(owners.deep_view().len() == owners@.len());
        assert(summary@ == spec_summary(*rt, owners.deep_view(), kind@));
    }
    summary
}

/// Append one root's preview of unassigned folders: up to 80, keys in
/// ascending order, each tagged with the root kind and its absolute path.
pub fn extend_unassigned_preview(
    out: Vec<AuditUnassignedFolder>,
    rt: &RootFolders,
    owners: &Vec<OwnerSlot>,
    kind: &str,
) -> (r: Vec<AuditUnassignedFolder>)
    ensures
        r.deep_view() == out.deep_view() + spec_preview(*rt, owners.deep_view(), kind@),
{
    let ghost base = out.deep_view();
    let un = unassigned_keys_of(rt, owners);
    let ghost un_at = un@;
    let sorted = sort_by_key_asc(un);
    proof {
        lemma_sort_str(un_at);
        assert(dv_seq(un_at) =~= unassigned_keys(rt.model(), owners.deep_view()));
        assert(sorted.deep_view() =~= dv_seq(sorted@));
        assert(sorted.deep_view() == sort_str(unassigned_keys(rt.model(), owners.deep_view())));
    }
    let m: usize = sorted.len();
    let keep: usize = if m <= 80 {
        m
    } else {
        80
    };
    let ghost ks = sort_str(unassigned_keys(rt.model(), owners.deep_view()));
    let ghost cut = if ks.len() <= 80 { ks } else { ks.take(80) };
    proof {
        assert(cut =~= sorted.deep_view().take(keep as int));
    }
    let mut rows: Vec<AuditUnassignedFolder> = out;
    let mut j: usize = 0;
    proof {
        assert(cut.take(0) =~= Seq::<Seq<char>>::empty());
        assert(rows.deep_view() =~= base + preview_fold(*rt, kind@, cut.take(0)));
    }
    while j < keep
        invariant
            j <= keep,
            keep <= m,
            m == sorted@.len(),
            sorted.deep_view() == sort_str(unassigned_keys(rt.model(), owners.deep_view())),
            cut == sorted.deep_view().take(keep as int),
            rows.deep_view() == base + preview_fold(*rt, kind@, cut.take(j as int)),
        decreases keep - j,
    {
        proof {
            assert(cut.take(j + 1).drop_last() =~= cut.take(j as int));
            assert(cut.take(j + 1).last() == cut[j as int]);
            assert(cut[j as int] == sorted.deep_view()[j as int]);
            assert(sorted.deep_view()[j as int] == sorted@[j as int]@);
        }
        let k = &sorted[j];
        match rt.get_path(k) {
            Some(p) => {
                let row = AuditUnassignedFolder {
                    kind: String::from_str(kind),
                    folder: chars_to_string(k),
                    path: p,
                };
                let ghost grow = row@;
                let ghost pre_at = rows@;
                let ghost pre_deep = rows.deep_view();
                rows.push(row);
                proof {
                    let target = base + preview_fold(*rt, kind@, cut.take(j + 1));
                    assert(preview_fold(*rt, kind@, cut.take(j + 1)) == preview_fold(
                        *rt,
                        kind@,
                        cut.take(j as int),
                    ).push(grow));
                    assert forall|q: int| 0 <= q < rows@.len() implies rows.deep_view()[q]
                        == target[q] by {
                        assert(rows.deep_view()[q] == rows@[q]@);
                        if q < pre_at.len() {
                            assert(rows@[q] == pre_at[q]);
                            assert(pre_at[q]@ == pre_deep[q]);
                        }
                    }
                    assert(rows.deep_view() =~= target);
                }
            },
            None => {
                proof {
                    assert(rows.deep_view() == base + preview_fold(*rt, kind@, cut.take(j + 1)));
                }
            },
        }
        j = j + 1;
    }
    proof {
        assert(cut.take(keep as int) =~= cut);
    }
    rows
}


/// The audit overview.
pub struct AuditOverview {
    pub app_count: u32,
    pub unknown_program_size_count: u32,
    pub roots: Vec<AuditRootSummary>,
    pub duplicate_install_locations: Vec<AuditDuplicateInstallLocation>,
    pub unassigned_folders: Vec<AuditUnassignedFolder>,
}

pub ghost struct OverviewModel {
    pub app_count: u32,
    pub unknown_program_size_count: u32,
    pub roots: Seq<SummaryModel>,
    pub duplicate_install_locations: Seq<DupModel>,
    pub unassigned_folders: Seq<UnassignedModel>,
}

impl View for AuditOverview {
    type V = OverviewModel;

    open spec fn view(&self) -> OverviewModel {
        OverviewModel {
            app_count: self.app_count,
            unknown_program_size_count: self.unknown_program_size_count,
            roots: self.roots.deep_view(),
            duplicate_install_locations: self.duplicate_install_locations.deep_view(),
            unassigned_folders: self.unassigned_folders.deep_view(),
        }
    }
}

impl DeepView for AuditOverview {
    type V = OverviewModel;

    open spec fn deep_view(&self) -> OverviewModel {
        self.view()
    }
}

pub open spec fn opt_summary(rt: Option<RootFolders>, ts: Seq<TokModel>, kind: Seq<char>) -> Seq<
    SummaryModel,
> {
    match rt {
        Option::Some(r) => seq![spec_summary(r, spec_owners(r, ts), kind)],
        Option::None => Seq::empty(),
    }
}

pub open spec fn opt_preview(rt: Option<RootFolders>, ts: Seq<TokModel>, kind: Seq<char>) -> Seq<
    UnassignedModel,
> {
    match rt {
        Option::Some(r) => spec_preview(r, spec_owners(r, ts), kind),
        Option::None => Seq::empty(),
    }
}

/// The audit of a snapshot: canonical entry counts, duplicate install
/// locations, and per-root assignment coverage with a preview of
/// unassigned folders (at most 80 per root and 200 overall, sorted by
/// absolute path).
pub open spec fn spec_audit(entries: Seq<EntryModel>, roots: Roots, fs: FsSnapshot) -> OverviewModel {
    let canon = spec_canonical(entries, fs);
    let ts = canon.map_values(|m: EntryModel| spec_app_tokens(m));
    let summaries = opt_summary(roots.local, ts, "appDataLocal"@) + opt_summary(
        roots.roaming,
        ts,
        "appDataRoaming"@,
    ) + opt_summary(roots.local_low, ts, "appDataLocalLow"@) + opt_summary(
        roots.program_data,
        ts,
        "programData"@,
    );
    let previews = opt_preview(roots.local, ts, "appDataLocal"@) + opt_preview(
        roots.roaming,
        ts,
        "appDataRoaming"@,
    ) + opt_preview(roots.local_low, ts, "appDataLocalLow"@) + opt_preview(
        roots.program_data,
        ts,
        "programData"@,
    );
    let sorted_previews = sort_asc_m(previews, un_key_fn());
    let cut_previews = if sorted_previews.len() <= 200 {
        sorted_previews
    } else {
        sorted_previews.take(200)
    };
    OverviewModel {
        app_count: canon.len() as u32,
        unknown_program_size_count: spec_unknown_count(fs, canon),
        roots: summaries,
        duplicate_install_locations: spec_dups(spec_groups(Seq::empty(), fs, canon)),
        unassigned_folders: cut_previews,
    }
}

/// Audit the snapshot: counts and coverage, with no deep walks.
pub fn audit_overview(entries: Vec<UninstallEntry>, roots: &Roots, fs: &FsSnapshot) -> (r:
    AuditOverview)
    ensures
        r@ == spec_audit(entries.deep_view(), *roots, *fs),
{
    let ghost entries_model = entries.deep_view();
    let ghost entries_at = entries@;
    let sorted = sort_by_key_asc(entries);
    proof {
        lemma_sort_entries(entries_at);
        assert(dv_seq(entries_at) =~= entries_model);
        assert(sorted.deep_view() =~= dv_seq(sorted@));
        assert(sorted.deep_view() == sort_entries(entries_model));
    }
    let canon = dedupe_uninstall_entries(sorted, fs);
    let ghost canon_model = spec_canonical(entries_model, *fs);
    proof {
        assert(canon.deep_view() == canon_model);
    }
    let tokens = build_app_tokens(&canon);
    let ghost ts = canon_model.map_values(|m: EntryModel| spec_app_tokens(m));
    proof {
        assert(tokens.deep_view() == ts);
    }
    let unknown = unknown_count(fs, &canon);
    let groups = build_groups(fs, &canon);
    let dups = dups_of_groups(groups);
    let owners_local = build_owner_keys(roots.local.as_ref(), &tokens);
    let owners_roaming = build_owner_keys(roots.roaming.as_ref(), &tokens);
    let owners_local_low = build_owner_keys(roots.local_low.as_ref(), &tokens);
    let owners_program_data = build_owner_keys(roots.program_data.as_ref(), &tokens);
    let mut summaries: Vec<AuditRootSummary> = Vec::new();
    let mut previews: Vec<AuditUnassignedFolder> = Vec::new();
    let ghost s_local = opt_summary(roots.local, ts, "appDataLocal"@);
    let ghost s_roaming = opt_summary(roots.roaming, ts, "appDataRoaming"@);
    let ghost s_local_low = opt_summary(roots.local_low, ts, "appDataLocalLow"@);
    let ghost s_program_data = opt_summary(roots.program_data, ts, "programData"@);
    let ghost p_local = opt_preview(roots.local, ts, "appDataLocal"@);
    let ghost p_roaming = opt_preview(roots.roaming, ts, "appDataRoaming"@);
    let ghost p_local_low = opt_preview(roots.local_low, ts, "appDataLocalLow"@);
    let ghost p_program_data = opt_preview(roots.program_data, ts, "programData"@);
    match roots.local.as_ref() {
        Some(rt) => {
            summaries.push(root_summary(rt, &owners_local, "appDataLocal"));
            previews = extend_unassigned_preview(previews, rt, &owners_local, "appDataLocal");
        },
        None => {},
    }
    proof {
        assert(summaries.deep_view() =~= s_local);
        assert(previews.deep_view() =~= p_local);
    }
    match roots.roaming.as_ref() {
        Some(rt) => {
            summaries.push(root_summary(rt, &owners_roaming, "appDataRoaming"));
            previews = extend_unassigned_preview(previews, rt, &owners_roaming, "appDataRoaming");
        },
        None => {},
    }
    proof {
        assert(summaries.deep_view() =~= s_local + s_roaming);
        assert(previews.deep_view() =~= p_local + p_roaming);
    }
    match roots.local_low.as_ref() {
        Some(rt) => {
            summaries.push(root_summary(rt, &owners_local_low, "appDataLocalLow"));
            previews = extend_unassigned_preview(previews, rt, &owners_local_low, "appDataLocalLow");
        },
        None => {},
    }
    proof {
        assert(summaries.deep_view() =~= s_local + s_roaming + s_local_low);
        assert(previews.deep_view() =~= p_local + p_roaming + p_local_low);
    }
    match roots.program_data.as_ref() {
        Some(rt) => {
            summaries.push(root_summary(rt, &owners_program_data, "programData"));
            previews = extend_unassigned_preview(previews, rt, &owners_program_data, "programData");
        },
        None => {},
    }
    proof {
        assert(summaries.deep_view() =~= s_local + s_roaming + s_local_low + s_program_data);
        assert(previews.deep_view() =~= p_local + p_roaming + p_local_low + p_program_data);
    }
    let ghost previews_model = p_local + p_roaming + p_local_low + p_program_data;
    let ghost previews_at = previews@;
    let sorted_previews = sort_by_key_asc(previews);
    proof {
        assert forall|t: AuditUnassignedFolder| un_key_fn()(#[trigger] t.deep_view())
            == t.skey() by {}
        lemma_sort_asc_commute(previews_at, un_key_fn());
        assert(dv_seq(previews_at) =~= previews_model);
        assert(sorted_previews.deep_view() =~= dv_seq(sorted_previews@));
        assert(sorted_previews.deep_view() == sort_asc_m(previews_model, un_key_fn()));
    }
    let mut unassigned = sorted_previews;
    let ghost before_cut = unassigned.deep_view();
    if unassigned.len() > 200 {
        unassigned.truncate(200);
    }
    proof {
        assert(unassigned.deep_view() =~= (if before_cut.len() <= 200 {
            before_cut
        } else {
            before_cut.take(200)
        }));
    }
    let app_count: u32 = #[verifier::truncate] (canon.len() as u32);
    let out = AuditOverview {
        app_count,
        unknown_program_size_count: unknown,
        roots: summaries,
        duplicate_install_locations: dups,
        unassigned_folders: unassigned,
    };
    proof {
        assert(out@ == spec_audit(entries_model, *roots, *fs));
    }
    out
}


/// How many ownership claims name a folder key drawn from `ks`.
pub open spec fn count_in(ks: Seq<Seq<char>>, os: Seq<OwnerModel>) -> int
    decreases os.len(),
{
    if os.len() == 0 {
        0
    } else {
        count_in(ks, os.drop_last()) + (if find_str_idx(ks, os.last().folder) >= 0 {
            1int
        } else {
            0int
        })
    }
}

proof fn lemma_count_in_all(ks: Seq<Seq<char>>, os: Seq<OwnerModel>)
    requires
        forall|i: int|
            0 <= i < os.len() ==> find_str_idx(ks, (#[trigger] os[i]).folder) >= 0,
    ensures
        count_in(ks, os) == os.len(),
    decreases os.len(),
{
    if os.len() > 0 {
        lemma_count_in_all(ks, os.drop_last());
        assert(forall|i: int|
            0 <= i < os.drop_last().len() ==> #[trigger] os.drop_last()[i] == os[i]);
    }
}

proof fn lemma_count_in_push(ks: Seq<Seq<char>>, k: Seq<char>, os: Seq<OwnerModel>)
    requires
        crate::uninstall::distinct_strs(owner_keys(os)),
        find_str_idx(ks, k) < 0,
    ensures
        count_in(ks.push(k), os) == count_in(ks, os) + (if find_str_idx(
            owner_keys(os),
            k,
        ) >= 0 {
            1int
        } else {
            0int
        }),
    decreases os.len(),
{
    crate::text::lemma_find_str_idx(owner_keys(os), k);
    if os.len() == 0 {
    } else {
        let os2 = os.drop_last();
        assert(forall|i: int| 0 <= i < os2.len() ==> #[trigger] os2[i] == os[i]);
        assert forall|a: int, b: int|
            0 <= a < b < owner_keys(os2).len() implies owner_keys(os2)[a] != owner_keys(
            os2,
        )[b] by {
            assert(owner_keys(os2)[a] == owner_keys(os)[a]);
            assert(owner_keys(os2)[b] == owner_keys(os)[b]);
        }
        lemma_count_in_push(ks, k, os2);
        let f = os.last().folder;
        crate::text::lemma_find_str_idx_push(ks, k, f);
        crate::text::lemma_find_str_idx(owner_keys(os2), k);
        crate::text::lemma_find_str_idx(ks, f);
        crate::text::lemma_find_str_idx(ks.push(k), f);
        if f == k {
            assert(find_str_idx(ks, f) < 0);
            assert(find_str_idx(ks.push(k), f) >= 0) by {
                assert(ks.push(k)[ks.len() as int] == k);
            }
            // the last claim is the one with key k; no earlier claim has it
            assert(owner_keys(os).last() == k);
            assert(find_str_idx(owner_keys(os), k) >= 0) by {
                assert(owner_keys(os)[os.len() - 1] == k);
            }
            assert(find_str_idx(owner_keys(os2), k) < 0) by {
                if find_str_idx(owner_keys(os2), k) >= 0 {
                    let j = find_str_idx(owner_keys(os2), k);
                    assert(owner_keys(os)[j] == owner_keys(os2)[j]);
                    assert(owner_keys(os)[j] == owner_keys(os)[os.len() - 1]);
                    assert(j < os.len() - 1);
                    assert(false);
                }
            }
        } else {
            assert(owner_keys(os2) =~= owner_keys(os).drop_last());
            assert((find_str_idx(owner_keys(os), k) >= 0) == (find_str_idx(
                owner_keys(os2),
                k,
            ) >= 0)) by {
                crate::text::lemma_find_str_idx(owner_keys(os), k);
                crate::text::lemma_find_str_idx(owner_keys(os2), k);
                if find_str_idx(owner_keys(os), k) >= 0 {
                    let j = find_str_idx(owner_keys(os), k);
                    assert(j < os.len() - 1) by {
                        assert(owner_keys(os)[os.len() - 1] == f);
                    }
                    assert(owner_keys(os2)[j] == k);
                }
                if find_str_idx(owner_keys(os2), k) >= 0 {
                    let j = find_str_idx(owner_keys(os2), k);
                    assert(owner_keys(os)[j] == k);
                }
            }
        }
    }
}

proof fn lemma_count_in_empty(ks: Seq<Seq<char>>, os: Seq<OwnerModel>)
    requires
        ks.len() == 0,
    ensures
        count_in(ks, os) == 0,
    decreases os.len(),
{
    if os.len() > 0 {
        lemma_count_in_empty(ks, os.drop_last());
    }
}

proof fn lemma_found_count(sl: Seq<crate::roots::SlotModel>, os: Seq<OwnerModel>)
    requires
        crate::roots::distinct_keys(slot_keys(sl)),
        crate::uninstall::distinct_strs(owner_keys(os)),
    ensures
        sl.len() - unassigned_keys(sl, os).len() == count_in(slot_keys(sl), os),
    decreases sl.len(),
{
    if sl.len() == 0 {
        lemma_count_in_empty(slot_keys(sl), os);
    } else {
        let sl2 = sl.drop_last();
        assert(slot_keys(sl2) =~= slot_keys(sl).drop_last());
        assert forall|a: int, b: int|
            0 <= a < b < slot_keys(sl2).len() implies slot_keys(sl2)[a] != slot_keys(
            sl2,
        )[b] by {
            assert(slot_keys(sl2)[a] == slot_keys(sl)[a]);
            assert(slot_keys(sl2)[b] == slot_keys(sl)[b]);
        }
        lemma_found_count(sl2, os);
        let k = sl.last().key;
        assert(find_str_idx(slot_keys(sl2), k) < 0) by {
            crate::text::lemma_find_str_idx(slot_keys(sl2), k);
            if find_str_idx(slot_keys(sl2), k) >= 0 {
                let j = find_str_idx(slot_keys(sl2), k);
                assert(slot_keys(sl)[j] == slot_keys(sl2)[j]);
                assert(slot_keys(sl)[sl.len() - 1] == k);
                assert(false);
            }
        }
        lemma_count_in_push(slot_keys(sl2), k, os);
        assert(slot_keys(sl) =~= slot_keys(sl2).push(k));
        assert(count_in(slot_keys(sl), os) == count_in(slot_keys(sl2).push(k), os));
        assert(unassigned_keys(sl, os) == (if find_str_idx(owner_keys(os), k) < 0 {
            unassigned_keys(sl2, os).push(k)
        } else {
            unassigned_keys(sl2, os)
        }));
        assert(count_in(slot_keys(sl), os) == count_in(slot_keys(sl2), os) + (if find_str_idx(
            owner_keys(os),
            k,
        ) >= 0 {
            1int
        } else {
            0int
        }));
        if find_str_idx(owner_keys(os), k) < 0 {
            assert(unassigned_keys(sl, os).len() == unassigned_keys(sl2, os).len() + 1);
            assert(count_in(slot_keys(sl), os) == count_in(slot_keys(sl2), os));
            assert(sl.len() - unassigned_keys(sl, os).len() == sl2.len() - unassigned_keys(
                sl2,
                os,
            ).len());
        } else {
            assert(unassigned_keys(sl, os).len() == unassigned_keys(sl2, os).len());
            assert(count_in(slot_keys(sl), os) == count_in(slot_keys(sl2), os) + 1);
        }
    }
}

/// Audit counts match the assignment: for one root with distinct folder
/// keys, the assigned count is the owner map's size and the unassigned
/// count is the folder count minus it.
pub proof fn lemma_audit_counts(rt: RootFolders, ts: Seq<TokModel>, kind: Seq<char>)
    requires
        crate::roots::distinct_keys(slot_keys(rt.model())),
    ensures
        ({
            let os = spec_owners(rt, ts);
            &&& spec_summary(rt, os, kind).assigned_folders == os.len() as u32
            &&& unassigned_keys(rt.model(), os).len() == rt.model().len() - os.len()
        }),
{
    let os = spec_owners(rt, ts);
    crate::matching::lemma_owners_exclusive(rt, ts);
    lemma_found_count(rt.model(), os);
    lemma_count_in_all(slot_keys(rt.model()), os);
}


/// The unassigned-folder preview of the audit is sorted by absolute path,
/// ascending.
pub proof fn lemma_audit_unassigned_sorted(entries: Seq<EntryModel>, roots: Roots, fs: FsSnapshot)
    ensures
        crate::sort::sorted_by_key_m(
            spec_audit(entries, roots, fs).unassigned_folders,
            un_key_fn(),
        ),
{
    let canon = spec_canonical(entries, fs);
    let ts = canon.map_values(|m: EntryModel| spec_app_tokens(m));
    let previews = opt_preview(roots.local, ts, "appDataLocal"@) + opt_preview(
        roots.roaming,
        ts,
        "appDataRoaming"@,
    ) + opt_preview(roots.local_low, ts, "appDataLocalLow"@) + opt_preview(
        roots.program_data,
        ts,
        "programData"@,
    );
    crate::sort::lemma_sort_asc_m_sorted(previews, un_key_fn());
    let sorted = sort_asc_m(previews, un_key_fn());
    let out = spec_audit(entries, roots, fs).unassigned_folders;
    if sorted.len() > 200 {
        assert forall|i: int, j: int| 0 <= i < j < out.len() implies !crate::text::lex_lt(
            un_key_fn()(#[trigger] out[j]),
            un_key_fn()(#[trigger] out[i]),
        ) by {
            assert(out[i] == sorted[i] && out[j] == sorted[j]);
        }
    }
}

} // verus!
