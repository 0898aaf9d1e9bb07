//! The scan: canonical entries in name order, their per-application size
//! breakdowns, and the streamed progress events.

use vstd::prelude::*;

use crate::chars::string_to_chars;
use crate::fs::FsSnapshot;
use crate::matching::assign_folders;
use crate::matching::build_app_tokens;
use crate::matching::spec_app_tokens;
use crate::matching::spec_assign_root;
use crate::matching::assigned_ids;
use crate::matching::AppFolders;
use crate::matching::AppFoldersModel;
use crate::matching::AssignedFolders;
use crate::matching::TokModel;
use crate::matching::sat_add_u64;
use crate::matching::exec_sat_add;
use crate::roots::Roots;
use crate::roots::RootFolders;
use crate::sizing::directory_size_cached;
use crate::sizing::spec_shown_paths;
use crate::sizing::spec_sum_total;
use crate::sizing::sum_paths;
use crate::sizing::SizeCache;
use crate::sort::sort_asc_m;
use crate::sort::sort_by_key_asc;
use crate::sort::lemma_sort_asc_commute;
use crate::sort::AscChars;
use crate::sort::dv_seq;
use crate::text::find_str_idx;
use crate::uninstall::dedupe_uninstall_entries;
use crate::uninstall::spec_dedupe;
use crate::uninstall::spec_install_dir_hint;
use crate::uninstall::install_dir_hint_chars;
use crate::uninstall::EntryModel;
use crate::uninstall::UninstallEntry;

verus! {

broadcast use {crate::chars::lemma_dv, crate::chars::lemma_vec_dv};

/// One row of a per-application size breakdown.
pub struct AppBreakdownEntry {
    pub kind: String,
    pub label: String,
    pub bytes: u64,
    pub paths: Vec<String>,
}

pub ghost struct BreakdownModel {
    pub kind: Seq<char>,
    pub label: Seq<char>,
    pub bytes: u64,
    pub paths: Seq<Seq<char>>,
}

impl View for AppBreakdownEntry {
    type V = BreakdownModel;

    open spec fn view(&self) -> BreakdownModel {
        BreakdownModel {
            kind: self.kind@,
            label: self.label@,
            bytes: self.bytes,
            paths: self.paths.deep_view(),
        }
    }
}

impl DeepView for AppBreakdownEntry {
    type V = BreakdownModel;

    open spec fn deep_view(&self) -> BreakdownModel {
        self.view()
    }
}

/// One application with its attributed sizes.
pub struct AppRecord {
    pub id: String,
    pub name: String,
    pub publisher: Option<String>,
    pub total_bytes: u64,
    pub breakdown: Vec<AppBreakdownEntry>,
}

pub ghost struct RecordModel {
    pub id: Seq<char>,
    pub name: Seq<char>,
    pub publisher: Option<Seq<char>>,
    pub total_bytes: u64,
    pub breakdown: Seq<BreakdownModel>,
}

impl View for AppRecord {
    type V = RecordModel;

    open spec fn view(&self) -> RecordModel {
        RecordModel {
            id: self.id@,
            name: self.name@,
            publisher: self.publisher.deep_view(),
            total_bytes: self.total_bytes,
            breakdown: self.breakdown.deep_view(),
        }
    }
}

impl DeepView for AppRecord {
    type V = RecordModel;

    open spec fn deep_view(&self) -> RecordModel {
        self.view()
    }
}

/// One progress notification of a streaming scan.
pub struct ScanProgress {
    pub phase: String,
    pub current: u32,
    pub total: u32,
    pub message: String,
}

pub ghost struct ProgressModel {
    pub phase: Seq<char>,
    pub current: u32,
    pub total: u32,
    pub message: Seq<char>,
}

impl View for ScanProgress {
    type V = ProgressModel;

    open spec fn view(&self) -> ProgressModel {
        ProgressModel {
            phase: self.phase@,
            current: self.current,
            total: self.total,
            message: self.message@,
        }
    }
}

impl DeepView for ScanProgress {
    type V = ProgressModel;

    open spec fn deep_view(&self) -> ProgressModel {
        self.view()
    }
}

/// What a streaming scan emits, in order: progress notifications and
/// application records.
pub enum ScanEvent {
    Progress(ScanProgress),
    Record(AppRecord),
}

pub ghost enum EventModel {
    Progress(ProgressModel),
    Record(RecordModel),
}

impl View for ScanEvent {
    type V = EventModel;

    open spec fn view(&self) -> EventModel {
        match self {
            ScanEvent::Progress(p) => EventModel::Progress(p@),
            ScanEvent::Record(r) => EventModel::Record(r@),
        }
    }
}

impl DeepView for ScanEvent {
    type V = EventModel;

    open spec fn deep_view(&self) -> EventModel {
        self.view()
    }
}

impl AscChars for UninstallEntry {
    open spec fn skey(&self) -> Seq<char> {
        self.name@
    }

    fn key_lt(&self, other: &Self) -> (r: bool) {
        let a = string_to_chars(self.name.as_str());
        let b = string_to_chars(other.name.as_str());
        crate::text::chars_lt(&a, &b)
    }
}

/// The name key of an entry, as one shared term.
pub open spec fn entry_key_fn() -> spec_fn(EntryModel) -> Seq<char> {
    |m: EntryModel| m.name
}

/// Entries in ascending display-name order, stable.
pub open spec fn sort_entries(s: Seq<EntryModel>) -> Seq<EntryModel> {
    sort_asc_m(s, entry_key_fn())
}

/// Exec sorting of entries matches `sort_entries` of the models.
pub proof fn lemma_sort_entries(s: Seq<UninstallEntry>)
    ensures
        dv_seq(crate::sort::sort_asc(s)) == sort_entries(dv_seq(s)),
{
    assert forall|t: UninstallEntry| entry_key_fn()(#[trigger] t.deep_view())
        == t.skey() by {}
    lemma_sort_asc_commute(s, entry_key_fn());
}

/// The canonical entries of a scan: name-sorted, then deduplicated.
pub open spec fn spec_canonical(entries: Seq<EntryModel>, fs: FsSnapshot) -> Seq<EntryModel> {
    spec_dedupe(sort_entries(entries), fs)
}

/// The assignment of one optional root.
pub open spec fn spec_root_assign(root: Option<RootFolders>, ts: Seq<TokModel>) -> Seq<
    AppFoldersModel,
> {
    match root {
        Option::Some(rt) => spec_assign_root(rt, ts),
        Option::None => Seq::empty(),
    }
}

/// The program row: the registry estimate when present, else a scan of
/// the hinted install directory, else zero.
pub open spec fn spec_program_row(fs: FsSnapshot, m: EntryModel) -> BreakdownModel {
    if m.estimated_bytes > 0 {
        BreakdownModel {
            kind: "program"@,
            label: "program (registry-estimated)"@,
            bytes: m.estimated_bytes,
            paths: Seq::empty(),
        }
    } else {
        match spec_install_dir_hint(fs, m) {
            Option::Some(d) => BreakdownModel {
                kind: "program"@,
                label: "program (scanned)"@,
                bytes: fs.spec_dir_size(d),
                paths: seq![d],
            },
            Option::None => BreakdownModel {
                kind: "program"@,
                label: "program (scanned)"@,
                bytes: 0,
                paths: Seq::empty(),
            },
        }
    }
}

/// The data row of one root: present exactly when the app owns folders
/// there whose sizes sum to more than zero.
pub open spec fn spec_data_row(
    fs: FsSnapshot,
    asg: Seq<AppFoldersModel>,
    id: Seq<char>,
    kind: Seq<char>,
    label: Seq<char>,
) -> Option<BreakdownModel> {
    let i = find_str_idx(assigned_ids(asg), id);
    if i >= 0 {
        let total = spec_sum_total(fs, asg[i].paths);
        if total > 0 {
            Option::Some(
                BreakdownModel {
                    kind,
                    label,
                    bytes: total,
                    paths: spec_shown_paths(fs, asg[i].paths),
                },
            )
        } else {
            Option::None
        }
    } else {
        Option::None
    }
}

pub open spec fn opt_row(o: Option<BreakdownModel>) -> Seq<BreakdownModel> {
    match o {
        Option::Some(b) => seq![b],
        Option::None => Seq::empty(),
    }
}

/// The full breakdown: the program row first, then one row per root that
/// contributed bytes.
pub open spec fn spec_breakdown(
    fs: FsSnapshot,
    la: Seq<AppFoldersModel>,
    ra: Seq<AppFoldersModel>,
    lla: Seq<AppFoldersModel>,
    pda: Seq<AppFoldersModel>,
    m: EntryModel,
) -> Seq<BreakdownModel> {
    seq![spec_program_row(fs, m)] + opt_row(
        spec_data_row(fs, la, m.id, "appDataLocal"@, "data (AppData\\Local)"@),
    ) + opt_row(spec_data_row(fs, ra, m.id, "appDataRoaming"@, "data (AppData\\Roaming)"@))
        + opt_row(spec_data_row(fs, lla, m.id, "appDataLocalLow"@, "data (AppData\\LocalLow)"@))
        + opt_row(spec_data_row(fs, pda, m.id, "programData"@, "data (ProgramData)"@))
}

/// The saturating sum of the rows' bytes.
pub open spec fn spec_rows_total(rows: Seq<BreakdownModel>) -> u64
    decreases rows.len(),
{
    if rows.len() == 0 {
        0
    } else {
        sat_add_u64(spec_rows_total(rows.drop_last()), rows.last().bytes)
    }
}

/// The record of one canonical entry.
pub open spec fn spec_record(
    fs: FsSnapshot,
    la: Seq<AppFoldersModel>,
    ra: Seq<AppFoldersModel>,
    lla: Seq<AppFoldersModel>,
    pda: Seq<AppFoldersModel>,
    m: EntryModel,
) -> RecordModel {
    let rows = spec_breakdown(fs, la, ra, lla, pda, m);
    RecordModel {
        id: m.id,
        name: m.name,
        publisher: m.publisher,
        total_bytes: spec_rows_total(rows),
        breakdown: rows,
    }
}

fn data_row(
    fs: &FsSnapshot,
    asg: &Vec<AppFolders>,
    id: &str,
    kind: &str,
    label: &str,
    cache: &mut SizeCache,
) -> (r: Option<AppBreakdownEntry>)
    requires
        old(cache).agrees_with(*fs),
    ensures
        final(cache).agrees_with(*fs),
        r.deep_view() == spec_data_row(*fs, asg.deep_view(), id@, kind@, label@),
{
    let idc = string_to_chars(id);
    let n: usize = asg.len();
    let mut i: usize = 0;
    proof {
        crate::text::lemma_find_str_idx(assigned_ids(asg.deep_view()), id@);
    }
    while i < n
        invariant
            i <= n,
            n == asg@.len(),
            idc@ == id@,
            cache.agrees_with(*fs),
            forall|j: int| 0 <= j < i ==> assigned_ids(asg.deep_view())[j] != id@,
            -1 <= find_str_idx(assigned_ids(asg.deep_view()), id@) < n as int,
            forall|j: int| 0 <= j < find_str_idx(assigned_ids(asg.deep_view()), id@)
                ==> assigned_ids(asg.deep_view())[j] != id@,
            find_str_idx(assigned_ids(asg.deep_view()), id@) >= 0 ==> assigned_ids(
                asg.deep_view(),
            )[find_str_idx(assigned_ids(asg.deep_view()), id@)] == id@,
            find_str_idx(assigned_ids(asg.deep_view()), id@) == -1 ==> forall|j: int|
                0 <= j < n ==> assigned_ids(asg.deep_view())[j] != id@,
        decreases n - i,
    {
        proof {
            assert(assigned_ids(asg.deep_view())[i as int] == asg@[i as int]@.app_id);
        }
        if crate::text::str_eq_chars(asg[i].app_id.as_str(), &idc) {
            let (bytes, shown) = sum_paths(&asg[i].paths, fs, cache);
            proof {
                assert(find_str_idx(assigned_ids(asg.deep_view()), id@) == i as int);
                assert(asg.deep_view()[i as int].paths == asg@[i as int]@.paths);
            }
            if bytes > 0 {
                let row = AppBreakdownEntry {
                    kind: String::from_str(kind),
                    label: String::from_str(label),
                    bytes,
                    paths: shown,
                };
                return Some(row);
            } else {
                return None;
            }
        }
        i = i + 1;
    }
    None
}

/// Build the record of one canonical entry: the program row, then the
/// contributing data rows, and the saturating total.
pub fn enrich_with_breakdown(
    e: UninstallEntry,
    fs: &FsSnapshot,
    assigned: &AssignedFolders,
    cache: &mut SizeCache,
) -> (r: AppRecord)
    requires
        old(cache).agrees_with(*fs),
    ensures
        final(cache).agrees_with(*fs),
        r@ == spec_record(
            *fs,
            assigned.local.deep_view(),
            assigned.roaming.deep_view(),
            assigned.local_low.deep_view(),
            assigned.program_data.deep_view(),
            e@,
        ),
{
    let mut breakdown: Vec<AppBreakdownEntry> = Vec::new();
    let program: AppBreakdownEntry = if e.estimated_bytes > 0 {
        let row = AppBreakdownEntry {
            kind: String::from_str("program"),
            label: String::from_str("program (registry-estimated)"),
            bytes: e.estimated_bytes,
            paths: Vec::new(),
        };
        proof {
            assert(row@.paths =~= Seq::<Seq<char>>::empty());
            assert(row@ == spec_program_row(*fs, e@));
        }
        row
    } else {
        let (bytes, paths) = crate::sizing::compute_install_bytes(&e, fs, cache);
        let row = AppBreakdownEntry {
            kind: String::from_str("program"),
            label: String::from_str("program (scanned)"),
            bytes,
            paths,
        };
        proof {
            assert(row@ == spec_program_row(*fs, e@));
        }
        row
    };
    breakdown.push(program);
    let r1 = data_row(fs, &assigned.local, e.id.as_str(), "appDataLocal", "data (AppData\\Local)", cache);
    match r1 {
        Some(row) => breakdown.push(row),
        None => {},
    }
    let r2 = data_row(
        fs,
        &assigned.roaming,
        e.id.as_str(),
        "appDataRoaming",
        "data (AppData\\Roaming)",
        cache,
    );
    match r2 {
        Some(row) => breakdown.push(row),
        None => {},
    }
    let r3 = data_row(
        fs,
        &assigned.local_low,
        e.id.as_str(),
        "appDataLocalLow",
        "data (AppData\\LocalLow)",
        cache,
    );
    match r3 {
        Some(row) => breakdown.push(row),
        None => {},
    }
    let r4 = data_row(
        fs,
        &assigned.program_data,
        e.id.as_str(),
        "programData",
        "data (ProgramData)",
        cache,
    );
    match r4 {
        Some(row) => breakdown.push(row),
        None => {},
    }
    proof {
        assert(breakdown.deep_view() =~= spec_breakdown(
            *fs,
            assigned.local.deep_view(),
            assigned.roaming.deep_view(),
            assigned.local_low.deep_view(),
            assigned.program_data.deep_view(),
            e@,
        ));
    }
    let n: usize = breakdown.len();
    let mut total: u64 = 0;
    let mut i: usize = 0;
    proof {
        assert(breakdown.deep_view().take(0) =~= Seq::<BreakdownModel>::empty());
    }
    while i < n
        invariant
            i <= n,
            n == breakdown@.len(),
            total == spec_rows_total(breakdown.deep_view().take(i as int)),
        decreases n - i,
    {
        proof {
            assert(breakdown.deep_view().take(i + 1).drop_last() =~= breakdown.deep_view().take(
                i as int,
            ));
            assert(breakdown.deep_view().take(i + 1).last() == breakdown.deep_view()[i as int]);
            assert(breakdown.deep_view()[i as int] == breakdown@[i as int]@);
        }
        total = exec_sat_add(total, breakdown[i].bytes);
        i = i + 1;
    }
    proof {
        assert(breakdown.deep_view().take(n as int) =~= breakdown.deep_view());
    }
    AppRecord { id: e.id, name: e.name, publisher: e.publisher, total_bytes: total, breakdown }
}


/// The record of every canonical entry, in order.
pub open spec fn spec_scan_records(
    entries: Seq<EntryModel>,
    roots: Roots,
    fs: FsSnapshot,
) -> Seq<RecordModel> {
    let canon = spec_canonical(entries, fs);
    let ts = canon.map_values(|m: EntryModel| spec_app_tokens(m));
    let la = spec_root_assign(roots.local, ts);
    let ra = spec_root_assign(roots.roaming, ts);
    let lla = spec_root_assign(roots.local_low, ts);
    let pda = spec_root_assign(roots.program_data, ts);
    canon.map_values(|m: EntryModel| spec_record(fs, la, ra, lla, pda, m))
}

/// The record/progress pairs of the processed prefix, in order: the
/// record of entry `i`, then a `scan` event with `current == i + 1`.
pub open spec fn spec_scan_pairs(
    fs: FsSnapshot,
    la: Seq<AppFoldersModel>,
    ra: Seq<AppFoldersModel>,
    lla: Seq<AppFoldersModel>,
    pda: Seq<AppFoldersModel>,
    canon: Seq<EntryModel>,
    total: u32,
) -> Seq<EventModel>
    decreases canon.len(),
{
    if canon.len() == 0 {
        Seq::empty()
    } else {
        spec_scan_pairs(fs, la, ra, lla, pda, canon.drop_last(), total) + seq![
            EventModel::Record(spec_record(fs, la, ra, lla, pda, canon.last())),
            EventModel::Progress(
                ProgressModel {
                    phase: "scan"@,
                    current: canon.len() as u32,
                    total,
                    message: "attributing disk usage"@,
                },
            ),
        ]
    }
}

/// Everything a streaming scan emits: one `uninstall` event, a record
/// and a `scan` event per canonical entry, and one `done` event.
pub open spec fn spec_scan_events(
    entries: Seq<EntryModel>,
    roots: Roots,
    fs: FsSnapshot,
) -> Seq<EventModel> {
    let canon = spec_canonical(entries, fs);
    let ts = canon.map_values(|m: EntryModel| spec_app_tokens(m));
    let la = spec_root_assign(roots.local, ts);
    let ra = spec_root_assign(roots.roaming, ts);
    let lla = spec_root_assign(roots.local_low, ts);
    let pda = spec_root_assign(roots.program_data, ts);
    let total: u32 = if canon.len() == 0 {
        1u32
    } else {
        canon.len() as u32
    };
    seq![
        EventModel::Progress(
            ProgressModel {
                phase: "uninstall"@,
                current: 0,
                total: canon.len() as u32,
                message: "read the installed application list"@,
            },
        ),
    ] + spec_scan_pairs(fs, la, ra, lla, pda, canon, total) + seq![
        EventModel::Progress(
            ProgressModel {
                phase: "done"@,
                current: total,
                total,
                message: "scan complete"@,
            },
        ),
    ]
}

/// The streaming scan over a snapshot: canonicalize the entries, assign
/// folders, and emit records with progress events, in order.
pub fn scan_apps_stream(entries: Vec<UninstallEntry>, roots: &Roots, fs: &FsSnapshot) -> (r:
    Vec<ScanEvent>)
    requires
        entries@.len() <= u32::MAX,
    ensures
        r.deep_view() == spec_scan_events(entries.deep_view(), *roots, *fs),
{
    let ghost entries_model = entries.deep_view();
    let ghost entries_at = entries@;
    let sorted = sort_by_key_asc(entries);
    proof {
        lemma_sort_entries(entries_at);
        assert(dv_seq(entries_at) =~= entries_model);
        assert(sorted.deep_view() =~= dv_seq(sorted@));
        assert(sorted.deep_view() == sort_entries(entries_model));
        crate::sort::lemma_sort_asc_m_len(entries_model, entry_key_fn());
    }
    let canon = dedupe_uninstall_entries(sorted, fs);
    let ghost canon_model = spec_canonical(entries_model, *fs);
    proof {
        assert(canon.deep_view() == canon_model);
        crate::uninstall::lemma_dedupe_len(sort_entries(entries_model), *fs);
        assert(canon_model.len() <= entries_model.len());
        assert(entries_model.len() == entries_at.len());
    }
    let tokens = build_app_tokens(&canon);
    let ghost ts = canon_model.map_values(|m: EntryModel| spec_app_tokens(m));
    let assigned = assign_folders(roots, &tokens);
    let ghost la = spec_root_assign(roots.local, ts);
    let ghost ra = spec_root_assign(roots.roaming, ts);
    let ghost lla = spec_root_assign(roots.local_low, ts);
    let ghost pda = spec_root_assign(roots.program_data, ts);
    proof {
        assert(tokens.deep_view() == ts);
        assert(assigned.local.deep_view() == la);
        assert(assigned.roaming.deep_view() == ra);
        assert(assigned.local_low.deep_view() == lla);
        assert(assigned.program_data.deep_view() == pda);
    }
    let mut cache = SizeCache::new();
    let n: usize = canon.len();
    let total: u32 = if n == 0 {
        1
    } else {
        n as u32
    };
    let mut events: Vec<ScanEvent> = Vec::new();
    events.push(
        ScanEvent::Progress(
            ScanProgress {
                phase: String::from_str("uninstall"),
                current: 0,
                total: n as u32,
                message: String::from_str("read the installed application list"),
            },
        ),
    );
    let ghost head = seq![
        EventModel::Progress(
            ProgressModel {
                phase: "uninstall"@,
                current: 0,
                total: canon_model.len() as u32,
                message: "read the installed application list"@,
            },
        ),
    ];
    proof {
        assert(events.deep_view() =~= head + spec_scan_pairs(
            *fs,
            la,
            ra,
            lla,
            pda,
            canon_model.take(0),
            total,
        ));
    }
    let mut canon = canon;
    let mut idx: usize = 0;
    while idx < n
        invariant
            idx <= n,
            n == canon_model.len(),
            n <= u32::MAX,
            n == canon@.len() + idx,
            canon.deep_view() == canon_model.skip(idx as int),
            cache.agrees_with(*fs),
            assigned.local.deep_view() == la,
            assigned.roaming.deep_view() == ra,
            assigned.local_low.deep_view() == lla,
            assigned.program_data.deep_view() == pda,
            total == (if canon_model.len() == 0 {
                1u32
            } else {
                canon_model.len() as u32
            }),
            events.deep_view() == head + spec_scan_pairs(
                *fs,
                la,
                ra,
                lla,
                pda,
                canon_model.take(idx as int),
                total,
            ),
            head == seq![
                EventModel::Progress(
                    ProgressModel {
                        phase: "uninstall"@,
                        current: 0,
                        total: canon_model.len() as u32,
                        message: "read the installed application list"@,
                    },
                ),
            ],
        decreases n - idx,
    {
        let ghost pre_at = canon@;
        let ghost pre_deep = canon.deep_view();
        proof {
            assert(forall|j: int|
                0 <= j < pre_at.len() ==> pre_deep[j] == (#[trigger] pre_at[j]).deep_view());
        }
        let e = canon.remove(0);
        proof {
            assert(e == pre_at[0]);
            assert(e@ == canon_model[idx as int]);
            assert forall|j: int| 0 <= j < canon@.len() implies canon.deep_view()[j]
                == canon_model.skip(idx + 1)[j] by {
                assert(canon.deep_view()[j] == canon@[j].deep_view());
                assert(canon@[j] == pre_at[j + 1]);
                assert(pre_at[j + 1].deep_view() == pre_deep[j + 1]);
                assert(pre_deep[j + 1] == canon_model.skip(idx as int)[j + 1]);
            }
            assert(canon.deep_view() =~= canon_model.skip(idx + 1));
        }
        let rec = enrich_with_breakdown(e, fs, &assigned, &mut cache);
        let ghost grec = rec@;
        let ghost ev_pre = events.deep_view();
        let ghost ev_pre_at = events@;
        events.push(ScanEvent::Record(rec));
        events.push(
            ScanEvent::Progress(
                ScanProgress {
                    phase: String::from_str("scan"),
                    current: (idx as u32) + 1,
                    total,
                    message: String::from_str("attributing disk usage"),
                },
            ),
        );
        idx = idx + 1;
        proof {
            let tk = canon_model.take(idx as int);
            assert(tk.drop_last() =~= canon_model.take(idx - 1));
            assert(tk.last() == canon_model[idx - 1]);
            assert(tk.len() == idx);
            let pairs_old = spec_scan_pairs(*fs, la, ra, lla, pda, canon_model.take(idx - 1), total);
            let pairs_new = spec_scan_pairs(*fs, la, ra, lla, pda, tk, total);
            assert(pairs_new == pairs_old + seq![
                EventModel::Record(spec_record(*fs, la, ra, lla, pda, tk.last())),
                EventModel::Progress(
                    ProgressModel {
                        phase: "scan"@,
                        current: tk.len() as u32,
                        total,
                        message: "attributing disk usage"@,
                    },
                ),
            ]);
            assert(grec == spec_record(*fs, la, ra, lla, pda, tk.last()));
            assert(events@.len() == ev_pre_at.len() + 2);
            assert forall|j: int| 0 <= j < events@.len() implies events.deep_view()[j] == (head
                + pairs_new)[j] by {
                assert(events.deep_view()[j] == events@[j]@);
                if j < ev_pre_at.len() {
                    assert(events@[j] == ev_pre_at[j]);
                    assert(ev_pre_at[j]@ == ev_pre[j]);
                    assert(ev_pre[j] == (head + pairs_old)[j]);
                } else if j == ev_pre_at.len() {
                    assert(events@[j]@ == EventModel::Record(grec));
                } else {
                    assert(events@[j]@ == EventModel::Progress(
                        ProgressModel {
                            phase: "scan"@,
                            current: tk.len() as u32,
                            total,
                            message: "attributing disk usage"@,
                        },
                    ));
                }
            }
            assert(events.deep_view() =~= head + pairs_new);
        }
    }
    events.push(
        ScanEvent::Progress(
            ScanProgress {
                phase: String::from_str("done"),
                current: total,
                total,
                message: String::from_str("scan complete"),
            },
        ),
    );
    proof {
        assert(canon_model.take(n as int) =~= canon_model);
        assert(events.deep_view() =~= spec_scan_events(entries_model, *roots, *fs));
    }
    events
}

/// The batched scan: the records of the streaming scan, in order.
pub fn scan_apps(entries: Vec<UninstallEntry>, roots: &Roots, fs: &FsSnapshot) -> (r: Vec<
    AppRecord,
>)
    requires
        entries@.len() <= u32::MAX,
    ensures
        r.deep_view() == spec_scan_records(entries.deep_view(), *roots, *fs),
{
    let ghost entries_model = entries.deep_view();
    let ghost entries_at = entries@;
    let sorted = sort_by_key_asc(entries);
    proof {
        lemma_sort_entries(entries_at);
        assert(dv_seq(entries_at) =~= entries_model);
        assert(sorted.deep_view() =~= dv_seq(sorted@));
        assert(sorted.deep_view() == sort_entries(entries_model));
    }
    let canon = dedupe_uninstall_entries(sorted, fs);
    let ghost canon_model = spec_canonical(entries_model, *fs);
    proof {
        assert(canon.deep_view() == canon_model);
    }
    let tokens = build_app_tokens(&canon);
    let ghost ts = canon_model.map_values(|m: EntryModel| spec_app_tokens(m));
    let assigned = assign_folders(roots, &tokens);
    let ghost la = spec_root_assign(roots.local, ts);
    let ghost ra = spec_root_assign(roots.roaming, ts);
    let ghost lla = spec_root_assign(roots.local_low, ts);
    let ghost pda = spec_root_assign(roots.program_data, ts);
    proof {
        assert(tokens.deep_view() == ts);
        assert(assigned.local.deep_view() == la);
        assert(assigned.roaming.deep_view() == ra);
        assert(assigned.local_low.deep_view() == lla);
        assert(assigned.program_data.deep_view() == pda);
    }
    let mut cache = SizeCache::new();
    let n: usize = canon.len();
    let mut out: Vec<AppRecord> = Vec::new();
    let mut canon = canon;
    let mut idx: usize = 0;
    while idx < n
        invariant
            idx <= n,
            n == canon_model.len(),
            n == canon@.len() + idx,
            canon.deep_view() == canon_model.skip(idx as int),
            cache.agrees_with(*fs),
            assigned.local.deep_view() == la,
            assigned.roaming.deep_view() == ra,
            assigned.local_low.deep_view() == lla,
            assigned.program_data.deep_view() == pda,
            out@.len() == idx,
            forall|j: int|
                0 <= j < idx ==> out.deep_view()[j] == spec_record(
                    *fs,
                    la,
                    ra,
                    lla,
                    pda,
                    #[trigger] canon_model[j],
                ),
        decreases n - idx,
    {
        let ghost pre_at = canon@;
        let ghost pre_deep = canon.deep_view();
        proof {
            assert(forall|j: int|
                0 <= j < pre_at.len() ==> pre_deep[j] == (#[trigger] pre_at[j]).deep_view());
        }
        let e = canon.remove(0);
        proof {
            assert(e == pre_at[0]);
            assert(e@ == canon_model[idx as int]);
            assert forall|j: int| 0 <= j < canon@.len() implies canon.deep_view()[j]
                == canon_model.skip(idx + 1)[j] by {
                assert(canon.deep_view()[j] == canon@[j].deep_view());
                assert(canon@[j] == pre_at[j + 1]);
                assert(pre_at[j + 1].deep_view() == pre_deep[j + 1]);
                assert(pre_deep[j + 1] == canon_model.skip(idx as int)[j + 1]);
            }
            assert(canon.deep_view() =~= canon_model.skip(idx + 1));
        }
        let rec = enrich_with_breakdown(e, fs, &assigned, &mut cache);
        out.push(rec);
        idx = idx + 1;
    }
    proof {
        assert(out.deep_view() =~= spec_scan_records(entries_model, *roots, *fs));
    }
    out
}


/// Breakdown total: a record's total is exactly the saturating sum of
/// its rows' bytes.
pub proof fn lemma_breakdown_total(
    fs: FsSnapshot,
    la: Seq<AppFoldersModel>,
    ra: Seq<AppFoldersModel>,
    lla: Seq<AppFoldersModel>,
    pda: Seq<AppFoldersModel>,
    m: EntryModel,
)
    ensures
        spec_record(fs, la, ra, lla, pda, m).total_bytes == spec_rows_total(
            spec_record(fs, la, ra, lla, pda, m).breakdown,
        ),
{
}

/// Program row presence: every record has exactly one row with kind
/// `program`, and it stands first.
pub proof fn lemma_program_row(
    fs: FsSnapshot,
    la: Seq<AppFoldersModel>,
    ra: Seq<AppFoldersModel>,
    lla: Seq<AppFoldersModel>,
    pda: Seq<AppFoldersModel>,
    m: EntryModel,
)
    ensures
        spec_record(fs, la, ra, lla, pda, m).breakdown.len() >= 1,
        spec_record(fs, la, ra, lla, pda, m).breakdown[0].kind == "program"@,
        forall|i: int|
            1 <= i < spec_record(fs, la, ra, lla, pda, m).breakdown.len() ==> (
            #[trigger] spec_record(fs, la, ra, lla, pda, m).breakdown[i]).kind != "program"@,
{
    reveal_strlit("program");
    reveal_strlit("appDataLocal");
    reveal_strlit("appDataRoaming");
    reveal_strlit("appDataLocalLow");
    reveal_strlit("programData");
    let rows = spec_breakdown(fs, la, ra, lla, pda, m);
    assert(rows[0] == spec_program_row(fs, m));
    assert forall|i: int| 1 <= i < rows.len() implies (#[trigger] rows[i]).kind
        != "program"@ by {
        assert(rows[i].kind == "appDataLocal"@ || rows[i].kind == "appDataRoaming"@
            || rows[i].kind == "appDataLocalLow"@ || rows[i].kind == "programData"@);
        assert("appDataLocal"@.len() == 12 && "program"@.len() == 7);
        assert("appDataRoaming"@.len() == 14);
        assert("appDataLocalLow"@.len() == 15);
        assert("programData"@.len() == 11);
    }
}

/// Progress sequencing, element shape of the record/progress pairs.
proof fn lemma_scan_pairs_shape(
    fs: FsSnapshot,
    la: Seq<AppFoldersModel>,
    ra: Seq<AppFoldersModel>,
    lla: Seq<AppFoldersModel>,
    pda: Seq<AppFoldersModel>,
    canon: Seq<EntryModel>,
    total: u32,
)
    ensures
        spec_scan_pairs(fs, la, ra, lla, pda, canon, total).len() == 2 * canon.len(),
        forall|i: int|
            0 <= i < canon.len() ==> #[trigger] spec_scan_pairs(
                fs,
                la,
                ra,
                lla,
                pda,
                canon,
                total,
            )[2 * i] == EventModel::Record(spec_record(fs, la, ra, lla, pda, canon[i])),
        forall|i: int|
            0 <= i < canon.len() ==> #[trigger] spec_scan_pairs(
                fs,
                la,
                ra,
                lla,
                pda,
                canon,
                total,
            )[2 * i + 1] == EventModel::Progress(
                ProgressModel {
                    phase: "scan"@,
                    current: (i + 1) as u32,
                    total,
                    message: "attributing disk usage"@,
                },
            ),
    decreases canon.len(),
{
    if canon.len() > 0 {
        lemma_scan_pairs_shape(fs, la, ra, lla, pda, canon.drop_last(), total);
        let ps = spec_scan_pairs(fs, la, ra, lla, pda, canon, total);
        let pre = spec_scan_pairs(fs, la, ra, lla, pda, canon.drop_last(), total);
        assert forall|i: int| 0 <= i < canon.len() implies #[trigger] ps[2 * i]
            == EventModel::Record(spec_record(fs, la, ra, lla, pda, canon[i])) by {
            if i < canon.len() - 1 {
                assert(ps[2 * i] == pre[2 * i]);
                assert(canon.drop_last()[i] == canon[i]);
            } else {
                assert(ps[2 * i] == EventModel::Record(
                    spec_record(fs, la, ra, lla, pda, canon.last()),
                ));
            }
        }
        assert forall|i: int| 0 <= i < canon.len() implies #[trigger] ps[2 * i + 1]
            == EventModel::Progress(
            ProgressModel {
                phase: "scan"@,
                current: (i + 1) as u32,
                total,
                message: "attributing disk usage"@,
            },
        ) by {
            if i < canon.len() - 1 {
                assert(ps[2 * i + 1] == pre[2 * i + 1]);
            }
        }
    }
}

/// Progress sequencing: a streaming scan emits one `uninstall` event,
/// then a record and a `scan` event with current `i + 1` for each of the
/// canonical entries in order, then one `done` event.
pub proof fn lemma_progress_sequencing(entries: Seq<EntryModel>, roots: Roots, fs: FsSnapshot)
    ensures
        ({
            let evs = spec_scan_events(entries, roots, fs);
            let canon = spec_canonical(entries, fs);
            let n = canon.len();
            let total: u32 = if n == 0 {
                1u32
            } else {
                n as u32
            };
            &&& evs.len() == 2 * n + 2
            &&& evs[0] == EventModel::Progress(
                ProgressModel {
                    phase: "uninstall"@,
                    current: 0,
                    total: n as u32,
                    message: "read the installed application list"@,
                },
            )
            &&& evs.last() == EventModel::Progress(
                ProgressModel {
                    phase: "done"@,
                    current: total,
                    total,
                    message: "scan complete"@,
                },
            )
            &&& forall|i: int| 0 <= i < n ==> (#[trigger] evs[2 * i + 1]) is Record
            &&& forall|i: int|
                0 <= i < n ==> (#[trigger] evs[2 * i + 2]) == EventModel::Progress(
                    ProgressModel {
                        phase: "scan"@,
                        current: (i + 1) as u32,
                        total,
                        message: "attributing disk usage"@,
                    },
                )
        }),
{
    let canon = spec_canonical(entries, fs);
    let ts = canon.map_values(|m: EntryModel| spec_app_tokens(m));
    let la = spec_root_assign(roots.local, ts);
    let ra = spec_root_assign(roots.roaming, ts);
    let lla = spec_root_assign(roots.local_low, ts);
    let pda = spec_root_assign(roots.program_data, ts);
    let n = canon.len();
    let total: u32 = if n == 0 {
        1u32
    } else {
        n as u32
    };
    lemma_scan_pairs_shape(fs, la, ra, lla, pda, canon, total);
    let evs = spec_scan_events(entries, roots, fs);
    let pairs = spec_scan_pairs(fs, la, ra, lla, pda, canon, total);
    assert(evs.len() == 2 * n + 2);
    assert forall|i: int| 0 <= i < n implies (#[trigger] evs[2 * i + 1]) is Record by {
        assert(evs[2 * i + 1] == pairs[2 * i]);
    }
    assert forall|i: int| 0 <= i < n implies (#[trigger] evs[2 * i + 2])
        == EventModel::Progress(
        ProgressModel {
            phase: "scan"@,
            current: (i + 1) as u32,
            total,
            message: "attributing disk usage"@,
        },
    ) by {
        assert(evs[2 * i + 2] == pairs[2 * i + 1]);
    }
}



/// The records carried inside an event list, in order.
pub open spec fn records_of(evs: Seq<EventModel>) -> Seq<RecordModel>
    decreases evs.len(),
{
    if evs.len() == 0 {
        Seq::empty()
    } else {
        let rest = records_of(evs.drop_last());
        match evs.last() {
            EventModel::Record(r) => rest.push(r),
            EventModel::Progress(_) => rest,
        }
    }
}

proof fn lemma_records_of_pairs(
    fs: FsSnapshot,
    la: Seq<AppFoldersModel>,
    ra: Seq<AppFoldersModel>,
    lla: Seq<AppFoldersModel>,
    pda: Seq<AppFoldersModel>,
    canon: Seq<EntryModel>,
    total: u32,
    prefix: Seq<EventModel>,
)
    ensures
        records_of(prefix + spec_scan_pairs(fs, la, ra, lla, pda, canon, total)) == records_of(
            prefix,
        ) + canon.map_values(|m: EntryModel| spec_record(fs, la, ra, lla, pda, m)),
    decreases canon.len(),
{
    if canon.len() == 0 {
        assert(prefix + spec_scan_pairs(fs, la, ra, lla, pda, canon, total) =~= prefix);
        assert(records_of(prefix) + canon.map_values(
            |m: EntryModel| spec_record(fs, la, ra, lla, pda, m),
        ) =~= records_of(prefix));
    } else {
        lemma_records_of_pairs(fs, la, ra, lla, pda, canon.drop_last(), total, prefix);
        let r = spec_record(fs, la, ra, lla, pda, canon.last());
        let p = EventModel::Progress(
            ProgressModel {
                phase: "scan"@,
                current: canon.len() as u32,
                total,
                message: "attributing disk usage"@,
            },
        );
        let x = prefix + spec_scan_pairs(fs, la, ra, lla, pda, canon.drop_last(), total);
        assert(prefix + spec_scan_pairs(fs, la, ra, lla, pda, canon, total) =~= x.push(
            EventModel::Record(r),
        ).push(p));
        assert(records_of(x.push(EventModel::Record(r)).push(p)) == records_of(
            x.push(EventModel::Record(r)),
        )) by {
            assert(x.push(EventModel::Record(r)).push(p).drop_last() =~= x.push(
                EventModel::Record(r),
            ));
        }
        assert(records_of(x.push(EventModel::Record(r))) == records_of(x).push(r)) by {
            assert(x.push(EventModel::Record(r)).drop_last() =~= x);
        }
        assert(records_of(prefix) + canon.map_values(
            |m: EntryModel| spec_record(fs, la, ra, lla, pda, m),
        ) =~= (records_of(prefix) + canon.drop_last().map_values(
            |m: EntryModel| spec_record(fs, la, ra, lla, pda, m),
        )).push(r));
    }
}

/// The batched scan is exactly the records of the streaming scan, in
/// order.
pub proof fn lemma_stream_collects_records(entries: Seq<EntryModel>, roots: Roots, fs: FsSnapshot)
    ensures
        records_of(spec_scan_events(entries, roots, fs)) == spec_scan_records(entries, roots, fs),
{
    let canon = spec_canonical(entries, fs);
    let ts = canon.map_values(|m: EntryModel| spec_app_tokens(m));
    let la = spec_root_assign(roots.local, ts);
    let ra = spec_root_assign(roots.roaming, ts);
    let lla = spec_root_assign(roots.local_low, ts);
    let pda = spec_root_assign(roots.program_data, ts);
    let total: u32 = if canon.len() == 0 {
        1u32
    } else {
        canon.len() as u32
    };
    let head = seq![
        EventModel::Progress(
            ProgressModel {
                phase: "uninstall"@,
                current: 0,
                total: canon.len() as u32,
                message: "read the installed application list"@,
            },
        ),
    ];
    let done = EventModel::Progress(
        ProgressModel { phase: "done"@, current: total, total, message: "scan complete"@ },
    );
    let body = head + spec_scan_pairs(fs, la, ra, lla, pda, canon, total);
    assert(spec_scan_events(entries, roots, fs) =~= body.push(done));
    assert(records_of(body.push(done)) == records_of(body)) by {
        assert(body.push(done).drop_last() =~= body);
    }
    lemma_records_of_pairs(fs, la, ra, lla, pda, canon, total, head);
    assert(head.drop_last() =~= Seq::<EventModel>::empty());
    assert(records_of(Seq::<EventModel>::empty()) =~= Seq::<RecordModel>::empty());
    assert(head.last() == head[0]);
    assert(records_of(head) =~= Seq::<RecordModel>::empty());
    assert(records_of(body) =~= canon.map_values(
        |m: EntryModel| spec_record(fs, la, ra, lla, pda, m),
    ));
}


/// Two root sets offering the same folders under the same keys.
pub open spec fn roots_eq(r1: Roots, r2: Roots) -> bool {
    &&& match (r1.local, r2.local) {
        (Option::Some(a), Option::Some(b)) => a.model() == b.model(),
        (Option::None, Option::None) => true,
        _ => false,
    }
    &&& match (r1.roaming, r2.roaming) {
        (Option::Some(a), Option::Some(b)) => a.model() == b.model(),
        (Option::None, Option::None) => true,
        _ => false,
    }
    &&& match (r1.local_low, r2.local_low) {
        (Option::Some(a), Option::Some(b)) => a.model() == b.model(),
        (Option::None, Option::None) => true,
        _ => false,
    }
    &&& match (r1.program_data, r2.program_data) {
        (Option::Some(a), Option::Some(b)) => a.model() == b.model(),
        (Option::None, Option::None) => true,
        _ => false,
    }
}

proof fn lemma_data_row_fs_eq(
    f1: FsSnapshot,
    f2: FsSnapshot,
    asg: Seq<AppFoldersModel>,
    id: Seq<char>,
    kind: Seq<char>,
    label: Seq<char>,
)
    requires
        crate::fs::fs_eq(f1, f2),
    ensures
        spec_data_row(f1, asg, id, kind, label) == spec_data_row(f2, asg, id, kind, label),
{
    let i = find_str_idx(assigned_ids(asg), id);
    crate::text::lemma_find_str_idx(assigned_ids(asg), id);
    if i >= 0 {
        crate::sizing::lemma_sum_total_fs_eq(f1, f2, asg[i].paths);
        crate::sizing::lemma_shown_paths_fs_eq(f1, f2, asg[i].paths);
    }
}

proof fn lemma_record_fs_eq(
    f1: FsSnapshot,
    f2: FsSnapshot,
    la: Seq<AppFoldersModel>,
    ra: Seq<AppFoldersModel>,
    lla: Seq<AppFoldersModel>,
    pda: Seq<AppFoldersModel>,
    m: EntryModel,
)
    requires
        crate::fs::fs_eq(f1, f2),
    ensures
        spec_record(f1, la, ra, lla, pda, m) == spec_record(f2, la, ra, lla, pda, m),
{
    crate::uninstall::lemma_hint_fs_eq(f1, f2, m);
    match spec_install_dir_hint(f1, m) {
        Option::Some(d) => {
            crate::fs::lemma_fs_eq(f1, f2, d);
        },
        Option::None => {},
    }
    lemma_data_row_fs_eq(f1, f2, la, m.id, "appDataLocal"@, "data (AppData\\Local)"@);
    lemma_data_row_fs_eq(f1, f2, ra, m.id, "appDataRoaming"@, "data (AppData\\Roaming)"@);
    lemma_data_row_fs_eq(f1, f2, lla, m.id, "appDataLocalLow"@, "data (AppData\\LocalLow)"@);
    lemma_data_row_fs_eq(f1, f2, pda, m.id, "programData"@, "data (ProgramData)"@);
    assert(spec_breakdown(f1, la, ra, lla, pda, m) == spec_breakdown(f2, la, ra, lla, pda, m));
}

proof fn lemma_pairs_fs_eq(
    f1: FsSnapshot,
    f2: FsSnapshot,
    la: Seq<AppFoldersModel>,
    ra: Seq<AppFoldersModel>,
    lla: Seq<AppFoldersModel>,
    pda: Seq<AppFoldersModel>,
    canon: Seq<EntryModel>,
    total: u32,
)
    requires
        crate::fs::fs_eq(f1, f2),
    ensures
        spec_scan_pairs(f1, la, ra, lla, pda, canon, total) == spec_scan_pairs(
            f2,
            la,
            ra,
            lla,
            pda,
            canon,
            total,
        ),
    decreases canon.len(),
{
    if canon.len() > 0 {
        lemma_pairs_fs_eq(f1, f2, la, ra, lla, pda, canon.drop_last(), total);
        lemma_record_fs_eq(f1, f2, la, ra, lla, pda, canon.last());
    }
}

/// Determinism over snapshots: scans over entry lists with the same
/// contents, root sets with the same folders, and filesystem snapshots
/// with the same probed paths and sizes emit the same events and the
/// same records.
pub proof fn lemma_scan_snapshot_determinism(
    e1: Seq<EntryModel>,
    e2: Seq<EntryModel>,
    r1: Roots,
    r2: Roots,
    f1: FsSnapshot,
    f2: FsSnapshot,
)
    requires
        e1 == e2,
        roots_eq(r1, r2),
        crate::fs::fs_eq(f1, f2),
    ensures
        spec_scan_events(e1, r1, f1) == spec_scan_events(e2, r2, f2),
        spec_scan_records(e1, r1, f1) == spec_scan_records(e2, r2, f2),
{
    crate::uninstall::lemma_dedupe_fs_eq(sort_entries(e1), f1, f2);
    let canon = spec_canonical(e1, f1);
    assert(spec_canonical(e2, f2) == canon);
    let ts = canon.map_values(|m: EntryModel| spec_app_tokens(m));
    match (r1.local, r2.local) {
        (Option::Some(a), Option::Some(b)) => {
            crate::matching::lemma_assign_root_eq(a, b, ts);
        },
        _ => {},
    }
    match (r1.roaming, r2.roaming) {
        (Option::Some(a), Option::Some(b)) => {
            crate::matching::lemma_assign_root_eq(a, b, ts);
        },
        _ => {},
    }
    match (r1.local_low, r2.local_low) {
        (Option::Some(a), Option::Some(b)) => {
            crate::matching::lemma_assign_root_eq(a, b, ts);
        },
        _ => {},
    }
    match (r1.program_data, r2.program_data) {
        (Option::Some(a), Option::Some(b)) => {
            crate::matching::lemma_assign_root_eq(a, b, ts);
        },
        _ => {},
    }
    let la = spec_root_assign(r1.local, ts);
    let ra = spec_root_assign(r1.roaming, ts);
    let lla = spec_root_assign(r1.local_low, ts);
    let pda = spec_root_assign(r1.program_data, ts);
    assert(spec_root_assign(r2.local, ts) == la);
    assert(spec_root_assign(r2.roaming, ts) == ra);
    assert(spec_root_assign(r2.local_low, ts) == lla);
    assert(spec_root_assign(r2.program_data, ts) == pda);
    let total: u32 = if canon.len() == 0 {
        1u32
    } else {
        canon.len() as u32
    };
    lemma_pairs_fs_eq(f1, f2, la, ra, lla, pda, canon, total);
    assert(spec_scan_events(e1, r1, f1) =~= spec_scan_events(e2, r2, f2));
    let rec1 = canon.map_values(|m: EntryModel| spec_record(f1, la, ra, lla, pda, m));
    let rec2 = canon.map_values(|m: EntryModel| spec_record(f2, la, ra, lla, pda, m));
    assert forall|i: int| 0 <= i < canon.len() implies rec1[i] == rec2[i] by {
        lemma_record_fs_eq(f1, f2, la, ra, lla, pda, canon[i]);
    }
    assert(rec1 =~= rec2);
    assert(spec_scan_records(e1, r1, f1) == rec1);
    assert(spec_scan_records(e2, r2, f2) == rec2);
}

} // verus!
