use appmanager::audit::audit_overview;
use appmanager::audit::measure_folder_size;
use appmanager::fs::DirEntry;
use appmanager::fs::FsSnapshot;
use appmanager::roots::build_root_folders;
use appmanager::roots::FolderListing;
use appmanager::roots::Roots;
use appmanager::scan::scan_apps;
use appmanager::scan::scan_apps_stream;
use appmanager::scan::ScanEvent;
use appmanager::uninstall::canonicalize_uninstall_values;
use appmanager::uninstall::dedupe_uninstall_entries;
use appmanager::uninstall::entry_quality;
use appmanager::uninstall::get_install_dir_hint;
use appmanager::uninstall::merge_uninstall_entry;
use appmanager::uninstall::parse_display_icon_to_dir;
use appmanager::uninstall::RawUninstallValues;
use appmanager::uninstall::UninstallEntry;

fn entry(id: &str, name: &str, publisher: Option<&str>) -> UninstallEntry {
    UninstallEntry {
        id: id.to_string(),
        name: name.to_string(),
        publisher: publisher.map(|p| p.to_string()),
        estimated_bytes: 0,
        install_location: None,
        display_icon: None,
    }
}

fn empty_fs() -> FsSnapshot {
    FsSnapshot { dirs: Vec::new(), files: Vec::new() }
}

fn fs_with_dirs(dirs: Vec<(&str, u64)>) -> FsSnapshot {
    FsSnapshot {
        dirs: dirs
            .into_iter()
            .map(|(p, b)| DirEntry { path: p.to_string(), bytes: b })
            .collect(),
        files: Vec::new(),
    }
}

fn no_roots() -> Roots {
    Roots { local: None, roaming: None, local_low: None, program_data: None }
}

#[test]
fn dedupe_migration_attaches_location() {
    let fs = fs_with_dirs(vec![("C:\\Foo", 10)]);
    let a = entry("hklm64:A", "Foo", Some("Bar"));
    let mut b = entry("hklm32:B", "Foo", Some("Bar"));
    b.install_location = Some("C:\\Foo".to_string());
    let out = dedupe_uninstall_entries(vec![a, b], &fs);
    assert_eq!(out.len(), 1);
    assert_eq!(out[0].install_location.as_deref(), Some("C:\\Foo"));
    assert_eq!(out[0].id, "hklm64:A");
}

#[test]
fn dedupe_merges_same_key() {
    let fs = empty_fs();
    let mut a = entry("hklm64:A", "Foo", Some("Bar"));
    a.estimated_bytes = 100;
    let mut b = entry("hklm32:B", "Foo", Some("Bar"));
    b.estimated_bytes = 4096;
    let out = dedupe_uninstall_entries(vec![a, b], &fs);
    assert_eq!(out.len(), 1);
    assert_eq!(out[0].estimated_bytes, 4096);
}

#[test]
fn dedupe_distinct_publishers_stay() {
    let fs = empty_fs();
    let a = entry("hklm64:A", "Foo", Some("Bar"));
    let b = entry("hklm32:B", "Foo", Some("Baz"));
    let out = dedupe_uninstall_entries(vec![a, b], &fs);
    assert_eq!(out.len(), 2);
}

#[test]
fn merge_prefers_higher_quality_name() {
    let mut kept = entry("hkcu:A", "Foo", None);
    let mut incoming = entry("hklm64:B", "Foo Deluxe Edition", Some("Bar"));
    incoming.install_location = Some("C:\\Foo".to_string());
    assert!(entry_quality(&incoming) > entry_quality(&kept));
    merge_uninstall_entry(&mut kept, &incoming);
    assert_eq!(kept.name, "Foo Deluxe Edition");
    assert_eq!(kept.publisher.as_deref(), Some("Bar"));
    assert_eq!(kept.install_location.as_deref(), Some("C:\\Foo"));
    assert_eq!(kept.id, "hkcu:A");
}

#[test]
fn icon_path_resolves_to_parent_dir() {
    let fs = FsSnapshot {
        dirs: vec![DirEntry { path: "C:\\P".to_string(), bytes: 7 }],
        files: vec!["C:\\P\\app.exe".to_string()],
    };
    assert_eq!(
        parse_display_icon_to_dir("C:\\P\\app.exe,0", &fs).as_deref(),
        Some("C:\\P")
    );
    assert_eq!(
        parse_display_icon_to_dir("\"C:\\P\\app.exe\"", &fs).as_deref(),
        Some("C:\\P")
    );
    // quotes are stripped only from a fully quoted value, so a quoted
    // path with an icon index keeps them and misses
    assert_eq!(parse_display_icon_to_dir("\"C:\\P\\app.exe\",0", &fs), None);
    // without a drive separator the comma tail stays and the path misses
    assert_eq!(parse_display_icon_to_dir("app.exe,0", &fs), None);
}

#[test]
fn install_dir_hint_prefers_install_location() {
    let fs = FsSnapshot {
        dirs: vec![DirEntry { path: "C:\\Foo".to_string(), bytes: 1 }],
        files: vec!["C:\\P\\app.exe".to_string()],
    };
    let mut e = entry("hklm64:A", "Foo", None);
    e.install_location = Some("C:\\Foo".to_string());
    e.display_icon = Some("C:\\P\\app.exe".to_string());
    assert_eq!(get_install_dir_hint(&e, &fs).as_deref(), Some("C:\\Foo"));
    e.install_location = Some("C:\\Gone".to_string());
    assert_eq!(get_install_dir_hint(&e, &fs).as_deref(), Some("C:\\P"));
}

#[test]
fn canonicalize_accepts_and_rejects() {
    let raw = RawUninstallValues {
        display_name: Some("  Foo  ".to_string()),
        system_component: None,
        release_type: None,
        parent_key_name: None,
        parent_display_name: None,
        publisher: Some("  Bar  ".to_string()),
        estimated_size_kb: Some(2),
        install_location: Some("  ".to_string()),
        display_icon: None,
    };
    let e = canonicalize_uninstall_values("hklm64", "FooKey", &raw).unwrap();
    assert_eq!(e.id, "hklm64:FooKey");
    assert_eq!(e.name, "Foo");
    assert_eq!(e.publisher.as_deref(), Some("Bar"));
    assert_eq!(e.estimated_bytes, 2048);
    assert_eq!(e.install_location, None);

    let sys = RawUninstallValues { system_component: Some(1), ..clone_raw(&raw) };
    assert!(canonicalize_uninstall_values("hklm64", "K", &sys).is_none());
    let upd = RawUninstallValues {
        release_type: Some("Security Update".to_string()),
        ..clone_raw(&raw)
    };
    assert!(canonicalize_uninstall_values("hklm64", "K", &upd).is_none());
    let child = RawUninstallValues {
        parent_key_name: Some("P".to_string()),
        ..clone_raw(&raw)
    };
    assert!(canonicalize_uninstall_values("hklm64", "K", &child).is_none());
    let unnamed = RawUninstallValues { display_name: Some("   ".to_string()), ..clone_raw(&raw) };
    assert!(canonicalize_uninstall_values("hklm64", "K", &unnamed).is_none());
}

fn clone_raw(r: &RawUninstallValues) -> RawUninstallValues {
    RawUninstallValues {
        display_name: r.display_name.clone(),
        system_component: r.system_component,
        release_type: r.release_type.clone(),
        parent_key_name: r.parent_key_name.clone(),
        parent_display_name: r.parent_display_name.clone(),
        publisher: r.publisher.clone(),
        estimated_size_kb: r.estimated_size_kb,
        install_location: r.install_location.clone(),
        display_icon: r.display_icon.clone(),
    }
}

#[test]
fn root_folders_fold_case_and_overwrite() {
    let rf = build_root_folders(vec![
        FolderListing { name: "Notion".to_string(), path: "C:\\L\\Notion".to_string() },
        FolderListing { name: "NOTION".to_string(), path: "C:\\L\\NOTION".to_string() },
        FolderListing { name: "Temp".to_string(), path: "C:\\L\\Temp".to_string() },
    ]);
    assert_eq!(rf.len(), 2);
    assert_eq!(rf.folders[0].key, "notion");
    assert_eq!(rf.folders[0].path, "C:\\L\\NOTION");
}

fn local_root(folders: Vec<(&str, &str)>) -> Roots {
    let listing = folders
        .into_iter()
        .map(|(n, p)| FolderListing { name: n.to_string(), path: p.to_string() })
        .collect();
    Roots {
        local: Some(build_root_folders(listing)),
        roaming: None,
        local_low: None,
        program_data: None,
    }
}

#[test]
fn scan_attributes_folder_and_sums() {
    let roots = local_root(vec![("Notion", "C:\\L\\Notion")]);
    let fs = fs_with_dirs(vec![("C:\\L\\Notion", 500)]);
    let mut e = entry("hklm64:N", "Notion", Some("Notion Labs"));
    e.estimated_bytes = 2048;
    let records = scan_apps(vec![e], &roots, &fs);
    assert_eq!(records.len(), 1);
    let r = &records[0];
    assert_eq!(r.breakdown.len(), 2);
    assert_eq!(r.breakdown[0].kind, "program");
    assert_eq!(r.breakdown[0].bytes, 2048);
    assert_eq!(r.breakdown[1].kind, "appDataLocal");
    assert_eq!(r.breakdown[1].bytes, 500);
    assert_eq!(r.breakdown[1].paths, vec!["C:\\L\\Notion"]);
    assert_eq!(r.total_bytes, 2548);
}

#[test]
fn scan_program_row_always_first() {
    let fs = empty_fs();
    let records = scan_apps(vec![entry("hkcu:X", "Mystery", None)], &no_roots(), &fs);
    assert_eq!(records.len(), 1);
    let r = &records[0];
    assert_eq!(r.breakdown.len(), 1);
    assert_eq!(r.breakdown[0].kind, "program");
    assert_eq!(r.breakdown[0].bytes, 0);
    assert_eq!(r.total_bytes, 0);
}

#[test]
fn scan_records_sorted_by_name() {
    let fs = empty_fs();
    let records = scan_apps(
        vec![
            entry("hklm64:B", "Beta", None),
            entry("hklm64:A", "Alpha", None),
        ],
        &no_roots(),
        &fs,
    );
    assert_eq!(records.len(), 2);
    assert_eq!(records[0].name, "Alpha");
    assert_eq!(records[1].name, "Beta");
}

#[test]
fn scan_is_deterministic() {
    let roots1 = local_root(vec![("Notion", "C:\\L\\Notion")]);
    let roots2 = local_root(vec![("Notion", "C:\\L\\Notion")]);
    let fs = fs_with_dirs(vec![("C:\\L\\Notion", 500)]);
    let e = || entry("hklm64:N", "Notion", Some("Notion Labs"));
    let r1 = scan_apps(vec![e()], &roots1, &fs);
    let r2 = scan_apps(vec![e()], &roots2, &fs);
    assert_eq!(r1.len(), r2.len());
    assert_eq!(r1[0].total_bytes, r2[0].total_bytes);
    assert_eq!(r1[0].breakdown.len(), r2[0].breakdown.len());
    assert_eq!(r1[0].breakdown[0].label, r2[0].breakdown[0].label);
}

#[test]
fn stream_emits_progress_sequence() {
    let fs = empty_fs();
    let events = scan_apps_stream(
        vec![
            entry("hklm64:A", "Alpha", None),
            entry("hklm64:B", "Beta", None),
        ],
        &no_roots(),
        &fs,
    );
    assert_eq!(events.len(), 6);
    match &events[0] {
        ScanEvent::Progress(p) => {
            assert_eq!(p.phase, "uninstall");
            assert_eq!(p.current, 0);
            assert_eq!(p.total, 2);
        },
        _ => panic!("expected a progress event first"),
    }
    for i in 0..2usize {
        match &events[1 + 2 * i] {
            ScanEvent::Record(_) => {},
            _ => panic!("expected a record"),
        }
        match &events[2 + 2 * i] {
            ScanEvent::Progress(p) => {
                assert_eq!(p.phase, "scan");
                assert_eq!(p.current, (i + 1) as u32);
                assert_eq!(p.total, 2);
            },
            _ => panic!("expected a progress event"),
        }
    }
    match &events[5] {
        ScanEvent::Progress(p) => {
            assert_eq!(p.phase, "done");
            assert_eq!(p.current, 2);
            assert_eq!(p.total, 2);
        },
        _ => panic!("expected the done event"),
    }
}

#[test]
fn stream_empty_scan_still_reports() {
    let events = scan_apps_stream(Vec::new(), &no_roots(), &empty_fs());
    assert_eq!(events.len(), 2);
    match &events[1] {
        ScanEvent::Progress(p) => {
            assert_eq!(p.phase, "done");
            assert_eq!(p.current, 1);
            assert_eq!(p.total, 1);
        },
        _ => panic!("expected the done event"),
    }
}

#[test]
fn audit_counts_and_unassigned() {
    let roots = local_root(vec![
        ("Notion", "C:\\L\\Notion"),
        ("Temp", "C:\\L\\Temp"),
        ("Cache", "C:\\L\\Cache"),
    ]);
    let fs = empty_fs();
    let e = entry("hklm64:N", "Notion", Some("Notion Labs"));
    let overview = audit_overview(vec![e], &roots, &fs);
    assert_eq!(overview.app_count, 1);
    // no estimated size and no hint
    assert_eq!(overview.unknown_program_size_count, 1);
    assert_eq!(overview.roots.len(), 1);
    assert_eq!(overview.roots[0].kind, "appDataLocal");
    assert_eq!(overview.roots[0].assigned_folders, 1);
    assert_eq!(overview.roots[0].unassigned_folders, 2);
    assert_eq!(overview.unassigned_folders.len(), 2);
    // sorted by absolute path ascending
    assert_eq!(overview.unassigned_folders[0].path, "C:\\L\\Cache");
    assert_eq!(overview.unassigned_folders[0].folder, "cache");
    assert_eq!(overview.unassigned_folders[1].path, "C:\\L\\Temp");
}

#[test]
fn audit_duplicate_install_locations() {
    let fs = fs_with_dirs(vec![("C:\\Shared", 1)]);
    let mut a = entry("hklm64:A", "Alpha", None);
    a.install_location = Some("C:\\Shared".to_string());
    let mut b = entry("hklm64:B", "Beta", None);
    b.install_location = Some("C:\\Shared".to_string());
    let mut c = entry("hklm64:C", "Gamma", None);
    c.install_location = Some("C:\\Shared".to_string());
    let overview = audit_overview(vec![a, b, c], &roots_none(), &fs);
    assert_eq!(overview.duplicate_install_locations.len(), 1);
    let d = &overview.duplicate_install_locations[0];
    assert_eq!(d.install_dir, "c:\\shared");
    assert_eq!(d.apps, vec!["Alpha", "Beta", "Gamma"]);
}

fn roots_none() -> Roots {
    Roots { local: None, roaming: None, local_low: None, program_data: None }
}

#[test]
fn audit_single_occupant_not_duplicate() {
    let fs = fs_with_dirs(vec![("C:\\Solo", 1)]);
    let mut a = entry("hklm64:A", "Alpha", None);
    a.install_location = Some("C:\\Solo".to_string());
    let overview = audit_overview(vec![a], &roots_none(), &fs);
    assert_eq!(overview.duplicate_install_locations.len(), 0);
}

#[test]
fn measure_folder_size_paths() {
    let roots = local_root(vec![("Notion", "C:\\L\\Notion")]);
    let fs = fs_with_dirs(vec![("C:\\L\\Notion", 42)]);
    assert_eq!(measure_folder_size("appDataLocal", "Notion", &roots, &fs), 42);
    assert_eq!(measure_folder_size("appDataLocal", "notion", &roots, &fs), 42);
    assert_eq!(measure_folder_size("appDataLocal", "other", &roots, &fs), 0);
    assert_eq!(measure_folder_size("appDataRoaming", "Notion", &roots, &fs), 0);
    assert_eq!(measure_folder_size("nonsense", "Notion", &roots, &fs), 0);
}

#[test]
fn sum_paths_orders_descending() {
    let fs = fs_with_dirs(vec![("a", 5), ("b", 9), ("c", 7)]);
    let mut cache = appmanager::sizing::SizeCache::new();
    let (total, shown) = appmanager::sizing::sum_paths(
        &vec!["a".to_string(), "b".to_string(), "c".to_string()],
        &fs,
        &mut cache,
    );
    assert_eq!(total, 21);
    assert_eq!(shown, vec!["b", "c", "a"]);
}

#[test]
fn directory_size_cached_hits() {
    let fs = fs_with_dirs(vec![("a", 5)]);
    let mut cache = appmanager::sizing::SizeCache::new();
    assert_eq!(appmanager::sizing::directory_size_cached(&fs, &mut cache, "a"), 5);
    assert_eq!(appmanager::sizing::directory_size_cached(&fs, &mut cache, "a"), 5);
    assert_eq!(appmanager::sizing::directory_size_cached(&fs, &mut cache, "missing"), 0);
}

#[test]
fn tie_break_first_app_keeps_folder() {
    // both apps claim the folder "shared" with the same score; the first
    // canonical entry (name order, then id order of arrival) keeps it
    let roots = local_root(vec![("Shared", "C:\\L\\Shared")]);
    let fs = fs_with_dirs(vec![("C:\\L\\Shared", 64)]);
    let mut a = entry("hklm64:A", "Shared", Some("One"));
    a.estimated_bytes = 1;
    let mut b = entry("hklm64:B", "Shared", Some("Two"));
    b.estimated_bytes = 1;
    let records = scan_apps(vec![a, b], &roots, &fs);
    assert_eq!(records.len(), 2);
    assert_eq!(records[0].id, "hklm64:A");
    assert_eq!(records[0].breakdown.len(), 2);
    assert_eq!(records[0].breakdown[1].kind, "appDataLocal");
    assert_eq!(records[0].breakdown[1].bytes, 64);
    assert_eq!(records[1].id, "hklm64:B");
    assert_eq!(records[1].breakdown.len(), 1);
}
