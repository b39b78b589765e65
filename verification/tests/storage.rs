use bstl::clock::{is_in_calendar, timestamp, FIRST_SECOND, LAST_SECOND};
use bstl::desktop::{bucket_of, clean_exec, group_category, parse_desktop_file};
use bstl::paths::{current_desktops, xdg_application_dirs};
use bstl::storage::{DirectoryScan, Launch, LegacyImport, ScannedFile, Storage};
use bstl::table::TextMap;

const NOW: i64 = 1_767_225_600;

#[test]
fn record_and_count_launches() {
    let mut s = Storage::in_memory();
    s.record_launch("Firefox", NOW);
    s.record_launch("Firefox", NOW);
    s.record_launch("Vim", NOW);
    let map = s.popularity_map(30, NOW);
    assert_eq!(map.get("Firefox"), Some(&2));
    assert_eq!(map.get("Vim"), Some(&1));
}

#[test]
fn recent_names_orders_by_last_launch() {
    let mut s = Storage::in_memory();
    s.launches.push(Launch { ts: "2025-01-01T00:00:00Z".to_string(), name: "Old".to_string() });
    s.launches.push(Launch { ts: "2026-01-01T00:00:00Z".to_string(), name: "New".to_string() });
    let names = s.recent_names(10);
    assert_eq!(names, vec!["New".to_string(), "Old".to_string()]);
}

#[test]
fn group_category_falls_back_to_utilities() {
    assert_eq!(group_category("", "anything"), "Utilities");
    assert_eq!(group_category("Game;Action;", "Foo"), "Games");
    assert_eq!(group_category("Network;", "Bar"), "Network");
}

#[test]
fn clean_exec_strips_field_codes() {
    assert_eq!(clean_exec("firefox %u"), "firefox");
    assert_eq!(clean_exec("vlc --foo %F"), "vlc --foo");
}

#[test]
fn xdg_application_dirs_resolves() {
    let paths = xdg_application_dirs(
        &Some("/tmp/xdg_home".to_string()),
        &None,
        &Some("/tmp/xdg_dir1:/tmp/xdg_dir2".to_string()),
    );
    assert_eq!(paths.len(), 3);
    assert_eq!(paths[0], "/tmp/xdg_home/applications");
    assert_eq!(paths[1], "/tmp/xdg_dir1/applications");
    assert_eq!(paths[2], "/tmp/xdg_dir2/applications");

    let paths = xdg_application_dirs(&None, &Some("/home/test".to_string()), &None);
    assert_eq!(paths[0], "/home/test/.local/share/applications");
    assert_eq!(paths[1], "/usr/local/share/applications");
    assert_eq!(paths[2], "/usr/share/applications");

    let paths = xdg_application_dirs(
        &Some("".to_string()),
        &Some("/home/test".to_string()),
        &Some("".to_string()),
    );
    assert_eq!(paths[0], "/home/test/.local/share/applications");
    assert_eq!(paths[1], "/usr/local/share/applications");
    assert_eq!(paths[2], "/usr/share/applications");
}

#[test]
fn field_codes_behind_a_percent_sign_can_stay() {
    assert_eq!(clean_exec("app %%ff"), "app %f");
    assert_eq!(clean_exec("  app %i %c --x=%k "), "app   --x=");
    assert_eq!(clean_exec("100%"), "100%");
}

#[test]
fn recent_names_list_each_name_once() {
    let mut s = Storage::in_memory();
    s.record_launch("b", NOW);
    s.record_launch("a", NOW);
    s.record_launch("c", NOW - 60);
    s.record_launch("c", NOW + 60);
    s.record_launch("b", NOW - 3600);
    assert_eq!(s.recent_names(10), vec!["c", "a", "b"]);
    assert_eq!(s.recent_names(2), vec!["c", "a"]);
    assert!(s.recent_names(0).is_empty());
}

#[test]
fn old_launches_do_not_count() {
    let mut s = Storage::in_memory();
    s.record_launch("edge", NOW - 86400);
    s.record_launch("gone", NOW - 86401);
    let map = s.popularity_map(1, NOW);
    assert_eq!(map.get("edge"), Some(&1));
    assert_eq!(map.get("gone"), None);
    assert!(s.popularity_map(0, NOW).is_empty());
}

#[test]
fn times_are_written_in_utc() {
    assert_eq!(timestamp(0), "1970-01-01T00:00:00Z");
    assert_eq!(timestamp(NOW + 3723), "2026-01-01T01:02:03Z");
    assert!(is_in_calendar(FIRST_SECOND) && is_in_calendar(LAST_SECOND));
    assert!(!is_in_calendar(FIRST_SECOND - 1) && !is_in_calendar(LAST_SECOND + 1));
    assert_eq!(timestamp(FIRST_SECOND), "-262143-01-01T00:00:00Z");
    assert_eq!(timestamp(LAST_SECOND), "+262142-12-31T23:59:59Z");
}

fn file(path: &str, mtime: i64, name: &str) -> ScannedFile {
    ScannedFile {
        path: path.to_string(),
        mtime: Some(mtime),
        content: Some(format!("[Desktop Entry]\nName={}\nExec={} %u\n", name, name)),
    }
}

fn scan(directory: &str, mtime: i64, files: Vec<ScannedFile>) -> DirectoryScan {
    DirectoryScan { directory: directory.to_string(), mtime: Some(mtime), files: Some(files) }
}

fn cached(s: &Storage) -> Vec<(&str, &str, i64)> {
    s.apps
        .iter()
        .map(|r| (r.app.name.as_str(), r.source_path.as_str(), r.file_mtime))
        .collect()
}

#[test]
fn a_refresh_reads_new_files() {
    let mut s = Storage::in_memory();
    assert!(s.needs_walk("/a", 1));
    s.refresh_app_cache(
        &vec![scan("/a", 1, vec![file("/a/x.desktop", 5, "X"), file("/a/readme.txt", 5, "T")])],
        &vec![],
    );
    assert_eq!(cached(&s), vec![("X", "/a/x.desktop", 5)]);
    assert_eq!(s.apps[0].app.exec_line, "X");
    assert!(!s.needs_walk("/a", 1));
    assert!(s.needs_walk("/a", 2));
}

#[test]
fn an_unchanged_directory_keeps_its_rows() {
    let mut s = Storage::in_memory();
    s.refresh_app_cache(&vec![scan("/a", 1, vec![file("/a/x.desktop", 5, "X")])], &vec![]);
    s.refresh_app_cache(
        &vec![scan("/a", 1, vec![file("/a/y.desktop", 9, "Y")])],
        &vec![],
    );
    assert_eq!(cached(&s), vec![("X", "/a/x.desktop", 5)]);
}

#[test]
fn only_newer_files_are_read_again() {
    let mut s = Storage::in_memory();
    s.refresh_app_cache(&vec![scan("/a", 1, vec![file("/a/x.desktop", 5, "X")])], &vec![]);
    s.refresh_app_cache(&vec![scan("/a", 2, vec![file("/a/x.desktop", 5, "Y")])], &vec![]);
    assert_eq!(cached(&s), vec![("X", "/a/x.desktop", 5)]);
    s.refresh_app_cache(&vec![scan("/a", 3, vec![file("/a/x.desktop", 4, "Y")])], &vec![]);
    assert_eq!(cached(&s), vec![("X", "/a/x.desktop", 5)]);
    s.refresh_app_cache(&vec![scan("/a", 4, vec![file("/a/x.desktop", 6, "Y")])], &vec![]);
    assert_eq!(cached(&s), vec![("Y", "/a/x.desktop", 6)]);
}

#[test]
fn the_last_file_with_a_name_has_its_row() {
    let mut s = Storage::in_memory();
    s.refresh_app_cache(
        &vec![
            scan("/a", 1, vec![file("/a/x.desktop", 5, "X")]),
            scan("/b", 1, vec![file("/b/x.desktop", 3, "X"), file("/b/y.desktop", 3, "Y")]),
        ],
        &vec![],
    );
    assert_eq!(cached(&s), vec![("X", "/b/x.desktop", 3), ("Y", "/b/y.desktop", 3)]);
}

#[test]
fn gone_files_are_forgotten_where_asked() {
    let mut s = Storage::in_memory();
    s.refresh_app_cache(
        &vec![
            scan("/a", 1, vec![file("/a/x.desktop", 5, "X"), file("/a/z.desktop", 5, "Z")]),
            scan("/b/", 1, vec![file("/b/y.desktop", 3, "Y")]),
        ],
        &vec![],
    );
    // Only `/a` is asked about, and `x` is gone from it.
    s.refresh_app_cache(&vec![scan("/a", 2, vec![file("/a/z.desktop", 5, "Z")])], &vec![]);
    assert_eq!(cached(&s), vec![("Z", "/a/z.desktop", 5), ("Y", "/b/y.desktop", 3)]);
    // `/b/` is missing now, and no other directory is asked about.
    let missing = DirectoryScan { directory: "/b/".to_string(), mtime: None, files: None };
    s.refresh_app_cache(&vec![missing], &vec![]);
    assert_eq!(cached(&s), vec![("Z", "/a/z.desktop", 5)]);
}

#[test]
fn an_emptied_directory_has_no_rows_any_more() {
    let mut s = Storage::in_memory();
    s.refresh_app_cache(&vec![scan("/a", 1, vec![file("/a/x.desktop", 5, "X")])], &vec![]);
    assert_eq!(s.apps.len(), 1);
    s.refresh_app_cache(&vec![scan("/a", 2, vec![file("/a/readme", 5, "X")])], &vec![]);
    assert!(s.apps.is_empty());
    assert!(!s.needs_walk("/a", 2));
}

#[test]
fn refreshing_again_changes_nothing_where_a_directory_is_missing() {
    let asked = |mtime: i64| {
        vec![
            DirectoryScan { directory: "/b".to_string(), mtime: None, files: None },
            scan("/a", 2, vec![file("/a/x.desktop", mtime, "X")]),
        ]
    };
    let mut s = Storage::in_memory();
    s.refresh_app_cache(&asked(5), &vec![]);
    let first = format!("{:?}", s);
    assert_eq!(cached(&s), vec![("X", "/a/x.desktop", 5)]);
    // A file is edited in place, which leaves the time of its directory.
    s.refresh_app_cache(&asked(6), &vec![]);
    assert_eq!(format!("{:?}", s), first);
}

#[test]
fn a_directory_that_cannot_be_listed_is_passed_over() {
    let mut s = Storage::in_memory();
    let closed =
        DirectoryScan { directory: "/a".to_string(), mtime: Some(1), files: None };
    s.refresh_app_cache(&vec![closed], &vec![]);
    assert!(s.needs_walk("/a", 1));
}

#[test]
fn a_directory_that_cannot_be_listed_keeps_its_rows() {
    let closed =
        || DirectoryScan { directory: "/a".to_string(), mtime: Some(2), files: None };
    let mut s = Storage::in_memory();
    s.refresh_app_cache(&vec![scan("/a", 1, vec![file("/a/x.desktop", 5, "X")])], &vec![]);
    s.refresh_app_cache(&vec![closed()], &vec![]);
    assert_eq!(cached(&s), vec![("X", "/a/x.desktop", 5)]);
    assert!(s.needs_walk("/a", 2));
    // Files that are seen elsewhere change nothing of that.
    let other = scan("/b", 1, vec![file("/b/y.desktop", 3, "Y")]);
    s.refresh_app_cache(&vec![closed(), other], &vec![]);
    assert_eq!(cached(&s), vec![("X", "/a/x.desktop", 5), ("Y", "/b/y.desktop", 3)]);
}

#[test]
fn a_file_that_cannot_be_read_loses_its_row() {
    let mut s = Storage::in_memory();
    s.refresh_app_cache(&vec![scan("/a", 1, vec![file("/a/x.desktop", 5, "X")])], &vec![]);
    let unreadable =
        ScannedFile { path: "/a/x.desktop".to_string(), mtime: Some(6), content: None };
    s.refresh_app_cache(&vec![scan("/a", 2, vec![unreadable])], &vec![]);
    assert!(s.apps.is_empty());
}

#[test]
fn apps_are_loaded_by_name_and_routed() {
    let mut s = Storage::in_memory();
    let body = |name: &str, categories: &str| {
        Some(format!(
            "[Desktop Entry]\nName={}\nExec=run\nTerminal=true\nCategories={}\n",
            name, categories
        ))
    };
    s.refresh_app_cache(
        &vec![scan(
            "/a",
            1,
            vec![
                ScannedFile {
                    path: "/a/1.desktop".to_string(),
                    mtime: None,
                    content: body("beta", "X-Mine;Game;"),
                },
                ScannedFile {
                    path: "/a/2.desktop".to_string(),
                    mtime: None,
                    content: body("Alpha", "Game;"),
                },
            ],
        )],
        &vec![],
    );
    assert_eq!(s.apps[0].file_mtime, 0);
    let mut overrides = TextMap::new();
    overrides.insert("x-mine".to_string(), "Mine".to_string());
    let apps = s.load_apps(&overrides);
    assert_eq!(
        apps.iter()
            .map(|a| (a.name.as_str(), a.category.as_str(), a.terminal))
            .collect::<Vec<(&str, &str, bool)>>(),
        vec![("Alpha", "Games", true), ("beta", "Mine", true)]
    );
    assert_eq!(s.load_apps(&TextMap::new())[1].category, "Games");
}

#[test]
fn a_legacy_list_keeps_its_order() {
    let mut s = Storage::in_memory();
    assert_eq!(
        s.maybe_import_legacy_recent("[\"One\", \"Two\", \"Three\"]", NOW),
        LegacyImport::Imported
    );
    assert_eq!(s.recent_names(5), vec!["One", "Two", "Three"]);
    assert_eq!(s.launches[2].ts, "2025-12-31T23:58:00Z");
    // There are launches now.
    assert_eq!(s.maybe_import_legacy_recent("[\"Four\"]", NOW), LegacyImport::Ignored);
    assert_eq!(s.launches.len(), 3);
}

#[test]
fn a_list_that_cannot_be_read_is_ignored() {
    let mut s = Storage::in_memory();
    assert_eq!(s.maybe_import_legacy_recent("{\"One\": 1}", NOW), LegacyImport::Ignored);
    assert_eq!(s.maybe_import_legacy_recent("[1]", NOW), LegacyImport::Ignored);
    assert!(s.launches.is_empty());
    assert_eq!(
        s.maybe_import_legacy_recent("[\"a\", \"b\"]", FIRST_SECOND),
        LegacyImport::TooLong
    );
    assert!(s.launches.is_empty());
    assert_eq!(s.maybe_import_legacy_recent("[\"a\"]", FIRST_SECOND), LegacyImport::Imported);
}

#[test]
fn desktop_files_say_what_is_shown() {
    let running = vec!["sway".to_string()];
    let app = parse_desktop_file(
        "[Desktop Entry]\nName[de]=Nein\nGenericName=Viewer\nExec=view %f\nCategories=Graphics;\n",
        &running,
    )
    .unwrap();
    assert_eq!(app.name, "Viewer");
    assert_eq!(app.exec_line, "view");
    assert_eq!(app.category, "Graphics");
    assert!(!app.terminal);
    let entry = |more: &str| format!("[Desktop Entry]\nName=A\nExec=a\n{}\n", more);
    assert!(parse_desktop_file(&entry("NoDisplay=true"), &running).is_none());
    assert!(parse_desktop_file(&entry("Hidden=true"), &running).is_none());
    assert!(parse_desktop_file(&entry("Hidden=true\nNoDisplay=false"), &running).is_none());
    assert!(parse_desktop_file(&entry("NoDisplay=true\nNoDisplay=false"), &running).is_some());
    assert!(parse_desktop_file(&entry("OnlyShowIn=GNOME;"), &running).is_none());
    assert!(parse_desktop_file(&entry("OnlyShowIn=GNOME;Sway;"), &running).is_some());
    assert!(parse_desktop_file(&entry("NotShowIn= SWAY ;"), &running).is_none());
    assert!(parse_desktop_file(&entry("NotShowIn=KDE;"), &running).is_some());
    assert!(parse_desktop_file("[Desktop Entry]\nName=A\n", &running).is_none());
    assert!(parse_desktop_file("[Other]\nName=A\nExec=a\n", &running).is_none());
}

#[test]
fn buckets_go_by_parts_of_the_categories() {
    assert_eq!(group_category("AudioVideo;", "x"), "Audio/Video");
    assert_eq!(group_category("2DGraphics;", "x"), "Graphics");
    assert_eq!(group_category("GAME;", "x"), "Games");
    assert_eq!(group_category("Game;", "RoFi"), "Utilities");
    assert_eq!(group_category("DesktopSettings;", "x"), "Settings");
    assert_eq!(group_category("Education;Office;", "x"), "Office");
}

#[test]
fn categories_ignore_the_order_and_the_case_of_tokens() {
    assert_eq!(group_category("Office;Network;GTK;", "Foo"), "Network");
    assert_eq!(group_category("GTK;NETWORK;office;", "foo"), "Network");
    assert_eq!(group_category(";Network;Network;GTK;Office", "FOO"), "Network");
    // A keyword that only stands across two tokens does not count.
    assert_eq!(group_category("net;work", "x"), "Utilities");
    assert_eq!(group_category("work;net", "x"), "Utilities");
}

#[test]
fn categories_of_any_text_are_found() {
    assert_eq!(group_category("\u{d6}STERREICH;OFFICE;", "x"), "Office");
    // The Kelvin sign is an upper-case `k`.
    assert_eq!(group_category("Networ\u{212a};", "x"), "Network");
    assert_eq!(group_category("\u{212a};NETWOR", "x"), "Utilities");
    for raw in [
        "\u{39f}\u{3a3};GAME;\u{3a3}",
        "\u{3a3}\u{3a3}Video;\u{130}",
        "V\u{130}DEO;\u{df}Settings",
        "A\u{3a3};A\u{3a3}A;SYSTEM\u{3a3}",
        ";;\u{3a3};\u{c4}",
    ] {
        assert_eq!(group_category(raw, "x"), bucket_of(&raw.to_lowercase(), "x"));
        let tokens: Vec<&str> = raw.split(';').rev().collect();
        assert_eq!(group_category(&tokens.join(";"), "X"), group_category(raw, "x"));
        assert_eq!(group_category(&raw.to_ascii_lowercase(), "x"), group_category(raw, "x"));
        assert_eq!(group_category(&raw.to_ascii_uppercase(), "x"), group_category(raw, "x"));
    }
}

#[test]
fn running_desktops_are_lower_case() {
    assert_eq!(
        current_desktops(&Some("Sway: GNOME::".to_string()), &Some("kde".to_string())),
        vec!["sway", "gnome"]
    );
    assert_eq!(current_desktops(&None, &Some("KDE".to_string())), vec!["kde"]);
    assert!(current_desktops(&None, &None).is_empty());
}
