use desktop_index::engine::{get_matches_live, rebuild_snapshot};
use desktop_index::icon::get_icon_path;
use desktop_index::parse::parse_desktop_fields;
use desktop_index::scan::{get_desktop_entry, ScanFile};

fn file(file_name: &str, contents: &str) -> ScanFile {
    ScanFile { file_name: file_name.to_string(), contents: contents.to_string() }
}

const FIREFOX: &str = "[Desktop Entry]\nName=Firefox\nExec=firefox %u\nIcon=firefox\n";

#[test]
fn parser_structures_the_consumed_fields() {
    let p = parse_desktop_fields(
        "[Desktop Entry]\nName=Files\nGenericName=File Manager\nComment=Browse\nExec=nautilus\n",
    );
    assert_eq!(p.name.as_deref(), Some("Files"));
    assert_eq!(p.generic_name.as_deref(), Some("File Manager"));
    assert_eq!(p.comment.as_deref(), Some("Browse"));
    assert_eq!(p.exec_cmd.as_deref(), Some("nautilus"));
    assert_eq!(p.icon, None);
}

#[test]
fn parser_never_fails_on_malformed_text() {
    let p = parse_desktop_fields("complete garbage\nwithout any structure");
    assert_eq!(p.name, None);
    assert_eq!(p.generic_name, None);
    assert_eq!(p.comment, None);
    assert_eq!(p.exec_cmd, None);
    assert_eq!(p.icon, None);
}

#[test]
fn scan_considers_only_descriptor_files() {
    let files = vec![
        file("readme.txt", FIREFOX),
        file("firefox.desktop.bak", FIREFOX),
        file("firefox.desktop", FIREFOX),
    ];
    let r = get_desktop_entry(&files, "fire", 10);
    assert_eq!(r.len(), 1);
    assert_eq!(r[0].name, "Firefox");
}

#[test]
fn scan_skips_unparseable_files_and_goes_on() {
    let files = vec![
        file("broken.desktop", "no equals sign here, just text"),
        file("firefox.desktop", FIREFOX),
    ];
    let r = get_desktop_entry(&files, "fire", 10);
    assert_eq!(r.len(), 1);
    assert_eq!(r[0].name, "Firefox");
}

#[test]
fn scan_tests_generic_name_only_without_a_name() {
    let files = vec![file(
        "fm.desktop",
        "[Desktop Entry]\nGenericName=File Manager\nExec=fm\n",
    )];
    let r = get_desktop_entry(&files, "file", 10);
    assert_eq!(r.len(), 1);
    assert_eq!(r[0].name, "");
    assert_eq!(r[0].generic_name.as_deref(), Some("File Manager"));
}

#[test]
fn scan_never_matches_on_comment_alone() {
    let files = vec![file(
        "c.desktop",
        "[Desktop Entry]\nComment=the best file manager\nExec=fm\n",
    )];
    let r = get_desktop_entry(&files, "file", 10);
    assert_eq!(r.len(), 0);
}

#[test]
fn scan_exec_defaults_to_the_empty_string() {
    let files = vec![file("a.desktop", "[Desktop Entry]\nName=App\n")];
    let r = get_desktop_entry(&files, "app", 10);
    assert_eq!(r.len(), 1);
    assert_eq!(r[0].exec_cmd, "");
}

#[test]
fn live_scan_scenario_finds_the_descriptor() {
    let dirs = vec![vec![file("firefox.desktop", FIREFOX)]];
    let r = get_matches_live(&dirs, "fire", 10);
    assert_eq!(r.len(), 1);
    assert_eq!(r[0].name, "Firefox");
    assert_eq!(r[0].exec_cmd, "firefox %u");
}

#[test]
fn live_scan_merges_and_sorts_by_name() {
    let dirs = vec![
        vec![
            file("z.desktop", "[Desktop Entry]\nName=Zim\nExec=z\n"),
            file("b.desktop", "[Desktop Entry]\nName=Blender\nExec=b\n"),
        ],
        vec![file("a.desktop", "[Desktop Entry]\nName=Atom\nExec=a\n")],
    ];
    let r = get_matches_live(&dirs, "", 10);
    let names: Vec<&str> = r.iter().map(|e| e.name.as_str()).collect();
    assert_eq!(names, vec!["Atom", "Blender", "Zim"]);
}

#[test]
fn live_scan_limit_is_per_directory() {
    let d = || {
        vec![
            file("a.desktop", "[Desktop Entry]\nName=App One\nExec=1\n"),
            file("b.desktop", "[Desktop Entry]\nName=App Two\nExec=2\n"),
            file("c.desktop", "[Desktop Entry]\nName=App Three\nExec=3\n"),
        ]
    };
    let dirs = vec![d(), d()];
    let r = get_matches_live(&dirs, "app", 2);
    assert_eq!(r.len(), 4);
}

#[test]
fn sort_is_stable_across_directories() {
    let dirs = vec![
        vec![file("one.desktop", "[Desktop Entry]\nName=Same\nExec=first\n")],
        vec![file("two.desktop", "[Desktop Entry]\nName=Same\nExec=second\n")],
    ];
    let r = get_matches_live(&dirs, "same", 10);
    assert_eq!(r.len(), 2);
    assert_eq!(r[0].exec_cmd, "first");
    assert_eq!(r[1].exec_cmd, "second");
}

#[test]
fn rebuild_is_idempotent_up_to_the_timestamp() {
    let dirs = vec![
        vec![
            file("b.desktop", "[Desktop Entry]\nName=Blender\nExec=b\n"),
            file("a.desktop", "[Desktop Entry]\nName=Atom\nExec=a\n"),
        ],
    ];
    let one = rebuild_snapshot(&dirs, 100);
    let two = rebuild_snapshot(&dirs, 200);
    assert_eq!(one.last_update, 100);
    assert_eq!(two.last_update, 200);
    assert_eq!(one.entries.len(), two.entries.len());
    for (a, b) in one.entries.iter().zip(two.entries.iter()) {
        assert_eq!(a.name, b.name);
        assert_eq!(a.exec_cmd, b.exec_cmd);
        assert_eq!(a.icon, b.icon);
        assert_eq!(a.comment, b.comment);
        assert_eq!(a.generic_name, b.generic_name);
    }
    let names: Vec<&str> = one.entries.iter().map(|e| e.name.as_str()).collect();
    assert_eq!(names, vec!["Atom", "Blender"]);
}

#[test]
fn an_existing_path_resolves_to_itself() {
    assert_eq!(get_icon_path("/".to_string()).as_deref(), Some("/"));
}

#[test]
fn absent_icon_stays_absent() {
    let dirs = vec![vec![file("a.desktop", "[Desktop Entry]\nName=App\nExec=a\n")]];
    let r = get_matches_live(&dirs, "app", 10);
    assert_eq!(r.len(), 1);
    assert_eq!(r[0].icon, None);
}

#[test]
fn record_with_only_empty_fields_is_not_indexed() {
    let dirs = vec![vec![file("e.desktop", "[Desktop Entry]\nName=\n")]];
    let r = get_matches_live(&dirs, "", 10);
    assert_eq!(r.len(), 0);
}

#[test]
fn empty_name_with_a_comment_is_still_indexed() {
    let dirs = vec![vec![file(
        "e.desktop",
        "[Desktop Entry]\nName=\nComment=Quiet helper\n",
    )]];
    let r = get_matches_live(&dirs, "", 10);
    assert_eq!(r.len(), 1);
    assert_eq!(r[0].name, "");
    assert_eq!(r[0].comment.as_deref(), Some("Quiet helper"));
}
