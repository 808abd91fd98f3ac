use rlauncher_cache::manager::CacheManager;
use rlauncher_cache::parser::Application;
use rlauncher_cache::rebuild::is_descriptor_name;
use rlauncher_cache::rebuild::FileEntry;

fn entry(name: &str, content: &str) -> FileEntry {
    FileEntry { name: name.to_string(), is_file: true, content: content.to_string() }
}

#[test]
fn descriptor_extension_recognized() {
    assert!(is_descriptor_name("firefox.desktop"));
    assert!(is_descriptor_name("org.gnome.Maps.desktop"));
    assert!(!is_descriptor_name("firefox.desktop.bak"));
    assert!(!is_descriptor_name("notes.txt"));
    assert!(!is_descriptor_name("README"));
    assert!(!is_descriptor_name(".desktop"));
    assert!(!is_descriptor_name("desktop"));
    assert!(!is_descriptor_name(""));
}

#[test]
fn end_to_end_one_good_one_without_exec() {
    // Directory with descriptor A (Name=Foo, Exec=foo, Terminal=true) and
    // descriptor B (no Exec): after a rebuild the store holds exactly the
    // record of A and nothing derived from B.
    let listing = vec![
        entry("A.desktop", "[Desktop Entry]\nName=Foo\nExec=foo\nTerminal=true\n"),
        entry("B.desktop", "[Desktop Entry]\nName=Bar\nComment=no exec\n"),
    ];
    let mut m = CacheManager::new();
    m.rebuild(&listing);
    let all = m.get_all();
    assert_eq!(all.len(), 1);
    assert_eq!(all[0].name, "Foo");
    assert_eq!(all[0].exec_cmd, "foo");
    assert!(all[0].use_terminal);
}

#[test]
fn files_without_the_extension_are_never_stored() {
    let good = "[Desktop Entry]\nName=Foo\nExec=foo\n";
    let listing = vec![
        entry("notes.txt", good),
        entry("desktop", good),
        entry(".desktop", good),
        entry("a.desktop.bak", good),
        FileEntry {
            name: "dir.desktop".to_string(),
            is_file: false,
            content: good.to_string(),
        },
    ];
    let mut m = CacheManager::new();
    m.rebuild(&listing);
    assert_eq!(m.len(), 0);
}

#[test]
fn repeated_rebuilds_leave_one_record_per_name() {
    let listing = vec![
        entry("a.desktop", "[Desktop Entry]\nName=Alpha\nExec=alpha\n"),
        entry("b.desktop", "[Desktop Entry]\nName=Beta\nExec=beta\n"),
    ];
    let mut m = CacheManager::new();
    m.rebuild(&listing);
    m.rebuild(&listing);
    m.rebuild(&listing);
    let all = m.get_all();
    assert_eq!(all.len(), 2);
    let mut names: Vec<&str> = all.iter().map(|a| a.name.as_str()).collect();
    names.sort();
    assert_eq!(names, vec!["Alpha", "Beta"]);
}

#[test]
fn first_seen_record_survives_for_a_duplicated_name() {
    let listing = vec![
        entry("one.desktop", "[Desktop Entry]\nName=Same\nExec=first\n"),
        entry("two.desktop", "[Desktop Entry]\nName=Same\nExec=second\n"),
    ];
    let mut m = CacheManager::new();
    m.rebuild(&listing);
    let all = m.get_all();
    assert_eq!(all.len(), 1);
    assert_eq!(all[0].name, "Same");
    assert_eq!(all[0].exec_cmd, "first");
}

#[test]
fn parse_failures_do_not_abort_the_scan() {
    let listing = vec![
        entry("bad.desktop", "no equals sign on this line\n"),
        entry("good.desktop", "[Desktop Entry]\nName=Good\nExec=good\n"),
    ];
    let mut m = CacheManager::new();
    m.rebuild(&listing);
    let all = m.get_all();
    assert_eq!(all.len(), 1);
    assert_eq!(all[0].name, "Good");
}

#[test]
fn rebuild_over_an_empty_listing_stores_nothing() {
    let listing: Vec<FileEntry> = Vec::new();
    let mut m = CacheManager::new();
    m.rebuild(&listing);
    assert_eq!(m.len(), 0);
}

#[test]
fn restore_reloads_persisted_records_without_duplicates() {
    let mut m = CacheManager::new();
    m.restore(Application {
        name: "Foo".to_string(),
        exec_cmd: "foo".to_string(),
        comment: Some("kept".to_string()),
        categories: None,
        keywords: None,
        use_terminal: false,
    });
    let listing = vec![entry("foo.desktop", "[Desktop Entry]\nName=Foo\nExec=foo\n")];
    m.rebuild(&listing);
    let all = m.get_all();
    assert_eq!(all.len(), 1);
    assert_eq!(all[0].comment.as_deref(), Some("kept"));
}
