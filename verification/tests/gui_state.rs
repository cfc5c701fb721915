use apfsrelic::apfs::jrec::{DirRec, DT_DIR, DT_REG};
use apfsrelic::gui::{basename, record_recent, remove_recent, suffixed_name, AppState, Config, RecentImage, MAX_RECENTS};
use apfsrelic::listing::{sort_by_name, sort_for_browser};

fn entry(path: &str, t: u64) -> RecentImage {
    RecentImage { path: path.to_string(), last_opened: t }
}

fn paths(v: &[RecentImage]) -> Vec<&str> {
    v.iter().map(|r| r.path.as_str()).collect()
}

#[test]
fn recording_moves_the_image_to_the_front_once() {
    let list = vec![entry("/a", 1), entry("/b", 2), entry("/c", 3)];
    let out = record_recent(list, "/b".to_string(), 9);
    assert_eq!(paths(&out), vec!["/b", "/a", "/c"]);
    assert_eq!(out[0].last_opened, 9);
    assert_eq!(out[1].last_opened, 1);
}

#[test]
fn recording_keeps_at_most_the_limit() {
    let mut list = Vec::new();
    for i in 0..MAX_RECENTS {
        list.push(entry(&format!("/p{i}"), i as u64));
    }
    let out = record_recent(list, "/new".to_string(), 99);
    assert_eq!(out.len(), MAX_RECENTS);
    assert_eq!(out[0].path, "/new");
    assert_eq!(out[MAX_RECENTS - 1].path, format!("/p{}", MAX_RECENTS - 2));
}

#[test]
fn removing_drops_every_entry_for_the_path() {
    let list = vec![entry("/a", 1), entry("/b", 2), entry("/a", 3)];
    let out = remove_recent(list, "/a");
    assert_eq!(paths(&out), vec!["/b"]);
    let out = remove_recent(out, "/zzz");
    assert_eq!(paths(&out), vec!["/b"]);
}

#[test]
fn basename_takes_last_nonempty_component() {
    assert_eq!(basename("/dir/file.txt"), "file.txt");
    assert_eq!(basename("/dir/sub/"), "sub");
    assert_eq!(basename("/"), "recovered");
    assert_eq!(basename(""), "recovered");
}

#[test]
fn suffixed_names_keep_the_extension() {
    assert_eq!(suffixed_name("photo.jpg", 1), "photo (1).jpg");
    assert_eq!(suffixed_name("archive.tar.gz", 2), "archive.tar (2).gz");
    assert_eq!(suffixed_name("README", 3), "README (3)");
    assert_eq!(suffixed_name(".hidden", 4), ".hidden (4)");
}

fn entry_named(name: &str, dt: u16) -> DirRec {
    DirRec { name: name.to_string(), file_id: 0x10, date_added: 0, flags: dt, xfields: Vec::new() }
}

#[test]
fn explorer_lists_folders_first_without_case() {
    let mut v = vec![
        entry_named("b.txt", DT_REG),
        entry_named("Zeta", DT_DIR),
        entry_named("A.txt", DT_REG),
        entry_named("alpha", DT_DIR),
    ];
    sort_for_browser(&mut v);
    let names: Vec<&str> = v.iter().map(|d| d.name.as_str()).collect();
    assert_eq!(names, vec!["alpha", "Zeta", "A.txt", "b.txt"]);

    // By name alone, upper case sorts first and folders are not grouped.
    sort_by_name(&mut v);
    let names: Vec<&str> = v.iter().map(|d| d.name.as_str()).collect();
    assert_eq!(names, vec!["A.txt", "Zeta", "alpha", "b.txt"]);
}

#[test]
fn explorer_sort_is_stable_for_equal_keys() {
    let mut v = vec![entry_named("Same", DT_REG), entry_named("same", DT_REG)];
    sort_for_browser(&mut v);
    assert_eq!(v[0].name, "Same");
    assert_eq!(v[1].name, "same");
}

#[test]
fn selection_steps() {
    let mut c = Config::opened("/img/tm.sparsebundle".to_string());
    assert_eq!(c.container.as_deref(), Some("/img/tm.sparsebundle"));
    assert_eq!(c.volume, 1);
    c.select_volume(3);
    assert_eq!(c.volume, 3);
    c.select_volume(0);
    assert_eq!(c.volume, 3);
    c.close();
    assert!(c.container.is_none());
    assert_eq!(c.volume, 3);
    let s = AppState::new(Some("/x".to_string()), 2);
    let cfg = s.inner.lock().unwrap();
    assert_eq!(cfg.container.as_deref(), Some("/x"));
    assert_eq!(cfg.volume, 2);
}
