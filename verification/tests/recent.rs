use cutlass_ui::recent::{
    note_recent, parse_recents, promote, prune_recents, recent_row, recents_to_json, to_rows,
    MAX_ENTRIES,
};

/// A list file and the files that exist, in memory.
struct Disk {
    list: Option<String>,
    files: Vec<String>,
}

impl Disk {
    fn new() -> Self {
        Disk {
            list: None,
            files: Vec::new(),
        }
    }

    fn touch(&mut self, path: &str) {
        self.files.push(path.to_string());
    }

    fn read(&self) -> Vec<String> {
        let entries = match &self.list {
            Some(json) => parse_recents(json),
            None => Vec::new(),
        };
        let exists: Vec<bool> = entries.iter().map(|e| self.files.contains(e)).collect();
        prune_recents(&entries, &exists)
    }

    fn note(&mut self, project: &str) -> Vec<String> {
        let entries = note_recent(&self.read(), project);
        self.list = Some(recents_to_json(&entries));
        entries
    }
}

#[test]
fn note_orders_newest_first_and_dedups() {
    let mut disk = Disk::new();
    let (a, b) = ("/p/a.cutlass", "/p/b.cutlass");
    disk.touch(a);
    disk.touch(b);

    disk.note(a);
    disk.note(b);
    assert_eq!(disk.read(), vec![b, a]);

    // Re-noting an existing entry moves it to the front, no duplicate.
    disk.note(a);
    assert_eq!(disk.read(), vec![a, b]);
}

#[test]
fn read_prunes_missing_files() {
    let mut disk = Disk::new();
    let (kept, gone) = ("/p/kept.cutlass", "/p/gone.cutlass");
    disk.touch(kept);
    disk.touch(gone);
    disk.note(kept);
    disk.note(gone);

    disk.files.retain(|f| f != gone);
    assert_eq!(disk.read(), vec![kept]);
}

#[test]
fn list_caps_at_max_entries() {
    let mut disk = Disk::new();
    for i in 0..(MAX_ENTRIES + 3) {
        let p = format!("/p/p{i}.cutlass");
        disk.touch(&p);
        disk.note(&p);
    }
    let entries = disk.read();
    assert_eq!(entries.len(), MAX_ENTRIES);
    // Newest survives, oldest fell off.
    assert_eq!(entries[0], format!("/p/p{}.cutlass", MAX_ENTRIES + 2));
    assert!(!entries.contains(&"/p/p0.cutlass".to_string()));
}

#[test]
fn missing_or_corrupt_file_reads_empty() {
    let mut disk = Disk::new();
    assert_eq!(disk.read(), Vec::<String>::new());

    disk.list = Some("not json".to_string());
    assert_eq!(disk.read(), Vec::<String>::new());
    assert!(parse_recents("[1, 2]").is_empty());
    assert!(parse_recents("{\"a\": \"b\"}").is_empty());
}

#[test]
fn the_list_survives_a_round_trip() {
    let entries: Vec<String> = ["/a \"quoted\"\\ path", "/ünïcode/\u{1F3AC}.cutlass", ""]
        .iter()
        .map(|s| s.to_string())
        .collect();
    let json = recents_to_json(&entries);
    assert_eq!(parse_recents(&json), entries);
    assert_eq!(
        recents_to_json(&vec!["a".to_string(), "b".to_string()]),
        "[\n  \"a\",\n  \"b\"\n]"
    );
}

#[test]
fn spellings_of_one_path_count_as_one() {
    let entries = vec!["/p//a.cutlass".to_string(), "/p/b.cutlass".to_string()];
    assert_eq!(
        note_recent(&entries, "/p/a.cutlass"),
        vec!["/p/a.cutlass", "/p/b.cutlass"]
    );
}

#[test]
fn promoting_keeps_the_order_of_the_rest() {
    let entries: Vec<String> = ["a", "b", "c"].iter().map(|s| s.to_string()).collect();
    assert_eq!(
        promote(&entries, &vec![false, true, false], "b"),
        vec!["b", "a", "c"]
    );
    // Noting it again changes nothing.
    let once = note_recent(&entries, "b");
    assert_eq!(note_recent(&once, "b"), once);
}

#[test]
fn rows_show_the_file_stem() {
    let rows = to_rows(&vec!["/home/me/My Film.v2.cutlass".to_string(), "/".to_string()]);
    assert_eq!(rows[0].name, "My Film.v2");
    assert_eq!(rows[0].path, "/home/me/My Film.v2.cutlass");
    assert_eq!(rows[1].name, "");
    assert_eq!(rows[1].path, "/");
    assert_eq!(recent_row(Some("x".to_string()), "y").name, "x");
}

#[test]
fn stems_end_at_the_final_dot() {
    for (path, stem) in [
        ("/a/.hidden", ".hidden"),
        ("/a/..two", "."),
        ("/a/b.", "b"),
        ("/a.b/c", "c"),
        ("name", "name"),
        ("/a/..", ""),
        ("", ""),
    ] {
        assert_eq!(to_rows(&vec![path.to_string()])[0].name, stem, "{path}");
    }
}

#[test]
fn other_paths_stay_whatever_their_spelling() {
    let entries: Vec<String> = ["C:\\a\\p.cutlass", "C:\\b\\q.cutlass", "//x/./y:z"]
        .iter()
        .map(|s| s.to_string())
        .collect();
    let noted = note_recent(&entries, "C:\\p.cutlass");
    assert_eq!(noted.len(), 4);
    assert_eq!(noted[0], "C:\\p.cutlass");
    assert_eq!(noted[1..], entries[..]);
    // The exact text is one path everywhere.
    assert_eq!(note_recent(&entries, "C:\\b\\q.cutlass").len(), 3);
}
