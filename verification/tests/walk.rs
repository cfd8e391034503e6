use oggify_csv::walk::{EntryKind, FolderWalk};

#[test]
fn walk_collects_files_depth_first_from_the_end() {
    let mut walk = FolderWalk::new(vec!["a.csv", "sub", "link"]);
    let mut order = Vec::new();
    while let Some(entry) = walk.next_entry() {
        order.push(entry);
        let kind = match entry {
            "sub" => EntryKind::Folder,
            "link" => EntryKind::Other,
            _ => EntryKind::File,
        };
        if let Some(folder) = walk.visit(entry, kind) {
            assert_eq!(folder, "sub");
            walk.add_entries(vec!["sub/b.csv", "sub/c.txt"]);
        }
    }
    assert_eq!(order, vec!["link", "sub", "sub/c.txt", "sub/b.csv", "a.csv"]);
    assert_eq!(walk.into_found(), vec!["sub/c.txt", "sub/b.csv", "a.csv"]);
}

#[test]
fn empty_walk_finds_nothing() {
    let mut walk: FolderWalk<u32> = FolderWalk::new(Vec::new());
    assert_eq!(walk.next_entry(), None);
    assert!(walk.into_found().is_empty());
}
