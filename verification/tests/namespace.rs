use dirfs::attrs::{
    build_dir_attributes, FileKind, BLOCK_SIZE, DIR_NLINK, DIR_PERM, EPOCH_SECS, OWNER_GID,
    OWNER_UID,
};
use dirfs::table::{FsError, InodeTable};

#[test]
fn root_is_seeded() {
    let t = InodeTable::new();
    assert_eq!(t.len(), 1);
    let root = t.get(1).expect("root must be live");
    assert_eq!(root.name, "root");
    assert_eq!(root.attr.ino, 1);
    assert_eq!(root.attr.kind, FileKind::Directory);
    assert_eq!(root.attr.perm, DIR_PERM);
    assert!(root.children.is_empty());
}

#[test]
fn attribute_builder_defaults() {
    let a = build_dir_attributes(7, 0o700);
    assert_eq!(a.ino, 7);
    assert_eq!(a.size, 0);
    assert_eq!(a.blocks, 0);
    assert_eq!(a.atime, EPOCH_SECS);
    assert_eq!(a.mtime, EPOCH_SECS);
    assert_eq!(a.ctime, EPOCH_SECS);
    assert_eq!(a.crtime, EPOCH_SECS);
    assert_eq!(a.kind, FileKind::Directory);
    assert_eq!(a.perm, 0o700);
    assert_eq!(a.nlink, DIR_NLINK);
    assert_eq!(a.uid, OWNER_UID);
    assert_eq!(a.gid, OWNER_GID);
    assert_eq!(a.rdev, 0);
    assert_eq!(a.flags, 0);
    assert_eq!(a.blksize, BLOCK_SIZE);
}

// Create root (seeded as id 1), then "a" under it (id 2), then "b" under
// "a" (id 3); list the root, resolve "a", and query id 3's attributes.
#[test]
fn scenario_create_list_resolve() {
    let mut t = InodeTable::new();
    let (a_attr, a_gen) = t.mkdir(1, "a", 0o755, 0);
    assert_eq!(a_attr.ino, 2);
    assert_eq!(a_gen, 0);
    let (b_attr, b_gen) = t.mkdir(2, "b", 0o755, 0);
    assert_eq!(b_attr.ino, 3);
    assert_eq!(b_gen, 0);

    let listing = t.readdir(1, 0, 0).expect("root is live");
    assert_eq!(listing.len(), 1);
    assert_eq!(listing[0].ino, 2);
    assert_eq!(listing[0].next_offset, 1);
    assert_eq!(listing[0].kind, FileKind::Directory);
    assert_eq!(listing[0].name, "a");

    let (resolved, gen) = t.lookup(1, "a").expect("a was just created");
    assert_eq!(resolved.ino, 2);
    assert_eq!(resolved, a_attr);
    assert_eq!(gen, 0);

    let got = t.getattr(3).expect("b is live");
    assert_eq!(got.kind, FileKind::Directory);
    assert_eq!(got, b_attr);
}

#[test]
fn identities_strictly_increase_from_two() {
    let mut t = InodeTable::new();
    let mut last = 1u64;
    for i in 0..8 {
        let parent = if i % 2 == 0 { 1 } else { last };
        let (attr, _) = t.mkdir(parent, "child", 0o755, 0);
        assert!(attr.ino > last, "identities must strictly increase");
        assert_eq!(attr.ino, i + 2, "identities start at 2 and are sequential");
        last = attr.ino;
    }
}

#[test]
fn lookup_returns_first_match_in_insertion_order() {
    let mut t = InodeTable::new();
    let (first, _) = t.mkdir(1, "x", 0o755, 0);
    let (second, _) = t.mkdir(1, "x", 0o755, 0);
    assert_eq!(first.ino, 2);
    assert_eq!(second.ino, 3);
    let (resolved, _) = t.lookup(1, "x").expect("x exists");
    assert_eq!(resolved.ino, 2, "the earliest child with the name wins");
}

#[test]
fn not_found_boundaries() {
    let mut t = InodeTable::new();
    t.mkdir(1, "a", 0o755, 0);
    assert_eq!(t.lookup(1, "missing"), Err(FsError::NotFound));
    assert_eq!(t.getattr(9999), Err(FsError::NotFound));
    assert_eq!(t.getattr(0), Err(FsError::NotFound));
    assert_eq!(t.lookup(9999, "a"), Err(FsError::NotFound));
    assert!(t.readdir(9999, 0, 0).is_err());
    assert!(t.readdir(0, 0, 0).is_err());
}

#[test]
fn listing_resumes_exactly_where_truncated() {
    let mut t = InodeTable::new();
    let names = ["n0", "n1", "n2", "n3", "n4"];
    let mut expected = Vec::new();
    for name in names {
        let (attr, _) = t.mkdir(1, name, 0o755, 0);
        expected.push(attr.ino);
    }
    // however the consumer truncates the first call, resuming at the last
    // delivered next_offset yields the rest: no duplicates, no omissions
    for k in 0..=names.len() {
        let full = t.readdir(1, 0, 0).expect("root is live");
        assert_eq!(full.len(), names.len());
        let taken = &full[..k];
        let resume_at = if k == 0 { 0 } else { taken[k - 1].next_offset };
        let rest = t.readdir(1, 0, resume_at).expect("root is live");
        let mut seen: Vec<u64> = taken.iter().map(|d| d.ino).collect();
        seen.extend(rest.iter().map(|d| d.ino));
        assert_eq!(seen, expected);
    }
}

#[test]
fn listing_offsets_past_the_end_and_negative_are_empty() {
    let mut t = InodeTable::new();
    t.mkdir(1, "a", 0o755, 0);
    t.mkdir(1, "b", 0o755, 0);
    assert_eq!(t.readdir(1, 0, 2).expect("root is live").len(), 0);
    assert_eq!(t.readdir(1, 0, 100).expect("root is live").len(), 0);
    assert_eq!(t.readdir(1, 0, -3).expect("root is live").len(), 0);
}

#[test]
fn listing_names_and_kinds_match_children() {
    let mut t = InodeTable::new();
    t.mkdir(1, "docs", 0o755, 0);
    t.mkdir(1, "src", 0o755, 0);
    let listing = t.readdir(1, 0, 0).expect("root is live");
    assert_eq!(listing.len(), 2);
    assert_eq!(listing[0].name, "docs");
    assert_eq!(listing[1].name, "src");
    assert_eq!(listing[0].next_offset, 1);
    assert_eq!(listing[1].next_offset, 2);
    assert_eq!(listing[0].kind, FileKind::Directory);
    assert_eq!(listing[1].kind, FileKind::Directory);
}

#[test]
fn opendir_always_succeeds_with_null_handle() {
    let t = InodeTable::new();
    assert_eq!(t.opendir(1, 0), (0, 0));
    assert_eq!(t.opendir(9999, -1), (0, 0));
}

#[test]
fn every_child_reference_resolves_to_a_live_entry() {
    let mut t = InodeTable::new();
    t.mkdir(1, "a", 0o755, 0);
    t.mkdir(2, "b", 0o755, 0);
    t.mkdir(2, "c", 0o755, 0);
    t.mkdir(3, "d", 0o755, 0);
    t.mkdir(1, "e", 0o755, 0);
    for ino in 1..=t.len() as u64 {
        let entry = t.get(ino).expect("every allocated identity is live");
        for &child in &entry.children {
            let child_entry = t.get(child).expect("children reference live entries");
            assert_eq!(child_entry.attr.ino, child);
            assert!(child > ino, "children are created after their parent");
        }
    }
}

#[test]
fn getattr_returns_the_stored_record() {
    let mut t = InodeTable::new();
    let (created, _) = t.mkdir(1, "a", 0o755, 0);
    let fetched = t.getattr(2).expect("a is live");
    assert_eq!(fetched, created);
    let root = t.getattr(1).expect("root is live");
    assert_eq!(root.ino, 1);
    assert_eq!(root.nlink, DIR_NLINK);
}
