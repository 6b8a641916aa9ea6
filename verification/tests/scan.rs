use photo_gallery::ext::is_image_file;
use photo_gallery::scan::{
    discover_photographers, get_images, get_preview_image, DirListing, Entry, EntryKind,
    RootEntry, RootListing, ScanError,
};

fn entry(name: &str, path: &str, kind: EntryKind) -> Entry {
    Entry { name: name.to_string(), path: path.to_string(), kind }
}

#[test]
fn classifies_upper_case_extension() {
    assert!(is_image_file("Photo.JPG"));
}

#[test]
fn rejects_extension_outside_the_set() {
    assert!(!is_image_file("photo.JPGX"));
}

#[test]
fn rejects_name_without_extension() {
    assert!(!is_image_file("README"));
}

#[test]
fn rejects_hidden_file_whose_only_dot_leads() {
    assert!(!is_image_file(".gitignore"));
}

#[test]
fn rejects_empty_extension() {
    assert!(!is_image_file("archive."));
}

#[test]
fn classifies_every_recognized_extension() {
    for name in [
        "a.jpg", "a.jpeg", "a.png", "a.gif", "a.bmp", "a.webp", "a.tiff", "b.JPEG", "c.TiFf",
        "photo.album.PNG",
    ] {
        assert!(is_image_file(name), "{name} should be recognized");
    }
    for name in ["a.txt", "a.jp", "a.tif", "jpg", "a.svg", "a.j p g"] {
        assert!(!is_image_file(name), "{name} should not be recognized");
    }
}

#[test]
fn counts_photographers_and_images() {
    let listing = RootListing::Listed(vec![
        RootEntry {
            entry: entry("alice", "/root/alice", EntryKind::Dir),
            contents: DirListing::Listed(vec![]),
        },
        RootEntry {
            entry: entry("notes.txt", "/root/notes.txt", EntryKind::File),
            contents: DirListing::Listed(vec![]),
        },
        RootEntry {
            entry: entry("bob", "/root/bob", EntryKind::Dir),
            contents: DirListing::Listed(vec![]),
        },
    ]);
    let photographers = discover_photographers(&listing).unwrap();
    assert_eq!(photographers.len(), 2);
    assert_eq!(photographers[0].name, "alice");
    assert_eq!(photographers[1].name, "bob");

    let folder = DirListing::Listed(vec![
        entry("a.jpg", "/f/a.jpg", EntryKind::File),
        entry("b.txt", "/f/b.txt", EntryKind::File),
        entry("c.PNG", "/f/c.PNG", EntryKind::File),
        entry("sub", "/f/sub", EntryKind::Dir),
    ]);
    let images = get_images(&folder).unwrap();
    assert_eq!(images.len(), 2);
    assert_eq!(images[0].name, "a.jpg");
    assert_eq!(images[0].path, "/f/a.jpg");
    assert_eq!(images[1].name, "c.PNG");
}

#[test]
fn photographers_on_files_only_is_empty_not_error() {
    let listing = RootListing::Listed(vec![
        RootEntry {
            entry: entry("a.jpg", "/root/a.jpg", EntryKind::File),
            contents: DirListing::Listed(vec![]),
        },
        RootEntry {
            entry: entry("b.txt", "/root/b.txt", EntryKind::File),
            contents: DirListing::Listed(vec![]),
        },
    ]);
    let photographers = discover_photographers(&listing).unwrap();
    assert!(photographers.is_empty());
}

#[test]
fn unlistable_root_is_read_failure() {
    let msg = "No such file or directory (os error 2)";
    let listing = RootListing::Unlistable(msg.to_string());
    match discover_photographers(&listing) {
        Err(ScanError::DirectoryReadFailure(m)) => assert_eq!(m, msg),
        other => panic!("expected a read failure, got {other:?}"),
    }
}

#[test]
fn unlistable_folder_is_read_failure() {
    let msg = "Permission denied (os error 13)";
    let folder = DirListing::Unlistable(msg.to_string());
    match get_images(&folder) {
        Err(ScanError::DirectoryReadFailure(m)) => assert_eq!(m, msg),
        other => panic!("expected a read failure, got {other:?}"),
    }
}

#[test]
fn unreadable_entries_are_silently_skipped() {
    let listing = RootListing::Listed(vec![
        RootEntry {
            entry: entry("ghost", "/root/ghost", EntryKind::Unreadable),
            contents: DirListing::Listed(vec![]),
        },
        RootEntry {
            entry: entry("carol", "/root/carol", EntryKind::Dir),
            contents: DirListing::Listed(vec![]),
        },
    ]);
    let photographers = discover_photographers(&listing).unwrap();
    assert_eq!(photographers.len(), 1);
    assert_eq!(photographers[0].name, "carol");

    let folder = DirListing::Listed(vec![
        entry("ghost.jpg", "/f/ghost.jpg", EntryKind::Unreadable),
        entry("real.jpg", "/f/real.jpg", EntryKind::File),
    ]);
    let images = get_images(&folder).unwrap();
    assert_eq!(images.len(), 1);
    assert_eq!(images[0].name, "real.jpg");
}

#[test]
fn preview_is_none_without_recognized_image() {
    let dir = DirListing::Listed(vec![
        entry("notes.txt", "/d/notes.txt", EntryKind::File),
        entry("nested", "/d/nested", EntryKind::Dir),
    ]);
    assert_eq!(get_preview_image(&dir), None);
    assert_eq!(get_preview_image(&DirListing::Listed(vec![])), None);
    assert_eq!(get_preview_image(&DirListing::Unlistable("gone".to_string())), None);
}

#[test]
fn preview_is_the_first_recognized_image() {
    let dir = DirListing::Listed(vec![
        entry("readme", "/d/readme", EntryKind::File),
        entry("b.jpg", "/d/b.jpg", EntryKind::File),
        entry("c.png", "/d/c.png", EntryKind::File),
    ]);
    assert_eq!(get_preview_image(&dir), Some("/d/b.jpg".to_string()));
}

#[test]
fn gallery_scenario() {
    let listing = RootListing::Listed(vec![
        RootEntry {
            entry: entry("alice", "/gallery/alice", EntryKind::Dir),
            contents: DirListing::Listed(vec![
                entry("a.jpg", "/gallery/alice/a.jpg", EntryKind::File),
                entry("notes.txt", "/gallery/alice/notes.txt", EntryKind::File),
            ]),
        },
        RootEntry {
            entry: entry("bob", "/gallery/bob", EntryKind::Dir),
            contents: DirListing::Listed(vec![]),
        },
    ]);
    let photographers = discover_photographers(&listing).unwrap();
    assert_eq!(photographers.len(), 2);
    assert_eq!(photographers[0].name, "alice");
    assert_eq!(photographers[0].path, "/gallery/alice");
    assert!(photographers[0]
        .preview_image
        .as_ref()
        .is_some_and(|p| p.ends_with("a.jpg")));
    assert_eq!(photographers[1].name, "bob");
    assert_eq!(photographers[1].preview_image, None);
}
