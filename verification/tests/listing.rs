use file_server::folder_info::{DirContent, Directory, Entry, EntryKind};

#[test]
fn listing_keeps_folders_and_files_and_skips_symlinks() {
    // a directory with one subfolder, one file and one symlink lists two
    // entries: the folder and the file, the symlink silently omitted
    let entries = vec![
        Entry { name: String::from("/top/d"), kind: EntryKind::Folder },
        Entry { name: String::from("/top/f"), kind: EntryKind::File },
        Entry { name: String::from("/top/s"), kind: EntryKind::Other },
    ];
    let dir = Directory::from_entries(String::from("/top"), &entries);
    assert_eq!(dir.path, "/top");
    assert_eq!(dir.childs.len(), 2);
    match &dir.childs[0] {
        DirContent::Folder(f) => assert_eq!(f.name(), "/top/d"),
        _ => panic!("the subfolder must be listed as a folder"),
    }
    match &dir.childs[1] {
        DirContent::File(f) => assert_eq!(f.name(), "/top/f"),
        _ => panic!("the file must be listed as a file"),
    }
}

#[test]
fn listing_preserves_enumeration_order() {
    let entries = vec![
        Entry { name: String::from("b"), kind: EntryKind::File },
        Entry { name: String::from("a"), kind: EntryKind::File },
        Entry { name: String::from("c"), kind: EntryKind::Folder },
    ];
    let dir = Directory::from_entries(String::from("."), &entries);
    let names: Vec<&str> = dir
        .childs
        .iter()
        .map(|c| match c {
            DirContent::Folder(f) => f.name().as_str(),
            DirContent::File(f) => f.name().as_str(),
            DirContent::Symlink(l) => l.name().as_str(),
        })
        .collect();
    assert_eq!(names, vec!["b", "a", "c"]);
}

#[test]
fn listing_of_empty_directory_is_empty() {
    let dir = Directory::from_entries(String::from("/empty"), &Vec::new());
    assert_eq!(dir.path, "/empty");
    assert!(dir.childs.is_empty());
}

#[test]
fn listing_of_only_unsupported_entries_is_empty() {
    let entries = vec![
        Entry { name: String::from("s1"), kind: EntryKind::Other },
        Entry { name: String::from("s2"), kind: EntryKind::Other },
    ];
    let dir = Directory::from_entries(String::from("."), &entries);
    assert!(dir.childs.is_empty());
}
