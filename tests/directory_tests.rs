use rustfs::directory::{DirEntry, Directory, FsError};

fn names(d: &Directory) -> Vec<String> {
    let mut v: Vec<String> = d.entry_list().iter().map(|e: &DirEntry| e.name.clone()).collect();
    v.sort();
    v
}

#[test]
fn new_directory_is_empty() {
    let d = Directory::new("root", None);
    assert_eq!(d.name, "root");
    assert_eq!(d.parent, None);
    assert!(d.entry_list().is_empty());
}

#[test]
fn add_then_lookup() {
    let mut d = Directory::new("root", None);
    assert_eq!(d.add_entry("docs", 0, true), Ok(()));
    assert_eq!(d.add_entry("a.txt", 1, false), Ok(()));
    assert!(d.has_entry("docs"));
    assert!(!d.has_entry("Docs"));
    let e = d.get_entry("a.txt").unwrap();
    assert_eq!(e.name, "a.txt");
    assert_eq!(e.inode_id, 1);
    assert!(!e.is_dir);
    assert!(d.get_entry("missing").is_none());
    assert_eq!(names(&d), vec!["a.txt".to_string(), "docs".to_string()]);
}

#[test]
fn duplicate_name_is_refused_and_entry_kept() {
    let mut d = Directory::new("root", None);
    d.add_entry("x", 1, false).unwrap();
    assert_eq!(d.add_entry("x", 2, true), Err(FsError::DuplicateName));
    let e = d.get_entry("x").unwrap();
    assert_eq!(e.inode_id, 1);
    assert!(!e.is_dir);
    assert_eq!(d.entry_list().len(), 1);
}

#[test]
fn removing_missing_name_is_refused_and_entries_kept() {
    let mut d = Directory::new("root", None);
    d.add_entry("x", 1, false).unwrap();
    assert_eq!(d.remove_entry("y"), Err(FsError::NotFound));
    assert_eq!(names(&d), vec!["x".to_string()]);
    assert_eq!(d.remove_entry("x"), Ok(()));
    assert!(!d.has_entry("x"));
    assert_eq!(d.remove_entry("x"), Err(FsError::NotFound));
}

#[test]
fn change_dir_up_at_root_gives_none() {
    let d = Directory::new("root", None);
    let dirs = vec![d.clone()];
    assert_eq!(d.change_dir(&dirs, 0, ".."), Ok(None));
    assert_eq!(d.name, "root");
    assert!(d.entry_list().is_empty());
}

#[test]
fn change_dir_up_gives_parent() {
    let d = Directory::new("docs", Some(452));
    assert_eq!(d.change_dir(&vec![], 0, ".."), Ok(Some(452)));
}

#[test]
fn change_dir_down_and_errors() {
    let mut d = Directory::new("root", None);
    d.add_entry("docs", 4, true).unwrap();
    d.add_entry("a.txt", 5, false).unwrap();
    assert_eq!(d.change_dir(&vec![], 0, "docs"), Ok(Some(4)));
    assert_eq!(d.change_dir(&vec![], 0, "a.txt"), Err(FsError::NotADirectory));
    assert_eq!(d.change_dir(&vec![], 0, "nope"), Err(FsError::NotFound));
}

#[test]
fn derived_id_is_byte_sum_mod_10000() {
    assert_eq!(Directory::new("root", None).get_inode_id(), 114 + 111 + 111 + 116);
    assert_eq!(Directory::new("", None).get_inode_id(), 0);
    let long = "z".repeat(100);
    assert_eq!(Directory::new(&long, None).get_inode_id(), (122 * 100) % 10000);
    assert_eq!(Directory::new("é", None).get_inode_id(), 0xC3 + 0xA9);
}

#[test]
fn get_path_walks_parents() {
    let root = Directory::new("root", None);
    let docs = Directory::new("docs", Some(root.get_inode_id()));
    let sub = Directory::new("sub", Some(docs.get_inode_id()));
    let dirs = vec![root.clone(), docs.clone(), sub.clone()];
    assert_eq!(sub.get_path(&dirs, 0), "/root/docs/sub");
    assert_eq!(docs.get_path(&dirs, 0), "/root/docs");
    assert_eq!(root.get_path(&dirs, 0), "/root");
}

#[test]
fn get_path_stops_at_unknown_parent() {
    let sub = Directory::new("sub", Some(9999));
    let dirs = vec![Directory::new("root", None)];
    assert_eq!(sub.get_path(&dirs, 0), "/sub");
}

#[test]
fn get_path_cuts_a_cycle() {
    let a = Directory::new("a", Some(98));
    let b = Directory::new("b", Some(97));
    let dirs = vec![a.clone(), b.clone()];
    assert_eq!(a.get_path(&dirs, 0), "/a/b/a");
}
