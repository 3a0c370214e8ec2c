use rustfs::inode::{FileType, Inode, Permissions};

#[test]
fn default_permissions_by_type() {
    let f = Permissions::default_file();
    assert!(f.read && f.write && !f.execute);
    let d = Permissions::default_dir();
    assert!(d.read && d.write && d.execute);
}

#[test]
fn new_at_sets_fields_and_type_defaults() {
    let i = Inode::new_at(3, "a.txt", 12, vec![4, 5], FileType::File, "2024-01-02 03:04:05".to_string());
    assert_eq!(i.id, 3);
    assert_eq!(i.name, "a.txt");
    assert_eq!(i.size, 12);
    assert_eq!(i.blocks, vec![4, 5]);
    assert_eq!(i.file_type, FileType::File);
    assert_eq!(i.permissions, Permissions::default_file());
    assert_eq!(i.created_at, "2024-01-02 03:04:05");
    assert_eq!(i.modified_at, "2024-01-02 03:04:05");
    let d = Inode::new_at(4, "docs", 0, vec![], FileType::Directory, "t".to_string());
    assert_eq!(d.permissions, Permissions::default_dir());
    let s = Inode::new_at(5, "link", 0, vec![], FileType::Symlink, "t".to_string());
    assert_eq!(s.permissions, Permissions::default_dir());
}

#[test]
fn new_stamps_the_same_time_twice() {
    let i = Inode::new(0, "x", 0, vec![], FileType::File);
    assert_eq!(i.created_at, i.modified_at);
    assert_eq!(i.created_at.len(), "2024-01-02 03:04:05".len());
}

#[test]
fn update_replaces_size_and_blocks_wholesale() {
    let mut i = Inode::new_at(1, "f", 10, vec![1, 2, 3], FileType::File, "then".to_string());
    i.update_at(4, vec![9], "now".to_string());
    assert_eq!(i.size, 4);
    assert_eq!(i.blocks, vec![9]);
    assert_eq!(i.created_at, "then");
    assert_eq!(i.modified_at, "now");
    assert_eq!(i.id, 1);
    assert_eq!(i.name, "f");
    i.update(0, vec![]);
    assert_eq!(i.size, 0);
    assert!(i.blocks.is_empty());
    assert_eq!(i.created_at, "then");
    assert_ne!(i.modified_at, "now");
}

#[test]
fn clone_safe_copies_every_field() {
    let i = Inode::new_at(7, "n", 600, vec![0, 1], FileType::File, "c".to_string());
    let mut c = i.clone_safe();
    assert_eq!(c.id, 7);
    assert_eq!(c.name, "n");
    assert_eq!(c.size, 600);
    assert_eq!(c.blocks, vec![0, 1]);
    assert_eq!(c.file_type, FileType::File);
    assert_eq!(c.permissions, i.permissions);
    assert_eq!(c.created_at, "c");
    assert_eq!(c.modified_at, "c");
    c.blocks.push(5);
    assert_eq!(i.blocks, vec![0, 1]);
}
