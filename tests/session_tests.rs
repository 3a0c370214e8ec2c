use rustfs::directory::FsError;
use rustfs::disk::{VirtualDisk, BLOCK_SIZE, TOTAL_BLOCKS};
use rustfs::directory::Directory;
use rustfs::fs::{blocks_needed, count_free, remove_file, store_file};
use rustfs::session::{CdMove, Session};

#[test]
fn blocks_needed_rounds_up() {
    assert_eq!(blocks_needed(0), 0);
    assert_eq!(blocks_needed(1), 1);
    assert_eq!(blocks_needed(BLOCK_SIZE), 1);
    assert_eq!(blocks_needed(BLOCK_SIZE + 1), 2);
    assert_eq!(blocks_needed(BLOCK_SIZE + 10), 2);
}

#[test]
fn count_free_tracks_allocations() {
    let mut d = VirtualDisk::new();
    assert_eq!(count_free(&d), TOTAL_BLOCKS);
    d.allocate_block();
    d.allocate_block();
    assert_eq!(count_free(&d), TOTAL_BLOCKS - 2);
}

#[test]
fn store_file_spreads_content_over_blocks() {
    let mut disk = VirtualDisk::new();
    let mut dir = Directory::new("root", None);
    disk.allocate_block();
    let content: Vec<u8> = (0..(BLOCK_SIZE + 10)).map(|i| (i % 200) as u8 + 1).collect();
    let inode = store_file(&mut disk, &mut dir, "a.txt", &content, 7).unwrap();
    assert_eq!(inode.id, 7);
    assert_eq!(inode.size, BLOCK_SIZE + 10);
    assert_eq!(inode.blocks, vec![1, 2]);
    assert_eq!(disk.read_block(1), &content[..BLOCK_SIZE]);
    assert_eq!(&disk.read_block(2)[..10], &content[BLOCK_SIZE..]);
    assert!(disk.read_block(2)[10..].iter().all(|b| *b == 0));
    let e = dir.get_entry("a.txt").unwrap();
    assert_eq!(e.inode_id, 7);
    assert!(!e.is_dir);
    assert_eq!(store_file(&mut disk, &mut dir, "a.txt", b"x", 8).err(), Some(FsError::DuplicateName));
    assert_eq!(count_free(&disk), TOTAL_BLOCKS - 3);
}

#[test]
fn store_file_without_room_changes_nothing() {
    let mut disk = VirtualDisk::new();
    let mut dir = Directory::new("root", None);
    for _ in 0..(TOTAL_BLOCKS - 1) {
        disk.allocate_block();
    }
    let big = vec![1u8; BLOCK_SIZE + 1];
    assert_eq!(store_file(&mut disk, &mut dir, "big", &big, 0).err(), Some(FsError::OutOfSpace));
    assert_eq!(count_free(&disk), 1);
    assert!(!dir.has_entry("big"));
    let small = vec![1u8; BLOCK_SIZE];
    assert_eq!(store_file(&mut disk, &mut dir, "small", &small, 0).unwrap().blocks, vec![TOTAL_BLOCKS - 1]);
}

#[test]
fn remove_file_frees_its_blocks() {
    let mut disk = VirtualDisk::new();
    let mut dir = Directory::new("root", None);
    let inode = store_file(&mut disk, &mut dir, "f", &[3u8; 1500], 0).unwrap();
    assert_eq!(inode.blocks, vec![0, 1, 2]);
    assert_eq!(remove_file(&mut disk, &mut dir, "g", &inode), Err(FsError::NotFound));
    assert_eq!(count_free(&disk), TOTAL_BLOCKS - 3);
    assert_eq!(remove_file(&mut disk, &mut dir, "f", &inode), Ok(()));
    assert_eq!(count_free(&disk), TOTAL_BLOCKS);
    assert!(dir.get_entry("f").is_none());
}

#[test]
fn end_to_end_mkdir_create_remove() {
    let mut s = Session::new();
    assert_eq!(s.mkdir("docs"), Ok(0));
    let listing = s.current().entry_list();
    assert_eq!(listing.len(), 1);
    assert_eq!(listing[0].name, "docs");
    assert!(listing[0].is_dir);

    let content = vec![b'q'; BLOCK_SIZE + 10];
    let id = s.create("a.txt", &content).unwrap();
    let inode = s.inodes.iter().find(|i| i.id == id).unwrap();
    assert_eq!(inode.size, BLOCK_SIZE + 10);
    assert_eq!(inode.blocks.len(), 2);
    assert_eq!(count_free(&s.disk), TOTAL_BLOCKS - 2);

    assert_eq!(s.rm("a.txt"), Ok(()));
    assert!(s.current().get_entry("a.txt").is_none());
    assert_eq!(count_free(&s.disk), TOTAL_BLOCKS);
    assert_eq!(s.rm("a.txt"), Err(FsError::NotFound));
    assert_eq!(s.rm("docs"), Err(FsError::IsADirectory));
}

#[test]
fn session_mkdir_duplicate_is_refused() {
    let mut s = Session::new();
    s.mkdir("docs").unwrap();
    assert_eq!(s.mkdir("docs"), Err(FsError::DuplicateName));
    assert_eq!(s.create("docs", b"x"), Err(FsError::DuplicateName));
}

#[test]
fn cd_and_pwd_follow_the_stack() {
    let mut s = Session::new();
    assert_eq!(s.pwd(), "/root");
    assert_eq!(s.cd(".."), Ok(CdMove::AtRoot));
    assert_eq!(s.pwd(), "/root");
    s.mkdir("docs").unwrap();
    s.create("f", b"hi").unwrap();
    assert_eq!(s.cd("f"), Err(FsError::NotADirectory));
    assert_eq!(s.cd("nope"), Err(FsError::NotFound));
    assert_eq!(s.cd("docs"), Ok(CdMove::Down));
    assert_eq!(s.pwd(), "/root/docs");
    assert_eq!(s.current().parent, Some(114 + 111 + 111 + 116));
    assert!(s.current().entry_list().is_empty());
    assert_eq!(s.cd(".."), Ok(CdMove::Up));
    assert_eq!(s.pwd(), "/root");
    assert_eq!(s.stack.len(), 1);
}
