use rustfs::disk::{VirtualDisk, BLOCK_SIZE, DISK_BYTES, TOTAL_BLOCKS};

#[test]
fn new_disk_is_zeroed_and_free() {
    let d = VirtualDisk::new();
    assert_eq!(d.data.len(), TOTAL_BLOCKS);
    assert_eq!(d.free_blocks.len(), TOTAL_BLOCKS);
    assert!(d.free_blocks.iter().all(|f| *f));
    for i in 0..TOTAL_BLOCKS {
        assert_eq!(d.read_block(i).len(), BLOCK_SIZE);
        assert!(d.read_block(i).iter().all(|b| *b == 0));
    }
}

#[test]
fn allocation_is_first_fit_in_ascending_order() {
    let mut d = VirtualDisk::new();
    assert_eq!(d.allocate_block(), Some(0));
    assert_eq!(d.allocate_block(), Some(1));
    assert_eq!(d.allocate_block(), Some(2));
    assert!(!d.free_blocks[0] && !d.free_blocks[1] && !d.free_blocks[2]);
    assert!(d.free_blocks[3]);
}

#[test]
fn freed_block_is_reused_first() {
    let mut d = VirtualDisk::new();
    for _ in 0..5 {
        d.allocate_block();
    }
    d.free_block(1);
    d.free_block(3);
    assert_eq!(d.allocate_block(), Some(1));
    assert_eq!(d.allocate_block(), Some(3));
    assert_eq!(d.allocate_block(), Some(5));
}

#[test]
fn allocation_never_repeats_a_live_index() {
    let mut d = VirtualDisk::new();
    let mut live: Vec<usize> = Vec::new();
    for step in 0..250usize {
        if step % 3 == 2 && !live.is_empty() {
            let idx = live.remove(step % live.len());
            d.free_block(idx);
        } else if let Some(i) = d.allocate_block() {
            assert!(!live.contains(&i));
            let lowest = (0..TOTAL_BLOCKS).find(|k| !live.contains(k)).unwrap();
            assert_eq!(i, lowest);
            live.push(i);
        }
    }
}

#[test]
fn allocation_runs_out_after_total_blocks() {
    let mut d = VirtualDisk::new();
    for i in 0..TOTAL_BLOCKS {
        assert_eq!(d.allocate_block(), Some(i));
    }
    assert_eq!(d.allocate_block(), None);
    assert!(d.free_blocks.iter().all(|f| !*f));
}

#[test]
fn short_write_then_read_pads_with_prior_content() {
    let mut d = VirtualDisk::new();
    d.write_block(4, &[7u8; 20]);
    d.write_block(4, b"hello");
    let block = d.read_block(4);
    assert_eq!(block.len(), BLOCK_SIZE);
    assert_eq!(&block[..5], b"hello");
    assert_eq!(&block[5..20], &[7u8; 15]);
    assert!(block[20..].iter().all(|b| *b == 0));
}

#[test]
fn long_write_is_truncated_to_block() {
    let mut d = VirtualDisk::new();
    let bytes: Vec<u8> = (0..(BLOCK_SIZE + 10)).map(|i| (i % 251) as u8).collect();
    d.write_block(9, &bytes);
    assert_eq!(d.read_block(9), &bytes[..BLOCK_SIZE]);
    assert!(d.read_block(10).iter().all(|b| *b == 0));
}

#[test]
fn image_layout_is_blocks_back_to_back() {
    let mut d = VirtualDisk::new();
    d.write_block(0, b"first");
    d.write_block(2, b"third");
    let image = d.to_image();
    assert_eq!(image.len(), TOTAL_BLOCKS * BLOCK_SIZE);
    assert_eq!(image.len(), DISK_BYTES);
    assert_eq!(&image[..5], b"first");
    assert_eq!(&image[2 * BLOCK_SIZE..2 * BLOCK_SIZE + 5], b"third");
    assert!(image[BLOCK_SIZE..2 * BLOCK_SIZE].iter().all(|b| *b == 0));
}

#[test]
fn image_round_trip_keeps_contents_but_frees_all_blocks() {
    let mut d = VirtualDisk::new();
    for i in 0..TOTAL_BLOCKS {
        let b = d.allocate_block().unwrap();
        d.write_block(b, &[(i % 256) as u8; 3]);
    }
    let back = VirtualDisk::from_image(&d.to_image()).unwrap();
    for i in 0..TOTAL_BLOCKS {
        assert_eq!(back.read_block(i), d.read_block(i));
    }
    assert!(back.free_blocks.iter().all(|f| *f));
}

#[test]
fn short_image_is_refused() {
    let image = vec![1u8; DISK_BYTES - 1];
    assert!(VirtualDisk::from_image(&image).is_none());
}

#[test]
fn longer_image_uses_its_prefix() {
    let mut image = vec![5u8; DISK_BYTES + 3];
    image[DISK_BYTES - 1] = 9;
    let d = VirtualDisk::from_image(&image).unwrap();
    assert_eq!(d.read_block(TOTAL_BLOCKS - 1)[BLOCK_SIZE - 1], 9);
    assert_eq!(d.read_block(0)[0], 5);
}
