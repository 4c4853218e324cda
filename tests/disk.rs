use vbox::disk::{Disk, FileDisk, RamDisk};

#[test]
fn test_ram_disk() {
    let mut disk = RamDisk::new();
    let block_id = disk.allocate_block();
    disk.write_block(block_id, b"test data");
    let data = disk.read_block(block_id).unwrap();
    assert_eq!(data, b"test data");
    disk.free_block(block_id);
    assert!(disk.read_block(block_id).is_none());
}

#[test]
fn allocation_is_monotonic_from_zero() {
    let mut disk = RamDisk::new();
    let ids: Vec<u64> = (0..5).map(|_| disk.allocate_block()).collect();
    assert_eq!(ids, vec![0, 1, 2, 3, 4]);
    disk.clear_all();
    assert_eq!(disk.allocate_block(), 0);
}

#[test]
fn write_overwrites_and_counts() {
    let mut disk = RamDisk::new();
    let a = disk.allocate_block();
    let b = disk.allocate_block();
    disk.write_block(a, b"abc");
    disk.write_block(b, b"de");
    disk.write_block(a, b"x");
    assert_eq!(disk.read_block(a).unwrap(), b"x");
    assert_eq!(disk.get_allocated_blocks(), 2);
    assert_eq!(disk.get_total_size(), 3);
    assert!(disk.read_block(9).is_none());
    disk.clear_all();
    assert_eq!(disk.get_allocated_blocks(), 0);
    assert_eq!(disk.get_total_size(), 0);
}

#[test]
fn image_round_trip() {
    let mut disk = FileDisk::empty("disk.bin");
    let block_id = disk.allocate_block();
    disk.write_block(block_id, b"Hello, persistent world!");
    let other = disk.allocate_block();
    disk.write_block(other, b"second");
    let image = disk.image();
    let mut loaded = FileDisk::load("disk.bin", &image);
    assert_eq!(loaded.read_block(block_id).unwrap(), b"Hello, persistent world!");
    assert_eq!(loaded.read_block(other).unwrap(), b"second");
    assert_eq!(loaded.get_allocated_blocks(), 2);
    assert_eq!(loaded.file_path(), "disk.bin");
    assert_eq!(loaded.allocate_block(), 2);
}

#[test]
fn image_ends_with_checksum_of_encoding() {
    let mut disk = FileDisk::empty("d");
    let id = disk.allocate_block();
    disk.write_block(id, b"X");
    let image = disk.image();
    // u64 length, then (u64 id, u64 length, bytes), then an 8-byte checksum
    assert_eq!(image.len(), 8 + 8 + 8 + 1 + 8);
    assert_eq!(&image[..8], &1u64.to_le_bytes());
    assert_eq!(image[24], b'X');
}

#[test]
fn cursor_follows_highest_loaded_id() {
    let mut disk = FileDisk::empty("d");
    disk.write_block(41, b"a");
    disk.write_block(7, b"b");
    let image = disk.image();
    let mut loaded = FileDisk::load("d", &image);
    assert_eq!(loaded.allocate_block(), 42);
}

#[test]
fn flipped_checksum_gives_empty_disk() {
    let mut disk = FileDisk::empty("d");
    let id = disk.allocate_block();
    disk.write_block(id, b"data");
    let mut image = disk.image();
    let last = image.len() - 1;
    image[last] ^= 0xff;
    let mut loaded = FileDisk::load("d", &image);
    assert_eq!(loaded.get_allocated_blocks(), 0);
    assert!(loaded.read_block(id).is_none());
    assert_eq!(loaded.allocate_block(), 0);
}

#[test]
fn flipped_body_byte_gives_empty_disk() {
    let mut disk = FileDisk::empty("d");
    let id = disk.allocate_block();
    disk.write_block(id, b"data");
    let mut image = disk.image();
    image[20] ^= 0x01;
    let loaded = FileDisk::load("d", &image);
    assert_eq!(loaded.get_allocated_blocks(), 0);
}

#[test]
fn short_or_empty_image_gives_empty_disk() {
    let loaded = FileDisk::load("d", &[1, 2, 3]);
    assert_eq!(loaded.get_allocated_blocks(), 0);
    let loaded = FileDisk::load("d", &[]);
    assert_eq!(loaded.get_total_size(), 0);
}

#[test]
fn empty_disk_image_loads_empty() {
    let disk = FileDisk::empty("d");
    let image = disk.image();
    let mut loaded = FileDisk::load("d", &image);
    assert_eq!(loaded.get_allocated_blocks(), 0);
    assert_eq!(loaded.allocate_block(), 0);
}

#[test]
fn fresh_disks_hold_nothing() {
    let mut disk = RamDisk::new();
    assert_eq!(disk.get_allocated_blocks(), 0);
    assert_eq!(disk.get_total_size(), 0);
    assert_eq!(
        (disk.allocate_block(), disk.allocate_block(), disk.allocate_block()),
        (0, 1, 2)
    );
    let file_disk = FileDisk::empty("f");
    assert_eq!(file_disk.get_total_size(), 0);
    assert_eq!(file_disk.next_block_id(), 0);
}

#[test]
fn high_ids_reload() {
    let mut disk = FileDisk::empty("d");
    disk.write_block(u64::MAX - 1, b"near the top");
    let loaded = FileDisk::load("d", &disk.image());
    assert_eq!(loaded.read_block(u64::MAX - 1).unwrap(), b"near the top");
    assert_eq!(loaded.next_block_id(), u64::MAX);
    let mut top = FileDisk::empty("d");
    top.write_block(u64::MAX, b"top");
    let loaded = FileDisk::load("d", &top.image());
    assert_eq!(loaded.get_allocated_blocks(), 0);
    assert_eq!(loaded.next_block_id(), 0);
}

#[test]
fn undecodable_body_gives_empty_disk() {
    let body: Vec<u8> = vec![1, 2, 3];
    let sum = vbox::image::checksum(&body);
    let mut image = body.clone();
    image.extend_from_slice(&sum.to_le_bytes());
    assert!(vbox::image::image_is_intact(&image));
    let loaded = FileDisk::load("d", &image);
    assert_eq!(loaded.get_allocated_blocks(), 0);
    assert_eq!(loaded.get_total_size(), 0);
    assert_eq!(loaded.next_block_id(), 0);
}

#[test]
fn checksum_is_fnv1a() {
    assert_eq!(vbox::image::checksum(b""), 0xcbf29ce484222325);
    assert_eq!(vbox::image::checksum(b"a"), 0xaf63dc4c8601ec8c);
    assert_eq!(vbox::image::checksum(b"foobar"), 0x85944171f73967e8);
}
