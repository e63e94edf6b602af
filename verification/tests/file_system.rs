use std::cell::Cell;
use std::rc::Rc;

use rcore_kernel::easy_fs::bitmap::Bitmap;
use rcore_kernel::easy_fs::block_cache::{BlockCache, BlockCacheManager};
use rcore_kernel::easy_fs::block_dev::{BlockDevice, BLOCK_SZ};
use rcore_kernel::easy_fs::efs::EasyFileSystem;
use rcore_kernel::easy_fs::layout::{
    DirEntry, DiskInode, DiskInodeType, SuperBlock, MAX_FILE_SIZE, NAME_LENGTH_LIMIT,
};
use rcore_kernel::easy_fs::vfs::{same_text, Inode};
use rcore_kernel::fs::apps::{list_apps, list_apps_sorted, sort};
use rcore_kernel::fs::guard::{
    is_creatable, is_good_name, is_linkable, is_writable, takes_entry,
};
use rcore_kernel::fs::inode::{
    link_file, open_file, unlink_file, OSInode, OpenFlags, OPEN_CREATE, OPEN_RDONLY, OPEN_RDWR,
    OPEN_TRUNC, OPEN_WRONLY,
};

struct Disk {
    blocks: Vec<[u8; BLOCK_SZ]>,
}

impl Disk {
    fn new(n: usize) -> Disk {
        Disk { blocks: vec![[0u8; BLOCK_SZ]; n] }
    }
}

impl BlockDevice for Disk {
    fn read_block(&self, block_id: usize, buf: &mut [u8; BLOCK_SZ]) {
        *buf = self.blocks[block_id];
    }

    fn write_block(&mut self, block_id: usize, buf: &[u8; BLOCK_SZ]) {
        self.blocks[block_id] = *buf;
    }
}

fn fresh() -> EasyFileSystem<Disk> {
    EasyFileSystem::create(Disk::new(4096), 4096, 1)
}

fn pattern(n: usize) -> Vec<u8> {
    (0..n).map(|i| (i * 31 + i / 256) as u8).collect()
}

#[test]
fn a_new_file_system_has_an_empty_root() {
    let mut fs = fresh();
    let root = fs.root_inode();
    assert_eq!(root.stat(&mut fs), (1, 1));
    assert!(root.ls(&mut fs).is_empty());
    assert!(root.find("a", &mut fs).is_none());
    assert_eq!(root.get_inode_id(fs.inode_area_start_block as usize), 0);
}

#[test]
fn areas_lie_one_behind_the_other() {
    let fs = fresh();
    assert_eq!(fs.inode_area_start_block, 2);
    assert_eq!(fs.data_area_start_block, 2 + 1024 + 1);
    assert_eq!(fs.data_area_blocks, 4096 - 1 - 1 - 1024 - 1);
    assert_eq!(fs.get_disk_inode_pos(0), (2, 0));
    assert_eq!(fs.get_disk_inode_pos(5), (3, 128));
}

#[test]
fn read_gives_what_was_written() {
    let mut fs = fresh();
    let root = fs.root_inode();
    let file = root.create("file", &mut fs).unwrap();
    // direct blocks, blocks of the first index, blocks of the second index
    for n in [1usize, 511, 512, 513, 28 * 512, 28 * 512 + 1, 156 * 512, 156 * 512 + 700, 400_000] {
        file.clear(&mut fs);
        let data = pattern(n);
        assert_eq!(file.write_at(0, &data, &mut fs), n);
        let mut back = vec![0u8; n + 10];
        assert_eq!(file.read_at(0, &mut back, &mut fs), n);
        assert_eq!(back[..n], data[..]);
        assert_eq!(back[n..], [0u8; 10]);
    }
}

#[test]
fn a_write_behind_the_end_leaves_zeros() {
    let mut fs = fresh();
    let root = fs.root_inode();
    let file = root.create("file", &mut fs).unwrap();
    assert_eq!(file.write_at(1000, b"xyz", &mut fs), 3);
    let mut back = vec![7u8; 2000];
    assert_eq!(file.read_at(0, &mut back, &mut fs), 1003);
    assert!(back[..1000].iter().all(|b| *b == 0));
    assert_eq!(&back[1000..1003], b"xyz");
    assert_eq!(file.read_at(1003, &mut back, &mut fs), 0);
    assert_eq!(file.read_at(5000, &mut back, &mut fs), 0);
}

#[test]
fn a_write_keeps_the_rest() {
    let mut fs = fresh();
    let root = fs.root_inode();
    let file = root.create("file", &mut fs).unwrap();
    let other = root.create("other", &mut fs).unwrap();
    let data = pattern(3000);
    file.write_at(0, &data, &mut fs);
    other.write_at(0, b"other", &mut fs);
    file.write_at(700, &[0xee; 600], &mut fs);
    file.write_at(700, &[0xff; 600], &mut fs);
    let mut back = vec![0u8; 3000];
    assert_eq!(file.read_at(0, &mut back, &mut fs), 3000);
    assert_eq!(back[..700], data[..700]);
    assert_eq!(back[700..1300], [0xff; 600]);
    assert_eq!(back[1300..], data[1300..]);
    let mut buf = [0u8; 9];
    assert_eq!(other.read_at(0, &mut buf, &mut fs), 5);
    assert_eq!(&buf[..5], b"other");
}

#[test]
fn files_survive_a_restart() {
    let mut fs = fresh();
    let root = fs.root_inode();
    let file = root.create("kept", &mut fs).unwrap();
    file.write_at(0, b"something", &mut fs);
    fs.cache.block_cache_sync_all();
    let device = fs.cache.into_device();
    let mut fs = EasyFileSystem::open(device);
    let root = fs.root_inode();
    assert_eq!(root.ls(&mut fs), vec!["kept".to_string()]);
    let file = root.find("kept", &mut fs).unwrap();
    let mut buf = [0u8; 20];
    assert_eq!(file.read_at(0, &mut buf, &mut fs), 9);
    assert_eq!(&buf[..9], b"something");
}

#[test]
fn names_are_found_until_they_are_taken_away() {
    let mut fs = fresh();
    let root = fs.root_inode();
    assert!(root.create("a", &mut fs).is_some());
    assert!(root.create("b", &mut fs).is_some());
    assert!(root.create("a", &mut fs).is_none());
    assert_eq!(root.ls(&mut fs), vec!["a".to_string(), "b".to_string()]);
    assert!(root.find("a", &mut fs).is_some());
    assert!(root.unlink("a", &mut fs).is_some());
    assert!(root.find("a", &mut fs).is_none());
    assert!(root.find("b", &mut fs).is_some());
    assert!(root.unlink("a", &mut fs).is_none());
    // the last entry takes the place of the one that is gone
    root.create("c", &mut fs).unwrap();
    root.create("d", &mut fs).unwrap();
    root.unlink("b", &mut fs).unwrap();
    assert_eq!(root.ls(&mut fs), vec!["d".to_string(), "c".to_string()]);
}

#[test]
fn links_share_a_file() {
    let mut fs = fresh();
    let root = fs.root_inode();
    let file = root.create("one", &mut fs).unwrap();
    file.write_at(0, b"shared", &mut fs);
    assert_eq!(file.stat(&mut fs), (2, 1));
    assert!(root.link("one", "two", &mut fs).is_some());
    assert!(root.link("none", "three", &mut fs).is_none());
    assert!(root.link("one", "two", &mut fs).is_none());
    let two = root.find("two", &mut fs).unwrap();
    assert_eq!(two.stat(&mut fs), (2, 2));
    let area = fs.inode_area_start_block as usize;
    assert_eq!(two.get_inode_id(area), file.get_inode_id(area));
    assert!(root.unlink("one", &mut fs).is_some());
    let mut buf = [0u8; 6];
    assert_eq!(two.read_at(0, &mut buf, &mut fs), 6);
    assert_eq!(&buf, b"shared");
    assert_eq!(two.stat(&mut fs), (2, 1));
}

#[test]
fn unlink_undoes_create() {
    let mut fs = fresh();
    let root = fs.root_inode();
    let area = fs.inode_area_start_block as usize;
    let file = root.create("gone", &mut fs).unwrap();
    let id = file.get_inode_id(area);
    let free = fs.free_block_count();
    file.write_at(0, &pattern(20000), &mut fs);
    // 40 blocks of data and one of numbers
    assert_eq!(fs.free_block_count(), free - 41);
    root.unlink("gone", &mut fs).unwrap();
    assert_eq!(fs.free_block_count(), free);
    let again = root.create("new", &mut fs).unwrap();
    assert_eq!(again.get_inode_id(area), id);
    let mut buf = [0u8; 1];
    assert_eq!(again.read_at(0, &mut buf, &mut fs), 0);
}

#[test]
fn bits_are_handed_out_from_the_first_on() {
    let mut cache = BlockCacheManager::new(Disk::new(8));
    let bitmap = Bitmap::new(2, 2);
    assert_eq!(bitmap.maximum(), 8192);
    for i in 0..70 {
        assert_eq!(bitmap.allocate(&mut cache), Some(i));
    }
    bitmap.dealloc(&mut cache, 3);
    bitmap.dealloc(&mut cache, 66);
    assert!(!bitmap.is_taken(&mut cache, 66));
    assert!(bitmap.is_taken(&mut cache, 69));
    assert!(!bitmap.is_taken(&mut cache, 70));
    assert_eq!(bitmap.allocate(&mut cache), Some(3));
    assert_eq!(bitmap.allocate(&mut cache), Some(66));
    assert_eq!(bitmap.allocate(&mut cache), Some(70));
    for i in 71..8192 {
        assert_eq!(bitmap.allocate(&mut cache), Some(i));
    }
    assert_eq!(bitmap.allocate(&mut cache), None);
}

#[test]
fn the_cache_writes_back_what_it_drops() {
    let mut cache = BlockCacheManager::new(Disk::new(64));
    for b in 0..40usize {
        let block = [b as u8 + 1; BLOCK_SZ];
        cache.store(b, 0, &block);
    }
    for b in 0..40usize {
        let block: [u8; BLOCK_SZ] = cache.load(b, 0);
        assert_eq!(block, [b as u8 + 1; BLOCK_SZ]);
    }
    cache.block_cache_sync_all();
    let disk = cache.into_device();
    for b in 0..40usize {
        assert_eq!(disk.blocks[b], [b as u8 + 1; BLOCK_SZ]);
    }
}

#[test]
fn blocks_are_counted_with_their_indexes() {
    assert_eq!(DiskInode::total_blocks(0), 0);
    assert_eq!(DiskInode::total_blocks(28 * 512), 28);
    assert_eq!(DiskInode::total_blocks(28 * 512 + 1), 30);
    assert_eq!(DiskInode::total_blocks(156 * 512), 157);
    assert_eq!(DiskInode::total_blocks(156 * 512 + 1), 160);
    assert_eq!(MAX_FILE_SIZE, (28 + 128 + 128 * 128) * 512);
}

#[test]
fn directory_entries_keep_their_names() {
    let e = DirEntry::new("a_name", 7);
    assert_eq!(e.name(), "a_name");
    assert_eq!(e.inode_id(), 7);
    let bytes = e.as_bytes();
    assert_eq!(&bytes[..7], b"a_name\0");
    assert_eq!(bytes[28..], [7, 0, 0, 0]);
    let back = DirEntry::from_bytes(&bytes);
    assert_eq!(back.name(), "a_name");
    assert_eq!(back.inode_id(), 7);
    assert_eq!(DirEntry::empty().name(), "");
    // a character of several bytes
    assert_eq!(DirEntry::new("h\u{e9}", 1).name(), "h\u{e9}");
    // a name of all the bytes that there are
    assert_eq!(NAME_LENGTH_LIMIT, 27);
    let long = "abcdefghijklmnopqrstuvwxyz0";
    let e = DirEntry::new(long, 2);
    assert_eq!(e.name(), long);
    assert_eq!(e.as_bytes()[27], 0);
}

#[test]
fn a_super_block_knows_its_magic() {
    let mut block = SuperBlock::zeroed();
    assert!(!block.is_valid());
    block.initialize(10, 1, 2, 3, 4);
    assert!(block.is_valid());
    assert_eq!(block.magic, 0x3b800001);
    assert_eq!(block.data_area_blocks, 4);
}

#[test]
fn texts_are_compared_byte_by_byte() {
    assert!(same_text("abc", "abc"));
    assert!(!same_text("abc", "abd"));
    assert!(!same_text("abc", "ab"));
}

#[test]
fn open_flags_say_what_can_be_done() {
    assert!(OpenFlags::from_bits(0x603).is_some());
    assert!(OpenFlags::from_bits(4).is_none());
    assert!(OpenFlags::from_bits(0x800).is_none());
    let access = |bits: u32| OpenFlags::from_bits(bits).unwrap().read_write();
    assert_eq!(access(OPEN_RDONLY), (true, false));
    assert_eq!(access(OPEN_WRONLY), (false, true));
    assert_eq!(access(OPEN_RDWR), (true, true));
    assert_eq!(access(OPEN_CREATE), (true, true));
    assert_eq!(access(OPEN_CREATE | OPEN_WRONLY), (false, true));
}

#[test]
fn open_makes_and_empties_files() {
    let mut fs = fresh();
    let none = OpenFlags { bits: OPEN_RDONLY };
    assert!(open_file("f", none, &mut fs).is_none());
    let file = open_file("f", OpenFlags { bits: OPEN_CREATE | OPEN_WRONLY }, &mut fs).unwrap();
    assert!(!file.readable && file.writable);
    assert_eq!(file.offset, 0);
    file.inode.write_at(0, b"0123456789", &mut fs);
    let mut again: OSInode = open_file("f", none, &mut fs).unwrap();
    assert_eq!(again.read_all(&mut fs), b"0123456789".to_vec());
    assert_eq!(again.offset, 10);
    assert!(again.read_all(&mut fs).is_empty());
    let mut empty = open_file("f", OpenFlags { bits: OPEN_TRUNC }, &mut fs).unwrap();
    assert!(empty.read_all(&mut fs).is_empty());
    empty.inode.write_at(0, b"x", &mut fs);
    let mut empty = open_file("f", OpenFlags { bits: OPEN_CREATE }, &mut fs).unwrap();
    assert!(empty.read_all(&mut fs).is_empty());
}

#[test]
fn read_all_crosses_blocks() {
    let mut fs = fresh();
    let mut file = open_file("f", OpenFlags { bits: OPEN_CREATE | OPEN_RDWR }, &mut fs).unwrap();
    let data = pattern(100_001);
    file.inode.write_at(0, &data, &mut fs);
    assert_eq!(file.read_all(&mut fs), data);
}

#[test]
fn names_can_be_linked_and_taken_away() {
    let mut fs = fresh();
    open_file("a", OpenFlags { bits: OPEN_CREATE }, &mut fs).unwrap();
    assert_eq!(link_file("a", "a", &mut fs), None);
    assert_eq!(link_file("x", "b", &mut fs), None);
    assert_eq!(link_file("a", "b", &mut fs), Some(()));
    assert_eq!(unlink_file("a", &mut fs), Some(()));
    assert_eq!(unlink_file("a", &mut fs), None);
    assert_eq!(list_apps(&mut fs), vec!["b".to_string()]);
}

#[test]
fn stat_tells_directories_from_files() {
    let mut fs = fresh();
    let root: Inode = fs.root_inode();
    let dir = OSInode::new(true, false, root);
    let stat = dir.get_stat(&mut fs).unwrap();
    assert_eq!((stat.dev, stat.ino, stat.mode.bits, stat.nlink), (0, 0, 0o040000, 1));
    let file = open_file("a", OpenFlags { bits: OPEN_CREATE }, &mut fs).unwrap();
    link_file("a", "b", &mut fs);
    let stat = file.get_stat(&mut fs).unwrap();
    assert_eq!((stat.mode.bits, stat.nlink), (0o100000, 2));
    let bytes = stat.as_bytes();
    assert_eq!(bytes.len(), 80);
    assert_eq!(bytes[16..24], [0, 0x80, 0, 0, 2, 0, 0, 0]);
    assert_eq!(stat.ino, 1);
    assert_eq!(bytes[8], 1);
    assert!(bytes[..8].iter().chain(&bytes[9..16]).chain(&bytes[24..]).all(|b| *b == 0));
    let second = open_file("b", OpenFlags { bits: OPEN_RDONLY }, &mut fs).unwrap();
    assert_eq!(second.get_stat(&mut fs).unwrap().ino, 1);
    let other = open_file("c", OpenFlags { bits: OPEN_CREATE }, &mut fs).unwrap();
    assert_eq!(other.get_stat(&mut fs).unwrap().ino, 2);
}

#[test]
fn apps_are_listed_in_order() {
    let mut fs = fresh();
    for name in ["b", "ab", "a", "c", "B"] {
        open_file(name, OpenFlags { bits: OPEN_CREATE }, &mut fs).unwrap();
    }
    assert_eq!(list_apps(&mut fs), ["b", "ab", "a", "c", "B"].map(String::from).to_vec());
    assert_eq!(list_apps_sorted(&mut fs), ["B", "a", "ab", "b", "c"].map(String::from).to_vec());
    let twice = sort(["x", "", "x", "xa"].map(String::from).to_vec());
    assert_eq!(twice, ["", "x", "x", "xa"].map(String::from).to_vec());
}

#[test]
fn room_is_tested_before_it_is_taken() {
    let mut fs = fresh();
    let root = fs.root_inode();
    assert!(fs.has_free_inode());
    let free = fs.free_block_count();
    let file = root.create("file", &mut fs).unwrap();
    assert_eq!((root.size(&mut fs), file.size(&mut fs)), (32, 0));
    // the first entry of the root takes a block
    assert_eq!(fs.free_block_count(), free - 1);
    file.write_at(0, &pattern(513), &mut fs);
    assert_eq!(file.size(&mut fs), 513);
    assert_eq!(fs.free_block_count(), free - 3);
    let (longest, too_long) = ("a".repeat(27), "a".repeat(28));
    assert!(is_good_name("abc"));
    assert!(is_good_name(&longest));
    assert!(!is_good_name(&too_long));
    assert!(takes_entry(&mut fs));
    assert!(is_creatable("other", &mut fs));
    assert!(!is_creatable(&too_long, &mut fs));
    assert!(is_linkable("file", "second", &mut fs));
    assert!(!is_linkable("file", &too_long, &mut fs));
    assert!(is_linkable("none", &too_long, &mut fs));
    let open = open_file("file", OpenFlags { bits: OPEN_RDWR }, &mut fs).unwrap();
    let left = fs.free_block_count() as u64;
    assert!(is_writable(&open, 1024, &mut fs));
    assert!(!is_writable(&open, (left + 2) * 512 + 1, &mut fs));
    assert!(unlink_file("file", &mut fs).is_some());
    assert!(is_writable(&open, 1024, &mut fs));
    assert!(!is_writable(&open, (left + 4) * 512 + 1, &mut fs));
}

#[test]
fn an_open_file_outlives_its_names() {
    let mut fs = fresh();
    let root = fs.root_inode();
    let file = root.create("file", &mut fs).unwrap();
    let other = root.create("other", &mut fs).unwrap();
    file.write_at(0, b"text", &mut fs);
    other.write_at(0, b"rest", &mut fs);
    assert!(unlink_file("file", &mut fs).is_some());
    assert_eq!((file.size(&mut fs), file.stat(&mut fs)), (0, (2, 0)));
    let mut buf = [7u8; 4];
    assert_eq!(file.read_at(0, &mut buf, &mut fs), 0);
    assert_eq!(other.read_at(0, &mut buf, &mut fs), 4);
    assert_eq!(&buf, b"rest");
    // what is written now is there as long as nobody else gets the inode
    assert_eq!(file.write_at(0, b"more", &mut fs), 4);
    assert_eq!(file.read_at(0, &mut buf, &mut fs), 4);
    assert_eq!(&buf, b"more");
    assert!(root.find("file", &mut fs).is_none());
    let third = root.create("third", &mut fs).unwrap();
    let start = fs.inode_area_start_block as usize;
    assert_eq!(third.get_inode_id(start), file.get_inode_id(start));
    assert_eq!(file.size(&mut fs), 0);
}

#[test]
fn unlink_undoes_link() {
    let mut fs = fresh();
    let root = fs.root_inode();
    let file = root.create("file", &mut fs).unwrap();
    file.write_at(0, b"text", &mut fs);
    let free = fs.free_block_count();
    assert!(link_file("file", "second", &mut fs).is_some());
    assert!(unlink_file("second", &mut fs).is_some());
    assert_eq!(root.ls(&mut fs), vec!["file"]);
    assert_eq!(file.stat(&mut fs).1, 1);
    assert_eq!(file.size(&mut fs), 4);
    assert_eq!(fs.free_block_count(), free);
}

#[test]
fn a_cached_block_is_changed_in_place() {
    let mut disk = Disk::new(4);
    disk.blocks[2] = [9; BLOCK_SZ];
    let mut cache = BlockCache::new(2, &disk);
    let before = cache.modify(0, |block: &mut [u8; BLOCK_SZ]| {
        let first = block[0];
        block[1] = 5;
        first
    });
    assert_eq!(before, 9);
    assert_eq!(cache.read(0, |block: &[u8; BLOCK_SZ]| (block[0], block[1])), (9, 5));
    assert_eq!(disk.blocks[2][1], 9);
    cache.sync(&mut disk);
    assert_eq!((disk.blocks[2][0], disk.blocks[2][1], disk.blocks[2][2]), (9, 5, 9));
}

/// A disk that counts what is written.
struct Counter {
    writes: usize,
    last: [u8; BLOCK_SZ],
}

impl BlockDevice for Counter {
    fn read_block(&self, _block_id: usize, buf: &mut [u8; BLOCK_SZ]) {
        *buf = self.last;
    }

    fn write_block(&mut self, _block_id: usize, buf: &[u8; BLOCK_SZ]) {
        self.writes += 1;
        self.last = *buf;
    }
}

#[test]
fn a_block_is_written_only_when_it_was_handed_out_for_change() {
    let mut disk = Counter { writes: 0, last: [3; BLOCK_SZ] };
    let mut cache = BlockCache::new(0, &disk);
    cache.sync(&mut disk);
    let _ = cache.read(0, |block: &[u8; BLOCK_SZ]| block[0]);
    cache.sync(&mut disk);
    assert_eq!(disk.writes, 0);
    // handed out, though nothing is changed
    let block: [u8; BLOCK_SZ] = cache.get_mut(0);
    assert_eq!(block, [3; BLOCK_SZ]);
    cache.sync(&mut disk);
    assert_eq!((disk.writes, disk.last), (1, [3; BLOCK_SZ]));
    cache.sync(&mut disk);
    assert_eq!(disk.writes, 1);
    cache.modify(0, |block: &mut [u8; BLOCK_SZ]| block[7] = 8);
    cache.modify(0, |block: &mut [u8; BLOCK_SZ]| block[8] = 9);
    assert_eq!(disk.writes, 1);
    cache.sync(&mut disk);
    cache.sync(&mut disk);
    assert_eq!((disk.writes, disk.last[6], disk.last[7], disk.last[8]), (2, 3, 8, 9));
}

#[test]
fn clearing_gives_back_what_growing_took() {
    let mut cache = BlockCacheManager::new(Disk::new(400));
    let mut inode: DiskInode = cache.load(0, 0);
    inode.initialize(DiskInodeType::File);
    let mut next: u32 = 10;
    for size in [1u32, 10 * 512, 10 * 512, 28 * 512, 28 * 512 + 1, 156 * 512, 300 * 512] {
        let n = inode.blocks_num_needed(size);
        inode.increase_size(size, (next..next + n).collect(), &mut cache);
        next += n;
    }
    // 300 blocks of data, and four of numbers
    assert_eq!(next, 10 + 304);
    assert_eq!(inode.clear_size(&mut cache), (10..next).collect::<Vec<u32>>());
    assert_eq!(inode.data_blocks(), 0);
}

/// A disk that counts what is read and what is written.
struct Meter {
    blocks: Vec<[u8; BLOCK_SZ]>,
    reads: Rc<Cell<usize>>,
    writes: Rc<Cell<usize>>,
}

impl BlockDevice for Meter {
    fn read_block(&self, block_id: usize, buf: &mut [u8; BLOCK_SZ]) {
        self.reads.set(self.reads.get() + 1);
        *buf = self.blocks[block_id];
    }

    fn write_block(&mut self, block_id: usize, buf: &[u8; BLOCK_SZ]) {
        self.writes.set(self.writes.get() + 1);
        self.blocks[block_id] = *buf;
    }
}

#[test]
fn a_block_in_memory_needs_no_device() {
    let (reads, writes) = (Rc::new(Cell::new(0)), Rc::new(Cell::new(0)));
    let count = (reads.clone(), writes.clone());
    let counts = move || (count.0.get(), count.1.get());
    let blocks = vec![[6; BLOCK_SZ]; 64];
    let mut cache = BlockCacheManager::new(Meter { blocks, reads, writes });
    cache.get_block_cache(0);
    assert_eq!(counts(), (1, 0));
    cache.get_block_cache(0);
    assert_eq!(counts(), (1, 0));
    // the other places are filled, and then used again for blocks that were not changed
    for b in 1..40 {
        cache.get_block_cache(b);
        cache.release(b);
    }
    assert_eq!(counts(), (40, 0));
    // the one that is held has stayed
    cache.get_block_cache(0);
    assert_eq!(counts(), (40, 0));
    cache.block_cache_sync_all();
    assert_eq!(counts(), (40, 0));
    for _ in 0..3 {
        cache.release(0);
    }
    // a changed block is written when it leaves, and when all are written
    cache.store(50, 0, &[1u8; BLOCK_SZ]);
    assert_eq!(counts(), (41, 0));
    for b in 1..17 {
        let _: [u8; BLOCK_SZ] = cache.load(b, 0);
    }
    assert_eq!(counts(), (57, 1));
    cache.store(16, 0, &[2u8; BLOCK_SZ]);
    cache.block_cache_sync_all();
    cache.block_cache_sync_all();
    assert_eq!(counts(), (57, 2));
    let disk = cache.into_device();
    assert_eq!((disk.blocks[50][0], disk.blocks[16][0], disk.blocks[17][0]), (1, 2, 6));
    assert_eq!(counts(), (57, 2));
}

#[test]
fn growth_keeps_blocks_and_takes_new_ones() {
    let mut cache = BlockCacheManager::new(Disk::new(64));
    let mut inode: DiskInode = cache.load(0, 0);
    inode.initialize(DiskInodeType::Directory);
    inode.nlink = 3;
    inode.increase_size(27 * 512, (100..127).collect(), &mut cache);
    // the second of the new blocks is the index block; only that one has to be on the disk
    inode.increase_size(30 * 512, vec![5000, 40, 7000, 6000], &mut cache);
    let ids: Vec<u32> = (0..30).map(|i| inode.get_block_id(i, &mut cache)).collect();
    let mut expected: Vec<u32> = (100..127).collect();
    expected.extend([5000, 7000, 6000]);
    assert_eq!(ids, expected);
    assert_eq!((inode.size, inode.nlink, inode.is_dir()), (30 * 512, 3, true));
}

#[test]
fn inodes_are_files_or_directories() {
    let mut fs = fresh();
    let (block, offset) = fs.get_disk_inode_pos(0);
    let root: DiskInode = fs.cache.load(block as usize, offset);
    assert!(root.is_dir() && !root.is_file());
    fs.root_inode().create("file", &mut fs).unwrap();
    let (block, offset) = fs.get_disk_inode_pos(1);
    let file: DiskInode = fs.cache.load(block as usize, offset);
    assert!(file.is_file() && !file.is_dir());
}
