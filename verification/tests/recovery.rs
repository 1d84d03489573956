use pagewal::file_handler::{Error, FileHandler};
use pagewal::fs::{Mode, VolMan};
use pagewal::mem::{MemDir, MemError, MemVolMan};
use pagewal::page_list::PageList;

fn page(fill: u8) -> Vec<u8> {
    vec![fill; 4096]
}

fn open(vm: MemVolMan) -> FileHandler<MemVolMan> {
    let mut buf = page(0);
    match FileHandler::new_init(vm, MemDir {}, &mut buf) {
        Ok(fh) => fh,
        Err(e) => panic!("open failed: {:?}", e),
    }
}

fn put(fh: &mut FileHandler<MemVolMan>, page_num: u32, fill: u8) {
    let data = page(fill);
    fh.page_rw.as_mut().unwrap().write_page(page_num, &data).unwrap();
}

fn get(fh: &mut FileHandler<MemVolMan>, page_num: u32) -> Vec<u8> {
    let mut buf = page(0xEE);
    let n = fh.page_rw.as_mut().unwrap().read_page(page_num, &mut buf).unwrap();
    for b in buf.iter_mut().skip(n) {
        *b = 0;
    }
    buf
}

fn crash(fh: FileHandler<MemVolMan>) -> MemVolMan {
    let mut vm = fh.page_rw.unwrap().vm;
    vm.reboot();
    vm
}

fn plant(vm: &mut MemVolMan, name: &'static str, bytes: &[u8]) {
    let dir = MemDir {};
    let f = vm.open_file_in_dir(&dir, name, Mode::ReadWriteCreateOrTruncate).unwrap();
    vm.file_write(&f, bytes).unwrap();
    vm.file_close(f).unwrap();
}

fn journal_bytes(page_size: u32, records: &[(u32, u8)], trailer: bool) -> Vec<u8> {
    let mut j: Vec<u8> = Vec::new();
    j.extend_from_slice(b"WAL_FILE");
    j.extend_from_slice(&page_size.to_le_bytes());
    j.extend_from_slice(&(records.len() as u32).to_le_bytes());
    for (p, fill) in records {
        j.extend_from_slice(&p.to_le_bytes());
        j.extend_from_slice(&page(*fill));
    }
    if trailer {
        j.extend_from_slice(b"WAL_FILE_END");
    }
    j
}

#[test]
fn crash_after_finalize_rolls_back_fixed_pages_and_page_ten() {
    let mut fh = open(MemVolMan::new());
    let mut buf = page(0x55);
    fh.wal_begin_write(&mut buf).unwrap();
    fh.wal_append_page(10, &mut buf).unwrap();
    assert_eq!(buf, page(0));
    fh.wal_end_write().unwrap();
    for p in [0u32, 1, 2, 10] {
        put(&mut fh, p, 0xAB);
        assert_eq!(get(&mut fh, p), page(0xAB));
    }
    let vm = crash(fh);
    let mut fh = open(vm);
    for p in [0u32, 1, 2, 10] {
        assert_eq!(get(&mut fh, p), page(0));
    }
}

#[test]
fn crash_after_finalize_restores_every_saved_page() {
    let mut fh = open(MemVolMan::new());
    for p in 0u32..6 {
        put(&mut fh, p, 0x10 + p as u8);
    }
    let mut buf = page(0);
    fh.wal_begin_write(&mut buf).unwrap();
    fh.wal_append_pages_vec(&PageList::from_pages(&[3, 4, 3]), &mut buf).unwrap();
    fh.wal_append_page(5, &mut buf).unwrap();
    assert_eq!(buf, page(0x15));
    fh.wal_end_write().unwrap();
    for p in [0u32, 3, 4, 5] {
        put(&mut fh, p, 0xC0 + p as u8);
    }
    let vm = crash(fh);
    let mut fh = open(vm);
    for p in 0u32..6 {
        assert_eq!(get(&mut fh, p), page(0x10 + p as u8));
    }
}

#[test]
fn later_record_of_a_page_wins_on_replay() {
    let mut vm = MemVolMan::new();
    plant(&mut vm, "DB_WAL", &journal_bytes(4096, &[(1, 0x11), (2, 0x22), (1, 0x33)], true));
    let mut fh = open(vm);
    assert_eq!(get(&mut fh, 1), page(0x33));
    assert_eq!(get(&mut fh, 2), page(0x22));
    assert_eq!(get(&mut fh, 0), page(0));
}

#[test]
fn records_behind_the_count_are_not_replayed() {
    let mut vm = MemVolMan::new();
    let mut j = journal_bytes(4096, &[(1, 0x11), (2, 0x22)], true);
    j[12] = 1;
    plant(&mut vm, "DB_WAL", &j);
    let mut fh = open(vm);
    assert_eq!(get(&mut fh, 1), page(0x11));
    assert_eq!(get(&mut fh, 2), page(0));
}

#[test]
fn neutralized_journal_is_not_replayed() {
    let mut fh = open(MemVolMan::new());
    put(&mut fh, 7, 0x01);
    let mut buf = page(0);
    fh.wal_begin_write(&mut buf).unwrap();
    fh.wal_append_page(7, &mut buf).unwrap();
    fh.wal_end_write().unwrap();
    put(&mut fh, 7, 0x02);
    put(&mut fh, 0, 0x03);
    fh.end_wal().unwrap();
    let vm = crash(fh);
    let journal = vm.contents("DB_WAL").unwrap();
    assert_eq!(&journal[12..16], &[0u8, 0, 0, 0][..]);
    assert_eq!(&journal[journal.len() - 12..], &b"WAL_FILE_END"[..]);
    let mut fh = open(vm);
    assert_eq!(get(&mut fh, 7), page(0x02));
    assert_eq!(get(&mut fh, 0), page(0x03));
}

#[test]
fn journal_with_broken_magic_is_passed_over() {
    let mut vm = MemVolMan::new();
    let mut j = journal_bytes(4096, &[(1, 0x11)], true);
    j[0] = b'X';
    plant(&mut vm, "DB_WAL", &j);
    plant(&mut vm, "DB", &page(0x77));
    let mut fh = open(vm);
    assert_eq!(get(&mut fh, 0), page(0x77));
    assert_eq!(get(&mut fh, 1), page(0));
    let vm = crash(fh);
    assert_eq!(vm.contents("DB_WAL").unwrap(), j);
}

#[test]
fn journal_without_trailer_is_passed_over() {
    let mut vm = MemVolMan::new();
    plant(&mut vm, "DB_WAL", &journal_bytes(4096, &[(0, 0x11)], false));
    plant(&mut vm, "DB", &page(0x77));
    let mut fh = open(vm);
    assert_eq!(get(&mut fh, 0), page(0x77));
}

#[test]
fn journal_with_broken_trailer_is_passed_over() {
    let mut vm = MemVolMan::new();
    let mut j = journal_bytes(4096, &[(0, 0x11)], true);
    let last = j.len() - 1;
    j[last] = b'X';
    plant(&mut vm, "DB_WAL", &j);
    plant(&mut vm, "DB", &page(0x77));
    let mut fh = open(vm);
    assert_eq!(get(&mut fh, 0), page(0x77));
}

#[test]
fn transaction_broken_off_before_finalize_is_not_replayed() {
    let mut fh = open(MemVolMan::new());
    put(&mut fh, 0, 0x01);
    let mut buf = page(0);
    fh.wal_begin_write(&mut buf).unwrap();
    fh.wal_append_page(4, &mut buf).unwrap();
    put(&mut fh, 0, 0x02);
    let vm = crash(fh);
    let mut fh = open(vm);
    assert_eq!(get(&mut fh, 0), page(0x02));
}

#[test]
fn other_page_size_in_the_header_stops_the_start() {
    let mut vm = MemVolMan::new();
    plant(&mut vm, "DB_WAL", &journal_bytes(512, &[(0, 0x11)], true));
    plant(&mut vm, "DB", &page(0x77));
    let mut buf = page(0);
    let r = FileHandler::new_init(vm, MemDir {}, &mut buf);
    assert!(matches!(r, Err(Error::WalNotSupported)));
}

#[test]
fn other_page_size_without_trailer_is_passed_over() {
    let mut vm = MemVolMan::new();
    plant(&mut vm, "DB_WAL", &journal_bytes(512, &[(0, 0x11)], false));
    let mut buf = page(0);
    let r = FileHandler::new_init(vm, MemDir {}, &mut buf);
    assert!(r.is_ok());
}

#[test]
fn record_for_a_page_out_of_reach_stops_the_start() {
    let mut vm = MemVolMan::new();
    plant(&mut vm, "DB_WAL", &journal_bytes(4096, &[(1, 0x11), (1 << 20, 0x22)], true));
    let mut buf = page(0);
    let r = FileHandler::new_init(vm, MemDir {}, &mut buf);
    assert!(matches!(r, Err(Error::WalNotSupported)));
}

#[test]
fn journal_bytes_follow_the_layout() {
    let mut fh = open(MemVolMan::new());
    put(&mut fh, 1, 0x42);
    let mut buf = page(0);
    fh.wal_begin_write(&mut buf).unwrap();
    fh.wal_append_page(0x0102_0304 & 0xFFFFF, &mut buf).unwrap();
    fh.wal_end_write().unwrap();
    let vm = crash(fh);
    let j = vm.contents("DB_WAL").unwrap();
    assert_eq!(j.len(), 16 + 4 * 4100 + 12);
    assert_eq!(&j[0..8], &b"WAL_FILE"[..]);
    assert_eq!(&j[8..12], &[0x00u8, 0x10, 0x00, 0x00][..]);
    assert_eq!(&j[12..16], &[0x04u8, 0x00, 0x00, 0x00][..]);
    assert_eq!(&j[16..20], &[0u8, 0, 0, 0][..]);
    assert_eq!(&j[20..20 + 4096], &page(0)[..]);
    assert_eq!(&j[16 + 4100..20 + 4100], &[1u8, 0, 0, 0][..]);
    assert_eq!(&j[20 + 4100..20 + 4100 + 4096], &page(0x42)[..]);
    assert_eq!(&j[16 + 2 * 4100..20 + 2 * 4100], &[2u8, 0, 0, 0][..]);
    assert_eq!(&j[16 + 3 * 4100..20 + 3 * 4100], &[0x04u8, 0x03, 0x02, 0x00][..]);
    assert_eq!(&j[j.len() - 12..], &b"WAL_FILE_END"[..]);
}

#[test]
fn header_on_disk_counts_each_saved_page() {
    let mut fh = open(MemVolMan::new());
    let mut buf = page(0);
    fh.wal_begin_write(&mut buf).unwrap();
    assert_eq!(fh.cur_header.as_ref().unwrap().page_count, 3);
    let h = fh.wal_read_header().unwrap();
    assert_eq!(h.magic, *b"WAL_FILE");
    assert_eq!(h.page_size, 4096);
    assert_eq!(h.page_count, 3);
    fh.wal_append_page(9, &mut buf).unwrap();
    assert_eq!(fh.wal_read_header().unwrap().page_count, 4);
    assert_eq!(fh.wal_verify_trailer().unwrap(), false);
    fh.wal_append_page(8, &mut buf).unwrap();
    fh.wal_end_write().unwrap();
    let h = fh.wal_read_header().unwrap();
    assert_eq!(h.page_count, 5);
    assert_eq!(fh.wal_verify_trailer().unwrap(), true);
    let vm = crash(fh);
    let j = vm.contents("DB_WAL").unwrap();
    assert_eq!(j.len(), 16 + 5 * 4100 + 12);
    assert_eq!(&j[16 + 3 * 4100..20 + 3 * 4100], &[9u8, 0, 0, 0][..]);
    assert_eq!(&j[16 + 4 * 4100..20 + 4 * 4100], &[8u8, 0, 0, 0][..]);
}

#[test]
fn open_transaction_over_an_older_longer_journal_is_rolled_back() {
    let mut fh = open(MemVolMan::new());
    for p in 0u32..8 {
        put(&mut fh, p, 0x20 + p as u8);
    }
    let mut buf = page(0);
    fh.wal_begin_write(&mut buf).unwrap();
    fh.wal_append_pages_vec(&PageList::from_pages(&[3, 4, 5, 6, 7]), &mut buf).unwrap();
    fh.wal_end_write().unwrap();
    for p in 3u32..8 {
        put(&mut fh, p, 0x70 + p as u8);
    }
    fh.end_wal().unwrap();
    fh.wal_begin_write(&mut buf).unwrap();
    fh.wal_append_page(5, &mut buf).unwrap();
    put(&mut fh, 5, 0xEE);
    put(&mut fh, 0, 0xEE);
    let vm = crash(fh);
    let mut fh = open(vm);
    assert_eq!(get(&mut fh, 0), page(0x20));
    assert_eq!(get(&mut fh, 5), page(0x75));
    assert_eq!(get(&mut fh, 3), page(0x73));
}

#[test]
fn successful_recovery_leaves_a_journal_without_records() {
    let mut vm = MemVolMan::new();
    plant(&mut vm, "DB_WAL", &journal_bytes(4096, &[(1, 0x11)], true));
    let mut fh = open(vm);
    assert_eq!(fh.cur_header.as_ref().unwrap().page_count, 0);
    let h = fh.wal_read_header().unwrap();
    assert_eq!(h.page_count, 0);
    let vm = crash(fh);
    let mut fh = open(vm);
    assert_eq!(get(&mut fh, 1), page(0x11));
}

#[test]
fn closed_handler_reports_init_error() {
    let mut fh = open(MemVolMan::new());
    let mut buf = page(0);
    assert!(fh.close().is_ok());
    assert!(fh.page_rw.is_none());
    assert!(fh.close().is_ok());
    assert!(matches!(fh.wal_begin_write(&mut buf), Err(Error::InitError)));
    assert!(matches!(fh.wal_append_page(1, &mut buf), Err(Error::InitError)));
    assert!(matches!(fh.wal_append_pages_vec(&PageList::from_pages(&[1]), &mut buf), Err(Error::InitError)));
    assert!(matches!(fh.wal_end_write(), Err(Error::InitError)));
    assert!(matches!(fh.wal_write_trailer_to_file(), Err(Error::InitError)));
    assert!(matches!(fh.end_wal(), Err(Error::InitError)));
    assert!(matches!(fh.wal_read_header(), Err(Error::InitError)));
    assert!(matches!(fh.wal_verify_trailer(), Err(Error::InitError)));
    assert!(matches!(fh.wal_check_restore(&mut buf), Err(Error::InitError)));
}

#[test]
fn close_deletes_the_journal_and_keeps_the_database() {
    let mut fh = open(MemVolMan::new());
    put(&mut fh, 0, 0x5A);
    let mut buf = page(0);
    fh.wal_begin_write(&mut buf).unwrap();
    let mut rw = fh.page_rw.take().unwrap();
    let wal = fh.wal_file.take().unwrap();
    rw.vm.file_close(wal).unwrap();
    rw.vm.delete_file_in_dir(&fh.db_dir, "DB_WAL").unwrap();
    assert!(rw.vm.contents("DB_WAL").is_none());
    assert_eq!(rw.vm.contents("DB").unwrap(), page(0x5A));
}

#[test]
fn backend_fault_is_handed_on() {
    let mut fh = open(MemVolMan::new());
    let mut buf = page(0);
    fh.page_rw.as_mut().unwrap().vm.fail_writes_after(0);
    assert!(matches!(fh.wal_begin_write(&mut buf), Err(Error::Backend(MemError::WriteFault))));
    fh.page_rw.as_mut().unwrap().vm.allow_writes();
    assert!(fh.wal_begin_write(&mut buf).is_ok());
}

#[test]
fn write_fault_in_the_middle_of_the_changes_is_undone_on_restart() {
    let mut fh = open(MemVolMan::new());
    for p in 0u32..4 {
        put(&mut fh, p, 0x30 + p as u8);
    }
    let mut buf = page(0);
    fh.wal_begin_write(&mut buf).unwrap();
    fh.wal_append_page(3, &mut buf).unwrap();
    fh.wal_end_write().unwrap();
    fh.page_rw.as_mut().unwrap().vm.fail_writes_after(2);
    let data = page(0x99);
    assert!(fh.page_rw.as_mut().unwrap().write_page(0, &data).is_ok());
    assert!(fh.page_rw.as_mut().unwrap().write_page(1, &data).is_ok());
    assert!(matches!(
        fh.page_rw.as_mut().unwrap().write_page(3, &data),
        Err(MemError::WriteFault)
    ));
    let vm = crash(fh);
    let mut fh = open(vm);
    for p in 0u32..4 {
        assert_eq!(get(&mut fh, p), page(0x30 + p as u8));
    }
}

#[test]
fn list_of_pages_is_saved_in_its_order() {
    let mut fh = open(MemVolMan::new());
    for p in 0u32..9 {
        put(&mut fh, p, 0x50 + p as u8);
    }
    let mut buf = page(0);
    fh.wal_begin_write(&mut buf).unwrap();
    fh.wal_append_pages_vec(&PageList::from_pages(&[]), &mut buf).unwrap();
    assert_eq!(fh.cur_header.as_ref().unwrap().page_count, 3);
    fh.wal_append_pages_vec(&PageList::from_pages(&[8, 5, 8]), &mut buf).unwrap();
    assert_eq!(fh.cur_header.as_ref().unwrap().page_count, 6);
    assert_eq!(buf, page(0x58));
    fh.wal_end_write().unwrap();
    let vm = crash(fh);
    let j = vm.contents("DB_WAL").unwrap();
    assert_eq!(j.len(), 16 + 6 * 4100 + 12);
    assert_eq!(&j[12..16], &[6u8, 0, 0, 0][..]);
    for (i, p) in [0u8, 1, 2, 8, 5, 8].iter().enumerate() {
        let at = 16 + i * 4100;
        assert_eq!(&j[at..at + 4], &[*p, 0, 0, 0][..]);
        assert_eq!(&j[at + 4..at + 4100], &page(0x50 + *p)[..]);
    }
}

#[test]
fn recovery_puts_short_reads_together() {
    for limit in [0usize, 3, 1000, 4096, 5000] {
        let mut fh = open(MemVolMan::new());
        for p in 0u32..4 {
            put(&mut fh, p, 0x60 + p as u8);
        }
        fh.page_rw.as_mut().unwrap().vm.limit_reads(limit.max(2));
        let mut buf = page(0);
        fh.wal_begin_write(&mut buf).unwrap();
        fh.wal_append_page(3, &mut buf).unwrap();
        assert_eq!(buf, page(0x63));
        fh.wal_end_write().unwrap();
        for p in 0u32..4 {
            put(&mut fh, p, 0xF0);
        }
        let mut vm = crash(fh);
        vm.limit_reads(limit);
        let mut fh = open(vm);
        for p in 0u32..4 {
            assert_eq!(get(&mut fh, p), page(0x60 + p as u8));
        }
    }
}

#[test]
fn saving_a_page_without_a_transaction_is_reported() {
    let mut fh = open(MemVolMan::new());
    assert!(fh.cur_header.is_none());
    let mut buf = page(0);
    assert!(matches!(fh.wal_append_page(1, &mut buf), Err(Error::InitError)));
    assert!(matches!(
        fh.wal_append_pages_vec(&PageList::from_pages(&[1, 2]), &mut buf),
        Err(Error::InitError)
    ));
    assert!(fh.wal_append_pages_vec(&PageList::from_pages(&[]), &mut buf).is_ok());
    assert!(matches!(fh.wal_end_write(), Err(Error::InitError)));
    assert!(matches!(fh.wal_write_header_to_file(), Err(Error::InitError)));
    let vm = crash(fh);
    assert_eq!(vm.contents("DB_WAL").unwrap(), Vec::<u8>::new());
    assert_eq!(vm.contents("DB").unwrap(), Vec::<u8>::new());
}

#[test]
fn write_fault_in_the_middle_of_a_replay_leaves_the_journal_for_the_next_start() {
    let mut vm = MemVolMan::new();
    let j = journal_bytes(4096, &[(1, 0x11), (2, 0x22), (3, 0x33)], true);
    plant(&mut vm, "DB_WAL", &j);
    vm.fail_writes_after(2);
    let mut buf = page(0);
    let r = FileHandler::new_init(vm, MemDir {}, &mut buf);
    assert!(matches!(r, Err(Error::Backend(MemError::WriteFault))));
}

#[test]
fn refused_record_leaves_the_records_before_it_replayed() {
    let mut vm = MemVolMan::new();
    let j = journal_bytes(4096, &[(1, 0x11), (1 << 20, 0x22), (3, 0x33)], true);
    plant(&mut vm, "DB_WAL", &j);
    let dir = MemDir {};
    let db = vm.open_file_in_dir(&dir, "DB", Mode::ReadWriteCreateOrAppend).unwrap();
    let wal = vm.open_file_in_dir(&dir, "DB_WAL", Mode::ReadWriteCreateOrAppend).unwrap();
    let mut fh = FileHandler {
        cur_header: None,
        wal_file: Some(wal),
        db_dir: dir,
        page_rw: Some(pagewal::page_rw::PageRW::new(vm, db)),
    };
    let mut buf = page(0);
    assert!(matches!(fh.wal_check_restore(&mut buf), Err(Error::WalNotSupported)));
    assert_eq!(get(&mut fh, 1), page(0x11));
    assert_eq!(get(&mut fh, 3), page(0));
    let vm = crash(fh);
    assert_eq!(vm.contents("DB_WAL").unwrap(), j);
}
