use pagewal::file_handler::FixedPages;
use pagewal::fs::{read_full, Mode, VolMan};
use pagewal::journal::{le_bytes, WalHeader};
use pagewal::mem::{MemDir, MemError, MemVolMan};
use pagewal::page_list::PageList;
use pagewal::page_rw::{
    fill_zero, same_bytes, zero_buf, FaultPlan, PageRW, WriteFate, PAGE_SIZE,
};

fn volume_with(name: &'static str, bytes: &[u8]) -> MemVolMan {
    let mut vm = MemVolMan::new();
    let f = vm.open_file_in_dir(&MemDir {}, name, Mode::ReadWriteCreate).unwrap();
    vm.file_write(&f, bytes).unwrap();
    vm.file_close(f).unwrap();
    vm
}

fn page_rw_on(bytes: &[u8]) -> PageRW<MemVolMan> {
    let mut vm = volume_with("DB", bytes);
    let f = vm.open_file_in_dir(&MemDir {}, "DB", Mode::ReadWriteAppend).unwrap();
    PageRW::new(vm, f)
}

#[test]
fn extension_writes_the_trailing_page_again() {
    let mut rw = page_rw_on(&vec![0x44u8; 3 * 4096]);
    let mut buf = vec![0x99u8; 4096];
    assert_eq!(rw.extend_file_one_page(2, &mut buf).unwrap(), 2);
    assert_eq!(buf, vec![0u8; 4096]);
    assert_eq!(rw.vm.file_length(&rw.file).unwrap(), 3 * 4096);
    let mut out = vec![1u8; 4096];
    assert_eq!(rw.read_page(2, &mut out).unwrap(), 4096);
    assert_eq!(out, vec![0u8; 4096]);
    assert_eq!(rw.read_page(1, &mut out).unwrap(), 4096);
    assert_eq!(out, vec![0x44u8; 4096]);
}

#[test]
fn extension_adds_a_page_behind_a_file_of_whole_pages() {
    let mut rw = page_rw_on(&vec![0x44u8; 3 * 4096]);
    let mut buf = vec![0x99u8; 4096];
    assert_eq!(rw.extend_file_one_page(3, &mut buf).unwrap(), 3);
    assert_eq!(rw.vm.file_length(&rw.file).unwrap(), 4 * 4096);
    assert_eq!(rw.extend_file_one_page(9, &mut buf).unwrap(), 4);
    assert_eq!(rw.vm.file_length(&rw.file).unwrap(), 5 * 4096);
}

#[test]
fn extension_of_an_empty_file_writes_page_zero() {
    let mut rw = page_rw_on(&[]);
    let mut buf = vec![0x99u8; 4096];
    assert_eq!(rw.extend_file_one_page(0, &mut buf).unwrap(), 0);
    assert_eq!(rw.vm.file_length(&rw.file).unwrap(), 4096);
}

#[test]
fn page_is_read_and_written_at_its_offset() {
    let mut rw = page_rw_on(&[]);
    let data = vec![0xABu8; 4096];
    rw.write_page(2, &data).unwrap();
    assert_eq!(rw.vm.file_offset(&rw.file).unwrap(), 3 * 4096);
    assert_eq!(rw.vm.file_length(&rw.file).unwrap(), 3 * 4096);
    let mut out = vec![7u8; 4096];
    assert_eq!(rw.read_page(2, &mut out).unwrap(), 4096);
    assert_eq!(out, data);
    assert_eq!(rw.read_page(0, &mut out).unwrap(), 4096);
    assert_eq!(out, vec![0u8; 4096]);
}

#[test]
fn read_behind_the_end_is_short_and_keeps_the_buffer() {
    let mut rw = page_rw_on(&vec![0x44u8; 4096 + 100]);
    let mut out = vec![7u8; 4096];
    assert_eq!(rw.read_page(1, &mut out).unwrap(), 100);
    assert_eq!(&out[..100], &vec![0x44u8; 100][..]);
    assert_eq!(&out[100..], &vec![7u8; 3996][..]);
    assert_eq!(rw.read_page(5, &mut out).unwrap(), 0);
}

#[test]
fn header_fields_sit_at_fixed_places() {
    let bytes: Vec<u8> = vec![b'W', b'A', b'L', b'_', b'F', b'I', b'L', b'E', 0, 0x10, 0, 0, 5, 1, 0, 0];
    let h = WalHeader::decode(&bytes);
    assert!(h.has_magic());
    assert_eq!(h.page_size, 4096);
    assert_eq!(h.page_count, 261);
    let other: Vec<u8> = vec![b'W', b'A', b'L', b'_', b'F', b'I', b'L', b'X', 0, 2, 0, 0, 0, 0, 0, 1];
    let h = WalHeader::decode(&other);
    assert!(!h.has_magic());
    assert_eq!(h.page_size, 512);
    assert_eq!(h.page_count, 1 << 24);
}

#[test]
fn fresh_header_has_no_records() {
    let h = WalHeader::default();
    assert_eq!(h.magic, *b"WAL_FILE");
    assert_eq!(h.page_size, PAGE_SIZE as u32);
    assert_eq!(h.page_count, 0);
}

#[test]
fn numbers_are_stored_lowest_byte_first() {
    assert_eq!(le_bytes(0x0102_0304), vec![4u8, 3, 2, 1]);
    assert_eq!(le_bytes(4096), vec![0u8, 0x10, 0, 0]);
}

#[test]
fn fixed_pages_are_the_first_three() {
    assert_eq!(FixedPages::Header.page_number(), 0);
    assert_eq!(FixedPages::FreeList.page_number(), 1);
    assert_eq!(FixedPages::DbCat.page_number(), 2);
}

#[test]
fn buffers_are_zeroed_and_compared() {
    let mut b = vec![3u8; 10];
    fill_zero(&mut b);
    assert_eq!(b, vec![0u8; 10]);
    assert_eq!(zero_buf(5), vec![0u8; 5]);
    assert!(same_bytes(&[1, 2, 3], &[1, 2, 3]));
    assert!(!same_bytes(&[1, 2, 3], &[1, 2, 4]));
    assert!(!same_bytes(&[1, 2, 3], &[1, 2]));
}

#[test]
fn volume_tells_files_apart_by_name() {
    let mut vm = volume_with("DB", &[1, 2, 3]);
    let f = vm.open_file_in_dir(&MemDir {}, "DB_WAL", Mode::ReadWriteCreate).unwrap();
    vm.file_write(&f, &[9]).unwrap();
    vm.file_close(f).unwrap();
    assert_eq!(vm.contents("DB").unwrap(), vec![1u8, 2, 3]);
    assert_eq!(vm.contents("DB_WAL").unwrap(), vec![9u8]);
    assert!(vm.contents("OTHER").is_none());
    assert_eq!(vm.find("DB"), Some(0));
    assert_eq!(vm.find("DB_WAL"), Some(1));
}

#[test]
fn volume_follows_the_open_modes() {
    let dir = MemDir {};
    let mut vm = volume_with("DB", &[1, 2, 3]);
    assert!(matches!(vm.open_file_in_dir(&dir, "NONE", Mode::ReadOnly), Err(MemError::NotFound)));
    assert!(matches!(vm.open_file_in_dir(&dir, "NONE", Mode::ReadWriteAppend), Err(MemError::NotFound)));
    assert!(matches!(vm.open_file_in_dir(&dir, "NONE", Mode::ReadWriteTruncate), Err(MemError::NotFound)));
    assert!(matches!(vm.open_file_in_dir(&dir, "DB", Mode::ReadWriteCreate), Err(MemError::AlreadyExists)));
    let f = vm.open_file_in_dir(&dir, "DB", Mode::ReadWriteCreateOrAppend).unwrap();
    assert_eq!(vm.file_offset(&f).unwrap(), 3);
    assert_eq!(vm.file_length(&f).unwrap(), 3);
    assert!(matches!(vm.open_file_in_dir(&dir, "DB", Mode::ReadOnly), Err(MemError::AlreadyOpen)));
    assert!(matches!(vm.delete_file_in_dir(&dir, "DB"), Err(MemError::AlreadyOpen)));
    vm.file_close(f).unwrap();
    let f = vm.open_file_in_dir(&dir, "DB", Mode::ReadOnly).unwrap();
    assert_eq!(vm.file_offset(&f).unwrap(), 0);
    vm.file_close(f).unwrap();
    let f = vm.open_file_in_dir(&dir, "DB", Mode::ReadWriteCreateOrTruncate).unwrap();
    assert_eq!(vm.file_length(&f).unwrap(), 0);
    vm.file_close(f).unwrap();
    vm.delete_file_in_dir(&dir, "DB").unwrap();
    assert!(matches!(vm.delete_file_in_dir(&dir, "DB"), Err(MemError::NotFound)));
    assert!(vm.contents("DB").is_none());
}

#[test]
fn volume_seeks_reads_and_writes_at_the_cursor() {
    let dir = MemDir {};
    let mut vm = volume_with("DB", &[1, 2, 3, 4, 5]);
    let f = vm.open_file_in_dir(&dir, "DB", Mode::ReadWriteAppend).unwrap();
    vm.file_seek_from_end(&f, 2).unwrap();
    assert_eq!(vm.file_offset(&f).unwrap(), 3);
    assert!(matches!(vm.file_seek_from_end(&f, 6), Err(MemError::BadOffset)));
    let mut buf = vec![0u8; 4];
    assert_eq!(vm.file_read(&f, &mut buf).unwrap(), 2);
    assert_eq!(buf, vec![4u8, 5, 0, 0]);
    vm.file_seek_from_start(&f, 7).unwrap();
    vm.file_write(&f, &[8, 9]).unwrap();
    vm.file_flush(&f).unwrap();
    vm.file_close(f).unwrap();
    vm.close_dir(&dir).unwrap();
    assert_eq!(vm.contents("DB").unwrap(), vec![1u8, 2, 3, 4, 5, 0, 0, 8, 9]);
}

#[test]
fn page_list_keeps_numbers_and_order() {
    assert_eq!(PageList::from_pages(&[]).pages(), Vec::<u32>::new());
    assert_eq!(PageList::from_pages(&[7, 3, 7, 1_048_575]).pages(), vec![7u32, 3, 7, 1_048_575]);
}

#[test]
fn fault_plan_breaks_off_once_the_writes_are_used_up() {
    let mut plan = FaultPlan::new(2, 1);
    assert_eq!(plan.next_write(), WriteFate::Proceed);
    assert_eq!(plan.next_write(), WriteFate::Proceed);
    assert_eq!((plan.writes_rem, plan.aborts_rem), (0, 1));
    assert_eq!(plan.next_write(), WriteFate::Abort);
    assert_eq!((plan.writes_rem, plan.aborts_rem), (0, 0));
    assert_eq!(plan.next_write(), WriteFate::Proceed);
    assert_eq!((plan.writes_rem, plan.aborts_rem), (0, 0));
}

#[test]
fn gated_write_leaves_the_file_alone_when_the_plan_breaks_off() {
    let mut rw = page_rw_on(&vec![0x44u8; 4096]);
    let mut plan = FaultPlan::new(1, 1);
    let data = vec![0xABu8; 4096];
    assert_eq!(rw.write_page_gated(&mut plan, 0, &data).unwrap(), WriteFate::Proceed);
    assert_eq!(rw.write_page_gated(&mut plan, 1, &data).unwrap(), WriteFate::Abort);
    assert_eq!(rw.vm.file_length(&rw.file).unwrap(), 4096);
    assert_eq!(rw.write_page_gated(&mut plan, 1, &data).unwrap(), WriteFate::Proceed);
    assert_eq!(rw.vm.file_length(&rw.file).unwrap(), 2 * 4096);
    let mut out = vec![0u8; 4096];
    assert_eq!(rw.read_page(0, &mut out).unwrap(), 4096);
    assert_eq!(out, data);
}

#[test]
fn short_reads_are_put_together() {
    let dir = MemDir {};
    let mut vm = volume_with("DB", &[1, 2, 3, 4, 5, 6, 7]);
    vm.limit_reads(3);
    let f = vm.open_file_in_dir(&dir, "DB", Mode::ReadOnly).unwrap();
    let mut buf = vec![9u8; 5];
    assert_eq!(vm.file_read(&f, &mut buf).unwrap(), 3);
    assert_eq!(buf, vec![1u8, 2, 3, 9, 9]);
    assert_eq!(vm.file_offset(&f).unwrap(), 3);
    vm.file_seek_from_start(&f, 1).unwrap();
    let mut buf = vec![9u8; 5];
    assert_eq!(read_full(&mut vm, &f, &mut buf).unwrap(), 5);
    assert_eq!(buf, vec![2u8, 3, 4, 5, 6]);
    assert_eq!(vm.file_offset(&f).unwrap(), 6);
    let mut buf = vec![9u8; 5];
    assert_eq!(read_full(&mut vm, &f, &mut buf).unwrap(), 1);
    assert_eq!(buf, vec![7u8, 9, 9, 9, 9]);
    assert_eq!(read_full(&mut vm, &f, &mut buf).unwrap(), 0);
    vm.limit_reads(0);
    vm.file_seek_from_start(&f, 0).unwrap();
    assert_eq!(vm.file_read(&f, &mut buf).unwrap(), 1);
    assert_eq!(buf, vec![1u8, 9, 9, 9, 9]);
}

#[test]
fn page_read_is_whole_under_short_reads() {
    let mut rw = page_rw_on(&vec![0x44u8; 4096 + 100]);
    rw.vm.limit_reads(1000);
    let mut out = vec![7u8; 4096];
    assert_eq!(rw.read_page(0, &mut out).unwrap(), 4096);
    assert_eq!(out, vec![0x44u8; 4096]);
    assert_eq!(rw.read_page(1, &mut out).unwrap(), 100);
}
