use crate::fs::{content_at_open, read_at, read_count, read_full, FileState, Mode, VolMan};
use crate::journal::{
    after_read, appended, from_le_bytes, has_trailer, le_bytes, lemma_replay_one_more,
    magic_bytes, record_page, record_pos, records_addressable, replay, replayable, stored_page_count, stored_page_size, trailer_bytes, with_header,
    with_trailer, WalHeader, DB_FILE_NAME, MAX_RECORDS, WAL_FILE_NAME, WAL_TRAILER,
};
use crate::page_list::{list_len, list_page, listed_pages, PageList};
use crate::page_rw::{addressable, fill_zero, page_offset, same_bytes, zero_buf, PageRW, PAGE_SIZE};
use vstd::prelude::*;

verus! {

/// What the journal layer reports.
#[derive(Debug)]
pub enum Error<E> {
    /// The journal lacks the magic or the trailer: there is nothing to replay.
    InvalidWalFile,
    /// The journal was written for another page geometry.
    WalNotSupported,
    /// The handler holds no open files.
    InitError,
    /// The backend's own fault, handed on as it came.
    Backend(E),
}

/// The pages whose content every transaction saves first.
#[derive(Clone, Copy, Debug)]
pub enum FixedPages {
    Header,
    FreeList,
    DbCat,
}

impl FixedPages {
    pub open spec fn spec_page_number(self) -> u32 {
        match self {
            FixedPages::Header => 0,
            FixedPages::FreeList => 1,
            FixedPages::DbCat => 2,
        }
    }

    /// The page that holds this part of the database's metadata.
    pub fn page_number(self) -> (p: u32)
        ensures
            p == self.spec_page_number(),
    {
        match self {
            FixedPages::Header => 0,
            FixedPages::FreeList => 1,
            FixedPages::DbCat => 2,
        }
    }
}

/// Hands a backend result on, its fault wrapped.
pub fn lift<T, E>(r: Result<T, E>) -> (out: Result<T, Error<E>>)
    ensures
        r is Ok ==> out == Ok::<T, Error<E>>(r->Ok_0),
        r is Err ==> out == Err::<T, Error<E>>(Error::Backend(r->Err_0)),
{
    match r {
        Ok(v) => Ok(v),
        Err(e) => Err(Error::Backend(e)),
    }
}

/// The content of page `page_num` in a file, zero where the file has no bytes.
pub open spec fn page_of(data: Seq<u8>, page_num: u32) -> Seq<u8> {
    read_at(data, page_offset(page_num), 4096)
}

/// The journal after a transaction was begun on it: a header, then the
/// content of the three fixed pages, each counted in the header as it came.
pub open spec fn begun(j: Seq<u8>, db: Seq<u8>) -> FileState {
    appended(
        appended(appended(with_header(j, 0), 0, 0, page_of(db, 0)), 1, 1, page_of(db, 1)),
        2,
        2,
        page_of(db, 2),
    )
}

/// The journal after the content of each of `pages` was saved in it, in
/// order, behind the `count` records it held.
pub open spec fn appended_all(j: FileState, count: nat, db: Seq<u8>, pages: Seq<u32>) -> FileState
    decreases pages.len(),
{
    if pages.len() == 0 {
        j
    } else {
        appended(
            appended_all(j, count, db, pages.drop_last()),
            (count + pages.len() - 1) as nat,
            pages.last(),
            page_of(db, pages.last()),
        )
    }
}

/// The journal after it was finalized with `page_count` records: the header
/// in front, the trailer behind the last byte.
pub open spec fn finalized(j: Seq<u8>, page_count: u32) -> FileState {
    with_trailer(with_header(j, page_count).data)
}

/// Drives recovery and the transaction's journal over one database file.
pub struct FileHandler<V: VolMan> {
    pub cur_header: Option<WalHeader>,
    pub wal_file: Option<V::F>,
    pub db_dir: V::D,
    pub page_rw: Option<PageRW<V>>,
}

impl<V: VolMan> FileHandler<V> {
    /// Both files are open.
    pub open spec fn is_open(&self) -> bool {
        self.page_rw is Some && self.wal_file is Some
    }

    /// The files the backend holds open.
    pub open spec fn files(&self) -> Map<V::F, FileState> {
        self.page_rw->0.vm.files()
    }

    /// Under which directory, name and mode the backend's open handles were
    /// opened.
    pub open spec fn opened_files(&self) -> Map<V::F, (V::D, Seq<char>, Mode)> {
        self.page_rw->0.vm.opened_as()
    }

    /// The journal file.
    pub open spec fn journal(&self) -> FileState {
        self.files()[self.wal_file->0]
    }

    /// The database file.
    pub open spec fn db(&self) -> FileState {
        self.files()[self.page_rw->0.file]
    }

    /// The record count of the header in memory.
    pub open spec fn count(&self) -> u32 {
        self.cur_header->0.page_count
    }

    /// The two files are both open under different handles or both closed,
    /// and a header in memory is one that this library writes.
    pub open spec fn wf(&self) -> bool {
        &&& self.page_rw is Some <==> self.wal_file is Some
        &&& self.is_open() ==> {
            &&& self.files().contains_key(self.wal_file->0)
            &&& self.files().contains_key(self.page_rw->0.file)
            &&& self.wal_file->0 != self.page_rw->0.file
        }
        &&& self.cur_header is Some ==> {
            &&& self.cur_header->0.magic@ == magic_bytes()
            &&& self.cur_header->0.page_size == 4096
        }
    }

    /// The handles are those of `before`.
    pub open spec fn same_handles(&self, before: &Self) -> bool {
        &&& self.wal_file == before.wal_file
        &&& self.db_dir == before.db_dir
        &&& self.page_rw is Some <==> before.page_rw is Some
        &&& self.page_rw is Some ==> {
            &&& self.page_rw->0.file == before.page_rw->0.file
            &&& self.page_rw->0.vm.opened_as() == before.page_rw->0.vm.opened_as()
            &&& self.page_rw->0.vm.names() == before.page_rw->0.vm.names()
            &&& self.page_rw->0.vm.stored() == before.page_rw->0.vm.stored()
        }
    }

    /// A header is in memory and both files are open: pages can be saved.
    pub open spec fn ready(&self) -> bool {
        self.is_open() && self.cur_header is Some
    }

    /// What the backend holds once `before` was torn down: both handles
    /// are closed, the journal's name is gone from the directory, and
    /// every other name, the database file's too, is still there.
    pub open spec fn torn_down(before: &Self, vm: V) -> bool {
        let wal = before.wal_file->0;
        let db = before.page_rw->0.file;
        let old_vm = before.page_rw->0.vm;
        &&& vm.files() == old_vm.files().remove(wal).remove(db)
        &&& vm.opened_as() == old_vm.opened_as().remove(wal).remove(db)
        &&& vm.names() == old_vm.names().remove((before.db_dir, WAL_FILE_NAME@))
        &&& vm.stored() == old_vm.stored().insert(
            (old_vm.opened_as()[wal].0, old_vm.opened_as()[wal].1),
            before.journal().data,
        ).remove((before.db_dir, WAL_FILE_NAME@)).insert(
            (old_vm.opened_as()[db].0, old_vm.opened_as()[db].1),
            before.db().data,
        )
    }

    /// Writes the header in memory to the front of the journal.
    pub fn wal_write_header_to_file(&mut self) -> (r: Result<(), Error<V::Error>>)
        requires
            old(self).wf(),
        ensures
            final(self).wf(),
            final(self).same_handles(old(self)),
            final(self).cur_header == old(self).cur_header,
            !old(self).ready() ==> r matches Err(Error::InitError),
            old(self).is_open() && old(self).cur_header is None ==> final(self).journal() == old(self).journal() && final(self).db() == old(self).db(),
            old(self).ready() ==> {
                &&& final(self).db() == old(self).db()
                &&& r is Err ==> r->Err_0 is Backend
                &&& r is Ok ==> final(self).journal() == with_header(
                    old(self).journal().data,
                    old(self).count(),
                )
            },
    {
        let rw = match &mut self.page_rw {
            Some(rw) => rw,
            None => {
                return Err(Error::InitError);
            },
        };
        let wal = match &self.wal_file {
            Some(w) => w,
            None => {
                return Err(Error::InitError);
            },
        };
        let header = match &self.cur_header {
            Some(h) => h,
            None => {
                return Err(Error::InitError);
            },
        };
        lift(rw.vm.file_seek_from_start(wal, 0))?;
        lift(rw.vm.file_write(wal, header.magic.as_slice()))?;
        let size = le_bytes(header.page_size);
        lift(rw.vm.file_write(wal, size.as_slice()))?;
        let count = le_bytes(header.page_count);
        lift(rw.vm.file_write(wal, count.as_slice()))?;
        proof {
            assert(rw.vm.files()[*wal].data =~= with_header(
                old(self).journal().data,
                old(self).count(),
            ).data);
        }
        Ok(())
    }
}

impl<V: VolMan> FileHandler<V> {
    /// Saves the current content of page `page` as the journal's next record,
    /// counts it and writes the header again. `buf` carries the content.
    pub fn wal_read_write_page_to_file(&mut self, page: u32, buf: &mut Vec<u8>) -> (r: Result<
        (),
        Error<V::Error>,
    >)
        requires
            old(self).wf(),
            addressable(page),
            old(buf)@.len() == PAGE_SIZE,
            old(self).ready() ==> old(self).count() < MAX_RECORDS,
        ensures
            final(self).wf(),
            final(self).same_handles(old(self)),
            final(buf)@.len() == PAGE_SIZE,
            final(self).cur_header is Some <==> old(self).cur_header is Some,
            !old(self).ready() ==> r matches Err(Error::InitError),
            old(self).is_open() && old(self).cur_header is None ==> final(self).journal() == old(self).journal() && final(self).db() == old(self).db(),
            old(self).ready() ==> {
                &&& final(self).db().data == old(self).db().data
                &&& r is Err ==> r->Err_0 is Backend && (final(self).count() == old(self).count()
                    || final(self).count() == old(self).count() + 1)
                &&& r is Ok ==> {
                    &&& final(buf)@ == page_of(old(self).db().data, page)
                    &&& final(self).journal() == appended(
                        old(self).journal(),
                        old(self).count() as nat,
                        page,
                        page_of(old(self).db().data, page),
                    )
                    &&& final(self).count() == old(self).count() + 1
                }
            },
    {
        let wal = match &self.wal_file {
            Some(w) => w,
            None => {
                return Err(Error::InitError);
            },
        };
        let header = match &mut self.cur_header {
            Some(h) => h,
            None => {
                return Err(Error::InitError);
            },
        };
        let rw = match &mut self.page_rw {
            Some(rw) => rw,
            None => {
                return Err(Error::InitError);
            },
        };
        fill_zero(buf);
        let _ = lift(rw.read_page(page, buf))?;
        assert(buf@ =~= page_of(old(self).db().data, page));
        let at: u32 = 16 + header.page_count * 4100;
        lift(rw.vm.file_seek_from_start(wal, at))?;
        let number = le_bytes(page);
        lift(rw.vm.file_write(wal, number.as_slice()))?;
        lift(rw.vm.file_write(wal, buf.as_slice()))?;
        header.page_count += 1;
        self.wal_write_header_to_file()
    }

    /// Opens a transaction: a header without records goes to the journal,
    /// then the content of the three fixed pages.
    pub fn wal_begin_write(&mut self, buf: &mut Vec<u8>) -> (r: Result<(), Error<V::Error>>)
        requires
            old(self).wf(),
            old(buf)@.len() == PAGE_SIZE,
        ensures
            final(self).wf(),
            final(self).same_handles(old(self)),
            final(buf)@.len() == PAGE_SIZE,
            final(self).cur_header is Some,
            !old(self).is_open() ==> r matches Err(Error::InitError),
            old(self).is_open() ==> {
                &&& final(self).db().data == old(self).db().data
                &&& r is Err ==> r->Err_0 is Backend
                &&& r is Ok ==> {
                    &&& final(self).journal() == begun(
                        old(self).journal().data,
                        old(self).db().data,
                    )
                    &&& final(self).count() == 3
                }
            },
    {
        self.cur_header = Some(WalHeader::default());
        self.wal_write_header_to_file()?;
        self.wal_read_write_page_to_file(FixedPages::Header.page_number(), buf)?;
        self.wal_read_write_page_to_file(FixedPages::FreeList.page_number(), buf)?;
        self.wal_read_write_page_to_file(FixedPages::DbCat.page_number(), buf)?;
        Ok(())
    }

    /// Saves the content of each page of `pages`, in order.
    pub fn wal_append_pages_vec(&mut self, pages: &PageList, buf: &mut Vec<u8>) -> (r: Result<
        (),
        Error<V::Error>,
    >)
        requires
            old(self).wf(),
            old(buf)@.len() == PAGE_SIZE,
            forall|i: int|
                0 <= i < listed_pages(*pages).len() ==> addressable(
                    #[trigger] listed_pages(*pages)[i],
                ),
            old(self).ready() ==> old(self).count() + listed_pages(*pages).len() <= MAX_RECORDS,
        ensures
            final(self).wf(),
            final(self).same_handles(old(self)),
            final(buf)@.len() == PAGE_SIZE,
            final(self).cur_header is Some <==> old(self).cur_header is Some,
            !old(self).ready() && listed_pages(*pages).len() > 0 ==> r matches Err(
                Error::InitError,
            ),
            listed_pages(*pages).len() == 0 ==> r is Ok,
            old(self).is_open() && old(self).cur_header is None ==> final(self).journal() == old(self).journal() && final(self).db() == old(self).db(),
            old(self).ready() ==> {
                &&& final(self).db().data == old(self).db().data
                &&& r is Err ==> r->Err_0 is Backend
                &&& r is Ok ==> {
                    &&& final(self).journal() == appended_all(
                        old(self).journal(),
                        old(self).count() as nat,
                        old(self).db().data,
                        listed_pages(*pages),
                    )
                    &&& final(self).count() == old(self).count() + listed_pages(*pages).len()
                }
            },
    {
        let ghost all = listed_pages(*pages);
        let n: usize = list_len(pages);
        let mut i: usize = 0;
        while i < n
            invariant
                i <= n,
                all == listed_pages(*pages),
                n == all.len(),
                !old(self).ready() ==> i == 0,
                old(self).is_open() && old(self).cur_header is None ==> self.journal() == old(self).journal() && self.db() == old(self).db(),
                self.wf(),
                self.same_handles(old(self)),
                buf@.len() == PAGE_SIZE,
                self.cur_header is Some <==> old(self).cur_header is Some,
                forall|k: int| 0 <= k < all.len() ==> addressable(#[trigger] all[k]),
                old(self).ready() ==> {
                    &&& old(self).count() + all.len() <= MAX_RECORDS
                    &&& self.db().data == old(self).db().data
                    &&& self.journal() == appended_all(
                        old(self).journal(),
                        old(self).count() as nat,
                        old(self).db().data,
                        all.take(i as int),
                    )
                    &&& self.count() == old(self).count() + i
                },
            decreases n - i,
        {
            proof {
                assert(all.take(i + 1).drop_last() =~= all.take(i as int));
            }
            let page: u32 = list_page(pages, i);
            self.wal_read_write_page_to_file(page, buf)?;
            i += 1;
        }
        proof {
            assert(all.take(n as int) =~= all);
        }
        Ok(())
    }

    /// Saves the content of page `page`.
    pub fn wal_append_page(&mut self, page: u32, buf: &mut Vec<u8>) -> (r: Result<
        (),
        Error<V::Error>,
    >)
        requires
            old(self).wf(),
            addressable(page),
            old(buf)@.len() == PAGE_SIZE,
            old(self).ready() ==> old(self).count() < MAX_RECORDS,
        ensures
            final(self).wf(),
            final(self).same_handles(old(self)),
            final(buf)@.len() == PAGE_SIZE,
            final(self).cur_header is Some <==> old(self).cur_header is Some,
            !old(self).ready() ==> r matches Err(Error::InitError),
            old(self).is_open() && old(self).cur_header is None ==> final(self).journal() == old(self).journal() && final(self).db() == old(self).db(),
            old(self).ready() ==> {
                &&& final(self).db().data == old(self).db().data
                &&& r is Err ==> r->Err_0 is Backend && (final(self).count() == old(self).count()
                    || final(self).count() == old(self).count() + 1)
                &&& r is Ok ==> {
                    &&& final(buf)@ == page_of(old(self).db().data, page)
                    &&& final(self).journal() == appended(
                        old(self).journal(),
                        old(self).count() as nat,
                        page,
                        page_of(old(self).db().data, page),
                    )
                    &&& final(self).count() == old(self).count() + 1
                }
            },
    {
        self.wal_read_write_page_to_file(page, buf)?;
        Ok(())
    }

    /// Writes the trailer behind the journal's last byte.
    pub fn wal_write_trailer_to_file(&mut self) -> (r: Result<(), Error<V::Error>>)
        requires
            old(self).wf(),
        ensures
            final(self).wf(),
            final(self).same_handles(old(self)),
            final(self).cur_header == old(self).cur_header,
            !old(self).is_open() ==> r matches Err(Error::InitError),
            old(self).is_open() ==> {
                &&& final(self).db() == old(self).db()
                &&& r is Err ==> r->Err_0 is Backend
                &&& r is Ok ==> final(self).journal() == with_trailer(old(self).journal().data)
            },
    {
        let rw = match &mut self.page_rw {
            Some(rw) => rw,
            None => {
                return Err(Error::InitError);
            },
        };
        let f = match &self.wal_file {
            Some(w) => w,
            None => {
                return Err(Error::InitError);
            },
        };
        lift(rw.vm.file_seek_from_end(f, 0))?;
        lift(rw.vm.file_write(f, WAL_TRAILER.as_slice()))?;
        proof {
            assert(WAL_TRAILER@ =~= trailer_bytes());
            assert(rw.vm.files()[*f].data =~= with_trailer(old(self).journal().data).data);
        }
        Ok(())
    }

    /// Finalizes the journal: header, trailer, flush. From here on the next
    /// start replays it.
    pub fn wal_end_write(&mut self) -> (r: Result<(), Error<V::Error>>)
        requires
            old(self).wf(),
        ensures
            final(self).wf(),
            final(self).same_handles(old(self)),
            final(self).cur_header == old(self).cur_header,
            !old(self).ready() ==> r matches Err(Error::InitError),
            old(self).is_open() && old(self).cur_header is None ==> final(self).journal() == old(self).journal() && final(self).db() == old(self).db(),
            old(self).ready() ==> {
                &&& final(self).db() == old(self).db()
                &&& r is Err ==> r->Err_0 is Backend
                &&& r is Ok ==> final(self).journal() == finalized(
                    old(self).journal().data,
                    old(self).count(),
                )
                &&& r is Ok ==> final(self).page_rw->0.vm.durable().contains_key(
                    old(self).wal_file->0,
                ) && final(self).page_rw->0.vm.durable()[old(self).wal_file->0] == finalized(
                    old(self).journal().data,
                    old(self).count(),
                ).data
            },
    {
        self.wal_write_header_to_file()?;
        self.wal_write_trailer_to_file()?;
        let rw = match &mut self.page_rw {
            Some(rw) => rw,
            None => {
                return Err(Error::InitError);
            },
        };
        let wal_file = match &self.wal_file {
            Some(w) => w,
            None => {
                return Err(Error::InitError);
            },
        };
        lift(rw.vm.file_flush(wal_file))?;
        Ok(())
    }

    /// Takes the journal's force away: a header without records is written
    /// over the old one, so that a replay finds nothing to do.
    pub fn end_wal(&mut self) -> (r: Result<(), Error<V::Error>>)
        requires
            old(self).wf(),
        ensures
            final(self).wf(),
            final(self).same_handles(old(self)),
            final(self).cur_header is Some,
            final(self).count() == 0,
            !old(self).is_open() ==> r matches Err(Error::InitError),
            old(self).is_open() ==> {
                &&& final(self).db() == old(self).db()
                &&& r is Err ==> r->Err_0 is Backend
                &&& r is Ok ==> final(self).journal() == with_header(old(self).journal().data, 0)
            },
    {
        self.cur_header = Some(WalHeader::default());
        self.wal_write_header_to_file()?;
        Ok(())
    }
}

/// Where the first record starts for a reader that has just read the header.
pub open spec fn records_start(j: Seq<u8>) -> nat {
    after_read(j, 0, 16)
}

impl<V: VolMan> FileHandler<V> {
    /// The journal's bytes and the whole database file are those of `before`.
    pub open spec fn reads_journal_only(&self, before: &Self) -> bool {
        &&& self.wf()
        &&& self.same_handles(before)
        &&& self.cur_header == before.cur_header
        &&& before.is_open() ==> {
            &&& self.db() == before.db()
            &&& self.journal().data == before.journal().data
        }
    }

    /// Reads the header from the front of the journal. Bytes that the journal
    /// lacks count as zero.
    pub fn wal_read_header(&mut self) -> (r: Result<WalHeader, Error<V::Error>>)
        requires
            old(self).wf(),
        ensures
            final(self).reads_journal_only(old(self)),
            !old(self).is_open() ==> r matches Err(Error::InitError),
            old(self).is_open() ==> {
                &&& r is Err ==> r->Err_0 is Backend
                &&& r is Ok ==> {
                    &&& r->Ok_0.stands_for(read_at(old(self).journal().data, 0, 16))
                    &&& final(self).journal().pos == records_start(old(self).journal().data)
                }
            },
    {
        let rw = match &mut self.page_rw {
            Some(rw) => rw,
            None => {
                return Err(Error::InitError);
            },
        };
        let wal = match &self.wal_file {
            Some(w) => w,
            None => {
                return Err(Error::InitError);
            },
        };
        lift(rw.vm.file_seek_from_start(wal, 0))?;
        let mut head = zero_buf(16);
        let _ = lift(read_full(&mut rw.vm, wal, &mut head))?;
        assert(head@ =~= read_at(old(self).journal().data, 0, 16));
        Ok(WalHeader::decode(head.as_slice()))
    }

    /// Whether the journal ends with the trailer.
    pub fn wal_verify_trailer(&mut self) -> (r: Result<bool, Error<V::Error>>)
        requires
            old(self).wf(),
        ensures
            final(self).reads_journal_only(old(self)),
            !old(self).is_open() ==> r matches Err(Error::InitError),
            old(self).is_open() ==> {
                &&& r is Err ==> r->Err_0 is Backend
                &&& r is Ok ==> r->Ok_0 == has_trailer(old(self).journal().data)
            },
    {
        let rw = match &mut self.page_rw {
            Some(rw) => rw,
            None => {
                return Err(Error::InitError);
            },
        };
        let wal = match &self.wal_file {
            Some(w) => w,
            None => {
                return Err(Error::InitError);
            },
        };
        let len: u32 = lift(rw.vm.file_length(wal))?;
        if len < 12 {
            return Ok(false);
        }
        lift(rw.vm.file_seek_from_end(wal, 12))?;
        let mut tail = zero_buf(12);
        let _ = lift(read_full(&mut rw.vm, wal, &mut tail))?;
        proof {
            let j = old(self).journal().data;
            assert(tail@ =~= j.subrange(j.len() - 12, j.len() as int));
            assert(WAL_TRAILER@ =~= trailer_bytes());
        }
        Ok(same_bytes(tail.as_slice(), WAL_TRAILER.as_slice()))
    }

    /// Reads a record's page number at the journal's cursor.
    pub fn wal_read_u32(&mut self) -> (r: Result<u32, Error<V::Error>>)
        requires
            old(self).wf(),
        ensures
            final(self).reads_journal_only(old(self)),
            !old(self).is_open() ==> r matches Err(Error::InitError),
            old(self).is_open() ==> {
                &&& r is Err ==> r->Err_0 is Backend
                &&& r is Ok ==> {
                    &&& r->Ok_0 == record_page(old(self).journal().data, old(self).journal().pos)
                    &&& final(self).journal().pos == after_read(
                        old(self).journal().data,
                        old(self).journal().pos,
                        4,
                    )
                }
            },
    {
        let rw = match &mut self.page_rw {
            Some(rw) => rw,
            None => {
                return Err(Error::InitError);
            },
        };
        let wal = match &self.wal_file {
            Some(w) => w,
            None => {
                return Err(Error::InitError);
            },
        };
        let mut word = zero_buf(4);
        let _ = lift(read_full(&mut rw.vm, wal, &mut word))?;
        assert(word@ =~= read_at(old(self).journal().data, old(self).journal().pos, 4));
        Ok(from_le_bytes(word.as_slice()))
    }

    /// Reads a record's payload at the journal's cursor into `buf`, zero
    /// where the journal ends early, and returns how many bytes it had.
    pub fn wal_read_buf(&mut self, buf: &mut Vec<u8>) -> (r: Result<usize, Error<V::Error>>)
        requires
            old(self).wf(),
            old(buf)@.len() == PAGE_SIZE,
        ensures
            final(self).reads_journal_only(old(self)),
            final(buf)@.len() == PAGE_SIZE,
            !old(self).is_open() ==> r matches Err(Error::InitError),
            old(self).is_open() ==> {
                &&& r is Err ==> r->Err_0 is Backend
                &&& r is Ok ==> {
                    let j = old(self).journal();
                    &&& r->Ok_0 == read_count(j.data, j.pos, 4096)
                    &&& final(buf)@ == read_at(j.data, j.pos, 4096)
                    &&& final(self).journal().pos == after_read(j.data, j.pos, 4096)
                }
            },
    {
        let rw = match &mut self.page_rw {
            Some(rw) => rw,
            None => {
                return Err(Error::InitError);
            },
        };
        let wal = match &self.wal_file {
            Some(w) => w,
            None => {
                return Err(Error::InitError);
            },
        };
        fill_zero(buf);
        let n = lift(read_full(&mut rw.vm, wal, buf))?;
        assert(buf@ =~= read_at(old(self).journal().data, old(self).journal().pos, 4096));
        Ok(n)
    }

    /// Gives up both files and the directory, and deletes the journal. On a
    /// handler that is closed already this does nothing.
    pub fn close(&mut self) -> (r: Result<(), Error<V::Error>>)
        requires
            old(self).wf(),
        ensures
            final(self).wf(),
            !final(self).is_open(),
            final(self).page_rw is None,
            final(self).wal_file is None,
            final(self).cur_header == old(self).cur_header,
            final(self).db_dir == old(self).db_dir,
            !old(self).is_open() ==> r is Ok,
            r is Err ==> r->Err_0 is Backend,
            old(self).is_open() && r is Ok ==> exists|vm: V| #[trigger]
                Self::torn_down(old(self), vm),
    {
        let taken = self.page_rw.take();
        if let Some(page_rw) = taken {
            let mut page_rw = page_rw;
            if let Some(f) = self.wal_file.take() {
                lift(page_rw.vm.file_close(f))?;
            }
            lift(page_rw.vm.delete_file_in_dir(&self.db_dir, WAL_FILE_NAME))?;
            lift(page_rw.vm.close_dir(&self.db_dir))?;
            lift(page_rw.vm.file_close(page_rw.file))?;
            proof {
                assert(Self::torn_down(old(self), page_rw.vm));
            }
        }
        Ok(())
    }
}

/// The highest page number whose byte offset fits the backend's cursor.
pub const MAX_PAGE: u32 = 1048575;

impl<V: VolMan> FileHandler<V> {
    /// What recovery leaves behind, from the files as `pre` holds them.
    ///
    /// A journal without magic or trailer leaves both files as they are and
    /// no header in memory. A journal with both whose header declares another
    /// page size, or one of whose records names a page that cannot be
    /// addressed, is refused, the second with the records before that one
    /// replayed. Otherwise success means that every record was written to
    /// its page, in the journal's order, and that the journal now starts
    /// with a header without records. A failure leaves the journal's bytes
    /// as they were unless every record was replayed.
    pub open spec fn restore_outcome(pre: &Self, post: &Self, r: Result<(), Error<V::Error>>) -> bool {
        let j = pre.journal().data;
        let db = pre.db().data;
        let n = stored_page_count(j) as nat;
        let start = records_start(j);
        &&& r is Err ==> (r->Err_0 is Backend || r->Err_0 is WalNotSupported)
        &&& !replayable(j) ==> {
            &&& post.db().data == db
            &&& post.journal().data == j
            &&& r is Ok ==> post.cur_header is None
        }
        &&& replayable(j) && stored_page_size(j) != 4096 ==> {
            &&& r is Err
            &&& post.db().data == db
            &&& post.journal().data == j
        }
        &&& replayable(j) && !records_addressable(j, start, n) ==> r is Err
        &&& replayable(j) && r is Err ==> post.journal().data == j || post.db().data == replay(
            db,
            j,
            start,
            n,
        )
        &&& replayable(j) && stored_page_size(j) == 4096 && r is Err && r->Err_0 is WalNotSupported
            ==> exists|k: nat|
            k < n && #[trigger] replay(db, j, start, k) == post.db().data && records_addressable(
                j,
                start,
                k,
            ) && !addressable(record_page(j, record_pos(j, start, k)))
        &&& r matches Err(Error::WalNotSupported) ==> replayable(j) && (stored_page_size(j) != 4096
            || !records_addressable(j, start, n))
        &&& r is Ok && replayable(j) ==> {
            &&& post.db().data == replay(db, j, start, n)
            &&& post.journal() == with_header(j, 0)
            &&& post.cur_header is Some
            &&& post.count() == 0
        }
    }

    /// Inspects the journal and, where it is complete, writes its records
    /// back to the database file.
    pub fn wal_check_restore(&mut self, buf: &mut Vec<u8>) -> (r: Result<(), Error<V::Error>>)
        requires
            old(self).wf(),
            old(buf)@.len() == PAGE_SIZE,
        ensures
            final(self).wf(),
            final(self).same_handles(old(self)),
            final(buf)@.len() == PAGE_SIZE,
            !old(self).is_open() ==> r matches Err(Error::InitError),
            old(self).is_open() ==> Self::restore_outcome(old(self), final(self), r),
    {
        let ghost j = old(self).journal().data;
        let ghost db = old(self).db().data;
        let first = self.wal_read_header()?;
        proof {
            assert(read_at(j, 0, 16).subrange(0, 8) =~= read_at(j, 0, 8));
        }
        if !first.has_magic() {
            self.cur_header = None;
            return Ok(());
        }
        if !self.wal_verify_trailer()? {
            self.cur_header = None;
            return Ok(());
        }
        let wal_header = self.wal_read_header()?;
        proof {
            assert(read_at(j, 0, 16).subrange(8, 12) =~= read_at(j, 8, 4));
            assert(read_at(j, 0, 16).subrange(12, 16) =~= read_at(j, 12, 4));
        }
        if wal_header.page_size != 4096 {
            return Err(Error::WalNotSupported);
        }
        let page_count: u32 = wal_header.page_count;
        let mut i: u32 = 0;
        while i < page_count
            invariant
                i <= page_count,
                page_count == stored_page_count(j),
                replayable(j),
                stored_page_size(j) == 4096,
                j == old(self).journal().data,
                db == old(self).db().data,
                old(self).is_open(),
                self.wf(),
                self.same_handles(old(self)),
                buf@.len() == PAGE_SIZE,
                self.journal().data == j,
                self.journal().pos == record_pos(j, records_start(j), i as nat),
                self.db().data == replay(db, j, records_start(j), i as nat),
                records_addressable(j, records_start(j), i as nat),
                replay(self.db().data, j, self.journal().pos, (page_count - i) as nat) == replay(
                    db,
                    j,
                    records_start(j),
                    page_count as nat,
                ),
                records_addressable(j, self.journal().pos, (page_count - i) as nat)
                    == records_addressable(j, records_start(j), page_count as nat),
            decreases page_count - i,
        {
            proof {
                lemma_replay_one_more(db, j, records_start(j), i as nat);
            }
            let page: u32 = self.wal_read_u32()?;
            let _ = self.wal_read_buf(buf)?;
            if page > MAX_PAGE {
                return Err(Error::WalNotSupported);
            }
            let rw = match &mut self.page_rw {
                Some(rw) => rw,
                None => {
                    return Err(Error::InitError);
                },
            };
            lift(rw.write_page(page, buf.as_slice()))?;
            i += 1;
        }
        self.cur_header = Some(WalHeader::default());
        self.wal_write_header_to_file()?;
        Ok(())
    }

    /// `pre` holds `vm` with the two files opened on it and nothing else
    /// changed: the database file first, then the journal, each created
    /// where it was missing and else with what the medium had of it.
    pub open spec fn opened_on(vm: V, db_dir: V::D, pre: &Self) -> bool {
        &&& pre.wf()
        &&& pre.is_open()
        &&& pre.cur_header is None
        &&& pre.db_dir == db_dir
        &&& !vm.files().contains_key(pre.wal_file->0)
        &&& !vm.files().contains_key(pre.page_rw->0.file)
        &&& pre.files().remove(pre.wal_file->0).remove(pre.page_rw->0.file) == vm.files()
        &&& pre.opened_files() == vm.opened_as().insert(
            pre.page_rw->0.file,
            (db_dir, DB_FILE_NAME@, Mode::ReadWriteCreateOrAppend),
        ).insert(pre.wal_file->0, (db_dir, WAL_FILE_NAME@, Mode::ReadWriteCreateOrAppend))
        &&& pre.page_rw->0.vm.names() == vm.names().insert((db_dir, DB_FILE_NAME@)).insert(
            (db_dir, WAL_FILE_NAME@),
        )
        &&& pre.db().data == content_at_open(
            vm.stored(),
            (db_dir, DB_FILE_NAME@),
            Mode::ReadWriteCreateOrAppend,
        )
        &&& pre.journal().data == content_at_open(
            vm.stored().remove((db_dir, DB_FILE_NAME@)),
            (db_dir, WAL_FILE_NAME@),
            Mode::ReadWriteCreateOrAppend,
        )
        &&& pre.page_rw->0.vm.stored() == vm.stored().remove((db_dir, DB_FILE_NAME@)).remove(
            (db_dir, WAL_FILE_NAME@),
        )
    }

    /// Opens the database file and the journal in `db_dir`, creating what is
    /// missing, and recovers from the journal. A journal that is not
    /// complete is passed over; one that is refused ends the start.
    pub fn new_init(vm: V, db_dir: V::D, buf: &mut Vec<u8>) -> (r: Result<Self, Error<V::Error>>)
        requires
            old(buf)@.len() == PAGE_SIZE,
        ensures
            final(buf)@.len() == PAGE_SIZE,
            r is Err ==> (r->Err_0 is Backend || r->Err_0 is WalNotSupported),
            r matches Err(Error::WalNotSupported) ==> exists|pre: Self, post: Self| #[trigger]
                Self::opened_on(vm, db_dir, &pre) && #[trigger] Self::restore_outcome(
                    &pre,
                    &post,
                    Err(Error::WalNotSupported),
                ),
            r is Ok ==> {
                &&& r->Ok_0.wf()
                &&& r->Ok_0.is_open()
                &&& r->Ok_0.db_dir == db_dir
                &&& r->Ok_0.opened_files() == vm.opened_as().insert(
                    r->Ok_0.page_rw->0.file,
                    (db_dir, DB_FILE_NAME@, Mode::ReadWriteCreateOrAppend),
                ).insert(
                    r->Ok_0.wal_file->0,
                    (db_dir, WAL_FILE_NAME@, Mode::ReadWriteCreateOrAppend),
                )
                &&& r->Ok_0.page_rw->0.vm.names() == vm.names().insert(
                    (db_dir, DB_FILE_NAME@),
                ).insert((db_dir, WAL_FILE_NAME@))
                &&& exists|pre: Self| #[trigger]
                    Self::opened_on(vm, db_dir, &pre) && r->Ok_0.same_handles(&pre)
                        && Self::restore_outcome(&pre, &r->Ok_0, Ok(()))
            },
    {
        let ghost vm0 = vm;
        let ghost dir0 = db_dir;
        let mut vm = vm;
        let db_file = lift(
            vm.open_file_in_dir(&db_dir, DB_FILE_NAME, Mode::ReadWriteCreateOrAppend),
        )?;
        let wal_file = lift(
            vm.open_file_in_dir(&db_dir, WAL_FILE_NAME, Mode::ReadWriteCreateOrAppend),
        )?;
        let mut fm = Self {
            wal_file: Some(wal_file),
            cur_header: None,
            db_dir: db_dir,
            page_rw: Some(PageRW::new(vm, db_file)),
        };
        let ghost pre = fm;
        proof {
            assert(pre.files().remove(pre.wal_file->0).remove(pre.page_rw->0.file)
                =~= vm0.files());
            assert(Self::opened_on(vm0, dir0, &pre));
        }
        match fm.wal_check_restore(buf) {
            Err(Error::InvalidWalFile) => (),
            Err(Error::WalNotSupported) => {
                proof {
                    assert(Self::restore_outcome(&pre, &fm, Err(Error::WalNotSupported)));
                }
                return Err(Error::WalNotSupported);
            },
            Err(other) => {
                return Err(other);
            },
            Ok(_) => (),
        };
        Ok(fm)
    }
}

} // verus!
