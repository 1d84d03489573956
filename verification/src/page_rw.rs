use crate::fs::{
    moves_cursor_only, read_count, read_full, read_into, sets_file, touches_only, write_at, VolMan,
};
use vstd::prelude::*;

verus! {

/// The size of a page, in the database file and in a journal record alike.
pub const PAGE_SIZE: usize = 4096;

/// A page number whose byte offset the backend's 32-bit cursor can reach.
pub open spec fn addressable(page_num: u32) -> bool {
    page_num * 4096 <= u32::MAX
}

/// Where page `page_num` starts in the file.
pub open spec fn page_offset(page_num: u32) -> nat {
    (page_num * 4096) as nat
}

/// A buffer of `len` zero bytes.
pub open spec fn zeros(len: nat) -> Seq<u8> {
    Seq::new(len, |i: int| 0u8)
}

/// The slot that an extension by one page writes: the first page behind the
/// file's whole pages, but never behind the page count that the caller knows.
pub open spec fn extension_slot(file_len: nat, cur_page_count: u32) -> nat {
    if file_len / 4096 < cur_page_count {
        file_len / 4096
    } else {
        cur_page_count as nat
    }
}

/// A file that is one whole page ahead of the known page count gets that
/// trailing page written again: the slot is the known count, and it lies
/// inside the file.
pub proof fn lemma_extension_reuses_trailing_slot(file_len: nat, cur_page_count: u32)
    requires
        file_len == (cur_page_count + 1) * 4096,
    ensures
        extension_slot(file_len, cur_page_count) == cur_page_count,
        (extension_slot(file_len, cur_page_count) + 1) * 4096 <= file_len,
{
    assert(((cur_page_count + 1) * 4096) / 4096 == cur_page_count + 1) by (nonlinear_arith);
}

/// Overwrites every byte of `buf` with zero.
pub fn fill_zero(buf: &mut Vec<u8>)
    ensures
        final(buf)@ == zeros(old(buf)@.len()),
{
    let n: usize = buf.len();
    let mut i: usize = 0;
    while i < n
        invariant
            i <= n,
            buf@.len() == n,
            forall|k: int| 0 <= k < i ==> buf@[k] == 0u8,
        decreases n - i,
    {
        buf[i] = 0;
        i += 1;
    }
    assert(buf@ =~= zeros(n as nat));
}

/// A new buffer of `n` zero bytes.
pub fn zero_buf(n: usize) -> (buf: Vec<u8>)
    ensures
        buf@ == zeros(n as nat),
{
    let mut buf: Vec<u8> = Vec::new();
    let mut i: usize = 0;
    while i < n
        invariant
            i <= n,
            buf@.len() == i,
            forall|k: int| 0 <= k < i ==> buf@[k] == 0u8,
        decreases n - i,
    {
        buf.push(0);
        i += 1;
    }
    assert(buf@ =~= zeros(n as nat));
    buf
}

/// Whether two byte strings are the same.
pub fn same_bytes(a: &[u8], b: &[u8]) -> (r: bool)
    ensures
        r == (a@ == b@),
{
    if a.len() != b.len() {
        return false;
    }
    let mut i: usize = 0;
    while i < a.len()
        invariant
            i <= a@.len(),
            a@.len() == b@.len(),
            forall|k: int| 0 <= k < i ==> a@[k] == b@[k],
        decreases a@.len() - i,
    {
        if a[i] != b[i] {
            return false;
        }
        i += 1;
    }
    assert(a@ =~= b@);
    true
}

/// Page-wise access to one open file of a backend.
pub struct PageRW<V: VolMan> {
    pub vm: V,
    pub file: V::F,
}

impl<V: VolMan> PageRW<V> {
    /// The file's handle is open in the backend.
    pub open spec fn wf(&self) -> bool {
        self.vm.files().contains_key(self.file)
    }

    /// The bytes of the file.
    pub open spec fn data(&self) -> Seq<u8> {
        self.vm.files()[self.file].data
    }

    /// The file's cursor.
    pub open spec fn pos(&self) -> nat {
        self.vm.files()[self.file].pos
    }

    pub fn new(vm: V, file: V::F) -> (rw: Self)
        ensures
            rw.vm == vm,
            rw.file == file,
    {
        Self { file: file, vm: vm }
    }

    /// Reads page `page_num` into the front of `buf` and returns how many
    /// bytes the file had for it: fewer than a page only where the file ends.
    pub fn read_page(&mut self, page_num: u32, buf: &mut Vec<u8>) -> (r: Result<usize, V::Error>)
        requires
            old(self).wf(),
            addressable(page_num),
            old(buf)@.len() == PAGE_SIZE,
        ensures
            final(self).file == old(self).file,
            final(self).vm.opened_as() == old(self).vm.opened_as(),
            final(self).vm.names() == old(self).vm.names(),
            final(self).vm.stored() == old(self).vm.stored(),
            final(buf)@.len() == PAGE_SIZE,
            moves_cursor_only(old(self).vm.files(), final(self).vm.files(), old(self).file),
            r is Ok ==> {
                &&& r->Ok_0 == read_count(old(self).data(), page_offset(page_num), PAGE_SIZE as nat)
                &&& final(buf)@ == read_into(old(buf)@, old(self).data(), page_offset(page_num))
                &&& final(self).pos() == page_offset(page_num) + r->Ok_0
            },
    {
        let offset: u32 = page_num * 4096;
        match self.vm.file_seek_from_start(&self.file, offset) {
            Ok(()) => {},
            Err(e) => {
                return Err(e);
            },
        }
        let r = read_full(&mut self.vm, &self.file, buf);
        proof {
            assert(final(self).vm.files() =~= old(self).vm.files().insert(
                old(self).file,
                final(self).vm.files()[old(self).file],
            ));
        }
        r
    }

    /// Writes `buf` as page `page_num`.
    pub fn write_page(&mut self, page_num: u32, buf: &[u8]) -> (r: Result<(), V::Error>)
        requires
            old(self).wf(),
            addressable(page_num),
            buf@.len() == PAGE_SIZE,
        ensures
            final(self).file == old(self).file,
            final(self).vm.opened_as() == old(self).vm.opened_as(),
            final(self).vm.names() == old(self).vm.names(),
            final(self).vm.stored() == old(self).vm.stored(),
            r is Ok ==> sets_file(
                old(self).vm.files(),
                final(self).vm.files(),
                old(self).file,
                write_at(old(self).data(), page_offset(page_num), buf@),
                (page_offset(page_num) + PAGE_SIZE) as nat,
            ),
            r is Err ==> touches_only(old(self).vm.files(), final(self).vm.files(), old(self).file),
    {
        let offset: u32 = page_num * 4096;
        match self.vm.file_seek_from_start(&self.file, offset) {
            Ok(()) => {},
            Err(e) => {
                return Err(e);
            },
        }
        let r = self.vm.file_write(&self.file, buf);
        proof {
            assert(final(self).vm.files() =~= old(self).vm.files().insert(
                old(self).file,
                final(self).vm.files()[old(self).file],
            ));
        }
        r
    }

    /// Adds one zero page to the file and returns its page number. A page
    /// that a broken-off extension left behind the known page count is
    /// written again, not followed by another.
    pub fn extend_file_one_page(&mut self, cur_db_page_count: u32, buf: &mut Vec<u8>) -> (r: Result<
        u32,
        V::Error,
    >)
        requires
            old(self).wf(),
            old(buf)@.len() == PAGE_SIZE,
        ensures
            final(self).file == old(self).file,
            final(self).vm.opened_as() == old(self).vm.opened_as(),
            final(self).vm.names() == old(self).vm.names(),
            final(self).vm.stored() == old(self).vm.stored(),
            final(buf)@.len() == PAGE_SIZE,
            touches_only(old(self).vm.files(), final(self).vm.files(), old(self).file),
            r is Ok ==> {
                let page = r->Ok_0;
                &&& page == extension_slot(old(self).data().len(), cur_db_page_count)
                &&& addressable(page)
                &&& final(buf)@ == zeros(PAGE_SIZE as nat)
                &&& final(self).data() == write_at(
                    old(self).data(),
                    page_offset(page),
                    zeros(PAGE_SIZE as nat),
                )
                &&& final(self).pos() == page_offset(page) + PAGE_SIZE
            },
    {
        let len: u32 = match self.vm.file_length(&self.file) {
            Ok(len) => len,
            Err(e) => {
                assert(self.vm.files() =~= self.vm.files().insert(
                    self.file,
                    self.vm.files()[self.file],
                ));
                return Err(e);
            },
        };
        let whole: u32 = len / 4096;
        let page: u32 = if whole < cur_db_page_count {
            whole
        } else {
            cur_db_page_count
        };
        fill_zero(buf);
        match self.write_page(page, buf.as_slice()) {
            Ok(()) => Ok(page),
            Err(e) => Err(e),
        }
    }
}

/// What a fault plan says of the next page write.
#[derive(Clone, Copy, Debug, PartialEq, Eq)]
pub enum WriteFate {
    /// The write goes to the backend.
    Proceed,
    /// The run breaks off here, as if the power were cut: nothing is written.
    Abort,
}

/// How many page writes a test lets through before it breaks the run off,
/// and how often it does so. A test makes its own plan and hands it to each
/// gated write, so that no two tests share one.
#[derive(Clone, Copy, Debug)]
pub struct FaultPlan {
    pub writes_rem: usize,
    pub aborts_rem: usize,
}

impl FaultPlan {
    /// A plan that lets `writes` page writes through and then breaks off
    /// `aborts` times.
    pub fn new(writes: usize, aborts: usize) -> (plan: Self)
        ensures
            plan.writes_rem == writes,
            plan.aborts_rem == aborts,
    {
        FaultPlan { writes_rem: writes, aborts_rem: aborts }
    }

    /// What the plan says of the next write.
    pub open spec fn fate(&self) -> WriteFate {
        if self.writes_rem == 0 && self.aborts_rem > 0 {
            WriteFate::Abort
        } else {
            WriteFate::Proceed
        }
    }

    /// The plan after the next write was decided: a break-off uses up one of
    /// the break-offs, a write that goes through one of the writes, as long
    /// as there are any.
    pub open spec fn step(&self) -> FaultPlan {
        if self.writes_rem == 0 && self.aborts_rem > 0 {
            FaultPlan { writes_rem: 0, aborts_rem: (self.aborts_rem - 1) as usize }
        } else if self.writes_rem > 0 {
            FaultPlan { writes_rem: (self.writes_rem - 1) as usize, aborts_rem: self.aborts_rem }
        } else {
            *self
        }
    }

    /// Decides the next write and counts it.
    pub fn next_write(&mut self) -> (fate: WriteFate)
        ensures
            fate == old(self).fate(),
            *final(self) == old(self).step(),
    {
        if self.writes_rem == 0 && self.aborts_rem > 0 {
            self.aborts_rem -= 1;
            return WriteFate::Abort;
        }
        if self.writes_rem > 0 {
            self.writes_rem -= 1;
        }
        WriteFate::Proceed
    }
}

impl<V: VolMan> PageRW<V> {
    /// Writes `buf` as page `page_num` if `plan` lets the write through, and
    /// says whether it did. Where the plan breaks off, the file is not
    /// touched and the caller ends the run.
    pub fn write_page_gated(&mut self, plan: &mut FaultPlan, page_num: u32, buf: &[u8]) -> (r:
        Result<WriteFate, V::Error>)
        requires
            old(self).wf(),
            addressable(page_num),
            buf@.len() == PAGE_SIZE,
        ensures
            final(self).file == old(self).file,
            final(self).vm.opened_as() == old(self).vm.opened_as(),
            final(self).vm.names() == old(self).vm.names(),
            final(self).vm.stored() == old(self).vm.stored(),
            *final(plan) == old(plan).step(),
            old(plan).fate() == WriteFate::Abort ==> r == Ok::<WriteFate, V::Error>(
                WriteFate::Abort,
            ) && final(self).vm.files() == old(self).vm.files(),
            old(plan).fate() == WriteFate::Proceed ==> {
                &&& r is Ok ==> r->Ok_0 == WriteFate::Proceed && sets_file(
                    old(self).vm.files(),
                    final(self).vm.files(),
                    old(self).file,
                    write_at(old(self).data(), page_offset(page_num), buf@),
                    (page_offset(page_num) + PAGE_SIZE) as nat,
                )
                &&& r is Err ==> touches_only(
                    old(self).vm.files(),
                    final(self).vm.files(),
                    old(self).file,
                )
            },
    {
        match plan.next_write() {
            WriteFate::Abort => Ok(WriteFate::Abort),
            WriteFate::Proceed => match self.write_page(page_num, buf) {
                Ok(()) => Ok(WriteFate::Proceed),
                Err(e) => Err(e),
            },
        }
    }
}

} // verus!
