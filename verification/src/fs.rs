use crate::page_rw::zero_buf;
use vstd::prelude::*;

verus! {

/// Marker for the handle type a backend gives out for an open file.
pub trait PageFile {

}

/// Marker for the handle type a backend gives out for an open directory.
pub trait DbDir {

}

/// How a file is opened inside a directory.
#[derive(Clone, Copy, Debug)]
pub enum Mode {
    ReadOnly,
    ReadWriteAppend,
    ReadWriteTruncate,
    ReadWriteCreate,
    ReadWriteCreateOrTruncate,
    ReadWriteCreateOrAppend,
}

impl Mode {
    /// The mode opens a file that is not there yet, by making it.
    pub open spec fn spec_creates(self) -> bool {
        self is ReadWriteCreate || self is ReadWriteCreateOrTruncate
            || self is ReadWriteCreateOrAppend
    }

    /// The mode refuses a file that is there already.
    pub open spec fn spec_wants_new(self) -> bool {
        self is ReadWriteCreate
    }

    /// The mode empties a file that is there already.
    pub open spec fn spec_truncates(self) -> bool {
        self is ReadWriteTruncate || self is ReadWriteCreateOrTruncate
    }

    /// The mode puts the cursor behind the file's last byte.
    pub open spec fn spec_appends(self) -> bool {
        self is ReadWriteAppend || self is ReadWriteCreateOrAppend
    }

    pub fn creates(self) -> (b: bool)
        ensures
            b == self.spec_creates(),
    {
        match self {
            Mode::ReadWriteCreate => true,
            Mode::ReadWriteCreateOrTruncate => true,
            Mode::ReadWriteCreateOrAppend => true,
            _ => false,
        }
    }

    pub fn wants_new(self) -> (b: bool)
        ensures
            b == self.spec_wants_new(),
    {
        match self {
            Mode::ReadWriteCreate => true,
            _ => false,
        }
    }

    pub fn truncates(self) -> (b: bool)
        ensures
            b == self.spec_truncates(),
    {
        match self {
            Mode::ReadWriteTruncate => true,
            Mode::ReadWriteCreateOrTruncate => true,
            _ => false,
        }
    }

    pub fn appends(self) -> (b: bool)
        ensures
            b == self.spec_appends(),
    {
        match self {
            Mode::ReadWriteAppend => true,
            Mode::ReadWriteCreateOrAppend => true,
            _ => false,
        }
    }
}

/// What a backend holds for one open file: its bytes and the cursor.
pub struct FileState {
    pub data: Seq<u8>,
    pub pos: nat,
}

/// The bytes a read of `len` bytes at `off` yields, zero beyond the end of `data`.
pub open spec fn read_at(data: Seq<u8>, off: nat, len: nat) -> Seq<u8> {
    Seq::new(
        len,
        |i: int|
            if off + i < data.len() {
                data[off + i]
            } else {
                0u8
            },
    )
}

/// How many bytes a read of at most `want` bytes at `off` transfers.
pub open spec fn read_count(data: Seq<u8>, off: nat, want: nat) -> nat {
    if off >= data.len() {
        0
    } else if data.len() - off < want {
        (data.len() - off) as nat
    } else {
        want
    }
}

/// A buffer after a read at `off`: the bytes that exist replace the front of
/// the buffer, the rest of the buffer stays.
pub open spec fn read_into(buf: Seq<u8>, data: Seq<u8>, off: nat) -> Seq<u8> {
    Seq::new(
        buf.len(),
        |i: int|
            if off + i < data.len() {
                data[off + i]
            } else {
                buf[i]
            },
    )
}

/// The file after `bytes` are written at `off`. A gap between the old end and
/// `off` reads as zero. Writing nothing changes nothing.
pub open spec fn write_at(data: Seq<u8>, off: nat, bytes: Seq<u8>) -> Seq<u8> {
    if bytes.len() == 0 {
        data
    } else {
        Seq::new(
            if data.len() > off + bytes.len() {
                data.len()
            } else {
                off + bytes.len()
            },
            |i: int|
                if off <= i < off + bytes.len() {
                    bytes[i - off]
                } else if i < data.len() {
                    data[i]
                } else {
                    0u8
                },
        )
    }
}

/// A buffer whose first `n` bytes were read at `off`; the rest of it stays.
pub open spec fn read_prefix(buf: Seq<u8>, data: Seq<u8>, off: nat, n: nat) -> Seq<u8> {
    Seq::new(
        buf.len(),
        |i: int|
            if i < n {
                data[off + i]
            } else {
                buf[i]
            },
    )
}

/// `after` differs from `before` in the state of `file` at most.
pub open spec fn touches_only<F>(
    before: Map<F, FileState>,
    after: Map<F, FileState>,
    file: F,
) -> bool {
    &&& before.contains_key(file)
    &&& after.contains_key(file)
    &&& after == before.insert(file, after[file])
}

/// `after` differs from `before` in the cursor of `file` at most.
pub open spec fn moves_cursor_only<F>(
    before: Map<F, FileState>,
    after: Map<F, FileState>,
    file: F,
) -> bool {
    &&& touches_only(before, after, file)
    &&& after[file].data == before[file].data
}

/// `after` is `before` with `file` holding `data` and its cursor at `pos`.
pub open spec fn sets_file<F>(
    before: Map<F, FileState>,
    after: Map<F, FileState>,
    file: F,
    data: Seq<u8>,
    pos: nat,
) -> bool {
    &&& before.contains_key(file)
    &&& after == before.insert(file, FileState { data, pos })
}

/// What a file holds right after it was opened in `mode`, given what the
/// medium has under each name: nothing where the mode empties it or the
/// file was not there, else what the medium has.
pub open spec fn content_at_open<D>(
    stored: Map<(D, Seq<char>), Seq<u8>>,
    key: (D, Seq<char>),
    mode: Mode,
) -> Seq<u8> {
    if mode.spec_truncates() || !stored.contains_key(key) {
        Seq::<u8>::empty()
    } else {
        stored[key]
    }
}

/// The storage medium: files and directories behind opaque handles.
///
/// `files` is the model the contracts speak of: the open file handles, each
/// with the bytes of its file and its cursor. A handle is valid from the call
/// that opened it to the call that closes it.
pub trait VolMan {
    type Error;

    type F: PageFile;

    type D: DbDir;

    /// The open handles with their files. A backend that proves its
    /// methods against this trait says here what it holds; of one that does
    /// not, nothing is known.
    open spec fn files(&self) -> Map<Self::F, FileState> {
        arbitrary()
    }

    /// Under which directory, name and mode each open handle was opened.
    open spec fn opened_as(&self) -> Map<Self::F, (Self::D, Seq<char>, Mode)> {
        arbitrary()
    }

    /// The names under which the medium holds a file, by directory.
    open spec fn names(&self) -> Set<(Self::D, Seq<char>)> {
        arbitrary()
    }

    /// What the medium has of each file that no handle holds open, by
    /// directory and name.
    open spec fn stored(&self) -> Map<(Self::D, Seq<char>), Seq<u8>> {
        arbitrary()
    }

    /// What of each open file is known to have reached the medium, so
    /// that it outlasts a loss of power.
    open spec fn durable(&self) -> Map<Self::F, Seq<u8>> {
        arbitrary()
    }

    /// Puts the cursor `offset` bytes behind the start of the file.
    fn file_seek_from_start(&mut self, file: &Self::F, offset: u32) -> (r: Result<(), Self::Error>)
        requires
            old(self).files().contains_key(*file),
        ensures
            r is Ok ==> sets_file(
                old(self).files(),
                final(self).files(),
                *file,
                old(self).files()[*file].data,
                offset as nat,
            ),
            r is Err ==> moves_cursor_only(old(self).files(), final(self).files(), *file),
            final(self).opened_as() == old(self).opened_as(),
            final(self).names() == old(self).names(),
            final(self).stored() == old(self).stored(),
    ;

    /// Puts the cursor `offset` bytes before the end of the file.
    fn file_seek_from_end(&mut self, file: &Self::F, offset: u32) -> (r: Result<(), Self::Error>)
        requires
            old(self).files().contains_key(*file),
        ensures
            r is Ok ==> offset <= old(self).files()[*file].data.len() && sets_file(
                old(self).files(),
                final(self).files(),
                *file,
                old(self).files()[*file].data,
                (old(self).files()[*file].data.len() - offset) as nat,
            ),
            r is Err ==> moves_cursor_only(old(self).files(), final(self).files(), *file),
            final(self).opened_as() == old(self).opened_as(),
            final(self).names() == old(self).names(),
            final(self).stored() == old(self).stored(),
    ;

    /// Reads at the cursor into the front of `buf` and moves the cursor behind
    /// what was read. A read may be short, but where the buffer has room
    /// and the file has bytes left it transfers at least one.
    fn file_read(&mut self, file: &Self::F, buf: &mut Vec<u8>) -> (r: Result<usize, Self::Error>)
        requires
            old(self).files().contains_key(*file),
        ensures
            final(buf)@.len() == old(buf)@.len(),
            moves_cursor_only(old(self).files(), final(self).files(), *file),
            final(self).opened_as() == old(self).opened_as(),
            final(self).names() == old(self).names(),
            final(self).stored() == old(self).stored(),
            r is Ok ==> {
                let st = old(self).files()[*file];
                &&& r->Ok_0 <= read_count(st.data, st.pos, old(buf)@.len())
                &&& read_count(st.data, st.pos, old(buf)@.len()) > 0 ==> r->Ok_0 > 0
                &&& final(buf)@ == read_prefix(old(buf)@, st.data, st.pos, r->Ok_0 as nat)
                &&& final(self).files()[*file].pos == st.pos + r->Ok_0
            },
    ;

    /// Writes all of `buf` at the cursor and moves the cursor behind it.
    fn file_write(&mut self, file: &Self::F, buf: &[u8]) -> (r: Result<(), Self::Error>)
        requires
            old(self).files().contains_key(*file),
        ensures
            r is Ok ==> {
                let st = old(self).files()[*file];
                sets_file(
                    old(self).files(),
                    final(self).files(),
                    *file,
                    write_at(st.data, st.pos, buf@),
                    st.pos + buf@.len(),
                )
            },
            r is Err ==> touches_only(old(self).files(), final(self).files(), *file),
            final(self).opened_as() == old(self).opened_as(),
            final(self).names() == old(self).names(),
            final(self).stored() == old(self).stored(),
    ;

    /// The cursor's distance from the start of the file.
    fn file_offset(&self, file: &Self::F) -> (r: Result<u32, Self::Error>)
        requires
            self.files().contains_key(*file),
        ensures
            r is Ok ==> r->Ok_0 == self.files()[*file].pos,
    ;

    /// The file's size in bytes.
    fn file_length(&self, file: &Self::F) -> (r: Result<u32, Self::Error>)
        requires
            self.files().contains_key(*file),
        ensures
            r is Ok ==> r->Ok_0 == self.files()[*file].data.len(),
    ;

    /// Gives the handle back. It is gone whether or not the backend reports a fault.
    fn file_close(&mut self, file: Self::F) -> (r: Result<(), Self::Error>)
        requires
            old(self).files().contains_key(file),
        ensures
            final(self).files() == old(self).files().remove(file),
            final(self).opened_as() == old(self).opened_as().remove(file),
            final(self).names() == old(self).names(),
            final(self).stored() == old(self).stored().insert(
                (old(self).opened_as()[file].0, old(self).opened_as()[file].1),
                old(self).files()[file].data,
            ),
    ;

    /// Forces what was written to the medium: on success the file's bytes
    /// are durable.
    fn file_flush(&mut self, file: &Self::F) -> (r: Result<(), Self::Error>)
        requires
            old(self).files().contains_key(*file),
        ensures
            final(self).files() == old(self).files(),
            final(self).opened_as() == old(self).opened_as(),
            final(self).names() == old(self).names(),
            final(self).stored() == old(self).stored(),
            r is Ok ==> final(self).durable() == old(self).durable().insert(
                *file,
                old(self).files()[*file].data,
            ),
    ;

    /// Gives the directory handle back. Open files are not touched.
    fn close_dir(&mut self, dir: &Self::D) -> (r: Result<(), Self::Error>)
        ensures
            final(self).files() == old(self).files(),
            final(self).opened_as() == old(self).opened_as(),
            final(self).names() == old(self).names(),
            final(self).stored() == old(self).stored(),
    ;

    /// Opens `name` in `dir`. The handle is new and the medium holds a file
    /// of that name from then on, with what it had unless the mode empties
    /// it; where the cursor stands is the medium's to say.
    fn open_file_in_dir(&mut self, dir: &Self::D, name: &'static str, mode: Mode) -> (r: Result<
        Self::F,
        Self::Error,
    >)
        ensures
            r is Ok ==> {
                &&& !old(self).files().contains_key(r->Ok_0)
                &&& final(self).files().contains_key(r->Ok_0)
                &&& final(self).files().remove(r->Ok_0) == old(self).files()
                &&& final(self).opened_as() == old(self).opened_as().insert(
                    r->Ok_0,
                    (*dir, name@, mode),
                )
                &&& final(self).names() == old(self).names().insert((*dir, name@))
                &&& final(self).stored() == old(self).stored().remove((*dir, name@))
                &&& final(self).files()[r->Ok_0].data == content_at_open(
                    old(self).stored(),
                    (*dir, name@),
                    mode,
                )
            },
            r is Err ==> {
                &&& final(self).files() == old(self).files()
                &&& final(self).opened_as() == old(self).opened_as()
                &&& final(self).names() == old(self).names()
                &&& final(self).stored() == old(self).stored()
            },
    ;

    /// Removes `name` from `dir`. Open files are not touched.
    fn delete_file_in_dir(&mut self, dir: &Self::D, name: &'static str) -> (r: Result<
        (),
        Self::Error,
    >)
        ensures
            final(self).files() == old(self).files(),
            final(self).opened_as() == old(self).opened_as(),
            r is Ok ==> final(self).names() == old(self).names().remove((*dir, name@)),
            r is Err ==> final(self).names() == old(self).names(),
            r is Ok ==> final(self).stored() == old(self).stored().remove((*dir, name@)),
            r is Err ==> final(self).stored() == old(self).stored(),
    ;
}

/// Reads at the cursor of `file` until `buf` is full or the file ends, and
/// returns how many bytes that were. What the backend hands over in several
/// short reads ends up in `buf` as one read would have left it.
pub fn read_full<V: VolMan>(vm: &mut V, file: &V::F, buf: &mut Vec<u8>) -> (r: Result<
    usize,
    V::Error,
>)
    requires
        old(vm).files().contains_key(*file),
    ensures
        final(buf)@.len() == old(buf)@.len(),
        moves_cursor_only(old(vm).files(), final(vm).files(), *file),
        final(vm).opened_as() == old(vm).opened_as(),
        final(vm).names() == old(vm).names(),
        final(vm).stored() == old(vm).stored(),
        r is Ok ==> {
            let st = old(vm).files()[*file];
            &&& r->Ok_0 == read_count(st.data, st.pos, old(buf)@.len())
            &&& final(buf)@ == read_into(old(buf)@, st.data, st.pos)
            &&& final(vm).files()[*file].pos == st.pos + r->Ok_0
        },
{
    let ghost st = old(vm).files()[*file];
    let want: usize = buf.len();
    let mut got: usize = 0;
    let mut ended: bool = false;
    proof {
        assert(vm.files() =~= old(vm).files().insert(*file, vm.files()[*file]));
    }
    while got < want && !ended
        invariant
            got <= want,
            want == old(buf)@.len(),
            buf@.len() == want,
            st == old(vm).files()[*file],
            moves_cursor_only(old(vm).files(), vm.files(), *file),
            vm.opened_as() == old(vm).opened_as(),
            vm.names() == old(vm).names(),
            vm.stored() == old(vm).stored(),
            vm.files()[*file].pos == st.pos + got,
            got <= read_count(st.data, st.pos, want as nat),
            ended ==> st.pos + got >= st.data.len(),
            forall|i: int| 0 <= i < got ==> buf@[i] == st.data[st.pos + i],
            forall|i: int| got <= i < want ==> buf@[i] == old(buf)@[i],
        decreases want - got + (if ended { 0int } else { 1int }),
    {
        let mut chunk: Vec<u8> = zero_buf(want - got);
        let n: usize = match vm.file_read(file, &mut chunk) {
            Ok(n) => n,
            Err(e) => {
                proof {
                    assert(vm.files() =~= old(vm).files().insert(*file, vm.files()[*file]));
                }
                return Err(e);
            },
        };
        proof {
            assert(vm.files() =~= old(vm).files().insert(*file, vm.files()[*file]));
        }
        if n == 0 {
            ended = true;
        } else {
            let mut k: usize = 0;
            while k < n
                invariant
                    k <= n,
                    n <= want - got,
                    got <= want,
                    buf@.len() == want,
                    chunk@.len() == want - got,
                    forall|i: int| 0 <= i < got ==> buf@[i] == st.data[st.pos + i],
                    forall|i: int| got <= i < got + k ==> buf@[i] == chunk@[i - got],
                    forall|i: int| got + k <= i < want ==> buf@[i] == old(buf)@[i],
                decreases n - k,
            {
                buf[got + k] = chunk[k];
                k += 1;
            }
            got += n;
        }
    }
    proof {
        assert(buf@ =~= read_into(old(buf)@, st.data, st.pos));
    }
    Ok(got)
}

} // verus!
