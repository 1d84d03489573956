use crate::fs::{
    read_count, read_prefix, write_at, DbDir, FileState, Mode, PageFile, VolMan,
};
use vstd::prelude::*;

verus! {

/// The handle of a file in memory: its slot in the volume.
#[derive(Debug)]
pub struct MemFile {
    pub id: usize,
}

impl PageFile for MemFile {

}

/// The one directory of a volume in memory.
#[derive(Debug)]
pub struct MemDir {}

impl DbDir for MemDir {

}

/// Why a volume in memory refuses a call.
#[derive(Debug)]
pub enum MemError {
    /// No file of that name, and the mode does not create one.
    NotFound,
    /// The file exists, and the mode wants to create it.
    AlreadyExists,
    /// The file is open under another handle.
    AlreadyOpen,
    /// The handle is not in use.
    BadHandle,
    /// The offset lies outside what a seek can reach.
    BadOffset,
    /// The file would outgrow a 32-bit length.
    TooLarge,
    /// The write budget is used up.
    WriteFault,
}

/// One slot of the volume.
pub struct MemEntry {
    pub name: &'static str,
    pub present: bool,
    pub open: bool,
    pub mode: Mode,
    pub data: Vec<u8>,
    pub pos: usize,
}

/// A volume that keeps its files in memory, with a budget of writes for
/// tests that break a transaction off and a cap on what one read transfers
/// for tests of short reads.
pub struct MemVolMan {
    pub store: Vec<MemEntry>,
    pub writes_left: Option<usize>,
    pub read_limit: Option<usize>,
}

/// Compares two names with `str`'s `==`: true exactly when they hold the
/// same characters.
#[verifier::external_body]
fn same_name(a: &str, b: &str) -> (r: bool)
    ensures
        r == (a@ == b@),
{
    a == b
}

/// Writes `buf` into `data` at `pos`, growing it with zeros where needed.
pub fn write_into(data: &mut Vec<u8>, pos: usize, buf: &[u8])
    requires
        pos + buf@.len() <= usize::MAX,
    ensures
        final(data)@ == write_at(old(data)@, pos as nat, buf@),
{
    let n: usize = buf.len();
    if n == 0 {
        return ;
    }
    let end: usize = pos + n;
    while data.len() < end
        invariant
            data@.len() >= old(data)@.len(),
            data@.len() <= end || data@.len() == old(data)@.len(),
            forall|k: int| 0 <= k < old(data)@.len() ==> data@[k] == old(data)@[k],
            forall|k: int| old(data)@.len() <= k < data@.len() ==> data@[k] == 0u8,
        decreases end - data@.len(),
    {
        data.push(0);
    }
    let ghost grown_len = data@.len();
    let mut i: usize = 0;
    while i < n
        invariant
            i <= n,
            n == buf@.len(),
            end == pos + n,
            data@.len() == grown_len,
            grown_len >= end,
            grown_len >= old(data)@.len(),
            grown_len == end || grown_len == old(data)@.len(),
            forall|k: int|
                0 <= k < data@.len() ==> #[trigger] data@[k] == (if pos <= k < pos + i {
                    buf@[k - pos]
                } else if k < old(data)@.len() {
                    old(data)@[k]
                } else {
                    0u8
                }),
        decreases n - i,
    {
        data[pos + i] = buf[i];
        i += 1;
    }
    assert(data@ =~= write_at(old(data)@, pos as nat, buf@));
}

/// How many bytes one read transfers where `limit` caps it: the cap counts
/// as one where it is zero.
pub open spec fn capped(count: nat, limit: Option<usize>) -> nat {
    match limit {
        Some(cap) => if cap == 0 {
            if count < 1 {
                count
            } else {
                1
            }
        } else if count < cap {
            count
        } else {
            cap as nat
        },
        None => count,
    }
}

/// Copies what `data` holds from `pos` on into the front of `buf`, at most
/// `limit` bytes of it.
pub fn read_from(data: &Vec<u8>, pos: usize, buf: &mut Vec<u8>, limit: Option<usize>) -> (n: usize)
    ensures
        n == capped(read_count(data@, pos as nat, old(buf)@.len()), limit),
        final(buf)@ == read_prefix(old(buf)@, data@, pos as nat, n as nat),
{
    let most: usize = match limit {
        Some(cap) => if cap == 0 {
            1
        } else {
            cap
        },
        None => usize::MAX,
    };
    let room: usize = buf.len();
    let mut i: usize = 0;
    while i < most && i < room && pos < data.len() && i < data.len() - pos
        invariant
            buf@.len() == old(buf)@.len(),
            buf@.len() == room,
            limit is None ==> most == usize::MAX,
            limit is Some ==> most == (if limit->0 == 0 {
                1usize
            } else {
                limit->0
            }),
            i <= most,
            i <= buf@.len(),
            pos < data@.len() ==> i <= data@.len() - pos,
            pos >= data@.len() ==> i == 0,
            forall|k: int| 0 <= k < i ==> buf@[k] == data@[pos + k],
            forall|k: int| i <= k < buf@.len() ==> buf@[k] == old(buf)@[k],
        decreases buf@.len() - i,
    {
        buf[i] = data[pos + i];
        i += 1;
    }
    assert(buf@ =~= read_prefix(old(buf)@, data@, pos as nat, i as nat));
    i
}

impl MemVolMan {
    /// Slot `id` is the first that carries its name.
    pub open spec fn is_first(&self, id: int) -> bool {
        0 <= id < self.store@.len() && self.first_named(self.store@[id].name@, id)
    }

    /// Slot `id` is in use by an open handle: it holds a file, the file is
    /// open, and the slot is the one that its name leads to.
    pub open spec fn is_open(&self, id: int) -> bool {
        0 <= id < self.store@.len() && self.store@[id].open && self.store@[id].present
            && self.is_first(id)
    }

    /// An empty volume that never refuses a write.
    pub fn new() -> (vm: Self)
        ensures
            vm.store@.len() == 0,
            vm.writes_left is None,
            vm.read_limit is None,
            vm.files() == Map::<MemFile, FileState>::empty(),
    {
        let vm = MemVolMan { store: Vec::new(), writes_left: None, read_limit: None };
        assert(vm.files() =~= Map::<MemFile, FileState>::empty());
        vm
    }

    /// From now on `n` more writes succeed and all later ones fail.
    pub fn fail_writes_after(&mut self, n: usize)
        ensures
            final(self).store == old(self).store,
            final(self).writes_left == Some(n),
            final(self).files() == old(self).files(),
    {
        self.writes_left = Some(n);
    }

    /// From now on one read transfers at most `n` bytes, and at least one.
    pub fn limit_reads(&mut self, n: usize)
        ensures
            final(self).store == old(self).store,
            final(self).writes_left == old(self).writes_left,
            final(self).read_limit == Some(n),
            final(self).files() == old(self).files(),
    {
        self.read_limit = Some(n);
    }

    /// Every write succeeds again.
    pub fn allow_writes(&mut self)
        ensures
            final(self).store == old(self).store,
            final(self).writes_left is None,
            final(self).files() == old(self).files(),
    {
        self.writes_left = None;
    }

    /// Cuts the power: every handle is gone, every write budget too, and
    /// the files keep what they held.
    pub fn reboot(&mut self)
        ensures
            final(self).writes_left is None,
            final(self).files() == Map::<MemFile, FileState>::empty(),
            final(self).store@.len() == old(self).store@.len(),
            forall|k: int|
                0 <= k < old(self).store@.len() ==> {
                    &&& (#[trigger] final(self).store@[k]).name == old(self).store@[k].name
                    &&& final(self).store@[k].present == old(self).store@[k].present
                    &&& final(self).store@[k].data == old(self).store@[k].data
                },
            final(self).names() == old(self).names(),
            final(self).stored().dom() == old(self).names(),
            forall|key: (MemDir, Seq<char>)| #[trigger]
                old(self).stored().dom().contains(key) ==> final(self).stored()[key] == old(self).stored()[key],
            forall|f: MemFile| #[trigger]
                old(self).files().dom().contains(f) ==> final(self).stored()[(
                    MemDir {  },
                    old(self).store@[f.id as int].name@,
                )] == old(self).files()[f].data,
    {
        self.writes_left = None;
        let n: usize = self.store.len();
        let mut i: usize = 0;
        while i < n
            invariant
                i <= n,
                n == self.store@.len(),
                n == old(self).store@.len(),
                self.writes_left is None,
                forall|k: int| 0 <= k < i ==> !(#[trigger] self.store@[k]).open,
                forall|k: int|
                    0 <= k < n ==> {
                        &&& (#[trigger] self.store@[k]).name == old(self).store@[k].name
                        &&& self.store@[k].present == old(self).store@[k].present
                        &&& self.store@[k].data == old(self).store@[k].data
                    },
            decreases n - i,
        {
            self.store[i].open = false;
            i += 1;
        }
        assert(self.files() =~= Map::<MemFile, FileState>::empty());
        proof {
            lemma_names_follow_slots(*old(self), *self);
            assert forall|key: (MemDir, Seq<char>)|
                self.stored().dom().contains(key) == old(self).names().contains(key) && (old(self).stored().dom().contains(key) ==> self.stored()[key] == old(self).stored()[key]) by {
                lemma_first_named_follows_names(*old(self), *self, key.1);
                if exists|k: int| old(self).first_named(key.1, k) {
                    let k = choose|k: int| old(self).first_named(key.1, k);
                    assert(self.first_named(key.1, k));
                    lemma_stored_at(*old(self), key, k);
                    lemma_stored_at(*self, key, k);
                } else {
                    assert forall|k: int| !self.first_named(key.1, k) by {
                        if self.first_named(key.1, k) {
                            assert(old(self).first_named(key.1, k));
                        }
                    }
                    lemma_stored_absent(*old(self), key);
                    lemma_stored_absent(*self, key);
                }
            }
            assert(self.stored().dom() =~= old(self).names());
            assert forall|f: MemFile| #[trigger] old(self).files().dom().contains(f) implies self.stored()[(
                MemDir {  },
                old(self).store@[f.id as int].name@,
            )] == old(self).files()[f].data by {
                let key = (MemDir {  }, old(self).store@[f.id as int].name@);
                lemma_first_named_follows_names(*old(self), *self, key.1);
                assert(old(self).first_named(key.1, f.id as int));
                lemma_stored_at(*self, key, f.id as int);
            }
        }
    }

    /// Slot `i` is the first that carries `name`.
    pub open spec fn first_named(&self, name: Seq<char>, i: int) -> bool {
        &&& 0 <= i < self.store@.len()
        &&& self.store@[i].name@ == name
        &&& forall|k: int| 0 <= k < i ==> self.store@[k].name@ != name
    }

    /// The answer to opening `name` in `mode`: the handle, or why there is
    /// none. A file that is open stays with its handle, a file that is
    /// there is not made again, and one that is missing is made only by a
    /// mode that creates.
    pub open spec fn open_outcome(&self, name: Seq<char>, mode: Mode) -> Result<MemFile, MemError> {
        if exists|i: int| self.first_named(name, i) {
            let i = choose|i: int| self.first_named(name, i);
            if self.store@[i].open {
                Err(MemError::AlreadyOpen)
            } else if self.store@[i].present && mode.spec_wants_new() {
                Err(MemError::AlreadyExists)
            } else if !self.store@[i].present && !mode.spec_creates() {
                Err(MemError::NotFound)
            } else {
                Ok(MemFile { id: i as usize })
            }
        } else if mode.spec_creates() {
            Ok(MemFile { id: self.store@.len() as usize })
        } else {
            Err(MemError::NotFound)
        }
    }

    /// What a file that was opened in `mode` holds and where its cursor
    /// stands, given what it held before (nothing, where it was not there).
    pub open spec fn opened_state(held: Seq<u8>, mode: Mode) -> FileState {
        if mode.spec_truncates() {
            FileState { data: Seq::<u8>::empty(), pos: 0 }
        } else if mode.spec_appends() {
            FileState { data: held, pos: held.len() }
        } else {
            FileState { data: held, pos: 0 }
        }
    }

    /// What the file in slot `i` holds: nothing, where it is not there.
    pub open spec fn held(&self, i: int) -> Seq<u8> {
        if 0 <= i < self.store@.len() && self.store@[i].present {
            self.store@[i].data@
        } else {
            Seq::<u8>::empty()
        }
    }

    /// The slot of the file `name`, if the volume ever held one.
    pub fn find(&self, name: &str) -> (r: Option<usize>)
        ensures
            r is Some ==> self.first_named(name@, r->0 as int),
            r is None ==> forall|k: int| 0 <= k < self.store@.len() ==> self.store@[k].name@ != name@,
    {
        let mut i: usize = 0;
        while i < self.store.len()
            invariant
                i <= self.store@.len(),
                forall|k: int| 0 <= k < i ==> self.store@[k].name@ != name@,
            decreases self.store@.len() - i,
        {
            if same_name(self.store[i].name, name) {
                return Some(i);
            }
            i += 1;
        }
        None
    }

    /// A copy of what the file `name` holds, if there is such a file.
    pub fn contents(&self, name: &str) -> (r: Option<Vec<u8>>)
        ensures
            r is Some ==> exists|i: int|
                #[trigger] self.first_named(name@, i) && self.store@[i].present
                    && self.store@[i].data@ == r->0@,
            r is None ==> forall|i: int|
                #[trigger] self.first_named(name@, i) ==> !self.store@[i].present,
    {
        match self.find(name) {
            Some(i) => {
                if self.store[i].present {
                    let copy = self.store[i].data.clone();
                    assert(copy@ =~= self.store@[i as int].data@);
                    assert(self.first_named(name@, i as int));
                    Some(copy)
                } else {
                    assert forall|k: int| #[trigger]
                        self.first_named(name@, k) implies !self.store@[k].present by {
                        assert(k == i);
                    }
                    None
                }
            },
            None => None,
        }
    }
}

/// Slots that carry the same names in two volumes are the first of their
/// name in both or in neither.
pub proof fn lemma_first_named_follows_names(a: MemVolMan, b: MemVolMan, name: Seq<char>)
    requires
        a.store@.len() <= b.store@.len(),
        forall|k: int|
            #![trigger a.store@[k]]
            #![trigger b.store@[k]]
            0 <= k < a.store@.len() ==> a.store@[k].name@ == b.store@[k].name@,
    ensures
        forall|k: int|
            0 <= k < a.store@.len() ==> #[trigger] a.first_named(name, k) == b.first_named(name, k),
{
}

/// What the volume has at rest under a name follows from the first slot of
/// that name.
pub proof fn lemma_stored_at(a: MemVolMan, key: (MemDir, Seq<char>), i: int)
    requires
        a.first_named(key.1, i),
    ensures
        a.stored().dom().contains(key) == (a.store@[i].present && !a.store@[i].open),
        a.stored().dom().contains(key) ==> a.stored()[key] == a.store@[i].data@,
        a.names().contains(key) == a.store@[i].present,
        a.is_first(i),
{
    assert forall|k: int| a.first_named(key.1, k) implies k == i by {}
    let c = choose|k: int| a.first_named(key.1, k);
    assert(c == i);
}

/// The volume has nothing under a name that no slot carries.
pub proof fn lemma_stored_absent(a: MemVolMan, key: (MemDir, Seq<char>))
    requires
        forall|i: int| !a.first_named(key.1, i),
    ensures
        !a.stored().dom().contains(key),
        !a.names().contains(key),
{
}

/// Slots that carry the same names in two volumes are the first of their
/// name in both or in neither, whatever the name.
pub proof fn lemma_is_first_follows_names(a: MemVolMan, b: MemVolMan)
    requires
        a.store@.len() <= b.store@.len(),
        forall|k: int|
            #![trigger a.store@[k]]
            #![trigger b.store@[k]]
            0 <= k < a.store@.len() ==> a.store@[k].name@ == b.store@[k].name@,
    ensures
        forall|id: int| 0 <= id < a.store@.len() ==> #[trigger] a.is_first(id) == b.is_first(id),
{
    assert forall|id: int| 0 <= id < a.store@.len() implies #[trigger] a.is_first(id) == b.is_first(
        id,
    ) by {
        lemma_first_named_follows_names(a, b, a.store@[id].name@);
    }
}

/// Where one slot changes, or one is added, and that slot is not at rest
/// afterwards, the files at rest are those of before without its name,
/// and every other handle is open as before.
pub proof fn lemma_stored_without(a: MemVolMan, b: MemVolMan, i: int, name: Seq<char>)
    requires
        a.store@.len() <= b.store@.len() <= a.store@.len() + 1,
        b.store@.len() == a.store@.len() + 1 ==> i == a.store@.len(),
        forall|k: int|
            #![trigger a.store@[k]]
            #![trigger b.store@[k]]
            0 <= k < a.store@.len() ==> a.store@[k].name@ == b.store@[k].name@ && (k != i ==> (
            a.store@[k].present == b.store@[k].present && a.store@[k].open == b.store@[k].open
                && a.store@[k].data@ == b.store@[k].data@)),
        b.first_named(name, i),
        !(b.store@[i].present && !b.store@[i].open),
    ensures
        b.stored() == a.stored().remove((MemDir {  }, name)),
        forall|id: int|
            0 <= id < a.store@.len() && id != i ==> #[trigger] a.is_open(id) == b.is_open(id),
{
    lemma_is_first_follows_names(a, b);
    let want = a.stored().remove((MemDir {  }, name));
    assert forall|key: (MemDir, Seq<char>)|
        #![trigger b.stored().dom().contains(key)]
        #![trigger want.dom().contains(key)]
        b.stored().dom().contains(key) == want.dom().contains(key) && (b.stored().dom().contains(key)
            ==> b.stored()[key] == want[key]) by {
        lemma_first_named_follows_names(a, b, key.1);
        if key.1 == name {
            assert(key == (MemDir {  }, name));
            lemma_stored_at(b, key, i);
        } else {
            if exists|k: int| a.first_named(key.1, k) {
                let k = choose|k: int| a.first_named(key.1, k);
                assert(b.first_named(key.1, k));
                assert(k != i);
                lemma_stored_at(a, key, k);
                lemma_stored_at(b, key, k);
            } else {
                assert forall|k: int| !b.first_named(key.1, k) by {
                    if b.first_named(key.1, k) {
                        if k < a.store@.len() {
                            assert(a.first_named(key.1, k));
                        }
                    }
                }
                lemma_stored_absent(a, key);
                lemma_stored_absent(b, key);
            }
        }
    }
    assert(b.stored() =~= want);
}

/// Two volumes whose slots agree in name and state, and in what the closed
/// ones hold, have the same handles open and the same files at rest.
pub proof fn lemma_models_follow_slots(a: MemVolMan, b: MemVolMan)
    requires
        a.store@.len() == b.store@.len(),
        forall|k: int|
            #![trigger a.store@[k]]
            #![trigger b.store@[k]]
            0 <= k < a.store@.len() ==> a.store@[k].name@ == b.store@[k].name@
                && a.store@[k].present == b.store@[k].present && a.store@[k].open
                == b.store@[k].open && (!a.store@[k].open ==> a.store@[k].data@
                == b.store@[k].data@),
    ensures
        forall|id: int| #[trigger] a.is_open(id) == b.is_open(id),
        a.names() == b.names(),
        a.stored() == b.stored(),
{
    lemma_names_follow_slots(a, b);
    assert forall|id: int| #[trigger] a.is_open(id) == b.is_open(id) by {
        if 0 <= id < a.store@.len() {
            lemma_first_named_follows_names(a, b, a.store@[id].name@);
        }
    }
    assert forall|key: (MemDir, Seq<char>)|
        #![trigger a.stored().dom().contains(key)]
        #![trigger b.stored().dom().contains(key)]
        a.stored().dom().contains(key) == b.stored().dom().contains(key) && (a.stored().dom().contains(
            key,
        ) ==> a.stored()[key] == b.stored()[key]) by {
        lemma_first_named_follows_names(a, b, key.1);
        if exists|i: int| a.first_named(key.1, i) {
            let i = choose|i: int| a.first_named(key.1, i);
            assert(b.first_named(key.1, i));
            lemma_stored_at(a, key, i);
            lemma_stored_at(b, key, i);
        } else {
            assert forall|i: int| !b.first_named(key.1, i) by {
                if b.first_named(key.1, i) {
                    assert(a.first_named(key.1, i));
                }
            }
            lemma_stored_absent(a, key);
            lemma_stored_absent(b, key);
        }
    }
    assert(a.stored() =~= b.stored());
}

/// Two volumes whose slots carry the same names and hold the same files
/// hold files under the same names.
pub proof fn lemma_names_follow_slots(a: MemVolMan, b: MemVolMan)
    requires
        a.store@.len() == b.store@.len(),
        forall|k: int|
            #![trigger a.store@[k]]
            #![trigger b.store@[k]]
            0 <= k < a.store@.len() ==> a.store@[k].name@ == b.store@[k].name@
                && a.store@[k].present == b.store@[k].present,
    ensures
        a.names() == b.names(),
{
    assert forall|key: (MemDir, Seq<char>)| a.names().contains(key) == b.names().contains(
        key,
    ) by {
        if a.names().contains(key) {
            let i = choose|i: int| a.first_named(key.1, i) && a.store@[i].present;
            assert(b.first_named(key.1, i) && b.store@[i].present);
        }
        if b.names().contains(key) {
            let i = choose|i: int| b.first_named(key.1, i) && b.store@[i].present;
            assert(a.first_named(key.1, i) && a.store@[i].present);
        }
    }
    assert(a.names() =~= b.names());
}

impl VolMan for MemVolMan {
    type Error = MemError;

    type F = MemFile;

    type D = MemDir;

    open spec fn files(&self) -> Map<MemFile, FileState> {
        Map::new(
            |f: MemFile| self.is_open(f.id as int),
            |f: MemFile|
                FileState { data: self.store@[f.id as int].data@, pos: self.store@[f.id as int].pos as nat },
        )
    }

    open spec fn opened_as(&self) -> Map<MemFile, (MemDir, Seq<char>, Mode)> {
        Map::new(
            |f: MemFile| self.is_open(f.id as int),
            |f: MemFile| (MemDir {  }, self.store@[f.id as int].name@, self.store@[f.id as int].mode),
        )
    }

    open spec fn names(&self) -> Set<(MemDir, Seq<char>)> {
        Set::new(
            |key: (MemDir, Seq<char>)|
                exists|i: int| self.first_named(key.1, i) && self.store@[i].present,
        )
    }

    open spec fn stored(&self) -> Map<(MemDir, Seq<char>), Seq<u8>> {
        Map::new(
            |key: (MemDir, Seq<char>)|
                exists|i: int|
                    self.first_named(key.1, i) && self.store@[i].present && !self.store@[i].open,
            |key: (MemDir, Seq<char>)| self.store@[choose|i: int| self.first_named(key.1, i)].data@,
        )
    }

    open spec fn durable(&self) -> Map<MemFile, Seq<u8>> {
        Map::new(|f: MemFile| self.is_open(f.id as int), |f: MemFile| self.store@[f.id as int].data@)
    }

    fn file_seek_from_start(&mut self, file: &MemFile, offset: u32) -> (r: Result<(), MemError>)
        ensures
            r is Ok,
    {
        self.store[file.id].pos = offset as usize;
        proof {
            lemma_models_follow_slots(*old(self), *self);
            assert(self.opened_as() =~= old(self).opened_as());
        }
        assert(self.files() =~= old(self).files().insert(
            *file,
            FileState { data: old(self).files()[*file].data, pos: offset as nat },
        ));
        Ok(())
    }

    fn file_seek_from_end(&mut self, file: &MemFile, offset: u32) -> (r: Result<(), MemError>)
        ensures
            r is Ok <==> offset <= old(self).files()[*file].data.len(),
            r is Err ==> *final(self) == *old(self) && r->Err_0 is BadOffset,
    {
        let len: usize = self.store[file.id].data.len();
        if offset as usize > len {
            assert(self.files() =~= old(self).files().insert(*file, self.files()[*file]));
            return Err(MemError::BadOffset);
        }
        self.store[file.id].pos = len - offset as usize;
        proof {
            lemma_models_follow_slots(*old(self), *self);
            assert(self.opened_as() =~= old(self).opened_as());
        }
        assert(self.files() =~= old(self).files().insert(
            *file,
            FileState {
                data: old(self).files()[*file].data,
                pos: (old(self).files()[*file].data.len() - offset) as nat,
            },
        ));
        Ok(())
    }

    fn file_read(&mut self, file: &MemFile, buf: &mut Vec<u8>) -> (r: Result<usize, MemError>)
        ensures
            r is Ok,
            r->Ok_0 == capped(
                read_count(
                    old(self).files()[*file].data,
                    old(self).files()[*file].pos,
                    old(buf)@.len(),
                ),
                old(self).read_limit,
            ),
    {
        assert(self.is_open(file.id as int));
        let pos: usize = self.store[file.id].pos;
        let n: usize = read_from(&self.store[file.id].data, pos, buf, self.read_limit);
        let len: usize = self.store[file.id].data.len();
        assert(pos + n <= pos || pos + n <= len);
        self.store[file.id].pos = pos + n;
        proof {
            lemma_models_follow_slots(*old(self), *self);
            assert(self.opened_as() =~= old(self).opened_as());
        }
        assert(self.files() =~= old(self).files().insert(*file, self.files()[*file]));
        Ok(n)
    }

    fn file_write(&mut self, file: &MemFile, buf: &[u8]) -> (r: Result<(), MemError>)
        ensures
            r is Ok <==> old(self).writes_left != Some(0usize) && old(self).files()[*file].pos
                + buf@.len() <= u32::MAX,
            old(self).writes_left == Some(0usize) ==> r == Err::<(), MemError>(
                MemError::WriteFault,
            ) && *final(self) == *old(self),
            r is Err ==> final(self).store == old(self).store,
            r is Err && old(self).writes_left != Some(0usize) ==> r->Err_0 is TooLarge,
            old(self).writes_left is None ==> final(self).writes_left is None,
            old(self).writes_left is Some && old(self).writes_left->0 > 0
                ==> final(self).writes_left == Some((old(self).writes_left->0 - 1) as usize),
            final(self).read_limit == old(self).read_limit,
    {
        assert(self.files() =~= old(self).files().insert(*file, self.files()[*file]));
        match self.writes_left {
            Some(left) => {
                if left == 0 {
                    return Err(MemError::WriteFault);
                }
                self.writes_left = Some(left - 1);
            },
            None => {},
        }
        let pos: usize = self.store[file.id].pos;
        if buf.len() > 0xFFFF_FFFF || pos > 0xFFFF_FFFF - buf.len() {
            proof {
                lemma_models_follow_slots(*old(self), *self);
                assert(self.opened_as() =~= old(self).opened_as());
            }
            assert(self.files() =~= old(self).files().insert(*file, self.files()[*file]));
            return Err(MemError::TooLarge);
        }
        write_into(&mut self.store[file.id].data, pos, buf);
        self.store[file.id].pos = pos + buf.len();
        proof {
            lemma_models_follow_slots(*old(self), *self);
            assert(self.opened_as() =~= old(self).opened_as());
        }
        assert(self.files() =~= old(self).files().insert(
            *file,
            FileState {
                data: write_at(old(self).files()[*file].data, old(self).files()[*file].pos, buf@),
                pos: old(self).files()[*file].pos + buf@.len(),
            },
        ));
        Ok(())
    }

    fn file_offset(&self, file: &MemFile) -> (r: Result<u32, MemError>)
        ensures
            self.store@[file.id as int].pos <= u32::MAX ==> r == Ok::<u32, MemError>(
                self.store@[file.id as int].pos as u32,
            ),
            self.store@[file.id as int].pos > u32::MAX ==> r == Err::<u32, MemError>(
                MemError::TooLarge,
            ),
    {
        let pos: usize = self.store[file.id].pos;
        if pos > 0xFFFF_FFFF {
            return Err(MemError::TooLarge);
        }
        Ok(pos as u32)
    }

    fn file_length(&self, file: &MemFile) -> (r: Result<u32, MemError>)
        ensures
            self.store@[file.id as int].data@.len() <= u32::MAX ==> r == Ok::<u32, MemError>(
                self.store@[file.id as int].data@.len() as u32,
            ),
            self.store@[file.id as int].data@.len() > u32::MAX ==> r == Err::<u32, MemError>(
                MemError::TooLarge,
            ),
    {
        let len: usize = self.store[file.id].data.len();
        if len > 0xFFFF_FFFF {
            return Err(MemError::TooLarge);
        }
        Ok(len as u32)
    }

    fn file_close(&mut self, file: MemFile) -> (r: Result<(), MemError>)
        ensures
            r is Ok,
    {
        self.store[file.id].open = false;
        proof {
            let id = file.id as int;
            let name = old(self).store@[id].name@;
            lemma_is_first_follows_names(*old(self), *self);
            lemma_names_follow_slots(*old(self), *self);
            assert(self.files() =~= old(self).files().remove(file));
            assert(self.opened_as() =~= old(self).opened_as().remove(file));
            let want = old(self).stored().insert((MemDir {  }, name), old(self).store@[id].data@);
            assert forall|key: (MemDir, Seq<char>)|
                #![trigger self.stored().dom().contains(key)]
                #![trigger want.dom().contains(key)]
                self.stored().dom().contains(key) == want.dom().contains(key) && (
                self.stored().dom().contains(key) ==> self.stored()[key] == want[key]) by {
                lemma_first_named_follows_names(*old(self), *self, key.1);
                if exists|i: int| old(self).first_named(key.1, i) {
                    let i = choose|i: int| old(self).first_named(key.1, i);
                    assert(self.first_named(key.1, i));
                    lemma_stored_at(*old(self), key, i);
                    lemma_stored_at(*self, key, i);
                    if key.1 == name {
                        assert(old(self).first_named(name, id));
                        assert(i == id);
                        assert(key == (MemDir {  }, name));
                    } else {
                        assert(i != id);
                    }
                } else {
                    assert forall|i: int| !self.first_named(key.1, i) by {
                        if self.first_named(key.1, i) {
                            assert(old(self).first_named(key.1, i));
                        }
                    }
                    lemma_stored_absent(*old(self), key);
                    lemma_stored_absent(*self, key);
                    assert(key.1 != name);
                }
            }
            assert(self.stored() =~= want);
        }
        assert(self.files() =~= old(self).files().remove(file));
        Ok(())
    }

    fn file_flush(&mut self, file: &MemFile) -> (r: Result<(), MemError>)
        ensures
            r is Ok,
            *final(self) == *old(self),
    {
        assert(self.durable() =~= old(self).durable().insert(*file, old(self).files()[*file].data));
        Ok(())
    }

    fn close_dir(&mut self, dir: &MemDir) -> (r: Result<(), MemError>)
        ensures
            r is Ok,
            *final(self) == *old(self),
    {
        Ok(())
    }

    fn open_file_in_dir(&mut self, dir: &MemDir, name: &'static str, mode: Mode) -> (r: Result<
        MemFile,
        MemError,
    >)
        ensures
            r == old(self).open_outcome(name@, mode),
            r is Ok ==> final(self).files()[r->Ok_0] == Self::opened_state(
                old(self).held(r->Ok_0.id as int),
                mode,
            ),
            r is Err ==> *final(self) == *old(self),
            final(self).writes_left == old(self).writes_left,
            final(self).read_limit == old(self).read_limit,
            r is Ok ==> {
                let id = r->Ok_0.id as int;
                &&& final(self).store@.len() == (if id < old(self).store@.len() {
                    old(self).store@.len()
                } else {
                    old(self).store@.len() + 1
                })
                &&& forall|k: int|
                    0 <= k < old(self).store@.len() && k != id ==> #[trigger] final(self).store@[k]
                        == old(self).store@[k]
                &&& final(self).store@[id].name@ == name@
                &&& final(self).store@[id].present
                &&& final(self).store@[id].open
                &&& final(self).store@[id].mode == mode
            },
    {
        match self.find(name) {
            Some(i) => {
                proof {
                    let c = choose|k: int| self.first_named(name@, k);
                    assert(self.first_named(name@, i as int));
                    assert(c == i);
                }
                if self.store[i].open {
                    return Err(MemError::AlreadyOpen);
                }
                if self.store[i].present && mode.wants_new() {
                    return Err(MemError::AlreadyExists);
                }
                if !self.store[i].present && !mode.creates() {
                    return Err(MemError::NotFound);
                }
                if mode.truncates() || !self.store[i].present {
                    self.store[i].data = Vec::new();
                }
                self.store[i].present = true;
                self.store[i].open = true;
                self.store[i].mode = mode;
                let len: usize = self.store[i].data.len();
                self.store[i].pos = if mode.appends() {
                    len
                } else {
                    0
                };
                let f = MemFile { id: i };
                proof {
                    lemma_first_named_follows_names(*old(self), *self, name@);
                    lemma_stored_without(*old(self), *self, i as int, name@);
                    lemma_stored_at(*old(self), (*dir, name@), i as int);
                    lemma_stored_at(*self, (*dir, name@), i as int);
                    assert(self.files().remove(f) =~= old(self).files());
                    assert(self.opened_as() =~= old(self).opened_as().insert(
                        f,
                        (*dir, name@, mode),
                    ));
                    assert forall|key: (MemDir, Seq<char>)|
                        self.names().contains(key) == old(self).names().insert(
                            (*dir, name@),
                        ).contains(key) by {
                        lemma_first_named_follows_names(*old(self), *self, key.1);
                        if key.1 == name@ {
                            assert(self.first_named(key.1, i as int) && self.store@[i as int].present);
                            assert(key == (*dir, name@));
                        } else {
                            if self.names().contains(key) {
                                let k = choose|k: int|
                                    self.first_named(key.1, k) && self.store@[k].present;
                                assert(old(self).first_named(key.1, k) && old(self).store@[k].present);
                            }
                            if old(self).names().contains(key) {
                                let k = choose|k: int|
                                    old(self).first_named(key.1, k) && old(self).store@[k].present;
                                assert(self.first_named(key.1, k) && self.store@[k].present);
                            }
                        }
                    }
                    assert(self.names() =~= old(self).names().insert((*dir, name@)));
                }
                Ok(f)
            },
            None => {
                if !mode.creates() {
                    return Err(MemError::NotFound);
                }
                let i: usize = self.store.len();
                self.store.push(
                    MemEntry {
                        name: name,
                        present: true,
                        open: true,
                        mode: mode,
                        data: Vec::new(),
                        pos: 0,
                    },
                );
                let f = MemFile { id: i };
                proof {
                    lemma_first_named_follows_names(*old(self), *self, name@);
                    lemma_stored_without(*old(self), *self, i as int, name@);
                    lemma_stored_absent(*old(self), (*dir, name@));
                    lemma_stored_at(*self, (*dir, name@), i as int);
                    assert(self.files().remove(f) =~= old(self).files());
                    assert(self.opened_as() =~= old(self).opened_as().insert(
                        f,
                        (*dir, name@, mode),
                    ));
                    assert forall|key: (MemDir, Seq<char>)|
                        self.names().contains(key) == old(self).names().insert(
                            (*dir, name@),
                        ).contains(key) by {
                        lemma_first_named_follows_names(*old(self), *self, key.1);
                        if key.1 == name@ {
                            assert(self.first_named(key.1, i as int) && self.store@[i as int].present);
                            assert(key == (*dir, name@));
                        } else {
                            if self.names().contains(key) {
                                let k = choose|k: int|
                                    self.first_named(key.1, k) && self.store@[k].present;
                                assert(old(self).first_named(key.1, k) && old(self).store@[k].present);
                            }
                            if old(self).names().contains(key) {
                                let k = choose|k: int|
                                    old(self).first_named(key.1, k) && old(self).store@[k].present;
                                assert(self.first_named(key.1, k) && self.store@[k].present);
                            }
                        }
                    }
                    assert(self.names() =~= old(self).names().insert((*dir, name@)));
                }
                Ok(f)
            },
        }
    }

    fn delete_file_in_dir(&mut self, dir: &MemDir, name: &'static str) -> (r: Result<
        (),
        MemError,
    >)
        ensures
            r is Ok <==> exists|i: int|
                #[trigger] old(self).first_named(name@, i) && old(self).store@[i].present
                    && !old(self).store@[i].open,
            r is Ok ==> final(self).store@.len() == old(self).store@.len() && forall|i: int|
                #[trigger] old(self).first_named(name@, i) ==> !final(self).store@[i].present,
            r is Err ==> final(self).store@ == old(self).store@,
    {
        match self.find(name) {
            Some(i) => {
                assert(self.first_named(name@, i as int));
                assert forall|k: int| #[trigger] self.first_named(name@, k) implies k == i by {}
                if self.store[i].open {
                    return Err(MemError::AlreadyOpen);
                }
                if !self.store[i].present {
                    return Err(MemError::NotFound);
                }
                self.store[i].present = false;
                self.store[i].data = Vec::new();
                proof {
                    lemma_first_named_follows_names(*old(self), *self, name@);
                    lemma_stored_without(*old(self), *self, i as int, name@);
                    assert(self.files() =~= old(self).files());
                    assert(self.opened_as() =~= old(self).opened_as());
                    assert forall|key: (MemDir, Seq<char>)|
                        self.names().contains(key) == old(self).names().remove(
                            (*dir, name@),
                        ).contains(key) by {
                        lemma_first_named_follows_names(*old(self), *self, key.1);
                        if key.1 == name@ {
                            assert(key == (*dir, name@));
                            assert forall|k: int| self.first_named(key.1, k) implies k == i by {}
                        } else {
                            if self.names().contains(key) {
                                let k = choose|k: int|
                                    self.first_named(key.1, k) && self.store@[k].present;
                                assert(old(self).first_named(key.1, k) && old(self).store@[k].present);
                            }
                            if old(self).names().contains(key) {
                                let k = choose|k: int|
                                    old(self).first_named(key.1, k) && old(self).store@[k].present;
                                assert(self.first_named(key.1, k) && self.store@[k].present);
                            }
                        }
                    }
                    assert(self.names() =~= old(self).names().remove((*dir, name@)));
                }
                Ok(())
            },
            None => Err(MemError::NotFound),
        }
    }
}

} // verus!
