use crate::fs::{read_at, read_count, write_at, FileState};
use crate::page_rw::{addressable, page_offset};
use vstd::prelude::*;

verus! {

/// The journal's name in the managed directory.
pub const WAL_FILE_NAME: &'static str = "DB_WAL";

/// The database file's name in the managed directory.
pub const DB_FILE_NAME: &'static str = "DB";

/// The first bytes of every journal: the ASCII text `WAL_FILE`.
pub const WAL_MAGIC: [u8; 8] = [0x57, 0x41, 0x4C, 0x5F, 0x46, 0x49, 0x4C, 0x45];

/// The marker behind the last record: the ASCII text `WAL_FILE_END`.
pub const WAL_TRAILER: [u8; 12] = [
    0x57,
    0x41,
    0x4C,
    0x5F,
    0x46,
    0x49,
    0x4C,
    0x45,
    0x5F,
    0x45,
    0x4E,
    0x44,
];

/// Bytes of the header: magic, page size, record count.
pub const HEADER_SIZE: usize = 16;

/// Bytes of the trailer.
pub const TRAILER_SIZE: usize = 12;

/// Bytes of one record: page number and payload.
pub const RECORD_SIZE: usize = 4100;

/// The most records a journal takes: each of them starts at an offset that
/// the backend's 32-bit cursor can reach.
pub const MAX_RECORDS: u32 = 1_047_552;

pub open spec fn magic_bytes() -> Seq<u8> {
    seq![0x57u8, 0x41u8, 0x4Cu8, 0x5Fu8, 0x46u8, 0x49u8, 0x4Cu8, 0x45u8]
}

pub open spec fn trailer_bytes() -> Seq<u8> {
    seq![
        0x57u8,
        0x41u8,
        0x4Cu8,
        0x5Fu8,
        0x46u8,
        0x49u8,
        0x4Cu8,
        0x45u8,
        0x5Fu8,
        0x45u8,
        0x4Eu8,
        0x44u8,
    ]
}

/// The journal's header as the orchestrator holds it in memory.
#[derive(Debug)]
pub struct WalHeader {
    pub magic: [u8; 8],
    pub page_size: u32,
    pub page_count: u32,
}

/// The four bytes of `x`, lowest first.
pub open spec fn le32(x: u32) -> Seq<u8> {
    seq![
        (x & 0xff) as u8,
        ((x >> 8) & 0xff) as u8,
        ((x >> 16) & 0xff) as u8,
        ((x >> 24) & 0xff) as u8,
    ]
}

/// The number that four bytes stand for, lowest first.
pub open spec fn from_le32(s: Seq<u8>) -> u32 {
    (s[0] as u32) | (s[1] as u32) << 8 | (s[2] as u32) << 16 | (s[3] as u32) << 24
}

/// The sixteen bytes that stand for a header with these fields.
pub open spec fn header_bytes(magic: Seq<u8>, page_size: u32, page_count: u32) -> Seq<u8> {
    magic + le32(page_size) + le32(page_count)
}

/// The bytes of a header of this library with `page_count` records.
pub open spec fn fresh_header_bytes(page_count: u32) -> Seq<u8> {
    header_bytes(magic_bytes(), 4096, page_count)
}

impl WalHeader {
    /// The header's on-disk form.
    pub open spec fn bytes(&self) -> Seq<u8> {
        header_bytes(self.magic@, self.page_size, self.page_count)
    }

    /// The header `bytes` stands for, field by field.
    pub open spec fn stands_for(&self, bytes: Seq<u8>) -> bool {
        &&& self.magic@ == bytes.subrange(0, 8)
        &&& self.page_size == from_le32(bytes.subrange(8, 12))
        &&& self.page_count == from_le32(bytes.subrange(12, 16))
    }

    /// The header of a journal without records.
    pub fn default() -> (h: Self)
        ensures
            h.magic@ == magic_bytes(),
            h.page_size == 4096,
            h.page_count == 0,
            h.bytes() == fresh_header_bytes(0),
    {
        let h = Self { magic: WAL_MAGIC, page_size: 4096, page_count: 0 };
        assert(h.magic@ =~= magic_bytes());
        h
    }

    /// Reads the three fields from their fixed places in `buf`.
    pub fn decode(buf: &[u8]) -> (h: Self)
        requires
            buf@.len() == HEADER_SIZE,
        ensures
            h.stands_for(buf@),
    {
        let magic: [u8; 8] = [buf[0], buf[1], buf[2], buf[3], buf[4], buf[5], buf[6], buf[7]];
        let mut word: Vec<u8> = Vec::new();
        word.push(buf[8]);
        word.push(buf[9]);
        word.push(buf[10]);
        word.push(buf[11]);
        assert(word@ =~= buf@.subrange(8, 12));
        let page_size: u32 = from_le_bytes(word.as_slice());
        let mut word2: Vec<u8> = Vec::new();
        word2.push(buf[12]);
        word2.push(buf[13]);
        word2.push(buf[14]);
        word2.push(buf[15]);
        assert(word2@ =~= buf@.subrange(12, 16));
        let page_count: u32 = from_le_bytes(word2.as_slice());
        assert(magic@ =~= buf@.subrange(0, 8));
        Self { magic, page_size, page_count }
    }

    /// Whether the magic field holds the journal's magic.
    pub fn has_magic(&self) -> (b: bool)
        ensures
            b == (self.magic@ == magic_bytes()),
    {
        let mut i: usize = 0;
        while i < 8
            invariant
                i <= 8,
                forall|k: int| 0 <= k < i ==> self.magic@[k] == WAL_MAGIC@[k],
            decreases 8 - i,
        {
            if self.magic[i] != WAL_MAGIC[i] {
                assert(WAL_MAGIC@ =~= magic_bytes());
                return false;
            }
            i += 1;
        }
        assert(WAL_MAGIC@ =~= magic_bytes());
        assert(self.magic@ =~= magic_bytes());
        true
    }
}

/// The journal starts with the magic.
pub open spec fn has_magic(j: Seq<u8>) -> bool {
    read_at(j, 0, 8) == magic_bytes()
}

/// The journal ends with the trailer.
pub open spec fn has_trailer(j: Seq<u8>) -> bool {
    j.len() >= 12 && j.subrange(j.len() - 12, j.len() as int) == trailer_bytes()
}

/// A journal that the next start replays: magic in front, trailer at the end.
pub open spec fn replayable(j: Seq<u8>) -> bool {
    has_magic(j) && has_trailer(j)
}

/// The page size that the journal's header declares.
pub open spec fn stored_page_size(j: Seq<u8>) -> u32 {
    from_le32(read_at(j, 8, 4))
}

/// The record count that the journal's header declares.
pub open spec fn stored_page_count(j: Seq<u8>) -> u32 {
    from_le32(read_at(j, 12, 4))
}

/// Where the cursor stands after a read of at most `want` bytes at `pos`.
pub open spec fn after_read(j: Seq<u8>, pos: nat, want: nat) -> nat {
    pos + read_count(j, pos, want)
}

/// The page number of the record that starts at `pos`.
pub open spec fn record_page(j: Seq<u8>, pos: nat) -> u32 {
    from_le32(read_at(j, pos, 4))
}

/// The payload of the record that starts at `pos`.
pub open spec fn record_payload(j: Seq<u8>, pos: nat) -> Seq<u8> {
    read_at(j, after_read(j, pos, 4), 4096)
}

/// Where the record behind the one at `pos` starts.
pub open spec fn next_record(j: Seq<u8>, pos: nat) -> nat {
    after_read(j, after_read(j, pos, 4), 4096)
}

/// Where the record starts that comes `i` records behind the one at `pos`.
pub open spec fn record_pos(j: Seq<u8>, pos: nat, i: nat) -> nat
    decreases i,
{
    if i == 0 {
        pos
    } else {
        record_pos(j, next_record(j, pos), (i - 1) as nat)
    }
}

/// The first `n` records from `pos` on all name a page that can be addressed.
pub open spec fn records_addressable(j: Seq<u8>, pos: nat, n: nat) -> bool
    decreases n,
{
    n == 0 || (addressable(record_page(j, pos)) && records_addressable(
        j,
        next_record(j, pos),
        (n - 1) as nat,
    ))
}

/// The database file after the first `n` records from `pos` on were written
/// to their pages, in the order of the journal.
pub open spec fn replay(db: Seq<u8>, j: Seq<u8>, pos: nat, n: nat) -> Seq<u8>
    decreases n,
{
    if n == 0 {
        db
    } else {
        replay(
            write_at(db, page_offset(record_page(j, pos)), record_payload(j, pos)),
            j,
            next_record(j, pos),
            (n - 1) as nat,
        )
    }
}

/// Where record `i` starts in a journal.
pub open spec fn record_at(i: nat) -> nat {
    16 + i * 4100
}

/// The journal file after a record for `page` with `payload` was written
/// behind `count` records and the header was written again to count it.
pub open spec fn appended(j: FileState, count: nat, page: u32, payload: Seq<u8>) -> FileState {
    with_header(
        write_at(
            write_at(j.data, record_at(count), le32(page)),
            record_at(count) + 4,
            payload,
        ),
        (count + 1) as u32,
    )
}

/// The journal file after a header with `page_count` records was written to
/// its front.
pub open spec fn with_header(j: Seq<u8>, page_count: u32) -> FileState {
    FileState { data: write_at(j, 0, fresh_header_bytes(page_count)), pos: 16 }
}

/// The journal file after the trailer was written behind its last byte.
pub open spec fn with_trailer(j: Seq<u8>) -> FileState {
    FileState { data: j + trailer_bytes(), pos: j.len() + 12 }
}

/// Encodes `x` as four bytes, lowest first.
pub fn le_bytes(x: u32) -> (v: Vec<u8>)
    ensures
        v@ == le32(x),
        v@.len() == 4,
{
    let mut v: Vec<u8> = Vec::new();
    v.push((x & 0xff) as u8);
    v.push(((x >> 8) & 0xff) as u8);
    v.push(((x >> 16) & 0xff) as u8);
    v.push(((x >> 24) & 0xff) as u8);
    assert(v@ =~= le32(x));
    v
}

/// Decodes four bytes, lowest first.
pub fn from_le_bytes(s: &[u8]) -> (x: u32)
    requires
        s@.len() == 4,
    ensures
        x == from_le32(s@),
{
    (s[0] as u32) | (s[1] as u32) << 8 | (s[2] as u32) << 16 | (s[3] as u32) << 24
}

/// Four bytes written lowest first read back as the number they were
/// written for.
pub proof fn lemma_le32_round_trip(x: u32)
    ensures
        le32(x).len() == 4,
        from_le32(le32(x)) == x,
{
    assert((((x & 0xff) as u8) as u32) | ((((x >> 8) & 0xff) as u8) as u32) << 8 | ((((x >> 16)
        & 0xff) as u8) as u32) << 16 | ((((x >> 24) & 0xff) as u8) as u32) << 24 == x)
        by (bit_vector);
}

/// Replaying one record more is writing that record over the replay of the
/// records before it, and the reader then stands at the next record.
pub proof fn lemma_replay_one_more(db: Seq<u8>, j: Seq<u8>, pos: nat, i: nat)
    ensures
        replay(db, j, pos, i + 1) == write_at(
            replay(db, j, pos, i),
            page_offset(record_page(j, record_pos(j, pos, i))),
            record_payload(j, record_pos(j, pos, i)),
        ),
        record_pos(j, pos, i + 1) == next_record(j, record_pos(j, pos, i)),
        records_addressable(j, pos, i + 1) == (records_addressable(j, pos, i) && addressable(
            record_page(j, record_pos(j, pos, i)),
        )),
    decreases i,
{
    if i == 0 {
        assert(replay(db, j, pos, 1) == replay(
            write_at(db, page_offset(record_page(j, pos)), record_payload(j, pos)),
            j,
            next_record(j, pos),
            0,
        ));
        assert(record_pos(j, pos, 1) == record_pos(j, next_record(j, pos), 0));
        assert(records_addressable(j, next_record(j, pos), 0));
    } else {
        let first = write_at(db, page_offset(record_page(j, pos)), record_payload(j, pos));
        lemma_replay_one_more(first, j, next_record(j, pos), (i - 1) as nat);
        assert(replay(db, j, pos, i + 1) == replay(first, j, next_record(j, pos), i));
        assert(replay(db, j, pos, i) == replay(first, j, next_record(j, pos), (i - 1) as nat));
        assert(record_pos(j, pos, i + 1) == record_pos(j, next_record(j, pos), i));
    }
}

} // verus!
