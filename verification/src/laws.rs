use crate::file_handler::{
    appended_all, begun, finalized, page_of, records_start, Error, FileHandler,
};
use crate::fs::{read_at, read_count, write_at, FileState, VolMan};
use crate::journal::{DB_FILE_NAME, WAL_FILE_NAME};
use crate::journal::{
    after_read, appended, fresh_header_bytes, le32, lemma_le32_round_trip, has_magic, has_trailer, magic_bytes, next_record,
    record_at, record_page, record_payload, records_addressable, replay, replayable,
    stored_page_count, stored_page_size, trailer_bytes, with_header, with_trailer,
};
use crate::page_rw::{addressable, page_offset};
use vstd::prelude::*;

verus! {

/// The journal `j` holds, whole and in this order, one record for each of
/// `pages`, each with the content that its page has in `db0`.
pub open spec fn records_hold(j: Seq<u8>, db0: Seq<u8>, pages: Seq<u32>) -> bool {
    &&& j.len() >= record_at(pages.len())
    &&& forall|k: int|
        0 <= k < pages.len() ==> {
            &&& addressable(#[trigger] pages[k])
            &&& record_page(j, record_at(k as nat)) == pages[k]
            &&& read_at(j, record_at(k as nat) + 4, 4096) == page_of(db0, pages[k])
        }
}

/// The journal that a whole transaction leaves: begun on `j0` over the
/// database `db0`, the content of `pages` saved, then finalized.
pub open spec fn transaction_journal(j0: Seq<u8>, db0: Seq<u8>, pages: Seq<u32>) -> Seq<u8> {
    finalized(appended_all(begun(j0, db0), 3, db0, pages).data, (3 + pages.len()) as u32).data
}

/// The header of this library, byte by byte: the magic, then the page
/// size 4096 as `00 10 00 00`, then the record count, lowest byte first.
pub proof fn lemma_header_layout(count: u32)
    ensures
        fresh_header_bytes(count).len() == 16,
        fresh_header_bytes(count).subrange(0, 8) == magic_bytes(),
        fresh_header_bytes(count).subrange(8, 12) == seq![0u8, 16u8, 0u8, 0u8],
        fresh_header_bytes(count)[12] == count % 256,
        fresh_header_bytes(count)[13] == (count / 256) % 256,
        fresh_header_bytes(count)[14] == (count / 65536) % 256,
        fresh_header_bytes(count)[15] == count / 16777216,
{
    let f = fresh_header_bytes(count);
    assert((4096u32 & 0xff) as u8 == 0 && ((4096u32 >> 8) & 0xff) as u8 == 16 && ((4096u32 >> 16)
        & 0xff) as u8 == 0 && ((4096u32 >> 24) & 0xff) as u8 == 0) by (bit_vector);
    assert((count & 0xff) as u8 == count % 256 && ((count >> 8) & 0xff) as u8 == (count / 256) % 256
        && ((count >> 16) & 0xff) as u8 == (count / 65536) % 256 && ((count >> 24) & 0xff) as u8
        == count / 16777216) by (bit_vector);
    assert(f.subrange(0, 8) =~= magic_bytes());
    assert(f.subrange(8, 12) =~= seq![0u8, 16u8, 0u8, 0u8]);
}

/// Writing one page sets that page and leaves every other page as it reads.
pub proof fn lemma_write_page(db: Seq<u8>, q: u32, payload: Seq<u8>, p: u32)
    requires
        payload.len() == 4096,
    ensures
        page_of(write_at(db, page_offset(q), payload), q) == payload,
        p != q ==> page_of(write_at(db, page_offset(q), payload), p) == page_of(db, p),
{
    let w = write_at(db, page_offset(q), payload);
    assert(page_of(w, q) =~= payload);
    if p != q {
        assert(page_of(w, p) =~= page_of(db, p));
    }
}

/// A header written over the front of a journal leaves the records behind
/// it as they are, and reads back as written.
pub proof fn lemma_header_keeps_records(j: Seq<u8>, count: u32, db0: Seq<u8>, pages: Seq<u32>)
    requires
        records_hold(j, db0, pages),
    ensures
        records_hold(with_header(j, count).data, db0, pages),
        with_header(j, count).data.len() == j.len(),
        has_magic(with_header(j, count).data),
        stored_page_size(with_header(j, count).data) == 4096,
        stored_page_count(with_header(j, count).data) == count,
        records_start(with_header(j, count).data) == 16,
{
    lemma_le32_round_trip(4096);
    lemma_le32_round_trip(count);
    let h = with_header(j, count).data;
    let f = fresh_header_bytes(count);
    assert(f.len() == 16);
    assert(read_at(h, 0, 8) =~= magic_bytes());
    assert(read_at(h, 8, 4) =~= le32(4096));
    assert(read_at(h, 12, 4) =~= le32(count));
    assert forall|k: int| 0 <= k < pages.len() implies {
        &&& record_page(h, record_at(k as nat)) == pages[k]
        &&& read_at(h, record_at(k as nat) + 4, 4096) == page_of(db0, pages[k])
    } by {
        assert(addressable(pages[k]));
        assert(read_at(h, record_at(k as nat), 4) =~= read_at(j, record_at(k as nat), 4));
        assert(read_at(h, record_at(k as nat) + 4, 4096) =~= read_at(
            j,
            record_at(k as nat) + 4,
            4096,
        ));
    }
}

/// A header written to any journal makes it one with that header and with
/// the cursor in front of the first record.
pub proof fn lemma_header_opens(j: Seq<u8>, count: u32, db0: Seq<u8>)
    ensures
        records_hold(with_header(j, count).data, db0, Seq::<u32>::empty()),
        has_magic(with_header(j, count).data),
        stored_page_size(with_header(j, count).data) == 4096,
        stored_page_count(with_header(j, count).data) == count,
        records_start(with_header(j, count).data) == 16,
{
    lemma_le32_round_trip(4096);
    lemma_le32_round_trip(count);
    let h = with_header(j, count).data;
    let f = fresh_header_bytes(count);
    assert(f.len() == 16);
    assert(read_at(h, 0, 8) =~= magic_bytes());
    assert(read_at(h, 8, 4) =~= le32(4096));
    assert(read_at(h, 12, 4) =~= le32(count));
}

/// Saving one more page keeps the records before it, adds its own, and
/// leaves a header that counts them all.
pub proof fn lemma_append_keeps_records(js: FileState, db0: Seq<u8>, pages: Seq<u32>, page: u32)
    requires
        records_hold(js.data, db0, pages),
        addressable(page),
        pages.len() < u32::MAX,
    ensures
        records_hold(
            appended(js, pages.len(), page, page_of(db0, page)).data,
            db0,
            pages.push(page),
        ),
        has_magic(appended(js, pages.len(), page, page_of(db0, page)).data),
        stored_page_size(appended(js, pages.len(), page, page_of(db0, page)).data) == 4096,
        stored_page_count(appended(js, pages.len(), page, page_of(db0, page)).data) == pages.len()
            + 1,
{
    lemma_le32_round_trip(page);
    let payload = page_of(db0, page);
    let at = record_at(pages.len());
    let d1 = write_at(js.data, at, le32(page));
    let d2 = write_at(d1, at + 4, payload);
    let all = pages.push(page);
    assert(d2.len() >= at + 4100);
    assert forall|k: int| 0 <= k < all.len() implies {
        &&& addressable(#[trigger] all[k])
        &&& record_page(d2, record_at(k as nat)) == all[k]
        &&& read_at(d2, record_at(k as nat) + 4, 4096) == page_of(db0, all[k])
    } by {
        if k < pages.len() {
            assert(all[k] == pages[k]);
            assert(addressable(pages[k]));
            assert(read_at(d2, record_at(k as nat), 4) =~= read_at(js.data, record_at(k as nat), 4));
            assert(read_at(d2, record_at(k as nat) + 4, 4096) =~= read_at(
                js.data,
                record_at(k as nat) + 4,
                4096,
            ));
        } else {
            assert(all[k] == page);
            assert(read_at(d2, at, 4) =~= le32(page));
            assert(read_at(d2, at + 4, 4096) =~= payload);
        }
    }
    lemma_header_keeps_records(d2, (pages.len() + 1) as u32, db0, all);
}

/// Saving a list of pages keeps the records before them and adds theirs.
pub proof fn lemma_append_all_keeps_records(
    js: FileState,
    db0: Seq<u8>,
    before: Seq<u32>,
    pages: Seq<u32>,
)
    requires
        records_hold(js.data, db0, before),
        forall|k: int| 0 <= k < pages.len() ==> addressable(#[trigger] pages[k]),
        before.len() + pages.len() <= u32::MAX,
    ensures
        records_hold(appended_all(js, before.len(), db0, pages).data, db0, before + pages),
    decreases pages.len(),
{
    if pages.len() == 0 {
        assert(before + pages =~= before);
    } else {
        let front = pages.drop_last();
        lemma_append_all_keeps_records(js, db0, before, front);
        assert(addressable(pages[pages.len() - 1]));
        lemma_append_keeps_records(
            appended_all(js, before.len(), db0, front),
            db0,
            before + front,
            pages.last(),
        );
        assert((before + front).push(pages.last()) =~= before + pages);
    }
}

/// Saving one page is saving the list that holds just that page.
pub proof fn lemma_append_is_append_all_of_one(js: FileState, count: nat, db0: Seq<u8>, page: u32)
    ensures
        appended_all(js, count, db0, seq![page]) == appended(js, count, page, page_of(db0, page)),
{
    let one = seq![page];
    assert(one.drop_last() =~= Seq::<u32>::empty());
    assert(one.last() == page);
    assert(appended_all(js, count, db0, one.drop_last()) == js);
}

/// Saving one list and then another is saving the two as one list.
pub proof fn lemma_append_all_in_steps(
    js: FileState,
    count: nat,
    db0: Seq<u8>,
    a: Seq<u32>,
    b: Seq<u32>,
)
    ensures
        appended_all(appended_all(js, count, db0, a), count + a.len(), db0, b) == appended_all(
            js,
            count,
            db0,
            a + b,
        ),
    decreases b.len(),
{
    if b.len() == 0 {
        assert(a + b =~= a);
    } else {
        lemma_append_all_in_steps(js, count, db0, a, b.drop_last());
        assert((a + b).drop_last() =~= a + b.drop_last());
        assert((a + b).last() == b.last());
    }
}

/// The trailer behind a journal leaves header and records as they are.
pub proof fn lemma_trailer_keeps_records(j: Seq<u8>, db0: Seq<u8>, pages: Seq<u32>)
    requires
        records_hold(j, db0, pages),
    ensures
        records_hold(with_trailer(j).data, db0, pages),
        has_trailer(with_trailer(j).data),
        has_magic(with_trailer(j).data) == has_magic(j),
        stored_page_size(with_trailer(j).data) == stored_page_size(j),
        stored_page_count(with_trailer(j).data) == stored_page_count(j),
        records_start(with_trailer(j).data) == records_start(j),
{
    let t = with_trailer(j).data;
    assert(t.subrange(t.len() - 12, t.len() as int) =~= trailer_bytes());
    assert(read_at(t, 0, 8) =~= read_at(j, 0, 8));
    assert(read_at(t, 8, 4) =~= read_at(j, 8, 4));
    assert(read_at(t, 12, 4) =~= read_at(j, 12, 4));
    assert forall|k: int| 0 <= k < pages.len() implies {
        &&& record_page(t, record_at(k as nat)) == pages[k]
        &&& read_at(t, record_at(k as nat) + 4, 4096) == page_of(db0, pages[k])
    } by {
        assert(addressable(pages[k]));
        assert(read_at(t, record_at(k as nat), 4) =~= read_at(j, record_at(k as nat), 4));
        assert(read_at(t, record_at(k as nat) + 4, 4096) =~= read_at(
            j,
            record_at(k as nat) + 4,
            4096,
        ));
    }
}

/// Replaying the records from the `i`-th on gives page `p` the content it
/// has in `db0`, if it has that content already or one of these records is
/// for it. All of these records can be addressed.
pub proof fn lemma_replay_restores(
    db: Seq<u8>,
    j: Seq<u8>,
    db0: Seq<u8>,
    pages: Seq<u32>,
    i: nat,
    p: u32,
)
    requires
        records_hold(j, db0, pages),
        i <= pages.len(),
        page_of(db, p) == page_of(db0, p) || exists|k: int|
            i <= k < pages.len() && #[trigger] pages[k] == p,
    ensures
        page_of(replay(db, j, record_at(i), (pages.len() - i) as nat), p) == page_of(db0, p),
        records_addressable(j, record_at(i), (pages.len() - i) as nat),
    decreases pages.len() - i,
{
    if i < pages.len() {
        let pos = record_at(i);
        let q = pages[i as int];
        assert(addressable(q));
        assert(record_page(j, pos) == q);
        assert(read_count(j, pos, 4) == 4);
        assert(after_read(j, pos, 4) == pos + 4);
        assert(read_count(j, pos + 4, 4096) == 4096);
        assert(next_record(j, pos) == record_at(i + 1));
        let payload = record_payload(j, pos);
        assert(payload == page_of(db0, q));
        let db2 = write_at(db, page_offset(q), payload);
        lemma_write_page(db, q, payload, p);
        if q != p && page_of(db, p) != page_of(db0, p) {
            let k = choose|k: int| i <= k < pages.len() && #[trigger] pages[k] == p;
            assert(i + 1 <= k < pages.len() && pages[k] == p);
        }
        lemma_replay_restores(db2, j, db0, pages, i + 1, p);
    }
}

/// Replaying the records from the `i`-th on leaves a page that none of them
/// names as it reads.
pub proof fn lemma_replay_keeps_other_pages(
    db: Seq<u8>,
    j: Seq<u8>,
    db0: Seq<u8>,
    pages: Seq<u32>,
    i: nat,
    p: u32,
)
    requires
        records_hold(j, db0, pages),
        i <= pages.len(),
        forall|k: int| i <= k < pages.len() ==> #[trigger] pages[k] != p,
    ensures
        page_of(replay(db, j, record_at(i), (pages.len() - i) as nat), p) == page_of(db, p),
    decreases pages.len() - i,
{
    if i < pages.len() {
        let pos = record_at(i);
        let q = pages[i as int];
        assert(q != p);
        assert(record_page(j, pos) == q);
        assert(read_count(j, pos, 4) == 4);
        assert(after_read(j, pos, 4) == pos + 4);
        assert(read_count(j, pos + 4, 4096) == 4096);
        assert(next_record(j, pos) == record_at(i + 1));
        let payload = record_payload(j, pos);
        let db2 = write_at(db, page_offset(q), payload);
        lemma_write_page(db, q, payload, p);
        lemma_replay_keeps_other_pages(db2, j, db0, pages, i + 1, p);
    }
}

/// Replaying whole records from the `i`-th on leaves a page that none of
/// them names as it reads, whatever the records hold.
pub proof fn lemma_replay_skips_unnamed_page(db: Seq<u8>, j: Seq<u8>, n: nat, i: nat, q: u32)
    requires
        j.len() >= record_at(n),
        i <= n,
        forall|m: nat| i <= m < n ==> record_page(j, #[trigger] record_at(m)) != q,
    ensures
        page_of(replay(db, j, record_at(i), (n - i) as nat), q) == page_of(db, q),
    decreases n - i,
{
    if i < n {
        let pos = record_at(i);
        assert(record_page(j, record_at(i)) != q);
        assert(read_count(j, pos, 4) == 4);
        assert(after_read(j, pos, 4) == pos + 4);
        assert(read_count(j, pos + 4, 4096) == 4096);
        assert(next_record(j, pos) == record_at(i + 1));
        let p = record_page(j, pos);
        let payload = record_payload(j, pos);
        lemma_write_page(db, p, payload, q);
        lemma_replay_skips_unnamed_page(write_at(db, page_offset(p), payload), j, n, i + 1, q);
    }
}

/// Where a page is named by several records, the last of them wins: after
/// the replay the page holds the payload of the last record that names it.
pub proof fn lemma_last_record_wins(db: Seq<u8>, j: Seq<u8>, n: nat, i: nat, k: nat, q: u32)
    requires
        j.len() >= record_at(n),
        i <= k < n,
        record_page(j, record_at(k)) == q,
        forall|m: nat| k < m < n ==> record_page(j, #[trigger] record_at(m)) != q,
    ensures
        page_of(replay(db, j, record_at(i), (n - i) as nat), q) == read_at(
            j,
            record_at(k) + 4,
            4096,
        ),
    decreases k - i,
{
    let pos = record_at(i);
    assert(read_count(j, pos, 4) == 4);
    assert(after_read(j, pos, 4) == pos + 4);
    assert(read_count(j, pos + 4, 4096) == 4096);
    assert(next_record(j, pos) == record_at(i + 1));
    let p = record_page(j, pos);
    let payload = record_payload(j, pos);
    let db2 = write_at(db, page_offset(p), payload);
    if i < k {
        lemma_last_record_wins(db2, j, n, i + 1, k, q);
    } else {
        lemma_write_page(db, p, payload, q);
        lemma_replay_skips_unnamed_page(db2, j, n, i + 1, q);
    }
}

/// After a crash behind a finalized transaction, recovery gives every saved
/// page the content it had when the transaction began.
///
/// The journal of a transaction that was begun over the database `db0`,
/// saved `pages` (any page any number of times) and was finalized is
/// complete and has this library's page size. Replaying it over whatever
/// the database file holds by then, `db1`, leaves each of the three fixed
/// pages and each of `pages` with its content in `db0`.
pub proof fn lemma_crash_after_finalize_rolls_back(
    j0: Seq<u8>,
    db0: Seq<u8>,
    pages: Seq<u32>,
    db1: Seq<u8>,
    p: u32,
)
    requires
        forall|k: int| 0 <= k < pages.len() ==> addressable(#[trigger] pages[k]),
        3 + pages.len() <= u32::MAX,
        p == 0 || p == 1 || p == 2 || pages.contains(p),
    ensures
        ({
            let j = transaction_journal(j0, db0, pages);
            let n = stored_page_count(j) as nat;
            &&& replayable(j)
            &&& stored_page_size(j) == 4096
            &&& n == 3 + pages.len()
            &&& records_addressable(j, records_start(j), n)
            &&& page_of(replay(db1, j, records_start(j), n), p) == page_of(db0, p)
        }),
{
    let none = Seq::<u32>::empty();
    let fixed = seq![0u32, 1u32, 2u32];
    let all = fixed + pages;
    let count = (3 + pages.len()) as u32;
    lemma_header_opens(j0, 0, db0);
    let s0 = with_header(j0, 0);
    lemma_append_keeps_records(s0, db0, none, 0);
    let s1 = appended(s0, 0, 0, page_of(db0, 0));
    lemma_append_keeps_records(s1, db0, none.push(0), 1);
    let s2 = appended(s1, 1, 1, page_of(db0, 1));
    lemma_append_keeps_records(s2, db0, none.push(0).push(1), 2);
    assert(none.push(0).push(1).push(2) =~= fixed);
    assert(records_hold(begun(j0, db0).data, db0, fixed));
    lemma_append_all_keeps_records(begun(j0, db0), db0, fixed, pages);
    let open = appended_all(begun(j0, db0), 3, db0, pages);
    lemma_header_keeps_records(open.data, count, db0, all);
    let headed = with_header(open.data, count).data;
    lemma_trailer_keeps_records(headed, db0, all);
    let j = transaction_journal(j0, db0, pages);
    assert(j == with_trailer(headed).data);
    assert(all.len() == 3 + pages.len());
    if p == 0 {
        assert(all[0] == p);
    } else if p == 1 {
        assert(all[1] == p);
    } else if p == 2 {
        assert(all[2] == p);
    } else {
        let k = choose|k: int| 0 <= k < pages.len() && pages[k] == p;
        assert(all[k + 3] == p);
    }
    lemma_replay_restores(db1, j, db0, all, 0, p);
}

/// A journal that was neutralized is replayed without effect: its header
/// counts no record, so the database file stays as it is.
pub proof fn lemma_neutralized_journal_replays_nothing(j: Seq<u8>, db: Seq<u8>)
    ensures
        ({
            let quiet = with_header(j, 0).data;
            &&& stored_page_count(quiet) == 0
            &&& stored_page_size(quiet) == 4096
            &&& replay(db, quiet, records_start(quiet), stored_page_count(quiet) as nat) == db
            &&& records_addressable(quiet, records_start(quiet), stored_page_count(quiet) as nat)
        }),
{
    lemma_header_opens(j, 0, db);
}

/// A handler that recovers over the journal of a finalized transaction and
/// succeeds leaves every page that the transaction saved with the content
/// it had when the transaction began, whatever was written to the database
/// file since.
pub proof fn lemma_recovery_rolls_back<V: VolMan>(
    pre: &FileHandler<V>,
    post: &FileHandler<V>,
    j0: Seq<u8>,
    db0: Seq<u8>,
    pages: Seq<u32>,
    p: u32,
)
    requires
        FileHandler::<V>::restore_outcome(pre, post, Ok(())),
        pre.journal().data == transaction_journal(j0, db0, pages),
        forall|k: int| 0 <= k < pages.len() ==> addressable(#[trigger] pages[k]),
        3 + pages.len() <= u32::MAX,
        p == 0 || p == 1 || p == 2 || pages.contains(p),
    ensures
        page_of(post.db().data, p) == page_of(db0, p),
        post.journal() == with_header(pre.journal().data, 0),
{
    lemma_crash_after_finalize_rolls_back(j0, db0, pages, pre.db().data, p);
}

/// A start over the journal that a finalized transaction left on the
/// medium rolls the database back: where the backend holds that journal
/// under the journal's name, a start that succeeds leaves every page that
/// the transaction saved with the content it had when the transaction began.
pub proof fn lemma_start_rolls_back<V: VolMan>(
    vm: V,
    db_dir: V::D,
    pre: &FileHandler<V>,
    post: &FileHandler<V>,
    j0: Seq<u8>,
    db0: Seq<u8>,
    pages: Seq<u32>,
    p: u32,
)
    requires
        FileHandler::<V>::opened_on(vm, db_dir, pre),
        FileHandler::<V>::restore_outcome(pre, post, Ok(())),
        vm.stored().remove((db_dir, DB_FILE_NAME@)).contains_key((db_dir, WAL_FILE_NAME@)),
        vm.stored().remove((db_dir, DB_FILE_NAME@))[(db_dir, WAL_FILE_NAME@)] == transaction_journal(
            j0,
            db0,
            pages,
        ),
        forall|k: int| 0 <= k < pages.len() ==> addressable(#[trigger] pages[k]),
        3 + pages.len() <= u32::MAX,
        p == 0 || p == 1 || p == 2 || pages.contains(p),
    ensures
        page_of(post.db().data, p) == page_of(db0, p),
{
    lemma_recovery_rolls_back(pre, post, j0, db0, pages, p);
}

/// A handler that recovers over a neutralized journal and succeeds leaves
/// the database file as it is.
pub proof fn lemma_recovery_after_neutralize_changes_nothing<V: VolMan>(
    pre: &FileHandler<V>,
    post: &FileHandler<V>,
    j: Seq<u8>,
)
    requires
        FileHandler::<V>::restore_outcome(pre, post, Ok(())),
        pre.journal().data == with_header(j, 0).data,
    ensures
        post.db().data == pre.db().data,
{
    lemma_neutralized_journal_replays_nothing(j, pre.db().data);
}

/// A journal without the magic, or without the trailer, is passed over:
/// recovery changes neither file and refuses nothing.
pub proof fn lemma_incomplete_journal_is_passed_over<V: VolMan>(
    pre: &FileHandler<V>,
    post: &FileHandler<V>,
    r: Result<(), Error<V::Error>>,
)
    requires
        FileHandler::<V>::restore_outcome(pre, post, r),
        !has_magic(pre.journal().data) || !has_trailer(pre.journal().data),
    ensures
        post.db().data == pre.db().data,
        post.journal().data == pre.journal().data,
        r is Err ==> r->Err_0 is Backend,
{
}

/// A complete journal whose header declares another page size than 4096 is
/// never replayed: recovery fails, with the geometry error unless the
/// backend failed first, and the database file stays as it is.
pub proof fn lemma_other_page_size_is_refused<V: VolMan>(
    pre: &FileHandler<V>,
    post: &FileHandler<V>,
    r: Result<(), Error<V::Error>>,
)
    requires
        FileHandler::<V>::restore_outcome(pre, post, r),
        replayable(pre.journal().data),
        stored_page_size(pre.journal().data) != 4096,
    ensures
        r is Err,
        r->Err_0 is WalNotSupported || r->Err_0 is Backend,
        post.db().data == pre.db().data,
{
}

} // verus!
