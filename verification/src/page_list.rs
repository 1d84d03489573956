use vstd::prelude::*;

verus! {

/// A list of page numbers, kept in a vector of `allocator_api2`.
#[verifier::external_body]
pub struct PageList {
    inner: allocator_api2::vec::Vec<u32>,
}

/// The longest list that `from_pages` builds. A list that grows by pushes up
/// to this length asks its allocator for less than `isize::MAX` bytes, on
/// 32-bit machines too.
pub const MAX_LIST_LEN: usize = 0x0800_0000;

/// The page numbers that a list holds, in its order.
pub uninterp spec fn listed_pages(list: PageList) -> Seq<u32>;

/// `allocator_api2::vec::Vec::new`: a list without items.
#[verifier::external_body]
fn list_new() -> (list: PageList)
    ensures
        listed_pages(list) == Seq::<u32>::empty(),
{
    PageList { inner: allocator_api2::vec::Vec::new() }
}

/// `allocator_api2::vec::Vec::push`: the list with `page` behind its last
/// item. The call panics where the list's capacity, which it doubles when
/// full, would pass `isize::MAX` bytes; the bound on the length keeps it
/// below that. Where the allocator has no memory left the process aborts.
#[verifier::external_body]
fn list_push(list: &mut PageList, page: u32)
    requires
        listed_pages(*old(list)).len() < MAX_LIST_LEN,
    ensures
        listed_pages(*final(list)) == listed_pages(*old(list)).push(page),
{
    list.inner.push(page);
}

/// `allocator_api2::vec::Vec::len`: the number of items in the list.
#[verifier::external_body]
pub(crate) fn list_len(list: &PageList) -> (n: usize)
    ensures
        n == listed_pages(*list).len(),
{
    list.inner.len()
}

/// Indexing of `allocator_api2::vec::Vec`, which it has from the slice it
/// derefs to: the item at place `i`, which must be inside the list.
#[verifier::external_body]
pub(crate) fn list_page(list: &PageList, i: usize) -> (p: u32)
    requires
        i < listed_pages(*list).len(),
    ensures
        p == listed_pages(*list)[i as int],
{
    list.inner[i]
}

impl PageList {
    /// The list of the numbers in `pages`, in their order.
    pub fn from_pages(pages: &[u32]) -> (list: PageList)
        requires
            pages@.len() <= MAX_LIST_LEN,
        ensures
            listed_pages(list) == pages@,
    {
        let mut list = list_new();
        let mut i: usize = 0;
        while i < pages.len()
            invariant
                i <= pages@.len(),
                pages@.len() <= MAX_LIST_LEN,
                listed_pages(list) == pages@.take(i as int),
            decreases pages@.len() - i,
        {
            list_push(&mut list, pages[i]);
            assert(pages@.take(i as int).push(pages@[i as int]) =~= pages@.take(i + 1));
            i += 1;
        }
        assert(pages@.take(pages@.len() as int) =~= pages@);
        list
    }

    /// The numbers in the list, in their order.
    pub fn pages(&self) -> (v: Vec<u32>)
        ensures
            v@ == listed_pages(*self),
    {
        let n: usize = list_len(self);
        let mut v: Vec<u32> = Vec::new();
        let mut i: usize = 0;
        while i < n
            invariant
                i <= n,
                n == listed_pages(*self).len(),
                v@.len() == i,
                forall|k: int| 0 <= k < i ==> v@[k] == listed_pages(*self)[k],
            decreases n - i,
        {
            v.push(list_page(self, i));
            i += 1;
        }
        assert(v@ =~= listed_pages(*self));
        v
    }
}

} // verus!
