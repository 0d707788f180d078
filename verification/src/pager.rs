use vstd::prelude::*;
use crate::error::Error;
use crate::node_type::Offset;
use crate::page::Page;
use crate::page_layout::PAGE_SIZE;

verus! {

/// The backing store as a sequence of pages addressed by byte offset.
///
/// The pager hands out page-aligned offsets: a page's offset is its index
/// times `PAGE_SIZE`, and the append cursor always sits at the end of the
/// store. It does no caching and no free-space management.
pub struct Pager {
    pages: Vec<Page>,
    curser: usize,
}

impl View for Pager {
    type V = Seq<Seq<u8>>;

    closed spec fn view(&self) -> Seq<Seq<u8>> {
        self.pages@.map_values(|p: Page| p@)
    }
}

impl Pager {
    /// Every held page is exactly `PAGE_SIZE` bytes and the cursor points
    /// one past the last page.
    pub closed spec fn wf(&self) -> bool {
        &&& forall|i: int| 0 <= i < self@.len() ==> #[trigger] self@[i].len() == PAGE_SIZE
        &&& self.curser == self@.len() * PAGE_SIZE
    }

    /// Opens an empty store.
    pub fn new() -> (r: Pager)
        ensures
            r.wf(),
            r@ == Seq::<Seq<u8>>::empty(),
    {
        let pager = Pager { pages: Vec::new(), curser: 0 };
        proof {
            assert(pager@ =~= Seq::<Seq<u8>>::empty());
        }
        pager
    }

    /// Reads the page at `offset`. The offset must be page-aligned and below
    /// the append cursor; anything else fails with `IoError`, as a short
    /// read from the backing file would.
    pub fn get_page(&self, offset: &Offset) -> (r: Result<Page, Error>)
        requires
            self.wf(),
        ensures
            match r {
                Ok(p) => {
                    &&& offset.0 % PAGE_SIZE == 0
                    &&& offset.0 / PAGE_SIZE < self@.len()
                    &&& p@ == self@[offset.0 as int / PAGE_SIZE as int]
                    &&& p.wf()
                },
                Err(e) => {
                    &&& e == Error::IoError
                    &&& (offset.0 % PAGE_SIZE != 0 || offset.0 / PAGE_SIZE >= self@.len())
                },
            },
    {
        if offset.0 % PAGE_SIZE != 0 {
            return Err(Error::IoError);
        }
        let idx = offset.0 / PAGE_SIZE;
        if idx >= self.pages.len() {
            return Err(Error::IoError);
        }
        let page = self.pages[idx].duplicate();
        proof {
            assert(self@[idx as int] == self.pages@[idx as int]@);
        }
        Ok(page)
    }

    /// Appends `page` at the cursor and returns the offset it was written
    /// at. Fails with `IoError` only when the store cannot grow any
    /// further.
    pub fn write_page(&mut self, page: Page) -> (r: Result<Offset, Error>)
        requires
            old(self).wf(),
            page.wf(),
        ensures
            final(self).wf(),
            match r {
                Ok(off) => {
                    &&& old(self)@.len() * PAGE_SIZE + PAGE_SIZE <= usize::MAX
                    &&& off.0 == old(self)@.len() * PAGE_SIZE
                    &&& final(self)@ == old(self)@.push(page@)
                },
                Err(e) => {
                    &&& e == Error::IoError
                    &&& old(self)@.len() * PAGE_SIZE + PAGE_SIZE > usize::MAX
                    &&& final(self)@ == old(self)@
                },
            },
    {
        if self.curser > usize::MAX - PAGE_SIZE {
            return Err(Error::IoError);
        }
        let res = Offset(self.curser);
        let ghost pv = page@;
        self.pages.push(page);
        self.curser = self.curser + PAGE_SIZE;
        proof {
            assert(self@ =~= old(self)@.push(pv));
            let n = old(self)@.len() as int;
            assert((n + 1) * (PAGE_SIZE as int) == n * (PAGE_SIZE as int) + PAGE_SIZE as int)
                by (nonlinear_arith);
        }
        Ok(res)
    }

    /// Overwrites the page stored at `offset`. The offset must be
    /// page-aligned and below the cursor; anything else fails with
    /// `IoError`.
    pub fn write_page_at_offset(&mut self, page: Page, offset: &Offset) -> (r: Result<(), Error>)
        requires
            old(self).wf(),
            page.wf(),
        ensures
            final(self).wf(),
            match r {
                Ok(_) => {
                    &&& offset.0 % PAGE_SIZE == 0
                    &&& offset.0 / PAGE_SIZE < old(self)@.len()
                    &&& final(self)@ == old(self)@.update(
                        offset.0 as int / PAGE_SIZE as int,
                        page@,
                    )
                },
                Err(e) => {
                    &&& e == Error::IoError
                    &&& (offset.0 % PAGE_SIZE != 0 || offset.0 / PAGE_SIZE >= old(self)@.len())
                    &&& final(self)@ == old(self)@
                },
            },
    {
        if offset.0 % PAGE_SIZE != 0 {
            return Err(Error::IoError);
        }
        let idx = offset.0 / PAGE_SIZE;
        if idx >= self.pages.len() {
            return Err(Error::IoError);
        }
        let ghost pv = page@;
        self.pages.set(idx, page);
        proof {
            assert(self@ =~= old(self)@.update(idx as int, pv));
        }
        Ok(())
    }
}

} // verus!
