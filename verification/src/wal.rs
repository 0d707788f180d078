use vstd::prelude::*;
use crate::error::Error;
use crate::node_type::Offset;

verus! {

/// The write-ahead log of root offsets: an append-only sequence of records,
/// of which the last one names the current root page.
pub struct Wal {
    records: Vec<usize>,
}

impl View for Wal {
    type V = Seq<usize>;

    closed spec fn view(&self) -> Seq<usize> {
        self.records@
    }
}

impl Wal {
    /// Opens an empty log.
    pub fn new() -> (r: Wal)
        ensures
            r@ == Seq::<usize>::empty(),
    {
        Wal { records: Vec::new() }
    }

    /// Appends one record naming `offset` as the current root.
    pub fn set_root(&mut self, offset: Offset) -> (r: Result<(), Error>)
        ensures
            r is Ok,
            final(self)@ == old(self)@.push(offset.0),
    {
        self.records.push(offset.0);
        Ok(())
    }

    /// Returns the offset named by the last record; fails with
    /// `UnexpectedError` exactly when the log is empty.
    pub fn get_root_offset(&self) -> (r: Result<Offset, Error>)
        ensures
            match r {
                Ok(off) => self@.len() > 0 && off.0 == self@.last(),
                Err(e) => e == Error::UnexpectedError && self@.len() == 0,
            },
    {
        if self.records.len() == 0 {
            return Err(Error::UnexpectedError);
        }
        Ok(Offset(self.records[self.records.len() - 1]))
    }
}

} // verus!
