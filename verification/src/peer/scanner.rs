//! Finding the mark that ends the padding of an obfuscated stream.

use vstd::prelude::*;

use crate::bencode::copy_range;
use crate::wire::mse::{
    find_subsequence_from, first_occurrence, occurs_at, rescan_is_complete, scan_start_after_append,
};

verus! {

/// The bytes that have arrived, and where the mark first stands among them.
#[derive(Debug)]
pub struct Scanner {
    received: Vec<u8>,
    mark: Vec<u8>,
    found: Option<usize>,
}

/// What has arrived, what is looked for, and where it was found first.
pub struct Scan {
    pub received: Seq<u8>,
    pub mark: Seq<u8>,
    pub found: Option<usize>,
}

impl View for Scanner {
    type V = Scan;

    closed spec fn view(&self) -> Scan {
        Scan { received: self.received@, mark: self.mark@, found: self.found }
    }
}

proof fn lemma_found_stays(before: Seq<u8>, added: Seq<u8>, mark: Seq<u8>, i: usize)
    requires
        first_occurrence(before, mark, 0, Some(i)),
    ensures
        first_occurrence(before + added, mark, 0, Some(i)),
{
    let whole = before + added;
    assert forall|j: int| 0 <= j <= i implies occurs_at(whole, mark, j) == occurs_at(
        before,
        mark,
        j,
    ) by {
        assert(whole.subrange(j, j + mark.len()) =~= before.subrange(j, j + mark.len()));
    }
}

impl Scanner {
    /// True of every scanner: what was found is the first place at all.
    pub open spec fn wf(self) -> bool {
        first_occurrence(self@.received, self@.mark, 0, self@.found)
    }

    pub fn new(mark: &[u8]) -> (r: Self)
        requires
            mark.len() > 0,
        ensures
            r.wf(),
            r@.received == Seq::<u8>::empty(),
            r@.mark == mark@,
            r@.found is None,
    {
        let copy = copy_range(mark, 0, mark.len());
        assert(copy@ =~= mark@);
        Scanner { received: Vec::new(), mark: copy, found: None }
    }

    pub fn received(&self) -> (r: &Vec<u8>)
        ensures
            r@ == self@.received,
    {
        &self.received
    }

    pub fn found(&self) -> (r: Option<usize>)
        ensures
            r == self@.found,
    {
        self.found
    }

    /// Take in more bytes, and look for the mark where it may have become complete.
    pub fn feed(&mut self, chunk: &[u8])
        requires
            old(self).wf(),
        ensures
            final(self).wf(),
            final(self)@.received == old(self)@.received + chunk@,
            final(self)@.mark == old(self)@.mark,
    {
        let start: usize = scan_start_after_append(self.received.len(), self.mark.len());
        self.received.extend_from_slice(chunk);
        assert(self.received@ =~= old(self)@.received + chunk@);
        match self.found {
            Some(i) => {
                proof {
                    lemma_found_stays(old(self)@.received, chunk@, self@.mark, i);
                }
            },
            None => {
                self.found = find_subsequence_from(
                    self.received.as_slice(),
                    self.mark.as_slice(),
                    start,
                );
                proof {
                    rescan_is_complete(old(self)@.received, chunk@, self@.mark, self.found);
                }
            },
        }
    }
}

} // verus!
