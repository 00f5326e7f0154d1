use vstd::prelude::*;
use crate::config::{Config, config_wf};
use crate::scanner::{Markers, ScanState, Scanner, code_lines, feed_spec, initial_state, lemma_feed_progress, lemma_feed_then_rest, markers_nonempty, markers_of, scan_all};

verus! {

/// Why a scan in pieces could not go on.
#[derive(Debug, PartialEq, Eq, Structural, Clone, Copy)]
pub enum ChunkError {
    /// The window is full and the scanner could not consume any of it: the window is
    /// shorter than a comment marker of the language.
    BufferTooSmall,
}

/// Two scans end alike: whatever input follows, scanning `a` from `a_st` and `b` from
/// `b_st` ends in the same state.
pub open spec fn same_outcome(mk: Markers, a_st: ScanState, a: Seq<u8>, b_st: ScanState, b: Seq<u8>) -> bool {
    forall|rest: Seq<u8>| #[trigger] scan_all(mk, a_st, a + rest) == scan_all(mk, b_st, b + rest)
}

/// Counts the lines with code of an input that arrives in pieces, through a window of
/// bounded size: each piece is appended to the bytes not yet consumed, the scanner
/// consumes what it safely can, and the rest waits for the next piece.
pub struct ChunkedScan {
    scanner: Scanner,
    pending: Vec<u8>,
    capacity: usize,
    seen_len: usize,
    seen: Ghost<Seq<u8>>,
}

impl ChunkedScan {
    /// The markers of the language.
    pub closed spec fn markers(&self) -> Markers {
        self.scanner.markers()
    }

    /// Every byte handed in so far.
    pub closed spec fn seen(&self) -> Seq<u8> {
        self.seen@
    }

    /// The bytes handed in and not yet consumed.
    pub closed spec fn pending(&self) -> Seq<u8> {
        self.pending@
    }

    /// The size of the window.
    pub closed spec fn capacity(&self) -> nat {
        self.capacity as nat
    }

    /// The scanner's state.
    pub closed spec fn state(&self) -> ScanState {
        self.scanner.state()
    }

    pub closed spec fn wf(&self) -> bool {
        &&& self.scanner.wf()
        &&& self.pending@.len() <= self.capacity
        &&& self.seen_len == self.seen@.len()
        &&& self.seen@.len() < usize::MAX
        &&& self.scanner.state().count + self.pending@.len() <= self.seen@.len()
        &&& same_outcome(self.scanner.markers(), initial_state(), self.seen@, self.scanner.state(), self.pending@)
    }

    /// A scan of a language's input through a window of `capacity` bytes.
    pub fn new(cfg: &Config, capacity: usize) -> (r: ChunkedScan)
        requires
            config_wf(cfg@),
        ensures
            r.wf(),
            r.markers() == markers_of(cfg@),
            r.seen() == Seq::<u8>::empty(),
            r.pending() == Seq::<u8>::empty(),
            r.capacity() == capacity,
    {
        let scanner = Scanner::new(cfg);
        let r = ChunkedScan { scanner, pending: Vec::new(), capacity, seen_len: 0, seen: Ghost(Seq::empty()) };
        assert forall|rest: Seq<u8>| #[trigger] scan_all(r.markers(), initial_state(), r.seen@ + rest) == scan_all(
            r.markers(),
            r.scanner.state(),
            r.pending@ + rest,
        ) by {
            assert(r.seen@ + rest =~= rest);
            assert(r.pending@ + rest =~= rest);
        }
        r
    }

    /// How many bytes the next piece may hold.
    pub fn room(&self) -> (n: usize)
        requires
            self.wf(),
        ensures
            n == self.capacity() - self.pending().len(),
    {
        self.capacity - self.pending.len()
    }

    /// How many bytes have been handed in.
    pub fn bytes_seen(&self) -> (n: usize)
        requires
            self.wf(),
        ensures
            n == self.seen().len(),
    {
        self.seen_len
    }

    /// Hands in the next piece of input, which must not be empty (the end of input is
    /// marked by `finish`). The piece is appended to the bytes not yet consumed and the
    /// scanner consumes what it safely can; it fails when the window is then full and
    /// nothing in it could be consumed.
    pub fn absorb(&mut self, chunk: &[u8]) -> (r: Result<(), ChunkError>)
        requires
            old(self).wf(),
            chunk@.len() > 0,
            chunk@.len() <= old(self).capacity() - old(self).pending().len(),
            old(self).seen().len() + chunk@.len() < usize::MAX,
        ensures
            r is Ok ==> final(self).wf(),
            final(self).markers() == old(self).markers(),
            final(self).capacity() == old(self).capacity(),
            final(self).seen() == old(self).seen() + chunk@,
            ({
                let window = old(self).pending() + chunk@;
                let fed = feed_spec(old(self).markers(), old(self).state(), window, false);
                if fed.1 == 0 && window.len() == old(self).capacity() {
                    r == Err::<(), ChunkError>(ChunkError::BufferTooSmall)
                } else {
                    &&& r == Ok::<(), ChunkError>(())
                    &&& final(self).state() == fed.0
                    &&& final(self).pending() == window.skip(fed.1)
                }
            }),
            // A window that holds the longest marker never stalls.
            markers_nonempty(old(self).markers()) && old(self).capacity() >= old(self).markers().max_len ==> r is Ok,
    {
        let ghost mk = self.scanner.markers();
        let ghost st0 = self.scanner.state();
        let ghost seen0 = self.seen@;
        let ghost pend0 = self.pending@;
        self.append(chunk);
        self.seen_len = self.seen_len + chunk.len();
        self.seen = Ghost(seen0 + chunk@);
        let ghost window = self.pending@;
        proof {
            lemma_same_outcome_append(mk, initial_state(), seen0, st0, pend0, chunk@);
            assert(self.seen@ == seen0 + chunk@);
        }
        let consumed = self.scanner.feed(self.pending.as_slice(), false);
        proof {
            lemma_feed_then_rest(mk, st0, window, Seq::empty());
            if markers_nonempty(mk) && self.capacity >= mk.max_len && window.len() == self.capacity {
                lemma_feed_progress(mk, st0, window);
            }
        }
        if consumed == 0 && self.pending.len() == self.capacity {
            return Err(ChunkError::BufferTooSmall);
        }
        let rest = self.pending.split_off(consumed);
        self.pending = rest;
        proof {
            assert forall|r2: Seq<u8>| #[trigger] scan_all(mk, initial_state(), self.seen@ + r2) == scan_all(
                mk,
                self.scanner.state(),
                self.pending@ + r2,
            ) by {
                lemma_feed_then_rest(mk, st0, window, r2);
                assert(window.skip(consumed as int) =~= self.pending@);
            }
        }
        Ok(())
    }

    /// Marks the end of input and returns the number of lines with code in everything
    /// handed in: the same number as a scan of the whole input at once.
    pub fn finish(self) -> (n: usize)
        requires
            self.wf(),
        ensures
            n == code_lines(self.markers(), self.seen()),
    {
        let mut s = self;
        let ghost mk = s.scanner.markers();
        let ghost st0 = s.scanner.state();
        let ghost pend0 = s.pending@;
        proof {
            assert(s.seen@ + Seq::<u8>::empty() =~= s.seen@);
            assert(pend0 + Seq::<u8>::empty() =~= pend0);
            assert(scan_all(mk, initial_state(), s.seen@ + Seq::<u8>::empty()) == scan_all(mk, st0, pend0 + Seq::<u8>::empty()));
        }
        s.scanner.feed(s.pending.as_slice(), true);
        s.scanner.finish()
    }

    /// Appends `chunk` to the bytes not yet consumed.
    fn append(&mut self, chunk: &[u8])
        requires
            old(self).pending@.len() + chunk@.len() <= old(self).capacity,
        ensures
            final(self).pending@ == old(self).pending@ + chunk@,
            final(self).scanner == old(self).scanner,
            final(self).capacity == old(self).capacity,
            final(self).seen_len == old(self).seen_len,
            final(self).seen == old(self).seen,
    {
        let ghost pend0 = self.pending@;
        let mut k: usize = 0;
        while k < chunk.len()
            invariant
                k <= chunk@.len(),
                self.pending@ == pend0 + chunk@.take(k as int),
                self.scanner == old(self).scanner,
                self.capacity == old(self).capacity,
                self.seen_len == old(self).seen_len,
                self.seen == old(self).seen,
            decreases chunk@.len() - k,
        {
            self.pending.push(chunk[k]);
            k = k + 1;
            assert(chunk@.take(k as int) =~= chunk@.take(k - 1).push(chunk@[k - 1]));
        }
        assert(chunk@.take(chunk@.len() as int) =~= chunk@);
    }
}

/// Appending the same bytes to two scans that end alike keeps them alike.
pub proof fn lemma_same_outcome_append(mk: Markers, a_st: ScanState, a: Seq<u8>, b_st: ScanState, b: Seq<u8>, c: Seq<u8>)
    requires
        same_outcome(mk, a_st, a, b_st, b),
    ensures
        same_outcome(mk, a_st, a + c, b_st, b + c),
{
    assert forall|rest: Seq<u8>| #[trigger] scan_all(mk, a_st, (a + c) + rest) == scan_all(mk, b_st, (b + c) + rest) by {
        assert((a + c) + rest =~= a + (c + rest));
        assert((b + c) + rest =~= b + (c + rest));
        assert(scan_all(mk, a_st, a + (c + rest)) == scan_all(mk, b_st, b + (c + rest)));
    }
}

} // verus!
