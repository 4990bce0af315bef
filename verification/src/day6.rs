//! Start-of-marker detection in a byte stream.
//!
//! A marker is the first position at which the last `n` consumed bytes
//! are pairwise distinct.  A bounded history buffer keeps those bytes
//! with first-in-first-out eviction; the scan feeds the stream through
//! it one byte at a time and reports the 1-based position of the first
//! fully populated, fully distinct window.

use vstd::prelude::*;
use vstd::string::StrSliceExecFns;
use vstd::string::StringSliceAdditionalSpecFns;

use crate::errors::SolveError;

verus! {

/// The `n` bytes of `s` ending just before position `i` are pairwise
/// distinct.
pub open spec fn window_distinct(s: Seq<u8>, i: int, n: int) -> bool {
    forall|p: int, q: int| i - n <= p < q < i && p >= 0 ==> s[p] != s[q]
}

/// Pairwise distinctness of a whole sequence.
pub open spec fn pairwise_distinct(s: Seq<u8>) -> bool {
    forall|p: int, q: int| 0 <= p < q < s.len() ==> s[p] != s[q]
}

/// The scan outcome from position `i` on: the first position at or
/// after `i` whose trailing `n`-byte window is fully distinct; an
/// exhausted stream reports a missing marker, and a position counter
/// that would leave `u32` reports an overflow.
pub open spec fn spec_first_marker(s: Seq<u8>, n: int, i: int) -> Result<u32, SolveError>
    decreases s.len() + 1 - i,
    when 1 <= i <= u32::MAX
{
    if i > s.len() {
        Err(SolveError::NoMarker)
    } else if i >= n && window_distinct(s, i, n) {
        Ok(i as u32)
    } else if i == u32::MAX {
        Err(SolveError::Overflow)
    } else {
        spec_first_marker(s, n, i + 1)
    }
}

/// The position of the first four-byte distinct window.
pub open spec fn spec_solve(input: Seq<u8>) -> Result<u32, SolveError> {
    spec_first_marker(input, 4, 1)
}

/// The position of the first fourteen-byte distinct window.
pub open spec fn spec_solve2(input: Seq<u8>) -> Result<u32, SolveError> {
    spec_first_marker(input, 14, 1)
}

/// An input too short to fill a window is always rejected, whatever
/// its bytes: the detector never invents a marker.
pub proof fn lemma_short_input_rejected(s: Seq<u8>, n: int, i: int)
    requires
        1 <= i <= u32::MAX,
        n > s.len(),
    ensures
        spec_first_marker(s, n, i) is Err,
    decreases s.len() + 1 - i,
{
    if i <= s.len() && i != u32::MAX {
        lemma_short_input_rejected(s, n, i + 1);
    }
}

/// A reported marker is the first one: the window ending there is
/// fully distinct, and no earlier full window scanned is.
pub proof fn lemma_marker_is_first(s: Seq<u8>, n: int, i: int, c: u32)
    requires
        1 <= i <= u32::MAX,
        spec_first_marker(s, n, i) == Ok::<u32, SolveError>(c),
    ensures
        i <= c <= s.len(),
        c >= n,
        window_distinct(s, c as int, n),
        forall|j: int| i <= j < c && j >= n ==> !window_distinct(s, j, n),
    decreases s.len() + 1 - i,
{
    if i <= s.len() && !(i >= n && window_distinct(s, i, n)) && i != u32::MAX {
        lemma_marker_is_first(s, n, i + 1, c);
    }
}

/// The last `capacity` consumed bytes, oldest first.
pub struct FlowCache {
    bytes: Vec<u8>,
    cap: usize,
}

impl FlowCache {
    /// The buffer never outgrows its capacity, which is positive.
    pub closed spec fn wf(&self) -> bool {
        self.bytes@.len() <= self.cap && self.cap >= 1
    }

    /// The buffered bytes, oldest first.
    pub closed spec fn contents(&self) -> Seq<u8> {
        self.bytes@
    }

    /// The fixed capacity chosen at construction.
    pub closed spec fn capacity(&self) -> nat {
        self.cap as nat
    }

    /// An empty buffer of the given capacity.
    pub fn new(capacity: usize) -> (r: FlowCache)
        requires
            capacity >= 1,
        ensures
            r.wf(),
            r.contents() == Seq::<u8>::empty(),
            r.capacity() == capacity,
    {
        FlowCache { bytes: Vec::new(), cap: capacity }
    }

    /// Appends `b`, evicting the oldest byte once the buffer is full.
    pub fn push(&mut self, b: u8)
        requires
            old(self).wf(),
        ensures
            final(self).wf(),
            final(self).capacity() == old(self).capacity(),
            final(self).contents() == if old(self).contents().len() < old(self).capacity() {
                old(self).contents().push(b)
            } else {
                old(self).contents().skip(1).push(b)
            },
    {
        if self.bytes.len() < self.cap {
            self.bytes.push(b);
        } else {
            self.bytes.remove(0);
            proof {
                assert(self.bytes@ =~= old(self).bytes@.skip(1));
            }
            self.bytes.push(b);
        }
    }

    /// Whether the buffer is full and its bytes are pairwise distinct.
    pub fn all_unique(&self) -> (r: bool)
        requires
            self.wf(),
        ensures
            r == (self.contents().len() == self.capacity() && pairwise_distinct(self.contents())),
    {
        if self.bytes.len() < self.cap {
            return false;
        }
        let n = self.bytes.len();
        let mut i: usize = 0;
        while i < n
            invariant
                i <= n == self.bytes@.len(),
                forall|p: int, q: int| 0 <= p < q < self.bytes@.len() && p < i ==> self.bytes@[p]
                    != self.bytes@[q],
            decreases n - i,
        {
            let mut j: usize = i + 1;
            while j < n
                invariant
                    i < j <= n == self.bytes@.len(),
                    forall|q: int| i < q < j ==> self.bytes@[i as int] != self.bytes@[q],
                decreases n - j,
            {
                if self.bytes[i] == self.bytes[j] {
                    return false;
                }
                j = j + 1;
            }
            i = i + 1;
        }
        true
    }
}

/// Scans `bytes` for the first `n`-byte distinct window.
fn find_marker(bytes: &Vec<u8>, n: usize) -> (r: Result<u32, SolveError>)
    requires
        n >= 1,
    ensures
        r == spec_first_marker(bytes@, n as int, 1),
{
    let ghost s = bytes@;
    let mut fc = FlowCache::new(n);
    let mut j: usize = 0;
    while j < bytes.len()
        invariant
            j <= s.len(),
            j + 1 <= u32::MAX,
            fc.wf(),
            fc.capacity() == n,
            fc.contents() == s.subrange(
                if j >= n {
                    j - n
                } else {
                    0
                },
                j as int,
            ),
            spec_first_marker(s, n as int, 1) == spec_first_marker(s, n as int, j + 1),
        decreases s.len() - j,
    {
        fc.push(bytes[j]);
        let ghost i = j + 1 as int;
        proof {
            let lo: int = if i >= n {
                i - n
            } else {
                0
            };
            assert(fc.contents() =~= s.subrange(lo, i));
        }
        if fc.all_unique() {
            proof {
                let lo: int = i - n;
                let w = s.subrange(lo, i);
                assert forall|p: int, q: int|
                    i - n <= p < q < i && p >= 0 implies s[p] != s[q] by {
                    assert(w[p - lo] == s[p]);
                    assert(w[q - lo] == s[q]);
                }
                assert(window_distinct(s, i, n as int));
            }
            return Ok((j + 1) as u32);
        }
        proof {
            if i >= n {
                let lo: int = i - n;
                let w = s.subrange(lo, i);
                if window_distinct(s, i, n as int) {
                    assert forall|p: int, q: int| 0 <= p < q < w.len() implies w[p] != w[q] by {
                        assert(w[p] == s[lo + p]);
                        assert(w[q] == s[lo + q]);
                    }
                    assert(pairwise_distinct(w));
                }
            }
            assert(!(i >= n && window_distinct(s, i, n as int)));
        }
        if j + 1 == (u32::MAX as usize) {
            return Err(SolveError::Overflow);
        }
        j = j + 1;
    }
    Err(SolveError::NoMarker)
}

/// The 1-based position at which the last four bytes first become
/// pairwise distinct; rejects a stream with no such window.
pub fn solve(input: &str) -> (r: Result<u32, SolveError>)
    ensures
        r == spec_solve(input.spec_bytes()),
        input.spec_bytes().len() < 4 ==> r is Err,
{
    let bytes = input.as_bytes_vec();
    proof {
        if bytes@.len() < 4 {
            lemma_short_input_rejected(bytes@, 4, 1);
        }
    }
    find_marker(&bytes, 4)
}

/// The 1-based position at which the last fourteen bytes first become
/// pairwise distinct; rejects a stream with no such window.
pub fn solve2(input: &str) -> (r: Result<u32, SolveError>)
    ensures
        r == spec_solve2(input.spec_bytes()),
        input.spec_bytes().len() < 14 ==> r is Err,
{
    let bytes = input.as_bytes_vec();
    proof {
        if bytes@.len() < 14 {
            lemma_short_input_rejected(bytes@, 14, 1);
        }
    }
    find_marker(&bytes, 14)
}

} // verus!
