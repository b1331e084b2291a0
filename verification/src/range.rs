use vstd::prelude::*;

verus! {

/// The ascending sequence of IPv4 numeric values from `lo` to `hi` inclusive;
/// empty where `lo` exceeds `hi`.
pub open spec fn range_seq(lo: int, hi: int) -> Seq<u32> {
    if lo <= hi {
        Seq::new((hi - lo + 1) as nat, |i: int| (lo + i) as u32)
    } else {
        Seq::empty()
    }
}

/// The inclusive range between two endpoints, normalized: the sequence runs
/// from the smaller to the larger whichever order they were given in.
pub open spec fn range_between(a: u32, b: u32) -> Seq<u32> {
    if a <= b {
        range_seq(a as int, b as int)
    } else {
        range_seq(b as int, a as int)
    }
}

/// Swapping the endpoints of a range leaves the enumerated sequence as it
/// is: both orders run ascending from the smaller to the larger endpoint.
pub proof fn lemma_range_endpoints_commute(a: u32, b: u32)
    ensures
        range_between(a, b) == range_between(b, a),
{
}

/// The enumerated range is strictly ascending, so its entries are distinct
/// and already ordered by numeric value.
pub proof fn lemma_range_ascending(a: u32, b: u32)
    ensures
        forall|i: int, j: int|
            0 <= i < j < range_between(a, b).len() ==> range_between(a, b)[i] < range_between(
                a,
                b,
            )[j],
{
}

/// A lazy, finite, non-restartable forward enumeration of an inclusive IPv4
/// range: yields each address value once, from the smaller endpoint to the
/// larger, and stops after the larger — it does not wrap past the maximum
/// 32-bit value.
pub struct IpRange {
    pub cur: u32,
    pub end: u32,
    pub done: bool,
}

impl IpRange {
    /// The values the enumeration has not yielded yet.
    pub open spec fn remaining(self) -> Seq<u32> {
        if self.done {
            Seq::empty()
        } else {
            range_seq(self.cur as int, self.end as int)
        }
    }

    pub open spec fn wf(self) -> bool {
        !self.done ==> self.cur <= self.end
    }

    /// Starts the enumeration of the inclusive range between two endpoints,
    /// swapping them where they were given in descending order.
    pub fn new(a: u32, b: u32) -> (r: IpRange)
        ensures
            r.wf(),
            r.remaining() == range_between(a, b),
    {
        let (lo, hi) = if a <= b {
            (a, b)
        } else {
            (b, a)
        };
        IpRange { cur: lo, end: hi, done: false }
    }

    /// Yields the next address value, or `None` once the range is exhausted.
    pub fn next(&mut self) -> (r: Option<u32>)
        requires
            old(self).wf(),
        ensures
            final(self).wf(),
            old(self).remaining().len() == 0 ==> r is None && final(self).remaining()
                == old(self).remaining(),
            old(self).remaining().len() > 0 ==> r == Some(old(self).remaining()[0])
                && final(self).remaining() == old(self).remaining().drop_first(),
    {
        if self.done {
            return None;
        }
        let out = self.cur;
        if self.cur == self.end {
            self.done = true;
        } else {
            self.cur = self.cur + 1;
        }
        proof {
            assert(final(self).remaining() =~= old(self).remaining().drop_first());
        }
        Some(out)
    }
}

} // verus!
