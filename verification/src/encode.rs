//! Choosing between the two ways to encode a pack.
use vstd::prelude::*;

use crate::buckets::Incoming;
#[allow(unused_imports)]
use crate::delta::{diffs_all, orders_all, rates_all};
#[allow(unused_imports)]
use crate::encoder::chunk_views;
use crate::encoder::PackEncoder;
use crate::error::GitError;
#[allow(unused_imports)]
use crate::parallel::{batch_of, parallel_outcome, parallel_ready};
use crate::window::{RateOrder, RateQuery};
#[allow(unused_imports)]
use crate::windowed::window_outcome;

verus! {

impl PackEncoder {
    /// Encodes all entries into a pack: whole and in parallel if the encoder has no
    /// delta window, else through delta windows. `max_capacity` is the number of
    /// entries that the channel they came through can hold.
    pub fn encode<
        K,
        R: Fn(&Vec<RateQuery<'_>>, &[u8]) -> Vec<Option<K>>,
        O: Fn(&K, &K) -> RateOrder,
        D: Fn(&[u8], &[u8], bool) -> Vec<u8>,
    >(
        &mut self,
        entries: Vec<Incoming>,
        max_capacity: usize,
        rate: &R,
        order: &O,
        diff: &D,
        out: &mut Vec<Vec<u8>>,
    ) -> (done: Result<bool, GitError>)
        requires
            parallel_ready(old(self)@, entries@, batch_of(max_capacity)),
            old(self)@.window_size != 0 ==> 0 < old(self)@.object_number <= u32::MAX,
            rates_all(*rate),
            orders_all(*order),
            diffs_all(*diff),
        ensures
            old(self)@.window_size == 0 ==> parallel_outcome(
                old(self)@,
                final(self)@,
                entries@,
                batch_of(max_capacity),
                chunk_views(old(out)@),
                chunk_views(final(out)@),
                done,
            ),
            old(self)@.window_size != 0 ==> window_outcome(
                old(self)@,
                final(self)@,
                entries@,
                false,
                *rate,
                *order,
                *diff,
                chunk_views(old(out)@),
                chunk_views(final(out)@),
                done,
            ),
    {
        if self.window_size() == 0 {
            self.parallel_encode(entries, max_capacity, out)
        } else {
            self.inner_encode(entries, false, rate, order, diff, out)
        }
    }
}

} // verus!
