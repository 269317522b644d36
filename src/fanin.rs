//! Fan-in and fan-out: the latest book per venue merged into one summary on
//! every update, and what a subscriber's stream does with each broadcast event.
use crate::aggregate::{
    descending, group_map, lemma_sorted_groups, levels_view, merge_side, sorted_groups, top_rows,
    AggregatedOrderbook, Summary,
};
use crate::book::{level_map, BookView, Orderbook};
use crate::decimal::Decimal;
use crate::store::{lists, BookStore};
use vstd::prelude::*;

verus! {

/// Price levels per side a summary visits.
pub const SUMMARY_LEVEL: u32 = 10;

/// The bids (`bid`) or asks of the books in `order`, merged in that order.
pub open spec fn merged(order: Seq<(String, Orderbook)>, bid: bool) -> Map<Decimal, Seq<(Seq<char>, Decimal)>>
    decreases order.len(),
{
    if order.len() == 0 {
        Map::empty()
    } else {
        let b = order.last().1@;
        merge_side(merged(order.drop_last(), bid), b.name, level_map(if bid { b.bid } else { b.ask }))
    }
}

/// The summary of the books in `order`: merged in that order, then read to
/// `SUMMARY_LEVEL` prices a side.
pub open spec fn summary_of(order: Seq<(String, Orderbook)>, r: Summary) -> bool {
    &&& levels_view(r.bids@) == top_rows(descending(sorted_groups(merged(order, true))), SUMMARY_LEVEL as nat)
    &&& levels_view(r.asks@) == top_rows(sorted_groups(merged(order, false)), SUMMARY_LEVEL as nat)
}

/// The latest book of every venue.
#[derive(Debug)]
pub struct FanIn {
    cache: BookStore,
}

impl View for FanIn {
    type V = Map<Seq<char>, BookView>;

    closed spec fn view(&self) -> Map<Seq<char>, BookView> {
        self.cache@
    }
}

impl FanIn {
    pub closed spec fn wf(&self) -> bool {
        self.cache.wf()
    }

    pub fn new() -> (r: FanIn)
        ensures
            r.wf(),
            r@ == Map::<Seq<char>, BookView>::empty(),
    {
        FanIn { cache: BookStore::new() }
    }

    /// Take `book` as the venue's latest and summarize all venues' latest
    /// books, merged in some order of the venues.
    pub fn update(&mut self, venue: String, book: Orderbook) -> (r: Summary)
        requires
            old(self).wf(),
            book.wf(),
        ensures
            final(self).wf(),
            final(self)@ == old(self)@.insert(venue@, book@),
            exists|order: Seq<(String, Orderbook)>| #[trigger] lists(order, final(self)@) && summary_of(order, r),
    {
        self.cache.put(venue, book);
        let entries = self.cache.entries();
        let mut agg = AggregatedOrderbook::new();
        let mut i: usize = 0;
        proof {
            assert(entries@.take(0) =~= Seq::<(String, Orderbook)>::empty());
            assert(group_map(agg@.bid) =~= Map::<Decimal, Seq<(Seq<char>, Decimal)>>::empty());
            assert(group_map(agg@.ask) =~= Map::<Decimal, Seq<(Seq<char>, Decimal)>>::empty());
        }
        while i < entries.len()
            invariant
                i <= entries@.len(),
                agg.wf(),
                forall|k: int| 0 <= k < entries@.len() ==> (#[trigger] entries@[k]).1.wf(),
                group_map(agg@.bid) == merged(entries@.take(i as int), true),
                group_map(agg@.ask) == merged(entries@.take(i as int), false),
            decreases entries@.len() - i,
        {
            agg.merge(&entries[i].1);
            proof {
                assert(entries@.take(i + 1).drop_last() =~= entries@.take(i as int));
                assert(entries@.take(i + 1).last() == entries@[i as int]);
            }
            i = i + 1;
        }
        proof {
            assert(entries@.take(i as int) =~= entries@);
        }
        let r = agg.finalize(SUMMARY_LEVEL);
        proof {
            lemma_sorted_groups(agg@.bid);
            lemma_sorted_groups(agg@.ask);
            assert(lists(entries@, self@) && summary_of(entries@, r));
        }
        r
    }
}

/// Status codes a subscriber's stream can carry.
#[derive(Clone, Copy, Debug, PartialEq, Eq, Structural)]
pub enum StatusCode {
    /// A summary could not be built (a figure did not convert).
    InvalidArgument,
    /// The subscriber fell behind the broadcast buffer.
    DeadlineExceeded,
    /// The broadcast closed.
    Aborted,
}

/// An error status for a subscriber.
#[derive(Clone, Debug, PartialEq)]
pub struct Status {
    pub code: StatusCode,
    pub message: String,
}

/// What a subscriber's receiver produced.
#[derive(Debug)]
pub enum Received<T> {
    Item(Result<T, Status>),
    /// Messages were dropped because the subscriber fell behind.
    Lagged(u64),
    Closed,
}

/// What a subscriber's stream yields next.
#[derive(Debug)]
pub enum StreamStep<T> {
    Yield(Result<T, Status>),
    End,
}

/// The slow-consumer policy: falling behind yields a `DeadlineExceeded`
/// ("timeout") and the stream goes on; a closed broadcast, or an `Aborted`
/// status, ends the stream; everything else passes through.
pub fn stream_step<T>(received: Received<T>) -> (r: StreamStep<T>)
    ensures
        match received {
            Received::Item(Ok(x)) => r == StreamStep::<T>::Yield(Ok(x)),
            Received::Item(Err(s)) => if s.code == StatusCode::Aborted {
                r is End
            } else {
                r == StreamStep::<T>::Yield(Err(s))
            },
            Received::Lagged(_) => (r matches StreamStep::Yield(Err(s)) && s.code == StatusCode::DeadlineExceeded
                && s.message@ == "timeout"@),
            Received::Closed => r is End,
        },
{
    match received {
        Received::Item(Ok(x)) => StreamStep::Yield(Ok(x)),
        Received::Item(Err(s)) => if s.code == StatusCode::Aborted {
            StreamStep::End
        } else {
            StreamStep::Yield(Err(s))
        },
        Received::Lagged(_) => StreamStep::Yield(
            Err(Status { code: StatusCode::DeadlineExceeded, message: "timeout".to_owned() }),
        ),
        Received::Closed => StreamStep::End,
    }
}

} // verus!
