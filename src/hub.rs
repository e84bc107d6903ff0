use vstd::prelude::*;

use crate::book::{copy_book, empty_book, merge_orderbooks, merged, BookView, OrderBook};
use crate::parser::{process_message, text_book};

verus! {

/// How many snapshots a subscriber's queue holds before new ones are dropped.
pub const SUBSCRIBER_CAPACITY: usize = 100;

/// The two upstream venues.
#[derive(Clone, Copy, Debug, PartialEq, Eq, Structural)]
pub enum Exchange {
    Binance,
    Bitstamp,
}

pub open spec fn exchange_tag(e: Exchange) -> Seq<char> {
    match e {
        Exchange::Binance => "binance"@,
        Exchange::Bitstamp => "bitstamp"@,
    }
}

impl Exchange {
    /// The identifier that levels from this venue carry.
    pub fn tag(&self) -> (r: &'static str)
        ensures
            r@ == exchange_tag(*self),
    {
        match self {
            Exchange::Binance => "binance",
            Exchange::Bitstamp => "bitstamp",
        }
    }
}

pub struct AggregatorView {
    pub binance: BookView,
    pub bitstamp: BookView,
    pub depth: nat,
}

/// The hub's state: the last book of each venue and the configured depth.
pub struct Aggregator {
    binance: OrderBook,
    bitstamp: OrderBook,
    depth: usize,
}

impl View for Aggregator {
    type V = AggregatorView;

    closed spec fn view(&self) -> AggregatorView {
        AggregatorView { binance: self.binance@, bitstamp: self.bitstamp@, depth: self.depth as nat }
    }
}

/// The book of `a` once `book` has replaced the slot of `exchange`.
pub open spec fn with_snapshot(a: AggregatorView, exchange: Exchange, book: BookView) -> AggregatorView {
    match exchange {
        Exchange::Binance => AggregatorView { binance: book, ..a },
        Exchange::Bitstamp => AggregatorView { bitstamp: book, ..a },
    }
}

/// The consolidated book of a hub state: Binance's levels ahead of Bitstamp's on full ties.
pub open spec fn consolidated_view(a: AggregatorView) -> BookView {
    merged(a.binance, a.bitstamp, a.depth)
}

impl Aggregator {
    /// A hub with both slots empty.
    pub fn new(depth: usize) -> (r: Aggregator)
        ensures
            r@ == (AggregatorView { binance: empty_book(), bitstamp: empty_book(), depth: depth as nat }),
    {
        Aggregator { binance: OrderBook::new(), bitstamp: OrderBook::new(), depth }
    }

    pub fn depth(&self) -> (r: usize)
        ensures
            r == self@.depth,
    {
        self.depth
    }

    /// The merged book of the current slots.
    pub fn consolidated(&self) -> (r: OrderBook)
        ensures
            r@ == consolidated_view(self@),
    {
        merge_orderbooks(&self.binance, &self.bitstamp, self.depth)
    }

    /// Stores a venue's new book and returns the consolidated book to publish.
    pub fn on_snapshot(&mut self, exchange: Exchange, book: OrderBook) -> (r: OrderBook)
        ensures
            final(self)@ == with_snapshot(old(self)@, exchange, book@),
            r@ == consolidated_view(final(self)@),
    {
        match exchange {
            Exchange::Binance => {
                self.binance = book;
            },
            Exchange::Bitstamp => {
                self.bitstamp = book;
            },
        }
        self.consolidated()
    }

    /// Handles one text frame of a venue: a frame that carries a book replaces that
    /// venue's slot and yields the consolidated book; any other frame changes nothing.
    pub fn on_frame(&mut self, exchange: Exchange, text: &str) -> (r: Option<OrderBook>)
        ensures
            match text_book(text@, exchange_tag(exchange), old(self)@.depth) {
                Some(b) => {
                    &&& final(self)@ == with_snapshot(old(self)@, exchange, b)
                    &&& r matches Some(m) && m@ == consolidated_view(final(self)@)
                },
                None => final(self)@ == old(self)@ && r is None,
            },
    {
        match process_message(text, exchange.tag(), self.depth) {
            Some(book) => Some(self.on_snapshot(exchange, book)),
            None => None,
        }
    }
}

/// A bounded first-in first-out queue of snapshots for one subscriber.
pub struct SubscriberQueue {
    items: Vec<OrderBook>,
    capacity: usize,
}

pub struct QueueView {
    pub items: Seq<BookView>,
    pub capacity: nat,
}

impl View for SubscriberQueue {
    type V = QueueView;

    closed spec fn view(&self) -> QueueView {
        QueueView {
            items: self.items@.map_values(|b: OrderBook| b@),
            capacity: self.capacity as nat,
        }
    }
}

impl SubscriberQueue {
    pub fn new(capacity: usize) -> (r: SubscriberQueue)
        ensures
            r@.items == Seq::<BookView>::empty(),
            r@.capacity == capacity,
    {
        let r = SubscriberQueue { items: Vec::new(), capacity };
        assert(r@.items =~= Seq::<BookView>::empty());
        r
    }

    pub fn len(&self) -> (r: usize)
        ensures
            r == self@.items.len(),
    {
        self.items.len()
    }

    pub fn capacity(&self) -> (r: usize)
        ensures
            r == self@.capacity,
    {
        self.capacity
    }

    /// Appends a snapshot where there is room; drops it where the queue is full.
    pub fn offer(&mut self, book: OrderBook) -> (accepted: bool)
        ensures
            accepted == (old(self)@.items.len() < old(self)@.capacity),
            accepted ==> final(self)@ == (QueueView {
                items: old(self)@.items.push(book@),
                ..old(self)@
            }),
            !accepted ==> final(self)@ == old(self)@,
    {
        if self.items.len() < self.capacity {
            let ghost before = self@;
            self.items.push(book);
            assert(self@.items =~= before.items.push(book@));
            true
        } else {
            false
        }
    }

    /// Takes the oldest snapshot, if any.
    pub fn take(&mut self) -> (r: Option<OrderBook>)
        ensures
            old(self)@.items.len() == 0 ==> r is None && final(self)@ == old(self)@,
            old(self)@.items.len() > 0 ==> {
                &&& r matches Some(b) && b@ == old(self)@.items[0]
                &&& final(self)@ == (QueueView { items: old(self)@.items.drop_first(), ..old(self)@ })
            },
    {
        if self.items.len() == 0 {
            None
        } else {
            let ghost before = self@;
            let b = self.items.remove(0);
            assert(self@.items =~= before.items.drop_first());
            Some(b)
        }
    }
}

pub struct FanOutView {
    pub queues: Seq<QueueView>,
}

/// The set of subscriber queues that the hub publishes to.
pub struct FanOut {
    queues: Vec<SubscriberQueue>,
}

/// A queue after a snapshot was offered to it.
pub open spec fn offered(q: QueueView, b: BookView) -> QueueView {
    if q.items.len() < q.capacity {
        QueueView { items: q.items.push(b), ..q }
    } else {
        q
    }
}

/// How many of the queues are full.
pub open spec fn full_count(qs: Seq<QueueView>) -> nat
    decreases qs.len(),
{
    if qs.len() == 0 {
        0
    } else {
        full_count(qs.drop_last()) + if qs.last().items.len() < qs.last().capacity {
            0nat
        } else {
            1nat
        }
    }
}

impl View for FanOut {
    type V = FanOutView;

    closed spec fn view(&self) -> FanOutView {
        FanOutView { queues: self.queues@.map_values(|q: SubscriberQueue| q@) }
    }
}

impl FanOut {
    pub fn new() -> (r: FanOut)
        ensures
            r@.queues == Seq::<QueueView>::empty(),
    {
        let r = FanOut { queues: Vec::new() };
        assert(r@.queues =~= Seq::<QueueView>::empty());
        r
    }

    /// Registers a subscriber with an empty queue of `SUBSCRIBER_CAPACITY` places and
    /// returns its index.
    pub fn subscribe(&mut self) -> (id: usize)
        ensures
            id == old(self)@.queues.len(),
            final(self)@.queues == old(self)@.queues.push(
                QueueView { items: Seq::empty(), capacity: SUBSCRIBER_CAPACITY as nat },
            ),
    {
        let ghost before = self@;
        let id = self.queues.len();
        self.queues.push(SubscriberQueue::new(SUBSCRIBER_CAPACITY));
        assert(self@.queues =~= before.queues.push(
            QueueView { items: Seq::empty(), capacity: SUBSCRIBER_CAPACITY as nat },
        ));
        id
    }

    /// Forgets subscriber `id`; the subscribers after it move down one index.
    pub fn unsubscribe(&mut self, id: usize)
        requires
            id < old(self)@.queues.len(),
        ensures
            final(self)@.queues == old(self)@.queues.remove(id as int),
    {
        let ghost before = self.queues@;
        self.queues.remove(id);
        assert(self@.queues =~= old(self)@.queues.remove(id as int)) by {
            assert(self.queues@ =~= before.remove(id as int));
        }
    }

    pub fn subscribers(&self) -> (r: usize)
        ensures
            r == self@.queues.len(),
    {
        self.queues.len()
    }

    /// Offers a copy of `book` to every queue: a full queue drops it, the others take it;
    /// returns how many queues dropped it.
    pub fn publish(&mut self, book: &OrderBook) -> (dropped: usize)
        ensures
            final(self)@.queues.len() == old(self)@.queues.len(),
            forall|i: int|
                0 <= i < old(self)@.queues.len() ==> #[trigger] final(self)@.queues[i] == offered(
                    old(self)@.queues[i],
                    book@,
                ),
            dropped == full_count(old(self)@.queues),
    {
        let ghost start = self@.queues;
        let mut dropped: usize = 0;
        let n = self.queues.len();
        for i in 0..n
            invariant
                n == start.len(),
                self@.queues.len() == n,
                dropped == full_count(start.take(i as int)),
                dropped <= i,
                forall|j: int| 0 <= j < i ==> #[trigger] self@.queues[j] == offered(start[j], book@),
                forall|j: int| i <= j < n ==> #[trigger] self@.queues[j] == start[j],
        {
            let copy = copy_book(book);
            let ghost pre = self.queues@;
            let ghost pre_view = self@.queues;
            assert(self@.queues[i as int] == start[i as int]);
            assert(self@.queues[i as int] == pre[i as int]@);
            let mut q = self.queues.remove(i);
            assert(q@ == start[i as int]);
            let accepted = q.offer(copy);
            proof {
                assert(start.take(i + 1).drop_last() =~= start.take(i as int));
                assert(start.take(i + 1).last() == start[i as int]);
            }
            if !accepted {
                dropped = dropped + 1;
            }
            self.queues.insert(i, q);
            proof {
                assert(self.queues@ =~= pre.update(i as int, q));
                assert(self@.queues[i as int] == q@);
                assert forall|j: int| 0 <= j < n && j != i implies #[trigger] self@.queues[j]
                    == pre_view[j] by {
                    assert(self.queues@[j] == pre[j]);
                    assert(pre_view[j] == pre[j]@);
                }
                assert forall|j: int| 0 <= j < i implies #[trigger] self@.queues[j] == offered(
                    start[j],
                    book@,
                ) by {
                    assert(self@.queues[j] == pre_view[j]);
                }
                assert forall|j: int| i + 1 <= j < n implies #[trigger] self@.queues[j] == start[j] by {
                    assert(self@.queues[j] == pre_view[j]);
                }
            }
        }
        proof {
            assert(start.take(n as int) =~= start);
        }
        dropped
    }

    /// Takes the oldest snapshot waiting for subscriber `id`.
    pub fn take(&mut self, id: usize) -> (r: Option<OrderBook>)
        requires
            id < old(self)@.queues.len(),
        ensures
            final(self)@.queues.len() == old(self)@.queues.len(),
            forall|j: int|
                0 <= j < old(self)@.queues.len() && j != id ==> #[trigger] final(self)@.queues[j]
                    == old(self)@.queues[j],
            old(self)@.queues[id as int].items.len() == 0 ==> r is None && final(self)@.queues[id as int]
                == old(self)@.queues[id as int],
            old(self)@.queues[id as int].items.len() > 0 ==> {
                &&& r matches Some(b) && b@ == old(self)@.queues[id as int].items[0]
                &&& final(self)@.queues[id as int].items == old(self)@.queues[id as int].items.drop_first()
            },
    {
        let ghost pre = self.queues@;
        let mut q = self.queues.remove(id);
        let r = q.take();
        self.queues.insert(id, q);
        proof {
            assert(self.queues@ =~= pre.update(id as int, q));
            assert forall|j: int| 0 <= j < pre.len() && j != id implies #[trigger] self@.queues[j]
                == pre[j]@ by {
                assert(self.queues@[j] == pre[j]);
            }
        }
        r
    }
}

} // verus!
