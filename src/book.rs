use vstd::prelude::*;

use crate::decimal::Decimal;

verus! {

/// A price level as the contracts see it: venue, price and amount in units.
pub struct LevelView {
    pub exchange: Seq<char>,
    pub price: nat,
    pub amount: nat,
}

/// A book as the contracts see it.
pub struct BookView {
    pub bids: Seq<LevelView>,
    pub asks: Seq<LevelView>,
    pub spread: int,
}

/// A price level attributable to one exchange.
#[derive(Clone, Debug, PartialEq, Eq)]
pub struct Level {
    pub exchange: String,
    pub price: Decimal,
    pub amount: Decimal,
}

/// The name the streaming server gives a level.
pub type PriceAmountLevel = Level;

impl View for Level {
    type V = LevelView;

    open spec fn view(&self) -> LevelView {
        LevelView { exchange: self.exchange@, price: self.price@, amount: self.amount@ }
    }
}

/// Bids (best first), asks (best first) and the spread `best ask - best bid`, in units
/// of ten to the minus 18th; the spread is 0 while a side is empty.
#[derive(Clone, Debug, PartialEq, Eq)]
pub struct OrderBook {
    pub bids: Vec<Level>,
    pub asks: Vec<Level>,
    pub spread: i128,
}

pub open spec fn levels_view(v: Seq<Level>) -> Seq<LevelView> {
    v.map_values(|l: Level| l@)
}

impl View for OrderBook {
    type V = BookView;

    open spec fn view(&self) -> BookView {
        BookView {
            bids: levels_view(self.bids@),
            asks: levels_view(self.asks@),
            spread: self.spread as int,
        }
    }
}

/// `a` goes strictly before `b` on a side: better price first (lower for asks, higher
/// for bids), and on equal prices the larger amount first.
pub open spec fn precedes(a: LevelView, b: LevelView, ascending: bool) -> bool {
    if a.price == b.price {
        a.amount > b.amount
    } else if ascending {
        a.price < b.price
    } else {
        a.price > b.price
    }
}

/// No level is preceded by one that comes after it.
pub open spec fn is_sorted(s: Seq<LevelView>, ascending: bool) -> bool {
    forall|i: int, j: int|
        0 <= i < j < s.len() ==> !precedes(#[trigger] s[j], #[trigger] s[i], ascending)
}

/// Where a stable insertion puts `x` into the sorted `s`: after every level that it does
/// not strictly precede.
pub open spec fn insert_position(s: Seq<LevelView>, x: LevelView, ascending: bool) -> nat
    decreases s.len(),
{
    if s.len() == 0 {
        0
    } else if precedes(x, s.last(), ascending) {
        insert_position(s.drop_last(), x, ascending)
    } else {
        s.len()
    }
}

/// The stable sort of a side: each level in input order is inserted after the levels
/// that it does not strictly precede, so levels equal in price and amount keep their order.
pub open spec fn sort_levels(s: Seq<LevelView>, ascending: bool) -> Seq<LevelView>
    decreases s.len(),
{
    if s.len() == 0 {
        s
    } else {
        let sorted = sort_levels(s.drop_last(), ascending);
        sorted.insert(insert_position(sorted, s.last(), ascending) as int, s.last())
    }
}

/// The best `depth` levels of a side.
pub open spec fn sort_truncate(s: Seq<LevelView>, depth: nat, ascending: bool) -> Seq<
    LevelView,
> {
    let t = sort_levels(s, ascending);
    if depth < t.len() {
        t.take(depth as int)
    } else {
        t
    }
}

pub open spec fn spread_of(bids: Seq<LevelView>, asks: Seq<LevelView>) -> int {
    if bids.len() > 0 && asks.len() > 0 {
        asks[0].price - bids[0].price
    } else {
        0
    }
}

/// A book whose sides are sorted and cut to `depth` from the given levels.
pub open spec fn book_from_sides(
    bids: Seq<LevelView>,
    asks: Seq<LevelView>,
    depth: nat,
) -> BookView {
    let b = sort_truncate(bids, depth, false);
    let a = sort_truncate(asks, depth, true);
    BookView { bids: b, asks: a, spread: spread_of(b, a) }
}

/// The consolidated book of two books: each side is the first book's levels followed by
/// the second's, sorted and cut to `depth`.
pub open spec fn merged(first: BookView, second: BookView, depth: nat) -> BookView {
    book_from_sides(first.bids + second.bids, first.asks + second.asks, depth)
}

pub open spec fn empty_book() -> BookView {
    BookView { bids: Seq::empty(), asks: Seq::empty(), spread: 0 }
}

pub fn clone_level(l: &Level) -> (r: Level)
    ensures
        r@ == l@,
{
    Level { exchange: l.exchange.clone(), price: l.price, amount: l.amount }
}

fn precedes_exec(a: &Level, b: &Level, ascending: bool) -> (r: bool)
    ensures
        r == precedes(a@, b@, ascending),
{
    let ap = a.price.units();
    let bp = b.price.units();
    if ap == bp {
        a.amount.units() > b.amount.units()
    } else if ascending {
        ap < bp
    } else {
        ap > bp
    }
}

/// The levels sorted best first (ascending prices for asks, descending for bids; larger
/// amount first on equal prices; input order kept on full ties), cut to `depth`.
pub fn sort_and_trim_levels(levels: &[Level], depth: usize, ascending: bool) -> (r: Vec<Level>)
    ensures
        levels_view(r@) == sort_truncate(levels_view(levels@), depth as nat, ascending),
{
    let mut sorted: Vec<Level> = Vec::new();
    let n = levels.len();
    let ghost input = levels_view(levels@);
    for i in 0..n
        invariant
            n == levels@.len(),
            input == levels_view(levels@),
            levels_view(sorted@) == sort_levels(input.take(i as int), ascending),
    {
        let x = clone_level(&levels[i]);
        let mut pos = sorted.len();
        let ghost s = levels_view(sorted@);
        assert(s.take(pos as int) =~= s);
        while pos > 0 && precedes_exec(&x, &sorted[pos - 1], ascending)
            invariant
                pos <= sorted@.len(),
                s == levels_view(sorted@),
                insert_position(s, x@, ascending) == insert_position(
                    s.take(pos as int),
                    x@,
                    ascending,
                ),
            decreases pos,
        {
            proof {
                let t = s.take(pos as int);
                assert(t.drop_last() =~= s.take(pos - 1));
            }
            pos = pos - 1;
        }
        proof {
            if pos > 0 {
                assert(s.take(pos as int).last() == s[pos - 1]);
            }
        }
        sorted.insert(pos, x);
        proof {
            assert(input.take(i + 1).drop_last() =~= input.take(i as int));
            assert(input.take(i + 1).last() == x@);
            assert(levels_view(sorted@) =~= s.insert(pos as int, x@));
        }
    }
    proof {
        assert(input.take(n as int) =~= input);
    }
    if depth < sorted.len() {
        sorted.truncate(depth);
        proof {
            assert(levels_view(sorted@) =~= sort_levels(input, ascending).take(depth as int));
        }
    }
    sorted
}

fn spread_exec(bids: &Vec<Level>, asks: &Vec<Level>) -> (r: i128)
    ensures
        r == spread_of(levels_view(bids@), levels_view(asks@)),
{
    if bids.len() > 0 && asks.len() > 0 {
        let a = asks[0].price.units();
        let b = bids[0].price.units();
        proof {
            crate::decimal::lemma_pow10_36();
        }
        a as i128 - b as i128
    } else {
        0
    }
}

/// Builds a book from unordered sides: each sorted best first and cut to `depth`, with
/// the spread of the result.
pub fn book_from_levels(bids: &Vec<Level>, asks: &Vec<Level>, depth: usize) -> (r: OrderBook)
    ensures
        r@ == book_from_sides(levels_view(bids@), levels_view(asks@), depth as nat),
{
    let b = sort_and_trim_levels(bids, depth, false);
    let a = sort_and_trim_levels(asks, depth, true);
    let spread = spread_exec(&b, &a);
    OrderBook { bids: b, asks: a, spread }
}

fn concat_levels(first: &Vec<Level>, second: &Vec<Level>) -> (r: Vec<Level>)
    ensures
        levels_view(r@) == levels_view(first@) + levels_view(second@),
{
    let mut out: Vec<Level> = Vec::new();
    for i in 0..first.len()
        invariant
            out@.len() == i,
            levels_view(out@) == levels_view(first@).take(i as int),
    {
        let c = clone_level(&first[i]);
        out.push(c);
        proof {
            assert(levels_view(out@) =~= levels_view(first@).take(i + 1));
        }
    }
    proof {
        assert(levels_view(first@).take(first@.len() as int) =~= levels_view(first@));
    }
    for j in 0..second.len()
        invariant
            out@.len() == first@.len() + j,
            levels_view(out@) == levels_view(first@) + levels_view(second@).take(j as int),
    {
        let c = clone_level(&second[j]);
        let ghost before = out@;
        out.push(c);
        proof {
            let k = first@.len() + j;
            assert(levels_view(out@)[k] == c@);
            assert(levels_view(second@)[j as int] == c@);
            let lhs = levels_view(out@);
            let rhs = levels_view(first@) + levels_view(second@).take(j + 1);
            let prev = levels_view(first@) + levels_view(second@).take(j as int);
            assert(lhs.len() == rhs.len());
            assert forall|m: int| 0 <= m < lhs.len() implies lhs[m] == rhs[m] by {
                if m < k {
                    assert(out@[m] == before[m]);
                    assert(levels_view(before)[m] == prev[m]);
                    if m >= first@.len() {
                        assert(prev[m] == levels_view(second@)[m - first@.len()]);
                    }
                }
            }
            assert(lhs =~= rhs);
        }
    }
    proof {
        assert(levels_view(second@).take(second@.len() as int) =~= levels_view(second@));
    }
    out
}

/// The consolidated book of two per-exchange books: the levels of both, each keeping
/// its exchange, sorted per side (the first book's levels ahead of the second's on full
/// ties) and cut to `depth`, with the spread recomputed.
pub fn merge_orderbooks(first: &OrderBook, second: &OrderBook, depth: usize) -> (r: OrderBook)
    ensures
        r@ == merged(first@, second@, depth as nat),
{
    let bids = concat_levels(&first.bids, &second.bids);
    let asks = concat_levels(&first.asks, &second.asks);
    book_from_levels(&bids, &asks, depth)
}

fn clone_levels(levels: &Vec<Level>) -> (r: Vec<Level>)
    ensures
        levels_view(r@) == levels_view(levels@),
{
    let empty: Vec<Level> = Vec::new();
    let r = concat_levels(levels, &empty);
    assert(levels_view(levels@) + levels_view(empty@) =~= levels_view(levels@));
    r
}

/// A copy of a book, level for level.
pub fn copy_book(b: &OrderBook) -> (r: OrderBook)
    ensures
        r@ == b@,
{
    OrderBook { bids: clone_levels(&b.bids), asks: clone_levels(&b.asks), spread: b.spread }
}

impl OrderBook {
    /// The empty book: no levels and a spread of 0.
    pub fn new() -> (r: OrderBook)
        ensures
            r@ == empty_book(),
    {
        let r = OrderBook { bids: Vec::new(), asks: Vec::new(), spread: 0 };
        proof {
            assert(levels_view(r.bids@) =~= Seq::<LevelView>::empty());
            assert(levels_view(r.asks@) =~= Seq::<LevelView>::empty());
        }
        r
    }
}

} // verus!
