use vstd::prelude::*;

use serde_json::Value;

use crate::book::{
    book_from_levels, book_from_sides, levels_view, BookView, Level, LevelView, OrderBook,
};
use crate::decimal::{units_of, Decimal};
use crate::json::{is_key_pointer, json_model, json_text_model, member, models, parse_json, JsonTree};

verus! {

/// The part of a frame that carries the book: the top-level `data` object where there is
/// one, the whole document otherwise.
pub open spec fn frame_body(t: JsonTree) -> JsonTree {
    match member(t, "data"@) {
        Some(d) => if d is Object {
            d
        } else {
            t
        },
        None => t,
    }
}

/// The level that one entry `["price", "amount"]` of a side denotes, if it is one.
pub open spec fn entry_level(e: JsonTree, exchange: Seq<char>) -> Option<LevelView> {
    match e {
        JsonTree::Array(items) => if items.len() == 2 {
            match (items[0], items[1]) {
                (JsonTree::Str(p), JsonTree::Str(a)) => match (units_of(p), units_of(a)) {
                    (Some(pu), Some(au)) => Some(LevelView { exchange, price: pu, amount: au }),
                    _ => None,
                },
                _ => None,
            }
        } else {
            None
        },
        _ => None,
    }
}

/// The levels of a side in frame order: entries that are not a pair of decimal strings
/// are skipped, and so are levels with a zero amount (deletions).
pub open spec fn side_levels(entries: Seq<JsonTree>, exchange: Seq<char>) -> Seq<LevelView>
    decreases entries.len(),
{
    if entries.len() == 0 {
        Seq::empty()
    } else {
        let rest = side_levels(entries.drop_last(), exchange);
        match entry_level(entries.last(), exchange) {
            Some(l) => if l.amount > 0 {
                rest.push(l)
            } else {
                rest
            },
            None => rest,
        }
    }
}

/// The book that a frame document carries for `exchange`, cut to `depth`; `None` where
/// `bids` or `asks` is missing or is not an array.
pub open spec fn frame_book(t: JsonTree, exchange: Seq<char>, depth: nat) -> Option<BookView> {
    let body = frame_body(t);
    match (member(body, "bids"@), member(body, "asks"@)) {
        (Some(JsonTree::Array(b)), Some(JsonTree::Array(a))) => Some(
            book_from_sides(side_levels(b, exchange), side_levels(a, exchange), depth),
        ),
        _ => None,
    }
}

/// The book that a frame text carries; `None` where it is not JSON or carries no book.
pub open spec fn text_book(text: Seq<char>, exchange: Seq<char>, depth: nat) -> Option<BookView> {
    match json_text_model(text) {
        Some(t) => frame_book(t, exchange, depth),
        None => None,
    }
}

pub open spec fn book_option_view(r: Option<OrderBook>) -> Option<BookView> {
    match r {
        Some(b) => Some(b@),
        None => None,
    }
}

proof fn lemma_key_pointer(p: &str, key: &str)
    requires
        p@ == seq!['/'] + key@,
        key@.len() > 0,
        forall|i: int| 0 <= i < key@.len() ==> 'a' <= #[trigger] key@[i] && key@[i] <= 'z',
    ensures
        is_key_pointer(p@),
        p@.skip(1) == key@,
{
    assert(p@.skip(1) =~= key@);
    assert forall|i: int| 1 <= i < p@.len() implies 'a' <= #[trigger] p@[i] && p@[i] <= 'z' by {
        assert(p@[i] == key@[i - 1]);
    }
}

/// The level of one side entry, tagged with `exchange`.
pub fn level_from_entry(entry: &Value, exchange: &str) -> (r: Option<Level>)
    ensures
        match entry_level(json_model(*entry), exchange@) {
            Some(l) => r matches Some(x) && x@ == l,
            None => r is None,
        },
{
    let items = match entry.as_array() {
        Some(a) => a,
        None => return None,
    };
    if items.len() != 2 {
        return None;
    }
    proof {
        assert(models(items@)[0] == json_model(items@[0]));
        assert(models(items@)[1] == json_model(items@[1]));
    }
    let price_text = match items[0].as_str() {
        Some(s) => s,
        None => return None,
    };
    let amount_text = match items[1].as_str() {
        Some(s) => s,
        None => return None,
    };
    let price = match Decimal::parse(price_text) {
        Some(d) => d,
        None => return None,
    };
    let amount = match Decimal::parse(amount_text) {
        Some(d) => d,
        None => return None,
    };
    Some(Level { exchange: exchange.to_owned(), price, amount })
}

/// The levels of a side, in frame order, without skipped entries and zero amounts.
pub fn side_from_entries(entries: &Vec<Value>, exchange: &str) -> (r: Vec<Level>)
    ensures
        levels_view(r@) == side_levels(models(entries@), exchange@),
{
    let mut out: Vec<Level> = Vec::new();
    let ghost all = models(entries@);
    for i in 0..entries.len()
        invariant
            all == models(entries@),
            levels_view(out@) == side_levels(all.take(i as int), exchange@),
    {
        proof {
            assert(all.take(i + 1).drop_last() =~= all.take(i as int));
            assert(all.take(i + 1).last() == json_model(entries@[i as int]));
        }
        match level_from_entry(&entries[i], exchange) {
            Some(level) => {
                if !level.amount.is_zero() {
                    let ghost before = out@;
                    out.push(level);
                    proof {
                        assert(levels_view(out@) =~= levels_view(before).push(level@));
                    }
                }
            },
            None => {},
        }
    }
    proof {
        assert(all.take(entries@.len() as int) =~= all);
    }
    out
}

/// The book of a frame document, for `exchange`, cut to `depth`.
pub fn book_from_value(frame: &Value, exchange: &str, depth: usize) -> (r: Option<OrderBook>)
    ensures
        book_option_view(r) == frame_book(json_model(*frame), exchange@, depth as nat),
{
    proof {
        reveal_strlit("/data");
        reveal_strlit("data");
        reveal_strlit("/bids");
        reveal_strlit("bids");
        reveal_strlit("/asks");
        reveal_strlit("asks");
        assert("/data"@ =~= seq!['/'] + "data"@);
        lemma_key_pointer("/data", "data");
        assert("/bids"@ =~= seq!['/'] + "bids"@);
        lemma_key_pointer("/bids", "bids");
        assert("/asks"@ =~= seq!['/'] + "asks"@);
        lemma_key_pointer("/asks", "asks");
    }
    let body = match frame.pointer("/data") {
        Some(d) => if d.is_object() {
            d
        } else {
            frame
        },
        None => frame,
    };
    let bid_entries = match body.pointer("/bids") {
        Some(b) => match b.as_array() {
            Some(a) => a,
            None => return None,
        },
        None => return None,
    };
    let ask_entries = match body.pointer("/asks") {
        Some(a) => match a.as_array() {
            Some(x) => x,
            None => return None,
        },
        None => return None,
    };
    let bids = side_from_entries(bid_entries, exchange);
    let asks = side_from_entries(ask_entries, exchange);
    Some(book_from_levels(&bids, &asks, depth))
}

/// Turns one upstream text frame into a book for `exchange` cut to `depth`, or `None`
/// for a frame that carries no book (an acknowledgement, a heartbeat, malformed text).
pub fn process_message(message_text: &str, exchange: &str, depth: usize) -> (r: Option<OrderBook>)
    ensures
        book_option_view(r) == text_book(message_text@, exchange@, depth as nat),
{
    match parse_json(message_text) {
        Some(frame) => book_from_value(&frame, exchange, depth),
        None => None,
    }
}

} // verus!
