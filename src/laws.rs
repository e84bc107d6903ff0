use vstd::prelude::*;

use crate::book::{
    book_from_sides, empty_book, insert_position, is_sorted, merged, precedes, sort_levels,
    sort_truncate, BookView, LevelView,
};
use crate::decimal::{decimal_text, lemma_decimal_text_round_trip, lemma_units_of_bound, pow10};
use crate::json::{json_text_model, member, JsonTree};
use crate::parser::{entry_level, frame_body, frame_book, side_levels, text_book};

verus! {

/// Bids fall in price, asks rise in price, and levels of one price come larger amount
/// first.
pub open spec fn side_ordered(s: Seq<LevelView>, ascending: bool) -> bool {
    forall|i: int, j: int|
        0 <= i < j < s.len() ==> {
            &&& (if ascending {
                (#[trigger] s[i]).price <= (#[trigger] s[j]).price
            } else {
                s[i].price >= s[j].price
            })
            &&& (s[i].price == s[j].price ==> s[i].amount >= s[j].amount)
        }
}

/// The invariants that every published book keeps.
pub open spec fn book_invariants(b: BookView, depth: nat) -> bool {
    &&& side_ordered(b.bids, false)
    &&& side_ordered(b.asks, true)
    &&& b.bids.len() <= depth
    &&& b.asks.len() <= depth
    &&& (b.bids.len() > 0 && b.asks.len() > 0 ==> b.spread == b.asks[0].price
        - b.bids[0].price)
    &&& (b.bids.len() == 0 || b.asks.len() == 0 ==> b.spread == 0)
}

proof fn lemma_not_precedes_transitive(a: LevelView, b: LevelView, c: LevelView, ascending: bool)
    requires
        !precedes(a, b, ascending),
        !precedes(b, c, ascending),
    ensures
        !precedes(a, c, ascending),
{
}

proof fn lemma_insert_position(s: Seq<LevelView>, x: LevelView, ascending: bool)
    ensures
        insert_position(s, x, ascending) <= s.len(),
        forall|j: int|
            insert_position(s, x, ascending) <= j < s.len() ==> precedes(
                x,
                #[trigger] s[j],
                ascending,
            ),
        insert_position(s, x, ascending) > 0 ==> !precedes(
            x,
            s[insert_position(s, x, ascending) - 1],
            ascending,
        ),
    decreases s.len(),
{
    if s.len() > 0 && precedes(x, s.last(), ascending) {
        lemma_insert_position(s.drop_last(), x, ascending);
        let p = insert_position(s.drop_last(), x, ascending);
        assert forall|j: int| p <= j < s.len() implies precedes(x, #[trigger] s[j], ascending) by {
            if j < s.len() - 1 {
                assert(s[j] == s.drop_last()[j]);
            }
        }
        if p > 0 {
            assert(s[p - 1] == s.drop_last()[p - 1]);
        }
    }
}

proof fn lemma_insert_sorted(s: Seq<LevelView>, x: LevelView, ascending: bool)
    requires
        is_sorted(s, ascending),
    ensures
        is_sorted(s.insert(insert_position(s, x, ascending) as int, x), ascending),
{
    lemma_insert_position(s, x, ascending);
    let p = insert_position(s, x, ascending) as int;
    let t = s.insert(p, x);
    assert forall|i: int, j: int| 0 <= i < j < t.len() implies !precedes(
        #[trigger] t[j],
        #[trigger] t[i],
        ascending,
    ) by {
        if j < p {
            assert(t[i] == s[i] && t[j] == s[j]);
        } else if j == p {
            assert(t[i] == s[i]);
            if i < p - 1 {
                assert(!precedes(s[p - 1], s[i], ascending));
                lemma_not_precedes_transitive(x, s[p - 1], s[i], ascending);
            }
        } else if i == p {
            assert(t[j] == s[j - 1]);
            assert(precedes(x, s[j - 1], ascending));
        } else if i < p {
            assert(t[i] == s[i] && t[j] == s[j - 1]);
        } else {
            assert(t[i] == s[i - 1] && t[j] == s[j - 1]);
        }
    }
}

/// Sorting a side leaves no level ahead of one that strictly precedes it.
pub proof fn lemma_sort_levels_sorted(s: Seq<LevelView>, ascending: bool)
    ensures
        is_sorted(sort_levels(s, ascending), ascending),
        sort_levels(s, ascending).len() == s.len(),
    decreases s.len(),
{
    if s.len() > 0 {
        lemma_sort_levels_sorted(s.drop_last(), ascending);
        lemma_insert_sorted(sort_levels(s.drop_last(), ascending), s.last(), ascending);
        lemma_insert_position(sort_levels(s.drop_last(), ascending), s.last(), ascending);
    }
}

/// Sorting a side moves levels and neither adds nor drops any.
pub proof fn lemma_sort_levels_permutes(s: Seq<LevelView>, ascending: bool)
    ensures
        sort_levels(s, ascending).to_multiset() == s.to_multiset(),
    decreases s.len(),
{
    broadcast use vstd::seq_lib::group_to_multiset_ensures;

    if s.len() > 0 {
        lemma_sort_levels_permutes(s.drop_last(), ascending);
        let sorted = sort_levels(s.drop_last(), ascending);
        lemma_insert_position(sorted, s.last(), ascending);
        let p = insert_position(sorted, s.last(), ascending) as int;
        let t = sorted.insert(p, s.last());
        assert(t.remove(p) =~= sorted);
        assert(t[p] == s.last());
        assert(s.drop_last().push(s.last()) =~= s);
        assert(t.to_multiset() =~= sorted.to_multiset().insert(s.last()));
    }
}

proof fn lemma_sorted_is_ordered(s: Seq<LevelView>, ascending: bool)
    requires
        is_sorted(s, ascending),
    ensures
        side_ordered(s, ascending),
{
    assert forall|i: int, j: int| 0 <= i < j < s.len() implies {
        &&& (if ascending {
            (#[trigger] s[i]).price <= (#[trigger] s[j]).price
        } else {
            s[i].price >= s[j].price
        })
        &&& (s[i].price == s[j].price ==> s[i].amount >= s[j].amount)
    } by {
        assert(!precedes(s[j], s[i], ascending));
    }
}

proof fn lemma_sort_truncate(s: Seq<LevelView>, depth: nat, ascending: bool)
    ensures
        side_ordered(sort_truncate(s, depth, ascending), ascending),
        is_sorted(sort_truncate(s, depth, ascending), ascending),
        sort_truncate(s, depth, ascending).len() <= depth,
        sort_truncate(s, depth, ascending).len() <= s.len(),
{
    lemma_sort_levels_sorted(s, ascending);
    let t = sort_levels(s, ascending);
    let r = sort_truncate(s, depth, ascending);
    assert forall|i: int, j: int| 0 <= i < j < r.len() implies !precedes(
        #[trigger] r[j],
        #[trigger] r[i],
        ascending,
    ) by {
        assert(r[i] == t[i] && r[j] == t[j]);
    }
    lemma_sorted_is_ordered(r, ascending);
}

/// Every book built from two sides, sorted and cut to `depth`, keeps the book invariants:
/// sides in price order with larger amounts first on equal prices, at most `depth`
/// levels a side, and the spread of the best ask over the best bid.
pub proof fn law_book_invariants(bids: Seq<LevelView>, asks: Seq<LevelView>, depth: nat)
    ensures
        book_invariants(book_from_sides(bids, asks, depth), depth),
{
    lemma_sort_truncate(bids, depth, false);
    lemma_sort_truncate(asks, depth, true);
}

/// A parsed frame gives a book that keeps the book invariants.
pub proof fn law_parsed_book_invariants(text: Seq<char>, exchange: Seq<char>, depth: nat)
    ensures
        text_book(text, exchange, depth) matches Some(b) ==> book_invariants(b, depth),
{
    if let Some(t) = json_text_model(text) {
        if let Some(b) = frame_book(t, exchange, depth) {
            let body = crate::parser::frame_body(t);
            if let (
                Some(crate::json::JsonTree::Array(bs)),
                Some(crate::json::JsonTree::Array(as_)),
            ) = (crate::json::member(body, "bids"@), crate::json::member(body, "asks"@)) {
                law_book_invariants(
                    crate::parser::side_levels(bs, exchange),
                    crate::parser::side_levels(as_, exchange),
                    depth,
                );
            }
        }
    }
}

/// A merged book keeps the book invariants, whatever the two books merged.
pub proof fn law_merged_book_invariants(first: BookView, second: BookView, depth: nat)
    ensures
        book_invariants(merged(first, second, depth), depth),
{
    law_book_invariants(first.bids + second.bids, first.asks + second.asks, depth);
}

/// Merging a book with the empty book sorts and cuts that book's own sides.
pub proof fn law_merge_with_empty(b: BookView, depth: nat)
    ensures
        merged(b, empty_book(), depth) == book_from_sides(b.bids, b.asks, depth),
{
    assert(b.bids + Seq::<LevelView>::empty() =~= b.bids);
    assert(b.asks + Seq::<LevelView>::empty() =~= b.asks);
}

/// Merging a book with itself sorts each side with every level twice, the first copy of
/// a level ahead of the second on full ties, and cuts it to `depth`. Where nothing is
/// cut, each level is there exactly twice as often as in the book, and the levels of any
/// one price and amount come in the book's order, twice over.
pub proof fn law_merge_with_itself(b: BookView, depth: nat)
    ensures
        merged(b, b, depth) == book_from_sides(b.bids + b.bids, b.asks + b.asks, depth),
        2 * b.bids.len() <= depth ==> merged(b, b, depth).bids.to_multiset() == b.bids.to_multiset().add(
            b.bids.to_multiset(),
        ),
        2 * b.asks.len() <= depth ==> merged(b, b, depth).asks.to_multiset() == b.asks.to_multiset().add(
            b.asks.to_multiset(),
        ),
        2 * b.bids.len() <= depth ==> forall|price: nat, amount: nat|
            #[trigger] merged(b, b, depth).bids.filter(has_key(price, amount)) == b.bids.filter(
                has_key(price, amount),
            ) + b.bids.filter(has_key(price, amount)),
        2 * b.asks.len() <= depth ==> forall|price: nat, amount: nat|
            #[trigger] merged(b, b, depth).asks.filter(has_key(price, amount)) == b.asks.filter(
                has_key(price, amount),
            ) + b.asks.filter(has_key(price, amount)),
{
    broadcast use vstd::seq_lib::group_to_multiset_ensures;

    lemma_sort_levels_permutes(b.bids + b.bids, false);
    lemma_sort_levels_permutes(b.asks + b.asks, true);
    lemma_sort_levels_sorted(b.bids + b.bids, false);
    lemma_sort_levels_sorted(b.asks + b.asks, true);
    vstd::seq_lib::lemma_multiset_commutative(b.bids, b.bids);
    vstd::seq_lib::lemma_multiset_commutative(b.asks, b.asks);
    assert forall|price: nat, amount: nat|
        2 * b.bids.len() <= depth implies #[trigger] merged(b, b, depth).bids.filter(
            has_key(price, amount),
        ) == b.bids.filter(has_key(price, amount)) + b.bids.filter(has_key(price, amount)) by {
        law_sort_is_stable(b.bids + b.bids, false, price, amount);
        Seq::filter_distributes_over_add(b.bids, b.bids, has_key(price, amount));
    }
    assert forall|price: nat, amount: nat|
        2 * b.asks.len() <= depth implies #[trigger] merged(b, b, depth).asks.filter(
            has_key(price, amount),
        ) == b.asks.filter(has_key(price, amount)) + b.asks.filter(has_key(price, amount)) by {
        law_sort_is_stable(b.asks + b.asks, true, price, amount);
        Seq::filter_distributes_over_add(b.asks, b.asks, has_key(price, amount));
    }
}

/// The entry `["price", "amount"]` that writes a level in canonical decimal text.
pub open spec fn level_entry(l: LevelView) -> JsonTree {
    JsonTree::Array(seq![JsonTree::Str(decimal_text(l.price)), JsonTree::Str(decimal_text(l.amount))])
}

pub open spec fn side_entries(s: Seq<LevelView>) -> Seq<JsonTree> {
    s.map_values(|l: LevelView| level_entry(l))
}

/// A book written back as a frame of the common schema: an object with `bids` and `asks`.
pub open spec fn canonical_frame(b: BookView) -> JsonTree {
    JsonTree::Object(
        Map::empty().insert("bids"@, JsonTree::Array(side_entries(b.bids))).insert(
            "asks"@,
            JsonTree::Array(side_entries(b.asks)),
        ),
    )
}

/// Levels as a frame for `exchange` publishes them: tagged with it, with a positive
/// amount, and with values that a decimal literal can write.
pub open spec fn published_levels(s: Seq<LevelView>, exchange: Seq<char>) -> bool {
    forall|i: int|
        0 <= i < s.len() ==> {
            &&& (#[trigger] s[i]).exchange == exchange
            &&& s[i].amount > 0
            &&& s[i].price < pow10(36)
            &&& s[i].amount < pow10(36)
        }
}

proof fn lemma_side_levels_published(entries: Seq<JsonTree>, exchange: Seq<char>)
    ensures
        published_levels(side_levels(entries, exchange), exchange),
    decreases entries.len(),
{
    if entries.len() > 0 {
        lemma_side_levels_published(entries.drop_last(), exchange);
        let rest = side_levels(entries.drop_last(), exchange);
        if let JsonTree::Array(items) = entries.last() {
            if items.len() == 2 {
                if let (JsonTree::Str(p), JsonTree::Str(a)) = (items[0], items[1]) {
                    lemma_units_of_bound(p);
                    lemma_units_of_bound(a);
                }
            }
        }
        if let Some(l) = entry_level(entries.last(), exchange) {
            if l.amount > 0 {
                let t = rest.push(l);
                assert forall|i: int| 0 <= i < t.len() implies {
                    &&& (#[trigger] t[i]).exchange == exchange
                    &&& t[i].amount > 0
                    &&& t[i].price < pow10(36)
                    &&& t[i].amount < pow10(36)
                } by {
                    if i < rest.len() {
                        assert(t[i] == rest[i]);
                    }
                }
            }
        }
    }
}

proof fn lemma_sort_keeps_published(s: Seq<LevelView>, exchange: Seq<char>, ascending: bool)
    requires
        published_levels(s, exchange),
    ensures
        published_levels(sort_levels(s, ascending), exchange),
    decreases s.len(),
{
    if s.len() > 0 {
        assert forall|i: int| 0 <= i < s.drop_last().len() implies {
            &&& (#[trigger] s.drop_last()[i]).exchange == exchange
            &&& s.drop_last()[i].amount > 0
            &&& s.drop_last()[i].price < pow10(36)
            &&& s.drop_last()[i].amount < pow10(36)
        } by {
            assert(s.drop_last()[i] == s[i]);
        }
        lemma_sort_keeps_published(s.drop_last(), exchange, ascending);
        let sorted = sort_levels(s.drop_last(), ascending);
        lemma_insert_position(sorted, s.last(), ascending);
        let p = insert_position(sorted, s.last(), ascending) as int;
        let t = sorted.insert(p, s.last());
        assert forall|i: int| 0 <= i < t.len() implies {
            &&& (#[trigger] t[i]).exchange == exchange
            &&& t[i].amount > 0
            &&& t[i].price < pow10(36)
            &&& t[i].amount < pow10(36)
        } by {
            if i < p {
                assert(t[i] == sorted[i]);
            } else if i > p {
                assert(t[i] == sorted[i - 1]);
            }
        }
    }
}

proof fn lemma_sort_truncate_published(s: Seq<LevelView>, exchange: Seq<char>, depth: nat, ascending: bool)
    requires
        published_levels(s, exchange),
    ensures
        published_levels(sort_truncate(s, depth, ascending), exchange),
{
    lemma_sort_keeps_published(s, exchange, ascending);
    let t = sort_levels(s, ascending);
    let r = sort_truncate(s, depth, ascending);
    assert forall|i: int| 0 <= i < r.len() implies {
        &&& (#[trigger] r[i]).exchange == exchange
        &&& r[i].amount > 0
        &&& r[i].price < pow10(36)
        &&& r[i].amount < pow10(36)
    } by {
        assert(r[i] == t[i]);
    }
}

/// Reading back the entries of published levels gives the levels.
proof fn lemma_side_entries_round_trip(s: Seq<LevelView>, exchange: Seq<char>)
    requires
        published_levels(s, exchange),
    ensures
        side_levels(side_entries(s), exchange) == s,
    decreases s.len(),
{
    if s.len() > 0 {
        let e = side_entries(s);
        assert(e.drop_last() =~= side_entries(s.drop_last()));
        assert forall|i: int| 0 <= i < s.drop_last().len() implies {
            &&& (#[trigger] s.drop_last()[i]).exchange == exchange
            &&& s.drop_last()[i].amount > 0
            &&& s.drop_last()[i].price < pow10(36)
            &&& s.drop_last()[i].amount < pow10(36)
        } by {
            assert(s.drop_last()[i] == s[i]);
        }
        lemma_side_entries_round_trip(s.drop_last(), exchange);
        let l = s.last();
        assert(l == s[s.len() - 1]);
        lemma_decimal_text_round_trip(l.price);
        lemma_decimal_text_round_trip(l.amount);
        assert(e.last() == level_entry(l));
        assert(entry_level(e.last(), exchange) == Some(l));
        assert(s.drop_last().push(l) =~= s);
    } else {
        assert(s =~= Seq::<LevelView>::empty());
    }
}

/// Sorting a side that is already sorted leaves it as it is.
proof fn lemma_sort_sorted(s: Seq<LevelView>, ascending: bool)
    requires
        is_sorted(s, ascending),
    ensures
        sort_levels(s, ascending) == s,
    decreases s.len(),
{
    if s.len() > 0 {
        let init = s.drop_last();
        assert forall|i: int, j: int| 0 <= i < j < init.len() implies !precedes(
            #[trigger] init[j],
            #[trigger] init[i],
            ascending,
        ) by {
            assert(init[i] == s[i] && init[j] == s[j]);
        }
        lemma_sort_sorted(init, ascending);
        if init.len() > 0 {
            assert(!precedes(s[s.len() - 1], s[s.len() - 2], ascending));
            assert(init.last() == s[s.len() - 2]);
        }
        assert(insert_position(init, s.last(), ascending) == init.len());
        assert(init.insert(init.len() as int, s.last()) =~= s);
    }
}

/// Parsing a frame, writing its book back as a canonical frame and parsing that again
/// gives the same book.
pub proof fn law_parse_canonical_frame(text: Seq<char>, exchange: Seq<char>, depth: nat)
    ensures
        text_book(text, exchange, depth) matches Some(b) ==> frame_book(
            canonical_frame(b),
            exchange,
            depth,
        ) == Some(b),
{
    if let Some(t) = json_text_model(text) {
        if let Some(b) = frame_book(t, exchange, depth) {
            let body = frame_body(t);
            if let (Some(JsonTree::Array(bs)), Some(JsonTree::Array(as_))) = (
                member(body, "bids"@),
                member(body, "asks"@),
            ) {
                let bl = side_levels(bs, exchange);
                let al = side_levels(as_, exchange);
                lemma_side_levels_published(bs, exchange);
                lemma_side_levels_published(as_, exchange);
                lemma_sort_truncate_published(bl, exchange, depth, false);
                lemma_sort_truncate_published(al, exchange, depth, true);
                lemma_sort_truncate(bl, depth, false);
                lemma_sort_truncate(al, depth, true);
                lemma_side_entries_round_trip(b.bids, exchange);
                lemma_side_entries_round_trip(b.asks, exchange);
                lemma_sort_sorted(b.bids, false);
                lemma_sort_sorted(b.asks, true);
                let c = canonical_frame(b);
                reveal_strlit("data");
                reveal_strlit("bids");
                reveal_strlit("asks");
                assert("data"@ != "bids"@ && "data"@ != "asks"@) by {
                    assert("data"@[0] != "bids"@[0]);
                    assert("data"@[0] != "asks"@[0]);
                }
                assert("bids"@ != "asks"@) by {
                    assert("bids"@[0] != "asks"@[0]);
                }
                assert(member(c, "data"@) is None);
                assert(frame_body(c) == c);
                assert(member(c, "bids"@) == Some(JsonTree::Array(side_entries(b.bids))));
                assert(member(c, "asks"@) == Some(JsonTree::Array(side_entries(b.asks))));
            }
        }
    }
}

/// The levels of one price and amount.
pub open spec fn has_key(price: nat, amount: nat) -> spec_fn(LevelView) -> bool {
    |l: LevelView| l.price == price && l.amount == amount
}

proof fn lemma_filter_none(s: Seq<LevelView>, pred: spec_fn(LevelView) -> bool)
    requires
        forall|i: int| 0 <= i < s.len() ==> !pred(#[trigger] s[i]),
    ensures
        s.filter(pred) == Seq::<LevelView>::empty(),
    decreases s.len(),
{
    reveal(Seq::filter);
    if s.len() > 0 {
        assert forall|i: int| 0 <= i < s.drop_last().len() implies !pred(#[trigger] s.drop_last()[i]) by {
            assert(s.drop_last()[i] == s[i]);
        }
        lemma_filter_none(s.drop_last(), pred);
        assert(!pred(s[s.len() - 1]));
    } else {
        assert(s.filter(pred) =~= Seq::<LevelView>::empty());
    }
}

/// Sorting is stable: the levels of any one price and amount come out in the order in
/// which they went in. With the sort's order, this fixes its result.
pub proof fn law_sort_is_stable(s: Seq<LevelView>, ascending: bool, price: nat, amount: nat)
    ensures
        sort_levels(s, ascending).filter(has_key(price, amount)) == s.filter(
            has_key(price, amount),
        ),
    decreases s.len(),
{
    reveal(Seq::filter);
    let f = has_key(price, amount);
    if s.len() > 0 {
        law_sort_is_stable(s.drop_last(), ascending, price, amount);
        let sorted = sort_levels(s.drop_last(), ascending);
        let x = s.last();
        lemma_insert_position(sorted, x, ascending);
        let p = insert_position(sorted, x, ascending) as int;
        let head = sorted.take(p);
        let tail = sorted.skip(p);
        assert(sorted.insert(p, x) =~= head + seq![x] + tail);
        assert(sorted =~= head + tail);
        Seq::filter_distributes_over_add(head + seq![x], tail, f);
        Seq::filter_distributes_over_add(head, seq![x], f);
        Seq::filter_distributes_over_add(head, tail, f);
        assert(seq![x].drop_last() =~= Seq::<LevelView>::empty());
        assert(Seq::<LevelView>::empty().filter(f) =~= Seq::<LevelView>::empty());
        if f(x) {
            assert forall|i: int| 0 <= i < tail.len() implies !f(#[trigger] tail[i]) by {
                assert(tail[i] == sorted[p + i]);
                assert(precedes(x, sorted[p + i], ascending));
            }
            lemma_filter_none(tail, f);
            assert(seq![x].filter(f) =~= seq![x]);
            assert(head.filter(f) + Seq::<LevelView>::empty() =~= head.filter(f));
            assert((head.filter(f) + seq![x]) + Seq::<LevelView>::empty() =~= head.filter(f).push(x));
        } else {
            assert(seq![x].filter(f) =~= Seq::<LevelView>::empty());
            assert(head.filter(f) + Seq::<LevelView>::empty() =~= head.filter(f));
        }
    }
}

} // verus!
