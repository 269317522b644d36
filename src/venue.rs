//! Venue frame decoding: each venue's wire dialect read into book updates,
//! and the per-venue accumulated books those updates apply to.
use crate::book::{
    apply_levels, ascending, has_sorted_side, no_negative, keep_highest, keep_lowest, lemma_level_map_empty,
    lemma_sorted_side, level_map, sorted_side, BookView, Orderbook, PriceLevel, Side,
};
use crate::decimal::{decimal_of, Decimal};
use crate::json::{
    decode_json, field, is_object, json_of_text, rows_of_width, rows_view, same_text, starts_with,
    strings_view, text, text_rows, texts, u64_from_text, u64_of_text, Json,
};
use crate::store::BookStore;
use vstd::prelude::*;

verus! {

/// Why a frame could not be read.
#[derive(Clone, Copy, Debug, PartialEq, Eq, Structural)]
pub enum ParseError {
    /// The frame is not JSON.
    InvalidJson,
    /// The JSON does not have the shape the venue's frames have.
    Schema,
    /// A price, quantity or ticker figure is not a decimal number.
    InvalidNumber,
    /// A data frame arrived on a channel that is not an order book.
    UnexpectedChannel,
    /// A subscription reply carries a non-null result.
    ResultNotNull,
}

// ---------------------------------------------------------------------------
// Reading fields

pub open spec fn field_text(j: Json, key: Seq<char>) -> Option<Seq<char>> {
    match field(j, key) {
        Some(v) => text(v),
        None => None,
    }
}

/// Rows under `key`, `width` entries each where a width is given; an absent
/// key reads as no rows when `optional`.
pub open spec fn rows_at(j: Json, key: Seq<char>, optional: bool, width: Option<nat>) -> Option<
    Seq<Seq<Seq<char>>>,
> {
    match field(j, key) {
        None => if optional {
            Some(Seq::empty())
        } else {
            None
        },
        Some(v) => match text_rows(v) {
            Some(rows) => match width {
                Some(w) => if rows_of_width(rows, w) {
                    Some(rows)
                } else {
                    None
                },
                None => Some(rows),
            },
            None => None,
        },
    }
}

/// An optional unsigned counter: absent reads as 0, present must be a `u64`.
pub open spec fn counter_at(j: Json, key: Seq<char>) -> Option<u64> {
    match field(j, key) {
        None => Some(0),
        Some(Json::Number(t)) => u64_of_text(t@),
        Some(_) => None,
    }
}

/// A row read as a level: its first two entries are the price and the
/// quantity, which may not be negative.
pub open spec fn row_level(row: Seq<Seq<char>>) -> Result<PriceLevel, ParseError> {
    if row.len() < 2 {
        Err(ParseError::Schema)
    } else {
        match (decimal_of(row[0]), decimal_of(row[1])) {
            (Some(price), Some(quantity)) => if quantity.spec_negative() {
                Err(ParseError::InvalidNumber)
            } else {
                Ok(PriceLevel { price, quantity })
            },
            _ => Err(ParseError::InvalidNumber),
        }
    }
}

/// Rows read as levels in order; the first row that fails gives the error.
pub open spec fn rows_levels(rows: Seq<Seq<Seq<char>>>) -> Result<Seq<PriceLevel>, ParseError>
    decreases rows.len(),
{
    if rows.len() == 0 {
        Ok(Seq::empty())
    } else {
        match rows_levels(rows.drop_last()) {
            Err(e) => Err(e),
            Ok(prev) => match row_level(rows.last()) {
                Err(e) => Err(e),
                Ok(l) => Ok(prev.push(l)),
            },
        }
    }
}

/// Two results in order: the first error wins.
pub open spec fn both<A, B>(a: Result<A, ParseError>, b: Result<B, ParseError>) -> Result<(A, B), ParseError> {
    match a {
        Err(e) => Err(e),
        Ok(x) => match b {
            Err(e) => Err(e),
            Ok(y) => Ok((x, y)),
        },
    }
}

fn field_text_of<'a>(j: &'a Json, key: &str) -> (r: Option<&'a String>)
    ensures
        match r {
            Some(s) => field_text(*j, key@) == Some(s@),
            None => field_text(*j, key@) is None,
        },
{
    match j.get(key) {
        Some(v) => v.as_text(),
        None => None,
    }
}

#[verifier::loop_isolation(false)]
fn rows_at_of(j: &Json, key: &str, optional: bool, width: Option<usize>) -> (r: Option<Vec<Vec<String>>>)
    ensures
        match r {
            Some(rows) => rows_at(*j, key@, optional, match width {
                Some(w) => Some(w as nat),
                None => None,
            }) == Some(rows_view(rows@)),
            None => rows_at(*j, key@, optional, match width {
                Some(w) => Some(w as nat),
                None => None,
            }) is None,
        },
{
    match j.get(key) {
        None => if optional {
            let v: Vec<Vec<String>> = Vec::new();
            proof {
                assert(rows_view(v@) =~= Seq::<Seq<Seq<char>>>::empty());
            }
            Some(v)
        } else {
            None
        },
        Some(v) => match v.as_text_rows() {
            None => None,
            Some(rows) => match width {
                None => Some(rows),
                Some(w) => {
                    let mut i: usize = 0;
                    while i < rows.len()
                        invariant
                            i <= rows@.len(),
                            forall|k: int| 0 <= k < i ==> (#[trigger] rows_view(rows@)[k]).len() == w,
                        decreases rows@.len() - i,
                    {
                        if rows[i].len() != w {
                            proof {
                                assert(rows_view(rows@)[i as int].len() == rows@[i as int]@.len());
                            }
                            return None;
                        }
                        proof {
                            assert(rows_view(rows@)[i as int].len() == rows@[i as int]@.len());
                        }
                        i = i + 1;
                    }
                    Some(rows)
                },
            },
        },
    }
}

fn counter_at_of(j: &Json, key: &str) -> (r: Option<u64>)
    ensures
        r == counter_at(*j, key@),
{
    match j.get(key) {
        None => Some(0),
        Some(Json::Number(t)) => u64_from_text(t.as_str()),
        Some(_) => None,
    }
}

fn row_level_of(row: &Vec<String>) -> (r: Result<PriceLevel, ParseError>)
    ensures
        r == row_level(strings_view(row@)),
{
    if row.len() < 2 {
        return Err(ParseError::Schema);
    }
    let price = Decimal::parse(row[0].as_str());
    let quantity = Decimal::parse(row[1].as_str());
    match (price, quantity) {
        (Some(price), Some(quantity)) => if quantity.is_negative() {
            Err(ParseError::InvalidNumber)
        } else {
            Ok(PriceLevel { price, quantity })
        },
        _ => Err(ParseError::InvalidNumber),
    }
}

/// Read text rows as levels, in order.
fn levels_of(rows: &Vec<Vec<String>>) -> (r: Result<Vec<PriceLevel>, ParseError>)
    ensures
        match r {
            Ok(v) => rows_levels(rows_view(rows@)) == Ok::<Seq<PriceLevel>, ParseError>(v@) && no_negative(v@),
            Err(e) => rows_levels(rows_view(rows@)) == Err::<Seq<PriceLevel>, ParseError>(e),
        },
{
    let mut out: Vec<PriceLevel> = Vec::new();
    let mut i: usize = 0;
    proof {
        assert(rows_view(rows@).take(0) =~= Seq::<Seq<Seq<char>>>::empty());
    }
    while i < rows.len()
        invariant
            i <= rows@.len(),
            rows_levels(rows_view(rows@).take(i as int)) == Ok::<Seq<PriceLevel>, ParseError>(out@),
            no_negative(out@),
        decreases rows@.len() - i,
    {
        let lvl = row_level_of(&rows[i]);
        proof {
            assert(rows_view(rows@).take(i + 1).drop_last() =~= rows_view(rows@).take(i as int));
            assert(rows_view(rows@).take(i + 1).last() == strings_view(rows@[i as int]@));
        }
        match lvl {
            Ok(l) => {
                out.push(l);
            },
            Err(e) => {
                proof {
                    lemma_rows_levels_prefix_err(rows_view(rows@), i + 1);
                }
                return Err(e);
            },
        }
        i = i + 1;
    }
    proof {
        assert(rows_view(rows@).take(i as int) =~= rows_view(rows@));
    }
    Ok(out)
}

/// An error in a prefix of the rows is the error of all of them.
proof fn lemma_rows_levels_prefix_err(rows: Seq<Seq<Seq<char>>>, i: int)
    requires
        0 <= i <= rows.len(),
        rows_levels(rows.take(i)) is Err,
    ensures
        rows_levels(rows) == rows_levels(rows.take(i)),
    decreases rows.len() - i,
{
    if i < rows.len() {
        assert(rows.take(i + 1).drop_last() =~= rows.take(i));
        lemma_rows_levels_prefix_err(rows, i + 1);
    } else {
        assert(rows.take(i) =~= rows);
    }
}

// ---------------------------------------------------------------------------
// Binance

/// What a binance frame says.
pub enum BinanceEvent {
    /// A subscription reply (null or absent result), or a frame with no depth in it.
    Ack,
    /// A partial book depth: the whole book's bids and asks.
    Depth(Seq<PriceLevel>, Seq<PriceLevel>),
    /// A 24h ticker: close price and volume.
    Ticker(Decimal, Decimal),
}

pub open spec fn result_not_null(j: Json) -> bool {
    match field(j, "result"@) {
        None => false,
        Some(Json::Null) => false,
        Some(_) => true,
    }
}

/// How a binance frame is read.
pub open spec fn binance_event(j: Json) -> Result<BinanceEvent, ParseError> {
    if field_text(j, "e"@) == Some("24hrTicker"@) {
        match (field_text(j, "c"@), field_text(j, "v"@), field_text(j, "s"@)) {
            (Some(c), Some(v), Some(_)) => match (decimal_of(c), decimal_of(v)) {
                (Some(close), Some(volume)) => Ok(BinanceEvent::Ticker(close, volume)),
                _ => Err(ParseError::InvalidNumber),
            },
            _ => Err(ParseError::Schema),
        }
    } else {
        match (
            counter_at(j, "lastUpdateId"@),
            rows_at(j, "bids"@, true, Some(2)),
            rows_at(j, "asks"@, true, Some(2)),
            counter_at(j, "id"@),
        ) {
            (Some(last_update_id), Some(bids), Some(asks), Some(_)) => if !is_object(j) {
                Err(ParseError::Schema)
            } else if result_not_null(j) {
                Err(ParseError::ResultNotNull)
            } else if last_update_id == 0 && bids.len() == 0 && asks.len() == 0 {
                Ok(BinanceEvent::Ack)
            } else {
                match both(rows_levels(bids), rows_levels(asks)) {
                    Ok((b, a)) => Ok(BinanceEvent::Depth(b, a)),
                    Err(e) => Err(e),
                }
            },
            _ => Err(ParseError::Schema),
        }
    }
}

/// No level of a binance event has a negative quantity.
pub open spec fn binance_levels_ok(ev: BinanceEvent) -> bool {
    match ev {
        BinanceEvent::Depth(bids, asks) => no_negative(bids) && no_negative(asks),
        _ => true,
    }
}

/// A binance frame, read.
#[derive(Debug)]
pub enum BinanceUpdate {
    Ack,
    Depth { bids: Vec<PriceLevel>, asks: Vec<PriceLevel> },
    Ticker { close: Decimal, volume: Decimal },
}

impl View for BinanceUpdate {
    type V = BinanceEvent;

    open spec fn view(&self) -> BinanceEvent {
        match self {
            BinanceUpdate::Ack => BinanceEvent::Ack,
            BinanceUpdate::Depth { bids, asks } => BinanceEvent::Depth(bids@, asks@),
            BinanceUpdate::Ticker { close, volume } => BinanceEvent::Ticker(*close, *volume),
        }
    }
}

/// Read a binance frame's JSON.
pub fn decode_binance(j: &Json) -> (r: Result<BinanceUpdate, ParseError>)
    ensures
        match r {
            Ok(u) => binance_event(*j) == Ok::<BinanceEvent, ParseError>(u@) && binance_levels_ok(u@),
            Err(e) => binance_event(*j) == Err::<BinanceEvent, ParseError>(e),
        },
{
    let is_ticker = match field_text_of(j, "e") {
        Some(e) => same_text(e.as_str(), "24hrTicker"),
        None => false,
    };
    if is_ticker {
        match (field_text_of(j, "c"), field_text_of(j, "v"), field_text_of(j, "s")) {
            (Some(c), Some(v), Some(_)) => match (Decimal::parse(c.as_str()), Decimal::parse(v.as_str())) {
                (Some(close), Some(volume)) => Ok(BinanceUpdate::Ticker { close, volume }),
                _ => Err(ParseError::InvalidNumber),
            },
            _ => Err(ParseError::Schema),
        }
    } else {
        let last_update_id = counter_at_of(j, "lastUpdateId");
        let bids = rows_at_of(j, "bids", true, Some(2));
        let asks = rows_at_of(j, "asks", true, Some(2));
        let id = counter_at_of(j, "id");
        match (last_update_id, bids, asks, id) {
            (Some(last_update_id), Some(bids), Some(asks), Some(_)) => {
                if !matches!(j, Json::Object(_)) {
                    return Err(ParseError::Schema);
                }
                let not_null = match j.get("result") {
                    None => false,
                    Some(Json::Null) => false,
                    Some(_) => true,
                };
                if not_null {
                    return Err(ParseError::ResultNotNull);
                }
                if last_update_id == 0 && bids.len() == 0 && asks.len() == 0 {
                    return Ok(BinanceUpdate::Ack);
                }
                let b = levels_of(&bids);
                match b {
                    Err(e) => Err(e),
                    Ok(b) => match levels_of(&asks) {
                        Err(e) => Err(e),
                        Ok(a) => Ok(BinanceUpdate::Depth { bids: b, asks: a }),
                    },
                }
            },
            _ => Err(ParseError::Schema),
        }
    }
}

/// An empty book for `name` with the ticker at zero.
pub open spec fn fresh_book(name: Seq<char>, timestamp: u128) -> BookView {
    BookView {
        name,
        bid: Seq::empty(),
        ask: Seq::empty(),
        volume: Decimal::spec_zero(),
        last_price: Decimal::spec_zero(),
        timestamp,
    }
}

/// The accumulated book, or a fresh one for `name` stamped `timestamp`.
pub open spec fn base_book(acc: Option<BookView>, name: Seq<char>, timestamp: u128) -> BookView {
    match acc {
        Some(b) => b,
        None => fresh_book(name, timestamp),
    }
}

/// A binance depth replaces both sides; a ticker replaces the ticker fields.
pub open spec fn binance_result(base: BookView, ev: BinanceEvent) -> BookView {
    match ev {
        BinanceEvent::Depth(bids, asks) => BookView {
            bid: sorted_side(apply_levels(Map::empty(), bids)),
            ask: sorted_side(apply_levels(Map::empty(), asks)),
            ..base
        },
        BinanceEvent::Ticker(close, volume) => BookView { last_price: close, volume, ..base },
        BinanceEvent::Ack => base,
    }
}

/// What a binance event does to the accumulated book `acc` (now `next`) and
/// what it hands out (`out`).
pub open spec fn binance_step(acc: Option<BookView>, ev: BinanceEvent, out: Option<BookView>, next: Option<BookView>) -> bool {
    match ev {
        BinanceEvent::Ack => out is None && next == acc,
        _ => match out {
            Some(b) => {
                &&& next == Some(b)
                &&& b == binance_result(base_book(acc, "binance"@, b.timestamp), ev)
                &&& ev matches BinanceEvent::Depth(bids, asks) ==> has_sorted_side(apply_levels(Map::empty(), bids))
                    && has_sorted_side(apply_levels(Map::empty(), asks))
            },
            None => false,
        },
    }
}

/// Binance's accumulator: one book for the connection, since depth frames
/// carry no symbol.
#[derive(Debug)]
pub struct BinanceParser {
    book: Option<Orderbook>,
}

impl View for BinanceParser {
    type V = Option<BookView>;

    closed spec fn view(&self) -> Option<BookView> {
        match self.book {
            Some(b) => Some(b@),
            None => None,
        }
    }
}

pub open spec fn book_out(r: Option<Orderbook>) -> Option<BookView> {
    match r {
        Some(b) => Some(b@),
        None => None,
    }
}

/// What reading the text `raw` does to binance's accumulated book.
pub open spec fn binance_parsed(
    acc: Option<BookView>,
    raw: Seq<char>,
    r: Result<Option<Orderbook>, ParseError>,
    next: Option<BookView>,
) -> bool {
    match json_of_text(raw) {
        None => r == Err::<Option<Orderbook>, ParseError>(ParseError::InvalidJson) && next == acc,
        Some(j) => match binance_event(j) {
            Err(e) => r == Err::<Option<Orderbook>, ParseError>(e) && next == acc,
            Ok(ev) => match r {
                Ok(out) => binance_step(acc, ev, book_out(out), next),
                Err(_) => false,
            },
        },
    }
}

/// A book handed out by a parser is well formed.
pub open spec fn parsed_books_wf(r: Result<Option<Orderbook>, ParseError>) -> bool {
    match r {
        Ok(Some(b)) => b.wf(),
        _ => true,
    }
}

impl BinanceParser {
    /// The accumulated book is well formed and named "binance".
    pub open spec fn wf(&self) -> bool {
        &&& self.book_wf()
        &&& (self@ matches Some(b) ==> b.name == "binance"@)
    }

    pub closed spec fn book_wf(&self) -> bool {
        match self.book {
            Some(b) => b.wf(),
            None => true,
        }
    }

    pub fn new() -> (r: BinanceParser)
        ensures
            r.wf(),
            r@ is None,
    {
        BinanceParser { book: None }
    }

    /// Drop the accumulated book.
    pub fn clear(&mut self)
        ensures
            final(self).wf(),
            final(self)@ is None,
    {
        self.book = None;
    }

    /// Apply a read frame; hands out a copy of the accumulated book unless
    /// the frame was an acknowledgement.
    pub fn apply(&mut self, u: &BinanceUpdate) -> (r: Option<Orderbook>)
        requires
            old(self).wf(),
            binance_levels_ok(u@),
        ensures
            final(self).wf(),
            binance_step(old(self)@, u@, book_out(r), final(self)@),
            match r {
                Some(b) => b.wf(),
                None => true,
            },
    {
        match u {
            BinanceUpdate::Ack => None,
            BinanceUpdate::Depth { bids, asks } => {
                let mut b = match &self.book {
                    Some(ob) => ob.duplicate(),
                    None => Orderbook::new("binance"),
                };
                let ghost base = b@;
                b.clear();
                b.insert_all(Side::Bid, bids);
                b.insert_all(Side::Ask, asks);
                proof {
                    lemma_level_map_empty();
                    lemma_sorted_side(b@.bid);
                    lemma_sorted_side(b@.ask);
                    assert(b@ == binance_result(base, u@));
                }
                self.book = Some(b.duplicate());
                Some(b)
            },
            BinanceUpdate::Ticker { close, volume } => {
                let mut b = match &self.book {
                    Some(ob) => ob.duplicate(),
                    None => Orderbook::new("binance"),
                };
                b.set_ticker(*close, *volume);
                self.book = Some(b.duplicate());
                Some(b)
            },
        }
    }

    /// Read one binance frame and apply it.
    pub fn parse(&mut self, raw: &str) -> (r: Result<Option<Orderbook>, ParseError>)
        requires
            old(self).wf(),
        ensures
            final(self).wf(),
            binance_parsed(old(self)@, raw@, r, final(self)@),
            parsed_books_wf(r),
    {
        match decode_json(raw) {
            None => Err(ParseError::InvalidJson),
            Some(j) => match decode_binance(&j) {
                Err(e) => Err(e),
                Ok(u) => Ok(self.apply(&u)),
            },
        }
    }
}

// ---------------------------------------------------------------------------
// Bitstamp

/// What a bitstamp frame says.
pub enum BitstampEvent {
    /// Not a data frame (a subscription reply, a reconnect request).
    Ignore,
    /// A full book: bids and asks.
    Snapshot(Seq<PriceLevel>, Seq<PriceLevel>),
}

pub open spec fn starts_with_spec(s: Seq<char>, prefix: Seq<char>) -> bool {
    prefix.len() <= s.len() && s.take(prefix.len() as int) == prefix
}

/// How a bitstamp frame is read.
pub open spec fn bitstamp_event(j: Json) -> Result<BitstampEvent, ParseError> {
    match (field_text(j, "event"@), field_text(j, "channel"@), field(j, "data"@)) {
        (Some(event), Some(channel), Some(data)) => if event != "data"@ {
            Ok(BitstampEvent::Ignore)
        } else if !starts_with_spec(channel, "order_book_"@) {
            Err(ParseError::UnexpectedChannel)
        } else {
            match (
                rows_at(data, "bids"@, false, Some(2)),
                rows_at(data, "asks"@, false, Some(2)),
                field_text(data, "timestamp"@),
                field_text(data, "microtimestamp"@),
            ) {
                (Some(bids), Some(asks), Some(_), Some(_)) => match both(rows_levels(bids), rows_levels(asks)) {
                    Ok((b, a)) => Ok(BitstampEvent::Snapshot(b, a)),
                    Err(e) => Err(e),
                },
                _ => Err(ParseError::Schema),
            }
        },
        _ => Err(ParseError::Schema),
    }
}

/// No level of a bitstamp event has a negative quantity.
pub open spec fn bitstamp_levels_ok(ev: BitstampEvent) -> bool {
    match ev {
        BitstampEvent::Snapshot(bids, asks) => no_negative(bids) && no_negative(asks),
        _ => true,
    }
}

/// A bitstamp frame, read.
#[derive(Debug)]
pub enum BitstampUpdate {
    Ignore,
    Snapshot { bids: Vec<PriceLevel>, asks: Vec<PriceLevel> },
}

impl View for BitstampUpdate {
    type V = BitstampEvent;

    open spec fn view(&self) -> BitstampEvent {
        match self {
            BitstampUpdate::Ignore => BitstampEvent::Ignore,
            BitstampUpdate::Snapshot { bids, asks } => BitstampEvent::Snapshot(bids@, asks@),
        }
    }
}

/// Read a bitstamp frame's JSON.
pub fn decode_bitstamp(j: &Json) -> (r: Result<BitstampUpdate, ParseError>)
    ensures
        match r {
            Ok(u) => bitstamp_event(*j) == Ok::<BitstampEvent, ParseError>(u@) && bitstamp_levels_ok(u@),
            Err(e) => bitstamp_event(*j) == Err::<BitstampEvent, ParseError>(e),
        },
{
    match (field_text_of(j, "event"), field_text_of(j, "channel"), j.get("data")) {
        (Some(event), Some(channel), Some(data)) => {
            if !same_text(event.as_str(), "data") {
                return Ok(BitstampUpdate::Ignore);
            }
            if !starts_with(channel.as_str(), "order_book_") {
                return Err(ParseError::UnexpectedChannel);
            }
            let bids = rows_at_of(data, "bids", false, Some(2));
            let asks = rows_at_of(data, "asks", false, Some(2));
            let timestamp = field_text_of(data, "timestamp");
            let microtimestamp = field_text_of(data, "microtimestamp");
            match (bids, asks, timestamp, microtimestamp) {
                (Some(bids), Some(asks), Some(_), Some(_)) => match levels_of(&bids) {
                    Err(e) => Err(e),
                    Ok(b) => match levels_of(&asks) {
                        Err(e) => Err(e),
                        Ok(a) => Ok(BitstampUpdate::Snapshot { bids: b, asks: a }),
                    },
                },
                _ => Err(ParseError::Schema),
            }
        },
        _ => Err(ParseError::Schema),
    }
}

/// The book a bitstamp snapshot describes.
pub open spec fn bitstamp_result(bids: Seq<PriceLevel>, asks: Seq<PriceLevel>, timestamp: u128) -> BookView {
    BookView {
        bid: sorted_side(apply_levels(Map::empty(), bids)),
        ask: sorted_side(apply_levels(Map::empty(), asks)),
        ..fresh_book("bitstamp"@, timestamp)
    }
}

/// The book for a read bitstamp frame: a fresh "bitstamp" book holding the
/// snapshot, or nothing for a frame that is not data.
pub fn bitstamp_book(u: &BitstampUpdate) -> (r: Option<Orderbook>)
    requires
        bitstamp_levels_ok(u@),
    ensures
        match u@ {
            BitstampEvent::Ignore => r is None,
            BitstampEvent::Snapshot(bids, asks) => match r {
                Some(b) => b.wf() && b@ == bitstamp_result(bids, asks, b@.timestamp) && has_sorted_side(
                    apply_levels(Map::empty(), bids),
                ) && has_sorted_side(apply_levels(Map::empty(), asks)),
                None => false,
            },
        },
{
    match u {
        BitstampUpdate::Ignore => None,
        BitstampUpdate::Snapshot { bids, asks } => {
            let mut b = Orderbook::new("bitstamp");
            b.insert_all(Side::Bid, bids);
            b.insert_all(Side::Ask, asks);
            proof {
                lemma_level_map_empty();
                lemma_sorted_side(b@.bid);
                lemma_sorted_side(b@.ask);
            }
            Some(b)
        },
    }
}

/// What reading the text `raw` as a bitstamp frame gives.
pub open spec fn bitstamp_parsed(raw: Seq<char>, r: Result<Option<Orderbook>, ParseError>) -> bool {
    match json_of_text(raw) {
        None => r == Err::<Option<Orderbook>, ParseError>(ParseError::InvalidJson),
        Some(j) => match bitstamp_event(j) {
            Err(e) => r == Err::<Option<Orderbook>, ParseError>(e),
            Ok(BitstampEvent::Ignore) => r == Ok::<Option<Orderbook>, ParseError>(None),
            Ok(BitstampEvent::Snapshot(bids, asks)) => match r {
                Ok(Some(b)) => b@ == bitstamp_result(bids, asks, b@.timestamp) && has_sorted_side(
                    apply_levels(Map::empty(), bids),
                ) && has_sorted_side(apply_levels(Map::empty(), asks)),
                _ => false,
            },
        },
    }
}

/// Read one bitstamp frame; bitstamp frames carry whole books, so nothing
/// is accumulated.
pub fn bitstamp_parser(raw: &str) -> (r: Result<Option<Orderbook>, ParseError>)
    ensures
        bitstamp_parsed(raw@, r),
        parsed_books_wf(r),
{
    match decode_json(raw) {
        None => Err(ParseError::InvalidJson),
        Some(j) => match decode_bitstamp(&j) {
            Err(e) => Err(e),
            Ok(u) => Ok(bitstamp_book(&u)),
        },
    }
}

// ---------------------------------------------------------------------------
// Kraken

/// Levels kept per side of a kraken book (its subscription depth).
pub const KRAKEN_DEPTH: u32 = 25;

/// What a kraken frame says.
pub enum KrakenEvent {
    /// A channel the books do not follow.
    Ignore,
    /// Book levels for `pair`; with a snapshot both sides are replaced first.
    Book { pair: Seq<char>, snapshot: bool, bids: Seq<PriceLevel>, asks: Seq<PriceLevel> },
    /// Ticker figures for `pair`.
    Ticker { pair: Seq<char>, last_price: Decimal, volume: Decimal },
}

/// A two-entry string array under `key`; absent reads as two empty strings.
pub open spec fn text_pair_at(data: Json, key: Seq<char>) -> Option<Seq<Seq<char>>> {
    match field(data, key) {
        None => Some(seq![Seq::<char>::empty(), Seq::<char>::empty()]),
        Some(v) => match texts(v) {
            Some(t) => if t.len() == 2 {
                Some(t)
            } else {
                None
            },
            None => None,
        },
    }
}

/// How a kraken frame's JSON is read: `[channel id, payload, channel name, pair]`.
pub open spec fn kraken_event(j: Json) -> Result<KrakenEvent, ParseError> {
    match j {
        Json::Array(items) => if items@.len() < 4 {
            Err(ParseError::Schema)
        } else {
            match (text(items@[2]), text(items@[3])) {
                (Some(channel), Some(pair)) => {
                    let data = items@[1];
                    if starts_with_spec(channel, "book"@) {
                        match (
                            rows_at(data, "bs"@, true, Some(3)),
                            rows_at(data, "b"@, true, None),
                            rows_at(data, "as"@, true, Some(3)),
                            rows_at(data, "a"@, true, None),
                        ) {
                            (Some(bs), Some(b), Some(snap_asks), Some(a)) => if !is_object(data) {
                                Err(ParseError::Schema)
                            } else {
                                match both(
                                    both(rows_levels(bs), rows_levels(b)),
                                    both(rows_levels(snap_asks), rows_levels(a)),
                                ) {
                                    Ok(((x, y), (z, w))) => Ok(
                                        KrakenEvent::Book {
                                            pair,
                                            snapshot: bs.len() > 0 || snap_asks.len() > 0,
                                            bids: x + y,
                                            asks: z + w,
                                        },
                                    ),
                                    Err(e) => Err(e),
                                }
                            },
                            _ => Err(ParseError::Schema),
                        }
                    } else if channel == "ticker"@ {
                        match (text_pair_at(data, "c"@), text_pair_at(data, "v"@)) {
                            (Some(c), Some(v)) => if !is_object(data) {
                                Err(ParseError::Schema)
                            } else {
                                match (decimal_of(v[1]), decimal_of(c[0])) {
                                    (Some(volume), Some(last_price)) => Ok(
                                        KrakenEvent::Ticker { pair, last_price, volume },
                                    ),
                                    _ => Err(ParseError::InvalidNumber),
                                }
                            },
                            _ => Err(ParseError::Schema),
                        }
                    } else {
                        Ok(KrakenEvent::Ignore)
                    }
                },
                _ => Err(ParseError::Schema),
            }
        },
        _ => Err(ParseError::Schema),
    }
}

/// No level of a kraken event has a negative quantity.
pub open spec fn kraken_levels_ok(ev: KrakenEvent) -> bool {
    match ev {
        KrakenEvent::Book { bids, asks, .. } => no_negative(bids) && no_negative(asks),
        _ => true,
    }
}

/// A kraken frame, read.
#[derive(Debug)]
pub enum KrakenUpdate {
    Ignore,
    Book { pair: String, snapshot: bool, bids: Vec<PriceLevel>, asks: Vec<PriceLevel> },
    Ticker { pair: String, last_price: Decimal, volume: Decimal },
}

impl View for KrakenUpdate {
    type V = KrakenEvent;

    open spec fn view(&self) -> KrakenEvent {
        match self {
            KrakenUpdate::Ignore => KrakenEvent::Ignore,
            KrakenUpdate::Book { pair, snapshot, bids, asks } => KrakenEvent::Book {
                pair: pair@,
                snapshot: *snapshot,
                bids: bids@,
                asks: asks@,
            },
            KrakenUpdate::Ticker { pair, last_price, volume } => KrakenEvent::Ticker {
                pair: pair@,
                last_price: *last_price,
                volume: *volume,
            },
        }
    }
}

fn text_pair_at_of(data: &Json, key: &str) -> (r: Option<Vec<String>>)
    ensures
        match r {
            Some(t) => t@.len() == 2 && text_pair_at(*data, key@) == Some(strings_view(t@)),
            None => text_pair_at(*data, key@) is None,
        },
{
    match data.get(key) {
        None => {
            let mut t: Vec<String> = Vec::new();
            t.push(String::new());
            t.push(String::new());
            proof {
                assert(strings_view(t@) =~= seq![Seq::<char>::empty(), Seq::<char>::empty()]);
            }
            Some(t)
        },
        Some(v) => match v.as_texts() {
            Some(t) => if t.len() == 2 {
                proof {
                    assert(strings_view(t@).len() == t@.len());
                }
                Some(t)
            } else {
                None
            },
            None => None,
        },
    }
}

/// Read a kraken frame's JSON.
pub fn decode_kraken(j: &Json) -> (r: Result<KrakenUpdate, ParseError>)
    ensures
        match r {
            Ok(u) => kraken_event(*j) == Ok::<KrakenEvent, ParseError>(u@) && kraken_levels_ok(u@),
            Err(e) => kraken_event(*j) == Err::<KrakenEvent, ParseError>(e),
        },
{
    let items = match j {
        Json::Array(items) => items,
        _ => {
            return Err(ParseError::Schema);
        },
    };
    if items.len() < 4 {
        return Err(ParseError::Schema);
    }
    let (channel, pair) = match (items[2].as_text(), items[3].as_text()) {
        (Some(c), Some(p)) => (c, p),
        _ => {
            return Err(ParseError::Schema);
        },
    };
    let data = &items[1];
    if starts_with(channel.as_str(), "book") {
        let bs = rows_at_of(data, "bs", true, Some(3));
        let b = rows_at_of(data, "b", true, None);
        let snap_asks = rows_at_of(data, "as", true, Some(3));
        let a = rows_at_of(data, "a", true, None);
        match (bs, b, snap_asks, a) {
            (Some(bs), Some(b), Some(snap_asks), Some(a)) => {
                if !matches!(data, Json::Object(_)) {
                    return Err(ParseError::Schema);
                }
                let snapshot = bs.len() > 0 || snap_asks.len() > 0;
                let mut bids = match levels_of(&bs) {
                    Ok(v) => v,
                    Err(e) => {
                        return Err(e);
                    },
                };
                let mut bid_deltas = match levels_of(&b) {
                    Ok(v) => v,
                    Err(e) => {
                        return Err(e);
                    },
                };
                let mut asks = match levels_of(&snap_asks) {
                    Ok(v) => v,
                    Err(e) => {
                        return Err(e);
                    },
                };
                let mut ask_deltas = match levels_of(&a) {
                    Ok(v) => v,
                    Err(e) => {
                        return Err(e);
                    },
                };
                let ghost (b0, b1, a0, a1) = (bids@, bid_deltas@, asks@, ask_deltas@);
                bids.append(&mut bid_deltas);
                asks.append(&mut ask_deltas);
                proof {
                    assert forall|i: int| 0 <= i < bids@.len() implies !(#[trigger] bids@[i]).quantity.spec_negative() by {
                        if i >= b0.len() {
                            assert(bids@[i] == b1[i - b0.len()]);
                        }
                    }
                    assert forall|i: int| 0 <= i < asks@.len() implies !(#[trigger] asks@[i]).quantity.spec_negative() by {
                        if i >= a0.len() {
                            assert(asks@[i] == a1[i - a0.len()]);
                        }
                    }
                }
                Ok(KrakenUpdate::Book { pair: pair.clone(), snapshot, bids, asks })
            },
            _ => Err(ParseError::Schema),
        }
    } else if same_text(channel.as_str(), "ticker") {
        match (text_pair_at_of(data, "c"), text_pair_at_of(data, "v")) {
            (Some(c), Some(v)) => {
                if !matches!(data, Json::Object(_)) {
                    return Err(ParseError::Schema);
                }
                match (Decimal::parse(v[1].as_str()), Decimal::parse(c[0].as_str())) {
                    (Some(volume), Some(last_price)) => Ok(
                        KrakenUpdate::Ticker { pair: pair.clone(), last_price, volume },
                    ),
                    _ => Err(ParseError::InvalidNumber),
                }
            },
            _ => Err(ParseError::Schema),
        }
    } else {
        Ok(KrakenUpdate::Ignore)
    }
}

/// Where a kraken book update starts on a side: nothing for a snapshot, else
/// what the side holds.
pub open spec fn kraken_start(side: Seq<PriceLevel>, snapshot: bool) -> Map<Decimal, Decimal> {
    if snapshot {
        Map::empty()
    } else {
        level_map(side)
    }
}

/// The price maps a kraken book update reaches before trimming have sorted sides.
pub open spec fn kraken_sides_sorted(base: BookView, ev: KrakenEvent) -> bool {
    match ev {
        KrakenEvent::Book { snapshot, bids, asks, .. } => has_sorted_side(
            apply_levels(kraken_start(base.bid, snapshot), bids),
        ) && has_sorted_side(apply_levels(kraken_start(base.ask, snapshot), asks)),
        _ => true,
    }
}

pub open spec fn kraken_pair(ev: KrakenEvent) -> Seq<char> {
    match ev {
        KrakenEvent::Book { pair, .. } => pair,
        KrakenEvent::Ticker { pair, .. } => pair,
        KrakenEvent::Ignore => Seq::empty(),
    }
}

/// A kraken book update applies the levels (after clearing both sides for a
/// snapshot) and keeps the `KRAKEN_DEPTH` best prices; a ticker replaces the
/// ticker fields.
pub open spec fn kraken_result(base: BookView, ev: KrakenEvent) -> BookView {
    match ev {
        KrakenEvent::Book { snapshot, bids, asks, .. } => {
            let start_bid = kraken_start(base.bid, snapshot);
            let start_ask = kraken_start(base.ask, snapshot);
            BookView {
                bid: keep_highest(sorted_side(apply_levels(start_bid, bids)), KRAKEN_DEPTH as nat),
                ask: keep_lowest(sorted_side(apply_levels(start_ask, asks)), KRAKEN_DEPTH as nat),
                ..base
            }
        },
        KrakenEvent::Ticker { last_price, volume, .. } => BookView { last_price, volume, ..base },
        KrakenEvent::Ignore => base,
    }
}

pub open spec fn stored(acc: Map<Seq<char>, BookView>, pair: Seq<char>) -> Option<BookView> {
    if acc.contains_key(pair) {
        Some(acc[pair])
    } else {
        None
    }
}

/// What a kraken event does to the books by pair (`acc`, now `next`) and what
/// it hands out (`out`).
pub open spec fn kraken_step(
    acc: Map<Seq<char>, BookView>,
    ev: KrakenEvent,
    out: Option<BookView>,
    next: Map<Seq<char>, BookView>,
) -> bool {
    match ev {
        KrakenEvent::Ignore => out is None && next == acc,
        _ => match out {
            Some(b) => {
                &&& next == acc.insert(kraken_pair(ev), b)
                &&& b == kraken_result(base_book(stored(acc, kraken_pair(ev)), "kraken"@, b.timestamp), ev)
                &&& kraken_sides_sorted(base_book(stored(acc, kraken_pair(ev)), "kraken"@, b.timestamp), ev)
            },
            None => false,
        },
    }
}

/// Kraken's accumulator: one book per pair, since book deltas and ticker
/// figures both update the pair's book.
#[derive(Debug)]
pub struct KrakenParser {
    books: BookStore,
}

impl View for KrakenParser {
    type V = Map<Seq<char>, BookView>;

    closed spec fn view(&self) -> Map<Seq<char>, BookView> {
        self.books@
    }
}

pub open spec fn opens_object(raw: Seq<char>) -> bool {
    raw.len() > 0 && raw[0] == '{'
}

/// What reading the text `raw` does to kraken's books by pair.
pub open spec fn kraken_parsed(
    acc: Map<Seq<char>, BookView>,
    raw: Seq<char>,
    r: Result<Option<Orderbook>, ParseError>,
    next: Map<Seq<char>, BookView>,
) -> bool {
    if opens_object(raw) {
        r == Ok::<Option<Orderbook>, ParseError>(None) && next == acc
    } else {
        match json_of_text(raw) {
            None => r == Err::<Option<Orderbook>, ParseError>(ParseError::InvalidJson) && next == acc,
            Some(j) => match kraken_event(j) {
                Err(e) => r == Err::<Option<Orderbook>, ParseError>(e) && next == acc,
                Ok(ev) => match r {
                    Ok(out) => kraken_step(acc, ev, book_out(out), next),
                    Err(_) => false,
                },
            },
        }
    }
}

impl KrakenParser {
    /// The books are well formed and all named "kraken".
    pub open spec fn wf(&self) -> bool {
        &&& self.books_wf()
        &&& forall|k: Seq<char>| #[trigger] self@.contains_key(k) ==> self@[k].name == "kraken"@
    }

    pub closed spec fn books_wf(&self) -> bool {
        self.books.wf()
    }

    pub fn new() -> (r: KrakenParser)
        ensures
            r.wf(),
            r@ == Map::<Seq<char>, BookView>::empty(),
    {
        KrakenParser { books: BookStore::new() }
    }

    /// Drop every pair's book.
    pub fn clear(&mut self)
        ensures
            final(self).wf(),
            final(self)@ == Map::<Seq<char>, BookView>::empty(),
    {
        self.books.clear();
    }

    /// Apply a read frame; hands out a copy of the pair's book unless the
    /// frame is ignored.
    pub fn apply(&mut self, u: &KrakenUpdate) -> (r: Option<Orderbook>)
        requires
            old(self).wf(),
            kraken_levels_ok(u@),
        ensures
            final(self).wf(),
            kraken_step(old(self)@, u@, book_out(r), final(self)@),
            match r {
                Some(b) => b.wf(),
                None => true,
            },
    {
        match u {
            KrakenUpdate::Ignore => None,
            KrakenUpdate::Book { pair, snapshot, bids, asks } => {
                let mut b = match self.books.get(pair) {
                    Some(b) => b,
                    None => Orderbook::new("kraken"),
                };
                let ghost base = b@;
                if *snapshot {
                    b.clear();
                }
                b.insert_all(Side::Bid, bids);
                b.insert_all(Side::Ask, asks);
                proof {
                    lemma_level_map_empty();
                    lemma_sorted_side(b@.bid);
                    lemma_sorted_side(b@.ask);
                }
                b.trim(KRAKEN_DEPTH);
                proof {
                    assert(b@ == kraken_result(base, u@));
                }
                let ghost before = self@;
                self.books.put(pair.clone(), b.duplicate());
                proof {
                    assert forall|k: Seq<char>| #[trigger] self@.contains_key(k) implies self@[k].name
                        == "kraken"@ by {
                        if k != pair@ {
                            assert(before.contains_key(k));
                        }
                    }
                }
                Some(b)
            },
            KrakenUpdate::Ticker { pair, last_price, volume } => {
                let mut b = match self.books.get(pair) {
                    Some(b) => b,
                    None => Orderbook::new("kraken"),
                };
                b.set_ticker(*last_price, *volume);
                let ghost before = self@;
                self.books.put(pair.clone(), b.duplicate());
                proof {
                    assert forall|k: Seq<char>| #[trigger] self@.contains_key(k) implies self@[k].name
                        == "kraken"@ by {
                        if k != pair@ {
                            assert(before.contains_key(k));
                        }
                    }
                }
                Some(b)
            },
        }
    }

    /// Read one kraken frame and apply it. Frames that open with `{` (system
    /// status, heartbeats, subscription replies) are skipped unread.
    pub fn parse(&mut self, raw: &str) -> (r: Result<Option<Orderbook>, ParseError>)
        requires
            old(self).wf(),
        ensures
            final(self).wf(),
            kraken_parsed(old(self)@, raw@, r, final(self)@),
            parsed_books_wf(r),
    {
        if raw.unicode_len() > 0 && raw.get_char(0) == '{' {
            return Ok(None);
        }
        match decode_json(raw) {
            None => Err(ParseError::InvalidJson),
            Some(j) => match decode_kraken(&j) {
                Err(e) => Err(e),
                Ok(u) => Ok(self.apply(&u)),
            },
        }
    }
}

// ---------------------------------------------------------------------------
// Snapshots

/// A snapshot's side is exactly what inserting its levels one by one into an
/// empty side gives, so trimming either afterwards gives the same side.
pub proof fn lemma_snapshot_round_trip(levels: Seq<PriceLevel>, direct: Seq<PriceLevel>, n: nat)
    requires
        ascending(direct),
        level_map(direct) == apply_levels(Map::empty(), levels),
    ensures
        sorted_side(apply_levels(Map::empty(), levels)) == direct,
        keep_highest(sorted_side(apply_levels(Map::empty(), levels)), n) == keep_highest(direct, n),
        keep_lowest(sorted_side(apply_levels(Map::empty(), levels)), n) == keep_lowest(direct, n),
{
    lemma_sorted_side(direct);
}

/// Keeping the `KRAKEN_DEPTH` best levels and then `n <= KRAKEN_DEPTH` of them
/// keeps the `n` best.
proof fn lemma_trim_within_depth(s: Seq<PriceLevel>, n: nat)
    requires
        n <= KRAKEN_DEPTH,
    ensures
        keep_highest(keep_highest(s, KRAKEN_DEPTH as nat), n) == keep_highest(s, n),
        keep_lowest(keep_lowest(s, KRAKEN_DEPTH as nat), n) == keep_lowest(s, n),
{
    let d = KRAKEN_DEPTH as nat;
    let len = s.len();
    if len > d {
        assert(keep_highest(s.subrange(len - d, len as int), n) =~= keep_highest(s, n));
        assert(keep_lowest(s.take(d as int), n) =~= keep_lowest(s, n));
    }
}

/// A binance depth frame followed by a trim to `n` gives the book that
/// inserting the frame's levels into a fresh "binance" book and trimming to
/// `n` gives: same name, same sides.
pub proof fn lemma_binance_depth_round_trip(
    acc: Option<BookView>,
    bids: Seq<PriceLevel>,
    asks: Seq<PriceLevel>,
    out: BookView,
    next: Option<BookView>,
    direct: BookView,
    n: nat,
)
    requires
        acc matches Some(b) ==> b.name == "binance"@,
        binance_step(acc, BinanceEvent::Depth(bids, asks), Some(out), next),
        direct.name == "binance"@,
        ascending(direct.bid),
        ascending(direct.ask),
        level_map(direct.bid) == apply_levels(Map::empty(), bids),
        level_map(direct.ask) == apply_levels(Map::empty(), asks),
    ensures
        out.name == direct.name,
        keep_highest(out.bid, n) == keep_highest(direct.bid, n),
        keep_lowest(out.ask, n) == keep_lowest(direct.ask, n),
{
    lemma_sorted_side(direct.bid);
    lemma_sorted_side(direct.ask);
}

/// A bitstamp snapshot followed by a trim to `n` gives the book that inserting
/// its levels into a fresh "bitstamp" book and trimming to `n` gives.
pub proof fn lemma_bitstamp_snapshot_round_trip(
    bids: Seq<PriceLevel>,
    asks: Seq<PriceLevel>,
    timestamp: u128,
    direct: BookView,
    n: nat,
)
    requires
        direct.name == "bitstamp"@,
        ascending(direct.bid),
        ascending(direct.ask),
        level_map(direct.bid) == apply_levels(Map::empty(), bids),
        level_map(direct.ask) == apply_levels(Map::empty(), asks),
    ensures
        bitstamp_result(bids, asks, timestamp).name == direct.name,
        keep_highest(bitstamp_result(bids, asks, timestamp).bid, n) == keep_highest(direct.bid, n),
        keep_lowest(bitstamp_result(bids, asks, timestamp).ask, n) == keep_lowest(direct.ask, n),
{
    lemma_sorted_side(direct.bid);
    lemma_sorted_side(direct.ask);
}

/// A kraken snapshot (a book frame with a non-empty `bs` or `as`) followed by a
/// trim to `n`, at most the kraken depth, gives the book that inserting the
/// frame's levels into a fresh "kraken" book and trimming to `n` gives. Above
/// that depth it does not hold: the parser keeps `KRAKEN_DEPTH` levels a side.
pub proof fn lemma_kraken_snapshot_round_trip(
    acc: Map<Seq<char>, BookView>,
    pair: Seq<char>,
    bids: Seq<PriceLevel>,
    asks: Seq<PriceLevel>,
    out: BookView,
    next: Map<Seq<char>, BookView>,
    direct: BookView,
    n: nat,
)
    requires
        forall|k: Seq<char>| #[trigger] acc.contains_key(k) ==> acc[k].name == "kraken"@,
        kraken_step(acc, KrakenEvent::Book { pair, snapshot: true, bids, asks }, Some(out), next),
        direct.name == "kraken"@,
        ascending(direct.bid),
        ascending(direct.ask),
        level_map(direct.bid) == apply_levels(Map::empty(), bids),
        level_map(direct.ask) == apply_levels(Map::empty(), asks),
        n <= KRAKEN_DEPTH,
    ensures
        out.name == direct.name,
        keep_highest(out.bid, n) == keep_highest(direct.bid, n),
        keep_lowest(out.ask, n) == keep_lowest(direct.ask, n),
{
    lemma_sorted_side(direct.bid);
    lemma_sorted_side(direct.ask);
    lemma_trim_within_depth(direct.bid, n);
    lemma_trim_within_depth(direct.ask, n);
}

} // verus!
