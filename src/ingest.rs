//! The decisions of a venue's ingest loop: what to connect to and send on
//! connecting, and what each inbound frame becomes. The loop itself (sockets,
//! timers, reconnecting) runs around these.
use crate::book::{keep_highest, keep_lowest, BookView, Orderbook};
use crate::config::ExchangeSetting;
use crate::wsapi::{
    formatx_one, plain_template, render_plain, renders_all, subscribe_error, subscribe_frames, ws, ws_entry,
    ApiError, ApiView, ParserKind,
};
use crate::venue::{
    binance_parsed, bitstamp_parsed, bitstamp_parser, kraken_parsed, parsed_books_wf, BinanceParser,
    KrakenParser, ParseError,
};
use vstd::prelude::*;

verus! {

/// Depth asked for in subscribe frames.
pub const SUBSCRIBE_DEPTH: u32 = 20;

/// Price levels per side kept in the books an ingester emits.
pub const DEFAULT_LEVEL: u32 = 10;

/// A venue's frame reader with its accumulated state.
#[derive(Debug)]
pub enum VenueParser {
    Binance(BinanceParser),
    Bitstamp,
    Kraken(KrakenParser),
}

/// What reading `raw` does to a venue parser, and what it gives.
pub open spec fn venue_parsed(
    before: VenueParser,
    raw: Seq<char>,
    r: Result<Option<Orderbook>, ParseError>,
    after: VenueParser,
) -> bool {
    match (before, after) {
        (VenueParser::Binance(a), VenueParser::Binance(b)) => binance_parsed(a@, raw, r, b@),
        (VenueParser::Bitstamp, VenueParser::Bitstamp) => bitstamp_parsed(raw, r),
        (VenueParser::Kraken(a), VenueParser::Kraken(b)) => kraken_parsed(a@, raw, r, b@),
        _ => false,
    }
}

impl VenueParser {
    pub open spec fn wf(&self) -> bool {
        match self {
            VenueParser::Binance(p) => p.wf(),
            VenueParser::Bitstamp => true,
            VenueParser::Kraken(p) => p.wf(),
        }
    }

    pub open spec fn kind(&self) -> ParserKind {
        match self {
            VenueParser::Binance(_) => ParserKind::Binance,
            VenueParser::Bitstamp => ParserKind::Bitstamp,
            VenueParser::Kraken(_) => ParserKind::Kraken,
        }
    }

    /// A parser for the dialect with nothing accumulated.
    pub fn new(kind: ParserKind) -> (r: VenueParser)
        ensures
            r.wf(),
            r.kind() == kind,
            r matches VenueParser::Binance(p) ==> p@ is None,
            r matches VenueParser::Kraken(p) ==> p@ == Map::<Seq<char>, BookView>::empty(),
    {
        match kind {
            ParserKind::Binance => VenueParser::Binance(BinanceParser::new()),
            ParserKind::Bitstamp => VenueParser::Bitstamp,
            ParserKind::Kraken => VenueParser::Kraken(KrakenParser::new()),
        }
    }

    /// Read one frame's text.
    pub fn parse(&mut self, raw: &str) -> (r: Result<Option<Orderbook>, ParseError>)
        requires
            old(self).wf(),
        ensures
            final(self).wf(),
            venue_parsed(*old(self), raw@, r, *final(self)),
            parsed_books_wf(r),
    {
        match self {
            VenueParser::Binance(p) => p.parse(raw),
            VenueParser::Bitstamp => bitstamp_parser(raw),
            VenueParser::Kraken(p) => p.parse(raw),
        }
    }

    /// Drop everything accumulated, as on reconnecting.
    pub fn clear(&mut self)
        ensures
            final(self).wf(),
            final(self).kind() == old(self).kind(),
            *final(self) matches VenueParser::Binance(p) ==> p@ is None,
            *final(self) matches VenueParser::Kraken(p) ==> p@ == Map::<Seq<char>, BookView>::empty(),
    {
        match self {
            VenueParser::Binance(p) => p.clear(),
            VenueParser::Bitstamp => {},
            VenueParser::Kraken(p) => p.clear(),
        }
    }
}

/// The text the bytes encode as UTF-8 (`None` where they are not UTF-8).
pub uninterp spec fn utf8_decoded(bytes: Seq<u8>) -> Option<Seq<char>>;

/// Relies on std's `str::from_utf8`: the text the bytes encode, `None` where
/// they are not valid UTF-8.
#[verifier::external_body]
fn text_from_utf8(bytes: &[u8]) -> (r: Option<String>)
    ensures
        match r {
            Some(s) => utf8_decoded(bytes@) == Some(s@),
            None => utf8_decoded(bytes@) is None,
        },
{
    std::str::from_utf8(bytes).ok().map(|s| s.to_owned())
}

/// A frame as the transport hands it over.
#[derive(Debug)]
pub enum Frame {
    Text(String),
    Binary(Vec<u8>),
    Ping,
    Pong,
    Close,
    /// A fragment of a message that continues in later frames.
    Fragment(Vec<u8>),
    /// The final fragment of a message.
    LastFragment(Vec<u8>),
}

/// Why connecting or reading failed.
#[derive(Clone, Debug, PartialEq)]
pub enum IngestError {
    /// No pair is configured for the venue.
    NoPairs,
    Api(ApiError),
    Parse(ParseError),
    /// A binary message is not UTF-8.
    InvalidUtf8,
}

/// What a frame amounts to.
#[derive(Debug)]
pub enum FrameOutcome {
    /// A book to hand to the aggregator.
    Book(Orderbook),
    /// Nothing to do (control frames, fragments, ignorable messages).
    Skip,
    /// An unreadable message; the stream goes on.
    Invalid(IngestError),
    /// The venue closed the stream.
    Closed,
}

/// The book trimmed to `level` prices a side.
pub open spec fn trimmed(b: BookView, level: u32) -> BookView {
    BookView { bid: keep_highest(b.bid, level as nat), ask: keep_lowest(b.ask, level as nat), ..b }
}

/// The outcome for a parse result: books are trimmed to `level`.
pub open spec fn parse_outcome(r: Result<Option<Orderbook>, ParseError>, level: u32, out: FrameOutcome) -> bool {
    match r {
        Ok(Some(b)) => (out matches FrameOutcome::Book(ob) && ob@ == trimmed(b@, level)),
        Ok(None) => out is Skip,
        Err(e) => (out matches FrameOutcome::Invalid(IngestError::Parse(pe)) && pe == e),
    }
}

/// Reading the message `raw`.
pub open spec fn message_read(before: VenueParser, raw: Seq<char>, level: u32, out: FrameOutcome, after: VenueParser) -> bool {
    exists|r: Result<Option<Orderbook>, ParseError>|
        #[trigger] venue_parsed(before, raw, r, after) && parse_outcome(r, level, out)
}

/// Reading the message the bytes hold.
pub open spec fn bytes_read(before: VenueParser, bytes: Seq<u8>, level: u32, out: FrameOutcome, after: VenueParser) -> bool {
    match utf8_decoded(bytes) {
        None => (out matches FrameOutcome::Invalid(IngestError::InvalidUtf8)) && after == before,
        Some(raw) => message_read(before, raw, level, out, after),
    }
}

/// The settings for a connection, and the message being reassembled.
#[derive(Debug)]
pub struct Exchange {
    name: String,
    level: u32,
    ws_api: bool,
    pairs: Vec<String>,
    wait_secs: u64,
    fragments: Vec<u8>,
}

pub struct ExchangeView {
    pub name: Seq<char>,
    pub level: u32,
    pub ws_api: bool,
    pub pairs: Seq<Seq<char>>,
    pub wait_secs: u64,
    pub fragments: Seq<u8>,
}

impl View for Exchange {
    type V = ExchangeView;

    closed spec fn view(&self) -> ExchangeView {
        ExchangeView {
            name: self.name@,
            level: self.level,
            ws_api: self.ws_api,
            pairs: self.pairs@.map_values(|p: String| p@),
            wait_secs: self.wait_secs,
            fragments: self.fragments@,
        }
    }
}

/// What to do on connecting: the URL to open, the keepalive, and the
/// subscribe frames to send in order.
#[derive(Debug)]
pub struct ConnectPlan {
    pub url: String,
    pub heartbeat: Option<(u64, String)>,
    pub subscriptions: Vec<String>,
    pub parser: ParserKind,
}

/// Pairs joined with commas.
pub open spec fn comma_joined(pairs: Seq<Seq<char>>) -> Seq<char>
    decreases pairs.len(),
{
    if pairs.len() == 0 {
        Seq::empty()
    } else if pairs.len() == 1 {
        pairs[0]
    } else {
        comma_joined(pairs.drop_last()) + ","@ + pairs.last()
    }
}

/// The subscribe frames for all pairs, pair by pair.
pub open spec fn pair_frames(templates: Seq<Seq<char>>, pairs: Seq<Seq<char>>) -> Option<Seq<Seq<char>>>
    decreases pairs.len(),
{
    if pairs.len() == 0 {
        Some(Seq::empty())
    } else {
        match pair_frames(templates, pairs.drop_last()) {
            None => None,
            Some(prev) => match subscribe_frames(templates, pairs.last(), SUBSCRIBE_DEPTH) {
                Some(f) => Some(prev + f),
                None => None,
            },
        }
    }
}

/// The error of the first pair whose frames cannot be rendered.
pub open spec fn pair_frames_error(templates: Seq<Seq<char>>, pairs: Seq<Seq<char>>) -> ApiError
    decreases pairs.len(),
{
    if pairs.len() == 0 {
        ApiError::Render
    } else if pair_frames(templates, pairs.drop_last()) is None {
        pair_frames_error(templates, pairs.drop_last())
    } else {
        subscribe_error(templates, pairs.last(), SUBSCRIBE_DEPTH)
    }
}

/// The plan for a streaming venue `api` and configured `pairs`.
/// Every template renders for every pair at `SUBSCRIBE_DEPTH`.
pub open spec fn pairs_render(templates: Seq<Seq<char>>, pairs: Seq<Seq<char>>) -> bool {
    forall|j: int| 0 <= j < pairs.len() ==> renders_all(templates, #[trigger] pairs[j], SUBSCRIBE_DEPTH)
}

pub open spec fn plan_of(api: ApiView, pairs: Seq<Seq<char>>, r: Result<Option<ConnectPlan>, IngestError>) -> bool {
    &&& api.render_url && plain_template(api.endpoint) && render_plain(api.endpoint, seq![comma_joined(pairs)], 0)
        is Some ==> r is Ok
    &&& !api.render_url && pairs_render(api.subscribe_template, pairs) ==> r is Ok
    &&& plan_steps(api, pairs, r)
}

pub open spec fn plan_steps(api: ApiView, pairs: Seq<Seq<char>>, r: Result<Option<ConnectPlan>, IngestError>) -> bool {
    if api.render_url {
        if !plain_template(api.endpoint) {
            r == Err::<Option<ConnectPlan>, IngestError>(IngestError::Api(ApiError::MalformedTemplate))
        } else {
            match formatx_one(api.endpoint, comma_joined(pairs)) {
                None => r == Err::<Option<ConnectPlan>, IngestError>(IngestError::Api(ApiError::Render)),
                Some(url) => (r matches Ok(Some(p)) && p.url@ == url && p.subscriptions@.len() == 0
                    && plan_common(api, p)),
            }
        }
    } else {
        match pair_frames(api.subscribe_template, pairs) {
            None => r == Err::<Option<ConnectPlan>, IngestError>(
                IngestError::Api(pair_frames_error(api.subscribe_template, pairs)),
            ),
            Some(frames) => (r matches Ok(Some(p)) && p.url@ == api.endpoint
                && p.subscriptions@.map_values(|s: String| s@) == frames && plan_common(api, p)),
        }
    }
}

pub open spec fn plan_common(api: ApiView, p: ConnectPlan) -> bool {
    &&& p.parser == api.parser
    &&& match (p.heartbeat, api.heartbeat) {
        (Some((s, m)), Some((t, n))) => s == t && m@ == n,
        (None, None) => true,
        _ => false,
    }
}

fn comma_join(pairs: &Vec<String>) -> (r: String)
    ensures
        r@ == comma_joined(pairs@.map_values(|p: String| p@)),
{
    let ghost ps = pairs@.map_values(|p: String| p@);
    let mut out = String::new();
    let mut i: usize = 0;
    proof {
        assert(ps.take(0) =~= Seq::<Seq<char>>::empty());
    }
    while i < pairs.len()
        invariant
            ps == pairs@.map_values(|p: String| p@),
            i <= pairs@.len(),
            out@ == comma_joined(ps.take(i as int)),
        decreases pairs@.len() - i,
    {
        proof {
            assert(ps.take(i + 1).drop_last() =~= ps.take(i as int));
            assert(ps.take(i + 1).last() == pairs@[i as int]@);
        }
        if i > 0 {
            out.append(",");
        } else {
            proof {
                assert(out@ =~= Seq::<char>::empty());
            }
        }
        out.append(pairs[i].as_str());
        proof {
            if i == 0 {
                assert(out@ =~= ps.take(1)[0]);
            }
        }
        i = i + 1;
    }
    proof {
        assert(ps.take(i as int) =~= ps);
    }
    out
}

/// The subscribe frames for every pair, pair by pair, at `SUBSCRIBE_DEPTH`.
fn subscriptions_for(api: &crate::wsapi::Api, pairs: &Vec<String>) -> (r: Result<Vec<String>, ApiError>)
    ensures
        match pair_frames(api@.subscribe_template, pairs@.map_values(|p: String| p@)) {
            Some(frames) => (r matches Ok(v) && v@.map_values(|s: String| s@) == frames),
            None => r == Err::<Vec<String>, ApiError>(
                pair_frames_error(api@.subscribe_template, pairs@.map_values(|p: String| p@)),
            ),
        },
        pairs_render(api@.subscribe_template, pairs@.map_values(|p: String| p@)) ==> r is Ok,
{
    let ghost ps = pairs@.map_values(|p: String| p@);
    let ghost ts = api@.subscribe_template;
    let mut subscriptions: Vec<String> = Vec::new();
    let mut k: usize = 0;
    proof {
        assert(ps.take(0) =~= Seq::<Seq<char>>::empty());
        assert(subscriptions@.map_values(|s: String| s@) =~= Seq::<Seq<char>>::empty());
    }
    while k < pairs.len()
        invariant
            ps == pairs@.map_values(|p: String| p@),
            ts == api@.subscribe_template,
            k <= ps.len(),
            ps.len() == pairs@.len(),
            pair_frames(ts, ps.take(k as int)) == Some(subscriptions@.map_values(|s: String| s@)),
        decreases ps.len() - k,
    {
        proof {
            assert(ps.take(k + 1).drop_last() =~= ps.take(k as int));
            assert(ps.take(k + 1).last() == pairs@[k as int]@);
        }
        match api.subscribe_text(pairs[k].as_str(), SUBSCRIBE_DEPTH) {
            Ok(frames) => {
                let ghost before = subscriptions@;
                let mut j: usize = 0;
                while j < frames.len()
                    invariant
                        j <= frames@.len(),
                        subscriptions@.map_values(|s: String| s@) =~= before.map_values(|s: String| s@)
                            + frames@.take(j as int).map_values(|s: String| s@),
                    decreases frames@.len() - j,
                {
                    let ghost mid = subscriptions@;
                    subscriptions.push(frames[j].clone());
                    proof {
                        assert(frames@.take(j + 1) =~= frames@.take(j as int).push(frames@[j as int]));
                        assert(subscriptions@.map_values(|s: String| s@) =~= mid.map_values(|s: String| s@).push(frames@[j as int]@));
                    }
                    j = j + 1;
                }
                proof {
                    assert(frames@.take(j as int) =~= frames@);
                }
            },
            Err(e) => {
                proof {
                    lemma_pair_frames_prefix_none(ts, ps, k + 1);
                    assert(ps[k as int] == pairs@[k as int]@);
                }
                return Err(e);
            },
        }
        k = k + 1;
    }
    proof {
        assert(ps.take(k as int) =~= ps);
    }
    Ok(subscriptions)
}

impl Exchange {
    pub fn new(name: &str) -> (r: Exchange)
        ensures
            r@ == (ExchangeView {
                name: name@,
                level: DEFAULT_LEVEL,
                ws_api: true,
                pairs: Seq::empty(),
                wait_secs: 0,
                fragments: Seq::empty(),
            }),
    {
        let r = Exchange {
            name: name.to_owned(),
            level: DEFAULT_LEVEL,
            ws_api: true,
            pairs: Vec::new(),
            wait_secs: 0,
            fragments: Vec::new(),
        };
        proof {
            assert(r@.pairs =~= Seq::<Seq<char>>::empty());
        }
        r
    }

    pub fn name(&self) -> (r: &String)
        ensures
            r@ == self@.name,
    {
        &self.name
    }

    pub fn level(&self) -> (r: u32)
        ensures
            r == self@.level,
    {
        self.level
    }

    pub fn ws_api(&self) -> (r: bool)
        ensures
            r == self@.ws_api,
    {
        self.ws_api
    }

    pub fn wait_secs(&self) -> (r: u64)
        ensures
            r == self@.wait_secs,
    {
        self.wait_secs
    }

    /// The pair a REST poll asks for: the first configured one.
    pub fn first_pair(&self) -> (r: Option<&String>)
        ensures
            self@.pairs.len() == 0 ==> r is None,
            self@.pairs.len() > 0 ==> (r matches Some(p) && p@ == self@.pairs[0]),
    {
        if self.pairs.len() == 0 {
            None
        } else {
            Some(&self.pairs[0])
        }
    }

    /// Follow one more pair: it is added to the pairs, and its subscribe
    /// frames are returned for sending.
    pub fn subscribe(&mut self, pair: &str) -> (r: Result<Vec<String>, IngestError>)
        ensures
            final(self)@ == (ExchangeView { pairs: old(self)@.pairs.push(pair@), ..old(self)@ }),
            match ws_entry(old(self)@.name) {
                None => (r matches Err(IngestError::Api(ApiError::NotSupported(n))) && n@ == old(self)@.name),
                Some(api) => match subscribe_frames(api.subscribe_template, pair@, SUBSCRIBE_DEPTH) {
                    Some(frames) => (r matches Ok(v) && v@.map_values(|s: String| s@) == frames),
                    None => r == Err::<Vec<String>, IngestError>(
                        IngestError::Api(subscribe_error(api.subscribe_template, pair@, SUBSCRIBE_DEPTH)),
                    ),
                },
            },
    {
        self.pairs.push(pair.to_owned());
        proof {
            assert(self@.pairs =~= old(self)@.pairs.push(pair@));
        }
        let api = match ws(self.name.as_str()) {
            Ok(api) => api,
            Err(e) => {
                return Err(IngestError::Api(e));
            },
        };
        match api.subscribe_text(pair, SUBSCRIBE_DEPTH) {
            Ok(frames) => Ok(frames),
            Err(e) => Err(IngestError::Api(e)),
        }
    }

    /// Drop what the venue's parser has accumulated, as on reconnecting;
    /// fails for a venue that is not registered.
    pub fn clear(&self, parser: &mut VenueParser) -> (r: Result<(), IngestError>)
        requires
            old(parser).wf(),
        ensures
            final(parser).wf(),
            ws_entry(self@.name) is None ==> (r matches Err(IngestError::Api(ApiError::NotSupported(n)))
                && n@ == self@.name) && *final(parser) == *old(parser),
            ws_entry(self@.name) is Some ==> r is Ok && final(parser).kind() == old(parser).kind()
                && (*final(parser) matches VenueParser::Binance(p) ==> p@ is None)
                && (*final(parser) matches VenueParser::Kraken(p) ==> p@ == Map::<Seq<char>, BookView>::empty()),
    {
        match ws(self.name.as_str()) {
            Ok(_) => {
                parser.clear();
                Ok(())
            },
            Err(e) => Err(IngestError::Api(e)),
        }
    }

    /// Take the venue's settings and work out how to connect. The first
    /// setting decides streaming or polling and the poll interval (at least
    /// one second); polling needs no connection (`Ok(None)`).
    pub fn connect(&mut self, settings: &Vec<ExchangeSetting>) -> (r: Result<Option<ConnectPlan>, IngestError>)
        ensures
            final(self)@.name == old(self)@.name,
            final(self)@.level == old(self)@.level,
            final(self)@.fragments == old(self)@.fragments,
            final(self)@.pairs == settings@.map_values(|s: ExchangeSetting| s.pair@),
            settings@.len() == 0 ==> r == Err::<Option<ConnectPlan>, IngestError>(IngestError::NoPairs),
            settings@.len() > 0 ==> {
                let first = settings@[0];
                &&& final(self)@.wait_secs == (if first.wait_secs > 0 {
                    first.wait_secs
                } else {
                    1
                })
                &&& final(self)@.ws_api == first.ws_api
                &&& !first.ws_api ==> r == Ok::<Option<ConnectPlan>, IngestError>(None)
                &&& first.ws_api ==> match ws_entry(old(self)@.name) {
                    None => (r matches Err(IngestError::Api(ApiError::NotSupported(n))) && n@ == old(self)@.name),
                    Some(api) => plan_of(api, final(self)@.pairs, r),
                }
            },
    {
        let mut pairs: Vec<String> = Vec::new();
        let mut i: usize = 0;
        while i < settings.len()
            invariant
                i <= settings@.len(),
                pairs@.map_values(|p: String| p@) =~= settings@.take(i as int).map_values(
                    |s: ExchangeSetting| s.pair@,
                ),
            decreases settings@.len() - i,
        {
            let ghost before = pairs@;
            pairs.push(settings[i].pair.clone());
            proof {
                assert(settings@.take(i + 1) =~= settings@.take(i as int).push(settings@[i as int]));
                assert(pairs@.map_values(|p: String| p@) =~= before.map_values(|p: String| p@).push(settings@[i as int].pair@));
            }
            i = i + 1;
        }
        proof {
            assert(settings@.take(i as int) =~= settings@);
        }
        self.pairs = pairs;
        if settings.len() == 0 {
            return Err(IngestError::NoPairs);
        }
        let first = &settings[0];
        self.wait_secs = if first.wait_secs > 0 {
            first.wait_secs
        } else {
            1
        };
        self.ws_api = first.ws_api;
        if !self.ws_api {
            return Ok(None);
        }
        let api = match ws(self.name.as_str()) {
            Ok(api) => api,
            Err(e) => {
                return Err(IngestError::Api(e));
            },
        };
        let heartbeat = match &api.heartbeat {
            Some((secs, payload)) => Some((*secs, payload.clone())),
            None => None,
        };
        if api.render_url {
            let joined = comma_join(&self.pairs);
            match crate::wsapi::render_with(api.endpoint.as_str(), joined.as_str()) {
                Ok(url) => Ok(Some(ConnectPlan { url, heartbeat, subscriptions: Vec::new(), parser: api.parser })),
                Err(e) => Err(IngestError::Api(e)),
            }
        } else {
            match subscriptions_for(&api, &self.pairs) {
                Ok(subscriptions) => Ok(Some(ConnectPlan { url: api.endpoint.clone(), heartbeat, subscriptions, parser: api.parser })),
                Err(e) => Err(IngestError::Api(e)),
            }
        }
    }

    fn read_message(&self, parser: &mut VenueParser, raw: &str) -> (out: FrameOutcome)
        requires
            old(parser).wf(),
        ensures
            final(parser).wf(),
            message_read(*old(parser), raw@, self@.level, out, *final(parser)),
            out matches FrameOutcome::Book(b) ==> b.wf(),
    {
        let r = parser.parse(raw);
        let out = match r {
            Ok(Some(b)) => {
                let mut b = b;
                b.trim(self.level);
                FrameOutcome::Book(b)
            },
            Ok(None) => FrameOutcome::Skip,
            Err(e) => FrameOutcome::Invalid(IngestError::Parse(e)),
        };
        proof {
            assert(venue_parsed(*old(parser), raw@, r, *parser) && parse_outcome(r, self@.level, out));
        }
        out
    }

    fn read_bytes(&self, parser: &mut VenueParser, bytes: &[u8]) -> (out: FrameOutcome)
        requires
            old(parser).wf(),
        ensures
            final(parser).wf(),
            bytes_read(*old(parser), bytes@, self@.level, out, *final(parser)),
            out matches FrameOutcome::Book(b) ==> b.wf(),
    {
        match text_from_utf8(bytes) {
            Some(raw) => self.read_message(parser, raw.as_str()),
            None => FrameOutcome::Invalid(IngestError::InvalidUtf8),
        }
    }

    /// What one inbound frame amounts to. Text goes to the venue's parser;
    /// binary is read as UTF-8 first; fragments gather until the last one,
    /// and the whole message is then read as binary; control frames do
    /// nothing; a close ends the stream.
    pub fn next(&mut self, parser: &mut VenueParser, frame: Frame) -> (out: FrameOutcome)
        requires
            old(parser).wf(),
        ensures
            final(parser).wf(),
            final(self)@.name == old(self)@.name,
            final(self)@.level == old(self)@.level,
            final(self)@.ws_api == old(self)@.ws_api,
            final(self)@.pairs == old(self)@.pairs,
            final(self)@.wait_secs == old(self)@.wait_secs,
            out matches FrameOutcome::Book(b) ==> b.wf(),
            match frame {
                Frame::Text(s) => message_read(*old(parser), s@, old(self)@.level, out, *final(parser))
                    && final(self)@.fragments == old(self)@.fragments,
                Frame::Binary(b) => bytes_read(*old(parser), b@, old(self)@.level, out, *final(parser))
                    && final(self)@.fragments == old(self)@.fragments,
                Frame::Ping | Frame::Pong => out is Skip && *final(parser) == *old(parser)
                    && final(self)@.fragments == old(self)@.fragments,
                Frame::Close => out is Closed && *final(parser) == *old(parser)
                    && final(self)@.fragments == old(self)@.fragments,
                Frame::Fragment(b) => out is Skip && *final(parser) == *old(parser)
                    && final(self)@.fragments == old(self)@.fragments + b@,
                Frame::LastFragment(b) => bytes_read(*old(parser), old(self)@.fragments + b@, old(self)@.level, out, *final(parser))
                    && final(self)@.fragments == Seq::<u8>::empty(),
            },
    {
        match frame {
            Frame::Text(s) => self.read_message(parser, s.as_str()),
            Frame::Binary(b) => self.read_bytes(parser, b.as_slice()),
            Frame::Ping => FrameOutcome::Skip,
            Frame::Pong => FrameOutcome::Skip,
            Frame::Close => FrameOutcome::Closed,
            Frame::Fragment(b) => {
                self.gather(&b);
                FrameOutcome::Skip
            },
            Frame::LastFragment(b) => {
                self.gather(&b);
                let mut whole: Vec<u8> = Vec::new();
                std::mem::swap(&mut self.fragments, &mut whole);
                self.read_bytes(parser, whole.as_slice())
            },
        }
    }

    fn gather(&mut self, bytes: &Vec<u8>)
        ensures
            final(self)@ == (ExchangeView { fragments: old(self)@.fragments + bytes@, ..old(self)@ }),
    {
        let mut i: usize = 0;
        while i < bytes.len()
            invariant
                i <= bytes@.len(),
                self@ == (ExchangeView { fragments: old(self)@.fragments + bytes@.take(i as int), ..old(self)@ }),
            decreases bytes@.len() - i,
        {
            self.fragments.push(bytes[i]);
            proof {
                assert(old(self)@.fragments + bytes@.take(i + 1) =~= old(self)@.fragments + bytes@.take(i as int) + seq![bytes@[i as int]]);
                assert(self@.fragments =~= old(self)@.fragments + bytes@.take(i + 1));
                assert(self@.pairs == old(self)@.pairs);
            }
            i = i + 1;
        }
        proof {
            assert(bytes@.take(i as int) =~= bytes@);
        }
    }
}

proof fn lemma_pair_frames_prefix_none(ts: Seq<Seq<char>>, ps: Seq<Seq<char>>, i: int)
    requires
        0 <= i <= ps.len(),
        pair_frames(ts, ps.take(i)) is None,
    ensures
        pair_frames(ts, ps) is None,
        pair_frames_error(ts, ps) == pair_frames_error(ts, ps.take(i)),
    decreases ps.len() - i,
{
    if i < ps.len() {
        assert(ps.take(i + 1).drop_last() =~= ps.take(i));
        lemma_pair_frames_prefix_none(ts, ps, i + 1);
    } else {
        assert(ps.take(i) =~= ps);
    }
}

} // verus!
