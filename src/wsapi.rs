//! The streaming venue registry: per venue, where to connect, what to send
//! to subscribe, and which dialect its frames speak.
use crate::json::{is_digit, same_text};
use vstd::prelude::*;

verus! {

/// The frame dialect of a venue.
#[derive(Clone, Copy, Debug, PartialEq, Eq, Structural)]
pub enum ParserKind {
    Binance,
    Bitstamp,
    Kraken,
}

/// Why a registry lookup or a rendering failed.
#[derive(Clone, Debug, PartialEq)]
pub enum ApiError {
    /// No venue of this name is registered.
    NotSupported(String),
    /// A template has a brace that is neither `{{`, `}}` nor `{}`.
    MalformedTemplate,
    /// formatx rejected the template or left a placeholder unfilled.
    Render,
    /// The venue's REST adapter has no implementation.
    NotImplemented,
}

/// A streaming venue.
#[derive(Clone, Debug)]
pub struct Api {
    pub endpoint: String,
    /// Subscribe frames, with placeholders for the pair and the depth.
    pub subscribe_template: Vec<String>,
    pub parser: ParserKind,
    /// Whether `endpoint` itself takes the comma-joined pairs (and no
    /// subscribe frame is sent).
    pub render_url: bool,
    /// Seconds between keepalives and the payload to send; `None` means none.
    pub heartbeat: Option<(u64, String)>,
}

pub struct ApiView {
    pub endpoint: Seq<char>,
    pub subscribe_template: Seq<Seq<char>>,
    pub parser: ParserKind,
    pub render_url: bool,
    pub heartbeat: Option<(u64, Seq<char>)>,
}

impl View for Api {
    type V = ApiView;

    open spec fn view(&self) -> ApiView {
        ApiView {
            endpoint: self.endpoint@,
            subscribe_template: self.subscribe_template@.map_values(|t: String| t@),
            parser: self.parser,
            render_url: self.render_url,
            heartbeat: match self.heartbeat {
                Some((s, p)) => Some((s, p@)),
                None => None,
            },
        }
    }
}

pub open spec fn streaming_venue(endpoint: Seq<char>, templates: Seq<Seq<char>>, parser: ParserKind) -> ApiView {
    ApiView { endpoint, subscribe_template: templates, parser, render_url: false, heartbeat: None }
}

/// The registered streaming venues.
pub open spec fn ws_entry(name: Seq<char>) -> Option<ApiView> {
    if name == "binance"@ {
        Some(
            streaming_venue(
                "wss://stream.binance.com:9443/ws"@,
                seq![
                    r#"{{"id": 1, "method": "SUBSCRIBE", "params": ["{}@depth{}@100ms"]}}"#@,
                    r#"{{"id": 2, "method": "SUBSCRIBE", "params": ["{}@ticker"]}}"#@,
                ],
                ParserKind::Binance,
            ),
        )
    } else if name == "binance_futures"@ {
        Some(
            streaming_venue(
                "wss://fstream.binance.com:9443/ws"@,
                seq![r#"{{"id":1, "method":"SUBSCRIBE", "params": ["{}@depth{}@100ms"]}}"#@],
                ParserKind::Binance,
            ),
        )
    } else if name == "bitstamp"@ {
        Some(
            streaming_venue(
                "wss://ws.bitstamp.net"@,
                seq![r#"{{"event":"bts:subscribe","data":{{"channel":"order_book_{}"}}}}"#@],
                ParserKind::Bitstamp,
            ),
        )
    } else if name == "kraken"@ {
        Some(
            streaming_venue(
                "wss://ws.kraken.com"@,
                seq![
                    r#"{{"event":"subscribe","pair":["{}"], "subscription": {{"name":"book","depth":25}}}}"#@,
                    r#"{{"event":"subscribe","pair":["{}"], "subscription": {{"name":"ticker"}}}}"#@,
                ],
                ParserKind::Kraken,
            ),
        )
    } else {
        None
    }
}

fn streaming(endpoint: &str, templates: Vec<String>, parser: ParserKind) -> (r: Api)
    ensures
        r@ == streaming_venue(endpoint@, templates@.map_values(|t: String| t@), parser),
{
    Api { endpoint: endpoint.to_owned(), subscribe_template: templates, parser, render_url: false, heartbeat: None }
}

/// Look up a streaming venue by name.
pub fn ws(name: &str) -> (r: Result<Api, ApiError>)
    ensures
        match r {
            Ok(api) => ws_entry(name@) == Some(api@),
            Err(e) => ws_entry(name@) is None && (e matches ApiError::NotSupported(n) && n@ == name@),
        },
{
    let mut t: Vec<String> = Vec::new();
    if same_text(name, "binance") {
        t.push(r#"{{"id": 1, "method": "SUBSCRIBE", "params": ["{}@depth{}@100ms"]}}"#.to_owned());
        t.push(r#"{{"id": 2, "method": "SUBSCRIBE", "params": ["{}@ticker"]}}"#.to_owned());
        let r = streaming("wss://stream.binance.com:9443/ws", t, ParserKind::Binance);
        proof {
            assert(r@.subscribe_template =~= ws_entry(name@).unwrap().subscribe_template);
        }
        Ok(r)
    } else if same_text(name, "binance_futures") {
        t.push(r#"{{"id":1, "method":"SUBSCRIBE", "params": ["{}@depth{}@100ms"]}}"#.to_owned());
        let r = streaming("wss://fstream.binance.com:9443/ws", t, ParserKind::Binance);
        proof {
            assert(r@.subscribe_template =~= ws_entry(name@).unwrap().subscribe_template);
        }
        Ok(r)
    } else if same_text(name, "bitstamp") {
        t.push(r#"{{"event":"bts:subscribe","data":{{"channel":"order_book_{}"}}}}"#.to_owned());
        let r = streaming("wss://ws.bitstamp.net", t, ParserKind::Bitstamp);
        proof {
            assert(r@.subscribe_template =~= ws_entry(name@).unwrap().subscribe_template);
        }
        Ok(r)
    } else if same_text(name, "kraken") {
        t.push(r#"{{"event":"subscribe","pair":["{}"], "subscription": {{"name":"book","depth":25}}}}"#.to_owned());
        t.push(r#"{{"event":"subscribe","pair":["{}"], "subscription": {{"name":"ticker"}}}}"#.to_owned());
        let r = streaming("wss://ws.kraken.com", t, ParserKind::Kraken);
        proof {
            assert(r@.subscribe_template =~= ws_entry(name@).unwrap().subscribe_template);
        }
        Ok(r)
    } else {
        Err(ApiError::NotSupported(name.to_owned()))
    }
}

/// A brace read at the front of a template: an escape (`{{`, `}}`), an
/// implicit placeholder `{}`, or an explicit one `{d}` with a single digit.
pub open spec fn is_escape(t: Seq<char>) -> bool {
    t.len() >= 2 && ((t[0] == '{' && t[1] == '{') || (t[0] == '}' && t[1] == '}'))
}

pub open spec fn is_implicit(t: Seq<char>) -> bool {
    t.len() >= 2 && t[0] == '{' && t[1] == '}'
}

pub open spec fn is_explicit(t: Seq<char>) -> bool {
    t.len() >= 3 && t[0] == '{' && is_digit(t[1]) && t[2] == '}'
}

/// Every brace of the template, read left to right, is an escape or a placeholder.
pub open spec fn well_braced(t: Seq<char>) -> bool
    decreases t.len(),
{
    if t.len() == 0 {
        true
    } else if is_escape(t) || is_implicit(t) {
        well_braced(t.skip(2))
    } else if is_explicit(t) {
        well_braced(t.skip(3))
    } else if t[0] == '{' || t[0] == '}' {
        false
    } else {
        well_braced(t.skip(1))
    }
}

/// The template has a `{}` placeholder (read as in `well_braced`).
pub open spec fn has_implicit(t: Seq<char>) -> bool
    decreases t.len(),
{
    if t.len() == 0 {
        false
    } else if is_implicit(t) {
        true
    } else if is_escape(t) {
        has_implicit(t.skip(2))
    } else if is_explicit(t) {
        has_implicit(t.skip(3))
    } else {
        has_implicit(t.skip(1))
    }
}

/// The template has a `{d}` placeholder (read as in `well_braced`).
pub open spec fn has_explicit(t: Seq<char>) -> bool
    decreases t.len(),
{
    if t.len() == 0 {
        false
    } else if is_explicit(t) {
        true
    } else if is_escape(t) || is_implicit(t) {
        has_explicit(t.skip(2))
    } else {
        has_explicit(t.skip(1))
    }
}

/// A template whose braces are escapes and placeholders, with placeholders
/// either all `{}` (filled in order) or all `{d}` (filled by index), not both.
pub open spec fn plain_template(t: Seq<char>) -> bool {
    well_braced(t) && !(has_implicit(t) && has_explicit(t))
}

/// Whether a template is plain.
pub fn is_plain_template(t: &str) -> (r: bool)
    ensures
        r == plain_template(t@),
{
    let n = t.unicode_len();
    let mut i: usize = 0;
    let mut implicit = false;
    let mut explicit = false;
    proof {
        assert(t@.skip(0) =~= t@);
    }
    while i < n
        invariant
            n == t@.len(),
            i <= n,
            well_braced(t@) == well_braced(t@.skip(i as int)),
            has_implicit(t@) == (implicit || has_implicit(t@.skip(i as int))),
            has_explicit(t@) == (explicit || has_explicit(t@.skip(i as int))),
        decreases n - i,
    {
        let c = t.get_char(i);
        let ghost rest = t@.skip(i as int);
        proof {
            assert(rest[0] == c);
        }
        if c == '{' || c == '}' {
            if i + 1 >= n {
                return false;
            }
            let d = t.get_char(i + 1);
            proof {
                assert(rest[1] == d);
                assert(rest.skip(2) =~= t@.skip(i + 2));
            }
            if (c == '{' && d == '{') || (c == '}' && d == '}') {
                i = i + 2;
            } else if c == '{' && d == '}' {
                implicit = true;
                i = i + 2;
            } else if c == '{' && '0' <= d && d <= '9' && i + 2 < n && t.get_char(i + 2) == '}' {
                proof {
                    assert(rest[2] == t@[i + 2]);
                    assert(rest.skip(3) =~= t@.skip(i + 3));
                }
                explicit = true;
                i = i + 3;
            } else {
                proof {
                    if i + 2 < n {
                        assert(rest[2] == t@[i + 2]);
                    }
                }
                return false;
            }
        } else {
            proof {
                assert(rest.skip(1) =~= t@.skip(i + 1));
            }
            i = i + 1;
        }
    }
    proof {
        assert(t@.skip(i as int).len() == 0);
    }
    !(implicit && explicit)
}

/// No character of `s` is `c`.
pub open spec fn free_of(s: Seq<char>, c: char) -> bool {
    forall|i: int| 0 <= i < s.len() ==> s[i] != c
}

pub open spec fn digit_char(d: int) -> char {
    if d == 0 {
        '0'
    } else if d == 1 {
        '1'
    } else if d == 2 {
        '2'
    } else if d == 3 {
        '3'
    } else if d == 4 {
        '4'
    } else if d == 5 {
        '5'
    } else if d == 6 {
        '6'
    } else if d == 7 {
        '7'
    } else if d == 8 {
        '8'
    } else {
        '9'
    }
}

/// The decimal digits of `n`, as `Display` writes an unsigned integer.
pub open spec fn decimal_text(n: nat) -> Seq<char>
    decreases n,
{
    if n < 10 {
        seq![digit_char(n as int)]
    } else {
        decimal_text(n / 10).push(digit_char((n % 10) as int))
    }
}

/// A plain template with its `{{` and `}}` unescaped, each `{}` filled from
/// `args` in order starting at `next`, and each `{d}` filled with `args[d]`;
/// `None` where a placeholder has no argument.
pub open spec fn render_plain(t: Seq<char>, args: Seq<Seq<char>>, next: nat) -> Option<Seq<char>>
    decreases t.len(),
{
    if t.len() == 0 {
        Some(Seq::empty())
    } else if is_implicit(t) {
        if next < args.len() {
            match render_plain(t.skip(2), args, next + 1) {
                Some(rest) => Some(args[next as int] + rest),
                None => None,
            }
        } else {
            None
        }
    } else if is_escape(t) {
        match render_plain(t.skip(2), args, next) {
            Some(rest) => Some(seq![t[0]] + rest),
            None => None,
        }
    } else if is_explicit(t) {
        let d = t[1] as int - '0' as int;
        if d < args.len() {
            match render_plain(t.skip(3), args, next) {
                Some(rest) => Some(args[d] + rest),
                None => None,
            }
        } else {
            None
        }
    } else {
        match render_plain(t.skip(1), args, next) {
            Some(rest) => Some(seq![t[0]] + rest),
            None => None,
        }
    }
}

/// All templates are plain and render with `pair` and `level`.
pub open spec fn renders_all(templates: Seq<Seq<char>>, pair: Seq<char>, level: u32) -> bool {
    forall|i: int|
        0 <= i < templates.len() ==> plain_template(#[trigger] templates[i]) && render_plain(
            templates[i],
            seq![pair, decimal_text(level as nat)],
            0,
        ) is Some
}

/// Where formatx's result is plain substitution: a plain template, and no `=`
/// in the template or the value (formatx marks escaped braces with
/// `[curly=open]` and `[curly=close]` while it works, and an `=` is needed to
/// spell such a mark by accident) and no `{` in the value (so that a value
/// cannot hold the next placeholder).
pub open spec fn substitutes_plainly(template: Seq<char>, value: Seq<char>) -> bool {
    plain_template(template) && free_of(template, '=') && free_of(value, '=') && free_of(value, '{')
}

/// What formatx renders from a template whose two positional placeholders
/// take a pair and a depth (`None` where formatx reports an error).
pub uninterp spec fn formatx_pair_level(template: Seq<char>, pair: Seq<char>, level: u32) -> Option<Seq<char>>;

/// What formatx renders from a template whose one positional placeholder
/// takes `value` (`None` where formatx reports an error).
pub uninterp spec fn formatx_one(template: Seq<char>, value: Seq<char>) -> Option<Seq<char>>;

/// Relies on formatx's `Template::new`, `Template::replace_positional` (twice)
/// and `Template::text`, the calls the `formatx!` macro makes: the template
/// with `pair` and `level` put in its positional placeholders and its braces
/// unescaped. formatx may panic on templates with stray braces; plain ones
/// only are passed. Where `substitutes_plainly` holds, its result is plain
/// substitution (template.rs: escapes marked in `new`, placeholders numbered
/// and replaced by `Display` in `replace_positional`, marks unescaped in `text`).
/// Whatever the values, it succeeds exactly when every placeholder has a
/// value: `text` fails only on placeholders left unfilled, and `new` accepts
/// plain templates.
#[verifier::external_body]
fn render_pair_level(template: &str, pair: &str, level: u32) -> (r: Option<String>)
    requires
        plain_template(template@),
    ensures
        match r {
            Some(s) => formatx_pair_level(template@, pair@, level) == Some(s@) && (substitutes_plainly(
                template@,
                pair@,
            ) ==> render_plain(template@, seq![pair@, decimal_text(level as nat)], 0) == Some(s@))
                && render_plain(template@, seq![pair@, decimal_text(level as nat)], 0) is Some,
            None => formatx_pair_level(template@, pair@, level) is None && render_plain(
                template@,
                seq![pair@, decimal_text(level as nat)],
                0,
            ) is None,
        },
{
    let mut t = formatx::Template::new(template).ok()?;
    t.replace_positional(pair);
    t.replace_positional(level);
    t.text().ok()
}

/// Relies on formatx's `Template::new`, `Template::replace_positional` and
/// `Template::text`, as `formatx!(template, value)` makes them; plain
/// templates only; plain substitution where `substitutes_plainly` holds, and
/// success exactly when every placeholder has a value, as above.
#[verifier::external_body]
fn render_one(template: &str, value: &str) -> (r: Option<String>)
    requires
        plain_template(template@),
    ensures
        match r {
            Some(s) => formatx_one(template@, value@) == Some(s@) && (substitutes_plainly(template@, value@)
                ==> render_plain(template@, seq![value@], 0) == Some(s@)) && render_plain(
                template@,
                seq![value@],
                0,
            ) is Some,
            None => formatx_one(template@, value@) is None && render_plain(template@, seq![value@], 0) is None,
        },
{
    let mut t = formatx::Template::new(template).ok()?;
    t.replace_positional(value);
    t.text().ok()
}

/// Render a template with one value: `MalformedTemplate` for a template that
/// is not plain, `Render` where formatx fails.
pub fn render_with(template: &str, value: &str) -> (r: Result<String, ApiError>)
    ensures
        !plain_template(template@) ==> r == Err::<String, ApiError>(ApiError::MalformedTemplate),
        plain_template(template@) ==> match formatx_one(template@, value@) {
            Some(s) => r matches Ok(out) && out@ == s,
            None => r == Err::<String, ApiError>(ApiError::Render),
        },
        substitutes_plainly(template@, value@) ==> match render_plain(template@, seq![value@], 0) {
            Some(s) => (r matches Ok(out) && out@ == s),
            None => r == Err::<String, ApiError>(ApiError::Render),
        },
        plain_template(template@) ==> (r is Ok <==> render_plain(template@, seq![value@], 0) is Some),
{
    if !is_plain_template(template) {
        return Err(ApiError::MalformedTemplate);
    }
    match render_one(template, value) {
        Some(s) => Ok(s),
        None => Err(ApiError::Render),
    }
}

/// The subscribe frames for `pair` at depth `level`, one per template, in
/// template order; `None` where a template is not plain or formatx fails on it.
pub open spec fn subscribe_frames(templates: Seq<Seq<char>>, pair: Seq<char>, level: u32) -> Option<Seq<Seq<char>>>
    decreases templates.len(),
{
    if templates.len() == 0 {
        Some(Seq::empty())
    } else {
        match subscribe_frames(templates.drop_last(), pair, level) {
            None => None,
            Some(prev) => if !plain_template(templates.last()) {
                None
            } else {
                match formatx_pair_level(templates.last(), pair, level) {
                    Some(s) => Some(prev.push(s)),
                    None => None,
                }
            },
        }
    }
}

/// The first error among the templates, in order.
pub open spec fn subscribe_error(templates: Seq<Seq<char>>, pair: Seq<char>, level: u32) -> ApiError
    decreases templates.len(),
{
    if templates.len() == 0 {
        ApiError::Render
    } else if subscribe_frames(templates.drop_last(), pair, level) is None {
        subscribe_error(templates.drop_last(), pair, level)
    } else if !plain_template(templates.last()) {
        ApiError::MalformedTemplate
    } else {
        ApiError::Render
    }
}

impl Api {
    /// The subscribe frames for one pair, one per template, in order.
    pub fn subscribe_text(&self, pair: &str, level: u32) -> (r: Result<Vec<String>, ApiError>)
        ensures
            match subscribe_frames(self@.subscribe_template, pair@, level) {
                Some(frames) => r matches Ok(v) && v@.map_values(|s: String| s@) == frames,
                None => r == Err::<Vec<String>, ApiError>(
                    subscribe_error(self@.subscribe_template, pair@, level),
                ),
            },
            r matches Ok(v) ==> forall|i: int|
                0 <= i < v@.len() && substitutes_plainly(self@.subscribe_template[i], pair@) ==> render_plain(
                    self@.subscribe_template[i],
                    seq![pair@, decimal_text(level as nat)],
                    0,
                ) == Some(#[trigger] v@[i]@),
            renders_all(self@.subscribe_template, pair@, level) ==> r is Ok,
    {
        let ghost ts = self@.subscribe_template;
        let mut result: Vec<String> = Vec::new();
        let mut i: usize = 0;
        proof {
            assert(ts.take(0) =~= Seq::<Seq<char>>::empty());
            assert(result@.map_values(|s: String| s@) =~= Seq::<Seq<char>>::empty());
        }
        while i < self.subscribe_template.len()
            invariant
                ts == self@.subscribe_template,
                i <= ts.len(),
                ts.len() == self.subscribe_template@.len(),
                subscribe_frames(ts.take(i as int), pair@, level) == Some(result@.map_values(|s: String| s@)),
                result@.len() == i,
                forall|j: int|
                    0 <= j < result@.len() && substitutes_plainly(ts[j], pair@) ==> render_plain(
                        ts[j],
                        seq![pair@, decimal_text(level as nat)],
                        0,
                    ) == Some(#[trigger] result@[j]@),
            decreases ts.len() - i,
        {
            let template = self.subscribe_template[i].as_str();
            proof {
                assert(ts.take(i + 1).drop_last() =~= ts.take(i as int));
                assert(ts.take(i + 1).last() == template@);
            }
            if !is_plain_template(template) {
                proof {
                    lemma_frames_prefix_none(ts, pair@, level, i + 1);
                    assert(ts[i as int] == template@);
                }
                return Err(ApiError::MalformedTemplate);
            }
            match render_pair_level(template, pair, level) {
                Some(s) => {
                    let ghost before = result@;
                    result.push(s);
                    proof {
                        assert(result@.map_values(|s: String| s@) =~= before.map_values(|s: String| s@).push(s@));
                        assert(ts[i as int] == template@);
                        assert(result@[i as int] == s);
                    }
                },
                None => {
                    proof {
                        lemma_frames_prefix_none(ts, pair@, level, i + 1);
                        assert(ts[i as int] == template@);
                    }
                    return Err(ApiError::Render);
                },
            }
            i = i + 1;
        }
        proof {
            assert(ts.take(i as int) =~= ts);
        }
        Ok(result)
    }
}

/// Once a prefix of the templates fails, all of them fail, with the prefix's error.
proof fn lemma_frames_prefix_none(ts: Seq<Seq<char>>, pair: Seq<char>, level: u32, i: int)
    requires
        0 <= i <= ts.len(),
        subscribe_frames(ts.take(i), pair, level) is None,
    ensures
        subscribe_frames(ts, pair, level) is None,
        subscribe_error(ts, pair, level) == subscribe_error(ts.take(i), pair, level),
    decreases ts.len() - i,
{
    if i < ts.len() {
        assert(ts.take(i + 1).drop_last() =~= ts.take(i));
        lemma_frames_prefix_none(ts, pair, level, i + 1);
    } else {
        assert(ts.take(i) =~= ts);
    }
}

} // verus!
