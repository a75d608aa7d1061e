//! Continuous export of profiles to a Pyroscope server.
//!
//! What is pushed, and when, is decided here; the request is sent elsewhere.

use crate::cli::Args;
use crate::clock;
use crate::pprof;
use crate::pprof::{PprofBuilder, Profile};
use crate::text;
use crate::zend;
use crate::zend::{Frame, FrameView};
use vstd::prelude::*;
use vstd::slice::slice_subrange;

verus! {

// Configuration

pub struct PyroscopeConfig {
    /// The server, e.g. `http://pyroscope:4040`, without a slash at the end.
    pub url: String,
    /// The application name, with the labels in braces if there are any.
    pub name: String,
    pub auth_token: Option<String>,
    pub tenant_id: Option<String>,
    /// Further request headers, set after the others.
    pub headers: Vec<(String, String)>,
    pub push_interval_secs: u64,
}

/// What pairs of strings say.
pub open spec fn pairs(list: Seq<(String, String)>) -> Seq<(Seq<char>, Seq<char>)> {
    Seq::new(list.len(), |i: int| (list[i].0@, list[i].1@))
}

/// The header that a line gives: what stands before the first colon and what
/// stands after it, without white space around either.
pub open spec fn header_of(line: Seq<char>) -> Option<(Seq<char>, Seq<char>)> {
    let colon = text::find_char(line, ':');
    if colon >= line.len() {
        None
    } else {
        Some((text::trimmed(line.take(colon)), text::trimmed(line.skip(colon + 1))))
    }
}

/// The headers that lines give, or the first line that gives none. Blank lines
/// are passed over.
pub open spec fn headers_of(lines: Seq<Seq<char>>) -> Result<
    Seq<(Seq<char>, Seq<char>)>,
    Seq<char>,
>
    decreases lines.len(),
{
    if lines.len() == 0 {
        Ok(Seq::empty())
    } else {
        match headers_of(lines.drop_last()) {
            Err(line) => Err(line),
            Ok(before) => if text::trimmed(lines.last()).len() == 0 {
                Ok(before)
            } else {
                match header_of(lines.last()) {
                    None => Err(lines.last()),
                    Some(h) => Ok(before.push(h)),
                }
            },
        }
    }
}

/// The lines of texts, one text after the other.
pub open spec fn all_lines(given: Seq<Seq<char>>) -> Seq<Seq<char>>
    decreases given.len(),
{
    if given.len() == 0 {
        Seq::empty()
    } else {
        all_lines(given.drop_last()) + text::lines(given.last())
    }
}

fn parse_header(line: &[char]) -> (r: Option<(String, String)>)
    ensures
        match r {
            Some(h) => header_of(line@) == Some((h.0@, h.1@)),
            None => header_of(line@) is None,
        },
{
    let colon = text::index_of(line, ':');
    if colon >= line.len() {
        return None;
    }
    let head = slice_subrange(line, 0, colon);
    let tail = slice_subrange(line, colon + 1, line.len());
    assert(head@ == line@.take(colon as int));
    assert(tail@ == line@.skip(colon + 1));
    Some((text::string_of(text::trim(head)), text::string_of(text::trim(tail))))
}

/// Once a line gives no header, more lines change nothing.
proof fn lemma_headers_prefix(lines: Seq<Seq<char>>, n: int)
    requires
        0 <= n <= lines.len(),
    ensures
        headers_of(lines.take(n)) matches Err(line) ==> headers_of(lines) == Err::<
            Seq<(Seq<char>, Seq<char>)>,
            Seq<char>,
        >(line),
    decreases lines.len(),
{
    if n < lines.len() {
        assert(lines.drop_last().take(n) =~= lines.take(n));
        lemma_headers_prefix(lines.drop_last(), n);
    } else {
        assert(lines.take(n) =~= lines);
    }
}

proof fn lemma_all_lines_prefix(given: Seq<Seq<char>>, n: int)
    requires
        0 <= n <= given.len(),
    ensures
        all_lines(given.take(n)).is_prefix_of(all_lines(given)),
    decreases given.len(),
{
    if n < given.len() {
        assert(given.drop_last().take(n) =~= given.take(n));
        lemma_all_lines_prefix(given.drop_last(), n);
    } else {
        assert(given.take(n) =~= given);
    }
}

/// Parses request headers, each `Name: value`, one to a line.
pub fn parse_headers(given: &[String]) -> (r: Result<Vec<(String, String)>, String>)
    ensures
        match r {
            Ok(headers) => headers_of(all_lines(text::strings(given@))) == Ok::<
                Seq<(Seq<char>, Seq<char>)>,
                Seq<char>,
            >(pairs(headers@)),
            Err(line) => headers_of(all_lines(text::strings(given@))) == Err::<
                Seq<(Seq<char>, Seq<char>)>,
                Seq<char>,
            >(line@),
        },
{
    let ghost view = text::strings(given@);
    let ghost every = all_lines(view);
    let mut out: Vec<(String, String)> = Vec::new();
    assert(pairs(out@) =~= Seq::<(Seq<char>, Seq<char>)>::empty());
    for i in 0..given.len()
        invariant
            view == text::strings(given@),
            every == all_lines(view),
            headers_of(all_lines(view.take(i as int))) == Ok::<
                Seq<(Seq<char>, Seq<char>)>,
                Seq<char>,
            >(pairs(out@)),
    {
        let chars = text::chars_of(given[i].as_str());
        let lines = text::split_lines(chars.as_slice());
        let ghost before = all_lines(view.take(i as int));
        let ghost these = text::texts(lines@);
        let ghost upto = all_lines(view.take(i + 1));
        proof {
            assert(view.take(i + 1).drop_last() =~= view.take(i as int));
            assert(view.take(i + 1).last() == given@[i as int]@);
            assert(upto =~= before + these);
            assert(before + these.take(0) =~= before);
        }
        for j in 0..lines.len()
            invariant
                these == text::texts(lines@),
                upto == before + these,
                every == all_lines(view),
                0 <= i < given@.len(),
                view == text::strings(given@),
                upto == all_lines(view.take(i + 1)),
                headers_of(before + these.take(j as int)) == Ok::<
                    Seq<(Seq<char>, Seq<char>)>,
                    Seq<char>,
                >(pairs(out@)),
        {
            let ghost now = before + these.take(j + 1);
            proof {
                assert(now.drop_last() =~= before + these.take(j as int));
                assert(now.last() == lines@[j as int]@);
            }
            let line = lines[j];
            if text::trim(line).len() > 0 {
                match parse_header(line) {
                    Some(h) => {
                        let ghost old_out = out@;
                        out.push(h);
                        assert(pairs(out@) =~= pairs(old_out).push((h.0@, h.1@)));
                    },
                    None => {
                        proof {
                            assert(headers_of(now) == Err::<
                                Seq<(Seq<char>, Seq<char>)>,
                                Seq<char>,
                            >(line@));
                            lemma_all_lines_prefix(view, i + 1);
                            let n = before.len() + j + 1;
                            assert(every.take(n) =~= now);
                            lemma_headers_prefix(every, n);
                        }
                        return Err(text::string_of(line));
                    },
                }
            }
        }
        assert(before + these.take(lines@.len() as int) =~= upto);
    }
    assert(view.take(given@.len() as int) =~= view);
    Ok(out)
}

/// The name of the series: the application, with the labels in braces.
pub open spec fn series_name(app: Seq<char>, labels: Seq<Seq<char>>) -> Seq<char> {
    if labels.len() == 0 {
        app
    } else {
        app + "{"@ + text::joined(labels, ","@) + "}"@
    }
}

/// Whether a configuration is the one that the command line asks for.
pub open spec fn configured(args: Args, cfg: PyroscopeConfig) -> bool {
    &&& cfg.url@ == (match args.pyroscope_url {
        Some(url) => text::without_trailing(url@, '/'),
        None => Seq::empty(),
    })
    &&& cfg.name@ == series_name(args.pyroscope_app@, text::strings(args.pyroscope_label@))
    &&& text::opt_string(cfg.auth_token) == text::opt_string(args.pyroscope_auth_token)
    &&& text::opt_string(cfg.tenant_id) == text::opt_string(args.pyroscope_tenant_id)
    &&& headers_of(all_lines(text::strings(args.pyroscope_header@))) == Ok::<
        Seq<(Seq<char>, Seq<char>)>,
        Seq<char>,
    >(pairs(cfg.headers@))
    &&& cfg.push_interval_secs == if args.push_interval_secs == 0 {
        1
    } else {
        args.push_interval_secs
    }
}

/// The configuration that the command line asks for, or the first header that
/// is none.
pub fn pyroscope_config(args: &Args) -> (r: Result<PyroscopeConfig, String>)
    ensures
        match r {
            Ok(cfg) => configured(*args, cfg),
            Err(line) => headers_of(all_lines(text::strings(args.pyroscope_header@))) == Err::<
                Seq<(Seq<char>, Seq<char>)>,
                Seq<char>,
            >(line@),
        },
{
    let headers = match parse_headers(args.pyroscope_header.as_slice()) {
        Ok(h) => h,
        Err(line) => return Err(line),
    };
    let mut name: String = args.pyroscope_app.clone();
    if args.pyroscope_label.len() > 0 {
        let labels = text::join(&args.pyroscope_label, ",");
        name.append("{");
        name.append(labels.as_str());
        name.append("}");
    }
    assert(name@ =~= series_name(args.pyroscope_app@, text::strings(args.pyroscope_label@)));
    let url: String = match &args.pyroscope_url {
        Some(url) => {
            let chars = text::chars_of(url.as_str());
            text::string_of(text::trim_trailing(chars.as_slice(), '/'))
        },
        None => String::new(),
    };
    assert(args.pyroscope_url is None ==> url@ =~= Seq::<char>::empty());
    Ok(
        PyroscopeConfig {
            url,
            name,
            auth_token: text::copied(&args.pyroscope_auth_token),
            tenant_id: text::copied(&args.pyroscope_tenant_id),
            headers,
            push_interval_secs: if args.push_interval_secs == 0 {
                1
            } else {
                args.push_interval_secs
            },
        },
    )
}

// Requests

/// A profile on its way to the server: a POST to `url`, with the query
/// parameters and the headers set in this order, so that a later header
/// overrides an earlier one.
pub struct PushRequest {
    pub url: String,
    pub query: Vec<(String, String)>,
    pub headers: Vec<(String, String)>,
    pub body: Vec<u8>,
}

/// What a [`PushRequest`] says.
#[verifier::ext_equal]
pub ghost struct RequestView {
    pub url: Seq<char>,
    pub query: Seq<(Seq<char>, Seq<char>)>,
    pub headers: Seq<(Seq<char>, Seq<char>)>,
    pub body: Seq<u8>,
}

impl View for PushRequest {
    type V = RequestView;

    open spec fn view(&self) -> RequestView {
        RequestView {
            url: self.url@,
            query: pairs(self.query@),
            headers: pairs(self.headers@),
            body: self.body@,
        }
    }
}

/// Whole seconds of a time in nanoseconds, rounded towards zero.
pub open spec fn seconds(nanos: i64) -> int {
    if nanos < 0 {
        -((-nanos) / 1_000_000_000)
    } else {
        nanos as int / 1_000_000_000
    }
}

fn seconds_text(nanos: i64) -> (r: String)
    ensures
        r@ == text::signed_decimal(seconds(nanos)),
{
    let mut out = String::new();
    if nanos < 0 {
        let n: u64 = ((0 - nanos as i128) / 1_000_000_000) as u64;
        if n > 0 {
            out.push('-');
        }
        text::push_decimal(&mut out, n);
    } else {
        text::push_decimal(&mut out, nanos as u64 / 1_000_000_000);
    }
    assert(out@ =~= text::signed_decimal(seconds(nanos)));
    out
}

/// The query parameters of a push.
pub open spec fn push_query(name: Seq<char>, from: i64, until: i64) -> Seq<
    (Seq<char>, Seq<char>),
> {
    seq![
        ("name"@, name),
        ("from"@, text::signed_decimal(seconds(from))),
        ("until"@, text::signed_decimal(seconds(until))),
        ("format"@, "pprof"@),
        ("spyName"@, "pfp"@),
    ]
}

/// The headers that a push has by itself: what the body is, the token and the
/// tenant, as far as they are given.
pub open spec fn built_in_headers(
    auth_token: Option<Seq<char>>,
    tenant_id: Option<Seq<char>>,
) -> Seq<(Seq<char>, Seq<char>)> {
    let content = seq![("Content-Type"@, "application/octet-stream"@)];
    let auth = match auth_token {
        Some(token) => content.push(("Authorization"@, "Bearer "@ + token)),
        None => content,
    };
    match tenant_id {
        Some(tenant) => auth.push(("X-Scope-OrgID"@, tenant)),
        None => auth,
    }
}

/// The push of a window.
pub open spec fn push_request(
    cfg: PyroscopeConfig,
    body: Seq<u8>,
    from: i64,
    until: i64,
) -> RequestView {
    RequestView {
        url: cfg.url@ + "/ingest"@,
        query: push_query(cfg.name@, from, until),
        headers: built_in_headers(
            text::opt_string(cfg.auth_token),
            text::opt_string(cfg.tenant_id),
        ) + pairs(cfg.headers@),
        body,
    }
}

fn pair(name: &str, value: &str) -> (r: (String, String))
    ensures
        r.0@ == name@,
        r.1@ == value@,
{
    (name.to_string(), value.to_string())
}

/// Makes the push of a window out of its gzipped profile.
pub fn make_request(cfg: &PyroscopeConfig, body: Vec<u8>, from: i64, until: i64) -> (r: PushRequest)
    ensures
        r@ == push_request(*cfg, body@, from, until),
{
    let mut url: String = cfg.url.clone();
    url.append("/ingest");
    let mut query: Vec<(String, String)> = Vec::new();
    query.push(pair("name", cfg.name.as_str()));
    query.push(pair("from", seconds_text(from).as_str()));
    query.push(pair("until", seconds_text(until).as_str()));
    query.push(pair("format", "pprof"));
    query.push(pair("spyName", "pfp"));
    assert(pairs(query@) =~= push_query(cfg.name@, from, until));
    let mut headers: Vec<(String, String)> = Vec::new();
    headers.push(pair("Content-Type", "application/octet-stream"));
    if let Some(token) = &cfg.auth_token {
        let mut bearer = String::new();
        bearer.append("Bearer ");
        bearer.append(token.as_str());
        assert(bearer@ =~= "Bearer "@ + token@);
        headers.push(pair("Authorization", bearer.as_str()));
    }
    if let Some(tenant) = &cfg.tenant_id {
        headers.push(pair("X-Scope-OrgID", tenant.as_str()));
    }
    let ghost built_in = built_in_headers(
        text::opt_string(cfg.auth_token),
        text::opt_string(cfg.tenant_id),
    );
    assert(pairs(headers@) =~= built_in);
    let ghost given = pairs(cfg.headers@);
    assert(built_in + given.take(0) =~= built_in);
    for i in 0..cfg.headers.len()
        invariant
            given == pairs(cfg.headers@),
            pairs(headers@) == built_in + given.take(i as int),
    {
        let ghost before = headers@;
        let h = pair(cfg.headers[i].0.as_str(), cfg.headers[i].1.as_str());
        headers.push(h);
        proof {
            assert(pairs(headers@) =~= pairs(before).push((h.0@, h.1@)));
            assert(built_in + given.take(i + 1) =~= (built_in + given.take(i as int)).push(
                given[i as int],
            ));
        }
    }
    assert(given.take(given.len() as int) =~= given);
    let r = PushRequest { url, query, headers, body };
    assert(r@ =~= push_request(*cfg, body@, from, until));
    r
}

// The sink

/// What is to be done after a sample or at the end.
pub enum Push {
    /// Nothing is to be sent.
    Nothing,
    /// A window was to be sent, but it could not be compressed.
    Failed,
    /// This is to be sent.
    Send(PushRequest),
}

/// What pushing a window gives.
pub open spec fn pushed_window(
    cfg: PyroscopeConfig,
    profile: Profile,
    from: i64,
    until: i64,
) -> Option<Option<RequestView>> {
    if profile.stacks.len() == 0 {
        None
    } else {
        match pprof::gzipped(pprof::window_bytes(profile, from, until)) {
            Some(body) => Some(Some(push_request(cfg, body, from, until))),
            None => Some(None),
        }
    }
}

/// What a [`Push`] says: whether a window was taken, and the request.
pub open spec fn push_view(push: Push) -> Option<Option<RequestView>> {
    match push {
        Push::Nothing => None,
        Push::Failed => Some(None),
        Push::Send(r) => Some(Some(r@)),
    }
}

/// Aggregates samples, and pushes them to the server window by window. Times of
/// the clock are in nanoseconds from any fixed instant on.
pub struct PyroscopeSink {
    pub cfg: PyroscopeConfig,
    pub builder: PprofBuilder,
    /// When the last push was made, by the clock.
    pub last_push: u64,
}

/// What a [`PyroscopeSink`] has taken.
#[verifier::ext_equal]
pub ghost struct PushState {
    pub profile: Profile,
    /// When the window started, in nanoseconds since the Unix epoch.
    pub started: i64,
    pub last_push: u64,
}

/// What a sink has taken after a window has ended. An empty one goes on instead.
pub open spec fn after_push(state: PushState, clock: u64, now_nanos: i64) -> PushState {
    if state.profile.stacks.len() == 0 {
        PushState { last_push: clock, ..state }
    } else {
        PushState { profile: pprof::empty_profile(), started: now_nanos, last_push: clock }
    }
}

/// A sink's state with a sample taken.
pub open spec fn with_sample(state: PushState, frames: Seq<FrameView>) -> PushState {
    PushState { profile: pprof::with_stack(state.profile, frames), ..state }
}

/// What a sink pushes after a sample: the window, if a push is due.
pub open spec fn pushed_after_sample(
    cfg: PyroscopeConfig,
    state: PushState,
    frames: Seq<FrameView>,
    clock: u64,
    now_nanos: i64,
) -> Option<Option<RequestView>> {
    if clock::due(state.last_push, clock, cfg.push_interval_secs) {
        pushed_window(cfg, with_sample(state, frames).profile, state.started, now_nanos)
    } else {
        None
    }
}

/// What a sink has taken after a sample.
pub open spec fn state_after_sample(
    cfg: PyroscopeConfig,
    state: PushState,
    frames: Seq<FrameView>,
    clock: u64,
    now_nanos: i64,
) -> PushState {
    if clock::due(state.last_push, clock, cfg.push_interval_secs) {
        after_push(with_sample(state, frames), clock, now_nanos)
    } else {
        with_sample(state, frames)
    }
}

impl PyroscopeSink {
    /// What the sink has taken.
    pub open spec fn state(&self) -> PushState {
        PushState {
            profile: self.builder@,
            started: self.builder.started(),
            last_push: self.last_push,
        }
    }

    pub fn new(cfg: PyroscopeConfig, clock: u64, now_nanos: i64) -> (r: Self)
        ensures
            r.cfg == cfg,
            r.state() == (PushState {
                profile: pprof::empty_profile(),
                started: now_nanos,
                last_push: clock,
            }),
    {
        PyroscopeSink { cfg, builder: PprofBuilder::new(now_nanos), last_push: clock }
    }

    fn push(&mut self, clock: u64, now_nanos: i64) -> (r: Push)
        ensures
            push_view(r) == pushed_window(
                old(self).cfg,
                old(self).state().profile,
                old(self).state().started,
                now_nanos,
            ),
            final(self).cfg == old(self).cfg,
            final(self).state() == after_push(old(self).state(), clock, now_nanos),
    {
        self.last_push = clock;
        if self.builder.is_empty() {
            return Push::Nothing;
        }
        match self.builder.take_gzipped(now_nanos) {
            Some((body, from, until)) => Push::Send(make_request(&self.cfg, body, from, until)),
            None => Push::Failed,
        }
    }

    /// Takes a sample. Returns the window to push, if one is due.
    pub fn write_sample(&mut self, frames: &[Frame], clock: u64, now_nanos: i64) -> (r: Push)
        ensures
            push_view(r) == pushed_after_sample(
                old(self).cfg,
                old(self).state(),
                zend::frames_view(frames@),
                clock,
                now_nanos,
            ),
            final(self).cfg == old(self).cfg,
            final(self).state() == state_after_sample(
                old(self).cfg,
                old(self).state(),
                zend::frames_view(frames@),
                clock,
                now_nanos,
            ),
            pprof::valid(final(self).state().profile),
            pprof::fits(final(self).state().profile),
    {
        self.builder.add(frames);
        if clock::is_due(self.last_push, clock, self.cfg.push_interval_secs) {
            self.push(clock, now_nanos)
        } else {
            Push::Nothing
        }
    }

    /// Notes that a push has been sent: the next one is due an interval after
    /// that.
    pub fn sent(&mut self, clock: u64)
        ensures
            final(self).cfg == old(self).cfg,
            final(self).state() == (PushState { last_push: clock, ..old(self).state() }),
    {
        self.last_push = clock;
    }

    /// Ends the export. Returns the last window, if it has samples.
    pub fn finish(&mut self, clock: u64, now_nanos: i64) -> (r: Push)
        ensures
            push_view(r) == pushed_window(
                old(self).cfg,
                old(self).state().profile,
                old(self).state().started,
                now_nanos,
            ),
            final(self).cfg == old(self).cfg,
            final(self).state() == after_push(old(self).state(), clock, now_nanos),
    {
        self.push(clock, now_nanos)
    }
}

/// When a push is due after a sample, a window is taken: it is sent unless it
/// cannot be compressed, and no sample is left behind.
pub proof fn lemma_due_push_takes_all(
    cfg: PyroscopeConfig,
    state: PushState,
    frames: Seq<FrameView>,
    clock: u64,
    now_nanos: i64,
)
    requires
        clock::due(state.last_push, clock, cfg.push_interval_secs),
    ensures
        pushed_after_sample(cfg, state, frames, clock, now_nanos) is Some,
        state_after_sample(cfg, state, frames, clock, now_nanos).profile == pprof::empty_profile(),
{
    pprof::lemma_stack_not_empty(state.profile, frames);
}

} // verus!
