//! What is pushed to a server, and when.

use crate::cli::Args;
use crate::clock;
use crate::laws::texts;
use crate::pprof;
use crate::pyroscope;
use crate::pyroscope::{PushState, PyroscopeConfig, RequestView};
use crate::text;
use crate::zend::FrameView;
use vstd::prelude::*;

verus! {

// Headers

proof fn lemma_header_names()
    ensures
        "Content-Type"@ != "Authorization"@,
        "Content-Type"@ != "X-Scope-OrgID"@,
        "Authorization"@ != "X-Scope-OrgID"@,
{
    reveal_strlit("Content-Type");
    reveal_strlit("Authorization");
    reveal_strlit("X-Scope-OrgID");
    assert("Content-Type"@[0] == 'C');
    assert("Authorization"@[0] == 'A');
    assert("X-Scope-OrgID"@[0] == 'X');
}

/// A push says by itself what its body is; the tenant exactly where there is one,
/// and the token exactly where there is one, each whether or not there is the
/// other. It says nothing else, and nothing twice.
pub proof fn lemma_built_in_headers(
    token: Option<Seq<char>>,
    tenant: Option<Seq<char>>,
    value: Seq<char>,
)
    ensures
        ({
            let headers = pyroscope::built_in_headers(token, tenant);
            &&& headers.contains(("X-Scope-OrgID"@, value)) <==> tenant == Some(value)
            &&& headers.contains(("Authorization"@, value)) <==> (token matches Some(k) && value
                == "Bearer "@ + k)
            &&& headers.contains(("Content-Type"@, value)) <==> value
                == "application/octet-stream"@
            &&& headers.len() == 1 + (if token is Some {
                1int
            } else {
                0
            }) + (if tenant is Some {
                1int
            } else {
                0
            })
            &&& headers.no_duplicates()
        }),
{
    lemma_header_names();
    let headers = pyroscope::built_in_headers(token, tenant);
    assert(headers[0].0 == "Content-Type"@);
    if let Some(k) = token {
        assert(headers[1] == ("Authorization"@, "Bearer "@ + k));
    }
    if let Some(t) = tenant {
        assert(headers[headers.len() - 1] == ("X-Scope-OrgID"@, t));
    }
}

/// The headers that were given follow those that a push has by itself, in their
/// order, so that they override them.
pub proof fn lemma_given_headers_last(
    cfg: PyroscopeConfig,
    body: Seq<u8>,
    from: i64,
    until: i64,
    i: int,
)
    ensures
        ({
            let request = pyroscope::push_request(cfg, body, from, until);
            let own = pyroscope::built_in_headers(
                text::opt_string(cfg.auth_token),
                text::opt_string(cfg.tenant_id),
            );
            &&& request.headers.len() == own.len() + cfg.headers@.len()
            &&& own.is_prefix_of(request.headers)
            &&& 0 <= i < cfg.headers@.len() ==> request.headers[own.len() + i] == (
                cfg.headers@[i].0@,
                cfg.headers@[i].1@,
            )
        }),
{
    let own = pyroscope::built_in_headers(
        text::opt_string(cfg.auth_token),
        text::opt_string(cfg.tenant_id),
    );
    let request = pyroscope::push_request(cfg, body, from, until);
    assert(request.headers.take(own.len() as int) =~= own);
}

/// A header is what stands before the first colon of a line and what stands
/// after it, without white space around either; a line without a colon is none.
pub proof fn lemma_header(name: Seq<char>, value: Seq<char>)
    requires
        !name.contains(':'),
    ensures
        pyroscope::header_of(name + seq![':'] + value) == Some(
            (text::trimmed(name), text::trimmed(value)),
        ),
        pyroscope::header_of(name) is None,
{
    let line = name + seq![':'] + value;
    let n = name.len() as int;
    assert forall|j: int| 0 <= j < n implies name[j] != ':' by {
        assert(name.contains(name[j]));
    }
    assert forall|j: int| 0 <= j < n implies line[j] != ':' by {
        assert(line[j] == name[j]);
    }
    text::lemma_find_char_unique(line, ':', n);
    text::lemma_find_char_unique(name, ':', n);
    assert(line.take(n) =~= name);
    assert(line.skip(n + 1) =~= value);
}

/// Lines one after the other give the headers of both: a blank line gives none,
/// any other its own; the first that is no header is the error.
pub proof fn lemma_headers(a: Seq<Seq<char>>, b: Seq<Seq<char>>, line: Seq<char>)
    ensures
        pyroscope::headers_of(a) matches Ok(ha) ==> (pyroscope::headers_of(b) matches Ok(hb)
            ==> pyroscope::headers_of(a + b) == Ok::<Seq<(Seq<char>, Seq<char>)>, Seq<char>>(
            ha + hb,
        )),
        pyroscope::headers_of(a) is Err ==> pyroscope::headers_of(a + b) == pyroscope::headers_of(
            a,
        ),
        pyroscope::headers_of(a) is Ok && pyroscope::headers_of(b) is Err
            ==> pyroscope::headers_of(a + b) == pyroscope::headers_of(b),
        text::trimmed(line).len() == 0 ==> pyroscope::headers_of(seq![line]) == Ok::<
            Seq<(Seq<char>, Seq<char>)>,
            Seq<char>,
        >(Seq::empty()),
        text::trimmed(line).len() > 0 ==> pyroscope::headers_of(seq![line]) == match
            pyroscope::header_of(line) {
            Some(h) => Ok::<Seq<(Seq<char>, Seq<char>)>, Seq<char>>(seq![h]),
            None => Err(line),
        },
    decreases b.len(),
{
    assert(seq![line].drop_last() =~= Seq::<Seq<char>>::empty());
    assert(pyroscope::headers_of(seq![line].drop_last()) == Ok::<
        Seq<(Seq<char>, Seq<char>)>,
        Seq<char>,
    >(Seq::empty()));
    if let Some(h) = pyroscope::header_of(line) {
        assert(Seq::<(Seq<char>, Seq<char>)>::empty().push(h) =~= seq![h]);
    }
    if b.len() == 0 {
        assert(a + b =~= a);
        if let Ok(ha) = pyroscope::headers_of(a) {
            assert(ha + Seq::<(Seq<char>, Seq<char>)>::empty() =~= ha);
        }
    } else {
        assert((a + b).drop_last() =~= a + b.drop_last());
        assert((a + b).last() == b.last());
        lemma_headers(a, b.drop_last(), line);
        if let Ok(ha) = pyroscope::headers_of(a) {
            if let Ok(before) = pyroscope::headers_of(b.drop_last()) {
                if let Some(h) = pyroscope::header_of(b.last()) {
                    assert((ha + before).push(h) =~= ha + before.push(h));
                }
            }
        }
    }
}

/// The lines of texts are those of each text, one text after the other.
pub proof fn lemma_all_lines(a: Seq<Seq<char>>, b: Seq<Seq<char>>, t: Seq<char>)
    ensures
        pyroscope::all_lines(a + b) == pyroscope::all_lines(a) + pyroscope::all_lines(b),
        pyroscope::all_lines(seq![t]) == text::lines(t),
    decreases b.len(),
{
    assert(seq![t].drop_last() =~= Seq::<Seq<char>>::empty());
    assert(pyroscope::all_lines(seq![t].drop_last()) =~= Seq::<Seq<char>>::empty());
    assert(pyroscope::all_lines(seq![t]) =~= text::lines(t));
    if b.len() == 0 {
        assert(a + b =~= a);
        assert(pyroscope::all_lines(a) + pyroscope::all_lines(b) =~= pyroscope::all_lines(a));
    } else {
        assert((a + b).drop_last() =~= a + b.drop_last());
        lemma_all_lines(a, b.drop_last(), t);
        assert(pyroscope::all_lines(a + b) =~= pyroscope::all_lines(a) + pyroscope::all_lines(b));
    }
}

// Requests

/// Whole seconds are as many as there are in a time, towards zero from it.
pub proof fn lemma_seconds(nanos: i64)
    ensures
        nanos >= 0 ==> 0 <= nanos - 1_000_000_000 * pyroscope::seconds(nanos) < 1_000_000_000,
        nanos <= 0 ==> 0 <= 1_000_000_000 * pyroscope::seconds(nanos) - nanos < 1_000_000_000,
{
}

/// A push goes to `/ingest` below the server, with the series name, the window's
/// start and end in seconds, the format and the name of the profiler, and with
/// the window as its body.
pub proof fn lemma_request(
    cfg: PyroscopeConfig,
    body: Seq<u8>,
    from: i64,
    until: i64,
    value: Seq<char>,
)
    ensures
        ({
            let r = pyroscope::push_request(cfg, body, from, until);
            &&& r.url == cfg.url@ + "/ingest"@
            &&& r.body == body
            &&& r.query.len() == 5
            &&& r.query.contains(("name"@, value)) <==> value == cfg.name@
            &&& r.query.contains(("from"@, value)) <==> value == text::signed_decimal(
                pyroscope::seconds(from),
            )
            &&& r.query.contains(("until"@, value)) <==> value == text::signed_decimal(
                pyroscope::seconds(until),
            )
            &&& r.query.contains(("format"@, value)) <==> value == "pprof"@
            &&& r.query.contains(("spyName"@, value)) <==> value == "pfp"@
        }),
{
    reveal_strlit("name");
    reveal_strlit("from");
    reveal_strlit("until");
    reveal_strlit("format");
    reveal_strlit("spyName");
    let q = pyroscope::push_request(cfg, body, from, until).query;
    assert("name"@[0] == 'n');
    assert("from"@[0] == 'f');
    assert("name"@.len() == 4 && "from"@.len() == 4);
    assert("until"@.len() == 5 && "format"@.len() == 6 && "spyName"@.len() == 7);
    assert(q[0] == ("name"@, cfg.name@));
    assert(q[1].0 == "from"@);
    assert(q[2].0 == "until"@);
    assert(q[3] == ("format"@, "pprof"@));
    assert(q[4] == ("spyName"@, "pfp"@));
    assert(q[1].1 == text::signed_decimal(pyroscope::seconds(from)));
    assert(q[2].1 == text::signed_decimal(pyroscope::seconds(until)));
}

// Configuration

/// A series goes by the application's name alone, or with all labels after it in
/// braces, with a comma between any two.
pub proof fn lemma_series_name(app: Seq<char>, labels: Seq<Seq<char>>, more: Seq<Seq<char>>)
    ensures
        labels.len() == 0 ==> pyroscope::series_name(app, labels) == app,
        labels.len() == 1 ==> pyroscope::series_name(app, labels) == app + seq!['{'] + labels[0]
            + seq!['}'],
        labels.len() > 0 && more.len() > 0 ==> pyroscope::series_name(app, labels + more) == app
            + seq!['{'] + text::joined(labels, seq![',']) + seq![','] + text::joined(
            more,
            seq![','],
        ) + seq!['}'],
{
    reveal_strlit("{");
    reveal_strlit("}");
    reveal_strlit(",");
    assert("{"@ =~= seq!['{']);
    assert("}"@ =~= seq!['}']);
    assert(","@ =~= seq![',']);
    texts::lemma_joins(labels, more, seq![',']);
    if labels.len() > 0 && more.len() > 0 {
        assert(pyroscope::series_name(app, labels + more) =~= app + seq!['{'] + text::joined(
            labels,
            seq![','],
        ) + seq![','] + text::joined(more, seq![',']) + seq!['}']);
    }
}

/// A configuration has what the command line gives: the server without slashes at
/// its end, the token and the tenant each as it is given, and an interval of at
/// least a second.
pub proof fn lemma_configuration(args: Args, cfg: PyroscopeConfig)
    requires
        pyroscope::configured(args, cfg),
    ensures
        args.pyroscope_url matches Some(url) ==> {
            &&& cfg.url@.is_prefix_of(url@)
            &&& cfg.url@.len() > 0 ==> cfg.url@.last() != '/'
            &&& forall|k: int| cfg.url@.len() <= k < url@.len() ==> #[trigger] url@[k] == '/'
        },
        args.pyroscope_auth_token matches Some(t) ==> (cfg.auth_token matches Some(u) && u@
            == t@),
        args.pyroscope_auth_token is None ==> cfg.auth_token is None,
        args.pyroscope_tenant_id matches Some(t) ==> (cfg.tenant_id matches Some(u) && u@ == t@),
        args.pyroscope_tenant_id is None ==> cfg.tenant_id is None,
        cfg.push_interval_secs >= 1,
        args.push_interval_secs >= 1 ==> cfg.push_interval_secs == args.push_interval_secs,
        args.pyroscope_label@.len() == 0 ==> cfg.name@ == args.pyroscope_app@,
{
    if let Some(url) = args.pyroscope_url {
        texts::lemma_without_trailing(url@, '/');
    }
}

/// Headers on a command line are one to a line, in the order in which they are
/// given.
pub proof fn lemma_configured_headers(args: Args, cfg: PyroscopeConfig, i: int)
    requires
        pyroscope::configured(args, cfg),
        forall|k: int|
            0 <= k < args.pyroscope_header@.len() ==> !(
            #[trigger] args.pyroscope_header@[k])@.contains('\n') && text::trimmed(
                args.pyroscope_header@[k]@,
            ).len() > 0,
    ensures
        cfg.headers@.len() == args.pyroscope_header@.len(),
        0 <= i < cfg.headers@.len() ==> pyroscope::header_of(args.pyroscope_header@[i]@) == Some(
            (cfg.headers@[i].0@, cfg.headers@[i].1@),
        ),
{
    let given = text::strings(args.pyroscope_header@);
    lemma_single_lines(given);
    lemma_each_header(given);
    let hs = pyroscope::pairs(cfg.headers@);
    assert(pyroscope::headers_of(given) == Ok::<Seq<(Seq<char>, Seq<char>)>, Seq<char>>(hs));
    if 0 <= i < cfg.headers@.len() {
        assert(hs[i] == (cfg.headers@[i].0@, cfg.headers@[i].1@));
        assert(given[i] == args.pyroscope_header@[i]@);
    }
}

proof fn lemma_single_lines(given: Seq<Seq<char>>)
    requires
        forall|k: int|
            0 <= k < given.len() ==> !(#[trigger] given[k]).contains('\n') && text::trimmed(
                given[k],
            ).len() > 0,
    ensures
        pyroscope::all_lines(given) == given,
    decreases given.len(),
{
    if given.len() > 0 {
        let last = given.last();
        assert(given[given.len() - 1] == last);
        lemma_single_lines(given.drop_last());
        texts::lemma_trims(last);
        texts::lemma_lines(last, Seq::empty());
        assert(given =~= given.drop_last() + seq![last]);
    } else {
        assert(pyroscope::all_lines(given) =~= given);
    }
}

proof fn lemma_each_header(lines: Seq<Seq<char>>)
    requires
        forall|k: int| 0 <= k < lines.len() ==> text::trimmed(#[trigger] lines[k]).len() > 0,
    ensures
        pyroscope::headers_of(lines) matches Ok(hs) ==> hs.len() == lines.len() && forall|k: int|
            0 <= k < lines.len() ==> pyroscope::header_of(lines[k]) == Some(#[trigger] hs[k]),
    decreases lines.len(),
{
    if lines.len() > 0 {
        assert(text::trimmed(lines[lines.len() - 1]).len() > 0);
        lemma_each_header(lines.drop_last());
        if let Ok(hs) = pyroscope::headers_of(lines) {
            assert forall|k: int| 0 <= k < lines.len() implies pyroscope::header_of(lines[k])
                == Some(#[trigger] hs[k]) by {
                if k < lines.len() - 1 {
                    assert(lines.drop_last()[k] == lines[k]);
                    let before = pyroscope::headers_of(lines.drop_last())->Ok_0;
                    assert(hs[k] == before[k]);
                }
            }
        }
    }
}

// When

/// So many seconds have passed since an instant from that many seconds after it
/// on; none have always passed.
pub proof fn lemma_due(since: u64, now: u64, secs: u64)
    ensures
        secs > 0 ==> (clock::due(since, now, secs) <==> now >= since + secs * 1_000_000_000),
        secs == 0 ==> clock::due(since, now, secs),
        now >= since ==> clock::passed(since, now) == now - since,
        now < since ==> clock::passed(since, now) == 0,
{
    if secs > 0 {
        assert(secs * 1_000_000_000 > 0) by (nonlinear_arith)
            requires
                secs > 0,
        ;
    }
}

/// Samples are gathered until an interval has passed since the last push: then
/// the window with all of them, the latest too, is taken, and the next window
/// starts then and there.
pub proof fn lemma_push_cycle(
    cfg: PyroscopeConfig,
    state: PushState,
    frames: Seq<FrameView>,
    clock: u64,
    now_nanos: i64,
)
    requires
        cfg.push_interval_secs >= 1,
    ensures
        ({
            let gathered = pprof::with_stack(state.profile, frames);
            let after = pyroscope::state_after_sample(cfg, state, frames, clock, now_nanos);
            let pushed = pyroscope::pushed_after_sample(cfg, state, frames, clock, now_nanos);
            if clock >= state.last_push + cfg.push_interval_secs * 1_000_000_000 {
                &&& after == (PushState {
                    profile: pprof::empty_profile(),
                    started: now_nanos,
                    last_push: clock,
                })
                &&& pushed matches Some(sent) && (match pprof::gzipped(
                    pprof::window_bytes(gathered, state.started, now_nanos),
                ) {
                    Some(body) => sent == Some(
                        pyroscope::push_request(cfg, body, state.started, now_nanos),
                    ),
                    None => sent is None,
                })
            } else {
                &&& after == (PushState { profile: gathered, ..state })
                &&& pushed is None
            }
        }),
{
    lemma_due(state.last_push, clock, cfg.push_interval_secs);
    pprof::lemma_stack_not_empty(state.profile, frames);
}

/// At the end what was gathered is pushed, and nothing where nothing was.
pub proof fn lemma_last_push(cfg: PyroscopeConfig, state: PushState, clock: u64, now_nanos: i64)
    ensures
        state.profile.stacks.len() == 0 ==> pyroscope::pushed_window(
            cfg,
            state.profile,
            state.started,
            now_nanos,
        ) is None && pyroscope::after_push(state, clock, now_nanos) == (PushState {
            last_push: clock,
            ..state
        }),
        state.profile.stacks.len() > 0 ==> pyroscope::pushed_window(
            cfg,
            state.profile,
            state.started,
            now_nanos,
        ) == Some(
            match pprof::gzipped(pprof::window_bytes(state.profile, state.started, now_nanos)) {
                Some(body) => Some(
                    pyroscope::push_request(cfg, body, state.started, now_nanos),
                ),
                None => None::<RequestView>,
            },
        ) && pyroscope::after_push(state, clock, now_nanos).profile == pprof::empty_profile()
            && pyroscope::after_push(state, clock, now_nanos).started == now_nanos,
{
}

} // verus!
