//! What a request has to pass at a location before it is served, in order. The
//! checks that take work outside (token arithmetic, a request to the
//! authorization service, shadow requests) are handed to the caller, which
//! comes back with the outcome.

use crate::access;
use crate::app::runtime::{LocationRt, LocationRtV};
use crate::auth;
use crate::auth_request::{self, asked_for, no_url, Reply, Subrequest, SubrequestV};
use crate::body::{Response, ResponseV, text, text_response, valid_status};
use crate::headers::{header_map, header_names};
use crate::limit::{
    acquired, conn_wf, denied, enforce, enforce_conn, in_flight, law_slots_balance, LimitConnZone,
    LimitConnZoneV, LimitReqZone, LimitReqZoneV, released,
};
use crate::metrics::Metrics;
use crate::mirror::{shadow_urls, urls_of};
use crate::net::IpAddr;
use crate::request_ctx::RequestCtx;
use crate::template::rendered;
use crate::text::views;
use vstd::prelude::*;
use vstd::string::*;

verus! {

/// What a request has to pass at a location, in order.
#[derive(Debug, Clone, Copy, PartialEq, Eq, Structural)]
pub enum Stage {
    /// `allow` / `deny` — fastest reject, before any work.
    Access,
    /// `limit_req` — rate limits come early so we don't do auth or upstream
    /// work just to throw it away on 503.
    LimitReq,
    /// `limit_conn` — a slot that is held for the lifetime of the request.
    LimitConn,
    /// `auth_request` — ask the authorization service.
    AuthRequest,
    /// `auth_basic` — challenge before doing any work.
    AuthBasic,
    /// `mirror` — replicate the request; never refuses.
    Mirror,
    /// The request is served.
    Serve,
}

/// The place of a stage in the order.
pub open spec fn rank(s: Stage) -> int {
    match s {
        Stage::Access => 0,
        Stage::LimitReq => 1,
        Stage::LimitConn => 2,
        Stage::AuthRequest => 3,
        Stage::AuthBasic => 4,
        Stage::Mirror => 5,
        Stage::Serve => 6,
    }
}

/// What is to be done with a request next.
#[derive(Debug)]
pub enum Next {
    /// It is refused with this response.
    Refuse(Response),
    /// Take a token for `key` from the rate zone, and go on with
    /// [`Flow::rate_checked`].
    TakeToken { zone: usize, burst: u32, key: String },
    /// Ask the authorization service, and go on with [`Flow::authorized`].
    Ask(Subrequest),
    /// Verify the credentials that it carries, with [`Flow::identify`].
    Identify,
    /// Send shadow requests to these URLs, and go on with [`Flow::mirrored`].
    Shadow(Vec<String>),
    /// It has passed, and is served.
    Serve,
}

/// Model of a [`Next`].
pub enum NextV {
    Refuse(ResponseV),
    TakeToken { zone: usize, burst: u32, key: Seq<char> },
    Ask(SubrequestV),
    Identify,
    Shadow(Seq<Seq<char>>),
    Serve,
}

impl View for Next {
    type V = NextV;

    open spec fn view(&self) -> NextV {
        match self {
            Next::Refuse(r) => NextV::Refuse(r@),
            Next::TakeToken { zone, burst, key } => NextV::TakeToken {
                zone: *zone,
                burst: *burst,
                key: key@,
            },
            Next::Ask(s) => NextV::Ask(s@),
            Next::Identify => NextV::Identify,
            Next::Shadow(urls) => NextV::Shadow(views(urls@)),
            Next::Serve => NextV::Serve,
        }
    }
}

/// How far a request has come: what it waits for, and the connection slot that
/// it holds.
#[derive(Debug)]
pub struct Flow {
    pub stage: Stage,
    pub held: Option<(usize, String)>,
}

/// Model of a [`Flow`], with the connection zones and the metrics.
pub struct FlowV {
    pub stage: Stage,
    pub held: Option<(usize, Seq<char>)>,
    pub zones: Seq<LimitConnZoneV>,
    pub metrics: Metrics,
}

impl Flow {
    pub open spec fn with(self, zones: Seq<LimitConnZone>, metrics: Metrics) -> FlowV {
        FlowV {
            stage: self.stage,
            held: match self.held {
                Some((zone, key)) => Some((zone, key@)),
                None => None,
            },
            zones: views(zones),
            metrics,
        }
    }
}

/// What the access log says of a refusal: the stage at which it came.
pub open spec fn tag_of(s: Stage) -> Seq<char> {
    match s {
        Stage::Access => "allow/deny"@,
        Stage::LimitReq => "limit_req"@,
        Stage::LimitConn => "limit_conn"@,
        Stage::AuthRequest => "auth_request"@,
        Stage::AuthBasic => "auth_basic challenge"@,
        Stage::Mirror => "mirror"@,
        Stage::Serve => "served"@,
    }
}

/// The tag of a refusal in the access log.
pub fn refusal_tag(s: Stage) -> (r: &'static str)
    ensures
        r@ == tag_of(s),
{
    match s {
        Stage::Access => "allow/deny",
        Stage::LimitReq => "limit_req",
        Stage::LimitConn => "limit_conn",
        Stage::AuthRequest => "auth_request",
        Stage::AuthBasic => "auth_basic challenge",
        Stage::Mirror => "mirror",
        Stage::Serve => "served",
    }
}

/// The key of a client in a connection zone.
pub open spec fn conn_key(z: LimitConnZoneV, ctx: RequestCtx<'_>) -> Seq<char> {
    rendered(z.key_template, ctx)
}

/// The state after a connection slot has been taken in zone `i`.
pub open spec fn slot_taken(f: FlowV, i: int, ctx: RequestCtx<'_>) -> FlowV {
    let z = f.zones[i];
    let key = conn_key(z, ctx);
    FlowV {
        stage: f.stage,
        held: Some((i as usize, key)),
        zones: f.zones.update(i, LimitConnZoneV { active: acquired(z.active, key), ..z }),
        metrics: Metrics {
            limit_conn_allowed: f.metrics.limit_conn_allowed.wrapping_add(1),
            ..f.metrics
        },
    }
}

/// The state after a connection slot has been refused.
pub open spec fn slot_refused(f: FlowV) -> FlowV {
    FlowV {
        metrics: Metrics {
            limit_conn_denied: f.metrics.limit_conn_denied.wrapping_add(1),
            ..f.metrics
        },
        ..f
    }
}

/// A client that may not come in by its address is answered this.
pub open spec fn forbidden() -> ResponseV {
    text_response(403, "403 Forbidden\n"@)
}

/// What is done with a request that has passed every check.
pub open spec fn mirror_step(f: FlowV, l: LocationRtV, ctx: RequestCtx<'_>) -> (NextV, FlowV) {
    if l.mirrors.len() == 0 {
        (NextV::Serve, FlowV { stage: Stage::Serve, ..f })
    } else {
        (NextV::Shadow(urls_of(l.mirrors, ctx)), FlowV { stage: Stage::Mirror, ..f })
    }
}

/// What is done with a request that no authorization service is in the way of.
pub open spec fn basic_step(f: FlowV, l: LocationRtV, ctx: RequestCtx<'_>) -> (NextV, FlowV) {
    match l.auth {
        None => mirror_step(f, l, ctx),
        Some(_) => (NextV::Identify, FlowV { stage: Stage::AuthBasic, ..f }),
    }
}

/// What is done with a request whose credentials are verified now.
pub open spec fn after_identity(f: FlowV, l: LocationRtV, ctx: RequestCtx<'_>) -> (NextV, FlowV) {
    match l.auth {
        None => mirror_step(f, l, ctx),
        Some(a) => if auth::authorized(a.users, header_map(*ctx.headers)) {
            mirror_step(f, l, ctx)
        } else {
            (NextV::Refuse(auth::challenge(a.realm)), f)
        },
    }
}

/// What is done with a request that has come to `s`, and the state after that.
/// A stage that the location does not ask for is passed.
pub open spec fn proceed(
    s: Stage,
    f: FlowV,
    l: LocationRtV,
    ctx: RequestCtx<'_>,
    rates: Seq<LimitReqZoneV>,
) -> (NextV, FlowV)
    decreases 7 - rank(s),
{
    let here = FlowV { stage: s, ..f };
    match s {
        Stage::Access => if access::allowed(l.access_rules, ctx.peer.ip) {
            proceed(Stage::LimitReq, f, l, ctx, rates)
        } else {
            (NextV::Refuse(forbidden()), here)
        },
        Stage::LimitReq => match l.limit_req {
            None => proceed(Stage::LimitConn, f, l, ctx, rates),
            Some(a) => (
                NextV::TakeToken {
                    zone: a.zone,
                    burst: a.burst,
                    key: rendered(rates[a.zone as int].key_template, ctx),
                },
                here,
            ),
        },
        Stage::LimitConn => match l.limit_conn {
            None => proceed(Stage::AuthRequest, f, l, ctx, rates),
            Some(a) => {
                let z = f.zones[a.zone as int];
                if in_flight(z.active, conn_key(z, ctx)) < a.max_conn {
                    proceed(
                        Stage::AuthRequest,
                        slot_taken(here, a.zone as int, ctx),
                        l,
                        ctx,
                        rates,
                    )
                } else {
                    (NextV::Refuse(denied()), slot_refused(here))
                }
            },
        },
        Stage::AuthRequest => match l.auth_request {
            None => proceed(Stage::AuthBasic, f, l, ctx, rates),
            Some(t) => match asked_for(t, ctx) {
                Some(sub) => (NextV::Ask(sub), here),
                None => (NextV::Refuse(no_url()), here),
            },
        },
        Stage::AuthBasic => basic_step(f, l, ctx),
        Stage::Mirror => mirror_step(f, l, ctx),
        Stage::Serve => (NextV::Serve, here),
    }
}

/// What is done with a request whose token was granted or not.
pub open spec fn after_rate(
    ok: bool,
    f: FlowV,
    l: LocationRtV,
    ctx: RequestCtx<'_>,
    rates: Seq<LimitReqZoneV>,
) -> (NextV, FlowV) {
    if ok {
        proceed(
            Stage::LimitConn,
            FlowV {
                metrics: Metrics {
                    limit_req_allowed: f.metrics.limit_req_allowed.wrapping_add(1),
                    ..f.metrics
                },
                ..f
            },
            l,
            ctx,
            rates,
        )
    } else {
        (
            NextV::Refuse(denied()),
            FlowV {
                metrics: Metrics {
                    limit_req_denied: f.metrics.limit_req_denied.wrapping_add(1),
                    ..f.metrics
                },
                ..f
            },
        )
    }
}

/// What is done with a request on which the authorization service has replied.
pub open spec fn after_reply(
    reply: Reply,
    f: FlowV,
    l: LocationRtV,
    ctx: RequestCtx<'_>,
) -> (NextV, FlowV) {
    if auth_request::lets_in(reply) {
        basic_step(f, l, ctx)
    } else {
        (NextV::Refuse(auth_request::refusal(reply)), f)
    }
}

/// The connection zones once a request has given back the slot that it held.
pub open spec fn given_back(
    held: Option<(usize, Seq<char>)>,
    zones: Seq<LimitConnZoneV>,
) -> Seq<LimitConnZoneV> {
    match held {
        None => zones,
        Some((zone, key)) => {
            let z = zones[zone as int];
            zones.update(
                zone as int,
                LimitConnZoneV { active: released(z.active, key), ..z },
            )
        },
    }
}

/// Whether the zones that a location refers to exist.
pub open spec fn zones_exist(l: LocationRtV, rates: nat, conns: nat) -> bool {
    &&& l.limit_req matches Some(a) ==> a.zone < rates
    &&& l.limit_conn matches Some(a) ==> a.zone < conns
}

/// Apply `allow` / `deny`. Returns the refusal, if any.
pub fn check_access(loc: &LocationRt, ip: IpAddr) -> (r: Option<Response>)
    ensures
        match r {
            Some(resp) => !access::allowed(loc@.access_rules, ip) && resp@ == forbidden()
                && header_names(resp.headers) <= 1,
            None => access::allowed(loc@.access_rules, ip),
        },
{
    assert(loc@.access_rules =~= loc.access_rules@);
    if access::check(loc.access_rules.as_slice(), ip) {
        None
    } else {
        Some(text(403, "403 Forbidden\n"))
    }
}

impl Flow {
    /// Take a request in at a location.
    pub fn start(
        loc: &LocationRt,
        ctx: &RequestCtx<'_>,
        rates: &Vec<LimitReqZone>,
        zones: &mut Vec<LimitConnZone>,
        metrics: &mut Metrics,
    ) -> (r: (Flow, Next))
        requires
            zones_exist(loc@, rates@.len(), old(zones)@.len()),
        ensures
            (r.1@, r.0.with(final(zones)@, *final(metrics))) == proceed(
                Stage::Access,
                FlowV {
                    stage: Stage::Access,
                    held: None,
                    zones: views(old(zones)@),
                    metrics: *old(metrics),
                },
                loc@,
                *ctx,
                views(rates@),
            ),
            final(zones)@.len() == old(zones)@.len(),
    {
        proof {
            reveal_with_fuel(proceed, 3);
        }
        let mut f = Flow { stage: Stage::Access, held: None };
        if let Some(resp) = check_access(loc, ctx.peer.ip) {
            return (f, Next::Refuse(resp));
        }
        match &loc.limit_req {
            Some(a) => {
                assert(views(rates@)[a.zone as int] == rates@[a.zone as int]@);
                f.stage = Stage::LimitReq;
                let key = rates[a.zone].key_template.render(ctx);
                (f, Next::TakeToken { zone: a.zone, burst: a.burst, key })
            },
            None => {
                let n = f.from_conn(loc, ctx, Ghost(views(rates@)), zones, metrics);
                (f, n)
            },
        }
    }

    /// Go on once a token was granted or not.
    pub fn rate_checked(
        &mut self,
        ok: bool,
        loc: &LocationRt,
        ctx: &RequestCtx<'_>,
        rates: &Vec<LimitReqZone>,
        zones: &mut Vec<LimitConnZone>,
        metrics: &mut Metrics,
    ) -> (r: Next)
        requires
            zones_exist(loc@, rates@.len(), old(zones)@.len()),
        ensures
            (r@, final(self).with(final(zones)@, *final(metrics))) == after_rate(
                ok,
                old(self).with(old(zones)@, *old(metrics)),
                loc@,
                *ctx,
                views(rates@),
            ),
            final(zones)@.len() == old(zones)@.len(),
    {
        match enforce(ok, metrics) {
            Some(resp) => Next::Refuse(resp),
            None => self.from_conn(loc, ctx, Ghost(views(rates@)), zones, metrics),
        }
    }

    /// Go on once the authorization service has replied.
    pub fn authorized(
        &mut self,
        reply: &Reply,
        loc: &LocationRt,
        ctx: &RequestCtx<'_>,
    ) -> (r: Next)
        requires
            *reply matches Reply::Status(s) ==> valid_status(s),
        ensures
            forall|zones: Seq<LimitConnZone>, metrics: Metrics|
                (r@, #[trigger] final(self).with(zones, metrics)) == after_reply(
                    *reply,
                    old(self).with(zones, metrics),
                    loc@,
                    *ctx,
                ),
    {
        match auth_request::check(reply) {
            Err(resp) => Next::Refuse(resp),
            Ok(()) => self.from_basic(loc, ctx),
        }
    }

    /// Verify the credentials of a request, and go on.
    pub fn identify(&mut self, loc: &LocationRt, ctx: &RequestCtx<'_>) -> (r: Next)
        ensures
            forall|zones: Seq<LimitConnZone>, metrics: Metrics|
                (r@, #[trigger] final(self).with(zones, metrics)) == after_identity(
                    old(self).with(zones, metrics),
                    loc@,
                    *ctx,
                ),
    {
        if let Some(a) = &loc.auth {
            if let Err(resp) = auth::check(a, ctx.headers) {
                return Next::Refuse(resp);
            }
        }
        self.from_mirror(loc, ctx)
    }

    /// Go on once the shadow requests have been sent.
    pub fn mirrored(&mut self) -> (r: Next)
        ensures
            r@ == NextV::Serve,
            final(self).stage == Stage::Serve,
            final(self).held == old(self).held,
    {
        self.stage = Stage::Serve;
        Next::Serve
    }

    fn from_conn(
        &mut self,
        loc: &LocationRt,
        ctx: &RequestCtx<'_>,
        rates: Ghost<Seq<LimitReqZoneV>>,
        zones: &mut Vec<LimitConnZone>,
        metrics: &mut Metrics,
    ) -> (r: Next)
        requires
            loc@.limit_conn matches Some(a) ==> a.zone < old(zones)@.len(),
        ensures
            (r@, final(self).with(final(zones)@, *final(metrics))) == proceed(
                Stage::LimitConn,
                old(self).with(old(zones)@, *old(metrics)),
                loc@,
                *ctx,
                rates@,
            ),
            final(zones)@.len() == old(zones)@.len(),
    {
        if let Some(a) = &loc.limit_conn {
            let ghost before = zones@;
            let i: usize = a.zone;
            assert(views(before)[i as int] == before[i as int]@);
            let key = zones[i].key_template.render(ctx);
            self.stage = Stage::LimitConn;
            if let Some(resp) = enforce_conn(&mut zones[i], key.as_str(), a.max_conn, metrics) {
                assert(views(zones@) =~= views(before));
                return Next::Refuse(resp);
            }
            assert(views(zones@) =~= views(before).update(i as int, zones@[i as int]@));
            self.held = Some((i, key));
        }
        self.from_auth(loc, ctx, rates)
    }

    fn from_auth(
        &mut self,
        loc: &LocationRt,
        ctx: &RequestCtx<'_>,
        rates: Ghost<Seq<LimitReqZoneV>>,
    ) -> (r: Next)
        ensures
            forall|zones: Seq<LimitConnZone>, metrics: Metrics|
                (r@, #[trigger] final(self).with(zones, metrics)) == proceed(
                    Stage::AuthRequest,
                    old(self).with(zones, metrics),
                    loc@,
                    *ctx,
                    rates@,
                ),
    {
        proof {
            reveal_with_fuel(proceed, 2);
        }
        match &loc.auth_request {
            Some(t) => {
                self.stage = Stage::AuthRequest;
                match auth_request::subrequest(t, ctx) {
                    Ok(sub) => Next::Ask(sub),
                    Err(resp) => Next::Refuse(resp),
                }
            },
            None => self.from_basic(loc, ctx),
        }
    }

    fn from_basic(&mut self, loc: &LocationRt, ctx: &RequestCtx<'_>) -> (r: Next)
        ensures
            forall|zones: Seq<LimitConnZone>, metrics: Metrics|
                (r@, #[trigger] final(self).with(zones, metrics)) == basic_step(
                    old(self).with(zones, metrics),
                    loc@,
                    *ctx,
                ),
    {
        if loc.auth.is_some() {
            self.stage = Stage::AuthBasic;
            Next::Identify
        } else {
            self.from_mirror(loc, ctx)
        }
    }

    fn from_mirror(&mut self, loc: &LocationRt, ctx: &RequestCtx<'_>) -> (r: Next)
        ensures
            forall|zones: Seq<LimitConnZone>, metrics: Metrics|
                (r@, #[trigger] final(self).with(zones, metrics)) == mirror_step(
                    old(self).with(zones, metrics),
                    loc@,
                    *ctx,
                ),
    {
        if loc.mirrors.len() == 0 {
            self.stage = Stage::Serve;
            Next::Serve
        } else {
            self.stage = Stage::Mirror;
            Next::Shadow(shadow_urls(&loc.mirrors, ctx))
        }
    }

    /// Give back what a request held, once it has been served or refused.
    pub fn finish(self, zones: &mut Vec<LimitConnZone>)
        requires
            self.held matches Some((zone, _)) ==> zone < old(zones)@.len(),
        ensures
            views(final(zones)@) == given_back(
                match self.held {
                    Some((zone, key)) => Some((zone, key@)),
                    None => None,
                },
                views(old(zones)@),
            ),
    {
        if let Some((zone, key)) = self.held {
            let ghost before = zones@;
            zones[zone].release(key.as_str());
            assert(views(zones@) =~= views(before).update(zone as int, zones@[zone as int]@));
        }
    }
}

// ---------------------------------------------------------------------------
// Laws
// ---------------------------------------------------------------------------

/// A client that may not come in by its address is refused before anything
/// else happens: no token is spent, no slot is taken, nothing is counted.
pub proof fn law_address_is_checked_first(
    f: FlowV,
    l: LocationRtV,
    ctx: RequestCtx<'_>,
    rates: Seq<LimitReqZoneV>,
)
    requires
        !access::allowed(l.access_rules, ctx.peer.ip),
    ensures
        proceed(Stage::Access, f, l, ctx, rates) == (
            NextV::Refuse(forbidden()),
            FlowV { stage: Stage::Access, ..f },
        ),
{
}

/// Nothing is served, and nothing is mirrored, at a location that asks for
/// credentials unless the request carries valid ones.
pub proof fn law_nothing_is_served_without_credentials(
    s: Stage,
    f: FlowV,
    l: LocationRtV,
    ctx: RequestCtx<'_>,
    rates: Seq<LimitReqZoneV>,
    reply: Reply,
)
    requires
        rank(s) <= rank(Stage::AuthBasic),
        l.auth matches Some(a) && !auth::authorized(a.users, header_map(*ctx.headers)),
    ensures
        !(proceed(s, f, l, ctx, rates).0 is Serve),
        !(proceed(s, f, l, ctx, rates).0 is Shadow),
        !(after_reply(reply, f, l, ctx).0 is Serve),
        !(after_reply(reply, f, l, ctx).0 is Shadow),
        after_identity(f, l, ctx) == (NextV::Refuse(auth::challenge(l.auth->0.realm)), f),
{
    reveal_with_fuel(proceed, 8);
}

/// A request is served at a location that delegates authorization only after
/// the service has been asked: on the way from the start it is not passed.
pub proof fn law_service_is_always_asked(
    s: Stage,
    f: FlowV,
    l: LocationRtV,
    ctx: RequestCtx<'_>,
    rates: Seq<LimitReqZoneV>,
)
    requires
        rank(s) <= rank(Stage::AuthRequest),
        l.auth_request is Some,
    ensures
        !(proceed(s, f, l, ctx, rates).0 is Serve),
        !(proceed(s, f, l, ctx, rates).0 is Shadow),
{
    reveal_with_fuel(proceed, 8);
}

/// A request never goes back: what it waits for next lies at or behind where it
/// came from.
pub proof fn law_request_moves_forward(
    s: Stage,
    f: FlowV,
    l: LocationRtV,
    ctx: RequestCtx<'_>,
    rates: Seq<LimitReqZoneV>,
)
    ensures
        rank(proceed(s, f, l, ctx, rates).1.stage) >= rank(s),
{
    reveal_with_fuel(proceed, 8);
}

/// A location that asks for nothing serves at once and changes nothing.
pub proof fn law_open_location_serves(
    f: FlowV,
    l: LocationRtV,
    ctx: RequestCtx<'_>,
    rates: Seq<LimitReqZoneV>,
)
    requires
        access::allowed(l.access_rules, ctx.peer.ip),
        l.limit_req is None,
        l.limit_conn is None,
        l.auth_request is None,
        l.auth is None,
        l.mirrors.len() == 0,
    ensures
        proceed(Stage::Access, f, l, ctx, rates) == (
            NextV::Serve,
            FlowV { stage: Stage::Serve, ..f },
        ),
{
    reveal_with_fuel(proceed, 8);
}

/// A request that gets no token is refused on the spot: it takes no connection
/// slot, no service is asked and no password is verified.
pub proof fn law_refused_token_costs_nothing_more(
    f: FlowV,
    l: LocationRtV,
    ctx: RequestCtx<'_>,
    rates: Seq<LimitReqZoneV>,
)
    ensures
        ({
            let (next, g) = after_rate(false, f, l, ctx, rates);
            next == NextV::Refuse(denied()) && g.stage == f.stage && g.held == f.held && g.zones
                == f.zones
        }),
{
}

/// Mirroring never refuses a request, and costs it nothing.
pub proof fn law_mirroring_never_refuses(
    f: FlowV,
    l: LocationRtV,
    ctx: RequestCtx<'_>,
    rates: Seq<LimitReqZoneV>,
)
    ensures
        ({
            let (next, g) = proceed(Stage::Mirror, f, l, ctx, rates);
            (next is Serve || next is Shadow) && g.held == f.held && g.zones == f.zones && g.metrics
                == f.metrics
        }),
{
}

/// Without `limit_conn` no connection slot is taken, and the stages behind it
/// leave the slots as they are.
pub proof fn law_slot_is_kept(
    s: Stage,
    f: FlowV,
    l: LocationRtV,
    ctx: RequestCtx<'_>,
    rates: Seq<LimitReqZoneV>,
)
    requires
        rank(s) > rank(Stage::LimitConn) || l.limit_conn is None,
    ensures
        proceed(s, f, l, ctx, rates).1.held == f.held,
        proceed(s, f, l, ctx, rates).1.zones == f.zones,
{
    reveal_with_fuel(proceed, 8);
}

/// Whatever becomes of a request, refused or served: once it has given back
/// what it holds, every key of every zone counts as many requests in flight as
/// before it came.
pub proof fn law_slot_is_given_back(
    s: Stage,
    f: FlowV,
    l: LocationRtV,
    ctx: RequestCtx<'_>,
    rates: Seq<LimitReqZoneV>,
    zone: int,
    key: Seq<char>,
)
    requires
        f.held is None,
        zones_exist(l, rates.len(), f.zones.len()),
        f.zones.len() <= usize::MAX,
        forall|i: int| 0 <= i < f.zones.len() ==> conn_wf((#[trigger] f.zones[i]).active),
        0 <= zone < f.zones.len(),
    ensures
        ({
            let g = proceed(s, f, l, ctx, rates).1;
            in_flight(given_back(g.held, g.zones)[zone].active, key) == in_flight(
                f.zones[zone].active,
                key,
            )
        }),
{
    reveal_with_fuel(proceed, 8);
    let g = proceed(s, f, l, ctx, rates).1;
    if let Some((i, k)) = g.held {
        let max = l.limit_conn->0.max_conn;
        let other = if key == k {
            k.push('x')
        } else {
            key
        };
        assert(k.push('x').len() != k.len());
        law_slots_balance(f.zones[i as int].active, k, max, other);
    }
}

} // verus!
