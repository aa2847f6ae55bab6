//! Variable interpolation for configuration values.
//!
//! A `Template` is a sequence of literal text and variable references parsed
//! once at config-load time, then rendered against a [`RequestCtx`] at
//! request time. Supported syntax mirrors Nginx:
//!
//! ```text
//! "$host"          // bare variable name
//! "${request_uri}" // braced variable name
//! "$arg_id"        // query argument
//! "$http_user_agent" // request header (underscores → hyphens)
//! "$cookie_session"  // cookie value
//! ```
//!
//! A name that is not built in is looked up among the `map` outputs; unknown
//! names render as the empty string. A literal `$` followed by a
//! non-identifier character is preserved as-is.

use crate::net::{format_ip, ip_string};
use crate::request_ctx::{lookup_var, or_empty, RequestCtx, var_value, var_views};
use crate::text::{
    after_prefix, alnum, chars, find_from, is_alnum, lemma_position_is, position, replace_char,
    replaced, same, slice_string, strip_prefix,
};
use vstd::prelude::*;
use vstd::string::*;

verus! {

/// The variables that the engine knows.
#[derive(Debug, Clone, Copy, PartialEq, Eq, Structural)]
pub enum VarKind {
    Host,
    RemoteAddr,
    RequestUri,
    Uri,
    RequestMethod,
    Args,
    Scheme,
    ServerName,
    /// `$arg_NAME`: a query argument.
    Arg,
    /// `$http_NAME`: a request header.
    Http,
    /// `$cookie_NAME`: a cookie.
    Cookie,
    /// Anything else: a `map` output, or nothing.
    User,
}

/// One piece of a template.
#[derive(Debug, Clone)]
pub enum Segment {
    Literal(String),
    /// The kind of a variable, and the name behind its prefix for the kinds
    /// that take one.
    Var(VarKind, String),
}

/// Model of a [`Segment`].
pub enum SegmentV {
    Literal(Seq<char>),
    Var(VarKind, Seq<char>),
}

impl View for Segment {
    type V = SegmentV;

    open spec fn view(&self) -> SegmentV {
        match self {
            Segment::Literal(s) => SegmentV::Literal(s@),
            Segment::Var(k, n) => SegmentV::Var(*k, n@),
        }
    }
}

#[derive(Debug, Clone)]
pub struct Template {
    pub segments: Vec<Segment>,
}

impl View for Template {
    type V = Seq<SegmentV>;

    open spec fn view(&self) -> Seq<SegmentV> {
        self.segments@.map_values(|s: Segment| s@)
    }
}

// ---------------------------------------------------------------------------
// Parsing
// ---------------------------------------------------------------------------

/// What follows a `$`: the variable's name and the number of characters that it
/// takes. Where no variable is `found`, `name` is the text that is kept.
pub struct Reference {
    pub name: Seq<char>,
    pub used: int,
    pub found: bool,
}

/// Length of the identifier that `s` starts with.
pub open spec fn ident_len(s: Seq<char>) -> int
    decreases s.len(),
{
    if s.len() > 0 && (is_alnum(s[0]) || s[0] == '_') {
        1 + ident_len(s.skip(1))
    } else {
        0
    }
}

/// Reads the variable reference behind a `$`. In the braced form everything up
/// to `}` is the name; without a closing brace there is no reference and the
/// text behind `{` is kept.
pub open spec fn reference(s: Seq<char>) -> Reference {
    if s.len() > 0 && s[0] == '{' {
        let n = position(s.skip(1), '}');
        if n < s.len() - 1 {
            Reference { name: s.subrange(1, 1 + n), used: n + 2, found: true }
        } else {
            Reference { name: s.skip(1), used: s.len() as int, found: false }
        }
    } else {
        let n = ident_len(s);
        Reference { name: s.take(n), used: n, found: n > 0 }
    }
}

/// The variable that a name stands for.
pub open spec fn variable(name: Seq<char>) -> SegmentV {
    match after_prefix(name, "arg_"@) {
        Some(rest) => SegmentV::Var(VarKind::Arg, rest),
        None => match after_prefix(name, "http_"@) {
            Some(rest) => SegmentV::Var(VarKind::Http, rest),
            None => match after_prefix(name, "cookie_"@) {
                Some(rest) => SegmentV::Var(VarKind::Cookie, rest),
                None => builtin(name),
            },
        },
    }
}

/// The variable that a name without a known prefix stands for.
pub open spec fn builtin(name: Seq<char>) -> SegmentV {
    if name == "host"@ {
        SegmentV::Var(VarKind::Host, seq![])
    } else if name == "remote_addr"@ {
        SegmentV::Var(VarKind::RemoteAddr, seq![])
    } else if name == "request_uri"@ {
        SegmentV::Var(VarKind::RequestUri, seq![])
    } else if name == "uri"@ || name == "document_uri"@ {
        SegmentV::Var(VarKind::Uri, seq![])
    } else if name == "request_method"@ {
        SegmentV::Var(VarKind::RequestMethod, seq![])
    } else if name == "args"@ || name == "query_string"@ {
        SegmentV::Var(VarKind::Args, seq![])
    } else if name == "scheme"@ {
        SegmentV::Var(VarKind::Scheme, seq![])
    } else if name == "server_name"@ {
        SegmentV::Var(VarKind::ServerName, seq![])
    } else {
        SegmentV::Var(VarKind::User, name)
    }
}

/// Literal text as a list of segments: none when it is empty.
pub open spec fn literal(s: Seq<char>) -> Seq<SegmentV> {
    if s.len() > 0 {
        seq![SegmentV::Literal(s)]
    } else {
        seq![]
    }
}

/// The segments of `s`, when the literal text `lit` stands in front of it.
pub open spec fn segments_of(s: Seq<char>, lit: Seq<char>) -> Seq<SegmentV>
    decreases s.len(),
    via segments_decrease
{
    if s.len() == 0 {
        literal(lit)
    } else if s[0] != '$' {
        segments_of(s.skip(1), lit.push(s[0]))
    } else {
        let r = reference(s.skip(1));
        let rest = s.skip(1).skip(r.used);
        if r.found {
            literal(lit) + seq![variable(r.name)] + segments_of(rest, seq![])
        } else {
            segments_of(rest, lit.push('$') + r.name)
        }
    }
}

#[via_fn]
proof fn segments_decrease(s: Seq<char>, lit: Seq<char>) {
    if s.len() > 0 {
        lemma_reference_used(s.skip(1));
    }
}

pub proof fn lemma_reference_used(s: Seq<char>)
    ensures
        0 <= reference(s).used <= s.len(),
{
    if s.len() > 0 && s[0] == '{' {
        lemma_position_is(s.skip(1), '}');
    } else {
        lemma_ident_fits(s);
    }
}

proof fn lemma_ident_fits(s: Seq<char>)
    ensures
        0 <= ident_len(s) <= s.len(),
    decreases s.len(),
{
    if s.len() > 0 {
        lemma_ident_fits(s.skip(1));
    }
}

/// The template that `s` spells.
pub open spec fn template_of(s: Seq<char>) -> Seq<SegmentV> {
    segments_of(s, seq![])
}

pub proof fn lemma_ident_len(s: Seq<char>, n: int)
    requires
        0 <= n <= s.len(),
        forall|k: int| 0 <= k < n ==> is_alnum(#[trigger] s[k]) || s[k] == '_',
        n == s.len() || !(is_alnum(s[n]) || s[n] == '_'),
    ensures
        ident_len(s) == n,
    decreases n,
{
    if n > 0 {
        assert forall|k: int| 0 <= k < n - 1 implies is_alnum(#[trigger] s.skip(1)[k]) || s.skip(
            1,
        )[k] == '_' by {
            assert(s.skip(1)[k] == s[k + 1]);
        }
        lemma_ident_len(s.skip(1), n - 1);
    }
}

/// A reference as read by [`read_reference`].
struct ReadRef {
    name: String,
    end: usize,
    found: bool,
}

/// Reads the reference whose `$` stands just before `v[from]`.
fn read_reference(v: &Vec<char>, from: usize) -> (r: ReadRef)
    requires
        from <= v@.len(),
    ensures
        from <= r.end <= v@.len(),
        reference(v@.skip(from as int)) == (Reference {
            name: r.name@,
            used: r.end - from,
            found: r.found,
        }),
{
    let ghost s = v@.skip(from as int);
    if from < v.len() && v[from] == '{' {
        assert(s[0] == '{');
        assert(s.skip(1) == v@.skip(from + 1));
        let close = find_from(v, from + 1, '}');
        if close < v.len() {
            let name = slice_string(v, from + 1, close);
            assert(name@ == s.subrange(1, close - from));
            ReadRef { name, end: close + 1, found: true }
        } else {
            let name = slice_string(v, from + 1, v.len());
            assert(name@ == s.skip(1));
            ReadRef { name, end: v.len(), found: false }
        }
    } else {
        let mut i: usize = from;
        while i < v.len() && (alnum(v[i]) || v[i] == '_')
            invariant
                from <= i <= v@.len(),
                forall|k: int| from <= k < i ==> is_alnum(#[trigger] v@[k]) || v@[k] == '_',
            decreases v@.len() - i,
        {
            i = i + 1;
        }
        proof {
            assert forall|k: int| 0 <= k < i - from implies is_alnum(#[trigger] s[k]) || s[k]
                == '_' by {
                assert(s[k] == v@[k + from]);
            }
            lemma_ident_len(s, i - from);
        }
        let name = slice_string(v, from, i);
        assert(name@ == s.take(i - from));
        ReadRef { name, end: i, found: i > from }
    }
}

fn classify(name: &str) -> (r: Segment)
    ensures
        r@ == variable(name@),
{
    if let Some(rest) = strip_prefix(name, "arg_") {
        return Segment::Var(VarKind::Arg, rest.to_owned());
    }
    if let Some(rest) = strip_prefix(name, "http_") {
        return Segment::Var(VarKind::Http, rest.to_owned());
    }
    if let Some(rest) = strip_prefix(name, "cookie_") {
        return Segment::Var(VarKind::Cookie, rest.to_owned());
    }
    let kind = if same(name, "host") {
        VarKind::Host
    } else if same(name, "remote_addr") {
        VarKind::RemoteAddr
    } else if same(name, "request_uri") {
        VarKind::RequestUri
    } else if same(name, "uri") || same(name, "document_uri") {
        VarKind::Uri
    } else if same(name, "request_method") {
        VarKind::RequestMethod
    } else if same(name, "args") || same(name, "query_string") {
        VarKind::Args
    } else if same(name, "scheme") {
        VarKind::Scheme
    } else if same(name, "server_name") {
        VarKind::ServerName
    } else {
        return Segment::Var(VarKind::User, name.to_owned());
    };
    Segment::Var(kind, String::new())
}

fn flush(segments: &mut Vec<Segment>, lit: String)
    ensures
        final(segments)@.map_values(|s: Segment| s@) == old(segments)@.map_values(|s: Segment| s@)
            + literal(lit@),
{
    if !lit.as_str().is_empty() {
        segments.push(Segment::Literal(lit));
    }
    assert(segments@.map_values(|s: Segment| s@) =~= old(segments)@.map_values(|s: Segment| s@)
        + literal(lit@));
}

// ---------------------------------------------------------------------------
// Rendering
// ---------------------------------------------------------------------------

/// What a variable stands for in a request.
pub open spec fn var_text(kind: VarKind, name: Seq<char>, ctx: RequestCtx<'_>) -> Seq<char> {
    match kind {
        VarKind::Host => ctx.spec_host(),
        VarKind::RemoteAddr => ip_string(ctx.peer.ip),
        VarKind::RequestUri => ctx.spec_request_uri(),
        VarKind::Uri => ctx.uri.path@,
        VarKind::RequestMethod => ctx.method@,
        VarKind::Args => match ctx.uri.query {
            Some(q) => q@,
            None => seq![],
        },
        VarKind::Scheme => ctx.scheme@,
        VarKind::ServerName => match ctx.server_name {
            Some(n) => n@,
            None => seq![],
        },
        VarKind::Arg => or_empty(ctx.spec_query_arg(name)),
        VarKind::Http => or_empty(ctx.spec_header(replaced(name, '_', '-'))),
        VarKind::Cookie => or_empty(ctx.spec_cookie(name)),
        VarKind::User => or_empty(var_value(var_views(ctx.user_vars@), name)),
    }
}

pub open spec fn segment_text(s: SegmentV, ctx: RequestCtx<'_>) -> Seq<char> {
    match s {
        SegmentV::Literal(t) => t,
        SegmentV::Var(k, n) => var_text(k, n, ctx),
    }
}

/// The text of a template in a request: the texts of its segments in order.
pub open spec fn rendered(t: Seq<SegmentV>, ctx: RequestCtx<'_>) -> Seq<char>
    decreases t.len(),
{
    if t.len() == 0 {
        seq![]
    } else {
        rendered(t.drop_last(), ctx) + segment_text(t.last(), ctx)
    }
}

fn append_opt(out: &mut String, v: Option<String>)
    ensures
        final(out)@ == old(out)@ + or_empty(
            match v {
                Some(s) => Some(s@),
                None => None,
            },
        ),
{
    match v {
        Some(s) => out.append(s.as_str()),
        None => {
            assert(out@ + Seq::<char>::empty() =~= out@);
        },
    }
}

fn render_into(kind: VarKind, name: &str, ctx: &RequestCtx<'_>, out: &mut String)
    ensures
        final(out)@ == old(out)@ + var_text(kind, name@, *ctx),
{
    match kind {
        VarKind::Host => out.append(ctx.host().as_str()),
        VarKind::RemoteAddr => out.append(format_ip(ctx.peer.ip).as_str()),
        VarKind::RequestUri => out.append(ctx.request_uri()),
        VarKind::Uri => out.append(ctx.uri.path.as_str()),
        VarKind::RequestMethod => out.append(ctx.method),
        VarKind::Args => match &ctx.uri.query {
            Some(q) => out.append(q.as_str()),
            None => {
                assert(out@ + Seq::<char>::empty() =~= out@);
            },
        },
        VarKind::Scheme => out.append(ctx.scheme),
        VarKind::ServerName => match ctx.server_name {
            Some(n) => out.append(n),
            None => {
                assert(out@ + Seq::<char>::empty() =~= out@);
            },
        },
        VarKind::Arg => append_opt(out, ctx.query_arg(name)),
        VarKind::Http => append_opt(out, ctx.header(replace_char(name, '_', '-').as_str())),
        VarKind::Cookie => append_opt(out, ctx.cookie(name)),
        VarKind::User => append_opt(out, lookup_var(ctx.user_vars, name)),
    }
}

impl Template {
    pub fn parse(input: &str) -> (t: Template)
        ensures
            t@ == template_of(input@),
    {
        let v = chars(input);
        let mut segments: Vec<Segment> = Vec::new();
        let mut lit: String = String::new();
        let mut i: usize = 0;
        let ghost whole = template_of(input@);
        proof {
            assert(v@.skip(0) == input@);
            assert(lit@ =~= Seq::<char>::empty());
            assert(segments@.map_values(|s: Segment| s@) + whole =~= whole);
        }
        while i < v.len()
            invariant
                i <= v@.len(),
                segments@.map_values(|s: Segment| s@) + segments_of(v@.skip(i as int), lit@)
                    == whole,
            decreases v@.len() - i,
        {
            let ghost rest = v@.skip(i as int);
            let c = v[i];
            assert(rest[0] == c);
            assert(rest.skip(1) == v@.skip(i + 1));
            if c != '$' {
                lit.push(c);
                i = i + 1;
            } else {
                let r = read_reference(&v, i + 1);
                assert(rest.skip(1).skip(r.end - (i + 1)) == v@.skip(r.end as int));
                if r.found {
                    let ghost before = segments@.map_values(|s: Segment| s@);
                    let ghost old_lit = lit@;
                    flush(&mut segments, lit);
                    lit = String::new();
                    let ghost mid = segments@;
                    let var = classify(r.name.as_str());
                    segments.push(var);
                    proof {
                        let tail = segments_of(v@.skip(r.end as int), seq![]);
                        assert(segments@.map_values(|s: Segment| s@) =~= mid.map_values(
                            |s: Segment| s@,
                        ).push(var@));
                        assert(lit@ =~= Seq::<char>::empty());
                        assert(before + (literal(old_lit) + seq![var@] + tail)
                            =~= segments@.map_values(|s: Segment| s@) + tail);
                    }
                } else {
                    lit.push('$');
                    lit.append(r.name.as_str());
                }
                i = r.end;
            }
        }
        assert(v@.skip(i as int).len() == 0);
        flush(&mut segments, lit);
        Template { segments }
    }

    pub fn render(&self, ctx: &RequestCtx<'_>) -> (r: String)
        ensures
            r@ == rendered(self@, *ctx),
    {
        let mut out: String = String::new();
        let mut i: usize = 0;
        assert(self@.take(0) =~= Seq::<SegmentV>::empty());
        while i < self.segments.len()
            invariant
                i <= self.segments@.len(),
                out@ == rendered(self@.take(i as int), *ctx),
            decreases self.segments@.len() - i,
        {
            let ghost done = out@;
            match &self.segments[i] {
                Segment::Literal(s) => out.append(s.as_str()),
                Segment::Var(k, n) => render_into(*k, n.as_str(), ctx, &mut out),
            }
            i = i + 1;
            assert(self@.take(i as int).drop_last() == self@.take(i - 1));
            assert(self@.take(i as int).last() == self.segments@[i - 1]@);
        }
        assert(self@.take(i as int) == self@);
        out
    }

    /// True if the template contains no variable references.
    pub fn is_literal(&self) -> (r: bool)
        ensures
            r == (forall|i: int| 0 <= i < self@.len() ==> #[trigger] self@[i] is Literal),
    {
        let mut i: usize = 0;
        while i < self.segments.len()
            invariant
                i <= self.segments@.len(),
                forall|k: int| 0 <= k < i ==> #[trigger] self@[k] is Literal,
            decreases self.segments@.len() - i,
        {
            assert(self@[i as int] == self.segments@[i as int]@);
            match &self.segments[i] {
                Segment::Literal(_) => {},
                Segment::Var(_, _) => {
                    assert(!(self@[i as int] is Literal));
                    return false;
                },
            }
            i = i + 1;
        }
        true
    }

    /// An independent copy.
    pub fn copy(&self) -> (t: Template)
        ensures
            t@ == self@,
    {
        let mut segments: Vec<Segment> = Vec::new();
        let mut i: usize = 0;
        while i < self.segments.len()
            invariant
                i <= self.segments@.len(),
                segments@.map_values(|s: Segment| s@) == self@.take(i as int),
            decreases self.segments@.len() - i,
        {
            let s = match &self.segments[i] {
                Segment::Literal(s) => Segment::Literal(s.clone()),
                Segment::Var(k, n) => Segment::Var(*k, n.clone()),
            };
            assert(s@ == self@[i as int]);
            let ghost before = segments@;
            segments.push(s);
            i = i + 1;
            assert(segments@.map_values(|s: Segment| s@) =~= before.map_values(
                |s: Segment| s@,
            ).push(s@));
            assert(segments@.map_values(|s: Segment| s@) =~= self@.take(i as int));
        }
        assert(self@.take(i as int) == self@);
        Template { segments }
    }
}

// ---------------------------------------------------------------------------
// Laws
// ---------------------------------------------------------------------------

/// Whether no variable starts in a text: every `$` in it is the last character
/// or stands in front of one that no name starts with.
pub open spec fn names_nothing(s: Seq<char>) -> bool {
    forall|i: int|
        0 <= i && i + 1 < s.len() && #[trigger] s[i] == '$' ==> !is_alnum(s[i + 1]) && s[i + 1]
            != '_' && s[i + 1] != '{'
}

/// Text in which no variable starts is a template of one literal, or of nothing;
/// a lone `$` is kept.
pub proof fn law_plain_text_is_literal(s: Seq<char>)
    requires
        names_nothing(s),
    ensures
        template_of(s) == literal(s),
{
    lemma_plain(s, seq![]);
    assert(Seq::<char>::empty() + s =~= s);
}

proof fn lemma_plain(s: Seq<char>, lit: Seq<char>)
    requires
        names_nothing(s),
    ensures
        segments_of(s, lit) == literal(lit + s),
    decreases s.len(),
{
    if s.len() == 0 {
        assert(lit + s =~= lit);
    } else {
        let rest = s.skip(1);
        assert forall|i: int| 0 <= i && i + 1 < rest.len() && #[trigger] rest[i]
            == '$' implies !is_alnum(rest[i + 1]) && rest[i + 1] != '_' && rest[i + 1] != '{' by {
            assert(rest[i] == s[i + 1] && rest[i + 1] == s[i + 2]);
        }
        lemma_plain(rest, lit.push(s[0]));
        assert(lit.push(s[0]) + rest =~= lit + s);
        if s[0] == '$' {
            if rest.len() > 0 {
                assert(rest[0] == s[1]);
            }
            assert(ident_len(rest) == 0);
            assert(rest.take(0) =~= seq![]);
            assert(rest.skip(0) =~= rest);
            assert(lit.push('$') + Seq::<char>::empty() =~= lit.push('$'));
        }
    }
}

/// Text in which no variable starts renders as itself in every request.
pub proof fn law_plain_text_renders_as_itself(s: Seq<char>, ctx: RequestCtx<'_>)
    requires
        names_nothing(s),
    ensures
        rendered(template_of(s), ctx) == s,
{
    law_plain_text_is_literal(s);
    if s.len() > 0 {
        let t = seq![SegmentV::Literal(s)];
        assert(t.drop_last() =~= Seq::<SegmentV>::empty());
        assert(rendered(t.drop_last(), ctx) =~= Seq::<char>::empty());
        assert(rendered(t, ctx) =~= s);
    } else {
        assert(s =~= Seq::<char>::empty());
    }
}

/// A name that is neither built in nor published by a `map` renders as the
/// empty string.
pub proof fn law_unknown_variable_is_empty(name: Seq<char>, ctx: RequestCtx<'_>)
    requires
        variable(name) == SegmentV::Var(VarKind::User, name),
        var_value(var_views(ctx.user_vars@), name) is None,
    ensures
        segment_text(variable(name), ctx) == Seq::<char>::empty(),
{
}

/// A template without variables renders the same in every request.
pub proof fn law_literal_ignores_request(t: Seq<SegmentV>, a: RequestCtx<'_>, b: RequestCtx<'_>)
    requires
        forall|i: int| 0 <= i < t.len() ==> #[trigger] t[i] is Literal,
    ensures
        rendered(t, a) == rendered(t, b),
    decreases t.len(),
{
    if t.len() > 0 {
        assert forall|i: int| 0 <= i < t.drop_last().len() implies #[trigger] t.drop_last()[i] is Literal by {
            assert(t.drop_last()[i] == t[i]);
        }
        law_literal_ignores_request(t.drop_last(), a, b);
        assert(t.last() == t[t.len() - 1]);
    }
}

} // verus!
