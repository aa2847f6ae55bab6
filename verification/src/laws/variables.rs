//! Laws on configured values with variables in them.

use super::text::law_prefix_goes_off;
use crate::net::ip_string;
use crate::request_ctx::{RequestCtx, var_value, var_views};
use crate::template::{
    lemma_ident_len, lemma_reference_used, literal, reference, rendered, segment_text, segments_of,
    SegmentV, template_of, variable,
};
use crate::text::{after_prefix, is_alnum, lemma_position, lemma_position_is, replaced};
use vstd::prelude::*;
use vstd::string::*;

verus! {

/// What a configured value comes to in a request.
pub open spec fn expanded(s: Seq<char>, ctx: RequestCtx<'_>) -> Seq<char> {
    rendered(template_of(s), ctx)
}

/// A character of a variable's name.
pub open spec fn in_name(c: char) -> bool {
    '0' <= c <= '9' || 'a' <= c <= 'z' || 'A' <= c <= 'Z' || c == '_'
}

proof fn lemma_rendered_concat(a: Seq<SegmentV>, b: Seq<SegmentV>, ctx: RequestCtx<'_>)
    ensures
        rendered(a + b, ctx) == rendered(a, ctx) + rendered(b, ctx),
    decreases b.len(),
{
    if b.len() == 0 {
        assert(a + b =~= a);
        assert(rendered(a, ctx) + rendered(b, ctx) =~= rendered(a, ctx));
    } else {
        lemma_rendered_concat(a, b.drop_last(), ctx);
        assert((a + b).drop_last() =~= a + b.drop_last());
        assert((a + b).last() == b.last());
        assert(rendered(a + b, ctx) =~= rendered(a, ctx) + rendered(b, ctx));
    }
}

proof fn lemma_one(s: SegmentV, ctx: RequestCtx<'_>)
    ensures
        rendered(seq![s], ctx) == segment_text(s, ctx),
{
    assert(seq![s].drop_last() =~= seq![]);
    assert(rendered(seq![s].drop_last(), ctx) =~= seq![]);
    assert(rendered(seq![s], ctx) =~= segment_text(s, ctx));
}

proof fn lemma_literal(s: Seq<char>, ctx: RequestCtx<'_>)
    ensures
        rendered(literal(s), ctx) == s,
{
    if s.len() > 0 {
        lemma_one(SegmentV::Literal(s), ctx);
    } else {
        assert(rendered(literal(s), ctx) =~= s);
    }
}

proof fn lemma_front(s: Seq<char>, lit: Seq<char>, ctx: RequestCtx<'_>)
    ensures
        rendered(segments_of(s, lit), ctx) == lit + rendered(segments_of(s, seq![]), ctx),
    decreases s.len(),
{
    let none = Seq::<char>::empty();
    if s.len() == 0 {
        lemma_literal(lit, ctx);
        lemma_literal(none, ctx);
        assert(lit + none =~= lit);
    } else if s[0] != '$' {
        let t = s.skip(1);
        lemma_front(t, lit.push(s[0]), ctx);
        lemma_front(t, none.push(s[0]), ctx);
        assert(lit.push(s[0]) + rendered(segments_of(t, none), ctx) =~= lit + (none.push(s[0])
            + rendered(segments_of(t, none), ctx)));
    } else {
        let r = reference(s.skip(1));
        lemma_reference_used(s.skip(1));
        let rest = s.skip(1).skip(r.used);
        if r.found {
            let v = seq![variable(r.name)];
            let tail = segments_of(rest, none);
            lemma_rendered_concat(literal(lit) + v, tail, ctx);
            lemma_rendered_concat(literal(lit), v, ctx);
            lemma_rendered_concat(literal(none) + v, tail, ctx);
            lemma_rendered_concat(literal(none), v, ctx);
            lemma_literal(lit, ctx);
            lemma_literal(none, ctx);
            assert(rendered(segments_of(s, lit), ctx) =~= lit + rendered(
                segments_of(s, none),
                ctx,
            ));
        } else {
            lemma_front(rest, lit.push('$') + r.name, ctx);
            lemma_front(rest, none.push('$') + r.name, ctx);
            assert((lit.push('$') + r.name) + rendered(segments_of(rest, none), ctx) =~= lit + ((
            none.push('$') + r.name) + rendered(segments_of(rest, none), ctx)));
        }
    }
}

proof fn lemma_reference_renders(name: Seq<char>, s: Seq<char>, whole: Seq<char>, ctx: RequestCtx<'_>)
    requires
        whole.len() > 0,
        whole[0] == '$',
        reference(whole.skip(1)).found,
        reference(whole.skip(1)).name == name,
        whole.skip(1).skip(reference(whole.skip(1)).used) == s,
    ensures
        expanded(whole, ctx) == segment_text(variable(name), ctx) + expanded(s, ctx),
{
    let none = Seq::<char>::empty();
    let v = seq![variable(name)];
    lemma_rendered_concat(literal(none) + v, segments_of(s, none), ctx);
    lemma_rendered_concat(literal(none), v, ctx);
    lemma_literal(none, ctx);
    lemma_one(variable(name), ctx);
    assert(expanded(whole, ctx) =~= segment_text(variable(name), ctx) + expanded(s, ctx));
}

proof fn lemma_plain_char(c: char, s: Seq<char>, ctx: RequestCtx<'_>)
    requires
        c != '$',
    ensures
        expanded(seq![c] + s, ctx) == seq![c] + expanded(s, ctx),
{
    let none = Seq::<char>::empty();
    let w = seq![c] + s;
    assert(w.skip(1) =~= s);
    assert(w[0] == c);
    lemma_front(s, none.push(c), ctx);
    assert(none.push(c) =~= seq![c]);
}

proof fn lemma_named(name: Seq<char>, s: Seq<char>, ctx: RequestCtx<'_>)
    requires
        name.len() > 0,
        forall|k: int| 0 <= k < name.len() ==> in_name(#[trigger] name[k]),
        s.len() == 0 || !in_name(s[0]),
    ensures
        expanded(seq!['$'] + name + s, ctx) == segment_text(variable(name), ctx) + expanded(s, ctx),
{
    let w = seq!['$'] + name + s;
    let t = w.skip(1);
    assert(t =~= name + s);
    assert forall|k: int| 0 <= k < name.len() implies is_alnum(#[trigger] t[k]) || t[k] == '_' by {
        assert(t[k] == name[k] && in_name(name[k]));
    }
    if s.len() > 0 {
        assert(t[name.len() as int] == s[0]);
    }
    lemma_ident_len(t, name.len() as int);
    assert(t[0] == name[0] && in_name(name[0]));
    assert(t.take(name.len() as int) =~= name);
    assert(t.skip(name.len() as int) =~= s);
    lemma_reference_renders(name, s, w, ctx);
}

proof fn lemma_braced(name: Seq<char>, s: Seq<char>, ctx: RequestCtx<'_>)
    requires
        !name.contains('}'),
    ensures
        expanded(seq!['$', '{'] + name + seq!['}'] + s, ctx) == segment_text(variable(name), ctx)
            + expanded(s, ctx),
{
    let w = seq!['$', '{'] + name + seq!['}'] + s;
    let t = w.skip(1);
    let n = name.len() as int;
    let u = t.skip(1);
    assert(u =~= name + seq!['}'] + s);
    assert forall|k: int| 0 <= k < n implies u[k] != '}' by {
        assert(u[k] == name[k]);
    }
    assert(u[n] == '}');
    lemma_position(u, '}', n);
    assert(t.subrange(1, 1 + n) =~= name);
    assert(t.skip(n + 2) =~= s);
    lemma_reference_renders(name, s, w, ctx);
}

proof fn lemma_lone_dollar(s: Seq<char>, ctx: RequestCtx<'_>)
    requires
        s.len() == 0 || !in_name(s[0]) && s[0] != '{',
    ensures
        expanded(seq!['$'] + s, ctx) == seq!['$'] + expanded(s, ctx),
{
    let none = Seq::<char>::empty();
    let w = seq!['$'] + s;
    assert(w.skip(1) =~= s);
    lemma_ident_len(s, 0);
    let r = reference(s);
    assert(s.skip(0) =~= s);
    assert(s.take(0) =~= none);
    lemma_front(s, none.push('$') + none, ctx);
    assert(none.push('$') + none =~= seq!['$']);
}

/// A value is read from left to right. Text stands for itself. `$name`, as far as
/// the name reaches, and `${name}` stand for the variable. A `$` in front of anything
/// else stands for itself.
pub proof fn law_values_are_expanded(
    c: char,
    name: Seq<char>,
    s: Seq<char>,
    ctx: RequestCtx<'_>,
)
    ensures
        expanded(seq![], ctx).len() == 0,
        c != '$' ==> expanded(seq![c] + s, ctx) == seq![c] + expanded(s, ctx),
        name.len() > 0 && (forall|k: int| 0 <= k < name.len() ==> in_name(#[trigger] name[k])) && (
        s.len() == 0 || !in_name(s[0])) ==> expanded(seq!['$'] + name + s, ctx) == segment_text(
            variable(name),
            ctx,
        ) + expanded(s, ctx),
        !name.contains('}') ==> expanded(seq!['$', '{'] + name + seq!['}'] + s, ctx)
            == segment_text(variable(name), ctx) + expanded(s, ctx),
        s.len() == 0 || !in_name(s[0]) && s[0] != '{' ==> expanded(seq!['$'] + s, ctx) == seq!['$']
            + expanded(s, ctx),
{
    lemma_literal(seq![], ctx);
    if c != '$' {
        lemma_plain_char(c, s, ctx);
    }
    if name.len() > 0 && (forall|k: int| 0 <= k < name.len() ==> in_name(#[trigger] name[k])) && (
    s.len() == 0 || !in_name(s[0])) {
        lemma_named(name, s, ctx);
    }
    if !name.contains('}') {
        lemma_braced(name, s, ctx);
    }
    if s.len() == 0 || !in_name(s[0]) && s[0] != '{' {
        lemma_lone_dollar(s, ctx);
    }
}

/// Without its closing brace a name is text, and so is everything behind it.
pub proof fn law_unclosed_brace(s: Seq<char>, ctx: RequestCtx<'_>)
    requires
        !s.contains('}'),
    ensures
        expanded(seq!['$', '{'] + s, ctx) == seq!['$'] + s,
{
    let none = Seq::<char>::empty();
    let w = seq!['$', '{'] + s;
    let t = w.skip(1);
    let u = t.skip(1);
    assert(u =~= s);
    lemma_position_is(u, '}');
    let r = reference(t);
    assert(t[0] == '{');
    assert(!r.found && r.name == s);
    assert(t.skip(r.used) =~= none);
    lemma_literal(none.push('$') + s, ctx);
    assert(none.push('$') + s =~= seq!['$'] + s);
    assert(segments_of(none, none.push('$') + s) == literal(none.push('$') + s));
    assert(w[0] == '$');
    assert(segments_of(w, none) == segments_of(t.skip(r.used), none.push('$') + r.name));
}

/// What the variables stand for: the parts of the request, and under `arg_`, `http_`
/// and `cookie_` an argument, a header and a cookie. Another name is what a `map`
/// published under it, or nothing.
#[verifier::rlimit(50)]
pub proof fn law_variables(name: Seq<char>, ctx: RequestCtx<'_>)
    ensures
        segment_text(variable("host"@), ctx) == ctx.spec_host(),
        segment_text(variable("remote_addr"@), ctx) == ip_string(ctx.peer.ip),
        segment_text(variable("request_uri"@), ctx) == ctx.spec_request_uri(),
        segment_text(variable("uri"@), ctx) == ctx.uri.path@,
        segment_text(variable("document_uri"@), ctx) == ctx.uri.path@,
        segment_text(variable("request_method"@), ctx) == ctx.method@,
        ctx.uri.query matches Some(q) ==> segment_text(variable("args"@), ctx) == q@ && segment_text(
            variable("query_string"@),
            ctx,
        ) == q@,
        ctx.uri.query is None ==> segment_text(variable("args"@), ctx).len() == 0 && segment_text(
            variable("query_string"@),
            ctx,
        ).len() == 0,
        segment_text(variable("scheme"@), ctx) == ctx.scheme@,
        ctx.server_name matches Some(n) ==> segment_text(variable("server_name"@), ctx) == n@,
        ctx.server_name is None ==> segment_text(variable("server_name"@), ctx).len() == 0,
        ctx.spec_query_arg(name) matches Some(v) ==> segment_text(variable("arg_"@ + name), ctx)
            == v,
        ctx.spec_query_arg(name) is None ==> segment_text(variable("arg_"@ + name), ctx).len() == 0,
        ctx.spec_header(replaced(name, '_', '-')) matches Some(v) ==> segment_text(
            variable("http_"@ + name),
            ctx,
        ) == v,
        ctx.spec_header(replaced(name, '_', '-')) is None ==> segment_text(
            variable("http_"@ + name),
            ctx,
        ).len() == 0,
        ctx.spec_cookie(name) matches Some(v) ==> segment_text(variable("cookie_"@ + name), ctx)
            == v,
        ctx.spec_cookie(name) is None ==> segment_text(variable("cookie_"@ + name), ctx).len() == 0,
        !begins(name, "arg_"@) && !begins(name, "http_"@) && !begins(name, "cookie_"@) && name
            != "host"@ && name != "remote_addr"@ && name != "request_uri"@ && name != "uri"@ && name
            != "document_uri"@ && name != "request_method"@ && name != "args"@ && name
            != "query_string"@ && name != "scheme"@ && name != "server_name"@ ==> segment_text(
            variable(name),
            ctx,
        ) == (match var_value(var_views(ctx.user_vars@), name) {
            Some(v) => v,
            None => seq![],
        }),
{
    lemma_variable_names();
    let (a, h, k) = ("arg_"@, "http_"@, "cookie_"@);
    lemma_prefixed(a, name, h);
    lemma_prefixed(a, name, k);
    lemma_prefixed(h, name, a);
    lemma_prefixed(h, name, k);
    lemma_prefixed(k, name, a);
    lemma_prefixed(k, name, h);
    law_prefix_goes_off(name, a);
    law_prefix_goes_off(name, h);
    law_prefix_goes_off(name, k);
    lemma_not_prefixed("host"@);
    lemma_not_prefixed("remote_addr"@);
    lemma_not_prefixed("request_uri"@);
    lemma_not_prefixed("uri"@);
    lemma_not_prefixed("document_uri"@);
    lemma_not_prefixed("request_method"@);
    lemma_not_prefixed("args"@);
    lemma_not_prefixed("query_string"@);
    lemma_not_prefixed("scheme"@);
    lemma_not_prefixed("server_name"@);
}

/// Whether a text begins with another.
pub open spec fn begins(s: Seq<char>, p: Seq<char>) -> bool {
    exists|t: Seq<char>| s == #[trigger] (p + t)
}

proof fn lemma_prefixed(p: Seq<char>, t: Seq<char>, q: Seq<char>)
    ensures
        after_prefix(p + t, p) == Some(t),
        p.len() > 0 && q.len() > 0 && p[0] != q[0] ==> after_prefix(p + t, q) is None,
{
    assert((p + t).take(p.len() as int) =~= p);
    assert((p + t).skip(p.len() as int) =~= t);
    if p.len() > 0 && q.len() > 0 && p[0] != q[0] && q.is_prefix_of(p + t) {
        assert((p + t).take(q.len() as int)[0] == q[0]);
    }
}

proof fn lemma_not_prefixed(s: Seq<char>)
    requires
        s.len() > 0,
        s[0] != 'a' || (s.len() >= 4 && s[3] != '_'),
        s[0] != 'h' || s.len() < 5,
        s[0] != 'c',
    ensures
        after_prefix(s, "arg_"@) is None,
        after_prefix(s, "http_"@) is None,
        after_prefix(s, "cookie_"@) is None,
{
    lemma_variable_names();
    if "arg_"@.is_prefix_of(s) {
        assert(s.take(4)[0] == 'a' && s.take(4)[3] == '_');
    }
    if "http_"@.is_prefix_of(s) {
        assert(s.take(5)[0] == 'h');
    }
    if "cookie_"@.is_prefix_of(s) {
        assert(s.take(7)[0] == 'c');
    }
}

proof fn lemma_variable_names()
    ensures
        "arg_"@.len() == 4 && "arg_"@[0] == 'a' && "arg_"@[3] == '_',
        "http_"@.len() == 5 && "http_"@[0] == 'h',
        "cookie_"@.len() == 7 && "cookie_"@[0] == 'c',
        "host"@.len() == 4 && "host"@[0] == 'h',
        "args"@.len() == 4 && "args"@[0] == 'a' && "args"@[3] == 's',
        "uri"@.len() == 3 && "uri"@[0] == 'u',
        "scheme"@.len() == 6 && "scheme"@[0] == 's',
        "remote_addr"@.len() == 11 && "remote_addr"@[0] == 'r' && "remote_addr"@[2] == 'm',
        "request_uri"@.len() == 11 && "request_uri"@[0] == 'r' && "request_uri"@[2] == 'q',
        "server_name"@.len() == 11 && "server_name"@[0] == 's',
        "document_uri"@.len() == 12 && "document_uri"@[0] == 'd',
        "query_string"@.len() == 12 && "query_string"@[0] == 'q',
        "request_method"@.len() == 14 && "request_method"@[0] == 'r',
{
    reveal_strlit("arg_");
    reveal_strlit("http_");
    reveal_strlit("cookie_");
    reveal_strlit("host");
    reveal_strlit("args");
    reveal_strlit("uri");
    reveal_strlit("scheme");
    reveal_strlit("remote_addr");
    reveal_strlit("request_uri");
    reveal_strlit("server_name");
    reveal_strlit("document_uri");
    reveal_strlit("query_string");
    reveal_strlit("request_method");
}

} // verus!
