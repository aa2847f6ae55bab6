//! Laws on the response cache: what may be stored, for how long, and to whom it is
//! served.

use super::text::{
    is_blank, is_piece, law_lower, law_split_has_every_piece, law_trim, law_trim_finds_the_core,
    lemma_piece_bounds,
};
use crate::cache::{
    after_lookup, any_forbids, CacheDecisionV, decision, entry_size, EntryV, evicted, first_fit,
    forbidden, forbids, fresh, holds, lemma_drop_shrinks, lemma_drop_wf, lemma_fresh,
    lemma_slot_index_is, lemma_slots_remove, lemma_slots_update, lemma_soonest_bound,
    lemma_soonest_slot_bound, lemma_variants_remove, lookup, lookup_metrics, put_metrics,
    signature_of, Slot, slot_index, slots_count, slots_size, soonest, soonest_slot, tokens_in,
    ttl_for, variants_size, vary_names, well_formed, without_soonest,
};
use crate::headers::{header_text, header_values, is_header_name, is_text_byte, readable};
use crate::metrics::Metrics;
use crate::request_ctx::or_empty;
use crate::text::{lower, split_at, trimmed};
use crate::time::Duration;
use vstd::prelude::*;
use vstd::string::*;
use vstd::utf8::encode_utf8;

verus! {

/// Whether a comma-separated list has an item that, trimmed and lowered, is `word`.
pub open spec fn names(list: Seq<char>, word: Seq<char>) -> bool {
    exists|a: int, b: int|
        #![trigger list.subrange(a, b)]
        is_piece(list, ',', a, b) && lower(trimmed(list.subrange(a, b))) == word
}

/// A name of a header in lower case stands in a map as it is.
pub proof fn lemma_plain_name(n: Seq<char>)
    requires
        1 <= n.len() <= 100,
        forall|i: int| 0 <= i < n.len() ==> 'a' <= #[trigger] n[i] <= 'z' || n[i] == '-',
    ensures
        is_header_name(n),
        lower(n) == n,
{
    assert(lower(n) =~= n);
}

proof fn lemma_lower_keeps_pieces(s: Seq<char>, a: int, b: int)
    requires
        0 <= a <= b <= s.len(),
    ensures
        is_piece(lower(s), ',', a, b) == is_piece(s, ',', a, b),
        lower(s).subrange(a, b) == lower(s.subrange(a, b)),
{
    let l = lower(s);
    assert forall|k: int| 0 <= k < s.len() implies ((#[trigger] l[k]) == ',') == (s[k] == ',') by {
        law_lower(s, k);
    }
    if is_piece(s, ',', a, b) {
        assert forall|k: int| a <= k < b implies l[k] != ',' by {
            assert(s[k] != ',');
        }
    }
    if is_piece(l, ',', a, b) {
        assert forall|k: int| a <= k < b implies s[k] != ',' by {
            assert(l[k] != ',');
        }
    }
    assert(l.subrange(a, b) =~= lower(s.subrange(a, b)));
}

/// It is the same to trim first or to lower first.
pub proof fn lemma_trim_and_lower(s: Seq<char>)
    ensures
        trimmed(lower(s)) == lower(trimmed(s)),
{
    law_trim(s);
    let t = trimmed(s);
    let (a, b) = choose|a: int, b: int|
        0 <= a <= b <= s.len() && t == #[trigger] s.subrange(a, b) && (forall|k: int|
            0 <= k < s.len() && !(a <= k < b) ==> is_blank(#[trigger] s[k]));
    let l = lower(s).subrange(0, a);
    let r = lower(s).subrange(b, s.len() as int);
    assert forall|k: int| 0 <= k < s.len() implies is_blank(#[trigger] lower(s)[k]) == is_blank(
        s[k],
    ) by {
        law_lower(s, k);
    }
    assert forall|k: int| 0 <= k < l.len() implies is_blank(#[trigger] l[k]) by {
        assert(l[k] == lower(s)[k] && is_blank(s[k]));
    }
    assert forall|k: int| 0 <= k < r.len() implies is_blank(#[trigger] r[k]) by {
        assert(r[k] == lower(s)[b + k] && is_blank(s[b + k]));
    }
    let m = lower(t);
    if t.len() > 0 {
        assert(m[0] == lower(s)[a] && t[0] == s[a]);
        assert(m.last() == lower(s)[b - 1] && t.last() == s[b - 1]);
    }
    assert(lower(s) =~= l + m + r);
    law_trim_finds_the_core(l, m, r);
}

proof fn lemma_forbidden(cc: Seq<char>)
    ensures
        forbidden(cc) <==> names(cc, "no-store"@) || names(cc, "private"@) || names(
            cc,
            "no-cache"@,
        ),
{
    let l = lower(cc);
    if forbidden(cc) {
        let i = choose|i: int|
            0 <= i < split_at(l, ',').len() && forbids(trimmed(#[trigger] split_at(l, ',')[i]));
        let (a, b) = lemma_piece_bounds(l, ',', i);
        lemma_lower_keeps_pieces(cc, a, b);
        lemma_trim_and_lower(cc.subrange(a, b));
    }
    assert forall|a: int, b: int|
        #![trigger cc.subrange(a, b)]
        is_piece(cc, ',', a, b) && (lower(trimmed(cc.subrange(a, b))) == "no-store"@ || lower(
            trimmed(cc.subrange(a, b)),
        ) == "private"@ || lower(trimmed(cc.subrange(a, b))) == "no-cache"@) implies forbidden(
        cc,
    ) by {
        lemma_lower_keeps_pieces(cc, a, b);
        lemma_trim_and_lower(cc.subrange(a, b));
        law_split_has_every_piece(l, ',', a, b);
        let k = choose|k: int|
            0 <= k < split_at(l, ',').len() && split_at(l, ',')[k] == l.subrange(a, b);
        assert(forbids(trimmed(split_at(l, ',')[k])));
    }
}

/// A response one of whose `Cache-Control` lines says `no-store`, `private` or
/// `no-cache`, in whatever case and with whatever blanks around it, is not stored.
pub proof fn law_cache_control_is_obeyed(
    method: Seq<char>,
    headers: Map<Seq<char>, Seq<Seq<u8>>>,
    status: u16,
    body_len: int,
    rules: Seq<(Seq<u16>, Duration)>,
    i: int,
    a: int,
    b: int,
)
    requires
        headers.contains_key("cache-control"@),
        0 <= i < headers["cache-control"@].len(),
        is_piece(readable(headers["cache-control"@][i]), ',', a, b),
        ({
            let item = lower(trimmed(readable(headers["cache-control"@][i]).subrange(a, b)));
            item == "no-store"@ || item == "private"@ || item == "no-cache"@
        }),
    ensures
        decision(method, headers, status, body_len, rules) is Bypass,
{
    reveal_strlit("cache-control");
    lemma_plain_name("cache-control"@);
    let lines = header_values(headers, "cache-control"@);
    lemma_forbidden(readable(lines[i]));
    assert(forbidden(readable(lines[i])));
    assert(any_forbids(lines));
}

/// What `Vary` names: the items of its lines, trimmed, lowered and not empty.
pub proof fn law_vary_names(lines: Seq<Seq<u8>>, n: Seq<char>)
    ensures
        vary_names(lines).contains(n) <==> n.len() > 0 && exists|i: int|
            0 <= i < lines.len() && names(#[trigger] readable(lines[i]), n),
    decreases lines.len(),
{
    if lines.len() > 0 {
        let before = lines.drop_last();
        let line = readable(lines.last());
        let parts = split_at(line, ',');
        law_vary_names(before, n);
        lemma_tokens(parts, n);
        let all = vary_names(lines);
        let last = tokens_in(parts);
        if all.contains(n) {
            let k = choose|k: int| 0 <= k < all.len() && all[k] == n;
            if k < vary_names(before).len() {
                assert(vary_names(before)[k] == n);
                let i = choose|i: int|
                    0 <= i < before.len() && names(#[trigger] readable(before[i]), n);
                assert(readable(lines[i]) == readable(before[i]));
            } else {
                assert(last[k - vary_names(before).len()] == n);
                let p = choose|p: int|
                    0 <= p < parts.len() && lower(trimmed(#[trigger] parts[p])) == n;
                let (a, b) = lemma_piece_bounds(line, ',', p);
                assert(names(readable(lines[lines.len() - 1]), n));
            }
        }
        if n.len() > 0 && exists|i: int|
            0 <= i < lines.len() && names(#[trigger] readable(lines[i]), n) {
            let i = choose|i: int| 0 <= i < lines.len() && names(#[trigger] readable(lines[i]), n);
            if i < lines.len() - 1 {
                assert(readable(before[i]) == readable(lines[i]));
                let k = choose|k: int|
                    0 <= k < vary_names(before).len() && vary_names(before)[k] == n;
                assert(all[k] == n);
            } else {
                let (a, b) = choose|a: int, b: int|
                    #![trigger line.subrange(a, b)]
                    is_piece(line, ',', a, b) && lower(trimmed(line.subrange(a, b))) == n;
                law_split_has_every_piece(line, ',', a, b);
                let p = choose|p: int| 0 <= p < parts.len() && parts[p] == line.subrange(a, b);
                assert(lower(trimmed(parts[p])) == n);
                let k = choose|k: int| 0 <= k < last.len() && last[k] == n;
                assert(all[vary_names(before).len() + k] == n);
            }
        }
    }
}

proof fn lemma_tokens(parts: Seq<Seq<char>>, n: Seq<char>)
    ensures
        tokens_in(parts).contains(n) <==> n.len() > 0 && exists|p: int|
            0 <= p < parts.len() && lower(trimmed(#[trigger] parts[p])) == n,
    decreases parts.len(),
{
    if parts.len() > 0 {
        let before = parts.drop_last();
        let t = lower(trimmed(parts.last()));
        lemma_tokens(before, n);
        let all = tokens_in(parts);
        if all.contains(n) {
            let k = choose|k: int| 0 <= k < all.len() && all[k] == n;
            if k < tokens_in(before).len() {
                assert(tokens_in(before)[k] == n);
                let p = choose|p: int|
                    0 <= p < before.len() && lower(trimmed(#[trigger] before[p])) == n;
                assert(parts[p] == before[p]);
            } else {
                assert(lower(trimmed(parts[parts.len() - 1])) == n);
            }
        }
        if n.len() > 0 && exists|p: int|
            0 <= p < parts.len() && lower(trimmed(#[trigger] parts[p])) == n {
            let p = choose|p: int| 0 <= p < parts.len() && lower(trimmed(#[trigger] parts[p])) == n;
            if p < parts.len() - 1 {
                assert(before[p] == parts[p]);
                let k = choose|k: int| 0 <= k < tokens_in(before).len() && tokens_in(before)[k] == n;
                assert(all[k] == n);
            } else {
                assert(all[all.len() - 1] == n);
            }
        }
    }
}

/// Whether a `proxy_cache_valid` rule is about a status: it lists it, or lists
/// none.
pub open spec fn about(rule: (Seq<u16>, Duration), status: u16) -> bool {
    rule.0.len() == 0 || exists|k: int| 0 <= k < rule.0.len() && rule.0[k] == status
}

proof fn lemma_ttl(rules: Seq<(Seq<u16>, Duration)>, status: u16)
    ensures
        match ttl_for(rules, status) {
            Some(d) => exists|i: int|
                0 <= i < rules.len() && about(#[trigger] rules[i], status) && rules[i].1 == d
                    && forall|j: int| i < j < rules.len() ==> !about(#[trigger] rules[j], status),
            None => forall|j: int| 0 <= j < rules.len() ==> !about(#[trigger] rules[j], status),
        },
    decreases rules.len(),
{
    if rules.len() > 0 {
        let n = rules.len() - 1;
        if about(rules[n], status) {
            assert(rules.last().0.len() == 0 || rules.last().0.contains(status));
        } else {
            assert(!rules.last().0.contains(status));
            let before = rules.drop_last();
            lemma_ttl(before, status);
            if ttl_for(before, status) is Some {
                let d = ttl_for(before, status)->0;
                let i = choose|i: int|
                    0 <= i < before.len() && about(#[trigger] before[i], status) && before[i].1 == d
                        && forall|j: int|
                        i < j < before.len() ==> !about(#[trigger] before[j], status);
                assert(rules[i] == before[i]);
                assert forall|j: int| i < j < rules.len() implies !about(
                    #[trigger] rules[j],
                    status,
                ) by {
                    if j < n {
                        assert(rules[j] == before[j]);
                    }
                }
            } else {
                assert forall|j: int| 0 <= j < rules.len() implies !about(
                    #[trigger] rules[j],
                    status,
                ) by {
                    if j < n {
                        assert(rules[j] == before[j]);
                    }
                }
            }
        }
    }
}

/// Exactly these responses are stored: answers to `GET` without a cookie, whose
/// `Vary` does not name `*`, whose `Cache-Control` names none of the three words,
/// whose body is at most 4 MiB, and whose status a rule is about. The last such
/// rule says for how long.
#[verifier::rlimit(50)]
pub proof fn law_what_is_stored(
    method: Seq<char>,
    headers: Map<Seq<char>, Seq<Seq<u8>>>,
    status: u16,
    body_len: int,
    rules: Seq<(Seq<u16>, Duration)>,
)
    ensures
        decision(method, headers, status, body_len, rules) is Store <==> {
            &&& method == seq!['G', 'E', 'T']
            &&& !headers.contains_key("set-cookie"@)
            &&& headers.contains_key("vary"@) ==> forall|i: int|
                0 <= i < headers["vary"@].len() ==> !names(
                    #[trigger] readable(headers["vary"@][i]),
                    seq!['*'],
                )
            &&& headers.contains_key("cache-control"@) ==> forall|i: int|
                0 <= i < headers["cache-control"@].len() ==> {
                    let line = #[trigger] readable(headers["cache-control"@][i]);
                    !names(line, "no-store"@) && !names(line, "private"@) && !names(
                        line,
                        "no-cache"@,
                    )
                }
            &&& body_len <= 4194304
            &&& exists|i: int| 0 <= i < rules.len() && about(#[trigger] rules[i], status)
        },
        decision(method, headers, status, body_len, rules) matches CacheDecisionV::Store(d)
            ==> exists|i: int|
            0 <= i < rules.len() && about(#[trigger] rules[i], status) && rules[i].1 == d && forall|
                j: int,
            | i < j < rules.len() ==> !about(#[trigger] rules[j], status),
{
    reveal_strlit("GET");
    reveal_strlit("*");
    reveal_strlit("set-cookie");
    reveal_strlit("vary");
    reveal_strlit("cache-control");
    assert("GET"@ =~= seq!['G', 'E', 'T']);
    assert("*"@ =~= seq!['*']);
    lemma_plain_name("set-cookie"@);
    lemma_plain_name("vary"@);
    lemma_plain_name("cache-control"@);
    let vary = header_values(headers, "vary"@);
    law_vary_names(vary, "*"@);
    let lines = header_values(headers, "cache-control"@);
    assert forall|i: int| 0 <= i < lines.len() implies forbidden(#[trigger] readable(lines[i])) == (
    names(readable(lines[i]), "no-store"@) || names(readable(lines[i]), "private"@) || names(
        readable(lines[i]),
        "no-cache"@,
    )) by {
        lemma_forbidden(readable(lines[i]));
    }
    if any_forbids(lines) {
        let i = choose|i: int| 0 <= i < lines.len() && forbidden(readable(#[trigger] lines[i]));
        assert(forbidden(readable(lines[i])));
    }
    lemma_ttl(rules, status);
}

/// Why a response is not stored: the first of the reasons that there are, in this order.
pub proof fn law_reasons(
    method: Seq<char>,
    headers: Map<Seq<char>, Seq<Seq<u8>>>,
    status: u16,
    body_len: int,
    rules: Seq<(Seq<u16>, Duration)>,
)
    ensures
        ({
            let d = decision(method, headers, status, body_len, rules);
            let get = method == seq!['G', 'E', 'T'];
            let cookie = headers.contains_key("set-cookie"@);
            let star = headers.contains_key("vary"@) && exists|i: int|
                0 <= i < headers["vary"@].len() && names(
                    #[trigger] readable(headers["vary"@][i]),
                    seq!['*'],
                );
            &&& !get ==> d == CacheDecisionV::Bypass("method not GET"@)
            &&& get && cookie ==> d == CacheDecisionV::Bypass("response has Set-Cookie"@)
            &&& get && !cookie && star ==> d == CacheDecisionV::Bypass("response has Vary: *"@)
            &&& get && !cookie && !star && !(d is Store) && body_len <= 4194304 && (exists|i: int|
                0 <= i < rules.len() && about(#[trigger] rules[i], status)) ==> d
                == CacheDecisionV::Bypass("response Cache-Control disallows caching"@)
        }),
{
    reveal_strlit("GET");
    reveal_strlit("*");
    reveal_strlit("set-cookie");
    reveal_strlit("vary");
    assert("GET"@ =~= seq!['G', 'E', 'T']);
    assert("*"@ =~= seq!['*']);
    lemma_plain_name("set-cookie"@);
    lemma_plain_name("vary"@);
    law_vary_names(header_values(headers, "vary"@), "*"@);
    lemma_ttl(rules, status);
}

/// What a header of a request says in a signature: its value as text, or nothing.
pub open spec fn says(req: Map<Seq<char>, Seq<Seq<u8>>>, name: Seq<char>) -> Seq<char> {
    or_empty(header_text(req, name))
}

proof fn lemma_signature_front(req: Map<Seq<char>, Seq<Seq<u8>>>, names: Seq<Seq<char>>)
    requires
        names.len() > 0,
    ensures
        signature_of(req, names) == names[0] + seq!['='] + says(req, names[0]) + seq!['\0']
            + signature_of(req, names.skip(1)),
    decreases names.len(),
{
    reveal_strlit("=");
    reveal_strlit("\0");
    assert("="@ =~= seq!['=']);
    assert("\0"@ =~= seq!['\0']);
    let before = names.drop_last();
    if names.len() == 1 {
        assert(before =~= seq![]);
        assert(names.skip(1) =~= seq![]);
        assert(signature_of(req, before) =~= seq![]);
        assert(signature_of(req, names) =~= names[0] + seq!['='] + says(req, names[0]) + seq!['\0']
            + signature_of(req, names.skip(1)));
    } else {
        lemma_signature_front(req, before);
        assert(names.skip(1).drop_last() =~= before.skip(1));
        assert(signature_of(req, names) =~= names[0] + seq!['='] + says(req, names[0]) + seq!['\0']
            + signature_of(req, names.skip(1)));
    }
}

proof fn lemma_no_nul(req: Map<Seq<char>, Seq<Seq<u8>>>, name: Seq<char>)
    ensures
        forall|i: int| 0 <= i < says(req, name).len() ==> says(req, name)[i] != '\0',
{
    match crate::headers::header_value(req, name) {
        Some(v) => {
            if header_text(req, name) is Some {
                assert forall|i: int| 0 <= i < says(req, name).len() implies says(req, name)[i]
                    != '\0' by {
                    assert(is_text_byte(v[i]));
                }
            }
        },
        None => {},
    }
}

/// Two requests have one signature exactly when they agree on every header that
/// it is over.
#[verifier::rlimit(50)]
pub proof fn law_signature_is_the_values(
    one: Map<Seq<char>, Seq<Seq<u8>>>,
    two: Map<Seq<char>, Seq<Seq<u8>>>,
    names: Seq<Seq<char>>,
)
    ensures
        signature_of(one, names) == signature_of(two, names) <==> forall|i: int|
            0 <= i < names.len() ==> says(one, #[trigger] names[i]) == says(two, names[i]),
    decreases names.len(),
{
    if names.len() == 0 {
    } else {
        let n = names[0];
        let rest = names.skip(1);
        lemma_signature_front(one, names);
        lemma_signature_front(two, names);
        law_signature_is_the_values(one, two, rest);
        let (x, y) = (says(one, n), says(two, n));
        let (p, q) = (signature_of(one, rest), signature_of(two, rest));
        let head = n + seq!['='];
        let s = head + x + seq!['\0'] + p;
        let t = head + y + seq!['\0'] + q;
        lemma_no_nul(one, n);
        lemma_no_nul(two, n);
        if s == t {
            let h = head.len() as int;
            if x.len() < y.len() {
                assert(s[h + x.len()] == '\0');
                assert(t[h + x.len()] == y[x.len() as int]);
            } else if y.len() < x.len() {
                assert(t[h + y.len()] == '\0');
                assert(s[h + y.len()] == x[y.len() as int]);
            }
            assert forall|i: int| 0 <= i < x.len() implies x[i] == y[i] by {
                assert(s[h + i] == x[i] && t[h + i] == y[i]);
            }
            assert(x =~= y);
            assert(s.len() == h + x.len() + 1 + p.len());
            assert(t.len() == h + y.len() + 1 + q.len());
            assert forall|i: int| 0 <= i < p.len() implies p[i] == q[i] by {
                assert(s[h + x.len() + 1 + i] == p[i] && t[h + x.len() + 1 + i] == q[i]);
            }
            assert(p =~= q);
            assert forall|i: int| 0 <= i < names.len() implies says(one, #[trigger] names[i])
                == says(two, names[i]) by {
                if i > 0 {
                    assert(rest[i - 1] == names[i]);
                }
            }
        }
        if forall|i: int|
            0 <= i < names.len() ==> says(one, #[trigger] names[i]) == says(two, names[i]) {
            assert forall|i: int| 0 <= i < rest.len() implies says(one, #[trigger] rest[i]) == says(
                two,
                rest[i],
            ) by {
                assert(rest[i] == names[i + 1]);
            }
            assert(says(one, names[0]) == says(two, names[0]));
        }
    }
}

/// Whether a variant may be served at `now`: it has not expired, and was stored for
/// this signature.
pub open spec fn serves(e: EntryV, req: Map<Seq<char>, Seq<Seq<u8>>>, now: u64) -> bool {
    now < e.expires_at && e.vary_signature == signature_of(req, e.vary_headers)
}

proof fn lemma_first_served(vs: Seq<EntryV>, req: Map<Seq<char>, Seq<Seq<u8>>>, now: u64)
    ensures
        match first_fit(fresh(vs, now), req) {
            Some(e) => exists|j: int|
                0 <= j < vs.len() && vs[j] == e && serves(#[trigger] vs[j], req, now) && forall|
                    k: int,
                | 0 <= k < j ==> !serves(#[trigger] vs[k], req, now),
            None => forall|j: int| 0 <= j < vs.len() ==> !serves(#[trigger] vs[j], req, now),
        },
    decreases vs.len(),
{
    if vs.len() > 0 {
        let rest = vs.skip(1);
        let f = fresh(rest, now);
        lemma_first_served(rest, req, now);
        assert((seq![vs[0]] + f).skip(1) =~= f);
        if serves(vs[0], req, now) {
            assert(first_fit(fresh(vs, now), req) == Some(vs[0]));
        } else {
            assert(first_fit(fresh(vs, now), req) == first_fit(f, req));
            if let Some(e) = first_fit(f, req) {
                let j = choose|j: int|
                    0 <= j < rest.len() && rest[j] == e && serves(#[trigger] rest[j], req, now)
                        && forall|k: int| 0 <= k < j ==> !serves(#[trigger] rest[k], req, now);
                assert(vs[j + 1] == e);
                assert forall|k: int| 0 <= k < j + 1 implies !serves(
                    #[trigger] vs[k],
                    req,
                    now,
                ) by {
                    if k > 0 {
                        assert(rest[k - 1] == vs[k]);
                    }
                }
            } else {
                assert forall|k: int| 0 <= k < vs.len() implies !serves(
                    #[trigger] vs[k],
                    req,
                    now,
                ) by {
                    if k > 0 {
                        assert(rest[k - 1] == vs[k]);
                    }
                }
            }
        }
    }
}

/// A lookup returns the first variant under its key that may be served, and
/// nothing only where there is none.
pub proof fn law_lookup_serves_the_first_that_may(
    slots: Seq<Slot>,
    key: Seq<char>,
    req: Map<Seq<char>, Seq<Seq<u8>>>,
    now: u64,
)
    requires
        well_formed(slots),
    ensures
        match lookup(slots, key, req, now) {
            Some(e) => exists|i: int, j: int|
                #![trigger slots[i].1[j]]
                0 <= i < slots.len() && slots[i].0 == key && 0 <= j < slots[i].1.len()
                    && slots[i].1[j] == e && serves(e, req, now) && forall|k: int|
                    0 <= k < j ==> !serves(#[trigger] slots[i].1[k], req, now),
            None => forall|i: int, j: int|
                0 <= i < slots.len() && slots[i].0 == key && 0 <= j < slots[i].1.len() ==> !serves(
                    #[trigger] slots[i].1[j],
                    req,
                    now,
                ),
        },
{
    lemma_slot_index_is(slots, key);
    let i = slot_index(slots, key);
    if i < slots.len() {
        let vs = slots[i].1;
        lemma_first_served(vs, req, now);
        match lookup(slots, key, req, now) {
            Some(e) => {
                let j = choose|j: int|
                    0 <= j < vs.len() && vs[j] == e && serves(#[trigger] vs[j], req, now) && forall|
                        k: int,
                    | 0 <= k < j ==> !serves(#[trigger] vs[k], req, now);
                assert(slots[i].1[j] == e);
            },
            None => {
                assert forall|l: int, j: int|
                    0 <= l < slots.len() && slots[l].0 == key && 0 <= j
                        < slots[l].1.len() implies !serves(#[trigger] slots[l].1[j], req, now) by {
                    if l < i {
                        assert(slots[l].0 != key);
                    } else if l > i {
                        assert(slots[i].0 != slots[l].0);
                    }
                }
            },
        }
    }
}

/// An entry that was stored for one request is found only by requests that agree
/// with it on every header that the entry varies on.
pub proof fn law_variants_are_not_mixed_up(
    slots: Seq<Slot>,
    key: Seq<char>,
    stored_for: Map<Seq<char>, Seq<Seq<u8>>>,
    req: Map<Seq<char>, Seq<Seq<u8>>>,
    now: u64,
    e: EntryV,
    i: int,
)
    requires
        well_formed(slots),
        lookup(slots, key, req, now) == Some(e),
        e.vary_signature == signature_of(stored_for, e.vary_headers),
        0 <= i < e.vary_headers.len(),
    ensures
        says(stored_for, e.vary_headers[i]) == says(req, e.vary_headers[i]),
        now < e.expires_at,
{
    law_lookup_serves_the_first_that_may(slots, key, req, now);
    law_signature_is_the_values(stored_for, req, e.vary_headers);
}

proof fn lemma_fresh_contains(vs: Seq<EntryV>, now: u64, v: EntryV)
    ensures
        fresh(vs, now).contains(v) <==> vs.contains(v) && now < v.expires_at,
    decreases vs.len(),
{
    if vs.len() > 0 {
        let rest = vs.skip(1);
        let f = fresh(rest, now);
        lemma_fresh_contains(rest, now, v);
        lemma_fresh(vs, now);
        if vs.contains(v) && now < v.expires_at {
            let j = choose|j: int| 0 <= j < vs.len() && vs[j] == v;
            if j > 0 {
                assert(rest[j - 1] == v);
                let k = choose|k: int| 0 <= k < f.len() && f[k] == v;
                if vs[0].expires_at > now {
                    assert(fresh(vs, now)[k + 1] == v);
                } else {
                    assert(fresh(vs, now)[k] == v);
                }
            } else {
                assert(fresh(vs, now)[0] == v);
            }
        }
    }
}

/// A lookup drops the expired variants of its key and nothing else.
pub proof fn law_lookup_drops_only_what_expired(
    slots: Seq<Slot>,
    key: Seq<char>,
    now: u64,
    k: Seq<char>,
    v: EntryV,
)
    requires
        well_formed(slots),
    ensures
        holds(after_lookup(slots, key, now), k, v) <==> holds(slots, k, v) && (k == key ==> now
            < v.expires_at),
{
    lemma_slot_index_is(slots, key);
    let i = slot_index(slots, key);
    let t = after_lookup(slots, key, now);
    if i < slots.len() {
        let vs = slots[i].1;
        let f = fresh(vs, now);
        lemma_fresh_contains(vs, now, v);
        if holds(t, k, v) {
            let (p, q) = choose|p: int, q: int|
                0 <= p < t.len() && t[p].0 == k && 0 <= q < t[p].1.len() && (#[trigger] t[p].1[q])
                    == v;
            if f.len() == 0 {
                let x = if p < i {
                    p
                } else {
                    p + 1
                };
                assert(t[p] == slots[x]);
                assert(slots[x].1[q] == v);
                if x < i {
                    assert(slots[x].0 != slots[i].0);
                } else {
                    assert(slots[i].0 != slots[x].0);
                }
            } else if p == i {
                assert(f.contains(f[q]));
                let y = choose|y: int| 0 <= y < vs.len() && vs[y] == v;
                assert(slots[i].1[y] == v);
            } else {
                assert(slots[p].1[q] == v);
                if p < i {
                    assert(slots[p].0 != slots[i].0);
                } else {
                    assert(slots[i].0 != slots[p].0);
                }
            }
        }
        if holds(slots, k, v) && (k == key ==> now < v.expires_at) {
            let (p, q) = choose|p: int, q: int|
                0 <= p < slots.len() && slots[p].0 == k && 0 <= q < slots[p].1.len() && (
                #[trigger] slots[p].1[q]) == v;
            if p == i {
                assert(vs.contains(vs[q]));
                let y = choose|y: int| 0 <= y < f.len() && f[y] == v;
                assert(t[i].1[y] == v);
            } else {
                let x = if f.len() == 0 && p > i {
                    p - 1
                } else {
                    p
                };
                assert(t[x] == slots[p]);
                assert(t[x].1[q] == v);
            }
        }
    } else if holds(slots, k, v) && k == key {
        let (p, q) = choose|p: int, q: int|
            0 <= p < slots.len() && slots[p].0 == k && 0 <= q < slots[p].1.len() && (
            #[trigger] slots[p].1[q]) == v;
        assert(slots[p].0 != key);
    }
}

/// An entry is charged for every byte of its body, its header lines, the names
/// that it varies on and its signature.
pub proof fn law_entry_is_charged_for_all_of_it(
    e: EntryV,
    line: (Seq<char>, Seq<u8>),
    name: Seq<char>,
    body: Seq<u8>,
    signature: Seq<char>,
)
    ensures
        entry_size(EntryV { headers: e.headers.push(line), ..e }) == entry_size(e) + encode_utf8(
            line.0,
        ).len() + line.1.len(),
        entry_size(EntryV { vary_headers: e.vary_headers.push(name), ..e }) == entry_size(e)
            + encode_utf8(name).len(),
        entry_size(EntryV { body, ..e }) + e.body.len() == entry_size(e) + body.len(),
        entry_size(EntryV { vary_signature: signature, ..e }) + encode_utf8(e.vary_signature).len()
            == entry_size(e) + encode_utf8(signature).len(),
        entry_size(
            EntryV { headers: seq![], vary_headers: seq![], ..e },
        ) == e.body.len() + encode_utf8(e.vary_signature).len(),
{
    assert(e.headers.push(line).drop_last() =~= e.headers);
    assert(e.vary_headers.push(name).drop_last() =~= e.vary_headers);
}

/// Nothing is evicted in vain: where anything goes, the last to go would not have
/// fitted into the room.
pub proof fn law_eviction_stops_in_time(slots: Seq<Slot>, room: int)
    requires
        well_formed(slots),
        evicted(slots, room) != slots,
    ensures
        exists|k: Seq<char>, v: EntryV|
            #[trigger] holds(slots, k, v) && slots_size(evicted(slots, room)) + entry_size(v)
                > room,
    decreases crate::cache::slots_count(slots) + slots.len(),
{
    let n = slots.len() as int;
    lemma_drop_shrinks(slots);
    lemma_drop_wf(slots);
    lemma_soonest_slot_bound(slots, n);
    let i = soonest_slot(slots, n);
    let vs = slots[i].1;
    lemma_soonest_bound(vs, vs.len() as int);
    let j = soonest(vs, vs.len() as int);
    let t = without_soonest(slots);
    lemma_slots_remove(slots, i);
    lemma_variants_remove(vs, j);
    lemma_slots_update(slots, i, (slots[i].0, vs.remove(j)));
    if vs.len() == 1 {
        assert(vs.remove(j) =~= seq![]);
        assert(variants_size(vs.remove(j)) == 0);
    }
    assert(slots_size(t) == slots_size(slots) - entry_size(vs[j]));
    assert(slots[i].1[j] == vs[j]);
    assert(holds(slots, slots[i].0, vs[j]));
    if evicted(t, room) != t {
        law_eviction_stops_in_time(t, room);
        let (k, v) = choose|k: Seq<char>, v: EntryV|
            #[trigger] holds(t, k, v) && slots_size(evicted(t, room)) + entry_size(v) > room;
        crate::cache::lemma_one_evicted(slots, k, v);
        assert(holds(slots, k, v));
    }
}

/// The bytes of a store are the bytes of its entries.
pub proof fn law_store_size(slots: Seq<Slot>, key: Seq<char>, vs: Seq<EntryV>, e: EntryV)
    ensures
        slots_size(seq![]) == 0,
        variants_size(seq![]) == 0,
        variants_size(vs.push(e)) == variants_size(vs) + entry_size(e),
        slots_size(slots.push((key, vs))) == slots_size(slots) + variants_size(vs),
        slots_count(seq![]) == 0,
        slots_count(slots.push((key, vs))) == slots_count(slots) + vs.len(),
{
    assert(vs.push(e).drop_last() =~= vs);
    assert(slots.push((key, vs)).drop_last() =~= slots);
}

/// A lookup counts as a hit or as a miss, and what it drops as evicted.
pub proof fn law_lookups_are_counted(m: Metrics, bytes: int)
    requires
        0 <= bytes,
        m.cache_evicted_bytes + bytes <= u64::MAX,
        m.cache_hits < u64::MAX,
        m.cache_misses < u64::MAX,
    ensures
        lookup_metrics(m, bytes, true) == (Metrics {
            cache_hits: (m.cache_hits + 1) as u64,
            cache_evicted_bytes: (m.cache_evicted_bytes + bytes) as u64,
            ..m
        }),
        lookup_metrics(m, bytes, false) == (Metrics {
            cache_misses: (m.cache_misses + 1) as u64,
            cache_evicted_bytes: (m.cache_evicted_bytes + bytes) as u64,
            ..m
        }),
{
}

/// Storing counts what was evicted for it, and shows what is held afterwards.
pub proof fn law_stores_are_counted(m: Metrics, bytes: int, total: u64, count: u64)
    requires
        0 <= bytes,
        m.cache_evicted_bytes + bytes <= u64::MAX,
    ensures
        put_metrics(m, bytes, total as int, count as int) == (Metrics {
            cache_evicted_bytes: (m.cache_evicted_bytes + bytes) as u64,
            cache_bytes: total,
            cache_entries: count,
            ..m
        }),
{
}

} // verus!
