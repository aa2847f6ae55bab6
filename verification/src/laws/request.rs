//! Laws on what variables read of a request.

use super::text::{law_split_once, law_split_once_finds_halves};
use crate::headers::{header_map, header_text};
use crate::request_ctx::{
    find_cookie, find_pair, form_decoded, hex_of, RequestCtx, unescaped, var_value,
};
use crate::text::{split_at, split_once_at, trimmed};
use vstd::prelude::*;
use vstd::string::*;
use vstd::utf8::{encode_utf8, encode_utf8_decode_utf8, encode_utf8_valid_utf8};

verus! {

/// The key of a `key=value` pair: the text in front of the first `=`, or all of it.
pub open spec fn is_key(pair: Seq<char>, key: Seq<char>) -> bool {
    (pair == key && !pair.contains('=')) || (!key.contains('=') && exists|v: Seq<char>|
        pair == #[trigger] (key + seq!['='] + v))
}

proof fn lemma_key(pair: Seq<char>, name: Seq<char>)
    ensures
        is_key(pair, name) <==> name == (match split_once_at(pair, '=') {
            Some((k, v)) => k,
            None => pair,
        }),
{
    law_split_once(pair, '=');
    if split_once_at(pair, '=') is Some {
        let (k, v) = split_once_at(pair, '=')->0;
        assert(pair[k.len() as int] == '=');
        if name == k {
            assert(pair == name + seq!['='] + v);
        }
        assert(pair.contains('='));
    }
    if !name.contains('=') && exists|v: Seq<char>| pair == #[trigger] (name + seq!['='] + v) {
        let v = choose|v: Seq<char>| pair == #[trigger] (name + seq!['='] + v);
        law_split_once_finds_halves(name, '=', v);
    }
}

proof fn lemma_find_pair(pairs: Seq<Seq<char>>, name: Seq<char>)
    ensures
        match find_pair(pairs, name) {
            Some(v) => exists|i: int|
                0 <= i < pairs.len() && is_key(#[trigger] pairs[i], name) && (pairs[i] == name
                    + seq!['='] + v || pairs[i] == name && v.len() == 0) && forall|j: int|
                    0 <= j < i ==> !is_key(#[trigger] pairs[j], name),
            None => forall|j: int| 0 <= j < pairs.len() ==> !is_key(#[trigger] pairs[j], name),
        },
    decreases pairs.len(),
{
    if pairs.len() > 0 {
        let rest = pairs.skip(1);
        lemma_key(pairs[0], name);
        law_split_once(pairs[0], '=');
        lemma_find_pair(rest, name);
        if !is_key(pairs[0], name) {
            match find_pair(rest, name) {
                Some(v) => {
                    let i = choose|i: int|
                        0 <= i < rest.len() && is_key(#[trigger] rest[i], name) && (rest[i] == name
                            + seq!['='] + v || rest[i] == name && v.len() == 0) && forall|j: int|
                            0 <= j < i ==> !is_key(#[trigger] rest[j], name);
                    assert(pairs[i + 1] == rest[i]);
                    assert forall|j: int| 0 <= j < i + 1 implies !is_key(
                        #[trigger] pairs[j],
                        name,
                    ) by {
                        if j > 0 {
                            assert(rest[j - 1] == pairs[j]);
                        }
                    }
                },
                None => {
                    assert forall|j: int| 0 <= j < pairs.len() implies !is_key(
                        #[trigger] pairs[j],
                        name,
                    ) by {
                        if j > 0 {
                            assert(rest[j - 1] == pairs[j]);
                        }
                    }
                },
            }
        }
    }
}

/// `$arg_name` is the value of the first pair of the query whose key is `name`,
/// decoded: a pair without `=` has an empty one. Every pair is looked at.
pub proof fn law_query_arg(ctx: RequestCtx<'_>, q: String, name: Seq<char>, i: int)
    requires
        ctx.uri.query == Some(q),
        0 <= i < split_at(q@, '&').len(),
        is_key(split_at(q@, '&')[i], name),
        forall|j: int| 0 <= j < i ==> !is_key(#[trigger] split_at(q@, '&')[j], name),
    ensures
        forall|v: Seq<char>|
            split_at(q@, '&')[i] == #[trigger] (name + seq!['='] + v) ==> ctx.spec_query_arg(name)
                == Some(form_decoded(v)),
        split_at(q@, '&')[i] == name ==> ctx.spec_query_arg(name) == Some(form_decoded(seq![])),
{
    let pairs = split_at(q@, '&');
    lemma_find_pair(pairs, name);
    let found = find_pair(pairs, name);
    assert(found is Some);
    let v = found->0;
    let k = choose|k: int|
        0 <= k < pairs.len() && is_key(#[trigger] pairs[k], name) && (pairs[k] == name + seq!['=']
            + v || pairs[k] == name && v.len() == 0) && forall|j: int|
            0 <= j < k ==> !is_key(#[trigger] pairs[j], name);
    assert(k == i);
    lemma_key(pairs[i], name);
    assert forall|w: Seq<char>|
        pairs[i] == #[trigger] (name + seq!['='] + w) implies ctx.spec_query_arg(name) == Some(
        form_decoded(w),
    ) by {
        assert((name + seq!['='] + w).len() == name.len() + 1 + w.len());
        assert((name + seq!['='] + v).skip(name.len() + 1 as int) =~= v);
        assert((name + seq!['='] + w).skip(name.len() + 1 as int) =~= w);
    }
    if pairs[i] == name {
        assert(v =~= seq![]);
    }
}

/// An argument is missing only when no pair of the query has its name.
pub proof fn law_query_arg_is_missing(ctx: RequestCtx<'_>, name: Seq<char>)
    ensures
        ctx.spec_query_arg(name) is None <==> match ctx.uri.query {
            None => true,
            Some(q) => forall|i: int|
                0 <= i < split_at(q@, '&').len() ==> !is_key(
                    #[trigger] split_at(q@, '&')[i],
                    name,
                ),
        },
{
    if ctx.uri.query is Some {
        lemma_find_pair(split_at(ctx.uri.query->0@, '&'), name);
    }
}

/// Whether a part of a `Cookie` header is the cookie `name` with the value `v`.
pub open spec fn is_cookie(part: Seq<char>, name: Seq<char>, v: Seq<char>) -> bool {
    !name.contains('=') && trimmed(part) == name + seq!['='] + v
}

proof fn lemma_find_cookie(parts: Seq<Seq<char>>, name: Seq<char>)
    ensures
        match find_cookie(parts, name) {
            Some(v) => exists|i: int|
                0 <= i < parts.len() && is_cookie(#[trigger] parts[i], name, v) && forall|
                    j: int,
                    w: Seq<char>,
                | 0 <= j < i ==> !#[trigger] is_cookie(parts[j], name, w),
            None => forall|j: int, w: Seq<char>|
                0 <= j < parts.len() ==> !#[trigger] is_cookie(parts[j], name, w),
        },
    decreases parts.len(),
{
    if parts.len() > 0 {
        let rest = parts.skip(1);
        let t = trimmed(parts[0]);
        law_split_once(t, '=');
        lemma_find_cookie(rest, name);
        assert forall|w: Seq<char>| #[trigger] is_cookie(parts[0], name, w) implies split_once_at(
            t,
            '=',
        ) == Some((name, w)) by {
            law_split_once_finds_halves(name, '=', w);
        }
        let here = split_once_at(t, '=') is Some && (split_once_at(t, '=')->0).0 == name;
        if here {
            assert(is_cookie(parts[0], name, (split_once_at(t, '=')->0).1));
        } else {
            match find_cookie(rest, name) {
                Some(v) => {
                    let i = choose|i: int|
                        0 <= i < rest.len() && is_cookie(#[trigger] rest[i], name, v) && forall|
                            j: int,
                            w: Seq<char>,
                        | 0 <= j < i ==> !#[trigger] is_cookie(rest[j], name, w);
                    assert(is_cookie(parts[i + 1], name, v));
                    assert forall|j: int, w: Seq<char>| 0 <= j < i + 1 implies !#[trigger] is_cookie(
                        parts[j],
                        name,
                        w,
                    ) by {
                        if j > 0 {
                            assert(rest[j - 1] == parts[j]);
                            assert(!is_cookie(rest[j - 1], name, w));
                        }
                    }
                },
                None => {
                    assert forall|j: int, w: Seq<char>|
                        0 <= j < parts.len() implies !#[trigger] is_cookie(parts[j], name, w) by {
                        if j > 0 {
                            assert(rest[j - 1] == parts[j]);
                            assert(!is_cookie(rest[j - 1], name, w));
                        }
                    }
                },
            }
        }
    }
}

/// `$cookie_name` is the value of the first cookie of that name in the `Cookie`
/// header, whatever stands around it, and missing only when there is none.
pub proof fn law_cookie(ctx: RequestCtx<'_>, name: Seq<char>)
    ensures
        match header_text(header_map(*ctx.headers), "cookie"@) {
            None => ctx.spec_cookie(name) is None,
            Some(raw) => {
                let parts = split_at(raw, ';');
                match ctx.spec_cookie(name) {
                    Some(v) => exists|i: int|
                        0 <= i < parts.len() && is_cookie(#[trigger] parts[i], name, v) && forall|
                            j: int,
                            w: Seq<char>,
                        | 0 <= j < i ==> !#[trigger] is_cookie(parts[j], name, w),
                    None => forall|j: int, w: Seq<char>|
                        0 <= j < parts.len() ==> !#[trigger] is_cookie(parts[j], name, w),
                }
            },
        },
{
    if let Some(raw) = header_text(header_map(*ctx.headers), "cookie"@) {
        lemma_find_cookie(split_at(raw, ';'), name);
    }
}

/// `$host` is the `Host` header; without one the authority of the target; without
/// that the name of the server; and otherwise empty.
pub proof fn law_host(ctx: RequestCtx<'_>)
    ensures
        header_text(header_map(*ctx.headers), "host"@) matches Some(h) ==> ctx.spec_host() == h,
        header_text(header_map(*ctx.headers), "host"@) is None ==> (ctx.uri.authority matches Some(
            a,
        ) ==> ctx.spec_host() == a@),
        header_text(header_map(*ctx.headers), "host"@) is None && ctx.uri.authority is None ==> (
        ctx.server_name matches Some(n) ==> ctx.spec_host() == n@),
        header_text(header_map(*ctx.headers), "host"@) is None && ctx.uri.authority is None
            && ctx.server_name is None ==> ctx.spec_host().len() == 0,
{
}

/// `$request_uri` is path and query as received, or the path alone.
pub proof fn law_request_uri(ctx: RequestCtx<'_>)
    ensures
        ctx.uri.path_and_query matches Some(p) ==> ctx.spec_request_uri() == p@,
        ctx.uri.path_and_query is None ==> ctx.spec_request_uri() == ctx.uri.path@,
{
}

/// A variable that `map` published has the value that was published last.
pub proof fn law_last_published_value(vars: Seq<(Seq<char>, Seq<char>)>, name: Seq<char>)
    ensures
        match var_value(vars, name) {
            Some(v) => exists|i: int|
                0 <= i < vars.len() && #[trigger] vars[i] == (name, v) && forall|j: int|
                    i < j < vars.len() ==> (#[trigger] vars[j]).0 != name,
            None => forall|j: int| 0 <= j < vars.len() ==> (#[trigger] vars[j]).0 != name,
        },
    decreases vars.len(),
{
    if vars.len() > 0 {
        let n = vars.len() - 1;
        if vars[n].0 == name {
            assert(vars[n] == (name, vars[n].1));
        } else {
            let before = vars.drop_last();
            law_last_published_value(before, name);
            if let Some(v) = var_value(before, name) {
                let i = choose|i: int|
                    0 <= i < before.len() && #[trigger] before[i] == (name, v) && forall|j: int|
                        i < j < before.len() ==> (#[trigger] before[j]).0 != name;
                assert(vars[i] == before[i]);
                assert forall|j: int| i < j < vars.len() implies (#[trigger] vars[j]).0 != name by {
                    if j < n {
                        assert(vars[j] == before[j]);
                    }
                }
            } else {
                assert forall|j: int| 0 <= j < vars.len() implies (#[trigger] vars[j]).0 != name by {
                    if j < n {
                        assert(vars[j] == before[j]);
                    }
                }
            }
        }
    }
}

/// The value of a hexadecimal digit; there is none for other bytes.
pub proof fn law_hex_digit(d: u8)
    ensures
        d < 10 ==> hex_of((48 + d) as u8) == Some(d),
        d < 6 ==> hex_of((97 + d) as u8) == Some((10 + d) as u8),
        d < 6 ==> hex_of((65 + d) as u8) == Some((10 + d) as u8),
        d < 48 || 57 < d < 65 || 70 < d < 97 || 102 < d ==> hex_of(d) is None,
{
}

/// Decoding goes from left to right: `+` is a space, `%` and two hexadecimal
/// digits are one byte, and any other byte stands for itself.
pub proof fn law_decoding_goes_byte_by_byte(b: u8, h: u8, l: u8, rest: Seq<u8>)
    ensures
        unescaped(seq![]) == Seq::<u8>::empty(),
        unescaped(seq![43u8] + rest) == seq![32u8] + unescaped(rest),
        hex_of(h) is Some && hex_of(l) is Some ==> unescaped(seq![37u8, h, l] + rest) == seq![
            (hex_of(h)->0 * 16 + hex_of(l)->0) as u8,
        ] + unescaped(rest),
        b != 43 && b != 37 ==> unescaped(seq![b] + rest) == seq![b] + unescaped(rest),
        hex_of(h) is None ==> unescaped(seq![37u8, h] + rest) == seq![37u8] + unescaped(
            seq![h] + rest,
        ),
        hex_of(l) is None ==> unescaped(seq![37u8, h, l] + rest) == seq![37u8] + unescaped(
            seq![h, l] + rest,
        ),
        unescaped(seq![37u8, b]) == seq![37u8] + unescaped(seq![b]),
        unescaped(seq![37u8]) == seq![37u8],
{
    assert((seq![43u8] + rest).skip(1) =~= rest);
    assert((seq![37u8, h, l] + rest).skip(3) =~= rest);
    assert((seq![b] + rest).skip(1) =~= rest);
    assert((seq![37u8, h] + rest).skip(1) =~= seq![h] + rest);
    assert((seq![37u8, h, l] + rest).skip(1) =~= seq![h, l] + rest);
    assert(seq![37u8, b].skip(1) =~= seq![b]);
    assert(seq![37u8].skip(1) =~= seq![]);
    assert(unescaped(seq![]) =~= seq![]);
    assert(seq![37u8] + unescaped(seq![]) =~= seq![37u8]);
}

/// A decoded argument is the text that its decoded bytes spell in UTF-8.
pub proof fn law_decoded_text(s: Seq<char>, t: Seq<char>)
    requires
        unescaped(encode_utf8(s)) == encode_utf8(t),
    ensures
        form_decoded(s) == t,
{
    encode_utf8_valid_utf8(t);
    encode_utf8_decode_utf8(t);
}

} // verus!
