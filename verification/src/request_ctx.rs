//! Per-request context used by the variable engine and access logging.

use crate::headers::{get_text, header_map, header_text};
use crate::net::SocketAddr;
use crate::text::{same, split, split_at, split_once, split_once_at, trim, trimmed, views};
use vstd::prelude::*;
use vstd::string::*;
use vstd::utf8::{
    decode_first_scalar, decode_utf8, encode_utf8, encode_utf8_decode_utf8, encode_utf8_valid_utf8,
    length_of_first_scalar, pop_first_scalar, valid_utf8,
};

verus! {

/// The parts of a request target that the server reads.
#[derive(Debug)]
pub struct Uri {
    /// `host[:port]`, when the target names one.
    pub authority: Option<String>,
    pub path: String,
    pub query: Option<String>,
    /// Path and query exactly as received, when the target has them.
    pub path_and_query: Option<String>,
}

/// Snapshot of the parts of a request needed to render templates.
pub struct RequestCtx<'a> {
    pub peer: SocketAddr,
    pub server_name: Option<&'a str>,
    pub method: &'a str,
    pub uri: &'a Uri,
    pub headers: &'a hyper::HeaderMap,
    pub scheme: &'a str,
    /// Outputs of the `map` declarations evaluated so far, oldest first.
    pub user_vars: &'a Vec<(String, String)>,
}

/// The text of an optional string, or nothing.
pub open spec fn or_empty(s: Option<Seq<char>>) -> Seq<char> {
    match s {
        Some(t) => t,
        None => seq![],
    }
}

/// The models of a list of named values.
pub open spec fn var_views(v: Seq<(String, String)>) -> Seq<(Seq<char>, Seq<char>)> {
    v.map_values(|p: (String, String)| (p.0@, p.1@))
}

/// The value last published under `name`.
pub open spec fn var_value(vars: Seq<(Seq<char>, Seq<char>)>, name: Seq<char>) -> Option<Seq<char>>
    decreases vars.len(),
{
    if vars.len() == 0 {
        None
    } else if vars.last().0 == name {
        Some(vars.last().1)
    } else {
        var_value(vars.drop_last(), name)
    }
}

/// The value of the first of `pairs` whose key is `name`. A pair is
/// `key=value`; one without `=` has an empty value.
pub open spec fn find_pair(pairs: Seq<Seq<char>>, name: Seq<char>) -> Option<Seq<char>>
    decreases pairs.len(),
{
    if pairs.len() == 0 {
        None
    } else {
        let (k, v) = match split_once_at(pairs[0], '=') {
            Some(kv) => kv,
            None => (pairs[0], Seq::<char>::empty()),
        };
        if k == name {
            Some(v)
        } else {
            find_pair(pairs.skip(1), name)
        }
    }
}

/// The value of the first cookie called `name`. Parts without `=` are skipped.
pub open spec fn find_cookie(parts: Seq<Seq<char>>, name: Seq<char>) -> Option<Seq<char>>
    decreases parts.len(),
{
    if parts.len() == 0 {
        None
    } else {
        match split_once_at(trimmed(parts[0]), '=') {
            Some((k, v)) => if k == name {
                Some(v)
            } else {
                find_cookie(parts.skip(1), name)
            },
            None => find_cookie(parts.skip(1), name),
        }
    }
}

pub open spec fn hex_of(b: u8) -> Option<u8> {
    if 48 <= b <= 57 {
        Some((b - 48) as u8)
    } else if 97 <= b <= 102 {
        Some((b - 87) as u8)
    } else if 65 <= b <= 70 {
        Some((b - 55) as u8)
    } else {
        None
    }
}

/// Form decoding on bytes: `+` is a space, `%XY` is the byte `XY`, and a `%`
/// without two hexadecimal digits stands for itself.
pub open spec fn unescaped(s: Seq<u8>) -> Seq<u8>
    decreases s.len(),
{
    if s.len() == 0 {
        seq![]
    } else if s[0] == 43 {
        seq![32u8] + unescaped(s.skip(1))
    } else if s[0] == 37 && s.len() > 2 && hex_of(s[1]) is Some && hex_of(s[2]) is Some {
        seq![(hex_of(s[1])->0 * 16 + hex_of(s[2])->0) as u8] + unescaped(s.skip(3))
    } else {
        seq![s[0]] + unescaped(s.skip(1))
    }
}

/// What `String::from_utf8_lossy` makes of a byte string.
pub uninterp spec fn utf8_lossy(bytes: Seq<u8>) -> Seq<char>;

/// `String::from_utf8_lossy` keeps valid UTF-8 as it is and replaces what is
/// not valid; which replacement stands where is left to the name.
#[verifier::external_body]
fn lossy(bytes: &[u8]) -> (s: String)
    ensures
        s@ == utf8_lossy(bytes@),
        valid_utf8(bytes@) ==> s@ == decode_utf8(bytes@),
{
    String::from_utf8_lossy(bytes).into_owned()
}

/// The decoded value of a query argument.
pub open spec fn form_decoded(s: Seq<char>) -> Seq<char> {
    let bytes = unescaped(encode_utf8(s));
    if valid_utf8(bytes) {
        decode_utf8(bytes)
    } else {
        utf8_lossy(bytes)
    }
}

impl<'a> RequestCtx<'a> {
    pub open spec fn spec_host(&self) -> Seq<char> {
        match header_text(header_map(*self.headers), "host"@) {
            Some(v) => v,
            None => match self.uri.authority {
                Some(a) => a@,
                None => match self.server_name {
                    Some(n) => n@,
                    None => seq![],
                },
            },
        }
    }

    pub open spec fn spec_request_uri(&self) -> Seq<char> {
        match self.uri.path_and_query {
            Some(p) => p@,
            None => self.uri.path@,
        }
    }

    pub open spec fn spec_header(&self, name: Seq<char>) -> Option<Seq<char>> {
        header_text(header_map(*self.headers), name)
    }

    pub open spec fn spec_query_arg(&self, name: Seq<char>) -> Option<Seq<char>> {
        match self.uri.query {
            None => None,
            Some(q) => match find_pair(split_at(q@, '&'), name) {
                Some(v) => Some(form_decoded(v)),
                None => None,
            },
        }
    }

    pub open spec fn spec_cookie(&self, name: Seq<char>) -> Option<Seq<char>> {
        match self.spec_header("cookie"@) {
            None => None,
            Some(raw) => find_cookie(split_at(raw, ';'), name),
        }
    }

    /// Resolve `$host`: the request's `Host` header, or — for HTTP/2 where
    /// `:authority` is not surfaced as a `Host` header — the URI's authority,
    /// or finally the server's `server_name`.
    pub fn host(&self) -> (r: String)
        ensures
            r@ == self.spec_host(),
    {
        if let Some(v) = get_text(self.headers, "host") {
            return v;
        }
        if let Some(a) = &self.uri.authority {
            return a.clone();
        }
        match self.server_name {
            Some(n) => n.to_owned(),
            None => String::new(),
        }
    }

    /// `$request_uri`: path plus query, exactly as received.
    pub fn request_uri(&self) -> (r: &str)
        ensures
            r@ == self.spec_request_uri(),
    {
        match &self.uri.path_and_query {
            Some(p) => p.as_str(),
            None => self.uri.path.as_str(),
        }
    }

    /// Case-insensitive header lookup as text. Returns `None` if the header
    /// is missing or contains non-ASCII bytes.
    pub fn header(&self, name: &str) -> (r: Option<String>)
        ensures
            match r {
                Some(s) => self.spec_header(name@) == Some(s@),
                None => self.spec_header(name@) is None,
            },
    {
        get_text(self.headers, name)
    }

    /// Look up a single query argument by name. Values are percent-decoded
    /// and `+` is treated as space.
    pub fn query_arg(&self, name: &str) -> (r: Option<String>)
        ensures
            match r {
                Some(s) => self.spec_query_arg(name@) == Some(s@),
                None => self.spec_query_arg(name@) is None,
            },
    {
        let q = match &self.uri.query {
            Some(q) => q,
            None => {
                return None;
            },
        };
        let pairs = split(q.as_str(), '&');
        let ghost all = views(pairs@);
        let mut i: usize = 0;
        assert(all.skip(0) == all);
        while i < pairs.len()
            invariant
                i <= pairs@.len(),
                all == views(pairs@),
                self.uri.query is Some,
                all == split_at(self.uri.query->0@, '&'),
                find_pair(all.skip(i as int), name@) == find_pair(all, name@),
            decreases pairs@.len() - i,
        {
            let ghost rest = all.skip(i as int);
            assert(rest[0] == pairs@[i as int]@);
            assert(rest.skip(1) == all.skip(i + 1));
            match split_once(pairs[i].as_str(), '=') {
                Some((k, v)) => {
                    if same(k, name) {
                        return Some(percent_decode(v));
                    }
                },
                None => {
                    if same(pairs[i].as_str(), name) {
                        let none = "";
                        proof {
                            reveal_strlit("");
                            assert(none@ =~= Seq::<char>::empty());
                        }
                        return Some(percent_decode(none));
                    }
                },
            }
            i = i + 1;
        }
        None
    }

    /// Look up a single cookie value by name from the `Cookie` request header.
    pub fn cookie(&self, name: &str) -> (r: Option<String>)
        ensures
            match r {
                Some(s) => self.spec_cookie(name@) == Some(s@),
                None => self.spec_cookie(name@) is None,
            },
    {
        let raw = match self.header("cookie") {
            Some(r) => r,
            None => {
                return None;
            },
        };
        let parts = split(raw.as_str(), ';');
        let ghost all = views(parts@);
        let mut i: usize = 0;
        assert(all.skip(0) == all);
        while i < parts.len()
            invariant
                i <= parts@.len(),
                all == views(parts@),
                all == split_at(raw@, ';'),
                self.spec_header("cookie"@) == Some(raw@),
                find_cookie(all.skip(i as int), name@) == find_cookie(all, name@),
            decreases parts@.len() - i,
        {
            let ghost rest = all.skip(i as int);
            assert(rest[0] == parts@[i as int]@);
            assert(rest.skip(1) == all.skip(i + 1));
            match split_once(trim(parts[i].as_str()), '=') {
                Some((k, v)) => {
                    if same(k, name) {
                        return Some(v.to_owned());
                    }
                },
                None => {},
            }
            i = i + 1;
        }
        None
    }
}

/// The value last published under `name`.
pub fn lookup_var(vars: &Vec<(String, String)>, name: &str) -> (r: Option<String>)
    ensures
        match r {
            Some(s) => var_value(var_views(vars@), name@) == Some(s@),
            None => var_value(var_views(vars@), name@) is None,
        },
{
    let ghost all = var_views(vars@);
    let mut n: usize = vars.len();
    assert(all.take(n as int) == all);
    while n > 0
        invariant
            n <= vars@.len(),
            all == var_views(vars@),
            var_value(all.take(n as int), name@) == var_value(all, name@),
        decreases n,
    {
        let ghost now = all.take(n as int);
        assert(now.last() == (vars@[n - 1].0@, vars@[n - 1].1@));
        assert(now.drop_last() == all.take(n - 1));
        if same(vars[n - 1].0.as_str(), name) {
            return Some(vars[n - 1].1.clone());
        }
        n = n - 1;
    }
    None
}

/// Minimal `application/x-www-form-urlencoded` decoder used for query args.
pub fn percent_decode(s: &str) -> (r: String)
    ensures
        r@ == form_decoded(s@),
{
    let bytes = s.as_bytes();
    let mut out: Vec<u8> = Vec::new();
    let mut i: usize = 0;
    assert(bytes@.skip(0) == bytes@);
    assert(out@ + unescaped(bytes@) =~= unescaped(bytes@));
    while i < bytes.len()
        invariant
            i <= bytes@.len(),
            out@ + unescaped(bytes@.skip(i as int)) == unescaped(bytes@),
        decreases bytes@.len() - i,
    {
        let ghost rest = bytes@.skip(i as int);
        let ghost done = out@;
        let b: u8 = bytes[i];
        assert(rest[0] == b);
        let mut next: usize = i + 1;
        let mut value: u8 = b;
        if b == 43 {
            value = 32;
        } else if b == 37 && bytes.len() - i > 2 {
            assert(rest[1] == bytes@[i + 1]);
            assert(rest[2] == bytes@[i + 2]);
            match (hex_digit(bytes[i + 1]), hex_digit(bytes[i + 2])) {
                (Some(h), Some(l)) => {
                    value = h * 16 + l;
                    next = i + 3;
                },
                _ => {},
            }
        }
        out.push(value);
        assert(rest.skip(next - i) == bytes@.skip(next as int));
        assert(done + (seq![value] + unescaped(bytes@.skip(next as int))) =~= out@ + unescaped(
            bytes@.skip(next as int),
        ));
        i = next;
    }
    assert(out@ =~= unescaped(bytes@));
    lossy(out.as_slice())
}

fn hex_digit(b: u8) -> (r: Option<u8>)
    ensures
        r == hex_of(b),
        r matches Some(d) ==> d < 16,
{
    if 48 <= b && b <= 57 {
        Some(b - 48)
    } else if 97 <= b && b <= 102 {
        Some(b - 87)
    } else if 65 <= b && b <= 70 {
        Some(b - 55)
    } else {
        None
    }
}

proof fn lemma_nothing_to_unescape(s: Seq<u8>)
    requires
        forall|i: int| 0 <= i < s.len() ==> s[i] != 43 && s[i] != 37,
    ensures
        unescaped(s) == s,
    decreases s.len(),
{
    if s.len() > 0 {
        assert forall|i: int| 0 <= i < s.skip(1).len() implies s.skip(1)[i] != 43 && s.skip(1)[i]
            != 37 by {
            assert(s.skip(1)[i] == s[i + 1]);
        }
        lemma_nothing_to_unescape(s.skip(1));
        assert(seq![s[0]] + s.skip(1) =~= s);
    }
}

/// A byte below 128 in UTF-8 is a character of its own.
proof fn lemma_ascii_byte_is_char(b: Seq<u8>, i: int)
    requires
        valid_utf8(b),
        0 <= i < b.len(),
        b[i] < 0x80,
    ensures
        decode_utf8(b).contains(b[i] as char),
    decreases b.len(),
{
    let n = length_of_first_scalar(b);
    let rest = pop_first_scalar(b);
    let text = decode_utf8(b);
    assert(text =~= seq![decode_first_scalar(b) as char] + decode_utf8(rest));
    if i < n {
        let x: u8 = b[0];
        assert(x < 0x80 ==> (x & 0x7f) == x) by (bit_vector);
        assert(text[0] == b[i] as char);
    } else {
        assert(rest[i - n] == b[i]);
        lemma_ascii_byte_is_char(rest, i - n);
        let k = choose|k: int|
            0 <= k < decode_utf8(rest).len() && decode_utf8(rest)[k] == b[i] as char;
        assert(text[k + 1] == b[i] as char);
    }
}

/// Text without `%` and `+` decodes to itself.
pub proof fn law_plain_text_decodes_to_itself(s: Seq<char>)
    requires
        !s.contains('%'),
        !s.contains('+'),
    ensures
        form_decoded(s) == s,
{
    let b = encode_utf8(s);
    encode_utf8_valid_utf8(s);
    encode_utf8_decode_utf8(s);
    assert forall|i: int| 0 <= i < b.len() implies b[i] != 43 && b[i] != 37 by {
        if b[i] == 43 || b[i] == 37 {
            lemma_ascii_byte_is_char(b, i);
        }
    }
    lemma_nothing_to_unescape(b);
}

} // verus!
