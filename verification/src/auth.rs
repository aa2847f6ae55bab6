//! HTTP Basic authentication backed by an htpasswd-style file.
//!
//! Only **bcrypt** hashes (`$2a$`, `$2b$`, `$2y$`) are accepted. Plain-text
//! passwords, Apache's MD5-variant APR1 (`$apr1$…`), and the SHA-1 variant
//! `{SHA}…` are rejected at config-load time. Refusing weak crypto is the
//! safer default than silently accepting it.

use crate::body::{Response, ResponseV, text_bytes};
use crate::headers::{
    get_text, header_map, header_names, header_text, new_headers, no_headers, set_text,
    with_header,
};
use crate::text::{
    chars, decimal, lemma_position_is, lemma_views_push, lower, opt_view, position, push_decimal,
    result_view, same, slice_string, split, split_at, split_once, split_once_at, starts_with,
    to_lower, trim, trimmed, views,
};
use base64::Engine;
use vstd::prelude::*;
use vstd::string::*;
use vstd::utf8::{
    decode_utf8, encode_utf8, encode_utf8_decode_utf8, encode_utf8_valid_utf8, valid_utf8,
};

verus! {

#[derive(Debug)]
pub struct AuthBasic {
    pub realm: String,
    /// Each user once, with the bcrypt hash of the password.
    pub users: Vec<(String, String)>,
}

/// Model of an [`AuthBasic`].
pub struct AuthBasicV {
    pub realm: Seq<char>,
    pub users: Seq<(Seq<char>, Seq<char>)>,
}

impl View for AuthBasic {
    type V = AuthBasicV;

    open spec fn view(&self) -> AuthBasicV {
        AuthBasicV { realm: self.realm@, users: views(self.users@) }
    }
}

// ---------------------------------------------------------------------------
// Loading
// ---------------------------------------------------------------------------

/// `s` without one trailing carriage return.
pub open spec fn without_cr(s: Seq<char>) -> Seq<char> {
    if s.len() > 0 && s.last() == '\r' {
        s.drop_last()
    } else {
        s
    }
}

/// The lines of a text. A line ends at `\n` or `\r\n`; the last one may lack
/// its ending.
pub open spec fn lines_of(pieces: Seq<Seq<char>>) -> Seq<Seq<char>>
    decreases pieces.len(),
{
    if pieces.len() == 0 {
        seq![]
    } else if pieces.len() == 1 {
        if pieces[0].len() == 0 {
            seq![]
        } else {
            seq![pieces[0]]
        }
    } else {
        seq![without_cr(pieces[0])] + lines_of(pieces.skip(1))
    }
}

/// Whether a hash is in a bcrypt format.
pub open spec fn bcrypt_format(hash: Seq<char>) -> bool {
    "$2y$"@.is_prefix_of(hash) || "$2a$"@.is_prefix_of(hash) || "$2b$"@.is_prefix_of(hash)
}

/// Position of `user`, or the number of users.
pub open spec fn user_index(users: Seq<(Seq<char>, Seq<char>)>, user: Seq<char>) -> int
    decreases users.len(),
{
    if users.len() == 0 || users[0].0 == user {
        0
    } else {
        1 + user_index(users.skip(1), user)
    }
}

/// The users with `user` set to `hash`.
pub open spec fn with_user(
    users: Seq<(Seq<char>, Seq<char>)>,
    user: Seq<char>,
    hash: Seq<char>,
) -> Seq<(Seq<char>, Seq<char>)> {
    let i = user_index(users, user);
    if i < users.len() {
        users.update(i, (user, hash))
    } else {
        users.push((user, hash))
    }
}

/// `path:N: `, the start of diagnostics about a file.
pub open spec fn at_file(path: Seq<char>, n: int) -> Seq<char> {
    path + ":"@ + decimal(n as nat) + ": "@
}

/// The effect of line `n` of an htpasswd file. Blank lines and comments have
/// none.
pub open spec fn user_line(
    users: Seq<(Seq<char>, Seq<char>)>,
    raw: Seq<char>,
    n: int,
    path: Seq<char>,
) -> Result<Seq<(Seq<char>, Seq<char>)>, Seq<char>> {
    let line = trimmed(raw);
    if line.len() == 0 || line[0] == '#' {
        Ok(users)
    } else {
        match split_once_at(line, ':') {
            None => Err(at_file(path, n) + "expected 'user:hash', got '"@ + raw + "'"@),
            Some((user, hash)) => if bcrypt_format(hash) {
                Ok(with_user(users, user, hash))
            } else {
                Err(
                    at_file(path, n) + "user '"@ + user
                        + "' uses a non-bcrypt hash. Elrond only accepts bcrypt (`$2y$…`, `$2a$…`, `$2b$…`). Re-create with `htpasswd -nbB user password`."@,
                )
            },
        }
    }
}

/// The users that the lines from line `n` on add.
pub open spec fn user_lines(
    users: Seq<(Seq<char>, Seq<char>)>,
    lines: Seq<Seq<char>>,
    n: int,
    path: Seq<char>,
) -> Result<Seq<(Seq<char>, Seq<char>)>, Seq<char>>
    decreases lines.len(),
{
    if lines.len() == 0 {
        Ok(users)
    } else {
        match user_line(users, lines[0], n, path) {
            Ok(u) => user_lines(u, lines.skip(1), n + 1, path),
            Err(e) => Err(e),
        }
    }
}

/// The users of an htpasswd file.
pub open spec fn users_of(text: Seq<char>, path: Seq<char>) -> Result<
    Seq<(Seq<char>, Seq<char>)>,
    Seq<char>,
> {
    user_lines(seq![], lines_of(split_at(text, '\n')), 1, path)
}

/// The authentication that a file sets up. It must name at least one user.
pub open spec fn loaded(text: Seq<char>, path: Seq<char>, realm: Seq<char>) -> Result<
    AuthBasicV,
    Seq<char>,
> {
    match users_of(text, path) {
        Err(e) => Err(e),
        Ok(users) => if users.len() == 0 {
            Err("auth_basic_user_file '"@ + path + "' is empty after stripping comments"@)
        } else {
            Ok(AuthBasicV { realm, users })
        },
    }
}

/// The lines of a text.
fn text_lines(text: &str) -> (r: Vec<String>)
    ensures
        views(r@) == lines_of(split_at(text@, '\n')),
{
    let pieces = split(text, '\n');
    let ghost all = views(pieces@);
    let mut out: Vec<String> = Vec::new();
    let mut i: usize = 0;
    assert(all.skip(0) == all);
    assert(views(out@) + lines_of(all) =~= lines_of(all));
    while i < pieces.len()
        invariant
            i <= pieces@.len(),
            all == views(pieces@),
            views(out@) + lines_of(all.skip(i as int)) == lines_of(all),
        decreases pieces@.len() - i,
    {
        let ghost rest = all.skip(i as int);
        let ghost before = out@;
        assert(rest[0] == pieces@[i as int]@);
        assert(rest.skip(1) == all.skip(i + 1));
        if i == pieces.len() - 1 {
            if !pieces[i].as_str().is_empty() {
                let line = pieces[i].clone();
                out.push(line);
                proof {
                    lemma_views_push(before, line);
                    assert(views(before) + seq![rest[0]] =~= views(out@) + lines_of(
                        all.skip(i + 1),
                    ));
                }
            } else {
                assert(views(before) + Seq::<Seq<char>>::empty() =~= views(out@) + lines_of(
                    all.skip(i + 1),
                ));
            }
        } else {
            let v = chars(pieces[i].as_str());
            let n: usize = v.len();
            let line = if n > 0 && v[n - 1] == '\r' {
                slice_string(&v, 0, n - 1)
            } else {
                pieces[i].clone()
            };
            assert(line@ =~= without_cr(rest[0]));
            out.push(line);
            proof {
                lemma_views_push(before, line);
                assert(views(before) + (seq![line@] + lines_of(all.skip(i + 1))) =~= views(out@)
                    + lines_of(all.skip(i + 1)));
            }
        }
        i = i + 1;
    }
    assert(views(out@) + Seq::<Seq<char>>::empty() =~= views(out@));
    out
}

pub proof fn lemma_user_index(users: Seq<(Seq<char>, Seq<char>)>, user: Seq<char>, i: int)
    requires
        0 <= i <= users.len(),
        forall|k: int| 0 <= k < i ==> (#[trigger] users[k]).0 != user,
        i == users.len() || users[i].0 == user,
    ensures
        user_index(users, user) == i,
    decreases i,
{
    if i > 0 {
        assert(users[0].0 != user);
        assert forall|k: int| 0 <= k < i - 1 implies (#[trigger] users.skip(1)[k]).0 != user by {
            assert(users.skip(1)[k] == users[k + 1]);
        }
        lemma_user_index(users.skip(1), user, i - 1);
    }
}

pub proof fn lemma_user_index_bounds(users: Seq<(Seq<char>, Seq<char>)>, user: Seq<char>)
    ensures
        0 <= user_index(users, user) <= users.len(),
    decreases users.len(),
{
    if users.len() > 0 && users[0].0 != user {
        lemma_user_index_bounds(users.skip(1), user);
    }
}

fn find_user(users: &Vec<(String, String)>, user: &str) -> (i: usize)
    ensures
        i == user_index(views(users@), user@),
        i <= users@.len(),
{
    let ghost all = views(users@);
    let mut i: usize = 0;
    while i < users.len()
        invariant
            i <= users@.len(),
            all == views(users@),
            forall|k: int| 0 <= k < i ==> (#[trigger] all[k]).0 != user@,
        decreases users@.len() - i,
    {
        assert(all[i as int] == users@[i as int]@);
        if same(users[i].0.as_str(), user) {
            proof {
                lemma_user_index(all, user@, i as int);
            }
            return i;
        }
        i = i + 1;
    }
    proof {
        lemma_user_index(all, user@, i as int);
    }
    i
}

fn is_bcrypt(hash: &str) -> (r: bool)
    ensures
        r == bcrypt_format(hash@),
{
    starts_with(hash, "$2y$") || starts_with(hash, "$2a$") || starts_with(hash, "$2b$")
}

fn file_prefix(path: &str, n: usize) -> (s: String)
    ensures
        s@ == at_file(path@, n as int),
{
    let mut s = path.to_owned();
    s.append(":");
    push_decimal(&mut s, n as u64);
    s.append(": ");
    s
}

fn apply_line(users: Vec<(String, String)>, raw: &str, n: usize, path: &str) -> (r: Result<
    Vec<(String, String)>,
    String,
>)
    ensures
        match r {
            Ok(u) => user_line(views(users@), raw@, n as int, path@) == Ok::<
                Seq<(Seq<char>, Seq<char>)>,
                Seq<char>,
            >(views(u@)),
            Err(e) => user_line(views(users@), raw@, n as int, path@) == Err::<
                Seq<(Seq<char>, Seq<char>)>,
                Seq<char>,
            >(e@),
        },
{
    let mut users = users;
    let line = trim(raw);
    let v = chars(line);
    if v.len() == 0 || v[0] == '#' {
        return Ok(users);
    }
    match split_once(line, ':') {
        None => {
            let mut e = file_prefix(path, n);
            e.append("expected 'user:hash', got '");
            e.append(raw);
            e.append("'");
            Err(e)
        },
        Some((user, hash)) => {
            if !is_bcrypt(hash) {
                let mut e = file_prefix(path, n);
                e.append("user '");
                e.append(user);
                e.append(
                    "' uses a non-bcrypt hash. Elrond only accepts bcrypt (`$2y$…`, `$2a$…`, `$2b$…`). Re-create with `htpasswd -nbB user password`.",
                );
                return Err(e);
            }
            let ghost before = views(users@);
            let i = find_user(&users, user);
            let item = (user.to_owned(), hash.to_owned());
            if i < users.len() {
                users.set(i, item);
                assert(views(users@) =~= before.update(i as int, (user@, hash@)));
            } else {
                proof {
                    lemma_views_push(users@, item);
                }
                users.push(item);
            }
            Ok(users)
        },
    }
}

fn parse_htpasswd(text: &str, path: &str) -> (r: Result<Vec<(String, String)>, String>)
    ensures
        match r {
            Ok(u) => users_of(text@, path@) == Ok::<Seq<(Seq<char>, Seq<char>)>, Seq<char>>(
                views(u@),
            ),
            Err(e) => users_of(text@, path@) == Err::<Seq<(Seq<char>, Seq<char>)>, Seq<char>>(e@),
        },
{
    let lines = text_lines(text);
    let ghost all = views(lines@);
    let mut users: Vec<(String, String)> = Vec::new();
    let mut i: usize = 0;
    assert(all.skip(0) == all);
    assert(views(users@) =~= seq![]);
    while i < lines.len()
        invariant
            i <= lines@.len(),
            all == views(lines@),
            all == lines_of(split_at(text@, '\n')),
            user_lines(views(users@), all.skip(i as int), i + 1, path@) == users_of(text@, path@),
        decreases lines@.len() - i,
    {
        let ghost rest = all.skip(i as int);
        assert(rest[0] == lines@[i as int]@);
        assert(rest.skip(1) == all.skip(i + 1));
        match apply_line(users, lines[i].as_str(), i + 1, path) {
            Ok(u) => {
                users = u;
            },
            Err(e) => {
                return Err(e);
            },
        }
        i = i + 1;
    }
    assert(all.skip(i as int).len() == 0);
    Ok(users)
}

impl AuthBasic {
    /// Read and validate the text of an htpasswd-style file. Comments (`#…`)
    /// and blank lines are ignored. Any non-bcrypt entry is reported with its
    /// line number so the operator knows which line to fix.
    pub fn from_text(text: &str, path: &str, realm: String) -> (r: Result<AuthBasic, String>)
        ensures
            result_view(r) == loaded(text@, path@, realm@),
    {
        match parse_htpasswd(text, path) {
            Err(e) => Err(e),
            Ok(users) => {
                if users.len() == 0 {
                    let mut e = "auth_basic_user_file '".to_owned();
                    e.append(path);
                    e.append("' is empty after stripping comments");
                    return Err(e);
                }
                Ok(AuthBasic { realm, users })
            },
        }
    }

    /// An independent copy.
    pub fn copy(&self) -> (r: AuthBasic)
        ensures
            r@ == self@,
    {
        let mut users: Vec<(String, String)> = Vec::new();
        let mut i: usize = 0;
        while i < self.users.len()
            invariant
                i <= self.users@.len(),
                users@.len() == i,
                forall|k: int| 0 <= k < i ==> (#[trigger] users@[k])@ == self.users@[k]@,
            decreases self.users@.len() - i,
        {
            users.push((self.users[i].0.clone(), self.users[i].1.clone()));
            i = i + 1;
        }
        assert(views(users@) =~= views(self.users@));
        AuthBasic { realm: self.realm.clone(), users }
    }
}

// ---------------------------------------------------------------------------
// Checking
// ---------------------------------------------------------------------------

/// What `base64::engine::general_purpose::STANDARD` decodes a text to; `None`
/// when it is not canonical padded base64.
pub uninterp spec fn base64_decoded(s: Seq<char>) -> Option<Seq<u8>>;

/// `base64::Engine::decode` with the standard alphabet and padding.
#[verifier::external_body]
fn decode_base64(s: &str) -> (r: Option<Vec<u8>>)
    ensures
        match r {
            Some(v) => base64_decoded(s@) == Some(v@),
            None => base64_decoded(s@) is None,
        },
{
    base64::engine::general_purpose::STANDARD.decode(s).ok()
}

/// `String::from_utf8` keeps valid UTF-8 as it is and rejects anything else.
#[verifier::external_body]
fn utf8_string(bytes: Vec<u8>) -> (r: Option<String>)
    ensures
        match r {
            Some(s) => valid_utf8(bytes@) && s@ == decode_utf8(bytes@),
            None => !valid_utf8(bytes@),
        },
{
    String::from_utf8(bytes).ok()
}

/// Whether `bcrypt::verify` accepts a password for a hash.
pub uninterp spec fn bcrypt_accepts(password: Seq<char>, hash: Seq<char>) -> bool;

/// `bcrypt::verify` recomputes the hash of the password with the salt and cost
/// in `hash`; a hash that it cannot read counts as a mismatch.
#[verifier::external_body]
fn bcrypt_verify(password: &str, hash: &str) -> (r: bool)
    ensures
        r == bcrypt_accepts(password@, hash@),
{
    bcrypt::verify(password, hash).unwrap_or(false)
}

/// The encoded credentials that an `Authorization: Basic …` header carries.
pub open spec fn token_of(headers: Map<Seq<char>, Seq<Seq<u8>>>) -> Option<Seq<char>> {
    match header_text(headers, "authorization"@) {
        None => None,
        Some(value) => match split_once_at(value, ' ') {
            None => None,
            Some((scheme, rest)) => if lower(scheme) == "basic"@ {
                Some(trimmed(rest))
            } else {
                None
            },
        },
    }
}

/// The encoded credentials that a request presents.
pub fn presented(headers: &hyper::HeaderMap) -> (r: Option<String>)
    ensures
        opt_view(r) == token_of(header_map(*headers)),
{
    let value = match get_text(headers, "authorization") {
        Some(v) => v,
        None => {
            return None;
        },
    };
    match split_once(value.as_str(), ' ') {
        None => None,
        Some((scheme, rest)) => {
            let l = to_lower(scheme);
            if same(l.as_str(), "basic") {
                Some(trim(rest).to_owned())
            } else {
                None
            }
        },
    }
}

/// The password that decoded credentials `user:password` claim, with the hash
/// on file for the user. `None` when the credentials are not text, have no
/// colon or name nobody.
pub open spec fn claim_of(users: Seq<(Seq<char>, Seq<char>)>, decoded: Seq<u8>) -> Option<
    (Seq<char>, Seq<char>),
> {
    if !valid_utf8(decoded) {
        None
    } else {
        match split_once_at(decode_utf8(decoded), ':') {
            None => None,
            Some((user, password)) => {
                let i = user_index(users, user);
                if i < users.len() {
                    Some((password, users[i].1))
                } else {
                    None
                }
            },
        }
    }
}

/// What is to be compared for decoded credentials: the claimed password and
/// the hash on file.
pub fn claim(auth: &AuthBasic, decoded: Vec<u8>) -> (r: Option<(String, String)>)
    ensures
        opt_view(r) == claim_of(auth@.users, decoded@),
{
    let creds = match utf8_string(decoded) {
        Some(c) => c,
        None => {
            return None;
        },
    };
    match split_once(creds.as_str(), ':') {
        None => None,
        Some((user, password)) => {
            let i = find_user(&auth.users, user);
            if i < auth.users.len() {
                assert(views(auth.users@)[i as int] == auth.users@[i as int]@);
                Some((password.to_owned(), auth.users[i].1.clone()))
            } else {
                None
            }
        },
    }
}

/// Whether a request carries valid credentials: those of a known user whose
/// hash accepts the password.
pub open spec fn authorized(
    users: Seq<(Seq<char>, Seq<char>)>,
    headers: Map<Seq<char>, Seq<Seq<u8>>>,
) -> bool {
    match token_of(headers) {
        None => false,
        Some(token) => match base64_decoded(token) {
            None => false,
            Some(decoded) => match claim_of(users, decoded) {
                None => false,
                Some((password, hash)) => bcrypt_accepts(password, hash),
            },
        },
    }
}

/// Decide whether the request carries valid Basic credentials. Returns:
/// - `Ok(())` to let the request through.
/// - `Err(Response)` containing a `401 Unauthorized` response with the
///   correct `WWW-Authenticate` challenge.
pub fn check(auth: &AuthBasic, headers: &hyper::HeaderMap) -> (r: Result<(), Response>)
    ensures
        match r {
            Ok(()) => authorized(auth@.users, header_map(*headers)),
            Err(resp) => !authorized(auth@.users, header_map(*headers)) && resp@ == challenge(
                auth@.realm,
            ) && header_names(resp.headers) <= 2,
        },
{
    let ok = match presented(headers) {
        None => false,
        Some(token) => match decode_base64(token.as_str()) {
            None => false,
            Some(decoded) => match claim(auth, decoded) {
                None => false,
                Some((password, hash)) => bcrypt_verify(password.as_str(), hash.as_str()),
            },
        },
    };
    answer(auth, ok)
}

/// Let a request through, or challenge it.
pub fn answer(auth: &AuthBasic, ok: bool) -> (r: Result<(), Response>)
    ensures
        match r {
            Ok(()) => ok,
            Err(resp) => !ok && resp@ == challenge(auth@.realm) && header_names(resp.headers) <= 2,
        },
{
    if ok {
        Ok(())
    } else {
        Err(challenge_response(auth.realm.as_str()))
    }
}

/// A text with its quotes and backslashes escaped by a backslash.
pub open spec fn quoted(s: Seq<char>) -> Seq<char>
    decreases s.len(),
{
    if s.len() == 0 {
        seq![]
    } else if s.last() == '\\' || s.last() == '"' {
        quoted(s.drop_last()).push('\\').push(s.last())
    } else {
        quoted(s.drop_last()).push(s.last())
    }
}

/// The `401` response for a realm. A realm that no header can carry is left
/// out.
pub open spec fn challenge(realm: Seq<char>) -> ResponseV {
    ResponseV {
        status: 401,
        headers: with_header(
            with_header(
                no_headers(),
                "content-type"@,
                encode_utf8("text/plain; charset=utf-8"@),
            ),
            "www-authenticate"@,
            encode_utf8("Basic realm=\""@ + quoted(realm) + "\""@),
        ),
        body: encode_utf8("401 Unauthorized\n"@),
    }
}

fn escape_quoted(s: &str) -> (r: String)
    ensures
        r@ == quoted(s@),
{
    let v = chars(s);
    let mut out = String::new();
    let mut i: usize = 0;
    assert(v@.take(0) =~= seq![]);
    while i < v.len()
        invariant
            i <= v@.len(),
            v@ == s@,
            out@ == quoted(v@.take(i as int)),
        decreases v@.len() - i,
    {
        let c = v[i];
        if c == '\\' || c == '"' {
            out.push('\\');
        }
        out.push(c);
        i = i + 1;
        assert(v@.take(i as int).drop_last() == v@.take(i - 1));
        assert(v@.take(i as int).last() == c);
    }
    assert(v@.take(i as int) == v@);
    out
}

fn challenge_response(realm: &str) -> (r: Response)
    ensures
        r@ == challenge(realm@),
        header_names(r.headers) <= 2,
{
    let mut value = "Basic realm=\"".to_owned();
    value.append(escape_quoted(realm).as_str());
    value.append("\"");
    let mut headers = new_headers();
    set_text(&mut headers, "content-type", "text/plain; charset=utf-8");
    set_text(&mut headers, "www-authenticate", value.as_str());
    Response { status: 401, headers, body: text_bytes("401 Unauthorized\n") }
}

// ---------------------------------------------------------------------------
// Laws
// ---------------------------------------------------------------------------

/// No entry with anything but a bcrypt hash is ever loaded.
pub proof fn law_only_bcrypt_is_loaded(text: Seq<char>, path: Seq<char>, realm: Seq<char>)
    ensures
        loaded(text, path, realm) matches Ok(a) ==> a.users.len() > 0 && forall|i: int|
            0 <= i < a.users.len() ==> bcrypt_format((#[trigger] a.users[i]).1),
{
    lemma_lines_bcrypt(seq![], lines_of(split_at(text, '\n')), 1, path);
}

proof fn lemma_lines_bcrypt(
    users: Seq<(Seq<char>, Seq<char>)>,
    lines: Seq<Seq<char>>,
    n: int,
    path: Seq<char>,
)
    requires
        forall|i: int| 0 <= i < users.len() ==> bcrypt_format((#[trigger] users[i]).1),
    ensures
        user_lines(users, lines, n, path) matches Ok(u) ==> forall|i: int|
            0 <= i < u.len() ==> bcrypt_format((#[trigger] u[i]).1),
    decreases lines.len(),
{
    if lines.len() > 0 {
        match user_line(users, lines[0], n, path) {
            Ok(u) => {
                if let Some((user, _)) = split_once_at(trimmed(lines[0]), ':') {
                    lemma_user_index_bounds(users, user);
                }
                assert forall|i: int| 0 <= i < u.len() implies bcrypt_format(
                    (#[trigger] u[i]).1,
                ) by {
                    if i < users.len() {
                        assert(bcrypt_format(users[i].1));
                    }
                }
                lemma_lines_bcrypt(u, lines.skip(1), n + 1, path);
            },
            Err(_) => {},
        }
    }
}

/// A request without an `Authorization` header is never let through.
pub proof fn law_missing_credentials_are_refused(
    users: Seq<(Seq<char>, Seq<char>)>,
    headers: Map<Seq<char>, Seq<Seq<u8>>>,
)
    requires
        header_text(headers, "authorization"@) is None,
    ensures
        !authorized(users, headers),
{
}

/// With credentials `user:password` that decode, it is the password that
/// decides: the user must be known, and the hash on file must accept it.
pub proof fn law_password_decides(
    users: Seq<(Seq<char>, Seq<char>)>,
    headers: Map<Seq<char>, Seq<Seq<u8>>>,
    token: Seq<char>,
    user: Seq<char>,
    password: Seq<char>,
)
    requires
        token_of(headers) == Some(token),
        base64_decoded(token) == Some(encode_utf8(user + seq![':'] + password)),
        !user.contains(':'),
    ensures
        authorized(users, headers) == (user_index(users, user) < users.len() && bcrypt_accepts(
            password,
            users[user_index(users, user)].1,
        )),
{
    let creds = user + seq![':'] + password;
    encode_utf8_valid_utf8(creds);
    encode_utf8_decode_utf8(creds);
    lemma_position_is(creds, ':');
    assert(creds[user.len() as int] == ':');
    let i = position(creds, ':');
    if i < user.len() {
        assert(user[i] == ':');
    }
    assert(creds.take(i) =~= user);
    assert(creds.skip(i + 1) =~= password);
}

} // verus!
