//! Laws on who may pass: addresses and passwords.

use super::cache::lemma_plain_name;
use super::files::tells;
use super::text::{law_split_once, law_split_once_finds_halves};
use crate::access::{AccessTarget, bit_at, bit_of, covers, same_prefix, target_of};
use crate::auth::{
    authorized, base64_decoded, bcrypt_accepts, bcrypt_format, challenge, lines_of, loaded, quoted,
    user_index, user_line, user_lines, with_user,
};
use crate::headers::{header_text, is_plain, is_plain_char, lemma_plain_concat, lemma_plain_value};
use crate::net::{ip_text, IpAddr};
use crate::text::{
    lemma_split_concat, lemma_split_whole, lower, number, split_at, split_once_at, trimmed,
};
use vstd::prelude::*;
use vstd::string::*;
use vstd::utf8::{decode_utf8, encode_utf8, valid_utf8};

verus! {

// ---------------------------------------------------------------------------
// Addresses
// ---------------------------------------------------------------------------

/// Whether two addresses agree in their first `bits` bits: in all whole bytes of
/// them, and in the upper part of the byte that they end in.
pub open spec fn agree(a: Seq<u8>, b: Seq<u8>, bits: int) -> bool {
    &&& forall|i: int| 0 <= i < bits / 8 ==> #[trigger] a[i] == b[i]
    &&& bits % 8 == 0 || a[bits / 8] >> ((8 - bits % 8) as u8) == b[bits / 8] >> ((8 - bits
        % 8) as u8)
}

#[verifier::rlimit(50)]
proof fn lemma_upper_bits(a: u8, b: u8, r: u8)
    requires
        r <= 8,
    ensures
        (forall|j: u8| j < r ==> #[trigger] bit_of(a, j) == bit_of(b, j)) <==> (r == 0 || a >> ((8
            - r) as u8) == b >> ((8 - r) as u8)),
{
    assert forall|j: u8| j < 8 implies #[trigger] bit_of(a, j) == (a >> ((7 - j) as u8)) & 1u8 by {}
    let all = forall|j: u8| j < r ==> #[trigger] bit_of(a, j) == bit_of(b, j);
    if all {
        assert(r > 0 ==> bit_of(a, 0) == bit_of(b, 0));
        assert(r > 1 ==> bit_of(a, 1) == bit_of(b, 1));
        assert(r > 2 ==> bit_of(a, 2) == bit_of(b, 2));
        assert(r > 3 ==> bit_of(a, 3) == bit_of(b, 3));
        assert(r > 4 ==> bit_of(a, 4) == bit_of(b, 4));
        assert(r > 5 ==> bit_of(a, 5) == bit_of(b, 5));
        assert(r > 6 ==> bit_of(a, 6) == bit_of(b, 6));
        assert(r > 7 ==> bit_of(a, 7) == bit_of(b, 7));
        assert(r == 0 || a >> ((8 - r) as u8) == b >> ((8 - r) as u8)) by (bit_vector)
            requires
                r <= 8,
                r > 0 ==> (a >> 7u8) & 1u8 == (b >> 7u8) & 1u8,
                r > 1 ==> (a >> 6u8) & 1u8 == (b >> 6u8) & 1u8,
                r > 2 ==> (a >> 5u8) & 1u8 == (b >> 5u8) & 1u8,
                r > 3 ==> (a >> 4u8) & 1u8 == (b >> 4u8) & 1u8,
                r > 4 ==> (a >> 3u8) & 1u8 == (b >> 3u8) & 1u8,
                r > 5 ==> (a >> 2u8) & 1u8 == (b >> 2u8) & 1u8,
                r > 6 ==> (a >> 1u8) & 1u8 == (b >> 1u8) & 1u8,
                r > 7 ==> (a >> 0u8) & 1u8 == (b >> 0u8) & 1u8,
        ;
    }
    if r == 0 || a >> ((8 - r) as u8) == b >> ((8 - r) as u8) {
        assert forall|j: u8| j < r implies #[trigger] bit_of(a, j) == bit_of(b, j) by {
            let k = (8 - r) as u8;
            let n = (7 - j) as u8;
            assert((a >> n) & 1u8 == (b >> n) & 1u8) by (bit_vector)
                requires
                    a >> k == b >> k,
                    k <= n,
                    n <= 7,
            ;
        }
    }
}

proof fn lemma_same_prefix(a: Seq<u8>, b: Seq<u8>, bits: int)
    requires
        0 <= bits,
        bits <= 8 * a.len(),
        a.len() == b.len(),
    ensures
        same_prefix(a, b, bits) <==> agree(a, b, bits),
{
    let n = bits / 8;
    let r = (bits % 8) as u8;
    if n < a.len() {
        lemma_upper_bits(a[n], b[n], r);
    }
    if same_prefix(a, b, bits) {
        assert forall|i: int| 0 <= i < n implies #[trigger] a[i] == b[i] by {
            lemma_upper_bits(a[i], b[i], 8);
            assert forall|j: u8| j < 8 implies #[trigger] bit_of(a[i], j) == bit_of(b[i], j) by {
                let k = 8 * i + j;
                assert(k / 8 == i && k % 8 == j);
                assert(bit_at(a, k) == bit_at(b, k));
            }
            let (x, y) = (a[i], b[i]);
            assert(x >> 0u8 == x && y >> 0u8 == y) by (bit_vector);
        }
        if r > 0 {
            assert forall|j: u8| j < r implies #[trigger] bit_of(a[n], j) == bit_of(b[n], j) by {
                let k = 8 * n + j;
                assert(k / 8 == n && k % 8 == j);
                assert(bit_at(a, k) == bit_at(b, k));
            }
        }
    }
    if agree(a, b, bits) {
        assert forall|k: int| 0 <= k < bits implies #[trigger] bit_at(a, k) == bit_at(b, k) by {
            let i = k / 8;
            if i < n {
                assert(a[i] == b[i]);
            } else {
                assert(i == n);
                let j = (k % 8) as u8;
                assert(j < r);
                assert(bit_of(a[n], j) == bit_of(b[n], j));
            }
        }
    }
}

/// A block covers an address of its family that agrees with it in as many bits as
/// its prefix says, and no other.
pub proof fn law_blocks(base: IpAddr, bits: u8, ip: IpAddr)
    ensures
        covers(AccessTarget::Cidr(base, bits), ip) <==> {
            ||| base is V4 && ip is V4 && bits <= 32 && agree(base.bytes(), ip.bytes(), bits as int)
            ||| base is V6 && ip is V6 && bits <= 128 && agree(
                base.bytes(),
                ip.bytes(),
                bits as int,
            )
        },
        covers(AccessTarget::All, ip),
        covers(AccessTarget::Ip(base), ip) <==> base == ip,
{
    if base is V4 && ip is V4 && bits <= 32 {
        lemma_same_prefix(base.bytes(), ip.bytes(), bits as int);
    }
    if base is V6 && ip is V6 && bits <= 128 {
        lemma_same_prefix(base.bytes(), ip.bytes(), bits as int);
    }
}

/// What `allow` and `deny` name: `all`, an address, or an address, a slash and a
/// prefix that is not longer than the address. Everything else is refused.
pub proof fn law_access_targets(s: Seq<char>, a: Seq<char>, n: Seq<char>)
    ensures
        target_of(seq!['a', 'l', 'l']) == Ok::<AccessTarget, Seq<char>>(AccessTarget::All),
        !s.contains('/') && s != seq!['a', 'l', 'l'] ==> match ip_text(s) {
            Some(ip) => target_of(s) == Ok::<AccessTarget, Seq<char>>(AccessTarget::Ip(ip)),
            None => target_of(s) is Err,
        },
        !a.contains('/') ==> match (ip_text(a), number(n, 255)) {
            (Some(ip), Some(bits)) => if bits <= (if ip is V4 {
                32nat
            } else {
                128
            }) {
                target_of(a + seq!['/'] + n) == Ok::<AccessTarget, Seq<char>>(
                    AccessTarget::Cidr(ip, bits as u8),
                )
            } else {
                target_of(a + seq!['/'] + n) is Err
            },
            _ => target_of(a + seq!['/'] + n) is Err,
        },
{
    reveal_strlit("all");
    assert("all"@ =~= seq!['a', 'l', 'l']);
    law_split_once(s, '/');
    if split_once_at(s, '/') is Some {
        let (x, y) = split_once_at(s, '/')->0;
        assert(s[x.len() as int] == '/');
    }
    if !a.contains('/') {
        law_split_once_finds_halves(a, '/', n);
        let t = a + seq!['/'] + n;
        assert(t[a.len() as int] == '/');
        assert(t != "all"@) by {
            if t == "all"@ {
                assert(seq!['a', 'l', 'l'][a.len() as int] == '/');
            }
        }
    }
}

// ---------------------------------------------------------------------------
// Passwords
// ---------------------------------------------------------------------------

/// A file is read line by line; a line ends with `\n` or `\r\n`, and the last one may
/// end with the file.
pub proof fn law_lines_of_a_file(a: Seq<char>, b: Seq<char>)
    requires
        !a.contains('\n'),
    ensures
        a.len() > 0 ==> lines_of(split_at(a, '\n')) == seq![a],
        lines_of(split_at(seq![], '\n')).len() == 0,
        lines_of(split_at(a + seq!['\n'] + b, '\n')) == seq![
            if a.len() > 0 && a.last() == '\r' {
                a.drop_last()
            } else {
                a
            },
        ] + lines_of(split_at(b, '\n')),
{
    lemma_split_whole(a, '\n');
    lemma_split_whole(seq![], '\n');
    lemma_split_concat(a, '\n', b);
    let all = split_at(a + seq!['\n'] + b, '\n');
    super::text::law_split_glues_back(b, '\n');
    assert(all =~= seq![a] + split_at(b, '\n'));
    assert(all.skip(1) =~= split_at(b, '\n'));
}

/// Whether a text starts with one of the marks of bcrypt.
pub open spec fn is_bcrypt_hash(h: Seq<char>) -> bool {
    h.len() >= 4 && h[0] == '$' && h[1] == '2' && (h[2] == 'y' || h[2] == 'a' || h[2] == 'b')
        && h[3] == '$'
}

proof fn lemma_bcrypt(h: Seq<char>)
    ensures
        bcrypt_format(h) <==> is_bcrypt_hash(h),
{
    reveal_strlit("$2y$");
    reveal_strlit("$2a$");
    reveal_strlit("$2b$");
    let (y, a, b) = ("$2y$"@, "$2a$"@, "$2b$"@);
    assert(y[0] == '$' && y[1] == '2' && y[2] == 'y' && y[3] == '$');
    assert(a[0] == '$' && a[1] == '2' && a[2] == 'a' && a[3] == '$');
    assert(b[0] == '$' && b[1] == '2' && b[2] == 'b' && b[3] == '$');
    if is_bcrypt_hash(h) {
        let t = h.take(4);
        assert(t =~= y || t =~= a || t =~= b);
    }
}

/// The hash that a list has for a user: the one at the first place of the name.
pub open spec fn has_hash(users: Seq<(Seq<char>, Seq<char>)>, user: Seq<char>, hash: Seq<char>) -> bool {
    exists|i: int|
        0 <= i < users.len() && #[trigger] users[i] == (user, hash) && forall|k: int|
            0 <= k < i ==> (#[trigger] users[k]).0 != user
}

proof fn lemma_index(users: Seq<(Seq<char>, Seq<char>)>, user: Seq<char>)
    ensures
        0 <= user_index(users, user) <= users.len(),
        user_index(users, user) < users.len() ==> users[user_index(users, user)].0 == user,
        forall|k: int| 0 <= k < user_index(users, user) ==> (#[trigger] users[k]).0 != user,
    decreases users.len(),
{
    if users.len() > 0 && users[0].0 != user {
        lemma_index(users.skip(1), user);
        assert forall|k: int| 0 <= k < user_index(users, user) implies (#[trigger] users[k]).0
            != user by {
            if k > 0 {
                assert(users[k] == users.skip(1)[k - 1]);
            }
        }
    }
}

proof fn lemma_with_user(
    users: Seq<(Seq<char>, Seq<char>)>,
    user: Seq<char>,
    hash: Seq<char>,
    w: Seq<char>,
    h: Seq<char>,
)
    ensures
        has_hash(with_user(users, user, hash), w, h) <==> if w == user {
            h == hash
        } else {
            has_hash(users, w, h)
        },
{
    lemma_index(users, user);
    let i = user_index(users, user);
    let t = with_user(users, user, hash);
    assert(t[i] == (user, hash));
    assert forall|k: int| 0 <= k < users.len() && k != i implies #[trigger] t[k] == users[k] by {}
    if w == user {
        if h == hash {
            assert(t[i] == (w, h));
        }
        if has_hash(t, w, h) {
            let j = choose|j: int|
                0 <= j < t.len() && #[trigger] t[j] == (w, h) && forall|k: int|
                    0 <= k < j ==> (#[trigger] t[k]).0 != w;
            if j < i {
                assert(users[j].0 != user);
            } else if j > i {
                assert(t[i].0 != w);
            }
        }
    } else {
        if has_hash(users, w, h) {
            let j = choose|j: int|
                0 <= j < users.len() && #[trigger] users[j] == (w, h) && forall|k: int|
                    0 <= k < j ==> (#[trigger] users[k]).0 != w;
            assert(t[j] == (w, h));
            assert forall|k: int| 0 <= k < j implies (#[trigger] t[k]).0 != w by {
                if k != i {
                    assert(t[k] == users[k]);
                }
            }
        }
        if has_hash(t, w, h) {
            let j = choose|j: int|
                0 <= j < t.len() && #[trigger] t[j] == (w, h) && forall|k: int|
                    0 <= k < j ==> (#[trigger] t[k]).0 != w;
            assert(users[j] == (w, h));
            assert forall|k: int| 0 <= k < j implies (#[trigger] users[k]).0 != w by {
                if k != i {
                    assert(t[k] == users[k]);
                }
            }
        }
    }
}

/// One line of a password file: blank lines and comments count for nothing; `user:hash`
/// gives the user that hash, in place of an earlier one, and leaves the others; a
/// hash of another kind, or a line of another shape, refuses the file.
pub proof fn law_password_lines(
    users: Seq<(Seq<char>, Seq<char>)>,
    raw: Seq<char>,
    n: int,
    path: Seq<char>,
    user: Seq<char>,
    hash: Seq<char>,
    w: Seq<char>,
    h: Seq<char>,
)
    ensures
        trimmed(raw).len() == 0 || trimmed(raw)[0] == '#' ==> user_line(users, raw, n, path) == Ok::<
            Seq<(Seq<char>, Seq<char>)>,
            Seq<char>,
        >(users),
        trimmed(raw).len() > 0 && trimmed(raw)[0] != '#' && !trimmed(raw).contains(':')
            ==> user_line(users, raw, n, path) is Err,
        trimmed(raw) == user + seq![':'] + hash && !user.contains(':') && trimmed(raw)[0] != '#'
            ==> {
            &&& user_line(users, raw, n, path) is Ok <==> is_bcrypt_hash(hash)
            &&& user_line(users, raw, n, path) matches Ok(t) ==> (has_hash(t, w, h) <==> if w
                == user {
                h == hash
            } else {
                has_hash(users, w, h)
            })
        },
{
    law_split_once(trimmed(raw), ':');
    lemma_bcrypt(hash);
    if trimmed(raw) == user + seq![':'] + hash && !user.contains(':') {
        law_split_once_finds_halves(user, ':', hash);
        lemma_with_user(users, user, hash, w, h);
    }
    if split_once_at(trimmed(raw), ':') is Some {
        let (x, y) = split_once_at(trimmed(raw), ':')->0;
        assert(trimmed(raw)[x.len() as int] == ':');
    }
}

/// A password file is its lines, one after the other from the first, and must name
/// somebody.
pub proof fn law_password_file(
    users: Seq<(Seq<char>, Seq<char>)>,
    lines: Seq<Seq<char>>,
    raw: Seq<char>,
    n: int,
    text: Seq<char>,
    path: Seq<char>,
    realm: Seq<char>,
)
    ensures
        user_lines(users, seq![], n, path) == Ok::<Seq<(Seq<char>, Seq<char>)>, Seq<char>>(users),
        user_lines(users, seq![raw] + lines, n, path) == (match user_line(users, raw, n, path) {
            Ok(u) => user_lines(u, lines, n + 1, path),
            Err(e) => Err(e),
        }),
        match (user_lines(seq![], lines_of(split_at(text, '\n')), 1, path), loaded(
            text,
            path,
            realm,
        )) {
            (Ok(u), Ok(a)) => a.users == u && u.len() > 0 && a.realm == realm,
            (Ok(u), Err(_)) => u.len() == 0,
            (Err(_), r) => r is Err,
        },
{
    assert((seq![raw] + lines).skip(1) =~= lines);
}

/// Who is let in: a request whose `Authorization` is `Basic`, in whatever case, with
/// a token that decodes to a name and a password, the first colon between them, where
/// the list has a hash for the name that accepts the password. Nobody else is.
pub proof fn law_who_is_authorized(
    users: Seq<(Seq<char>, Seq<char>)>,
    headers: Map<Seq<char>, Seq<Seq<u8>>>,
)
    ensures
        authorized(users, headers) <==> (header_text(headers, "authorization"@) matches Some(value)
            && exists|
            scheme: Seq<char>,
            rest: Seq<char>,
            user: Seq<char>,
            password: Seq<char>,
            hash: Seq<char>,
        |
            #[trigger] lets_in(users, value, scheme, rest, user, password, hash)),
{
    if let Some(value) = header_text(headers, "authorization"@) {
        reveal_strlit("basic");
        assert("basic"@ =~= seq!['b', 'a', 's', 'i', 'c']);
        law_split_once(value, ' ');
        if authorized(users, headers) {
            let (scheme, rest) = split_once_at(value, ' ')->0;
            let d = base64_decoded(trimmed(rest))->0;
            law_split_once(decode_utf8(d), ':');
            let (user, password) = split_once_at(decode_utf8(d), ':')->0;
            lemma_index(users, user);
            let i = user_index(users, user);
            assert(users[i] == (user, users[i].1));
            assert(lets_in(users, value, scheme, rest, user, password, users[i].1));
        }
        if exists|
            scheme: Seq<char>,
            rest: Seq<char>,
            user: Seq<char>,
            password: Seq<char>,
            hash: Seq<char>,
        |
            #[trigger] lets_in(users, value, scheme, rest, user, password, hash) {
            let (scheme, rest, user, password, hash) = choose|
                scheme: Seq<char>,
                rest: Seq<char>,
                user: Seq<char>,
                password: Seq<char>,
                hash: Seq<char>,
            |
                #[trigger] lets_in(users, value, scheme, rest, user, password, hash);
            law_split_once_finds_halves(scheme, ' ', rest);
            law_split_once_finds_halves(user, ':', password);
            lemma_index(users, user);
            let i = choose|i: int|
                0 <= i < users.len() && #[trigger] users[i] == (user, hash) && forall|k: int|
                    0 <= k < i ==> (#[trigger] users[k]).0 != user;
            assert(user_index(users, user) == i) by {
                let j = user_index(users, user);
                if j < i {
                    assert(users[j].0 != user);
                } else if i < j {
                    assert(users[i].0 != user);
                }
            }
        }
    }
}

/// Whether an `Authorization` value lets a request in, taken apart.
pub open spec fn lets_in(
    users: Seq<(Seq<char>, Seq<char>)>,
    value: Seq<char>,
    scheme: Seq<char>,
    rest: Seq<char>,
    user: Seq<char>,
    password: Seq<char>,
    hash: Seq<char>,
) -> bool {
    &&& value == scheme + seq![' '] + rest
    &&& !scheme.contains(' ')
    &&& lower(scheme) == seq!['b', 'a', 's', 'i', 'c']
    &&& base64_decoded(trimmed(rest)) matches Some(d) && valid_utf8(d) && decode_utf8(d) == user
        + seq![':'] + password
    &&& !user.contains(':')
    &&& has_hash(users, user, hash)
    &&& bcrypt_accepts(password, hash)
}

proof fn lemma_quoted_plain(s: Seq<char>)
    requires
        is_plain(s),
    ensures
        is_plain(quoted(s)),
    decreases s.len(),
{
    if s.len() > 0 {
        let t = s.drop_last();
        assert forall|i: int| 0 <= i < t.len() implies is_plain_char(#[trigger] t[i]) by {
            assert(t[i] == s[i]);
        }
        lemma_quoted_plain(t);
        assert(is_plain_char(s[s.len() - 1]));
        let q = quoted(t);
        assert forall|i: int| 0 <= i < quoted(s).len() implies is_plain_char(
            #[trigger] quoted(s)[i],
        ) by {
            if i < q.len() {
                assert(quoted(s)[i] == q[i]);
            }
        }
    }
}

/// Who is not let in is asked for a password of the realm, with a `401`. In the realm
/// a quote and a backslash are escaped.
#[verifier::rlimit(50)]
pub proof fn law_challenge(realm: Seq<char>, c: char)
    ensures
        challenge(realm).status == 401,
        challenge(realm).body == encode_utf8("401 Unauthorized\n"@),
        is_plain(realm) ==> tells(
            challenge(realm).headers,
            "www-authenticate"@,
            "Basic realm=\""@ + quoted(realm) + seq!['"'],
        ),
        quoted(seq![]).len() == 0,
        c == '"' || c == '\\' ==> quoted(realm.push(c)) == quoted(realm) + seq!['\\', c],
        c != '"' && c != '\\' ==> quoted(realm.push(c)) == quoted(realm) + seq![c],
{
    reveal_strlit("www-authenticate");
    lemma_plain_name("www-authenticate"@);
    reveal_strlit("Basic realm=\"");
    reveal_strlit("\"");
    assert("\""@ =~= seq!['"']);
    assert(is_plain("Basic realm=\""@) && is_plain("\""@));
    if is_plain(realm) {
        lemma_quoted_plain(realm);
        lemma_plain_concat("Basic realm=\""@, quoted(realm));
        lemma_plain_concat("Basic realm=\""@ + quoted(realm), "\""@);
        lemma_plain_value("Basic realm=\""@ + quoted(realm) + "\""@);
    }
    assert(realm.push(c).drop_last() =~= realm);
    assert(quoted(realm).push('\\').push(c) =~= quoted(realm) + seq!['\\', c]);
    assert(quoted(realm).push(c) =~= quoted(realm) + seq![c]);
}

} // verus!
