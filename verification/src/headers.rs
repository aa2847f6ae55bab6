//! HTTP header maps. The map itself is `hyper::HeaderMap`; this module names
//! its contents and states what each operation that the server uses does to
//! them.

use crate::text::{chars, decimal, is_digit, lemma_decimal_digits, lower};
use vstd::prelude::*;
use vstd::string::*;
use vstd::utf8::{encode_utf8, is_ascii_chars, is_ascii_chars_encode_utf8};

verus! {

/// `hyper::HeaderMap`, a multimap from header names to values.
#[verifier::external_type_specification]
#[verifier::external_body]
#[verifier::reject_recursive_types(T)]
pub struct ExHeaderMap<T>(hyper::HeaderMap<T>);

/// `hyper::header::HeaderValue`, one header value.
#[verifier::external_type_specification]
#[verifier::external_body]
pub struct ExHeaderValue(hyper::header::HeaderValue);

/// What a header map holds: for each name, in lower case, its values in the
/// order in which they were added. A name without values is not in the map.
pub uninterp spec fn header_map(h: hyper::HeaderMap) -> Map<Seq<char>, Seq<Seq<u8>>>;

/// Number of distinct names in a header map.
pub uninterp spec fn header_names(h: hyper::HeaderMap) -> nat;

/// Below this many distinct names a header map takes a new one without
/// overflowing its index, whatever its hash table looks like.
pub const MAX_HEADER_NAMES: usize = 6553;

/// Whether `n` more names fit.
pub open spec fn has_room(h: hyper::HeaderMap, n: nat) -> bool {
    header_names(h) + n <= MAX_HEADER_NAMES
}

/// A map without headers.
pub open spec fn no_headers() -> Map<Seq<char>, Seq<Seq<u8>>> {
    Map::empty()
}

/// A character of a header name.
pub open spec fn is_name_char(c: char) -> bool {
    ||| '0' <= c <= '9'
    ||| 'a' <= c <= 'z'
    ||| 'A' <= c <= 'Z'
    ||| c == '!' || c == '#' || c == '$' || c == '%' || c == '&' || c == '\'' || c == '*'
    ||| c == '+' || c == '-' || c == '.' || c == '^' || c == '_' || c == '`' || c == '|' || c == '~'
}

/// A header name: one to 65535 name characters.
pub open spec fn is_header_name(s: Seq<char>) -> bool {
    &&& 1 <= s.len() <= 65535
    &&& forall|i: int| 0 <= i < s.len() ==> is_name_char(#[trigger] s[i])
}

pub open spec fn is_value_byte(b: u8) -> bool {
    (b >= 32 && b != 127) || b == 9
}

/// A header value: no control characters but the tab.
pub open spec fn is_header_value(v: Seq<u8>) -> bool {
    forall|i: int| 0 <= i < v.len() ==> is_value_byte(#[trigger] v[i])
}

/// The map with `name` set to the single value `value`; unchanged when either
/// is not well-formed.
pub open spec fn with_header(
    m: Map<Seq<char>, Seq<Seq<u8>>>,
    name: Seq<char>,
    value: Seq<u8>,
) -> Map<Seq<char>, Seq<Seq<u8>>> {
    if is_header_name(name) && is_header_value(value) {
        m.insert(lower(name), seq![value])
    } else {
        m
    }
}

/// The first value of `name`.
pub open spec fn header_value(m: Map<Seq<char>, Seq<Seq<u8>>>, name: Seq<char>) -> Option<Seq<u8>> {
    if is_header_name(name) && m.contains_key(lower(name)) {
        Some(m[lower(name)][0])
    } else {
        None
    }
}

/// Every value of `name`, in order.
pub open spec fn header_values(m: Map<Seq<char>, Seq<Seq<u8>>>, name: Seq<char>) -> Seq<Seq<u8>> {
    if is_header_name(name) && m.contains_key(lower(name)) {
        m[lower(name)]
    } else {
        seq![]
    }
}

/// The map without `name`.
pub open spec fn without_header(m: Map<Seq<char>, Seq<Seq<u8>>>, name: Seq<char>) -> Map<
    Seq<char>,
    Seq<Seq<u8>>,
> {
    if is_header_name(name) {
        m.remove(lower(name))
    } else {
        m
    }
}

/// The map with one more value for `name`; unchanged when either is not
/// well-formed.
pub open spec fn with_added(
    m: Map<Seq<char>, Seq<Seq<u8>>>,
    name: Seq<char>,
    value: Seq<u8>,
) -> Map<Seq<char>, Seq<Seq<u8>>> {
    if is_header_name(name) && is_header_value(value) {
        m.insert(lower(name), header_values(m, name).push(value))
    } else {
        m
    }
}

/// A byte that may appear in a header value read as text.
pub open spec fn is_text_byte(b: u8) -> bool {
    32 <= b < 127 || b == 9
}

/// A header value as text, when it is plain ASCII.
pub open spec fn ascii_text(v: Seq<u8>) -> Option<Seq<char>> {
    if forall|i: int| 0 <= i < v.len() ==> is_text_byte(#[trigger] v[i]) {
        Some(v.map_values(|b: u8| b as char))
    } else {
        None
    }
}

/// The first value of `name`, when it is plain ASCII.
pub open spec fn header_text(m: Map<Seq<char>, Seq<Seq<u8>>>, name: Seq<char>) -> Option<Seq<char>> {
    match header_value(m, name) {
        Some(v) => ascii_text(v),
        None => None,
    }
}

/// The values that a list of header lines holds for the lower-case name `k`.
pub open spec fn values_in(list: Seq<(Seq<char>, Seq<u8>)>, k: Seq<char>) -> Seq<Seq<u8>>
    decreases list.len(),
{
    if list.len() == 0 {
        seq![]
    } else if list.last().0 == k {
        values_in(list.drop_last(), k).push(list.last().1)
    } else {
        values_in(list.drop_last(), k)
    }
}

/// The models of a list of header lines.
pub open spec fn line_views(list: Seq<(String, Vec<u8>)>) -> Seq<(Seq<char>, Seq<u8>)> {
    list.map_values(|p: (String, Vec<u8>)| (p.0@, p.1@))
}

/// A list of header lines holds exactly what a map holds.
pub open spec fn lists(list: Seq<(Seq<char>, Seq<u8>)>, m: Map<Seq<char>, Seq<Seq<u8>>>) -> bool {
    forall|k: Seq<char>| #[trigger] values_in(list, k) == values_at(m, k)
}

/// A character of a name that a map can hold: those of header names, without
/// capitals, and the quotation mark, which HTTP/2 and HTTP/3 let through.
pub open spec fn is_stored_char(c: char) -> bool {
    (is_name_char(c) && !('A' <= c <= 'Z')) || c == '"'
}

/// A name that a map can hold.
pub open spec fn is_stored_name(s: Seq<char>) -> bool {
    &&& 1 <= s.len() <= 65535
    &&& forall|i: int| 0 <= i < s.len() ==> is_stored_char(#[trigger] s[i])
}

/// A header line as a map hands it out: a name that it can hold and a
/// well-formed value.
pub open spec fn line_ok(l: (Seq<char>, Seq<u8>)) -> bool {
    is_stored_name(l.0) && is_header_value(l.1)
}

/// Whether all header lines are as a map hands them out.
pub open spec fn lines_ok(list: Seq<(Seq<char>, Seq<u8>)>) -> bool {
    forall|i: int| 0 <= i < list.len() ==> line_ok(#[trigger] list[i])
}

/// What a map holds under the stored name `k`, in order.
pub open spec fn values_at(m: Map<Seq<char>, Seq<Seq<u8>>>, k: Seq<char>) -> Seq<Seq<u8>> {
    if m.contains_key(k) {
        m[k]
    } else {
        Seq::<Seq<u8>>::empty()
    }
}

/// The map with one more header line; unchanged when no map can hold it.
pub open spec fn with_line(m: Map<Seq<char>, Seq<Seq<u8>>>, l: (Seq<char>, Seq<u8>)) -> Map<
    Seq<char>,
    Seq<Seq<u8>>,
> {
    if line_ok(l) {
        m.insert(l.0, values_at(m, l.0).push(l.1))
    } else {
        m
    }
}

/// The headers that a list of header lines stands for.
pub open spec fn replayed(list: Seq<(Seq<char>, Seq<u8>)>) -> Map<Seq<char>, Seq<Seq<u8>>>
    decreases list.len(),
{
    if list.len() == 0 {
        no_headers()
    } else {
        with_line(replayed(list.drop_last()), list.last())
    }
}

/// Number of distinct names among the header lines that a map can hold.
pub open spec fn distinct_names(list: Seq<(Seq<char>, Seq<u8>)>) -> nat
    decreases list.len(),
{
    if list.len() == 0 {
        0
    } else {
        let before = list.drop_last();
        distinct_names(before) + (if line_ok(list.last()) && !replayed(before).contains_key(
            list.last().0,
        ) {
            1nat
        } else {
            0
        })
    }
}

/// Values of one header as a single list.
pub open spec fn joined(lines: Seq<Seq<u8>>) -> Seq<u8>
    decreases lines.len(),
{
    if lines.len() == 0 {
        seq![]
    } else if lines.len() == 1 {
        lines[0]
    } else {
        joined(lines.drop_last()) + encode_utf8(", "@) + lines.last()
    }
}

/// A header value as text in which every byte that is not ASCII stands as a
/// replacement character.
pub open spec fn readable(v: Seq<u8>) -> Seq<char> {
    v.map_values(|b: u8| readable_char(b))
}

pub open spec fn readable_char(b: u8) -> char {
    if b < 128 {
        b as char
    } else {
        '\u{fffd}'
    }
}

// ---------------------------------------------------------------------------
// The outside map
// ---------------------------------------------------------------------------

/// `hyper::HeaderMap::new` returns a map without headers.
#[verifier::external_body]
pub(crate) fn new_headers() -> (h: hyper::HeaderMap)
    ensures
        header_map(h) == no_headers(),
        header_names(h) == 0,
{
    hyper::HeaderMap::new()
}

/// `hyper::HeaderMap::get` looks a well-formed `name` up without regard to
/// case and hands out its first value.
#[verifier::external_body]
fn map_get(h: &hyper::HeaderMap, name: &str) -> (r: Option<Vec<u8>>)
    requires
        is_header_name(name@),
    ensures
        match r {
            Some(v) => header_value(header_map(*h), name@) == Some(v@),
            None => header_value(header_map(*h), name@) is None,
        },
{
    h.get(name).map(|v| v.as_bytes().to_vec())
}

/// `hyper::HeaderMap::get_all` hands out every value of a well-formed `name`
/// in the order in which they were added.
#[verifier::external_body]
fn map_get_all(h: &hyper::HeaderMap, name: &str) -> (r: Vec<Vec<u8>>)
    requires
        is_header_name(name@),
    ensures
        value_views(r@) == header_values(header_map(*h), name@),
{
    h.get_all(name).iter().map(|v| v.as_bytes().to_vec()).collect()
}

/// `hyper::HeaderMap::insert` replaces every value of `name` by `value`. The
/// name and the value pass through `HeaderName::from_bytes` and
/// `HeaderValue::from_bytes`, which accept exactly the well-formed ones.
#[verifier::external_body]
pub(crate) fn set_value(h: &mut hyper::HeaderMap, name: &str, value: &[u8]) -> (done: bool)
    requires
        header_names(*old(h)) < MAX_HEADER_NAMES,
    ensures
        done == (is_header_name(name@) && is_header_value(value@)),
        header_map(*final(h)) == with_header(header_map(*old(h)), name@, value@),
        header_names(*final(h)) <= header_names(*old(h)) + 1,
{
    match (
        hyper::header::HeaderName::from_bytes(name.as_bytes()),
        hyper::header::HeaderValue::from_bytes(value),
    ) {
        (Ok(n), Ok(v)) => {
            h.insert(n, v);
            true
        },
        _ => false,
    }
}

/// `hyper::HeaderMap::append` adds `value` behind the values that `name`
/// already has. The name and the value are accepted as in [`set_value`].
#[verifier::external_body]
pub(crate) fn add_value(h: &mut hyper::HeaderMap, name: &str, value: &[u8]) -> (done: bool)
    requires
        header_names(*old(h)) < MAX_HEADER_NAMES,
    ensures
        done == (is_header_name(name@) && is_header_value(value@)),
        header_map(*final(h)) == with_added(header_map(*old(h)), name@, value@),
        header_names(*final(h)) <= header_names(*old(h)) + 1,
{
    match (
        hyper::header::HeaderName::from_bytes(name.as_bytes()),
        hyper::header::HeaderValue::from_bytes(value),
    ) {
        (Ok(n), Ok(v)) => {
            h.append(n, v);
            true
        },
        _ => false,
    }
}

/// `hyper::HeaderMap::try_append` adds a header line as [`header_lines`] hands it
/// out. The name and the value pass through `HeaderName::from_lowercase` and
/// `HeaderValue::from_bytes`, which accept exactly what a map can hold; other
/// lines change nothing. A name that is not in the map yet is one more name in
/// it. A map whose index cannot grow any more takes no line and stays as it is;
/// that never happens to one of few names. From which number of names on it does
/// happen depends on how they collide, and is left open.
#[verifier::external_body]
pub(crate) fn add_line(h: &mut hyper::HeaderMap, name: &str, value: &[u8]) -> (r: Result<bool, ()>)
    ensures
        match r {
            Ok(done) => {
                &&& done == line_ok((name@, value@))
                &&& header_map(*final(h)) == with_line(header_map(*old(h)), (name@, value@))
                &&& header_names(*final(h)) == header_names(*old(h)) + (if done
                    && !header_map(*old(h)).contains_key(name@) {
                    1nat
                } else {
                    0
                })
            },
            Err(()) => {
                &&& header_names(*old(h)) >= MAX_HEADER_NAMES
                &&& header_map(*final(h)) == header_map(*old(h))
                &&& header_names(*final(h)) == header_names(*old(h))
            },
        },
{
    match (
        hyper::header::HeaderName::from_lowercase(name.as_bytes()),
        hyper::header::HeaderValue::from_bytes(value),
    ) {
        (Ok(n), Ok(v)) => h.try_append(n, v).map(|_| true).map_err(|_| ()),
        _ => Ok(false),
    }
}

/// `hyper::HeaderMap::remove` drops every value of a well-formed `name`.
#[verifier::external_body]
fn map_remove(h: &mut hyper::HeaderMap, name: &str)
    requires
        is_header_name(name@),
    ensures
        header_map(*final(h)) == without_header(header_map(*old(h)), name@),
        header_names(*final(h)) <= header_names(*old(h)),
{
    h.remove(name);
}

/// `hyper::HeaderMap::iter` hands out every name, in lower case, with each of
/// its values. The values of one name come in the order in which they were
/// added; the order of the names is left open. Every line is one that a map can
/// hold, and there are as many distinct names as the map has.
#[verifier::external_body]
pub(crate) fn header_lines(h: &hyper::HeaderMap) -> (r: Vec<(String, Vec<u8>)>)
    ensures
        lists(line_views(r@), header_map(*h)),
        lines_ok(line_views(r@)),
        distinct_names(line_views(r@)) == header_names(*h),
{
    h.iter().map(|(n, v)| (n.as_str().to_string(), v.as_bytes().to_vec())).collect()
}

/// `hyper::HeaderMap::keys_len` counts the distinct names.
#[verifier::external_body]
fn map_names(h: &hyper::HeaderMap) -> (n: usize)
    ensures
        n == header_names(*h),
{
    h.keys_len()
}

// ---------------------------------------------------------------------------
// Operations on top of it
// ---------------------------------------------------------------------------

pub open spec fn value_views(v: Seq<Vec<u8>>) -> Seq<Seq<u8>> {
    v.map_values(|b: Vec<u8>| b@)
}

/// Whether `s` is a well-formed header name.
pub fn valid_name(s: &str) -> (r: bool)
    ensures
        r == is_header_name(s@),
{
    let v = chars(s);
    if v.len() == 0 || v.len() > 65535 {
        return false;
    }
    let mut i: usize = 0;
    while i < v.len()
        invariant
            v@ == s@,
            i <= v@.len(),
            forall|k: int| 0 <= k < i ==> is_name_char(#[trigger] v@[k]),
        decreases v@.len() - i,
    {
        let c = v[i];
        let ok = ('0' <= c && c <= '9') || ('a' <= c && c <= 'z') || ('A' <= c && c <= 'Z') || c
            == '!' || c == '#' || c == '$' || c == '%' || c == '&' || c == '\'' || c == '*' || c
            == '+' || c == '-' || c == '.' || c == '^' || c == '_' || c == '`' || c == '|' || c
            == '~';
        if !ok {
            assert(!is_name_char(s@[i as int]));
            return false;
        }
        i = i + 1;
    }
    true
}

/// Whether `v` is a well-formed header value.
pub fn valid_value(v: &[u8]) -> (r: bool)
    ensures
        r == is_header_value(v@),
{
    let mut i: usize = 0;
    while i < v.len()
        invariant
            i <= v@.len(),
            forall|k: int| 0 <= k < i ==> is_value_byte(#[trigger] v@[k]),
        decreases v@.len() - i,
    {
        let b = v[i];
        if !((b >= 32 && b != 127) || b == 9) {
            assert(!is_value_byte(v@[i as int]));
            return false;
        }
        i = i + 1;
    }
    true
}

/// The first value of `name`.
pub fn get_value(h: &hyper::HeaderMap, name: &str) -> (r: Option<Vec<u8>>)
    ensures
        match r {
            Some(v) => header_value(header_map(*h), name@) == Some(v@),
            None => header_value(header_map(*h), name@) is None,
        },
{
    if valid_name(name) {
        map_get(h, name)
    } else {
        None
    }
}

/// Every value of `name`.
pub fn get_values(h: &hyper::HeaderMap, name: &str) -> (r: Vec<Vec<u8>>)
    ensures
        value_views(r@) == header_values(header_map(*h), name@),
{
    if valid_name(name) {
        map_get_all(h, name)
    } else {
        let r: Vec<Vec<u8>> = Vec::new();
        assert(value_views(r@) =~= Seq::<Seq<u8>>::empty());
        r
    }
}

/// Drops every value of `name`.
pub fn drop_header(h: &mut hyper::HeaderMap, name: &str)
    ensures
        header_map(*final(h)) == without_header(header_map(*old(h)), name@),
        header_names(*final(h)) <= header_names(*old(h)),
{
    if valid_name(name) {
        map_remove(h, name);
    }
}

/// Whether `n` more names fit.
pub fn room_for(h: &hyper::HeaderMap, n: usize) -> (r: bool)
    ensures
        r == has_room(*h, n as nat),
{
    let k = map_names(h);
    n <= MAX_HEADER_NAMES && k <= MAX_HEADER_NAMES - n
}

/// A header value as text, when it is plain ASCII.
pub fn value_text(v: &Vec<u8>) -> (r: Option<String>)
    ensures
        match r {
            Some(s) => ascii_text(v@) == Some(s@),
            None => ascii_text(v@) is None,
        },
{
    let mut s: String = String::new();
    let mut i: usize = 0;
    while i < v.len()
        invariant
            i <= v@.len(),
            s@ == v@.take(i as int).map_values(|b: u8| b as char),
            forall|k: int| 0 <= k < i ==> is_text_byte(#[trigger] v@[k]),
        decreases v@.len() - i,
    {
        let b = v[i];
        if !((32 <= b && b < 127) || b == 9) {
            assert(!is_text_byte(v@[i as int]));
            return None;
        }
        s.push(b as char);
        i = i + 1;
        assert(s@ =~= v@.take(i as int).map_values(|b: u8| b as char));
    }
    assert(v@.take(i as int) == v@);
    Some(s)
}

/// A header value as text in which every byte that is not ASCII stands as a
/// replacement character.
pub fn readable_text(v: &Vec<u8>) -> (s: String)
    ensures
        s@ == readable(v@),
{
    let mut s: String = String::new();
    let mut i: usize = 0;
    assert(s@ =~= readable(v@.take(0)));
    while i < v.len()
        invariant
            i <= v@.len(),
            s@ == readable(v@.take(i as int)),
        decreases v@.len() - i,
    {
        let b = v[i];
        if b < 128 {
            s.push(b as char);
        } else {
            s.push('\u{fffd}');
        }
        i = i + 1;
        assert(s@ =~= readable(v@.take(i as int)));
    }
    assert(v@.take(i as int) == v@);
    s
}

/// Values of one header as a single list.
pub fn join_values(lines: &Vec<Vec<u8>>) -> (r: Vec<u8>)
    ensures
        r@ == joined(value_views(lines@)),
{
    let ghost all = value_views(lines@);
    let mut r: Vec<u8> = Vec::new();
    let mut i: usize = 0;
    assert(r@ =~= joined(all.take(0)));
    while i < lines.len()
        invariant
            i <= lines@.len(),
            all == value_views(lines@),
            r@ == joined(all.take(i as int)),
        decreases lines@.len() - i,
    {
        if i > 0 {
            r.extend_from_slice(", ".as_bytes());
        }
        r.extend_from_slice(lines[i].as_slice());
        i = i + 1;
        proof {
            let now = all.take(i as int);
            assert(now.drop_last() == all.take(i - 1));
            assert(now.last() == lines@[i - 1]@);
            assert(r@ =~= joined(now));
        }
    }
    assert(all.take(i as int) == all);
    r
}

/// The first value of `name`, when it is plain ASCII.
pub fn get_text(h: &hyper::HeaderMap, name: &str) -> (r: Option<String>)
    ensures
        match r {
            Some(s) => header_text(header_map(*h), name@) == Some(s@),
            None => header_text(header_map(*h), name@) is None,
        },
{
    match get_value(h, name) {
        Some(v) => value_text(&v),
        None => None,
    }
}

/// Sets `name` to the text `value`.
pub fn set_text(h: &mut hyper::HeaderMap, name: &str, value: &str) -> (done: bool)
    requires
        header_names(*old(h)) < MAX_HEADER_NAMES,
    ensures
        done == (is_header_name(name@) && is_header_value(encode_utf8(value@))),
        header_map(*final(h)) == with_header(header_map(*old(h)), name@, encode_utf8(value@)),
        header_names(*final(h)) <= header_names(*old(h)) + 1,
{
    set_value(h, name, value.as_bytes())
}

// ---------------------------------------------------------------------------
// Plain text
// ---------------------------------------------------------------------------

/// Text of visible ASCII characters, spaces and tabs.
pub open spec fn is_plain(s: Seq<char>) -> bool {
    forall|i: int| 0 <= i < s.len() ==> is_plain_char(#[trigger] s[i])
}

pub open spec fn is_plain_char(c: char) -> bool {
    ' ' <= c <= '~' || c == '\t'
}

pub proof fn lemma_plain_concat(a: Seq<char>, b: Seq<char>)
    requires
        is_plain(a),
        is_plain(b),
    ensures
        is_plain(a + b),
{
    assert forall|i: int| 0 <= i < (a + b).len() implies is_plain_char(#[trigger] (a + b)[i]) by {
        if i < a.len() {
            assert((a + b)[i] == a[i]);
        } else {
            assert((a + b)[i] == b[i - a.len()]);
        }
    }
}

/// A number is plain text.
pub proof fn lemma_decimal_is_plain(n: nat)
    ensures
        is_plain(decimal(n)),
{
    lemma_decimal_digits(n);
    assert forall|i: int| 0 <= i < decimal(n).len() implies is_plain_char(
        #[trigger] decimal(n)[i],
    ) by {
        assert(is_digit(decimal(n)[i]));
    }
}

/// Plain text is a header value, and is read back from one.
pub proof fn lemma_plain_value(s: Seq<char>)
    requires
        is_plain(s),
    ensures
        is_header_value(encode_utf8(s)),
        ascii_text(encode_utf8(s)) == Some(s),
{
    let v = encode_utf8(s);
    assert(is_ascii_chars(s));
    is_ascii_chars_encode_utf8(s);
    assert forall|i: int| 0 <= i < v.len() implies is_text_byte(#[trigger] v[i]) && v[i] as char
        == s[i] by {
        assert(is_plain_char(s[i]));
    }
    assert(v.map_values(|b: u8| b as char) =~= s);
}

/// Whether every value under a name is one that a header can carry.
pub open spec fn carries_values(m: Map<Seq<char>, Seq<Seq<u8>>>, name: Seq<char>) -> bool {
    forall|i: int|
        0 <= i < header_values(m, name).len() ==> is_header_value(
            #[trigger] header_values(m, name)[i],
        )
}

/// Values one behind the other are a value.
pub proof fn lemma_value_concat(a: Seq<u8>, b: Seq<u8>)
    requires
        is_header_value(a),
        is_header_value(b),
    ensures
        is_header_value(a + b),
{
    assert forall|i: int| 0 <= i < (a + b).len() implies is_value_byte(#[trigger] (a + b)[i]) by {
        if i < a.len() {
            assert((a + b)[i] == a[i]);
        } else {
            assert((a + b)[i] == b[i - a.len()]);
        }
    }
}

/// Values of one header as a single list are a value.
pub proof fn lemma_joined_is_value(lines: Seq<Seq<u8>>)
    requires
        forall|i: int| 0 <= i < lines.len() ==> is_header_value(#[trigger] lines[i]),
    ensures
        is_header_value(joined(lines)),
    decreases lines.len(),
{
    reveal_strlit(", ");
    lemma_plain_value(", "@);
    if lines.len() == 1 {
        assert(is_header_value(lines[0]));
    } else if lines.len() > 1 {
        let before = lines.drop_last();
        assert forall|i: int| 0 <= i < before.len() implies is_header_value(
            #[trigger] before[i],
        ) by {
            assert(before[i] == lines[i]);
        }
        lemma_joined_is_value(before);
        assert(is_header_value(lines[lines.len() - 1]));
        lemma_value_concat(joined(before), encode_utf8(", "@));
        lemma_value_concat(joined(before) + encode_utf8(", "@), lines.last());
    }
}

} // verus!
