//! Laws on headers.

use crate::headers::{
    ascii_text, header_text, header_value, header_values, is_header_name, is_header_value, line_ok,
    readable, values_at, with_added, with_header, with_line, without_header,
};
use crate::text::lower;
use vstd::prelude::*;
use vstd::string::*;

verus! {

/// Names of headers are found in whatever case they are asked for; the first of several
/// lines is the value.
pub proof fn law_headers_are_found(m: Map<Seq<char>, Seq<Seq<u8>>>, name: Seq<char>)
    requires
        is_header_name(name),
    ensures
        m.contains_key(lower(name)) ==> header_values(m, name) == m[lower(name)] && header_value(
            m,
            name,
        ) == Some(m[lower(name)][0]),
        !m.contains_key(lower(name)) ==> header_values(m, name).len() == 0 && header_value(m, name)
            is None && header_text(m, name) is None,
{
}

/// A value is text when it is made of printable ASCII and tabs, and then reads byte by
/// byte.
pub proof fn law_header_text(v: Seq<u8>)
    ensures
        match ascii_text(v) {
            Some(t) => t.len() == v.len() && forall|i: int|
                0 <= i < v.len() ==> (32 <= #[trigger] v[i] < 127 || v[i] == 9) && t[i] == v[i] as char,
            None => exists|i: int| 0 <= i < v.len() && !(32 <= #[trigger] v[i] < 127 || v[i] == 9),
        },
        readable(v).len() == v.len(),
        forall|i: int|
            0 <= i < v.len() ==> if v[i] < 128 {
                #[trigger] readable(v)[i] == v[i] as char
            } else {
                readable(v)[i] == '\u{fffd}'
            },
{
}

/// Setting a header replaces its lines, adding one keeps them, and taking one away leaves
/// none; no other header changes, whatever is done.
pub proof fn law_changed_headers(
    m: Map<Seq<char>, Seq<Seq<u8>>>,
    name: Seq<char>,
    value: Seq<u8>,
    k: Seq<char>,
)
    requires
        is_header_name(name),
        is_header_value(value),
    ensures
        values_at(with_header(m, name, value), lower(name)) == seq![value],
        values_at(with_added(m, name, value), lower(name)) == values_at(m, lower(name)).push(value),
        values_at(without_header(m, name), lower(name)).len() == 0,
        k != lower(name) ==> values_at(with_header(m, name, value), k) == values_at(m, k)
            && values_at(with_added(m, name, value), k) == values_at(m, k) && values_at(
            without_header(m, name),
            k,
        ) == values_at(m, k),
        line_ok((k, value)) ==> values_at(with_line(m, (k, value)), k) == values_at(m, k).push(
            value,
        ),
{
}

/// A name is one to 65535 letters, digits and marks; a value is made of no control
/// characters but the tab.
pub proof fn law_header_syntax(n: Seq<char>, v: Seq<u8>, i: int)
    ensures
        is_header_name(n) ==> 1 <= n.len() <= 65535,
        is_header_name(n) && 0 <= i < n.len() ==> n[i] as u32 > 32 && (n[i] as u32) < 127 && n[i]
            != ':' && n[i] != ',' && n[i] != ';' && n[i] != '(' && n[i] != ')' && n[i] != '<' && n[i]
            != '>' && n[i] != '@' && n[i] != '"' && n[i] != '/' && n[i] != '[' && n[i] != ']' && n[i]
            != '?' && n[i] != '=' && n[i] != '{' && n[i] != '}' && n[i] != '\\',
        1 <= n.len() <= 65535 && (forall|k: int|
            0 <= k < n.len() ==> 'a' <= #[trigger] n[k] <= 'z' || 'A' <= n[k] <= 'Z' || '0' <= n[k]
                <= '9' || n[k] == '-' || n[k] == '_') ==> is_header_name(n),
        is_header_value(v) <==> forall|k: int|
            0 <= k < v.len() ==> #[trigger] v[k] == 9 || (v[k] >= 32 && v[k] != 127),
{
    if is_header_name(n) && 0 <= i < n.len() {
        assert(crate::headers::is_name_char(n[i]));
    }
    if is_header_value(v) {
        assert forall|k: int| 0 <= k < v.len() implies #[trigger] v[k] == 9 || (v[k] >= 32 && v[k]
            != 127) by {
            assert(crate::headers::is_value_byte(v[k]));
        }
    }
}

} // verus!
