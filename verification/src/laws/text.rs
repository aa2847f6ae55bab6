//! Laws on texts: cutting, trimming, folding and numbers.

use crate::text::{
    after_prefix, all_digits, digits_value, hexadecimal, is_space, last_position,
    lemma_position_is, lower, number, pair_at, position, replaced, rsplit_once_at, split_at,
    split_once_at, trim_end, trim_start, trimmed, without_leading, without_trailing,
};
use vstd::prelude::*;

verus! {

/// Whether `s[a..b]` is a piece of `s` between two separators: it holds none, and
/// on either side stands a separator or the end of the text.
pub open spec fn is_piece(s: Seq<char>, c: char, a: int, b: int) -> bool {
    &&& 0 <= a <= b <= s.len()
    &&& a == 0 || s[a - 1] == c
    &&& b == s.len() || s[b] == c
    &&& forall|k: int| a <= k < b ==> s[k] != c
}

/// Every piece between two separators is in the list that a split returns.
pub proof fn law_split_has_every_piece(s: Seq<char>, c: char, a: int, b: int)
    requires
        is_piece(s, c, a, b),
    ensures
        split_at(s, c).contains(s.subrange(a, b)),
    decreases s.len(),
{
    lemma_position_is(s, c);
    let i = position(s, c);
    let all = split_at(s, c);
    if i >= s.len() {
        assert(a == 0 && b == s.len());
        assert(s.subrange(a, b) =~= s);
        assert(all[0] == s);
    } else if a == 0 {
        assert(b == i);
        assert(s.subrange(a, b) =~= s.take(i));
        assert(all[0] == s.take(i));
    } else {
        let rest = s.skip(i + 1);
        assert(a >= i + 1);
        law_split_has_every_piece(rest, c, a - i - 1, b - i - 1);
        let p = rest.subrange(a - i - 1, b - i - 1);
        assert(p =~= s.subrange(a, b));
        let k = choose|k: int| 0 <= k < split_at(rest, c).len() && split_at(rest, c)[k] == p;
        assert(all[k + 1] == p);
    }
}

/// Where a piece of a split lies in the text.
pub proof fn lemma_piece_bounds(s: Seq<char>, c: char, k: int) -> (r: (int, int))
    requires
        0 <= k < split_at(s, c).len(),
    ensures
        is_piece(s, c, r.0, r.1),
        split_at(s, c)[k] == s.subrange(r.0, r.1),
    decreases s.len(),
{
    lemma_position_is(s, c);
    let i = position(s, c);
    if i >= s.len() {
        assert(s.subrange(0, s.len() as int) =~= s);
        (0, s.len() as int)
    } else if k == 0 {
        assert(s.subrange(0, i) =~= s.take(i));
        (0, i)
    } else {
        let rest = s.skip(i + 1);
        let (a, b) = lemma_piece_bounds(rest, c, k - 1);
        assert(rest.subrange(a, b) =~= s.subrange(a + i + 1, b + i + 1));
        assert forall|j: int| a + i + 1 <= j < b + i + 1 implies s[j] != c by {
            assert(rest[j - i - 1] == s[j]);
        }
        (a + i + 1, b + i + 1)
    }
}

/// Texts with `c` between them.
pub open spec fn glued(parts: Seq<Seq<char>>, c: char) -> Seq<char>
    decreases parts.len(),
{
    if parts.len() == 0 {
        seq![]
    } else if parts.len() == 1 {
        parts[0]
    } else {
        parts[0] + seq![c] + glued(parts.skip(1), c)
    }
}

/// A split loses nothing: its pieces hold no separator, and glued together they
/// are the text again.
pub proof fn law_split_glues_back(s: Seq<char>, c: char)
    ensures
        split_at(s, c).len() >= 1,
        glued(split_at(s, c), c) == s,
        forall|k: int| 0 <= k < split_at(s, c).len() ==> !(#[trigger] split_at(s, c)[k]).contains(c),
    decreases s.len(),
{
    lemma_position_is(s, c);
    let i = position(s, c);
    if i < s.len() {
        let rest = s.skip(i + 1);
        law_split_glues_back(rest, c);
        assert(split_at(s, c).skip(1) =~= split_at(rest, c));
        assert(s =~= s.take(i) + seq![c] + rest);
        assert forall|k: int| 0 <= k < split_at(s, c).len() implies !(#[trigger] split_at(
            s,
            c,
        )[k]).contains(c) by {
            if k > 0 {
                assert(split_at(s, c)[k] == split_at(rest, c)[k - 1]);
            }
        }
    }
}

/// A cut at the first separator: what is in front holds none, and both halves with
/// the separator between them are the text. There is no cut only without one.
pub proof fn law_split_once(s: Seq<char>, c: char)
    ensures
        match split_once_at(s, c) {
            Some((a, b)) => s == a + seq![c] + b && !a.contains(c),
            None => !s.contains(c),
        },
{
    lemma_position_is(s, c);
    let i = position(s, c);
    if i < s.len() {
        assert(s =~= s.take(i) + seq![c] + s.skip(i + 1));
    }
}

/// A text cut at its first separator gives the halves that it was put together of.
pub proof fn law_split_once_finds_halves(a: Seq<char>, c: char, b: Seq<char>)
    requires
        !a.contains(c),
    ensures
        split_once_at(a + seq![c] + b, c) == Some((a, b)),
{
    let s = a + seq![c] + b;
    assert(s[a.len() as int] == c);
    assert forall|k: int| 0 <= k < a.len() implies s[k] != c by {
        assert(s[k] == a[k]);
    }
    crate::text::lemma_position(s, c, a.len() as int);
    assert(s.take(a.len() as int) =~= a);
    assert(s.skip((a.len() + 1) as int) =~= b);
}

/// The last place of a character: nothing behind it equals it.
pub proof fn lemma_last_position(s: Seq<char>, c: char)
    ensures
        -1 <= last_position(s, c) < s.len(),
        last_position(s, c) >= 0 ==> s[last_position(s, c)] == c,
        forall|k: int| last_position(s, c) < k < s.len() ==> s[k] != c,
    decreases s.len(),
{
    if s.len() > 0 && s.last() != c {
        lemma_last_position(s.drop_last(), c);
        let i = last_position(s, c);
        assert forall|k: int| i < k < s.len() implies s[k] != c by {
            if k < s.len() - 1 {
                assert(s.drop_last()[k] == s[k]);
            }
        }
    }
}

/// A cut at the last separator: what is behind holds none.
pub proof fn law_rsplit_once(s: Seq<char>, c: char)
    ensures
        match rsplit_once_at(s, c) {
            Some((a, b)) => s == a + seq![c] + b && !b.contains(c),
            None => !s.contains(c),
        },
{
    lemma_last_position(s, c);
    let i = last_position(s, c);
    if i >= 0 {
        assert(s =~= s.take(i) + seq![c] + s.skip(i + 1));
    }
}

/// What is behind a prefix: the prefix in front of it gives the text back. There is
/// nothing only when the text starts otherwise.
pub proof fn law_prefix_goes_off(s: Seq<char>, p: Seq<char>)
    ensures
        match after_prefix(s, p) {
            Some(t) => s == p + t,
            None => forall|t: Seq<char>| s != #[trigger] (p + t),
        },
{
    match after_prefix(s, p) {
        Some(t) => {
            assert(s =~= p + t);
        },
        None => {
            assert forall|t: Seq<char>| s != #[trigger] (p + t) by {
                assert((p + t).take(p.len() as int) =~= p);
                assert(p.is_prefix_of(p + t));
            }
        },
    }
}

/// Whether a character is white space in the sense of Unicode.
pub open spec fn is_blank(c: char) -> bool {
    let n = c as u32;
    9 <= n <= 13 || n == 32 || n == 0x85 || n == 0xa0 || n == 0x1680 || 0x2000 <= n <= 0x200a || n
        == 0x2028 || n == 0x2029 || n == 0x202f || n == 0x205f || n == 0x3000
}

/// White space is what Unicode calls so.
pub proof fn law_space_is_blank(c: char)
    ensures
        is_space(c) == is_blank(c),
{
}

proof fn lemma_trim_start(s: Seq<char>) -> (a: int)
    ensures
        0 <= a <= s.len(),
        trim_start(s) == s.skip(a),
        forall|k: int| 0 <= k < a ==> is_blank(#[trigger] s[k]),
        a < s.len() ==> !is_blank(s[a]),
    decreases s.len(),
{
    if s.len() > 0 {
        law_space_is_blank(s[0]);
    }
    if s.len() > 0 && is_blank(s[0]) {
        let a = lemma_trim_start(s.skip(1));
        assert(s.skip(1).skip(a) =~= s.skip(a + 1));
        assert forall|k: int| 0 <= k < a + 1 implies is_blank(#[trigger] s[k]) by {
            if k > 0 {
                assert(s[k] == s.skip(1)[k - 1]);
            }
        }
        a + 1
    } else {
        assert(s.skip(0) =~= s);
        0
    }
}

proof fn lemma_trim_end(s: Seq<char>) -> (b: int)
    ensures
        0 <= b <= s.len(),
        trim_end(s) == s.take(b),
        forall|k: int| b <= k < s.len() ==> is_blank(#[trigger] s[k]),
        b > 0 ==> !is_blank(s[b - 1]),
    decreases s.len(),
{
    if s.len() > 0 {
        law_space_is_blank(s.last());
    }
    if s.len() > 0 && is_blank(s.last()) {
        let b = lemma_trim_end(s.drop_last());
        assert(s.drop_last().take(b) =~= s.take(b));
        assert forall|k: int| b <= k < s.len() implies is_blank(#[trigger] s[k]) by {
            if k < s.len() - 1 {
                assert(s[k] == s.drop_last()[k]);
            }
        }
        b
    } else {
        assert(s.take(s.len() as int) =~= s);
        s.len() as int
    }
}

/// Whether `t` is `s` without the white space around it: only blanks stand on
/// either side of it, and it neither starts nor ends with one.
pub open spec fn is_trimmed(s: Seq<char>, t: Seq<char>) -> bool {
    &&& exists|a: int, b: int|
        0 <= a <= b <= s.len() && t == #[trigger] s.subrange(a, b) && (forall|k: int|
            0 <= k < s.len() && !(a <= k < b) ==> is_blank(#[trigger] s[k]))
    &&& t.len() > 0 ==> !is_blank(t[0]) && !is_blank(t.last())
}

/// Trimming takes the blanks off both ends and nothing else.
pub proof fn law_trim(s: Seq<char>)
    ensures
        is_trimmed(s, trimmed(s)),
{
    let a = lemma_trim_start(s);
    let m = s.skip(a);
    let b = lemma_trim_end(m);
    assert(m.take(b) =~= s.subrange(a, a + b));
    assert forall|k: int| 0 <= k < s.len() && !(a <= k < a + b) implies is_blank(
        #[trigger] s[k],
    ) by {
        if k >= a + b {
            assert(m[k - a] == s[k]);
        }
    }
}

/// A text between blanks is what trimming leaves.
pub proof fn law_trim_finds_the_core(l: Seq<char>, t: Seq<char>, r: Seq<char>)
    requires
        forall|k: int| 0 <= k < l.len() ==> is_blank(#[trigger] l[k]),
        forall|k: int| 0 <= k < r.len() ==> is_blank(#[trigger] r[k]),
        t.len() > 0 ==> !is_blank(t[0]) && !is_blank(t.last()),
    ensures
        trimmed(l + t + r) == t,
{
    let s = l + t + r;
    let a = lemma_trim_start(s);
    let m = s.skip(a);
    let b = lemma_trim_end(m);
    assert forall|k: int| 0 <= k < l.len() implies is_blank(#[trigger] s[k]) by {
        assert(s[k] == l[k]);
    }
    assert forall|k: int| l.len() + t.len() <= k < s.len() implies is_blank(#[trigger] s[k]) by {
        assert(s[k] == r[k - l.len() - t.len()]);
    }
    if t.len() > 0 {
        assert(s[l.len() as int] == t[0]);
        assert(s[l.len() + t.len() - 1] == t.last());
        assert(a == l.len());
        assert(m[t.len() - 1] == t.last());
        assert(b >= t.len());
        if b > t.len() {
            assert(m[b - 1] == s[a + b - 1]);
        }
        assert(m.take(b) =~= t);
    } else {
        if a < s.len() {
            assert(a < l.len() || a >= l.len());
        }
        assert(a == s.len());
        assert(m.take(b) =~= t);
    }
}

/// Folding to lower case keeps the length, moves the capitals of ASCII by 32 and
/// leaves every other character.
pub proof fn law_lower(s: Seq<char>, i: int)
    requires
        0 <= i < s.len(),
    ensures
        lower(s).len() == s.len(),
        'A' <= s[i] <= 'Z' ==> lower(s)[i] as u32 == s[i] as u32 + 32,
        !('A' <= s[i] <= 'Z') ==> lower(s)[i] == s[i],
{
}

/// Replacing a character changes only its places.
pub proof fn law_replace(s: Seq<char>, a: char, b: char, i: int)
    requires
        0 <= i < s.len(),
    ensures
        replaced(s, a, b).len() == s.len(),
        replaced(s, a, b)[i] == (if s[i] == a {
            b
        } else {
            s[i]
        }),
{
}

/// What stripping a character off the end leaves does not end with it, and only
/// that character was behind it.
pub proof fn law_without_trailing(s: Seq<char>, c: char)
    ensures
        ({
            let t = without_trailing(s, c);
            &&& t.is_prefix_of(s)
            &&& t.len() > 0 ==> t.last() != c
            &&& forall|k: int| t.len() <= k < s.len() ==> s[k] == c
        }),
    decreases s.len(),
{
    if s.len() > 0 && s.last() == c {
        law_without_trailing(s.drop_last(), c);
        let t = without_trailing(s, c);
        assert forall|k: int| t.len() <= k < s.len() implies s[k] == c by {
            if k < s.len() - 1 {
                assert(s.drop_last()[k] == s[k]);
            }
        }
    }
}

/// The same at the front.
pub proof fn law_without_leading(s: Seq<char>, c: char)
    ensures
        ({
            let t = without_leading(s, c);
            &&& t.len() <= s.len()
            &&& t == s.skip(s.len() - t.len())
            &&& t.len() > 0 ==> t[0] != c
            &&& forall|k: int| 0 <= k < s.len() - t.len() ==> s[k] == c
        }),
    decreases s.len(),
{
    if s.len() > 0 && s[0] == c {
        law_without_leading(s.skip(1), c);
        let t = without_leading(s, c);
        assert(s.skip(1).skip(s.len() - 1 - t.len()) =~= s.skip(s.len() - t.len()));
        assert forall|k: int| 0 <= k < s.len() - t.len() implies s[k] == c by {
            if k > 0 {
                assert(s.skip(1)[k - 1] == s[k]);
            }
        }
    } else {
        assert(s.skip(0) =~= s);
    }
}

/// Whether a text spells a number: digits, with one `+` in front of them or none.
pub open spec fn spells(s: Seq<char>) -> bool {
    let from = if s.len() > 0 && s[0] == '+' {
        1int
    } else {
        0
    };
    from < s.len() && forall|k: int| from <= k < s.len() ==> '0' <= #[trigger] s[k] <= '9'
}

/// A number is read from digits alone, and one digit more is ten times the number
/// and that digit. A number above the limit is none.
pub proof fn law_number_by_digits(s: Seq<char>, c: char, max: nat)
    ensures
        number(s, max) is Some ==> spells(s) && number(s, max)->0 <= max,
        '0' <= c <= '9' && c as int - 48 <= max ==> number(seq![c], max) == Some(
            (c as int - 48) as nat,
        ),
        '0' <= c <= '9' && number(s, max) is Some ==> number(s.push(c), max) == ({
            let n = number(s, max)->0 * 10 + (c as int - 48);
            if n <= max {
                Some(n as nat)
            } else {
                None::<nat>
            }
        }),
        spells(s) && number(s, max) is None ==> exists|m: nat|
            m > max && #[trigger] number(s, m) == Some(m),
        !(s.len() > 0 && s[0] == '+') ==> number(seq!['+'] + s, max) == number(s, max),
{
    let one = seq![c];
    assert(one.drop_last() =~= Seq::<char>::empty());
    assert(digits_value(one.drop_last()) == 0);
    let plus = s.len() > 0 && s[0] == '+';
    let body = if plus {
        s.skip(1)
    } else {
        s
    };
    if plus {
        assert forall|k: int| 1 <= k < s.len() && all_digits(body) implies '0' <= #[trigger] s[k]
            <= '9' by {
            assert(body[k - 1] == s[k]);
        }
    }
    let more = s.push(c);
    let body2 = if more.len() > 0 && more[0] == '+' {
        more.skip(1)
    } else {
        more
    };
    if number(s, max) is Some && '0' <= c <= '9' {
        assert(body2 =~= body.push(c));
        assert(body2.drop_last() =~= body);
        assert(body2.last() == c);
        assert forall|k: int| 0 <= k < body2.len() implies '0' <= #[trigger] body2[k] <= '9' by {
            if k < body.len() {
                assert(body2[k] == body[k]);
            }
        }
    }
    if spells(s) && number(s, max) is None {
        assert forall|k: int| 0 <= k < body.len() implies '0' <= #[trigger] body[k] <= '9' by {
            if plus {
                assert(body[k] == s[k + 1]);
            }
        }
        let m = digits_value(body);
        assert(number(s, m) == Some(m));
    }
    assert((seq!['+'] + s).skip(1) =~= s);
}

/// In hexadecimal, one digit more is sixteen times the number and that digit.
pub proof fn law_hexadecimal_by_digits(n: nat, d: nat)
    requires
        d < 16,
    ensures
        hexadecimal(d) == seq![
            if d < 10 {
                ((48 + d) as u8) as char
            } else {
                ((97 + d - 10) as u8) as char
            },
        ],
        n > 0 ==> hexadecimal(n * 16 + d) == hexadecimal(n) + hexadecimal(d),
{
    if n > 0 {
        assert((n * 16 + d) / 16 == n);
        assert((n * 16 + d) % 16 == d);
        assert(hexadecimal(n * 16 + d) =~= hexadecimal(n) + hexadecimal(d));
    }
}

/// The first place of two characters in a row.
pub proof fn law_first_pair(s: Seq<char>, a: char, b: char)
    ensures
        0 <= pair_at(s, a, b) <= s.len(),
        pair_at(s, a, b) < s.len() ==> pair_at(s, a, b) + 1 < s.len() && s[pair_at(s, a, b)] == a
            && s[pair_at(s, a, b) + 1] == b,
        forall|k: int|
            0 <= k < pair_at(s, a, b) && k + 1 < s.len() ==> !(#[trigger] s[k] == a && s[k + 1]
                == b),
    decreases s.len(),
{
    if s.len() >= 2 && !(s[0] == a && s[1] == b) {
        law_first_pair(s.skip(1), a, b);
        assert forall|k: int| 0 <= k < pair_at(s, a, b) && k + 1 < s.len() implies !(#[trigger] s[k]
            == a && s[k + 1] == b) by {
            if k > 0 {
                assert(s.skip(1)[k - 1] == s[k]);
                assert(s.skip(1)[k] == s[k + 1]);
            }
        }
    }
}

} // verus!
