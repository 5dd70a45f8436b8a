//! Stored settings: a key-value table read through typed accessors that
//! fall back to fixed defaults.

use vstd::prelude::*;

verus! {

/// The value stored under `key`: that of the last row with that key.
pub open spec fn setting(rows: Seq<(Seq<char>, Seq<char>)>, key: Seq<char>) -> Option<Seq<char>>
    decreases rows.len(),
{
    if rows.len() == 0 {
        None
    } else if rows.last().0 == key {
        Some(rows.last().1)
    } else {
        setting(rows.drop_last(), key)
    }
}

/// Writing the row at the last index of its key replaces what the key reads.
pub proof fn lemma_setting_update(rows: Seq<(Seq<char>, Seq<char>)>, i: int, value: Seq<char>)
    requires
        0 <= i < rows.len(),
        forall|j: int| i < j < rows.len() ==> (#[trigger] rows[j]).0 != rows[i].0,
    ensures
        forall|k: Seq<char>|
            #[trigger] setting(rows.update(i, (rows[i].0, value)), k) == if k == rows[i].0 {
                Some(value)
            } else {
                setting(rows, k)
            },
    decreases rows.len(),
{
    let up = rows.update(i, (rows[i].0, value));
    assert forall|k: Seq<char>| #[trigger] setting(up, k) == if k == rows[i].0 {
        Some(value)
    } else {
        setting(rows, k)
    } by {
        if i == rows.len() - 1 {
            assert(up.drop_last() =~= rows.drop_last());
            assert(up.last() == (rows[i].0, value));
        } else {
            assert forall|j: int| i < j < rows.drop_last().len() implies (#[trigger] rows.drop_last()[j]).0 != rows.drop_last()[i].0 by {
                assert(rows.drop_last()[j] == rows[j]);
            }
            lemma_setting_update(rows.drop_last(), i, value);
            assert(up.drop_last() =~= rows.drop_last().update(i, (rows[i].0, value)));
            assert(rows[rows.len() - 1] == rows.last());
            assert(up.last() == rows.last());
            assert(rows.drop_last()[i] == rows[i]);
            assert(setting(rows.drop_last().update(i, (rows[i].0, value)), k) == if k == rows[i].0 {
                Some(value)
            } else {
                setting(rows.drop_last(), k)
            });
        }
    }
}

/// Adding a row makes its key read its value.
pub proof fn lemma_setting_push(rows: Seq<(Seq<char>, Seq<char>)>, key: Seq<char>, value: Seq<char>)
    ensures
        forall|k: Seq<char>|
            #[trigger] setting(rows.push((key, value)), k) == if k == key {
                Some(value)
            } else {
                setting(rows, k)
            },
{
    assert(rows.push((key, value)).drop_last() =~= rows);
}

pub open spec fn is_digit(c: char) -> bool {
    '0' <= c <= '9'
}

/// The number that a string of decimal digits writes.
pub open spec fn digits_value(s: Seq<char>) -> int
    decreases s.len(),
{
    if s.len() == 0 {
        0
    } else {
        digits_value(s.drop_last()) * 10 + (s.last() as u32 - '0' as u32)
    }
}

/// The digits after an optional sign.
pub open spec fn unsigned_part(s: Seq<char>) -> Seq<char> {
    if s.len() > 0 && (s[0] == '-' || s[0] == '+') {
        s.drop_first()
    } else {
        s
    }
}

/// A 32-bit integer in decimal, with an optional `+` or `-` sign: at least
/// one digit, nothing else, and a value in range.
pub open spec fn parse_i32_spec(s: Seq<char>) -> Option<i32> {
    let body = unsigned_part(s);
    let magnitude = digits_value(body);
    let v = if s.len() > 0 && s[0] == '-' { -magnitude } else { magnitude };
    if body.len() == 0 || exists|i: int| 0 <= i < body.len() && !is_digit(#[trigger] body[i]) {
        None
    } else if i32::MIN <= v <= i32::MAX {
        Some(v as i32)
    } else {
        None
    }
}

proof fn lemma_digits_grow(s: Seq<char>, c: char)
    requires
        is_digit(c),
        digits_value(s) >= 0,
    ensures
        digits_value(s.push(c)) == digits_value(s) * 10 + (c as u32 - '0' as u32),
        digits_value(s.push(c)) >= digits_value(s),
{
    assert(s.push(c).drop_last() =~= s);
}

proof fn lemma_digits_nonneg(s: Seq<char>)
    requires
        forall|i: int| 0 <= i < s.len() ==> is_digit(#[trigger] s[i]),
    ensures
        digits_value(s) >= 0,
    decreases s.len(),
{
    if s.len() > 0 {
        assert forall|i: int| 0 <= i < s.drop_last().len() implies is_digit(#[trigger] s.drop_last()[i]) by {
            assert(s.drop_last()[i] == s[i]);
        }
        lemma_digits_nonneg(s.drop_last());
        assert(is_digit(s[s.len() - 1]));
    }
}

/// Reads a 32-bit integer written in decimal.
pub fn parse_i32(text: &str) -> (r: Option<i32>)
    ensures
        r == parse_i32_spec(text@),
{
    let s = text;
    let n = s.unicode_len();
    let mut start: usize = 0;
    let mut negative = false;
    if n > 0 {
        let c0 = s.get_char(0);
        if c0 == '-' {
            negative = true;
            start = 1;
        } else if c0 == '+' {
            start = 1;
        }
    }
    let ghost body = unsigned_part(s@);
    assert(body =~= s@.subrange(start as int, n as int));
    if start == n {
        return None;
    }
    let limit: i64 = 2147483648;
    let mut acc: i64 = 0;
    let mut too_big = false;
    let mut i: usize = start;
    assert(body.take(0) =~= Seq::<char>::empty());
    while i < n
        invariant
            start <= i <= n,
            n == s@.len(),
            body == s@.subrange(start as int, n as int),
            body == unsigned_part(text@),
            negative == (s@.len() > 0 && s@[0] == '-'),
            forall|k: int| 0 <= k < i - start ==> is_digit(#[trigger] body[k]),
            digits_value(body.take(i - start)) >= 0,
            !too_big ==> acc == digits_value(body.take(i - start)) && 0 <= acc <= limit,
            too_big ==> digits_value(body.take(i - start)) > limit,
            limit == 2147483648,
        decreases n - i,
    {
        let c = s.get_char(i);
        if !('0' <= c && c <= '9') {
            proof {
                assert(body[i - start] == c);
                assert(!is_digit(body[i - start]));
            }
            return None;
        }
        proof {
            assert(body.take(i - start + 1) =~= body.take(i - start).push(c));
            lemma_digits_grow(body.take(i - start), c);
        }
        if !too_big {
            let d = (c as u32 - '0' as u32) as i64;
            let next = acc * 10 + d;
            if next > limit {
                too_big = true;
            } else {
                acc = next;
            }
        }
        i = i + 1;
    }
    proof {
        assert(body.take(n - start) =~= body);
    }
    if too_big {
        return None;
    }
    if negative {
        Some((0 - acc) as i32)
    } else if acc <= 2147483647 {
        Some(acc as i32)
    } else {
        None
    }
}

/// The theme read back: the stored one, else "light".
pub open spec fn theme_of(rows: Seq<(Seq<char>, Seq<char>)>) -> Seq<char> {
    match setting(rows, "theme"@) {
        Some(v) => v,
        None => "light"@,
    }
}

/// The icon size read back: the stored one where it reads as an integer,
/// else 64.
pub open spec fn icon_size_of(rows: Seq<(Seq<char>, Seq<char>)>) -> i32 {
    match setting(rows, "icon_size"@) {
        Some(v) => match parse_i32_spec(v) {
            Some(n) => n,
            None => 64,
        },
        None => 64,
    }
}

/// The tint color read back: the stored one unless it is missing or empty.
pub open spec fn tint_of(rows: Seq<(Seq<char>, Seq<char>)>) -> Option<Seq<char>> {
    match setting(rows, "tint_color"@) {
        Some(v) => if v.len() == 0 {
            None
        } else {
            Some(v)
        },
        None => None,
    }
}

/// With no setting stored, every accessor gives its default.
pub proof fn lemma_fresh_settings(rows: Seq<(Seq<char>, Seq<char>)>)
    requires
        rows.len() == 0,
    ensures
        theme_of(rows) == "light"@,
        icon_size_of(rows) == 64,
        tint_of(rows) is None,
{
}

} // verus!
