//! CSV to ingest lines: the columns of a file are mapped to a node type's key, validity, edges and
//! literal predicates, and compiled to one JSON line per type, predicate, node and fact.
//!
//! A node's id is a hash of its type and key, so that importing a file again gives the same ids and
//! two files that share keys line up.
pub mod laws;

use crate::calendar::{day_number, floor_div, is_civil, padded};
use crate::ordmap::{sorted_items, OrdMap, OrdSet};
use crate::text::{
    debug_form, debug_text, decimal, esc_json, from_chars, int64, is_digit, is_number, json_text,
    lemma_decimal, number, parse_i64, parse_u32, push_i64, push_str, push_u64, signed_decimal, split,
    split_on, to_chars, trim, trimmed, uint32,
};
use vstd::prelude::*;
use vstd::utf8::encode_utf8;

verus! {

/// The role of a column.
#[derive(Clone, Debug, PartialEq)]
pub enum Role {
    /// The row's key, which with the type makes the node's id. Exactly one column has it.
    Id,
    /// The start of validity of every fact of the row: a date or an integer.
    ValidFrom,
    /// The end of validity of every fact of the row; a blank cell leaves it open.
    ValidTo,
    /// An edge to the node of `target_type` that the cell is the key of.
    Edge { target_type: String, predicate: String },
    /// A literal, whose predicate is the column's name.
    Literal,
    /// Not imported.
    Skip,
}

/// The model of a [`Role`].
pub enum RoleModel {
    Id,
    ValidFrom,
    ValidTo,
    Edge { target_type: Seq<char>, predicate: Seq<char> },
    Literal,
    Skip,
}

impl DeepView for Role {
    type V = RoleModel;

    open spec fn deep_view(&self) -> RoleModel {
        match self {
            Role::Id => RoleModel::Id,
            Role::ValidFrom => RoleModel::ValidFrom,
            Role::ValidTo => RoleModel::ValidTo,
            Role::Edge { target_type, predicate } => RoleModel::Edge {
                target_type: target_type@,
                predicate: predicate@,
            },
            Role::Literal => RoleModel::Literal,
            Role::Skip => RoleModel::Skip,
        }
    }
}

/// How a file is imported: the type of its nodes, and the role of each column.
pub struct Mapping {
    pub node_type: String,
    /// Name and role per column, in the order of the header. A name doubles as a predicate.
    pub roles: Vec<(String, Role)>,
    /// The provenance of every fact.
    pub source: Option<String>,
}

/// The 64-bit FNV-1a hash.
pub open spec fn fnv1a64(s: Seq<u8>) -> u64
    decreases s.len(),
{
    if s.len() == 0 {
        0xcbf2_9ce4_8422_2325u64
    } else {
        (fnv1a64(s.drop_last()) ^ (s.last() as u64)).wrapping_mul(0x100_0000_01b3u64)
    }
}

/// The id of the node of a type with a key: the low 48 bits of the hash of the type's bytes, a zero
/// byte and the key's bytes.
pub open spec fn node_key(node_type: Seq<char>, raw: Seq<char>) -> u64 {
    fnv1a64(encode_utf8(node_type) + seq![0u8] + encode_utf8(raw)) & 0xffff_ffff_ffff
}

/// Ids fit in 48 bits.
pub proof fn law_node_ids_fit(node_type: Seq<char>, raw: Seq<char>)
    ensures
        node_key(node_type, raw) < 0x1_0000_0000_0000,
{
    let h = fnv1a64(encode_utf8(node_type) + seq![0u8] + encode_utf8(raw));
    assert(h & 0xffff_ffff_ffff < 0x1_0000_0000_0000) by (bit_vector);
}

fn hash_on(h: u64, bytes: &[u8], Ghost(done): Ghost<Seq<u8>>) -> (r: u64)
    requires
        h == fnv1a64(done),
    ensures
        r == fnv1a64(done + bytes@),
{
    let mut h: u64 = h;
    let mut i: usize = 0;
    assert(done + bytes@.take(0) =~= done);
    while i < bytes.len()
        invariant
            i <= bytes.len(),
            h == fnv1a64(done + bytes@.take(i as int)),
        decreases bytes.len() - i,
    {
        proof {
            let t = done + bytes@.take(i + 1);
            assert(t.drop_last() =~= done + bytes@.take(i as int));
            assert(t.last() == bytes@[i as int]);
        }
        h = (h ^ (bytes[i] as u64)).wrapping_mul(0x100_0000_01b3);
        i += 1;
    }
    assert(bytes@.take(i as int) =~= bytes@);
    h
}

/// The id of the node of a type with a key.
pub fn node_id(node_type: &str, raw: &str) -> (r: u64)
    ensures
        r == node_key(node_type@, raw@),
{
    let a = node_type.as_bytes();
    let b = raw.as_bytes();
    let zero: [u8; 1] = [0u8];
    let h: u64 = hash_on(0xcbf2_9ce4_8422_2325, a, Ghost(Seq::empty()));
    assert(Seq::<u8>::empty() + a@ =~= a@);
    let h: u64 = hash_on(h, &zero, Ghost(a@));
    assert(a@ + zero@ =~= a@ + seq![0u8]);
    let h: u64 = hash_on(h, b, Ghost(a@ + seq![0u8]));
    h & 0xffff_ffff_ffff
}

/// What a literal column holds.
#[derive(Clone, Copy, Debug, PartialEq, Eq, Structural)]
pub enum ColType {
    Int,
    Float,
    Date,
    Text,
}

/// The position of the first `c`, or the length where there is none.
pub open spec fn find(s: Seq<char>, c: char) -> int
    decreases s.len(),
{
    if s.len() == 0 || s[0] == c {
        0
    } else {
        1 + find(s.skip(1), c)
    }
}

/// The day number of a date: year, month and day, separated by slashes where there is one, else by
/// hyphens.
pub open spec fn date_of(s: Seq<char>) -> Option<int> {
    let parts = split(
        s,
        if s.contains('/') {
            '/'
        } else {
            '-'
        },
    );
    if parts.len() == 3 && int64(parts[0]) is Some && uint32(parts[1]) is Some && uint32(
        parts[2],
    ) is Some && 1 <= uint32(parts[1])->0 <= 12 && 1 <= uint32(parts[2])->0 <= 31 {
        Some(
            day_number(
                int64(parts[0])->0 as int,
                uint32(parts[1])->0 as int,
                uint32(parts[2])->0 as int,
            ),
        )
    } else {
        None
    }
}

/// The seconds of a time of day: hours and minutes, and seconds where there are more parts.
pub open spec fn time_of(s: Seq<char>) -> Option<int> {
    let parts = split(s, ':');
    if parts.len() < 2 || int64(parts[0]) is None || int64(parts[1]) is None || (parts.len() > 2
        && int64(parts[2]) is None) {
        None
    } else {
        let h = int64(parts[0])->0;
        let m = int64(parts[1])->0;
        let s = if parts.len() > 2 {
            int64(parts[2])->0
        } else {
            0
        };
        if 0 <= h < 24 && 0 <= m < 60 && 0 <= s < 60 {
            Some(h * 3600 + m * 60 + s)
        } else {
            None
        }
    }
}

/// Whether a number is one of 64 bits.
pub open spec fn fits64(n: int) -> bool {
    i64::MIN <= n <= i64::MAX
}

/// The instant of a date, with a time after the first space or without, in UTC.
pub open spec fn instant(s: Seq<char>) -> Option<i64> {
    let t = trimmed(s);
    let i = find(t, ' ');
    let day = date_of(t.take(i));
    let time = if i < t.len() {
        time_of(t.skip(i + 1))
    } else {
        Some(0)
    };
    match (day, time) {
        (Some(d), Some(x)) => if fits64(d * 86400) && fits64(d * 86400 + x) {
            Some((d * 86400 + x) as i64)
        } else {
            None
        },
        _ => None,
    }
}

fn find_in(v: &Vec<char>, c: char) -> (r: usize)
    ensures
        r == find(v@, c),
        r <= v.len(),
{
    let mut i: usize = 0;
    assert(v@.skip(0) =~= v@);
    while i < v.len() && v[i] != c
        invariant
            i <= v.len(),
            find(v@, c) == i + find(v@.skip(i as int), c),
        decreases v.len() - i,
    {
        assert(v@.skip(i as int).skip(1) =~= v@.skip(i + 1));
        i += 1;
    }
    i
}

fn has_char(s: &str, c: char) -> (r: bool)
    ensures
        r == s@.contains(c),
{
    let v = to_chars(s);
    let mut i: usize = 0;
    while i < v.len()
        invariant
            i <= v.len(),
            v@ == s@,
            forall|j: int| 0 <= j < i ==> v@[j] != c,
        decreases v.len() - i,
    {
        if v[i] == c {
            assert(s@[i as int] == c);
            return true;
        }
        i += 1;
    }
    false
}

proof fn lemma_far_years(y: int, m: int, d: int)
    requires
        1 <= m <= 12,
        1 <= d <= 31,
    ensures
        y > 300_000_000_000 ==> day_number(y, m, d) > 106_751_991_167_300,
        y < -300_000_000_000 ==> day_number(y, m, d) < -106_751_991_167_300,
        -300_000_000_000 <= y <= 300_000_000_000 ==> -200_000_000_000_000 < day_number(y, m, d)
            < 200_000_000_000_000,
{
}

fn parse_day(s: &str) -> (r: Option<i64>)
    ensures
        match date_of(s@) {
            Some(n) => if fits64(n * 86400) {
                r == Some((n * 86400) as i64)
            } else {
                r is None
            },
            None => r is None,
        },
{
    let sep = if has_char(s, '/') {
        '/'
    } else {
        '-'
    };
    let parts = split_on(s, sep);
    if parts.len() != 3 {
        return None;
    }
    assert(parts.deep_view()[0] == parts@[0]@);
    assert(parts.deep_view()[1] == parts@[1]@);
    assert(parts.deep_view()[2] == parts@[2]@);
    let y: i64 = match parse_i64(parts[0].as_str()) {
        Some(n) => n,
        None => {
            return None;
        },
    };
    let m: u32 = match parse_u32(parts[1].as_str()) {
        Some(n) => n,
        None => {
            return None;
        },
    };
    let d: u32 = match parse_u32(parts[2].as_str()) {
        Some(n) => n,
        None => {
            return None;
        },
    };
    if m < 1 || m > 12 || d < 1 || d > 31 {
        return None;
    }
    proof {
        lemma_far_years(y as int, m as int, d as int);
    }
    if y > 300_000_000_000 || y < -300_000_000_000 {
        return None;
    }
    let yy: i64 = if m <= 2 {
        y - 1
    } else {
        y
    };
    let mp: i64 = if m <= 2 {
        m as i64 + 9
    } else {
        m as i64 - 3
    };
    let year_days: i64 = 365 * yy + floor_div(yy, 4) - floor_div(yy, 100) + floor_div(yy, 400);
    let days: i64 = year_days + (153 * mp + 2) / 5 + d as i64 - 1 - 719_468;
    assert(days == day_number(y as int, m as int, d as int));
    if days > 106_751_991_167_300 || days < -106_751_991_167_300 {
        return None;
    }
    Some(days * 86_400)
}

fn parse_time(s: &str) -> (r: Option<i64>)
    ensures
        r is Some == time_of(s@) is Some,
        r matches Some(n) ==> time_of(s@) == Some(n as int) && 0 <= n < 86400,
{
    let parts = split_on(s, ':');
    if parts.len() < 2 {
        return None;
    }
    assert(parts.deep_view()[0] == parts@[0]@);
    assert(parts.deep_view()[1] == parts@[1]@);
    let h: i64 = match parse_i64(parts[0].as_str()) {
        Some(n) => n,
        None => {
            return None;
        },
    };
    let m: i64 = match parse_i64(parts[1].as_str()) {
        Some(n) => n,
        None => {
            return None;
        },
    };
    let sec: i64 = if parts.len() > 2 {
        assert(parts.deep_view()[2] == parts@[2]@);
        match parse_i64(parts[2].as_str()) {
            Some(n) => n,
            None => {
                return None;
            },
        }
    } else {
        0
    };
    if 0 <= h && h < 24 && 0 <= m && m < 60 && 0 <= sec && sec < 60 {
        Some(h * 3600 + m * 60 + sec)
    } else {
        None
    }
}

/// Parse `yyyy-mm-dd` or `yyyy/mm/dd`, with an optional ` hh:mm[:ss]`, as seconds since 1970 in UTC.
/// A date too far off for 64 bits of seconds is none.
pub fn parse_date(s: &str) -> (r: Option<i64>)
    ensures
        r == instant(s@),
{
    let t = trim(s);
    let v = to_chars(t.as_str());
    let i: usize = find_in(&v, ' ');
    let date = from_chars(&v, 0, i);
    assert(v@.subrange(0, i as int) =~= v@.take(i as int));
    let time: i64 = if i < v.len() {
        let rest = from_chars(&v, i + 1, v.len());
        assert(v@.subrange(i + 1, v@.len() as int) =~= v@.skip(i + 1));
        match parse_time(rest.as_str()) {
            Some(n) => n,
            None => {
                return None;
            },
        }
    } else {
        0
    };
    match parse_day(date.as_str()) {
        Some(day) => day.checked_add(time),
        None => None,
    }
}

/// The text of a date: year, month and day, with a separator between them.
pub open spec fn date_text(y: int, m: int, d: int, sep: char) -> Seq<char> {
    padded(y, 4) + seq![sep] + padded(m, 2) + seq![sep] + padded(d, 2)
}

/// The text of a time of day: hours and minutes.
pub open spec fn minute_text(h: int, mi: int) -> Seq<char> {
    padded(h, 2) + seq![':'] + padded(mi, 2)
}

/// Zeros before digits do not count.
proof fn lemma_zeros(z: nat, s: Seq<char>)
    ensures
        number(Seq::new(z, |i: int| '0') + s) == number(s),
    decreases z + s.len(),
{
    let zs = Seq::new(z, |i: int| '0');
    let t = zs + s;
    if s.len() > 0 {
        lemma_zeros(z, s.drop_last());
        assert(t.drop_last() =~= zs + s.drop_last());
        assert(t.last() == s.last());
    } else if z > 0 {
        lemma_zeros((z - 1) as nat, s);
        assert(t.drop_last() =~= Seq::new((z - 1) as nat, |i: int| '0') + s);
        assert(t.last() == '0');
    } else {
        assert(t =~= s);
    }
}

/// A padded number is digits, of that value.
proof fn lemma_padded(n: int, width: nat)
    requires
        n >= 0,
    ensures
        is_number(padded(n, width)),
        number(padded(n, width)) == n,
        n <= i64::MAX ==> int64(padded(n, width)) == Some(n as i64),
        n <= u32::MAX ==> uint32(padded(n, width)) == Some(n as u32),
{
    let digits = decimal(n as nat);
    lemma_decimal(n as nat);
    let z = if digits.len() < width {
        (width - digits.len()) as nat
    } else {
        0
    };
    let zs = Seq::new(z, |i: int| '0');
    let p = padded(n, width);
    assert(p =~= zs + digits);
    lemma_zeros(z, digits);
    assert forall|i: int| 0 <= i < p.len() implies is_digit(#[trigger] p[i]) by {
        if i >= z {
            assert(p[i] == digits[i - z]);
        }
    }
    assert(is_digit(p[0]));
}

/// Text without the separator is one piece.
proof fn lemma_one_piece(s: Seq<char>, c: char)
    requires
        !s.contains(c),
    ensures
        split(s, c) == seq![s],
    decreases s.len(),
{
    if s.len() > 0 {
        let init = s.drop_last();
        assert(s[s.len() - 1] == s.last());
        assert forall|i: int| 0 <= i < init.len() implies init[i] != c by {
            assert(s[i] == init[i]);
        }
        lemma_one_piece(init, c);
        assert(seq![init].drop_last().push(init.push(s.last())) =~= seq![s]) by {
            assert(init.push(s.last()) =~= s);
        }
    } else {
        assert(s =~= Seq::<char>::empty());
    }
}

/// A separator and text without one add a piece.
proof fn lemma_next_piece(s: Seq<char>, c: char, t: Seq<char>)
    requires
        !t.contains(c),
    ensures
        split(s + seq![c] + t, c) == split(s, c).push(t),
    decreases t.len(),
{
    let all = s + seq![c] + t;
    if t.len() == 0 {
        assert(all.drop_last() =~= s);
        assert(all.last() == c);
        assert(t =~= Seq::<char>::empty());
    } else {
        let init = t.drop_last();
        assert(t[t.len() - 1] == t.last());
        assert forall|i: int| 0 <= i < init.len() implies init[i] != c by {
            assert(t[i] == init[i]);
        }
        lemma_next_piece(s, c, init);
        assert(all.drop_last() =~= s + seq![c] + init);
        assert(all.last() == t.last());
        let p = split(s, c);
        assert(p.push(init).drop_last() =~= p);
        assert(p.push(init).last() == init);
        assert(init.push(t.last()) =~= t);
    }
}

/// The first occurrence comes right after text without one.
proof fn lemma_find(a: Seq<char>, c: char, b: Seq<char>)
    requires
        !a.contains(c),
    ensures
        find(a, c) == a.len(),
        find(a + seq![c] + b, c) == a.len(),
    decreases a.len(),
{
    let all = a + seq![c] + b;
    if a.len() == 0 {
        assert(all[0] == c);
    } else {
        let rest = a.skip(1);
        assert(a[0] != c) by {
            assert(a.contains(a[0]));
        }
        assert forall|i: int| 0 <= i < rest.len() implies rest[i] != c by {
            assert(a[i + 1] == rest[i]);
        }
        lemma_find(rest, c, b);
        assert(all[0] == a[0]);
        assert(all.skip(1) =~= rest + seq![c] + b);
    }
}

/// Whether a character is a digit or one of the marks of a date.
spec fn is_date_char(c: char, sep: char) -> bool {
    is_digit(c) || c == sep
}

proof fn lemma_date_text(y: int, m: int, d: int, sep: char)
    requires
        0 <= y <= 9999,
        0 <= m <= 99,
        0 <= d <= 99,
        sep == '-' || sep == '/',
    ensures
        date_of(date_text(y, m, d, sep)) == (if 1 <= m <= 12 && 1 <= d <= 31 {
            Some(day_number(y, m, d))
        } else {
            None
        }),
        date_text(y, m, d, sep).len() > 0,
        forall|i: int|
            0 <= i < date_text(y, m, d, sep).len() ==> is_date_char(
                #[trigger] date_text(y, m, d, sep)[i],
                sep,
            ),
        is_digit(date_text(y, m, d, sep)[0]),
        is_digit(date_text(y, m, d, sep).last()),
{
    let a = padded(y, 4);
    let b = padded(m, 2);
    let e = padded(d, 2);
    let t = date_text(y, m, d, sep);
    lemma_padded(y, 4);
    lemma_padded(m, 2);
    lemma_padded(d, 2);
    assert forall|i: int| 0 <= i < t.len() implies is_date_char(#[trigger] t[i], sep) by {
        if i < a.len() {
            assert(t[i] == a[i]);
        } else if i == a.len() {
            assert(t[i] == sep);
        } else if i < a.len() + 1 + b.len() {
            assert(t[i] == b[i - a.len() - 1]);
        } else if i == a.len() + 1 + b.len() {
            assert(t[i] == sep);
        } else {
            assert(t[i] == e[i - a.len() - 2 - b.len()]);
        }
    }
    assert(t[0] == a[0]);
    assert(t.last() == e[e.len() - 1]);
    assert(t[a.len() as int] == sep);
    assert(t.contains(sep));
    if sep == '-' {
        assert forall|i: int| 0 <= i < t.len() implies t[i] != '/' by {
            assert(is_date_char(t[i], sep));
        }
    }
    assert(!a.contains(sep) && !b.contains(sep) && !e.contains(sep));
    lemma_one_piece(a, sep);
    lemma_next_piece(a, sep, b);
    lemma_next_piece(a + seq![sep] + b, sep, e);
    let parts = split(t, sep);
    assert(parts =~= seq![a, b, e]);
    assert(parts.len() == 3 && parts[0] == a && parts[1] == b && parts[2] == e);
}

proof fn lemma_minute_text(h: int, mi: int)
    requires
        0 <= h <= 99,
        0 <= mi <= 99,
    ensures
        time_of(minute_text(h, mi)) == (if h < 24 && mi < 60 {
            Some(h * 3600 + mi * 60)
        } else {
            None
        }),
        minute_text(h, mi).len() > 0,
        is_digit(minute_text(h, mi).last()),
{
    let a = padded(h, 2);
    let b = padded(mi, 2);
    let t = minute_text(h, mi);
    lemma_padded(h, 2);
    lemma_padded(mi, 2);
    assert(!a.contains(':') && !b.contains(':'));
    lemma_one_piece(a, ':');
    lemma_next_piece(a, ':', b);
    assert(split(t, ':') =~= seq![a, b]);
    assert(t.last() == b[b.len() - 1]);
}

proof fn lemma_second_text(h: int, mi: int, se: int)
    requires
        0 <= h <= 99,
        0 <= mi <= 99,
        0 <= se <= 99,
    ensures
        time_of(minute_text(h, mi) + seq![':'] + padded(se, 2)) == (if h < 24 && mi < 60 && se < 60 {
            Some(h * 3600 + mi * 60 + se)
        } else {
            None
        }),
        is_digit((minute_text(h, mi) + seq![':'] + padded(se, 2)).last()),
{
    let a = padded(h, 2);
    let b = padded(mi, 2);
    let e = padded(se, 2);
    let t = minute_text(h, mi) + seq![':'] + e;
    lemma_padded(h, 2);
    lemma_padded(mi, 2);
    lemma_padded(se, 2);
    assert(!a.contains(':') && !b.contains(':') && !e.contains(':'));
    lemma_one_piece(a, ':');
    lemma_next_piece(a, ':', b);
    lemma_next_piece(minute_text(h, mi), ':', e);
    assert(split(t, ':') =~= seq![a, b, e]);
    assert(t.last() == e[e.len() - 1]);
}

/// Text that starts and ends with a digit has no white space around it.
proof fn lemma_not_blank(s: Seq<char>)
    requires
        s.len() > 0,
        is_digit(s[0]),
        is_digit(s.last()),
    ensures
        trimmed(s) == s,
{
}

/// A civil date that is written out is parsed back to its day, with hyphens or slashes, and with a
/// time to the minute or to the second, or without one.
pub proof fn law_date_round_trip(
    n: int,
    y: int,
    m: int,
    d: int,
    h: int,
    mi: int,
    se: int,
    sep: char,
)
    requires
        is_civil(n, y, m, d),
        0 <= y <= 9999,
        0 <= h < 24,
        0 <= mi < 60,
        0 <= se < 60,
        sep == '-' || sep == '/',
    ensures
        instant(date_text(y, m, d, sep)) == Some((n * 86400) as i64),
        instant(date_text(y, m, d, sep) + seq![' '] + minute_text(h, mi)) == Some(
            (n * 86400 + h * 3600 + mi * 60) as i64,
        ),
        instant(
            date_text(y, m, d, sep) + seq![' '] + (minute_text(h, mi) + seq![':'] + padded(se, 2)),
        ) == Some((n * 86400 + h * 3600 + mi * 60 + se) as i64),
        fits64(n * 86400 + 86400),
{
    let t = date_text(y, m, d, sep);
    lemma_date_text(y, m, d, sep);
    lemma_minute_text(h, mi);
    lemma_second_text(h, mi, se);
    assert(-800_000 < n < 3_000_000);
    assert(!t.contains(' ')) by {
        assert forall|i: int| 0 <= i < t.len() implies t[i] != ' ' by {
            assert(is_date_char(t[i], sep));
        }
    }
    lemma_not_blank(t);
    lemma_find(t, ' ', Seq::empty());
    assert(t.take(t.len() as int) =~= t);
    lemma_timed(t, minute_text(h, mi));
    lemma_timed(t, minute_text(h, mi) + seq![':'] + padded(se, 2));
}

/// A date with a month or a day that no calendar has is none, and so is an instant with an hour, a
/// minute or a second that no day has.
pub proof fn law_bad_dates(
    y: int,
    m: int,
    d: int,
    h: int,
    mi: int,
    se: int,
    sep: char,
)
    requires
        0 <= y <= 9999,
        0 <= m <= 99,
        0 <= d <= 99,
        0 <= h <= 99,
        0 <= mi <= 99,
        0 <= se <= 99,
        sep == '-' || sep == '/',
    ensures
        m < 1 || m > 12 || d < 1 || d > 31 ==> instant(date_text(y, m, d, sep)) is None && instant(
            date_text(y, m, d, sep) + seq![' '] + minute_text(h, mi),
        ) is None,
        h > 23 || mi > 59 ==> instant(
            date_text(y, m, d, sep) + seq![' '] + minute_text(h, mi),
        ) is None,
        h > 23 || mi > 59 || se > 59 ==> instant(
            date_text(y, m, d, sep) + seq![' '] + (minute_text(h, mi) + seq![':'] + padded(se, 2)),
        ) is None,
{
    let t = date_text(y, m, d, sep);
    lemma_date_text(y, m, d, sep);
    lemma_minute_text(h, mi);
    lemma_second_text(h, mi, se);
    assert(!t.contains(' ')) by {
        assert forall|i: int| 0 <= i < t.len() implies t[i] != ' ' by {
            assert(is_date_char(t[i], sep));
        }
    }
    lemma_not_blank(t);
    lemma_find(t, ' ', Seq::empty());
    assert(t.take(t.len() as int) =~= t);
    lemma_timed(t, minute_text(h, mi));
    lemma_timed(t, minute_text(h, mi) + seq![':'] + padded(se, 2));
}

/// A date, a space and a time are taken apart again.
proof fn lemma_timed(t: Seq<char>, c: Seq<char>)
    requires
        t.len() > 0,
        c.len() > 0,
        is_digit(t[0]),
        is_digit(c.last()),
        !t.contains(' '),
    ensures
        ({
            let s = t + seq![' '] + c;
            &&& trimmed(s) == s
            &&& find(s, ' ') == t.len()
            &&& s.take(t.len() as int) == t
            &&& s.skip(t.len() as int + 1) == c
            &&& s.len() == t.len() + 1 + c.len()
        }),
{
    let s = t + seq![' '] + c;
    assert(s[0] == t[0]);
    assert(s.last() == c.last());
    lemma_not_blank(s);
    lemma_find(t, ' ', c);
    assert(s.take(t.len() as int) =~= t);
    assert(s.skip(t.len() as int + 1) =~= c);
}

/// Whether every cell that is not blank meets a test.
pub open spec fn all_cells(cells: Seq<Seq<char>>, test: spec_fn(Seq<char>) -> bool) -> bool {
    forall|i: int|
        0 <= i < cells.len() && trimmed(#[trigger] cells[i]).len() > 0 ==> test(trimmed(cells[i]))
}

/// Whether some cell is not blank.
pub open spec fn some_cell(cells: Seq<Seq<char>>) -> bool {
    exists|i: int| 0 <= i < cells.len() && trimmed(#[trigger] cells[i]).len() > 0
}

/// What a column holds: integers, numbers or dates where every cell that is not blank is one, else
/// text. A blank column is text.
pub open spec fn detected(cells: Seq<Seq<char>>, floats: Map<Seq<char>, Seq<char>>) -> ColType {
    if !some_cell(cells) {
        ColType::Text
    } else if all_cells(cells, |c: Seq<char>| int64(c) is Some) {
        ColType::Int
    } else if all_cells(cells, |c: Seq<char>| floats.contains_key(c)) {
        ColType::Float
    } else if all_cells(cells, |c: Seq<char>| instant(c) is Some) {
        ColType::Date
    } else {
        ColType::Text
    }
}

/// Detect what a column holds. `floats` has the cells that are numbers, each with the number's own
/// text; blanks around a cell do not count.
pub fn detect_type(cells: &[&str], floats: &OrdMap<String, String>) -> (r: ColType)
    ensures
        r == detected(cells.deep_view(), floats@),
{
    let ghost cs = cells.deep_view();
    let mut some = false;
    let mut ints = true;
    let mut numbers = true;
    let mut dates = true;
    let mut i: usize = 0;
    let ghost p_int = |c: Seq<char>| int64(c) is Some;
    let ghost p_num = |c: Seq<char>| floats@.contains_key(c);
    let ghost p_date = |c: Seq<char>| instant(c) is Some;
    assert(cs.take(0) =~= Seq::<Seq<char>>::empty());
    while i < cells.len()
        invariant
            i <= cells.len(),
            cs == cells.deep_view(),
            p_int == (|c: Seq<char>| int64(c) is Some),
            p_num == (|c: Seq<char>| floats@.contains_key(c)),
            p_date == (|c: Seq<char>| instant(c) is Some),
            some == exists|j: int| 0 <= j < i && trimmed(#[trigger] cs[j]).len() > 0,
            ints == forall|j: int|
                0 <= j < i && trimmed(#[trigger] cs[j]).len() > 0 ==> p_int(trimmed(cs[j])),
            numbers == forall|j: int|
                0 <= j < i && trimmed(#[trigger] cs[j]).len() > 0 ==> p_num(trimmed(cs[j])),
            dates == forall|j: int|
                0 <= j < i && trimmed(#[trigger] cs[j]).len() > 0 ==> p_date(trimmed(cs[j])),
        decreases cells.len() - i,
    {
        let c = trim(cells[i]);
        assert(cs[i as int] == cells@[i as int]@);
        if !c.as_str().is_empty() {
            some = true;
            if parse_i64(c.as_str()).is_none() {
                ints = false;
            }
            if !floats.contains_key(&c) {
                numbers = false;
            }
            let d = parse_date(c.as_str());
            if d.is_none() {
                dates = false;
            }
        }
        i += 1;
    }
    if !some {
        ColType::Text
    } else if ints {
        ColType::Int
    } else if numbers {
        ColType::Float
    } else if dates {
        ColType::Date
    } else {
        ColType::Text
    }
}

/// Where a reading of CSV text stands: the rows read, the fields of the current row, the current
/// field, and whether that is quoted.
pub struct Csv {
    pub rows: Seq<Seq<Seq<char>>>,
    pub row: Seq<Seq<char>>,
    pub field: Seq<char>,
    pub quoted: bool,
}

/// Whether a row has a field that is not empty.
pub open spec fn row_filled(row: Seq<Seq<char>>) -> bool {
    exists|i: int| 0 <= i < row.len() && (#[trigger] row[i]).len() > 0
}

/// The rows with one more, unless all its fields are empty.
pub open spec fn with_row(rows: Seq<Seq<Seq<char>>>, row: Seq<Seq<char>>) -> Seq<Seq<Seq<char>>> {
    if row_filled(row) {
        rows.push(row)
    } else {
        rows
    }
}

/// One character of CSV text outside quotes, or inside them.
pub open spec fn csv_char(st: Csv, c: char) -> Csv {
    if st.quoted {
        if c == '"' {
            Csv { quoted: false, ..st }
        } else {
            Csv { field: st.field.push(c), ..st }
        }
    } else if c == '"' {
        Csv { quoted: true, ..st }
    } else if c == ',' {
        Csv { row: st.row.push(st.field), field: Seq::empty(), ..st }
    } else if c == '\r' {
        st
    } else if c == '\n' {
        Csv {
            rows: with_row(st.rows, st.row.push(st.field)),
            row: Seq::empty(),
            field: Seq::empty(),
            ..st
        }
    } else {
        Csv { field: st.field.push(c), ..st }
    }
}

/// A reading of CSV text from a state on. A doubled quote inside quotes is one quote.
pub open spec fn csv_run(st: Csv, s: Seq<char>) -> Csv
    decreases s.len(),
{
    if s.len() == 0 {
        st
    } else if st.quoted && s[0] == '"' && s.len() > 1 && s[1] == '"' {
        csv_run(Csv { field: st.field.push('"'), ..st }, s.skip(2))
    } else {
        csv_run(csv_char(st, s[0]), s.skip(1))
    }
}

/// The state before any character.
pub open spec fn csv_start() -> Csv {
    Csv { rows: Seq::empty(), row: Seq::empty(), field: Seq::empty(), quoted: false }
}

/// A text without a byte-order mark before it.
pub open spec fn without_bom(s: Seq<char>) -> Seq<char> {
    if s.len() > 0 && s[0] == '\u{feff}' {
        s.skip(1)
    } else {
        s
    }
}

/// The rows of CSV text, the header among them; none where a quoted field does not end.
pub open spec fn csv_rows(s: Seq<char>) -> Option<Seq<Seq<Seq<char>>>> {
    let st = csv_run(csv_start(), without_bom(s));
    if st.quoted {
        None
    } else if st.field.len() > 0 || st.row.len() > 0 {
        Some(with_row(st.rows, st.row.push(st.field)))
    } else {
        Some(st.rows)
    }
}

fn any_filled(row: &Vec<String>) -> (r: bool)
    ensures
        r == row_filled(row.deep_view()),
{
    let ghost m = row.deep_view();
    let mut i: usize = 0;
    while i < row.len()
        invariant
            i <= row.len(),
            m == row.deep_view(),
            forall|j: int| 0 <= j < i ==> (#[trigger] m[j]).len() == 0,
        decreases row.len() - i,
    {
        assert(m[i as int] == row@[i as int]@);
        if !row[i].as_str().is_empty() {
            return true;
        }
        i += 1;
    }
    false
}

fn end_row(rows: &mut Vec<Vec<String>>, row: Vec<String>)
    ensures
        final(rows).deep_view() == with_row(old(rows).deep_view(), row.deep_view()),
{
    if any_filled(&row) {
        let ghost rm = row.deep_view();
        rows.push(row);
        assert(rows.deep_view() =~= old(rows).deep_view().push(rm));
    }
}

fn read_rows(text: &str) -> (r: Option<Vec<Vec<String>>>)
    ensures
        r.deep_view() == csv_rows(text@),
{
    let v = to_chars(text);
    let mut i: usize = 0;
    if v.len() > 0 && v[0] == '\u{feff}' {
        i = 1;
    }
    let ghost s = without_bom(v@);
    let ghost goal = csv_run(csv_start(), s);
    let mut rows: Vec<Vec<String>> = Vec::new();
    let mut row: Vec<String> = Vec::new();
    let mut field = String::new();
    let mut quoted = false;
    proof {
        assert(v@.skip(0) =~= v@);
        assert(rows.deep_view() =~= csv_start().rows);
        assert(row.deep_view() =~= csv_start().row);
    }
    while i < v.len()
        invariant
            i <= v.len(),
            goal == csv_run(
                Csv { rows: rows.deep_view(), row: row.deep_view(), field: field@, quoted },
                v@.skip(i as int),
            ),
        decreases v.len() - i,
    {
        let c = v[i];
        let ghost rest = v@.skip(i as int);
        let ghost row0 = row.deep_view();
        let ghost field0 = field@;
        proof {
            assert(rest[0] == c);
            assert(rest.skip(1) =~= v@.skip(i + 1));
            if i + 1 < v.len() {
                assert(rest[1] == v@[i + 1]);
                assert(rest.skip(2) =~= v@.skip(i + 2));
            }
        }
        if quoted {
            if c == '"' && i + 1 < v.len() && v[i + 1] == '"' {
                field.push('"');
                i += 1;
            } else if c == '"' {
                quoted = false;
            } else {
                field.push(c);
            }
        } else if c == '"' {
            quoted = true;
        } else if c == ',' {
            row.push(field);
            field = String::new();
            assert(row.deep_view() =~= row0.push(field0));
            assert(field@ =~= Seq::<char>::empty());
        } else if c == '\r' {
        } else if c == '\n' {
            row.push(field);
            assert(row.deep_view() =~= row0.push(field0));
            end_row(&mut rows, row);
            row = Vec::new();
            field = String::new();
            assert(row.deep_view() =~= Seq::<Seq<char>>::empty());
            assert(field@ =~= Seq::<char>::empty());
        } else {
            field.push(c);
        }
        i += 1;
    }
    assert(v@.skip(i as int) =~= Seq::<char>::empty());
    if quoted {
        return None;
    }
    if !field.as_str().is_empty() || row.len() > 0 {
        let ghost row0 = row.deep_view();
        let ghost field0 = field@;
        row.push(field);
        assert(row.deep_view() =~= row0.push(field0));
        end_row(&mut rows, row);
    }
    Some(rows)
}

/// The names of a header, without the blanks around them.
pub open spec fn header_of(row: Seq<Seq<char>>) -> Seq<Seq<char>> {
    Seq::new(row.len(), |i: int| trimmed(row[i]))
}

fn trim_all(row: &Vec<String>) -> (r: Vec<String>)
    ensures
        r.deep_view() == header_of(row.deep_view()),
{
    let mut out: Vec<String> = Vec::new();
    let mut i: usize = 0;
    while i < row.len()
        invariant
            i <= row.len(),
            out.len() == i,
            forall|j: int| 0 <= j < i ==> (#[trigger] out@[j])@ == trimmed(row@[j]@),
        decreases row.len() - i,
    {
        out.push(trim(row[i].as_str()));
        i += 1;
    }
    assert(out.deep_view() =~= header_of(row.deep_view()));
    out
}

/// Parse CSV text to its header and its other rows: fields may be quoted, a doubled quote inside
/// quotes is one, and quoted fields may hold commas and line ends. Rows whose fields are all empty
/// are left out.
pub fn parse_csv(text: &str) -> (r: Result<(Vec<String>, Vec<Vec<String>>), String>)
    ensures
        match csv_rows(text@) {
            None => r matches Err(e) && e@ == "unterminated quoted field"@,
            Some(rows) => if rows.len() == 0 {
                r matches Err(e) && e@ == "empty file"@
            } else {
                r matches Ok(x) && x.0.deep_view() == header_of(rows[0]) && x.1.deep_view()
                    == rows.skip(1)
            },
        },
{
    let mut rows = match read_rows(text) {
        Some(rows) => rows,
        None => {
            return Err("unterminated quoted field".to_owned());
        },
    };
    if rows.len() == 0 {
        return Err("empty file".to_owned());
    }
    let ghost all = rows.deep_view();
    assert(all[0] == rows@[0].deep_view());
    let headers = trim_all(&rows[0]);
    let _ = rows.remove(0);
    assert(rows.deep_view() =~= all.skip(1));
    Ok((headers, rows))
}

/// A field in quotes, each quote in it doubled.
pub open spec fn quoted_field(s: Seq<char>) -> Seq<char> {
    seq!['"'] + doubled(s) + seq!['"']
}

/// A text with each quote doubled.
pub open spec fn doubled(s: Seq<char>) -> Seq<char>
    decreases s.len(),
{
    if s.len() == 0 {
        Seq::empty()
    } else if s[0] == '"' {
        seq!['"', '"'] + doubled(s.skip(1))
    } else {
        seq![s[0]] + doubled(s.skip(1))
    }
}

proof fn lemma_doubled_read(st: Csv, s: Seq<char>, tail: Seq<char>)
    requires
        st.quoted,
        tail.len() > 0 ==> tail[0] != '"',
    ensures
        csv_run(st, doubled(s) + seq!['"'] + tail) == csv_run(
            Csv { field: st.field + s, quoted: false, ..st },
            tail,
        ),
    decreases s.len(),
{
    let text = doubled(s) + seq!['"'] + tail;
    if s.len() == 0 {
        assert(text =~= seq!['"'] + tail);
        assert(text[0] == '"');
        assert(text.skip(1) =~= tail);
        assert(st.field + s =~= st.field);
        if tail.len() > 0 {
            assert(text[1] == tail[0]);
        }
        assert(csv_run(st, text) == csv_run(csv_char(st, '"'), tail));
    } else {
        let s1 = s.skip(1);
        let st1 = Csv { field: st.field.push(s[0]), ..st };
        lemma_doubled_read(st1, s1, tail);
        assert(st1.field + s1 =~= st.field + s);
        let rest = doubled(s1) + seq!['"'] + tail;
        if s[0] == '"' {
            assert(text =~= seq!['"', '"'] + rest);
            assert(text[0] == '"' && text[1] == '"');
            assert(text.skip(2) =~= rest);
        } else {
            assert(text =~= seq![s[0]] + rest);
            assert(text[0] == s[0]);
            assert(text.skip(1) =~= rest);
        }
    }
}

/// Quoting keeps a field: whatever a field holds, commas, quotes and line ends among it, reading it
/// in quotes gives it back.
pub proof fn law_quoted_field_is_read(st: Csv, s: Seq<char>, tail: Seq<char>)
    requires
        !st.quoted,
        st.field.len() == 0,
        tail.len() > 0 ==> tail[0] != '"',
    ensures
        csv_run(st, quoted_field(s) + tail) == csv_run(Csv { field: s, ..st }, tail),
{
    let text = quoted_field(s) + tail;
    let rest = doubled(s) + seq!['"'] + tail;
    assert(text =~= seq!['"'] + rest);
    assert(text[0] == '"');
    assert(text.skip(1) =~= rest);
    let st1 = Csv { quoted: true, ..st };
    lemma_doubled_read(st1, s, tail);
    assert(st.field + s =~= s);
}

/// The text of a row: its fields in quotes, with commas between them.
pub open spec fn row_text(row: Seq<Seq<char>>) -> Seq<char>
    decreases row.len(),
{
    if row.len() == 0 {
        Seq::empty()
    } else if row.len() == 1 {
        quoted_field(row[0])
    } else {
        quoted_field(row[0]) + seq![','] + row_text(row.skip(1))
    }
}

/// The text of a table: its rows, each with a line end.
pub open spec fn table_text(rows: Seq<Seq<Seq<char>>>) -> Seq<char>
    decreases rows.len(),
{
    if rows.len() == 0 {
        Seq::empty()
    } else {
        row_text(rows[0]) + seq!['\n'] + table_text(rows.skip(1))
    }
}

proof fn lemma_row_read(st: Csv, row: Seq<Seq<char>>, tail: Seq<char>)
    requires
        !st.quoted,
        st.field.len() == 0,
        row.len() > 0,
    ensures
        csv_run(st, row_text(row) + seq!['\n'] + tail) == csv_run(
            Csv {
                rows: with_row(st.rows, st.row + row),
                row: Seq::empty(),
                field: Seq::empty(),
                quoted: false,
            },
            tail,
        ),
    decreases row.len(),
{
    let text = row_text(row) + seq!['\n'] + tail;
    let st1 = Csv { field: row[0], ..st };
    if row.len() == 1 {
        let rest = seq!['\n'] + tail;
        assert(text =~= quoted_field(row[0]) + rest);
        law_quoted_field_is_read(st, row[0], rest);
        assert(rest.skip(1) =~= tail);
        assert(st.row.push(row[0]) =~= st.row + row);
    } else {
        let more = row_text(row.skip(1)) + seq!['\n'] + tail;
        let rest = seq![','] + more;
        assert(text =~= quoted_field(row[0]) + rest);
        law_quoted_field_is_read(st, row[0], rest);
        assert(rest.skip(1) =~= more);
        let st2 = csv_char(st1, ',');
        assert(csv_run(st1, rest) == csv_run(st2, more));
        lemma_row_read(st2, row.skip(1), tail);
        assert(st.row.push(row[0]) + row.skip(1) =~= st.row + row);
    }
}

proof fn lemma_table_read(st: Csv, rows: Seq<Seq<Seq<char>>>)
    requires
        !st.quoted,
        st.field.len() == 0,
        st.row.len() == 0,
        forall|i: int| 0 <= i < rows.len() ==> row_filled(#[trigger] rows[i]),
    ensures
        csv_run(st, table_text(rows)) == (Csv { rows: st.rows + rows, ..st }),
    decreases rows.len(),
{
    if rows.len() == 0 {
        assert(st.rows + rows =~= st.rows);
    } else {
        assert(row_filled(rows[0]));
        lemma_row_read(st, rows[0], table_text(rows.skip(1)));
        assert(st.row + rows[0] =~= rows[0]);
        let st1 = Csv {
            rows: st.rows.push(rows[0]),
            row: Seq::empty(),
            field: Seq::empty(),
            quoted: false,
        };
        assert forall|i: int| 0 <= i < rows.skip(1).len() implies row_filled(
            #[trigger] rows.skip(1)[i],
        ) by {
            assert(row_filled(rows[i + 1]));
        }
        lemma_table_read(st1, rows.skip(1));
        assert(st1.rows + rows.skip(1) =~= st.rows + rows);
        assert(st.row =~= Seq::<Seq<char>>::empty());
        assert(st.field =~= Seq::<char>::empty());
    }
}

/// A table written with its fields in quotes is read back, row for row and field for field, with a
/// byte-order mark before it or without. A row has a field that is not empty.
pub proof fn law_table_is_read(rows: Seq<Seq<Seq<char>>>)
    requires
        forall|i: int| 0 <= i < rows.len() ==> row_filled(#[trigger] rows[i]),
    ensures
        csv_rows(table_text(rows)) == Some(rows),
        csv_rows(seq!['\u{feff}'] + table_text(rows)) == Some(rows),
{
    let text = table_text(rows);
    lemma_table_read(csv_start(), rows);
    assert(csv_start().rows + rows =~= rows);
    if rows.len() > 0 {
        assert(row_filled(rows[0]));
        assert(text[0] == '"');
    }
    assert(without_bom(text) == text);
    let marked = seq!['\u{feff}'] + text;
    assert(marked[0] == '\u{feff}');
    assert(marked.skip(1) =~= text);
}

/// A column: its name and role.
pub type Column = (Seq<char>, RoleModel);

/// A row of cells.
pub type Cells = Seq<Seq<char>>;

/// The cell of a column as it stands; a short row has empty cells at its end.
pub open spec fn raw_cell(row: Cells, i: int) -> Seq<char> {
    if i < row.len() {
        row[i]
    } else {
        Seq::empty()
    }
}

/// The cell of a column without the blanks around it.
pub open spec fn cell(row: Cells, i: int) -> Seq<char> {
    trimmed(raw_cell(row, i))
}

/// The cells of a column.
pub open spec fn column(rows: Seq<Cells>, i: int) -> Seq<Seq<char>> {
    Seq::new(rows.len(), |r: int| raw_cell(rows[r], i))
}

/// The first column with a name.
pub open spec fn first_named(roles: Seq<Column>, name: Seq<char>) -> int
    decreases roles.len(),
{
    if roles.len() == 0 || roles[0].0 == name {
        0
    } else {
        1 + first_named(roles.skip(1), name)
    }
}

/// The positions of the key columns.
pub open spec fn id_columns(roles: Seq<Column>) -> Seq<int>
    decreases roles.len(),
{
    if roles.len() == 0 {
        Seq::empty()
    } else {
        let init = id_columns(roles.drop_last());
        if roles.last().1 is Id {
            init.push(roles.len() - 1)
        } else {
            init
        }
    }
}

/// The first column whose role starts validity.
pub open spec fn from_column(roles: Seq<Column>) -> int
    decreases roles.len(),
{
    if roles.len() == 0 || roles[0].1 is ValidFrom {
        0
    } else {
        1 + from_column(roles.skip(1))
    }
}

/// The first column whose role ends validity.
pub open spec fn to_column(roles: Seq<Column>) -> int
    decreases roles.len(),
{
    if roles.len() == 0 || roles[0].1 is ValidTo {
        0
    } else {
        1 + to_column(roles.skip(1))
    }
}

/// What a compilation goes by.
pub struct Plan {
    pub node_type: Seq<char>,
    pub roles: Seq<Column>,
    pub source: Option<Seq<char>>,
    pub rows: Seq<Cells>,
    pub floats: Map<Seq<char>, Seq<char>>,
}

/// What the column at `i` holds, where it is a literal; text else.
pub open spec fn column_type(p: Plan, i: int) -> ColType {
    if 0 <= i < p.roles.len() && p.roles[i].1 is Literal {
        detected(column(p.rows, i), p.floats)
    } else {
        ColType::Text
    }
}

/// The line of an entity type.
pub open spec fn type_line(t: Seq<char>) -> Seq<char> {
    "{\"type_def\":{\"name\":"@ + json_text(t) + "}}\n"@
}

/// The lines of some entity types.
pub open spec fn type_lines(ts: Seq<Seq<char>>) -> Seq<char>
    decreases ts.len(),
{
    if ts.len() == 0 {
        Seq::empty()
    } else {
        type_lines(ts.drop_last()) + type_line(ts.last())
    }
}

/// The entity types: that of the nodes, and those that edges lead to.
pub open spec fn plan_types(node_type: Seq<char>, roles: Seq<Column>) -> Set<Seq<char>>
    decreases roles.len(),
{
    if roles.len() == 0 {
        Set::empty().insert(node_type)
    } else {
        let init = plan_types(node_type, roles.drop_last());
        match roles.last().1 {
            RoleModel::Edge { target_type, .. } => init.insert(target_type),
            _ => init,
        }
    }
}

/// The name of a literal's range.
pub open spec fn range_name(t: ColType) -> Seq<char> {
    match t {
        ColType::Int => "int"@,
        ColType::Date => "int"@,
        ColType::Float => "float"@,
        ColType::Text => "text"@,
    }
}

/// The line that defines the predicate of a column, where it has one. Columns of one name share the
/// range of the first; a name or a title is a display name.
pub open spec fn pred_line(p: Plan, c: Column) -> Seq<char> {
    match c.1 {
        RoleModel::Literal => "{\"pred_def\":{\"name\":"@ + json_text(c.0)
            + ",\"cardinality\":\"one\",\"domain\":"@ + json_text(p.node_type)
            + ",\"range_value\":\""@ + range_name(column_type(p, first_named(p.roles, c.0))) + "\""@
            + (if c.0 == "name"@ || c.0 == "title"@ {
            ",\"display\":true"@
        } else {
            Seq::empty()
        }) + "}}\n"@,
        RoleModel::Edge { target_type, predicate } => "{\"pred_def\":{\"name\":"@ + json_text(
            predicate,
        ) + ",\"cardinality\":\"one\",\"domain\":"@ + json_text(p.node_type) + ",\"range\":"@
            + json_text(target_type) + "}}\n"@,
        _ => Seq::empty(),
    }
}

/// The lines that define the predicates of some columns.
pub open spec fn pred_lines(p: Plan, cs: Seq<Column>) -> Seq<char>
    decreases cs.len(),
{
    if cs.len() == 0 {
        Seq::empty()
    } else {
        pred_lines(p, cs.drop_last()) + pred_line(p, cs.last())
    }
}

/// The line of a node, without its line end.
pub open spec fn node_line(id: u64, t: Seq<char>) -> Seq<char> {
    "{\"node\":{\"id\":"@ + decimal(id as nat) + ",\"type\":"@ + json_text(t) + "}}"@
}

/// The instant in a validity cell: a date, or else an integer.
pub open spec fn cell_instant(v: Seq<char>) -> Option<i64> {
    match instant(v) {
        Some(t) => Some(t),
        None => int64(v),
    }
}

/// What an optional validity column adds to the facts of a row.
pub open spec fn time_text(key: Seq<char>, row: Cells, i: int, n: int) -> Seq<char> {
    if i < n && cell(row, i).len() > 0 {
        key + signed_decimal(cell_instant(cell(row, i))->0 as int)
    } else {
        Seq::empty()
    }
}

/// The validity of the facts of a row.
pub open spec fn times_text(p: Plan, row: Cells) -> Seq<char> {
    time_text(",\"valid_from\":"@, row, from_column(p.roles), p.roles.len() as int) + time_text(
        ",\"valid_to\":"@,
        row,
        to_column(p.roles),
        p.roles.len() as int,
    )
}

/// The provenance of every fact.
pub open spec fn source_text(p: Plan) -> Seq<char> {
    match p.source {
        Some(s) => ",\"source\":"@ + json_text(s),
        None => Seq::empty(),
    }
}

/// A literal as the object of a fact.
pub open spec fn literal_text(p: Plan, t: ColType, v: Seq<char>) -> Seq<char> {
    match t {
        ColType::Int => "{\"int\":"@ + signed_decimal(int64(v)->0 as int) + "}"@,
        ColType::Date => "{\"int\":"@ + signed_decimal(instant(v)->0 as int) + "}"@,
        ColType::Float => "{\"float\":"@ + p.floats[v] + "}"@,
        ColType::Text => "{\"text\":"@ + json_text(v) + "}"@,
    }
}

/// The line of a fact.
pub open spec fn fact_line(
    subject: u64,
    predicate: Seq<char>,
    object: Seq<char>,
    tail: Seq<char>,
) -> Seq<char> {
    "{\"fact\":{\"subject\":"@ + decimal(subject as nat) + ",\"predicate\":"@ + json_text(predicate)
        + ",\"object\":"@ + object + tail + "}}\n"@
}

/// The id of a row's node.
pub open spec fn row_subject(p: Plan, row: Cells) -> u64 {
    node_key(p.node_type, cell(row, id_columns(p.roles)[0]))
}

/// The fact of a row and a column, where there is one.
pub open spec fn cell_fact(p: Plan, row: Cells, i: int) -> Seq<char> {
    let v = cell(row, i);
    let tail = times_text(p, row) + source_text(p);
    if v.len() == 0 {
        Seq::empty()
    } else {
        match p.roles[i].1 {
            RoleModel::Literal => fact_line(
                row_subject(p, row),
                p.roles[i].0,
                literal_text(p, column_type(p, i), v),
                tail,
            ),
            RoleModel::Edge { target_type, predicate } => fact_line(
                row_subject(p, row),
                predicate,
                "{\"node\":"@ + decimal(node_key(target_type, v) as nat) + "}"@,
                tail,
            ),
            _ => Seq::empty(),
        }
    }
}

/// The facts of a row's first `n` columns.
pub open spec fn row_facts(p: Plan, row: Cells, n: int) -> Seq<char>
    decreases n,
{
    if n <= 0 {
        Seq::empty()
    } else {
        row_facts(p, row, n - 1) + cell_fact(p, row, n - 1)
    }
}

/// The node lines of a row's first `n` columns, and of the row itself.
pub open spec fn row_nodes(p: Plan, row: Cells, n: int) -> Set<Seq<char>>
    decreases n,
{
    if n <= 0 {
        Set::empty().insert(node_line(row_subject(p, row), p.node_type))
    } else {
        let init = row_nodes(p, row, n - 1);
        let v = cell(row, n - 1);
        match p.roles[n - 1].1 {
            RoleModel::Edge { target_type, .. } => if v.len() > 0 {
                init.insert(node_line(node_key(target_type, v), target_type))
            } else {
                init
            },
            _ => init,
        }
    }
}

/// The start of a message about the row at `r`: rows are counted as in the file, from 1 and with
/// the header.
pub open spec fn row_label(r: int) -> Seq<char> {
    "row "@ + decimal((r + 2) as nat)
}

/// What is wrong with the row at `r`, if anything is.
pub open spec fn row_error(p: Plan, row: Cells, r: int) -> Option<Seq<char>> {
    let n = p.roles.len() as int;
    let f = from_column(p.roles);
    let t = to_column(p.roles);
    if cell(row, id_columns(p.roles)[0]).len() == 0 {
        Some(row_label(r) + ": empty id cell"@)
    } else if f < n && cell(row, f).len() > 0 && cell_instant(cell(row, f)) is None {
        Some(row_label(r) + ": bad valid_from date "@ + debug_text(cell(row, f)))
    } else if t < n && cell(row, t).len() > 0 && cell_instant(cell(row, t)) is None {
        Some(row_label(r) + ": bad valid_to date "@ + debug_text(cell(row, t)))
    } else {
        None
    }
}

/// What is wrong with the first bad one of the first `n` rows.
pub open spec fn first_error(p: Plan, n: int) -> Option<Seq<char>>
    decreases n,
{
    if n <= 0 {
        None
    } else {
        match first_error(p, n - 1) {
            Some(e) => Some(e),
            None => row_error(p, p.rows[n - 1], n - 1),
        }
    }
}

/// The facts of the first `n` rows.
pub open spec fn all_facts(p: Plan, n: int) -> Seq<char>
    decreases n,
{
    if n <= 0 {
        Seq::empty()
    } else {
        all_facts(p, n - 1) + row_facts(p, p.rows[n - 1], p.roles.len() as int)
    }
}

/// The node lines of the first `n` rows.
pub open spec fn all_nodes(p: Plan, n: int) -> Set<Seq<char>>
    decreases n,
{
    if n <= 0 {
        Set::empty()
    } else {
        all_nodes(p, n - 1).union(row_nodes(p, p.rows[n - 1], p.roles.len() as int))
    }
}

/// Lines, each with its line end.
pub open spec fn lines_text(ls: Seq<Seq<char>>) -> Seq<char>
    decreases ls.len(),
{
    if ls.len() == 0 {
        Seq::empty()
    } else {
        lines_text(ls.drop_last()) + ls.last() + "\n"@
    }
}

/// The whole output: types, predicates, nodes, facts. Types and nodes are there once each, in order.
pub open spec fn compiled(p: Plan) -> Seq<char> {
    type_lines(sorted_items::<String>(plan_types(p.node_type, p.roles))) + pred_lines(p, p.roles)
        + lines_text(sorted_items::<String>(all_nodes(p, p.rows.len() as int))) + all_facts(
        p,
        p.rows.len() as int,
    )
}

/// The plan of a mapping.
pub open spec fn plan_of(
    mapping: Mapping,
    rows: Seq<Cells>,
    floats: Map<Seq<char>, Seq<char>>,
) -> Plan {
    Plan {
        node_type: mapping.node_type@,
        roles: mapping.roles.deep_view(),
        source: mapping.source.deep_view(),
        rows,
        floats,
    }
}

fn cell_of(row: &Vec<String>, i: usize) -> (r: String)
    ensures
        r@ == cell(row.deep_view(), i as int),
{
    if i < row.len() {
        assert(row.deep_view()[i as int] == row@[i as int]@);
        trim(row[i].as_str())
    } else {
        assert(trimmed(Seq::<char>::empty()) =~= Seq::<char>::empty());
        String::new()
    }
}

fn type_of_column(rows: &[Vec<String>], i: usize, floats: &OrdMap<String, String>) -> (r: ColType)
    ensures
        r == detected(column(rows.deep_view(), i as int), floats@),
{
    let mut cells: Vec<&str> = Vec::new();
    let mut r: usize = 0;
    proof {
        reveal_strlit("");
        assert(""@ =~= Seq::<char>::empty());
    }
    while r < rows.len()
        invariant
            r <= rows.len(),
            cells.len() == r,
            ""@ == Seq::<char>::empty(),
            forall|j: int|
                0 <= j < r ==> (#[trigger] cells@[j])@ == raw_cell(rows@[j].deep_view(), i as int),
        decreases rows.len() - r,
    {
        let row = &rows[r];
        if i < row.len() {
            assert(row.deep_view()[i as int] == row@[i as int]@);
            cells.push(row[i].as_str());
        } else {
            cells.push("");
        }
        r += 1;
    }
    let slice = cells.as_slice();
    assert(slice.deep_view() =~= column(rows.deep_view(), i as int)) by {
        assert forall|j: int| 0 <= j < cells@.len() implies #[trigger] column(
            rows.deep_view(),
            i as int,
        )[j] == cells@[j]@ by {
            assert(rows.deep_view()[j] == rows@[j].deep_view());
        }
    }
    detect_type(slice, floats)
}

fn column_types(mapping: &Mapping, rows: &[Vec<String>], floats: &OrdMap<String, String>) -> (r: Vec<
    ColType,
>)
    ensures
        r.len() == mapping.roles.len(),
        forall|i: int|
            0 <= i < r.len() ==> #[trigger] r@[i] == column_type(
                plan_of(*mapping, rows.deep_view(), floats@),
                i,
            ),
{
    let ghost p = plan_of(*mapping, rows.deep_view(), floats@);
    let mut out: Vec<ColType> = Vec::new();
    let mut i: usize = 0;
    while i < mapping.roles.len()
        invariant
            i <= mapping.roles.len(),
            p == plan_of(*mapping, rows.deep_view(), floats@),
            out.len() == i,
            forall|j: int| 0 <= j < i ==> #[trigger] out@[j] == column_type(p, j),
        decreases mapping.roles.len() - i,
    {
        assert(p.roles[i as int] == mapping.roles@[i as int].deep_view());
        let t = match &mapping.roles[i].1 {
            Role::Literal => type_of_column(rows, i, floats),
            _ => ColType::Text,
        };
        out.push(t);
        i += 1;
    }
    out
}

fn id_column(roles: &Vec<(String, Role)>) -> (r: Option<usize>)
    ensures
        r is Some == (id_columns(roles.deep_view()).len() == 1),
        r matches Some(i) ==> i == id_columns(roles.deep_view())[0] && i < roles.len(),
{
    let ghost m = roles.deep_view();
    let mut count: usize = 0;
    let mut at: usize = 0;
    let mut i: usize = 0;
    assert(m.take(0) =~= Seq::<Column>::empty());
    while i < roles.len()
        invariant
            i <= roles.len(),
            m == roles.deep_view(),
            count <= i,
            count == id_columns(m.take(i as int)).len(),
            count > 0 ==> at == id_columns(m.take(i as int)).last() && at < i,
        decreases roles.len() - i,
    {
        proof {
            let t = m.take(i + 1);
            assert(t.drop_last() =~= m.take(i as int));
            assert(t.last() == roles@[i as int].deep_view());
        }
        if let Role::Id = roles[i].1 {
            count += 1;
            at = i;
        }
        i += 1;
    }
    assert(m.take(i as int) =~= m);
    if count == 1 {
        Some(at)
    } else {
        None
    }
}

fn valid_from_column(roles: &Vec<(String, Role)>) -> (r: usize)
    ensures
        r == from_column(roles.deep_view()),
        r <= roles.len(),
{
    let ghost m = roles.deep_view();
    let mut i: usize = 0;
    assert(m.skip(0) =~= m);
    while i < roles.len()
        invariant
            i <= roles.len(),
            m == roles.deep_view(),
            from_column(m) == i + from_column(m.skip(i as int)),
        decreases roles.len() - i,
    {
        assert(m.skip(i as int)[0] == roles@[i as int].deep_view());
        assert(m.skip(i as int).skip(1) =~= m.skip(i + 1));
        if let Role::ValidFrom = roles[i].1 {
            return i;
        }
        i += 1;
    }
    i
}

fn valid_to_column(roles: &Vec<(String, Role)>) -> (r: usize)
    ensures
        r == to_column(roles.deep_view()),
        r <= roles.len(),
{
    let ghost m = roles.deep_view();
    let mut i: usize = 0;
    assert(m.skip(0) =~= m);
    while i < roles.len()
        invariant
            i <= roles.len(),
            m == roles.deep_view(),
            to_column(m) == i + to_column(m.skip(i as int)),
        decreases roles.len() - i,
    {
        assert(m.skip(i as int)[0] == roles@[i as int].deep_view());
        assert(m.skip(i as int).skip(1) =~= m.skip(i + 1));
        if let Role::ValidTo = roles[i].1 {
            return i;
        }
        i += 1;
    }
    i
}

fn first_column_named(roles: &Vec<(String, Role)>, name: &String) -> (r: usize)
    ensures
        r == first_named(roles.deep_view(), name@),
        r <= roles.len(),
{
    let ghost m = roles.deep_view();
    let mut i: usize = 0;
    assert(m.skip(0) =~= m);
    while i < roles.len()
        invariant
            i <= roles.len(),
            m == roles.deep_view(),
            first_named(m, name@) == i + first_named(m.skip(i as int), name@),
        decreases roles.len() - i,
    {
        assert(m.skip(i as int)[0] == roles@[i as int].deep_view());
        assert(m.skip(i as int).skip(1) =~= m.skip(i + 1));
        if roles[i].0 == *name {
            return i;
        }
        i += 1;
    }
    i
}

fn push_json(out: &mut String, s: &str)
    ensures
        final(out)@ == old(out)@ + json_text(s@),
{
    push_str(out, esc_json(s).as_str());
}

fn push_types(out: &mut String, mapping: &Mapping)
    ensures
        final(out)@ == old(out)@ + type_lines(
            sorted_items::<String>(
                plan_types(mapping.node_type@, mapping.roles.deep_view()),
            ),
        ),
{
    let ghost m = mapping.roles.deep_view();
    let mut types: OrdSet<String> = OrdSet::new();
    types.insert(mapping.node_type.clone());
    let mut i: usize = 0;
    assert(m.take(0) =~= Seq::<Column>::empty());
    while i < mapping.roles.len()
        invariant
            i <= mapping.roles.len(),
            m == mapping.roles.deep_view(),
            types@ == plan_types(mapping.node_type@, m.take(i as int)),
        decreases mapping.roles.len() - i,
    {
        proof {
            let t = m.take(i + 1);
            assert(t.drop_last() =~= m.take(i as int));
            assert(t.last() == mapping.roles@[i as int].deep_view());
        }
        if let Role::Edge { target_type, .. } = &mapping.roles[i].1 {
            types.insert(target_type.clone());
        }
        i += 1;
    }
    assert(m.take(i as int) =~= m);
    let n: usize = types.len();
    let ghost items = types.items();
    let ghost head = out@;
    let mut j: usize = 0;
    proof {
        assert(items.take(0) =~= Seq::<Seq<char>>::empty());
        assert(head + type_lines(items.take(0)) =~= head);
    }
    while j < n
        invariant
            j <= n,
            n == items.len(),
            items == types.items(),
            out@ == head + type_lines(items.take(j as int)),
        decreases n - j,
    {
        let t = types.at(j);
        push_str(out, "{\"type_def\":{\"name\":");
        push_json(out, t.as_str());
        push_str(out, "}}\n");
        proof {
            let x = items.take(j + 1);
            assert(x.drop_last() =~= items.take(j as int));
            assert(x.last() == t@);
            assert(out@ =~= head + type_lines(x));
        }
        j += 1;
    }
    assert(items.take(j as int) =~= items);
}

fn is_display(name: &String) -> (r: bool)
    ensures
        r == (name@ == "name"@ || name@ == "title"@),
{
    let a = "name".to_owned();
    let b = "title".to_owned();
    *name == a || *name == b
}

/// The end of a literal predicate's line: its range, and whether it is a display name.
fn literal_def_end(t: ColType, display: bool) -> (r: String)
    ensures
        r@ == range_name(t) + "\""@ + (if display {
            ",\"display\":true"@
        } else {
            Seq::empty()
        }) + "}}\n"@,
{
    let mut out = String::new();
    push_str(
        &mut out,
        match t {
            ColType::Int => "int",
            ColType::Date => "int",
            ColType::Float => "float",
            ColType::Text => "text",
        },
    );
    assert(out@ =~= range_name(t));
    push_str(&mut out, "\"");
    if display {
        push_str(&mut out, ",\"display\":true");
    }
    assert(out@ =~= range_name(t) + "\""@ + (if display {
        ",\"display\":true"@
    } else {
        Seq::empty()
    }));
    push_str(&mut out, "}}\n");
    out
}

/// The start of a predicate's line: its name and its domain.
fn def_start(name: &str, domain: &str) -> (r: String)
    ensures
        r@ == "{\"pred_def\":{\"name\":"@ + json_text(name@)
            + ",\"cardinality\":\"one\",\"domain\":"@ + json_text(domain@),
{
    let mut out = String::new();
    push_str(&mut out, "{\"pred_def\":{\"name\":");
    assert(out@ =~= "{\"pred_def\":{\"name\":"@);
    push_json(&mut out, name);
    push_str(&mut out, ",\"cardinality\":\"one\",\"domain\":");
    push_json(&mut out, domain);
    out
}

fn push_pred(
    out: &mut String,
    mapping: &Mapping,
    types: &Vec<ColType>,
    i: usize,
    Ghost(p): Ghost<Plan>,
)
    requires
        i < mapping.roles.len(),
        p.node_type == mapping.node_type@,
        p.roles == mapping.roles.deep_view(),
        types.len() == p.roles.len(),
        forall|j: int| 0 <= j < types.len() ==> #[trigger] types@[j] == column_type(p, j),
    ensures
        final(out)@ == old(out)@ + pred_line(p, p.roles[i as int]),
{
    assert(p.roles[i as int] == mapping.roles@[i as int].deep_view());
    let name = &mapping.roles[i].0;
    match &mapping.roles[i].1 {
        Role::Literal => {
            let at: usize = first_column_named(&mapping.roles, name);
            let t = if at < types.len() {
                types[at]
            } else {
                ColType::Text
            };
            let start = def_start(name.as_str(), mapping.node_type.as_str());
            let end = literal_def_end(t, is_display(name));
            push_str(out, start.as_str());
            push_str(out, ",\"range_value\":\"");
            push_str(out, end.as_str());
            assert(out@ =~= old(out)@ + (start@ + ",\"range_value\":\""@ + end@));
            assert(pred_line(p, p.roles[i as int]) =~= start@ + ",\"range_value\":\""@ + end@);
        },
        Role::Edge { target_type, predicate } => {
            let start = def_start(predicate.as_str(), mapping.node_type.as_str());
            push_str(out, start.as_str());
            push_str(out, ",\"range\":");
            push_json(out, target_type.as_str());
            push_str(out, "}}\n");
            assert(out@ =~= old(out)@ + (start@ + ",\"range\":"@ + json_text(target_type@)
                + "}}\n"@));
        },
        _ => {
            assert(out@ =~= old(out)@ + Seq::<char>::empty());
        },
    }
}

fn node_text(id: u64, t: &str) -> (r: String)
    ensures
        r@ == node_line(id, t@),
{
    let mut out = String::new();
    push_str(&mut out, "{\"node\":{\"id\":");
    push_u64(&mut out, id);
    push_str(&mut out, ",\"type\":");
    push_json(&mut out, t);
    push_str(&mut out, "}}");
    assert(out@ =~= node_line(id, t@));
    out
}

fn row_message(r: usize, what: &str) -> (e: String)
    requires
        r < usize::MAX - 2,
    ensures
        e@ == row_label(r as int) + what@,
{
    let mut out = String::new();
    push_str(&mut out, "row ");
    push_u64(&mut out, (r + 2) as u64);
    push_str(&mut out, what);
    assert(out@ =~= row_label(r as int) + what@);
    out
}

/// Append what a validity column adds; false where its cell is no instant.
fn push_time(out: &mut String, key: &str, row: &Vec<String>, i: usize, n: usize) -> (r: bool)
    ensures
        r == !(i < n && cell(row.deep_view(), i as int).len() > 0 && cell_instant(
            cell(row.deep_view(), i as int),
        ) is None),
        r ==> final(out)@ == old(out)@ + time_text(key@, row.deep_view(), i as int, n as int),
{
    if i >= n {
        assert(out@ =~= old(out)@ + Seq::<char>::empty());
        return true;
    }
    let v = cell_of(row, i);
    if v.as_str().is_empty() {
        assert(out@ =~= old(out)@ + Seq::<char>::empty());
        return true;
    }
    let ts = match parse_date(v.as_str()) {
        Some(t) => Some(t),
        None => parse_i64(v.as_str()),
    };
    match ts {
        Some(t) => {
            push_str(out, key);
            push_i64(out, t);
            assert(out@ =~= old(out)@ + time_text(key@, row.deep_view(), i as int, n as int));
            true
        },
        None => false,
    }
}

/// Every cell of a column that is not blank is of the column's type.
proof fn lemma_cell_typed(p: Plan, r: int, i: int)
    requires
        0 <= r < p.rows.len(),
        0 <= i < p.roles.len(),
        p.roles[i].1 is Literal,
        cell(p.rows[r], i).len() > 0,
    ensures
        column_type(p, i) == ColType::Int ==> int64(cell(p.rows[r], i)) is Some,
        column_type(p, i) == ColType::Float ==> p.floats.contains_key(cell(p.rows[r], i)),
        column_type(p, i) == ColType::Date ==> instant(cell(p.rows[r], i)) is Some,
{
    let cs = column(p.rows, i);
    assert(cs[r] == raw_cell(p.rows[r], i));
    assert(trimmed(cs[r]).len() > 0);
}

fn push_literal(
    out: &mut String,
    t: ColType,
    v: &String,
    floats: &OrdMap<String, String>,
    Ghost(p): Ghost<Plan>,
)
    requires
        p.floats == floats@,
        t == ColType::Int ==> int64(v@) is Some,
        t == ColType::Float ==> floats@.contains_key(v@),
        t == ColType::Date ==> instant(v@) is Some,
    ensures
        final(out)@ == old(out)@ + literal_text(p, t, v@),
{
    match t {
        ColType::Int => {
            push_str(out, "{\"int\":");
            if let Some(n) = parse_i64(v.as_str()) {
                push_i64(out, n);
            }
        },
        ColType::Date => {
            push_str(out, "{\"int\":");
            if let Some(n) = parse_date(v.as_str()) {
                push_i64(out, n);
            }
        },
        ColType::Float => {
            push_str(out, "{\"float\":");
            if let Some(x) = floats.get(v) {
                push_str(out, x.as_str());
            }
        },
        ColType::Text => {
            push_str(out, "{\"text\":");
            push_json(out, v.as_str());
        },
    }
    push_str(out, "}");
    assert(out@ =~= old(out)@ + literal_text(p, t, v@));
}

fn push_fact(out: &mut String, subject: u64, predicate: &str, object: &str, tail: &str)
    ensures
        final(out)@ == old(out)@ + fact_line(subject, predicate@, object@, tail@),
{
    push_str(out, "{\"fact\":{\"subject\":");
    push_u64(out, subject);
    push_str(out, ",\"predicate\":");
    push_json(out, predicate);
    push_str(out, ",\"object\":");
    push_str(out, object);
    push_str(out, tail);
    push_str(out, "}}\n");
    assert(out@ =~= old(out)@ + fact_line(subject, predicate@, object@, tail@));
}

/// The message about a cell of the row at `r`: what is wrong, and the cell as it is shown.
pub fn date_message(r: usize, what: &str, shown: &str) -> (m: String)
    requires
        r < usize::MAX - 2,
    ensures
        m@ == row_label(r as int) + what@ + shown@,
{
    let mut m = row_message(r, what);
    push_str(&mut m, shown);
    m
}

/// Compile one row: its node lines and its facts, or what is wrong with it.
fn compile_row(
    mapping: &Mapping,
    row: &Vec<String>,
    r: usize,
    types: &Vec<ColType>,
    floats: &OrdMap<String, String>,
    id_col: usize,
    nodes: &mut OrdSet<String>,
    facts: &mut String,
    Ghost(p): Ghost<Plan>,
) -> (e: Option<String>)
    requires
        p.node_type == mapping.node_type@,
        p.roles == mapping.roles.deep_view(),
        p.source == mapping.source.deep_view(),
        p.floats == floats@,
        types.len() == p.roles.len(),
        forall|j: int| 0 <= j < types.len() ==> #[trigger] types@[j] == column_type(p, j),
        id_columns(p.roles).len() == 1,
        id_col == id_columns(p.roles)[0],
        r < p.rows.len(),
        p.rows[r as int] == row.deep_view(),
        r < usize::MAX - 2,
    ensures
        e.deep_view() == row_error(p, row.deep_view(), r as int),
        e is None ==> final(nodes)@ == old(nodes)@.union(
            row_nodes(p, row.deep_view(), p.roles.len() as int),
        ),
        e is None ==> final(facts)@ == old(facts)@ + row_facts(
            p,
            row.deep_view(),
            p.roles.len() as int,
        ),
{
    let ghost rm = row.deep_view();
    let raw_id = cell_of(row, id_col);
    if raw_id.as_str().is_empty() {
        return Some(row_message(r, ": empty id cell"));
    }
    let subject: u64 = node_id(mapping.node_type.as_str(), raw_id.as_str());
    let n: usize = mapping.roles.len();
    let mut tail = String::new();
    let f: usize = valid_from_column(&mapping.roles);
    if !push_time(&mut tail, ",\"valid_from\":", row, f, n) {
        let shown = debug_form(cell_of(row, f).as_str());
        return Some(date_message(r, ": bad valid_from date ", shown.as_str()));
    }
    let t: usize = valid_to_column(&mapping.roles);
    if !push_time(&mut tail, ",\"valid_to\":", row, t, n) {
        let shown = debug_form(cell_of(row, t).as_str());
        return Some(date_message(r, ": bad valid_to date ", shown.as_str()));
    }
    assert(tail@ =~= times_text(p, rm));
    match &mapping.source {
        Some(s) => {
            push_str(&mut tail, ",\"source\":");
            push_json(&mut tail, s.as_str());
        },
        None => {},
    }
    assert(tail@ =~= times_text(p, rm) + source_text(p));
    nodes.insert(node_text(subject, mapping.node_type.as_str()));
    let mut i: usize = 0;
    proof {
        assert(nodes@ =~= old(nodes)@.union(row_nodes(p, rm, 0)));
        assert(facts@ =~= old(facts)@ + row_facts(p, rm, 0));
    }
    while i < n
        invariant
            i <= n,
            n == mapping.roles.len(),
            rm == row.deep_view(),
            p.node_type == mapping.node_type@,
            p.roles == mapping.roles.deep_view(),
            p.floats == floats@,
            types.len() == p.roles.len(),
            forall|j: int| 0 <= j < types.len() ==> #[trigger] types@[j] == column_type(p, j),
            r < p.rows.len(),
            p.rows[r as int] == rm,
            subject == row_subject(p, rm),
            tail@ == times_text(p, rm) + source_text(p),
            nodes@ == old(nodes)@.union(row_nodes(p, rm, i as int)),
            facts@ == old(facts)@ + row_facts(p, rm, i as int),
        decreases n - i,
    {
        let v = cell_of(row, i);
        let ghost facts0 = facts@;
        let ghost nodes0 = nodes@;
        assert(p.roles[i as int] == mapping.roles@[i as int].deep_view());
        if !v.as_str().is_empty() {
            match &mapping.roles[i].1 {
                Role::Literal => {
                    proof {
                        lemma_cell_typed(p, r as int, i as int);
                    }
                    let mut object = String::new();
                    push_literal(&mut object, types[i], &v, floats, Ghost(p));
                    assert(object@ =~= literal_text(p, column_type(p, i as int), v@));
                    push_fact(
                        facts,
                        subject,
                        mapping.roles[i].0.as_str(),
                        object.as_str(),
                        tail.as_str(),
                    );
                },
                Role::Edge { target_type, predicate } => {
                    let target: u64 = node_id(target_type.as_str(), v.as_str());
                    nodes.insert(node_text(target, target_type.as_str()));
                    let mut object = String::new();
                    push_str(&mut object, "{\"node\":");
                    push_u64(&mut object, target);
                    push_str(&mut object, "}");
                    assert(object@ =~= "{\"node\":"@ + decimal(target as nat) + "}"@);
                    push_fact(
                        facts,
                        subject,
                        predicate.as_str(),
                        object.as_str(),
                        tail.as_str(),
                    );
                },
                _ => {},
            }
        }
        proof {
            assert(facts@ =~= facts0 + cell_fact(p, rm, i as int));
            assert(facts@ =~= old(facts)@ + row_facts(p, rm, i + 1));
            assert(nodes@ =~= old(nodes)@.union(row_nodes(p, rm, i + 1)));
        }
        i += 1;
    }
    None
}

fn push_lines(out: &mut String, lines: &OrdSet<String>)
    ensures
        final(out)@ == old(out)@ + lines_text(sorted_items::<String>(lines@)),
{
    let n: usize = lines.len();
    let ghost items = lines.items();
    let ghost head = out@;
    let mut j: usize = 0;
    proof {
        assert(items.take(0) =~= Seq::<Seq<char>>::empty());
        assert(head + lines_text(items.take(0)) =~= head);
    }
    while j < n
        invariant
            j <= n,
            n == items.len(),
            items == lines.items(),
            out@ == head + lines_text(items.take(j as int)),
        decreases n - j,
    {
        let t = lines.at(j);
        push_str(out, t.as_str());
        push_str(out, "\n");
        proof {
            let x = items.take(j + 1);
            assert(x.drop_last() =~= items.take(j as int));
            assert(x.last() == t@);
            assert(out@ =~= head + lines_text(x));
        }
        j += 1;
    }
    assert(items.take(j as int) =~= items);
}

/// Compile rows to ingest lines: types first, then predicates, nodes and facts. `rows` has no
/// header; `headers` is as long as the mapping. `floats` has the cells that are numbers, without
/// the blanks around them, each with the number's own text. The message of an error names the row.
pub fn compile(
    mapping: &Mapping,
    headers: &[String],
    rows: &[Vec<String>],
    floats: &OrdMap<String, String>,
) -> (r: Result<String, String>)
    requires
        rows.len() < usize::MAX - 2,
    ensures
        ({
            let p = plan_of(*mapping, rows.deep_view(), floats@);
            if mapping.roles.len() != headers.len() {
                r matches Err(e) && e@ == "mapping covers "@ + decimal(mapping.roles.len() as nat)
                    + " columns but the file has "@ + decimal(headers.len() as nat)
            } else if id_columns(p.roles).len() != 1 {
                r matches Err(e) && e@ == "exactly one column must have the id role"@
            } else {
                match first_error(p, p.rows.len() as int) {
                    Some(m) => r matches Err(e) && e@ == m,
                    None => r matches Ok(t) && t@ == compiled(p),
                }
            }
        }),
{
    let ghost p = plan_of(*mapping, rows.deep_view(), floats@);
    if mapping.roles.len() != headers.len() {
        let mut e = String::new();
        push_str(&mut e, "mapping covers ");
        push_u64(&mut e, mapping.roles.len() as u64);
        push_str(&mut e, " columns but the file has ");
        push_u64(&mut e, headers.len() as u64);
        assert(e@ =~= "mapping covers "@ + decimal(mapping.roles.len() as nat)
            + " columns but the file has "@ + decimal(headers.len() as nat));
        return Err(e);
    }
    let id_col: usize = match id_column(&mapping.roles) {
        Some(i) => i,
        None => {
            return Err("exactly one column must have the id role".to_owned());
        },
    };
    let types = column_types(mapping, rows, floats);
    let mut out = String::new();
    push_types(&mut out, mapping);
    let ghost head = out@;
    let mut i: usize = 0;
    proof {
        assert(p.roles.take(0) =~= Seq::<Column>::empty());
        assert(head + pred_lines(p, p.roles.take(0)) =~= head);
    }
    while i < mapping.roles.len()
        invariant
            i <= mapping.roles.len(),
            p == plan_of(*mapping, rows.deep_view(), floats@),
            types.len() == p.roles.len(),
            forall|j: int| 0 <= j < types.len() ==> #[trigger] types@[j] == column_type(p, j),
            out@ == head + pred_lines(p, p.roles.take(i as int)),
        decreases mapping.roles.len() - i,
    {
        push_pred(&mut out, mapping, &types, i, Ghost(p));
        proof {
            let t = p.roles.take(i + 1);
            assert(t.drop_last() =~= p.roles.take(i as int));
            assert(t.last() == p.roles[i as int]);
            assert(out@ =~= head + pred_lines(p, t));
        }
        i += 1;
    }
    assert(p.roles.take(i as int) =~= p.roles);
    let mut nodes: OrdSet<String> = OrdSet::new();
    let mut facts = String::new();
    let mut r: usize = 0;
    proof {
        assert(nodes@ =~= all_nodes(p, 0));
        assert(facts@ =~= all_facts(p, 0));
    }
    while r < rows.len()
        invariant
            r <= rows.len(),
            rows.len() < usize::MAX - 2,
            p == plan_of(*mapping, rows.deep_view(), floats@),
            types.len() == p.roles.len(),
            forall|j: int| 0 <= j < types.len() ==> #[trigger] types@[j] == column_type(p, j),
            id_columns(p.roles).len() == 1,
            id_col == id_columns(p.roles)[0],
            mapping.roles.len() == headers.len(),
            first_error(p, r as int) is None,
            nodes@ == all_nodes(p, r as int),
            facts@ == all_facts(p, r as int),
        decreases rows.len() - r,
    {
        assert(p.rows[r as int] == rows@[r as int].deep_view());
        if let Some(e) = compile_row(
            mapping,
            &rows[r],
            r,
            &types,
            floats,
            id_col,
            &mut nodes,
            &mut facts,
            Ghost(p),
        ) {
            proof {
                lemma_first_error_stays(p, r + 1, p.rows.len() as int);
            }
            return Err(e);
        }
        r += 1;
    }
    push_lines(&mut out, &nodes);
    push_str(&mut out, facts.as_str());
    assert(out@ =~= compiled(p));
    Ok(out)
}

/// Once a row is bad, later rows do not matter.
proof fn lemma_first_error_stays(p: Plan, a: int, b: int)
    requires
        0 <= a <= b,
        first_error(p, a) is Some,
    ensures
        first_error(p, b) == first_error(p, a),
    decreases b - a,
{
    if a < b {
        lemma_first_error_stays(p, a, b - 1);
    }
}

} // verus!
