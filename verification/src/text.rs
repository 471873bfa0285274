//! Text: characters, white space, decimal numbers, splitting, JSON strings.
use vstd::prelude::*;
use vstd::string::StringExecFns;

verus! {

/// `String::push` of std: one more character at the end.
pub assume_specification[ String::push ](s: &mut String, c: char)
    ensures
        final(s)@ == old(s)@.push(c),
;

/// The characters of a text.
pub fn to_chars(s: &str) -> (r: Vec<char>)
    ensures
        r@ == s@,
{
    let mut out: Vec<char> = Vec::new();
    for c in it: s.chars()
        invariant
            out@ == it.seq().take(it.index()),
            it.seq() == s@,
    {
        out.push(c);
    }
    out
}

/// The text of the characters from `lo` up to `hi`.
pub fn from_chars(v: &Vec<char>, lo: usize, hi: usize) -> (r: String)
    requires
        lo <= hi <= v.len(),
    ensures
        r@ == v@.subrange(lo as int, hi as int),
{
    let mut out = String::new();
    let mut i: usize = lo;
    assert(v@.subrange(lo as int, lo as int) =~= Seq::<char>::empty());
    while i < hi
        invariant
            lo <= i <= hi <= v.len(),
            out@ == v@.subrange(lo as int, i as int),
        decreases hi - i,
    {
        out.push(v[i]);
        assert(v@.subrange(lo as int, i + 1) =~= v@.subrange(lo as int, i as int).push(
            v@[i as int],
        ));
        i += 1;
    }
    out
}

/// White space, as Unicode has it.
pub open spec fn is_space(c: char) -> bool {
    let u = c as u32;
    ||| 0x9 <= u <= 0xd
    ||| u == 0x20
    ||| u == 0x85
    ||| u == 0xa0
    ||| u == 0x1680
    ||| 0x2000 <= u <= 0x200a
    ||| u == 0x2028
    ||| u == 0x2029
    ||| u == 0x202f
    ||| u == 0x205f
    ||| u == 0x3000
}

fn space(c: char) -> (r: bool)
    ensures
        r == is_space(c),
{
    let u: u32 = c as u32;
    (0x9 <= u && u <= 0xd) || u == 0x20 || u == 0x85 || u == 0xa0 || u == 0x1680 || (0x2000 <= u
        && u <= 0x200a) || u == 0x2028 || u == 0x2029 || u == 0x202f || u == 0x205f || u == 0x3000
}

/// A text without the white space at its start.
pub open spec fn trim_start(s: Seq<char>) -> Seq<char>
    decreases s.len(),
{
    if s.len() > 0 && is_space(s[0]) {
        trim_start(s.skip(1))
    } else {
        s
    }
}

/// A text without the white space at its end.
pub open spec fn trim_end(s: Seq<char>) -> Seq<char>
    decreases s.len(),
{
    if s.len() > 0 && is_space(s.last()) {
        trim_end(s.drop_last())
    } else {
        s
    }
}

/// A text without the white space around it.
pub open spec fn trimmed(s: Seq<char>) -> Seq<char> {
    trim_end(trim_start(s))
}

/// The text without the white space around it.
pub fn trim(s: &str) -> (r: String)
    ensures
        r@ == trimmed(s@),
{
    let v = to_chars(s);
    let mut lo: usize = 0;
    assert(v@.skip(0) =~= v@);
    while lo < v.len() && space(v[lo])
        invariant
            lo <= v.len(),
            trim_start(v@) == trim_start(v@.skip(lo as int)),
        decreases v.len() - lo,
    {
        assert(v@.skip(lo as int).skip(1) =~= v@.skip(lo + 1));
        lo += 1;
    }
    let ghost t = v@.skip(lo as int);
    assert(trim_start(v@) == t);
    let mut hi: usize = v.len();
    assert(t.take(t.len() as int) =~= t);
    while hi > lo && space(v[hi - 1])
        invariant
            lo <= hi <= v.len(),
            t == v@.skip(lo as int),
            trim_end(t) == trim_end(t.take(hi - lo)),
        decreases hi - lo,
    {
        proof {
            let x = t.take(hi - lo);
            assert(x.last() == v@[hi - 1]);
            assert(x.drop_last() =~= t.take(hi - 1 - lo));
        }
        hi -= 1;
    }
    assert(t.take(hi - lo) =~= v@.subrange(lo as int, hi as int));
    from_chars(&v, lo, hi)
}

/// The value of a decimal digit.
pub open spec fn digit(c: char) -> int {
    c as u32 - 48
}

/// Whether a character is a decimal digit.
pub open spec fn is_digit(c: char) -> bool {
    48 <= c as u32 <= 57
}

/// Whether a text is decimal digits, at least one.
pub open spec fn is_number(s: Seq<char>) -> bool {
    s.len() > 0 && forall|i: int| 0 <= i < s.len() ==> is_digit(#[trigger] s[i])
}

/// The value of decimal digits.
pub open spec fn number(s: Seq<char>) -> int
    decreases s.len(),
{
    if s.len() == 0 {
        0
    } else {
        number(s.drop_last()) * 10 + digit(s.last())
    }
}

/// The integer that a text is: digits, with a sign before them or without.
pub open spec fn integer(s: Seq<char>) -> Option<int> {
    if s.len() > 0 && s[0] == '-' && is_number(s.skip(1)) {
        Some(-number(s.skip(1)))
    } else if s.len() > 0 && s[0] == '+' && is_number(s.skip(1)) {
        Some(number(s.skip(1)))
    } else if is_number(s) {
        Some(number(s))
    } else {
        None
    }
}

/// The 64-bit integer that a text is.
pub open spec fn int64(s: Seq<char>) -> Option<i64> {
    match integer(s) {
        Some(n) => if i64::MIN <= n <= i64::MAX {
            Some(n as i64)
        } else {
            None
        },
        None => None,
    }
}

/// The unsigned 64-bit integer that a text is, with an optional plus sign.
pub open spec fn uint64(s: Seq<char>) -> Option<u64> {
    match integer(s) {
        Some(n) => if s[0] != '-' && n <= u64::MAX {
            Some(n as u64)
        } else {
            None
        },
        None => None,
    }
}

/// The unsigned 32-bit integer that a text is; a minus sign is never part of one.
pub open spec fn uint32(s: Seq<char>) -> Option<u32> {
    match integer(s) {
        Some(n) => if s[0] != '-' && n <= u32::MAX {
            Some(n as u32)
        } else {
            None
        },
        None => None,
    }
}

proof fn lemma_number_grows(s: Seq<char>, n: int)
    requires
        is_number(s),
        0 <= n <= s.len(),
    ensures
        0 <= number(s.take(n)) <= number(s),
    decreases s.len() - n,
{
    if n == s.len() {
        assert(s.take(n) =~= s);
        lemma_number_positive(s);
    } else {
        lemma_number_grows(s, n + 1);
        let t = s.take(n + 1);
        assert(t.drop_last() =~= s.take(n));
        assert(t.last() == s[n]);
        if n > 0 {
            assert(is_number(s.take(n)));
            lemma_number_positive(s.take(n));
        }
    }
}

proof fn lemma_number_positive(s: Seq<char>)
    requires
        is_number(s),
    ensures
        number(s) >= 0,
    decreases s.len(),
{
    reveal_with_fuel(number, 2);
    assert(is_digit(s[s.len() - 1]));
    if s.len() > 1 {
        assert(is_number(s.drop_last()));
        lemma_number_positive(s.drop_last());
    }
}

/// The value of the digits from `lo` on, where it fits.
fn digits(v: &Vec<char>, lo: usize) -> (r: Option<u64>)
    requires
        lo <= v.len(),
    ensures
        r is Some == (is_number(v@.skip(lo as int)) && number(v@.skip(lo as int)) <= u64::MAX),
        r matches Some(n) ==> n == number(v@.skip(lo as int)),
{
    let ghost s = v@.skip(lo as int);
    if lo == v.len() {
        return None;
    }
    let mut i: usize = lo;
    let mut all = true;
    while i < v.len()
        invariant
            lo <= i <= v.len(),
            s == v@.skip(lo as int),
            all == forall|j: int| 0 <= j < i - lo ==> is_digit(#[trigger] s[j]),
        decreases v.len() - i,
    {
        let u: u32 = v[i] as u32;
        assert(s[i - lo] == v@[i as int]);
        if u < 48 || u > 57 {
            all = false;
        }
        i += 1;
    }
    if !all {
        return None;
    }
    assert(is_number(s));
    let mut acc: u64 = 0;
    i = lo;
    assert(s.take(0) =~= Seq::<char>::empty());
    while i < v.len()
        invariant
            lo <= i <= v.len(),
            s == v@.skip(lo as int),
            is_number(s),
            acc == number(s.take(i - lo)),
        decreases v.len() - i,
    {
        assert(is_digit(s[i - lo]));
        let d: u64 = (v[i] as u32 - 48) as u64;
        proof {
            let t = s.take(i + 1 - lo);
            assert(t.drop_last() =~= s.take(i - lo));
            assert(t.last() == s[i - lo]);
            lemma_number_grows(s, i + 1 - lo);
        }
        if acc > u64::MAX / 10 || acc * 10 > u64::MAX - d {
            return None;
        }
        acc = acc * 10 + d;
        i += 1;
    }
    assert(s.take(i - lo) =~= s);
    Some(acc)
}

/// The 64-bit integer that a text is.
pub fn parse_i64(s: &str) -> (r: Option<i64>)
    ensures
        r == int64(s@),
{
    let v = to_chars(s);
    if v.len() == 0 {
        return None;
    }
    proof {
        assert(v@.skip(0) =~= v@);
        if is_number(v@) {
            assert(is_digit(v@[0]));
            lemma_number_positive(v@);
        }
        if is_number(v@.skip(1)) {
            lemma_number_positive(v@.skip(1));
        }
    }
    if v[0] == '-' {
        match digits(&v, 1) {
            Some(n) => if n <= 0x7fff_ffff_ffff_ffff {
                Some(-(n as i64))
            } else if n == 0x8000_0000_0000_0000 {
                Some(i64::MIN)
            } else {
                None
            },
            None => None,
        }
    } else {
        let lo: usize = if v[0] == '+' {
            1
        } else {
            0
        };
        match digits(&v, lo) {
            Some(n) => if n <= 0x7fff_ffff_ffff_ffff {
                Some(n as i64)
            } else {
                None
            },
            None => None,
        }
    }
}

/// The unsigned 32-bit integer that a text is.
pub fn parse_u32(s: &str) -> (r: Option<u32>)
    ensures
        r == uint32(s@),
{
    let v = to_chars(s);
    if v.len() == 0 {
        return None;
    }
    proof {
        assert(v@.skip(0) =~= v@);
        if is_number(v@) {
            assert(is_digit(v@[0]));
            lemma_number_positive(v@);
        }
        if is_number(v@.skip(1)) {
            lemma_number_positive(v@.skip(1));
        }
    }
    let lo: usize = if v[0] == '+' {
        1
    } else {
        0
    };
    if v[0] == '-' {
        return None;
    }
    match digits(&v, lo) {
        Some(n) => if n <= 0xffff_ffff {
            Some(n as u32)
        } else {
            None
        },
        None => None,
    }
}

/// The unsigned 64-bit integer that a text is.
pub fn parse_u64(s: &str) -> (r: Option<u64>)
    ensures
        r == uint64(s@),
{
    let v = to_chars(s);
    if v.len() == 0 {
        return None;
    }
    proof {
        assert(v@.skip(0) =~= v@);
        if is_number(v@) {
            assert(is_digit(v@[0]));
            lemma_number_positive(v@);
        }
        if is_number(v@.skip(1)) {
            lemma_number_positive(v@.skip(1));
        }
    }
    if v[0] == '-' {
        return None;
    }
    let lo: usize = if v[0] == '+' {
        1
    } else {
        0
    };
    digits(&v, lo)
}

/// The character of a decimal digit.
pub open spec fn digit_char(d: int) -> char {
    (d + 48) as char
}

/// A number in decimal.
pub open spec fn decimal(n: nat) -> Seq<char>
    decreases n,
{
    if n < 10 {
        seq![digit_char(n as int)]
    } else {
        decimal(n / 10).push(digit_char((n % 10) as int))
    }
}

/// An integer in decimal, with a minus sign where it is negative.
pub open spec fn signed_decimal(n: int) -> Seq<char> {
    if n < 0 {
        seq!['-'] + decimal((-n) as nat)
    } else {
        decimal(n as nat)
    }
}

fn digit_of(d: u64) -> (r: char)
    requires
        d < 10,
    ensures
        r == digit_char(d as int),
{
    match d {
        0 => '0',
        1 => '1',
        2 => '2',
        3 => '3',
        4 => '4',
        5 => '5',
        6 => '6',
        7 => '7',
        8 => '8',
        _ => '9',
    }
}

/// Append a number in decimal.
pub fn push_u64(out: &mut String, n: u64)
    ensures
        final(out)@ == old(out)@ + decimal(n as nat),
    decreases n,
{
    if n >= 10 {
        push_u64(out, n / 10);
    }
    let ghost mid = out@;
    out.push(digit_of(n % 10));
    assert(out@ =~= old(out)@ + decimal(n as nat));
}

/// Append an integer in decimal.
pub fn push_i64(out: &mut String, n: i64)
    ensures
        final(out)@ == old(out)@ + signed_decimal(n as int),
{
    if n < 0 {
        out.push('-');
        let m: u64 = (-(n + 1)) as u64 + 1;
        push_u64(out, m);
        assert(out@ =~= old(out)@ + signed_decimal(n as int));
    } else {
        push_u64(out, n as u64);
    }
}

/// Append a text.
pub fn push_str(out: &mut String, s: &str)
    ensures
        final(out)@ == old(out)@ + s@,
{
    out.append(s);
}

/// A number in decimal is digits, of that value.
pub proof fn lemma_decimal(n: nat)
    ensures
        is_number(decimal(n)),
        number(decimal(n)) == n,
    decreases n,
{
    reveal_with_fuel(number, 2);
    let s = decimal(n);
    if n < 10 {
        assert(s.drop_last() =~= Seq::<char>::empty());
        assert(s.last() == digit_char(n as int));
    } else {
        lemma_decimal(n / 10);
        assert(s.drop_last() =~= decimal(n / 10));
        assert(s.last() == digit_char((n % 10) as int));
        assert forall|i: int| 0 <= i < s.len() implies is_digit(#[trigger] s[i]) by {
            if i < s.len() - 1 {
                assert(is_digit(decimal(n / 10)[i]));
            }
        }
    }
}

/// Decimal text is read back as the integer it was made from.
pub proof fn law_decimal_round_trip(n: i64)
    ensures
        int64(signed_decimal(n as int)) == Some(n),
{
    if n < 0 {
        let m = (-n) as nat;
        lemma_decimal(m);
        assert(signed_decimal(n as int).skip(1) =~= decimal(m));
        assert(signed_decimal(n as int)[0] == '-');
    } else {
        lemma_decimal(n as nat);
        assert(is_digit(decimal(n as nat)[0]));
    }
}

/// The pieces of a text between the occurrences of a character.
pub open spec fn split(s: Seq<char>, c: char) -> Seq<Seq<char>>
    decreases s.len(),
{
    if s.len() == 0 {
        seq![Seq::<char>::empty()]
    } else {
        let init = split(s.drop_last(), c);
        if s.last() == c {
            init.push(Seq::empty())
        } else {
            init.drop_last().push(init.last().push(s.last()))
        }
    }
}

/// The pieces of a text between the occurrences of a character.
pub fn split_on(s: &str, c: char) -> (r: Vec<String>)
    ensures
        r.deep_view() == split(s@, c),
        r.len() >= 1,
{
    let v = to_chars(s);
    let mut done: Vec<String> = Vec::new();
    let mut piece = String::new();
    let mut i: usize = 0;
    proof {
        assert(v@.take(0) =~= Seq::<char>::empty());
        assert(done.deep_view().push(piece@) =~= split(v@.take(0), c));
    }
    while i < v.len()
        invariant
            i <= v.len(),
            done.deep_view().push(piece@) == split(v@.take(i as int), c),
        decreases v.len() - i,
    {
        let ghost d0 = done.deep_view();
        let ghost p0 = piece@;
        proof {
            let t = v@.take(i + 1);
            assert(t.drop_last() =~= v@.take(i as int));
            assert(t.last() == v@[i as int]);
            assert(d0.push(p0).drop_last() =~= d0);
            assert(d0.push(p0).last() == p0);
        }
        if v[i] == c {
            done.push(piece);
            piece = String::new();
            assert(done.deep_view() =~= d0.push(p0));
        } else {
            piece.push(v[i]);
        }
        i += 1;
    }
    assert(v@.take(i as int) =~= v@);
    let ghost d0 = done.deep_view();
    let ghost p0 = piece@;
    done.push(piece);
    assert(done.deep_view() =~= d0.push(p0));
    done
}

/// A hexadecimal digit, in lower case.
pub open spec fn hex_char(d: int) -> char {
    if d < 10 {
        (d + 48) as char
    } else {
        (d + 87) as char
    }
}

/// A character inside a JSON string.
pub open spec fn json_char(c: char) -> Seq<char> {
    let u = c as u32;
    if c == '"' {
        seq!['\\', '"']
    } else if c == '\\' {
        seq!['\\', '\\']
    } else if u == 0x8 {
        seq!['\\', 'b']
    } else if u == 0x9 {
        seq!['\\', 't']
    } else if u == 0xa {
        seq!['\\', 'n']
    } else if u == 0xc {
        seq!['\\', 'f']
    } else if u == 0xd {
        seq!['\\', 'r']
    } else if u < 0x20 {
        seq!['\\', 'u', '0', '0', hex_char((u / 16) as int), hex_char((u % 16) as int)]
    } else {
        seq![c]
    }
}

/// The characters of a text inside a JSON string.
pub open spec fn json_chars(s: Seq<char>) -> Seq<char>
    decreases s.len(),
{
    if s.len() == 0 {
        Seq::empty()
    } else {
        json_chars(s.drop_last()) + json_char(s.last())
    }
}

/// A text as a JSON string.
pub open spec fn json_text(s: Seq<char>) -> Seq<char> {
    seq!['"'] + json_chars(s) + seq!['"']
}

/// `serde_json::to_string` on text: it always succeeds, and gives the text in double quotes, with
/// double quotes, backslashes and control characters escaped, the latter as `\b`, `\t`, `\n`, `\f`,
/// `\r` or `\u00` and two lower-case hexadecimal digits.
#[verifier::external_body]
fn json_string(s: &str) -> (r: Option<String>)
    ensures
        r is Some,
        r->0@ == json_text(s@),
{
    serde_json::to_string(s).ok()
}

/// A text as a JSON string.
pub fn esc_json(s: &str) -> (r: String)
    ensures
        r@ == json_text(s@),
{
    match json_string(s) {
        Some(t) => t,
        None => "\"\"".to_owned(),
    }
}

/// What the debug form of a text is: quoted, with escapes for what is not printable.
pub uninterp spec fn debug_text(s: Seq<char>) -> Seq<char>;

/// The debug form of std for text, `{:?}`: quoted and escaped. Which characters it escapes is a
/// table of std and is left unsaid.
#[verifier::external_body]
fn debug_string(s: &str) -> (r: String)
    ensures
        r@ == debug_text(s@),
{
    format!("{:?}", s)
}

/// The debug form of a text.
pub fn debug_form(s: &str) -> (r: String)
    ensures
        r@ == debug_text(s@),
{
    debug_string(s)
}

/// Pieces with a character between each two.
pub open spec fn rejoined(pieces: Seq<Seq<char>>, c: char) -> Seq<char>
    decreases pieces.len(),
{
    if pieces.len() == 0 {
        Seq::empty()
    } else if pieces.len() == 1 {
        pieces[0]
    } else {
        rejoined(pieces.drop_last(), c) + seq![c] + pieces.last()
    }
}

/// Splitting takes a text apart at every occurrence of the character, and loses nothing else: no piece
/// has it, and the pieces with it between them are the text again.
pub proof fn law_split_rejoins(s: Seq<char>, c: char)
    ensures
        split(s, c).len() >= 1,
        rejoined(split(s, c), c) == s,
        forall|i: int| 0 <= i < split(s, c).len() ==> !(#[trigger] split(s, c)[i]).contains(c),
    decreases s.len(),
{
    if s.len() == 0 {
        assert(split(s, c)[0] =~= s);
    } else {
        let init = s.drop_last();
        law_split_rejoins(init, c);
        let a = split(init, c);
        let b = split(s, c);
        if s.last() == c {
            assert(b.drop_last() =~= a);
            assert(rejoined(b, c) =~= rejoined(a, c) + seq![c]);
            assert(rejoined(b, c) =~= s);
        } else {
            let x = a.last().push(s.last());
            assert(b == a.drop_last().push(x));
            assert(b.drop_last() =~= a.drop_last());
            if a.len() == 1 {
                assert(rejoined(b, c) == x);
                assert(a[0] == init);
                assert(x =~= s);
            } else {
                let front = rejoined(a.drop_last(), c) + seq![c];
                assert(init == front + a.last());
                assert(rejoined(b, c) == front + x);
                assert(front + x =~= (front + a.last()).push(s.last()));
                assert(init.push(s.last()) =~= s);
            }
            assert(!x.contains(c)) by {
                if x.contains(c) {
                    let i = choose|i: int| 0 <= i < x.len() && x[i] == c;
                    if i < a.last().len() {
                        assert(a[a.len() - 1].contains(c));
                    }
                }
            }
            assert forall|i: int| 0 <= i < b.len() implies !(#[trigger] b[i]).contains(c) by {
                if i < a.len() - 1 {
                    assert(b[i] == a[i]);
                } else {
                    assert(b[i] == x);
                }
            }
        }
    }
}

/// Trimming takes white space from both ends, all of it, and nothing else.
pub proof fn law_trim_takes_white_space(s: Seq<char>)
    ensures
        ({
            let t = trimmed(s);
            &&& t.len() > 0 ==> !is_space(t[0]) && !is_space(t.last())
            &&& exists|a: int|
                0 <= a <= a + t.len() <= s.len() && #[trigger] s.subrange(a, a + t.len()) == t && (
                forall|i: int|
                    0 <= i < s.len() && (i < a || i >= a + t.len()) ==> is_space(#[trigger] s[i]))
        }),
{
    let u = trim_start(s);
    lemma_trim_start(s);
    lemma_trim_end(u);
    let t = trimmed(s);
    let a = s.len() - u.len();
    assert(s.subrange(a, a + t.len()) =~= t);
    assert forall|i: int| 0 <= i < s.len() && (i < a || i >= a + t.len()) implies is_space(
        #[trigger] s[i],
    ) by {
        if i >= a {
            assert(u[i - a] == s[i]);
        }
    }
    if t.len() > 0 {
        assert(t[0] == u[0]);
    }
}

proof fn lemma_trim_start(s: Seq<char>)
    ensures
        ({
            let u = trim_start(s);
            &&& u.len() <= s.len()
            &&& forall|i: int| 0 <= i < u.len() ==> #[trigger] u[i] == s[s.len() - u.len() + i]
            &&& forall|i: int| 0 <= i < s.len() - u.len() ==> is_space(#[trigger] s[i])
            &&& u.len() > 0 ==> !is_space(u[0])
        }),
    decreases s.len(),
{
    if s.len() > 0 && is_space(s[0]) {
        let r = s.skip(1);
        lemma_trim_start(r);
        assert forall|i: int| 0 < i < s.len() implies #[trigger] s[i] == r[i - 1] by {}
    }
}

proof fn lemma_trim_end(s: Seq<char>)
    ensures
        ({
            let u = trim_end(s);
            &&& u.len() <= s.len()
            &&& forall|i: int| 0 <= i < u.len() ==> #[trigger] u[i] == s[i]
            &&& forall|i: int| u.len() <= i < s.len() ==> is_space(#[trigger] s[i])
            &&& u.len() > 0 ==> !is_space(u.last())
        }),
    decreases s.len(),
{
    if s.len() > 0 && is_space(s.last()) {
        let r = s.drop_last();
        lemma_trim_end(r);
        assert forall|i: int| 0 <= i < r.len() implies #[trigger] s[i] == r[i] by {}
        assert(s[s.len() - 1] == s.last());
    }
}

/// An integer is digits alone, with one sign before them or none: any other character makes a text
/// none, and so does the lack of digits. Each digit counts tenfold what follows it.
pub proof fn law_integer_text(s: Seq<char>, c: char, i: int)
    ensures
        integer(Seq::empty()) is None,
        integer(seq!['-']) is None && integer(seq!['+']) is None,
        0 <= i < s.len() && !is_digit(s[i]) && (i > 0 || (s[i] != '-' && s[i] != '+')) ==> integer(s)
            is None,
        is_number(s) ==> integer(s) == Some(number(s)) && integer(seq!['+'] + s) == Some(number(s))
            && integer(seq!['-'] + s) == Some(-number(s)),
        is_number(s) && is_digit(c) ==> number(s.push(c)) == 10 * number(s) + (c as u32 - '0' as u32),
{
    assert(seq!['-'].skip(1) =~= Seq::empty());
    assert(seq!['+'].skip(1) =~= Seq::empty());
    if 0 < i < s.len() {
        assert(s.skip(1)[i - 1] == s[i]);
    }
    assert((seq!['+'] + s).skip(1) =~= s);
    assert((seq!['-'] + s).skip(1) =~= s);
    assert(s.push(c).drop_last() =~= s);
    if is_number(s) {
        assert(is_digit(s[0]));
    }
}

/// Sized integers are the integers that fit their size; the unsigned ones never have a minus sign.
pub proof fn law_sized_integers(s: Seq<char>, n: int)
    requires
        integer(s) == Some(n),
    ensures
        int64(s) is Some <==> -0x8000_0000_0000_0000 <= n <= 0x7fff_ffff_ffff_ffff,
        int64(s) is Some ==> int64(s)->0 == n,
        uint64(s) is Some <==> s[0] != '-' && n <= 0xffff_ffff_ffff_ffff,
        uint64(s) is Some ==> uint64(s)->0 == n,
        uint32(s) is Some <==> s[0] != '-' && n <= 0xffff_ffff,
        uint32(s) is Some ==> uint32(s)->0 == n,
{
    if s[0] != '-' {
        if s[0] == '+' {
            lemma_number_positive(s.skip(1));
        } else {
            lemma_number_positive(s);
        }
    }
}

} // verus!
