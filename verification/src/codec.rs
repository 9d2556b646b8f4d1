//! The CSV codec: serialization of transactions to comma-separated rows
//! and the strict row-by-row parse that reads them back, with a proved
//! round trip.

use vstd::prelude::*;
use vstd::string::{StrSliceExecFns, StringExecFns};
use crate::types::{AppState, Currency, Date, Transaction, TxView};

verus! {

/// Whether a character never occurs in the sequence.
pub open spec fn avoids(s: Seq<char>, c: char) -> bool {
    forall|i: int| 0 <= i < s.len() ==> s[i] != c
}

/// Whether a character is a decimal digit.
pub open spec fn is_digit(c: char) -> bool {
    '0' <= c <= '9'
}

/// The numeric value of a digit character.
pub open spec fn digit_val(c: char) -> int {
    c as int - '0' as int
}

/// The digit character of a value between zero and nine.
pub open spec fn char_of_digit(d: int) -> char {
    if d == 0 {
        '0'
    } else if d == 1 {
        '1'
    } else if d == 2 {
        '2'
    } else if d == 3 {
        '3'
    } else if d == 4 {
        '4'
    } else if d == 5 {
        '5'
    } else if d == 6 {
        '6'
    } else if d == 7 {
        '7'
    } else if d == 8 {
        '8'
    } else {
        '9'
    }
}

/// Reading a digit back gives the value it was written from.
pub proof fn lemma_digit_round_trip(d: int)
    requires
        0 <= d <= 9,
    ensures
        is_digit(char_of_digit(d)),
        digit_val(char_of_digit(d)) == d,
{
}

/// Whether every character of the sequence is a decimal digit.
pub open spec fn all_digits(s: Seq<char>) -> bool {
    forall|i: int| 0 <= i < s.len() ==> is_digit(#[trigger] s[i])
}

/// The decimal digits of a natural number, most significant first.
pub open spec fn dec_digits(n: nat) -> Seq<char>
    decreases n,
{
    if n < 10 {
        seq![char_of_digit(n as int)]
    } else {
        dec_digits(n / 10).push(char_of_digit((n % 10) as int))
    }
}

/// The value of a sequence of digit characters.
pub open spec fn digits_val(s: Seq<char>) -> int
    decreases s.len(),
{
    if s.len() == 0 {
        0
    } else {
        digits_val(s.drop_last()) * 10 + digit_val(s.last())
    }
}

/// The written digits of a number are digits and read back to it.
pub proof fn lemma_dec_digits(n: nat)
    ensures
        dec_digits(n).len() >= 1,
        all_digits(dec_digits(n)),
        digits_val(dec_digits(n)) == n,
    decreases n,
{
    if n < 10 {
        lemma_digit_round_trip(n as int);
        let s = dec_digits(n);
        assert(s.drop_last() =~= Seq::<char>::empty());
        assert(digits_val(s.drop_last()) == 0);
        assert(digits_val(s) == digit_val(char_of_digit(n as int)));
    } else {
        lemma_dec_digits(n / 10);
        lemma_digit_round_trip((n % 10) as int);
        let s = dec_digits(n);
        assert(s.drop_last() =~= dec_digits(n / 10));
        assert(s.last() == char_of_digit((n % 10) as int));
        assert(digits_val(s) == digits_val(dec_digits(n / 10)) * 10 + digit_val(
            char_of_digit((n % 10) as int),
        ));
        assert(digits_val(s) == (n / 10) * 10 + (n % 10));
        assert((n / 10) * 10 + (n % 10) == n);
        assert forall|i: int| 0 <= i < s.len() implies is_digit(#[trigger] s[i]) by {
            if i < s.len() - 1 {
                assert(s[i] == dec_digits(n / 10)[i]);
            }
        };
    }
}

/// A value never shrinks when more digits follow.
pub proof fn lemma_digits_val_prefix(s: Seq<char>, i: int)
    requires
        0 <= i <= s.len(),
        all_digits(s),
    ensures
        0 <= digits_val(s.subrange(0, i)) <= digits_val(s),
    decreases s.len() - i,
{
    if i == s.len() {
        assert(s.subrange(0, i) =~= s);
        lemma_digits_val_nonneg(s);
    } else {
        lemma_digits_val_prefix(s, i + 1);
        let p = s.subrange(0, i);
        let q = s.subrange(0, i + 1);
        assert(q.drop_last() =~= p);
        assert(q.last() == s[i]);
        lemma_digits_val_nonneg(p);
    }
}

/// A digit string's value is not negative.
pub proof fn lemma_digits_val_nonneg(s: Seq<char>)
    requires
        all_digits(s),
    ensures
        digits_val(s) >= 0,
    decreases s.len(),
{
    if s.len() > 0 {
        assert(all_digits(s.drop_last())) by {
            assert(forall|i: int|
                0 <= i < s.len() - 1 ==> s.drop_last()[i] == #[trigger] s[i]);
        }
        lemma_digits_val_nonneg(s.drop_last());
        assert(is_digit(s[s.len() - 1]));
    }
}

/// The digit character of a value below ten.
fn digit_str(d: u64) -> (r: &'static str)
    requires
        d < 10,
    ensures
        r@ =~= seq![char_of_digit(d as int)],
{
    proof {
        reveal_strlit("0");
        reveal_strlit("1");
        reveal_strlit("2");
        reveal_strlit("3");
        reveal_strlit("4");
        reveal_strlit("5");
        reveal_strlit("6");
        reveal_strlit("7");
        reveal_strlit("8");
        reveal_strlit("9");
    }
    if d == 0 {
        "0"
    } else if d == 1 {
        "1"
    } else if d == 2 {
        "2"
    } else if d == 3 {
        "3"
    } else if d == 4 {
        "4"
    } else if d == 5 {
        "5"
    } else if d == 6 {
        "6"
    } else if d == 7 {
        "7"
    } else if d == 8 {
        "8"
    } else {
        "9"
    }
}

/// The decimal digits of a number, as a string.
fn fmt_u64(n: u64) -> (r: String)
    ensures
        r@ == dec_digits(n as nat),
    decreases n,
{
    if n < 10 {
        String::from_str(digit_str(n))
    } else {
        let mut r = fmt_u64(n / 10);
        r.append(digit_str(n % 10));
        proof {
            assert(r@ =~= dec_digits((n / 10) as nat).push(char_of_digit((n % 10) as int)));
        }
        r
    }
}

/// The two-digit rendering of a value below one hundred.
pub open spec fn two_digits(n: int) -> Seq<char> {
    seq![char_of_digit(n / 10), char_of_digit(n % 10)]
}

/// The four-digit rendering of a value below ten thousand.
pub open spec fn four_digits(n: int) -> Seq<char> {
    seq![
        char_of_digit(n / 1000),
        char_of_digit((n / 100) % 10),
        char_of_digit((n / 10) % 10),
        char_of_digit(n % 10),
    ]
}

/// A calendar day in its dashed form: four digits, two and two.
pub open spec fn spec_format_date(d: Date) -> Seq<char> {
    four_digits(d.year as int) + seq!['-'] + two_digits(d.month as int) + seq!['-'] + two_digits(
        d.day as int,
    )
}

/// The date a dashed ten-character form denotes, if it is one.
pub open spec fn spec_parse_date(s: Seq<char>) -> Option<Date> {
    if s.len() == 10 && is_digit(s[0]) && is_digit(s[1]) && is_digit(s[2]) && is_digit(s[3])
        && s[4] == '-' && is_digit(s[5]) && is_digit(s[6]) && s[7] == '-' && is_digit(s[8])
        && is_digit(s[9]) {
        let y = digit_val(s[0]) * 1000 + digit_val(s[1]) * 100 + digit_val(s[2]) * 10 + digit_val(
            s[3],
        );
        let m = digit_val(s[5]) * 10 + digit_val(s[6]);
        let d = digit_val(s[8]) * 10 + digit_val(s[9]);
        let date = Date { year: y as u32, month: m as u32, day: d as u32 };
        if date.valid() {
            Some(date)
        } else {
            None
        }
    } else {
        None
    }
}

/// Reading a written date back gives the date it was written from.
#[verifier::rlimit(50)]
pub proof fn lemma_date_round_trip(d: Date)
    requires
        d.valid(),
    ensures
        spec_parse_date(spec_format_date(d)) == Some(d),
{
    let s = spec_format_date(d);
    let y = d.year as int;
    let m = d.month as int;
    let dd = d.day as int;
    assert(s =~= seq![
        char_of_digit(y / 1000),
        char_of_digit((y / 100) % 10),
        char_of_digit((y / 10) % 10),
        char_of_digit(y % 10),
        '-',
        char_of_digit(m / 10),
        char_of_digit(m % 10),
        '-',
        char_of_digit(dd / 10),
        char_of_digit(dd % 10),
    ]);
    lemma_digit_round_trip(y / 1000);
    lemma_digit_round_trip((y / 100) % 10);
    lemma_digit_round_trip((y / 10) % 10);
    lemma_digit_round_trip(y % 10);
    lemma_digit_round_trip(m / 10);
    lemma_digit_round_trip(m % 10);
    lemma_digit_round_trip(dd / 10);
    lemma_digit_round_trip(dd % 10);
    assert((y / 1000) * 1000 + ((y / 100) % 10) * 100 + ((y / 10) % 10) * 10 + y % 10 == y);
    assert((m / 10) * 10 + m % 10 == m);
    assert((dd / 10) * 10 + dd % 10 == dd);
}

/// A date in its dashed form.
pub fn format_date(d: &Date) -> (r: String)
    requires
        d.valid(),
    ensures
        r@ == spec_format_date(*d),
{
    let y = d.year as u64;
    let m = d.month as u64;
    let dd = d.day as u64;
    let mut r = String::from_str(digit_str(y / 1000));
    r.append(digit_str((y / 100) % 10));
    r.append(digit_str((y / 10) % 10));
    r.append(digit_str(y % 10));
    r.append("-");
    r.append(digit_str(m / 10));
    r.append(digit_str(m % 10));
    r.append("-");
    r.append(digit_str(dd / 10));
    r.append(digit_str(dd % 10));
    proof {
        reveal_strlit("-");
        assert(r@ =~= spec_format_date(*d));
    }
    r
}

/// The date a string denotes, if it is a dashed calendar day.
pub fn parse_date(s: &str) -> (r: Option<Date>)
    ensures
        r == spec_parse_date(s@),
{
    if s.unicode_len() != 10 {
        return None;
    }
    if s.get_char(4) != '-' || s.get_char(7) != '-' {
        return None;
    }
    let y0 = match digit_of(s.get_char(0)) {
        Some(v) => v,
        None => { return None },
    };
    let y1 = match digit_of(s.get_char(1)) {
        Some(v) => v,
        None => { return None },
    };
    let y2 = match digit_of(s.get_char(2)) {
        Some(v) => v,
        None => { return None },
    };
    let y3 = match digit_of(s.get_char(3)) {
        Some(v) => v,
        None => { return None },
    };
    let m0 = match digit_of(s.get_char(5)) {
        Some(v) => v,
        None => { return None },
    };
    let m1 = match digit_of(s.get_char(6)) {
        Some(v) => v,
        None => { return None },
    };
    let d0 = match digit_of(s.get_char(8)) {
        Some(v) => v,
        None => { return None },
    };
    let d1 = match digit_of(s.get_char(9)) {
        Some(v) => v,
        None => { return None },
    };
    let y = y0 * 1000 + y1 * 100 + y2 * 10 + y3;
    let m = m0 * 10 + m1;
    let d = d0 * 10 + d1;
    Date::new(y, m, d)
}

/// The numeric value of a digit character, if it is one.
fn digit_of(c: char) -> (r: Option<u32>)
    ensures
        r == if is_digit(c) {
            Some(digit_val(c) as u32)
        } else {
            None::<u32>
        },
{
    if '0' <= c && c <= '9' {
        Some((c as u32) - ('0' as u32))
    } else {
        None
    }
}

/// The position of the first occurrence of a character, or minus one.
pub open spec fn first_index_of(s: Seq<char>, c: char) -> int
    decreases s.len(),
{
    if s.len() == 0 {
        -1
    } else if s[0] == c {
        0
    } else {
        let r = first_index_of(s.drop_first(), c);
        if r == -1 {
            -1
        } else {
            r + 1
        }
    }
}

/// The first occurrence is where the first occurrence stands.
pub proof fn lemma_first_index_is(s: Seq<char>, c: char, p: int)
    requires
        0 <= p < s.len(),
        s[p] == c,
        forall|i: int| 0 <= i < p ==> s[i] != c,
    ensures
        first_index_of(s, c) == p,
    decreases p,
{
    if p > 0 {
        assert(s[0] != c);
        let t = s.drop_first();
        assert(t[p - 1] == s[p]);
        assert forall|i: int| 0 <= i < p - 1 implies t[i] != c by {
            assert(t[i] == s[i + 1]);
        };
        lemma_first_index_is(t, c, p - 1);
    }
}

/// A character that never occurs has no first occurrence.
pub proof fn lemma_first_index_none(s: Seq<char>, c: char)
    requires
        forall|i: int| 0 <= i < s.len() ==> s[i] != c,
    ensures
        first_index_of(s, c) == -1,
    decreases s.len(),
{
    if s.len() > 0 {
        let t = s.drop_first();
        assert forall|i: int| 0 <= i < t.len() implies t[i] != c by {
            assert(t[i] == s[i + 1]);
        };
        lemma_first_index_none(t, c);
    }
}

/// In `a`, then `c`, then `b`, the first `c` stands right after `a` when
/// `a` holds none.
pub proof fn lemma_first_index_concat(a: Seq<char>, b: Seq<char>, c: char)
    requires
        forall|i: int| 0 <= i < a.len() ==> a[i] != c,
    ensures
        first_index_of(a + seq![c] + b, c) == a.len(),
{
    let s = a + seq![c] + b;
    assert(s[a.len() as int] == c);
    assert forall|i: int| 0 <= i < a.len() implies s[i] != c by {
        assert(s[i] == a[i]);
    };
    lemma_first_index_is(s, c, a.len() as int);
}

/// The magnitude, in hundredths, of an unsigned decimal numeral with an
/// optional fraction of one or two digits.
pub open spec fn amount_mag(body: Seq<char>) -> Option<int> {
    let dot = first_index_of(body, '.');
    if dot == -1 {
        if body.len() >= 1 && all_digits(body) {
            Some(digits_val(body) * 100)
        } else {
            None
        }
    } else {
        let ip = body.subrange(0, dot);
        let fp = body.subrange(dot + 1, body.len() as int);
        if ip.len() >= 1 && all_digits(ip) && 1 <= fp.len() <= 2 && all_digits(fp) {
            Some(
                digits_val(ip) * 100 + digits_val(fp) * (if fp.len() == 1 {
                    10int
                } else {
                    1int
                }),
            )
        } else {
            None
        }
    }
}

/// The signed amount, in hundredths, that a decimal string denotes — if
/// it is well formed and the value fits a 64-bit signed count of
/// hundredths.
pub open spec fn spec_parse_amount(s: Seq<char>) -> Option<int> {
    let neg = s.len() > 0 && s[0] == '-';
    let body = if neg {
        s.drop_first()
    } else {
        s
    };
    match amount_mag(body) {
        Some(m) => {
            let v = if neg {
                -m
            } else {
                m
            };
            if i64::MIN <= v <= i64::MAX {
                Some(v)
            } else {
                None
            }
        },
        None => None,
    }
}

/// An amount in hundredths as a decimal string with exactly two fraction
/// digits.
pub open spec fn spec_format_amount(v: int) -> Seq<char> {
    let mag = if v < 0 {
        -v
    } else {
        v
    };
    let sign: Seq<char> = if v < 0 {
        seq!['-']
    } else {
        Seq::empty()
    };
    sign + dec_digits((mag / 100) as nat) + seq!['.'] + two_digits(mag % 100)
}

/// Two digits read back as the value they were written from.
pub proof fn lemma_two_digits_val(x: int)
    requires
        0 <= x < 100,
    ensures
        two_digits(x).len() == 2,
        all_digits(two_digits(x)),
        digits_val(two_digits(x)) == x,
{
    lemma_digit_round_trip(x / 10);
    lemma_digit_round_trip(x % 10);
    let s = two_digits(x);
    let hd = seq![char_of_digit(x / 10)];
    assert(s.drop_last() =~= hd);
    assert(hd.drop_last() =~= Seq::<char>::empty());
    assert(digits_val(Seq::<char>::empty()) == 0);
    assert(digits_val(hd) == digit_val(char_of_digit(x / 10)));
    assert(s.last() == char_of_digit(x % 10));
    assert(digits_val(s) == digits_val(hd) * 10 + digit_val(char_of_digit(x % 10)));
}

/// Reading a written amount back gives the value it was written from.
pub proof fn lemma_amount_round_trip(v: int)
    requires
        i64::MIN <= v <= i64::MAX,
    ensures
        spec_parse_amount(spec_format_amount(v)) == Some(v),
{
    let mag = if v < 0 {
        -v
    } else {
        v
    };
    let ipn = (mag / 100) as nat;
    let fr = mag % 100;
    lemma_dec_digits(ipn);
    lemma_two_digits_val(fr);
    let ip = dec_digits(ipn);
    let fp = two_digits(fr);
    let body = ip + seq!['.'] + fp;
    let s = spec_format_amount(v);
    assert forall|i: int| 0 <= i < ip.len() implies ip[i] != '.' by {
        assert(is_digit(ip[i]));
    };
    lemma_first_index_concat(ip, fp, '.');
    assert(body.subrange(0, ip.len() as int) =~= ip);
    assert(body.subrange(ip.len() as int + 1, body.len() as int) =~= fp);
    assert(amount_mag(body) == Some(digits_val(ip) * 100 + digits_val(fp)));
    assert(digits_val(ip) * 100 + digits_val(fp) == (mag / 100) * 100 + mag % 100);
    if v < 0 {
        assert(s =~= seq!['-'] + body);
        assert(s[0] == '-');
        assert(s.drop_first() =~= body);
    } else {
        assert(s =~= body);
        assert(s[0] == ip[0]);
        assert(is_digit(s[0]));
        assert(s[0] != '-');
    }
}

/// An amount of hundredths as a decimal string, such as `-3.50`.
pub fn format_amount(v: i64) -> (r: String)
    ensures
        r@ == spec_format_amount(v as int),
{
    let mag: u64 = if v < 0 {
        (-(v as i128)) as u64
    } else {
        v as u64
    };
    let mut r = String::new();
    if v < 0 {
        r.append("-");
    }
    let ip = fmt_u64(mag / 100);
    r.append(ip.as_str());
    r.append(".");
    r.append(digit_str((mag % 100) / 10));
    r.append(digit_str(mag % 10));
    proof {
        reveal_strlit("-");
        reveal_strlit(".");
        assert((mag % 100) % 10 == mag % 10);
        assert(r@ =~= spec_format_amount(v as int));
    }
    r
}

/// The value of the digit characters between two positions, up to a cap
/// past which no amount can fit.
fn digits_value(s: &str, from: usize, to: usize) -> (r: Option<u128>)
    requires
        from <= to <= s@.len(),
    ensures
        r matches Some(v) ==> all_digits(s@.subrange(from as int, to as int)) && v == digits_val(
            s@.subrange(from as int, to as int),
        ) && v <= 0x1_0000_0000_0000_0000u128,
        r is None ==> !all_digits(s@.subrange(from as int, to as int)) || digits_val(
            s@.subrange(from as int, to as int),
        ) > 0x1_0000_0000_0000_0000u128,
{
    let ghost win = s@.subrange(from as int, to as int);
    let mut acc: u128 = 0;
    let mut j: usize = from;
    while j < to
        invariant
            from <= j <= to <= s@.len(),
            win == s@.subrange(from as int, to as int),
            all_digits(win.subrange(0, j - from)),
            acc == digits_val(win.subrange(0, j - from)),
            acc <= 0x1_0000_0000_0000_0000u128,
        decreases to - j,
    {
        let ghost pre = win.subrange(0, j - from);
        let c = s.get_char(j);
        proof {
            assert(win[j - from] == c);
        }
        let d = match digit_of(c) {
            Some(d) => d,
            None => {
                proof {
                    assert(!is_digit(win[j - from]));
                }
                return None;
            },
        };
        acc = acc * 10 + (d as u128);
        proof {
            assert(win.subrange(0, j + 1 - from).drop_last() =~= pre);
            assert(win.subrange(0, j + 1 - from).last() == win[j - from]);
            assert forall|i: int|
                0 <= i < j + 1 - from implies is_digit(
                #[trigger] win.subrange(0, j + 1 - from)[i]) by {
                if i < j - from {
                    assert(win.subrange(0, j + 1 - from)[i] == pre[i]);
                }
            };
        }
        j = j + 1;
        if acc > 0x1_0000_0000_0000_0000u128 {
            proof {
                if all_digits(win) {
                    lemma_digits_val_prefix(win, j - from);
                    assert(win.subrange(0, win.len() as int) =~= win);
                }
            }
            return None;
        }
    }
    proof {
        assert(win.subrange(0, win.len() as int) =~= win);
    }
    Some(acc)
}

/// The option with its value as a 64-bit amount of hundredths.
pub open spec fn amount_opt_i64(o: Option<int>) -> Option<i64> {
    match o {
        Some(v) => Some(v as i64),
        None => None,
    }
}

/// The signed amount of hundredths a decimal string denotes, if it is
/// well formed and fits.
pub fn parse_amount(s: &str) -> (r: Option<i64>)
    ensures
        r == amount_opt_i64(spec_parse_amount(s@)),
{
    let n = s.unicode_len();
    let neg = n > 0 && s.get_char(0) == '-';
    let start: usize = if neg {
        1
    } else {
        0
    };
    let ghost body = s@.subrange(start as int, n as int);
    proof {
        if neg {
            assert(body =~= s@.drop_first());
        } else {
            assert(body =~= s@);
        }
    }
    // find the first dot of the body
    let mut dot: usize = n;
    let mut j: usize = start;
    while j < n
        invariant
            start <= j <= n,
            n == s@.len(),
            dot == n,
            forall|i: int| start <= i < j ==> s@[i] != '.',
        ensures
            start <= j <= n,
            forall|i: int| start <= i < j ==> s@[i] != '.',
            j < n ==> s@[j as int] == '.',
            dot == n,
        decreases n - j,
    {
        if s.get_char(j) == '.' {
            break ;
        }
        j = j + 1;
    }
    let has_dot = j < n;
    let dot = j;
    proof {
        if has_dot {
            assert(body[dot - start] == '.');
            assert forall|i: int| 0 <= i < dot - start implies body[i] != '.' by {
                assert(body[i] == s@[start + i]);
            };
            lemma_first_index_is(body, '.', dot - start);
        } else {
            assert forall|i: int| 0 <= i < body.len() implies body[i] != '.' by {
                assert(body[i] == s@[start + i]);
            };
            lemma_first_index_none(body, '.');
        }
    }
    let mag: u128;
    if !has_dot {
        if n == start {
            return None;
        }
        let v = match digits_value(s, start, n) {
            Some(v) => v,
            None => {
                proof {
                    assert(body =~= s@.subrange(start as int, n as int));
                    if all_digits(body) {
                        lemma_digits_val_nonneg(body);
                    }
                }
                return None;
            },
        };
        proof {
            assert(body =~= s@.subrange(start as int, n as int));
        }
        mag = v * 100;
    } else {
        if dot == start {
            return None;
        }
        let fplen = n - dot - 1;
        if fplen < 1 || fplen > 2 {
            return None;
        }
        let ipv = match digits_value(s, start, dot) {
            Some(v) => v,
            None => {
                proof {
                    let ip = body.subrange(0, dot - start);
                    let fp = body.subrange(dot - start + 1, body.len() as int);
                    assert(ip =~= s@.subrange(start as int, dot as int));
                    if all_digits(ip) {
                        lemma_digits_val_nonneg(ip);
                        if all_digits(fp) {
                            lemma_digits_val_nonneg(fp);
                        }
                    }
                }
                return None;
            },
        };
        let fpv = match digits_value(s, dot + 1, n) {
            Some(v) => v,
            None => {
                proof {
                    let ip = body.subrange(0, dot - start);
                    let fp = body.subrange(dot - start + 1, body.len() as int);
                    assert(ip =~= s@.subrange(start as int, dot as int));
                    lemma_digits_val_nonneg(ip);
                    if all_digits(fp) {
                        lemma_digits_val_nonneg(fp);
                    }
                    assert(fp =~= s@.subrange(
                        dot as int + 1,
                        n as int,
                    ));
                }
                return None;
            },
        };
        proof {
            assert(body.subrange(0, dot - start) =~= s@.subrange(start as int, dot as int));
            assert(body.subrange(dot - start + 1, body.len() as int) =~= s@.subrange(
                dot as int + 1,
                n as int,
            ));
            lemma_digits_val_nonneg(s@.subrange(dot as int + 1, n as int));
        }
        mag = ipv * 100 + fpv * (if fplen == 1 {
            10
        } else {
            1
        });
    }
    if neg {
        if mag > 0x8000_0000_0000_0000u128 {
            return None;
        }
        if mag == 0x8000_0000_0000_0000u128 {
            Some(i64::MIN)
        } else {
            Some(-(mag as i64))
        }
    } else {
        if mag > i64::MAX as u128 {
            return None;
        }
        Some(mag as i64)
    }
}

/// The characters `true` and `false` print as.
pub open spec fn bool_chars(b: bool) -> Seq<char> {
    if b {
        "true"@
    } else {
        "false"@
    }
}

/// The boolean a string denotes, if it is `true` or `false`.
pub open spec fn spec_parse_bool(s: Seq<char>) -> Option<bool> {
    if s == "true"@ {
        Some(true)
    } else if s == "false"@ {
        Some(false)
    } else {
        None
    }
}

/// Reading a written boolean back gives the value it was written from.
pub proof fn lemma_bool_round_trip(b: bool)
    ensures
        spec_parse_bool(bool_chars(b)) == Some(b),
{
    reveal_strlit("true");
    reveal_strlit("false");
    assert("true"@.len() == 4);
    assert("false"@.len() == 5);
}

/// A boolean as `true` or `false`.
pub fn format_bool(b: bool) -> (r: &'static str)
    ensures
        r@ == bool_chars(b),
{
    if b {
        "true"
    } else {
        "false"
    }
}

/// The boolean a string denotes, if any.
pub fn parse_bool(s: &str) -> (r: Option<bool>)
    ensures
        r == spec_parse_bool(s@),
{
    if crate::text::str_eq(s, "true") {
        Some(true)
    } else if crate::text::str_eq(s, "false") {
        proof {
            reveal_strlit("true");
            reveal_strlit("false");
        }
        Some(false)
    } else {
        None
    }
}

/// The currency a three-letter code denotes, if any.
pub open spec fn spec_parse_currency(s: Seq<char>) -> Option<Currency> {
    if s == Currency::USD.spec_code() {
        Some(Currency::USD)
    } else if s == Currency::EUR.spec_code() {
        Some(Currency::EUR)
    } else if s == Currency::GBP.spec_code() {
        Some(Currency::GBP)
    } else if s == Currency::JPY.spec_code() {
        Some(Currency::JPY)
    } else if s == Currency::CHF.spec_code() {
        Some(Currency::CHF)
    } else {
        None
    }
}

/// Reading a written code back gives the currency it was written from.
pub proof fn lemma_currency_round_trip(c: Currency)
    ensures
        spec_parse_currency(c.spec_code()) == Some(c),
{
}

/// Whether a field must be quoted to survive a CSV round trip: it
/// holds a separator, a quote or a line break.
pub open spec fn needs_quote(s: Seq<char>) -> bool {
    !(avoids(s, ',') && avoids(s, '"') && avoids(s, '\r') && avoids(s, '\n'))
}

/// The field text with every quote doubled.
pub open spec fn double_quotes(s: Seq<char>) -> Seq<char>
    decreases s.len(),
{
    if s.len() == 0 {
        Seq::empty()
    } else if s[0] == '"' {
        seq!['"', '"'] + double_quotes(s.drop_first())
    } else {
        seq![s[0]] + double_quotes(s.drop_first())
    }
}

/// Doubling distributes over concatenation.
proof fn lemma_double_quotes_concat(a: Seq<char>, b: Seq<char>)
    ensures
        double_quotes(a + b) == double_quotes(a) + double_quotes(b),
    decreases a.len(),
{
    if a.len() == 0 {
        assert(a + b =~= b);
        assert(double_quotes(a) + double_quotes(b) =~= double_quotes(b));
    } else {
        assert((a + b)[0] == a[0]);
        assert((a + b).drop_first() =~= a.drop_first() + b);
        lemma_double_quotes_concat(a.drop_first(), b);
        assert(double_quotes(a + b) =~= double_quotes(a) + double_quotes(b));
    }
}

/// A field as it stands in a row: as it is where that is harmless, and
/// in doubled-quote form between quotes where it holds a separator, a
/// quote or a line break.
#[verifier::opaque]
pub open spec fn spec_encode_field(s: Seq<char>) -> Seq<char> {
    if needs_quote(s) {
        seq!['"'] + double_quotes(s) + seq!['"']
    } else {
        s
    }
}

/// One record's characters consumed left to right: `cur` is the field
/// being read, `fields` the fields already read, `inq` whether the
/// reader stands between quotes. A quote opens a field; a doubled quote
/// between quotes reads as one quote; a separator ends a field; a line
/// break — bare or preceded by a carriage return — or the end of the
/// text ends the record, and the rest of the text is handed back.
pub open spec fn scan(s: Seq<char>, cur: Seq<char>, fields: Seq<Seq<char>>, inq: bool) -> (
    Seq<Seq<char>>,
    Seq<char>,
)
    decreases s.len(),
{
    if s.len() == 0 {
        (fields.push(cur), Seq::empty())
    } else if inq {
        if s[0] == '"' {
            if s.len() >= 2 && s[1] == '"' {
                scan(s.skip(2), cur.push('"'), fields, true)
            } else {
                scan(s.drop_first(), cur, fields, false)
            }
        } else {
            scan(s.drop_first(), cur.push(s[0]), fields, true)
        }
    } else if s[0] == ',' {
        scan(s.drop_first(), Seq::empty(), fields.push(cur), false)
    } else if s[0] == '\n' {
        (fields.push(cur), s.drop_first())
    } else if s[0] == '\r' {
        if s.len() >= 2 && s[1] == '\n' {
            (fields.push(cur), s.skip(2))
        } else {
            (fields.push(cur), s.drop_first())
        }
    } else if s[0] == '"' && cur.len() == 0 {
        scan(s.drop_first(), cur, fields, true)
    } else {
        scan(s.drop_first(), cur.push(s[0]), fields, false)
    }
}

/// The fields of the first record of a text, and what follows it.
pub open spec fn parse_record(s: Seq<char>) -> (Seq<Seq<char>>, Seq<char>) {
    scan(s, Seq::empty(), Seq::empty(), false)
}

/// Scanning consumes at least the record's terminator.
proof fn lemma_scan_rest(s: Seq<char>, cur: Seq<char>, fields: Seq<Seq<char>>, inq: bool)
    ensures
        scan(s, cur, fields, inq).1.len() <= s.len(),
        s.len() > 0 ==> scan(s, cur, fields, inq).1.len() < s.len(),
    decreases s.len(),
{
    if s.len() > 0 {
        if inq {
            if s[0] == '"' {
                if s.len() >= 2 && s[1] == '"' {
                    lemma_scan_rest(s.skip(2), cur.push('"'), fields, true);
                } else {
                    lemma_scan_rest(s.drop_first(), cur, fields, false);
                }
            } else {
                lemma_scan_rest(s.drop_first(), cur.push(s[0]), fields, true);
            }
        } else if s[0] == ',' {
            lemma_scan_rest(s.drop_first(), Seq::empty(), fields.push(cur), false);
        } else if s[0] == '\n' || s[0] == '\r' {
        } else if s[0] == '"' && cur.len() == 0 {
            lemma_scan_rest(s.drop_first(), cur, fields, true);
        } else {
            lemma_scan_rest(s.drop_first(), cur.push(s[0]), fields, false);
        }
    }
}

/// A record that came from an empty line: one empty field.
pub open spec fn is_blank(fields: Seq<Seq<char>>) -> bool {
    fields.len() == 1 && fields[0].len() == 0
}

/// The records of a text, in order, with the records of empty lines
/// skipped.
pub open spec fn csv_records(s: Seq<char>) -> Seq<Seq<Seq<char>>>
    decreases s.len(),
    via csv_records_dec
{
    if s.len() == 0 {
        Seq::empty()
    } else {
        let r = parse_record(s);
        if is_blank(r.0) {
            csv_records(r.1)
        } else {
            seq![r.0] + csv_records(r.1)
        }
    }
}

#[via_fn]
proof fn csv_records_dec(s: Seq<char>) {
    if s.len() > 0 {
        lemma_scan_rest(s, Seq::empty(), Seq::empty(), false);
    }
}

/// The data records of a file: every record but the first, which is
/// always taken for the header.
pub open spec fn csv_data_records(text: Seq<char>) -> Seq<Seq<Seq<char>>> {
    let rs = csv_records(text);
    if rs.len() == 0 {
        Seq::empty()
    } else {
        rs.drop_first()
    }
}

/// The header row that every exported file starts with.
pub open spec fn csv_header() -> Seq<char> {
    "date,description,amount,currency,category,recurring"@
}

/// The fields the header row scans into.
pub open spec fn header_fields() -> Seq<Seq<char>> {
    seq!["date"@, "description"@, "amount"@, "currency"@, "category"@, "recurring"@]
}

/// The six fields of one transaction's row, in column order, before
/// quoting: date, description, amount, currency code, category,
/// recurring flag.
pub open spec fn row_fields(t: TxView) -> Seq<Seq<char>> {
    seq![
        spec_format_date(t.date),
        t.description,
        spec_format_amount(t.amount),
        t.currency.spec_code(),
        t.category,
        bool_chars(t.recurring),
    ]
}

/// One transaction as a comma-separated row, each field quoted where it
/// must be.
pub open spec fn format_row(t: TxView) -> Seq<char> {
    spec_encode_field(spec_format_date(t.date)) + seq![','] + spec_encode_field(t.description)
        + seq![','] + spec_encode_field(spec_format_amount(t.amount)) + seq![',']
        + spec_encode_field(t.currency.spec_code()) + seq![','] + spec_encode_field(t.category)
        + seq![','] + spec_encode_field(bool_chars(t.recurring))
}

/// Why an import stops: a row with the wrong number of fields, or a
/// date, amount or recurring flag that does not parse. An unknown
/// currency code is no error: it falls back to USD.
#[derive(Clone, Copy, Debug, PartialEq, Eq, Structural)]
pub enum ImportError {
    FieldCount,
    BadDate,
    BadAmount,
    BadRecurring,
}

/// The transaction a record's fields denote, or the first reason they
/// do not: field count, then date, then amount, then recurring flag.
pub open spec fn spec_parse_row(fs: Seq<Seq<char>>) -> Result<TxView, ImportError> {
    if fs.len() != 6 {
        Err(ImportError::FieldCount)
    } else {
        match spec_parse_date(fs[0]) {
            None => Err(ImportError::BadDate),
            Some(date) => match spec_parse_amount(fs[2]) {
                None => Err(ImportError::BadAmount),
                Some(amount) => match spec_parse_bool(fs[5]) {
                    None => Err(ImportError::BadRecurring),
                    Some(recurring) => {
                        let currency = match spec_parse_currency(fs[3]) {
                            Some(c) => c,
                            None => Currency::USD,
                        };
                        Ok(
                            TxView {
                                date,
                                description: fs[1],
                                amount,
                                category: fs[4],
                                recurring,
                                currency,
                            },
                        )
                    },
                },
            },
        }
    }
}

/// What importing a list of records does: the transactions of the
/// longest prefix of records that parse, and the position and reason of
/// the first record that does not.
pub open spec fn import_rows(records: Seq<Seq<Seq<char>>>, idx: int) -> (Seq<TxView>, Option<
    (int, ImportError),
>)
    decreases records.len(),
{
    if records.len() == 0 {
        (Seq::empty(), None)
    } else {
        match spec_parse_row(records[0]) {
            Ok(t) => {
                let r = import_rows(records.drop_first(), idx + 1);
                (seq![t] + r.0, r.1)
            },
            Err(e) => (Seq::empty(), Some((idx, e))),
        }
    }
}

/// What importing a file does to the transaction list.
pub open spec fn spec_import(text: Seq<char>) -> (Seq<TxView>, Option<(int, ImportError)>) {
    import_rows(csv_data_records(text), 0)
}

/// The text an exported ledger consists of: the header line, then one
/// row per transaction, each line ending in a newline.
pub open spec fn rows_text(ts: Seq<TxView>) -> Seq<char>
    decreases ts.len(),
{
    if ts.len() == 0 {
        Seq::empty()
    } else {
        rows_text(ts.drop_last()) + format_row(ts.last()) + seq!['\n']
    }
}

/// The full exported file.
pub open spec fn spec_export(ts: Seq<TxView>) -> Seq<char> {
    csv_header() + seq!['\n'] + rows_text(ts)
}

impl Currency {
    /// The currency of a three-letter code, if the code is known.
    pub fn from_code(s: &str) -> (r: Option<Currency>)
        ensures
            r == spec_parse_currency(s@),
    {
        proof {
            reveal_strlit("USD");
            reveal_strlit("EUR");
            reveal_strlit("GBP");
            reveal_strlit("JPY");
            reveal_strlit("CHF");
            assert("USD"@ =~= Currency::USD.spec_code());
            assert("EUR"@ =~= Currency::EUR.spec_code());
            assert("GBP"@ =~= Currency::GBP.spec_code());
            assert("JPY"@ =~= Currency::JPY.spec_code());
            assert("CHF"@ =~= Currency::CHF.spec_code());
        }
        if crate::text::str_eq(s, "USD") {
            Some(Currency::USD)
        } else if crate::text::str_eq(s, "EUR") {
            Some(Currency::EUR)
        } else if crate::text::str_eq(s, "GBP") {
            Some(Currency::GBP)
        } else if crate::text::str_eq(s, "JPY") {
            Some(Currency::JPY)
        } else if crate::text::str_eq(s, "CHF") {
            Some(Currency::CHF)
        } else {
            None
        }
    }
}

/// Whether a field must be quoted on export.
fn needs_quoting(s: &str) -> (r: bool)
    ensures
        r == needs_quote(s@),
{
    let n = s.unicode_len();
    let mut i: usize = 0;
    while i < n
        invariant
            n == s@.len(),
            i <= n,
            forall|j: int|
                0 <= j < i ==> s@[j] != ',' && s@[j] != '"' && s@[j] != '\r' && s@[j] != '\n',
        decreases n - i,
    {
        let c = s.get_char(i);
        if c == ',' || c == '"' || c == '\r' || c == '\n' {
            return true;
        }
        i = i + 1;
    }
    false
}

/// A field as it stands in a row, quoted and doubled where it must be.
pub fn encode_field(s: &str) -> (r: String)
    ensures
        r@ == spec_encode_field(s@),
{
    proof {
        reveal(spec_encode_field);
    }
    if !needs_quoting(s) {
        return String::from_str(s);
    }
    let n = s.unicode_len();
    let mut r = String::from_str("\"");
    proof {
        reveal_strlit("\"");
        assert(r@ =~= seq!['"'] + double_quotes(s@.subrange(0, 0)));
    }
    let mut i: usize = 0;
    while i < n
        invariant
            n == s@.len(),
            i <= n,
            r@ == seq!['"'] + double_quotes(s@.subrange(0, i as int)),
        decreases n - i,
    {
        let ghost pre = s@.subrange(0, i as int);
        let ghost one = seq![s@[i as int]];
        let c = s.get_char(i);
        proof {
            assert(s@.subrange(0, i + 1) =~= pre + one);
            lemma_double_quotes_concat(pre, one);
            assert(one.drop_first() =~= Seq::<char>::empty());
        }
        proof {
            assert(one.len() == 1 && one[0] == c);
        }
        if c == '"' {
            r.append("\"\"");
            proof {
                reveal_strlit("\"\"");
                assert(double_quotes(one) == seq!['"', '"'] + double_quotes(one.drop_first()));
                assert(double_quotes(one) =~= "\"\""@);
                assert(r@ =~= seq!['"'] + double_quotes(s@.subrange(0, i + 1)));
            }
        } else {
            let piece = s.substring_char(i, i + 1);
            r.append(piece);
            proof {
                assert(piece@ =~= one);
                assert(double_quotes(one) == seq![one[0]] + double_quotes(one.drop_first()));
                assert(double_quotes(one) =~= one);
                assert(r@ =~= seq!['"'] + double_quotes(s@.subrange(0, i + 1)));
            }
        }
        i = i + 1;
    }
    r.append("\"");
    proof {
        reveal_strlit("\"");
        assert(s@.subrange(0, n as int) =~= s@);
        assert(r@ =~= spec_encode_field(s@));
    }
    r
}

/// The first record of the text from a position on: its fields, and
/// the position just past the record's terminator.
fn next_record(s: &str, from: usize) -> (r: (Vec<String>, usize))
    requires
        from <= s@.len(),
    ensures
        r.0@.map_values(|f: String| f@) == parse_record(
            s@.subrange(from as int, s@.len() as int),
        ).0,
        parse_record(s@.subrange(from as int, s@.len() as int)).1 == s@.subrange(
            r.1 as int,
            s@.len() as int,
        ),
        from <= r.1 <= s@.len(),
        from < s@.len() ==> from < r.1,
{
    let n = s.unicode_len();
    let ghost orig = s@.subrange(from as int, n as int);
    let mut fields: Vec<String> = Vec::new();
    let mut cur = String::new();
    let mut inq = false;
    let mut i: usize = from;
    proof {
        assert(fields@.map_values(|f: String| f@) =~= Seq::<Seq<char>>::empty());
    }
    while i < n
        invariant
            from <= i <= n,
            n == s@.len(),
            orig == s@.subrange(from as int, n as int),
            parse_record(orig) == scan(
                s@.subrange(i as int, n as int),
                cur@,
                fields@.map_values(|f: String| f@),
                inq,
            ),
        decreases n - i,
    {
        let ghost suf = s@.subrange(i as int, n as int);
        let ghost suf1 = s@.subrange(i as int + 1, n as int);
        let ghost fs0 = fields@.map_values(|f: String| f@);
        let ghost curb = cur@;
        let c = s.get_char(i);
        proof {
            assert(suf[0] == c);
            assert(suf.drop_first() =~= suf1);
        }
        if inq {
            if c == '"' {
                let mut doubled = false;
                if i + 1 < n {
                    if s.get_char(i + 1) == '"' {
                        doubled = true;
                    }
                }
                if doubled {
                    let piece = s.substring_char(i, i + 1);
                    cur.append(piece);
                    proof {
                        assert(piece@ =~= seq![suf[0]]);
                        assert(cur@ =~= curb.push('"'));
                        assert(suf.len() >= 2 && suf[1] == '"');
                        assert(suf.skip(2) =~= s@.subrange(i as int + 2, n as int));
                    }
                    i = i + 2;
                } else {
                    proof {
                        if suf.len() >= 2 {
                            assert(suf[1] == s@[i as int + 1]);
                        }
                    }
                    inq = false;
                    i = i + 1;
                }
            } else {
                let piece = s.substring_char(i, i + 1);
                cur.append(piece);
                proof {
                    assert(piece@ =~= seq![suf[0]]);
                    assert(cur@ =~= curb.push(suf[0]));
                }
                i = i + 1;
            }
        } else {
            if c == ',' {
                let ghost cur0 = cur@;
                fields.push(cur);
                cur = String::new();
                proof {
                    assert(fields@.map_values(|f: String| f@) =~= fs0.push(cur0));
                }
                i = i + 1;
            } else if c == '\n' {
                let ghost cur0 = cur@;
                fields.push(cur);
                proof {
                    assert(fields@.map_values(|f: String| f@) =~= fs0.push(cur0));
                }
                return (fields, i + 1);
            } else if c == '\r' {
                let ghost cur0 = cur@;
                let mut crlf = false;
                if i + 1 < n {
                    if s.get_char(i + 1) == '\n' {
                        crlf = true;
                    }
                }
                fields.push(cur);
                proof {
                    assert(fields@.map_values(|f: String| f@) =~= fs0.push(cur0));
                    if suf.len() >= 2 {
                        assert(suf[1] == s@[i as int + 1]);
                    }
                }
                if crlf {
                    proof {
                        assert(suf.skip(2) =~= s@.subrange(i as int + 2, n as int));
                    }
                    return (fields, i + 2);
                } else {
                    return (fields, i + 1);
                }
            } else if c == '"' && cur.as_str().is_empty() {
                inq = true;
                i = i + 1;
            } else {
                let piece = s.substring_char(i, i + 1);
                cur.append(piece);
                proof {
                    assert(piece@ =~= seq![suf[0]]);
                    assert(cur@ =~= curb.push(suf[0]));
                }
                i = i + 1;
            }
        }
    }
    let ghost cur0 = cur@;
    let ghost fs0 = fields@.map_values(|f: String| f@);
    fields.push(cur);
    proof {
        assert(s@.subrange(n as int, n as int) =~= Seq::<char>::empty());
        assert(fields@.map_values(|f: String| f@) =~= fs0.push(cur0));
    }
    (fields, n)
}

/// Whether a record came from an empty line.
fn record_is_blank(fields: &Vec<String>) -> (r: bool)
    ensures
        r == is_blank(fields@.map_values(|f: String| f@)),
{
    if fields.len() != 1 {
        return false;
    }
    proof {
        assert(fields@.map_values(|f: String| f@)[0] == fields@[0]@);
    }
    fields[0].as_str().is_empty()
}

/// The transaction a record's fields denote, or the first reason they
/// do not.
pub fn parse_row(fields: &Vec<String>) -> (r: Result<Transaction, ImportError>)
    ensures
        r matches Ok(t) ==> spec_parse_row(fields@.map_values(|f: String| f@)) == Ok::<
            TxView,
            ImportError,
        >(t@) && t.date.valid(),
        r matches Err(e) ==> spec_parse_row(fields@.map_values(|f: String| f@)) == Err::<
            TxView,
            ImportError,
        >(e),
{
    let ghost fs = fields@.map_values(|f: String| f@);
    if fields.len() != 6 {
        return Err(ImportError::FieldCount);
    }
    proof {
        assert(fs[0] == fields@[0]@);
        assert(fs[1] == fields@[1]@);
        assert(fs[2] == fields@[2]@);
        assert(fs[3] == fields@[3]@);
        assert(fs[4] == fields@[4]@);
        assert(fs[5] == fields@[5]@);
    }
    let date = match parse_date(fields[0].as_str()) {
        Some(d) => d,
        None => { return Err(ImportError::BadDate) },
    };
    let amount = match parse_amount(fields[2].as_str()) {
        Some(a) => a,
        None => { return Err(ImportError::BadAmount) },
    };
    let recurring = match parse_bool(fields[5].as_str()) {
        Some(b) => b,
        None => { return Err(ImportError::BadRecurring) },
    };
    let currency = match Currency::from_code(fields[3].as_str()) {
        Some(c) => c,
        None => Currency::USD,
    };
    Ok(
        Transaction {
            date,
            description: fields[1].clone(),
            amount,
            category: fields[4].clone(),
            recurring,
            currency,
        },
    )
}

/// One transaction as a comma-separated row, each field quoted where it
/// must be.
pub fn fmt_row(tx: &Transaction) -> (r: String)
    requires
        tx.date.valid(),
    ensures
        r@ == format_row(tx@),
{
    let date_s = format_date(&tx.date);
    let amount_s = format_amount(tx.amount);
    let mut r = encode_field(date_s.as_str());
    r.append(",");
    let desc = encode_field(tx.description.as_str());
    r.append(desc.as_str());
    r.append(",");
    let amt = encode_field(amount_s.as_str());
    r.append(amt.as_str());
    r.append(",");
    let code = encode_field(tx.currency.as_str());
    r.append(code.as_str());
    r.append(",");
    let cat = encode_field(tx.category.as_str());
    r.append(cat.as_str());
    r.append(",");
    let flag = encode_field(format_bool(tx.recurring));
    r.append(flag.as_str());
    proof {
        reveal_strlit(",");
        assert(r@ =~= format_row(tx@));
    }
    r
}

impl AppState {
    /// The whole ledger as CSV text: the header line, then one row per
    /// transaction in stored order.
    pub fn export_csv(&self) -> (r: String)
        requires
            self.wf(),
        ensures
            r@ == spec_export(self.txs()),
    {
        let mut r = String::from_str("date,description,amount,currency,category,recurring");
        r.append("\n");
        proof {
            reveal_strlit("\n");
            assert(r@ =~= csv_header() + seq!['\n'] + rows_text(self.txs().subrange(0, 0)));
        }
        let n = self.data.transactions.len();
        let mut i: usize = 0;
        while i < n
            invariant
                self.wf(),
                n == self.data.transactions@.len(),
                n == self.txs().len(),
                i <= n,
                r@ == csv_header() + seq!['\n'] + rows_text(self.txs().subrange(0, i as int)),
            decreases n - i,
        {
            let ghost prefix = self.txs().subrange(0, i as int);
            let tx = &self.data.transactions[i];
            proof {
                assert(tx@ == self.txs()[i as int]);
                assert(self.txs().subrange(0, i + 1).drop_last() =~= prefix);
                assert(self.txs().subrange(0, i + 1).last() == tx@);
            }
            let row = fmt_row(tx);
            r.append(row.as_str());
            r.append("\n");
            proof {
                reveal_strlit("\n");
                assert(r@ =~= csv_header() + seq!['\n'] + rows_text(
                    self.txs().subrange(0, i + 1),
                ));
            }
            i = i + 1;
        }
        proof {
            assert(self.txs().subrange(0, n as int) =~= self.txs());
        }
        r
    }

    /// Imports CSV text: the first record is taken for the header, each
    /// following record is parsed and appended in turn, and the first
    /// record that does not parse stops the import with its reason —
    /// the rows appended before it stay. Records of empty lines are
    /// skipped; a record's line break may be bare or preceded by a
    /// carriage return; quoted fields may hold separators, quotes and
    /// line breaks.
    pub fn import_csv(&mut self, text: &str) -> (r: Result<(), ImportError>)
        requires
            old(self).wf(),
        ensures
            final(self).wf(),
            final(self).txs() == old(self).txs() + spec_import(text@).0,
            r == match spec_import(text@).1 {
                None => Ok::<(), ImportError>(()),
                Some((i, e)) => Err::<(), ImportError>(e),
            },
            final(self).data.budget == old(self).data.budget,
            final(self).data.last_profile == old(self).data.last_profile,
            final(self).search_term == old(self).search_term,
            final(self).base_currency == old(self).base_currency,
            final(self).exchange_rates == old(self).exchange_rates,
            final(self).theme == old(self).theme,
            final(self).rates_api_error == old(self).rates_api_error,
    {
        let n = text.unicode_len();
        // consume the header: the first record not from an empty line
        let mut p: usize = 0;
        proof {
            assert(text@.subrange(0, n as int) =~= text@);
        }
        loop
            invariant_except_break
                csv_records(text@) == csv_records(text@.subrange(p as int, n as int)),
            invariant
                p <= n,
                n == text@.len(),
                *self == *old(self),
            ensures
                p <= n,
                n == text@.len(),
                *self == *old(self),
                csv_data_records(text@) == csv_records(text@.subrange(p as int, n as int)),
            decreases n - p,
        {
            let ghost suffix = text@.subrange(p as int, n as int);
            if p == n {
                proof {
                    assert(csv_data_records(text@) =~= csv_records(suffix));
                }
                break ;
            }
            let (fs, p2) = next_record(text, p);
            proof {
                assert(csv_records(suffix) == if is_blank(parse_record(suffix).0) {
                    csv_records(parse_record(suffix).1)
                } else {
                    seq![parse_record(suffix).0] + csv_records(parse_record(suffix).1)
                });
            }
            if record_is_blank(&fs) {
                p = p2;
            } else {
                p = p2;
                proof {
                    assert(csv_data_records(text@) =~= csv_records(
                        text@.subrange(p as int, n as int),
                    ));
                }
                break ;
            }
        }
        let ghost rows = csv_data_records(text@);
        let ghost mut idx: int = 0;
        let ghost mut acc: Seq<TxView> = Seq::empty();
        while p < n
            invariant
                self.wf(),
                p <= n,
                n == text@.len(),
                rows == csv_data_records(text@),
                self.txs() == old(self).txs() + acc,
                import_rows(rows, 0).0 == acc + import_rows(
                    csv_records(text@.subrange(p as int, n as int)),
                    idx,
                ).0,
                import_rows(rows, 0).1 == import_rows(
                    csv_records(text@.subrange(p as int, n as int)),
                    idx,
                ).1,
                self.data.budget == old(self).data.budget,
                self.data.last_profile == old(self).data.last_profile,
                self.search_term == old(self).search_term,
                self.base_currency == old(self).base_currency,
                self.exchange_rates == old(self).exchange_rates,
                self.theme == old(self).theme,
                self.rates_api_error == old(self).rates_api_error,
            decreases n - p,
        {
            let ghost suffix = text@.subrange(p as int, n as int);
            let (fs, p2) = next_record(text, p);
            let ghost fsv = parse_record(suffix).0;
            proof {
                assert(csv_records(suffix) == if is_blank(fsv) {
                    csv_records(parse_record(suffix).1)
                } else {
                    seq![fsv] + csv_records(parse_record(suffix).1)
                });
            }
            if record_is_blank(&fs) {
                p = p2;
            } else {
                let ghost remaining = csv_records(suffix);
                proof {
                    assert(remaining[0] == fsv);
                    assert(remaining.drop_first() =~= csv_records(
                        text@.subrange(p2 as int, n as int),
                    ));
                }
                match parse_row(&fs) {
                    Ok(tx) => {
                        proof {
                            assert(spec_parse_row(remaining[0]) == Ok::<TxView, ImportError>(
                                tx@,
                            ));
                            assert(import_rows(remaining, idx).0 =~= seq![tx@] + import_rows(
                                remaining.drop_first(),
                                idx + 1,
                            ).0);
                        }
                        let ghost acc0 = acc;
                        let ghost txs0 = self.txs();
                        self.data.transactions.push(tx);
                        proof {
                            acc = acc0 + seq![tx@];
                            idx = idx + 1;
                            assert(self.txs() =~= txs0.push(tx@));
                            assert(txs0 == old(self).txs() + acc0);
                            assert(self.txs() =~= old(self).txs() + acc);
                            assert(acc + import_rows(
                                csv_records(text@.subrange(p2 as int, n as int)),
                                idx,
                            ).0 =~= acc0 + import_rows(remaining, idx - 1).0);
                            assert forall|i: int|
                                0 <= i < self.txs().len() implies (#[trigger] self.txs()[i]).date.valid() by {
                                if i < self.txs().len() - 1 {
                                    assert(self.txs()[i] == (old(self).txs() + acc0)[i]);
                                }
                            };
                        }
                        p = p2;
                    },
                    Err(e) => {
                        proof {
                            assert(spec_parse_row(remaining[0]) == Err::<TxView, ImportError>(
                                e,
                            ));
                            assert(import_rows(remaining, idx).1 == Some((idx, e)));
                            assert(import_rows(remaining, idx).0 =~= Seq::<TxView>::empty());
                            assert(spec_import(text@).0 =~= acc);
                            assert(self.txs() =~= old(self).txs() + spec_import(text@).0);
                        }
                        return Err(e);
                    },
                }
            }
        }
        proof {
            assert(text@.subrange(n as int, n as int) =~= Seq::<char>::empty());
            assert(spec_import(text@).0 =~= acc);
            assert(self.txs() =~= old(self).txs() + spec_import(text@).0);
        }
        Ok(())
    }
}

/// Scanning a field without separators, quotes or line breaks reads
/// its characters into the current field.
proof fn lemma_scan_plain(v: Seq<char>, x: Seq<char>, cur: Seq<char>, fields: Seq<Seq<char>>)
    requires
        avoids(v, ','),
        avoids(v, '"'),
        avoids(v, '\r'),
        avoids(v, '\n'),
    ensures
        scan(v + x, cur, fields, false) == scan(x, cur + v, fields, false),
    decreases v.len(),
{
    if v.len() == 0 {
        assert(v + x =~= x);
        assert(cur + v =~= cur);
    } else {
        let s = v + x;
        assert(s[0] == v[0]);
        assert(s.drop_first() =~= v.drop_first() + x);
        assert forall|i: int|
            0 <= i < v.drop_first().len() implies v.drop_first()[i] != ',' && v.drop_first()[i]
            != '"' && v.drop_first()[i] != '\r' && v.drop_first()[i] != '\n' by {
            assert(v.drop_first()[i] == v[i + 1]);
        };
        lemma_scan_plain(v.drop_first(), x, cur.push(v[0]), fields);
        assert(cur.push(v[0]) + v.drop_first() =~= cur + v);
    }
}

/// Scanning a doubled-quote body up to its closing quote reads the
/// original characters into the current field.
proof fn lemma_scan_quoted(v: Seq<char>, x: Seq<char>, cur: Seq<char>, fields: Seq<Seq<char>>)
    requires
        x.len() == 0 || x[0] != '"',
    ensures
        scan(double_quotes(v) + (seq!['"'] + x), cur, fields, true) == scan(
            x,
            cur + v,
            fields,
            false,
        ),
    decreases v.len(),
{
    let s = double_quotes(v) + (seq!['"'] + x);
    if v.len() == 0 {
        assert(s =~= seq!['"'] + x);
        assert(s[0] == '"');
        if s.len() >= 2 {
            assert(s[1] == x[0]);
        }
        assert(s.drop_first() =~= x);
        assert(cur + v =~= cur);
    } else if v[0] == '"' {
        assert(double_quotes(v) == seq!['"', '"'] + double_quotes(v.drop_first()));
        assert(s[0] == '"' && s[1] == '"');
        assert(s.skip(2) =~= double_quotes(v.drop_first()) + (seq!['"'] + x));
        lemma_scan_quoted(v.drop_first(), x, cur.push('"'), fields);
        assert(cur.push('"') + v.drop_first() =~= cur + v);
    } else {
        assert(double_quotes(v) == seq![v[0]] + double_quotes(v.drop_first()));
        assert(s[0] == v[0]);
        assert(s.drop_first() =~= double_quotes(v.drop_first()) + (seq!['"'] + x));
        lemma_scan_quoted(v.drop_first(), x, cur.push(v[0]), fields);
        assert(cur.push(v[0]) + v.drop_first() =~= cur + v);
    }
}

/// Scanning an encoded field followed by a separator or a line break
/// reads exactly the field's text.
proof fn lemma_scan_enc_field(v: Seq<char>, x: Seq<char>, fields: Seq<Seq<char>>)
    requires
        x.len() > 0,
        x[0] == ',' || x[0] == '\r' || x[0] == '\n',
    ensures
        scan(spec_encode_field(v) + x, Seq::empty(), fields, false) == scan(x, v, fields, false),
{
    reveal(spec_encode_field);
    if needs_quote(v) {
        let s = spec_encode_field(v) + x;
        assert(s =~= seq!['"'] + (double_quotes(v) + (seq!['"'] + x)));
        assert(s[0] == '"');
        assert(s.drop_first() =~= double_quotes(v) + (seq!['"'] + x));
        lemma_scan_quoted(v, x, Seq::empty(), fields);
        assert(Seq::<char>::empty() + v =~= v);
    } else {
        lemma_scan_plain(v, x, Seq::empty(), fields);
        assert(Seq::<char>::empty() + v =~= v);
    }
}

/// After a field's separator the scanner starts the next field.
proof fn lemma_scan_comma(x: Seq<char>, v: Seq<char>, fields: Seq<Seq<char>>)
    ensures
        scan(seq![','] + x, v, fields, false) == scan(x, Seq::empty(), fields.push(v), false),
{
    let s = seq![','] + x;
    assert(s[0] == ',');
    assert(s.drop_first() =~= x);
}

/// A line break ends the record with the fields read so far.
proof fn lemma_scan_newline(x: Seq<char>, v: Seq<char>, fields: Seq<Seq<char>>)
    ensures
        scan(seq!['\n'] + x, v, fields, false) == (fields.push(v), x),
{
    let s = seq!['\n'] + x;
    assert(s[0] == '\n');
    assert(s.drop_first() =~= x);
}

/// One encoded field and its separator: the scanner records the field
/// and starts the next.
proof fn lemma_scan_field_step(v: Seq<char>, x: Seq<char>, fields: Seq<Seq<char>>)
    ensures
        scan(spec_encode_field(v) + (seq![','] + x), Seq::empty(), fields, false) == scan(
            x,
            Seq::empty(),
            fields.push(v),
            false,
        ),
{
    lemma_scan_enc_field(v, seq![','] + x, fields);
    lemma_scan_comma(x, v, fields);
}

/// The last encoded field and its line break: the scanner ends the
/// record.
proof fn lemma_scan_last_field(v: Seq<char>, rest: Seq<char>, fields: Seq<Seq<char>>)
    ensures
        scan(spec_encode_field(v) + (seq!['\n'] + rest), Seq::empty(), fields, false) == (
            fields.push(v),
            rest,
        ),
{
    lemma_scan_enc_field(v, seq!['\n'] + rest, fields);
    lemma_scan_newline(rest, v, fields);
}

/// A row followed by a line break scans into its six raw fields,
/// whatever free text they hold.
proof fn lemma_record_of_row(t: TxView, rest: Seq<char>)
    ensures
        parse_record(format_row(t) + seq!['\n'] + rest) == (row_fields(t), rest),
{
    let f0 = spec_format_date(t.date);
    let f1 = t.description;
    let f2 = spec_format_amount(t.amount);
    let f3 = t.currency.spec_code();
    let f4 = t.category;
    let f5 = bool_chars(t.recurring);
    let s5 = spec_encode_field(f5) + (seq!['\n'] + rest);
    let s4 = spec_encode_field(f4) + (seq![','] + s5);
    let s3 = spec_encode_field(f3) + (seq![','] + s4);
    let s2 = spec_encode_field(f2) + (seq![','] + s3);
    let s1 = spec_encode_field(f1) + (seq![','] + s2);
    let s0 = spec_encode_field(f0) + (seq![','] + s1);
    assert(format_row(t) + seq!['\n'] + rest =~= s0);
    lemma_scan_field_step(f0, s1, Seq::empty());
    assert(Seq::<Seq<char>>::empty().push(f0) =~= seq![f0]);
    lemma_scan_field_step(f1, s2, seq![f0]);
    assert(seq![f0].push(f1) =~= seq![f0, f1]);
    lemma_scan_field_step(f2, s3, seq![f0, f1]);
    assert(seq![f0, f1].push(f2) =~= seq![f0, f1, f2]);
    lemma_scan_field_step(f3, s4, seq![f0, f1, f2]);
    assert(seq![f0, f1, f2].push(f3) =~= seq![f0, f1, f2, f3]);
    lemma_scan_field_step(f4, s5, seq![f0, f1, f2, f3]);
    assert(seq![f0, f1, f2, f3].push(f4) =~= seq![f0, f1, f2, f3, f4]);
    lemma_scan_last_field(f5, rest, seq![f0, f1, f2, f3, f4]);
    assert(seq![f0, f1, f2, f3, f4].push(f5) =~= row_fields(t));
}

/// One plain word and its separator: the scanner records the word and
/// starts the next field.
proof fn lemma_scan_word_step(v: Seq<char>, x: Seq<char>, fields: Seq<Seq<char>>)
    requires
        avoids(v, ','),
        avoids(v, '"'),
        avoids(v, '\r'),
        avoids(v, '\n'),
    ensures
        scan(v + (seq![','] + x), Seq::empty(), fields, false) == scan(
            x,
            Seq::empty(),
            fields.push(v),
            false,
        ),
{
    assert(v + (seq![','] + x) =~= v + (seq![','] + x));
    lemma_scan_plain(v, seq![','] + x, Seq::empty(), fields);
    assert(Seq::<char>::empty() + v =~= v);
    lemma_scan_comma(x, v, fields);
}

/// The last plain word and its line break: the scanner ends the record.
proof fn lemma_scan_last_word(v: Seq<char>, rest: Seq<char>, fields: Seq<Seq<char>>)
    requires
        avoids(v, ','),
        avoids(v, '"'),
        avoids(v, '\r'),
        avoids(v, '\n'),
    ensures
        scan(v + (seq!['\n'] + rest), Seq::empty(), fields, false) == (fields.push(v), rest),
{
    lemma_scan_plain(v, seq!['\n'] + rest, Seq::empty(), fields);
    assert(Seq::<char>::empty() + v =~= v);
    lemma_scan_newline(rest, v, fields);
}

/// The header line scans into its six column names.
#[verifier::rlimit(100)]
proof fn lemma_record_of_header(rest: Seq<char>)
    ensures
        parse_record(csv_header() + seq!['\n'] + rest) == (header_fields(), rest),
{
    reveal_strlit("date,description,amount,currency,category,recurring");
    reveal_strlit("date");
    reveal_strlit("description");
    reveal_strlit("amount");
    reveal_strlit("currency");
    reveal_strlit("category");
    reveal_strlit("recurring");
    let f0 = "date"@;
    let f1 = "description"@;
    let f2 = "amount"@;
    let f3 = "currency"@;
    let f4 = "category"@;
    let f5 = "recurring"@;
    let s5 = f5 + (seq!['\n'] + rest);
    let s4 = f4 + (seq![','] + s5);
    let s3 = f3 + (seq![','] + s4);
    let s2 = f2 + (seq![','] + s3);
    let s1 = f1 + (seq![','] + s2);
    let s0 = f0 + (seq![','] + s1);
    assert(csv_header() + seq!['\n'] + rest =~= s0);
    lemma_scan_word_step(f0, s1, Seq::empty());
    assert(Seq::<Seq<char>>::empty().push(f0) =~= seq![f0]);
    lemma_scan_word_step(f1, s2, seq![f0]);
    assert(seq![f0].push(f1) =~= seq![f0, f1]);
    lemma_scan_word_step(f2, s3, seq![f0, f1]);
    assert(seq![f0, f1].push(f2) =~= seq![f0, f1, f2]);
    lemma_scan_word_step(f3, s4, seq![f0, f1, f2]);
    assert(seq![f0, f1, f2].push(f3) =~= seq![f0, f1, f2, f3]);
    lemma_scan_word_step(f4, s5, seq![f0, f1, f2, f3]);
    assert(seq![f0, f1, f2, f3].push(f4) =~= seq![f0, f1, f2, f3, f4]);
    lemma_scan_last_word(f5, rest, seq![f0, f1, f2, f3, f4]);
    assert(seq![f0, f1, f2, f3, f4].push(f5) =~= header_fields());
}

/// The first row stands first in the exported rows.
proof fn lemma_rows_text_front(ts: Seq<TxView>)
    requires
        ts.len() > 0,
    ensures
        rows_text(ts) == format_row(ts[0]) + seq!['\n'] + rows_text(ts.drop_first()),
    decreases ts.len(),
{
    if ts.len() == 1 {
        assert(ts.drop_last() =~= Seq::<TxView>::empty());
        assert(ts.drop_first() =~= Seq::<TxView>::empty());
        assert(ts.last() == ts[0]);
        assert(rows_text(ts) =~= format_row(ts[0]) + seq!['\n'] + rows_text(ts.drop_first()));
    } else {
        let dl = ts.drop_last();
        lemma_rows_text_front(dl);
        assert(dl[0] == ts[0]);
        let tdf = ts.drop_first();
        assert(tdf.len() > 0);
        assert(tdf.drop_last() =~= dl.drop_first());
        assert(tdf.last() == ts.last());
        assert(rows_text(tdf) == rows_text(tdf.drop_last()) + format_row(tdf.last())
            + seq!['\n']);
        assert(rows_text(ts) =~= format_row(ts[0]) + seq!['\n'] + rows_text(tdf));
    }
}

/// The exported rows scan into one record per transaction.
proof fn lemma_records_of_rows(ts: Seq<TxView>)
    ensures
        csv_records(rows_text(ts)) == ts.map_values(|t: TxView| row_fields(t)),
    decreases ts.len(),
{
    if ts.len() == 0 {
        assert(ts.map_values(|t: TxView| row_fields(t)) =~= Seq::<Seq<Seq<char>>>::empty());
    } else {
        lemma_rows_text_front(ts);
        let tdf = ts.drop_first();
        lemma_record_of_row(ts[0], rows_text(tdf));
        assert(rows_text(ts).len() > 0);
        assert(parse_record(rows_text(ts)) == (row_fields(ts[0]), rows_text(tdf)));
        assert(!is_blank(row_fields(ts[0])));
        lemma_records_of_rows(tdf);
        assert(forall|i: int| 0 <= i < tdf.len() ==> #[trigger] tdf[i] == ts[i + 1]);
        assert(tdf.map_values(|t: TxView| row_fields(t)) =~= ts.map_values(
            |t: TxView| row_fields(t),
        ).drop_first());
        assert(csv_records(rows_text(ts)) =~= ts.map_values(|t: TxView| row_fields(t)));
    }
}

/// Whether a transaction can be exported at all: a valid date and an
/// amount within 64 bits of hundredths. Free text needs no condition:
/// quoting carries any description or category through.
pub open spec fn exportable(t: TxView) -> bool {
    &&& t.date.valid()
    &&& i64::MIN <= t.amount <= i64::MAX
}

/// A row's fields read back as the transaction they were written from.
proof fn lemma_parse_row_fields(t: TxView)
    requires
        exportable(t),
    ensures
        spec_parse_row(row_fields(t)) == Ok::<TxView, ImportError>(t),
{
    lemma_date_round_trip(t.date);
    lemma_amount_round_trip(t.amount);
    lemma_currency_round_trip(t.currency);
    lemma_bool_round_trip(t.recurring);
    let fs = row_fields(t);
    assert(fs.len() == 6);
    assert(spec_parse_date(fs[0]) == Some(t.date));
    assert(spec_parse_amount(fs[2]) == Some(t.amount));
    assert(spec_parse_bool(fs[5]) == Some(t.recurring));
    assert(spec_parse_currency(fs[3]) == Some(t.currency));
}

/// Rows written from exportable transactions all read back, in order.
proof fn lemma_import_formatted(ts: Seq<TxView>, idx: int)
    requires
        forall|i: int| 0 <= i < ts.len() ==> exportable(#[trigger] ts[i]),
    ensures
        import_rows(ts.map_values(|t: TxView| row_fields(t)), idx) == (ts, None::<
            (int, ImportError),
        >),
    decreases ts.len(),
{
    let records = ts.map_values(|t: TxView| row_fields(t));
    if ts.len() == 0 {
        assert(import_rows(records, idx).0 =~= ts);
    } else {
        lemma_parse_row_fields(ts[0]);
        assert(records[0] == row_fields(ts[0]));
        let tdf = ts.drop_first();
        assert(forall|i: int| 0 <= i < tdf.len() ==> #[trigger] tdf[i] == ts[i + 1]);
        lemma_import_formatted(tdf, idx + 1);
        assert(records.drop_first() =~= tdf.map_values(|t: TxView| row_fields(t)));
        assert(import_rows(records, idx).0 =~= ts);
    }
}

/// Exporting a ledger and importing the text reproduces the same
/// transaction sequence, in the same order, with no error — for every
/// ledger whose transactions have valid dates and amounts within 64
/// bits of hundredths; descriptions and categories may hold any text,
/// including separators, quotes and line breaks.
pub proof fn lemma_csv_round_trip(ts: Seq<TxView>)
    requires
        forall|i: int| 0 <= i < ts.len() ==> exportable(#[trigger] ts[i]),
    ensures
        spec_import(spec_export(ts)) == (ts, None::<(int, ImportError)>),
{
    let text = spec_export(ts);
    lemma_record_of_header(rows_text(ts));
    assert(text == csv_header() + seq!['\n'] + rows_text(ts));
    assert(text.len() > 0);
    assert(parse_record(text) == (header_fields(), rows_text(ts)));
    assert(!is_blank(header_fields()));
    lemma_records_of_rows(ts);
    assert(csv_records(text) =~= seq![header_fields()] + ts.map_values(
        |t: TxView| row_fields(t),
    ));
    assert(csv_data_records(text) =~= ts.map_values(|t: TxView| row_fields(t)));
    lemma_import_formatted(ts, 0);
}

} // verus!
