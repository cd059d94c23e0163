//! Event-time stamps ("YYYY-MM-DD-HH-MM"): date formatting and human-readable
//! distances in time.

use vstd::prelude::*;
use crate::text::{chars_of, text_of};

verus! {

/// The pieces of `s` between occurrences of `sep`, as `str::split` yields them.
pub open spec fn split(s: Seq<char>, sep: char) -> Seq<Seq<char>>
    decreases s.len(),
{
    if s.len() == 0 {
        seq![Seq::empty()]
    } else {
        let rest = split(s.drop_last(), sep);
        if s.last() == sep {
            rest.push(Seq::empty())
        } else {
            rest.update(rest.len() - 1, rest.last().push(s.last()))
        }
    }
}

/// The character sequences that a list of character vectors holds.
pub open spec fn views(v: Seq<Vec<char>>) -> Seq<Seq<char>> {
    v.map_values(|x: Vec<char>| x@)
}

/// Splits `s` at each `sep`.
pub fn split_chars(s: &Vec<char>, sep: char) -> (r: Vec<Vec<char>>)
    ensures
        views(r@) == split(s@, sep),
{
    let mut done: Vec<Vec<char>> = Vec::new();
    let mut cur: Vec<char> = Vec::new();
    let mut i: usize = 0;
    assert(s@.subrange(0, 0) =~= Seq::<char>::empty());
    assert(views(done@).push(cur@) =~= split(s@.subrange(0, 0), sep));
    while i < s.len()
        invariant
            i <= s@.len(),
            views(done@).push(cur@) == split(s@.subrange(0, i as int), sep),
        decreases s@.len() - i,
    {
        let ghost before = views(done@);
        assert(s@.subrange(0, i + 1).drop_last() =~= s@.subrange(0, i as int));
        let ghost old_cur = cur@;
        if s[i] == sep {
            done.push(cur);
            cur = Vec::new();
            assert(views(done@) =~= before.push(old_cur));
        } else {
            cur.push(s[i]);
        }
        i = i + 1;
        assert(views(done@).push(cur@) =~= split(s@.subrange(0, i as int), sep));
    }
    assert(s@.subrange(0, s@.len() as int) =~= s@);
    let ghost before = views(done@);
    done.push(cur);
    assert(views(done@) =~= before.push(cur@));
    done
}

/// The date part "YYYY-MM-DD" of an event-time stamp: the first three
/// dash-separated pieces, or "未知日期" where there are fewer.
pub open spec fn date_of(s: Seq<char>) -> Seq<char> {
    let p = split(s, '-');
    if p.len() >= 3 {
        p[0] + seq!['-'] + p[1] + seq!['-'] + p[2]
    } else {
        "未知日期"@
    }
}

/// Formats the date part of an event-time stamp.
pub fn format_date(event_time: &str) -> (r: String)
    ensures
        r@ == date_of(event_time@),
{
    let p = split_chars(&chars_of(event_time), '-');
    if p.len() >= 3 {
        let mut out: Vec<char> = Vec::new();
        let mut k: usize = 0;
        assert(views(p@)[0] == p@[0]@);
        while k < 3
            invariant
                3 <= p@.len(),
                k <= 3,
                views(p@) == split(event_time@, '-'),
                out@ == (if k == 0 {
                    Seq::<char>::empty()
                } else if k == 1 {
                    p@[0]@
                } else if k == 2 {
                    p@[0]@ + seq!['-'] + p@[1]@
                } else {
                    p@[0]@ + seq!['-'] + p@[1]@ + seq!['-'] + p@[2]@
                }),
            decreases 3 - k,
        {
            if k > 0 {
                out.push('-');
            }
            let piece = &p[k];
            let mut j: usize = 0;
            let ghost start = out@;
            while j < piece.len()
                invariant
                    j <= piece@.len(),
                    out@ == start + piece@.subrange(0, j as int),
                decreases piece@.len() - j,
            {
                out.push(piece[j]);
                j = j + 1;
                assert(out@ =~= start + piece@.subrange(0, j as int));
            }
            assert(piece@.subrange(0, piece@.len() as int) =~= piece@);
            k = k + 1;
            assert(out@ =~= (if k == 1 {
                p@[0]@
            } else if k == 2 {
                p@[0]@ + seq!['-'] + p@[1]@
            } else {
                p@[0]@ + seq!['-'] + p@[1]@ + seq!['-'] + p@[2]@
            }));
        }
        assert(views(p@)[1] == p@[1]@);
        assert(views(p@)[2] == p@[2]@);
        text_of(&out)
    } else {
        String::from_str("未知日期")
    }
}

/// Value of a run of decimal digits.
pub open spec fn digits_value(s: Seq<char>) -> int
    decreases s.len(),
{
    if s.len() == 0 {
        0
    } else {
        digits_value(s.drop_last()) * 10 + (s.last() as int - '0' as int)
    }
}

/// Every character of `s` is a decimal digit.
pub open spec fn all_digits(s: Seq<char>) -> bool {
    forall|i: int| 0 <= i < s.len() ==> '0' <= #[trigger] s[i] && s[i] <= '9'
}

/// The integer that `str::parse` reads from `s`: an optional sign ('-' only
/// where `signed`), then one or more decimal digits; range is not checked.
pub open spec fn parse_int(s: Seq<char>, signed: bool) -> Option<int> {
    let neg = signed && s.len() > 0 && s[0] == '-';
    let body = if s.len() > 0 && (s[0] == '+' || neg) {
        s.drop_first()
    } else {
        s
    };
    if body.len() > 0 && all_digits(body) {
        Some(
            if neg {
                -digits_value(body)
            } else {
                digits_value(body)
            },
        )
    } else {
        None
    }
}

/// `s` read as an `i32`, or `default` where it is not one.
pub open spec fn i32_or(s: Seq<char>, default: i32) -> i32 {
    match parse_int(s, true) {
        Some(v) => if i32::MIN <= v <= i32::MAX {
            v as i32
        } else {
            default
        },
        None => default,
    }
}

/// `s` read as a `u32`, or `default` where it is not one.
pub open spec fn u32_or(s: Seq<char>, default: u32) -> u32 {
    match parse_int(s, false) {
        Some(v) => if 0 <= v <= u32::MAX {
            v as u32
        } else {
            default
        },
        None => default,
    }
}

proof fn lemma_digits_grow(s: Seq<char>, j: int)
    requires
        0 <= j <= s.len(),
        all_digits(s),
    ensures
        digits_value(s) >= digits_value(s.subrange(0, j)) >= 0,
    decreases s.len() - j,
{
    if j < s.len() {
        lemma_digits_grow(s, j + 1);
        assert(s.subrange(0, j + 1).drop_last() =~= s.subrange(0, j));
        assert(all_digits(s.subrange(0, j)));
        lemma_digits_nonneg(s.subrange(0, j));
    } else {
        assert(s.subrange(0, j) =~= s);
        lemma_digits_nonneg(s);
    }
}

proof fn lemma_digits_nonneg(s: Seq<char>)
    requires
        all_digits(s),
    ensures
        digits_value(s) >= 0,
    decreases s.len(),
{
    if s.len() > 0 {
        assert(all_digits(s.drop_last()));
        lemma_digits_nonneg(s.drop_last());
    }
}

/// Reads `s` as an integer within `[lo, hi]`, where `|lo|, hi <= 2^32`.
fn parse_in_range(s: &Vec<char>, signed: bool, lo: i128, hi: i128) -> (r: Option<i128>)
    requires
        -0x1_0000_0000 <= lo <= 0 <= hi <= 0x1_0000_0000,
    ensures
        r == (match parse_int(s@, signed) {
            Some(v) => if lo <= v <= hi {
                Some(v as i128)
            } else {
                None
            },
            None => None,
        }),
{
    let n = s.len();
    let neg = signed && n > 0 && s[0] == '-';
    let start: usize = if n > 0 && (s[0] == '+' || neg) {
        1
    } else {
        0
    };
    let ghost body = if n > 0 && (s@[0] == '+' || neg) {
        s@.drop_first()
    } else {
        s@
    };
    assert(body =~= s@.subrange(start as int, n as int));
    if start >= n {
        return None;
    }
    let mut acc: i128 = 0;
    let mut i: usize = start;
    while i < n
        invariant
            start <= i <= n,
            n == s@.len(),
            -0x1_0000_0000 <= lo <= 0 <= hi <= 0x1_0000_0000,
            body == s@.subrange(start as int, n as int),
            neg == (signed && s@.len() > 0 && s@[0] == '-'),
            body == (if s@.len() > 0 && (s@[0] == '+' || neg) {
                s@.drop_first()
            } else {
                s@
            }),
            all_digits(body.subrange(0, i - start)),
            acc == digits_value(body.subrange(0, i - start)),
            0 <= acc <= 0x1_0000_0000,
        decreases n - i,
    {
        let c = s[i];
        assert(body[i - start] == c);
        if !('0' <= c && c <= '9') {
            assert(!all_digits(body));
            return None;
        }
        let ghost pre = body.subrange(0, i - start);
        let ghost pre1 = body.subrange(0, i - start + 1);
        proof {
            assert(pre1.drop_last() =~= pre);
            assert(pre1.last() == c);
            assert(digits_value(pre1) == digits_value(pre) * 10 + (c as int - '0' as int));
        }
        acc = acc * 10 + (c as u32 - '0' as u32) as i128;
        i = i + 1;
        assert(acc == digits_value(pre1));
        if acc > 0x1_0000_0000 {
            proof {
                if all_digits(body) {
                    lemma_digits_grow(body, i - start);
                    assert(digits_value(body) >= acc);
                    assert(body.len() > 0);
                    assert(parse_int(s@, signed) == Some(
                        if neg {
                            -digits_value(body)
                        } else {
                            digits_value(body)
                        },
                    ));
                    let v = if neg {
                        -digits_value(body)
                    } else {
                        digits_value(body)
                    };
                    assert(!(lo <= v && v <= hi));
                }
                assert(match parse_int(s@, signed) {
                    Some(v) => !(lo <= v && v <= hi),
                    None => true,
                });
            }
            return None;
        }
        proof {
            assert forall|k: int| 0 <= k < pre1.len() implies '0' <= #[trigger] pre1[k] && pre1[k] <= '9' by {
                if k < pre.len() {
                    assert(pre1[k] == pre[k]);
                }
            }
        }
    }
    assert(body.subrange(0, n - start) =~= body);
    let v = if neg {
        -acc
    } else {
        acc
    };
    if lo <= v && v <= hi {
        Some(v)
    } else {
        None
    }
}

/// What chrono makes of a UTC civil date and time (year, month, day, hour,
/// minute, second zero) as a Unix time, `None` where it is no valid date
/// and time.
pub uninterp spec fn civil_seconds_of(y: i32, mo: u32, d: u32, h: u32, mi: u32) -> Option<i64>;

/// Relies on `chrono::NaiveDate::from_ymd_opt`, `NaiveDate::and_hms_opt`,
/// `NaiveDateTime::and_utc` and `DateTime::timestamp`: the Unix time of a
/// UTC civil date and time.
#[verifier::external_body]
fn civil_seconds(y: i32, mo: u32, d: u32, h: u32, mi: u32) -> (r: Option<i64>)
    ensures
        r == civil_seconds_of(y, mo, d, h, mi),
{
    match chrono::NaiveDate::from_ymd_opt(y, mo, d) {
        Some(date) => match date.and_hms_opt(h, mi, 0) {
            Some(dt) => Some(dt.and_utc().timestamp()),
            None => None,
        },
        None => None,
    }
}

/// The decimal digits of `n`.
pub open spec fn decimal(n: nat) -> Seq<char>
    decreases n,
{
    if n < 10 {
        seq![((n + 48) as u8) as char]
    } else {
        decimal(n / 10).push((((n % 10) + 48) as u8) as char)
    }
}

/// Writes `n` in decimal.
pub fn decimal_chars(n: u64) -> (r: Vec<char>)
    ensures
        r@ == decimal(n as nat),
    decreases n,
{
    if n < 10 {
        let c = ((n + 48) as u8) as char;
        let mut r: Vec<char> = Vec::new();
        r.push(c);
        assert(r@ =~= seq![c]);
        r
    } else {
        let mut r = decimal_chars(n / 10);
        r.push((((n % 10) + 48) as u8) as char);
        r
    }
}

/// The human-readable distance of something `diff` seconds in the past.
pub open spec fn ago_text(diff: int) -> Seq<char> {
    if diff < 60 {
        "刚刚"@
    } else if diff / 60 < 60 {
        decimal((diff / 60) as nat) + "分钟前"@
    } else if diff / 3600 < 24 {
        decimal((diff / 3600) as nat) + "小时前"@
    } else if diff / 86400 < 7 {
        decimal((diff / 86400) as nat) + "天前"@
    } else if diff / 86400 / 7 < 4 {
        decimal((diff / 86400 / 7) as nat) + "周前"@
    } else {
        decimal((diff / 86400 / 30) as nat) + "个月前"@
    }
}

/// How long before `now` the event-time stamp `s` lies, in words: its five
/// dash-separated fields are read as year, month, day, hour and minute
/// (2026, 1, 1, 0, 0 where a field is no number); "未知时间" where there are
/// not five fields or they make no valid date.
pub open spec fn time_ago_of(s: Seq<char>, now: i64) -> Seq<char> {
    let p = split(s, '-');
    if p.len() != 5 {
        "未知时间"@
    } else {
        match civil_seconds_of(
            i32_or(p[0], 2026),
            u32_or(p[1], 1),
            u32_or(p[2], 1),
            u32_or(p[3], 0),
            u32_or(p[4], 0),
        ) {
            Some(t) => ago_text(now - t),
            None => "未知时间"@,
        }
    }
}

fn with_suffix(n: u64, suffix: &str) -> (r: String)
    ensures
        r@ == decimal(n as nat) + suffix@,
{
    let mut v = decimal_chars(n);
    let c = chars_of(suffix);
    let mut i: usize = 0;
    let ghost start = v@;
    while i < c.len()
        invariant
            c@ == suffix@,
            i <= c@.len(),
            v@ == start + c@.subrange(0, i as int),
        decreases c@.len() - i,
    {
        v.push(c[i]);
        i = i + 1;
        assert(v@ =~= start + c@.subrange(0, i as int));
    }
    assert(c@.subrange(0, c@.len() as int) =~= c@);
    text_of(&v)
}

/// Words for a distance of `diff` seconds into the past.
pub fn ago_words(diff: i128) -> (r: String)
    requires
        diff < 0x1_0000_0000_0000_0000_0000,
    ensures
        r@ == ago_text(diff as int),
{
    if diff < 60 {
        String::from_str("刚刚")
    } else if diff / 60 < 60 {
        with_suffix((diff / 60) as u64, "分钟前")
    } else if diff / 3600 < 24 {
        with_suffix((diff / 3600) as u64, "小时前")
    } else if diff / 86400 < 7 {
        with_suffix((diff / 86400) as u64, "天前")
    } else if diff / 86400 / 7 < 4 {
        with_suffix((diff / 86400 / 7) as u64, "周前")
    } else {
        with_suffix((diff / 86400 / 30) as u64, "个月前")
    }
}

/// How long before `now` an event-time stamp lies, in words.
pub fn time_ago_at(event_time: &str, now: i64) -> (r: String)
    ensures
        r@ == time_ago_of(event_time@, now),
{
    let p = split_chars(&chars_of(event_time), '-');
    if p.len() != 5 {
        return String::from_str("未知时间");
    }
    proof {
        assert(views(p@)[0] == p@[0]@);
        assert(views(p@)[1] == p@[1]@);
        assert(views(p@)[2] == p@[2]@);
        assert(views(p@)[3] == p@[3]@);
        assert(views(p@)[4] == p@[4]@);
    }
    let y: i32 = match parse_in_range(&p[0], true, i32::MIN as i128, i32::MAX as i128) {
        Some(v) => v as i32,
        None => 2026,
    };
    let mo: u32 = match parse_in_range(&p[1], false, 0, u32::MAX as i128) {
        Some(v) => v as u32,
        None => 1,
    };
    let d: u32 = match parse_in_range(&p[2], false, 0, u32::MAX as i128) {
        Some(v) => v as u32,
        None => 1,
    };
    let h: u32 = match parse_in_range(&p[3], false, 0, u32::MAX as i128) {
        Some(v) => v as u32,
        None => 0,
    };
    let mi: u32 = match parse_in_range(&p[4], false, 0, u32::MAX as i128) {
        Some(v) => v as u32,
        None => 0,
    };
    match civil_seconds(y, mo, d, h, mi) {
        Some(t) => ago_words(now as i128 - t as i128),
        None => String::from_str("未知时间"),
    }
}

/// How long ago an event-time stamp lies, in words, as of the current time.
pub fn calculate_time_ago(event_time: &str) -> (r: String)
    ensures
        exists|now: i64| r@ == time_ago_of(event_time@, now),
{
    let now = crate::node::now_seconds();
    time_ago_at(event_time, now)
}

} // verus!
