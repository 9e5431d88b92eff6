//! Which bytes of a file a `Range` header asks for.

use crate::text;
use vstd::prelude::*;

verus! {

/// What part of a file is to be sent.
#[derive(Clone, Copy, Debug, PartialEq, Eq, Structural)]
pub enum RangeKind {
    /// The whole file.
    Full,
    /// That many bytes (second) from that offset on (first).
    Part(u64, u64),
    /// No byte of the file is in the range that was asked for.
    Unsatisfiable,
}

/// `-N`: the last `N` bytes, or all of them if the file has fewer.
pub open spec fn suffix_range(count: Seq<char>, total: u64) -> RangeKind {
    match text::parsed_u64(count) {
        None => RangeKind::Full,
        Some(n) => if n == 0 {
            RangeKind::Full
        } else {
            let len = if n <= total {
                n
            } else {
                total
            };
            RangeKind::Part((total - len) as u64, len)
        },
    }
}

/// `S-E` and `S-`: from the byte at `S` to the one at `E`, or to the end of the
/// file, whichever comes first.
pub open spec fn span_range(first: Seq<char>, last: Seq<char>, total: u64) -> RangeKind {
    match text::parsed_u64(text::trimmed(first)) {
        None => RangeKind::Full,
        Some(start) => if start >= total {
            RangeKind::Unsatisfiable
        } else if text::trimmed(last).len() == 0 {
            RangeKind::Part(start, (total - start) as u64)
        } else {
            match text::parsed_u64(text::trimmed(last)) {
                None => RangeKind::Full,
                Some(e) => {
                    let end = if e < total {
                        e as int
                    } else {
                        total - 1
                    };
                    if start > end {
                        RangeKind::Full
                    } else {
                        RangeKind::Part(start, (end - start + 1) as u64)
                    }
                },
            }
        },
    }
}

/// The part of a file of `total` bytes that a `Range` header asks for. Whatever
/// is not one well-formed range of bytes asks for the whole file.
pub open spec fn requested_range(header: Option<Seq<char>>, total: u64) -> RangeKind {
    match header {
        None => RangeKind::Full,
        Some(h) => match text::after_prefix(h, "bytes="@) {
            None => RangeKind::Full,
            Some(ranges) => if ranges.contains(',') {
                RangeKind::Full
            } else {
                match text::split_at_first(text::trimmed(ranges), '-') {
                    None => RangeKind::Full,
                    Some((first, last)) => if first.len() == 0 {
                        suffix_range(last, total)
                    } else {
                        span_range(first, last, total)
                    },
                }
            },
        },
    }
}

/// Reads a `Range` header for a file of `total` bytes.
pub fn parse_range(hdr: Option<&str>, total: u64) -> (r: RangeKind)
    ensures
        hdr is None ==> r == requested_range(None, total),
        hdr matches Some(h) ==> r == requested_range(Some(h@), total),
{
    let header = match hdr {
        Some(h) => text::to_chars(h),
        None => return RangeKind::Full,
    };
    let ranges = match text::strip_prefix(&header, "bytes=") {
        Some(ranges) => ranges,
        None => return RangeKind::Full,
    };
    match text::find_char(&ranges, ',') {
        Some(i) => {
            assert(ranges@[i as int] == ',');
            // several ranges are answered with the whole file
            return RangeKind::Full;
        },
        None => {},
    }
    let range = text::trim(&ranges);
    let (first, last) = match text::split_once(&range, '-') {
        Some(parts) => parts,
        None => return RangeKind::Full,
    };

    if first.len() == 0 {
        let n: u64 = match text::parse_u64(&last) {
            Some(n) => n,
            None => return RangeKind::Full,
        };
        if n == 0 {
            return RangeKind::Full;
        }
        let len: u64 = if n <= total {
            n
        } else {
            total
        };
        return RangeKind::Part(total - len, len);
    }
    let start: u64 = match text::parse_u64(&text::trim(&first)) {
        Some(n) => n,
        None => return RangeKind::Full,
    };
    if start >= total {
        return RangeKind::Unsatisfiable;
    }
    let last = text::trim(&last);
    let end: u64 = if last.len() == 0 {
        total - 1
    } else {
        match text::parse_u64(&last) {
            Some(e) => if e < total {
                e
            } else {
                total - 1
            },
            None => return RangeKind::Full,
        }
    };
    if start > end {
        return RangeKind::Full;
    }
    RangeKind::Part(start, end - start + 1)
}

// ------------------------------------------------------------------------
// Laws
// ------------------------------------------------------------------------

/// A part lies within the file, and has a byte unless the file has none.
pub proof fn law_part_lies_within_the_file(header: Option<Seq<char>>, total: u64)
    ensures
        requested_range(header, total) matches RangeKind::Part(offset, len) ==> {
            &&& offset + len <= total
            &&& (len == 0 ==> total == 0)
        },
{
}

/// Without a `Range` header the whole file is sent.
pub proof fn law_no_header_asks_for_everything(total: u64)
    ensures
        requested_range(None, total) == RangeKind::Full,
{
}

/// A header with several ranges, so with a comma, asks for the whole file.
pub proof fn law_several_ranges_ask_for_everything(ranges: Seq<char>, total: u64)
    requires
        ranges.contains(','),
    ensures
        requested_range(Some("bytes="@ + ranges), total) == RangeKind::Full,
{
    lemma_behind_unit(ranges);
}

/// A header in another unit than bytes asks for the whole file.
pub proof fn law_other_units_ask_for_everything(header: Seq<char>, total: u64)
    requires
        !"bytes="@.is_prefix_of(header),
    ensures
        requested_range(Some(header), total) == RangeKind::Full,
{
}

/// `bytes=S-E` is answered with the bytes from `S` to `E`, or to the end of the
/// file where that comes first; a range that starts behind the end of the file
/// is refused, and one that ends before it starts asks for the whole file.
pub proof fn law_span(start: u64, end: u64, total: u64)
    ensures
        requested_range(
            Some(
                "bytes="@ + (text::decimal_digits(start as nat) + seq!['-']
                    + text::decimal_digits(end as nat)),
            ),
            total,
        ) == if start >= total {
            RangeKind::Unsatisfiable
        } else if end < start {
            RangeKind::Full
        } else if end < total {
            RangeKind::Part(start, (end - start + 1) as u64)
        } else {
            RangeKind::Part(start, (total - start) as u64)
        },
{
    let a = text::decimal_digits(start as nat);
    let b = text::decimal_digits(end as nat);
    text::law_decimal_reads_back(start);
    text::law_decimal_reads_back(end);
    lemma_behind_unit(a + seq!['-'] + b);
    lemma_plain_range(a, b);
    lemma_digits_trimmed(a);
    lemma_digits_trimmed(b);
}

/// `bytes=S-` is answered with everything from `S` on; a range that starts
/// behind the end is refused.
pub proof fn law_open_span(start: u64, total: u64)
    ensures
        requested_range(
            Some("bytes="@ + (text::decimal_digits(start as nat) + seq!['-'])),
            total,
        ) == if start >= total {
            RangeKind::Unsatisfiable
        } else {
            RangeKind::Part(start, (total - start) as u64)
        },
{
    let a = text::decimal_digits(start as nat);
    let none = Seq::<char>::empty();
    text::law_decimal_reads_back(start);
    assert(a + seq!['-'] + none =~= a + seq!['-']);
    lemma_behind_unit(a + seq!['-']);
    lemma_plain_range(a, none);
    lemma_digits_trimmed(a);
    lemma_digits_trimmed(none);
}

/// `bytes=-N` is answered with the last `N` bytes, or with all of them if there
/// are fewer; no bytes at all cannot be asked for.
pub proof fn law_suffix(count: u64, total: u64)
    ensures
        requested_range(
            Some("bytes="@ + (seq!['-'] + text::decimal_digits(count as nat))),
            total,
        ) == if count == 0 {
            RangeKind::Full
        } else if count <= total {
            RangeKind::Part((total - count) as u64, count)
        } else {
            RangeKind::Part(0, total)
        },
{
    let b = text::decimal_digits(count as nat);
    let none = Seq::<char>::empty();
    text::law_decimal_reads_back(count);
    assert(none + seq!['-'] + b =~= seq!['-'] + b);
    lemma_behind_unit(seq!['-'] + b);
    lemma_plain_range(none, b);
}

/// Numbers are read by their value, with zeros in front or not: `bytes=S-E` and
/// `bytes=S-` are answered with the bytes from the one at `S` to the one at `E`, or
/// to the end of the file where that comes first. A range that starts behind the end
/// is refused. One that ends before it starts, or a number that 64 bits do not hold,
/// asks for the whole file.
pub proof fn law_numbers_are_read_by_their_value(a: Seq<char>, b: Seq<char>, total: u64)
    requires
        text::all_digits(a),
        text::all_digits(b),
        a.len() > 0,
    ensures
        ({
            let start = text::digits_value(a);
            let end = if b.len() == 0 {
                u64::MAX as nat
            } else {
                text::digits_value(b)
            };
            requested_range(Some("bytes="@ + (a + seq!['-'] + b)), total) == if start > u64::MAX {
                RangeKind::Full
            } else if start >= total {
                RangeKind::Unsatisfiable
            } else if end > u64::MAX || end < start {
                RangeKind::Full
            } else if end < total {
                RangeKind::Part(start as u64, (end - start + 1) as u64)
            } else {
                RangeKind::Part(start as u64, (total - start) as u64)
            }
        }),
{
    assert('0' <= a[0] <= '9');
    if b.len() > 0 {
        assert('0' <= b[0] <= '9');
    }
    lemma_behind_unit(a + seq!['-'] + b);
    lemma_plain_range(a, b);
    lemma_digits_trimmed(a);
    lemma_digits_trimmed(b);
}

/// `bytes=-N` is answered with the last `N` bytes, or with all of them if there are
/// fewer, whatever zeros stand in front of the number. No bytes, or more of them than
/// 64 bits can count, ask for the whole file, and so does a dash alone.
pub proof fn law_last_bytes_are_counted(b: Seq<char>, total: u64)
    requires
        text::all_digits(b),
    ensures
        ({
            let count = text::digits_value(b);
            requested_range(Some("bytes="@ + (seq!['-'] + b)), total) == if count == 0 || count
                > u64::MAX {
                RangeKind::Full
            } else if count <= total {
                RangeKind::Part((total - count) as u64, count as u64)
            } else {
                RangeKind::Part(0, total)
            }
        }),
{
    let none = Seq::<char>::empty();
    if b.len() > 0 {
        assert('0' <= b[0] <= '9');
    }
    assert(none + seq!['-'] + b =~= seq!['-'] + b);
    lemma_behind_unit(seq!['-'] + b);
    lemma_plain_range(none, b);
}

/// White space around a range makes no difference.
pub proof fn law_white_space_makes_no_difference(
    w: Seq<char>,
    range: Seq<char>,
    v: Seq<char>,
    total: u64,
)
    requires
        forall|i: int| 0 <= i < w.len() ==> text::is_white_space(#[trigger] w[i]),
        forall|i: int| 0 <= i < v.len() ==> text::is_white_space(#[trigger] v[i]),
    ensures
        requested_range(Some("bytes="@ + (w + range + v)), total) == requested_range(
            Some("bytes="@ + range),
            total,
        ),
{
    let whole = w + range + v;
    lemma_behind_unit(whole);
    lemma_behind_unit(range);
    text::law_white_space_around_is_taken_off(w, range, v);
    assert(whole.contains(',') <==> range.contains(',')) by {
        if whole.contains(',') {
            let i = choose|i: int| 0 <= i < whole.len() && whole[i] == ',';
            if i < w.len() {
                assert(text::is_white_space(w[i]));
            } else if i >= w.len() + range.len() {
                assert(text::is_white_space(v[i - w.len() - range.len()]));
            }
            assert(range[i - w.len()] == ',');
        }
        if range.contains(',') {
            let i = choose|i: int| 0 <= i < range.len() && range[i] == ',';
            assert(whole[w.len() + i] == ',');
        }
    }
}

/// Nor does white space around either number of a range, before the dash or behind
/// it. Between a dash and the number of the last bytes there can be none: such a
/// header asks for the whole file.
pub proof fn law_white_space_around_numbers(
    a: Seq<char>,
    v: Seq<char>,
    w: Seq<char>,
    b: Seq<char>,
    total: u64,
)
    requires
        text::all_digits(a),
        text::all_digits(b),
        forall|i: int| 0 <= i < v.len() ==> text::is_white_space(#[trigger] v[i]),
        forall|i: int| 0 <= i < w.len() ==> text::is_white_space(#[trigger] w[i]),
    ensures
        a.len() > 0 ==> requested_range(Some("bytes="@ + (a + v + seq!['-'] + w + b)), total)
            == requested_range(Some("bytes="@ + (a + seq!['-'] + b)), total),
        b.len() > 0 && w.len() > 0 ==> requested_range(
            Some("bytes="@ + (seq!['-'] + w + b)),
            total,
        ) == RangeKind::Full,
{
    let none = Seq::<char>::empty();
    if a.len() > 0 {
        let first = a + v;
        let plain = a + seq!['-'] + b;
        let s = a + v + seq!['-'] + w + b;
        lemma_spaced_range(a, v, w, b);
        lemma_behind_unit(s);
        lemma_behind_unit(plain);
        lemma_plain_range(a, b);
        lemma_digits_trimmed(a);
        lemma_digits_trimmed(b);
        text::law_white_space_around_is_taken_off(none, a, v);
        assert(none + a + v =~= first);
        text::law_white_space_around_is_taken_off(w, b, none);
        assert(w + b + none =~= w + b);
        text::law_white_space_around_is_taken_off(none, none, none);
    }
    if b.len() > 0 && w.len() > 0 {
        let s = seq!['-'] + w + b;
        lemma_spaced_range(none, none, w, b);
        assert(none + none + seq!['-'] + w + b =~= s);
        assert(none + none =~= none);
        lemma_behind_unit(s);
        assert(text::is_white_space(w[0]));
        assert((w + b)[0] == w[0]);
        text::law_numbers_are_digits_behind_a_sign(none, w + b, 0);
    }
}

/// Where such a range comes apart.
proof fn lemma_spaced_range(a: Seq<char>, v: Seq<char>, w: Seq<char>, b: Seq<char>)
    requires
        text::all_digits(a),
        text::all_digits(b),
        forall|i: int| 0 <= i < v.len() ==> text::is_white_space(#[trigger] v[i]),
        forall|i: int| 0 <= i < w.len() ==> text::is_white_space(#[trigger] w[i]),
        a.len() > 0 || v.len() == 0,
    ensures
        ({
            let s = a + v + seq!['-'] + w + b;
            &&& !s.contains(',')
            &&& text::split_at_first(text::trimmed(s), '-') == Some(
                (
                    a + v,
                    if b.len() > 0 {
                        w + b
                    } else {
                        Seq::empty()
                    },
                ),
            )
        }),
{
    let s = a + v + seq!['-'] + w + b;
    let n = (a.len() + v.len()) as int;
    let m = w.len() as int;
    assert forall|i: int| 0 <= i < s.len() implies #[trigger] s[i] != ',' && (i < n ==> s[i]
        != '-') by {
        if i < a.len() {
            assert(s[i] == a[i]);
        } else if i < n {
            assert(s[i] == v[i - a.len()]);
        } else if i == n {
            assert(s[i] == '-');
        } else if i <= n + m {
            assert(s[i] == w[i - n - 1]);
        } else {
            assert(s[i] == b[i - n - m - 1]);
        }
    }
    if a.len() > 0 {
        assert('0' <= a[0] <= '9');
        assert(s[0] == a[0]);
    } else {
        assert(s[0] == '-');
    }
    let none = Seq::<char>::empty();
    let t = if b.len() > 0 {
        s
    } else {
        a + v + seq!['-']
    };
    if b.len() > 0 {
        assert('0' <= b[b.len() - 1] <= '9');
        assert(s[s.len() - 1] == b[b.len() - 1]);
    } else {
        text::law_white_space_around_is_taken_off(none, t, w);
        assert(none + t + w =~= s);
        assert(t[0] == s[0]);
        assert(t[t.len() - 1] == '-');
    }
    assert(text::trimmed(s) == t) by {
        assert(text::trimmed_start(t) == t);
        assert(text::trimmed_end(t) == t);
    }
    assert(t[n] == '-');
    assert forall|j: int| 0 <= j < n implies t[j] != '-' by {
        assert(t[j] == s[j]);
    }
    assert(text::first_at(t, '-', n));
    text::lemma_split_at(t, '-', n);
    assert(t.take(n) =~= a + v);
    if b.len() > 0 {
        assert(t.skip(n + 1) =~= w + b);
    } else {
        assert(t.skip(n + 1) =~= none);
    }
}

/// A sign in front of a number makes no difference to a range.
pub proof fn law_signs_make_no_difference(a: Seq<char>, b: Seq<char>, total: u64)
    requires
        text::all_digits(a),
        text::all_digits(b),
    ensures
        a.len() > 0 ==> requested_range(
            Some("bytes="@ + (seq!['+'] + a + seq!['-'] + b)),
            total,
        ) == requested_range(Some("bytes="@ + (a + seq!['-'] + b)), total),
        b.len() > 0 ==> requested_range(
            Some("bytes="@ + (a + seq!['-'] + (seq!['+'] + b))),
            total,
        ) == requested_range(Some("bytes="@ + (a + seq!['-'] + b)), total),
{
    let x = seq!['+'] + a;
    let y = seq!['+'] + b;
    assert forall|i: int| 0 <= i < x.len() implies '0' <= #[trigger] x[i] <= '9' || x[i]
        == '+' by {
        if i > 0 {
            assert(x[i] == a[i - 1]);
        }
    }
    assert forall|i: int| 0 <= i < y.len() implies '0' <= #[trigger] y[i] <= '9' || y[i]
        == '+' by {
        if i > 0 {
            assert(y[i] == b[i - 1]);
        }
    }
    lemma_behind_unit(a + seq!['-'] + b);
    lemma_behind_unit(x + seq!['-'] + b);
    lemma_behind_unit(a + seq!['-'] + y);
    lemma_plain_range(a, b);
    lemma_plain_range(x, b);
    lemma_plain_range(a, y);
    lemma_digits_trimmed(a);
    lemma_digits_trimmed(b);
    lemma_digits_trimmed(x);
    lemma_digits_trimmed(y);
    text::law_numbers_are_digits_behind_a_sign(a, a, 0);
    text::law_numbers_are_digits_behind_a_sign(b, b, 0);
}

/// Only a header that is one range of bytes has another answer than the whole file:
/// behind `bytes=`, and without a comma, there is a dash with a number on one side
/// of it at least, and nothing on the other that is no number.
pub proof fn law_only_one_range_of_bytes_selects(header: Seq<char>, total: u64) -> (sides: (
    Seq<char>,
    Seq<char>,
))
    requires
        requested_range(Some(header), total) != RangeKind::Full,
    ensures
        ({
            let (a, b) = sides;
            let n = "bytes="@.len() as int;
            &&& "bytes="@.is_prefix_of(header)
            &&& !header.skip(n).contains(',')
            &&& text::trimmed(header.skip(n)) == a + seq!['-'] + b
            &&& !a.contains('-')
            &&& a.len() == 0 ==> text::parsed_u64(b) is Some
            &&& a.len() > 0 ==> text::parsed_u64(text::trimmed(a)) is Some
            &&& requested_range(Some(header), total) is Part && a.len() > 0 && text::trimmed(
                b,
            ).len() > 0 ==> text::parsed_u64(text::trimmed(b)) is Some
        }),
{
    let s = text::trimmed(header.skip("bytes="@.len() as int));
    let i = choose|i: int| 0 <= i < s.len() && s[i] == '-';
    let k = text::lemma_first_place(s, '-', i);
    text::lemma_split_at(s, '-', k);
    assert(s =~= s.take(k) + seq!['-'] + s.skip(k + 1));
    (s.take(k), s.skip(k + 1))
}

proof fn lemma_behind_unit(ranges: Seq<char>)
    ensures
        text::after_prefix("bytes="@ + ranges, "bytes="@) == Some(ranges),
{
    let unit = "bytes="@;
    assert(unit =~= (unit + ranges).take(unit.len() as int));
    assert((unit + ranges).skip(unit.len() as int) =~= ranges);
}

proof fn lemma_digits_trimmed(s: Seq<char>)
    requires
        forall|i: int| 0 <= i < s.len() ==> '0' <= #[trigger] s[i] <= '9' || s[i] == '+',
    ensures
        text::trimmed(s) == s,
{
    if s.len() > 0 {
        assert('0' <= s[0] <= '9' || s[0] == '+');
        assert('0' <= s[s.len() - 1] <= '9' || s[s.len() - 1] == '+');
    }
}

/// Digits, a dash and digits, signed or not, of which one side may be missing, have
/// no white space around them, no comma, and come apart at the dash.
proof fn lemma_plain_range(a: Seq<char>, b: Seq<char>)
    requires
        forall|i: int| 0 <= i < a.len() ==> '0' <= #[trigger] a[i] <= '9' || a[i] == '+',
        forall|i: int| 0 <= i < b.len() ==> '0' <= #[trigger] b[i] <= '9' || b[i] == '+',
    ensures
        ({
            let s = a + seq!['-'] + b;
            &&& text::trimmed(s) == s
            &&& !s.contains(',')
            &&& text::split_at_first(s, '-') == Some((a, b))
        }),
{
    let s = a + seq!['-'] + b;
    assert forall|i: int| 0 <= i < s.len() implies (s[i] == '-' || s[i] == '+' || '0'
        <= #[trigger] s[i] <= '9') by {
        if i < a.len() {
            assert(s[i] == a[i]);
        } else if i > a.len() {
            assert(s[i] == b[i - a.len() - 1]);
        }
    }
    assert(s[0] == '-' || s[0] == '+' || '0' <= s[0] <= '9');
    assert(s[s.len() - 1] == '-' || s[s.len() - 1] == '+' || '0' <= s[s.len() - 1] <= '9');
    assert(text::trimmed_start(s) == s);
    assert(text::trimmed(s) == s);
    assert forall|j: int| 0 <= j < a.len() implies s[j] != '-' by {
        assert(s[j] == a[j]);
    }
    assert(s[a.len() as int] == '-');
    assert(text::first_at(s, '-', a.len() as int));
    text::lemma_split_at(s, '-', a.len() as int);
    assert(s.take(a.len() as int) =~= a);
    assert(s.skip(a.len() as int + 1) =~= b);
}

} // verus!
