//! Text as sequences of characters: searching, trimming, decimal numbers.

use vstd::prelude::*;

verus! {

/// `String::push` appends one character at the end of the string.
pub assume_specification[ String::push ](s: &mut String, c: char)
    ensures
        final(s)@ == old(s)@.push(c),
;

/// The characters of a string, in order.
pub fn to_chars(s: &str) -> (r: Vec<char>)
    ensures
        r@ == s@,
{
    let mut out: Vec<char> = Vec::new();
    for c in it: s.chars()
        invariant
            it.seq() == s@,
            out@ == s@.take(it.index()),
    {
        out.push(c);
    }
    assert(s@.take(s@.len() as int) =~= s@);
    out
}

/// The characters from `lo` up to but not at `hi`.
pub fn copy_range(s: &Vec<char>, lo: usize, hi: usize) -> (r: Vec<char>)
    requires
        lo <= hi <= s@.len(),
    ensures
        r@ == s@.subrange(lo as int, hi as int),
{
    let mut out: Vec<char> = Vec::new();
    let mut i: usize = lo;
    while i < hi
        invariant
            lo <= i <= hi <= s@.len(),
            out@ == s@.subrange(lo as int, i as int),
        decreases hi - i,
    {
        out.push(s[i]);
        i += 1;
        assert(out@ =~= s@.subrange(lo as int, i as int));
    }
    out
}

/// The string made of the given characters.
pub fn from_chars(s: &Vec<char>) -> (r: String)
    ensures
        r@ == s@,
{
    let mut out = String::new();
    let mut i: usize = 0;
    while i < s.len()
        invariant
            i <= s@.len(),
            out@ == s@.take(i as int),
        decreases s.len() - i,
    {
        out.push(s[i]);
        i += 1;
        assert(out@ =~= s@.take(i as int));
    }
    assert(s@.take(s@.len() as int) =~= s@);
    out
}

// ------------------------------------------------------------------------
// Searching
// ------------------------------------------------------------------------

/// `i` is where `c` first stands in `s`.
pub open spec fn first_at(s: Seq<char>, c: char, i: int) -> bool {
    &&& 0 <= i < s.len()
    &&& s[i] == c
    &&& forall|j: int| 0 <= j < i ==> s[j] != c
}

/// What stands before and behind the first `c` of `s`.
pub open spec fn split_at_first(s: Seq<char>, c: char) -> Option<(Seq<char>, Seq<char>)> {
    if s.contains(c) {
        let i = choose|i: int| first_at(s, c, i);
        Some((s.take(i), s.skip(i + 1)))
    } else {
        None
    }
}

/// A first occurrence decides how a text splits.
pub proof fn lemma_split_at(s: Seq<char>, c: char, i: int)
    requires
        first_at(s, c, i),
    ensures
        split_at_first(s, c) == Some((s.take(i), s.skip(i + 1))),
{
    let k = choose|k: int| first_at(s, c, k);
    assert(s.contains(c));
    assert(k == i) by {
        if k < i {
            assert(s[k] == c);
        }
        if i < k {
            assert(s[i] == c);
        }
    }
}

/// Where `c` first stands, if it does.
pub fn find_char(s: &Vec<char>, c: char) -> (r: Option<usize>)
    ensures
        match r {
            Some(i) => first_at(s@, c, i as int),
            None => !s@.contains(c),
        },
{
    let mut i: usize = 0;
    while i < s.len()
        invariant
            i <= s@.len(),
            forall|j: int| 0 <= j < i ==> s@[j] != c,
        decreases s.len() - i,
    {
        if s[i] == c {
            return Some(i);
        }
        i += 1;
    }
    None
}

/// Splits a text at its first `c`, which is in neither part.
pub fn split_once(s: &Vec<char>, c: char) -> (r: Option<(Vec<char>, Vec<char>)>)
    ensures
        match r {
            Some((a, b)) => split_at_first(s@, c) == Some((a@, b@)),
            None => split_at_first(s@, c) is None,
        },
{
    match find_char(s, c) {
        Some(i) => {
            let n: usize = s.len();
            let a = copy_range(s, 0, i);
            let b = copy_range(s, i + 1, n);
            proof {
                lemma_split_at(s@, c, i as int);
            }
            Some((a, b))
        },
        None => None,
    }
}

/// What follows `prefix` in `s`, if `s` starts with it.
pub open spec fn after_prefix(s: Seq<char>, prefix: Seq<char>) -> Option<Seq<char>> {
    if prefix.is_prefix_of(s) {
        Some(s.skip(prefix.len() as int))
    } else {
        None
    }
}

/// Strips a prefix off a text.
pub fn strip_prefix(s: &Vec<char>, prefix: &str) -> (r: Option<Vec<char>>)
    ensures
        match r {
            Some(rest) => after_prefix(s@, prefix@) == Some(rest@),
            None => after_prefix(s@, prefix@) is None,
        },
{
    let p = to_chars(prefix);
    if s.len() < p.len() {
        return None;
    }
    let mut i: usize = 0;
    while i < p.len()
        invariant
            p@ == prefix@,
            i <= p@.len() <= s@.len(),
            forall|j: int| 0 <= j < i ==> s@[j] == p@[j],
        decreases p.len() - i,
    {
        if s[i] != p[i] {
            assert(!prefix@.is_prefix_of(s@)) by {
                if prefix@.is_prefix_of(s@) {
                    assert(s@.take(prefix@.len() as int)[i as int] == prefix@[i as int]);
                }
            }
            return None;
        }
        i += 1;
    }
    assert(prefix@ =~= s@.take(prefix@.len() as int));
    Some(copy_range(s, p.len(), s.len()))
}

/// Whether two texts are the same.
pub fn same_text(a: &str, b: &str) -> (r: bool)
    ensures
        r == (a@ == b@),
{
    let x = to_chars(a);
    let y = to_chars(b);
    if x.len() != y.len() {
        return false;
    }
    let mut i: usize = 0;
    while i < x.len()
        invariant
            i <= x@.len(),
            x@.len() == y@.len(),
            x@ == a@,
            y@ == b@,
            forall|j: int| 0 <= j < i ==> x@[j] == y@[j],
        decreases x.len() - i,
    {
        if x[i] != y[i] {
            return false;
        }
        i += 1;
    }
    assert(x@ =~= y@);
    true
}

/// The runs before, between and behind the separators.
pub open spec fn segments<A>(s: Seq<A>, sep: A) -> Seq<Seq<A>>
    decreases s.len(),
{
    if s.len() == 0 {
        seq![Seq::empty()]
    } else {
        let before = segments(s.drop_last(), sep);
        if s.last() == sep {
            before.push(Seq::empty())
        } else {
            before.drop_last().push(before.last().push(s.last()))
        }
    }
}

/// Vectors as the sequences they hold.
pub open spec fn contents<A>(v: Seq<Vec<A>>) -> Seq<Seq<A>> {
    Seq::new(v.len(), |i: int| v[i]@)
}

/// Cuts a text at its separators.
pub fn split_chars(s: &Vec<char>, sep: char) -> (r: Vec<Vec<char>>)
    ensures
        contents(r@) == segments(s@, sep),
{
    let mut done: Vec<Vec<char>> = Vec::new();
    let mut current: Vec<char> = Vec::new();
    let mut i: usize = 0;
    assert(contents(done@).push(current@) =~= segments(s@.take(0), sep));
    while i < s.len()
        invariant
            i <= s@.len(),
            contents(done@).push(current@) == segments(s@.take(i as int), sep),
        decreases s.len() - i,
    {
        let ghost before = contents(done@).push(current@);
        assert(s@.take(i + 1).drop_last() =~= s@.take(i as int));
        let c = s[i];
        if c == sep {
            done.push(current);
            current = Vec::new();
            assert(contents(done@) =~= before);
        } else {
            current.push(c);
            assert(before.drop_last() =~= contents(done@));
        }
        i += 1;
        assert(contents(done@).push(current@) =~= segments(s@.take(i as int), sep));
    }
    assert(s@.take(s@.len() as int) =~= s@);
    let ghost before = contents(done@).push(current@);
    done.push(current);
    assert(contents(done@) =~= before);
    done
}

/// There is always a segment.
pub proof fn lemma_segments_shape<A>(s: Seq<A>, sep: A)
    ensures
        segments(s, sep).len() > 0,
    decreases s.len(),
{
    if s.len() > 0 {
        lemma_segments_shape(s.drop_last(), sep);
    }
}

/// The segments of two texts with a separator between them are those of the one
/// and those of the other.
pub proof fn lemma_segments_concat<A>(a: Seq<A>, sep: A, b: Seq<A>)
    ensures
        segments(a.push(sep) + b, sep) == segments(a, sep) + segments(b, sep),
    decreases b.len(),
{
    let s = a.push(sep) + b;
    if b.len() == 0 {
        assert(s =~= a.push(sep));
        assert(s.drop_last() =~= a);
        assert(segments(s, sep) =~= segments(a, sep) + segments(b, sep));
    } else {
        assert(s.drop_last() =~= a.push(sep) + b.drop_last());
        lemma_segments_concat(a, sep, b.drop_last());
        lemma_segments_shape(b.drop_last(), sep);
        assert(segments(s, sep) =~= segments(a, sep) + segments(b, sep));
    }
}

/// `s` without the `c`s that it starts with.
pub open spec fn without_leading(s: Seq<char>, c: char) -> Seq<char>
    decreases s.len(),
{
    if s.len() > 0 && s[0] == c {
        without_leading(s.drop_first(), c)
    } else {
        s
    }
}

/// `s` without the `c`s that it ends with.
pub open spec fn without_trailing(s: Seq<char>, c: char) -> Seq<char>
    decreases s.len(),
{
    if s.len() > 0 && s.last() == c {
        without_trailing(s.drop_last(), c)
    } else {
        s
    }
}

/// Removes the `c`s that a text starts with.
pub fn trim_leading(s: &Vec<char>, c: char) -> (r: Vec<char>)
    ensures
        r@ == without_leading(s@, c),
{
    let mut lo: usize = 0;
    assert(s@.skip(0) =~= s@);
    while lo < s.len() && s[lo] == c
        invariant
            lo <= s@.len(),
            without_leading(s@, c) == without_leading(s@.skip(lo as int), c),
        decreases s.len() - lo,
    {
        assert(s@.skip(lo as int).drop_first() =~= s@.skip(lo + 1));
        lo += 1;
    }
    copy_range(s, lo, s.len())
}

/// Removes the `c`s that a text ends with.
pub fn trim_trailing(s: &Vec<char>, c: char) -> (r: Vec<char>)
    ensures
        r@ == without_trailing(s@, c),
{
    let mut hi: usize = s.len();
    assert(s@.take(hi as int) =~= s@);
    while hi > 0 && s[hi - 1] == c
        invariant
            hi <= s@.len(),
            without_trailing(s@, c) == without_trailing(s@.take(hi as int), c),
        decreases hi,
    {
        assert(s@.take(hi as int).drop_last() =~= s@.take(hi - 1));
        hi -= 1;
    }
    copy_range(s, 0, hi)
}

// ------------------------------------------------------------------------
// White space
// ------------------------------------------------------------------------

/// The characters with the Unicode property `White_Space`.
pub open spec fn is_white_space(c: char) -> bool {
    ||| '\u{9}' <= c <= '\u{d}'
    ||| c == ' '
    ||| c == '\u{85}'
    ||| c == '\u{a0}'
    ||| c == '\u{1680}'
    ||| '\u{2000}' <= c <= '\u{200a}'
    ||| c == '\u{2028}'
    ||| c == '\u{2029}'
    ||| c == '\u{202f}'
    ||| c == '\u{205f}'
    ||| c == '\u{3000}'
}

/// Whether a character is white space.
pub fn white_space(c: char) -> (r: bool)
    ensures
        r == is_white_space(c),
{
    ('\u{9}' <= c && c <= '\u{d}') || c == ' ' || c == '\u{85}' || c == '\u{a0}' || c == '\u{1680}'
        || ('\u{2000}' <= c && c <= '\u{200a}') || c == '\u{2028}' || c == '\u{2029}' || c
        == '\u{202f}' || c == '\u{205f}' || c == '\u{3000}'
}

/// `s` without the white space it starts with.
pub open spec fn trimmed_start(s: Seq<char>) -> Seq<char>
    decreases s.len(),
{
    if s.len() > 0 && is_white_space(s[0]) {
        trimmed_start(s.drop_first())
    } else {
        s
    }
}

/// `s` without the white space it ends with.
pub open spec fn trimmed_end(s: Seq<char>) -> Seq<char>
    decreases s.len(),
{
    if s.len() > 0 && is_white_space(s.last()) {
        trimmed_end(s.drop_last())
    } else {
        s
    }
}

/// `s` without the white space around it.
pub open spec fn trimmed(s: Seq<char>) -> Seq<char> {
    trimmed_end(trimmed_start(s))
}

/// Removes the white space around a text.
pub fn trim(s: &Vec<char>) -> (r: Vec<char>)
    ensures
        r@ == trimmed(s@),
{
    let mut lo: usize = 0;
    assert(s@.skip(0) =~= s@);
    while lo < s.len() && white_space(s[lo])
        invariant
            lo <= s@.len(),
            trimmed_start(s@) == trimmed_start(s@.skip(lo as int)),
        decreases s.len() - lo,
    {
        assert(s@.skip(lo as int).drop_first() =~= s@.skip(lo + 1));
        lo += 1;
    }
    let ghost mid = s@.skip(lo as int);
    assert(trimmed_start(s@) == mid);
    let mut hi: usize = s.len();
    assert(s@.subrange(lo as int, hi as int) =~= mid);
    while lo < hi && white_space(s[hi - 1])
        invariant
            lo <= hi <= s@.len(),
            trimmed_end(mid) == trimmed_end(s@.subrange(lo as int, hi as int)),
        decreases hi - lo,
    {
        assert(s@.subrange(lo as int, hi as int).drop_last() =~= s@.subrange(
            lo as int,
            hi - 1,
        ));
        hi -= 1;
    }
    copy_range(s, lo, hi)
}

// ------------------------------------------------------------------------
// Decimal numbers
// ------------------------------------------------------------------------

/// The digit for a number below ten.
pub open spec fn digit(d: nat) -> char {
    (48 + d) as char
}

/// A number in decimal, without leading zeros.
pub open spec fn decimal_digits(n: nat) -> Seq<char>
    decreases n,
{
    if n < 10 {
        seq![digit(n)]
    } else {
        decimal_digits(n / 10).push(digit(n % 10))
    }
}

/// Every character is one of `0` to `9`.
pub open spec fn all_digits(s: Seq<char>) -> bool {
    forall|i: int| 0 <= i < s.len() ==> '0' <= #[trigger] s[i] <= '9'
}

/// The number that digits stand for.
pub open spec fn digits_value(s: Seq<char>) -> nat
    decreases s.len(),
{
    if s.len() == 0 {
        0
    } else {
        10 * digits_value(s.drop_last()) + (s.last() as nat - 48) as nat
    }
}

/// The number that a text stands for: digits, behind at most one `+`, with a
/// value that fits in 64 bits.
pub open spec fn parsed_u64(s: Seq<char>) -> Option<u64> {
    let body = if s.len() > 0 && s[0] == '+' {
        s.drop_first()
    } else {
        s
    };
    if body.len() > 0 && all_digits(body) && digits_value(body) <= u64::MAX {
        Some(digits_value(body) as u64)
    } else {
        None
    }
}

/// More digits never make a number smaller.
proof fn lemma_prefix_value(s: Seq<char>, i: int)
    requires
        0 <= i <= s.len(),
    ensures
        digits_value(s.take(i)) <= digits_value(s),
    decreases s.len() - i,
{
    if i < s.len() {
        lemma_prefix_value(s, i + 1);
        assert(s.take(i + 1).drop_last() =~= s.take(i));
    } else {
        assert(s.take(i) =~= s);
    }
}

/// Reads a number.
pub fn parse_u64(s: &Vec<char>) -> (r: Option<u64>)
    ensures
        r == parsed_u64(s@),
{
    let start: usize = if s.len() > 0 && s[0] == '+' {
        1
    } else {
        0
    };
    let ghost body = s@.skip(start as int);
    assert(start == 1 ==> s@.drop_first() =~= body);
    assert(start == 0 ==> s@ =~= body);
    if start == s.len() {
        return None;
    }
    let mut value: u64 = 0;
    let mut i: usize = start;
    while i < s.len()
        invariant
            start <= i <= s@.len(),
            start < s@.len(),
            body == s@.skip(start as int),
            all_digits(body.take(i - start)),
            value == digits_value(body.take(i - start)),
            parsed_u64(s@) == (if all_digits(body) && digits_value(body) <= u64::MAX {
                Some(digits_value(body) as u64)
            } else {
                None::<u64>
            }),
        decreases s.len() - i,
    {
        let c = s[i];
        assert(body[i - start] == c);
        if c < '0' || '9' < c {
            return None;
        }
        let d: u64 = (c as u64) - 48;
        proof {
            let n = i - start;
            assert(body.take(n + 1).drop_last() =~= body.take(n));
            assert(digits_value(body.take(n + 1)) == 10 * value + d);
            lemma_prefix_value(body, n + 1);
            assert forall|j: int| 0 <= j < n + 1 implies '0' <= #[trigger] body.take(n + 1)[j]
                <= '9' by {
                if j < n {
                    assert(body.take(n)[j] == body.take(n + 1)[j]);
                }
            }
        }
        if value > (u64::MAX - d) / 10 {
            return None;
        }
        value = value * 10 + d;
        i += 1;
    }
    assert(body.take(body.len() as int) =~= body);
    Some(value)
}

/// Writes a number in decimal.
pub fn decimal(n: u64) -> (r: String)
    ensures
        r@ == decimal_digits(n as nat),
    decreases n,
{
    if n < 10 {
        let mut s = String::new();
        s.push((48u8 + n as u8) as char);
        assert(s@ =~= seq![digit(n as nat)]);
        s
    } else {
        let mut s = decimal(n / 10);
        s.push((48u8 + (n % 10) as u8) as char);
        s
    }
}

/// A number written in decimal reads back as itself: its text is one or more
/// digits, whose value it is.
pub proof fn law_decimal_reads_back(n: u64)
    ensures
        decimal_digits(n as nat).len() > 0,
        all_digits(decimal_digits(n as nat)),
        digits_value(decimal_digits(n as nat)) == n,
        parsed_u64(decimal_digits(n as nat)) == Some(n),
    decreases n,
{
    let s = decimal_digits(n as nat);
    if n < 10 {
        assert(s.drop_last() =~= Seq::<char>::empty());
        assert(digits_value(s.drop_last()) == 0);
    } else {
        law_decimal_reads_back(n / 10);
        assert(s.drop_last() =~= decimal_digits(n as nat / 10));
    }
}

/// `d` is the number `n` as people write it: digits, whose value it is, with no
/// zero in front of others.
pub open spec fn is_number(d: Seq<char>, n: int) -> bool {
    &&& d.len() > 0
    &&& all_digits(d)
    &&& digits_value(d) == n
    &&& d.len() > 1 ==> d[0] != '0'
}

/// A number is written as people write it.
pub proof fn law_decimal_is_a_number(n: u64)
    ensures
        is_number(decimal_digits(n as nat), n as int),
    decreases n,
{
    law_decimal_reads_back(n);
    if n >= 10 {
        law_decimal_is_a_number(n / 10);
        let d = decimal_digits(n as nat / 10);
        assert(decimal_digits(n as nat)[0] == d[0]);
        if d.len() == 1 {
            assert(d.drop_last() =~= Seq::<char>::empty());
            assert(digits_value(d.drop_last()) == 0);
        }
    }
}

/// Each digit behind others makes them ten times as much and adds its own value.
pub proof fn law_digits_count_by_tens(d: Seq<char>, c: char)
    requires
        '0' <= c <= '9',
    ensures
        digits_value(Seq::empty()) == 0,
        digits_value(d.push(c)) == 10 * digits_value(d) + (c as int - '0' as int),
{
    assert(d.push(c).drop_last() =~= d);
}

/// Each segment stands in the text between separators, or between one and an end
/// of the text, and holds none.
pub proof fn lemma_segment_at<A>(s: Seq<A>, sep: A, k: int) -> (r: (int, int))
    requires
        0 <= k < segments(s, sep).len(),
    ensures
        ({
            let (a, b) = r;
            &&& 0 <= a <= b <= s.len()
            &&& segments(s, sep)[k] == s.subrange(a, b)
            &&& a == 0 || s[a - 1] == sep
            &&& k == segments(s, sep).len() - 1 ==> b == s.len()
            &&& k < segments(s, sep).len() - 1 ==> b < s.len() && s[b] == sep
        }),
    decreases s.len(),
{
    if s.len() == 0 {
        assert(segments(s, sep)[k] =~= s.subrange(0, 0));
        (0, 0)
    } else {
        let t = s.drop_last();
        lemma_segments_shape(t, sep);
        let last = segments(t, sep).len() - 1;
        if k > last {
            assert(segments(s, sep)[k] =~= s.subrange(s.len() as int, s.len() as int));
            (s.len() as int, s.len() as int)
        } else {
            let (a, b) = lemma_segment_at(t, sep, k);
            if s.last() != sep && k == last {
                assert(segments(s, sep)[k] =~= s.subrange(a, s.len() as int));
                (a, s.len() as int)
            } else {
                assert(segments(s, sep)[k] == segments(t, sep)[k]);
                assert(t.subrange(a, b) =~= s.subrange(a, b));
                (a, b)
            }
        }
    }
}

/// What stands in the text between separators, or between one and an end of the
/// text, and holds none, is a segment.
pub proof fn lemma_segment_found<A>(s: Seq<A>, sep: A, a: int, b: int) -> (k: int)
    requires
        0 <= a <= b <= s.len(),
        a == 0 || s[a - 1] == sep,
        b == s.len() || s[b] == sep,
        forall|i: int| a <= i < b ==> s[i] != sep,
    ensures
        0 <= k < segments(s, sep).len(),
        segments(s, sep)[k] == s.subrange(a, b),
        b == s.len() ==> k == segments(s, sep).len() - 1,
        b < s.len() ==> k < segments(s, sep).len() - 1,
    decreases s.len(),
{
    if s.len() == 0 {
        assert(segments(s, sep)[0] =~= s.subrange(0, 0));
        0
    } else {
        let t = s.drop_last();
        lemma_segments_shape(t, sep);
        if b < s.len() {
            let k = lemma_segment_found(t, sep, a, b);
            assert(t.subrange(a, b) =~= s.subrange(a, b));
            assert(segments(s, sep)[k] == segments(t, sep)[k]);
            k
        } else if s.last() == sep {
            assert(a == s.len()) by {
                if a < s.len() {
                    assert(s[s.len() - 1] != sep);
                }
            }
            let k = segments(s, sep).len() - 1;
            assert(segments(s, sep)[k] =~= s.subrange(a, b));
            k
        } else {
            let k = lemma_segment_found(t, sep, a, b - 1);
            assert(segments(s, sep)[k] =~= s.subrange(a, b));
            k
        }
    }
}

/// What stands in a text stands in a segment of it, unless it is a separator.
pub proof fn lemma_in_a_segment<A>(s: Seq<A>, sep: A, x: A) -> (k: int)
    requires
        x != sep,
        s.contains(x),
    ensures
        0 <= k < segments(s, sep).len(),
        segments(s, sep)[k].contains(x),
    decreases s.len(),
{
    let t = s.drop_last();
    lemma_segments_shape(t, sep);
    let last = segments(t, sep).len() - 1;
    if s.last() == x {
        let seg = segments(s, sep)[last];
        assert(seg[seg.len() - 1] == x);
        last
    } else {
        let i = choose|i: int| 0 <= i < s.len() && s[i] == x;
        assert(t[i] == x);
        let k = lemma_in_a_segment(t, sep, x);
        let seg = segments(t, sep)[k];
        let j = choose|j: int| 0 <= j < seg.len() && seg[j] == x;
        assert(segments(s, sep)[k][j] == x);
        k
    }
}

/// What is taken off the start of a text is nothing but the character in question,
/// and all of it.
pub proof fn law_leading_are_taken_off(s: Seq<char>, c: char) -> (n: int)
    ensures
        0 <= n <= s.len(),
        forall|i: int| 0 <= i < n ==> #[trigger] s[i] == c,
        n == s.len() || s[n] != c,
        without_leading(s, c) == s.skip(n),
    decreases s.len(),
{
    if s.len() > 0 && s[0] == c {
        let t = s.drop_first();
        let m = law_leading_are_taken_off(t, c);
        assert forall|i: int| 0 <= i < m + 1 implies #[trigger] s[i] == c by {
            if i > 0 {
                assert(t[i - 1] == c);
            }
        }
        assert(t.skip(m) =~= s.skip(m + 1));
        m + 1
    } else {
        assert(s.skip(0) =~= s);
        0
    }
}

/// What is taken off the end of a text is nothing but the character in question,
/// and all of it.
pub proof fn law_trailing_are_taken_off(s: Seq<char>, c: char) -> (n: int)
    ensures
        0 <= n <= s.len(),
        forall|i: int| n <= i < s.len() ==> #[trigger] s[i] == c,
        n == 0 || s[n - 1] != c,
        without_trailing(s, c) == s.take(n),
    decreases s.len(),
{
    if s.len() > 0 && s.last() == c {
        let t = s.drop_last();
        let n = law_trailing_are_taken_off(t, c);
        assert forall|i: int| n <= i < s.len() implies #[trigger] s[i] == c by {
            if i < t.len() {
                assert(t[i] == c);
            }
        }
        assert(t.take(n) =~= s.take(n));
        n
    } else {
        assert(s.take(s.len() as int) =~= s);
        s.len() as int
    }
}

/// What is taken off around a text is white space, and all of it.
pub proof fn law_trimmed_is_what_is_inside(s: Seq<char>) -> (r: (int, int))
    ensures
        ({
            let (lo, hi) = r;
            &&& 0 <= lo <= hi <= s.len()
            &&& trimmed(s) == s.subrange(lo, hi)
            &&& forall|i: int| 0 <= i < lo ==> is_white_space(#[trigger] s[i])
            &&& forall|i: int| hi <= i < s.len() ==> is_white_space(#[trigger] s[i])
            &&& lo < hi ==> !is_white_space(s[lo]) && !is_white_space(s[hi - 1])
        }),
{
    let lo = lemma_trimmed_start(s);
    let t = s.skip(lo);
    let n = lemma_trimmed_end(t);
    let hi = lo + n;
    assert(t.take(n) =~= s.subrange(lo, hi));
    assert forall|i: int| hi <= i < s.len() implies is_white_space(#[trigger] s[i]) by {
        assert(t[i - lo] == s[i]);
    }
    if lo < hi {
        assert(t[n - 1] == s[hi - 1]);
    }
    (lo, hi)
}

proof fn lemma_trimmed_start(s: Seq<char>) -> (n: int)
    ensures
        0 <= n <= s.len(),
        trimmed_start(s) == s.skip(n),
        forall|i: int| 0 <= i < n ==> is_white_space(#[trigger] s[i]),
        n < s.len() ==> !is_white_space(s[n]),
    decreases s.len(),
{
    if s.len() > 0 && is_white_space(s[0]) {
        let t = s.drop_first();
        let m = lemma_trimmed_start(t);
        assert(t.skip(m) =~= s.skip(m + 1));
        assert forall|i: int| 0 <= i < m + 1 implies is_white_space(#[trigger] s[i]) by {
            if i > 0 {
                assert(t[i - 1] == s[i]);
            }
        }
        m + 1
    } else {
        assert(s.skip(0) =~= s);
        0
    }
}

proof fn lemma_trimmed_end(s: Seq<char>) -> (n: int)
    ensures
        0 <= n <= s.len(),
        trimmed_end(s) == s.take(n),
        forall|i: int| n <= i < s.len() ==> is_white_space(#[trigger] s[i]),
        n > 0 ==> !is_white_space(s[n - 1]),
    decreases s.len(),
{
    if s.len() > 0 && is_white_space(s.last()) {
        let t = s.drop_last();
        let n = lemma_trimmed_end(t);
        assert(t.take(n) =~= s.take(n));
        assert forall|i: int| n <= i < s.len() implies is_white_space(#[trigger] s[i]) by {
            if i < t.len() {
                assert(t[i] == s[i]);
            }
        }
        n
    } else {
        assert(s.take(s.len() as int) =~= s);
        s.len() as int
    }
}

/// White space around a text makes no difference to what is left of it.
pub proof fn law_white_space_around_is_taken_off(w: Seq<char>, s: Seq<char>, v: Seq<char>)
    requires
        forall|i: int| 0 <= i < w.len() ==> is_white_space(#[trigger] w[i]),
        forall|i: int| 0 <= i < v.len() ==> is_white_space(#[trigger] v[i]),
    ensures
        trimmed(w + s + v) == trimmed(s),
{
    let whole = w + s + v;
    let (a, b) = law_trimmed_is_what_is_inside(whole);
    let (c, d) = law_trimmed_is_what_is_inside(s);
    let n = w.len() as int;
    assert forall|i: int| 0 <= i < n implies is_white_space(#[trigger] whole[i]) by {
        assert(whole[i] == w[i]);
    }
    assert forall|i: int| 0 <= i < s.len() implies whole[n + i] == #[trigger] s[i] by {}
    assert forall|i: int| n + s.len() <= i < whole.len() implies is_white_space(
        #[trigger] whole[i],
    ) by {
        assert(whole[i] == v[i - n - s.len()]);
    }
    if a < b {
        assert(n <= a < n + s.len());
        assert(n < b <= n + s.len());
        assert(!is_white_space(s[a - n]) && !is_white_space(s[b - 1 - n]));
        assert(c < d) by {
            if c >= d {
                assert(is_white_space(s[a - n]));
            }
        }
    }
    if c < d {
        assert(!is_white_space(whole[n + c]) && !is_white_space(whole[n + d - 1]));
        assert(a < b) by {
            if a >= b {
                assert(is_white_space(whole[n + c]));
            }
        }
        assert(a == n + c) by {
            if a < n + c {
                assert(a >= n);
                assert(is_white_space(s[a - n]));
            }
        }
        assert(b == n + d) by {
            if b > n + d {
                assert(is_white_space(s[b - 1 - n]));
            }
        }
    }
    assert(whole.subrange(a, b) =~= s.subrange(c, d));
}

/// Where a character stands in a text, it has a first place there.
pub proof fn lemma_first_place(s: Seq<char>, c: char, i: int) -> (first: int)
    requires
        0 <= i < s.len(),
        s[i] == c,
    ensures
        first_at(s, c, first),
    decreases i,
{
    if exists|j: int| 0 <= j < i && s[j] == c {
        let j = choose|j: int| 0 <= j < i && s[j] == c;
        lemma_first_place(s, c, j)
    } else {
        i
    }
}

/// A number in a text is one or more digits, with a `+` in front of them or not,
/// whose value 64 bits hold. Anything else is no number: an empty text, a sign alone,
/// a text with any other character in it.
pub proof fn law_numbers_are_digits_behind_a_sign(d: Seq<char>, s: Seq<char>, i: int)
    requires
        all_digits(d),
    ensures
        d.len() > 0 && digits_value(d) <= u64::MAX ==> parsed_u64(d) == Some(digits_value(d) as u64)
            && parsed_u64(seq!['+'] + d) == Some(digits_value(d) as u64),
        d.len() == 0 || digits_value(d) > u64::MAX ==> parsed_u64(d) is None && parsed_u64(
            seq!['+'] + d,
        ) is None,
        0 <= i < s.len() && !('0' <= s[i] <= '9') && !(i == 0 && s[0] == '+') ==> parsed_u64(
            s,
        ) is None,
{
    if d.len() > 0 {
        assert('0' <= d[0] <= '9');
    }
    assert((seq!['+'] + d).drop_first() =~= d);
    if 0 <= i < s.len() && !('0' <= s[i] <= '9') && !(i == 0 && s[0] == '+') {
        if s[0] == '+' {
            assert(s.drop_first()[i - 1] == s[i]);
        }
    }
}

} // verus!
