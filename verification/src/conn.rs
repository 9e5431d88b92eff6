//! The header barrier of a connection.
//!
//! File data goes to the socket behind the back of the HTTP machinery, so not a
//! byte of it may be sent before the response headers are out. Each download
//! response carries a marker header with a number of its own, and the barrier
//! watches everything that is written: first for the line of that header, by
//! which it knows the response, and from the end of that line on for the blank
//! line that ends the headers. Once that has gone by, all of them are out.

use crate::text;
use std::task::Waker;
use vstd::prelude::*;
use vstd::string::*;
use vstd::utf8::*;

verus! {

/// Name of the marker header.
pub const MARKER_HEADER: &'static str = "x-conn-marker";

/// `std::task::Waker`, the handle by which a sleeping task is woken. Nothing is
/// said of what is inside.
#[verifier::external_type_specification]
#[verifier::external_body]
pub struct ExWaker(std::task::Waker);

/// `Waker::will_wake` compares two handles, on a best-effort basis. Nothing is
/// said of the answer, which may be `false` for handles of one task.
pub assume_specification[ Waker::will_wake ](waker: &Waker, other: &Waker) -> (r: bool)
;

/// `Waker::clone` makes another handle of the same task. Nothing is said of how
/// the handle compares with the first.
pub assume_specification[ <Waker as Clone>::clone ](waker: &Waker) -> (r: Waker)
;

// ------------------------------------------------------------------------
// Marker numbers
// ------------------------------------------------------------------------

/// The numbers that markers are stamped with, in the order of counting.
pub struct MarkerSeq {
    next: u64,
}

impl MarkerSeq {
    /// The number that comes next.
    pub closed spec fn upcoming(&self) -> u64 {
        self.next
    }

    /// Counting from zero.
    pub fn new() -> (r: Self)
        ensures
            r.upcoming() == 0,
    {
        MarkerSeq { next: 0 }
    }
}

/// The number behind `v`; behind the largest one counting starts again.
pub open spec fn successor(v: u64) -> u64 {
    if v == u64::MAX {
        0
    } else {
        (v + 1) as u64
    }
}

/// The number that is drawn after `draws` others, from `first` on.
pub open spec fn drawn(first: u64, draws: nat) -> u64
    decreases draws,
{
    if draws == 0 {
        first
    } else {
        successor(drawn(first, (draws - 1) as nat))
    }
}

/// Takes a fresh number for a response.
pub fn next_marker_value(seq: &mut MarkerSeq) -> (v: u64)
    ensures
        v == old(seq).upcoming(),
        final(seq).upcoming() == successor(v),
        v < u64::MAX ==> final(seq).upcoming() == v + 1,
{
    let v: u64 = seq.next;
    seq.next = v.wrapping_add(1);
    v
}

proof fn lemma_drawn(first: u64, draws: nat)
    ensures
        drawn(first, draws) as int == (first + draws) % 0x1_0000_0000_0000_0000,
    decreases draws,
{
    if draws > 0 {
        lemma_drawn(first, (draws - 1) as nat);
    }
}

/// No number comes up twice before all of them have.
pub proof fn law_marker_numbers_differ(first: u64, i: nat, j: nat)
    requires
        i < j,
        j - i < 0x1_0000_0000_0000_0000,
    ensures
        drawn(first, i) != drawn(first, j),
{
    lemma_drawn(first, i);
    lemma_drawn(first, j);
}

// ------------------------------------------------------------------------
// Byte patterns
// ------------------------------------------------------------------------

/// `pattern` stands in `s` at `i`.
pub open spec fn occurs_at(pattern: Seq<u8>, s: Seq<u8>, i: int) -> bool {
    0 <= i && i + pattern.len() <= s.len() && s.subrange(i, i + pattern.len()) == pattern
}

/// `i` is where `pattern` first stands in `s`.
pub open spec fn first_occurrence(pattern: Seq<u8>, s: Seq<u8>, i: int) -> bool {
    occurs_at(pattern, s, i) && forall|j: int| j < i ==> !occurs_at(pattern, s, j)
}

/// What is behind the place where `pattern` first stands in `s`.
pub open spec fn behind(pattern: Seq<u8>, s: Seq<u8>) -> Seq<u8> {
    let i = choose|i: int| first_occurrence(pattern, s, i);
    s.skip(i + pattern.len())
}

/// `pattern` stands somewhere in `s`.
pub open spec fn occurs(pattern: Seq<u8>, s: Seq<u8>) -> bool {
    exists|i: int| occurs_at(pattern, s, i)
}

/// The last `n` bytes of `s`, or all of it.
pub open spec fn tail(s: Seq<u8>, n: int) -> Seq<u8> {
    if s.len() <= n {
        s
    } else {
        s.skip(s.len() - n)
    }
}

/// Whether a pattern stands in a run of bytes at the given place.
fn matches_at(pattern: &Vec<u8>, s: &Vec<u8>, i: usize) -> (r: bool)
    requires
        i + pattern@.len() <= s@.len(),
    ensures
        r == occurs_at(pattern@, s@, i as int),
{
    let n: usize = s.len();
    let mut k: usize = 0;
    while k < pattern.len()
        invariant
            k <= pattern@.len(),
            n == s@.len(),
            i + pattern@.len() <= n,
            forall|j: int| 0 <= j < k ==> s@[i + j] == pattern@[j],
        decreases pattern.len() - k,
    {
        if s[i + k] != pattern[k] {
            assert(s@.subrange(i as int, i + pattern@.len())[k as int] != pattern@[k as int]);
            return false;
        }
        k += 1;
    }
    assert(s@.subrange(i as int, i + pattern@.len()) =~= pattern@);
    true
}

/// Where a pattern first stands in a run of bytes, if it does.
pub fn find_bytes(pattern: &Vec<u8>, s: &Vec<u8>) -> (r: Option<usize>)
    ensures
        match r {
            Some(i) => first_occurrence(pattern@, s@, i as int),
            None => !occurs(pattern@, s@),
        },
{
    if s.len() < pattern.len() {
        return None;
    }
    let last: usize = s.len() - pattern.len();
    let mut i: usize = 0;
    loop
        invariant
            i <= last,
            last + pattern@.len() == s@.len(),
            forall|j: int| 0 <= j < i ==> !occurs_at(pattern@, s@, j),
        decreases last - i,
    {
        if matches_at(pattern, s, i) {
            return Some(i);
        }
        if i == last {
            return None;
        }
        i += 1;
    }
}

/// One run of bytes and another behind it.
fn concat_bytes(a: &[u8], b: &[u8]) -> (r: Vec<u8>)
    ensures
        r@ == a@ + b@,
{
    let mut r: Vec<u8> = Vec::new();
    r.extend_from_slice(a);
    r.extend_from_slice(b);
    assert(r@ =~= a@ + b@);
    r
}

/// The last `n` bytes of a run, or all of it.
fn last_bytes(s: &Vec<u8>, n: usize) -> (r: Vec<u8>)
    ensures
        r@ == tail(s@, n as int),
{
    let from: usize = if s.len() <= n {
        0
    } else {
        s.len() - n
    };
    let mut r: Vec<u8> = Vec::new();
    r.extend_from_slice(vstd::slice::slice_subrange(s.as_slice(), from, s.len()));
    assert(r@ =~= tail(s@, n as int));
    r
}

/// The marker header line with the given number.
pub open spec fn marker_text(value: u64) -> Seq<char> {
    MARKER_HEADER@ + ": "@ + text::decimal_digits(value as nat) + "\r\n"@
}

/// That line as it goes over the wire.
pub open spec fn marker_bytes(value: u64) -> Seq<u8> {
    encode_utf8(marker_text(value))
}

// ------------------------------------------------------------------------
// The barrier
// ------------------------------------------------------------------------

/// The end of the last header line and the blank line behind it, with which the
/// headers of a response end.
pub open spec fn head_end() -> Seq<u8> {
    seq![13u8, 10u8, 13u8, 10u8]
}

/// The line of a marker has gone over the wire, and so has the end of the headers
/// that it is among: at the end of that line or behind it.
pub open spec fn head_is_out(marker: Seq<u8>, wire: Seq<u8>) -> bool {
    exists|i: int, j: int|
        #[trigger] occurs_at(marker, wire, i) && i + marker.len() - 2 <= j && #[trigger] occurs_at(
            head_end(),
            wire,
            j,
        )
}

/// What a barrier knows.
#[verifier::ext_equal]
pub struct Barrier {
    /// The bytes that are looked for, none while there is no download.
    pub marker: Seq<u8>,
    /// The end of what was written, as far as a marker may have begun in it.
    pub carry: Seq<u8>,
    /// The marker was seen.
    pub head_written: bool,
    /// The end of what was written from the end of the marker on, as far as the
    /// end of the headers may have begun in it.
    pub rest: Seq<u8>,
    /// The end of the headers was seen.
    pub head_complete: bool,
}

impl Barrier {
    /// Of a connection on which nothing was written or asked for.
    pub open spec fn fresh() -> Barrier {
        Barrier {
            marker: Seq::empty(),
            carry: Seq::empty(),
            head_written: false,
            rest: Seq::empty(),
            head_complete: false,
        }
    }

    /// Waiting for the marker with the given number.
    pub open spec fn armed(self, value: u64) -> Barrier {
        Barrier {
            marker: marker_bytes(value),
            head_written: false,
            rest: Seq::empty(),
            head_complete: false,
            ..self
        }
    }

    /// After `buf` was written. A marker is also found where it began in what
    /// was written before, and so is the end of the headers.
    pub open spec fn after_write(self, buf: Seq<u8>) -> Barrier {
        let seen = self.carry + buf;
        if self.marker.len() == 0 || self.head_complete {
            self
        } else if self.head_written {
            self.past_marker(self.rest + buf)
        } else if occurs(self.marker, seen) {
            Barrier { head_written: true, carry: Seq::empty(), ..self }.past_marker(
                tail(self.marker, 2) + behind(self.marker, seen),
            )
        } else {
            Barrier { carry: tail(seen, self.marker.len() - 1), ..self }
        }
    }

    /// After `seen` has gone by, from the end of the marker on.
    pub open spec fn past_marker(self, seen: Seq<u8>) -> Barrier {
        if occurs(head_end(), seen) {
            Barrier { head_complete: true, rest: Seq::empty(), ..self }
        } else {
            Barrier { rest: tail(seen, 3), ..self }
        }
    }

    /// Since `before`, the marker or the end of the headers was seen.
    pub open spec fn further_than(self, before: Barrier) -> bool {
        ||| self.head_written != before.head_written
        ||| self.head_complete != before.head_complete
    }

    /// After several writes, one behind the other.
    pub open spec fn after_writes(self, writes: Seq<Seq<u8>>) -> Barrier
        decreases writes.len(),
    {
        if writes.len() == 0 {
            self
        } else {
            self.after_writes(writes.drop_last()).after_write(writes.last())
        }
    }
}

/// Everything that several writes put on the wire.
pub open spec fn joined(writes: Seq<Seq<u8>>) -> Seq<u8>
    decreases writes.len(),
{
    if writes.len() == 0 {
        Seq::empty()
    } else {
        joined(writes.drop_last()) + writes.last()
    }
}

/// The barrier of one connection, and the task that waits at it.
pub struct ConnInner {
    marker: Vec<u8>,
    carry: Vec<u8>,
    head_written: bool,
    rest: Vec<u8>,
    head_complete: bool,
    waker: Option<Waker>,
}

impl View for ConnInner {
    type V = Barrier;

    closed spec fn view(&self) -> Barrier {
        Barrier {
            marker: self.marker@,
            carry: self.carry@,
            head_written: self.head_written,
            rest: self.rest@,
            head_complete: self.head_complete,
        }
    }
}

impl ConnInner {
    /// The task to be woken when the headers are out.
    pub closed spec fn waiting(&self) -> Option<Waker> {
        self.waker
    }

    /// A connection on which nothing was written or asked for.
    pub fn new() -> (r: Self)
        ensures
            r@ == Barrier::fresh(),
            r.waiting() is None,
    {
        ConnInner {
            marker: Vec::new(),
            carry: Vec::new(),
            head_written: false,
            rest: Vec::new(),
            head_complete: false,
            waker: None,
        }
    }

    /// Closes the barrier until the headers with the marker of this number have
    /// been written.
    pub fn arm(&mut self, marker_value: u64)
        ensures
            final(self)@ == old(self)@.armed(marker_value),
            final(self).waiting() == old(self).waiting(),
    {
        let mut line = String::new();
        line.append(MARKER_HEADER);
        line.append(": ");
        line.append(text::decimal(marker_value).as_str());
        line.append("\r\n");
        assert(line@ =~= marker_text(marker_value));
        self.marker = line.as_str().as_bytes_vec();
        // `carry` stays: it is too short for the marker that is now looked for
        self.head_written = false;
        self.rest = Vec::new();
        self.head_complete = false;
    }

    /// Takes note of bytes that have gone by from the end of the marker on.
    fn look_for_end(&mut self, seen: &Vec<u8>)
        ensures
            final(self)@ == old(self)@.past_marker(seen@),
            final(self).waiting() == old(self).waiting(),
    {
        let end: Vec<u8> = vec![13u8, 10u8, 13u8, 10u8];
        assert(end@ =~= head_end());
        match find_bytes(&end, seen) {
            Some(_) => {
                self.head_complete = true;
                self.rest = Vec::new();
            },
            None => {
                // the next write may complete an end that begins in these bytes
                self.rest = last_bytes(seen, 3);
            },
        }
    }

    /// Takes note of bytes that have reached the socket. When they complete the
    /// marker, or the headers, the task that waits is handed out, to be woken.
    pub fn note_write(&mut self, buf: &[u8]) -> (woken: Option<Waker>)
        ensures
            final(self)@ == old(self)@.after_write(buf@),
            final(self)@.further_than(old(self)@) ==> {
                &&& woken == old(self).waiting()
                &&& final(self).waiting() is None
            },
            !final(self)@.further_than(old(self)@) ==> {
                &&& woken is None
                &&& final(self).waiting() == old(self).waiting()
            },
            // whoever waits is handed out when one of the two marks is reached
            final(self)@.head_written != old(self)@.head_written || final(self)@.head_complete
                != old(self)@.head_complete ==> woken == old(self).waiting(),
            final(self)@.head_written == old(self)@.head_written && final(self)@.head_complete
                == old(self)@.head_complete ==> woken is None && final(self).waiting() == old(
                self,
            ).waiting(),
    {
        if self.marker.len() == 0 {
            return None;
        }
        if self.head_complete {
            return None;
        }
        if self.head_written {
            let seen = concat_bytes(self.rest.as_slice(), buf);
            self.look_for_end(&seen);
            if !self.head_complete {
                return None;
            }
            return self.waker.take();
        }
        let seen = concat_bytes(self.carry.as_slice(), buf);
        match find_bytes(&self.marker, &seen) {
            Some(i) => {
                proof {
                    lemma_behind(self.marker@, seen@, i as int);
                }
                let line_end = last_bytes(&self.marker, 2);
                let n: usize = seen.len();
                let seen = concat_bytes(
                    line_end.as_slice(),
                    vstd::slice::slice_subrange(seen.as_slice(), i + self.marker.len(), n),
                );
                self.head_written = true;
                self.carry = Vec::new();
                self.look_for_end(&seen);
                self.waker.take()
            },
            None => {
                // the next write may complete a marker that begins in these bytes
                self.carry = last_bytes(&seen, self.marker.len() - 1);
                None
            },
        }
    }

    /// Takes note of a write of which only the first `n` bytes have reached the
    /// socket.
    pub fn note_partial_write(&mut self, buf: &[u8], n: usize) -> (woken: Option<Waker>)
        requires
            n <= buf@.len(),
        ensures
            final(self)@ == old(self)@.after_write(buf@.take(n as int)),
            final(self)@.further_than(old(self)@) ==> {
                &&& woken == old(self).waiting()
                &&& final(self).waiting() is None
            },
            !final(self)@.further_than(old(self)@) ==> {
                &&& woken is None
                &&& final(self).waiting() == old(self).waiting()
            },
            // whoever waits is handed out when one of the two marks is reached
            final(self)@.head_written != old(self)@.head_written || final(self)@.head_complete
                != old(self)@.head_complete ==> woken == old(self).waiting(),
            final(self)@.head_written == old(self)@.head_written && final(self)@.head_complete
                == old(self)@.head_complete ==> woken is None && final(self).waiting() == old(
                self,
            ).waiting(),
    {
        self.note_write(vstd::slice::slice_subrange(buf, 0, n))
    }

    /// Whether the marker of the current response is out.
    pub fn head_written(&self) -> (r: bool)
        ensures
            r == self@.head_written,
    {
        self.head_written
    }

    /// Whether all headers of the current response are out.
    pub fn head_complete(&self) -> (r: bool)
        ensures
            r == self@.head_complete,
    {
        self.head_complete
    }

    /// Leaves a handle of the task that is to be woken when the headers are out.
    /// A handle that is there and wakes the same task stays; whether it does is
    /// for `will_wake` to say.
    pub fn register_waker(&mut self, waker: &Waker)
        ensures
            final(self)@ == old(self)@,
            final(self).waiting() matches Some(w) && (cloned(*waker, w) || old(self).waiting()
                == Some(w)),
            old(self).waiting() is None ==> cloned(*waker, final(self).waiting()->0),
            old(self).waiting() is Some ==> exists|same: bool|
                #[trigger] call_ensures(
                    Waker::will_wake,
                    (&old(self).waiting()->0, waker),
                    same,
                ) && (same ==> final(self).waiting() == old(self).waiting()) && (!same ==> cloned(
                    *waker,
                    final(self).waiting()->0,
                )),
    {
        let same_task = match &self.waker {
            Some(prev) => prev.will_wake(waker),
            None => false,
        };
        self.register_unless(same_task, waker);
    }

    /// Leaves a handle, unless there is one that wakes the same task.
    pub fn register_unless(&mut self, same_task: bool, waker: &Waker)
        ensures
            final(self)@ == old(self)@,
            same_task && old(self).waiting() is Some ==> final(self).waiting() == old(
                self,
            ).waiting(),
            !same_task || old(self).waiting() is None ==> {
                &&& final(self).waiting() is Some
                &&& cloned(*waker, final(self).waiting()->0)
            },
    {
        if same_task && self.waker.is_some() {
            return;
        }
        self.waker = Some(waker.clone());
    }
}

/// Begins a download on a connection: draws a fresh number and closes the barrier
/// until the headers with the marker of that number have been written.
pub fn begin_download(seq: &mut MarkerSeq, barrier: &mut ConnInner) -> (v: u64)
    ensures
        v == old(seq).upcoming(),
        final(seq).upcoming() == successor(v),
        final(barrier)@ == old(barrier)@.armed(v),
        final(barrier).waiting() == old(barrier).waiting(),
{
    let v: u64 = next_marker_value(seq);
    barrier.arm(v);
    v
}

// ------------------------------------------------------------------------
// Laws of the barrier
// ------------------------------------------------------------------------

/// What stands in the first part of a run of bytes stands in the whole.
proof fn lemma_occurs_extends(pattern: Seq<u8>, a: Seq<u8>, b: Seq<u8>)
    requires
        occurs(pattern, a),
    ensures
        occurs(pattern, a + b),
{
    let i = choose|i: int| occurs_at(pattern, a, i);
    assert((a + b).subrange(i, i + pattern.len()) =~= a.subrange(i, i + pattern.len()));
    assert(occurs_at(pattern, a + b, i));
}

/// A pattern that has not occurred yet needs no more than the last bytes, one
/// fewer than it has, to be found when it does.
proof fn lemma_tail_suffices(pattern: Seq<u8>, s: Seq<u8>, buf: Seq<u8>)
    requires
        pattern.len() > 0,
        !occurs(pattern, s),
    ensures
        ({
            let n = pattern.len() - 1;
            &&& occurs(pattern, tail(s, n) + buf) == occurs(pattern, s + buf)
            &&& tail(tail(s, n) + buf, n) == tail(s + buf, n)
        }),
{
    let n = pattern.len() - 1;
    let t = tail(s, n);
    let cut = s.len() - t.len();
    assert(s + buf =~= s.take(cut) + (t + buf));
    if occurs(pattern, s + buf) {
        let i = choose|i: int| occurs_at(pattern, s + buf, i);
        if i + pattern.len() <= s.len() {
            assert((s + buf).subrange(i, i + pattern.len()) =~= s.subrange(i, i + pattern.len()));
            assert(occurs_at(pattern, s, i));
        }
        assert(i >= cut);
        assert((s + buf).subrange(i, i + pattern.len()) =~= (t + buf).subrange(
            i - cut,
            i - cut + pattern.len(),
        ));
        assert(occurs_at(pattern, t + buf, i - cut));
    }
    if occurs(pattern, t + buf) {
        let i = choose|i: int| occurs_at(pattern, t + buf, i);
        assert((t + buf).subrange(i, i + pattern.len()) =~= (s + buf).subrange(
            i + cut,
            i + cut + pattern.len(),
        ));
        assert(occurs_at(pattern, s + buf, i + cut));
    }
    assert(tail(t + buf, n) =~= tail(s + buf, n));
}

/// A first occurrence decides what is behind it.
proof fn lemma_behind(pattern: Seq<u8>, s: Seq<u8>, i: int)
    requires
        first_occurrence(pattern, s, i),
    ensures
        occurs(pattern, s),
        behind(pattern, s) == s.skip(i + pattern.len()),
{
    let k = choose|k: int| first_occurrence(pattern, s, k);
    assert(first_occurrence(pattern, s, k));
    assert(k == i);
}

/// What occurs occurs somewhere first.
proof fn lemma_first_exists(pattern: Seq<u8>, s: Seq<u8>, i: int) -> (first: int)
    requires
        occurs_at(pattern, s, i),
    ensures
        first_occurrence(pattern, s, first),
        first <= i,
    decreases i,
{
    if forall|j: int| j < i ==> !occurs_at(pattern, s, j) {
        i
    } else {
        let j = choose|j: int| j < i && occurs_at(pattern, s, j);
        lemma_first_exists(pattern, s, j)
    }
}

/// From the end of the line on that `marker` is: its last two bytes and what is
/// behind it.
spec fn from_line_end(marker: Seq<u8>, wire: Seq<u8>) -> Seq<u8> {
    tail(marker, 2) + behind(marker, wire)
}

/// The first occurrence stays the first when more bytes come.
proof fn lemma_line_end_extends(marker: Seq<u8>, wire: Seq<u8>, buf: Seq<u8>)
    requires
        occurs(marker, wire),
    ensures
        from_line_end(marker, wire + buf) == from_line_end(marker, wire) + buf,
{
    let n = marker.len() as int;
    let i = lemma_first_exists(marker, wire, choose|i: int| occurs_at(marker, wire, i));
    let w = wire + buf;
    assert(w.subrange(i, i + n) =~= wire.subrange(i, i + n));
    assert forall|j: int| j < i implies !occurs_at(marker, w, j) by {
        if occurs_at(marker, w, j) {
            assert(w.subrange(j, j + n) =~= wire.subrange(j, j + n));
            assert(occurs_at(marker, wire, j));
        }
    }
    lemma_behind(marker, wire, i);
    lemma_behind(marker, w, i);
    assert(w.skip(i + n) =~= wire.skip(i + n) + buf);
    assert(from_line_end(marker, w) =~= from_line_end(marker, wire) + buf);
}

/// A marker that completes is found at the same place in what was kept of the
/// bytes before it.
proof fn lemma_line_end_in_tail(marker: Seq<u8>, mid: Seq<u8>, buf: Seq<u8>)
    requires
        marker.len() > 0,
        !occurs(marker, mid),
        occurs(marker, mid + buf),
    ensures
        behind(marker, tail(mid, marker.len() - 1) + buf) == behind(marker, mid + buf),
{
    let n = marker.len() as int;
    let t = tail(mid, n - 1);
    let cut = mid.len() - t.len();
    let w = mid + buf;
    let s = t + buf;
    let i = lemma_first_exists(marker, w, choose|i: int| occurs_at(marker, w, i));
    if i + n <= mid.len() {
        assert(w.subrange(i, i + n) =~= mid.subrange(i, i + n));
        assert(occurs_at(marker, mid, i));
    }
    assert(w.subrange(i, i + n) =~= s.subrange(i - cut, i - cut + n));
    assert forall|j: int| j < i - cut implies !occurs_at(marker, s, j) by {
        if occurs_at(marker, s, j) {
            assert(w.subrange(j + cut, j + cut + n) =~= s.subrange(j, j + n));
            assert(occurs_at(marker, w, j + cut));
        }
    }
    lemma_behind(marker, w, i);
    lemma_behind(marker, s, i - cut);
    assert(w.skip(i + n) =~= s.skip(i - cut + n));
}

proof fn lemma_after_writes(b: Barrier, writes: Seq<Seq<u8>>)
    requires
        b.marker.len() > 0,
        !b.head_written,
        !b.head_complete,
        writes.len() > 0,
    ensures
        ({
            let e = b.after_writes(writes);
            let wire = b.carry + joined(writes);
            let line = from_line_end(b.marker, wire);
            &&& e.marker == b.marker
            &&& e.head_written == occurs(b.marker, wire)
            &&& !e.head_written ==> !e.head_complete && e.carry == tail(
                wire,
                b.marker.len() - 1,
            )
            &&& e.head_written ==> e.head_complete == occurs(head_end(), line)
            &&& e.head_written && !e.head_complete ==> e.rest == tail(line, 3)
        }),
    decreases writes.len(),
{
    let before = writes.drop_last();
    let last = writes.last();
    let wire = b.carry + joined(writes);
    if before.len() == 0 {
        assert(joined(before) =~= Seq::<u8>::empty());
        assert(wire =~= b.carry + last);
        assert(b.after_writes(before) == b);
    } else {
        lemma_after_writes(b, before);
        let mid = b.carry + joined(before);
        assert(wire =~= mid + last);
        if occurs(b.marker, mid) {
            lemma_occurs_extends(b.marker, mid, last);
            lemma_line_end_extends(b.marker, mid, last);
            let line = from_line_end(b.marker, mid);
            if occurs(head_end(), line) {
                lemma_occurs_extends(head_end(), line, last);
            } else {
                lemma_tail_suffices(head_end(), line, last);
            }
        } else {
            lemma_tail_suffices(b.marker, mid, last);
            if occurs(b.marker, wire) {
                lemma_line_end_in_tail(b.marker, mid, last);
            }
        }
    }
}

/// The end of the headers is looked for where it can be.
proof fn lemma_head_is_out(marker: Seq<u8>, wire: Seq<u8>)
    requires
        marker.len() >= 2,
        occurs(marker, wire),
    ensures
        head_is_out(marker, wire) == occurs(head_end(), from_line_end(marker, wire)),
{
    let n = marker.len() as int;
    let i = lemma_first_exists(marker, wire, choose|i: int| occurs_at(marker, wire, i));
    let start = i + n - 2;
    let line = from_line_end(marker, wire);
    lemma_behind(marker, wire, i);
    assert(wire.subrange(i, i + n) == marker);
    assert(line =~= wire.skip(start)) by {
        assert(wire.subrange(i, i + n)[n - 2] == marker[n - 2]);
        assert(wire.subrange(i, i + n)[n - 1] == marker[n - 1]);
    }
    if head_is_out(marker, wire) {
        let (k, j) = choose|k: int, j: int|
            #[trigger] occurs_at(marker, wire, k) && k + marker.len() - 2 <= j
                && #[trigger] occurs_at(head_end(), wire, j);
        assert(i <= k);
        assert(wire.subrange(j, j + 4) =~= line.subrange(j - start, j - start + 4));
        assert(occurs_at(head_end(), line, j - start));
    }
    if occurs(head_end(), line) {
        let j = choose|j: int| occurs_at(head_end(), line, j);
        assert(wire.subrange(j + start, j + start + 4) =~= line.subrange(j, j + 4));
        assert(occurs_at(head_end(), wire, j + start));
        assert(occurs_at(marker, wire, i));
    }
}

/// The marker is seen exactly when it has gone over the wire, however the bytes
/// were cut into writes.
pub proof fn law_sees_the_marker_when_it_is_out(b: Barrier, value: u64, writes: Seq<Seq<u8>>)
    requires
        writes.len() > 0,
    ensures
        b.armed(value).after_writes(writes).head_written <==> occurs(
            marker_bytes(value),
            b.carry + joined(writes),
        ),
{
    lemma_marker(value);
    lemma_after_writes(b.armed(value), writes);
}

/// The barrier opens exactly when the headers with the marker have gone over the
/// wire, to their end, however the bytes were cut into writes.
pub proof fn law_opens_when_the_headers_are_out(b: Barrier, value: u64, writes: Seq<Seq<u8>>)
    requires
        writes.len() > 0,
    ensures
        b.armed(value).after_writes(writes).head_complete <==> head_is_out(
            marker_bytes(value),
            b.carry + joined(writes),
        ),
{
    let wire = b.carry + joined(writes);
    lemma_marker(value);
    lemma_after_writes(b.armed(value), writes);
    if occurs(marker_bytes(value), wire) {
        lemma_head_is_out(marker_bytes(value), wire);
    }
}

/// Nothing but what was written opens the barrier: it is closed when it is
/// armed, and two ways to cut the same bytes into writes leave it the same.
pub proof fn law_cuts_do_not_matter(
    b: Barrier,
    value: u64,
    left: Seq<Seq<u8>>,
    right: Seq<Seq<u8>>,
)
    requires
        left.len() > 0,
        right.len() > 0,
        joined(left) == joined(right),
    ensures
        !b.armed(value).head_written,
        !b.armed(value).head_complete,
        b.armed(value).after_writes(left).head_written == b.armed(value).after_writes(
            right,
        ).head_written,
        b.armed(value).after_writes(left).head_complete == b.armed(value).after_writes(
            right,
        ).head_complete,
{
    law_sees_the_marker_when_it_is_out(b, value, left);
    law_sees_the_marker_when_it_is_out(b, value, right);
    law_opens_when_the_headers_are_out(b, value, left);
    law_opens_when_the_headers_are_out(b, value, right);
}

/// A marker that was seen stays seen, and once open the barrier stays open, until
/// it is armed again.
pub proof fn law_stays_open(b: Barrier, writes: Seq<Seq<u8>>)
    ensures
        b.head_written ==> b.after_writes(writes).head_written,
        b.head_complete ==> b.after_writes(writes) == b,
    decreases writes.len(),
{
    if writes.len() > 0 {
        law_stays_open(b, writes.drop_last());
    }
}

/// The barrier never opens before the marker is seen.
pub proof fn law_marker_comes_first(b: Barrier, buf: Seq<u8>)
    requires
        b.head_complete ==> b.head_written,
    ensures
        b.after_write(buf).head_complete ==> b.after_write(buf).head_written,
{
}

/// The character is in the ASCII range.
spec fn plain(c: char) -> bool {
    0 <= (c as int) < 128
}

/// Once the marker is seen nothing is carried over: on a connection whose last
/// download has had its marker written, the next download waits for headers with
/// a marker that is wholly in its own bytes.
pub proof fn law_next_download_needs_its_own_marker(
    b: Barrier,
    earlier: u64,
    writes: Seq<Seq<u8>>,
    value: u64,
    later: Seq<Seq<u8>>,
)
    requires
        b.armed(earlier).after_writes(writes).head_written,
        later.len() > 0,
    ensures
        b.armed(earlier).after_writes(writes).armed(value).after_writes(later).head_written
            <==> occurs(marker_bytes(value), joined(later)),
        b.armed(earlier).after_writes(writes).armed(value).after_writes(later).head_complete
            <==> head_is_out(marker_bytes(value), joined(later)),
{
    let open = b.armed(earlier).after_writes(writes);
    lemma_open_carries_nothing(b.armed(earlier), writes);
    assert(open.carry + joined(later) =~= joined(later));
    law_sees_the_marker_when_it_is_out(open, value, later);
    law_opens_when_the_headers_are_out(open, value, later);
}

proof fn lemma_open_carries_nothing(b: Barrier, writes: Seq<Seq<u8>>)
    requires
        !b.head_written,
        b.after_writes(writes).head_written,
    ensures
        b.after_writes(writes).carry == Seq::<u8>::empty(),
    decreases writes.len(),
{
    if writes.len() > 0 && b.after_writes(writes.drop_last()).head_written {
        lemma_open_carries_nothing(b, writes.drop_last());
    }
}

/// The line of a marker is plain ASCII: an `x` at its start and nowhere else, a
/// line feed at its end and nowhere else.
proof fn lemma_marker(value: u64)
    ensures
        ({
            let t = marker_text(value);
            let m = marker_bytes(value);
            let n = text::decimal_digits(value as nat).len();
            &&& n > 0
            &&& t.len() == 17 + n
            &&& m =~= Seq::new(t.len(), |i: int| t[i] as u8)
            &&& forall|i: int| 0 <= i < t.len() ==> plain(#[trigger] t[i])
            &&& forall|i: int| 0 < i < t.len() ==> #[trigger] t[i] != 'x'
            &&& forall|i: int| 0 <= i < t.len() - 1 ==> #[trigger] t[i] != '\n'
            &&& t[0] == 'x'
            &&& t.last() == '\n'
            &&& t.subrange(15, 15 + n as int) == text::decimal_digits(value as nat)
        }),
{
    let t = marker_text(value);
    let d = text::decimal_digits(value as nat);
    text::law_decimal_reads_back(value);
    reveal_strlit("x-conn-marker");
    reveal_strlit(": ");
    reveal_strlit("\r\n");
    assert forall|i: int| 0 <= i < t.len() implies {
        &&& plain(#[trigger] t[i])
        &&& (0 < i ==> t[i] != 'x')
        &&& (i < t.len() - 1 ==> t[i] != '\n')
    } by {
        if 15 <= i < 15 + d.len() {
            assert(t[i] == d[i - 15]);
            assert('0' <= d[i - 15] <= '9');
        } else if i < 15 {
            if i < 13 {
                assert(t[i] == MARKER_HEADER@[i]);
            } else {
                assert(t[i] == ": "@[i - 13]);
            }
        } else {
            assert(t[i] == "\r\n"@[i - 15 - d.len()]);
        }
    }
    assert(t.subrange(15, 15 + d.len() as int) =~= d);
    is_ascii_chars_encode_utf8(t);
}

/// The marker of one response does not stand in the marker line of another: the
/// header of an earlier response on the connection cannot open the barrier.
pub proof fn law_other_markers_do_not_match(value: u64, other: u64)
    requires
        value != other,
    ensures
        !occurs(marker_bytes(value), marker_bytes(other)),
{
    lemma_marker(value);
    lemma_marker(other);
    let m = marker_bytes(value);
    let o = marker_bytes(other);
    let mt = marker_text(value);
    let ot = marker_text(other);
    if occurs(m, o) {
        let i = choose|i: int| occurs_at(m, o, i);
        let sub = o.subrange(i, i + m.len());
        assert(sub == m);
        assert(sub[0] == o[i]);
        assert(m[0] == mt[0] as u8);
        assert(o[i] == ot[i] as u8);
        assert(plain(mt[0]) && plain(ot[i]));
        assert(i == 0) by {
            if i > 0 {
                assert(ot[i] != 'x');
            }
        }
        let k = m.len() - 1;
        assert(sub[k] == o[k]);
        assert(m[k] == mt[k] as u8);
        assert(o[k] == ot[k] as u8);
        assert(plain(mt[k]) && plain(ot[k]));
        assert(m.len() == o.len()) by {
            if k < o.len() - 1 {
                assert(ot[k] != '\n');
            }
        }
        assert(sub =~= o);
        assert(mt =~= ot) by {
            assert forall|j: int| 0 <= j < mt.len() implies mt[j] == ot[j] by {
                assert(m[j] == mt[j] as u8);
                assert(o[j] == ot[j] as u8);
                assert(plain(mt[j]) && plain(ot[j]));
            }
        }
        text::law_decimal_reads_back(value);
        text::law_decimal_reads_back(other);
    }
}

proof fn lemma_decimal_len(a: nat, b: nat)
    requires
        a <= b,
    ensures
        text::decimal_digits(a).len() <= text::decimal_digits(b).len(),
    decreases b,
{
    if a >= 10 {
        lemma_decimal_len(a / 10, b / 10);
    }
}

/// What is carried over is shorter than the marker it was kept for, after any
/// write that found none.
pub proof fn law_carry_is_short(b: Barrier, buf: Seq<u8>)
    requires
        b.carry.len() == 0 || b.carry.len() < b.marker.len(),
    ensures
        b.after_write(buf).carry.len() == 0 || b.after_write(buf).carry.len() < b.marker.len(),
{
}

/// Bytes carried over from an earlier response do not hold the marker that is
/// now looked for, whose number is no smaller.
pub proof fn law_carry_holds_no_later_marker(b: Barrier, earlier: u64, value: u64)
    requires
        b.marker == marker_bytes(earlier),
        b.carry.len() < b.marker.len(),
        earlier <= value,
    ensures
        b.armed(value).carry.len() < b.armed(value).marker.len(),
        !occurs(b.armed(value).marker, b.armed(value).carry),
{
    lemma_marker(earlier);
    lemma_marker(value);
    lemma_decimal_len(earlier as nat, value as nat);
}

/// Stale bytes never match: the marker line of an earlier response is not taken
/// for the marker that is looked for, nor is it together with the bytes carried
/// over in front of it, as long as those are shorter than that marker.
pub proof fn law_stale_lines_do_not_match(carry: Seq<u8>, earlier: u64, value: u64)
    requires
        earlier != value,
        carry.len() < marker_bytes(value).len(),
    ensures
        !occurs(marker_bytes(value), carry + marker_bytes(earlier)),
{
    lemma_marker(value);
    lemma_marker(earlier);
    law_other_markers_do_not_match(value, earlier);
    let m = marker_bytes(value);
    let o = marker_bytes(earlier);
    let mt = marker_text(value);
    let ot = marker_text(earlier);
    let s = carry + o;
    let n = m.len() as int;
    let c = carry.len() as int;
    if occurs(m, s) {
        let i = choose|i: int| occurs_at(m, s, i);
        let sub = s.subrange(i, i + n);
        assert(sub == m);
        if i >= c {
            assert(sub =~= o.subrange(i - c, i - c + n));
            assert(occurs_at(m, o, i - c));
        } else {
            // the line feed at the end of the one is the one at the end of the other
            let e = i + n - 1 - c;
            assert(sub[n - 1] == o[e]);
            assert(m[n - 1] == mt[n - 1] as u8);
            assert(o[e] == ot[e] as u8);
            assert(plain(mt[n - 1]) && plain(ot[e]));
            assert(e == o.len() - 1) by {
                if e < o.len() - 1 {
                    assert(ot[e] != '\n');
                }
            }
            // so the `x` at the start of the one is inside the other
            let k = c - i;
            assert(sub[k] == o[0]);
            assert(m[k] == mt[k] as u8);
            assert(o[0] == ot[0] as u8);
            assert(plain(mt[k]) && plain(ot[0]));
            assert(mt[k] != 'x');
        }
    }
}

/// What happens to a barrier: it is armed for a marker, or bytes are written.
pub enum Happening {
    Arm(u64),
    Write(Seq<u8>),
}

impl Barrier {
    /// After all that has happened.
    pub open spec fn after_all(self, history: Seq<Happening>) -> Barrier
        decreases history.len(),
    {
        if history.len() == 0 {
            self
        } else {
            let before = self.after_all(history.drop_last());
            match history.last() {
                Happening::Arm(value) => before.armed(value),
                Happening::Write(buf) => before.after_write(buf),
            }
        }
    }
}

/// All armings were for numbers smaller than `value`.
pub open spec fn all_armed_below(history: Seq<Happening>, value: u64) -> bool {
    forall|i: int|
        0 <= i < history.len() ==> (#[trigger] history[i] matches Happening::Arm(v) ==> v < value)
}

proof fn lemma_history(history: Seq<Happening>, value: u64)
    requires
        all_armed_below(history, value),
    ensures
        ({
            let b = Barrier::fresh().after_all(history);
            &&& b.marker.len() <= marker_bytes(value).len()
            &&& b.carry.len() < marker_bytes(value).len()
        }),
    decreases history.len(),
{
    lemma_marker(value);
    if history.len() > 0 {
        let before = history.drop_last();
        assert forall|i: int| 0 <= i < before.len() implies (
        #[trigger] before[i] matches Happening::Arm(v) ==> v < value) by {
            assert(before[i] == history[i]);
        }
        lemma_history(before, value);
        assert(history[history.len() - 1] == history.last());
        if let Happening::Arm(v) = history.last() {
            lemma_marker(v);
            lemma_decimal_len(v as nat, value as nat);
        }
    }
}

/// However a connection was used before, what it carries over is shorter than a
/// marker with a larger number than any so far, and so does not hold it. When the
/// barrier is armed for that marker, no line of an earlier one that still goes by
/// is taken for it.
pub proof fn law_history_never_matches(history: Seq<Happening>, value: u64, earlier: u64)
    requires
        all_armed_below(history, value),
        earlier != value,
    ensures
        ({
            let b = Barrier::fresh().after_all(history).armed(value);
            &&& b.carry.len() < marker_bytes(value).len()
            &&& !occurs(marker_bytes(value), b.carry)
            &&& !occurs(marker_bytes(value), b.carry + marker_bytes(earlier))
            &&& !b.after_write(marker_bytes(earlier)).head_written
        }),
{
    lemma_history(history, value);
    law_stale_lines_do_not_match(
        Barrier::fresh().after_all(history).carry,
        earlier,
        value,
    );
}

/// Numbers are drawn in the order of counting, and from zero again behind the
/// largest.
pub proof fn law_numbers_count_up(v: u64)
    ensures
        v < u64::MAX ==> successor(v) == v + 1,
        v == u64::MAX ==> successor(v) == 0,
{
}

/// On a connection on which no download was asked for nothing is waited for, and
/// nothing that is written opens the barrier.
pub proof fn law_without_a_download_nothing_opens(writes: Seq<Seq<u8>>)
    ensures
        !Barrier::fresh().after_writes(writes).head_written,
        !Barrier::fresh().after_writes(writes).head_complete,
{
    lemma_fresh_stays(writes);
}

proof fn lemma_fresh_stays(writes: Seq<Seq<u8>>)
    ensures
        Barrier::fresh().after_writes(writes) == Barrier::fresh(),
    decreases writes.len(),
{
    if writes.len() > 0 {
        lemma_fresh_stays(writes.drop_last());
    }
}

/// A barrier that is armed is closed, and waits for a line of its own: the name of
/// the marker header, a colon and a space, the number in decimal, and the end of the
/// line. What was written before stays known.
pub proof fn law_armed_waits_for_its_line(b: Barrier, value: u64) -> (number: Seq<char>)
    ensures
        !b.armed(value).head_written,
        !b.armed(value).head_complete,
        b.armed(value).rest.len() == 0,
        b.armed(value).carry == b.carry,
        text::is_number(number, value as int),
        b.armed(value).marker == encode_utf8("x-conn-marker"@ + ": "@ + number + "\r\n"@),
{
    text::law_decimal_is_a_number(value);
    text::decimal_digits(value as nat)
}

/// Where the headers with a marker are out, the marker stands on the wire, and at
/// its end or behind it the end of a line and a blank line.
pub proof fn law_headers_out_end_with_a_blank_line(marker: Seq<u8>, wire: Seq<u8>) -> (at: (
    int,
    int,
))
    requires
        head_is_out(marker, wire),
    ensures
        ({
            let (i, j) = at;
            &&& 0 <= i
            &&& i + marker.len() <= wire.len()
            &&& wire.subrange(i, i + marker.len()) == marker
            &&& i + marker.len() - 2 <= j
            &&& 0 <= j
            &&& j + 4 <= wire.len()
            &&& wire[j] == 13 && wire[j + 1] == 10 && wire[j + 2] == 13 && wire[j + 3] == 10
        }),
{
    let (i, j) = choose|i: int, j: int|
        #[trigger] occurs_at(marker, wire, i) && i + marker.len() - 2 <= j && #[trigger] occurs_at(
            head_end(),
            wire,
            j,
        );
    let end = wire.subrange(j, j + 4);
    assert(end == head_end());
    assert(end[0] == wire[j] && end[1] == wire[j + 1] && end[2] == wire[j + 2] && end[3] == wire[j
        + 3]);
    (i, j)
}

/// Where a marker stands on the wire, and at its end or behind it the end of a line
/// and a blank line, the headers with that marker are out.
pub proof fn law_blank_line_ends_the_headers(marker: Seq<u8>, wire: Seq<u8>, i: int, j: int)
    requires
        0 <= i,
        i + marker.len() <= wire.len(),
        wire.subrange(i, i + marker.len()) == marker,
        i + marker.len() - 2 <= j,
        0 <= j,
        j + 4 <= wire.len(),
        wire[j] == 13,
        wire[j + 1] == 10,
        wire[j + 2] == 13,
        wire[j + 3] == 10,
    ensures
        head_is_out(marker, wire),
{
    assert(wire.subrange(j, j + 4) =~= head_end());
    assert(occurs_at(marker, wire, i));
    assert(occurs_at(head_end(), wire, j));
}

/// What writes put on the wire is all that was written, in order.
pub proof fn law_wire_holds_all_that_was_written(writes: Seq<Seq<u8>>)
    ensures
        joined(writes) == writes.flatten(),
    decreases writes.len(),
{
    if writes.len() == 0 {
        assert(writes.flatten() =~= Seq::<u8>::empty());
    } else {
        law_wire_holds_all_that_was_written(writes.drop_last());
        writes.drop_last().lemma_flatten_push(writes.last());
        assert(writes.drop_last().push(writes.last()) =~= writes);
    }
}

} // verus!
