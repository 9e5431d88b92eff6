//! The page that lists a directory.

use crate::clock;
use crate::clock::LocalTime;
use crate::encode;
use crate::encode::EscapeSets;
use crate::size;
use crate::text;
use vstd::prelude::*;
use vstd::string::*;

verus! {

// ------------------------------------------------------------------------
// Text in a page
// ------------------------------------------------------------------------

/// A character as it stands in a page.
pub open spec fn escaped_char(c: char) -> Seq<char> {
    if c == '&' {
        "&amp;"@
    } else if c == '<' {
        "&lt;"@
    } else if c == '>' {
        "&gt;"@
    } else if c == '"' {
        "&quot;"@
    } else {
        seq![c]
    }
}

/// A text as it stands in a page.
pub open spec fn escaped(s: Seq<char>) -> Seq<char>
    decreases s.len(),
{
    if s.len() == 0 {
        Seq::empty()
    } else {
        escaped(s.drop_last()) + escaped_char(s.last())
    }
}

/// Writes a text so that a page shows it as it is.
pub fn html_escape(s: &str) -> (r: String)
    ensures
        r@ == escaped(s@),
{
    let mut out = String::new();
    let chars = text::to_chars(s);
    let mut i: usize = 0;
    while i < chars.len()
        invariant
            chars@ == s@,
            i <= chars@.len(),
            out@ == escaped(s@.take(i as int)),
        decreases chars.len() - i,
    {
        let c = chars[i];
        let ghost before = out@;
        if c == '&' {
            out.append("&amp;");
        } else if c == '<' {
            out.append("&lt;");
        } else if c == '>' {
            out.append("&gt;");
        } else if c == '"' {
            out.append("&quot;");
        } else {
            out.push(c);
            assert(out@ =~= before + seq![c]);
        }
        assert(s@.take(i + 1).drop_last() =~= s@.take(i as int));
        i += 1;
    }
    assert(s@.take(s@.len() as int) =~= s@);
    out
}

// ------------------------------------------------------------------------
// Entries
// ------------------------------------------------------------------------

/// What the file system says of an entry.
pub struct EntryMeta {
    pub is_dir: bool,
    pub len: u64,
    /// When it was last changed.
    pub modified: Option<LocalTime>,
}

/// An entry of a directory.
pub struct DirEntry {
    pub name: String,
    pub is_dir: bool,
    pub size: u64,
    /// When it was last changed.
    pub modified: Option<LocalTime>,
}

/// What an entry is.
#[verifier::ext_equal]
pub struct Entry {
    pub name: Seq<char>,
    pub is_dir: bool,
    pub size: u64,
    pub modified: Option<LocalTime>,
}

impl View for DirEntry {
    type V = Entry;

    open spec fn view(&self) -> Entry {
        Entry {
            name: self.name@,
            is_dir: self.is_dir,
            size: self.size,
            modified: self.modified,
        }
    }
}

/// What the entries of a directory are.
pub open spec fn views(entries: Seq<DirEntry>) -> Seq<Entry> {
    Seq::new(entries.len(), |i: int| entries[i]@)
}

impl DirEntry {
    /// The entry of that name. One of which nothing can be learnt is shown as an
    /// empty file.
    pub fn new(name: String, meta: Option<EntryMeta>) -> (r: Self)
        ensures
            r@ == match meta {
                Some(meta) => Entry {
                    name: name@,
                    is_dir: meta.is_dir,
                    size: meta.len,
                    modified: meta.modified,
                },
                None => Entry { name: name@, is_dir: false, size: 0, modified: None },
            },
    {
        match meta {
            Some(meta) => DirEntry {
                name,
                is_dir: meta.is_dir,
                size: meta.len,
                modified: meta.modified,
            },
            None => DirEntry { name, is_dir: false, size: 0, modified: None },
        }
    }
}

// ------------------------------------------------------------------------
// Their order
// ------------------------------------------------------------------------

/// `a` comes before `b` in the order of their first different characters; the
/// start of a text comes before the text.
pub open spec fn name_before(a: Seq<char>, b: Seq<char>) -> bool
    decreases a.len(),
{
    if b.len() == 0 {
        false
    } else if a.len() == 0 {
        true
    } else if a[0] != b[0] {
        a[0] < b[0]
    } else {
        name_before(a.drop_first(), b.drop_first())
    }
}

/// Directories come first; beyond that names decide.
pub open spec fn entry_before(a: Entry, b: Entry) -> bool {
    if a.is_dir != b.is_dir {
        a.is_dir
    } else {
        name_before(a.name, b.name)
    }
}

/// The entry at `i` is listed before the one at `j`. Two that nothing tells apart
/// stay in the order in which they came.
pub open spec fn listed_before(entries: Seq<Entry>, i: int, j: int) -> bool {
    ||| entry_before(entries[i], entries[j])
    ||| !entry_before(entries[j], entries[i]) && i < j
}

/// `order` runs through the entries from `lo` up to `hi`, each once, in the order
/// in which they are listed.
pub open spec fn orders(entries: Seq<Entry>, lo: int, hi: int, order: Seq<usize>) -> bool {
    &&& order.len() == hi - lo
    &&& forall|k: int| 0 <= k < order.len() ==> lo <= #[trigger] order[k] < hi
    &&& forall|k: int, l: int|
        0 <= k < l < order.len() ==> listed_before(
            entries,
            #[trigger] order[k] as int,
            #[trigger] order[l] as int,
        )
}

/// The order in which entries are listed.
pub open spec fn listing_order(entries: Seq<Entry>) -> Seq<usize> {
    choose|order: Seq<usize>| orders(entries, 0, entries.len() as int, order)
}

/// Entries in the order in which they are listed.
pub open spec fn sorted(entries: Seq<Entry>) -> Seq<Entry> {
    listing_order(entries).map_values(|i: usize| entries[i as int])
}

proof fn lemma_name_irreflexive(a: Seq<char>)
    ensures
        !name_before(a, a),
    decreases a.len(),
{
    if a.len() > 0 {
        lemma_name_irreflexive(a.drop_first());
    }
}

proof fn lemma_name_asymmetric(a: Seq<char>, b: Seq<char>)
    requires
        name_before(a, b),
    ensures
        !name_before(b, a),
    decreases a.len(),
{
    if a.len() > 0 && b.len() > 0 && a[0] == b[0] {
        lemma_name_asymmetric(a.drop_first(), b.drop_first());
    }
}

proof fn lemma_name_transitive(a: Seq<char>, b: Seq<char>, c: Seq<char>)
    requires
        name_before(a, b),
        name_before(b, c),
    ensures
        name_before(a, c),
    decreases a.len(),
{
    if a.len() > 0 && a[0] == b[0] && b[0] == c[0] {
        lemma_name_transitive(a.drop_first(), b.drop_first(), c.drop_first());
    }
}

proof fn lemma_name_total(a: Seq<char>, b: Seq<char>)
    ensures
        name_before(a, b) || name_before(b, a) || a == b,
    decreases a.len(),
{
    if a.len() > 0 && b.len() > 0 {
        if a[0] == b[0] {
            lemma_name_total(a.drop_first(), b.drop_first());
            if a.drop_first() == b.drop_first() {
                assert(a =~= seq![a[0]] + a.drop_first());
                assert(b =~= seq![b[0]] + b.drop_first());
            }
        }
    } else {
        assert(a.len() == 0 && b.len() == 0 ==> a =~= b);
    }
}

/// Of two entries at different places one is listed before the other, and not
/// the other way round.
pub proof fn law_order_is_total(entries: Seq<Entry>, i: int, j: int)
    ensures
        i != j ==> listed_before(entries, i, j) || listed_before(entries, j, i),
        !(listed_before(entries, i, j) && listed_before(entries, j, i)),
{
    let a = entries[i];
    let b = entries[j];
    lemma_name_irreflexive(a.name);
    if name_before(a.name, b.name) {
        lemma_name_asymmetric(a.name, b.name);
    }
    if name_before(b.name, a.name) {
        lemma_name_asymmetric(b.name, a.name);
    }
}

/// What is listed before an entry is listed before all that is behind it.
pub proof fn law_order_is_transitive(entries: Seq<Entry>, i: int, j: int, k: int)
    requires
        listed_before(entries, i, j),
        listed_before(entries, j, k),
    ensures
        listed_before(entries, i, k),
{
    let a = entries[i].name;
    let b = entries[j].name;
    let c = entries[k].name;
    lemma_name_total(a, b);
    lemma_name_total(b, c);
    lemma_name_irreflexive(a);
    lemma_name_irreflexive(b);
    if name_before(a, b) {
        lemma_name_asymmetric(a, b);
        if name_before(b, c) {
            lemma_name_transitive(a, b, c);
            lemma_name_asymmetric(a, c);
        }
    }
    if name_before(b, c) {
        lemma_name_asymmetric(b, c);
    }
}

/// Runs through numbers in one order are the same run, if they run through the
/// same numbers.
proof fn lemma_same_run(entries: Seq<Entry>, a: Seq<usize>, b: Seq<usize>)
    requires
        a.len() == b.len(),
        forall|x: usize| a.contains(x) <==> b.contains(x),
        forall|k: int, l: int|
            0 <= k < l < a.len() ==> listed_before(
                entries,
                #[trigger] a[k] as int,
                #[trigger] a[l] as int,
            ),
        forall|k: int, l: int|
            0 <= k < l < b.len() ==> listed_before(
                entries,
                #[trigger] b[k] as int,
                #[trigger] b[l] as int,
            ),
    ensures
        a == b,
    decreases a.len(),
{
    if a.len() == 0 {
        assert(a =~= b);
    } else {
        let x = a[0];
        let y = b[0];
        assert(x == y) by {
            assert(a.contains(x));
            assert(b.contains(y));
            let k = choose|k: int| 0 <= k < b.len() && b[k] == x;
            let l = choose|l: int| 0 <= l < a.len() && a[l] == y;
            if k > 0 && l > 0 {
                assert(listed_before(entries, b[0] as int, b[k] as int));
                assert(listed_before(entries, a[0] as int, a[l] as int));
                law_order_is_total(entries, x as int, y as int);
            }
        }
        let c = a.drop_first();
        let d = b.drop_first();
        assert forall|z: usize| c.contains(z) implies d.contains(z) by {
            let k = choose|k: int| 0 <= k < c.len() && c[k] == z;
            assert(a[k + 1] == z);
            law_order_is_total(entries, x as int, z as int);
            assert(listed_before(entries, a[0] as int, a[k + 1] as int));
            assert(a.contains(z));
            let l = choose|l: int| 0 <= l < b.len() && b[l] == z;
            if l == 0 {
                law_order_is_total(entries, x as int, x as int);
            }
            assert(d[l - 1] == z);
        }
        assert forall|z: usize| d.contains(z) implies c.contains(z) by {
            let k = choose|k: int| 0 <= k < d.len() && d[k] == z;
            assert(b[k + 1] == z);
            assert(listed_before(entries, b[0] as int, b[k + 1] as int));
            assert(b.contains(z));
            let l = choose|l: int| 0 <= l < a.len() && a[l] == z;
            if l == 0 {
                law_order_is_total(entries, x as int, x as int);
            }
            assert(c[l - 1] == z);
        }
        lemma_same_run(entries, c, d);
        assert(a =~= seq![x] + c);
        assert(b =~= seq![y] + d);
    }
}

/// A run through as many numbers as there are in a range, all in the range and
/// none twice, leaves none out.
proof fn lemma_run_is_complete(entries: Seq<Entry>, lo: int, hi: int, order: Seq<usize>, x: usize)
    requires
        lo <= hi,
        orders(entries, lo, hi, order),
        lo <= x < hi,
    ensures
        order.contains(x),
{
    let s = order.map_values(|i: usize| i as int);
    assert(s.no_duplicates()) by {
        assert forall|k: int, l: int| 0 <= k < s.len() && 0 <= l < s.len() && k != l implies s[k]
            != s[l] by {
            if k < l {
                assert(listed_before(entries, order[k] as int, order[l] as int));
            } else {
                assert(listed_before(entries, order[l] as int, order[k] as int));
            }
            law_order_is_total(entries, order[k] as int, order[l] as int);
        }
    }
    s.unique_seq_to_set();
    let range = vstd::set_lib::set_int_range(lo, hi);
    vstd::set_lib::lemma_int_range(lo, hi);
    assert(s.to_set().subset_of(range)) by {
        assert forall|v: int| s.to_set().contains(v) implies range.contains(v) by {
            let k = choose|k: int| 0 <= k < s.len() && s[k] == v;
            assert(lo <= order[k] < hi);
        }
    }
    vstd::set_lib::lemma_subset_equality(s.to_set(), range);
    assert(s.to_set().contains(x as int));
    let k = choose|k: int| 0 <= k < s.len() && s[k] == x as int;
    assert(order[k] == x);
}

/// There is one order in which entries can be listed.
pub proof fn law_order_is_unique(entries: Seq<Entry>, a: Seq<usize>, b: Seq<usize>)
    requires
        orders(entries, 0, entries.len() as int, a),
        orders(entries, 0, entries.len() as int, b),
    ensures
        a == b,
{
    let n = entries.len() as int;
    assert forall|x: usize| a.contains(x) <==> b.contains(x) by {
        if a.contains(x) {
            let k = choose|k: int| 0 <= k < a.len() && a[k] == x;
            assert(0 <= a[k] < n);
            lemma_run_is_complete(entries, 0, n, b, x);
        }
        if b.contains(x) {
            let k = choose|k: int| 0 <= k < b.len() && b[k] == x;
            assert(0 <= b[k] < n);
            lemma_run_is_complete(entries, 0, n, a, x);
        }
    }
    lemma_same_run(entries, a, b);
}

/// One more entry finds its place among those before it.
proof fn lemma_place(entries: Seq<Entry>, order: Seq<usize>, x: usize, n: int, p: int)
    requires
        n == x + 1,
        orders(entries, 0, x as int, order),
        0 <= p <= order.len(),
        forall|k: int| 0 <= k < p ==> listed_before(entries, #[trigger] order[k] as int, x as int),
    ensures
        exists|o: Seq<usize>| orders(entries, 0, n, o),
    decreases order.len() - p,
{
    if p == order.len() {
        assert(orders(entries, 0, n, order.push(x)));
    } else if listed_before(entries, order[p] as int, x as int) {
        lemma_place(entries, order, x, n, p + 1);
    } else {
        let o = order.insert(p, x);
        law_order_is_total(entries, order[p] as int, x as int);
        assert forall|k: int| p <= k < order.len() implies listed_before(
            entries,
            x as int,
            #[trigger] order[k] as int,
        ) by {
            if k > p {
                assert(listed_before(entries, order[p] as int, order[k] as int));
                law_order_is_transitive(entries, x as int, order[p] as int, order[k] as int);
            }
        }
        assert forall|k: int| 0 <= k < o.len() implies 0 <= #[trigger] o[k] < x + 1 by {
            if k < p {
                assert(o[k] == order[k]);
            } else if k > p {
                assert(o[k] == order[k - 1]);
            }
        }
        assert forall|k: int, l: int| 0 <= k < l < o.len() implies listed_before(
            entries,
            #[trigger] o[k] as int,
            #[trigger] o[l] as int,
        ) by {
            if k < p {
                assert(o[k] == order[k]);
            } else if k > p {
                assert(o[k] == order[k - 1]);
            }
            if l < p {
                assert(o[l] == order[l]);
            } else if l > p {
                assert(o[l] == order[l - 1]);
            }
        }
        assert(orders(entries, 0, n, o));
    }
}

proof fn lemma_order_exists(entries: Seq<Entry>, n: int)
    requires
        0 <= n <= usize::MAX,
    ensures
        exists|o: Seq<usize>| orders(entries, 0, n, o),
    decreases n,
{
    if n == 0 {
        assert(orders(entries, 0, 0, Seq::<usize>::empty()));
    } else {
        let m = n - 1;
        lemma_order_exists(entries, m);
        let o = choose|o: Seq<usize>| orders(entries, 0, m, o);
        lemma_place(entries, o, m as usize, n, 0);
    }
}

/// Entries have an order in which they are listed, and one alone.
pub proof fn law_order_exists(entries: Seq<Entry>)
    requires
        entries.len() <= usize::MAX,
    ensures
        orders(entries, 0, entries.len() as int, listing_order(entries)),
{
    lemma_order_exists(entries, entries.len() as int);
}

/// Whether a name comes before another.
fn is_name_before(a: &Vec<char>, b: &Vec<char>) -> (r: bool)
    ensures
        r == name_before(a@, b@),
{
    let mut i: usize = 0;
    assert(a@.skip(0) =~= a@);
    assert(b@.skip(0) =~= b@);
    loop
        invariant
            i <= a@.len(),
            i <= b@.len(),
            name_before(a@, b@) == name_before(a@.skip(i as int), b@.skip(i as int)),
        decreases a.len() - i,
    {
        if i == b.len() {
            return false;
        }
        if i == a.len() {
            return true;
        }
        assert(a@.skip(i as int)[0] == a@[i as int]);
        assert(b@.skip(i as int)[0] == b@[i as int]);
        if a[i] != b[i] {
            return a[i] < b[i];
        }
        assert(a@.skip(i as int).drop_first() =~= a@.skip(i + 1));
        assert(b@.skip(i as int).drop_first() =~= b@.skip(i + 1));
        i += 1;
    }
}

/// The names are those of the entries.
spec fn are_names(entries: Seq<DirEntry>, names: Seq<Vec<char>>) -> bool {
    &&& names.len() == entries.len()
    &&& forall|i: int| 0 <= i < names.len() ==> (#[trigger] names[i])@ == entries[i].name@
}

/// Whether an entry comes before another.
fn is_entry_before(entries: &Vec<DirEntry>, names: &Vec<Vec<char>>, i: usize, j: usize) -> (r: bool)
    requires
        are_names(entries@, names@),
        i < entries@.len(),
        j < entries@.len(),
    ensures
        r == entry_before(entries@[i as int]@, entries@[j as int]@),
{
    if entries[i].is_dir != entries[j].is_dir {
        entries[i].is_dir
    } else {
        is_name_before(&names[i], &names[j])
    }
}

/// Makes one run of two, of which the first runs through entries that came
/// earlier.
fn merge(
    entries: &Vec<DirEntry>,
    names: &Vec<Vec<char>>,
    lo: usize,
    mid: usize,
    hi: usize,
    a: &Vec<usize>,
    b: &Vec<usize>,
) -> (r: Vec<usize>)
    requires
        are_names(entries@, names@),
        lo <= mid <= hi <= entries@.len(),
        orders(views(entries@), lo as int, mid as int, a@),
        orders(views(entries@), mid as int, hi as int, b@),
    ensures
        orders(views(entries@), lo as int, hi as int, r@),
{
    let ghost es = views(entries@);
    let mut out: Vec<usize> = Vec::new();
    let mut i: usize = 0;
    let mut j: usize = 0;
    while i < a.len() || j < b.len()
        invariant
            es == views(entries@),
            are_names(entries@, names@),
            lo <= mid <= hi <= entries@.len(),
            orders(es, lo as int, mid as int, a@),
            orders(es, mid as int, hi as int, b@),
            i <= a@.len(),
            j <= b@.len(),
            out@.len() == i + j,
            forall|k: int| 0 <= k < out@.len() ==> lo <= #[trigger] out@[k] < hi,
            forall|k: int, l: int|
                0 <= k < l < out@.len() ==> listed_before(
                    es,
                    #[trigger] out@[k] as int,
                    #[trigger] out@[l] as int,
                ),
            forall|k: int, l: int|
                0 <= k < out@.len() && i <= l < a@.len() ==> listed_before(
                    es,
                    #[trigger] out@[k] as int,
                    #[trigger] a@[l] as int,
                ),
            forall|k: int, l: int|
                0 <= k < out@.len() && j <= l < b@.len() ==> listed_before(
                    es,
                    #[trigger] out@[k] as int,
                    #[trigger] b@[l] as int,
                ),
        decreases a.len() - i + b.len() - j,
    {
        let first_run = if i == a.len() {
            false
        } else if j == b.len() {
            true
        } else {
            // of two that nothing tells apart, the one that came earlier is in `a`
            !is_entry_before(entries, names, b[j], a[i])
        };
        let ghost before = out@;
        if first_run {
            let x: usize = a[i];
            assert(j < b@.len() ==> listed_before(es, x as int, b@[j as int] as int));
            out.push(x);
            i += 1;
            assert forall|k: int, l: int|
                0 <= k < out@.len() && j <= l < b@.len() implies listed_before(
                es,
                #[trigger] out@[k] as int,
                #[trigger] b@[l] as int,
            ) by {
                if k < before.len() {
                    assert(out@[k] == before[k]);
                } else if l > j {
                    assert(listed_before(es, b@[j as int] as int, b@[l] as int));
                    law_order_is_transitive(es, x as int, b@[j as int] as int, b@[l] as int);
                }
            }
        } else {
            let x: usize = b[j];
            assert(i < a@.len() ==> listed_before(es, x as int, a@[i as int] as int));
            out.push(x);
            j += 1;
            assert forall|k: int, l: int|
                0 <= k < out@.len() && i <= l < a@.len() implies listed_before(
                es,
                #[trigger] out@[k] as int,
                #[trigger] a@[l] as int,
            ) by {
                if k < before.len() {
                    assert(out@[k] == before[k]);
                } else if l > i {
                    assert(listed_before(es, a@[i as int] as int, a@[l] as int));
                    law_order_is_transitive(es, x as int, a@[i as int] as int, a@[l] as int);
                }
            }
        }
    }
    out
}

/// Sorts the entries from `lo` up to `hi`.
fn sort_range(entries: &Vec<DirEntry>, names: &Vec<Vec<char>>, lo: usize, hi: usize) -> (r: Vec<
    usize,
>)
    requires
        are_names(entries@, names@),
        lo <= hi <= entries@.len(),
    ensures
        orders(views(entries@), lo as int, hi as int, r@),
    decreases hi - lo,
{
    if hi - lo <= 1 {
        let mut r: Vec<usize> = Vec::new();
        if lo < hi {
            r.push(lo);
        }
        r
    } else {
        let mid: usize = lo + (hi - lo) / 2;
        let a = sort_range(entries, names, lo, mid);
        let b = sort_range(entries, names, mid, hi);
        merge(entries, names, lo, mid, hi, &a, &b)
    }
}

/// Finds the order in which entries are listed.
pub fn sort_entries(entries: &Vec<DirEntry>) -> (r: Vec<usize>)
    ensures
        orders(views(entries@), 0, entries@.len() as int, r@),
        r@ == listing_order(views(entries@)),
{
    let mut names: Vec<Vec<char>> = Vec::new();
    let mut i: usize = 0;
    while i < entries.len()
        invariant
            i <= entries@.len(),
            names@.len() == i,
            forall|k: int| 0 <= k < i ==> (#[trigger] names@[k])@ == entries@[k].name@,
        decreases entries.len() - i,
    {
        names.push(text::to_chars(entries[i].name.as_str()));
        i += 1;
    }
    let r = sort_range(entries, &names, 0, entries.len());
    proof {
        law_order_is_unique(views(entries@), r@, listing_order(views(entries@)));
    }
    r
}

// ------------------------------------------------------------------------
// The page
// ------------------------------------------------------------------------

/// When an entry was last changed, as it is shown.
pub open spec fn shown_time(modified: Option<LocalTime>) -> Seq<char> {
    match modified {
        Some(t) => clock::formatted_time(t.seconds(), t.ahead(), clock::SHOWN_AS@),
        None => "-"@,
    }
}

/// The line of the page for an entry.
pub open spec fn row(e: Entry) -> Seq<char> {
    row_with(e, shown_time(e.modified))
}

/// The line of the page for an entry that was last changed at the given time.
pub open spec fn row_with(e: Entry, time: Seq<char>) -> Seq<char> {
    "<li><a href=\""@ + encode::encoded(e.name, encode::href_bytes()) + (if e.is_dir {
        "/"@
    } else {
        ""@
    }) + "\">"@ + escaped(e.name) + "</a> <small>["@ + (if e.is_dir {
        "dir"@
    } else {
        "file"@
    }) + ", "@ + (if e.is_dir {
        "-"@
    } else {
        size::size_text(e.size)
    }) + ", "@ + time + "]</small></li>\n"@
}

/// The lines for entries, in the order given.
pub open spec fn rows(entries: Seq<Entry>) -> Seq<char>
    decreases entries.len(),
{
    if entries.len() == 0 {
        Seq::empty()
    } else {
        rows(entries.drop_last()) + row(entries.last())
    }
}

/// The line that leads out of a directory. The root has none.
pub open spec fn parent_row(url_path: Seq<char>) -> Seq<char> {
    if url_path == "/"@ {
        Seq::empty()
    } else {
        "<li><a href=\"../\">../</a></li>\n"@
    }
}

/// The page for the directory at `url_path`.
pub open spec fn page(url_path: Seq<char>, entries: Seq<Entry>) -> Seq<char> {
    "<!DOCTYPE html>\n<html>\n<head><meta charset=\"utf-8\"><title>Index of "@ + escaped(url_path)
        + "</title><style>body{font-family:system-ui,sans-serif;max-width:48em;margin:2em auto;padding:0 1em}li{line-height:1.8;list-style:none}small{color:#777}</style></head>\n<body><h1>Index of "@
        + escaped(url_path) + "</h1><hr><ul>\n"@ + (parent_row(url_path) + rows(sorted(entries)))
        + "</ul><hr><p style=\"color:#777\">mini-download-serve — files are served as downloads (attachment)</p></body>\n</html>\n"@
}

/// Writes the line for an entry.
pub fn entry_row(sets: &EscapeSets, entry: &DirEntry) -> (r: String)
    ensures
        r@ == row(entry@),
{
    match entry.modified {
        Some(t) => entry_row_with(sets, entry, t.show().as_str()),
        None => entry_row_with(sets, entry, "-"),
    }
}

/// Writes the line for an entry, given when it was last changed.
pub fn entry_row_with(sets: &EscapeSets, entry: &DirEntry, time: &str) -> (r: String)
    ensures
        r@ == row_with(entry@, time@),
{
    let mut s = String::new();
    s.append("<li><a href=\"");
    s.append(sets.encode_href(entry.name.as_str()).as_str());
    if entry.is_dir {
        s.append("/");
    } else {
        s.append("");
    }
    s.append("\">");
    s.append(html_escape(entry.name.as_str()).as_str());
    s.append("</a> <small>[");
    if entry.is_dir {
        s.append("dir");
    } else {
        s.append("file");
    }
    s.append(", ");
    if entry.is_dir {
        s.append("-");
    } else {
        s.append(size::human_size(entry.size).as_str());
    }
    s.append(", ");
    s.append(time);
    s.append("]</small></li>\n");
    assert(s@ =~= row_with(entry@, time@));
    s
}

/// Writes the page that lists a directory.
pub fn list_dir(sets: &EscapeSets, entries: &Vec<DirEntry>, url_path: &str) -> (r: String)
    ensures
        r@ == page(url_path@, views(entries@)),
{
    let order = sort_entries(entries);
    let title = html_escape(url_path);
    let mut lines = String::new();
    if !text::same_text(url_path, "/") {
        lines.append("<li><a href=\"../\">../</a></li>\n");
    }
    assert(lines@ =~= parent_row(url_path@));
    let ghost all = sorted(views(entries@));
    let mut i: usize = 0;
    assert(rows(all.take(0)) =~= Seq::<char>::empty());
    assert(lines@ =~= parent_row(url_path@) + rows(all.take(0)));
    while i < order.len()
        invariant
            order@ == listing_order(views(entries@)),
            orders(views(entries@), 0, entries@.len() as int, order@),
            all == sorted(views(entries@)),
            i <= order@.len(),
            lines@ == parent_row(url_path@) + rows(all.take(i as int)),
        decreases order.len() - i,
    {
        let ghost before = lines@;
        let k: usize = order[i];
        lines.append(entry_row(sets, &entries[k]).as_str());
        assert(all[i as int] == entries@[k as int]@);
        assert(all.take(i + 1).drop_last() =~= all.take(i as int));
        i += 1;
        assert(lines@ =~= parent_row(url_path@) + rows(all.take(i as int)));
    }
    assert(all.take(all.len() as int) =~= all);
    let mut s = String::new();
    s.append("<!DOCTYPE html>\n<html>\n<head><meta charset=\"utf-8\"><title>Index of ");
    s.append(title.as_str());
    s.append(
        "</title><style>body{font-family:system-ui,sans-serif;max-width:48em;margin:2em auto;padding:0 1em}li{line-height:1.8;list-style:none}small{color:#777}</style></head>\n<body><h1>Index of ",
    );
    s.append(title.as_str());
    s.append("</h1><hr><ul>\n");
    s.append(lines.as_str());
    s.append(
        "</ul><hr><p style=\"color:#777\">mini-download-serve — files are served as downloads (attachment)</p></body>\n</html>\n",
    );
    assert(s@ =~= page(url_path@, views(entries@)));
    s
}

// ------------------------------------------------------------------------
// Laws
// ------------------------------------------------------------------------

/// Every entry has its line, and once: the order in which entries are listed runs
/// through all of them.
pub proof fn law_all_entries_are_listed(entries: Seq<Entry>)
    requires
        entries.len() <= usize::MAX,
    ensures
        sorted(entries).len() == entries.len(),
        forall|k: int|
            0 <= k < entries.len() ==> #[trigger] sorted(entries)[k]
                == entries[listing_order(entries)[k] as int],
        forall|i: usize|
            0 <= i < entries.len() ==> #[trigger] listing_order(entries).contains(i),
        listing_order(entries).no_duplicates(),
{
    let n = entries.len() as int;
    let order = listing_order(entries);
    law_order_exists(entries);
    assert forall|i: usize| 0 <= i < entries.len() implies #[trigger] order.contains(i) by {
        lemma_run_is_complete(entries, 0, n, order, i);
    }
    assert forall|k: int, l: int|
        0 <= k < order.len() && 0 <= l < order.len() && k != l implies order[k] != order[l] by {
        if k < l {
            assert(listed_before(entries, order[k] as int, order[l] as int));
        } else {
            assert(listed_before(entries, order[l] as int, order[k] as int));
        }
        law_order_is_total(entries, order[k] as int, order[l] as int);
    }
}

/// Directories are listed before files, and either by their names.
pub proof fn law_directories_come_first(entries: Seq<Entry>, k: int, l: int)
    requires
        entries.len() <= usize::MAX,
        0 <= k < l < entries.len(),
    ensures
        sorted(entries)[l].is_dir ==> sorted(entries)[k].is_dir,
        sorted(entries)[k].is_dir == sorted(entries)[l].is_dir ==> !name_before(
            sorted(entries)[l].name,
            sorted(entries)[k].name,
        ),
{
    let order = listing_order(entries);
    law_order_exists(entries);
    assert(listed_before(entries, order[k] as int, order[l] as int));
    law_order_is_total(entries, order[k] as int, order[l] as int);
}

/// Nothing in an escaped text can end an attribute or start a tag.
pub proof fn law_escaped_text_is_inert(s: Seq<char>)
    ensures
        !escaped(s).contains('<'),
        !escaped(s).contains('>'),
        !escaped(s).contains('"'),
    decreases s.len(),
{
    reveal_strlit("&amp;");
    reveal_strlit("&lt;");
    reveal_strlit("&gt;");
    reveal_strlit("&quot;");
    if s.len() > 0 {
        let head = escaped(s.drop_last());
        let last = escaped_char(s.last());
        law_escaped_text_is_inert(s.drop_last());
        assert forall|i: int| 0 <= i < escaped(s).len() implies {
            let c = #[trigger] escaped(s)[i];
            c != '<' && c != '>' && c != '"'
        } by {
            if i < head.len() {
                assert(head.contains(head[i]));
                assert(escaped(s)[i] == head[i]);
            } else {
                assert(escaped(s)[i] == last[i - head.len()]);
            }
        }
    }
}

proof fn lemma_escaped_first(s: Seq<char>)
    requires
        s.len() > 0,
    ensures
        escaped(s) == escaped_char(s[0]) + escaped(s.drop_first()),
    decreases s.len(),
{
    if s.len() == 1 {
        assert(s.drop_last() =~= Seq::<char>::empty());
        assert(s.drop_first() =~= Seq::<char>::empty());
        assert(escaped(s.drop_last()) =~= Seq::<char>::empty());
        assert(escaped(s) =~= escaped_char(s[0]) + escaped(s.drop_first()));
    } else {
        lemma_escaped_first(s.drop_last());
        assert(s.drop_last().drop_first() =~= s.drop_first().drop_last());
        assert(escaped(s) =~= escaped_char(s[0]) + escaped(s.drop_first()));
    }
}

/// Two texts that look the same in a page are the same.
pub proof fn law_escaping_keeps_texts_apart(a: Seq<char>, b: Seq<char>)
    requires
        escaped(a) == escaped(b),
    ensures
        a == b,
    decreases a.len(),
{
    reveal_strlit("&amp;");
    reveal_strlit("&lt;");
    reveal_strlit("&gt;");
    reveal_strlit("&quot;");
    if a.len() > 0 {
        lemma_escaped_first(a);
    }
    if b.len() > 0 {
        lemma_escaped_first(b);
    }
    if a.len() == 0 || b.len() == 0 {
        assert(escaped(a).len() == 0 ==> a.len() == 0);
        assert(escaped(b).len() == 0 ==> b.len() == 0);
        assert(a =~= b);
    } else {
        let x = escaped_char(a[0]);
        let y = escaped_char(b[0]);
        let whole = escaped(a);
        assert(whole[0] == x[0] && whole[0] == y[0]);
        if whole[0] == '&' {
            assert(whole[1] == x[1] && whole[1] == y[1]);
        }
        assert(a[0] == b[0]);
        assert(whole.skip(x.len() as int) =~= escaped(a.drop_first()));
        assert(whole.skip(x.len() as int) =~= escaped(b.drop_first()));
        law_escaping_keeps_texts_apart(a.drop_first(), b.drop_first());
        assert(a =~= seq![a[0]] + a.drop_first());
        assert(b =~= seq![b[0]] + b.drop_first());
    }
}

/// Nothing in a link can end it.
pub proof fn law_link_is_inert(name: Seq<char>)
    ensures
        !encode::encoded(name, encode::href_bytes()).contains('<'),
        !encode::encoded(name, encode::href_bytes()).contains('>'),
        !encode::encoded(name, encode::href_bytes()).contains('"'),
{
    let bytes = vstd::utf8::encode_utf8(name);
    let set = encode::href_bytes();
    encode::law_encoded_text_is_plain(bytes, set);
    let e = encode::percent_encoded(bytes, set);
    assert forall|i: int| 0 <= i < e.len() implies {
        let c = #[trigger] e[i];
        c != '<' && c != '>' && c != '"'
    } by {
        let c = encode::percent_encoded(bytes, set)[i];
        assert(set.contains('<' as u8) && set.contains('>' as u8) && set.contains('"' as u8));
    }
}

/// What a page shows for a text that stands in it: each of the four entities is
/// shown as its character, everything else as itself.
pub open spec fn shown(s: Seq<char>) -> Seq<char>
    decreases s.len(),
{
    if s.len() == 0 {
        Seq::empty()
    } else if s.len() >= 5 && s.take(5) == seq!['&', 'a', 'm', 'p', ';'] {
        seq!['&'] + shown(s.skip(5))
    } else if s.len() >= 4 && s.take(4) == seq!['&', 'l', 't', ';'] {
        seq!['<'] + shown(s.skip(4))
    } else if s.len() >= 4 && s.take(4) == seq!['&', 'g', 't', ';'] {
        seq!['>'] + shown(s.skip(4))
    } else if s.len() >= 6 && s.take(6) == seq!['&', 'q', 'u', 'o', 't', ';'] {
        seq!['"'] + shown(s.skip(6))
    } else {
        seq![s[0]] + shown(s.skip(1))
    }
}

/// A page shows an escaped text as the text that it was.
pub proof fn law_page_shows_the_text(s: Seq<char>)
    ensures
        shown(escaped(s)) == s,
    decreases s.len(),
{
    if s.len() > 0 {
        reveal_strlit("&amp;");
        reveal_strlit("&lt;");
        reveal_strlit("&gt;");
        reveal_strlit("&quot;");
        let c = s[0];
        let rest = s.drop_first();
        lemma_escaped_first(s);
        law_page_shows_the_text(rest);
        let e = escaped(s);
        let x = escaped_char(c);
        let n = x.len() as int;
        assert(e.take(n) =~= x);
        assert(e.skip(n) =~= escaped(rest));
        assert(seq![c] + rest =~= s);
        if c == '&' {
            assert(x =~= seq!['&', 'a', 'm', 'p', ';']);
        } else if c == '<' {
            assert(x =~= seq!['&', 'l', 't', ';']);
            assert(e.len() >= 5 ==> e.take(5)[1] == e[1]);
            assert(e[1] == x[1]);
        } else if c == '>' {
            assert(x =~= seq!['&', 'g', 't', ';']);
            assert(e.len() >= 5 ==> e.take(5)[1] == e[1]);
            assert(e.take(4)[1] == e[1]);
            assert(e[1] == x[1]);
        } else if c == '"' {
            assert(x =~= seq!['&', 'q', 'u', 'o', 't', ';']);
            assert(e.take(5)[1] == e[1]);
            assert(e.take(4)[1] == e[1]);
            assert(e[1] == x[1]);
        } else {
            assert(e[0] == c);
            assert(e.len() >= 5 ==> e.take(5)[0] == e[0]);
            assert(e.len() >= 4 ==> e.take(4)[0] == e[0]);
            assert(e.len() >= 6 ==> e.take(6)[0] == e[0]);
        }
    } else {
        assert(escaped(s) =~= s);
    }
}

/// A text without the four characters stands in a page as it is.
pub proof fn law_plain_text_is_not_escaped(s: Seq<char>)
    requires
        forall|i: int|
            0 <= i < s.len() ==> #[trigger] s[i] != '&' && s[i] != '<' && s[i] != '>' && s[i]
                != '"',
    ensures
        escaped(s) == s,
    decreases s.len(),
{
    if s.len() > 0 {
        let t = s.drop_last();
        assert forall|i: int| 0 <= i < t.len() implies #[trigger] t[i] != '&' && t[i] != '<' && t[i]
            != '>' && t[i] != '"' by {
            assert(t[i] == s[i]);
        }
        law_plain_text_is_not_escaped(t);
        assert(s[s.len() - 1] == s.last());
        assert(t + seq![s.last()] =~= s);
    } else {
        assert(escaped(s) =~= s);
    }
}

/// `b` does not come before `a`: it is `a` with something behind it or nothing, or
/// the first character in which they differ is the larger one in `b`.
pub open spec fn in_order(a: Seq<char>, b: Seq<char>) -> bool {
    ||| a.is_prefix_of(b)
    ||| exists|i: int|
        0 <= i < a.len() && i < b.len() && a.take(i) == b.take(i) && #[trigger] a[i]
            < #[trigger] b[i]
}

proof fn lemma_in_order(a: Seq<char>, b: Seq<char>)
    requires
        !name_before(b, a),
    ensures
        in_order(a, b),
    decreases a.len(),
{
    if a.len() == 0 {
        assert(b.take(0) =~= a);
    } else if b.len() == 0 {
    } else if a[0] != b[0] {
        assert(a.take(0) =~= b.take(0));
        assert(a[0] < b[0]);
    } else {
        let x = a.drop_first();
        let y = b.drop_first();
        lemma_in_order(x, y);
        if x.is_prefix_of(y) {
            assert(b.take(a.len() as int) =~= a) by {
                assert forall|i: int| 0 <= i < a.len() implies b.take(a.len() as int)[i]
                    == #[trigger] a[i] by {
                    if i > 0 {
                        assert(x[i - 1] == y.take(x.len() as int)[i - 1]);
                    }
                }
            }
        } else {
            let i = choose|i: int|
                0 <= i < x.len() && i < y.len() && x.take(i) == y.take(i) && #[trigger] x[i]
                    < #[trigger] y[i];
            assert(a[i + 1] < b[i + 1]);
            assert(a.take(i + 1) =~= b.take(i + 1)) by {
                assert forall|j: int| 0 <= j < i + 1 implies a.take(i + 1)[j] == #[trigger] b.take(
                    i + 1,
                )[j] by {
                    if j > 0 {
                        assert(x.take(i)[j - 1] == y.take(i)[j - 1]);
                    }
                }
            }
        }
    }
}

/// Listed one behind the other are first the directories and then the files, both
/// in the order of their names, character by character; entries of one name and
/// kind are listed in the order in which they came.
pub proof fn law_listed_by_kind_and_name(entries: Seq<Entry>, k: int, l: int)
    requires
        entries.len() <= usize::MAX,
        0 <= k < l < entries.len(),
    ensures
        ({
            let i = listing_order(entries)[k] as int;
            let j = listing_order(entries)[l] as int;
            &&& 0 <= i < entries.len()
            &&& 0 <= j < entries.len()
            &&& entries[j].is_dir ==> entries[i].is_dir
            &&& entries[i].is_dir == entries[j].is_dir ==> in_order(
                entries[i].name,
                entries[j].name,
            )
            &&& entries[i].is_dir == entries[j].is_dir && entries[i].name == entries[j].name ==> i
                < j
        }),
{
    let order = listing_order(entries);
    law_order_exists(entries);
    let i = order[k] as int;
    let j = order[l] as int;
    assert(listed_before(entries, i, j));
    law_order_is_total(entries, i, j);
    if entries[i].is_dir == entries[j].is_dir {
        if name_before(entries[j].name, entries[i].name) {
            lemma_name_asymmetric(entries[j].name, entries[i].name);
        }
        lemma_in_order(entries[i].name, entries[j].name);
        lemma_name_irreflexive(entries[i].name);
    }
}

/// The lines for all entries, one for each, in the order in which they are listed.
pub open spec fn lines(entries: Seq<Entry>) -> Seq<Seq<char>> {
    Seq::new(entries.len(), |k: int| row(entries[listing_order(entries)[k] as int]))
}

proof fn lemma_rows_are_lines(entries: Seq<Entry>)
    ensures
        rows(entries) == Seq::new(entries.len(), |k: int| row(entries[k])).flatten(),
    decreases entries.len(),
{
    let all = Seq::new(entries.len(), |k: int| row(entries[k]));
    if entries.len() == 0 {
        assert(all.flatten() =~= Seq::<char>::empty());
    } else {
        let e = entries.drop_last();
        let before = Seq::new(e.len(), |k: int| row(e[k]));
        lemma_rows_are_lines(e);
        before.lemma_flatten_push(row(entries.last()));
        assert(before.push(row(entries.last())) =~= all);
    }
}

/// A line that is among others stands in the text that they make.
proof fn lemma_line_in_text(lines: Seq<Seq<char>>, k: int) -> (at: int)
    requires
        0 <= k < lines.len(),
    ensures
        0 <= at,
        at + lines[k].len() <= lines.flatten().len(),
        lines.flatten().subrange(at, at + lines[k].len()) == lines[k],
    decreases lines.len(),
{
    let rest = lines.drop_first();
    let whole = lines.flatten();
    assert(whole == lines[0] + rest.flatten());
    if k == 0 {
        assert(whole.subrange(0, lines[0].len() as int) =~= lines[0]);
        0
    } else {
        let at = lemma_line_in_text(rest, k - 1);
        let n = lines[0].len() as int;
        let m = lines[k].len() as int;
        assert(rest[k - 1] == lines[k]);
        assert(whole.subrange(n + at, n + at + m) =~= rest.flatten().subrange(at, at + m));
        n + at
    }
}

/// The list on a page holds the line of every entry, once and in order: between
/// `<ul>`, behind the line that leads out of the directory, which only the root
/// lacks, and `</ul>` stand the lines of the entries, one after the other, and
/// nothing else. What is around the list tells the path of the directory twice and
/// does not depend on what is in it.
pub proof fn law_page_holds_every_line(url_path: Seq<char>, entries: Seq<Entry>) -> (around: (
    Seq<char>,
    Seq<char>,
))
    requires
        entries.len() <= usize::MAX,
    ensures
        ({
            let (before, behind) = around;
            let list = lines(entries).flatten();
            &&& url_path != seq!['/'] ==> page(url_path, entries) == before
                + "<ul>\n<li><a href=\"../\">../</a></li>\n"@ + list + "</ul>"@ + behind
            &&& url_path == seq!['/'] ==> page(url_path, entries) == before + "<ul>\n"@ + list
                + "</ul>"@ + behind
            &&& before
                == "<!DOCTYPE html>\n<html>\n<head><meta charset=\"utf-8\"><title>Index of "@
                + escaped(url_path)
                + "</title><style>body{font-family:system-ui,sans-serif;max-width:48em;margin:2em auto;padding:0 1em}li{line-height:1.8;list-style:none}small{color:#777}</style></head>\n<body><h1>Index of "@
                + escaped(url_path) + "</h1><hr>"@
            &&& behind
                == "<hr><p style=\"color:#777\">mini-download-serve — files are served as downloads (attachment)</p></body>\n</html>\n"@
        }),
{
    let before = "<!DOCTYPE html>\n<html>\n<head><meta charset=\"utf-8\"><title>Index of "@
        + escaped(url_path)
        + "</title><style>body{font-family:system-ui,sans-serif;max-width:48em;margin:2em auto;padding:0 1em}li{line-height:1.8;list-style:none}small{color:#777}</style></head>\n<body><h1>Index of "@
        + escaped(url_path) + "</h1><hr>"@;
    let behind =
        "<hr><p style=\"color:#777\">mini-download-serve — files are served as downloads (attachment)</p></body>\n</html>\n"@;
    let all = sorted(entries);
    law_all_entries_are_listed(entries);
    lemma_rows_are_lines(all);
    assert(Seq::new(all.len(), |k: int| row(all[k])) =~= lines(entries));
    let list = lines(entries).flatten();
    assert("</h1><hr><ul>\n"@ =~= "</h1><hr>"@ + "<ul>\n"@) by {
        reveal_strlit("</h1><hr><ul>\n");
        reveal_strlit("</h1><hr>");
        reveal_strlit("<ul>\n");
    }
    assert("<ul>\n<li><a href=\"../\">../</a></li>\n"@ =~= "<ul>\n"@
        + "<li><a href=\"../\">../</a></li>\n"@) by {
        reveal_strlit("<ul>\n<li><a href=\"../\">../</a></li>\n");
        reveal_strlit("<ul>\n");
        reveal_strlit("<li><a href=\"../\">../</a></li>\n");
    }
    assert("/"@ =~= seq!['/']) by {
        reveal_strlit("/");
    }
    assert("</ul><hr><p style=\"color:#777\">mini-download-serve — files are served as downloads (attachment)</p></body>\n</html>\n"@
        =~= "</ul>"@ + behind) by {
        reveal_strlit(
            "</ul><hr><p style=\"color:#777\">mini-download-serve — files are served as downloads (attachment)</p></body>\n</html>\n",
        );
        reveal_strlit("</ul>");
        reveal_strlit(
            "<hr><p style=\"color:#777\">mini-download-serve — files are served as downloads (attachment)</p></body>\n</html>\n",
        );
    }
    if url_path == seq!['/'] {
        assert(page(url_path, entries) =~= before + "<ul>\n"@ + list + "</ul>"@ + behind);
    } else {
        assert(page(url_path, entries) =~= before + "<ul>\n<li><a href=\"../\">../</a></li>\n"@
            + list + "</ul>"@ + behind);
    }
    (before, behind)
}

/// The line of an entry is a link that leads to its name, with a slash behind it
/// for a directory and none for a file; a text that shows its name; and what it is,
/// how large, and when it was last changed.
pub proof fn law_line_tells_of_its_entry(e: Entry) -> (parts: (
    Seq<char>,
    Seq<char>,
    Seq<char>,
    Seq<char>,
    Seq<char>,
))
    ensures
        ({
            let (link, label, kind, size, time) = parts;
            &&& row(e) == "<li><a href=\""@ + link + "\">"@ + label + "</a> <small>["@ + kind
                + ", "@ + size + ", "@ + time + "]</small></li>\n"@
            &&& e.is_dir ==> link.len() > 0 && link.last() == '/' && encode::decoded(
                link.drop_last(),
            ) == e.name && kind == "dir"@ && size == "-"@
            &&& !e.is_dir ==> encode::decoded(link) == e.name && kind == "file"@ && size
                == size::size_text(e.size)
            &&& !link.contains('"')
            &&& shown(label) == e.name
            &&& !label.contains('<')
            &&& e.modified is None ==> time == "-"@
            &&& e.modified matches Some(t) ==> time == clock::formatted_time(
                t.seconds(),
                t.ahead(),
                "%Y-%m-%d %H:%M:%S"@,
            )
        }),
{
    reveal_strlit("/");
    reveal_strlit("");
    let name_link = encode::encoded(e.name, encode::href_bytes());
    let link = name_link + (if e.is_dir {
        "/"@
    } else {
        ""@
    });
    let label = escaped(e.name);
    let kind = if e.is_dir {
        "dir"@
    } else {
        "file"@
    };
    let size = if e.is_dir {
        "-"@
    } else {
        size::size_text(e.size)
    };
    let time = shown_time(e.modified);
    encode::law_href_decodes(e.name);
    law_link_is_inert(e.name);
    law_page_shows_the_text(e.name);
    law_escaped_text_is_inert(e.name);
    assert forall|i: int| 0 <= i < link.len() implies #[trigger] link[i] != '"' by {
        if i < name_link.len() {
            assert(name_link.contains(name_link[i]));
        }
    }
    if e.is_dir {
        assert(link.drop_last() =~= name_link);
    } else {
        assert(link =~= name_link);
    }
    assert(row(e) =~= "<li><a href=\""@ + link + "\">"@ + label + "</a> <small>["@ + kind + ", "@
        + size + ", "@ + time + "]</small></li>\n"@);
    (link, label, kind, size, time)
}

/// Whatever else is in a directory, the line of each of its entries stands in the
/// page.
pub proof fn law_each_entry_is_on_the_page(
    url_path: Seq<char>,
    entries: Seq<Entry>,
    i: int,
) -> (at: int)
    requires
        entries.len() <= usize::MAX,
        0 <= i < entries.len(),
    ensures
        0 <= at,
        at + row(entries[i]).len() <= page(url_path, entries).len(),
        page(url_path, entries).subrange(at, at + row(entries[i]).len()) == row(entries[i]),
{
    let (before, behind) = law_page_holds_every_line(url_path, entries);
    law_all_entries_are_listed(entries);
    let order = listing_order(entries);
    assert(order.contains(i as usize));
    let k = choose|k: int| 0 <= k < order.len() && order[k] == i as usize;
    law_order_exists(entries);
    let list = lines(entries).flatten();
    let line = row(entries[i]);
    assert(lines(entries)[k] == line);
    let at = lemma_line_in_text(lines(entries), k);
    let head = if url_path == seq!['/'] {
        before + "<ul>\n"@
    } else {
        before + "<ul>\n<li><a href=\"../\">../</a></li>\n"@
    };
    let whole = page(url_path, entries);
    let n = head.len() as int;
    assert(whole =~= head + list + ("</ul>"@ + behind));
    assert(whole.subrange(n + at, n + at + line.len()) =~= list.subrange(at, at + line.len()));
    n + at
}

} // verus!
