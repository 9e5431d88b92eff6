//! Paths of the file system, as bytes with `/` between their parts.

use crate::encode;
use crate::text;
use vstd::prelude::*;
use vstd::string::*;
use vstd::utf8::*;

verus! {

/// The byte between the parts of a path.
pub open spec fn slash() -> u8 {
    47
}

/// A part of a path that stands for the directory it is in.
pub open spec fn dot() -> Seq<u8> {
    seq![46u8]
}

/// The runs of bytes before, between and behind the slashes.
pub open spec fn segments(p: Seq<u8>) -> Seq<Seq<u8>> {
    text::segments(p, slash())
}

/// The segments that name something: empty ones do not, nor does a `.`, unless
/// the path starts with it.
pub open spec fn naming(segs: Seq<Seq<u8>>) -> Seq<Seq<u8>>
    decreases segs.len(),
{
    if segs.len() == 0 {
        Seq::empty()
    } else {
        let before = naming(segs.drop_last());
        if segs.last().len() == 0 || (segs.last() == dot() && segs.len() > 1) {
            before
        } else {
            before.push(segs.last())
        }
    }
}

/// The components of a path. The slash at the start of an absolute path is one.
pub open spec fn components(p: Seq<u8>) -> Seq<Seq<u8>> {
    if p.len() > 0 && p[0] == slash() {
        seq![seq![slash()]] + naming(segments(p))
    } else {
        naming(segments(p))
    }
}

/// `p` is `base` or lies below it.
pub open spec fn within(base: Seq<u8>, p: Seq<u8>) -> bool {
    components(base).is_prefix_of(components(p))
}

/// The path `rel`, taken from `base` on. One that is absolute is taken as it is.
pub open spec fn join(base: Seq<u8>, rel: Seq<u8>) -> Seq<u8> {
    if rel.len() > 0 && rel[0] == slash() {
        rel
    } else if base.len() > 0 && base.last() != slash() {
        base.push(slash()) + rel
    } else {
        base + rel
    }
}

/// A copy of some bytes.
pub fn copy_bytes(s: &[u8]) -> (r: Vec<u8>)
    ensures
        r@ == s@,
{
    let mut out: Vec<u8> = Vec::new();
    out.extend_from_slice(s);
    assert(out@ =~= s@);
    out
}

/// Whether two runs of bytes are the same.
fn same_bytes(a: &Vec<u8>, b: &Vec<u8>) -> (r: bool)
    ensures
        r == (a@ == b@),
{
    if a.len() != b.len() {
        return false;
    }
    let mut i: usize = 0;
    while i < a.len()
        invariant
            i <= a@.len(),
            a@.len() == b@.len(),
            forall|j: int| 0 <= j < i ==> a@[j] == b@[j],
        decreases a.len() - i,
    {
        if a[i] != b[i] {
            return false;
        }
        i += 1;
    }
    assert(a@ =~= b@);
    true
}

/// Cuts a path at its slashes.
fn split(p: &Vec<u8>) -> (r: Vec<Vec<u8>>)
    ensures
        text::contents(r@) == segments(p@),
{
    let mut done: Vec<Vec<u8>> = Vec::new();
    let mut current: Vec<u8> = Vec::new();
    let mut i: usize = 0;
    assert(text::contents(done@).push(current@) =~= segments(p@.take(0)));
    while i < p.len()
        invariant
            i <= p@.len(),
            text::contents(done@).push(current@) == segments(p@.take(i as int)),
        decreases p.len() - i,
    {
        let ghost before = text::contents(done@).push(current@);
        assert(p@.take(i + 1).drop_last() =~= p@.take(i as int));
        let b: u8 = p[i];
        if b == 47 {
            done.push(current);
            current = Vec::new();
            assert(text::contents(done@) =~= before);
        } else {
            current.push(b);
            assert(before.drop_last() =~= text::contents(done@));
        }
        i += 1;
        assert(text::contents(done@).push(current@) =~= segments(p@.take(i as int)));
    }
    assert(p@.take(p@.len() as int) =~= p@);
    let ghost before = text::contents(done@).push(current@);
    done.push(current);
    assert(text::contents(done@) =~= before);
    done
}

/// Takes a path apart.
pub fn path_components(p: &Vec<u8>) -> (r: Vec<Vec<u8>>)
    ensures
        text::contents(r@) == components(p@),
{
    let segs = split(p);
    let mut out: Vec<Vec<u8>> = Vec::new();
    let ghost root: Seq<Seq<u8>> = if p@.len() > 0 && p@[0] == slash() {
        seq![seq![slash()]]
    } else {
        Seq::empty()
    };
    if p.len() > 0 && p[0] == 47 {
        let mut whole: Vec<u8> = Vec::new();
        whole.push(47u8);
        assert(whole@ =~= seq![slash()]);
        out.push(whole);
    }
    assert(text::contents(out@) =~= root);
    let ghost parts = text::contents(segs@);
    let mut i: usize = 0;
    assert(naming(parts.take(0)) =~= Seq::<Seq<u8>>::empty());
    assert(root + naming(parts.take(0)) =~= root);
    while i < segs.len()
        invariant
            i <= segs@.len(),
            parts == text::contents(segs@),
            text::contents(out@) == root + naming(parts.take(i as int)),
        decreases segs.len() - i,
    {
        let ghost before = out@;
        assert(parts.take(i + 1).drop_last() =~= parts.take(i as int));
        let current_dir = segs[i].len() == 1 && segs[i][0] == 46;
        assert(current_dir == (parts[i as int] == dot())) by {
            if current_dir {
                assert(segs@[i as int]@ =~= dot());
            }
        }
        if segs[i].len() == 0 || (current_dir && i > 0) {
        } else {
            out.push(copy_bytes(segs[i].as_slice()));
            assert(text::contents(out@) =~= text::contents(before).push(parts[i as int]));
        }
        i += 1;
        assert(text::contents(out@) =~= root + naming(parts.take(i as int)));
    }
    assert(parts.take(parts.len() as int) =~= parts);
    assert(text::contents(out@) =~= components(p@));
    out
}

/// Whether a path is a given one or lies below it.
pub fn starts_with(p: &Vec<u8>, base: &Vec<u8>) -> (r: bool)
    ensures
        r == within(base@, p@),
{
    let a = path_components(base);
    let b = path_components(p);
    let ghost ac = components(base@);
    let ghost bc = components(p@);
    if b.len() < a.len() {
        return false;
    }
    let mut i: usize = 0;
    while i < a.len()
        invariant
            ac == components(base@),
            bc == components(p@),
            text::contents(a@) == ac,
            text::contents(b@) == bc,
            i <= a@.len() <= b@.len(),
            forall|j: int| 0 <= j < i ==> ac[j] == bc[j],
        decreases a.len() - i,
    {
        assert(ac[i as int] == a@[i as int]@);
        assert(bc[i as int] == b@[i as int]@);
        if !same_bytes(&a[i], &b[i]) {
            assert(!ac.is_prefix_of(bc)) by {
                if ac.is_prefix_of(bc) {
                    assert(bc.take(ac.len() as int)[i as int] == ac[i as int]);
                }
            }
            return false;
        }
        i += 1;
    }
    assert(ac =~= bc.take(ac.len() as int));
    true
}

/// Takes a path from another one on.
pub fn join_path(base: &Vec<u8>, rel: &str) -> (r: Vec<u8>)
    ensures
        r@ == join(base@, encode_utf8(rel@)),
{
    let rel = rel.as_bytes();
    if rel.len() > 0 && rel[0] == 47 {
        return copy_bytes(rel);
    }
    let mut out = copy_bytes(base.as_slice());
    if base.len() > 0 && base[base.len() - 1] != 47 {
        out.push(47u8);
    }
    let ghost before = out@;
    out.extend_from_slice(rel);
    assert(out@ =~= before + rel@);
    out
}

// ------------------------------------------------------------------------
// Where a request leads
// ------------------------------------------------------------------------

/// A path that climbs out of a directory, or that no file system takes: some
/// segment is `..` or holds a NUL.
pub open spec fn refused(rel: Seq<char>) -> bool {
    exists|k: int|
        0 <= k < text::segments(rel, '/').len() && refused_segment(
            #[trigger] text::segments(rel, '/')[k],
        )
}

/// The segment is `..` or holds a NUL.
pub open spec fn refused_segment(seg: Seq<char>) -> bool {
    seg == seq!['.', '.'] || seg.contains('\0')
}

/// The path below `root` that a decoded request path stands for.
pub open spec fn target(root: Seq<u8>, rel: Seq<char>) -> Seq<u8> {
    join(root, encode_utf8(text::without_leading(rel, '/')))
}

/// Finds the path that a decoded request path stands for, unless that is one to
/// be refused.
pub fn locate(root: &Vec<u8>, rel: &str) -> (r: Option<Vec<u8>>)
    ensures
        match r {
            Some(path) => !refused(rel@) && path@ == target(root@, rel@),
            None => refused(rel@),
        },
{
    let chars = text::to_chars(rel);
    let segs = text::split_chars(&chars, '/');
    let mut i: usize = 0;
    while i < segs.len()
        invariant
            i <= segs@.len(),
            text::contents(segs@) == text::segments(rel@, '/'),
            forall|k: int|
                0 <= k < i ==> !refused_segment(#[trigger] text::segments(rel@, '/')[k]),
        decreases segs.len() - i,
    {
        let seg = &segs[i];
        assert(text::segments(rel@, '/')[i as int] == seg@);
        let up = seg.len() == 2 && seg[0] == '.' && seg[1] == '.';
        assert(up == (seg@ == seq!['.', '.'])) by {
            if up {
                assert(seg@ =~= seq!['.', '.']);
            }
        }
        if up {
            return None;
        }
        match text::find_char(seg, '\0') {
            Some(k) => {
                assert(seg@[k as int] == '\0');
                return None;
            },
            None => {},
        }
        i += 1;
    }
    let below = text::from_chars(&text::trim_leading(&chars, '/'));
    Some(join_path(root, below.as_str()))
}

// ------------------------------------------------------------------------
// Laws
// ------------------------------------------------------------------------

/// More segments take none of the components away, and add nothing but such
/// segments.
proof fn lemma_naming_concat(x: Seq<Seq<u8>>, y: Seq<Seq<u8>>)
    ensures
        naming(x).is_prefix_of(naming(x + y)),
        forall|i: int|
            naming(x).len() <= i < naming(x + y).len() ==> y.contains(#[trigger] naming(x + y)[i]),
    decreases y.len(),
{
    if y.len() == 0 {
        assert(x + y =~= x);
        assert(naming(x).take(naming(x).len() as int) =~= naming(x));
    } else {
        let z = y.drop_last();
        lemma_naming_concat(x, z);
        assert((x + y).drop_last() =~= x + z);
        let n = naming(x).len() as int;
        assert(naming(x) =~= naming(x + z).take(n));
        assert(naming(x + y).take(n) =~= naming(x + z).take(n));
        assert forall|i: int| n <= i < naming(x + y).len() implies y.contains(
            #[trigger] naming(x + y)[i],
        ) by {
            if i < naming(x + z).len() {
                let c = naming(x + z)[i];
                assert(z.contains(c));
                let k = choose|k: int| 0 <= k < z.len() && z[k] == c;
                assert(y[k] == c);
            } else {
                assert(y[y.len() - 1] == y.last());
            }
        }
    }
}

/// A path that is not absolute, taken from a base on, has the components of the
/// base and behind them only such as are segments of the path.
proof fn lemma_join(base: Seq<u8>, rel: Seq<u8>)
    requires
        rel.len() == 0 || rel[0] != slash(),
    ensures
        within(base, join(base, rel)),
        forall|i: int|
            components(base).len() <= i < components(join(base, rel)).len()
                ==> segments(rel).contains(#[trigger] components(join(base, rel))[i]),
{
    let j = join(base, rel);
    if base.len() == 0 {
        assert(j =~= rel);
        let x = Seq::<Seq<u8>>::empty();
        let first = seq![Seq::<u8>::empty()];
        assert(segments(base) == first);
        assert(first.drop_last() =~= x);
        assert(naming(first.drop_last()) =~= x);
        assert(components(base) =~= x);
        assert(components(j).take(0) =~= x);
        lemma_naming_concat(x, segments(rel));
        assert(x + segments(rel) =~= segments(rel));
        assert(naming(x) =~= x);
    } else {
        let a = if base.last() == slash() {
            base.drop_last()
        } else {
            base
        };
        assert(j =~= a.push(slash()) + rel);
        text::lemma_segments_concat(a, slash(), rel);
        lemma_naming_concat(segments(a), segments(rel));
        if base.last() == slash() {
            let s = segments(base);
            assert(s == segments(a).push(Seq::empty()));
            assert(s.drop_last() =~= segments(a));
        }
        assert(naming(segments(base)) == naming(segments(a)));
        let all = naming(segments(j));
        let n = naming(segments(a)).len() as int;
        assert(naming(segments(a)) =~= all.take(n));
        assert(j[0] == base[0]);
        if base[0] == slash() {
            assert(components(base) =~= components(j).take(components(base).len() as int));
            assert forall|i: int|
                components(base).len() <= i < components(j).len() implies segments(rel).contains(
                #[trigger] components(j)[i],
            ) by {
                assert(components(j)[i] == all[i - 1]);
            }
        } else {
            assert(components(base) =~= components(j).take(components(base).len() as int));
        }
    }
}

proof fn lemma_encode_push(s: Seq<char>, c: char)
    ensures
        encode_utf8(s.push(c)) == encode_utf8(s) + encode_scalar(c as u32),
{
    let last = seq![c];
    encode::lemma_encode_concat(s, last);
    assert(s.push(c) =~= s + last);
    assert(encode_utf8(last.drop_first()) =~= Seq::<u8>::empty());
    assert(encode_utf8(last) =~= encode_scalar(c as u32));
}

/// Bytes without a slash go to the last segment.
proof fn lemma_segments_extend(p: Seq<u8>, more: Seq<u8>)
    requires
        !more.contains(slash()),
    ensures
        segments(p + more) == segments(p).drop_last().push(segments(p).last() + more),
    decreases more.len(),
{
    text::lemma_segments_shape(p, slash());
    let segs = segments(p);
    if more.len() == 0 {
        assert(p + more =~= p);
        assert(segs.last() + more =~= segs.last());
        assert(segs.drop_last().push(segs.last()) =~= segs);
    } else {
        let m = more.drop_last();
        assert forall|i: int| 0 <= i < m.len() implies #[trigger] m[i] != slash() by {
            assert(more.contains(more[i]));
        }
        lemma_segments_extend(p, m);
        assert(more.contains(more.last()));
        assert((p + more).drop_last() =~= p + m);
        let before = segments(p + m);
        assert(before.drop_last() =~= segs.drop_last());
        assert((segs.last() + m).push(more.last()) =~= segs.last() + more);
    }
}

/// The segments of the UTF-8 form of a text are the UTF-8 forms of its segments.
proof fn lemma_segments_encode(s: Seq<char>)
    ensures
        segments(encode_utf8(s)) == text::segments(s, '/').map_values(
            |seg: Seq<char>| encode_utf8(seg),
        ),
    decreases s.len(),
{
    let f = |seg: Seq<char>| encode_utf8(seg);
    if s.len() == 0 {
        assert(segments(encode_utf8(s)) =~= text::segments(s, '/').map_values(f));
    } else {
        let t = s.drop_last();
        let c = s.last();
        lemma_segments_encode(t);
        lemma_encode_push(t, c);
        assert(t.push(c) =~= s);
        text::lemma_segments_shape(t, '/');
        let before = text::segments(t, '/');
        let p = encode_utf8(t);
        if c == '/' {
            assert(encode_scalar(c as u32) =~= seq![slash()]) by {
                assert(47u32 & 0x7f == 47) by (bit_vector);
            }
            assert(encode_utf8(s) =~= p.push(slash()));
            assert(encode_utf8(s).drop_last() =~= p);
            assert(encode_utf8(Seq::<char>::empty()) =~= Seq::<u8>::empty());
            assert(segments(encode_utf8(s)) =~= text::segments(s, '/').map_values(f));
        } else {
            encode::lemma_ascii_in_scalar(c, slash());
            lemma_segments_extend(p, encode_scalar(c as u32));
            lemma_encode_push(before.last(), c);
            assert(segments(encode_utf8(s)) =~= text::segments(s, '/').map_values(f));
        }
    }
}

/// Leading slashes only make for empty segments.
proof fn lemma_segments_without_leading(s: Seq<char>)
    ensures
        ({
            let t = text::without_leading(s, '/');
            &&& t.len() == 0 || t[0] != '/'
            &&& forall|k: int|
                0 <= k < text::segments(t, '/').len() ==> text::segments(s, '/').contains(
                    #[trigger] text::segments(t, '/')[k],
                )
        }),
    decreases s.len(),
{
    let t = text::without_leading(s, '/');
    if s.len() > 0 && s[0] == '/' {
        let u = s.drop_first();
        let e = Seq::<char>::empty();
        lemma_segments_without_leading(u);
        text::lemma_segments_concat(e, '/', u);
        assert(e.push('/') + u =~= s);
        assert forall|k: int| 0 <= k < text::segments(t, '/').len() implies text::segments(
            s,
            '/',
        ).contains(#[trigger] text::segments(t, '/')[k]) by {
            let seg = text::segments(t, '/')[k];
            assert(text::segments(u, '/').contains(seg));
            let i = choose|i: int|
                0 <= i < text::segments(u, '/').len() && text::segments(u, '/')[i] == seg;
            assert(text::segments(s, '/')[i + text::segments(e, '/').len()] == seg);
        }
    }
}

/// Whatever is asked for, it is looked for below the root.
pub proof fn law_target_lies_within(root: Seq<u8>, rel: Seq<char>)
    ensures
        within(root, target(root, rel)),
{
    let t = text::without_leading(rel, '/');
    lemma_segments_without_leading(rel);
    lemma_encode_first(t);
    lemma_join(root, encode_utf8(t));
}

/// A path that is not refused climbs nowhere: below the root no component is
/// `..`, and none holds a NUL.
pub proof fn law_target_never_climbs(root: Seq<u8>, rel: Seq<char>)
    requires
        !refused(rel),
    ensures
        forall|i: int|
            components(root).len() <= i < components(target(root, rel)).len() ==> {
                &&& #[trigger] components(target(root, rel))[i] != seq![46u8, 46u8]
                &&& !components(target(root, rel))[i].contains(0)
            },
{
    let t = text::without_leading(rel, '/');
    lemma_segments_without_leading(rel);
    lemma_encode_first(t);
    lemma_join(root, encode_utf8(t));
    lemma_segments_encode(t);
    assert forall|i: int|
        components(root).len() <= i < components(target(root, rel)).len() implies {
        &&& #[trigger] components(target(root, rel))[i] != seq![46u8, 46u8]
        &&& !components(target(root, rel))[i].contains(0)
    } by {
        let c = components(target(root, rel))[i];
        let bytes = segments(encode_utf8(t));
        assert(bytes.contains(c));
        let k = choose|k: int| 0 <= k < bytes.len() && bytes[k] == c;
        let seg = text::segments(t, '/')[k];
        assert(c == encode_utf8(seg));
        let all = text::segments(rel, '/');
        assert(all.contains(seg));
        let j = choose|j: int| 0 <= j < all.len() && all[j] == seg;
        assert(!refused_segment(all[j]));
        encode::lemma_ascii_in_text(seg, 0);
        if c == seq![46u8, 46u8] {
            let up = seq!['.', '.'];
            is_ascii_chars_encode_utf8(up);
            assert(encode_utf8(up) =~= c);
            encode_utf8_decode_utf8(up);
            encode_utf8_decode_utf8(seg);
        }
    }
}

/// A text that does not start with a slash does not in its UTF-8 form.
proof fn lemma_encode_first(t: Seq<char>)
    requires
        t.len() == 0 || t[0] != '/',
    ensures
        encode_utf8(t).len() == 0 || encode_utf8(t)[0] != slash(),
{
    if t.len() > 0 {
        let head = encode_scalar(t[0] as u32);
        encode::lemma_ascii_in_scalar(t[0], slash());
        assert(head.len() > 0);
        assert(head.contains(head[0]));
        assert(encode_utf8(t)[0] == head[0]);
    }
}

/// At `i` two dots stand between slashes, or between one and an end of the path.
pub open spec fn climbs_at(rel: Seq<char>, i: int) -> bool {
    &&& 0 <= i
    &&& i + 2 <= rel.len()
    &&& rel[i] == '.'
    &&& rel[i + 1] == '.'
    &&& i == 0 || rel[i - 1] == '/'
    &&& i + 2 == rel.len() || rel[i + 2] == '/'
}

/// The path climbs somewhere.
pub open spec fn climbs(rel: Seq<char>) -> bool {
    exists|i: int| climbs_at(rel, i)
}

/// A path is refused if it climbs or holds a NUL, and for no other reason: not for
/// its length, nor for names that start with a dot or hold two of them.
pub proof fn law_refused_only_for_climbing_or_a_nul(rel: Seq<char>)
    ensures
        refused(rel) <==> climbs(rel) || rel.contains('\0'),
{
    let segs = text::segments(rel, '/');
    if refused(rel) {
        let k = choose|k: int| 0 <= k < segs.len() && refused_segment(#[trigger] segs[k]);
        let (a, b) = text::lemma_segment_at(rel, '/', k);
        let seg = segs[k];
        if seg == seq!['.', '.'] {
            assert(seg.len() == 2 && seg[0] == '.' && seg[1] == '.');
            assert(seg == rel.subrange(a, b));
            assert(seg[0] == rel[a] && seg[1] == rel[a + 1]);
            assert(climbs_at(rel, a));
        } else {
            let j = choose|j: int| 0 <= j < seg.len() && seg[j] == '\0';
            assert(rel[a + j] == '\0');
        }
    }
    if climbs(rel) {
        let i = choose|i: int| climbs_at(rel, i);
        let k = text::lemma_segment_found(rel, '/', i, i + 2);
        assert(segs[k] =~= seq!['.', '.']);
        assert(refused_segment(segs[k]));
    }
    if rel.contains('\0') {
        let k = text::lemma_in_a_segment(rel, '/', '\0');
        assert(refused_segment(segs[k]));
    }
}

/// What a path stands for is looked for at the path itself, behind the root and a
/// slash. Only the slashes that it starts with are left out.
pub proof fn law_target_is_the_path_behind_the_root(root: Seq<u8>, rel: Seq<char>) -> (n: int)
    ensures
        0 <= n <= rel.len(),
        forall|i: int| 0 <= i < n ==> #[trigger] rel[i] == '/',
        n == rel.len() || rel[n] != '/',
        root.len() > 0 && root.last() != 47 ==> target(root, rel) == root + seq![47u8]
            + encode_utf8(rel.skip(n)),
        root.len() == 0 || root.last() == 47 ==> target(root, rel) == root + encode_utf8(
            rel.skip(n),
        ),
{
    let n = text::law_leading_are_taken_off(rel, '/');
    let t = rel.skip(n);
    if t.len() > 0 {
        assert(t[0] == rel[n]);
    }
    lemma_encode_first(t);
    assert(root.push(47) =~= root + seq![47u8]);
    n
}

/// A name in a path: not empty, not a dot, without a slash.
pub open spec fn is_name(name: Seq<u8>) -> bool {
    name.len() > 0 && name != seq![46u8] && !name.contains(47)
}

/// Each name behind a slash of its own.
pub open spec fn slashed(names: Seq<Seq<u8>>) -> Seq<u8>
    decreases names.len(),
{
    if names.len() == 0 {
        Seq::empty()
    } else {
        slashed(names.drop_last()) + seq![47u8] + names.last()
    }
}

/// The absolute path that leads through the names, one below the other.
pub open spec fn absolute(names: Seq<Seq<u8>>) -> Seq<u8> {
    if names.len() == 0 {
        seq![47u8]
    } else {
        slashed(names)
    }
}

proof fn lemma_segments_slashed(names: Seq<Seq<u8>>)
    requires
        forall|i: int| 0 <= i < names.len() ==> is_name(#[trigger] names[i]),
    ensures
        segments(slashed(names)) == seq![Seq::<u8>::empty()] + names,
        naming(seq![Seq::<u8>::empty()] + names) == names,
        names.len() > 0 ==> slashed(names).len() > 0 && slashed(names)[0] == 47,
    decreases names.len(),
{
    let none = Seq::<u8>::empty();
    let all = seq![none] + names;
    if names.len() == 0 {
        assert(all =~= seq![none]);
        assert(all.drop_last() =~= Seq::<Seq<u8>>::empty());
        assert(naming(all.drop_last()) =~= names);
        assert(segments(slashed(names)) =~= all);
    } else {
        let before = names.drop_last();
        let last = names.last();
        assert(is_name(names[names.len() - 1]));
        assert forall|i: int| 0 <= i < before.len() implies is_name(#[trigger] before[i]) by {
            assert(before[i] == names[i]);
        }
        lemma_segments_slashed(before);
        let p = slashed(before);
        assert(slashed(names) =~= p.push(slash()) + last);
        text::lemma_segments_concat(p, slash(), last);
        lemma_segments_extend(none, last);
        assert(none + last =~= last);
        assert(segments(none) =~= seq![none]);
        assert(segments(none).drop_last().push(last) =~= seq![last]);
        assert(segments(slashed(names)) =~= all);
        assert(all.drop_last() =~= seq![none] + before);
        assert(all.last() == last);
        assert(naming(all) =~= names);
        if before.len() == 0 {
            assert(slashed(names)[0] == 47);
        } else {
            assert(slashed(names)[0] == p[0]);
        }
    }
}

proof fn lemma_components_absolute(names: Seq<Seq<u8>>)
    requires
        forall|i: int| 0 <= i < names.len() ==> is_name(#[trigger] names[i]),
    ensures
        components(absolute(names)) == seq![seq![47u8]] + names,
{
    let none = Seq::<u8>::empty();
    if names.len() == 0 {
        let p = absolute(names);
        assert(p.drop_last() =~= none);
        assert(segments(none) =~= seq![none]);
        assert(segments(p) =~= seq![none, none]);
        assert(segments(p).drop_last() =~= seq![none]);
        assert(seq![none].drop_last() =~= Seq::<Seq<u8>>::empty());
        assert(naming(seq![none].drop_last()) =~= Seq::<Seq<u8>>::empty());
        assert(naming(seq![none]) =~= Seq::<Seq<u8>>::empty());
        assert(naming(segments(p)) =~= Seq::<Seq<u8>>::empty());
    } else {
        lemma_segments_slashed(names);
    }
    assert(components(absolute(names)) =~= seq![seq![47u8]] + names);
}

/// A path lies within another exactly if it leads through the same names first,
/// each of them whole, and then on through any number of others.
pub proof fn law_within_goes_by_whole_names(base: Seq<Seq<u8>>, names: Seq<Seq<u8>>)
    requires
        forall|i: int| 0 <= i < base.len() ==> is_name(#[trigger] base[i]),
        forall|i: int| 0 <= i < names.len() ==> is_name(#[trigger] names[i]),
    ensures
        within(absolute(base), absolute(names)) <==> base.is_prefix_of(names),
{
    lemma_components_absolute(base);
    lemma_components_absolute(names);
    let a = seq![seq![47u8]] + base;
    let b = seq![seq![47u8]] + names;
    if base.is_prefix_of(names) {
        assert(b.take(a.len() as int) =~= a) by {
            assert forall|i: int| 0 <= i < a.len() implies b.take(a.len() as int)[i]
                == #[trigger] a[i] by {
                if i > 0 {
                    assert(base[i - 1] == names.take(base.len() as int)[i - 1]);
                }
            }
        }
    }
    if a.is_prefix_of(b) {
        assert(names.take(base.len() as int) =~= base) by {
            assert forall|i: int| 0 <= i < base.len() implies names.take(base.len() as int)[i]
                == #[trigger] base[i] by {
                assert(a[i + 1] == b.take(a.len() as int)[i + 1]);
            }
        }
    }
}

/// Every path lies within itself, and below what a path lies within it does too.
pub proof fn law_within_is_an_order(a: Seq<u8>, b: Seq<u8>, c: Seq<u8>)
    ensures
        within(a, a),
        within(a, b) && within(b, c) ==> within(a, c),
{
    let x = components(a);
    let y = components(b);
    let z = components(c);
    assert(x.take(x.len() as int) =~= x);
    if within(a, b) && within(b, c) {
        assert(z.take(x.len() as int) =~= z.take(y.len() as int).take(x.len() as int));
    }
}

/// How a path has its components: the empty path has none, a slash has one, and a
/// name without a slash is one, a dot too. What is put behind a path and a slash adds
/// a component if it is a name, and none if it is nothing or a dot.
pub proof fn law_components_are_names(p: Seq<u8>, name: Seq<u8>)
    requires
        !name.contains(47),
    ensures
        components(Seq::empty()).len() == 0,
        components(seq![47u8]) == seq![seq![47u8]],
        name.len() > 0 ==> components(name) == seq![name],
        is_name(name) ==> components(seq![47u8] + name) == seq![seq![47u8], name],
        !is_name(name) ==> components(seq![47u8] + name) == seq![seq![47u8]],
        p.len() > 0 && is_name(name) ==> components(p + seq![47u8] + name) == components(p).push(
            name,
        ),
        p.len() > 0 && !is_name(name) ==> components(p + seq![47u8] + name) == components(p),
{
    let none = Seq::<u8>::empty();
    let nothing = Seq::<Seq<u8>>::empty();
    assert(segments(none) =~= seq![none]);
    assert(seq![none].drop_last() =~= nothing);
    assert(naming(nothing) =~= nothing);
    assert(naming(seq![none]) =~= nothing);
    assert(components(none) =~= nothing);
    // a name alone
    lemma_segments_extend(none, name);
    assert(none + name =~= name);
    assert(seq![none].drop_last().push(name) =~= seq![name]);
    assert(segments(name) =~= seq![name]);
    assert(seq![name].drop_last() =~= nothing);
    if name.len() > 0 {
        assert(name.contains(name[0]));
        assert(naming(seq![name]) =~= seq![name]);
    }
    // behind a slash
    text::lemma_segments_concat(none, slash(), name);
    let q = seq![47u8] + name;
    assert(none.push(slash()) + name =~= q);
    assert(segments(q) =~= seq![none, name]);
    assert(segments(q).drop_last() =~= seq![none]);
    assert(dot() =~= seq![46u8]);
    if is_name(name) {
        assert(naming(segments(q)) =~= seq![name]);
        assert(components(q) =~= seq![seq![47u8], name]);
    } else {
        assert(naming(segments(q)) =~= nothing);
        assert(components(q) =~= seq![seq![47u8]]);
    }
    // a slash alone
    text::lemma_segments_concat(none, slash(), none);
    assert(none.push(slash()) + none =~= seq![47u8]);
    assert(segments(seq![47u8]) =~= seq![none, none]);
    assert(seq![none, none].drop_last() =~= seq![none]);
    assert(naming(seq![none, none]) =~= nothing);
    assert(components(seq![47u8]) =~= seq![seq![47u8]]);
    // behind a path and a slash
    if p.len() > 0 {
        let r = p + seq![47u8] + name;
        text::lemma_segments_concat(p, slash(), name);
        text::lemma_segments_shape(p, slash());
        assert(p.push(slash()) + name =~= r);
        let segs = segments(p);
        assert(segments(r) =~= segs.push(name));
        assert(segs.push(name).drop_last() =~= segs);
        assert(r[0] == p[0]);
        if is_name(name) {
            assert(components(r) =~= components(p).push(name));
        } else {
            assert(components(r) =~= components(p));
        }
    }
}

/// A path that is taken from another one on stands behind it and a slash, unless it
/// is absolute: then it is taken as it is.
pub proof fn law_join_puts_one_behind_the_other(base: Seq<u8>, rel: Seq<u8>)
    ensures
        rel.len() > 0 && rel[0] == 47 ==> join(base, rel) == rel,
        !(rel.len() > 0 && rel[0] == 47) && base.len() > 0 && base.last() != 47 ==> join(base, rel)
            == base + seq![47u8] + rel,
        !(rel.len() > 0 && rel[0] == 47) && (base.len() == 0 || base.last() == 47) ==> join(
            base,
            rel,
        ) == base + rel,
{
    assert(base.push(47) =~= base + seq![47u8]);
}

} // verus!
