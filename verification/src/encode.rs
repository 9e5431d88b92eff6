//! Percent-encoding of names and decoding of request paths.

use percent_encoding::AsciiSet;
use vstd::prelude::*;
use vstd::string::*;
use vstd::utf8::*;

verus! {

// ------------------------------------------------------------------------
// What the encoding is
// ------------------------------------------------------------------------

/// The hexadecimal digit for a number below sixteen.
pub open spec fn hex_digit(n: int) -> char {
    if n < 10 {
        (48 + n) as char
    } else {
        (55 + n) as char
    }
}

/// The number that a hexadecimal digit stands for, in either case.
pub open spec fn hex_value(b: u8) -> Option<int> {
    if 48 <= b <= 57 {
        Some(b - 48)
    } else if 65 <= b <= 70 {
        Some(b - 55)
    } else if 97 <= b <= 102 {
        Some(b - 87)
    } else {
        None
    }
}

/// A byte as it stands in encoded text: itself, or `%` and two digits if it is
/// in the set or not ASCII.
pub open spec fn encoded_byte(b: u8, set: Set<u8>) -> Seq<char> {
    if b >= 128 || set.contains(b) {
        seq!['%', hex_digit(b as int / 16), hex_digit(b as int % 16)]
    } else {
        seq![b as char]
    }
}

/// Bytes in percent-encoding.
pub open spec fn percent_encoded(bytes: Seq<u8>, set: Set<u8>) -> Seq<char>
    decreases bytes.len(),
{
    if bytes.len() == 0 {
        Seq::empty()
    } else {
        encoded_byte(bytes[0], set) + percent_encoded(bytes.skip(1), set)
    }
}

/// Text in percent-encoding, by the bytes of its UTF-8 form.
pub open spec fn encoded(s: Seq<char>, set: Set<u8>) -> Seq<char> {
    percent_encoded(encode_utf8(s), set)
}

/// `%` and two hexadecimal digits stand at the start.
pub open spec fn escape_first(s: Seq<u8>) -> bool {
    s.len() >= 3 && s[0] == 37 && hex_value(s[1]) is Some && hex_value(s[2]) is Some
}

/// The bytes that percent-encoded bytes stand for. A `%` without two digits
/// behind it stands for itself.
pub open spec fn percent_decoded(s: Seq<u8>) -> Seq<u8>
    decreases s.len(),
{
    if s.len() == 0 {
        Seq::empty()
    } else if escape_first(s) {
        seq![(hex_value(s[1])->0 * 16 + hex_value(s[2])->0) as u8] + percent_decoded(s.skip(3))
    } else {
        seq![s[0]] + percent_decoded(s.skip(1))
    }
}

/// What bytes that are not UTF-8 are read as, where that is put up with: the
/// text that `PercentDecode::decode_utf8_lossy` makes of them, with U+FFFD for
/// what is not UTF-8.
pub uninterp spec fn lossy_text(bytes: Seq<u8>) -> Seq<char>;

/// Bytes as text: by UTF-8 if they are that, and otherwise as given.
pub open spec fn text_of(bytes: Seq<u8>, otherwise: Seq<char>) -> Seq<char> {
    if valid_utf8(bytes) {
        decode_utf8(bytes)
    } else {
        otherwise
    }
}

/// The text that percent-encoded text stands for.
pub open spec fn decoded(s: Seq<char>) -> Seq<char> {
    let bytes = percent_decoded(encode_utf8(s));
    text_of(bytes, lossy_text(bytes))
}

// ------------------------------------------------------------------------
// The outside crate
// ------------------------------------------------------------------------

/// `percent_encoding::AsciiSet`, a set of ASCII bytes.
#[verifier::external_type_specification]
#[verifier::external_body]
pub struct ExAsciiSet(percent_encoding::AsciiSet);

/// The bytes in an `AsciiSet`.
pub uninterp spec fn ascii_set_bytes(set: AsciiSet) -> Set<u8>;

/// The ASCII control characters.
pub open spec fn control_bytes() -> Set<u8> {
    Set::new(|b: u8| b < 32 || b == 127)
}

/// `percent_encoding::CONTROLS` holds the ASCII control characters.
#[verifier::external_body]
fn controls() -> (set: &'static AsciiSet)
    ensures
        ascii_set_bytes(*set) == control_bytes(),
{
    percent_encoding::CONTROLS
}

/// `AsciiSet::add` makes a set with one more ASCII byte in it. It panics on any
/// other byte.
pub assume_specification[ AsciiSet::add ](set: &AsciiSet, byte: u8) -> (r: AsciiSet)
    requires
        byte < 128,
    ensures
        ascii_set_bytes(r) == ascii_set_bytes(*set).insert(byte),
;

/// `Box::leak` gives up a box and keeps what is in it for good.
#[verifier::external_body]
fn leak(set: Box<AsciiSet>) -> (r: &'static AsciiSet)
    ensures
        *r == *set,
{
    Box::leak(set)
}

/// `percent_encoding::utf8_percent_encode`, written out as a string, is the
/// UTF-8 form of the text in percent-encoding, with the bytes of the set and all
/// that are not ASCII as `%` and two upper-case digits.
#[verifier::external_body]
fn utf8_percent_encode(s: &str, set: &'static AsciiSet) -> (r: String)
    ensures
        r@ == percent_encoded(encode_utf8(s@), ascii_set_bytes(*set)),
{
    percent_encoding::utf8_percent_encode(s, set).to_string()
}

/// `percent_encoding::percent_decode_str` and `PercentDecode::decode_utf8_lossy`
/// give the text that the decoded bytes are in UTF-8. Of bytes that are not
/// UTF-8 no more is said than that the text depends on nothing else.
#[verifier::external_body]
fn percent_decode_lossy(s: &str) -> (r: String)
    ensures
        r@ == text_of(
            percent_decoded(encode_utf8(s@)),
            lossy_text(percent_decoded(encode_utf8(s@))),
        ),
{
    percent_encoding::percent_decode_str(s).decode_utf8_lossy().into_owned()
}

// ------------------------------------------------------------------------
// The sets
// ------------------------------------------------------------------------

/// What is encoded in the file name of a download.
pub open spec fn disposition_bytes() -> Set<u8> {
    Set::new(
        |b: u8|
            {
                ||| b < 32
                ||| b == 127
                ||| b == ' ' as u8
                ||| b == '"' as u8
                ||| b == '%' as u8
                ||| b == '\'' as u8
                ||| b == '(' as u8
                ||| b == ')' as u8
                ||| b == '*' as u8
                ||| b == ',' as u8
                ||| b == '/' as u8
                ||| b == ':' as u8
                ||| b == ';' as u8
                ||| b == '<' as u8
                ||| b == '=' as u8
                ||| b == '>' as u8
                ||| b == '?' as u8
                ||| b == '@' as u8
                ||| b == '[' as u8
                ||| b == '\\' as u8
                ||| b == ']' as u8
                ||| b == '{' as u8
                ||| b == '}' as u8
            },
    )
}

/// What is encoded in a link.
pub open spec fn href_bytes() -> Set<u8> {
    Set::new(
        |b: u8|
            {
                ||| b < 32
                ||| b == 127
                ||| b == ' ' as u8
                ||| b == '"' as u8
                ||| b == '#' as u8
                ||| b == '%' as u8
                ||| b == '<' as u8
                ||| b == '>' as u8
                ||| b == '?' as u8
                ||| b == '`' as u8
                ||| b == '{' as u8
                ||| b == '}' as u8
            },
    )
}

/// The sets of bytes that are encoded, made once and kept for good.
pub struct EscapeSets {
    disposition: &'static AsciiSet,
    href: &'static AsciiSet,
}

impl EscapeSets {
    #[verifier::type_invariant]
    spec fn holds_the_sets(self) -> bool {
        &&& ascii_set_bytes(*self.disposition) == disposition_bytes()
        &&& ascii_set_bytes(*self.href) == href_bytes()
    }

    /// The bytes that are encoded in the file name of a download.
    pub closed spec fn in_dispositions(&self) -> Set<u8> {
        ascii_set_bytes(*self.disposition)
    }

    /// The bytes that are encoded in a link.
    pub closed spec fn in_links(&self) -> Set<u8> {
        ascii_set_bytes(*self.href)
    }

    /// Makes the sets. Their memory is never given back, so one is enough.
    pub fn new() -> (r: Self)
        ensures
            r.in_dispositions() == disposition_bytes(),
            r.in_links() == href_bytes(),
    {
        let base = controls().add(' ' as u8).add('"' as u8).add('%' as u8).add('<' as u8).add(
            '>' as u8,
        ).add('?' as u8).add('{' as u8).add('}' as u8);
        let disposition = base.add('\'' as u8).add('(' as u8).add(')' as u8).add('*' as u8).add(
            ',' as u8,
        ).add('/' as u8).add(':' as u8).add(';' as u8).add('=' as u8).add('@' as u8).add('[' as u8).add(
            '\\' as u8,
        ).add(']' as u8);
        let href = base.add('#' as u8).add('`' as u8);
        assert(ascii_set_bytes(disposition) =~= disposition_bytes());
        assert(ascii_set_bytes(href) =~= href_bytes());
        EscapeSets { disposition: leak(Box::new(disposition)), href: leak(Box::new(href)) }
    }

    /// Encodes the file name of a download.
    pub fn encode_disposition(&self, name: &str) -> (r: String)
        ensures
            r@ == encoded(name@, disposition_bytes()),
    {
        proof {
            use_type_invariant(self);
        }
        utf8_percent_encode(name, self.disposition)
    }

    /// Encodes a name for a link to it.
    pub fn encode_href(&self, name: &str) -> (r: String)
        ensures
            r@ == encoded(name@, href_bytes()),
    {
        proof {
            use_type_invariant(self);
        }
        utf8_percent_encode(name, self.href)
    }
}

/// Decodes a request path.
pub fn percent_decode(s: &str) -> (r: String)
    ensures
        r@ == decoded(s@),
        valid_utf8(percent_decoded(encode_utf8(s@))) ==> encode_utf8(r@) == percent_decoded(
            encode_utf8(s@),
        ),
        !valid_utf8(percent_decoded(encode_utf8(s@))) ==> r@ == lossy_text(
            percent_decoded(encode_utf8(s@)),
        ),
{
    proof {
        let bytes = percent_decoded(encode_utf8(s@));
        if valid_utf8(bytes) {
            decode_utf8_encode_utf8(bytes);
        }
    }
    percent_decode_lossy(s)
}

// ------------------------------------------------------------------------
// Laws
// ------------------------------------------------------------------------

/// The bytes of ASCII text.
spec fn ascii(s: Seq<char>) -> Seq<u8> {
    Seq::new(s.len(), |i: int| s[i] as u8)
}

/// Encoded text is ASCII, and holds no byte of the set but for `%` and
/// hexadecimal digits.
pub proof fn law_encoded_text_is_plain(bytes: Seq<u8>, set: Set<u8>)
    ensures
        forall|i: int|
            0 <= i < percent_encoded(bytes, set).len() ==> {
                let c = #[trigger] percent_encoded(bytes, set)[i];
                &&& 0 <= (c as int) < 128
                &&& (set.contains(c as u8) ==> c == '%' || '0' <= c <= '9' || 'A' <= c <= 'F')
            },
    decreases bytes.len(),
{
    if bytes.len() > 0 {
        let head = encoded_byte(bytes[0], set);
        let rest = percent_encoded(bytes.skip(1), set);
        law_encoded_text_is_plain(bytes.skip(1), set);
        assert forall|i: int| 0 <= i < percent_encoded(bytes, set).len() implies {
            let c = #[trigger] percent_encoded(bytes, set)[i];
            &&& 0 <= (c as int) < 128
            &&& (set.contains(c as u8) ==> c == '%' || '0' <= c <= '9' || 'A' <= c <= 'F')
        } by {
            if i < head.len() {
                assert(percent_encoded(bytes, set)[i] == head[i]);
            } else {
                assert(percent_encoded(bytes, set)[i] == rest[i - head.len()]);
            }
        }
    }
}

proof fn lemma_bytes_of_encoded(bytes: Seq<u8>, set: Set<u8>)
    ensures
        encode_utf8(percent_encoded(bytes, set)) == ascii(percent_encoded(bytes, set)),
{
    let s = percent_encoded(bytes, set);
    law_encoded_text_is_plain(bytes, set);
    assert forall|i: int| 0 <= i < s.len() implies '\0' <= #[trigger] s[i] <= '\u{7f}' by {
        let c = percent_encoded(bytes, set)[i];
        assert(0 <= (c as int) < 128);
    }
    is_ascii_chars_encode_utf8(s);
    assert(encode_utf8(s) =~= ascii(s));
}

proof fn lemma_decoded_bytes(bytes: Seq<u8>, set: Set<u8>)
    requires
        set.contains('%' as u8),
    ensures
        percent_decoded(ascii(percent_encoded(bytes, set))) == bytes,
    decreases bytes.len(),
{
    let s = percent_encoded(bytes, set);
    if bytes.len() == 0 {
        assert(ascii(s) =~= Seq::<u8>::empty());
    } else {
        let b = bytes[0];
        let head = encoded_byte(b, set);
        let rest = percent_encoded(bytes.skip(1), set);
        lemma_decoded_bytes(bytes.skip(1), set);
        let a = ascii(s);
        if b >= 128 || set.contains(b) {
            assert(a.skip(3) =~= ascii(rest));
            assert(s[0] == head[0] && s[1] == head[1] && s[2] == head[2]);
            assert(hex_value(a[1]) == Some(b as int / 16));
            assert(hex_value(a[2]) == Some(b as int % 16));
            assert(escape_first(a));
        } else {
            assert(s[0] == head[0]);
            assert(a[0] == b);
            assert(a.skip(1) =~= ascii(rest));
        }
        assert(percent_decoded(a) =~= seq![b] + bytes.skip(1));
        assert(seq![b] + bytes.skip(1) =~= bytes);
    }
}

/// Text that was encoded with a set that holds `%` decodes to what it was: the
/// links of a listing lead to what they are links to, and the file name of a
/// download is the name of the file.
pub proof fn law_decoding_undoes_encoding(s: Seq<char>, set: Set<u8>)
    requires
        set.contains('%' as u8),
    ensures
        decoded(encoded(s, set)) == s,
{
    let bytes = encode_utf8(s);
    lemma_bytes_of_encoded(bytes, set);
    lemma_decoded_bytes(bytes, set);
    encode_utf8_valid_utf8(s);
    encode_utf8_decode_utf8(s);
}

/// The file name of a download decodes to the name it was made of.
pub proof fn law_disposition_decodes(name: Seq<char>)
    ensures
        decoded(encoded(name, disposition_bytes())) == name,
{
    law_decoding_undoes_encoding(name, disposition_bytes());
}

/// The characters that stand for themselves in the value of an extended header
/// parameter: `attr-char` of RFC 5987.
pub open spec fn is_attr_char(c: char) -> bool {
    ||| 'A' <= c <= 'Z'
    ||| 'a' <= c <= 'z'
    ||| '0' <= c <= '9'
    ||| c == '!'
    ||| c == '#'
    ||| c == '$'
    ||| c == '&'
    ||| c == '+'
    ||| c == '-'
    ||| c == '.'
    ||| c == '^'
    ||| c == '_'
    ||| c == '`'
    ||| c == '|'
    ||| c == '~'
}

/// What is encoded in the file name of a download is exactly what RFC 5987 wants
/// encoded: every ASCII character but its `attr-char`s. So each character of the
/// encoded name is one of those, or a `%`.
pub proof fn law_disposition_is_of_rfc_5987(name: Seq<char>)
    ensures
        forall|b: u8| #[trigger]
            disposition_bytes().contains(b) <==> b < 128 && !is_attr_char(b as char),
        forall|i: int|
            0 <= i < encoded(name, disposition_bytes()).len() ==> {
                let c = #[trigger] encoded(name, disposition_bytes())[i];
                c == '%' || is_attr_char(c)
            },
{
    let bytes = encode_utf8(name);
    let set = disposition_bytes();
    law_encoded_text_is_plain(bytes, set);
    assert forall|i: int| 0 <= i < encoded(name, set).len() implies {
        let c = #[trigger] encoded(name, set)[i];
        c == '%' || is_attr_char(c)
    } by {
        let c = percent_encoded(bytes, set)[i];
        assert(0 <= (c as int) < 128);
        assert(set.contains(c as u8) <==> !is_attr_char(c));
    }
}

/// A link decodes to the name it was made of.
pub proof fn law_href_decodes(name: Seq<char>)
    ensures
        decoded(encoded(name, href_bytes())) == name,
{
    law_decoding_undoes_encoding(name, href_bytes());
}

/// An ASCII byte stands in the UTF-8 form of a character only if that is the
/// character.
pub proof fn lemma_ascii_in_scalar(c: char, b: u8)
    requires
        b < 128,
        c != b as char,
    ensures
        !encode_scalar(c as u32).contains(b),
{
    let v = c as u32;
    char_is_scalar(c);
    assert(v <= 0x7f ==> (v & 0x7f) as u8 == v) by (bit_vector);
    assert(0xc0u8 | ((v >> 6) & 0x1f) as u8 >= 128) by (bit_vector);
    assert(0xe0u8 | ((v >> 12) & 0x0f) as u8 >= 128) by (bit_vector);
    assert(0xf0u8 | ((v >> 18) & 0x7) as u8 >= 128) by (bit_vector);
    assert(0x80u8 | (v & 0x3f) as u8 >= 128) by (bit_vector);
    assert(0x80u8 | ((v >> 6) & 0x3f) as u8 >= 128) by (bit_vector);
    assert(0x80u8 | ((v >> 12) & 0x3f) as u8 >= 128) by (bit_vector);
}

/// An ASCII byte stands in the UTF-8 form of a text only if the character does
/// in the text.
pub proof fn lemma_ascii_in_text(s: Seq<char>, b: u8)
    requires
        b < 128,
        !s.contains(b as char),
    ensures
        !encode_utf8(s).contains(b),
    decreases s.len(),
{
    if s.len() > 0 {
        let head = encode_scalar(s[0] as u32);
        let rest = encode_utf8(s.drop_first());
        assert(s.contains(s[0]));
        lemma_ascii_in_scalar(s[0], b);
        assert forall|i: int| 0 <= i < s.drop_first().len() implies #[trigger] s.drop_first()[i]
            != b as char by {
            assert(s.contains(s[i + 1]));
        }
        lemma_ascii_in_text(s.drop_first(), b);
        assert forall|i: int| 0 <= i < encode_utf8(s).len() implies #[trigger] encode_utf8(s)[i]
            != b by {
            if i < head.len() {
                assert(encode_utf8(s)[i] == head[i]);
                assert(head.contains(head[i]));
            } else {
                assert(encode_utf8(s)[i] == rest[i - head.len()]);
                assert(rest.contains(rest[i - head.len()]));
            }
        }
    }
}

/// Text without a `%` decodes to itself.
pub proof fn law_plain_text_decodes_to_itself(s: Seq<char>)
    requires
        !s.contains('%'),
    ensures
        decoded(s) == s,
{
    lemma_ascii_in_text(s, '%' as u8);
    lemma_nothing_to_decode(encode_utf8(s));
    encode_utf8_valid_utf8(s);
    encode_utf8_decode_utf8(s);
}

proof fn lemma_nothing_to_decode(bytes: Seq<u8>)
    requires
        !bytes.contains('%' as u8),
    ensures
        percent_decoded(bytes) == bytes,
    decreases bytes.len(),
{
    if bytes.len() > 0 {
        assert(bytes[0] != '%' as u8);
        assert forall|i: int| 0 <= i < bytes.skip(1).len() implies #[trigger] bytes.skip(1)[i]
            != '%' as u8 by {
            assert(bytes[i + 1] != '%' as u8);
        }
        lemma_nothing_to_decode(bytes.skip(1));
        assert(seq![bytes[0]] + bytes.skip(1) =~= bytes);
    }
}

/// A slash cuts no escape in two, so what is before it and what is behind it are
/// decoded apart.
proof fn lemma_decoded_behind_slash(a: Seq<u8>, b: Seq<u8>)
    requires
        a.len() > 0,
        a.last() == '/' as u8,
    ensures
        percent_decoded(a + b) == percent_decoded(a) + percent_decoded(b),
    decreases a.len(),
{
    let s = a + b;
    assert(escape_first(s) == escape_first(a)) by {
        if a.len() == 1 {
            assert(s[0] == a[0]);
        } else if a.len() == 2 {
            assert(s[1] == a[1]);
        } else {
            assert(s[0] == a[0] && s[1] == a[1] && s[2] == a[2]);
        }
    }
    let n: int = if escape_first(a) {
        3
    } else {
        1
    };
    assert(n == 3 ==> a[2] != a.last());
    assert(s.skip(n) =~= a.skip(n) + b);
    if a.len() > n {
        assert(a.skip(n).last() == a.last());
        lemma_decoded_behind_slash(a.skip(n), b);
    } else {
        assert(percent_decoded(a.skip(n)) =~= Seq::<u8>::empty());
        assert(a.skip(n) + b =~= b);
    }
    assert(percent_decoded(s) =~= percent_decoded(a) + percent_decoded(b));
}

/// The UTF-8 form of two texts is that of the one and that of the other.
pub proof fn lemma_encode_concat(a: Seq<char>, b: Seq<char>)
    ensures
        encode_utf8(a + b) == encode_utf8(a) + encode_utf8(b),
    decreases a.len(),
{
    if a.len() == 0 {
        assert(a + b =~= b);
        assert(encode_utf8(a) + encode_utf8(b) =~= encode_utf8(b));
    } else {
        assert((a + b).drop_first() =~= a.drop_first() + b);
        lemma_encode_concat(a.drop_first(), b);
        assert(encode_utf8(a + b) =~= encode_utf8(a) + encode_utf8(b));
    }
}

/// On the page of a directory, whose path ends with a slash, the link to an entry
/// leads to the path of the directory with the name of the entry behind it.
pub proof fn law_link_leads_to_its_entry(uri_path: Seq<char>, name: Seq<char>)
    requires
        uri_path.len() > 0,
        uri_path.last() == '/',
        valid_utf8(percent_decoded(encode_utf8(uri_path))),
    ensures
        decoded(uri_path + encoded(name, href_bytes())) == decoded(uri_path) + name,
{
    let a = encode_utf8(uri_path);
    let b = encode_utf8(encoded(name, href_bytes()));
    let dir = percent_decoded(a);
    let before = uri_path.drop_last();
    let slash = seq!['/'];
    lemma_encode_concat(before, slash);
    assert(before + slash =~= uri_path);
    is_ascii_chars_encode_utf8(slash);
    assert(a.last() == '/' as u8) by {
        assert(encode_utf8(slash).len() == 1);
        assert(encode_utf8(slash)[0] == slash[0] as u8);
        assert(a == encode_utf8(before) + encode_utf8(slash));
    }
    lemma_encode_concat(uri_path, encoded(name, href_bytes()));
    lemma_decoded_behind_slash(a, b);
    lemma_bytes_of_encoded(encode_utf8(name), href_bytes());
    lemma_decoded_bytes(encode_utf8(name), href_bytes());
    let text = decode_utf8(dir);
    decode_utf8_encode_utf8(dir);
    lemma_encode_concat(text, name);
    encode_utf8_valid_utf8(text + name);
    encode_utf8_decode_utf8(text + name);
}

/// A link is made of printable ASCII, and of no character that would end it, cut it
/// short or be taken for something else: no space, quote, `#`, `?`, `<`, `>`, `{`, `}`
/// or back quote.
pub proof fn law_link_is_of_safe_characters(name: Seq<char>)
    ensures
        forall|i: int|
            0 <= i < encoded(name, href_bytes()).len() ==> {
                let c = #[trigger] encoded(name, href_bytes())[i];
                &&& '!' <= c <= '~'
                &&& c != '"' && c != '#' && c != '?' && c != '<' && c != '>' && c != '{' && c != '}'
                    && c != '`'
            },
{
    let bytes = encode_utf8(name);
    let set = href_bytes();
    law_encoded_text_is_plain(bytes, set);
    assert forall|i: int| 0 <= i < encoded(name, set).len() implies {
        let c = #[trigger] encoded(name, set)[i];
        &&& '!' <= c <= '~'
        &&& c != '"' && c != '#' && c != '?' && c != '<' && c != '>' && c != '{' && c != '}' && c
            != '`'
    } by {
        let c = percent_encoded(bytes, set)[i];
        assert(0 <= (c as int) < 128);
        assert(set.contains(c as u8) ==> c == '%' || '0' <= c <= '9' || 'A' <= c <= 'F');
    }
}

/// A name of printable ASCII without any of those characters, and without a `%`, is
/// its own link.
pub proof fn law_safe_name_is_its_own_link(name: Seq<char>)
    requires
        forall|i: int|
            0 <= i < name.len() ==> {
                let c = #[trigger] name[i];
                &&& '!' <= c <= '~'
                &&& c != '"' && c != '#' && c != '?' && c != '<' && c != '>' && c != '{' && c != '}'
                    && c != '`' && c != '%'
            },
    ensures
        encoded(name, href_bytes()) == name,
{
    is_ascii_chars_encode_utf8(name);
    let bytes = encode_utf8(name);
    assert forall|i: int| 0 <= i < bytes.len() implies #[trigger] bytes[i] < 128
        && !href_bytes().contains(bytes[i]) by {
        assert(name[i] as u8 == bytes[i]);
    }
    lemma_nothing_to_encode(bytes, href_bytes());
    assert forall|i: int| 0 <= i < name.len() implies #[trigger] encoded(name, href_bytes())[i]
        == name[i] by {
        assert(name[i] as u8 == bytes[i]);
    }
    assert(encoded(name, href_bytes()) =~= name);
}

/// A name of the characters that RFC 5987 lets stand is its own encoded name.
pub proof fn law_attr_chars_stand_for_themselves(name: Seq<char>)
    requires
        forall|i: int| 0 <= i < name.len() ==> is_attr_char(#[trigger] name[i]),
    ensures
        encoded(name, disposition_bytes()) == name,
{
    assert forall|i: int| 0 <= i < name.len() implies 0 <= (#[trigger] name[i] as int) < 128 by {
        assert(is_attr_char(name[i]));
    }
    is_ascii_chars_encode_utf8(name);
    let bytes = encode_utf8(name);
    assert forall|i: int| 0 <= i < bytes.len() implies #[trigger] bytes[i] < 128
        && !disposition_bytes().contains(bytes[i]) by {
        assert(name[i] as u8 == bytes[i]);
        assert(is_attr_char(name[i]));
    }
    lemma_nothing_to_encode(bytes, disposition_bytes());
    assert forall|i: int|
        0 <= i < name.len() implies #[trigger] encoded(name, disposition_bytes())[i]
        == name[i] by {
        assert(name[i] as u8 == bytes[i]);
    }
    assert(encoded(name, disposition_bytes()) =~= name);
}

proof fn lemma_nothing_to_encode(bytes: Seq<u8>, set: Set<u8>)
    requires
        forall|i: int|
            0 <= i < bytes.len() ==> #[trigger] bytes[i] < 128 && !set.contains(bytes[i]),
    ensures
        percent_encoded(bytes, set) == Seq::new(bytes.len(), |i: int| bytes[i] as char),
    decreases bytes.len(),
{
    let all = Seq::new(bytes.len(), |i: int| bytes[i] as char);
    if bytes.len() > 0 {
        let rest = bytes.skip(1);
        assert forall|i: int| 0 <= i < rest.len() implies #[trigger] rest[i] < 128
            && !set.contains(rest[i]) by {
            assert(rest[i] == bytes[i + 1]);
        }
        lemma_nothing_to_encode(rest, set);
        assert(bytes[0] < 128);
        assert(percent_encoded(bytes, set) =~= all);
    } else {
        assert(percent_encoded(bytes, set) =~= all);
    }
}

} // verus!
