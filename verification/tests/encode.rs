use mini_download_serve::encode::{percent_decode, EscapeSets};

#[test]
fn escapes_are_decoded() {
    assert_eq!(percent_decode("/a%20b"), "/a b");
    assert_eq!(percent_decode("/%e4%B8%AD"), "/\u{4e2d}");
    assert_eq!(percent_decode("/%2e%2E/x"), "/../x");
    assert_eq!(percent_decode("%2525"), "%25");
}

#[test]
fn what_is_no_escape_stays() {
    assert_eq!(percent_decode("/plain"), "/plain");
    assert_eq!(percent_decode("100%"), "100%");
    assert_eq!(percent_decode("%4"), "%4");
    assert_eq!(percent_decode("%zz%4g"), "%zz%4g");
    assert_eq!(percent_decode("%%41"), "%A");
    assert_eq!(percent_decode("a+b"), "a+b");
}

#[test]
fn what_is_not_utf8_is_replaced() {
    assert_eq!(percent_decode("/%ff!"), "/\u{fffd}!");
}

#[test]
fn names_are_encoded_for_links() {
    let sets = EscapeSets::new();
    assert_eq!(sets.encode_href("a b.txt"), "a%20b.txt");
    assert_eq!(sets.encode_href("50%?#\"<>`{}"), "50%25%3F%23%22%3C%3E%60%7B%7D");
    assert_eq!(sets.encode_href("\u{1}\u{7f}\u{4e2d}"), "%01%7F%E4%B8%AD");
    assert_eq!(sets.encode_href("a'()*,/:;=[]\\&+~@"), "a'()*,/:;=[]\\&+~@");
}

#[test]
fn names_are_encoded_for_downloads() {
    let sets = EscapeSets::new();
    assert_eq!(
        sets.encode_disposition(" \"%'()*,/:;<=>?[\\]{}"),
        "%20%22%25%27%28%29%2A%2C%2F%3A%3B%3C%3D%3E%3F%5B%5C%5D%7B%7D"
    );
    assert_eq!(sets.encode_disposition("a#&+`~.txt"), "a#&+`~.txt");
    assert_eq!(sets.encode_disposition("a@b"), "a%40b");
    assert_eq!(sets.encode_disposition("!#$&+-.^_`|~azAZ09"), "!#$&+-.^_`|~azAZ09");
    assert_eq!(sets.encode_disposition("\u{e9}\n"), "%C3%A9%0A");
}

#[test]
fn encoded_names_decode_to_what_they_were() {
    let sets = EscapeSets::new();
    for name in ["", "plain.txt", "100%.txt", "a b", "%41", "\u{4e2d}\u{6587} (1).zip", "q?#\"'\\", "\u{0}\u{1f}"] {
        assert_eq!(percent_decode(&sets.encode_href(name)), name);
        assert_eq!(percent_decode(&sets.encode_disposition(name)), name);
    }
}

#[test]
fn a_link_leads_to_its_entry() {
    let sets = EscapeSets::new();
    for dir in ["/", "/sub/", "/a%20b/", "/100%/"] {
        let link = format!("{dir}{}", sets.encode_href("x %41?"));
        assert_eq!(percent_decode(&link), format!("{}x %41?", percent_decode(dir)));
    }
}
