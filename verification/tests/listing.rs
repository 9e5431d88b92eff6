use mini_download_serve::clock::LocalTime;
use mini_download_serve::encode::EscapeSets;
use mini_download_serve::listing::{
    entry_row, entry_row_with, html_escape, list_dir, sort_entries, DirEntry, EntryMeta,
};

fn file(name: &str, len: u64) -> DirEntry {
    DirEntry::new(name.to_string(), Some(EntryMeta { is_dir: false, len, modified: None }))
}

fn dir(name: &str) -> DirEntry {
    DirEntry::new(name.to_string(), Some(EntryMeta { is_dir: true, len: 4096, modified: None }))
}

fn names(entries: &Vec<DirEntry>) -> Vec<String> {
    sort_entries(entries).iter().map(|i| entries[*i].name.clone()).collect()
}

#[test]
fn markup_is_escaped() {
    assert_eq!(html_escape("a<b>&\"c\""), "a&lt;b&gt;&amp;&quot;c&quot;");
    assert_eq!(html_escape("&lt;"), "&amp;lt;");
    assert_eq!(html_escape("it's \u{4e2d}"), "it's \u{4e2d}");
    assert_eq!(html_escape(""), "");
}

#[test]
fn directories_come_first() {
    let entries = vec![file("a", 1), dir("z"), file("B", 1), dir("c"), file("ab", 1), file("", 1)];
    assert_eq!(names(&entries), ["c", "z", "", "B", "a", "ab"]);
}

#[test]
fn names_are_in_the_order_of_their_bytes() {
    let mut words: Vec<String> = vec![];
    for a in ["", "a", "A", "~", "\u{7f}", "\u{80}", "\u{7ff}", "\u{800}", "\u{ffff}", "\u{10000}", "\u{e000}"] {
        for b in ["", "z", "\u{10ffff}"] {
            words.push(format!("{a}{b}"));
        }
    }
    let entries: Vec<DirEntry> = words.iter().rev().map(|w| file(w, 0)).collect();
    words.sort();
    assert_eq!(names(&entries), words);
}

#[test]
fn entries_that_nothing_tells_apart_keep_their_order() {
    let entries = vec![file("x", 1), file("b", 9), file("x", 2), file("x", 3)];
    assert_eq!(sort_entries(&entries), [1, 0, 2, 3]);
}

#[test]
fn many_entries_are_sorted() {
    let entries: Vec<DirEntry> = (0..1000u64).map(|i| file(&format!("{:04}", (i * 7919) % 1000), i)).collect();
    let expected: Vec<String> = (0..1000).map(|i| format!("{i:04}")).collect();
    assert_eq!(names(&entries), expected);
    assert!(sort_entries(&vec![]).is_empty());
}

#[test]
fn an_entry_without_details_is_shown_as_an_empty_file() {
    let sets = EscapeSets::new();
    let e = DirEntry::new("gone".to_string(), None);
    assert_eq!(
        entry_row(&sets, &e),
        "<li><a href=\"gone\">gone</a> <small>[file, 0 B, -]</small></li>\n"
    );
}

#[test]
fn rows_tell_what_an_entry_is() {
    let sets = EscapeSets::new();
    let e = DirEntry::new(
        "a <b>.txt".to_string(),
        Some(EntryMeta { is_dir: false, len: 2048, modified: LocalTime::new(0, 3600) }),
    );
    assert_eq!(
        entry_row(&sets, &e),
        "<li><a href=\"a%20%3Cb%3E.txt\">a &lt;b&gt;.txt</a> <small>[file, 2.0 KB, 1970-01-01 01:00:00]</small></li>\n"
    );
    let d = dir("sub & dir");
    assert_eq!(
        entry_row_with(&sets, &d, "now"),
        "<li><a href=\"sub%20&%20dir/\">sub &amp; dir</a> <small>[dir, -, now]</small></li>\n"
    );
}

#[test]
fn a_page_lists_a_directory() {
    let sets = EscapeSets::new();
    let entries = vec![file("b.txt", 3), dir("a")];
    assert_eq!(
        list_dir(&sets, &entries, "/x&y/"),
        "<!DOCTYPE html>\n<html>\n<head><meta charset=\"utf-8\"><title>Index of /x&amp;y/</title>\
<style>body{font-family:system-ui,sans-serif;max-width:48em;margin:2em auto;padding:0 1em}\
li{line-height:1.8;list-style:none}small{color:#777}</style></head>\n\
<body><h1>Index of /x&amp;y/</h1><hr><ul>\n\
<li><a href=\"../\">../</a></li>\n\
<li><a href=\"a/\">a</a> <small>[dir, -, -]</small></li>\n\
<li><a href=\"b.txt\">b.txt</a> <small>[file, 3 B, -]</small></li>\n\
</ul><hr><p style=\"color:#777\">mini-download-serve \u{2014} files are served as downloads (attachment)</p>\
</body>\n</html>\n"
    );
}

#[test]
fn the_root_has_no_way_up() {
    let sets = EscapeSets::new();
    assert!(!list_dir(&sets, &vec![], "/").contains("../"));
    assert!(list_dir(&sets, &vec![], "//").contains("../"));
}

#[test]
fn nothing_in_a_name_ends_a_link_or_starts_a_tag() {
    let sets = EscapeSets::new();
    let row = entry_row(&sets, &file("\"><script>&", 0));
    assert_eq!(
        row,
        "<li><a href=\"%22%3E%3Cscript%3E&\">&quot;&gt;&lt;script&gt;&amp;</a> <small>[file, 0 B, -]</small></li>\n"
    );
}
