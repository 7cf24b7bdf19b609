use sticker_extract::walker::{extract_pairs, extract_pairs_from_xml, Event};

fn open(name: &str) -> Event {
    Event::Open(name.to_string())
}

fn text(content: &str) -> Event {
    Event::Text(content.to_string())
}

fn pair(label: &str, url: &str) -> (String, String) {
    (label.to_string(), url.to_string())
}

#[test]
fn label_then_url_makes_one_pair() {
    let doc = b"<plist><dict><array><string>Cats</string><string>http://x/c.gif</string></array></dict></plist>";
    let pairs = extract_pairs_from_xml(doc);
    assert_eq!(pairs, vec![pair("Cats", "http://x/c.gif")]);
}

#[test]
fn second_label_overwrites_the_first() {
    let doc = b"<plist><dict><array><string>A</string><string>B</string><string>http://x/b.gif</string></array></dict></plist>";
    let pairs = extract_pairs_from_xml(doc);
    assert_eq!(pairs, vec![pair("B", "http://x/b.gif")]);
}

#[test]
fn url_without_label_gets_empty_label() {
    let doc =
        b"<plist><dict><array><string>http://x/only.gif</string></array></dict></plist>";
    let pairs = extract_pairs_from_xml(doc);
    assert_eq!(pairs, vec![pair("", "http://x/only.gif")]);
}

#[test]
fn label_is_kept_across_urls() {
    // a label is not cleared on emission: two URLs share it
    let events = vec![
        open("plist"),
        open("dict"),
        open("array"),
        open("string"),
        text("Dogs"),
        Event::Close,
        open("string"),
        text("http://x/1.gif"),
        Event::Close,
        open("string"),
        text("http://x/2.gif"),
        Event::Close,
        Event::Close,
        Event::Close,
        Event::Close,
    ];
    let pairs = extract_pairs(&events);
    assert_eq!(pairs, vec![pair("Dogs", "http://x/1.gif"), pair("Dogs", "http://x/2.gif")]);
}

#[test]
fn text_outside_watched_path_is_ignored() {
    let doc = b"<plist><dict><key>Cats</key><array><string>http://x/c.gif</string></array><string>http://y/e.gif</string></dict></plist>";
    let pairs = extract_pairs_from_xml(doc);
    assert_eq!(pairs, vec![pair("", "http://x/c.gif")]);
}

#[test]
fn duplicate_labels_stay_distinct_pairs() {
    let doc = b"<plist><dict><array><string>Same</string><string>http://x/1.gif</string><string>Same</string><string>http://x/2.gif</string></array></dict></plist>";
    let pairs = extract_pairs_from_xml(doc);
    assert_eq!(pairs, vec![pair("Same", "http://x/1.gif"), pair("Same", "http://x/2.gif")]);
}

#[test]
fn parse_error_keeps_pairs_collected_so_far() {
    // the document breaks after one complete pair; the valid prefix is kept
    let doc = b"<plist><dict><array><string>A</string><string>http://x/a.gif</string><string>B</str";
    let pairs = extract_pairs_from_xml(doc);
    assert_eq!(pairs, vec![pair("A", "http://x/a.gif")]);
}

#[test]
fn events_after_an_error_are_not_walked() {
    let events = vec![
        open("plist"),
        open("dict"),
        open("array"),
        open("string"),
        text("http://x/1.gif"),
        Event::Close,
        Event::Error,
        open("string"),
        text("http://x/2.gif"),
        Event::Close,
    ];
    let pairs = extract_pairs(&events);
    assert_eq!(pairs, vec![pair("", "http://x/1.gif")]);
}

#[test]
fn other_events_are_ignored() {
    let events = vec![
        Event::Other,
        open("plist"),
        open("dict"),
        open("array"),
        Event::Other,
        open("string"),
        text("Cats"),
        Event::Close,
        open("string"),
        text("http://x/c.gif"),
        Event::Close,
        Event::Close,
        Event::Close,
        Event::Close,
        Event::Other,
    ];
    let pairs = extract_pairs(&events);
    assert_eq!(pairs, vec![pair("Cats", "http://x/c.gif")]);
}

#[test]
fn non_http_after_url_starts_a_new_pair() {
    let doc = b"<plist><dict><array><string>A</string><string>http://x/a.gif</string><string>B</string><string>http://x/b.gif</string></array></dict></plist>";
    let pairs = extract_pairs_from_xml(doc);
    assert_eq!(pairs, vec![pair("A", "http://x/a.gif"), pair("B", "http://x/b.gif")]);
}

#[test]
fn rerunning_the_walk_gives_identical_output() {
    let doc = b"<plist><dict><array><string>Cats</string><string>http://x/c.gif</string><string>http://x/d.gif</string></array></dict></plist>";
    let first = extract_pairs_from_xml(doc);
    let second = extract_pairs_from_xml(doc);
    assert_eq!(first, second);
    assert_eq!(first, vec![pair("Cats", "http://x/c.gif"), pair("Cats", "http://x/d.gif")]);
}

#[test]
fn empty_document_yields_no_pairs() {
    let doc = b"<plist><dict><array></array></dict></plist>";
    let pairs = extract_pairs_from_xml(doc);
    assert_eq!(pairs, Vec::<(String, String)>::new());
}
