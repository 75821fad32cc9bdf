use download_watcher::config::{
    add_mappings, get_bot_token, get_main_channel, get_mappings, XmlElement, XmlNode,
};
use download_watcher::report::chunk_lines;

fn elem(name: &str, children: Vec<XmlNode>) -> XmlElement {
    XmlElement { name: String::from(name), attributes: Vec::new(), children }
}

fn text(s: &str) -> XmlNode {
    XmlNode::Text(String::from(s))
}

fn mapping(alt: &str, og: &str) -> XmlNode {
    XmlNode::Element(XmlElement {
        name: String::from("Mapping"),
        attributes: vec![(String::from("alternative"), String::from(alt))],
        children: vec![text(og)],
    })
}

fn sample_doc() -> XmlElement {
    elem(
        "root",
        vec![
            XmlNode::Element(elem("BotToken", vec![text("hunter2-bot-token")])),
            XmlNode::Element(elem("MainChannel", vec![text("123456789012345678")])),
            XmlNode::Element(elem(
                "Mappings",
                vec![mapping("alt one", "show name"), mapping("alt two", "other show")],
            )),
        ],
    )
}

#[test]
fn reads_token_and_channel() {
    let doc = sample_doc();
    assert_eq!(get_bot_token(&doc), Some(String::from("hunter2-bot-token")));
    assert_eq!(get_main_channel(&doc), Some(123456789012345678));
}

#[test]
fn missing_or_bad_entries_read_as_nothing() {
    let empty = elem("root", Vec::new());
    assert_eq!(get_bot_token(&empty), None);
    assert_eq!(get_main_channel(&empty), None);
    let bad = elem(
        "root",
        vec![XmlNode::Element(elem("MainChannel", vec![text("not a number")]))],
    );
    assert_eq!(get_main_channel(&bad), None);
    let huge = elem(
        "root",
        vec![XmlNode::Element(elem("MainChannel", vec![text("99999999999999999999999999")]))],
    );
    assert_eq!(get_main_channel(&huge), None);
}

#[test]
fn mappings_come_in_document_order() {
    let doc = sample_doc();
    let ms = get_mappings(&doc);
    assert_eq!(
        ms,
        vec![
            (String::from("alt one"), String::from("show name")),
            (String::from("alt two"), String::from("other show")),
        ]
    );
}

#[test]
fn malformed_mapping_entries_are_skipped() {
    let doc = elem(
        "root",
        vec![XmlNode::Element(elem(
            "Mappings",
            vec![
                mapping("good", "show"),
                // no alternative attribute
                XmlNode::Element(elem("Mapping", vec![text("orphan")])),
                // no text body
                XmlNode::Element(XmlElement {
                    name: String::from("Mapping"),
                    attributes: vec![(String::from("alternative"), String::from("empty"))],
                    children: Vec::new(),
                }),
                // a stray tag
                XmlNode::Element(elem("Other", vec![text("x")])),
            ],
        ))],
    );
    assert_eq!(get_mappings(&doc), vec![(String::from("good"), String::from("show"))]);
}

#[test]
fn adding_a_mapping_appends_it() {
    let doc = sample_doc();
    let doc = add_mappings(doc, String::from("alt three"), String::from("third show"));
    let ms = get_mappings(&doc);
    assert_eq!(ms.len(), 3);
    assert_eq!(ms[2], (String::from("alt three"), String::from("third show")));
    // Everything else stays readable.
    assert_eq!(get_bot_token(&doc), Some(String::from("hunter2-bot-token")));
    assert_eq!(get_main_channel(&doc), Some(123456789012345678));
}

#[test]
fn adding_a_mapping_creates_the_section() {
    let doc = elem("root", vec![XmlNode::Element(elem("BotToken", vec![text("hunter2-bot-token")]))]);
    let doc = add_mappings(doc, String::from("alt"), String::from("show"));
    assert_eq!(get_mappings(&doc), vec![(String::from("alt"), String::from("show"))]);
    assert_eq!(get_bot_token(&doc), Some(String::from("hunter2-bot-token")));
}

#[test]
fn long_report_is_flushed_in_bounded_chunks() {
    // 30 lines of 69 characters are 70 bytes each with their newline:
    // 2100 bytes in all, flushed as at least two messages, each under
    // the ceiling, with no line split across messages.
    let line = "x".repeat(69);
    let lines: Vec<String> = (0..30).map(|_| line.clone()).collect();
    let chunks = chunk_lines(&lines);
    assert!(chunks.len() >= 2);
    let mut total = String::new();
    for c in &chunks {
        assert!(!c.is_empty());
        assert!(c.len() <= 1999);
        // every chunk holds whole lines only
        for part in c.trim_end_matches('\n').split('\n') {
            assert_eq!(part, line);
        }
        total.push_str(c);
    }
    let mut expected = String::new();
    for l in &lines {
        expected.push_str(l);
        expected.push('\n');
    }
    assert_eq!(total, expected);
}

#[test]
fn an_oversized_line_is_flushed_alone() {
    let big = "y".repeat(2500);
    let lines = vec![String::from("small"), big.clone(), String::from("tail")];
    let chunks = chunk_lines(&lines);
    assert_eq!(chunks.len(), 3);
    assert_eq!(chunks[0], "small\n");
    assert_eq!(chunks[1], format!("{}\n", big));
    assert_eq!(chunks[2], "tail\n");
}

#[test]
fn nothing_to_report_means_no_chunks() {
    let chunks = chunk_lines(&Vec::new());
    assert!(chunks.is_empty());
}

#[test]
fn short_lines_share_one_chunk() {
    let lines = vec![String::from("a"), String::from("b")];
    let chunks = chunk_lines(&lines);
    assert_eq!(chunks, vec![String::from("a\nb\n")]);
}
