use nextcloud::pase_propfind::{parse_events, pase_propfind, ParseError};
use nextcloud::events::XmlEvent;
use nextcloud::prop::{PropStatStatus, UnknownStatus};

fn sample_body() -> String {
    let mut s = String::new();
    s.push_str("<?xml version=\"1.0\"?>");
    s.push_str("<d:multistatus xmlns:d=\"DAV:\" xmlns:oc=\"http://owncloud.org/ns\">");
    s.push_str("<d:response><d:href>/remote.php/dav/files/admin/</d:href>");
    s.push_str("<d:propstat><d:prop><oc:size>42</oc:size><oc:favorite>0</oc:favorite></d:prop>");
    s.push_str("<d:status>HTTP/1.1 200 OK</d:status></d:propstat></d:response>");
    s.push_str("<d:response><d:href>/remote.php/dav/files/admin/Documents/</d:href>");
    s.push_str("<d:propstat><d:prop><oc:size>7</oc:size></d:prop>");
    s.push_str("<d:status>HTTP/1.1 404 Not Found</d:status></d:propstat></d:response>");
    s.push_str("</d:multistatus>");
    s
}

#[test]
fn test_parse() {
    println!("{:#?}", pase_propfind(sample_body()));
}

#[test]
fn responses_follow_document_order() {
    let ms = pase_propfind(sample_body()).unwrap();
    assert_eq!(ms.responses.len(), 2);
    assert_eq!(ms.responses[0].href, "/remote.php/dav/files/admin/");
    assert_eq!(ms.responses[1].href, "/remote.php/dav/files/admin/Documents/");
}

#[test]
fn propstat_status_is_classified() {
    let ms = pase_propfind(sample_body()).unwrap();
    assert!(matches!(ms.responses[0].prop_stats[0].status, PropStatStatus::Okay));
    assert!(matches!(ms.responses[1].prop_stats[0].status, PropStatStatus::NotFound));
}

#[test]
fn prop_tree_shape_round_trips() {
    let ms = pase_propfind(sample_body()).unwrap();
    let prop_root = &ms.responses[0].prop_stats[0].prop_list;
    assert_eq!(prop_root.tag().namespace, "d");
    assert_eq!(prop_root.tag().name, "prop");
    let children = prop_root.children().expect("prop root holds children");
    assert_eq!(children.len(), 2);
    assert_eq!(children[0].tag().namespace, "oc");
    assert_eq!(children[0].tag().name, "size");
    assert_eq!(children[0].text().unwrap(), "42");
    assert_eq!(children[1].tag().namespace, "oc");
    assert_eq!(children[1].tag().name, "favorite");
    assert_eq!(children[1].text().unwrap(), "0");
}

#[test]
fn empty_body_is_no_content() {
    assert!(matches!(pase_propfind(String::new()), Err(ParseError::NoContent)));
}

#[test]
fn body_without_multistatus_root_is_no_content() {
    let body = "<foo><bar>1</bar></foo>".to_string();
    assert!(matches!(pase_propfind(body), Err(ParseError::NoContent)));
}

#[test]
fn truncated_document_is_malformed() {
    let body = "<d:multistatus xmlns:d=\"DAV:\"><d:response>".to_string();
    assert!(matches!(pase_propfind(body), Err(ParseError::MalformedXml)));
}

#[test]
fn mismatched_end_tag_is_malformed() {
    let body = "<d:multistatus><d:response></d:wrong></d:multistatus>".to_string();
    assert!(matches!(pase_propfind(body), Err(ParseError::MalformedXml)));
}

#[test]
fn deeply_nested_properties_are_preserved() {
    let mut s = String::new();
    s.push_str("<d:multistatus><d:response><d:propstat><d:prop>");
    s.push_str("<a:one><a:two><a:three><a:four><a:five>deep</a:five></a:four></a:three></a:two></a:one>");
    s.push_str("</d:prop></d:propstat></d:response></d:multistatus>");
    let ms = pase_propfind(s).unwrap();
    let root = &ms.responses[0].prop_stats[0].prop_list;
    let mut node = &root.children().unwrap()[0];
    let names = ["one", "two", "three", "four", "five"];
    for (depth, name) in names.iter().enumerate() {
        assert_eq!(node.tag().namespace, "a");
        assert_eq!(&node.tag().name, name);
        if depth + 1 < names.len() {
            let cs = node.children().unwrap();
            assert_eq!(cs.len(), 1);
            node = &cs[0];
        }
    }
    assert_eq!(node.text().unwrap(), "deep");
}

#[test]
fn self_closing_property_is_empty_leaf() {
    let body = "<d:multistatus><d:response><d:propstat><d:prop>\
                <oc:favorite/></d:prop></d:propstat></d:response></d:multistatus>"
        .to_string();
    let ms = pase_propfind(body).unwrap();
    let root = &ms.responses[0].prop_stats[0].prop_list;
    let leaf = &root.children().unwrap()[0];
    assert_eq!(leaf.tag().namespace, "oc");
    assert_eq!(leaf.tag().name, "favorite");
    assert!(leaf.is_empty());
    assert!(!leaf.is_text());
    assert!(leaf.text().is_none());
}

#[test]
fn text_is_unescaped_by_the_tokenizer() {
    let body = "<d:multistatus><d:response><d:href>/a&amp;b/</d:href>\
                </d:response></d:multistatus>"
        .to_string();
    let ms = pase_propfind(body).unwrap();
    assert_eq!(ms.responses[0].href, "/a&b/");
}

#[test]
fn missing_status_element_stays_unknown() {
    let body = "<d:multistatus><d:response><d:propstat><d:prop><x:y/></d:prop>\
                </d:propstat></d:response></d:multistatus>"
        .to_string();
    let ms = pase_propfind(body).unwrap();
    assert!(matches!(
        ms.responses[0].prop_stats[0].status,
        PropStatStatus::Unknown(UnknownStatus::Unknown)
    ));
}

#[test]
fn second_root_start_is_ignored() {
    let body = "<d:multistatus><d:multistatus></d:multistatus>\
                <d:response></d:response></d:multistatus>"
        .to_string();
    let ms = pase_propfind(body).unwrap();
    assert_eq!(ms.responses.len(), 1);
}

#[test]
fn parse_events_runs_the_machine() {
    let events = vec![
        XmlEvent::Start(b"d:multistatus".to_vec()),
        XmlEvent::Start(b"d:response".to_vec()),
        XmlEvent::Start(b"d:href".to_vec()),
        XmlEvent::Text("/files/".to_string()),
        XmlEvent::End(b"d:href".to_vec()),
        XmlEvent::End(b"d:response".to_vec()),
        XmlEvent::End(b"d:multistatus".to_vec()),
        XmlEvent::Eof,
    ];
    let ms = parse_events(events).unwrap();
    assert_eq!(ms.responses.len(), 1);
    assert_eq!(ms.responses[0].href, "/files/");
}

#[test]
fn parse_events_bad_token_aborts() {
    let events = vec![XmlEvent::Start(b"d:multistatus".to_vec()), XmlEvent::Bad];
    assert!(matches!(parse_events(events), Err(ParseError::MalformedXml)));
}

#[test]
fn parse_events_unbalanced_is_malformed() {
    let events = vec![
        XmlEvent::Start(b"d:multistatus".to_vec()),
        XmlEvent::Start(b"d:response".to_vec()),
        XmlEvent::End(b"d:response".to_vec()),
        XmlEvent::Eof,
    ];
    assert!(matches!(parse_events(events), Err(ParseError::MalformedXml)));
}
