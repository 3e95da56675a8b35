use nextcloud::dav::{DavItem, File, Folder};
use nextcloud::nextcloud::Nextcloud;
use nextcloud::prop::{PropFind, PropStat, PropStatStatus, UnknownStatus};
use nextcloud::status::parse_prop_stat_code;
use nextcloud::xml::{Attribute, ToXml, Xml, XmlTag};

#[test]
fn it_works() {
    let provider = Nextcloud::new(
        "https://cloud.example.net".to_string(),
        "remote.php/dav".to_string(),
        "admin".to_string(),
        "secret".to_string(),
    );
    println!("{:?}", provider);
}

#[test]
fn classify_known_codes() {
    assert!(matches!(parse_prop_stat_code("HTTP/1.1 200 OK"), PropStatStatus::Okay));
    assert!(matches!(parse_prop_stat_code("HTTP/1.1 401 Unauthorized"), PropStatStatus::Unauthorized));
    assert!(matches!(parse_prop_stat_code("HTTP/1.1 403 Forbidden"), PropStatStatus::Forbidden));
    assert!(matches!(parse_prop_stat_code("HTTP/1.1 404 Not Found"), PropStatStatus::NotFound));
}

#[test]
fn classify_code_families() {
    assert!(matches!(
        parse_prop_stat_code("HTTP/1.1 204 No Content"),
        PropStatStatus::Unknown(UnknownStatus::UnknownSuccess)
    ));
    assert!(matches!(
        parse_prop_stat_code("HTTP/1.1 418 I'm a teapot"),
        PropStatStatus::Unknown(UnknownStatus::UnknownClientError)
    ));
    assert!(matches!(
        parse_prop_stat_code("HTTP/1.1 503 Service Unavailable"),
        PropStatStatus::Unknown(UnknownStatus::UnknownServerError)
    ));
    assert!(matches!(
        parse_prop_stat_code("HTTP/1.1 100 Continue"),
        PropStatStatus::Unknown(UnknownStatus::Unknown)
    ));
}

#[test]
fn classify_rejects_other_shapes() {
    assert!(matches!(parse_prop_stat_code(""), PropStatStatus::Unknown(UnknownStatus::Unknown)));
    assert!(matches!(
        parse_prop_stat_code("HTTP/2 200 OK"),
        PropStatStatus::Unknown(UnknownStatus::Unknown)
    ));
    assert!(matches!(
        parse_prop_stat_code("status: 200"),
        PropStatStatus::Unknown(UnknownStatus::Unknown)
    ));
    assert!(matches!(
        parse_prop_stat_code("HTTP/1.1 abc OK"),
        PropStatStatus::Unknown(UnknownStatus::Unknown)
    ));
    assert!(matches!(
        parse_prop_stat_code("HTTP/1.1 99999 Huge"),
        PropStatStatus::Unknown(UnknownStatus::Unknown)
    ));
    assert!(matches!(
        parse_prop_stat_code("HTTP/1.1 "),
        PropStatStatus::Unknown(UnknownStatus::Unknown)
    ));
}

#[test]
fn classify_token_quirks() {
    assert!(matches!(parse_prop_stat_code("HTTP/1.1  200  OK"), PropStatStatus::Okay));
    assert!(matches!(parse_prop_stat_code("HTTP/1.1 +200 OK"), PropStatStatus::Okay));
}

#[test]
fn tag_full_name_joins_parts() {
    let t = XmlTag::new("d".to_string(), "prop".to_string());
    assert_eq!(t.full_name(), "d:prop");
}

#[test]
fn attribute_to_string_quotes_value() {
    let a = Attribute::new("key".to_string(), "value".to_string());
    assert_eq!(a.to_string(), "key=\"value\"");
}

#[test]
fn attribute_to_string_escapes_key() {
    let a = Attribute::new("a\"b".to_string(), "v".to_string());
    assert_eq!(a.to_string(), "a\\\"b=\"v\"");
}

#[test]
fn xml_tree_building() {
    let mut root = Xml::new(XmlTag::new("d".to_string(), "prop".to_string()));
    assert!(root.is_empty());
    let idx = root.add_child(Xml::new(XmlTag::new("oc".to_string(), "size".to_string())));
    assert_eq!(idx, 0);
    assert!(root.is_xml());
    let path = vec![0usize];
    root.set_text_at(&path, 0, "42".to_string());
    let found = root.lookup(&path, 0).unwrap();
    assert_eq!(found.text().unwrap(), "42");
    assert!(found.is_text());
    assert_eq!(root.children_vec().len(), 1);
    assert_eq!(root.children().unwrap().len(), 1);
    assert!(root.lookup(&vec![1usize], 0).is_none());
}

#[test]
fn xml_attributes_are_kept_in_order() {
    let mut x = Xml::new(XmlTag::new("oc".to_string(), "share".to_string()));
    x.add_attribute(Attribute::new("a".to_string(), "1".to_string()));
    x.add_attribute(Attribute::new("b".to_string(), "2".to_string()));
    let attrs = x.attributes();
    assert_eq!(attrs.len(), 2);
    assert_eq!(attrs[0].key, "a");
    assert_eq!(attrs[1].value, "2");
}

#[test]
fn with_text_overwrites_children() {
    let mut x = Xml::new(XmlTag::new("a".to_string(), "b".to_string()));
    x.add_child(Xml::new(XmlTag::new("c".to_string(), "d".to_string())));
    x.with_text("t".to_string());
    assert!(x.is_text());
    assert!(x.children().is_none());
    x.with_children(Vec::new());
    assert!(x.is_xml());
    assert!(x.text().is_none());
}

#[test]
fn xml_serialization_shapes() {
    let empty = Xml::new(XmlTag::new("oc".to_string(), "favorite".to_string()));
    assert_eq!(empty.to_xml(), "<oc:favorite  />");
    let mut text = Xml::new(XmlTag::new("oc".to_string(), "size".to_string()));
    text.with_text("42".to_string());
    assert_eq!(text.to_xml(), "<oc:size >42</oc:size>");
    let mut parent = Xml::new(XmlTag::new("d".to_string(), "prop".to_string()));
    parent.add_child(text);
    assert_eq!(parent.to_xml(), "<d:prop ><oc:size >42</oc:size></d:prop>");
}

#[test]
fn propfind_serialization_lists_props() {
    let pf = PropFind {
        props: vec![
            XmlTag::new("oc".to_string(), "size".to_string()),
            XmlTag::new("oc".to_string(), "favorite".to_string()),
        ],
        depth: 1,
    };
    let body = pf.to_xml();
    assert!(body.starts_with("<d:propfind"));
    assert!(body.contains("<d:prop><oc:size /><oc:favorite /></d:prop>"));
    assert!(body.ends_with("</d:propfind>"));
}

#[test]
fn propstat_new_has_empty_prop_root() {
    let p = PropStat::new(PropStatStatus::Okay);
    assert!(matches!(p.status, PropStatStatus::Okay));
    assert_eq!(p.prop_list.tag().namespace, "d");
    assert_eq!(p.prop_list.tag().name, "prop");
    assert!(p.prop_list.is_empty());
}

#[test]
fn dav_items_report_kind_and_name() {
    let folder = DavItem::Folder(Folder { name: "docs".to_string(), path: "/docs".to_string() });
    let file = DavItem::File(File {
        name: "a.txt".to_string(),
        path: "/docs/a.txt".to_string(),
        size: 12,
    });
    assert!(folder.is_folder());
    assert!(!file.is_folder());
    assert_eq!(folder.name(), "docs");
    assert_eq!(file.name(), "a.txt");
}

#[test]
fn add_sums() {
    assert_eq!(nextcloud::add(2, 2), 4);
}
