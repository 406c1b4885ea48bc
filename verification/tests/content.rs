use upnp::content_directory_v4::{
    content_xml, escape_didl, normalize_mime, ContentDirectory, ContentError, FsEntry,
};
use upnp::library::{Library, LibraryRow};
use upnp::result_item::{DidlError, ResultItem, ResultItemIterator, RowError};
use upnp::soap::{BrowseAction, SoapError, XmlElement, XmlNode};

const NS: &str = "http://schemas.xmlsoap.org/soap/envelope/";

fn el(name: &str, ns: Option<&str>, children: Vec<XmlNode>) -> XmlElement {
    XmlElement { name: name.to_string(), ns: ns.map(|s| s.to_string()), children }
}

fn text_el(name: &str, text: &str) -> XmlNode {
    XmlNode::Element(el(name, None, vec![XmlNode::Characters(text.to_string())]))
}

fn envelope(args: Vec<XmlNode>) -> XmlElement {
    let action = el("Browse", Some("urn:schemas-upnp-org:service:ContentDirectory:1"), args);
    let body = el("Body", Some(NS), vec![XmlNode::Element(action)]);
    el("Envelope", Some(NS), vec![XmlNode::Element(body)])
}

fn file(path: &str, mime: &str) -> FsEntry {
    FsEntry { path: path.to_string(), is_dir: false, mime: mime.to_string(), children: vec![] }
}

fn dir(path: &str, children: Vec<FsEntry>) -> FsEntry {
    FsEntry { path: path.to_string(), is_dir: true, mime: String::new(), children }
}

fn sample() -> ContentDirectory {
    let mut cd = ContentDirectory::new("/media".to_string());
    let tree = vec![
        dir("/media/Movies", vec![file("/media/Movies/a.avi", "video/x-msvideo")]),
        file("/media/b.mp4", "application/mp4"),
    ];
    cd.update_db(&tree).unwrap();
    cd
}

const TEMPLATE: &str = "<Result>{{result}}</Result><N>{{number_returned}}</N><T>{{ total_matches }}</T>";

const DIDL: &str = "&lt;DIDL-Lite xmlns:dc=&quot;http://purl.org/dc/elements/1.1/&quot; xmlns:upnp=&quot;urn:schemas-upnp-org:metadata-1-0/upnp/&quot; xmlns=&quot;urn:schemas-upnp-org:metadata-1-0/DIDL-Lite/&quot; xmlns:dlna=&quot;urn:schemas-dlna-org:metadata-1-0/&quot;&gt;";

#[test]
fn escape_didl_replaces_markup() {
    assert_eq!(escape_didl("a<b>&\"c\""), "a&lt;b&gt;&amp;amp;&quot;c&quot;");
    assert_eq!(escape_didl("plain"), "plain");
}

#[test]
fn mime_fixup() {
    assert_eq!(normalize_mime("application/mp4"), "video/mp4");
    assert_eq!(normalize_mime("video/x-msvideo"), "video/x-msvideo");
}

#[test]
fn new_starts_with_an_empty_library() {
    let cd = ContentDirectory::new("/media".to_string());
    assert_eq!(cd.get_item_path("/MediaItems/1.avi"), None);
}

#[test]
fn library_insert_then_read() {
    let mut lib = Library::new();
    assert_eq!(lib.insert(None, None, "/r".to_string(), None), Ok(1));
    assert_eq!(lib.insert(Some(1), Some(0), "/r/a".to_string(), Some("m".to_string())), Ok(2));
    assert_eq!(lib.insert(Some(1), Some(1), "/r/d".to_string(), Some(String::new())), Ok(3));
    assert_eq!(lib.path_of(2).as_deref(), Some("/r/a"));
    assert_eq!(lib.path_of(4), None);
    assert_eq!(lib.path_of(0), None);
    lib.set_child_count(3, 5);
    let kids = lib.children_of(1);
    assert_eq!(kids.len(), 2);
    assert_eq!(kids[1].child_count, 5);
    assert_eq!(lib.children_of(2).len(), 0);
    lib.clear();
    assert_eq!(lib.len(), 0);
}

#[test]
fn update_db_builds_rows_in_scan_order() {
    let cd = sample();
    assert_eq!(cd.get_item_path("/MediaItems/1.x").as_deref(), Some("/media.x"));
    assert_eq!(cd.get_item_path("/MediaItems/2.avi").as_deref(), Some("/media/Movies.avi"));
    assert_eq!(cd.get_item_path("/MediaItems/3.avi").as_deref(), Some("/media/Movies/a.avi"));
    assert_eq!(cd.get_item_path("/MediaItems/3.srt").as_deref(), Some("/media/Movies/a.srt"));
    assert_eq!(cd.get_item_path("/MediaItems/4.mp4").as_deref(), Some("/media/b.mp4"));
}

#[test]
fn get_item_path_edge_cases() {
    let cd = sample();
    assert_eq!(cd.get_item_path("/MediaItems"), None);
    assert_eq!(cd.get_item_path("/MediaItems/3"), None);
    assert_eq!(cd.get_item_path("/MediaItems/.avi"), None);
    assert!(matches!(cd.get_item_path("/MediaItems/abc.avi"), None));
    assert!(matches!(cd.get_item_path("/MediaItems/99.avi"), None));
}

#[test]
fn rows_give_result_items() {
    let cd = sample();
    let _ = cd;
    let rows = vec![
        LibraryRow {
            id: 2,
            parent_id: Some(1),
            is_dir: Some(1),
            child_count: 1,
            path: "/media/Movies".to_string(),
            mime: Some(String::new()),
        },
        LibraryRow {
            id: 3,
            parent_id: Some(2),
            is_dir: Some(0),
            child_count: 0,
            path: "/media/Movies/a.avi".to_string(),
            mime: Some("video/x-msvideo".to_string()),
        },
        LibraryRow { id: 1, parent_id: None, is_dir: None, child_count: 0, path: "/media".to_string(), mime: None },
    ];
    let mut it = ResultItemIterator::new(rows);
    let d = it.next().unwrap().unwrap();
    assert!(d.is_dir);
    assert_eq!(d.mime, None);
    assert_eq!(d.child_count, 1);
    let f = it.next().unwrap().unwrap();
    assert!(!f.is_dir);
    assert_eq!(f.mime.as_deref(), Some("video/x-msvideo"));
    assert!(matches!(it.next(), Some(Err(RowError::BadRow))));
    assert!(it.next().is_none());
}

#[test]
fn row_with_nul_path_is_refused() {
    let rows = vec![LibraryRow {
        id: 2,
        parent_id: Some(1),
        is_dir: Some(1),
        child_count: 0,
        path: "/a\0b".to_string(),
        mime: None,
    }];
    let mut it = ResultItemIterator::new(rows);
    assert!(matches!(it.collect(), Err(RowError::BadPath)));
}

#[test]
fn get_item_path_takes_normal_forms() {
    let cd = sample();
    assert_eq!(cd.get_item_path("/MediaItems/3.avi/").as_deref(), Some("/media/Movies/a.avi"));
    assert_eq!(cd.get_item_path("/MediaItems//3.srt").as_deref(), Some("/media/Movies/a.srt"));
    assert_eq!(cd.get_item_path("/MediaItems/x/../4.mkv").as_deref(), Some("/media/b.mkv"));
    assert_eq!(cd.get_item_path("/MediaItems/4.avi/.."), None);
    let mut rel = ContentDirectory::new("./lib/".to_string());
    rel.update_db(&vec![file("./lib//c.avi", "video/x-msvideo")]).unwrap();
    assert_eq!(rel.get_item_path("/MediaItems/2.srt").as_deref(), Some("lib/c.srt"));
    assert_eq!(rel.get_item_path("/MediaItems/1.x").as_deref(), Some("lib.x"));
}

#[test]
fn didl_titles_come_from_normal_forms() {
    let item = ResultItem {
        id: 5,
        is_dir: true,
        parent_id: 1,
        child_count: 0,
        path: "/media/Movies/./".to_string(),
        mime: None,
    };
    assert!(item.to_didl().unwrap().contains("<dc:title>Movies</dc:title>"));
    let up = ResultItem { path: "/media/Movies/x/..".to_string(), ..item.copy() };
    assert!(up.to_didl().unwrap().contains("<dc:title>Movies</dc:title>"));
    let root = ResultItem { path: "/media/..".to_string(), ..item.copy() };
    assert!(matches!(root.to_didl(), Err(DidlError::NoFileName)));
}

#[test]
fn didl_entries() {
    let dir_item = ResultItem {
        id: 2,
        is_dir: true,
        parent_id: 1,
        child_count: 6,
        path: "/media/Movies".to_string(),
        mime: None,
    };
    assert_eq!(
        dir_item.to_didl().unwrap(),
        "<container id=\"2\" parentID=\"1\" childCount=\"6\" restricted=\"1\"><dc:title>Movies</dc:title><upnp:class>object.container.storageFolder</upnp:class><upnp:storageUsed>-1</upnp:storageUsed></container>"
    );
    let file_item = ResultItem {
        id: 811,
        is_dir: false,
        parent_id: 2,
        child_count: 0,
        path: "/media/Movies/a.b.mp4".to_string(),
        mime: Some("video/mp4".to_string()),
    };
    assert_eq!(
        file_item.to_didl().unwrap(),
        "<item id=\"811\" parentID=\"2\" restricted=\"1\"><dc:title>a.b.mp4</dc:title><res protocolInfo=\"http-get:*:video/mp4:*\">http://192.168.1.3:8900/MediaItems/811.mp4</res><upnp:class>object.item.videoItem</upnp:class></item>"
    );
    let no_ext = ResultItem { path: "/media/README".to_string(), ..file_item.copy() };
    assert!(no_ext.to_didl().unwrap().contains("MediaItems/811.</res>"));
    let no_mime = ResultItem { mime: None, ..file_item.copy() };
    assert!(matches!(no_mime.to_didl(), Err(DidlError::NoMime)));
    let no_name = ResultItem { path: "/media/..".to_string(), ..file_item.copy() };
    assert!(matches!(no_name.to_didl(), Err(DidlError::NoFileName)));
}

#[test]
fn content_xml_renders_template() {
    let out = content_xml(&vec![], TEMPLATE).unwrap();
    assert_eq!(out, format!("<Result>{}</Result><N>0</N><T>0</T>", DIDL));
    assert!(matches!(content_xml(&vec![], "{{a"), Ok(_)));
    assert!(matches!(content_xml(&vec![], "}}"), Err(ContentError::Template(_))));
}

#[test]
fn browse_action_arguments() {
    let soap = envelope(vec![
        text_el("ObjectID", "0"),
        text_el("BrowseFlag", "BrowseDirectChildren"),
        text_el("Filter", "*"),
        text_el("StartingIndex", "0"),
        text_el("RequestedCount", "16"),
        text_el("SortCriteria", ""),
        text_el("Unknown", "x"),
        text_el("ObjectID", "2"),
    ]);
    let a = BrowseAction::new(&soap).unwrap();
    assert_eq!(a.name, "Browse");
    assert_eq!(a.object_id, 2);
    assert_eq!(a.browse_flag, "BrowseDirectChildren");
    assert_eq!(a.filter, "*");
    assert_eq!(a.requested_count, 16);
    assert_eq!(a.sort_criteria, "");
}

#[test]
fn browse_action_errors() {
    assert!(matches!(
        BrowseAction::new(&envelope(vec![text_el("ObjectID", "x")])),
        Err(SoapError::BadObjectId)
    ));
    assert!(matches!(
        BrowseAction::new(&envelope(vec![text_el("StartingIndex", " 1")])),
        Err(SoapError::BadStartingIndex)
    ));
    assert!(matches!(
        BrowseAction::new(&envelope(vec![text_el("RequestedCount", "")])),
        Err(SoapError::BadRequestedCount)
    ));
    let no_ns = el("Envelope", None, vec![XmlNode::Element(el("Body", None, vec![]))]);
    assert!(matches!(BrowseAction::new(&no_ns), Err(SoapError::NoBody)));
    let ws_first = el(
        "Envelope",
        Some(NS),
        vec![XmlNode::Element(el(
            "Body",
            Some(NS),
            vec![XmlNode::Characters("\n".to_string()), text_el("Browse", "")],
        ))],
    );
    assert!(matches!(BrowseAction::new(&ws_first), Err(SoapError::NoAction)));
}

#[test]
fn content_str_collects_nested_text() {
    let e = el(
        "a",
        None,
        vec![
            XmlNode::Characters("x".to_string()),
            XmlNode::Comment("no".to_string()),
            XmlNode::Element(el("b", None, vec![XmlNode::CData("y".to_string())])),
            XmlNode::Characters("z".to_string()),
        ],
    );
    assert_eq!(e.content_str(), "xyz");
}

#[test]
fn browse_root_lists_children() {
    let cd = sample();
    let soap = envelope(vec![text_el("ObjectID", "0")]);
    let xml = cd.get_content_as_xml(&soap, TEMPLATE).unwrap();
    assert!(xml.contains("&lt;container id=&quot;2&quot; parentID=&quot;1&quot; childCount=&quot;1&quot;"));
    assert!(xml.contains("http-get:*:video/mp4:*&quot;&gt;http://192.168.1.3:8900/MediaItems/4.mp4"));
    assert!(xml.ends_with("<N>2</N><T>2</T>"));
    let response = cd.browse(&soap, TEMPLATE).unwrap();
    let expected_head = format!(
        "HTTP/1.1 200 OK\r\nConnection: close\r\nContent-Type: text/xml; charset=\"utf-8\"\r\nContent-Length: {}\r\n\r\n",
        xml.len()
    );
    assert_eq!(response, [expected_head.as_bytes(), xml.as_bytes()].concat());
}

#[test]
fn browse_errors() {
    let cd = sample();
    let soap = envelope(vec![text_el("ObjectID", "nope")]);
    assert!(matches!(cd.browse(&soap, TEMPLATE), Err(ContentError::Soap(SoapError::BadObjectId))));
}

#[test]
fn child_counts_match_rows() {
    // /media has two entries; Movies has one; the Browse of object 0 lists
    // both, and Movies (row 2) reports one child, which a Browse of 2 lists
    let cd = sample();
    let xml = cd.get_content_as_xml(&envelope(vec![text_el("ObjectID", "2")]), TEMPLATE).unwrap();
    assert!(xml.ends_with("<N>1</N><T>1</T>"));
    assert!(xml.contains("a.avi"));
    let xml = cd.get_content_as_xml(&envelope(vec![text_el("ObjectID", "3")]), TEMPLATE).unwrap();
    assert!(xml.ends_with("<N>0</N><T>0</T>"));
}

#[test]
fn advertised_url_leads_back_to_the_file() {
    let cd = sample();
    let item = ResultItem {
        id: 3,
        is_dir: false,
        parent_id: 2,
        child_count: 0,
        path: "/media/Movies/a.avi".to_string(),
        mime: Some("video/x-msvideo".to_string()),
    };
    let didl = item.to_didl().unwrap();
    let start = didl.find("/MediaItems/").unwrap();
    let end = didl.find("</res>").unwrap();
    let url = &didl[start..end];
    assert_eq!(url, "/MediaItems/3.avi");
    assert_eq!(cd.get_item_path(url).as_deref(), Some("/media/Movies/a.avi"));
}

#[test]
fn advertised_url_of_a_file_without_extension() {
    let mut cd = ContentDirectory::new("/media".to_string());
    cd.update_db(&vec![file("/media//README", "text/plain")]).unwrap();
    let item = ResultItem {
        id: 2,
        is_dir: false,
        parent_id: 1,
        child_count: 0,
        path: "/media//README".to_string(),
        mime: Some("text/plain".to_string()),
    };
    let didl = item.to_didl().unwrap();
    let start = didl.find("/MediaItems/").unwrap();
    let end = didl.find("</res>").unwrap();
    let url = &didl[start..end];
    assert_eq!(url, "/MediaItems/2.");
    assert_eq!(cd.get_item_path(url).as_deref(), Some("/media/README"));
    // a name ending in a dot is where the round trip breaks
    cd.update_db(&vec![file("/media/movie.", "video/mp4")]).unwrap();
    assert_eq!(cd.get_item_path("/MediaItems/2.").as_deref(), Some("/media/movie"));
}

#[test]
fn update_db_refuses_nul_in_library_dir() {
    let mut cd = ContentDirectory::new("/me\0dia".to_string());
    assert!(matches!(cd.update_db(&vec![]), Err(ContentError::BadLibraryPath)));
}

#[test]
fn browse_request_parses_the_body() {
    let cd = sample();
    assert!(matches!(cd.browse_request(None, TEMPLATE), Err(ContentError::NoBody)));
    assert!(matches!(cd.browse_request(Some("not xml"), TEMPLATE), Err(ContentError::BadXml)));
    let raw = "<s:Envelope xmlns:s=\"http://schemas.xmlsoap.org/soap/envelope/\"><s:Body><u:Browse xmlns:u=\"urn:schemas-upnp-org:service:ContentDirectory:1\"><ObjectID>0</ObjectID></u:Browse></s:Body></s:Envelope>";
    let parsed = upnp::soap::parse_xml(raw).unwrap();
    assert_eq!(parsed.name, "Envelope");
    assert_eq!(parsed.ns.as_deref(), Some(NS));
    let expected = cd.browse(&envelope(vec![text_el("ObjectID", "0")]), TEMPLATE).unwrap();
    assert_eq!(cd.browse_request(Some(raw), TEMPLATE).unwrap(), expected);
}

#[test]
fn stored_paths_are_normal_forms() {
    let mut cd = ContentDirectory::new("/media/./".to_string());
    cd.update_db(&vec![file("/media//it's.avi", "video/x-msvideo")]).unwrap();
    assert_eq!(cd.get_item_path("/MediaItems/1.x").as_deref(), Some("/media.x"));
    assert_eq!(cd.get_item_path("/MediaItems/2.srt").as_deref(), Some("/media/it's.srt"));
    assert_eq!(upnp::content_directory_v4::store_path("a/./b'c/"), "a/b'c");
}

fn unescape(t: &str) -> String {
    let mut out = String::new();
    let mut rest = t;
    while let Some(c) = rest.chars().next() {
        let (ch, n) = if rest.starts_with("&amp;amp;") {
            ('&', 9)
        } else if rest.starts_with("&lt;") {
            ('<', 4)
        } else if rest.starts_with("&gt;") {
            ('>', 4)
        } else if rest.starts_with("&quot;") {
            ('"', 6)
        } else {
            (c, c.len_utf8())
        };
        out.push(ch);
        rest = &rest[n..];
    }
    out
}

#[test]
fn escaped_didl_reads_back() {
    for s in ["a<b>&\"c\"", "&amp;", "plain", "<<&>>", ""] {
        assert_eq!(unescape(&escape_didl(s)), s);
    }
}

#[test]
fn rebuilding_twice_gives_the_same_library() {
    let mut cd = sample();
    let tree = vec![
        dir("/media/Movies", vec![file("/media/Movies/a.avi", "video/x-msvideo")]),
        file("/media/b.mp4", "application/mp4"),
    ];
    cd.update_db(&tree).unwrap();
    let soap = envelope(vec![text_el("ObjectID", "0")]);
    let once = cd.browse(&soap, TEMPLATE).unwrap();
    assert_eq!(cd.get_item_path("/MediaItems/4.mp4").as_deref(), Some("/media/b.mp4"));
    cd.update_db(&tree).unwrap();
    assert_eq!(cd.browse(&soap, TEMPLATE).unwrap(), once);
    assert_eq!(cd.get_item_path("/MediaItems/5.avi"), None);
}

#[test]
fn long_bracket_runs_are_refused_before_parsing() {
    let cd = sample();
    let body = format!("<a><![CDATA[{}]]></a>", "]".repeat(300));
    assert!(!upnp::soap::check_bracket_runs(&body));
    assert!(matches!(cd.browse_request(Some(&body), TEMPLATE), Err(ContentError::LongBracketRun)));
    assert!(upnp::soap::check_bracket_runs(&"]".repeat(255)));
    assert!(!upnp::soap::check_bracket_runs(&"]".repeat(256)));
}

#[test]
fn escaped_didl_reads_back_by_replacing() {
    for s in ["a<b>&\"c\"", "&amp;", "&lt;", "plain", "<<&>>", ""] {
        let e = escape_didl(s);
        let back = e.replace("&quot;", "\"").replace("&gt;", ">").replace("&lt;", "<").replace("&amp;amp;", "&");
        assert_eq!(back, s);
    }
}
