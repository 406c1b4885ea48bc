use upnp::content_directory_v4::FsEntry;
use upnp::http::{Method, Request};
use upnp::media_server_v4::{get_byte_range, Action, MediaServer, RangeError, XmlDoc};

fn req(method: Method, url: &str) -> Request {
    Request {
        method,
        url: url.to_string(),
        http_info: "HTTP/1.1".to_string(),
        headers: vec![],
        body: None,
    }
}

#[test]
fn routes() {
    let s = MediaServer::new("192.168.1.3:8900", "/media");
    assert_eq!(s.dispatch(&req(Method::GET, "/icon.png")), Action::SendIcon);
    assert_eq!(s.dispatch(&req(Method::GET, "/rootDesc.xml")), Action::SendXmlFile(XmlDoc::RootDesc));
    assert_eq!(s.dispatch(&req(Method::GET, "/content_dir.xml")), Action::SendXmlFile(XmlDoc::ContentDir));
    assert_eq!(
        s.dispatch(&req(Method::GET, "/connection_manager.xml")),
        Action::SendXmlFile(XmlDoc::ConnectionManager)
    );
    assert_eq!(
        s.dispatch(&req(Method::GET, "/X_MS_MediaReceiverRegistrar.xml")),
        Action::SendXmlFile(XmlDoc::MediaReceiverRegistrar)
    );
    assert_eq!(s.dispatch(&req(Method::POST, "/control/content_dir")), Action::Browse);
    assert_eq!(s.dispatch(&req(Method::POST, "/control/other")), Action::NotFound);
    assert_eq!(s.dispatch(&req(Method::GET, "/MediaItems/3.avi")), Action::SendVideo);
    assert_eq!(XmlDoc::MediaReceiverRegistrar.path(), "xml_templates/X_MS_media_receiver_registrar.xml");
    assert_eq!(s.http_addr(), "192.168.1.3:8900");
}

#[test]
fn new_keeps_the_address() {
    assert_eq!(MediaServer::new("a:1", "/m").http_addr(), "a:1");
}

#[test]
fn video_path_after_update() {
    let mut s = MediaServer::new("a:1", "/m");
    let tree = vec![FsEntry {
        path: "/m/x.avi".to_string(),
        is_dir: false,
        mime: "video/x-msvideo".to_string(),
        children: vec![],
    }];
    s.update(&tree).unwrap();
    assert_eq!(s.video_path("/MediaItems/2.srt").as_deref(), Some("/m/x.srt"));
    assert_eq!(s.video_path("/short"), None);
}

#[test]
fn announcements() {
    let s = MediaServer::new("a:1", "/m");
    let msgs = s.get_messages();
    assert_eq!(msgs.len(), 6);
    assert_eq!(
        msgs[0],
        "NOTIFY * HTTP/1.1\r\nHOST:239.255.255.250:1900\r\nCACHE-CONTROL:max-age=20\r\nLOCATION:http://192.168.1.3:8900/rootDesc.xml\r\nSERVER: 3.12.1-3-ARCH DLNADOC/1.50 UPnP/1.0 Zap/1.1.1\r\nNT:uuid:4d696e69-444c-164e-9d41-e0cb4ebb5911\r\nUSN:uuid:4d696e69-444c-164e-9d41-e0cb4ebb5911\r\nNTS:ssdp:alive\r\n\r\n"
    );
    assert!(msgs[1].contains("NT:upnp:rootdevice\r\nUSN:uuid:4d696e69-444c-164e-9d41-e0cb4ebb5911::upnp:rootdevice\r\n"));
    assert!(msgs[5].contains("NT:urn:microsoft.com:service:X_MS_MediaReceiverRegistrar:1\r\n"));
}

#[test]
fn byte_ranges() {
    assert_eq!(get_byte_range("bytes=100-"), Ok(100));
    assert_eq!(get_byte_range("  bytes=0- "), Ok(0));
    assert_eq!(get_byte_range("bytes=100-200"), Ok(0));
    assert_eq!(get_byte_range("bytes"), Err(RangeError::TooShort));
    assert_eq!(get_byte_range("bytes=100"), Err(RangeError::NoDash));
    assert_eq!(get_byte_range("bytes=x-"), Err(RangeError::BadStart));
    // the offset 6 counts bytes: three two-byte characters take the six
    assert_eq!(get_byte_range("\u{e9}\u{e9}\u{e9}5-"), Ok(5));
    assert_eq!(get_byte_range("\u{e9}\u{e9}"), Err(RangeError::TooShort));
    assert_eq!(get_byte_range("a\u{e9}\u{e9}\u{e9}-"), Err(RangeError::NotCharBoundary));
}

use upnp::ssdp::{Advertiser, SsdpAction};

#[test]
fn announcement_schedule_sends_each_message_twice_per_cycle() {
    let mut a = Advertiser::new(3);
    let cycle: Vec<SsdpAction> = (0..13).map(|_| a.next()).collect();
    assert_eq!(cycle[0], SsdpAction::Sleep(5000));
    let sends: Vec<usize> = cycle
        .iter()
        .filter_map(|x| match x {
            SsdpAction::Send(i) => Some(*i),
            _ => None,
        })
        .collect();
    assert_eq!(sends, vec![0, 1, 2, 0, 1, 2]);
    assert_eq!(cycle[1], SsdpAction::Sleep(10));
    assert_eq!(cycle[2], SsdpAction::Send(0));
    // the next cycle starts over
    assert_eq!(a.next(), SsdpAction::Sleep(5000));
}

#[test]
fn announcement_schedule_without_messages_only_waits() {
    let mut a = Advertiser::new(0);
    assert_eq!(a.next(), SsdpAction::Sleep(5000));
    assert_eq!(a.next(), SsdpAction::Sleep(5000));
}
