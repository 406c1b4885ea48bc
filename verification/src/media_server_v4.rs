//! The media server: routing of HTTP requests, SSDP announcements and the
//! `Range` header of video requests.

use vstd::prelude::*;
use vstd::string::StringSliceAdditionalSpecFns;
use crate::content_directory_v4::{ContentDirectory, ContentError, FsEntry, item_path_spec, root_row, scan_rows};
use crate::http::{Method, Request};
use crate::library::RowView;
use crate::text::{chars_of, extend_str, find_char, parse_i64, parse_i64_spec, string_of, sub_chars, trim, trim_chars};

verus! {

/// The XML documents that the server hands out.
#[derive(Debug, Clone, Copy, PartialEq, Eq, Structural)]
pub enum XmlDoc {
    RootDesc,
    ContentDir,
    ConnectionManager,
    MediaReceiverRegistrar,
}

/// The file that holds an XML document.
pub open spec fn xml_doc_path(d: XmlDoc) -> Seq<char> {
    match d {
        XmlDoc::RootDesc => "xml_templates/rootDesc.xml"@,
        XmlDoc::ContentDir => "xml_templates/content_dir.xml"@,
        XmlDoc::ConnectionManager => "xml_templates/connection_manager.xml"@,
        XmlDoc::MediaReceiverRegistrar => "xml_templates/X_MS_media_receiver_registrar.xml"@,
    }
}

impl XmlDoc {
    /// The file that holds the document.
    pub fn path(&self) -> (r: String)
        ensures
            r@ == xml_doc_path(*self),
    {
        match self {
            XmlDoc::RootDesc => String::from_str("xml_templates/rootDesc.xml"),
            XmlDoc::ContentDir => String::from_str("xml_templates/content_dir.xml"),
            XmlDoc::ConnectionManager => String::from_str("xml_templates/connection_manager.xml"),
            XmlDoc::MediaReceiverRegistrar => String::from_str(
                "xml_templates/X_MS_media_receiver_registrar.xml",
            ),
        }
    }
}

/// What the server does with a request.
#[derive(Debug, Clone, Copy, PartialEq, Eq, Structural)]
pub enum Action {
    /// Send the file `icon.png` as a PNG image.
    SendIcon,
    /// Send an XML document.
    SendXmlFile(XmlDoc),
    /// Answer a ContentDirectory `Browse` control request.
    Browse,
    /// Answer `404 Not Found`.
    NotFound,
    /// Send the media item that the URL names.
    SendVideo,
}

/// Where a request with method `m` and URL `url` is routed.
pub open spec fn route_spec(m: Method, url: Seq<char>) -> Action {
    match m {
        Method::GET => if url == "/icon.png"@ {
            Action::SendIcon
        } else if url == "/rootDesc.xml"@ {
            Action::SendXmlFile(XmlDoc::RootDesc)
        } else if url == "/content_dir.xml"@ {
            Action::SendXmlFile(XmlDoc::ContentDir)
        } else if url == "/connection_manager.xml"@ {
            Action::SendXmlFile(XmlDoc::ConnectionManager)
        } else if url == "/X_MS_MediaReceiverRegistrar.xml"@ {
            Action::SendXmlFile(XmlDoc::MediaReceiverRegistrar)
        } else {
            Action::SendVideo
        },
        Method::POST => if url == "/control/content_dir"@ {
            Action::Browse
        } else {
            Action::NotFound
        },
    }
}

/// The SSDP `NOTIFY ... ssdp:alive` message announcing notification type
/// `nt` under unique service name `usn`.
pub open spec fn notify_spec(nt: Seq<char>, usn: Seq<char>) -> Seq<char> {
    "NOTIFY * HTTP/1.1\r\nHOST:239.255.255.250:1900\r\nCACHE-CONTROL:max-age=20\r\nLOCATION:http://192.168.1.3:8900/rootDesc.xml\r\nSERVER: 3.12.1-3-ARCH DLNADOC/1.50 UPnP/1.0 Zap/1.1.1\r\nNT:"@
        + nt + "\r\nUSN:"@ + usn + "\r\nNTS:ssdp:alive\r\n\r\n"@
}

/// The unique id of the device.
pub open spec fn device_uuid() -> Seq<char> {
    "uuid:4d696e69-444c-164e-9d41-e0cb4ebb5911"@
}

/// The notification types that the server announces, in order.
pub open spec fn notification_types() -> Seq<Seq<char>> {
    seq![
        device_uuid(),
        "upnp:rootdevice"@,
        "urn:schemas-upnp-org:device:MediaServer:1"@,
        "urn:schemas-upnp-org:service:ContentDirectory:4"@,
        "urn:schemas-upnp-org:service:ConnectionManager:1"@,
        "urn:microsoft.com:service:X_MS_MediaReceiverRegistrar:1"@,
    ]
}

/// The unique service name of a notification type: the device's id, and
/// for anything but the device itself `::` and the type.
pub open spec fn usn_of(nt: Seq<char>) -> Seq<char> {
    if nt == device_uuid() {
        device_uuid()
    } else {
        device_uuid() + "::"@ + nt
    }
}

fn notify_message(nt: &str, usn: &str) -> (r: String)
    ensures
        r@ == notify_spec(nt@, usn@),
{
    let mut out: Vec<char> = Vec::new();
    extend_str(
        &mut out,
        "NOTIFY * HTTP/1.1\r\nHOST:239.255.255.250:1900\r\nCACHE-CONTROL:max-age=20\r\nLOCATION:http://192.168.1.3:8900/rootDesc.xml\r\nSERVER: 3.12.1-3-ARCH DLNADOC/1.50 UPnP/1.0 Zap/1.1.1\r\nNT:",
    );
    extend_str(&mut out, nt);
    extend_str(&mut out, "\r\nUSN:");
    extend_str(&mut out, usn);
    extend_str(&mut out, "\r\nNTS:ssdp:alive\r\n\r\n");
    string_of(out.as_slice())
}

/// A media server: the address it serves HTTP on and its content directory.
pub struct MediaServer {
    http_addr: String,
    content: ContentDirectory,
}

impl MediaServer {
    /// The HTTP address.
    pub closed spec fn addr(&self) -> Seq<char> {
        self.http_addr@
    }

    /// The rows of the media library.
    pub closed spec fn rows(&self) -> Seq<RowView> {
        self.content.rows()
    }

    /// The library directory.
    pub closed spec fn dir(&self) -> Seq<char> {
        self.content.dir()
    }

    /// A server on `addr` over the library directory `library_dir`, with an
    /// empty library.  Refused when `library_dir` is empty.
    pub fn new(addr: &str, library_dir: &str) -> (r: MediaServer)
        requires
            library_dir@.len() > 0,
        ensures
            r.addr() == addr@,
            r.dir() == library_dir@,
            r.rows() == Seq::<RowView>::empty(),
    {
        let cd = ContentDirectory::new(String::from_str(library_dir));
        MediaServer { http_addr: String::from_str(addr), content: cd }
    }

    /// The HTTP address.
    pub fn http_addr(&self) -> (r: String)
        ensures
            r@ == self.addr(),
    {
        self.http_addr.clone()
    }

    /// Rebuilds the media library from the entries found under the library
    /// directory.
    pub fn update(&mut self, entries: &Vec<FsEntry>) -> (r: Result<(), ContentError>)
        ensures
            final(self).addr() == old(self).addr(),
            final(self).dir() == old(self).dir(),
            match r {
                Ok(()) => !old(self).dir().contains('\0') && 1 + scan_rows(entries@, 1, 2).len()
                    < i64::MAX && final(self).rows() == seq![root_row(old(self).dir())]
                    + scan_rows(entries@, 1, 2),
                Err(e) => (e == ContentError::BadLibraryPath && old(self).dir().contains('\0'))
                    || (e == ContentError::Library(crate::library::LibraryError::Full)
                    && !old(self).dir().contains('\0') && 1 + scan_rows(entries@, 1, 2).len()
                    >= i64::MAX),
            },
    {
        self.content.update_db(entries)
    }

    /// Where a request is routed: the icon, the device and service
    /// descriptions, ContentDirectory control, video for any other GET,
    /// and `404` for any other POST.
    pub fn dispatch(&self, req: &Request) -> (r: Action)
        ensures
            r == route_spec(req.method, req.url@),
    {
        let url = &req.url;
        match req.method {
            Method::GET => {
                if *url == String::from_str("/icon.png") {
                    Action::SendIcon
                } else if *url == String::from_str("/rootDesc.xml") {
                    Action::SendXmlFile(XmlDoc::RootDesc)
                } else if *url == String::from_str("/content_dir.xml") {
                    Action::SendXmlFile(XmlDoc::ContentDir)
                } else if *url == String::from_str("/connection_manager.xml") {
                    Action::SendXmlFile(XmlDoc::ConnectionManager)
                } else if *url == String::from_str("/X_MS_MediaReceiverRegistrar.xml") {
                    Action::SendXmlFile(XmlDoc::MediaReceiverRegistrar)
                } else {
                    Action::SendVideo
                }
            },
            Method::POST => {
                if *url == String::from_str("/control/content_dir") {
                    Action::Browse
                } else {
                    Action::NotFound
                }
            },
            }
    }

    /// The path of the media item that a video request's URL asks for;
    /// `None` is answered with `404 Not Found`.
    pub fn video_path(&self, url: &str) -> (r: Option<String>)
        ensures
            match r {
                Some(p) => item_path_spec(self.rows(), url@, url.spec_bytes().len() as int) == Some(
                    p@,
                ),
                None => item_path_spec(self.rows(), url@, url.spec_bytes().len() as int) is None,
            },
    {
        self.content.get_item_path(url)
    }

    /// The complete HTTP response to a ContentDirectory `Browse` request.
    pub fn browse(&self, soap: &crate::soap::XmlElement, template: &str) -> (r: Result<
        Vec<u8>,
        ContentError,
    >)
        requires
            template@.len() > 0,
            vstd::utf8::is_ascii_chars(template@),
        ensures
            match r {
                Ok(bytes) => exists|body: Seq<char>|
                    crate::content_directory_v4::browse_content_spec(
                        self.rows(),
                        *soap,
                        template@,
                    ) == Ok::<Seq<char>, ContentError>(body) && bytes@
                        == crate::content_directory_v4::xml_response(body),
                Err(e) => crate::content_directory_v4::browse_content_spec(
                    self.rows(),
                    *soap,
                    template@,
                ) == Err::<Seq<char>, ContentError>(e),
            },
    {
        self.content.browse(soap, template)
    }

    /// The complete HTTP response to a ContentDirectory `Browse` request
    /// whose body is `body`.
    pub fn browse_request(&self, body: Option<&str>, template: &str) -> (r: Result<
        Vec<u8>,
        ContentError,
    >)
        requires
            template@.len() > 0,
            vstd::utf8::is_ascii_chars(template@),
        ensures
            match r {
                Ok(bytes) => exists|d: Seq<char>|
                    crate::content_directory_v4::browse_request_spec(
                        self.rows(),
                        crate::content_directory_v4::opt_str_view(body),
                        template@,
                    ) == Ok::<Seq<char>, ContentError>(d) && bytes@
                        == crate::content_directory_v4::xml_response(d),
                Err(e) => crate::content_directory_v4::browse_request_spec(
                    self.rows(),
                    crate::content_directory_v4::opt_str_view(body),
                    template@,
                ) == Err::<Seq<char>, ContentError>(e),
            },
    {
        self.content.browse_request(body, template)
    }

    /// The SSDP `ssdp:alive` messages that announce the device and its
    /// services, one per notification type.
    pub fn get_messages(&self) -> (r: Vec<String>)
        ensures
            r@.len() == notification_types().len(),
            forall|k: int|
                0 <= k < r@.len() ==> (#[trigger] r@[k])@ == notify_spec(
                    notification_types()[k],
                    usn_of(notification_types()[k]),
                ),
    {
        let mut out: Vec<String> = Vec::new();
        let uuid = "uuid:4d696e69-444c-164e-9d41-e0cb4ebb5911";
        out.push(notify_message(uuid, uuid));
        out.push(
            notify_message(
                "upnp:rootdevice",
                "uuid:4d696e69-444c-164e-9d41-e0cb4ebb5911::upnp:rootdevice",
            ),
        );
        out.push(
            notify_message(
                "urn:schemas-upnp-org:device:MediaServer:1",
                "uuid:4d696e69-444c-164e-9d41-e0cb4ebb5911::urn:schemas-upnp-org:device:MediaServer:1",
            ),
        );
        out.push(
            notify_message(
                "urn:schemas-upnp-org:service:ContentDirectory:4",
                "uuid:4d696e69-444c-164e-9d41-e0cb4ebb5911::urn:schemas-upnp-org:service:ContentDirectory:4",
            ),
        );
        out.push(
            notify_message(
                "urn:schemas-upnp-org:service:ConnectionManager:1",
                "uuid:4d696e69-444c-164e-9d41-e0cb4ebb5911::urn:schemas-upnp-org:service:ConnectionManager:1",
            ),
        );
        out.push(
            notify_message(
                "urn:microsoft.com:service:X_MS_MediaReceiverRegistrar:1",
                "uuid:4d696e69-444c-164e-9d41-e0cb4ebb5911::urn:microsoft.com:service:X_MS_MediaReceiverRegistrar:1",
            ),
        );
        proof {
            reveal_strlit("uuid:4d696e69-444c-164e-9d41-e0cb4ebb5911");
            reveal_strlit("::");
            reveal_strlit("upnp:rootdevice");
            reveal_strlit("uuid:4d696e69-444c-164e-9d41-e0cb4ebb5911::upnp:rootdevice");
            reveal_strlit("urn:schemas-upnp-org:device:MediaServer:1");
            reveal_strlit(
                "uuid:4d696e69-444c-164e-9d41-e0cb4ebb5911::urn:schemas-upnp-org:device:MediaServer:1",
            );
            reveal_strlit("urn:schemas-upnp-org:service:ContentDirectory:4");
            reveal_strlit(
                "uuid:4d696e69-444c-164e-9d41-e0cb4ebb5911::urn:schemas-upnp-org:service:ContentDirectory:4",
            );
            reveal_strlit("urn:schemas-upnp-org:service:ConnectionManager:1");
            reveal_strlit(
                "uuid:4d696e69-444c-164e-9d41-e0cb4ebb5911::urn:schemas-upnp-org:service:ConnectionManager:1",
            );
            reveal_strlit("urn:microsoft.com:service:X_MS_MediaReceiverRegistrar:1");
            reveal_strlit(
                "uuid:4d696e69-444c-164e-9d41-e0cb4ebb5911::urn:microsoft.com:service:X_MS_MediaReceiverRegistrar:1",
            );
            let nts = notification_types();
            assert(usn_of(nts[0]) == nts[0]);
            assert(nts[1][1] != device_uuid()[1]);
            assert(usn_of(nts[1]) =~= "uuid:4d696e69-444c-164e-9d41-e0cb4ebb5911::upnp:rootdevice"@);
            assert(nts[2][1] != device_uuid()[1]);
            assert(usn_of(nts[2]) =~= "uuid:4d696e69-444c-164e-9d41-e0cb4ebb5911::urn:schemas-upnp-org:device:MediaServer:1"@);
            assert(nts[3][1] != device_uuid()[1]);
            assert(usn_of(nts[3]) =~= "uuid:4d696e69-444c-164e-9d41-e0cb4ebb5911::urn:schemas-upnp-org:service:ContentDirectory:4"@);
            assert(nts[4][1] != device_uuid()[1]);
            assert(usn_of(nts[4]) =~= "uuid:4d696e69-444c-164e-9d41-e0cb4ebb5911::urn:schemas-upnp-org:service:ConnectionManager:1"@);
            assert(nts[5][1] != device_uuid()[1]);
            assert(usn_of(nts[5]) =~= "uuid:4d696e69-444c-164e-9d41-e0cb4ebb5911::urn:microsoft.com:service:X_MS_MediaReceiverRegistrar:1"@);
        }
        out
    }
}

} // verus!

verus! {

/// Why a `Range` header was refused.
#[derive(Debug, Clone, Copy, PartialEq, Eq, Structural)]
pub enum RangeError {
    /// The trimmed header takes fewer than six bytes, the length of
    /// `bytes=`.
    TooShort,
    /// The trimmed header's sixth byte ends inside a character.
    NotCharBoundary,
    /// The header has no `-` after its first six bytes.
    NoDash,
    /// The start of an open range is not an integer.
    BadStart,
}

/// The start offset that a `Range: bytes=<start>-[<end>]` header asks for:
/// the text after the first six bytes of the trimmed header is read up to
/// its first `-`.  Only the open form `bytes=<start>-` is honoured; a range
/// with an end starts at 0.
pub open spec fn byte_range_spec(r: Seq<char>) -> Result<i64, RangeError> {
    let b = vstd::utf8::encode_utf8(trim(r));
    if b.len() < 6 {
        Err(RangeError::TooShort)
    } else if !vstd::utf8::is_char_boundary(b, 6) {
        Err(RangeError::NotCharBoundary)
    } else {
        let s = vstd::utf8::decode_utf8(b.subrange(6, b.len() as int));
        match crate::text::first_index_of(s, '-') {
            None => Err(RangeError::NoDash),
            Some(d) => if s.len() > d + 1 {
                Ok(0)
            } else {
                match parse_i64_spec(s.take(d)) {
                    Some(v) => Ok(v),
                    None => Err(RangeError::BadStart),
                }
            },
        }
    }
}

/// The start offset that a `Range` header value asks for (see
/// `byte_range_spec`).
pub fn get_byte_range(rstr: &str) -> (r: Result<i64, RangeError>)
    ensures
        match r {
            Ok(v) => byte_range_spec(rstr@) == Ok::<i64, RangeError>(v),
            Err(e) => byte_range_spec(rstr@) == Err::<i64, RangeError>(e),
        },
{
    let cs = chars_of(rstr);
    let tc = trim_chars(cs.as_slice());
    let t = string_of(tc.as_slice());
    let ts = t.as_str();
    assert(ts@ == trim(rstr@));
    if ts.as_bytes().len() < 6 {
        return Err(RangeError::TooShort);
    }
    if !ts.is_char_boundary(6) {
        return Err(RangeError::NotCharBoundary);
    }
    let (_, rest) = ts.split_at(6);
    proof {
        vstd::utf8::encode_utf8_decode_utf8(rest@);
        assert(rest@ == vstd::utf8::decode_utf8(
            ts.spec_bytes().subrange(6, ts.spec_bytes().len() as int),
        ));
    }
    let s = chars_of(rest);
    let sl = s.len();
    let d = match find_char(s.as_slice(), '-') {
        Some(d) => d,
        None => return Err(RangeError::NoDash),
    };
    if sl > d + 1 {
        return Ok(0);
    }
    let start = sub_chars(s.as_slice(), 0, d);
    assert(start@ == s@.take(d as int));
    match parse_i64(start.as_slice()) {
        Some(v) => Ok(v),
        None => Err(RangeError::BadStart),
    }
}

} // verus!

verus! {

/// The server announces six different notification types: the device
/// itself, the root device, the MediaServer device type and the
/// ContentDirectory, ConnectionManager and X_MS_MediaReceiverRegistrar
/// services; and each type has its own unique service name.
pub proof fn lemma_announced_types()
    ensures
        notification_types().len() == 6,
        forall|i: int, j: int|
            0 <= i < j < 6 ==> #[trigger] notification_types()[i] != #[trigger] notification_types()[j],
        forall|i: int, j: int|
            0 <= i < j < 6 ==> usn_of(#[trigger] notification_types()[i]) != usn_of(
                #[trigger] notification_types()[j],
            ),
        notification_types().contains(device_uuid()),
        notification_types().contains("upnp:rootdevice"@),
        notification_types().contains("urn:schemas-upnp-org:device:MediaServer:1"@),
        notification_types().contains("urn:schemas-upnp-org:service:ContentDirectory:4"@),
        notification_types().contains("urn:schemas-upnp-org:service:ConnectionManager:1"@),
        notification_types().contains(
            "urn:microsoft.com:service:X_MS_MediaReceiverRegistrar:1"@,
        ),
{
    reveal_strlit("uuid:4d696e69-444c-164e-9d41-e0cb4ebb5911");
    reveal_strlit("::");
    reveal_strlit("upnp:rootdevice");
    reveal_strlit("urn:schemas-upnp-org:device:MediaServer:1");
    reveal_strlit("urn:schemas-upnp-org:service:ContentDirectory:4");
    reveal_strlit("urn:schemas-upnp-org:service:ConnectionManager:1");
    reveal_strlit("urn:microsoft.com:service:X_MS_MediaReceiverRegistrar:1");
    let n = notification_types();
    assert(n[0].len() == 41 && n[1].len() == 15 && n[2].len() == 41);
    assert(n[3].len() == 47 && n[4].len() == 48 && n[5].len() == 55);
    assert(n[0][1] != n[2][1]);
    let u = device_uuid();
    assert(usn_of(n[0]) == u);
    assert forall|k: int| 1 <= k < 6 implies usn_of(#[trigger] n[k]) == u + "::"@ + n[k] by {
        if n[k] == u {
            assert(n[k].len() == u.len());
            assert(n[k][1] == u[1]);
        }
    }
    assert forall|i: int, j: int| 0 <= i < j < 6 implies usn_of(#[trigger] n[i]) != usn_of(
        #[trigger] n[j],
    ) by {
        if usn_of(n[i]) == usn_of(n[j]) {
            if i == 0 {
                assert(usn_of(n[j]).len() > u.len());
            } else {
                let ui = u + "::"@ + n[i];
                let uj = u + "::"@ + n[j];
                assert(ui.len() == uj.len());
                assert(n[i].len() == n[j].len());
                assert(n[i] =~= ui.skip(43));
                assert(n[j] =~= uj.skip(43));
            }
        }
    }
    assert(n[0] == device_uuid());
    assert(n[1] == "upnp:rootdevice"@);
    assert(n[3] == "urn:schemas-upnp-org:service:ContentDirectory:4"@);
}

} // verus!
