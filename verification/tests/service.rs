use upnp::service::content_directory_v4::ContentDirectory;

#[test]
fn fixed_service_answers() {
    assert_eq!(ContentDirectory::get_search_capabilities(), "");
    assert_eq!(ContentDirectory::get_sort_capabilities(), "");
    assert_eq!(ContentDirectory::get_system_update_id(), "");
    assert_eq!(ContentDirectory::get_service_reset_token(), "");
    let f = ContentDirectory::get_feature_list();
    assert!(f.starts_with("<?xml version=\"1.0\" encoding=\"UTF-8\"?>"));
    assert!(f.ends_with("</Features>"));
    let b = ContentDirectory::browse();
    assert!(b.contains("<NumberReturned>5</NumberReturned>"));
    assert!(b.ends_with("</s:Envelope>"));
}
