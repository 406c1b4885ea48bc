use upnp::path::{get_file_name, get_name_extension, get_name_stem, normalize_path, replace_extension};

fn chars(s: &str) -> Vec<char> {
    s.chars().collect()
}

fn norm(s: &str) -> String {
    normalize_path(&chars(s)).into_iter().collect()
}

#[test]
fn normal_form_drops_empty_and_dot_components() {
    assert_eq!(norm("/media//Movies/./a.avi"), "/media/Movies/a.avi");
    assert_eq!(norm("/media/Movies/"), "/media/Movies");
    assert_eq!(norm("a/./b//c/"), "a/b/c");
    assert_eq!(norm(""), ".");
    assert_eq!(norm("."), ".");
    assert_eq!(norm("/"), "/");
    assert_eq!(norm("//"), "/");
}

#[test]
fn normal_form_resolves_parent_components() {
    assert_eq!(norm("/a/b/../c"), "/a/c");
    assert_eq!(norm("/.."), "/");
    assert_eq!(norm("/../a"), "/a");
    assert_eq!(norm("a/.."), ".");
    assert_eq!(norm("../x/../.."), "../..");
    assert_eq!(norm("../a"), "../a");
}

#[test]
fn normal_form_is_stable() {
    for p in ["/a/b/../c/", "x//y/.", "../../z", "", "/", "a/..b/c.d"] {
        let once = norm(p);
        assert_eq!(norm(&once), once);
    }
}

#[test]
fn file_names_stems_and_extensions() {
    let name = get_file_name(&chars("/media/a.b.mp4")).unwrap();
    assert_eq!(name, chars("a.b.mp4"));
    assert_eq!(get_name_stem(&name), chars("a.b"));
    assert_eq!(get_name_extension(&name), Some(chars("mp4")));
    assert_eq!(get_name_extension(&chars(".bashrc")), None);
    assert_eq!(get_name_stem(&chars(".bashrc")), chars(".bashrc"));
    assert_eq!(get_name_extension(&chars("5.")), Some(chars("")));
    assert_eq!(get_file_name(&chars("/media/")), None);
    assert_eq!(get_file_name(&chars("/media/..")), None);
    assert_eq!(get_file_name(&chars("a")), Some(chars("a")));
}

#[test]
fn extensions_are_replaced_added_or_removed() {
    assert_eq!(replace_extension(&chars("/m/a.avi"), &chars("srt")), chars("/m/a.srt"));
    assert_eq!(replace_extension(&chars("/m/README"), &chars("txt")), chars("/m/README.txt"));
    assert_eq!(replace_extension(&chars("/m/a.avi"), &chars("")), chars("/m/a"));
    assert_eq!(replace_extension(&chars("/m/"), &chars("srt")), chars("/m/"));
}
