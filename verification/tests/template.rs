use upnp::template::{check_tag_name, extract_tag_name, scan_tags, Template, TemplateError};

#[test]
fn test_scan_tags() {
    let template = "We are on planet {{planet}} in a galaxy called {{galaxy}}. Our planet orbits a star called {{star}}, also known as {{star_world_name}}.";
    let tags = scan_tags(template).unwrap();

    assert!(tags[0].name == "planet");
    assert!(tags[0].start == 17);
    assert!(tags[0].end == 25);

    assert!(tags[1].name == "galaxy");
    assert!(tags[1].start == 47);
    assert!(tags[1].end == 55);

    assert!(tags[2].name == "star");
    assert!(tags[2].start == 91);
    assert!(tags[2].end == 97);

    assert!(tags[3].name == "star_world_name");
    assert!(tags[3].start == 115);
    assert!(tags[3].end == 132);
}

#[test]
fn test_extract_tags() {
    assert!("name" == extract_tag_name("{{name}}", 0, 6).unwrap());
    assert!("name" == extract_tag_name("{{ name}}", 0, 7).unwrap());
    assert!("name" == extract_tag_name("{{name }}", 0, 7).unwrap());
    assert!("name" == extract_tag_name("{{ name }}", 0, 8).unwrap());
}

#[test]
fn test_var_with_space_extraction_fail() {
    assert_eq!(extract_tag_name("{{ na me }}", 0, 8), Err(TemplateError::SpaceInName));
}

#[test]
fn test_check_tag_name_fail1() {
    assert_eq!(check_tag_name("planet!"), Err(TemplateError::IllegalCharacter));
}

#[test]
fn test_check_tag_name_fail2() {
    assert_eq!(check_tag_name("planet@"), Err(TemplateError::IllegalCharacter));
}

#[test]
fn test_check_tag_name_fail3() {
    assert_eq!(check_tag_name("planet#"), Err(TemplateError::IllegalCharacter));
}

#[test]
fn check_tag_name_accepts_plain_names() {
    assert_eq!(check_tag_name("star_world_name"), Ok(()));
    assert_eq!(check_tag_name(""), Ok(()));
}

#[test]
fn check_tag_name_refuses_every_illegal_character() {
    for c in ["!", "@", "#", "$", "%", "^", "&", "*", "(", ")", "=", "+"] {
        let name = format!("a{}b", c);
        assert_eq!(check_tag_name(&name), Err(TemplateError::IllegalCharacter));
    }
}

#[test]
fn extract_tag_name_refuses_illegal_character() {
    assert_eq!(extract_tag_name("{{ a+b }}", 0, 7), Err(TemplateError::IllegalCharacter));
}

#[test]
fn extract_tag_name_trims_tabs_and_newlines() {
    assert_eq!(extract_tag_name("{{\tname\n}}", 0, 8).unwrap(), "name");
}

#[test]
fn scan_tags_refuses_close_without_open() {
    assert_eq!(scan_tags("a }} b").err(), Some(TemplateError::UnexpectedClose(2)));
}

#[test]
fn scan_tags_refuses_nested_open() {
    assert_eq!(scan_tags("{{ a {{ b }}").err(), Some(TemplateError::UnexpectedOpen(5)));
    assert_eq!(scan_tags("{{{a}}").err(), Some(TemplateError::UnexpectedOpen(1)));
}

#[test]
fn scan_tags_drops_unclosed_tag_and_accepts_empty_name() {
    let tags = scan_tags("x {{a}} y {{b").unwrap();
    assert_eq!(tags.len(), 1);
    assert_eq!(tags[0].name, "a");
    let tags = scan_tags("{{}}").unwrap();
    assert_eq!(tags.len(), 1);
    assert_eq!((tags[0].start, tags[0].end, tags[0].name.as_str()), (0, 2, ""));
}

#[test]
fn scan_tags_single_character_text() {
    assert_eq!(scan_tags("x").unwrap().len(), 0);
}

#[test]
fn render_replaces_set_variables_and_blanks_unset_ones() {
    let mut t = Template::from_content("Hello {{ who }}, from {{where}}!".to_string()).unwrap();
    t.set_var("who", "World");
    assert_eq!(t.render(), "Hello World, from !");
    t.set_var("where", "Earth");
    assert_eq!(t.render(), "Hello World, from Earth!");
    assert_eq!(t.file_to_str(), "Hello {{ who }}, from {{where}}!");
}

#[test]
fn set_var_is_tested_with_has_var() {
    let mut t = Template::from_content("{{a}}".to_string()).unwrap();
    assert!(!t.has_var("a"));
    t.set_var("a", "1");
    assert!(t.has_var("a"));
    assert!(!t.has_var("b"));
    assert_eq!(t.render(), "1");
    assert_eq!(t.name(), "default");
}

#[test]
fn render_without_tags_gives_the_text() {
    let mut t = Template::from_content("no tags here".to_string()).unwrap();
    t.set_var("x", "y");
    assert_eq!(t.render(), "no tags here");
}

#[test]
fn render_repeated_tag() {
    let mut t = Template::from_content("{{n}}+{{n}}={{sum}}".to_string()).unwrap();
    t.set_var("n", "2");
    t.set_var("sum", "4");
    assert_eq!(t.render(), "2+2=4");
}

#[test]
fn from_content_refuses_bad_template() {
    assert!(matches!(
        Template::from_content("oops }}".to_string()),
        Err(TemplateError::UnexpectedClose(5))
    ));
}

#[test]
fn one_tag_per_closing_pair() {
    let text = "a {{x}} b {{ y }} c {{z}}";
    assert_eq!(scan_tags(text).unwrap().len(), text.matches("}}").count());
}
