use bstl::menu::{
    apply_menu, merge_fragments, override_category, parse_menu_file, resolve_directory_name,
    MenuEntry, MenuError,
};
use bstl::paths::{xdg_directory_entry_dirs, xdg_menu_dirs};
use bstl::table::TextMap;

#[test]
fn parses_simple_menu_with_directory_lookup() {
    let (menus, outcome) = parse_menu_file(
        r#"<Menu>
                  <Name>Applications</Name>
                  <Menu>
                    <Name>My Scripts</Name>
                    <Directory>my-scripts.directory</Directory>
                    <Include><And><Category>X-MyScripts</Category></And></Include>
                  </Menu>
                </Menu>"#
            .as_bytes(),
    );
    outcome.unwrap();
    assert_eq!(menus.len(), 1);
    assert_eq!(menus[0].directory.as_deref(), Some("my-scripts.directory"));
    let mut out = TextMap::new();
    let contents =
        vec![Some("[Desktop Entry]\nType=Directory\nName=My Scripts\n".to_string())];
    apply_menu(&menus[0], &contents, &mut out);
    assert_eq!(out.get("x-myscripts").map(String::as_str), Some("My Scripts"));
}

#[test]
fn falls_back_to_menu_name_when_directory_missing() {
    let (menus, outcome) = parse_menu_file(
        r#"<Menu><Menu>
                <Name>Custom</Name>
                <Include><Category>X-Foo</Category></Include>
              </Menu></Menu>"#
            .as_bytes(),
    );
    outcome.unwrap();
    let mut out = TextMap::new();
    for menu in &menus {
        apply_menu(menu, &vec![], &mut out);
    }
    assert_eq!(out.get("x-foo").map(String::as_str), Some("Custom"));
}

#[test]
fn override_category_picks_first_matching_token() {
    let mut m = TextMap::new();
    m.insert("x-myscripts".to_string(), "My Scripts".to_string());
    assert_eq!(
        override_category("Utility;X-MyScripts;", &m).as_deref(),
        Some("My Scripts")
    );
    assert_eq!(override_category("Game;Action;", &m), None);
    assert_eq!(override_category("", &m), None);
}

#[test]
fn a_broken_fragment_keeps_what_came_before() {
    let (menus, outcome) = parse_menu_file(
        b"<Menu><Menu><Name>A</Name><Include><Category>x</Category></Include></Menu></Wrong>",
    );
    assert_eq!(outcome, Err(MenuError::Malformed));
    assert_eq!(menus.len(), 1);
    assert_eq!(menus[0].name.as_deref(), Some("A"));
}

#[test]
fn entities_and_other_tags_are_read() {
    let (menus, outcome) = parse_menu_file(
        b"<?xml version=\"1.0\"?><!-- c --><Menu><Name>R &amp; D</Name><DefaultAppDirs/>\
          <Include><Category> One </Category><Category>Two</Category></Include>\
          <Category>Three</Category></Menu>",
    );
    assert_eq!(outcome, Ok(()));
    assert_eq!(menus.len(), 1);
    assert_eq!(menus[0].name.as_deref(), Some("R & D"));
    assert_eq!(menus[0].categories, vec!["One", "Two"]);
}

#[test]
fn the_first_readable_directory_file_names_the_menu() {
    let contents = vec![
        None,
        Some("[Other]\nName=No\n".to_string()),
        Some("[Desktop Entry]\nName[de]=Nein\nName= Yes \nName=Late\n".to_string()),
    ];
    assert_eq!(resolve_directory_name(&contents).as_deref(), Some("Yes"));
    assert_eq!(resolve_directory_name(&vec![None]), None);
}

#[test]
fn menus_are_looked_up_where_they_belong() {
    assert_eq!(
        xdg_menu_dirs(&Some("/cfg".to_string()), &Some("/home/u".to_string())),
        vec!["/cfg/menus/applications-merged"]
    );
    assert_eq!(
        xdg_menu_dirs(&None, &Some("/home/u".to_string())),
        vec!["/home/u/.config/menus/applications-merged"]
    );
    assert!(xdg_menu_dirs(&None, &None).is_empty());
    assert_eq!(
        xdg_directory_entry_dirs(&None, &Some("/home/u".to_string()), &Some("/a::/b/".to_string())),
        vec![
            "/home/u/.local/share/desktop-directories",
            "/a/desktop-directories",
            "/b/desktop-directories",
        ]
    );
}

#[test]
fn categories_lead_to_the_menu_taken_last() {
    let document = b"<Menu>\
        <Menu><Name>One</Name><Include><Category>X-A</Category><Category>X-B</Category>\
        </Include></Menu>\
        <Menu><Name>Two</Name><Include><Category> x-b </Category><Category/></Include></Menu>\
        </Menu>";
    let (menus, outcome) = parse_menu_file(document);
    assert_eq!(outcome, Ok(()));
    let mut out = TextMap::new();
    for menu in &menus {
        apply_menu(menu, &vec![], &mut out);
    }
    assert_eq!(override_category("X-B;X-A;", &out).as_deref(), Some("Two"));
    assert_eq!(override_category("None; x-a ;X-B;", &out).as_deref(), Some("One"));
}

fn fragment(
    document: &str,
    contents: Vec<Option<String>>,
) -> Option<Vec<(MenuEntry, Vec<Option<String>>)>> {
    let (menus, outcome) = parse_menu_file(document.as_bytes());
    outcome.ok()?;
    let with_files = |menu: MenuEntry| (menu, contents.clone());
    Some(menus.into_iter().map(with_files).collect())
}

#[test]
fn later_fragments_win() {
    let one = "<Menu><Name>One</Name><Include><Category>X-A</Category><Category>X-B</Category>\
               </Include></Menu>";
    let two = "<Menu><Name>Two</Name><Directory>d</Directory><Include><Category>X-B</Category>\
               </Include></Menu>";
    let named = vec![None, Some("[Desktop Entry]\nName=Named\n".to_string())];
    let out = merge_fragments(&vec![fragment(one, vec![]), fragment(two, named)]);
    assert_eq!(out.get("x-a").map(String::as_str), Some("One"));
    assert_eq!(out.get("x-b").map(String::as_str), Some("Named"));
    assert_eq!(out.get("x-c"), None);
    assert!(merge_fragments(&vec![]).is_empty());
}

#[test]
fn a_fragment_that_cannot_be_read_leaves_nothing_routed() {
    let good = "<Menu><Name>One</Name><Include><Category>X-A</Category></Include></Menu>";
    let broken = "<Menu><Name>Two</Name><Include><Category>X-B</Category></Include></Wrong>";
    assert!(!merge_fragments(&vec![fragment(good, vec![])]).is_empty());
    assert!(fragment(broken, vec![]).is_none());
    let out = merge_fragments(&vec![fragment(good, vec![]), fragment(broken, vec![])]);
    assert!(out.is_empty());
    assert!(merge_fragments(&vec![None, fragment(good, vec![])]).is_empty());
}
