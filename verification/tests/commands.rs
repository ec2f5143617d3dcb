use std::time::{SystemTime, UNIX_EPOCH};
use tinymark::commands::{
    add_bookmark, add_bookmark_at, copy_strings, edit_bookmark, new_bookmark, new_folder, selected_bookmark,
    selection_items, EditStep,
};
use tinymark::database::{get_all, open_database, StoreError};
use tinymark::forms::{link_is_canonical, str_eq, timestamp_is_canonical};
use tinymark::structures::{Bookmark, Config, Container, ContainerTypes, Keyspace};

fn fresh_path(name: &str) -> String {
    let nanos = SystemTime::now().duration_since(UNIX_EPOCH).unwrap().as_nanos();
    format!("/tmp/tinymark-tests/{}-{}", name, nanos)
}

fn sample(link: &str) -> Bookmark {
    Bookmark {
        container: None,
        created_at: "2022-03-04T05:06:07Z".to_string(),
        description: Some("about".to_string()),
        label: "Label".to_string(),
        link: link.to_string(),
        tags: vec!["one".to_string(), "two".to_string()],
    }
}

#[test]
fn add_stores_a_bookmark_with_the_given_values() {
    let mut store =
        open_database(Some(fresh_path("add")), None, Keyspace::Bookmarks).unwrap();
    let tags = vec!["ref".to_string()];
    let added = add_bookmark(&mut store, "https://example.com", "Example", &None, &tags).unwrap();
    assert_eq!(added.link, "https://example.com/");
    assert_eq!(added.label, "Example");
    assert_eq!(added.description, None);
    assert_eq!(added.tags, tags);
    assert_eq!(added.container, None);
    assert!(timestamp_is_canonical(&added.created_at));
    assert_eq!(get_all(&store).unwrap(), vec![added]);
}

#[test]
fn add_refuses_what_is_no_url() {
    let mut store =
        open_database(Some(fresh_path("add-bad")), None, Keyspace::Bookmarks).unwrap();
    let outcome = add_bookmark(&mut store, "no url", "x", &None, &Vec::new());
    assert!(matches!(outcome, Err(StoreError::Serialization)));
    assert!(get_all(&store).unwrap().is_empty());
}

#[test]
fn new_bookmark_parses_the_link_and_copies_the_rest() {
    let description = Some("d".to_string());
    let tags = vec!["a".to_string(), "b".to_string()];
    let made = new_bookmark(
        "HTTP://Example.com:80/a b",
        "n",
        &description,
        &tags,
        "2022-03-04T05:06:07Z".to_string(),
    );
    assert_eq!(
        made,
        Bookmark {
            container: None,
            created_at: "2022-03-04T05:06:07Z".to_string(),
            description,
            label: "n".to_string(),
            link: "http://example.com/a%20b".to_string(),
            tags,
        }
    );
}

#[test]
fn new_bookmark_keeps_a_text_that_is_no_url() {
    let made = new_bookmark("::", "n", &None, &Vec::new(), "t".to_string());
    assert_eq!(made.link, "::");
    assert_eq!(made.created_at, "t");
}

#[test]
fn canonical_links_are_their_own_serialization() {
    assert!(link_is_canonical("https://example.com/"));
    assert!(link_is_canonical("a:b"));
    assert!(!link_is_canonical("https://example.com"));
    assert!(!link_is_canonical("example.com"));
    assert!(!link_is_canonical(""));
}

#[test]
fn canonical_timestamps_are_utc_with_z() {
    assert!(timestamp_is_canonical("2022-03-04T05:06:07Z"));
    assert!(timestamp_is_canonical("2022-03-04T05:06:07.250Z"));
    assert!(timestamp_is_canonical("2022-03-04T05:06:07.000001Z"));
    assert!(!timestamp_is_canonical("2022-03-04T05:06:07.25Z"));
    assert!(!timestamp_is_canonical("2022-03-04T05:06:07+00:00"));
    assert!(!timestamp_is_canonical("2022-03-04 05:06:07Z"));
    assert!(!timestamp_is_canonical("2022-03-04"));
}

#[test]
fn strings_compare_by_characters() {
    assert!(str_eq("", ""));
    assert!(str_eq("caf\u{e9}", "caf\u{e9}"));
    assert!(!str_eq("a", "b"));
    assert!(!str_eq("a", "ab"));
    assert!(!str_eq("ab", "a"));
}

#[test]
fn copy_of_strings_is_equal() {
    let items = vec!["x".to_string(), String::new(), "y".to_string()];
    assert_eq!(copy_strings(&items), items);
    assert!(copy_strings(&Vec::new()).is_empty());
}

#[test]
fn folder_has_label_no_parent_and_a_fresh_id() {
    let a = new_folder("work");
    let b = new_folder("work");
    assert_eq!(a.label, "work");
    assert_eq!(a.container, None);
    assert_eq!(a.container_type, ContainerTypes::Folder);
    assert_ne!(a.id, b.id);
}

#[test]
fn container_new_keeps_its_arguments() {
    let c = Container::new(Some([7u8; 16]), ContainerTypes::Group, [9u8; 16], "g".to_string());
    assert_eq!(c.container, Some([7u8; 16]));
    assert_eq!(c.container_type, ContainerTypes::Group);
    assert_eq!(c.id, [9u8; 16]);
    assert_eq!(c.label, "g");
}

#[test]
fn config_defaults_to_plain_output_and_default_location() {
    let cfg = Config::default();
    assert!(!cfg.tui);
    assert!(!cfg.json);
    assert_eq!(cfg.storage_location, None);
}

#[test]
fn edit_is_refused_in_json_mode() {
    assert!(matches!(edit_bookmark(true, &None), EditStep::Unsupported));
    assert!(matches!(
        edit_bookmark(true, &Some("https://example.com/".to_string())),
        EditStep::Unsupported
    ));
}

#[test]
fn edit_selects_the_given_link_or_asks() {
    match edit_bookmark(false, &Some("https://example.com/".to_string())) {
        EditStep::Selected(link) => assert_eq!(link, "https://example.com/"),
        _ => panic!("the given link was expected"),
    }
    assert!(matches!(edit_bookmark(false, &None), EditStep::Choose));
}

#[test]
fn selection_offers_the_links_in_order() {
    let bookmarks = vec![sample("b:1"), sample("a:2")];
    assert_eq!(selection_items(&bookmarks), vec!["b:1".to_string(), "a:2".to_string()]);
    assert!(selection_items(&Vec::new()).is_empty());
}

#[test]
fn selection_picks_by_index() {
    let bookmarks = vec![sample("b:1"), sample("a:2")];
    assert_eq!(selected_bookmark(&bookmarks, Some(1)), Some(&bookmarks[1]));
    assert_eq!(selected_bookmark(&bookmarks, Some(0)), Some(&bookmarks[0]));
    assert_eq!(selected_bookmark(&bookmarks, Some(2)), None);
    assert_eq!(selected_bookmark(&bookmarks, None), None);
}

#[test]
fn bookmark_text_shows_every_field() {
    let b = sample("https://example.com/");
    assert_eq!(
        b.to_text("Fri, 04 Mar 2022 06:06:07 +0100"),
        "Bookmark: Label\nhttps://example.com/\nabout\nTags: [one,two,]\nCreated at: Fri, 04 Mar 2022 06:06:07 +0100\n"
    );
}

#[test]
fn bookmark_text_without_description_or_tags() {
    let mut b = sample("a:b");
    b.description = None;
    b.tags = vec![];
    assert_eq!(b.to_text("now"), "Bookmark: Label\na:b\nTags: []\nCreated at: now\n");
}

#[test]
fn add_at_stores_the_record_of_the_given_values() {
    let mut store =
        open_database(Some(fresh_path("add-at")), None, Keyspace::Bookmarks).unwrap();
    let description = Some("d".to_string());
    let tags = vec!["a".to_string(), "b".to_string()];
    let added = add_bookmark_at(
        &mut store,
        "https://Example.com",
        "Example",
        &description,
        &tags,
        "2022-03-04T05:06:07.250Z".to_string(),
    )
    .unwrap();
    let expected = Bookmark {
        container: None,
        created_at: "2022-03-04T05:06:07.250Z".to_string(),
        description,
        label: "Example".to_string(),
        link: "https://example.com/".to_string(),
        tags,
    };
    assert_eq!(added, expected);
    assert_eq!(get_all(&store).unwrap(), vec![expected]);
}

#[test]
fn add_at_refuses_a_time_that_is_not_canonical() {
    let mut store =
        open_database(Some(fresh_path("add-at-time")), None, Keyspace::Bookmarks).unwrap();
    let kept = add_bookmark_at(
        &mut store,
        "https://kept.example/",
        "kept",
        &None,
        &Vec::new(),
        "2022-03-04T05:06:07Z".to_string(),
    )
    .unwrap();
    for time in ["", "now", "2022-03-04T05:06:07+00:00", "2022-03-04T06:06:07+01:00"] {
        let outcome = add_bookmark_at(
            &mut store,
            "https://example.com/",
            "x",
            &None,
            &Vec::new(),
            time.to_string(),
        );
        assert!(matches!(outcome, Err(StoreError::Serialization)), "time {:?}", time);
    }
    assert_eq!(get_all(&store).unwrap(), vec![kept]);
}

#[test]
fn add_at_refuses_what_is_no_url() {
    let mut store =
        open_database(Some(fresh_path("add-at-url")), None, Keyspace::Bookmarks).unwrap();
    for url in ["", "no url", "example.com", "://x"] {
        let outcome = add_bookmark_at(
            &mut store,
            url,
            "x",
            &None,
            &Vec::new(),
            "2022-03-04T05:06:07Z".to_string(),
        );
        assert!(matches!(outcome, Err(StoreError::Serialization)), "url {:?}", url);
    }
    assert!(get_all(&store).unwrap().is_empty());
}

#[test]
fn add_at_overwrites_under_the_parsed_link() {
    let mut store =
        open_database(Some(fresh_path("add-at-twice")), None, Keyspace::Bookmarks).unwrap();
    let time = "2022-03-04T05:06:07Z";
    add_bookmark_at(&mut store, "https://example.com", "one", &None, &Vec::new(), time.to_string())
        .unwrap();
    let second = add_bookmark_at(
        &mut store,
        "HTTPS://EXAMPLE.COM/",
        "two",
        &None,
        &Vec::new(),
        time.to_string(),
    )
    .unwrap();
    assert_eq!(get_all(&store).unwrap(), vec![second]);
}
