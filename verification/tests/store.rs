use std::time::{Duration, Instant, SystemTime, UNIX_EPOCH};
use tinymark::database::{
    default_path, get_all, insert_entry, insert_multiple, keyspace_name, open_database,
    remove_entry, resolve_path, Store, StoreError,
};
use tinymark::structures::{Bookmark, Keyspace};
use tinymark::wire::{decode_bookmark, encode_bookmark};

fn fresh_path(name: &str) -> String {
    let nanos = SystemTime::now().duration_since(UNIX_EPOCH).unwrap().as_nanos();
    format!("/tmp/tinymark-tests/{}-{}", name, nanos)
}

fn open(path: &str, keyspace: Keyspace) -> Store {
    open_database(Some(path.to_string()), None, keyspace).unwrap()
}

// The engine gives up its lock on the files a moment after the last handle
// is dropped, so a second open of one path may have to wait for it.
fn reopen(path: &str, keyspace: Keyspace) -> Store {
    let started = Instant::now();
    loop {
        match open_database(Some(path.to_string()), None, keyspace) {
            Ok(store) => return store,
            Err(e) => {
                if started.elapsed() > Duration::from_secs(10) {
                    panic!("the store could not be opened again: {:?}", e);
                }
            }
        }
    }
}

fn reopen_raw(path: &str) -> sled::Db {
    let started = Instant::now();
    loop {
        match sled::open(path) {
            Ok(db) => return db,
            Err(e) => {
                if started.elapsed() > Duration::from_secs(10) {
                    panic!("the database could not be opened again: {:?}", e);
                }
            }
        }
    }
}

fn bookmark(link: &str, label: &str) -> Bookmark {
    Bookmark {
        container: None,
        created_at: "2022-03-04T05:06:07Z".to_string(),
        description: None,
        label: label.to_string(),
        link: link.to_string(),
        tags: vec![],
    }
}

fn to_json(b: &Bookmark) -> serde_json::Value {
    let mut fields = serde_json::Map::new();
    fields.insert(
        "container".to_string(),
        match b.container {
            Some(id) => serde_json::Value::String(uuid::Uuid::from_bytes(id).to_string()),
            None => serde_json::Value::Null,
        },
    );
    fields.insert("created_at".to_string(), serde_json::Value::String(b.created_at.clone()));
    fields.insert(
        "description".to_string(),
        match &b.description {
            Some(text) => serde_json::Value::String(text.clone()),
            None => serde_json::Value::Null,
        },
    );
    fields.insert("label".to_string(), serde_json::Value::String(b.label.clone()));
    fields.insert("link".to_string(), serde_json::Value::String(b.link.clone()));
    fields.insert(
        "tags".to_string(),
        serde_json::Value::Array(
            b.tags.iter().map(|t| serde_json::Value::String(t.clone())).collect(),
        ),
    );
    serde_json::Value::Object(fields)
}

fn from_json(v: &serde_json::Value) -> Bookmark {
    Bookmark {
        container: v["container"]
            .as_str()
            .map(|s| uuid::Uuid::parse_str(s).unwrap().into_bytes()),
        created_at: v["created_at"].as_str().unwrap().to_string(),
        description: v["description"].as_str().map(|s| s.to_string()),
        label: v["label"].as_str().unwrap().to_string(),
        link: v["link"].as_str().unwrap().to_string(),
        tags: v["tags"]
            .as_array()
            .unwrap()
            .iter()
            .map(|t| t.as_str().unwrap().to_string())
            .collect(),
    }
}

#[test]
fn scan_of_a_fresh_keyspace_is_empty() {
    let store = open(&fresh_path("fresh"), Keyspace::Bookmarks);
    assert_eq!(get_all(&store).unwrap(), Vec::<Bookmark>::new());
}

#[test]
fn insert_then_scan_returns_the_record() {
    let mut store = open(&fresh_path("single"), Keyspace::Bookmarks);
    let b = bookmark("https://example.com/", "Example");
    insert_entry(&mut store, &b).unwrap();
    assert_eq!(get_all(&store).unwrap(), vec![b]);
}

#[test]
fn second_insert_under_one_link_overwrites() {
    let mut store = open(&fresh_path("overwrite"), Keyspace::Bookmarks);
    let first = bookmark("https://example.com/", "first");
    let mut second = bookmark("https://example.com/", "second");
    second.tags = vec!["x".to_string()];
    second.description = Some("later".to_string());
    insert_entry(&mut store, &first).unwrap();
    insert_entry(&mut store, &second).unwrap();
    assert_eq!(get_all(&store).unwrap(), vec![second]);
}

#[test]
fn scan_is_by_ascending_key_not_by_insertion() {
    let mut store = open(&fresh_path("order"), Keyspace::Bookmarks);
    let a = bookmark("k:A", "a");
    let b = bookmark("k:B", "b");
    let c = bookmark("k:C", "c");
    insert_entry(&mut store, &a).unwrap();
    insert_entry(&mut store, &c).unwrap();
    insert_entry(&mut store, &b).unwrap();
    let found = get_all(&store).unwrap();
    assert_eq!(found, vec![a, b, c]);
}

#[test]
fn scan_orders_keys_byte_by_byte() {
    let mut store = open(&fresh_path("bytes"), Keyspace::Bookmarks);
    let links = ["x:b", "x:", "x:ab", "x:a", "x:B", "w:zzzz"];
    for link in links.iter() {
        insert_entry(&mut store, &bookmark(link, link)).unwrap();
    }
    let found = get_all(&store).unwrap();
    let keys: Vec<&str> = found.iter().map(|r| r.link.as_str()).collect();
    assert_eq!(keys, vec!["w:zzzz", "x:", "x:B", "x:a", "x:ab", "x:b"]);
}

#[test]
fn batch_with_a_record_that_does_not_encode_writes_nothing() {
    let mut store = open(&fresh_path("atomic"), Keyspace::Bookmarks);
    let kept = bookmark("https://kept.example/", "kept");
    insert_entry(&mut store, &kept).unwrap();
    let batch = vec![
        bookmark("https://one.example/", "one"),
        bookmark("not a url", "broken"),
        bookmark("https://two.example/", "two"),
    ];
    let outcome = insert_multiple(&mut store, &batch);
    assert!(matches!(outcome, Err(StoreError::Serialization)));
    assert_eq!(get_all(&store).unwrap(), vec![kept]);
}

#[test]
fn batch_with_a_broken_record_at_either_end_writes_nothing() {
    let mut store = open(&fresh_path("atomic-ends"), Keyspace::Bookmarks);
    let first_broken =
        vec![bookmark("nope", "broken"), bookmark("https://one.example/", "one")];
    assert!(matches!(insert_multiple(&mut store, &first_broken), Err(StoreError::Serialization)));
    let mut stale = bookmark("https://two.example/", "two");
    stale.created_at = "soon".to_string();
    let last_broken = vec![bookmark("https://one.example/", "one"), stale];
    assert!(matches!(insert_multiple(&mut store, &last_broken), Err(StoreError::Serialization)));
    assert!(get_all(&store).unwrap().is_empty());
}

#[test]
fn batch_inserts_all_and_later_duplicates_win() {
    let mut store = open(&fresh_path("batch"), Keyspace::Bookmarks);
    insert_entry(&mut store, &bookmark("https://b.example/", "old b")).unwrap();
    let batch = vec![
        bookmark("https://c.example/", "c"),
        bookmark("https://a.example/", "a first"),
        bookmark("https://b.example/", "new b"),
        bookmark("https://a.example/", "a second"),
    ];
    insert_multiple(&mut store, &batch).unwrap();
    let found = get_all(&store).unwrap();
    let labels: Vec<&str> = found.iter().map(|r| r.label.as_str()).collect();
    assert_eq!(labels, vec!["a second", "new b", "c"]);
}

#[test]
fn empty_batch_changes_nothing() {
    let mut store = open(&fresh_path("empty-batch"), Keyspace::Bookmarks);
    let b = bookmark("https://example.com/", "Example");
    insert_entry(&mut store, &b).unwrap();
    insert_multiple(&mut store, &Vec::new()).unwrap();
    assert_eq!(get_all(&store).unwrap(), vec![b]);
}

#[test]
fn removing_twice_succeeds_and_changes_nothing_more() {
    let mut store = open(&fresh_path("remove"), Keyspace::Bookmarks);
    let gone = bookmark("https://gone.example/", "gone");
    let stays = bookmark("https://stays.example/", "stays");
    insert_entry(&mut store, &gone).unwrap();
    insert_entry(&mut store, &stays).unwrap();
    remove_entry(&mut store, "https://gone.example/").unwrap();
    let after_first = get_all(&store).unwrap();
    remove_entry(&mut store, "https://gone.example/").unwrap();
    let after_second = get_all(&store).unwrap();
    assert_eq!(after_first, vec![stays]);
    assert_eq!(after_first, after_second);
}

#[test]
fn removing_an_absent_key_is_no_error() {
    let mut store = open(&fresh_path("remove-absent"), Keyspace::Bookmarks);
    remove_entry(&mut store, "https://never.example/").unwrap();
    assert!(get_all(&store).unwrap().is_empty());
}

#[test]
fn insert_refuses_a_record_that_is_not_valid() {
    let mut store = open(&fresh_path("invalid"), Keyspace::Bookmarks);
    let outcome = insert_entry(&mut store, &bookmark("https://example.com", "no slash"));
    assert!(matches!(outcome, Err(StoreError::Serialization)));
    assert!(get_all(&store).unwrap().is_empty());
}

#[test]
fn keyspaces_do_not_share_keys() {
    let path = fresh_path("keyspaces");
    let b = bookmark("https://example.com/", "Example");
    {
        let mut bookmarks = open(&path, Keyspace::Bookmarks);
        insert_entry(&mut bookmarks, &b).unwrap();
    }
    {
        let containers = reopen(&path, Keyspace::Containers);
        assert!(get_all(&containers).unwrap().is_empty());
    }
    let bookmarks = reopen(&path, Keyspace::Bookmarks);
    assert_eq!(get_all(&bookmarks).unwrap(), vec![b]);
}

#[test]
fn records_survive_reopening() {
    let path = fresh_path("reopen");
    let b = bookmark("https://example.com/", "Example");
    {
        let mut store = open(&path, Keyspace::Bookmarks);
        insert_entry(&mut store, &b).unwrap();
    }
    let store = reopen(&path, Keyspace::Bookmarks);
    assert_eq!(get_all(&store).unwrap(), vec![b]);
}

#[test]
fn scan_fails_on_a_value_that_does_not_decode() {
    let path = fresh_path("corrupt");
    {
        let mut store = open(&path, Keyspace::Bookmarks);
        insert_entry(&mut store, &bookmark("https://a.example/", "a")).unwrap();
    }
    {
        let db = reopen_raw(&path);
        let tree = db.open_tree("bookmarks").unwrap();
        tree.insert("https://b.example/", vec![7u8, 7, 7]).unwrap();
        tree.flush().unwrap();
    }
    let store = reopen(&path, Keyspace::Bookmarks);
    assert!(matches!(get_all(&store), Err(StoreError::Serialization)));
}

#[test]
fn stored_value_is_the_binary_form_under_the_link() {
    let path = fresh_path("raw");
    let b = bookmark("https://example.com/", "Example");
    {
        let mut store = open(&path, Keyspace::Bookmarks);
        insert_entry(&mut store, &b).unwrap();
    }
    let db = reopen_raw(&path);
    let tree = db.open_tree("bookmarks").unwrap();
    let value = tree.get("https://example.com/").unwrap().unwrap();
    assert_eq!(value.to_vec(), encode_bookmark(&b).unwrap());
    assert_eq!(decode_bookmark(&value), Some(b));
    assert_eq!(tree.len(), 1);
    assert!(db.open_tree("containers").unwrap().is_empty());
}

#[test]
fn end_to_end() {
    let mut store = open(&fresh_path("e2e"), Keyspace::Bookmarks);
    let mut b = bookmark("https://example.com/", "Example");
    b.tags = vec!["ref".to_string()];
    insert_entry(&mut store, &b).unwrap();
    let found = get_all(&store).unwrap();
    assert_eq!(found, vec![b.clone()]);

    let exported =
        serde_json::to_string(&serde_json::Value::Array(found.iter().map(to_json).collect()))
            .unwrap();
    let parsed: serde_json::Value = serde_json::from_str(&exported).unwrap();
    let imported: Vec<Bookmark> = parsed.as_array().unwrap().iter().map(from_json).collect();
    let mut other = open(&fresh_path("e2e-import"), Keyspace::Bookmarks);
    insert_multiple(&mut other, &imported).unwrap();
    assert_eq!(get_all(&other).unwrap(), vec![b]);

    remove_entry(&mut store, "https://example.com/").unwrap();
    assert!(get_all(&store).unwrap().is_empty());
}

#[test]
fn open_without_path_or_home_is_a_configuration_error() {
    match open_database(None, None, Keyspace::Bookmarks) {
        Err(StoreError::Config(name)) => assert_eq!(name, "HOME"),
        _ => panic!("a configuration error was expected"),
    }
}

#[test]
fn open_under_a_file_is_an_open_error() {
    let outcome = open_database(Some("/dev/null/tinymark".to_string()), None, Keyspace::Bookmarks);
    assert!(matches!(outcome, Err(StoreError::Open(_))));
}

#[test]
fn override_is_used_as_it_is() {
    let resolved =
        resolve_path(Some("relative/dir/".to_string()), Some("/home/u".to_string())).unwrap();
    assert_eq!(resolved, "relative/dir/");
}

#[test]
fn default_path_is_below_home() {
    assert_eq!(
        resolve_path(None, Some("/home/u".to_string())).unwrap(),
        "/home/u/.local/share/tinymark/database"
    );
    assert_eq!(default_path("/home/u/"), "/home/u/.local/share/tinymark/database");
    assert_eq!(default_path("/"), "/.local/share/tinymark/database");
    assert_eq!(default_path(""), ".local/share/tinymark/database");
}

#[test]
fn default_path_is_what_pushing_components_gives() {
    for home in ["/home/u", "/home/u/", "/", "", "rel", "/home/\u{e9}"] {
        let mut expected = std::path::PathBuf::new();
        expected.push(home);
        expected.push(".local/share/tinymark");
        expected.push("database");
        assert_eq!(default_path(home), expected.to_str().unwrap());
    }
}

#[test]
fn missing_home_names_the_variable() {
    match resolve_path(None, None) {
        Err(StoreError::Config(name)) => assert_eq!(name, "HOME"),
        _ => panic!("a configuration error was expected"),
    }
}

#[test]
fn keyspaces_have_fixed_names() {
    assert_eq!(keyspace_name(Keyspace::Bookmarks), "bookmarks");
    assert_eq!(keyspace_name(Keyspace::Containers), "containers");
}

#[test]
fn batch_gives_what_single_insertions_give() {
    let records = vec![
        bookmark("https://c.example/", "c"),
        bookmark("https://a.example/", "a first"),
        bookmark("https://c.example/", "c again"),
        bookmark("https://b.example/", "b"),
    ];
    let mut one_by_one = open(&fresh_path("fold-single"), Keyspace::Bookmarks);
    for record in records.iter() {
        insert_entry(&mut one_by_one, record).unwrap();
    }
    let mut at_once = open(&fresh_path("fold-batch"), Keyspace::Bookmarks);
    insert_multiple(&mut at_once, &records).unwrap();
    let expected = vec![records[1].clone(), records[3].clone(), records[2].clone()];
    assert_eq!(get_all(&at_once).unwrap(), expected);
    assert_eq!(get_all(&one_by_one).unwrap(), expected);
}

#[test]
fn batch_of_distinct_keys_does_not_depend_on_their_order() {
    let a = bookmark("https://a.example/", "a");
    let b = bookmark("https://b.example/", "b");
    let c = bookmark("https://c.example/", "c");
    let orders = [
        vec![a.clone(), b.clone(), c.clone()],
        vec![c.clone(), a.clone(), b.clone()],
        vec![b.clone(), c.clone(), a.clone()],
        vec![c.clone(), b.clone(), a.clone()],
    ];
    for (n, order) in orders.iter().enumerate() {
        let mut store = open(&fresh_path(&format!("any-order-{}", n)), Keyspace::Bookmarks);
        insert_entry(&mut store, &bookmark("https://b.example/", "old b")).unwrap();
        insert_multiple(&mut store, order).unwrap();
        assert_eq!(get_all(&store).unwrap(), vec![a.clone(), b.clone(), c.clone()]);
    }
}
