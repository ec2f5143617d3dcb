use vstd::prelude::*;
use vstd::string::*;
use crate::database::{insert_entry, record_key, Store, StoreError};
use crate::forms::{is_canonical_link, parse_url, url_serialization};
use crate::structures::{
    opt_string_view, strings_view, Bookmark, BookmarkView, Container, ContainerTypes,
};
use crate::wire::wire_bookmark;

verus! {

/// Calls `chrono::Utc::now` and writes the instant with
/// `DateTime::to_rfc3339_opts`. Trusted; the clock decides, so nothing is
/// claimed of the text.
#[verifier::external_body]
pub(crate) fn current_timestamp() -> (text: String) {
    chrono::Utc::now().to_rfc3339_opts(chrono::SecondsFormat::AutoSi, true)
}

/// Calls `uuid::Uuid::new_v4` and hands out its 16 bytes. Trusted; the
/// identifier is random, so nothing is claimed of it.
#[verifier::external_body]
pub(crate) fn fresh_id() -> (id: [u8; 16]) {
    uuid::Uuid::new_v4().into_bytes()
}

/// The link that a bookmark gets for the text `url`: the serialization of
/// the URL that the text parses to, or the text itself where it is no URL.
pub open spec fn link_of(url: Seq<char>) -> Seq<char> {
    match url_serialization(url) {
        Some(parsed) => parsed,
        None => url,
    }
}

/// The record that `add_bookmark` builds: it belongs to no container.
pub open spec fn new_record(
    url: Seq<char>,
    name: Seq<char>,
    description: Option<Seq<char>>,
    tags: Seq<Seq<char>>,
    created_at: Seq<char>,
) -> BookmarkView {
    BookmarkView {
        container: None,
        created_at,
        description,
        label: name,
        link: link_of(url),
        tags,
    }
}

/// A copy of `items`.
pub fn copy_strings(items: &Vec<String>) -> (copy: Vec<String>)
    ensures
        strings_view(copy@) == strings_view(items@),
{
    let mut copy: Vec<String> = Vec::new();
    let mut i: usize = 0;
    while i < items.len()
        invariant
            i <= items@.len(),
            copy@.len() == i,
            forall|j: int| 0 <= j < i ==> copy@[j]@ == items@[j]@,
        decreases items@.len() - i,
    {
        copy.push(items[i].clone());
        i = i + 1;
    }
    assert(strings_view(copy@) =~= strings_view(items@));
    copy
}

/// The bookmark for the given values, in no container.
pub fn new_bookmark(
    url: &str,
    name: &str,
    description: &Option<String>,
    tags: &Vec<String>,
    created_at: String,
) -> (bookmark: Bookmark)
    ensures
        bookmark@ == new_record(
            url@,
            name@,
            opt_string_view(*description),
            strings_view(tags@),
            created_at@,
        ),
{
    let link = match parse_url(url) {
        Some(parsed) => parsed,
        None => String::from_str(url),
    };
    let description = match description {
        Some(text) => Some(text.clone()),
        None => None,
    };
    Bookmark {
        container: None,
        created_at,
        description,
        label: String::from_str(name),
        link,
        tags: copy_strings(tags),
    }
}

/// Makes a bookmark for `url`, created at `created_at`, and stores it.
///
/// The bookmark is the record of the given values, with the link that `url`
/// parses to. Where that record is not valid, as when `url` is no URL or
/// `created_at` no canonical timestamp, the call fails with `Serialization`
/// and the store is left as it was. For a valid record the engine decides:
/// on success the bookmark comes back, the store holds its binary form
/// under its link and all else as before, and what it holds has reached the
/// disk.
pub fn add_bookmark_at(
    store: &mut Store,
    url: &str,
    name: &str,
    description: &Option<String>,
    tags: &Vec<String>,
    created_at: String,
) -> (r: Result<Bookmark, StoreError>)
    ensures
        final(store).same_keyspace(old(store)),
        match r {
            Ok(bookmark) => {
                &&& bookmark@ == new_record(
                    url@,
                    name@,
                    opt_string_view(*description),
                    strings_view(tags@),
                    created_at@,
                )
                &&& bookmark@.wf()
                &&& final(store).entries() == old(store).entries().insert(
                    record_key(bookmark@),
                    wire_bookmark(bookmark@),
                )
                &&& final(store).saved() == final(store).entries()
            },
            Err(StoreError::Serialization) => !new_record(
                url@,
                name@,
                opt_string_view(*description),
                strings_view(tags@),
                created_at@,
            ).wf() && *final(store) == *old(store),
            Err(StoreError::Io(_)) => new_record(
                url@,
                name@,
                opt_string_view(*description),
                strings_view(tags@),
                created_at@,
            ).wf(),
            Err(_) => false,
        },
{
    let bookmark = new_bookmark(url, name, description, tags, created_at);
    match insert_entry(store, &bookmark) {
        Ok(()) => Ok(bookmark),
        Err(e) => Err(e),
    }
}

/// Makes a bookmark for `url`, created now, and stores it.
///
/// The clock gives the creation time; the rest is `add_bookmark_at`. A text
/// whose link is not canonical, as when `url` is no URL, is always refused
/// with `Serialization`, and after that error the store is as it was. The
/// engine is reached, and may fail with `Io`, only for a canonical link.
pub fn add_bookmark(
    store: &mut Store,
    url: &str,
    name: &str,
    description: &Option<String>,
    tags: &Vec<String>,
) -> (r: Result<Bookmark, StoreError>)
    ensures
        final(store).same_keyspace(old(store)),
        !is_canonical_link(link_of(url@)) ==> r matches Err(StoreError::Serialization),
        match r {
            Ok(bookmark) => {
                &&& bookmark@ == new_record(
                    url@,
                    name@,
                    opt_string_view(*description),
                    strings_view(tags@),
                    bookmark.created_at@,
                )
                &&& bookmark@.wf()
                &&& final(store).entries() == old(store).entries().insert(
                    record_key(bookmark@),
                    wire_bookmark(bookmark@),
                )
                &&& final(store).saved() == final(store).entries()
            },
            Err(StoreError::Serialization) => *final(store) == *old(store),
            Err(StoreError::Io(_)) => is_canonical_link(link_of(url@)),
            Err(_) => false,
        },
{
    add_bookmark_at(store, url, name, description, tags, current_timestamp())
}

/// A new folder with the given label, a fresh identifier and no parent.
pub fn new_folder(label: &str) -> (folder: Container)
    ensures
        folder.label@ == label@,
        folder.container is None,
        folder.container_type == ContainerTypes::Folder,
{
    Container::new(None, ContainerTypes::Folder, fresh_id(), String::from_str(label))
}

/// What editing does next.
#[derive(Debug)]
pub enum EditStep {
    /// Editing has no machine-readable form: the command is refused.
    Unsupported,
    /// The link was given: it is the selected item.
    Selected(String),
    /// No link was given: the user picks among the stored bookmarks.
    Choose,
}

/// Decides what editing does next, from the output mode and the link given
/// on the command line.
pub fn edit_bookmark(json: bool, url: &Option<String>) -> (step: EditStep)
    ensures
        json ==> step is Unsupported,
        !json ==> (match *url {
            Some(link) => step matches EditStep::Selected(text) && text@ == link@,
            None => step is Choose,
        }),
{
    if json {
        EditStep::Unsupported
    } else {
        match url {
            Some(link) => EditStep::Selected(link.clone()),
            None => EditStep::Choose,
        }
    }
}

/// The links of `bookmarks`, in order: the items among which the user picks.
pub fn selection_items(bookmarks: &Vec<Bookmark>) -> (items: Vec<String>)
    ensures
        items@.len() == bookmarks@.len(),
        forall|i: int| 0 <= i < items@.len() ==> (#[trigger] items@[i])@ == bookmarks@[i].link@,
{
    let mut items: Vec<String> = Vec::new();
    let mut i: usize = 0;
    while i < bookmarks.len()
        invariant
            i <= bookmarks@.len(),
            items@.len() == i,
            forall|j: int| 0 <= j < i ==> (#[trigger] items@[j])@ == bookmarks@[j].link@,
        decreases bookmarks@.len() - i,
    {
        items.push(bookmarks[i].link.clone());
        i = i + 1;
    }
    items
}

/// The bookmark that the user picked, if any: the one at the picked place.
pub fn selected_bookmark(bookmarks: &Vec<Bookmark>, selection: Option<usize>) -> (picked: Option<
    &Bookmark,
>)
    ensures
        match selection {
            Some(index) if index < bookmarks@.len() => picked == Some(&bookmarks@[index as int]),
            _ => picked is None,
        },
{
    match selection {
        Some(index) => if index < bookmarks.len() {
            Some(&bookmarks[index])
        } else {
            None
        },
        None => None,
    }
}

/// The tags of a bookmark as shown: each followed by a comma.
pub open spec fn tags_text(tags: Seq<Seq<char>>) -> Seq<char>
    decreases tags.len(),
{
    if tags.len() == 0 {
        Seq::empty()
    } else {
        tags_text(tags.drop_last()) + tags.last() + ","@
    }
}

/// The description of a bookmark as shown: a line of its own, or nothing.
pub open spec fn description_text(description: Option<Seq<char>>) -> Seq<char> {
    match description {
        Some(text) => text + "\n"@,
        None => Seq::empty(),
    }
}

/// A bookmark as shown to the user. `created_local` is the creation time
/// as the caller wants it shown.
pub open spec fn bookmark_text(b: BookmarkView, created_local: Seq<char>) -> Seq<char> {
    "Bookmark: "@ + b.label + "\n"@ + b.link + "\n"@ + description_text(b.description) + "Tags: ["@
        + tags_text(b.tags) + "]"@ + "\nCreated at: "@ + created_local + "\n"@
}

impl Bookmark {
    /// The bookmark as shown to the user: label, link, description, tags
    /// and creation time.
    pub fn to_text(&self, created_local: &str) -> (text: String)
        ensures
            text@ == bookmark_text(self@, created_local@),
    {
        let mut text = String::from_str("Bookmark: ");
        text.append(self.label.as_str());
        text.append("\n");
        text.append(self.link.as_str());
        text.append("\n");
        match &self.description {
            Some(description) => {
                text.append(description.as_str());
                text.append("\n");
            },
            None => {
                assert(text@ + Seq::<char>::empty() =~= text@);
            },
        }
        text.append("Tags: [");
        let ghost head = text@;
        let ghost tags = strings_view(self.tags@);
        let mut i: usize = 0;
        assert(tags.take(0) =~= Seq::<Seq<char>>::empty());
        assert(head + tags_text(tags.take(0)) =~= head);
        while i < self.tags.len()
            invariant
                i <= self.tags@.len(),
                tags == strings_view(self.tags@),
                text@ == head + tags_text(tags.take(i as int)),
            decreases self.tags@.len() - i,
        {
            text.append(self.tags[i].as_str());
            text.append(",");
            proof {
                let next = tags.take(i + 1);
                assert(next.drop_last() =~= tags.take(i as int));
                assert(next.last() == self.tags@[i as int]@);
                assert(text@ =~= head + tags_text(next));
            }
            i = i + 1;
        }
        assert(tags.take(self.tags@.len() as int) =~= tags);
        text.append("]");
        text.append("\nCreated at: ");
        text.append(created_local);
        text.append("\n");
        assert(text@ =~= bookmark_text(self@, created_local@));
        text
    }
}

} // verus!
