use vstd::prelude::*;

verus! {

/// The logical partitions of one opened store. Each is an ordered map of its
/// own; keys are never shared between two of them.
#[derive(Clone, Copy, Debug, PartialEq, Eq, Structural)]
pub enum Keyspace {
    Bookmarks,
    Containers,
}

/// The kind of a container, fixed when it is made.
#[derive(Clone, Copy, Debug, PartialEq, Eq, Structural)]
pub enum ContainerTypes {
    Folder,
    Group,
}

/// What the program reads from its configuration file.
#[derive(Clone, Debug, PartialEq, Eq)]
pub struct Config {
    pub tui: bool,
    pub json: bool,
    /// Where the store lives; `None` selects the default below the home
    /// directory.
    pub storage_location: Option<String>,
}

impl Default for Config {
    fn default() -> (cfg: Self)
        ensures
            !cfg.tui,
            !cfg.json,
            cfg.storage_location is None,
    {
        Config { tui: false, json: false, storage_location: None }
    }
}

/// A bookmark as plain values.
///
/// `link` is the serialization of a URL and is the record's key. `created_at`
/// is an RFC 3339 timestamp in UTC. `container` is the 16 bytes of the parent
/// container's identifier; nothing requires that container to exist.
#[derive(Clone, Debug, PartialEq, Eq)]
pub struct Bookmark {
    pub container: Option<[u8; 16]>,
    pub created_at: String,
    pub description: Option<String>,
    pub label: String,
    pub link: String,
    pub tags: Vec<String>,
}

/// The mathematical value of a [`Bookmark`].
pub ghost struct BookmarkView {
    pub container: Option<Seq<u8>>,
    pub created_at: Seq<char>,
    pub description: Option<Seq<char>>,
    pub label: Seq<char>,
    pub link: Seq<char>,
    pub tags: Seq<Seq<char>>,
}

/// The views of the strings of `tags`, in order.
pub open spec fn strings_view(tags: Seq<String>) -> Seq<Seq<char>> {
    Seq::new(tags.len(), |i: int| tags[i]@)
}

/// The view of an optional string.
pub open spec fn opt_string_view(s: Option<String>) -> Option<Seq<char>> {
    match s {
        Some(text) => Some(text@),
        None => None,
    }
}

/// The view of an optional identifier.
pub open spec fn opt_id_view(id: Option<[u8; 16]>) -> Option<Seq<u8>> {
    match id {
        Some(bytes) => Some(bytes@),
        None => None,
    }
}

impl View for Bookmark {
    type V = BookmarkView;

    open spec fn view(&self) -> BookmarkView {
        BookmarkView {
            container: opt_id_view(self.container),
            created_at: self.created_at@,
            description: opt_string_view(self.description),
            label: self.label@,
            link: self.link@,
            tags: strings_view(self.tags@),
        }
    }
}

/// A folder or group. `container` names the parent by its identifier.
#[derive(Clone, Debug, PartialEq, Eq)]
pub struct Container {
    pub container: Option<[u8; 16]>,
    pub container_type: ContainerTypes,
    pub id: [u8; 16],
    pub label: String,
}

impl Container {
    /// A container with exactly the given fields.
    pub fn new(
        container: Option<[u8; 16]>,
        container_type: ContainerTypes,
        id: [u8; 16],
        label: String,
    ) -> (c: Self)
        ensures
            c.container == container,
            c.container_type == container_type,
            c.id == id,
            c.label == label,
    {
        Container { container, container_type, id, label }
    }
}

} // verus!
