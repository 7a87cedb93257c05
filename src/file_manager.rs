//! Deciding how the host's file manager is asked to show a path.
//!
//! Each platform has its own plan: a program to start, or, on desktops with a
//! message bus, a request to the file manager service. Carrying the plan out
//! is left to the caller.
use vstd::prelude::*;

verus! {

/// Bus name of the file manager service.
pub const FILE_MANAGER_SERVICE: &'static str = "org.freedesktop.FileManager1";

/// Object path of the file manager service.
pub const FILE_MANAGER_OBJECT: &'static str = "/org/freedesktop/FileManager1";

/// Interface that holds the file manager's methods.
pub const FILE_MANAGER_INTERFACE: &'static str = "org.freedesktop.FileManager1";

/// Method that asks the file manager to highlight a list of items.
pub const SHOW_ITEMS_METHOD: &'static str = "ShowItems";

/// Longest time, in seconds, that a request to the file manager may take.
pub const BUS_CALL_TIMEOUT_SECS: u64 = 5;

/// How the file manager is asked to show a path.
pub enum ShowAction {
    /// Start `program` with `args` and leave it running.
    Launch { program: String, args: Vec<String> },
    /// Ask the file manager service over the desktop bus to highlight `uris`,
    /// waiting at most `timeout_secs` for its answer.
    ShowItems { uris: Vec<String>, startup_id: String, timeout_secs: u64 },
}

/// The texts of a list of strings.
pub open spec fn texts(v: Seq<String>) -> Seq<Seq<char>> {
    v.map_values(|s: String| s@)
}

/// `a` starts `program` with exactly `args`.
pub open spec fn launches(a: ShowAction, program: Seq<char>, args: Seq<Seq<char>>) -> bool {
    match a {
        ShowAction::Launch { program: p, args: v } => p@ == program && texts(v@) == args,
        _ => false,
    }
}

/// `a` is one request to the file manager service that highlights exactly
/// `uris`, with an empty startup id and the bounded timeout.
pub open spec fn asks_file_manager(a: ShowAction, uris: Seq<Seq<char>>) -> bool {
    match a {
        ShowAction::ShowItems { uris: u, startup_id, timeout_secs } => {
            &&& texts(u@) == uris
            &&& startup_id@ == Seq::<char>::empty()
            &&& timeout_secs == BUS_CALL_TIMEOUT_SECS
        },
        _ => false,
    }
}

/// The path without its last component, as std's `Path::parent` gives it.
pub uninterp spec fn parent_of(path: Seq<char>) -> Option<Seq<char>>;

/// Relies on std's `Path::parent`: the path with its last component taken
/// off, or `None` where the path ends in a root or prefix or is empty.
#[verifier::external_body]
fn path_parent(path: &str) -> (r: Option<String>)
    ensures
        match r {
            Some(p) => parent_of(path@) == Some(p@),
            None => parent_of(path@) is None,
        },
{
    std::path::Path::new(path).parent().and_then(std::path::Path::to_str).map(String::from)
}

/// The folder that holds `path`: the path itself where it is a directory,
/// else the path without its last component, or the path unchanged where it
/// has no such component.
pub open spec fn containing_folder(path: Seq<char>, is_dir: bool) -> Seq<char> {
    if is_dir {
        path
    } else {
        match parent_of(path) {
            Some(p) => p,
            None => path,
        }
    }
}

/// The `file://` URI of a path.
pub open spec fn file_uri(path: Seq<char>) -> Seq<char> {
    "file://"@ + path
}

/// Whether the desktop bus cannot be used for `path`: no bus is connected, or
/// the path holds a comma, which the file manager's protocol does not escape.
pub open spec fn needs_folder_fallback(path: Seq<char>, bus_connected: bool) -> bool {
    !bus_connected || path.contains(',')
}

/// Whether `s` holds a comma.
pub fn contains_comma(s: &str) -> (r: bool)
    ensures
        r == s@.contains(','),
{
    let n = s.unicode_len();
    let mut i: usize = 0;
    while i < n
        invariant
            i <= n == s@.len(),
            forall|j: int| 0 <= j < i ==> s@[j] != ',',
        decreases n - i,
    {
        if s.get_char(i) == ',' {
            return true;
        }
        i = i + 1;
    }
    false
}

/// The folder that holds `path`, where `is_dir` tells whether the path is a
/// directory.
pub fn containing_folder_of(path: &String, is_dir: bool) -> (r: String)
    ensures
        r@ == containing_folder(path@, is_dir),
{
    if is_dir {
        return path.clone();
    }
    match path_parent(path.as_str()) {
        Some(p) => p,
        None => path.clone(),
    }
}

/// The `file://` URI of `path`.
pub fn file_uri_of(path: &String) -> (r: String)
    ensures
        r@ == file_uri(path@),
{
    let mut uri = String::from_str("file://");
    uri.append(path.as_str());
    uri
}

/// A plan that starts `program` with `args`.
fn launch(program: &str, args: Vec<String>) -> (r: ShowAction)
    ensures
        launches(r, program@, texts(args@)),
{
    ShowAction::Launch { program: String::from_str(program), args }
}

/// How to show `path` on a desktop whose file manager listens on the message
/// bus. `bus_connected` tells whether a bus connection is at hand, and
/// `is_dir` whether the path is a directory.
///
/// Without a bus, or for a path with a comma, the generic opener is started
/// on the folder that holds the path, which then cannot be highlighted.
/// Otherwise the file manager is asked once to highlight the path's URI.
pub fn freedesktop_show_plan(path: &String, bus_connected: bool, is_dir: bool) -> (r: ShowAction)
    ensures
        needs_folder_fallback(path@, bus_connected) ==> launches(
            r,
            "xdg-open"@,
            seq![containing_folder(path@, is_dir)],
        ),
        !needs_folder_fallback(path@, bus_connected) ==> asks_file_manager(r, seq![file_uri(path@)]),
{
    if !bus_connected || contains_comma(path.as_str()) {
        let folder = containing_folder_of(path, is_dir);
        let args = vec![folder];
        let r = launch("xdg-open", args);
        proof {
            assert(texts(args@) =~= seq![containing_folder(path@, is_dir)]);
        }
        r
    } else {
        let uris = vec![file_uri_of(path)];
        proof {
            assert(texts(uris@) =~= seq![file_uri(path@)]);
        }
        ShowAction::ShowItems {
            uris,
            startup_id: String::new(),
            timeout_secs: BUS_CALL_TIMEOUT_SECS,
        }
    }
}

/// How to show `path` with the Windows shell: Explorer is started with the
/// item selected.
pub fn explorer_show_plan(path: &String) -> (r: ShowAction)
    ensures
        launches(r, "explorer"@, seq!["/select,"@, path@]),
{
    let args = vec![String::from_str("/select,"), path.clone()];
    let r = launch("explorer", args);
    proof {
        assert(texts(args@) =~= seq!["/select,"@, path@]);
    }
    r
}

/// How to show `path` on macOS: a directory is opened, any other item is
/// revealed in Finder.
pub fn finder_show_plan(path: &String, is_dir: bool) -> (r: ShowAction)
    ensures
        is_dir ==> launches(r, "open"@, seq![path@]),
        !is_dir ==> launches(r, "open"@, seq!["-R"@, path@]),
{
    if is_dir {
        let args = vec![path.clone()];
        let r = launch("open", args);
        proof {
            assert(texts(args@) =~= seq![path@]);
        }
        r
    } else {
        let args = vec![String::from_str("-R"), path.clone()];
        let r = launch("open", args);
        proof {
            assert(texts(args@) =~= seq!["-R"@, path@]);
        }
        r
    }
}

} // verus!
