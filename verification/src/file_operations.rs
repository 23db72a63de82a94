//! Path arithmetic for the files that a measurement series writes.

use vstd::prelude::*;
use vstd::string::*;

verus! {

/// The text of `std::path::Path::join(folder, file)`.
pub uninterp spec fn path_join(folder: Seq<char>, file: Seq<char>) -> Seq<char>;

/// Calls `std::path::Path::join` on `folder` and `file` and returns the
/// joined path as a `String`.  The contract claims only that the result is
/// `path_join` of the arguments: the documentation says that an absolute
/// `file` replaces `folder`, but which paths are absolute depends on the
/// platform, so no clause states it.
#[verifier::external_body]
fn path_join_of(folder: &str, file: &str) -> (res: String)
    ensures
        res@ == path_join(folder@, file@),
{
    std::path::Path::new(folder).join(file).to_string_lossy().into_owned()
}

/// Places the file name `file` inside the folder `folder`, as
/// `std::path::Path::join` adjoins paths.
pub fn add_file_name_to_folder(folder: &str, file: &str) -> (res: String)
    ensures
        res@ == path_join(folder@, file@),
{
    path_join_of(folder, file)
}

/// The text of `Path::file_name` of the path `path`: its final component,
/// `None` where there is none (as for a path that ends in `..`).
pub uninterp spec fn path_file_name(path: Seq<char>) -> Option<Seq<char>>;

/// Calls `std::path::Path::file_name` on `path` and returns the file name
/// as a `String`; the contract claims only that the result is
/// `path_file_name` of the argument.
#[verifier::external_body]
fn file_name_of(path: &str) -> (res: Option<String>)
    ensures
        res.deep_view() == path_file_name(path@),
{
    match std::path::Path::new(path).file_name() {
        Some(name) => Some(name.to_string_lossy().into_owned()),
        None => None,
    }
}

/// The position of the last `'.'` in `name`, or -1 where it has none.
pub open spec fn last_dot(name: Seq<char>) -> int
    decreases name.len(),
{
    if name.len() == 0 {
        -1
    } else if name.last() == '.' {
        name.len() - 1
    } else {
        last_dot(name.drop_last())
    }
}

/// The stem of a file name as `Path::file_stem` documents it: the whole
/// name if it holds no `'.'` or only a leading one, else the part before
/// the last `'.'`.
pub open spec fn stem_of_file_name(file_name: Option<Seq<char>>) -> Option<Seq<char>> {
    match file_name {
        Some(name) => if last_dot(name) <= 0 {
            Some(name)
        } else {
            Some(name.take(last_dot(name)))
        },
        None => None,
    }
}

/// The extension of a file name as `Path::extension` documents it: none
/// if the name holds no `'.'` or only a leading one, else the part after
/// the last `'.'`.
pub open spec fn extension_of_file_name(file_name: Option<Seq<char>>) -> Option<Seq<char>> {
    match file_name {
        Some(name) => if last_dot(name) <= 0 {
            None
        } else {
            Some(name.skip(last_dot(name) + 1))
        },
        None => None,
    }
}

/// The text of `Path::with_file_name(path, name)`.
pub uninterp spec fn path_with_file_name(path: Seq<char>, name: Seq<char>) -> Seq<char>;

/// Calls `std::path::Path::file_stem` on `path` and returns the stem as a
/// `String`.  The contract claims what the method's documentation states:
/// the stem of the path's file name, taken by the rules of
/// `stem_of_file_name`; the file name itself is left to `path_file_name`.
#[verifier::external_body]
fn file_stem_of(path: &str) -> (res: Option<String>)
    ensures
        res.deep_view() == stem_of_file_name(path_file_name(path@)),
{
    match std::path::Path::new(path).file_stem() {
        Some(stem) => Some(stem.to_string_lossy().into_owned()),
        None => None,
    }
}

/// Calls `std::path::Path::extension` on `path` and returns the extension
/// as a `String`.  The contract claims what the method's documentation
/// states: the extension of the path's file name, taken by the rules of
/// `extension_of_file_name`; the file name itself is left to
/// `path_file_name`.
#[verifier::external_body]
fn extension_of(path: &str) -> (res: Option<String>)
    ensures
        res.deep_view() == extension_of_file_name(path_file_name(path@)),
{
    match std::path::Path::new(path).extension() {
        Some(ext) => Some(ext.to_string_lossy().into_owned()),
        None => None,
    }
}

/// Calls `std::path::Path::with_file_name` on `path` and `name` and returns
/// the new path as a `String`; the contract claims only that the result is
/// `path_with_file_name` of the arguments.
#[verifier::external_body]
fn with_file_name_of(path: &str, name: &str) -> (res: String)
    ensures
        res@ == path_with_file_name(path@, name@),
{
    std::path::Path::new(path).with_file_name(name).to_string_lossy().into_owned()
}

/// The extension of `path`, or the empty text where it has none.
pub open spec fn extension_or_empty(path: Seq<char>) -> Seq<char> {
    match extension_of_file_name(path_file_name(path)) {
        Some(ext) => ext,
        None => Seq::empty(),
    }
}

/// The path `path` with its file name `stem.ext` replaced by
/// `stem.suffix.ext` (by `stem.suffix.` where it has no extension);
/// `None` where `path` has no file name.
pub open spec fn suffixed_path(path: Seq<char>, suffix: Seq<char>) -> Option<Seq<char>> {
    match stem_of_file_name(path_file_name(path)) {
        Some(stem) => Some(
            path_with_file_name(
                path,
                stem + seq!['.'] + suffix + seq!['.'] + extension_or_empty(path),
            ),
        ),
        None => None,
    }
}

proof fn lemma_last_dot(name: Seq<char>)
    ensures
        -1 <= last_dot(name) < name.len(),
        last_dot(name) >= 0 ==> name[last_dot(name)] == '.',
    decreases name.len(),
{
    if name.len() > 0 && name.last() != '.' {
        lemma_last_dot(name.drop_last());
    }
}

/// The suffix goes in front of the last extension of the file name: a
/// file name `n` whose last `'.'` stands at position `d > 0` becomes
/// `n[..d] + "." + suffix + n[d..]`; a file name without such a dot gets
/// `"." + suffix + "."` appended.  A path without a file name has no
/// suffixed form.
pub proof fn lemma_suffix_before_extension(path: Seq<char>, suffix: Seq<char>)
    ensures
        path_file_name(path) is None ==> suffixed_path(path, suffix) is None,
        path_file_name(path) matches Some(n) ==> suffixed_path(path, suffix) == Some(
            path_with_file_name(
                path,
                if last_dot(n) > 0 {
                    n.take(last_dot(n)) + seq!['.'] + suffix + n.skip(last_dot(n))
                } else {
                    n + seq!['.'] + suffix + seq!['.']
                },
            ),
        ),
{
    if let Some(n) = path_file_name(path) {
        lemma_last_dot(n);
        let d = last_dot(n);
        if d > 0 {
            assert(n.skip(d) =~= seq!['.'] + n.skip(d + 1));
            assert(n.take(d) + seq!['.'] + suffix + seq!['.'] + n.skip(d + 1) =~= n.take(d)
                + seq!['.'] + suffix + n.skip(d));
        }
    }
}

/// Inserts `suffix` into the file name of `path`, between its stem and
/// its extension.  The path must have a file name.
pub fn add_suffix_to_file_name(path: &str, suffix: &str) -> (res: String)
    requires
        path_file_name(path@) is Some,
    ensures
        suffixed_path(path@, suffix@) == Some(res@),
{
    let stem = file_stem_of(path).unwrap();
    let ext = match extension_of(path) {
        Some(ext) => ext,
        None => String::new(),
    };
    assert(ext@ == extension_or_empty(path@));
    let dot = ".";
    proof {
        reveal_strlit(".");
    }
    let mut name = stem;
    name.append(dot);
    name.append(suffix);
    name.append(dot);
    name.append(ext.as_str());
    assert(name@ == stem@ + seq!['.'] + suffix@ + seq!['.'] + extension_or_empty(path@));
    with_file_name_of(path, name.as_str())
}

/// The path of the temporary copy of the scene configuration `config_file`
/// that the runs read: `temp` inserted before the extension of its file
/// name; `None` where `config_file` has no file name, the one input on
/// which `add_suffix_to_file_name` cannot be called.
pub fn get_temporary_config_file_path(config_file: &str) -> (res: Option<String>)
    ensures
        res.deep_view() == suffixed_path(config_file@, "temp"@),
{
    match file_name_of(config_file) {
        Some(_) => Some(add_suffix_to_file_name(config_file, "temp")),
        None => None,
    }
}

/// The message of the error that refuses to reuse the existing folder
/// `path` as the destination of a measurement series.
pub fn folder_exists_message(path: &str) -> (res: String)
    ensures
        res@ == "Folder '"@ + path@ + "' already exists"@,
{
    let mut message = String::from_str("Folder '");
    message.append(path);
    message.append("' already exists");
    message
}

} // verus!
