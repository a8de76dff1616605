use vstd::prelude::*;
use vstd::string::StringExecFns;
use vstd::utf8::{decode_utf8, valid_utf8};
use crate::text::{split_on, str_from_utf8};

verus! {

broadcast use vstd::string::group_string_axioms;

/// Why a manifest could not be loaded; each carries the manifest's file name.
#[derive(PartialEq, Eq, Debug)]
pub enum Error {
    /// No manifest of that name is in the repository.
    NotFound(String),
    /// The manifest is there but is not well-formed UTF-8.
    MalformedUTF8(String),
}

/// A package recipe: its file name and its text.
#[derive(Debug)]
pub struct Manifest {
    pub name: String,
    pub content: String,
}

/// The embedded recipe directory, as `include_dir` holds it.
#[verifier::external_type_specification]
#[verifier::external_body]
pub struct ExDir<'a>(include_dir::Dir<'a>);

/// The entries of an embedded directory, in the order in which `Dir::get_entry` searches
/// them: each entry of the directory and, right after an entry that is a directory, that
/// directory's own entries; each with its path and, for a file, its bytes (`None` for a
/// directory).
pub uninterp spec fn dir_entries(dir: include_dir::Dir<'static>) -> Seq<(Seq<char>, Option<Seq<u8>>)>;

/// The file name of the manifest of `package`: the package's name followed by `.ubpkg.sky`.
pub open spec fn manifest_name(package: Seq<char>) -> Seq<char> {
    package + ".ubpkg.sky"@
}

/// The pieces of a path that name something: those that are neither empty nor `.`.
pub open spec fn named_pieces(pieces: Seq<Seq<char>>) -> Seq<Seq<char>>
    decreases pieces.len(),
{
    if pieces.len() == 0 {
        Seq::empty()
    } else {
        let rest = named_pieces(pieces.drop_last());
        let piece = pieces.last();
        if piece.len() == 0 || piece == seq!['.'] {
            rest
        } else {
            rest.push(piece)
        }
    }
}

/// What a path starts with before its named pieces: the root `/` where it starts with a
/// slash, `.` where a relative path starts with `.` as a whole piece, else nothing.
pub open spec fn path_lead(path: Seq<char>) -> Seq<Seq<char>> {
    if path.len() > 0 && path[0] == '/' {
        seq![seq!['/']]
    } else if path.len() > 0 && path[0] == '.' && (path.len() == 1 || path[1] == '/') {
        seq![seq!['.']]
    } else {
        Seq::empty()
    }
}

/// The components of a Unix path, as `Path::components` gives them (the root as `/`, a
/// leading current directory as `.`): two paths are equal as `Path`s exactly when their
/// components are.
pub open spec fn path_components(path: Seq<char>) -> Seq<Seq<char>> {
    path_lead(path) + named_pieces(split_on(path, '/'))
}

/// What the first of `entries` whose path is `path` as a `Path` holds: `None` where no
/// entry has that path, else its bytes (`None` again for a directory).
pub open spec fn first_entry(entries: Seq<(Seq<char>, Option<Seq<u8>>)>, path: Seq<char>) -> Option<
    Option<Seq<u8>>,
>
    decreases entries.len(),
{
    if entries.len() == 0 {
        None
    } else if path_components(entries[0].0) == path_components(path) {
        Some(entries[0].1)
    } else {
        first_entry(entries.drop_first(), path)
    }
}

/// The bytes of the file that `Dir::get_file` finds under `path` in `dir`, if any.
pub open spec fn lookup(dir: include_dir::Dir<'static>, path: Seq<char>) -> Option<Seq<u8>> {
    match first_entry(dir_entries(dir), path) {
        Some(Some(bytes)) => Some(bytes),
        _ => None,
    }
}

/// `include_dir::Dir::get_file`, and `include_dir::File::contents` of the file it finds.
///
/// The contract claims that it finds the first entry, in the order of `dir_entries`, whose
/// path equals `path` as a `Path` (component by component), and gives that entry's bytes
/// where it is a file; nothing where no entry matches or the first match is a directory.
#[verifier::external_body]
fn embedded_file(dir: &include_dir::Dir<'static>, path: &String) -> (r: Option<Vec<u8>>)
    ensures
        match first_entry(dir_entries(*dir), path@) {
            Some(Some(bytes)) => r matches Some(v) && v@ == bytes,
            _ => r is None,
        },
{
    match dir.get_file(path.as_str()) {
        Some(file) => Some(file.contents().to_vec()),
        None => None,
    }
}

/// The manifest of a package is named by the package's name, character for character,
/// followed by `.ubpkg.sky`; so different packages never share a manifest.
pub proof fn lemma_manifest_name(p: Seq<char>, q: Seq<char>)
    ensures
        manifest_name(p) == p + ".ubpkg.sky"@,
        manifest_name(p).len() == p.len() + ".ubpkg.sky"@.len(),
        manifest_name(p).take(p.len() as int) == p,
        manifest_name(p).skip(p.len() as int) == ".ubpkg.sky"@,
        manifest_name(p) == manifest_name(q) ==> p == q,
{
    let e = ".ubpkg.sky"@;
    assert((p + e).take(p.len() as int) =~= p);
    assert((p + e).skip(p.len() as int) =~= e);
    assert((q + e).take(q.len() as int) =~= q);
}

/// The file name under which the manifest of `package` is stored.
pub fn manifest_file_name(package: &str) -> (r: String)
    ensures
        r@ == manifest_name(package@),
        r@ == package@ + ".ubpkg.sky"@,
        r@.take(package@.len() as int) == package@,
        r@.skip(package@.len() as int) == ".ubpkg.sky"@,
{
    let mut r = package.to_string();
    r.append(".ubpkg.sky");
    r
}

/// Loads the manifest of `package` from the recipe repository.
///
/// The manifest is the file named `<package>.ubpkg.sky`; it is `NotFound` where no file
/// has that name, and `MalformedUTF8` where its bytes are not well-formed UTF-8.
pub fn load_manifest_from_repo(package: &str, repo: &include_dir::Dir<'static>) -> (r: Result<
    Manifest,
    Error,
>)
    ensures
        ({
            let name = manifest_name(package@);
            match lookup(*repo, name) {
                None => r matches Err(Error::NotFound(n)) && n@ == name,
                Some(bytes) => if valid_utf8(bytes) {
                    r matches Ok(m) && m.name@ == name && m.content@ == decode_utf8(bytes)
                } else {
                    r matches Err(Error::MalformedUTF8(n)) && n@ == name
                },
            }
        }),
{
    let manifest_name = manifest_file_name(package);
    let bytes = match embedded_file(repo, &manifest_name) {
        Some(b) => b,
        None => return Err(Error::NotFound(manifest_name)),
    };
    match str_from_utf8(bytes.as_slice()) {
        Some(content) => Ok(Manifest { name: manifest_name, content }),
        None => Err(Error::MalformedUTF8(manifest_name)),
    }
}

} // verus!
