//! Which files of a repository are indexed.

use vstd::prelude::*;
use vstd::string::*;
use vstd::utf8::*;

use crate::search;
use crate::text;
use crate::types;

verus! {

/// Files larger than this are not indexed.
pub const MAX_FILE_BYTES: u64 = 1_500_000;

/// The extensions of source files.
pub open spec fn code_extensions() -> Seq<Seq<char>> {
    seq![
        "rs"@, "py"@, "pyi"@, "js"@, "jsx"@, "mjs"@, "cjs"@, "ts"@, "mts"@, "cts"@, "tsx"@, "go"@,
        "swift"@, "java"@, "c"@, "h"@, "cpp"@, "cc"@, "cxx"@, "hpp"@, "hh"@, "hxx"@, "rb"@, "cs"@,
        "sh"@, "bash"@, "kt"@, "kts"@,
    ]
}

/// The extensions of documents.
pub open spec fn document_extensions() -> Seq<Seq<char>> {
    seq![
        "md"@, "markdown"@, "mdx"@, "rst"@, "adoc"@, "asciidoc"@, "txt"@, "strings"@,
        "stringsdict"@, "po"@, "xliff"@, "xlf"@, "arb"@,
    ]
}

/// The names of generated files that are never indexed, in small letters.
pub open spec fn skipped_names() -> Seq<Seq<char>> {
    seq![
        "package-lock.json"@, "yarn.lock"@, "pnpm-lock.yaml"@, "composer.lock"@, "poetry.lock"@,
        "cargo.lock"@, "gemfile.lock"@, "go.sum"@, "podfile.lock"@,
    ]
}

/// The directories that are never indexed.
pub open spec fn excluded_dirs() -> Seq<Seq<char>> {
    seq![
        "target"@, "node_modules"@, ".venv"@, "venv"@, "env"@, "Pods"@, "build"@, "dist"@, ".git"@,
        ".gradle"@, ".next"@, ".nuxt"@, "__pycache__"@, ".cache"@, "DerivedData"@, "vendor"@,
        ".idea"@, ".vscode"@, "out"@, ".dart_tool"@, ".mypy_cache"@, ".pytest_cache"@, ".tox"@,
        "bin"@, "obj"@, ".svn"@, ".hg"@, ".terraform"@, "coverage"@, ".codegraph"@, "Carthage"@,
        ".bundle"@, "bower_components"@, ".yarn"@, ".pnp"@,
    ]
}

/// Whether a text is one of a few; the texts stand one behind the other.
fn is_one_of(s: &str, list: &Vec<&'static str>) -> (r: bool)
    ensures
        r == types::str_views(list@).contains(s@),
{
    let ghost all = types::str_views(list@);
    assert(all.len() == list@.len());
    let mut i: usize = 0;
    while i < list.len()
        invariant
            i <= list.len(),
            all == types::str_views(list@),
            all.len() == list@.len(),
            forall|j: int| 0 <= j < i ==> #[trigger] all[j] != s@,
        decreases list.len() - i,
    {
        assert(all[i as int] == list@[i as int]@);
        if text::same(s, list[i]) {
            return true;
        }
        i += 1;
    }
    false
}

/// See [`code_extensions`].
fn code_extension_list() -> (r: Vec<&'static str>)
    ensures
        types::str_views(r@) == code_extensions(),
{
    let r: Vec<&'static str> = vec![
        "rs", "py", "pyi", "js", "jsx", "mjs", "cjs", "ts", "mts", "cts", "tsx", "go", "swift",
        "java", "c", "h", "cpp", "cc", "cxx", "hpp", "hh", "hxx", "rb", "cs", "sh", "bash", "kt",
        "kts",
    ];
    assert(types::str_views(r@) =~= code_extensions());
    r
}

/// See [`document_extensions`].
fn document_extension_list() -> (r: Vec<&'static str>)
    ensures
        types::str_views(r@) == document_extensions(),
{
    let r: Vec<&'static str> = vec![
        "md", "markdown", "mdx", "rst", "adoc", "asciidoc", "txt", "strings", "stringsdict", "po",
        "xliff", "xlf", "arb",
    ];
    assert(types::str_views(r@) =~= document_extensions());
    r
}

/// See [`skipped_names`].
fn skipped_name_list() -> (r: Vec<&'static str>)
    ensures
        types::str_views(r@) == skipped_names(),
{
    let r: Vec<&'static str> = vec![
        "package-lock.json", "yarn.lock", "pnpm-lock.yaml", "composer.lock", "poetry.lock",
        "cargo.lock", "gemfile.lock", "go.sum", "podfile.lock",
    ];
    assert(types::str_views(r@) =~= skipped_names());
    r
}

/// See [`excluded_dirs`].
fn excluded_dir_list() -> (r: Vec<&'static str>)
    ensures
        types::str_views(r@) == excluded_dirs(),
{
    let r: Vec<&'static str> = vec![
        "target", "node_modules", ".venv", "venv", "env", "Pods", "build", "dist", ".git",
        ".gradle", ".next", ".nuxt", "__pycache__", ".cache", "DerivedData", "vendor", ".idea",
        ".vscode", "out", ".dart_tool", ".mypy_cache", ".pytest_cache", ".tox", "bin", "obj",
        ".svn", ".hg", ".terraform", "coverage", ".codegraph", "Carthage", ".bundle",
        "bower_components", ".yarn", ".pnp",
    ];
    assert(types::str_views(r@) =~= excluded_dirs());
    r
}

/// Whether a directory of this name is never indexed.
pub fn is_excluded_dir(name: &str) -> (r: bool)
    ensures
        r == excluded_dirs().contains(name@),
{
    is_one_of(name, &excluded_dir_list())
}

/// The extension of a file name: what follows its last dot, unless that is its
/// first character.
pub open spec fn name_extension(name: Seq<char>) -> Seq<char> {
    if name.len() > 0 && name.skip(1).contains('.') {
        search::after_last(name, '.')
    } else {
        Seq::empty()
    }
}

/// See [`name_extension`].
fn extension_of_name(name: &str) -> (r: String)
    ensures
        r@ == name_extension(name@),
{
    let v = text::chars_of(name);
    let mut i: usize = 1;
    while i < v.len()
        invariant
            1 <= i,
            v@ == name@,
            forall|k: int| 1 <= k < i && k < v@.len() ==> v@[k] != '.',
        decreases v.len() - i,
    {
        if v[i] == '.' {
            assert(name@.skip(1)[i - 1] == '.');
            return search::text_after_last(name, '.');
        }
        i += 1;
    }
    let none = String::new();
    assert(none@ =~= Seq::<char>::empty());
    none
}

/// Whether a file is indexed, and whether as a document.
pub open spec fn kind_of(path: Seq<char>, is_file: bool, len: u64) -> Option<bool> {
    let name = search::after_last(path, '/');
    let ext = name_extension(name);
    if !is_file || (!code_extensions().contains(ext) && !document_extensions().contains(ext))
        || skipped_names().contains(text::lower(name)) || len > MAX_FILE_BYTES {
        None
    } else {
        Some(document_extensions().contains(ext))
    }
}

/// See [`kind_of`].
pub fn classify(path: &str, is_file: bool, len: u64) -> (r: Option<bool>)
    ensures
        r == kind_of(path@, is_file, len),
{
    if !is_file {
        return None;
    }
    let name = search::text_after_last(path, '/');
    let ext = extension_of_name(name.as_str());
    let is_code = is_one_of(ext.as_str(), &code_extension_list());
    let is_doc = is_one_of(ext.as_str(), &document_extension_list());
    if !is_code && !is_doc {
        return None;
    }
    if is_one_of(text::to_lower(name.as_str()).as_str(), &skipped_name_list()) {
        return None;
    }
    if len > MAX_FILE_BYTES {
        return None;
    }
    Some(is_doc)
}

/// Whether a file is a TypeScript configuration: it is watched, never parsed.
pub open spec fn tsconfig_path(path: Seq<char>) -> bool {
    let name = search::after_last(path, '/');
    text::occurs_at(name, "tsconfig"@, 0) && text::occurs_at(
        name,
        ".json"@,
        name.len() - ".json"@.len(),
    )
}

/// See [`tsconfig_path`].
pub fn is_tsconfig(path: &str) -> (r: bool)
    ensures
        r == tsconfig_path(path@),
{
    let name = search::text_after_last(path, '/');
    text::begins_with(name.as_str(), "tsconfig") && text::finishes_with(name.as_str(), ".json")
}

/// Whether a part of a path is one of some names.
pub open spec fn has_part(path: Seq<char>, names: Seq<Seq<char>>) -> bool {
    exists|i: int|
        0 <= i < text::split_char(path, '/').len() && names.contains(
            #[trigger] text::split_char(path, '/')[i],
        )
}

/// Whether a part of a path is a directory that is never indexed.
pub open spec fn is_excluded(path: Seq<char>) -> bool {
    has_part(path, excluded_dirs())
}

/// See [`has_part`].
fn find_part(path: &str, names: &Vec<&'static str>) -> (r: bool)
    ensures
        r == has_part(path@, types::str_views(names@)),
{
    let parts = text::split_on(path, '/');
    let ghost all = text::views(parts@);
    let ghost known = types::str_views(names@);
    assert(all.len() == parts@.len());
    let mut i: usize = 0;
    while i < parts.len()
        invariant
            i <= parts.len(),
            all == text::views(parts@),
            all == text::split_char(path@, '/'),
            all.len() == parts@.len(),
            known == types::str_views(names@),
            forall|j: int| 0 <= j < i ==> !known.contains(#[trigger] all[j]),
        decreases parts.len() - i,
    {
        assert(all[i as int] == parts@[i as int]@);
        if is_one_of(parts[i].as_str(), names) {
            return true;
        }
        i += 1;
    }
    false
}

/// See [`is_excluded`].
pub fn excluded(path: &str) -> (r: bool)
    ensures
        r == is_excluded(path@),
{
    find_part(path, &excluded_dir_list())
}

/// The directories whose changes never touch the graph: build output,
/// dependencies, version control, and the graph itself.
pub open spec fn unwatched_dirs() -> Seq<Seq<char>> {
    seq![
        ".git"@, "target"@, "node_modules"@, "build"@, "dist"@, "out"@, ".venv"@, "venv"@,
        "__pycache__"@, "DerivedData"@, "Pods"@, ".gradle"@, ".next"@, ".cache"@, "vendor"@,
        ".codegraph"@, ".codegraph-cache"@,
    ]
}

/// See [`unwatched_dirs`].
fn unwatched_dir_list() -> (r: Vec<&'static str>)
    ensures
        types::str_views(r@) == unwatched_dirs(),
{
    let r: Vec<&'static str> = vec![
        ".git", "target", "node_modules", "build", "dist", "out", ".venv", "venv", "__pycache__",
        "DerivedData", "Pods", ".gradle", ".next", ".cache", "vendor", ".codegraph",
        ".codegraph-cache",
    ];
    assert(types::str_views(r@) =~= unwatched_dirs());
    r
}

/// Whether a change of a file may touch the graph.
pub fn is_watched(path: &str) -> (r: bool)
    ensures
        r == !has_part(path@, unwatched_dirs()),
{
    !find_part(path, &unwatched_dir_list())
}

/// The pieces of bytes between zeros.
pub open spec fn split_zero(b: Seq<u8>) -> Seq<Seq<u8>>
    decreases b.len(),
{
    if b.len() == 0 {
        seq![Seq::empty()]
    } else {
        let rest = split_zero(b.drop_last());
        if b.last() == 0 {
            rest.push(Seq::empty())
        } else {
            rest.drop_last().push(rest.last().push(b.last()))
        }
    }
}

/// The paths in a listing: the pieces that are texts, without the excluded
/// ones.
pub open spec fn listed(pieces: Seq<Seq<u8>>) -> Seq<Seq<char>>
    decreases pieces.len(),
{
    if pieces.len() == 0 {
        Seq::empty()
    } else {
        let rest = listed(pieces.drop_last());
        let p = pieces.last();
        if p.len() > 0 && valid_utf8(p) && !is_excluded(decode_utf8(p)) {
            rest.push(decode_utf8(p))
        } else {
            rest
        }
    }
}

/// The directories in a listing: the paths that end with a slash, without it.
pub open spec fn listed_dirs(paths: Seq<Seq<char>>) -> Seq<Seq<char>>
    decreases paths.len(),
{
    if paths.len() == 0 {
        paths
    } else {
        let rest = listed_dirs(paths.drop_last());
        let p = paths.last();
        if p.len() > 0 && p.last() == '/' {
            rest.push(text::strip_trail(p, '/'))
        } else {
            rest
        }
    }
}

/// What pieces of bytes hold.
pub open spec fn byte_views(v: Seq<Vec<u8>>) -> Seq<Seq<u8>> {
    v.map_values(|p: Vec<u8>| p@)
}

/// See [`split_zero`].
pub(crate) fn split_at_zero(b: &Vec<u8>) -> (r: Vec<Vec<u8>>)
    ensures
        byte_views(r@) == split_zero(b@),
{
    let mut done: Vec<Vec<u8>> = Vec::new();
    let mut open: Vec<u8> = Vec::new();
    let mut i: usize = 0;
    assert(byte_views(done@).push(open@) =~= split_zero(b@.take(0)));
    while i < b.len()
        invariant
            i <= b.len(),
            byte_views(done@).push(open@) == split_zero(b@.take(i as int)),
        decreases b.len() - i,
    {
        let ghost was = byte_views(done@);
        let ghost start = open@;
        assert(b@.take(i + 1).drop_last() =~= b@.take(i as int));
        assert(was.push(start).drop_last() =~= was);
        if b[i] == 0 {
            done.push(open);
            open = Vec::new();
            assert(byte_views(done@) =~= was.push(start));
            assert(open@ =~= Seq::<u8>::empty());
        } else {
            open.push(b[i]);
        }
        i += 1;
    }
    let ghost was = byte_views(done@);
    let ghost start = open@;
    done.push(open);
    assert(byte_views(done@) =~= was.push(start));
    assert(b@.take(b@.len() as int) =~= b@);
    done
}

/// The paths in a listing whose entries end with a zero byte; see [`listed`].
pub fn listed_files(listing: &Vec<u8>) -> (r: Vec<String>)
    ensures
        text::views(r@) == listed(split_zero(listing@)),
{
    let parts = split_at_zero(listing);
    let ghost all = byte_views(parts@);
    let mut out: Vec<String> = Vec::new();
    let mut i: usize = 0;
    assert(text::views(out@) =~= listed(all.take(0)));
    while i < parts.len()
        invariant
            i <= parts.len(),
            all == byte_views(parts@),
            text::views(out@) == listed(all.take(i as int)),
        decreases parts.len() - i,
    {
        let ghost was = text::views(out@);
        assert(all.take(i + 1).drop_last() =~= all.take(i as int));
        assert(all.take(i + 1).last() == parts@[i as int]@);
        if parts[i].len() > 0 {
            match std::str::from_utf8(parts[i].as_slice()) {
                Ok(s) => {
                    proof {
                        encode_utf8_decode_utf8(s@);
                    }
                    if !excluded(s) {
                        out.push(s.to_owned());
                        assert(text::views(out@) =~= was.push(s@));
                    }
                },
                Err(_) => {},
            }
        }
        i += 1;
    }
    assert(all.take(parts@.len() as int) =~= all);
    out
}

/// The directories in a listing; see [`listed_dirs`].
pub fn listed_directories(listing: &Vec<u8>) -> (r: Vec<String>)
    ensures
        text::views(r@) == listed_dirs(listed(split_zero(listing@))),
{
    let paths = listed_files(listing);
    let ghost all = text::views(paths@);
    let mut out: Vec<String> = Vec::new();
    let mut i: usize = 0;
    assert(text::views(out@) =~= listed_dirs(all.take(0)));
    while i < paths.len()
        invariant
            i <= paths.len(),
            all == text::views(paths@),
            text::views(out@) == listed_dirs(all.take(i as int)),
        decreases paths.len() - i,
    {
        let ghost was = text::views(out@);
        assert(all.take(i + 1).drop_last() =~= all.take(i as int));
        assert(all.take(i + 1).last() == paths@[i as int]@);
        let v = text::chars_of(paths[i].as_str());
        if v.len() > 0 && v[v.len() - 1] == '/' {
            out.push(text::without_trail(paths[i].as_str(), '/'));
            assert(text::views(out@) =~= was.push(text::strip_trail(paths@[i as int]@, '/')));
        }
        i += 1;
    }
    assert(all.take(paths@.len() as int) =~= all);
    out
}

/// The files of a directory and of the repositories below it; nothing where one
/// of those could not be listed.
pub open spec fn combined(own: Seq<Seq<char>>, nested: Seq<Option<Seq<Seq<char>>>>) -> Option<
    Seq<Seq<char>>,
>
    decreases nested.len(),
{
    if nested.len() == 0 {
        Some(own)
    } else {
        match (combined(own, nested.drop_last()), nested.last()) {
            (Some(a), Some(b)) => Some(a + b),
            _ => None,
        }
    }
}

/// What the listings of nested repositories hold.
pub open spec fn nested_views(v: Seq<Option<Vec<String>>>) -> Seq<Option<Seq<Seq<char>>>> {
    v.map_values(
        |o: Option<Vec<String>>|
            match o {
                Some(l) => Some(text::views(l@)),
                None => None,
            },
    )
}

proof fn lemma_combined_none(own: Seq<Seq<char>>, nested: Seq<Option<Seq<Seq<char>>>>, k: int)
    requires
        0 < k <= nested.len(),
        combined(own, nested.take(k)) is None,
    ensures
        combined(own, nested) is None,
    decreases nested.len(),
{
    if k < nested.len() {
        assert(nested.drop_last().take(k) =~= nested.take(k));
        lemma_combined_none(own, nested.drop_last(), k);
    } else {
        assert(nested.take(k) =~= nested);
    }
}

/// The files of a directory and of the repositories below it; see
/// [`combined`].
pub fn combine_listings(own: Vec<String>, nested: &Vec<Option<Vec<String>>>) -> (r: Option<
    Vec<String>,
>)
    ensures
        match r {
            Some(l) => combined(text::views(own@), nested_views(nested@)) == Some(
                text::views(l@),
            ),
            None => combined(text::views(own@), nested_views(nested@)) is None,
        },
{
    let ghost start = text::views(own@);
    let ghost all = nested_views(nested@);
    let mut out = own;
    let mut i: usize = 0;
    assert(combined(start, all.take(0)) == Some(text::views(out@)));
    while i < nested.len()
        invariant
            i <= nested.len(),
            start == text::views(own@),
            all == nested_views(nested@),
            combined(start, all.take(i as int)) == Some(text::views(out@)),
        decreases nested.len() - i,
    {
        assert(all.take(i + 1).drop_last() =~= all.take(i as int));
        let ghost was = text::views(out@);
        match &nested[i] {
            Some(l) => {
                assert(all[i as int] == Some(text::views(l@)));
                let mut j: usize = 0;
                while j < l.len()
                    invariant
                        j <= l.len(),
                        text::views(out@) == was + text::views(l@).take(j as int),
                    decreases l.len() - j,
                {
                    let ghost now = text::views(out@);
                    out.push(l[j].clone());
                    assert(text::views(out@) =~= now.push(l@[j as int]@));
                    assert(text::views(l@).take(j + 1) =~= text::views(l@).take(j as int).push(
                        l@[j as int]@,
                    ));
                    j += 1;
                }
                assert(text::views(l@).take(l@.len() as int) =~= text::views(l@));
            },
            None => {
                assert(all[i as int] is None);
                proof {
                    lemma_combined_none(start, all, i + 1);
                }
                return None;
            },
        }
        i += 1;
    }
    assert(all.take(nested@.len() as int) =~= all);
    Some(out)
}

/// Nothing below an excluded directory is listed.
pub proof fn law_excluded_is_not_listed(pieces: Seq<Seq<u8>>)
    ensures
        forall|i: int| 0 <= i < listed(pieces).len() ==> !is_excluded(#[trigger] listed(pieces)[i]),
    decreases pieces.len(),
{
    if pieces.len() > 0 {
        law_excluded_is_not_listed(pieces.drop_last());
        let rest = listed(pieces.drop_last());
        let all = listed(pieces);
        assert forall|i: int| 0 <= i < all.len() implies !is_excluded(#[trigger] all[i]) by {
            if i < rest.len() {
                assert(all[i] == rest[i]);
            }
        }
    }
}

} // verus!
