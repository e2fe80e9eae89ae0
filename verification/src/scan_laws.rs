//! Which files are indexed, and which of them a run has to read again.

use vstd::prelude::*;
use vstd::string::*;

use crate::listing;
use crate::rows;
use crate::scan;
use crate::scan::FileInfo;
use crate::search_laws;
use crate::store;
use crate::tables::{ManifestEntry, ManifestEntryModel};
use crate::text;

verus! {

/// Whether an extension is that of a source file.
pub open spec fn is_source_ending(x: Seq<char>) -> bool {
    ||| x == "rs"@
    ||| x == "py"@
    ||| x == "pyi"@
    ||| x == "js"@
    ||| x == "jsx"@
    ||| x == "mjs"@
    ||| x == "cjs"@
    ||| x == "ts"@
    ||| x == "mts"@
    ||| x == "cts"@
    ||| x == "tsx"@
    ||| x == "go"@
    ||| x == "swift"@
    ||| x == "java"@
    ||| x == "c"@
    ||| x == "h"@
    ||| x == "cpp"@
    ||| x == "cc"@
    ||| x == "cxx"@
    ||| x == "hpp"@
    ||| x == "hh"@
    ||| x == "hxx"@
    ||| x == "rb"@
    ||| x == "cs"@
    ||| x == "sh"@
    ||| x == "bash"@
    ||| x == "kt"@
    ||| x == "kts"@
}

proof fn lemma_code_extensions(x: Seq<char>)
    ensures
        listing::code_extensions().contains(x) == is_source_ending(x),
{
    let t = listing::code_extensions();
    assert(t.len() == 28);
    assert(t[0] == "rs"@);
    assert(t[1] == "py"@);
    assert(t[2] == "pyi"@);
    assert(t[3] == "js"@);
    assert(t[4] == "jsx"@);
    assert(t[5] == "mjs"@);
    assert(t[6] == "cjs"@);
    assert(t[7] == "ts"@);
    assert(t[8] == "mts"@);
    assert(t[9] == "cts"@);
    assert(t[10] == "tsx"@);
    assert(t[11] == "go"@);
    assert(t[12] == "swift"@);
    assert(t[13] == "java"@);
    assert(t[14] == "c"@);
    assert(t[15] == "h"@);
    assert(t[16] == "cpp"@);
    assert(t[17] == "cc"@);
    assert(t[18] == "cxx"@);
    assert(t[19] == "hpp"@);
    assert(t[20] == "hh"@);
    assert(t[21] == "hxx"@);
    assert(t[22] == "rb"@);
    assert(t[23] == "cs"@);
    assert(t[24] == "sh"@);
    assert(t[25] == "bash"@);
    assert(t[26] == "kt"@);
    assert(t[27] == "kts"@);
    if t.contains(x) {
        let i = choose|i: int| 0 <= i < t.len() && t[i] == x;
        assert(0 <= i < 28);
    }
}

/// Whether an extension is that of a document.
pub open spec fn is_document_ending(x: Seq<char>) -> bool {
    ||| x == "md"@
    ||| x == "markdown"@
    ||| x == "mdx"@
    ||| x == "rst"@
    ||| x == "adoc"@
    ||| x == "asciidoc"@
    ||| x == "txt"@
    ||| x == "strings"@
    ||| x == "stringsdict"@
    ||| x == "po"@
    ||| x == "xliff"@
    ||| x == "xlf"@
    ||| x == "arb"@
}

proof fn lemma_document_extensions(x: Seq<char>)
    ensures
        listing::document_extensions().contains(x) == is_document_ending(x),
{
    let t = listing::document_extensions();
    assert(t.len() == 13);
    assert(t[0] == "md"@);
    assert(t[1] == "markdown"@);
    assert(t[2] == "mdx"@);
    assert(t[3] == "rst"@);
    assert(t[4] == "adoc"@);
    assert(t[5] == "asciidoc"@);
    assert(t[6] == "txt"@);
    assert(t[7] == "strings"@);
    assert(t[8] == "stringsdict"@);
    assert(t[9] == "po"@);
    assert(t[10] == "xliff"@);
    assert(t[11] == "xlf"@);
    assert(t[12] == "arb"@);
    if t.contains(x) {
        let i = choose|i: int| 0 <= i < t.len() && t[i] == x;
        assert(0 <= i < 13);
    }
}

/// Whether a name, in small letters, is that of a file that tools write.
pub open spec fn is_lock_file(x: Seq<char>) -> bool {
    ||| x == "package-lock.json"@
    ||| x == "yarn.lock"@
    ||| x == "pnpm-lock.yaml"@
    ||| x == "composer.lock"@
    ||| x == "poetry.lock"@
    ||| x == "cargo.lock"@
    ||| x == "gemfile.lock"@
    ||| x == "go.sum"@
    ||| x == "podfile.lock"@
}

proof fn lemma_skipped_names(x: Seq<char>)
    ensures
        listing::skipped_names().contains(x) == is_lock_file(x),
{
    let t = listing::skipped_names();
    assert(t.len() == 9);
    assert(t[0] == "package-lock.json"@);
    assert(t[1] == "yarn.lock"@);
    assert(t[2] == "pnpm-lock.yaml"@);
    assert(t[3] == "composer.lock"@);
    assert(t[4] == "poetry.lock"@);
    assert(t[5] == "cargo.lock"@);
    assert(t[6] == "gemfile.lock"@);
    assert(t[7] == "go.sum"@);
    assert(t[8] == "podfile.lock"@);
    if t.contains(x) {
        let i = choose|i: int| 0 <= i < t.len() && t[i] == x;
        assert(0 <= i < 9);
    }
}

/// Whether a directory of this name is never indexed.
pub open spec fn is_never_indexed(x: Seq<char>) -> bool {
    ||| x == "target"@
    ||| x == "node_modules"@
    ||| x == ".venv"@
    ||| x == "venv"@
    ||| x == "env"@
    ||| x == "Pods"@
    ||| x == "build"@
    ||| x == "dist"@
    ||| x == ".git"@
    ||| x == ".gradle"@
    ||| x == ".next"@
    ||| x == ".nuxt"@
    ||| x == "__pycache__"@
    ||| x == ".cache"@
    ||| x == "DerivedData"@
    ||| x == "vendor"@
    ||| x == ".idea"@
    ||| x == ".vscode"@
    ||| x == "out"@
    ||| x == ".dart_tool"@
    ||| x == ".mypy_cache"@
    ||| x == ".pytest_cache"@
    ||| x == ".tox"@
    ||| x == "bin"@
    ||| x == "obj"@
    ||| x == ".svn"@
    ||| x == ".hg"@
    ||| x == ".terraform"@
    ||| x == "coverage"@
    ||| x == ".codegraph"@
    ||| x == "Carthage"@
    ||| x == ".bundle"@
    ||| x == "bower_components"@
    ||| x == ".yarn"@
    ||| x == ".pnp"@
}

proof fn lemma_excluded_dirs(x: Seq<char>)
    ensures
        listing::excluded_dirs().contains(x) == is_never_indexed(x),
{
    let t = listing::excluded_dirs();
    assert(t.len() == 35);
    assert(t[0] == "target"@);
    assert(t[1] == "node_modules"@);
    assert(t[2] == ".venv"@);
    assert(t[3] == "venv"@);
    assert(t[4] == "env"@);
    assert(t[5] == "Pods"@);
    assert(t[6] == "build"@);
    assert(t[7] == "dist"@);
    assert(t[8] == ".git"@);
    assert(t[9] == ".gradle"@);
    assert(t[10] == ".next"@);
    assert(t[11] == ".nuxt"@);
    assert(t[12] == "__pycache__"@);
    assert(t[13] == ".cache"@);
    assert(t[14] == "DerivedData"@);
    assert(t[15] == "vendor"@);
    assert(t[16] == ".idea"@);
    assert(t[17] == ".vscode"@);
    assert(t[18] == "out"@);
    assert(t[19] == ".dart_tool"@);
    assert(t[20] == ".mypy_cache"@);
    assert(t[21] == ".pytest_cache"@);
    assert(t[22] == ".tox"@);
    assert(t[23] == "bin"@);
    assert(t[24] == "obj"@);
    assert(t[25] == ".svn"@);
    assert(t[26] == ".hg"@);
    assert(t[27] == ".terraform"@);
    assert(t[28] == "coverage"@);
    assert(t[29] == ".codegraph"@);
    assert(t[30] == "Carthage"@);
    assert(t[31] == ".bundle"@);
    assert(t[32] == "bower_components"@);
    assert(t[33] == ".yarn"@);
    assert(t[34] == ".pnp"@);
    if t.contains(x) {
        let i = choose|i: int| 0 <= i < t.len() && t[i] == x;
        assert(0 <= i < 35);
    }
}

/// What is never indexed is told by the name of its directory.
pub proof fn law_directories_that_are_never_indexed(name: Seq<char>)
    ensures
        listing::excluded_dirs().contains(name) <==> is_never_indexed(name),
{
    lemma_excluded_dirs(name);
}

/// A file is indexed where it is a regular one of at most a million and a half
/// bytes, its name is not that of a file that tools write, and its extension is
/// that of a source file or of a document; it is a document by its extension.
pub proof fn law_files_are_indexed_by_their_names(
    dir: Seq<char>,
    stem: Seq<char>,
    ext: Seq<char>,
    is_file: bool,
    len: u64,
)
    requires
        stem.len() > 0,
        !stem.contains('/'),
        !ext.contains('/'),
        !ext.contains('.'),
    ensures
        ({
            let name = stem + seq!['.'] + ext;
            let k = listing::kind_of(dir + seq!['/'] + name, is_file, len);
            &&& k is Some <==> is_file && len <= 1_500_000 && !is_lock_file(text::lower(name)) && (
            is_source_ending(ext) || is_document_ending(ext))
            &&& k is Some ==> k->0 == is_document_ending(ext)
        }),
{
    let name = stem + seq!['.'] + ext;
    assert(!name.contains('/')) by {
        if name.contains('/') {
            let i = choose|i: int| 0 <= i < name.len() && name[i] == '/';
            if i < stem.len() {
                assert(stem[i] == '/');
            } else if i > stem.len() {
                assert(ext[i - stem.len() - 1] == '/');
            }
        }
    }
    search_laws::law_last_place_divides(dir, '/', name);
    search_laws::law_last_place_divides(stem, '.', ext);
    assert(name.skip(1)[stem.len() - 1] == '.');
    assert(name.skip(1).contains('.'));
    lemma_code_extensions(ext);
    lemma_document_extensions(ext);
    lemma_skipped_names(text::lower(name));
}

/// What is noted of a file, where something is and not everything is indexed
/// anew.
pub open spec fn is_noted(
    manifest: Seq<ManifestEntryModel>,
    full: bool,
    rel: Seq<char>,
    m: ManifestEntryModel,
) -> bool {
    !full && manifest.contains(m) && m.file_path == rel
}

proof fn lemma_known(manifest: Seq<ManifestEntryModel>, full: bool, rel: Seq<char>)
    requires
        rows::unique::<ManifestEntry>(manifest),
    ensures
        match scan::known(manifest, full, rel) {
            Some(m) => is_noted(manifest, full, rel, m) && forall|o: ManifestEntryModel| #[trigger]
                is_noted(manifest, full, rel, o) ==> o == m,
            None => forall|o: ManifestEntryModel| !#[trigger] is_noted(manifest, full, rel, o),
        },
{
    let test = store::manifest_is(rel);
    rows::lemma_first_at(manifest, test);
    if !full {
        match rows::first_at(manifest, test) {
            Some(i) => {
                assert(manifest.contains(manifest[i]));
                assert forall|o: ManifestEntryModel| #[trigger]
                    is_noted(manifest, full, rel, o) implies o == manifest[i] by {
                    let j = choose|j: int| 0 <= j < manifest.len() && manifest[j] == o;
                    if i < j {
                        assert(<ManifestEntry as rows::Keyed>::key(manifest[i])
                            != <ManifestEntry as rows::Keyed>::key(manifest[j]));
                    } else if j < i {
                        assert(!test(manifest[j]));
                    }
                }
            },
            None => {
                assert forall|o: ManifestEntryModel| !#[trigger] is_noted(
                    manifest,
                    full,
                    rel,
                    o,
                ) by {
                    if is_noted(manifest, full, rel, o) {
                        let j = choose|j: int| 0 <= j < manifest.len() && manifest[j] == o;
                        assert(!test(manifest[j]));
                    }
                }
            },
        }
    }
}

/// Whether a run has to parse a file: it is indexed, it could be read, and
/// nothing is noted of it with its time or with the hash of its text.
pub open spec fn has_changed(
    manifest: Seq<ManifestEntryModel>,
    full: bool,
    f: FileInfo,
    source: Option<Seq<char>>,
) -> bool {
    &&& !listing::tsconfig_path(f.rel@)
    &&& listing::kind_of(f.rel@, f.is_file, f.len) is Some
    &&& source is Some
    &&& forall|m: ManifestEntryModel| #[trigger]
        is_noted(manifest, full, f.rel@, m) ==> (m.mtime != f.mtime || f.mtime == 0) && m.sha256
            != scan::sha(source->0)
}

/// A run parses just the files that have changed, each with the hash of its
/// text; where everything is indexed anew, all that can be read.
pub proof fn law_changed_files_are_parsed(
    manifest: Seq<ManifestEntryModel>,
    full: bool,
    files: Seq<FileInfo>,
    sources: Seq<Option<Seq<char>>>,
    n: nat,
)
    requires
        n <= files.len(),
        rows::unique::<ManifestEntry>(manifest),
    ensures
        ({
            let r = scan::scanned(manifest, full, files, sources, n).changed;
            &&& forall|i: nat, h: Seq<char>, doc: bool| #[trigger]
                r.contains((i, h, doc)) <==> i < n && has_changed(
                    manifest,
                    full,
                    files[i as int],
                    sources[i as int],
                ) && h == scan::sha(sources[i as int]->0) && listing::kind_of(
                    files[i as int].rel@,
                    files[i as int].is_file,
                    files[i as int].len,
                ) == Some(doc)
        }),
    decreases n,
{
    let r = scan::scanned(manifest, full, files, sources, n).changed;
    if n > 0 {
        let b = scan::scanned(manifest, full, files, sources, (n - 1) as nat).changed;
        let f = files[n - 1];
        let source = sources[n - 1];
        law_changed_files_are_parsed(manifest, full, files, sources, (n - 1) as nat);
        lemma_known(manifest, full, f.rel@);
        let entry = scan::known(manifest, full, f.rel@);
        let kind = listing::kind_of(f.rel@, f.is_file, f.len);
        assert(has_changed(manifest, full, f, source) == (!listing::tsconfig_path(f.rel@)
            && kind is Some && source is Some && (entry matches Some(m) ==> (m.mtime != f.mtime
            || f.mtime == 0) && m.sha256 != scan::sha(source->0))));
        assert forall|i: nat, h: Seq<char>, doc: bool| #[trigger] r.contains((i, h, doc)) <==> i < n
            && has_changed(manifest, full, files[i as int], sources[i as int]) && h == scan::sha(
            sources[i as int]->0,
        ) && listing::kind_of(
            files[i as int].rel@,
            files[i as int].is_file,
            files[i as int].len,
        ) == Some(doc) by {
            let x = (i, h, doc);
            if has_changed(manifest, full, f, source) {
                let new = ((n - 1) as nat, scan::sha(source->0), kind->0);
                assert(r == b.push(new));
                if b.contains(x) {
                    let k = choose|k: int| 0 <= k < b.len() && b[k] == x;
                    assert(r[k] == x);
                }
                assert(r[b.len() as int] == new);
                if r.contains(x) {
                    let k = choose|k: int| 0 <= k < r.len() && r[k] == x;
                    if k < b.len() {
                        assert(b[k] == x);
                        assert(b.contains(x));
                    }
                }
            } else {
                assert(r == b);
            }
        }
    }
}

/// The working tree differs from what is noted where a file of it is not noted
/// with its time, or where there are not as many files as notes.
pub proof fn law_tree_differs_from_the_notes(
    manifest: Seq<ManifestEntryModel>,
    tree: Seq<(Seq<char>, i64)>,
)
    requires
        rows::unique::<ManifestEntry>(manifest),
    ensures
        scan::tree_differs(manifest, tree) <==> tree.len() != manifest.len() || exists|i: int|
            0 <= i < tree.len() && is_new_or_changed(manifest, #[trigger] tree[i]),
{
    assert forall|i: int| 0 <= i < tree.len() implies ((match rows::first(
        manifest,
        store::manifest_is((#[trigger] tree[i]).0),
    ) {
        Some(m) => m.mtime != tree[i].1,
        None => true,
    }) == is_new_or_changed(manifest, tree[i])) by {
        lemma_known(manifest, false, tree[i].0);
        assert(scan::known(manifest, false, tree[i].0) == rows::first(
            manifest,
            store::manifest_is(tree[i].0),
        ));
        if !is_new_or_changed(manifest, tree[i]) {
            let m = choose|m: ManifestEntryModel| #[trigger]
                manifest.contains(m) && m.file_path == tree[i].0 && m.mtime == tree[i].1;
            assert(is_noted(manifest, false, tree[i].0, m));
        }
        if scan::known(manifest, false, tree[i].0) is Some {
            let m = scan::known(manifest, false, tree[i].0)->0;
            assert(is_noted(manifest, false, tree[i].0, m));
            assert(manifest.contains(m));
        }
    }
}

/// Whether a file of the tree is not noted with its time.
pub open spec fn is_new_or_changed(
    manifest: Seq<ManifestEntryModel>,
    f: (Seq<char>, i64),
) -> bool {
    forall|m: ManifestEntryModel| #[trigger]
        manifest.contains(m) && m.file_path == f.0 ==> m.mtime != f.1
}

} // verus!
