//! Viewing and editing the settings by key: edits keep the comments and the
//! other keys of the file.

use toml_edit::DocumentMut;
use vstd::prelude::*;
use vstd::string::*;

use crate::config;
use crate::config::Config;
use crate::text;
use crate::types;
use crate::value;
use crate::value::{DatumModel, Entries};

verus! {

/// The kind of value that a key takes.
#[derive(Debug, Clone, Copy, PartialEq, Eq, Structural)]
pub enum KeyKind {
    Text,
    Flag,
}

/// A value for a key.
#[derive(Debug, PartialEq, Eq)]
pub enum Setting {
    Flag(bool),
    Text(String),
}

impl Setting {
    /// The value in a document.
    pub open spec fn datum(self) -> DatumModel {
        match self {
            Setting::Flag(b) => DatumModel::Bool(b),
            Setting::Text(s) => DatumModel::Text(s@),
        }
    }
}

/// The editable keys in the order in which they are shown.
pub open spec fn key_names() -> Seq<Seq<char>> {
    seq![
        "cache_dir"@,
        "embed_model"@,
        "llm.provider"@,
        "llm.base_url"@,
        "llm.model"@,
        "llm.rerank"@,
        "llm.hyde"@,
        "llm.auto_install"@,
        "ingest.media"@,
        "ingest.images"@,
        "ingest.videos"@,
    ]
}

/// The table, the key in it and the kind of an editable key.
pub open spec fn key_place(name: Seq<char>) -> Option<(Seq<char>, Seq<char>, KeyKind)> {
    if name == "cache_dir"@ {
        Some((""@, "cache_dir"@, KeyKind::Text))
    } else if name == "embed_model"@ {
        Some((""@, "embed_model"@, KeyKind::Text))
    } else if name == "llm.provider"@ {
        Some(("llm"@, "provider"@, KeyKind::Text))
    } else if name == "llm.base_url"@ {
        Some(("llm"@, "base_url"@, KeyKind::Text))
    } else if name == "llm.model"@ {
        Some(("llm"@, "model"@, KeyKind::Text))
    } else if name == "llm.rerank"@ {
        Some(("llm"@, "rerank"@, KeyKind::Flag))
    } else if name == "llm.hyde"@ {
        Some(("llm"@, "hyde"@, KeyKind::Flag))
    } else if name == "llm.auto_install"@ {
        Some(("llm"@, "auto_install"@, KeyKind::Flag))
    } else if name == "ingest.media"@ {
        Some(("ingest"@, "media"@, KeyKind::Flag))
    } else if name == "ingest.images"@ {
        Some(("ingest"@, "images"@, KeyKind::Flag))
    } else if name == "ingest.videos"@ {
        Some(("ingest"@, "videos"@, KeyKind::Flag))
    } else {
        None
    }
}

/// See [`key_place`].
pub fn find_key(name: &str) -> (r: Option<(&'static str, &'static str, KeyKind)>)
    ensures
        match r {
            Some(p) => key_place(name@) == Some((p.0@, p.1@, p.2)),
            None => key_place(name@) is None,
        },
{
    if text::same(name, "cache_dir") {
        Some(("", "cache_dir", KeyKind::Text))
    } else if text::same(name, "embed_model") {
        Some(("", "embed_model", KeyKind::Text))
    } else if text::same(name, "llm.provider") {
        Some(("llm", "provider", KeyKind::Text))
    } else if text::same(name, "llm.base_url") {
        Some(("llm", "base_url", KeyKind::Text))
    } else if text::same(name, "llm.model") {
        Some(("llm", "model", KeyKind::Text))
    } else if text::same(name, "llm.rerank") {
        Some(("llm", "rerank", KeyKind::Flag))
    } else if text::same(name, "llm.hyde") {
        Some(("llm", "hyde", KeyKind::Flag))
    } else if text::same(name, "llm.auto_install") {
        Some(("llm", "auto_install", KeyKind::Flag))
    } else if text::same(name, "ingest.media") {
        Some(("ingest", "media", KeyKind::Flag))
    } else if text::same(name, "ingest.images") {
        Some(("ingest", "images", KeyKind::Flag))
    } else if text::same(name, "ingest.videos") {
        Some(("ingest", "videos", KeyKind::Flag))
    } else {
        None
    }
}

/// The editable keys; see [`key_names`].
pub fn keys() -> (r: Vec<String>)
    ensures
        text::views(r@) == key_names(),
{
    let mut v: Vec<String> = Vec::new();
    v.push("cache_dir".to_owned());
    v.push("embed_model".to_owned());
    v.push("llm.provider".to_owned());
    v.push("llm.base_url".to_owned());
    v.push("llm.model".to_owned());
    v.push("llm.rerank".to_owned());
    v.push("llm.hyde".to_owned());
    v.push("llm.auto_install".to_owned());
    v.push("ingest.media".to_owned());
    v.push("ingest.images".to_owned());
    v.push("ingest.videos".to_owned());
    assert(text::views(v@) =~= key_names());
    v
}

/// A switch as it is shown.
pub open spec fn flag_text(b: bool) -> Seq<char> {
    if b {
        "true"@
    } else {
        "false"@
    }
}

/// See [`flag_text`].
fn show_flag(b: bool) -> (r: String)
    ensures
        r@ == flag_text(b),
{
    if b {
        "true".to_owned()
    } else {
        "false".to_owned()
    }
}

/// The text, or else what stands for its absence.
pub open spec fn or_text(o: Option<Seq<char>>, absent: Seq<char>) -> Seq<char> {
    match o {
        Some(s) => s,
        None => absent,
    }
}

/// See [`or_text`].
fn show_option(o: &Option<String>, absent: &str) -> (r: String)
    ensures
        r@ == or_text(types::opt_text(*o), absent@),
{
    match o {
        Some(s) => s.clone(),
        None => absent.to_owned(),
    }
}

/// The value of an editable key as it is shown.
pub open spec fn shown(cfg: config::ConfigModel, key: Seq<char>) -> Option<Seq<char>> {
    if key == "cache_dir"@ {
        Some(or_text(cfg.cache_dir, "~/.cache/codegraph (default)"@))
    } else if key == "embed_model"@ {
        Some(or_text(cfg.embed_model, "(none)"@))
    } else if key == "llm.provider"@ {
        Some(cfg.llm.provider)
    } else if key == "llm.base_url"@ {
        Some(or_text(cfg.llm.base_url, "(auto-detect)"@))
    } else if key == "llm.model"@ {
        Some(cfg.llm.model)
    } else if key == "llm.rerank"@ {
        Some(flag_text(cfg.llm.rerank))
    } else if key == "llm.hyde"@ {
        Some(flag_text(cfg.llm.hyde))
    } else if key == "llm.auto_install"@ {
        Some(flag_text(cfg.llm.auto_install))
    } else if key == "ingest.media"@ {
        Some(flag_text(cfg.ingest.media))
    } else if key == "ingest.images"@ {
        Some(flag_text(cfg.ingest.images))
    } else if key == "ingest.videos"@ {
        Some(flag_text(cfg.ingest.videos))
    } else {
        None
    }
}

/// See [`shown`].
pub fn resolved(cfg: &Config, key: &str) -> (r: Option<String>)
    ensures
        types::opt_text(r) == shown(cfg@, key@),
{
    if text::same(key, "cache_dir") {
        Some(show_option(&cfg.cache_dir, "~/.cache/codegraph (default)"))
    } else if text::same(key, "embed_model") {
        Some(show_option(&cfg.embed_model, "(none)"))
    } else if text::same(key, "llm.provider") {
        Some(cfg.llm.provider.clone())
    } else if text::same(key, "llm.base_url") {
        Some(show_option(&cfg.llm.base_url, "(auto-detect)"))
    } else if text::same(key, "llm.model") {
        Some(cfg.llm.model.clone())
    } else if text::same(key, "llm.rerank") {
        Some(show_flag(cfg.llm.rerank))
    } else if text::same(key, "llm.hyde") {
        Some(show_flag(cfg.llm.hyde))
    } else if text::same(key, "llm.auto_install") {
        Some(show_flag(cfg.llm.auto_install))
    } else if text::same(key, "ingest.media") {
        Some(show_flag(cfg.ingest.media))
    } else if text::same(key, "ingest.images") {
        Some(show_flag(cfg.ingest.images))
    } else if text::same(key, "ingest.videos") {
        Some(show_flag(cfg.ingest.videos))
    } else {
        None
    }
}

/// The words that refuse a key.
pub open spec fn unknown_text(key: Seq<char>) -> Seq<char> {
    "unknown key '"@ + key + "'. Known keys:\n  "@ + text::join(key_names(), "\n  "@)
}

/// See [`unknown_text`].
pub fn unknown(key: &str) -> (r: String)
    ensures
        r@ == unknown_text(key@),
{
    "unknown key '".to_owned().concat(key).concat("'. Known keys:\n  ").concat(
        text::joined(&keys(), "\n  ").as_str(),
    )
}

/// The file that an edit goes to: the project's own, or the user's where there
/// is one.
pub fn target(local: bool, project: &str, global: Option<String>) -> (r: String)
    ensures
        r@ == (if local {
            project@
        } else {
            or_text(types::opt_text(global), project@)
        }),
{
    if local {
        project.to_owned()
    } else {
        match global {
            Some(g) => g,
            None => project.to_owned(),
        }
    }
}

/// `toml_edit::DocumentMut`, a TOML document that keeps its comments and its
/// layout when it is edited.
#[verifier::external_type_specification]
#[verifier::external_body]
pub struct ExDocumentMut(DocumentMut);

/// The line of each entry, under the name of its table, which is empty at the
/// top, and its own.
pub type EntryLines = Map<(Seq<char>, Seq<char>), Seq<char>>;

/// What a document holds at its top: tables with headers or dotted keys as
/// tables, texts and switches as such, and any other value in its notation.
pub uninterp spec fn document_contents(d: DocumentMut) -> Entries;

/// The text of a document.
pub uninterp spec fn document_text(d: DocumentMut) -> Seq<char>;

/// Whether a document was read from a text and has since been changed in its
/// entries alone.
pub uninterp spec fn is_from_text(d: DocumentMut) -> bool;

/// The lines of a document's entries as they are written: of each value at the
/// top, under the empty name, and in a table at the top that has a name, its key
/// and its value with the white space and the comments that belong to them.
pub uninterp spec fn document_lines(d: DocumentMut) -> EntryLines;

/// What a text holds as an editable document, with the lines of its entries, or
/// the words in which it is refused.
pub uninterp spec fn document_parsed(text: Seq<char>) -> Result<(Entries, EntryLines), Seq<char>>;

/// What a text holds as an editable document, or the words in which it is
/// refused.
pub open spec fn document_read(text: Seq<char>) -> Result<Entries, Seq<char>> {
    match document_parsed(text) {
        Ok(p) => Ok(p.0),
        Err(e) => Err(e),
    }
}

/// Whether the lines of a document have those of another one, but for an entry
/// and, where it is at the top, for the entries of a table of its name.
pub open spec fn keeps_lines(
    before: EntryLines,
    after: EntryLines,
    section: Seq<char>,
    name: Seq<char>,
) -> bool {
    forall|k: (Seq<char>, Seq<char>)| #[trigger]
        before.contains_key(k) && k != (section, name) && !(section.len() == 0 && k.0 == name)
            ==> after.contains_key(k) && after[k] == before[k]
}

/// Whether every line stands in a text.
pub open spec fn has_lines(text: Seq<char>, lines: EntryLines) -> bool {
    forall|k: (Seq<char>, Seq<char>)| #[trigger]
        lines.contains_key(k) ==> text::has_text(text, lines[k])
}

/// Whether a text has the lines of another one, with their comments and their
/// layout, but for an entry and, where it is at the top, for the entries of a
/// table of its name.
pub open spec fn keeps_layout(
    before: Seq<char>,
    after: Seq<char>,
    section: Seq<char>,
    name: Seq<char>,
) -> bool {
    forall|k: (Seq<char>, Seq<char>)| #[trigger]
        lines_of(before).contains_key(k) && k != (section, name) && !(section.len() == 0 && k.0
            == name) ==> text::has_text(after, lines_of(before)[k])
}

/// The lines of the entries of a text; none where it is refused.
pub open spec fn lines_of(text: Seq<char>) -> EntryLines {
    match document_parsed(text) {
        Ok(p) => p.1,
        Err(_) => Map::empty(),
    }
}

/// Whether no table at the top has a key twice, nor the top itself.
pub open spec fn has_keys_apart(t: Entries) -> bool {
    &&& value::keys_differ(t)
    &&& forall|i: int|
        0 <= i < t.len() ==> ((#[trigger] t[i]).1 matches DatumModel::Table(x)
            ==> value::keys_differ(x))
}

/// The table in a section; empty where it is not set.
pub open spec fn table_value(t: Entries, key: Seq<char>) -> Entries {
    match value::lookup(t, key) {
        Some(DatumModel::Table(x)) => x,
        _ => Seq::empty(),
    }
}

/// The switch or the text under a name in a table at the top, or at the top
/// itself where no table is named.
pub open spec fn setting_at(t: Entries, section: Seq<char>, name: Seq<char>) -> Option<DatumModel> {
    let found = if section.len() == 0 {
        value::lookup(t, name)
    } else {
        value::lookup(table_value(t, section), name)
    };
    match found {
        Some(DatumModel::Bool(_)) => found,
        Some(DatumModel::Text(_)) => found,
        _ => None,
    }
}

/// Whether a text is read as a document with the switches and texts of `t`.
pub open spec fn reads_settings(text: Seq<char>, t: Entries) -> bool {
    match document_read(text) {
        Ok(u) => forall|section: Seq<char>, name: Seq<char>| #[trigger]
            setting_at(u, section, name) == setting_at(t, section, name),
        Err(_) => false,
    }
}

/// What a document holds, with the lines of its entries.
pub open spec fn held_by(d: DocumentMut) -> Result<(Entries, EntryLines), Seq<char>> {
    Ok((document_contents(d), document_lines(d)))
}

/// A text that is refused with the words.
pub open spec fn refused_with(words: Seq<char>) -> Result<(Entries, EntryLines), Seq<char>> {
    Err(words)
}

/// `str::parse` to a `toml_edit::DocumentMut`, which refuses a key that is there
/// twice.
#[verifier::external_body]
fn read_document(text: &str) -> (r: Result<DocumentMut, String>)
    ensures
        match r {
            Ok(d) => document_parsed(text@) == held_by(d) && has_keys_apart(document_contents(d))
                && is_from_text(d),
            Err(e) => document_parsed(text@) == refused_with(e@),
        },
{
    text.parse::<DocumentMut>().map_err(|e| e.to_string())
}

/// `toml_edit::DocumentMut::to_string`: every value of a document is written as
/// its line. The text of a document that was read from one is read back with the
/// same switches and texts. A table that is left without entries may be missing
/// from it, and the order may be another.
#[verifier::external_body]
fn write_document(d: &DocumentMut) -> (r: String)
    ensures
        r@ == document_text(*d),
        has_lines(r@, document_lines(*d)),
        is_from_text(*d) ==> reads_settings(r@, document_contents(*d)),
{
    d.to_string()
}

/// `toml_edit::Table::get` with `Item::is_table`: whether the value under a
/// key at the top is a table; nothing where there is none.
#[verifier::external_body]
fn is_table_at(d: &DocumentMut, key: &str) -> (r: Option<bool>)
    ensures
        r == (match value::lookup(document_contents(*d), key@) {
            Some(DatumModel::Table(_)) => Some(true),
            Some(_) => Some(false),
            None => None,
        }),
{
    d.get(key).map(|i| i.is_table())
}

/// `toml_edit::Table::insert` with an empty table under a new key: it comes
/// last, and the lines of the entries stay.
#[verifier::external_body]
fn add_table(d: &mut DocumentMut, key: &str)
    requires
        value::lookup(document_contents(*old(d)), key@) is None,
    ensures
        document_contents(*final(d)) == document_contents(*old(d)).push(
            (key@, DatumModel::Table(Seq::empty())),
        ),
        forall|k: (Seq<char>, Seq<char>)| #[trigger]
            document_lines(*old(d)).contains_key(k) ==> document_lines(*final(d)).contains_key(k)
                && document_lines(*final(d))[k] == document_lines(*old(d))[k],
        is_from_text(*old(d)) ==> is_from_text(*final(d)),
{
    d.insert(key, toml_edit::Item::Table(toml_edit::Table::new()));
}

/// Assignment through `toml_edit::Table`'s index: the value under a key at the
/// top is replaced, or comes last. The lines of the other entries stay.
#[verifier::external_body]
fn set_top(d: &mut DocumentMut, key: &str, v: &Setting)
    ensures
        document_contents(*final(d)) == value::put(document_contents(*old(d)), key@, v.datum()),
        keeps_lines(document_lines(*old(d)), document_lines(*final(d)), Seq::empty(), key@),
        is_from_text(*old(d)) ==> is_from_text(*final(d)),
{
    let item = match v {
        Setting::Flag(b) => toml_edit::value(*b),
        Setting::Text(s) => toml_edit::value(s.as_str()),
    };
    d[key] = item;
}

/// Assignment through `toml_edit::Table`'s index in a table at the top. The lines
/// of the other entries stay.
#[verifier::external_body]
fn set_in(d: &mut DocumentMut, section: &str, key: &str, v: &Setting)
    requires
        value::lookup(document_contents(*old(d)), section@) matches Some(DatumModel::Table(_)),
    ensures
        document_contents(*final(d)) == value::put(
            document_contents(*old(d)),
            section@,
            DatumModel::Table(
                value::put(
                    table_value(document_contents(*old(d)), section@),
                    key@,
                    v.datum(),
                ),
            ),
        ),
        keeps_lines(document_lines(*old(d)), document_lines(*final(d)), section@, key@),
        is_from_text(*old(d)) ==> is_from_text(*final(d)),
{
    let item = match v {
        Setting::Flag(b) => toml_edit::value(*b),
        Setting::Text(s) => toml_edit::value(s.as_str()),
    };
    d[section][key] = item;
}

/// `toml_edit::Table::remove` at the top. The lines of the other entries stay.
#[verifier::external_body]
fn remove_top(d: &mut DocumentMut, key: &str)
    ensures
        document_contents(*final(d)) == value::without(document_contents(*old(d)), key@),
        keeps_lines(document_lines(*old(d)), document_lines(*final(d)), Seq::empty(), key@),
        is_from_text(*old(d)) ==> is_from_text(*final(d)),
{
    d.remove(key);
}

/// `toml_edit::Table::remove` in a table at the top. The lines of the other
/// entries stay.
#[verifier::external_body]
fn remove_in(d: &mut DocumentMut, section: &str, key: &str)
    requires
        value::lookup(document_contents(*old(d)), section@) matches Some(DatumModel::Table(_)),
    ensures
        document_contents(*final(d)) == value::put(
            document_contents(*old(d)),
            section@,
            DatumModel::Table(
                value::without(
                    table_value(document_contents(*old(d)), section@),
                    key@,
                ),
            ),
        ),
        keeps_lines(document_lines(*old(d)), document_lines(*final(d)), section@, key@),
        is_from_text(*old(d)) ==> is_from_text(*final(d)),
{
    d[section].as_table_mut().and_then(|t| t.remove(key));
}

/// Why an edit was refused. The file stays as it is.
#[derive(Debug, PartialEq, Eq)]
pub enum EditError {
    /// No such key; the words list the known ones.
    UnknownKey(String),
    /// The file is no TOML; the words say why.
    Malformed(String),
    /// What should be a table is something else.
    NotATable(String),
}

/// The words of an [`EditError`] about a file.
pub open spec fn edit_error_text(e: EditError, path: Seq<char>) -> Seq<char> {
    match e {
        EditError::UnknownKey(s) => s@,
        EditError::Malformed(s) => path + ": TOML syntax error: "@ + s@
            + " — repair it with `codegraph config edit`; nothing was written"@,
        EditError::NotATable(s) => "'"@ + s@ + "' is not a table"@,
    }
}

impl EditError {
    /// See [`edit_error_text`].
    pub fn message(&self, path: &str) -> (r: String)
        ensures
            r@ == edit_error_text(*self, path@),
    {
        match self {
            EditError::UnknownKey(s) => s.clone(),
            EditError::Malformed(s) => path.to_owned().concat(": TOML syntax error: ").concat(
                s.as_str(),
            ).concat(" — repair it with `codegraph config edit`; nothing was written"),
            EditError::NotATable(s) => "'".to_owned().concat(s.as_str()).concat(
                "' is not a table",
            ),
        }
    }
}

/// The value that a text gives a key of the kind.
pub open spec fn setting_datum(kind: KeyKind, v: Seq<char>) -> DatumModel {
    match kind {
        KeyKind::Flag => DatumModel::Bool(config::is_yes(v)),
        KeyKind::Text => DatumModel::Text(v),
    }
}

/// The contents of a document after an editable key was set.
pub open spec fn with_setting(
    t: Entries,
    place: (Seq<char>, Seq<char>, KeyKind),
    v: Seq<char>,
) -> Entries {
    let d = setting_datum(place.2, v);
    if place.0.len() == 0 {
        value::put(t, place.1, d)
    } else {
        let base = if value::lookup(t, place.0) is None {
            t.push((place.0, DatumModel::Table(Seq::empty())))
        } else {
            t
        };
        value::put(
            base,
            place.0,
            DatumModel::Table(value::put(table_value(base, place.0), place.1, d)),
        )
    }
}

/// The contents of a document after an editable key was taken out.
pub open spec fn without_setting(t: Entries, place: (Seq<char>, Seq<char>, KeyKind)) -> Entries {
    if place.0.len() == 0 {
        value::without(t, place.1)
    } else {
        value::put(
            t,
            place.0,
            DatumModel::Table(value::without(table_value(t, place.0), place.1)),
        )
    }
}

/// Whether the table of a key can be edited: it is a table or not there yet.
pub open spec fn is_editable(t: Entries, section: Seq<char>) -> bool {
    section.len() == 0 || match value::lookup(t, section) {
        Some(DatumModel::Table(_)) => true,
        Some(_) => false,
        None => true,
    }
}

/// Whether `out` is the text of a document with the given contents.
pub open spec fn is_text_of(out: Seq<char>, contents: Entries) -> bool {
    exists|d: DocumentMut| #[trigger] document_text(d) == out && document_contents(d) == contents
}

/// The text of a settings file after a key was set: everything else in it stays,
/// with its comments and its layout. A malformed file is refused, never
/// overwritten.
pub fn set(text: &str, key: &str, v: &str) -> (r: Result<String, EditError>)
    ensures
        match r {
            Ok(out) => {
                &&& key_place(key@) matches Some(place)
                &&& document_read(text@) matches Ok(t)
                &&& is_editable(t, place.0)
                &&& is_text_of(out@, with_setting(t, place, v@))
                &&& reads_settings(out@, with_setting(t, place, v@))
                &&& keeps_layout(text@, out@, place.0, place.1)
            },
            Err(EditError::UnknownKey(s)) => key_place(key@) is None && s@ == unknown_text(key@),
            Err(EditError::Malformed(s)) => key_place(key@) is Some && document_read(text@) == Err::<
                Entries,
                Seq<char>,
            >(s@),
            Err(EditError::NotATable(s)) => {
                &&& key_place(key@) matches Some(place)
                &&& s@ == place.0
                &&& document_read(text@) matches Ok(t)
                &&& !is_editable(t, place.0)
            },
        },
{
    let (section, name, kind) = match find_key(key) {
        Some(p) => p,
        None => return Err(EditError::UnknownKey(unknown(key))),
    };
    let mut d = match read_document(text) {
        Ok(d) => d,
        Err(e) => return Err(EditError::Malformed(e)),
    };
    let ghost t = document_contents(d);
    let item = match kind {
        KeyKind::Flag => Setting::Flag(config::yes_text(v)),
        KeyKind::Text => Setting::Text(v.to_owned()),
    };
    let ghost was = document_lines(d);
    if section.is_empty() {
        assert(section@ =~= Seq::empty());
        set_top(&mut d, name, &item);
    } else {
        match is_table_at(&d, section) {
            Some(true) => {},
            Some(false) => return Err(EditError::NotATable(section.to_owned())),
            None => {
                add_table(&mut d, section);
                proof {
                    lemma_put_absent(t, section@, DatumModel::Table(Seq::empty()));
                    value::lemma_put(t, section@, DatumModel::Table(Seq::empty()));
                }
            },
        }
        set_in(&mut d, section, name, &item);
    }
    let out = write_document(&d);
    assert(keeps_lines(was, document_lines(d), section@, name@));
    assert(document_contents(d) == with_setting(t, (section@, name@, kind), v@));
    Ok(out)
}

/// The text of a settings file after a key was taken out of it; nothing where
/// the key's table is not there. A malformed file is refused, never
/// overwritten.
pub fn unset(text: &str, key: &str) -> (r: Result<Option<String>, EditError>)
    ensures
        match r {
            Ok(Some(out)) => {
                &&& key_place(key@) matches Some(place)
                &&& document_read(text@) matches Ok(t)
                &&& is_text_of(out@, without_setting(t, place))
                &&& reads_settings(out@, without_setting(t, place))
                &&& keeps_layout(text@, out@, place.0, place.1)
                &&& place.0.len() > 0 ==> value::lookup(t, place.0) matches Some(
                    DatumModel::Table(_),
                )
            },
            Ok(None) => {
                &&& key_place(key@) matches Some(place)
                &&& document_read(text@) matches Ok(t)
                &&& place.0.len() > 0
                &&& !(value::lookup(t, place.0) matches Some(DatumModel::Table(_)))
            },
            Err(EditError::UnknownKey(s)) => key_place(key@) is None && s@ == unknown_text(key@),
            Err(EditError::Malformed(s)) => key_place(key@) is Some && document_read(text@) == Err::<
                Entries,
                Seq<char>,
            >(s@),
            Err(EditError::NotATable(_)) => false,
        },
{
    let (section, name, _kind) = match find_key(key) {
        Some(p) => p,
        None => return Err(EditError::UnknownKey(unknown(key))),
    };
    let mut d = match read_document(text) {
        Ok(d) => d,
        Err(e) => return Err(EditError::Malformed(e)),
    };
    let ghost was = document_lines(d);
    if section.is_empty() {
        assert(section@ =~= Seq::empty());
        remove_top(&mut d, name);
    } else {
        match is_table_at(&d, section) {
            Some(true) => remove_in(&mut d, section, name),
            _ => return Ok(None),
        }
    }
    assert(keeps_lines(was, document_lines(d), section@, name@));
    Ok(Some(write_document(&d)))
}

/// A key that was set has the value that it was given, and every other setting
/// stays; a top-level key takes the place of a table of its name.
pub proof fn law_set_value_is_there(
    t: Entries,
    place: (Seq<char>, Seq<char>, KeyKind),
    v: Seq<char>,
)
    requires
        is_editable(t, place.0),
    ensures
        setting_at(with_setting(t, place, v), place.0, place.1) == Some(
            setting_datum(place.2, v),
        ),
        forall|section: Seq<char>, name: Seq<char>|
            (section != place.0 || name != place.1) && (place.0.len() > 0 || section != place.1)
                ==> #[trigger] setting_at(with_setting(t, place, v), section, name) == setting_at(
                t,
                section,
                name,
            ),
{
    let d = setting_datum(place.2, v);
    if place.0.len() == 0 {
        value::lemma_put(t, place.1, d);
        assert(place.0 =~= Seq::empty());
        assert forall|section: Seq<char>, name: Seq<char>|
            (section != place.0 || name != place.1) && section != place.1 implies #[trigger] setting_at(
            with_setting(t, place, v),
            section,
            name,
        ) == setting_at(t, section, name) by {
            if section.len() == 0 {
                assert(section =~= place.0);
            }
        }
    } else {
        lemma_in_section(t, place.0, value::put(table_value(t, place.0), place.1, d));
        value::lemma_put(table_value(t, place.0), place.1, d);
        if value::lookup(t, place.0) is None {
            lemma_put_absent(t, place.0, DatumModel::Table(Seq::empty()));
            value::lemma_put(t, place.0, DatumModel::Table(Seq::empty()));
            lemma_in_section(
                value::put(t, place.0, DatumModel::Table(Seq::empty())),
                place.0,
                value::put(table_value(t, place.0), place.1, d),
            );
        }
    }
}

/// A key that was taken out has no value any more, and every other setting
/// stays; a table under the name of a top-level key goes with it.
pub proof fn law_unset_value_is_gone(t: Entries, place: (Seq<char>, Seq<char>, KeyKind))
    requires
        has_keys_apart(t),
    ensures
        setting_at(without_setting(t, place), place.0, place.1) is None,
        forall|section: Seq<char>, name: Seq<char>|
            (section != place.0 || name != place.1) && (place.0.len() > 0 || section != place.1)
                && is_editable(t, place.0) ==> #[trigger] setting_at(
                without_setting(t, place),
                section,
                name,
            ) == setting_at(t, section, name),
{
    if place.0.len() == 0 {
        assert(place.0 =~= Seq::empty());
        value::lemma_without_keeps(t, place.1, |x: DatumModel| true);
        value::lemma_without(t, place.1);
        assert forall|section: Seq<char>, name: Seq<char>|
            (section != place.0 || name != place.1) && section != place.1 implies #[trigger] setting_at(
            without_setting(t, place),
            section,
            name,
        ) == setting_at(t, section, name) by {
            if section.len() == 0 {
                assert(section =~= place.0);
            }
        }
    } else {
        let x = table_value(t, place.0);
        value::lemma_without(x, place.1);
        if is_editable(t, place.0) {
            lemma_in_section(t, place.0, value::without(x, place.1));
        }
        if value::lookup(t, place.0) matches Some(DatumModel::Table(_)) {
            value::lemma_lookup_place(t, place.0);
        }
        assert(value::keys_differ(x));
        value::lemma_without_keeps(x, place.1, |x: DatumModel| true);
        value::lemma_put(t, place.0, DatumModel::Table(value::without(x, place.1)));
    }
}

/// What is found under a key that was not there is what was put.
proof fn lemma_put_absent(t: Entries, key: Seq<char>, v: DatumModel)
    requires
        value::lookup(t, key) is None,
    ensures
        value::put(t, key, v) == t.push((key, v)),
    decreases t.len(),
{
    if t.len() == 0 {
        assert(seq![(key, v)] =~= t.push((key, v)));
    } else {
        lemma_put_absent(t.drop_first(), key, v);
        assert(seq![t[0]] + t.drop_first().push((key, v)) =~= t.push((key, v)));
    }
}

/// A changed table changes what is found in it alone.
proof fn lemma_in_section(t: Entries, section: Seq<char>, x: Entries)
    requires
        section.len() > 0,
        is_editable(t, section),
    ensures
        table_value(value::put(t, section, DatumModel::Table(x)), section) == x,
        forall|s: Seq<char>, name: Seq<char>|
            s != section ==> #[trigger] setting_at(
                value::put(t, section, DatumModel::Table(x)),
                s,
                name,
            ) == setting_at(t, s, name),
{
    value::lemma_put(t, section, DatumModel::Table(x));
}

} // verus!
