//! The paths that a diff changed.

use vstd::prelude::*;
use vstd::string::*;
use vstd::utf8::*;

use crate::answers;
use crate::listing;
use crate::rows;
use crate::text;

verus! {

/// What happened to a path.
#[derive(Debug, Clone, Copy, PartialEq, Eq, Structural)]
pub enum ChangeKind {
    Added,
    Modified,
    Deleted,
    Renamed,
    Copied,
}

/// A changed path: as it is now, and as it was where it has another name.
#[derive(Debug, PartialEq, Eq)]
pub struct ChangedPath {
    pub kind: ChangeKind,
    pub path: String,
    pub old_path: Option<String>,
}

/// The model of a [`ChangedPath`].
pub struct ChangeModel {
    pub kind: ChangeKind,
    pub path: Seq<char>,
    pub old_path: Option<Seq<char>>,
}

impl View for ChangedPath {
    type V = ChangeModel;

    open spec fn view(&self) -> ChangeModel {
        ChangeModel {
            kind: self.kind,
            path: self.path@,
            old_path: match self.old_path {
                Some(p) => Some(p@),
                None => None,
            },
        }
    }
}

/// The paths of a list of changes.
pub open spec fn change_views(v: Seq<ChangedPath>) -> Seq<ChangeModel> {
    v.map_values(|c: ChangedPath| c@)
}

/// Why a listing of changes was not understood.
#[derive(Debug)]
pub enum ChangeError {
    /// A status of no known kind.
    Unrecognized(String),
    /// Nothing follows a status.
    Truncated(String),
    /// A rename or copy without its second path.
    MissingPath,
}

/// The model of a [`ChangeError`].
pub enum ChangeFault {
    Unrecognized(Seq<char>),
    Truncated(Seq<char>),
    MissingPath,
}

impl View for ChangeError {
    type V = ChangeFault;

    open spec fn view(&self) -> ChangeFault {
        match *self {
            ChangeError::Unrecognized(s) => ChangeFault::Unrecognized(s@),
            ChangeError::Truncated(s) => ChangeFault::Truncated(s@),
            ChangeError::MissingPath => ChangeFault::MissingPath,
        }
    }
}

/// The notation of a character that may be missing.
pub uninterp spec fn quoted_char(c: Option<char>) -> Seq<char>;

/// The `Debug` notation of a character that may be missing, which depends on it
/// alone.
#[verifier::external_body]
fn quote_char(c: Option<char>) -> (r: String)
    ensures
        r@ == quoted_char(c),
{
    format!("{:?}", c)
}

/// The first character of a text, where there is one.
pub open spec fn first_char(s: Seq<char>) -> Option<char> {
    if s.len() > 0 {
        Some(s[0])
    } else {
        None
    }
}

/// The words of an error.
pub open spec fn change_fault_text(f: ChangeFault) -> Seq<char> {
    match f {
        ChangeFault::Unrecognized(s) => "unrecognized git status field "@ + answers::quoted(s)
            + " ("@ + quoted_char(first_char(s)) + ")"@,
        ChangeFault::Truncated(s) => "git -z stream truncated after "@ + answers::quoted(s),
        ChangeFault::MissingPath => "rename/copy missing new path"@,
    }
}

impl ChangeError {
    /// See [`change_fault_text`].
    pub fn message(&self) -> (r: String)
        ensures
            r@ == change_fault_text(self@),
    {
        match self {
            ChangeError::Unrecognized(s) => {
                let q = answers::quote(s.as_str());
                let v = text::chars_of(s.as_str());
                let first = quote_char(
                    if v.len() > 0 {
                        Some(v[0])
                    } else {
                        None
                    },
                );
                "unrecognized git status field ".to_owned().concat(q.as_str()).concat(" (").concat(
                    first.as_str(),
                ).concat(")")
            },
            ChangeError::Truncated(s) => {
                let q = answers::quote(s.as_str());
                "git -z stream truncated after ".to_owned().concat(q.as_str())
            },
            ChangeError::MissingPath => "rename/copy missing new path".to_owned(),
        }
    }
}

/// What a status says, by its first letter.
pub open spec fn kind_in(status: Seq<char>) -> Option<ChangeKind> {
    if status.len() == 0 {
        None
    } else if status[0] == 'A' {
        Some(ChangeKind::Added)
    } else if status[0] == 'M' || status[0] == 'T' {
        Some(ChangeKind::Modified)
    } else if status[0] == 'D' {
        Some(ChangeKind::Deleted)
    } else if status[0] == 'R' {
        Some(ChangeKind::Renamed)
    } else if status[0] == 'C' {
        Some(ChangeKind::Copied)
    } else {
        None
    }
}

/// See [`kind_in`].
fn status_kind(status: &str) -> (r: Option<ChangeKind>)
    ensures
        r == kind_in(status@),
{
    let v = text::chars_of(status);
    if v.len() == 0 {
        return None;
    }
    let c = v[0];
    if c == 'A' {
        Some(ChangeKind::Added)
    } else if c == 'M' || c == 'T' {
        Some(ChangeKind::Modified)
    } else if c == 'D' {
        Some(ChangeKind::Deleted)
    } else if c == 'R' {
        Some(ChangeKind::Renamed)
    } else if c == 'C' {
        Some(ChangeKind::Copied)
    } else {
        None
    }
}

/// The change that the first fields of a listing tell of, and how many fields
/// those are.
pub open spec fn first_change(fields: Seq<Seq<char>>) -> Result<(ChangeModel, nat), ChangeFault> {
    match kind_in(fields[0]) {
        None => Err(ChangeFault::Unrecognized(fields[0])),
        Some(kind) => if fields.len() < 2 {
            Err(ChangeFault::Truncated(fields[0]))
        } else if kind == ChangeKind::Renamed || kind == ChangeKind::Copied {
            if fields.len() < 3 {
                Err(ChangeFault::MissingPath)
            } else {
                Ok((ChangeModel { kind, path: fields[2], old_path: Some(fields[1]) }, 3))
            }
        } else {
            Ok((ChangeModel { kind, path: fields[1], old_path: None }, 2))
        },
    }
}

/// The changes that the fields of a listing tell of: a status, then a path, or
/// two paths where it was renamed or copied.
pub open spec fn changes_in(fields: Seq<Seq<char>>) -> Result<Seq<ChangeModel>, ChangeFault>
    decreases fields.len(),
{
    if fields.len() == 0 {
        Ok(Seq::empty())
    } else {
        match first_change(fields) {
            Err(e) => Err(e),
            Ok((c, n)) => if 0 < n <= fields.len() {
                match changes_in(fields.skip(n as int)) {
                    Ok(rest) => Ok(seq![c] + rest),
                    Err(e) => Err(e),
                }
            } else {
                Ok(Seq::empty())
            },
        }
    }
}

/// What a parse gives, as a model.
pub open spec fn change_result(r: Result<Vec<ChangedPath>, ChangeError>) -> Result<
    Seq<ChangeModel>,
    ChangeFault,
> {
    match r {
        Ok(v) => Ok(change_views(v@)),
        Err(e) => Err(e@),
    }
}

/// A result with changes in front of it.
spec fn after(done: Seq<ChangeModel>, r: Result<Seq<ChangeModel>, ChangeFault>) -> Result<
    Seq<ChangeModel>,
    ChangeFault,
> {
    match r {
        Ok(rest) => Ok(done + rest),
        Err(e) => Err(e),
    }
}

/// See [`changes_in`].
pub fn parse_changes(fields: &Vec<String>) -> (r: Result<Vec<ChangedPath>, ChangeError>)
    ensures
        change_result(r) == changes_in(text::views(fields@)),
{
    let ghost all = text::views(fields@);
    let mut out: Vec<ChangedPath> = Vec::new();
    let mut i: usize = 0;
    let n: usize = fields.len();
    assert(all.skip(0) =~= all);
    assert(after(change_views(out@), changes_in(all)) == changes_in(all)) by {
        if let Ok(rest) = changes_in(all) {
            assert(change_views(out@) + rest =~= rest);
        }
    }
    while i < n
        invariant
            i <= n,
            n == fields.len(),
            all == text::views(fields@),
            after(change_views(out@), changes_in(all.skip(i as int))) == changes_in(all),
        decreases n - i,
    {
        let ghost rest = all.skip(i as int);
        let ghost was = change_views(out@);
        assert(rest.len() == n - i);
        assert(rest[0] == fields@[i as int]@);
        match status_kind(fields[i].as_str()) {
            None => {
                return Err(ChangeError::Unrecognized(fields[i].clone()));
            },
            Some(kind) => {
                if n - i < 2 {
                    return Err(ChangeError::Truncated(fields[i].clone()));
                }
                assert(rest[1] == fields@[i + 1]@);
                if kind == ChangeKind::Renamed || kind == ChangeKind::Copied {
                    if n - i < 3 {
                        return Err(ChangeError::MissingPath);
                    }
                    assert(rest[2] == fields@[i + 2]@);
                    let c = ChangedPath {
                        kind,
                        path: fields[i + 2].clone(),
                        old_path: Some(fields[i + 1].clone()),
                    };
                    out.push(c);
                    assert(change_views(out@) =~= was.push(c@));
                    assert(rest.skip(3) =~= all.skip(i + 3));
                    proof {
                        lemma_after(was, c@, changes_in(all.skip(i + 3)));
                    }
                    i += 3;
                } else {
                    let c = ChangedPath { kind, path: fields[i + 1].clone(), old_path: None };
                    out.push(c);
                    assert(change_views(out@) =~= was.push(c@));
                    assert(rest.skip(2) =~= all.skip(i + 2));
                    proof {
                        lemma_after(was, c@, changes_in(all.skip(i + 2)));
                    }
                    i += 2;
                }
            },
        }
    }
    assert(all.skip(n as int) =~= Seq::empty());
    assert(change_views(out@) + Seq::<ChangeModel>::empty() =~= change_views(out@));
    Ok(out)
}

proof fn lemma_after(
    done: Seq<ChangeModel>,
    c: ChangeModel,
    r: Result<Seq<ChangeModel>, ChangeFault>,
)
    ensures
        after(done.push(c), r) == after(done, after(seq![c], r)),
{
    if let Ok(rest) = r {
        assert(done.push(c) + rest =~= done + (seq![c] + rest));
    }
}

/// The text that bytes stand for, with a mark in place of what is no text.
pub uninterp spec fn lossy_text(b: Seq<u8>) -> Seq<char>;

/// `String::from_utf8_lossy`, which depends on the bytes alone, and gives the
/// text itself where the bytes are one.
#[verifier::external_body]
fn read_lossy(b: &Vec<u8>) -> (r: String)
    ensures
        r@ == lossy_text(b@),
        valid_utf8(b@) ==> r@ == decode_utf8(b@),
{
    String::from_utf8_lossy(b).into_owned()
}

/// The fields of a listing that ends each with a zero byte: its pieces as
/// texts, without the empty ones.
pub open spec fn fields_of(pieces: Seq<Seq<u8>>) -> Seq<Seq<char>>
    decreases pieces.len(),
{
    if pieces.len() == 0 {
        Seq::empty()
    } else {
        let rest = fields_of(pieces.drop_last());
        let t = lossy_text(pieces.last());
        if t.len() > 0 {
            rest.push(t)
        } else {
            rest
        }
    }
}

/// See [`fields_of`].
pub fn diff_fields(listing: &Vec<u8>) -> (r: Vec<String>)
    ensures
        text::views(r@) == fields_of(listing::split_zero(listing@)),
        forall|i: int|
            #![trigger listing::split_zero(listing@)[i]]
            0 <= i < listing::split_zero(listing@).len() && valid_utf8(
                listing::split_zero(listing@)[i],
            ) ==> lossy_text(listing::split_zero(listing@)[i]) == decode_utf8(
                listing::split_zero(listing@)[i],
            ),
{
    let parts = listing::split_at_zero(listing);
    let ghost all = listing::byte_views(parts@);
    let mut out: Vec<String> = Vec::new();
    let mut i: usize = 0;
    assert(text::views(out@) =~= fields_of(all.take(0)));
    while i < parts.len()
        invariant
            i <= parts.len(),
            all == listing::byte_views(parts@),
            text::views(out@) == fields_of(all.take(i as int)),
            forall|k: int|
                #![trigger all[k]]
                0 <= k < i && valid_utf8(all[k]) ==> lossy_text(all[k]) == decode_utf8(all[k]),
        decreases parts.len() - i,
    {
        let ghost was = text::views(out@);
        assert(all[i as int] == parts@[i as int]@);
        assert(all.take(i + 1).drop_last() =~= all.take(i as int));
        assert(all.take(i + 1).last() == parts@[i as int]@);
        let t = read_lossy(&parts[i]);
        if !t.as_str().is_empty() {
            out.push(t);
            assert(text::views(out@) =~= was.push(t@));
        }
        i += 1;
    }
    assert(all.take(parts@.len() as int) =~= all);
    out
}

/// Whether a text is not empty.
pub open spec fn is_there() -> spec_fn(Seq<char>) -> bool {
    |t: Seq<char>| t.len() > 0
}

/// The paths of a listing with one path on each line.
pub fn changed_names(listing: &Vec<u8>) -> (r: Vec<String>)
    ensures
        text::views(r@) == rows::kept(text::lines(lossy_text(listing@)), is_there()),
        valid_utf8(listing@) ==> lossy_text(listing@) == decode_utf8(listing@),
{
    let whole = read_lossy(listing);
    names_in(whole.as_str())
}

/// The lines of a text that are not empty.
pub fn names_in(whole: &str) -> (r: Vec<String>)
    ensures
        text::views(r@) == rows::kept(text::lines(whole@), is_there()),
{
    let lines = text::lines_of(whole);
    let ghost all = text::views(lines@);
    let mut out: Vec<String> = Vec::new();
    let mut i: usize = 0;
    assert(text::views(out@) =~= rows::kept(all.take(0), is_there()));
    while i < lines.len()
        invariant
            i <= lines.len(),
            all == text::views(lines@),
            text::views(out@) == rows::kept(all.take(i as int), is_there()),
        decreases lines.len() - i,
    {
        let ghost was = text::views(out@);
        assert(all.take(i + 1).drop_last() =~= all.take(i as int));
        assert(all.take(i + 1).last() == lines@[i as int]@);
        if !lines[i].as_str().is_empty() {
            out.push(lines[i].clone());
            assert(text::views(out@) =~= was.push(lines@[i as int]@));
        }
        i += 1;
    }
    assert(all.take(lines@.len() as int) =~= all);
    out
}

/// The changes that a listing of statuses and paths tells of.
pub fn diff_status(listing: &Vec<u8>) -> (r: Result<Vec<ChangedPath>, ChangeError>)
    ensures
        change_result(r) == changes_in(fields_of(listing::split_zero(listing@))),
        forall|i: int|
            #![trigger listing::split_zero(listing@)[i]]
            0 <= i < listing::split_zero(listing@).len() && valid_utf8(
                listing::split_zero(listing@)[i],
            ) ==> lossy_text(listing::split_zero(listing@)[i]) == decode_utf8(
                listing::split_zero(listing@)[i],
            ),
{
    let fields = diff_fields(listing);
    parse_changes(&fields)
}

/// The fields that tell of changes.
pub open spec fn fields_for(c: ChangeModel, status: Seq<char>) -> Seq<Seq<char>> {
    match c.old_path {
        Some(old) => seq![status, old, c.path],
        None => seq![status, c.path],
    }
}

/// Whether a status and a change go together: a renamed or copied path has two
/// names, and no other has.
pub open spec fn is_told(c: ChangeModel, status: Seq<char>) -> bool {
    kind_in(status) == Some(c.kind) && ((c.kind == ChangeKind::Renamed || c.kind
        == ChangeKind::Copied) <==> c.old_path is Some)
}

/// What a listing tells of is read as it was told, change by change.
pub proof fn law_changes_are_read(c: ChangeModel, status: Seq<char>, rest: Seq<Seq<char>>)
    requires
        is_told(c, status),
    ensures
        changes_in(fields_for(c, status) + rest) == (match changes_in(rest) {
            Ok(v) => Ok::<Seq<ChangeModel>, ChangeFault>(seq![c] + v),
            Err(e) => Err(e),
        }),
{
    let f = fields_for(c, status) + rest;
    assert(f[0] == status);
    match c.old_path {
        Some(old) => {
            assert(f[1] == old);
            assert(f[2] == c.path);
            assert(f.skip(3) =~= rest);
        },
        None => {
            assert(f[1] == c.path);
            assert(f.skip(2) =~= rest);
        },
    }
}

} // verus!
