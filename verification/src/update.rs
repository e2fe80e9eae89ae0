//! One run of the indexer: when everything has to be indexed anew, what a run
//! does to the index, and what it notes for the next one.

use vstd::prelude::*;
use vstd::string::*;

use crate::graph;
use crate::index;
use crate::index::{ChangeModel, ParsedItem};
use crate::rebuild;
use crate::rebuild::Flags;
use crate::rows;
use crate::scan;
use crate::scan::FileInfo;
use crate::store;
use crate::store_laws;
use crate::store::{Store, StoreModel};
use crate::store_edges;
use crate::store_edges::Analytics;
use crate::tables::{CoChange, CoChangeModel, MetaRow, MetaRowModel};
use crate::text;
use crate::tsconfig::{AliasMap, ScopeModel};
use crate::types;
use crate::types::{Edge, EdgeModel, Node, NodeLabel, NodeModel};

verus! {

/// The store with a fact about the index set.
pub open spec fn with_meta(s: StoreModel, key: Seq<char>, v: Seq<char>) -> StoreModel {
    StoreModel {
        meta: rows::replaced::<MetaRow>(s.meta, MetaRowModel { name: key, value: v }),
        ..s
    }
}

/// The store after a run began: the repository, the engine and the aliases are
/// noted.
pub open spec fn begun(
    s: StoreModel,
    root: Seq<char>,
    engine: Seq<char>,
    aliases: Seq<char>,
) -> StoreModel {
    with_meta(
        with_meta(with_meta(s, "repo_root"@, root), "parser_version"@, engine),
        "tsconfig_hash"@,
        aliases,
    )
}

/// Whether everything has to be indexed anew: it was asked for, or another
/// engine or other aliases made the index.
pub open spec fn needs_full(
    s: StoreModel,
    asked: bool,
    engine: Seq<char>,
    aliases: Seq<char>,
) -> bool {
    asked || store::meta_value(s.meta, "parser_version"@) != Some(engine) || store::meta_value(
        s.meta,
        "tsconfig_hash"@,
    ) != Some(aliases)
}

proof fn lemma_other_meta(s: StoreModel, key: Seq<char>, v: Seq<char>, k: Seq<char>)
    requires
        k != key,
    ensures
        store::meta_value(with_meta(s, key, v).meta, k) == store::meta_value(s.meta, k),
{
    store_laws::law_meta_reads_back(s.meta, key, v, k);
}

impl Store {
    /// Begins a run: notes the repository, the engine and the aliases, and says
    /// whether everything has to be indexed anew.
    pub fn begin(&mut self, root: &str, engine: &str, aliases: &str, asked: bool) -> (r: bool)
        requires
            old(self)@.wf(),
        ensures
            final(self)@ == begun(old(self)@, root@, engine@, aliases@),
            final(self)@.wf(),
            r == needs_full(old(self)@, asked, engine@, aliases@),
    {
        let ghost was = self@;
        proof {
            reveal_strlit("repo_root");
            reveal_strlit("parser_version");
            reveal_strlit("tsconfig_hash");
            assert("repo_root"@.len() != "parser_version"@.len());
            assert("repo_root"@.len() != "tsconfig_hash"@.len());
            assert("parser_version"@.len() != "tsconfig_hash"@.len());
            lemma_other_meta(was, "repo_root"@, root@, "parser_version"@);
            lemma_other_meta(was, "repo_root"@, root@, "tsconfig_hash"@);
            lemma_other_meta(
                with_meta(was, "repo_root"@, root@),
                "parser_version"@,
                engine@,
                "tsconfig_hash"@,
            );
        }
        self.meta_set("repo_root", root);
        let other_engine = match self.meta_get("parser_version") {
            Some(v) => !text::same(v.as_str(), engine),
            None => true,
        };
        self.meta_set("parser_version", engine);
        let other_aliases = match self.meta_get("tsconfig_hash") {
            Some(v) => !text::same(v.as_str(), aliases),
            None => true,
        };
        self.meta_set("tsconfig_hash", aliases);
        asked || other_engine || other_aliases
    }
}

/// How far the edges were resolved anew.
#[derive(Debug, Clone, Copy, PartialEq, Eq, Structural)]
pub enum Reach {
    /// Nothing changed.
    Nothing,
    /// The files that the changes can reach.
    Wave,
    /// The whole repository.
    Everything,
}

/// What changed and vanished files do to the index.
pub open spec fn changes_of(
    s: StoreModel,
    items: Seq<ParsedItem>,
    scopes: Seq<ScopeModel>,
    seen: Set<Seq<char>>,
) -> (ChangeModel, nat) {
    let c = index::persisted(s, items, scopes);
    index::pruned(c, rebuild::manifest_paths(c.store), seen)
}

/// How far the edges have to be resolved anew.
pub open spec fn reach_of(c: ChangeModel, changed: nat, gone: nat, flags: Flags) -> Reach {
    if changed == 0 && gone == 0 && !flags.full && !flags.indexstore && !flags.scip_changed {
        Reach::Nothing
    } else if rebuild::wave_is_enough(c.store, flags, c.beyond, c.dirty) {
        Reach::Wave
    } else {
        Reach::Everything
    }
}

/// The paths of parsed files.
pub open spec fn item_paths(items: Seq<ParsedItem>) -> Seq<Seq<char>> {
    items.map_values(|i: ParsedItem| i.rel@)
}

/// What a run found and did.
pub struct Updated {
    pub nodes: Vec<Node>,
    pub changed: usize,
    pub pruned: usize,
    pub reach: Reach,
}

/// The setting for ambiguous edges as it is noted.
pub open spec fn sticky_setting(s: StoreModel, ambiguous: Option<bool>) -> StoreModel {
    match ambiguous {
        Some(v) => with_meta(
            s,
            "include_ambiguous"@,
            if v {
                "1"@
            } else {
                "0"@
            },
        ),
        None => s,
    }
}

/// Whether the store is what a run makes of the changes.
pub open spec fn is_updated(
    c: ChangeModel,
    reach: Reach,
    changed: Seq<Seq<char>>,
    ambiguous: Option<bool>,
    scip: Seq<EdgeModel>,
    indexstore: Seq<EdgeModel>,
    after: StoreModel,
) -> bool {
    let s = sticky_setting(c.store, ambiguous);
    match reach {
        Reach::Nothing => after == rebuild::healed(c.store),
        Reach::Wave => exists|dirty: Seq<Seq<char>>| #[trigger]
            dirty.to_set() == c.dirty && after == rebuild::wave_rebuilt(
                s,
                rebuild::wave_of(s, changed, dirty),
            ),
        Reach::Everything => after == rebuild::full_rebuilt(s, scip, indexstore),
    }
}

impl Store {
    /// Puts what was parsed into the index, takes out what is gone, and resolves
    /// the edges as far as needed; see [`is_updated`].
    pub fn update(
        &mut self,
        items: &Vec<ParsedItem>,
        aliases: &AliasMap,
        seen: &Vec<String>,
        flags: Flags,
        ambiguous: Option<bool>,
        scip: &Vec<Edge>,
        indexstore: &Vec<Edge>,
    ) -> (r: Updated)
        requires
            old(self)@.wf(),
            flags.ambiguous_given == (ambiguous is Some),
        ensures
            ({
                let (c, gone) = changes_of(
                    old(self)@,
                    items@,
                    aliases@,
                    index::text_set(seen@),
                );
                &&& types::node_views(r.nodes@) == c.nodes
                &&& r.changed == items@.len()
                &&& r.pruned == gone
                &&& r.reach == reach_of(c, items@.len(), gone, flags)
                &&& is_updated(
                    c,
                    r.reach,
                    item_paths(items@),
                    ambiguous,
                    types::edge_views(scip@),
                    types::edge_views(indexstore@),
                    final(self)@,
                )
            }),
            final(self)@.wf(),
    {
        let changes = self.persist(items, aliases);
        let changes = self.prune(changes, seen);
        let ghost c = changes_of(old(self)@, items@, aliases@, index::text_set(seen@)).0;
        assert(self@ == c.store);
        let changed: usize = items.len();
        if changed == 0 && changes.pruned == 0 && !flags.full && !flags.indexstore
            && !flags.scip_changed {
            self.heal_dangling();
            return Updated {
                nodes: changes.nodes,
                changed,
                pruned: changes.pruned,
                reach: Reach::Nothing,
            };
        }
        let partial = self.partial_ok(flags, changes.beyond, &changes.dirty);
        match ambiguous {
            Some(true) => self.meta_set("include_ambiguous", "1"),
            Some(false) => self.meta_set("include_ambiguous", "0"),
            None => {},
        }
        assert(self@ == sticky_setting(c.store, ambiguous));
        if partial {
            let wave = self.wave(&changes.files, &changes.dirty);
            self.rebuild_wave(&wave);
            proof {
                assert(text::views(changes.dirty@).to_set() == c.dirty);
                assert(text::views(changes.files@) == item_paths(items@));
            }
            Updated { nodes: changes.nodes, changed, pruned: changes.pruned, reach: Reach::Wave }
        } else {
            self.rebuild_full(scip, indexstore);
            Updated {
                nodes: changes.nodes,
                changed,
                pruned: changes.pruned,
                reach: Reach::Everything,
            }
        }
    }
}

/// The store after the co-changes of a commit were noted. They are noted where
/// the commit is not the one that they were last taken from, or not known.
pub open spec fn with_cochanges(
    s: StoreModel,
    head: Option<Seq<char>>,
    pairs: Seq<CoChangeModel>,
) -> StoreModel {
    if cochanges_wanted(s, head) {
        let t = if pairs.len() > 0 {
            StoreModel {
                cochanges: rows::all_replaced::<CoChange>(Seq::empty(), pairs),
                ..s
            }
        } else {
            s
        };
        match head {
            Some(h) => with_meta(t, "cochanges_head"@, h),
            None => t,
        }
    } else {
        s
    }
}

/// Whether the co-changes have to be taken from the history again.
pub open spec fn cochanges_wanted(s: StoreModel, head: Option<Seq<char>>) -> bool {
    head is None || store::meta_value(s.meta, "cochanges_head"@) != head
}

/// The store after a run counted as a commit of the index.
pub open spec fn bumped(s: StoreModel) -> StoreModel {
    with_meta(s, "generation"@, text::signed_decimal(store::counted_from(s.meta) + 1))
}

/// The store after a run came to its end.
pub open spec fn finished(
    s: StoreModel,
    items: Seq<Analytics>,
    head: Option<Seq<char>>,
    pairs: Seq<CoChangeModel>,
    partial: bool,
) -> StoreModel {
    let t = with_cochanges(
        StoreModel { nodes: store_edges::all_analysed(s.nodes, items), ..s },
        head,
        pairs,
    );
    bumped(
        if partial {
            t
        } else {
            rebuild::healed(t)
        },
    )
}

impl Store {
    /// See [`cochanges_wanted`].
    pub fn wants_cochanges(&self, head: &Option<String>) -> (r: bool)
        ensures
            r == cochanges_wanted(self@, types::opt_text(*head)),
    {
        match head {
            None => true,
            Some(h) => match self.meta_get("cochanges_head") {
                Some(v) => !text::same(v.as_str(), h.as_str()),
                None => true,
            },
        }
    }

    /// Ends a run: notes the analytics and the co-changes, repairs what has to
    /// be repaired, checks the graph, and counts the commit. Gives the faults
    /// that were found.
    pub fn finish(
        &mut self,
        items: &Vec<Analytics>,
        head: &Option<String>,
        pairs: &Vec<CoChange>,
        partial: bool,
    ) -> (r: Vec<String>)
        requires
            old(self)@.wf(),
            store::counted_from(old(self)@.meta) < i64::MAX,
        ensures
            final(self)@ == finished(
                old(self)@,
                items@,
                types::opt_text(*head),
                rows::seen(pairs@),
                partial,
            ),
            final(self)@.wf(),
            text::views(r@) == store_edges::faults(final(self)@),
    {
        let ghost was = self@;
        self.update_analytics(items);
        if self.wants_cochanges(head) {
            assert(rows::seen(pairs@).len() == pairs@.len());
            if pairs.len() > 0 {
                self.save_cochanges(pairs);
            }
            if let Some(h) = head {
                self.meta_set("cochanges_head", h.as_str());
            }
        }
        let ghost noted = self@;
        proof {
            reveal_strlit("cochanges_head");
            reveal_strlit("generation");
            reveal_strlit("healed_edges_last");
            assert("cochanges_head"@.len() != "generation"@.len());
            assert("healed_edges_last"@.len() != "generation"@.len());
            if let Some(h) = types::opt_text(*head) {
                lemma_other_meta(was, "cochanges_head"@, h, "generation"@);
            }
        }
        if !partial {
            self.heal_dangling();
            proof {
                let n = (noted.edges.len() - self@.edges.len()) as nat;
                lemma_other_meta(noted, "healed_edges_last"@, text::decimal(n), "generation"@);
            }
        }
        assert(store::meta_value(self@.meta, "generation"@) == store::meta_value(
            was.meta,
            "generation"@,
        ));
        self.bump_generation();
        self.validate_graph()
    }
}

/// Whether the index was made from another repository: what is noted is not the
/// one that is asked for. An index without a note passes.
pub open spec fn is_foreign(s: StoreModel, root: Seq<char>) -> bool {
    match store::meta_value(s.meta, "repo_root"@) {
        Some(r) => r != root,
        None => false,
    }
}

impl Store {
    /// Refuses an index that was made from another repository; see
    /// [`is_foreign`].
    pub fn check_identity(&self, db: &str, root: &str) -> (r: Result<(), String>)
        ensures
            match r {
                Ok(_) => !is_foreign(self@, root@),
                Err(e) => is_foreign(self@, root@) && match store::meta_value(
                    self@.meta,
                    "repo_root"@,
                ) {
                    Some(stamped) => e@ == "graph at "@ + db@ + " was built for "@ + stamped
                        + ", not "@ + root@ + " — run `codegraph index "@ + root@ + "`"@,
                    None => false,
                },
            },
    {
        match self.meta_get("repo_root") {
            Some(stamped) => if text::same(stamped.as_str(), root) {
                Ok(())
            } else {
                Err(
                    "graph at ".to_owned().concat(db).concat(" was built for ").concat(
                        stamped.as_str(),
                    ).concat(", not ").concat(root).concat(" — run `codegraph index ").concat(
                        root,
                    ).concat("`"),
                )
            },
            None => Ok(()),
        }
    }
}

/// What is noted under a key; the empty text where there is nothing.
pub open spec fn meta_or_empty(s: StoreModel, key: Seq<char>) -> Seq<char> {
    match store::meta_value(s.meta, key) {
        Some(v) => v,
        None => Seq::empty(),
    }
}

/// Whether a SCIP index has to be merged: it was given, or the one that is there
/// is not the one that was last looked at.
pub open spec fn scip_is_new(s: StoreModel, given: bool, mtime: Option<Seq<char>>) -> bool {
    given || match mtime {
        Some(m) => meta_or_empty(s, "scip_file_mtime"@) != m,
        None => false,
    }
}

/// Whether the SCIP indexer has to run again: it ran before, is not switched
/// off, and the commit is another one.
pub open spec fn scip_is_due(s: StoreModel, off: bool, head: Option<Seq<char>>) -> bool {
    store::meta_value(s.meta, "scip_auto"@) == Some("1"@) && !off && head is Some
        && store::meta_value(s.meta, "scip_stamp"@) != head
}

/// Whether the IndexStore is newer than what was merged.
pub open spec fn indexstore_is_new(s: StoreModel, mtime: Seq<char>) -> bool {
    mtime.len() > 0 && mtime != meta_or_empty(s, "indexstore_mtime"@)
}

/// The store after the SCIP index that is there was looked at, and where it gave
/// edges, after the commit that it belongs to was noted.
pub open spec fn scip_noted(
    s: StoreModel,
    mtime: Option<Seq<char>>,
    fresh: bool,
    head: Seq<char>,
) -> StoreModel {
    let t = match mtime {
        Some(m) => with_meta(s, "scip_file_mtime"@, m),
        None => s,
    };
    if fresh {
        let u = with_meta(with_meta(t, "scip_auto"@, "1"@), "scip_pending"@, ""@);
        if head.len() > 0 {
            with_meta(u, "scip_stamp"@, head)
        } else {
            u
        }
    } else {
        t
    }
}

impl Store {
    /// What is noted under a key; see [`meta_or_empty`].
    pub fn meta_or_default(&self, key: &str) -> (r: String)
        ensures
            r@ == meta_or_empty(self@, key@),
    {
        match self.meta_get(key) {
            Some(v) => v,
            None => {
                let none = String::new();
                assert(none@ =~= Seq::<char>::empty());
                none
            },
        }
    }

    /// See [`scip_is_new`].
    pub fn scip_file_changed(&self, given: bool, mtime: &Option<String>) -> (r: bool)
        ensures
            r == scip_is_new(self@, given, types::opt_text(*mtime)),
    {
        given || match mtime {
            Some(m) => !text::same(self.meta_or_default("scip_file_mtime").as_str(), m.as_str()),
            None => false,
        }
    }

    /// See [`scip_is_due`].
    pub fn scip_wants_reacquire(&self, off: bool, head: &Option<String>) -> (r: bool)
        ensures
            r == scip_is_due(self@, off, types::opt_text(*head)),
    {
        let opted = match self.meta_get("scip_auto") {
            Some(v) => text::same(v.as_str(), "1"),
            None => false,
        };
        if !opted || off {
            return false;
        }
        match head {
            None => false,
            Some(h) => match self.meta_get("scip_stamp") {
                Some(v) => !text::same(v.as_str(), h.as_str()),
                None => true,
            },
        }
    }

    /// See [`indexstore_is_new`].
    pub fn indexstore_wants_remerge(&self, mtime: &str) -> (r: bool)
        ensures
            r == indexstore_is_new(self@, mtime@),
    {
        !mtime.is_empty() && !text::same(mtime, self.meta_or_default("indexstore_mtime").as_str())
    }

    /// See [`scip_noted`].
    pub fn note_scip(&mut self, mtime: &Option<String>, fresh: bool, head: &str)
        requires
            old(self)@.wf(),
        ensures
            final(self)@ == scip_noted(old(self)@, types::opt_text(*mtime), fresh, head@),
            final(self)@.wf(),
    {
        if let Some(m) = mtime {
            self.meta_set("scip_file_mtime", m.as_str());
        }
        if fresh {
            self.meta_set("scip_auto", "1");
            self.meta_set("scip_pending", "");
            if !head.is_empty() {
                self.meta_set("scip_stamp", head);
            }
        }
    }

    /// Whether the index has to be brought up to date before it answers: another
    /// engine made it, a SCIP index is new, or the working tree differs.
    pub fn needs_update(
        &self,
        engine: &str,
        scip_mtime: &Option<String>,
        files: &Vec<FileInfo>,
    ) -> (r: bool)
        ensures
            r == (store::meta_value(self@.meta, "parser_version"@) != Some(engine@) || scip_is_new(
                self@,
                false,
                types::opt_text(*scip_mtime),
            ) || scan::tree_differs(self@.manifest, scan::watched_tree(files@))),
    {
        let other_engine = match self.meta_get("parser_version") {
            Some(v) => !text::same(v.as_str(), engine),
            None => true,
        };
        other_engine || self.scip_file_changed(false, scip_mtime) || self.is_stale(files)
    }
}

/// Whether the SCIP indexer is to be started now: it is due, and no run for this
/// commit is under way.
pub open spec fn scip_is_to_start(s: StoreModel, off: bool, head: Option<Seq<char>>) -> bool {
    scip_is_due(s, off, head) && (match head {
        Some(h) => meta_or_empty(s, "scip_pending"@) != h,
        None => false,
    })
}

impl Store {
    /// See [`scip_is_to_start`].
    pub fn scip_wants_run(&self, off: bool, head: &Option<String>) -> (r: bool)
        ensures
            r == scip_is_to_start(self@, off, types::opt_text(*head)),
    {
        self.scip_wants_reacquire(off, head) && match head {
            Some(h) => !text::same(self.meta_or_default("scip_pending").as_str(), h.as_str()),
            None => false,
        }
    }
}

/// The text that stands for a node where texts are embedded: its name, label and
/// file, and for a document the beginning of its text.
pub open spec fn embed_text(n: NodeModel) -> Seq<char> {
    let t = n.name + " "@ + n.label.text() + " in "@ + n.file_path;
    match types::meta_text(n.metadata, "text"@) {
        Some(body) => t + "\n"@ + rows::limited(body, 2000),
        None => t,
    }
}

/// See [`embed_text`].
pub fn embed_text_for(n: &Node) -> (r: String)
    ensures
        r@ == embed_text(n@),
{
    let t = n.name.clone().concat(" ").concat(n.label.as_str()).concat(" in ").concat(
        n.file_path.as_str(),
    );
    match n.metadata.text("text") {
        Some(body) => {
            let v = text::chars_of(body.as_str());
            let k: usize = if v.len() <= 2000 {
                v.len()
            } else {
                2000
            };
            let start = text::slice(v.as_slice(), 0, k);
            assert(start@ =~= rows::limited(body@, 2000));
            t.concat("\n").concat(start.as_str())
        },
        None => t,
    }
}

/// How many nodes are embedded at once after a run.
pub const AUTO_EMBED_MAX: usize = 2000;

/// What is to be embedded after a run.
#[derive(Debug, PartialEq, Eq)]
pub enum EmbedPlan {
    /// Nothing: embedding was never asked for, or nothing changed.
    Nothing,
    /// Too much for now: how many nodes, and whether a run in the background is to
    /// be started.
    TooMany { count: usize, start: bool },
    /// These nodes, by place.
    These(Vec<usize>),
}

/// The nodes that are embedded: all but files.
pub open spec fn is_embedded(n: NodeModel) -> bool {
    n.label != NodeLabel::File
}

/// The places of the first nodes that are embedded.
pub open spec fn embedded_places(nodes: Seq<NodeModel>) -> Seq<nat>
    decreases nodes.len(),
{
    if nodes.len() == 0 {
        Seq::empty()
    } else {
        let rest = embedded_places(nodes.drop_last());
        if is_embedded(nodes.last()) {
            rest.push((nodes.len() - 1) as nat)
        } else {
            rest
        }
    }
}

impl Store {
    /// What is to be embedded of the nodes that changed in a run.
    pub fn plan_embedding(&self, changed: &Vec<Node>) -> (r: EmbedPlan)
        ensures
            ({
                let places = embedded_places(types::node_views(changed@));
                match r {
                    EmbedPlan::Nothing => store::meta_value(self@.meta, "embed_model"@) is None
                        || places.len() == 0,
                    EmbedPlan::TooMany { count, start } => store::meta_value(
                        self@.meta,
                        "embed_model"@,
                    ) is Some && places.len() > AUTO_EMBED_MAX && count == places.len() && start == (meta_or_empty(
                        self@,
                        "embed_pending"@,
                    ) != meta_or_empty(self@, "generation"@)),
                    EmbedPlan::These(v) => store::meta_value(self@.meta, "embed_model"@) is Some
                        && 0 < places.len() <= AUTO_EMBED_MAX && graph::nats(v@) == places,
                }
            }),
    {
        if self.meta_get("embed_model").is_none() {
            return EmbedPlan::Nothing;
        }
        let ghost all = types::node_views(changed@);
        let mut v: Vec<usize> = Vec::new();
        let mut i: usize = 0;
        assert(all.len() == changed@.len());
        assert(graph::nats(v@) =~= embedded_places(all.take(0)));
        while i < changed.len()
            invariant
                i <= changed.len(),
                all == types::node_views(changed@),
                all.len() == changed@.len(),
                graph::nats(v@) == embedded_places(all.take(i as int)),
            decreases changed.len() - i,
        {
            let ghost was = graph::nats(v@);
            assert(all.take(i + 1).drop_last() =~= all.take(i as int));
            assert(all.take(i + 1).last() == changed@[i as int]@);
            if changed[i].label != NodeLabel::File {
                v.push(i);
                assert(graph::nats(v@) =~= was.push(i as nat));
            }
            i += 1;
        }
        assert(all.take(changed@.len() as int) =~= all);
        assert(graph::nats(v@).len() == v@.len());
        if v.len() == 0 {
            return EmbedPlan::Nothing;
        }
        if v.len() > AUTO_EMBED_MAX {
            let pending = self.meta_or_default("embed_pending");
            let generation = self.meta_or_default("generation");
            return EmbedPlan::TooMany {
                count: v.len(),
                start: !text::same(pending.as_str(), generation.as_str()),
            };
        }
        EmbedPlan::These(v)
    }
}

} // verus!
