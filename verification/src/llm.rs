//! Language models: which server is asked, what it is asked, and what is made of
//! its reply.

use vstd::prelude::*;
use vstd::string::*;

use crate::rows;
use crate::rows::Row;
use crate::text;
use crate::types;
use crate::types::{Node, NodeModel};
use crate::value;
use crate::value::{Datum, DatumModel};
use crate::words;

verus! {

/// A model that writes text.
pub trait LlmClient {
    /// The reply to a prompt, where there is one.
    fn generate(&self, prompt: &str, max_tokens: usize) -> (r: Option<String>);
}

/// A model that describes images.
pub trait VisionLlmClient {
    /// The description of an image, where there is one.
    fn describe_image(&self, image: &[u8], prompt: &str) -> (r: Option<String>);
}

/// A server that may be asked.
#[derive(Debug, PartialEq, Eq)]
pub struct Candidate {
    pub id: String,
    pub base_url: String,
    /// The variable that holds the key, for a server that takes one.
    pub api_key_env: Option<String>,
    pub default_model: String,
}

/// The model of a [`Candidate`].
pub struct ServerModel {
    pub id: Seq<char>,
    pub base_url: Seq<char>,
    pub api_key_env: Option<Seq<char>>,
    pub default_model: Seq<char>,
}

impl View for Candidate {
    type V = ServerModel;

    open spec fn view(&self) -> ServerModel {
        ServerModel {
            id: self.id@,
            base_url: self.base_url@,
            api_key_env: types::opt_text(self.api_key_env),
            default_model: self.default_model@,
        }
    }
}

impl Row for Candidate {
    fn copy(&self) -> (r: Candidate) {
        Candidate {
            id: self.id.clone(),
            base_url: self.base_url.clone(),
            api_key_env: match &self.api_key_env {
                Some(k) => Some(k.clone()),
                None => None,
            },
            default_model: self.default_model.clone(),
        }
    }
}

/// A local server.
pub open spec fn local_server(id: Seq<char>, url: Seq<char>, model: Seq<char>) -> ServerModel {
    ServerModel { id, base_url: url, api_key_env: None, default_model: model }
}

/// A server that takes a key.
pub open spec fn cloud_server(
    id: Seq<char>,
    url: Seq<char>,
    key: Seq<char>,
    model: Seq<char>,
) -> ServerModel {
    ServerModel { id, base_url: url, api_key_env: Some(key), default_model: model }
}

/// The servers that are known, in the order in which they are asked: the local
/// ones first.
pub open spec fn known_servers() -> Seq<ServerModel> {
    seq![
        local_server("mlx"@, "http://localhost:8080/v1"@, "local-model"@),
        local_server("lmstudio"@, "http://localhost:1234/v1"@, "local-model"@),
        local_server("ollama"@, "http://localhost:11434/v1"@, "qwen2.5-coder:1.5b"@),
        cloud_server("openai"@, "https://api.openai.com/v1"@, "OPENAI_API_KEY"@, "gpt-4o-mini"@),
        cloud_server(
            "gemini"@,
            "https://generativelanguage.googleapis.com/v1beta/openai"@,
            "GEMINI_API_KEY"@,
            "gemini-2.0-flash"@,
        ),
    ]
}

/// Whether a server has a name.
pub open spec fn server_is(id: Seq<char>) -> spec_fn(ServerModel) -> bool {
    |c: ServerModel| c.id == id
}

/// The servers to ask: the one with the given address, else the one with the
/// given name, else all of them. A name that is not known counts as none.
pub open spec fn servers_for(base_url: Option<Seq<char>>, provider: Option<Seq<char>>) -> Seq<
    ServerModel,
> {
    match base_url {
        Some(url) => seq![local_server("custom"@, url, "local-model"@)],
        None => match provider {
            Some(p) => {
                let one = rows::kept(known_servers(), server_is(p));
                if one.len() > 0 {
                    one
                } else {
                    known_servers()
                }
            },
            None => known_servers(),
        },
    }
}

fn server(id: &str, url: &str, key: Option<&str>, model: &str) -> (r: Candidate)
    ensures
        r@ == (ServerModel {
            id: id@,
            base_url: url@,
            api_key_env: match key {
                Some(k) => Some(k@),
                None => None,
            },
            default_model: model@,
        }),
{
    Candidate {
        id: id.to_owned(),
        base_url: url.to_owned(),
        api_key_env: match key {
            Some(k) => Some(k.to_owned()),
            None => None,
        },
        default_model: model.to_owned(),
    }
}

/// See [`servers_for`].
pub fn candidates(base_url: Option<&str>, provider: Option<&str>) -> (r: Vec<Candidate>)
    ensures
        rows::seen(r@) == servers_for(
            match base_url {
                Some(u) => Some(u@),
                None => None,
            },
            match provider {
                Some(p) => Some(p@),
                None => None,
            },
        ),
{
    if let Some(url) = base_url {
        let mut v: Vec<Candidate> = Vec::new();
        v.push(server("custom", url, None, "local-model"));
        assert(rows::seen(v@) =~= seq![local_server("custom"@, url@, "local-model"@)]);
        return v;
    }
    let mut all: Vec<Candidate> = Vec::new();
    all.push(server("mlx", "http://localhost:8080/v1", None, "local-model"));
    all.push(server("lmstudio", "http://localhost:1234/v1", None, "local-model"));
    all.push(server("ollama", "http://localhost:11434/v1", None, "qwen2.5-coder:1.5b"));
    all.push(
        server("openai", "https://api.openai.com/v1", Some("OPENAI_API_KEY"), "gpt-4o-mini"),
    );
    all.push(
        server(
            "gemini",
            "https://generativelanguage.googleapis.com/v1beta/openai",
            Some("GEMINI_API_KEY"),
            "gemini-2.0-flash",
        ),
    );
    assert(rows::seen(all@) =~= known_servers());
    match provider {
        Some(p) => {
            let test = |c: &Candidate| -> (t: bool)
                ensures
                    t == server_is(p@)(c@),
            { text::same(c.id.as_str(), p) };
            let one = rows::select(&all, Ghost(server_is(p@)), test);
            assert(rows::seen(one@).len() == one@.len());
            if one.len() > 0 {
                one
            } else {
                all
            }
        },
        None => all,
    }
}

/// The places of the servers that are asked: those that take no key, and those
/// whose key is there.
pub open spec fn probes(servers: Seq<ServerModel>, keys: Seq<bool>, k: nat) -> Seq<nat>
    decreases k,
{
    if k == 0 {
        Seq::empty()
    } else {
        let rest = probes(servers, keys, (k - 1) as nat);
        if servers[k - 1].api_key_env is None || keys[k - 1] {
            rest.push((k - 1) as nat)
        } else {
            rest
        }
    }
}

/// The servers to ask, in order; see [`probes`]. `keys` says of each whether its
/// key is there.
pub fn probe_order(servers: &Vec<Candidate>, keys: &Vec<bool>) -> (r: Vec<usize>)
    requires
        servers@.len() == keys@.len(),
    ensures
        r@.map_values(|i: usize| i as nat) == probes(
            rows::seen(servers@),
            keys@,
            servers@.len(),
        ),
{
    let ghost all = rows::seen(servers@);
    let mut out: Vec<usize> = Vec::new();
    let mut i: usize = 0;
    assert(out@.map_values(|i: usize| i as nat) =~= probes(all, keys@, 0));
    while i < servers.len()
        invariant
            i <= servers.len(),
            servers@.len() == keys@.len(),
            all == rows::seen(servers@),
            out@.map_values(|i: usize| i as nat) == probes(all, keys@, i as nat),
        decreases servers.len() - i,
    {
        let ghost was = out@.map_values(|i: usize| i as nat);
        assert(all[i as int] == servers@[i as int]@);
        if servers[i].api_key_env.is_none() || keys[i] {
            out.push(i);
            assert(out@.map_values(|i: usize| i as nat) =~= was.push(i as nat));
        }
        i += 1;
    }
    out
}

/// The address under which a server is asked for something.
pub open spec fn url_of(base: Seq<char>, path: Seq<char>) -> Seq<char> {
    text::strip_trail(base, '/') + path
}

/// See [`url_of`].
pub fn endpoint(base: &str, path: &str) -> (r: String)
    ensures
        r@ == url_of(base@, path@),
{
    let head = text::without_trail(base, '/');
    head.concat(path)
}

/// The names of the models in a listing, as far as it is one.
pub open spec fn listed_models(items: Seq<DatumModel>) -> Seq<Seq<char>>
    decreases items.len(),
{
    if items.len() == 0 {
        Seq::empty()
    } else {
        let rest = listed_models(items.drop_last());
        match value::field(items.last(), "id"@) {
            Some(DatumModel::Text(id)) => rest.push(id),
            _ => rest,
        }
    }
}

/// The names of the models that a reply lists.
pub open spec fn models_in(v: DatumModel) -> Seq<Seq<char>> {
    match value::field(v, "data"@) {
        Some(DatumModel::List(items)) => listed_models(items),
        _ => Seq::empty(),
    }
}

/// See [`models_in`].
pub fn model_ids(v: &Datum) -> (r: Vec<String>)
    ensures
        text::views(r@) == models_in(v@),
{
    broadcast use value::lemma_value_model;

    let mut out: Vec<String> = Vec::new();
    assert(text::views(out@) =~= Seq::empty());
    match v.get("data") {
        Some(Datum::List(items)) => {
            let ghost all = value::items(items@);
            assert(Datum::List(*items)@ == DatumModel::List(all));
            let mut i: usize = 0;
            assert(all.take(0) =~= Seq::empty());
            while i < items.len()
                invariant
                    i <= items.len(),
                    all == value::items(items@),
                    text::views(out@) == listed_models(all.take(i as int)),
                decreases items.len() - i,
            {
                let ghost was = text::views(out@);
                assert(all.take(i + 1).drop_last() =~= all.take(i as int));
                assert(all.take(i + 1).last() == items@[i as int]@);
                if let Some(id) = items[i].get("id") {
                    if let Some(t) = id.as_text() {
                        out.push(t.clone());
                        assert(text::views(out@) =~= was.push(t@));
                    }
                }
                i += 1;
            }
            assert(all.take(all.len() as int) =~= all);
            out
        },
        _ => out,
    }
}

/// Whether a model is one to talk to.
pub open spec fn is_chat() -> spec_fn(Seq<char>) -> bool {
    |m: Seq<char>|
        !text::has_text(words::lowercase(m), "embed"@) && !text::has_text(
            words::lowercase(m),
            "rerank"@,
        )
}

/// Whether a model embeds texts.
pub open spec fn is_embedder() -> spec_fn(Seq<char>) -> bool {
    |m: Seq<char>| text::has_text(words::lowercase(m), "embed"@)
}

/// The model to talk to: the one asked for, else the first to talk to, else the
/// first, else the default.
pub open spec fn chat_model(
    models: Seq<Seq<char>>,
    wanted: Option<Seq<char>>,
    default: Seq<char>,
) -> Seq<char> {
    match wanted {
        Some(m) => m,
        None => match rows::first(models, is_chat()) {
            Some(m) => m,
            None => if models.len() > 0 {
                models[0]
            } else {
                default
            },
        },
    }
}

/// The model that embeds texts: the one asked for, else the first that does.
pub open spec fn embedding_model(models: Seq<Seq<char>>, wanted: Option<Seq<char>>) -> Option<
    Seq<char>,
> {
    match wanted {
        Some(m) => Some(m),
        None => rows::first(models, is_embedder()),
    }
}

/// The place of the first model that a test takes; their number where there is
/// none.
fn first_model<F: Fn(&str) -> bool>(
    models: &Vec<String>,
    Ghost(want): Ghost<spec_fn(Seq<char>) -> bool>,
    test: F,
) -> (r: usize)
    requires
        forall|a: &str| #[trigger] test.requires((a,)),
        forall|a: &str, t: bool| #[trigger] test.ensures((a,), t) ==> t == want(a@),
    ensures
        rows::first(text::views(models@), want) == (if r < models@.len() {
            Some(models@[r as int]@)
        } else {
            None
        }),
{
    let ghost all = text::views(models@);
    let mut i: usize = 0;
    while i < models.len()
        invariant
            i <= models.len(),
            all == text::views(models@),
            forall|j: int| 0 <= j < i ==> !want(#[trigger] all[j]),
            forall|a: &str| #[trigger] test.requires((a,)),
            forall|a: &str, t: bool| #[trigger] test.ensures((a,), t) ==> t == want(a@),
        decreases models.len() - i,
    {
        assert(all[i as int] == models@[i as int]@);
        if test(models[i].as_str()) {
            proof {
                rows::lemma_first_is(all, want, i as int);
            }
            return i;
        }
        i += 1;
    }
    proof {
        rows::lemma_first_is(all, want, models@.len() as int);
    }
    i
}

/// See [`chat_model`].
pub fn choose_model(models: &Vec<String>, wanted: Option<&str>, default: &str) -> (r: String)
    ensures
        r@ == chat_model(
            text::views(models@),
            match wanted {
                Some(m) => Some(m@),
                None => None,
            },
            default@,
        ),
{
    if let Some(m) = wanted {
        return m.to_owned();
    }
    let test = |m: &str| -> (t: bool)
        ensures
            t == is_chat()(m@),
    {
        let low = m.to_lowercase();
        !text::contains_text(low.as_str(), "embed") && !text::contains_text(low.as_str(), "rerank")
    };
    let k: usize = first_model(models, Ghost(is_chat()), test);
    if k < models.len() {
        models[k].clone()
    } else if models.len() > 0 {
        models[0].clone()
    } else {
        default.to_owned()
    }
}

/// See [`embedding_model`].
pub fn choose_embed_model(models: &Vec<String>, wanted: Option<&str>) -> (r: Option<String>)
    ensures
        types::opt_text(r) == embedding_model(
            text::views(models@),
            match wanted {
                Some(m) => Some(m@),
                None => None,
            },
        ),
{
    if let Some(m) = wanted {
        return Some(m.to_owned());
    }
    let test = |m: &str| -> (t: bool)
        ensures
            t == is_embedder()(m@),
    {
        let low = m.to_lowercase();
        text::contains_text(low.as_str(), "embed")
    };
    let k: usize = first_model(models, Ghost(is_embedder()), test);
    if k < models.len() {
        Some(models[k].clone())
    } else {
        None
    }
}

/// What a server is asked with a prompt.
pub open spec fn chat_request(model: Seq<char>, prompt: Seq<char>, max_tokens: nat) -> DatumModel {
    DatumModel::Table(
        seq![
            ("model"@, DatumModel::Text(model)),
            (
                "messages"@,
                DatumModel::List(
                    seq![
                        DatumModel::Table(
                            seq![
                                ("role"@, DatumModel::Text("user"@)),
                                ("content"@, DatumModel::Text(prompt)),
                            ],
                        ),
                    ],
                ),
            ),
            ("max_tokens"@, DatumModel::Number(text::decimal(max_tokens))),
            ("temperature"@, DatumModel::Fraction("0.2"@)),
        ],
    )
}

/// See [`chat_request`].
pub fn chat_body(model: &str, prompt: &str, max_tokens: usize) -> (r: Datum)
    ensures
        r@ == chat_request(model@, prompt@, max_tokens as nat),
{
    broadcast use value::lemma_value_model;

    let mut message: Vec<(String, Datum)> = Vec::new();
    message.push(("role".to_owned(), Datum::Text("user".to_owned())));
    message.push(("content".to_owned(), Datum::Text(prompt.to_owned())));
    assert(value::entries(message@) =~= seq![
        ("role"@, DatumModel::Text("user"@)),
        ("content"@, DatumModel::Text(prompt@)),
    ]);
    let m = Datum::Table(message);
    assert(m@ == DatumModel::Table(value::entries(message@)));
    let mut messages: Vec<Datum> = Vec::new();
    messages.push(m);
    assert(value::items(messages@) =~= seq![m@]);
    let list = Datum::List(messages);
    assert(list@ == DatumModel::List(value::items(messages@)));
    let mut body: Vec<(String, Datum)> = Vec::new();
    body.push(("model".to_owned(), Datum::Text(model.to_owned())));
    body.push(("messages".to_owned(), list));
    body.push(("max_tokens".to_owned(), Datum::Number(text::to_decimal(max_tokens as u64))));
    body.push(("temperature".to_owned(), Datum::Fraction("0.2".to_owned())));
    let r = Datum::Table(body);
    assert(r@ == DatumModel::Table(value::entries(body@)));
    assert(value::entries(body@) =~= chat_request(
        model@,
        prompt@,
        max_tokens as nat,
    )->Table_0);
    r
}

/// The first item of a list.
pub open spec fn first_item(v: Option<DatumModel>) -> Option<DatumModel> {
    match v {
        Some(DatumModel::List(items)) => if items.len() > 0 {
            Some(items[0])
        } else {
            None
        },
        _ => None,
    }
}

/// What is under a key, where there is something.
pub open spec fn inside(v: Option<DatumModel>, key: Seq<char>) -> Option<DatumModel> {
    match v {
        Some(v) => value::field(v, key),
        None => None,
    }
}

/// The text of a reply, as far as it is one.
pub open spec fn reply_in(v: DatumModel) -> Option<Seq<char>> {
    match inside(inside(first_item(value::field(v, "choices"@)), "message"@), "content"@) {
        Some(DatumModel::Text(s)) => Some(s),
        _ => None,
    }
}

/// See [`reply_in`].
pub fn reply_text(v: &Datum) -> (r: Option<String>)
    ensures
        types::opt_text(r) == reply_in(v@),
{
    broadcast use value::lemma_value_model;

    match v.get("choices") {
        Some(Datum::List(items)) => {
            assert(Datum::List(*items)@ == DatumModel::List(value::items(items@)));
            if items.len() == 0 {
                return None;
            }
            assert(value::items(items@)[0] == items@[0]@);
            match items[0].get("message") {
                Some(message) => match message.get("content") {
                    Some(content) => match content.as_text() {
                        Some(t) => Some(t.clone()),
                        None => None,
                    },
                    None => None,
                },
                None => None,
            }
        },
        _ => None,
    }
}

/// What a reply is said to come from.
pub open spec fn source_label(provider: Seq<char>, model: Seq<char>) -> Seq<char> {
    provider + " / "@ + model
}

/// The reply of a client to a prompt, with what it comes from; nothing without a
/// client. What the client is asked is the prompt itself.
pub fn generate_text_labeled<L: LlmClient>(
    client: Option<&L>,
    provider: &str,
    model: &str,
    prompt: &str,
    max_tokens: usize,
) -> (r: Option<(String, String)>)
    ensures
        client is None ==> r is None,
        client matches Some(c) ==> match r {
            Some((out, label)) => call_ensures(L::generate, (c, prompt, max_tokens), Some(out))
                && label@ == source_label(provider@, model@),
            None => call_ensures(L::generate, (c, prompt, max_tokens), None::<String>),
        },
{
    match client {
        Some(c) => match c.generate(prompt, max_tokens) {
            Some(out) => Some((out, provider.to_owned().concat(" / ").concat(model))),
            None => None,
        },
        None => None,
    }
}

/// The reply of a client to a prompt; nothing without a client.
pub fn generate_text<L: LlmClient>(client: Option<&L>, prompt: &str, max_tokens: usize) -> (r: Option<
    String,
>)
    ensures
        client is None ==> r is None,
        client matches Some(c) ==> call_ensures(L::generate, (c, prompt, max_tokens), r),
{
    match client {
        Some(c) => c.generate(prompt, max_tokens),
        None => None,
    }
}

/// Whether anything can write text: an engine that is built in, or a server.
pub fn generator_available(bundled: bool, server: bool) -> (r: bool)
    ensures
        r == (bundled || server),
{
    bundled || server
}

/// Whether anything can embed texts. A switch of `1` says no.
pub open spec fn can_embed(switch: Option<Seq<char>>, bundled: bool, server: bool) -> bool {
    switch != Some("1"@) && (bundled || server)
}

/// See [`can_embed`].
pub fn embedder_available(switch: Option<&str>, bundled: bool, server: bool) -> (r: bool)
    ensures
        r == can_embed(
            match switch {
                Some(s) => Some(s@),
                None => None,
            },
            bundled,
            server,
        ),
{
    if let Some(s) = switch {
        if text::same(s, "1") {
            return false;
        }
    }
    bundled || server
}

/// The line that stands for a hit in a prompt.
pub open spec fn hit_line(i: nat, n: NodeModel) -> Seq<char> {
    text::decimal(i) + ". "@ + n.name + " ("@ + n.label.text() + ") "@ + n.file_path
}

/// The lines of hits.
pub open spec fn hit_lines(hits: Seq<NodeModel>) -> Seq<Seq<char>> {
    Seq::new(hits.len(), |i: int| hit_line(i as nat, hits[i]))
}

/// The prompt that asks to rank hits.
pub open spec fn rank_prompt(query: Seq<char>, hits: Seq<NodeModel>) -> Seq<char> {
    "Rank these code symbols by relevance to the query \""@ + query
        + "\". Reply with ONLY the leading numbers, best first, comma-separated.\n\n"@ + text::join(
        hit_lines(hits),
        "\n"@,
    )
}

/// See [`rank_prompt`].
pub fn rerank_prompt(query: &str, hits: &Vec<Node>) -> (r: String)
    ensures
        r@ == rank_prompt(query@, types::node_views(hits@)),
{
    let ghost all = types::node_views(hits@);
    let mut lines: Vec<String> = Vec::new();
    let mut i: usize = 0;
    while i < hits.len()
        invariant
            i <= hits.len(),
            all == types::node_views(hits@),
            text::views(lines@) == hit_lines(all).take(i as int),
        decreases hits.len() - i,
    {
        let ghost was = text::views(lines@);
        let n = &hits[i];
        assert(all[i as int] == n@);
        let line = text::to_decimal(i as u64).concat(". ").concat(n.name.as_str()).concat(
            " (",
        ).concat(n.label.as_str()).concat(") ").concat(n.file_path.as_str());
        lines.push(line);
        assert(text::views(lines@) =~= was.push(line@));
        assert(hit_lines(all).take(i + 1) =~= was.push(hit_line(i as nat, all[i as int])));
        i += 1;
    }
    assert(hit_lines(all).take(all.len() as int) =~= hit_lines(all));
    let listing = text::joined(&lines, "\n");
    "Rank these code symbols by relevance to the query \"".to_owned().concat(query).concat(
        "\". Reply with ONLY the leading numbers, best first, comma-separated.\n\n",
    ).concat(listing.as_str())
}

/// A text with a blank in place of each character that is no digit.
pub open spec fn digits_only(s: Seq<char>) -> Seq<char> {
    Seq::new(
        s.len(),
        |i: int|
            if text::is_digit(s[i]) {
                s[i]
            } else {
                ' '
            },
    )
}

/// Whether a text is a number below `n`.
pub open spec fn is_place(n: nat) -> spec_fn(Seq<char>) -> bool {
    |t: Seq<char>|
        match text::parse_nat(t) {
            Some(v) => v < n,
            None => false,
        }
}

/// The places below `n` that a reply names, in its order, each once.
pub open spec fn places_in(reply: Seq<char>, n: nat) -> Seq<nat> {
    rows::distinct(
        rows::kept(text::split_char(digits_only(reply), ' '), is_place(n)).map_values(
            |t: Seq<char>| text::parse_nat(t)->0,
        ),
    )
}

/// All places below `n`.
pub open spec fn all_places(n: nat) -> Seq<nat> {
    Seq::new(n, |i: int| i as nat)
}

/// All places below `n`: first those that a reply names, then the others.
pub open spec fn reordered(reply: Seq<char>, n: nat) -> Seq<nat> {
    let named = places_in(reply, n);
    named + rows::kept(all_places(n), |i: nat| !named.contains(i))
}

/// The hits in the order that a reply asks for.
pub open spec fn reranked(hits: Seq<NodeModel>, reply: Option<Seq<char>>) -> Seq<NodeModel> {
    match reply {
        Some(t) => if hits.len() < 2 {
            hits
        } else {
            reordered(t, hits.len()).map_values(|i: nat| hits[i as int])
        },
        None => hits,
    }
}

/// A reply neither loses a hit nor doubles one: each place comes exactly once.
pub proof fn law_reply_only_reorders(reply: Seq<char>, n: nat)
    ensures
        reordered(reply, n).no_duplicates(),
        forall|i: nat| i < n <==> #[trigger] reordered(reply, n).contains(i),
{
    let found = rows::kept(text::split_char(digits_only(reply), ' '), is_place(n));
    let values = found.map_values(|t: Seq<char>| text::parse_nat(t)->0);
    let named = places_in(reply, n);
    let other = |i: nat| !named.contains(i);
    let rest = rows::kept(all_places(n), other);
    rows::lemma_kept(text::split_char(digits_only(reply), ' '), is_place(n));
    rows::lemma_distinct(values);
    rows::lemma_kept(all_places(n), other);
    lemma_kept_keeps_once(all_places(n), other);
    let all = reordered(reply, n);
    assert forall|i: int| 0 <= i < named.len() implies #[trigger] named[i] < n by {
        assert(named.contains(named[i]));
        assert(values.contains(named[i]));
        let k = choose|k: int| 0 <= k < values.len() && values[k] == named[i];
        assert(is_place(n)(found[k]));
    }
    assert forall|i: nat| i < n <==> #[trigger] all.contains(i) by {
        if i < n {
            assert(all_places(n)[i as int] == i);
            assert(all_places(n).contains(i));
            if named.contains(i) {
                let k = choose|k: int| 0 <= k < named.len() && named[k] == i;
                assert(all[k] == i);
            } else {
                assert(rest.contains(i));
                let k = choose|k: int| 0 <= k < rest.len() && rest[k] == i;
                assert(all[named.len() + k] == i);
            }
        }
        if all.contains(i) {
            let k = choose|k: int| 0 <= k < all.len() && all[k] == i;
            if k >= named.len() {
                assert(rest.contains(rest[k - named.len()]));
                assert(all_places(n).contains(i));
            }
        }
    }
    assert forall|a: int, b: int| 0 <= a < all.len() && 0 <= b < all.len() && a != b implies all[a]
        != all[b] by {
        if a < named.len() && b >= named.len() {
            assert(other(rest[b - named.len()]));
            assert(named.contains(named[a]));
        }
        if b < named.len() && a >= named.len() {
            assert(other(rest[a - named.len()]));
            assert(named.contains(named[b]));
        }
    }
}

proof fn lemma_kept_keeps_once(s: Seq<nat>, test: spec_fn(nat) -> bool)
    requires
        s.no_duplicates(),
    ensures
        rows::kept(s, test).no_duplicates(),
    decreases s.len(),
{
    if s.len() > 0 {
        let d = s.drop_last();
        lemma_kept_keeps_once(d, test);
        rows::lemma_kept(d, test);
        let rest = rows::kept(d, test);
        if rest.contains(s.last()) {
            assert(d.contains(s.last()));
        }
    }
}

/// See [`places_in`].
fn read_places(reply: &str, n: usize) -> (r: Vec<usize>)
    ensures
        r@.map_values(|i: usize| i as nat) == places_in(reply@, n as nat),
{
    let v = text::chars_of(reply);
    let mut blanked: Vec<char> = Vec::new();
    let mut i: usize = 0;
    while i < v.len()
        invariant
            i <= v.len(),
            v@ == reply@,
            blanked@ == digits_only(reply@).take(i as int),
        decreases v.len() - i,
    {
        let ghost was = blanked@;
        let c = v[i];
        blanked.push(
            if '0' <= c && c <= '9' {
                c
            } else {
                ' '
            },
        );
        assert(digits_only(reply@).take(i + 1) =~= was.push(digits_only(reply@)[i as int]));
        i += 1;
    }
    assert(digits_only(reply@).take(reply@.len() as int) =~= digits_only(reply@));
    let t = text::string_of(blanked.as_slice());
    let parts = text::split_on(t.as_str(), ' ');
    let ghost all = text::views(parts@);
    let ghost f = |t: Seq<char>| text::parse_nat(t)->0;
    let mut out: Vec<usize> = Vec::new();
    let mut chosen: Vec<bool> = Vec::new();
    let mut k: usize = 0;
    while k < n
        invariant
            k <= n,
            chosen@.len() == k,
            forall|j: int| 0 <= j < k ==> !#[trigger] chosen@[j],
        decreases n - k,
    {
        chosen.push(false);
        k += 1;
    }
    let mut p: usize = 0;
    assert(all.take(0) =~= Seq::empty());
    assert(rows::kept(all.take(0), is_place(n as nat)).map_values(f) =~= Seq::empty());
    assert(out@.map_values(|i: usize| i as nat) =~= Seq::empty());
    while p < parts.len()
        invariant
            p <= parts.len(),
            all == text::views(parts@),
            f == |t: Seq<char>| text::parse_nat(t)->0,
            chosen@.len() == n,
            forall|j: usize| j < n ==> #[trigger] chosen@[j as int] == out@.map_values(
                |i: usize| i as nat,
            ).contains(j as nat),
            out@.map_values(|i: usize| i as nat) == rows::distinct(
                rows::kept(all.take(p as int), is_place(n as nat)).map_values(f),
            ),
        decreases parts.len() - p,
    {
        let ghost was = out@.map_values(|i: usize| i as nat);
        let ghost before = rows::kept(all.take(p as int), is_place(n as nat));
        let ghost now = rows::kept(all.take(p + 1), is_place(n as nat));
        assert(all.take(p + 1).drop_last() =~= all.take(p as int));
        assert(all.take(p + 1).last() == parts@[p as int]@);
        let number = if n > 0 {
            text::parse_number(parts[p].as_str(), (n - 1) as u64)
        } else {
            None
        };
        match number {
            Some(x) => {
                let x: usize = x as usize;
                assert(now == before.push(parts@[p as int]@));
                assert(now.map_values(f) =~= before.map_values(f).push(x as nat));
                assert(now.map_values(f).drop_last() =~= before.map_values(f));
                if !chosen[x] {
                    out.push(x);
                    chosen.set(x, true);
                    let ghost next = out@.map_values(|i: usize| i as nat);
                    assert(next =~= was.push(x as nat));
                    assert forall|j: usize| j < n implies #[trigger] chosen@[j as int]
                        == next.contains(j as nat) by {
                        assert(next[was.len() as int] == x as nat);
                        if was.contains(j as nat) {
                            let m = choose|m: int| 0 <= m < was.len() && was[m] == j as nat;
                            assert(next[m] == j as nat);
                        }
                        if next.contains(j as nat) && j != x {
                            let m = choose|m: int| 0 <= m < next.len() && next[m] == j as nat;
                            assert(was[m] == j as nat);
                        }
                    }
                }
            },
            None => {
                assert(now == before);
            },
        }
        p += 1;
    }
    assert(all.take(parts@.len() as int) =~= all);
    out
}

/// The hits in the order that a reply asks for: those that it names, and then
/// the others as they were. Without a reply they stay as they were. See
/// [`reranked`].
pub fn rerank_with(hits: &Vec<Node>, reply: Option<&str>) -> (r: Vec<Node>)
    ensures
        types::node_views(r@) == reranked(
            types::node_views(hits@),
            match reply {
                Some(t) => Some(t@),
                None => None,
            },
        ),
{
    let n: usize = hits.len();
    let t = match reply {
        Some(t) => t,
        None => {
            return rows::copies(hits);
        },
    };
    if n < 2 {
        return rows::copies(hits);
    }
    let ghost all = types::node_views(hits@);
    let ghost named = places_in(t@, n as nat);
    let ghost other = |i: nat| !named.contains(i);
    let order = read_places(t, n);
    let ghost places = order@.map_values(|i: usize| i as nat);
    proof {
        law_reply_only_reorders(t@, n as nat);
        assert forall|i: int| 0 <= i < named.len() implies #[trigger] named[i] < n by {
            assert(reordered(t@, n as nat)[i] == named[i]);
            assert(reordered(t@, n as nat).contains(named[i]));
        }
    }
    let mut out: Vec<Node> = Vec::new();
    let mut i: usize = 0;
    while i < order.len()
        invariant
            i <= order.len(),
            n == hits@.len(),
            all == types::node_views(hits@),
            places == order@.map_values(|i: usize| i as nat),
            places == named,
            forall|k: int| 0 <= k < named.len() ==> #[trigger] named[k] < n,
            types::node_views(out@) == named.take(i as int).map_values(|i: nat| all[i as int]),
        decreases order.len() - i,
    {
        let ghost was = types::node_views(out@);
        assert(places[i as int] == order@[i as int] as nat);
        assert(named[i as int] < n);
        let c = hits[order[i]].clone();
        out.push(c);
        assert(types::node_views(out@) =~= was.push(c@));
        assert(all[named[i as int] as int] == c@);
        assert(named.take(i + 1).map_values(|i: nat| all[i as int]) =~= was.push(c@));
        i += 1;
    }
    assert(named.take(named.len() as int) =~= named);
    let ghost first = types::node_views(out@);
    let mut k: usize = 0;
    assert(all_places(n as nat).take(0) =~= Seq::empty());
    assert(first + rows::kept(all_places(n as nat).take(0), other).map_values(
        |i: nat| all[i as int],
    ) =~= first);
    while k < n
        invariant
            k <= n,
            n == hits@.len(),
            all == types::node_views(hits@),
            places == order@.map_values(|i: usize| i as nat),
            places == named,
            other == |i: nat| !named.contains(i),
            types::node_views(out@) == first + rows::kept(
                all_places(n as nat).take(k as int),
                other,
            ).map_values(|i: nat| all[i as int]),
        decreases n - k,
    {
        let ghost was = types::node_views(out@);
        let ghost before = rows::kept(all_places(n as nat).take(k as int), other);
        let ghost now = rows::kept(all_places(n as nat).take(k + 1), other);
        assert(all_places(n as nat).take(k + 1).drop_last() =~= all_places(n as nat).take(
            k as int,
        ));
        assert(all_places(n as nat).take(k + 1).last() == k as nat);
        if !has_place(&order, k) {
            let c = hits[k].clone();
            out.push(c);
            assert(types::node_views(out@) =~= was.push(c@));
            assert(all[k as int] == c@);
            assert(now =~= before.push(k as nat));
            assert(first + now.map_values(|i: nat| all[i as int]) =~= was.push(c@));
        }
        k += 1;
    }
    assert(all_places(n as nat).take(n as int) =~= all_places(n as nat));
    assert(reordered(t@, n as nat).map_values(|i: nat| all[i as int]) =~= first + rows::kept(
        all_places(n as nat),
        other,
    ).map_values(|i: nat| all[i as int]));
    out
}

fn has_place(order: &Vec<usize>, k: usize) -> (r: bool)
    ensures
        r == order@.map_values(|i: usize| i as nat).contains(k as nat),
{
    let ghost places = order@.map_values(|i: usize| i as nat);
    let mut i: usize = 0;
    while i < order.len()
        invariant
            i <= order.len(),
            places == order@.map_values(|i: usize| i as nat),
            forall|j: int| 0 <= j < i ==> places[j] != k as nat,
        decreases order.len() - i,
    {
        assert(places[i as int] == order@[i as int] as nat);
        if order[i] == k {
            return true;
        }
        i += 1;
    }
    false
}

/// The hits in the order that a client asks for; as they were where there are
/// less than two of them, or no client. The client is asked with
/// [`rank_prompt`].
pub fn rerank<L: LlmClient>(client: Option<&L>, query: &str, hits: Vec<Node>) -> (r: Vec<Node>)
    ensures
        client is None || hits@.len() < 2 ==> types::node_views(r@) == types::node_views(hits@),
        client matches Some(c) ==> hits@.len() >= 2 ==> exists|prompt: &str, reply: Option<String>|
            #![trigger call_ensures(L::generate, (c, prompt, 200usize), reply)]
            prompt@ == rank_prompt(query@, types::node_views(hits@)) && call_ensures(
                L::generate,
                (c, prompt, 200usize),
                reply,
            ) && types::node_views(r@) == reranked(
                types::node_views(hits@),
                types::opt_text(reply),
            ),
{
    match client {
        Some(c) => {
            if hits.len() < 2 {
                return hits;
            }
            let prompt = rerank_prompt(query, &hits);
            let asked = prompt.as_str();
            let reply = c.generate(asked, 200);
            let ghost said = reply;
            let r = match &reply {
                Some(t) => rerank_with(&hits, Some(t.as_str())),
                None => rerank_with(&hits, None),
            };
            assert(call_ensures(L::generate, (c, asked, 200usize), said));
            r
        },
        None => hits,
    }
}

} // verus!
