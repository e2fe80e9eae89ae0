//! Configuration: defaults, the layers of TOML files over them, and the
//! environment over those.

use vstd::prelude::*;
use vstd::string::*;

use crate::answers;
use crate::text;
use crate::types;
use crate::value;
use crate::value::{Datum, DatumModel, Entries};

verus! {

/// Why a configuration cannot be used.
#[derive(Debug, PartialEq, Eq)]
pub enum ConfigError {
    /// The words for the user; they name the file, and the field where one is
    /// at fault.
    Msg(String),
}

impl ConfigError {
    /// The words of the error.
    pub open spec fn text(self) -> Seq<char> {
        match self {
            ConfigError::Msg(s) => s@,
        }
    }

    /// The words of the error.
    pub fn message(&self) -> (r: &str)
        ensures
            r@ == self.text(),
    {
        match self {
            ConfigError::Msg(s) => s.as_str(),
        }
    }
}

/// The settings.
#[derive(Debug, PartialEq, Eq)]
pub struct Config {
    pub cache_dir: Option<String>,
    pub embed_model: Option<String>,
    pub llm: LlmConfig,
    pub ingest: MediaGate,
}

/// The settings of language models.
#[derive(Debug, PartialEq, Eq)]
pub struct LlmConfig {
    pub provider: String,
    pub base_url: Option<String>,
    pub model: String,
    pub vision_model: String,
    pub auto_install: bool,
    pub lockfile: Option<String>,
    pub rerank: bool,
    pub hyde: bool,
    pub whisper_model: String,
}

/// Whether images and videos are taken in. Off by default: media is opt-in.
#[derive(Debug, Clone, Copy, PartialEq, Eq, Structural)]
pub struct MediaGate {
    pub media: bool,
    pub images: bool,
    pub videos: bool,
    pub prompted: bool,
}

/// The default provider.
pub fn default_provider() -> (r: String)
    ensures
        r@ == "auto"@,
{
    "auto".to_owned()
}

/// The default chat model.
pub fn default_model() -> (r: String)
    ensures
        r@ == "Qwen2.5-Coder-1.5B-Instruct"@,
{
    "Qwen2.5-Coder-1.5B-Instruct".to_owned()
}

/// The default vision model.
pub fn default_vision_model() -> (r: String)
    ensures
        r@ == "SmolVLM2-500M-Instruct"@,
{
    "SmolVLM2-500M-Instruct".to_owned()
}

/// The default transcription model.
pub fn default_whisper() -> (r: String)
    ensures
        r@ == "base"@,
{
    "base".to_owned()
}

/// The model of an [`LlmConfig`].
pub struct LlmModel {
    pub provider: Seq<char>,
    pub base_url: Option<Seq<char>>,
    pub model: Seq<char>,
    pub vision_model: Seq<char>,
    pub auto_install: bool,
    pub lockfile: Option<Seq<char>>,
    pub rerank: bool,
    pub hyde: bool,
    pub whisper_model: Seq<char>,
}

/// The model of a [`Config`].
pub struct ConfigModel {
    pub cache_dir: Option<Seq<char>>,
    pub embed_model: Option<Seq<char>>,
    pub llm: LlmModel,
    pub ingest: MediaGate,
}

impl View for LlmConfig {
    type V = LlmModel;

    open spec fn view(&self) -> LlmModel {
        LlmModel {
            provider: self.provider@,
            base_url: types::opt_text(self.base_url),
            model: self.model@,
            vision_model: self.vision_model@,
            auto_install: self.auto_install,
            lockfile: types::opt_text(self.lockfile),
            rerank: self.rerank,
            hyde: self.hyde,
            whisper_model: self.whisper_model@,
        }
    }
}

impl View for Config {
    type V = ConfigModel;

    open spec fn view(&self) -> ConfigModel {
        ConfigModel {
            cache_dir: types::opt_text(self.cache_dir),
            embed_model: types::opt_text(self.embed_model),
            llm: self.llm@,
            ingest: self.ingest,
        }
    }
}

/// The default settings of language models.
pub open spec fn llm_defaults() -> LlmModel {
    LlmModel {
        provider: "auto"@,
        base_url: None,
        model: "Qwen2.5-Coder-1.5B-Instruct"@,
        vision_model: "SmolVLM2-500M-Instruct"@,
        auto_install: false,
        lockfile: None,
        rerank: false,
        hyde: false,
        whisper_model: "base"@,
    }
}

/// The media switches, all of them off.
pub open spec fn gate_defaults() -> MediaGate {
    MediaGate { media: false, images: false, videos: false, prompted: false }
}

/// The default settings.
pub open spec fn config_defaults() -> ConfigModel {
    ConfigModel {
        cache_dir: None,
        embed_model: None,
        llm: llm_defaults(),
        ingest: gate_defaults(),
    }
}

impl Default for LlmConfig {
    fn default() -> (r: LlmConfig)
        ensures
            r@ == llm_defaults(),
    {
        LlmConfig {
            provider: default_provider(),
            base_url: None,
            model: default_model(),
            vision_model: default_vision_model(),
            auto_install: false,
            lockfile: None,
            rerank: false,
            hyde: false,
            whisper_model: default_whisper(),
        }
    }
}

impl Default for MediaGate {
    fn default() -> (r: MediaGate)
        ensures
            r == gate_defaults(),
    {
        MediaGate { media: false, images: false, videos: false, prompted: false }
    }
}

impl Default for Config {
    fn default() -> (r: Config)
        ensures
            r@ == config_defaults(),
    {
        Config {
            cache_dir: None,
            embed_model: None,
            llm: LlmConfig::default(),
            ingest: MediaGate::default(),
        }
    }
}

impl MediaGate {
    /// Whether images are taken in.
    pub fn images_enabled(&self) -> (r: bool)
        ensures
            r == (self.media || self.images),
    {
        self.media || self.images
    }

    /// Whether videos are taken in.
    pub fn videos_enabled(&self) -> (r: bool)
        ensures
            r == (self.media || self.videos),
    {
        self.media || self.videos
    }

    /// Whether any media is taken in.
    pub fn media_enabled(&self) -> (r: bool)
        ensures
            r == (self.media || self.images || self.videos),
    {
        self.media || self.images || self.videos
    }
}

/// Whether a text switches something on.
pub open spec fn is_yes(s: Seq<char>) -> bool {
    let t = text::lower(s);
    t == "1"@ || t == "true"@ || t == "yes"@ || t == "on"@
}

/// Whether a text switches something on; see [`is_yes`].
pub fn yes_text(s: &str) -> (r: bool)
    ensures
        r == is_yes(s@),
{
    let low = text::to_lower(s);
    let t = low.as_str();
    text::same(t, "1") || text::same(t, "true") || text::same(t, "yes") || text::same(t, "on")
}

/// What a switch in the environment says, where it is set.
pub fn parse_bool(v: Option<String>) -> (r: Option<bool>)
    ensures
        r == (match v {
            Some(s) => Some(is_yes(s@)),
            None => None,
        }),
{
    match v {
        Some(s) => Some(yes_text(s.as_str())),
        None => None,
    }
}

/// An optional text after the environment has spoken.
pub open spec fn over_option(was: Option<String>, v: Option<String>) -> Option<String> {
    match v {
        Some(s) => Some(s),
        None => was,
    }
}

/// A text after the environment has spoken.
pub open spec fn over_text(was: String, v: Option<String>) -> String {
    match v {
        Some(s) => s,
        None => was,
    }
}

/// A switch after the environment has spoken.
pub open spec fn over_flag(was: bool, v: Option<String>) -> bool {
    match v {
        Some(s) => is_yes(s@),
        None => was,
    }
}

/// Whether `now` is an optional text that was `was` after `get` was asked for `key`.
pub open spec fn env_option<F: Fn(&str) -> Option<String>>(
    get: F,
    key: &str,
    was: Option<String>,
    now: Option<String>,
) -> bool {
    exists|v: Option<String>| #[trigger] get.ensures((key,), v) && now == over_option(was, v)
}

/// Asks `get` for `key`; see [`env_option`].
fn take_option<F: Fn(&str) -> Option<String>>(slot: &mut Option<String>, get: &F, key: &str)
    requires
        get.requires((key,)),
    ensures
        env_option(*get, key, *old(slot), *final(slot)),
{
    let v = get(key);
    let ghost answer = v;
    match v {
        Some(s) => {
            *slot = Some(s);
        },
        None => {},
    }
    assert(get.ensures((key,), answer));
}

/// Whether `now` is a text that was `was` after `get` was asked for `key`.
pub open spec fn env_text<F: Fn(&str) -> Option<String>>(
    get: F,
    key: &str,
    was: String,
    now: String,
) -> bool {
    exists|v: Option<String>| #[trigger] get.ensures((key,), v) && now == over_text(was, v)
}

/// Asks `get` for `key`; see [`env_text`].
fn take_text<F: Fn(&str) -> Option<String>>(slot: &mut String, get: &F, key: &str)
    requires
        get.requires((key,)),
    ensures
        env_text(*get, key, *old(slot), *final(slot)),
{
    let v = get(key);
    let ghost answer = v;
    match v {
        Some(s) => {
            *slot = s;
        },
        None => {},
    }
    assert(get.ensures((key,), answer));
}

/// Whether `now` is a switch that was `was` after `get` was asked for `key`.
pub open spec fn env_flag<F: Fn(&str) -> Option<String>>(
    get: F,
    key: &str,
    was: bool,
    now: bool,
) -> bool {
    exists|v: Option<String>| #[trigger] get.ensures((key,), v) && now == over_flag(was, v)
}

/// Asks `get` for `key`; see [`env_flag`].
fn take_flag<F: Fn(&str) -> Option<String>>(slot: &mut bool, get: &F, key: &str)
    requires
        get.requires((key,)),
    ensures
        env_flag(*get, key, *old(slot), *final(slot)),
{
    let v = get(key);
    let ghost answer = v;
    match parse_bool(v) {
        Some(b) => {
            *slot = b;
        },
        None => {},
    }
    assert(get.ensures((key,), answer));
}

/// Whether `now` is `was` with the environment over it: each setting that
/// `get` has a value for takes it, and every other setting stays.
pub open spec fn env_applied<F: Fn(&str) -> Option<String>>(
    get: F,
    was: Config,
    now: Config,
) -> bool {
    &&& env_option(get, "CODEGRAPH_CACHE_DIR", was.cache_dir, now.cache_dir)
    &&& env_option(get, "CODEGRAPH_EMBED_MODEL", was.embed_model, now.embed_model)
    &&& env_text(get, "CODEGRAPH_LLM_PROVIDER", was.llm.provider, now.llm.provider)
    &&& env_option(get, "CODEGRAPH_LLM_URL", was.llm.base_url, now.llm.base_url)
    &&& env_text(get, "CODEGRAPH_LLM_MODEL", was.llm.model, now.llm.model)
    &&& env_text(get, "CODEGRAPH_LLM_VISION_MODEL", was.llm.vision_model, now.llm.vision_model)
    &&& env_text(get, "CODEGRAPH_INGEST_WHISPER_MODEL", was.llm.whisper_model, now.llm.whisper_model)
    &&& env_option(get, "CODEGRAPH_LLM_LOCKFILE", was.llm.lockfile, now.llm.lockfile)
    &&& env_flag(get, "CODEGRAPH_LLM_AUTO_INSTALL", was.llm.auto_install, now.llm.auto_install)
    &&& env_flag(get, "CODEGRAPH_RERANK", was.llm.rerank, now.llm.rerank)
    &&& env_flag(get, "CODEGRAPH_HYDE", was.llm.hyde, now.llm.hyde)
    &&& env_flag(get, "CODEGRAPH_MEDIA", was.ingest.media, now.ingest.media)
    &&& env_flag(get, "CODEGRAPH_IMAGES", was.ingest.images, now.ingest.images)
    &&& env_flag(get, "CODEGRAPH_VIDEOS", was.ingest.videos, now.ingest.videos)
    &&& now.ingest.prompted == was.ingest.prompted
}

impl Config {
    /// The environment over the other layers: each setting that `get` has a
    /// value for takes it, and every other setting stays.
    pub fn apply_env_from<F: Fn(&str) -> Option<String>>(&mut self, get: F)
        requires
            forall|k: &str| #[trigger] get.requires((k,)),
        ensures
            env_applied(get, *old(self), *final(self)),
    {
        take_option(&mut self.cache_dir, &get, "CODEGRAPH_CACHE_DIR");
        take_option(&mut self.embed_model, &get, "CODEGRAPH_EMBED_MODEL");
        take_text(&mut self.llm.provider, &get, "CODEGRAPH_LLM_PROVIDER");
        take_option(&mut self.llm.base_url, &get, "CODEGRAPH_LLM_URL");
        take_text(&mut self.llm.model, &get, "CODEGRAPH_LLM_MODEL");
        take_text(&mut self.llm.vision_model, &get, "CODEGRAPH_LLM_VISION_MODEL");
        take_text(&mut self.llm.whisper_model, &get, "CODEGRAPH_INGEST_WHISPER_MODEL");
        take_option(&mut self.llm.lockfile, &get, "CODEGRAPH_LLM_LOCKFILE");
        take_flag(&mut self.llm.auto_install, &get, "CODEGRAPH_LLM_AUTO_INSTALL");
        take_flag(&mut self.llm.rerank, &get, "CODEGRAPH_RERANK");
        take_flag(&mut self.llm.hyde, &get, "CODEGRAPH_HYDE");
        take_flag(&mut self.ingest.media, &get, "CODEGRAPH_MEDIA");
        take_flag(&mut self.ingest.images, &get, "CODEGRAPH_IMAGES");
        take_flag(&mut self.ingest.videos, &get, "CODEGRAPH_VIDEOS");
    }
}


/// The entries with `v` under `k` laid over what is there: a table is merged
/// into a table, and anything else takes the place of what was there.
pub open spec fn lay_over(t: Entries, k: Seq<char>, v: DatumModel) -> Entries
    decreases v, 0int,
{
    match (value::lookup(t, k), v) {
        (Some(DatumModel::Table(bt)), DatumModel::Table(ot)) => value::put(
            t,
            k,
            DatumModel::Table(merge(bt, ot)),
        ),
        _ => value::put(t, k, v),
    }
}

/// The entries of `base` with those of `over` laid over them, one by one.
pub open spec fn merge(base: Entries, over: Entries) -> Entries
    decreases over, 1int,
{
    if over.len() == 0 {
        base
    } else {
        lay_over(merge(base, over.drop_last()), over[over.len() - 1].0, over[over.len() - 1].1)
    }
}

/// See [`merge`].
fn merged(base: &Vec<(String, Datum)>, over: &Vec<(String, Datum)>) -> (r: Vec<(String, Datum)>)
    ensures
        value::entries(r@) == merge(value::entries(base@), value::entries(over@)),
    decreases over,
{
    let ghost b = value::entries(base@);
    let ghost o = value::entries(over@);
    let mut r: Vec<(String, Datum)> = Vec::new();
    let mut i: usize = 0;
    while i < base.len()
        invariant
            i <= base.len(),
            b == value::entries(base@),
            value::entries(r@) == b.take(i as int),
        decreases base.len() - i,
    {
        let ghost before = value::entries(r@);
        let c = (base[i].0.clone(), base[i].1.clone());
        r.push(c);
        assert(value::entries(r@) =~= before.push((c.0@, c.1@)));
        i += 1;
    }
    assert(b.take(b.len() as int) =~= b);
    assert(o.take(0) =~= Seq::empty());
    let mut j: usize = 0;
    while j < over.len()
        invariant
            j <= over.len(),
            b == value::entries(base@),
            o == value::entries(over@),
            value::entries(r@) == merge(b, o.take(j as int)),
        decreases over.len() - j,
    {
        let ghost before = value::entries(r@);
        let k = &over[j].0;
        proof {
            assert(o.take(j + 1).drop_last() =~= o.take(j as int));
            assert(o.take(j + 1)[j as int] == (over@[j as int].0@, over@[j as int].1@));
        }
        let at: usize = value::position(&r, k.as_str());
        let ghost vm = over@[j as int].1@;
        proof {
            value::lemma_value_model(over@[j as int].1);
            if at < r@.len() {
                value::lemma_value_model(r@[at as int].1);
            }
        }
        let mut inner: Option<Vec<(String, Datum)>> = None;
        if at < r.len() {
            if let Datum::Table(bt) = &r[at].1 {
                if let Datum::Table(ot) = &over[j].1 {
                    assert(decreases_to!(over => ot)) by {
                        assert(decreases_to!(over => over@));
                        assert(decreases_to!(over@ => over@[j as int]));
                        assert(decreases_to!(over@[j as int] => over@[j as int].1));
                        assert(decreases_to!(over@[j as int].1 => ot));
                    }
                    let m = merged(bt, ot);
                    inner = Some(m);
                }
            }
        }
        match inner {
            Some(m) => {
                let d = Datum::Table(m);
                proof {
                    value::lemma_value_model(d);
                }
                value::insert(&mut r, k.as_str(), d);
            },
            None => {
                let d = over[j].1.clone();
                value::insert(&mut r, k.as_str(), d);
            },
        }
        assert(value::entries(r@) == lay_over(before, k@, vm));
        j += 1;
    }
    assert(o.take(o.len() as int) =~= o);
    r
}

/// Lays a table over another; see [`merge`].
pub fn merge_tables(base: &mut Vec<(String, Datum)>, over: &Vec<(String, Datum)>)
    ensures
        value::entries(final(base)@) == merge(value::entries(old(base)@), value::entries(over@)),
{
    let r = merged(base, over);
    *base = r;
}


/// What a value that stands in the wrong place is called.
pub open spec fn kind_words(v: DatumModel) -> Seq<char> {
    match v {
        DatumModel::Null => "unit value"@,
        DatumModel::Bool(true) => "boolean `true`"@,
        DatumModel::Bool(false) => "boolean `false`"@,
        DatumModel::Number(n) => "integer `"@ + n + "`"@,
        DatumModel::Fraction(n) => if n == "nan"@ {
            "floating point `NaN`"@
        } else {
            "floating point `"@ + n + "`"@
        },
        DatumModel::Text(s) => "string "@ + answers::quoted(s),
        DatumModel::Other(s) => "string "@ + answers::quoted(s),
        DatumModel::List(_) => "sequence"@,
        DatumModel::Table(_) => "map"@,
    }
}

/// The words for a value that is not what its field asks for.
pub open spec fn misfit(v: DatumModel, wanted: Seq<char>, path: Seq<char>) -> Seq<char> {
    "invalid type: "@ + kind_words(v) + ", expected "@ + wanted + "\nin `"@ + path + "`\n"@
}

/// The words for a list with more items than the section has settings.
pub open spec fn too_long(n: nat, path: Seq<char>) -> Seq<char> {
    "invalid length "@ + text::decimal(n) + ", expected fewer elements in array\nin `"@ + path
        + "`\n"@
}

/// What is wrong with a field that has to be a text, where it is set. A date
/// is the text of its notation.
pub open spec fn text_fault(v: Option<DatumModel>, path: Seq<char>) -> Option<Seq<char>> {
    match v {
        None => None,
        Some(DatumModel::Text(_)) => None,
        Some(DatumModel::Other(_)) => None,
        Some(x) => Some(misfit(x, "a string"@, path)),
    }
}

/// What is wrong with a field that has to be a switch, where it is set.
pub open spec fn flag_fault(v: Option<DatumModel>, path: Seq<char>) -> Option<Seq<char>> {
    match v {
        None => None,
        Some(DatumModel::Bool(_)) => None,
        Some(x) => Some(misfit(x, "a boolean"@, path)),
    }
}

/// The first of two faults.
pub open spec fn or_fault(a: Option<Seq<char>>, b: Option<Seq<char>>) -> Option<Seq<char>> {
    match a {
        Some(e) => Some(e),
        None => b,
    }
}

/// The text in a field.
pub open spec fn text_value(v: Option<DatumModel>) -> Option<Seq<char>> {
    match v {
        Some(DatumModel::Text(s)) => Some(s),
        Some(DatumModel::Other(s)) => Some(s),
        _ => None,
    }
}

/// The text in a field, or else the default.
pub open spec fn text_or(v: Option<DatumModel>, default: Seq<char>) -> Seq<char> {
    match text_value(v) {
        Some(s) => s,
        None => default,
    }
}

/// The switch in a field; off where it is not set.
pub open spec fn flag_value(v: Option<DatumModel>) -> bool {
    match v {
        Some(DatumModel::Bool(b)) => b,
        _ => false,
    }
}

/// A setting of a section: a section is a table with the setting under its
/// name, or a list with the settings in their order.
pub open spec fn part(v: Option<DatumModel>, key: Seq<char>, place: int) -> Option<DatumModel> {
    match v {
        Some(DatumModel::Table(t)) => value::lookup(t, key),
        Some(DatumModel::List(l)) => if 0 <= place < l.len() {
            Some(l[place])
        } else {
            None
        },
        _ => None,
    }
}

/// Where a setting of a section stands: a list has no names for its items.
pub open spec fn part_path(
    v: Option<DatumModel>,
    section: Seq<char>,
    key: Seq<char>,
) -> Seq<char> {
    match v {
        Some(DatumModel::List(_)) => section,
        _ => section + "."@ + key,
    }
}

/// What is wrong with a text of the language-model settings.
pub open spec fn llm_text(v: Option<DatumModel>, key: Seq<char>, place: int) -> Option<Seq<char>> {
    text_fault(part(v, key, place), part_path(v, "llm"@, key))
}

/// What is wrong with a switch of the language-model settings.
pub open spec fn llm_flag(v: Option<DatumModel>, key: Seq<char>, place: int) -> Option<Seq<char>> {
    flag_fault(part(v, key, place), part_path(v, "llm"@, key))
}

/// The first thing that is wrong with a value as the language-model settings.
/// A table is read by name in order, and a list from its front.
pub open spec fn llm_fault(v: Option<DatumModel>) -> Option<Seq<char>> {
    let provider = llm_text(v, "provider"@, 0);
    let base_url = llm_text(v, "base_url"@, 1);
    let model = llm_text(v, "model"@, 2);
    let vision_model = llm_text(v, "vision_model"@, 3);
    let auto_install = llm_flag(v, "auto_install"@, 4);
    let lockfile = llm_text(v, "lockfile"@, 5);
    let rerank = llm_flag(v, "rerank"@, 6);
    let hyde = llm_flag(v, "hyde"@, 7);
    let whisper_model = llm_text(v, "whisper_model"@, 8);
    match v {
        None => None,
        Some(DatumModel::Table(_)) => {
            let f7 = or_fault(vision_model, whisper_model);
            let f6 = or_fault(rerank, f7);
            let f5 = or_fault(provider, f6);
            let f4 = or_fault(model, f5);
            let f3 = or_fault(lockfile, f4);
            let f2 = or_fault(hyde, f3);
            let f1 = or_fault(base_url, f2);
            or_fault(auto_install, f1)
        },
        Some(DatumModel::List(l)) => {
            let long = if l.len() > 9 {
                Some(too_long(l.len(), "llm"@))
            } else {
                None
            };
            let f8 = or_fault(whisper_model, long);
            let f7 = or_fault(hyde, f8);
            let f6 = or_fault(rerank, f7);
            let f5 = or_fault(lockfile, f6);
            let f4 = or_fault(auto_install, f5);
            let f3 = or_fault(vision_model, f4);
            let f2 = or_fault(model, f3);
            let f1 = or_fault(base_url, f2);
            or_fault(provider, f1)
        },
        Some(x) => Some(misfit(x, "struct LlmConfig"@, "llm"@)),
    }
}

/// What is wrong with a switch of the media settings.
pub open spec fn gate_flag(v: Option<DatumModel>, key: Seq<char>, place: int) -> Option<
    Seq<char>,
> {
    flag_fault(part(v, key, place), part_path(v, "ingest"@, key))
}

/// The first thing that is wrong with a value as the media settings; see
/// [`llm_fault`] for the order.
pub open spec fn gate_fault(v: Option<DatumModel>) -> Option<Seq<char>> {
    let media = gate_flag(v, "media"@, 0);
    let images = gate_flag(v, "images"@, 1);
    let videos = gate_flag(v, "videos"@, 2);
    let prompted = gate_flag(v, "prompted"@, 3);
    match v {
        None => None,
        Some(DatumModel::Table(_)) => {
            let f2 = or_fault(prompted, videos);
            let f1 = or_fault(media, f2);
            or_fault(images, f1)
        },
        Some(DatumModel::List(l)) => {
            let long = if l.len() > 4 {
                Some(too_long(l.len(), "ingest"@))
            } else {
                None
            };
            let f3 = or_fault(prompted, long);
            let f2 = or_fault(videos, f3);
            let f1 = or_fault(images, f2);
            or_fault(media, f1)
        },
        Some(x) => Some(misfit(x, "struct MediaGate"@, "ingest"@)),
    }
}

/// The first thing that is wrong with a table as the settings, by name in
/// order.
pub open spec fn config_fault(t: Entries) -> Option<Seq<char>> {
    let f2 = or_fault(
        gate_fault(value::lookup(t, "ingest"@)),
        llm_fault(value::lookup(t, "llm"@)),
    );
    let f1 = or_fault(text_fault(value::lookup(t, "embed_model"@), "embed_model"@), f2);
    or_fault(text_fault(value::lookup(t, "cache_dir"@), "cache_dir"@), f1)
}

/// The language-model settings that a value without fault says.
pub open spec fn llm_value(v: Option<DatumModel>) -> LlmModel {
    LlmModel {
        provider: text_or(part(v, "provider"@, 0), "auto"@),
        base_url: text_value(part(v, "base_url"@, 1)),
        model: text_or(part(v, "model"@, 2), "Qwen2.5-Coder-1.5B-Instruct"@),
        vision_model: text_or(part(v, "vision_model"@, 3), "SmolVLM2-500M-Instruct"@),
        auto_install: flag_value(part(v, "auto_install"@, 4)),
        lockfile: text_value(part(v, "lockfile"@, 5)),
        rerank: flag_value(part(v, "rerank"@, 6)),
        hyde: flag_value(part(v, "hyde"@, 7)),
        whisper_model: text_or(part(v, "whisper_model"@, 8), "base"@),
    }
}

/// The media settings that a value without fault says.
pub open spec fn gate_value(v: Option<DatumModel>) -> MediaGate {
    MediaGate {
        media: flag_value(part(v, "media"@, 0)),
        images: flag_value(part(v, "images"@, 1)),
        videos: flag_value(part(v, "videos"@, 2)),
        prompted: flag_value(part(v, "prompted"@, 3)),
    }
}

/// The settings that a table without fault says.
pub open spec fn config_value(t: Entries) -> ConfigModel {
    ConfigModel {
        cache_dir: text_value(value::lookup(t, "cache_dir"@)),
        embed_model: text_value(value::lookup(t, "embed_model"@)),
        llm: llm_value(value::lookup(t, "llm"@)),
        ingest: gate_value(value::lookup(t, "ingest"@)),
    }
}

/// The settings that a table says, or what is wrong with it.
pub open spec fn config_of(t: Entries) -> Result<ConfigModel, Seq<char>> {
    match config_fault(t) {
        Some(e) => Err(e),
        None => Ok(config_value(t)),
    }
}

/// What a value models, where there is one.
pub open spec fn seen(v: Option<&Datum>) -> Option<DatumModel> {
    match v {
        Some(d) => Some(d@),
        None => None,
    }
}

/// See [`kind_words`].
fn say_kind(v: &Datum) -> (r: String)
    ensures
        r@ == kind_words(v@),
{
    broadcast use value::lemma_value_model;

    match v {
        Datum::Null => "unit value".to_owned(),
        Datum::Bool(b) => if *b {
            "boolean `true`".to_owned()
        } else {
            "boolean `false`".to_owned()
        },
        Datum::Number(n) => "integer `".to_owned().concat(n.as_str()).concat("`"),
        Datum::Fraction(n) => if text::same(n.as_str(), "nan") {
            "floating point `NaN`".to_owned()
        } else {
            "floating point `".to_owned().concat(n.as_str()).concat("`")
        },
        Datum::Text(s) => "string ".to_owned().concat(answers::quote(s.as_str()).as_str()),
        Datum::Other(s) => "string ".to_owned().concat(answers::quote(s.as_str()).as_str()),
        Datum::List(_) => "sequence".to_owned(),
        Datum::Table(_) => "map".to_owned(),
    }
}

/// See [`misfit`].
fn say_misfit(v: &Datum, wanted: &str, path: &str) -> (r: String)
    ensures
        r@ == misfit(v@, wanted@, path@),
{
    "invalid type: ".to_owned().concat(say_kind(v).as_str()).concat(", expected ").concat(
        wanted,
    ).concat("\nin `").concat(path).concat("`\n")
}

/// See [`too_long`].
fn say_too_long(n: usize, path: &str) -> (r: String)
    ensures
        r@ == too_long(n as nat, path@),
{
    "invalid length ".to_owned().concat(text::to_decimal(n as u64).as_str()).concat(
        ", expected fewer elements in array\nin `",
    ).concat(path).concat("`\n")
}

/// The text in a field, where it is set; or its fault.
fn read_text(v: Option<&Datum>, path: &str) -> (r: Result<Option<String>, String>)
    ensures
        match r {
            Ok(s) => text_fault(seen(v), path@) is None && types::opt_text(s) == text_value(
                seen(v),
            ),
            Err(e) => text_fault(seen(v), path@) == Some(e@),
        },
{
    broadcast use value::lemma_value_model;

    match v {
        None => Ok(None),
        Some(d) => match d {
            Datum::Text(s) => Ok(Some(s.clone())),
            Datum::Other(s) => Ok(Some(s.clone())),
            _ => Err(say_misfit(d, "a string", path)),
        },
    }
}

/// The switch in a field, off where it is not set; or its fault.
fn read_flag(v: Option<&Datum>, path: &str) -> (r: Result<bool, String>)
    ensures
        match r {
            Ok(b) => flag_fault(seen(v), path@) is None && b == flag_value(seen(v)),
            Err(e) => flag_fault(seen(v), path@) == Some(e@),
        },
{
    broadcast use value::lemma_value_model;

    match v {
        None => Ok(false),
        Some(d) => match d {
            Datum::Bool(b) => Ok(*b),
            _ => Err(say_misfit(d, "a boolean", path)),
        },
    }
}

/// The value under a key, where there is one.
fn value_at<'a>(t: &'a Vec<(String, Datum)>, key: &str) -> (r: Option<&'a Datum>)
    ensures
        seen(r) == value::lookup(value::entries(t@), key@),
{
    let k: usize = value::position(t, key);
    if k < t.len() {
        Some(&t[k].1)
    } else {
        None
    }
}

/// See [`part`].
fn part_of<'a>(v: Option<&'a Datum>, key: &str, place: usize) -> (r: Option<&'a Datum>)
    ensures
        seen(r) == part(seen(v), key@, place as int),
{
    broadcast use value::lemma_value_model;

    match v {
        None => None,
        Some(d) => match d {
            Datum::Table(t) => value_at(t, key),
            Datum::List(l) => if place < l.len() {
                Some(&l[place])
            } else {
                None
            },
            _ => None,
        },
    }
}

/// See [`part_path`].
fn path_of(v: Option<&Datum>, section: &str, key: &str) -> (r: String)
    ensures
        r@ == part_path(seen(v), section@, key@),
{
    broadcast use value::lemma_value_model;

    match v {
        Some(Datum::List(_)) => section.to_owned(),
        _ => section.to_owned().concat(".").concat(key),
    }
}

/// A text of a section, or its fault.
fn text_part(v: Option<&Datum>, section: &str, key: &str, place: usize) -> (r: Result<
    Option<String>,
    String,
>)
    ensures
        ({
            let p = part(seen(v), key@, place as int);
            let fault = text_fault(p, part_path(seen(v), section@, key@));
            match r {
                Ok(s) => fault is None && types::opt_text(s) == text_value(p),
                Err(e) => fault == Some(e@),
            }
        }),
{
    let path = path_of(v, section, key);
    read_text(part_of(v, key, place), path.as_str())
}

/// A switch of a section, or its fault.
fn flag_part(v: Option<&Datum>, section: &str, key: &str, place: usize) -> (r: Result<
    bool,
    String,
>)
    ensures
        ({
            let p = part(seen(v), key@, place as int);
            let fault = flag_fault(p, part_path(seen(v), section@, key@));
            match r {
                Ok(b) => fault is None && b == flag_value(p),
                Err(e) => fault == Some(e@),
            }
        }),
{
    let path = path_of(v, section, key);
    read_flag(part_of(v, key, place), path.as_str())
}

/// What was wrong with a text, where something was.
fn fault_in<T>(r: &Result<T, String>) -> (f: Option<String>)
    ensures
        types::opt_text(f) == (match *r {
            Ok(_) => None,
            Err(e) => Some(e@),
        }),
{
    match r {
        Ok(_) => None,
        Err(e) => Some(e.clone()),
    }
}

/// See [`or_fault`].
fn first_of(a: Option<String>, b: Option<String>) -> (r: Option<String>)
    ensures
        types::opt_text(r) == or_fault(types::opt_text(a), types::opt_text(b)),
{
    match a {
        Some(e) => Some(e),
        None => b,
    }
}

/// A text, or else the default.
fn or_default(v: Option<String>, default: String) -> (r: String)
    ensures
        r@ == (match v {
            Some(s) => s@,
            None => default@,
        }),
{
    match v {
        Some(s) => s,
        None => default,
    }
}

/// The language-model settings that a value says, or what is wrong with it.
fn read_llm(v: Option<&Datum>) -> (r: Result<LlmConfig, String>)
    ensures
        match r {
            Ok(c) => llm_fault(seen(v)) is None && c@ == llm_value(seen(v)),
            Err(e) => llm_fault(seen(v)) == Some(e@),
        },
{
    broadcast use value::lemma_value_model;

    let provider = text_part(v, "llm", "provider", 0);
    let base_url = text_part(v, "llm", "base_url", 1);
    let model = text_part(v, "llm", "model", 2);
    let vision_model = text_part(v, "llm", "vision_model", 3);
    let auto_install = flag_part(v, "llm", "auto_install", 4);
    let lockfile = text_part(v, "llm", "lockfile", 5);
    let rerank = flag_part(v, "llm", "rerank", 6);
    let hyde = flag_part(v, "llm", "hyde", 7);
    let whisper_model = text_part(v, "llm", "whisper_model", 8);
    let fault: Option<String> = match v {
        None => None,
        Some(Datum::Table(_)) => {
            let f7 = first_of(fault_in(&vision_model), fault_in(&whisper_model));
            let f6 = first_of(fault_in(&rerank), f7);
            let f5 = first_of(fault_in(&provider), f6);
            let f4 = first_of(fault_in(&model), f5);
            let f3 = first_of(fault_in(&lockfile), f4);
            let f2 = first_of(fault_in(&hyde), f3);
            let f1 = first_of(fault_in(&base_url), f2);
            first_of(fault_in(&auto_install), f1)
        },
        Some(Datum::List(l)) => {
            let long = if l.len() > 9 {
                Some(say_too_long(l.len(), "llm"))
            } else {
                None
            };
            let f8 = first_of(fault_in(&whisper_model), long);
            let f7 = first_of(fault_in(&hyde), f8);
            let f6 = first_of(fault_in(&rerank), f7);
            let f5 = first_of(fault_in(&lockfile), f6);
            let f4 = first_of(fault_in(&auto_install), f5);
            let f3 = first_of(fault_in(&vision_model), f4);
            let f2 = first_of(fault_in(&model), f3);
            let f1 = first_of(fault_in(&base_url), f2);
            first_of(fault_in(&provider), f1)
        },
        Some(d) => Some(say_misfit(d, "struct LlmConfig", "llm")),
    };
    assert(types::opt_text(fault) == llm_fault(seen(v)));
    match fault {
        Some(e) => Err(e),
        None => match (
            provider,
            base_url,
            model,
            vision_model,
            auto_install,
            lockfile,
            rerank,
            hyde,
            whisper_model,
        ) {
            (
                Ok(provider),
                Ok(base_url),
                Ok(model),
                Ok(vision_model),
                Ok(auto_install),
                Ok(lockfile),
                Ok(rerank),
                Ok(hyde),
                Ok(whisper_model),
            ) => Ok(
                LlmConfig {
                    provider: or_default(provider, default_provider()),
                    base_url,
                    model: or_default(model, default_model()),
                    vision_model: or_default(vision_model, default_vision_model()),
                    auto_install,
                    lockfile,
                    rerank,
                    hyde,
                    whisper_model: or_default(whisper_model, default_whisper()),
                },
            ),
            _ => {
                assert(false);
                Ok(LlmConfig::default())
            },
        },
    }
}

/// The media settings that a value says, or what is wrong with it.
fn read_gate(v: Option<&Datum>) -> (r: Result<MediaGate, String>)
    ensures
        match r {
            Ok(c) => gate_fault(seen(v)) is None && c == gate_value(seen(v)),
            Err(e) => gate_fault(seen(v)) == Some(e@),
        },
{
    broadcast use value::lemma_value_model;

    let media = flag_part(v, "ingest", "media", 0);
    let images = flag_part(v, "ingest", "images", 1);
    let videos = flag_part(v, "ingest", "videos", 2);
    let prompted = flag_part(v, "ingest", "prompted", 3);
    let fault: Option<String> = match v {
        None => None,
        Some(Datum::Table(_)) => {
            let f2 = first_of(fault_in(&prompted), fault_in(&videos));
            let f1 = first_of(fault_in(&media), f2);
            first_of(fault_in(&images), f1)
        },
        Some(Datum::List(l)) => {
            let long = if l.len() > 4 {
                Some(say_too_long(l.len(), "ingest"))
            } else {
                None
            };
            let f3 = first_of(fault_in(&prompted), long);
            let f2 = first_of(fault_in(&videos), f3);
            let f1 = first_of(fault_in(&images), f2);
            first_of(fault_in(&media), f1)
        },
        Some(d) => Some(say_misfit(d, "struct MediaGate", "ingest")),
    };
    assert(types::opt_text(fault) == gate_fault(seen(v)));
    match fault {
        Some(e) => Err(e),
        None => match (media, images, videos, prompted) {
            (Ok(media), Ok(images), Ok(videos), Ok(prompted)) => Ok(
                MediaGate { media, images, videos, prompted },
            ),
            _ => {
                assert(false);
                Ok(MediaGate::default())
            },
        },
    }
}

impl Config {
    /// The settings that a table says, or what is wrong with it; see
    /// [`config_of`].
    pub fn from_table(t: &Vec<(String, Datum)>) -> (r: Result<Config, String>)
        ensures
            match r {
                Ok(c) => config_of(value::entries(t@)) == Ok::<ConfigModel, Seq<char>>(c@),
                Err(e) => config_of(value::entries(t@)) == Err::<ConfigModel, Seq<char>>(e@),
            },
    {
        let cache_dir = match read_text(value_at(t, "cache_dir"), "cache_dir") {
            Ok(v) => v,
            Err(e) => return Err(e),
        };
        let embed_model = match read_text(value_at(t, "embed_model"), "embed_model") {
            Ok(v) => v,
            Err(e) => return Err(e),
        };
        let ingest = match read_gate(value_at(t, "ingest")) {
            Ok(v) => v,
            Err(e) => return Err(e),
        };
        let llm = match read_llm(value_at(t, "llm")) {
            Ok(v) => v,
            Err(e) => return Err(e),
        };
        Ok(Config { cache_dir, embed_model, llm, ingest })
    }
}

/// The entries of a table with a parsed file laid over it, or why the file
/// cannot be used: the words name the file.
pub open spec fn with_layer(
    t: Entries,
    path: Seq<char>,
    parsed: Result<DatumModel, Seq<char>>,
) -> Result<Entries, Seq<char>> {
    match parsed {
        Err(e) => Err(path + ": TOML syntax error: "@ + e),
        Ok(DatumModel::Table(x)) => match config_fault(x) {
            Some(e) => Err(path + ": invalid config: "@ + e),
            None => Ok(merge(t, x)),
        },
        Ok(_) => Ok(t),
    }
}

/// Lays a parsed file over a table; see [`with_layer`].
pub fn add_layer(
    t: &mut Vec<(String, Datum)>,
    path: &str,
    parsed: Result<Vec<(String, Datum)>, String>,
) -> (r: Result<(), ConfigError>)
    ensures
        with_layer(
            value::entries(old(t)@),
            path@,
            match parsed {
                Ok(x) => Ok(DatumModel::Table(value::entries(x@))),
                Err(e) => Err(e@),
            },
        ) == (match r {
            Ok(_) => Ok::<Entries, Seq<char>>(value::entries(final(t)@)),
            Err(e) => Err(e.text()),
        }),
        r is Err ==> final(t)@ == old(t)@,
{
    match parsed {
        Err(e) => Err(
            ConfigError::Msg(path.to_owned().concat(": TOML syntax error: ").concat(e.as_str())),
        ),
        Ok(x) => match Config::from_table(&x) {
            Err(e) => Err(
                ConfigError::Msg(path.to_owned().concat(": invalid config: ").concat(e.as_str())),
            ),
            Ok(_) => {
                merge_tables(t, &x);
                Ok(())
            },
        },
    }
}

/// A configuration file: its path and its text.
pub struct Layer {
    pub path: String,
    pub text: String,
}

/// The table that the files make, each laid over those before it.
pub open spec fn layered(layers: Seq<Layer>) -> Result<Entries, Seq<char>>
    decreases layers.len(),
{
    if layers.len() == 0 {
        Ok(Seq::empty())
    } else {
        match layered(layers.drop_last()) {
            Err(e) => Err(e),
            Ok(t) => with_layer(
                t,
                layers.last().path@,
                value::toml_parsed(layers.last().text@),
            ),
        }
    }
}

/// The settings that the files make before the environment has spoken.
pub open spec fn layered_config(layers: Seq<Layer>) -> Result<ConfigModel, Seq<char>> {
    match layered(layers) {
        Err(e) => Err(e),
        Ok(t) => match config_of(t) {
            Err(e) => Err("merged config invalid: "@ + e),
            Ok(c) => Ok(c),
        },
    }
}

proof fn lemma_layered_err(layers: Seq<Layer>, k: int)
    requires
        0 <= k <= layers.len(),
        layered(layers.take(k)) is Err,
    ensures
        layered(layers) == layered(layers.take(k)),
    decreases layers.len(),
{
    if k == layers.len() {
        assert(layers.take(k) =~= layers);
    } else {
        assert(layers.drop_last().take(k) =~= layers.take(k));
        lemma_layered_err(layers.drop_last(), k);
    }
}

impl Config {
    /// The settings, with precedence from low to high: the defaults, the files
    /// in the order given, the environment.
    pub fn load<F: Fn(&str) -> Option<String>>(layers: &Vec<Layer>, get: F) -> (r: Result<
        Config,
        ConfigError,
    >)
        requires
            forall|k: &str| #[trigger] get.requires((k,)),
        ensures
            match r {
                Ok(c) => exists|base: Config| #[trigger]
                    env_applied(get, base, c) && layered_config(layers@) == Ok::<
                        ConfigModel,
                        Seq<char>,
                    >(base@),
                Err(e) => layered_config(layers@) == Err::<ConfigModel, Seq<char>>(e.text()),
            },
    {
        let mut table: Vec<(String, Datum)> = Vec::new();
        assert(value::entries(table@) =~= Seq::empty());
        let mut i: usize = 0;
        while i < layers.len()
            invariant
                i <= layers.len(),
                layered(layers@.take(i as int)) == Ok::<Entries, Seq<char>>(
                    value::entries(table@),
                ),
            decreases layers.len() - i,
        {
            proof {
                assert(layers@.take(i + 1).drop_last() =~= layers@.take(i as int));
                assert(layers@.take(i + 1).last() == layers@[i as int]);
            }
            let parsed = value::parse_toml(layers[i].text.as_str());
            match add_layer(&mut table, layers[i].path.as_str(), parsed) {
                Ok(_) => {},
                Err(e) => {
                    proof {
                        lemma_layered_err(layers@, i + 1);
                    }
                    return Err(e);
                },
            }
            i += 1;
        }
        assert(layers@.take(layers@.len() as int) =~= layers@);
        match Config::from_table(&table) {
            Err(e) => Err(
                ConfigError::Msg("merged config invalid: ".to_owned().concat(e.as_str())),
            ),
            Ok(base) => {
                let mut c = base;
                let ghost b = c;
                c.apply_env_from(get);
                assert(env_applied(get, b, c));
                Ok(c)
            },
        }
    }
}

/// The file of the user's own settings, under `$XDG_CONFIG_HOME` or else under
/// `.config` in the home directory.
pub fn global_config_path(xdg: Option<String>, home: Option<String>) -> (r: Option<String>)
    ensures
        types::opt_text(r) == (match (xdg, home) {
            (Some(x), _) => Some(x@ + "/codegraph/config.toml"@),
            (None, Some(h)) => Some(h@ + "/.config/codegraph/config.toml"@),
            (None, None) => None,
        }),
{
    match xdg {
        Some(x) => Some(x.concat("/codegraph/config.toml")),
        None => match home {
            Some(h) => Some(h.concat("/.config/codegraph/config.toml")),
            None => None,
        },
    }
}

/// The directory that holds `dir`; nothing above the root or above a bare
/// name.
pub open spec fn parent_dir(dir: Seq<char>) -> Option<Seq<char>>
    decreases dir.len(),
{
    if dir.len() == 0 || dir == "/"@ {
        None
    } else {
        let cut = last_slash(dir);
        if cut == 0 {
            Some("/"@)
        } else if cut > 0 {
            Some(dir.take(cut))
        } else {
            Some(Seq::empty())
        }
    }
}

/// The place of the last slash; -1 where there is none.
pub open spec fn last_slash(s: Seq<char>) -> int
    decreases s.len(),
{
    if s.len() == 0 {
        -1
    } else if s.last() == '/' {
        s.len() - 1
    } else {
        last_slash(s.drop_last())
    }
}

/// The file of a project's settings in a directory.
pub open spec fn config_file(dir: Seq<char>) -> Seq<char> {
    if dir.len() == 0 {
        ".codegraph.toml"@
    } else if dir.last() == '/' {
        dir + ".codegraph.toml"@
    } else {
        dir + "/.codegraph.toml"@
    }
}

/// The directory reached from `dir` by going up `k` times.
pub open spec fn ancestor(dir: Seq<char>, k: nat) -> Option<Seq<char>>
    decreases k,
{
    if k == 0 {
        Some(dir)
    } else {
        match ancestor(dir, (k - 1) as nat) {
            Some(d) => parent_dir(d),
            None => None,
        }
    }
}

proof fn lemma_parent_shorter(dir: Seq<char>)
    ensures
        -1 <= last_slash(dir) < dir.len(),
        parent_dir(dir) matches Some(p) ==> p.len() < dir.len(),
    decreases dir.len(),
{
    reveal_strlit("/");
    if dir.len() > 0 {
        lemma_parent_shorter(dir.drop_last());
        if last_slash(dir) == 0 && dir.len() == 1 {
            assert(dir =~= "/"@);
        }
    }
}

/// See [`parent_dir`].
fn parent_of(dir: &str) -> (r: Option<String>)
    ensures
        types::opt_text(r) == parent_dir(dir@),
{
    if dir.is_empty() || text::same(dir, "/") {
        return None;
    }
    let v = text::chars_of(dir);
    let mut i: usize = v.len();
    assert(dir@.take(dir@.len() as int) =~= dir@);
    while i > 0 && v[i - 1] != '/'
        invariant
            i <= v.len(),
            v@ == dir@,
            last_slash(dir@) == last_slash(dir@.take(i as int)),
        decreases i,
    {
        assert(dir@.take(i as int).drop_last() =~= dir@.take(i - 1));
        i -= 1;
    }
    if i == 0 {
        let r = String::new();
        assert(r@ =~= Seq::empty());
        Some(r)
    } else if i == 1 {
        Some("/".to_owned())
    } else {
        let r = text::slice(&v, 0, i - 1);
        assert(r@ =~= dir@.take(i - 1));
        Some(r)
    }
}

/// See [`config_file`].
fn config_file_in(dir: &str) -> (r: String)
    ensures
        r@ == config_file(dir@),
{
    if dir.is_empty() {
        ".codegraph.toml".to_owned()
    } else if text::finishes_with(dir, "/") {
        proof {
            reveal_strlit("/");
            assert(dir@.subrange(dir@.len() - 1, dir@.len() as int)[0] == '/');
        }
        dir.to_owned().concat(".codegraph.toml")
    } else {
        proof {
            reveal_strlit("/");
            if dir@.last() == '/' {
                assert(dir@.subrange(dir@.len() - 1, dir@.len() as int) =~= "/"@);
            }
        }
        dir.to_owned().concat("/.codegraph.toml")
    }
}

/// Whether the settings of the `k`-th directory up from `start` are the
/// nearest ones, as `is_file` answers.
pub open spec fn nearest_at<F: Fn(&str) -> bool>(
    start: Seq<char>,
    is_file: F,
    k: nat,
    path: Seq<char>,
) -> bool {
    &&& ancestor(start, k) matches Some(d) && path == config_file(d)
    &&& exists|s: &str| s@ == path && #[trigger] is_file.ensures((s,), true)
    &&& forall|j: nat| j < k ==> #[trigger] answered_no(start, is_file, j)
}

/// Whether the `j`-th directory up from `start` holds no settings, as
/// `is_file` answers.
pub open spec fn answered_no<F: Fn(&str) -> bool>(start: Seq<char>, is_file: F, j: nat) -> bool {
    match ancestor(start, j) {
        Some(d) => exists|s: &str| s@ == config_file(d) && #[trigger] is_file.ensures((s,), false),
        None => true,
    }
}

/// The nearest `.codegraph.toml` from `start` upwards, where there is one.
pub fn project_config_path<F: Fn(&str) -> bool>(start: &str, is_file: F) -> (r: Option<String>)
    requires
        forall|k: &str| #[trigger] is_file.requires((k,)),
    ensures
        match r {
            Some(p) => exists|k: nat| #[trigger] nearest_at(start@, is_file, k, p@),
            None => forall|j: nat| #[trigger] answered_no(start@, is_file, j),
        },
{
    let mut dir = start.to_owned();
    let ghost mut k: nat = 0;
    loop
        invariant
            forall|k: &str| #[trigger] is_file.requires((k,)),
            ancestor(start@, k) == Some(dir@),
            forall|j: nat| j < k ==> #[trigger] answered_no(start@, is_file, j),
        decreases dir@.len(),
    {
        let candidate = config_file_in(dir.as_str());
        let s = candidate.as_str();
        let hit = is_file(s);
        assert(is_file.ensures((s,), hit));
        if hit {
            let r = Some(candidate);
            assert(nearest_at(start@, is_file, k, r->0@));
            return r;
        }
        assert(answered_no(start@, is_file, k));
        proof {
            lemma_parent_shorter(dir@);
        }
        match parent_of(dir.as_str()) {
            Some(p) => {
                dir = p;
                proof {
                    k = k + 1;
                }
            },
            None => {
                proof {
                    assert forall|j: nat| #[trigger] answered_no(start@, is_file, j) by {
                        if j > k {
                            lemma_above_root(start@, k, j);
                        }
                    }
                }
                return None;
            },
        }
    }
}

proof fn lemma_above_root(dir: Seq<char>, k: nat, j: nat)
    requires
        ancestor(dir, k + 1) is None,
        j > k,
    ensures
        ancestor(dir, j) is None,
    decreases j,
{
    if j > k + 1 {
        lemma_above_root(dir, k, (j - 1) as nat);
    }
}

proof fn lemma_lookup_last(t: Entries, k: Seq<char>)
    requires
        t.len() > 0,
    ensures
        value::lookup(t, k) == (match value::lookup(t.drop_last(), k) {
            Some(v) => Some(v),
            None => if t.last().0 == k {
                Some(t.last().1)
            } else {
                None
            },
        }),
    decreases t.len(),
{
    if t.len() == 1 {
        assert(t.drop_last() =~= Seq::empty());
        assert(t.drop_first() =~= Seq::empty());
    } else {
        let r = t.drop_first();
        lemma_lookup_last(r, k);
        assert(t.drop_last().drop_first() =~= r.drop_last());
    }
}

proof fn lemma_lookup_none(t: Entries, k: Seq<char>)
    requires
        forall|i: int| 0 <= i < t.len() ==> (#[trigger] t[i]).0 != k,
    ensures
        value::lookup(t, k) is None,
    decreases t.len(),
{
    if t.len() > 0 {
        assert(t[0].0 != k);
        let r = t.drop_first();
        assert forall|i: int| 0 <= i < r.len() implies (#[trigger] r[i]).0 != k by {
            assert(r[i] == t[i + 1]);
        }
        lemma_lookup_none(r, k);
    }
}

/// What a higher layer sets wins, table by table; what it does not set is
/// inherited from the lower layer.
pub proof fn law_higher_layer_wins(base: Entries, over: Entries, k: Seq<char>)
    requires
        value::keys_differ(over),
    ensures
        value::lookup(merge(base, over), k) == (match value::lookup(over, k) {
            None => value::lookup(base, k),
            Some(v) => match (value::lookup(base, k), v) {
                (Some(DatumModel::Table(b)), DatumModel::Table(o)) => Some(
                    DatumModel::Table(merge(b, o)),
                ),
                _ => Some(v),
            },
        }),
    decreases over.len(),
{
    if over.len() > 0 {
        let rest = over.drop_last();
        let key = over.last().0;
        assert(value::keys_differ(rest)) by {
            assert forall|i: int, j: int| 0 <= i < j < rest.len() implies (#[trigger] rest[i]).0
                != (#[trigger] rest[j]).0 by {
                assert(rest[i] == over[i] && rest[j] == over[j]);
            }
        }
        law_higher_layer_wins(base, rest, k);
        law_higher_layer_wins(base, rest, key);
        assert forall|i: int| 0 <= i < rest.len() implies (#[trigger] rest[i]).0 != key by {
            assert(rest[i] == over[i]);
            assert(over[i].0 != over[over.len() - 1].0);
        }
        lemma_lookup_none(rest, key);
        lemma_lookup_last(over, k);
        let t = merge(base, rest);
        let v = over[over.len() - 1].1;
        assert(merge(base, over) == lay_over(t, key, v));
        match (value::lookup(t, key), v) {
            (Some(DatumModel::Table(b)), DatumModel::Table(o)) => {
                value::lemma_put(t, key, DatumModel::Table(merge(b, o)));
            },
            _ => {
                value::lemma_put(t, key, v);
            },
        }
    }
}

} // verus!
