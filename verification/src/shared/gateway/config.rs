//! Gateway configuration: endpoint, credentials and parameters per model.
//!
//! The defaults suit a local development gateway. The key always comes from
//! the environment and is never shown.

use vstd::prelude::*;
use crate::foreign::{quote, shown_duration};
use crate::text::{chars_of, copied, decimal_text, finishes_with, index_in, joined, parsed_number,
    same_text, string_of, trimmed};
use crate::time::Duration;
#[allow(unused_imports)]
use crate::foreign::{duration_text, quoted};
#[allow(unused_imports)]
use crate::text::{decimal, has_text, is_blank, join, lemma_first_index, lemma_has_middle,
    lemma_has_more, lemma_has_through, lemma_join_has, lemma_views_empty, lemma_views_push,
    number_value, opt_view, trim, views};
#[allow(unused_imports)]
use crate::time::seconds;

verus! {

/// Overrides for one model. What is unset falls back to the gateway's
/// default.
#[derive(Debug)]
pub struct ModelParams {
    /// The reasoning effort, passed through.
    pub reasoning_effort: Option<String>,
    /// The token limit, sent as `max_completion_tokens`.
    pub max_tokens: Option<u32>,
}

/// What overrides say.
#[verifier::ext_equal]
pub struct ParamsView {
    pub reasoning_effort: Option<Seq<char>>,
    pub max_tokens: Option<u32>,
}

impl View for ModelParams {
    type V = ParamsView;

    open spec fn view(&self) -> ParamsView {
        ParamsView {
            reasoning_effort: opt_view(self.reasoning_effort),
            max_tokens: self.max_tokens,
        }
    }
}

impl Clone for ModelParams {
    fn clone(&self) -> (r: Self)
        ensures
            r@ == self@,
    {
        ModelParams {
            reasoning_effort: copied(&self.reasoning_effort),
            max_tokens: self.max_tokens,
        }
    }
}

impl Default for ModelParams {
    fn default() -> (r: Self)
        ensures
            r@ == (ParamsView { reasoning_effort: None, max_tokens: None }),
    {
        ModelParams { reasoning_effort: None, max_tokens: None }
    }
}

/// The parameters of one request.
#[derive(Debug, Clone)]
pub struct ResolvedParams {
    pub model: String,
    pub reasoning_effort: Option<String>,
    pub max_tokens: Option<u32>,
}

/// What the parameters of a request say.
#[verifier::ext_equal]
pub struct ResolvedView {
    pub model: Seq<char>,
    pub reasoning_effort: Option<Seq<char>>,
    pub max_tokens: Option<u32>,
}

impl View for ResolvedParams {
    type V = ResolvedView;

    open spec fn view(&self) -> ResolvedView {
        ResolvedView {
            model: self.model@,
            reasoning_effort: opt_view(self.reasoning_effort),
            max_tokens: self.max_tokens,
        }
    }
}

/// One model's overrides.
pub struct ModelOverride {
    pub model: String,
    pub params: ModelParams,
}

impl View for ModelOverride {
    type V = (Seq<char>, ParamsView);

    open spec fn view(&self) -> (Seq<char>, ParamsView) {
        (self.model@, self.params@)
    }
}

/// A bearer token, which only the configuration makes and hands out.
pub struct ApiKey {
    text: String,
}

impl View for ApiKey {
    type V = Seq<char>;

    closed spec fn view(&self) -> Seq<char> {
        self.text@
    }
}

impl Clone for ApiKey {
    fn clone(&self) -> (r: Self)
        ensures
            r@ == self@,
    {
        ApiKey { text: self.text.clone() }
    }
}

/// How to reach the model.
pub struct GatewayConfig {
    /// Base URL, without a trailing slash.
    pub base_url: String,
    /// Bearer token. Never shown.
    pub api_key: ApiKey,
    /// The model that is asked where the caller names none.
    pub model: String,
    /// Defaults for every model; overrides win.
    pub default_reasoning_effort: Option<String>,
    pub default_max_tokens: Option<u32>,
    /// Overrides by model; of two for one model the later holds.
    pub model_overrides: Vec<ModelOverride>,
    /// Time limit of one attempt.
    pub request_timeout: Duration,
    /// Attempts in all, the first among them.
    pub max_attempts: u32,
}

/// What a configuration says.
#[verifier::ext_equal]
pub struct ConfigView {
    pub base_url: Seq<char>,
    pub api_key: Seq<char>,
    pub model: Seq<char>,
    pub default_reasoning_effort: Option<Seq<char>>,
    pub default_max_tokens: Option<u32>,
    pub model_overrides: Map<Seq<char>, ParamsView>,
    pub request_timeout: nat,
    pub max_attempts: u32,
}

/// The overrides that hold.
pub open spec fn overrides_by_model(all: Seq<(Seq<char>, ParamsView)>) -> Map<
    Seq<char>,
    ParamsView,
>
    decreases all.len(),
{
    if all.len() == 0 {
        Map::empty()
    } else {
        overrides_by_model(all.drop_last()).insert(all.last().0, all.last().1)
    }
}

impl View for GatewayConfig {
    type V = ConfigView;

    open spec fn view(&self) -> ConfigView {
        ConfigView {
            base_url: self.base_url@,
            api_key: self.api_key@,
            model: self.model@,
            default_reasoning_effort: opt_view(self.default_reasoning_effort),
            default_max_tokens: self.default_max_tokens,
            model_overrides: overrides_by_model(views(self.model_overrides@)),
            request_timeout: self.request_timeout@,
            max_attempts: self.max_attempts,
        }
    }
}

impl Clone for ModelOverride {
    fn clone(&self) -> (r: Self)
        ensures
            r@ == self@,
    {
        ModelOverride { model: self.model.clone(), params: self.params.clone() }
    }
}

impl Clone for GatewayConfig {
    fn clone(&self) -> (r: Self)
        ensures
            r@ == self@,
    {
        broadcast use {lemma_views_push, lemma_views_empty};

        let ghost all = views(self.model_overrides@);
        let mut model_overrides: Vec<ModelOverride> = Vec::new();
        let mut i: usize = 0;
        while i < self.model_overrides.len()
            invariant
                i <= self.model_overrides@.len(),
                all == views(self.model_overrides@),
                views(model_overrides@) =~= all.take(i as int),
            decreases self.model_overrides@.len() - i,
        {
            assert(all[i as int] == self.model_overrides@[i as int]@);
            let entry = self.model_overrides[i].clone();
            assert(all.take(i as int).push(entry@) =~= all.take(i + 1));
            model_overrides.push(entry);
            i += 1;
        }
        assert(all.take(i as int) =~= all);
        GatewayConfig {
            base_url: self.base_url.clone(),
            api_key: self.api_key.clone(),
            model: self.model.clone(),
            default_reasoning_effort: copied(&self.default_reasoning_effort),
            default_max_tokens: self.default_max_tokens,
            model_overrides,
            request_timeout: self.request_timeout,
            max_attempts: self.max_attempts,
        }
    }
}

impl ConfigView {
    /// The parameters of a request to a model: the model's override, else the
    /// default, else nothing.
    pub open spec fn params_for(self, model: Seq<char>) -> ResolvedView {
        let found = if self.model_overrides.dom().contains(model) {
            self.model_overrides[model]
        } else {
            ParamsView { reasoning_effort: None, max_tokens: None }
        };
        ResolvedView {
            model,
            reasoning_effort: if found.reasoning_effort is Some {
                found.reasoning_effort
            } else {
                self.default_reasoning_effort
            },
            max_tokens: if found.max_tokens is Some {
                found.max_tokens
            } else {
                self.default_max_tokens
            },
        }
    }
}

/// A URL without one trailing slash.
pub open spec fn without_slash(url: Seq<char>) -> Seq<char> {
    if "/"@.is_suffix_of(url) {
        url.drop_last()
    } else {
        url
    }
}

fn trim_one_slash(url: &str) -> (r: String)
    ensures
        r@ == without_slash(url@),
{
    proof {
        reveal_strlit("/");
    }
    if finishes_with(url, "/") {
        let chars = chars_of(url);
        let r = string_of(chars.as_slice(), 0, chars.len() - 1);
        assert(r@ =~= url@.drop_last());
        r
    } else {
        url.to_owned()
    }
}

/// The time limit of one attempt where none is set, in seconds.
pub const DEFAULT_TIMEOUT_SECS: u64 = 60;

/// The attempts in all where none are set.
pub const DEFAULT_MAX_ATTEMPTS: u32 = 3;

/// The endpoint where none is set.
pub const DEFAULT_BASE_URL: &'static str = "http://localhost:8317/v1";

/// The model where none is set.
pub const DEFAULT_MODEL: &'static str = "glm-5p2";

/// The variables of the environment that configure the gateway; `None` for
/// one that is missing or is no Unicode.
pub struct GatewayEnv {
    /// `GATEWAY_API_KEY`
    pub api_key: Option<String>,
    /// `GATEWAY_BASE_URL`
    pub base_url: Option<String>,
    /// `GATEWAY_MODEL`
    pub model: Option<String>,
    /// `GATEWAY_REASONING_EFFORT`
    pub reasoning_effort: Option<String>,
    /// `GATEWAY_MAX_TOKENS`
    pub max_tokens: Option<String>,
    /// `GATEWAY_TIMEOUT_SECS`
    pub timeout_secs: Option<String>,
    /// `GATEWAY_MAX_ATTEMPTS`
    pub max_attempts: Option<String>,
}

/// What the environment says.
#[verifier::ext_equal]
pub struct EnvView {
    pub api_key: Option<Seq<char>>,
    pub base_url: Option<Seq<char>>,
    pub model: Option<Seq<char>>,
    pub reasoning_effort: Option<Seq<char>>,
    pub max_tokens: Option<Seq<char>>,
    pub timeout_secs: Option<Seq<char>>,
    pub max_attempts: Option<Seq<char>>,
}

impl View for GatewayEnv {
    type V = EnvView;

    open spec fn view(&self) -> EnvView {
        EnvView {
            api_key: opt_view(self.api_key),
            base_url: opt_view(self.base_url),
            model: opt_view(self.model),
            reasoning_effort: opt_view(self.reasoning_effort),
            max_tokens: opt_view(self.max_tokens),
            timeout_secs: opt_view(self.timeout_secs),
            max_attempts: opt_view(self.max_attempts),
        }
    }
}

/// What a variable sets: its trimmed value, unless that is empty.
pub open spec fn set_value(var: Option<Seq<char>>) -> Option<Seq<char>> {
    match var {
        Some(v) => if trim(v).len() == 0 {
            None
        } else {
            Some(trim(v))
        },
        None => None,
    }
}

/// What a variable sets, or a default.
pub open spec fn value_or(var: Option<Seq<char>>, default: Seq<char>) -> Seq<char> {
    match set_value(var) {
        Some(v) => v,
        None => default,
    }
}

/// The number that a variable sets. `complaint` begins the message about one
/// that is no number.
pub open spec fn number_set(var: Option<Seq<char>>, limit: nat, complaint: Seq<char>) -> Result<
    Option<nat>,
    Seq<char>,
> {
    match set_value(var) {
        None => Ok(None),
        Some(v) => match number_value(v, 10, limit) {
            Some(n) => Ok(Some(n)),
            None => Err(complaint + quoted(v)),
        },
    }
}

/// The configuration that an environment gives, or what is wrong with it. The
/// key comes first, then the token limit, the time limit and the attempts.
pub open spec fn config_from(env: EnvView) -> Result<ConfigView, Seq<char>> {
    if set_value(env.api_key) is None {
        Err("GATEWAY_API_KEY is not set"@)
    } else {
        match number_set(
            env.max_tokens,
            u32::MAX as nat,
            "GATEWAY_MAX_TOKENS is not a valid u32: "@,
        ) {
            Err(e) => Err(e),
            Ok(tokens) => match number_set(
                env.timeout_secs,
                u64::MAX as nat,
                "GATEWAY_TIMEOUT_SECS is not a valid integer: "@,
            ) {
                Err(e) => Err(e),
                Ok(secs) => match number_set(
                    env.max_attempts,
                    u32::MAX as nat,
                    "GATEWAY_MAX_ATTEMPTS is not a valid u32: "@,
                ) {
                    Err(e) => Err(e),
                    Ok(attempts) => Ok(
                        ConfigView {
                            base_url: without_slash(value_or(env.base_url, DEFAULT_BASE_URL@)),
                            api_key: set_value(env.api_key)->0,
                            model: value_or(env.model, DEFAULT_MODEL@),
                            default_reasoning_effort: set_value(env.reasoning_effort),
                            default_max_tokens: match tokens {
                                Some(n) => Some(n as u32),
                                None => None,
                            },
                            model_overrides: Map::empty(),
                            request_timeout: match secs {
                                Some(n) => seconds(n),
                                None => seconds(DEFAULT_TIMEOUT_SECS as nat),
                            },
                            max_attempts: match attempts {
                                Some(n) => n as u32,
                                None => DEFAULT_MAX_ATTEMPTS,
                            },
                        },
                    ),
                },
            },
        }
    }
}

fn value_of(var: &Option<String>) -> (r: Option<String>)
    ensures
        opt_view(r) == set_value(opt_view(*var)),
{
    match var {
        Some(v) => {
            let t = trimmed(v.as_str());
            if t.as_str().is_empty() {
                None
            } else {
                Some(t)
            }
        },
        None => None,
    }
}

fn value_or_default(var: &Option<String>, default: &str) -> (r: String)
    ensures
        r@ == value_or(opt_view(*var), default@),
{
    match value_of(var) {
        Some(v) => v,
        None => default.to_owned(),
    }
}

fn number_of(var: &Option<String>, limit: u64, complaint: &str) -> (r: Result<Option<u64>, String>)
    ensures
        match r {
            Ok(Some(n)) => number_set(opt_view(*var), limit as nat, complaint@) == Ok::<
                Option<nat>,
                Seq<char>,
            >(Some(n as nat)) && n <= limit,
            Ok(None) => number_set(opt_view(*var), limit as nat, complaint@) == Ok::<
                Option<nat>,
                Seq<char>,
            >(None),
            Err(e) => number_set(opt_view(*var), limit as nat, complaint@) == Err::<
                Option<nat>,
                Seq<char>,
            >(e@),
        },
{
    match value_of(var) {
        None => Ok(None),
        Some(v) => match parsed_number(v.as_str(), limit) {
            Some(n) => Ok(Some(n)),
            None => {
                let mut message = complaint.to_owned();
                let shown = quote(v.as_str());
                message.append(shown.as_str());
                Err(message)
            },
        },
    }
}

impl GatewayConfig {
    /// A configuration with the default limits and no defaults for requests.
    pub fn new(base_url: String, api_key: String, model: String) -> (r: GatewayConfig)
        ensures
            r@ == (ConfigView {
                base_url: without_slash(base_url@),
                api_key: api_key@,
                model: model@,
                default_reasoning_effort: None,
                default_max_tokens: None,
                model_overrides: Map::empty(),
                request_timeout: seconds(DEFAULT_TIMEOUT_SECS as nat),
                max_attempts: DEFAULT_MAX_ATTEMPTS,
            }),
    {
        let model_overrides: Vec<ModelOverride> = Vec::new();
        proof {
            lemma_views_empty(model_overrides@);
        }
        GatewayConfig {
            base_url: trim_one_slash(base_url.as_str()),
            api_key: ApiKey { text: api_key },
            model,
            default_reasoning_effort: None,
            default_max_tokens: None,
            model_overrides,
            request_timeout: Duration::from_secs(DEFAULT_TIMEOUT_SECS),
            max_attempts: DEFAULT_MAX_ATTEMPTS,
        }
    }

    /// The configuration that the environment gives. A missing key and a
    /// limit that is no number are errors, told in words.
    pub fn from_env(env: &GatewayEnv) -> (r: Result<GatewayConfig, String>)
        ensures
            match r {
                Ok(config) => config_from(env@) == Ok::<ConfigView, Seq<char>>(config@),
                Err(e) => config_from(env@) == Err::<ConfigView, Seq<char>>(e@),
            },
    {
        let api_key = match value_of(&env.api_key) {
            Some(key) => key,
            None => {
                return Err("GATEWAY_API_KEY is not set".to_owned());
            },
        };
        let base_url = value_or_default(&env.base_url, DEFAULT_BASE_URL);
        let model = value_or_default(&env.model, DEFAULT_MODEL);
        let default_reasoning_effort = value_of(&env.reasoning_effort);
        let default_max_tokens: Option<u32> = match number_of(
            &env.max_tokens,
            u32::MAX as u64,
            "GATEWAY_MAX_TOKENS is not a valid u32: ",
        ) {
            Ok(Some(n)) => Some(n as u32),
            Ok(None) => None,
            Err(e) => {
                return Err(e);
            },
        };
        let request_timeout = match number_of(
            &env.timeout_secs,
            u64::MAX,
            "GATEWAY_TIMEOUT_SECS is not a valid integer: ",
        ) {
            Ok(Some(n)) => Duration::from_secs(n),
            Ok(None) => Duration::from_secs(DEFAULT_TIMEOUT_SECS),
            Err(e) => {
                return Err(e);
            },
        };
        let max_attempts: u32 = match number_of(
            &env.max_attempts,
            u32::MAX as u64,
            "GATEWAY_MAX_ATTEMPTS is not a valid u32: ",
        ) {
            Ok(Some(n)) => n as u32,
            Ok(None) => DEFAULT_MAX_ATTEMPTS,
            Err(e) => {
                return Err(e);
            },
        };
        let model_overrides: Vec<ModelOverride> = Vec::new();
        proof {
            lemma_views_empty(model_overrides@);
        }
        Ok(
            GatewayConfig {
                base_url: trim_one_slash(base_url.as_str()),
                api_key: ApiKey { text: api_key },
                model,
                default_reasoning_effort,
                default_max_tokens,
                model_overrides,
                request_timeout,
                max_attempts,
            },
        )
    }

    /// The configuration with overrides for a model, in place of any it had.
    pub fn with_model_override(self, model: &str, params: ModelParams) -> (r: GatewayConfig)
        ensures
            r@ == (ConfigView {
                model_overrides: self@.model_overrides.insert(model@, params@),
                ..self@
            }),
    {
        let mut all = self;
        let entry = ModelOverride { model: model.to_owned(), params };
        proof {
            lemma_views_push(all.model_overrides@, entry);
            assert(views(all.model_overrides@).push(entry@).drop_last() =~= views(
                all.model_overrides@,
            ));
        }
        all.model_overrides.push(entry);
        all
    }

    /// The configuration with another time limit.
    pub fn with_request_timeout(self, timeout: Duration) -> (r: GatewayConfig)
        ensures
            r@ == (ConfigView { request_timeout: timeout@, ..self@ }),
    {
        let mut all = self;
        all.request_timeout = timeout;
        all
    }

    /// The configuration with another number of attempts.
    pub fn with_max_attempts(self, n: u32) -> (r: GatewayConfig)
        ensures
            r@ == (ConfigView { max_attempts: n, ..self@ }),
    {
        let mut all = self;
        all.max_attempts = n;
        all
    }

    fn override_for(&self, model: &str) -> (r: Option<&ModelParams>)
        ensures
            match r {
                Some(p) => self@.model_overrides.dom().contains(model@)
                    && self@.model_overrides[model@] == p@,
                None => !self@.model_overrides.dom().contains(model@),
            },
    {
        let ghost all = views(self.model_overrides@);
        let mut i: usize = self.model_overrides.len();
        assert(all.take(i as int) =~= all);
        while i > 0
            invariant
                i <= self.model_overrides@.len(),
                all == views(self.model_overrides@),
                self@.model_overrides == overrides_by_model(all),
                overrides_by_model(all).dom().contains(model@) == overrides_by_model(
                    all.take(i as int),
                ).dom().contains(model@),
                overrides_by_model(all)[model@] == overrides_by_model(
                    all.take(i as int),
                )[model@],
            decreases i,
        {
            assert(all.take(i as int).last() == self.model_overrides@[i - 1]@);
            assert(all.take(i as int).drop_last() =~= all.take(i - 1));
            if same_text(self.model_overrides[i - 1].model.as_str(), model) {
                return Some(&self.model_overrides[i - 1].params);
            }
            i -= 1;
        }
        None
    }

    /// The parameters of a request to a model: the model's override, else the
    /// default, else nothing.
    pub fn effective_params(&self, model: &str) -> (r: ResolvedParams)
        ensures
            r@ == self@.params_for(model@),
    {
        let found = self.override_for(model);
        let mut reasoning_effort: Option<String> = None;
        let mut max_tokens: Option<u32> = None;
        match found {
            Some(p) => {
                reasoning_effort = copied(&p.reasoning_effort);
                max_tokens = p.max_tokens;
            },
            None => {},
        }
        if reasoning_effort.is_none() {
            reasoning_effort = copied(&self.default_reasoning_effort);
        }
        if max_tokens.is_none() {
            max_tokens = self.default_max_tokens;
        }
        ResolvedParams { model: model.to_owned(), reasoning_effort, max_tokens }
    }

    /// Where chat requests go.
    pub fn endpoint(&self) -> (r: String)
        ensures
            r@ == self@.base_url + "/chat/completions"@,
    {
        let mut url = self.base_url.clone();
        url.append("/chat/completions");
        url
    }

    /// The parameters of a request to the configured model.
    pub fn model_params(&self) -> (r: ResolvedParams)
        ensures
            r@ == self@.params_for(self@.model),
    {
        self.effective_params(self.model.as_str())
    }

    /// How many attempts a turn has: at least one.
    pub fn attempts(&self) -> (r: u32)
        ensures
            r == if self@.max_attempts < 1 {
                1
            } else {
                self@.max_attempts
            },
    {
        if self.max_attempts < 1 {
            1
        } else {
            self.max_attempts
        }
    }

    /// The bearer token.
    pub fn api_key(&self) -> (r: &str)
        ensures
            r@ == self@.api_key,
    {
        self.api_key.text.as_str()
    }
}

/// An override that sets a parameter beats the default; one that leaves it
/// unset does not; and without either it is left out.
pub proof fn law_override_beats_default(config: ConfigView, model: Seq<char>, params: ParamsView)
    ensures
        ({
            let more = ConfigView {
                model_overrides: config.model_overrides.insert(model, params),
                ..config
            };
            &&& params.reasoning_effort is Some ==> more.params_for(model).reasoning_effort
                == params.reasoning_effort
            &&& params.reasoning_effort is None ==> more.params_for(model).reasoning_effort
                == config.default_reasoning_effort
            &&& params.max_tokens is Some ==> more.params_for(model).max_tokens
                == params.max_tokens
            &&& params.max_tokens is None ==> more.params_for(model).max_tokens
                == config.default_max_tokens
            &&& forall|other: Seq<char>|
                other != model ==> #[trigger] more.params_for(other) == config.params_for(other)
        }),
{
}

/// How an optional text is shown.
pub open spec fn shown_text(o: Option<Seq<char>>) -> Seq<char> {
    match o {
        Some(s) => "Some("@ + quoted(s) + ")"@,
        None => "None"@,
    }
}

/// How an optional number is shown.
pub open spec fn shown_number(o: Option<u32>) -> Seq<char> {
    match o {
        Some(n) => "Some("@ + decimal(n as nat) + ")"@,
        None => "None"@,
    }
}

/// How the overrides of a model are shown.
pub open spec fn shown_override(entry: (Seq<char>, ParamsView)) -> Seq<char> {
    quoted(entry.0) + ": ModelParams { reasoning_effort: "@ + shown_text(entry.1.reasoning_effort)
        + ", max_tokens: "@ + shown_number(entry.1.max_tokens) + " }"@
}

/// Whether no two overrides are for one model.
pub open spec fn one_for_each_model(entries: Seq<(Seq<char>, ParamsView)>) -> bool {
    forall|i: int, j: int|
        0 <= i < j < entries.len() ==> (#[trigger] entries[i]).0 != (#[trigger] entries[j]).0
}

impl ConfigView {
    /// The configuration as it is shown, with its overrides in this order. In
    /// place of the key stands a word.
    pub open spec fn shown(self, entries: Seq<(Seq<char>, ParamsView)>) -> Seq<char> {
        "GatewayConfig { base_url: "@ + quoted(self.base_url)
            + ", api_key: \"<redacted>\", model: "@ + quoted(self.model)
            + ", default_reasoning_effort: "@ + shown_text(self.default_reasoning_effort)
            + ", default_max_tokens: "@ + shown_number(self.default_max_tokens)
            + ", model_overrides: {"@ + join(
            Seq::new(entries.len(), |i: int| shown_override(entries[i])),
            ", "@,
        ) + "}, request_timeout: "@ + duration_text(
            (self.request_timeout / 1_000_000_000) as u64,
            (self.request_timeout % 1_000_000_000) as u32,
        ) + ", max_attempts: "@ + decimal(self.max_attempts as nat) + " }"@
    }
}

/// What is shown of a configuration does not depend on its key.
pub proof fn law_the_key_is_never_shown(
    config: ConfigView,
    key: Seq<char>,
    entries: Seq<(Seq<char>, ParamsView)>,
)
    ensures
        (ConfigView { api_key: key, ..config }).shown(entries) == config.shown(entries),
{
}

fn push_text(out: &mut String, o: &Option<String>)
    ensures
        final(out)@ == old(out)@ + shown_text(opt_view(*o)),
{
    let ghost start = out@;
    match o {
        Some(s) => {
            let shown = quote(s.as_str());
            out.append("Some(");
            out.append(shown.as_str());
            out.append(")");
        },
        None => {
            out.append("None");
        },
    }
    assert(out@ =~= start + shown_text(opt_view(*o)));
}

fn push_number(out: &mut String, o: Option<u32>)
    ensures
        final(out)@ == old(out)@ + shown_number(o),
{
    let ghost start = out@;
    match o {
        Some(n) => {
            let shown = decimal_text(n as u64);
            out.append("Some(");
            out.append(shown.as_str());
            out.append(")");
        },
        None => {
            out.append("None");
        },
    }
    assert(out@ =~= start + shown_number(o));
}

fn override_text(model: &str, params: &ModelParams) -> (r: String)
    ensures
        r@ == shown_override((model@, params@)),
{
    let mut out = quote(model);
    out.append(": ModelParams { reasoning_effort: ");
    push_text(&mut out, &params.reasoning_effort);
    out.append(", max_tokens: ");
    push_number(&mut out, params.max_tokens);
    out.append(" }");
    assert(out@ =~= shown_override((model@, params@)));
    out
}

proof fn lemma_overridden(all: Seq<(Seq<char>, ParamsView)>, model: Seq<char>)
    ensures
        overrides_by_model(all).dom().contains(model) <==> exists|j: int|
            0 <= j < all.len() && (#[trigger] all[j]).0 == model,
    decreases all.len(),
{
    if all.len() > 0 {
        let front = all.drop_last();
        lemma_overridden(front, model);
        assert(all[all.len() - 1] == all.last());
        if overrides_by_model(front).dom().contains(model) {
            let j = choose|j: int| 0 <= j < front.len() && (#[trigger] front[j]).0 == model;
            assert(all[j] == front[j]);
        }
        if exists|j: int| 0 <= j < all.len() && (#[trigger] all[j]).0 == model {
            let j = choose|j: int| 0 <= j < all.len() && (#[trigger] all[j]).0 == model;
            if j < front.len() {
                assert(front[j] == all[j]);
            }
        }
    }
}

impl GatewayConfig {
    /// The overrides that hold, one for each model, as they are shown.
    fn override_texts(&self) -> (r: (Vec<String>, Ghost<Seq<(Seq<char>, ParamsView)>>))
        ensures
            one_for_each_model(r.1@),
            overrides_by_model(r.1@) == self@.model_overrides,
            views(r.0@) == Seq::new(r.1@.len(), |i: int| shown_override(r.1@[i])),
    {
        broadcast use {lemma_views_push, lemma_views_empty};

        let ghost all = views(self.model_overrides@);
        let mut models: Vec<String> = Vec::new();
        let mut texts: Vec<String> = Vec::new();
        let ghost mut entries: Seq<(Seq<char>, ParamsView)> = Seq::empty();
        let mut i: usize = 0;
        while i < self.model_overrides.len()
            invariant
                i <= self.model_overrides@.len(),
                all == views(self.model_overrides@),
                self@.model_overrides == overrides_by_model(all),
                views(models@).len() == entries.len(),
                forall|k: int|
                    0 <= k < entries.len() ==> views(models@)[k] == (#[trigger] entries[k]).0,
                views(texts@) =~= Seq::new(entries.len(), |k: int| shown_override(entries[k])),
                one_for_each_model(entries),
                forall|k: int|
                    0 <= k < entries.len() ==> overrides_by_model(all).dom().contains(
                        (#[trigger] entries[k]).0,
                    ) && overrides_by_model(all)[entries[k].0] == entries[k].1,
                forall|j: int|
                    0 <= j < i ==> views(models@).contains((#[trigger] all[j]).0),
            decreases self.model_overrides@.len() - i,
        {
            let model = self.model_overrides[i].model.as_str();
            assert(all[i as int].0 == model@);
            proof {
                lemma_first_index(views(models@), model@);
            }
            let at: usize = index_in(models.as_slice(), model);
            if at == models.len() {
                proof {
                    lemma_overridden(all, model@);
                }
                match self.override_for(model) {
                    Some(params) => {
                        let ghost before = entries;
                        let ghost names = views(models@);
                        let ghost shown = views(texts@);
                        texts.push(override_text(model, params));
                        models.push(model.to_owned());
                        proof {
                            entries = entries.push((model@, params@));
                            assert(views(models@) == names.push(model@));
                            assert(views(texts@) == shown.push(shown_override((model@, params@))));
                            assert forall|k: int| 0 <= k < before.len() implies (
                            #[trigger] before[k]).0 != model@ by {
                                assert(names[k] == before[k].0);
                            }
                            assert forall|j: int| 0 <= j < i implies views(models@).contains(
                                (#[trigger] all[j]).0,
                            ) by {
                                let k = choose|k: int|
                                    0 <= k < names.len() && names[k] == all[j].0;
                                assert(views(models@)[k] == all[j].0);
                            }
                            assert(views(models@)[names.len() as int] == model@);
                        }
                    },
                    None => {},
                }
            }
            i += 1;
        }
        proof {
            assert forall|model: Seq<char>| overrides_by_model(entries).dom().contains(model)
                <==> overrides_by_model(all).dom().contains(model) by {
                lemma_overridden(all, model);
                lemma_overridden(entries, model);
                if overrides_by_model(all).dom().contains(model) {
                    let j = choose|j: int| 0 <= j < all.len() && (#[trigger] all[j]).0 == model;
                    assert(views(models@).contains(all[j].0));
                    let k = choose|k: int|
                        0 <= k < views(models@).len() && views(models@)[k] == all[j].0;
                    assert(entries[k].0 == model);
                }
            }
            assert forall|model: Seq<char>|
                overrides_by_model(entries).dom().contains(
                    model,
                ) implies #[trigger] overrides_by_model(entries)[model] == overrides_by_model(
                all,
            )[model] by {
                lemma_value_held(entries, model);
                let k = choose|k: int|
                    0 <= k < entries.len() && (#[trigger] entries[k]).0 == model
                        && overrides_by_model(entries)[model] == entries[k].1;
            }
            assert(overrides_by_model(entries) =~= overrides_by_model(all));
        }
        (texts, Ghost(entries))
    }

    /// The configuration in words. The key is not shown, and the order of the
    /// overrides is left open.
    pub fn describe(&self) -> (r: String)
        ensures
            exists|entries: Seq<(Seq<char>, ParamsView)>|
                one_for_each_model(entries) && overrides_by_model(entries)
                    == self@.model_overrides && r@ == #[trigger] self@.shown(entries),
    {
        let (texts, entries) = self.override_texts();
        let base_url = quote(self.base_url.as_str());
        let model = quote(self.model.as_str());
        let overrides = joined(texts.as_slice(), ", ");
        let limit = shown_duration(
            self.request_timeout.as_secs(),
            self.request_timeout.subsec_nanos(),
        );
        let attempts = decimal_text(self.max_attempts as u64);
        let mut out = "GatewayConfig { base_url: ".to_owned();
        out.append(base_url.as_str());
        out.append(", api_key: \"<redacted>\", model: ");
        out.append(model.as_str());
        out.append(", default_reasoning_effort: ");
        push_text(&mut out, &self.default_reasoning_effort);
        out.append(", default_max_tokens: ");
        push_number(&mut out, self.default_max_tokens);
        out.append(", model_overrides: {");
        out.append(overrides.as_str());
        out.append("}, request_timeout: ");
        out.append(limit.as_str());
        out.append(", max_attempts: ");
        out.append(attempts.as_str());
        out.append(" }");
        assert(out@ =~= self@.shown(entries@));
        out
    }
}

proof fn lemma_value_held(all: Seq<(Seq<char>, ParamsView)>, model: Seq<char>)
    requires
        overrides_by_model(all).dom().contains(model),
    ensures
        exists|k: int|
            0 <= k < all.len() && (#[trigger] all[k]).0 == model && overrides_by_model(all)[model]
                == all[k].1,
    decreases all.len(),
{
    let front = all.drop_last();
    assert(all[all.len() - 1] == all.last());
    if all.last().0 != model {
        lemma_value_held(front, model);
        let k = choose|k: int|
            0 <= k < front.len() && (#[trigger] front[k]).0 == model && overrides_by_model(
                front,
            )[model] == front[k].1;
        assert(all[k] == front[k]);
    }
}

/// One slash at the end of an address is taken off, and nothing else.
pub proof fn law_one_slash_is_taken_off(url: Seq<char>)
    ensures
        without_slash(url + "/"@) == url,
        url.len() == 0 || url.last() != '/' ==> without_slash(url) == url,
{
    reveal_strlit("/");
    let s = url + "/"@;
    assert(s.subrange(s.len() - 1, s.len() as int) =~= "/"@);
    assert(s.drop_last() =~= url);
    if "/"@.is_suffix_of(url) {
        assert(url.subrange(url.len() - 1, url.len() as int)[0] == url.last());
    }
}

/// Whether a variable is set to something, and what it is set to.
pub open spec fn says(var: Option<Seq<char>>, value: Seq<char>) -> bool {
    value.len() > 0 && (var matches Some(v) && trim(v) == value)
}

/// The configuration is what the environment says. A variable that is set is
/// taken without the white space around it, one that is not set or blank
/// leaves the default, and only the key has none.
pub proof fn law_the_environment_is_the_configuration(env: EnvView, value: Seq<char>)
    ensures
        (env.api_key is None || is_blank(env.api_key->0)) ==> config_from(env) is Err,
        config_from(env) matches Ok(config) ==> {
            &&& says(env.api_key, config.api_key)
            &&& says(env.model, value) ==> config.model == value
            &&& env.model is None || is_blank(env.model->0) ==> config.model == "glm-5p2"@
            &&& says(env.base_url, value) && value.last() != '/' ==> config.base_url == value
            &&& says(env.base_url, value + "/"@) ==> config.base_url == value
            &&& env.base_url is None || is_blank(env.base_url->0) ==> config.base_url
                == "http://localhost:8317/v1"@
            &&& says(env.reasoning_effort, value) ==> config.default_reasoning_effort == Some(value)
            &&& env.reasoning_effort is None || is_blank(env.reasoning_effort->0)
                ==> config.default_reasoning_effort is None
            &&& env.max_tokens is None || is_blank(env.max_tokens->0) ==> config.default_max_tokens
                is None
            &&& env.timeout_secs is None || is_blank(env.timeout_secs->0)
                ==> config.request_timeout == 60 * 1_000_000_000
            &&& env.max_attempts is None || is_blank(env.max_attempts->0) ==> config.max_attempts
                == 3
            &&& config.model_overrides.dom() == Set::<Seq<char>>::empty()
        },
{
    lemma_blank_is_unset(env.api_key);
    lemma_blank_is_unset(env.model);
    lemma_blank_is_unset(env.base_url);
    lemma_blank_is_unset(env.reasoning_effort);
    lemma_blank_is_unset(env.max_tokens);
    lemma_blank_is_unset(env.timeout_secs);
    lemma_blank_is_unset(env.max_attempts);
    law_one_slash_is_taken_off(value);
    reveal_strlit("http://localhost:8317/v1");
    law_one_slash_is_taken_off("http://localhost:8317/v1"@);
    if config_from(env) is Ok {
        let config = config_from(env)->Ok_0;
        assert(config.model_overrides.dom() =~= Set::<Seq<char>>::empty());
        if says(env.base_url, value + "/"@) {
            assert(set_value(env.base_url) == Some(value + "/"@));
        }
    }
}

proof fn lemma_blank_is_unset(var: Option<Seq<char>>)
    ensures
        set_value(var) is None <==> var is None || is_blank(var->0),
        set_value(var) matches Some(v) ==> v.len() > 0 && var is Some && v == trim(var->0),
{
    if let Some(v) = var {
        let cut = crate::text::lemma_trim(v);
    }
}

/// The numbers of the environment are taken as they are written, and what is
/// no number is told with the variable that holds it.
pub proof fn law_numbers_of_the_environment_are_kept(env: EnvView, n: nat)
    requires
        env.api_key matches Some(key) && !is_blank(key),
    ensures
        says(env.max_tokens, decimal(n)) ==> {
            &&& n > u32::MAX ==> config_from(env) is Err
            &&& config_from(env) matches Ok(config) ==> config.default_max_tokens == Some(n as u32)
        },
        says(env.timeout_secs, decimal(n)) ==> {
            &&& n > u64::MAX ==> config_from(env) is Err
            &&& config_from(env) matches Ok(config) ==> config.request_timeout == n * 1_000_000_000
        },
        says(env.max_attempts, decimal(n)) ==> {
            &&& n > u32::MAX ==> config_from(env) is Err
            &&& config_from(env) matches Ok(config) ==> config.max_attempts == n
        },
        (env.max_tokens is None || is_blank(env.max_tokens->0)) && (env.timeout_secs is None
            || is_blank(env.timeout_secs->0)) && (env.max_attempts is None || is_blank(
            env.max_attempts->0,
        )) ==> config_from(env) is Ok,
{
    lemma_blank_is_unset(env.api_key);
    lemma_blank_is_unset(env.max_tokens);
    lemma_blank_is_unset(env.timeout_secs);
    lemma_blank_is_unset(env.max_attempts);
    crate::text::law_numbers_round_trip(n, u32::MAX as nat);
    crate::text::law_numbers_round_trip(n, u64::MAX as nat);
}

/// The last override of a model holds, and those of other models stay.
pub proof fn law_the_last_override_holds(
    all: Seq<(Seq<char>, ParamsView)>,
    model: Seq<char>,
    params: ParamsView,
    other: Seq<char>,
)
    ensures
        ({
            let more = overrides_by_model(all.push((model, params)));
            &&& more.dom().contains(model) && more[model] == params
            &&& other != model ==> (more.dom().contains(other) <==> overrides_by_model(
                all,
            ).dom().contains(other))
            &&& other != model && more.dom().contains(other) ==> more[other] == overrides_by_model(
                all,
            )[other]
        }),
        overrides_by_model(Seq::empty()).dom() == Set::<Seq<char>>::empty(),
{
    assert(all.push((model, params)).drop_last() =~= all);
    assert(overrides_by_model(Seq::empty()).dom() =~= Set::<Seq<char>>::empty());
}

/// What cannot be read is refused, and the refusal names the variable and
/// shows its value.
pub proof fn law_bad_numbers_are_refused(env: EnvView, value: Seq<char>)
    requires
        env.api_key matches Some(key) && !is_blank(key),
        value.len() > 0 && value[0] != '+' && !('0' <= value[0] <= '9'),
    ensures
        says(env.max_tokens, value) ==> (config_from(env) matches Err(e)
            && "GATEWAY_MAX_TOKENS"@.is_prefix_of(e) && quoted(value).is_suffix_of(e)),
        says(env.timeout_secs, value) && (env.max_tokens is None || is_blank(env.max_tokens->0))
            ==> (config_from(env) matches Err(e) && "GATEWAY_TIMEOUT_SECS"@.is_prefix_of(e)
            && quoted(value).is_suffix_of(e)),
        says(env.max_attempts, value) && (env.max_tokens is None || is_blank(env.max_tokens->0))
            && (env.timeout_secs is None || is_blank(env.timeout_secs->0)) ==> (config_from(
            env,
        ) matches Err(e) && "GATEWAY_MAX_ATTEMPTS"@.is_prefix_of(e) && quoted(
            value,
        ).is_suffix_of(e)),
{
    lemma_no_number(value);
    let key = env.api_key->0;
    let cut = crate::text::lemma_trim(key);
    if let Some(v) = env.max_tokens {
        let cut = crate::text::lemma_trim(v);
    }
    if let Some(v) = env.timeout_secs {
        let cut = crate::text::lemma_trim(v);
    }
    let q = quoted(value);
    lemma_complaint_names(
        "GATEWAY_MAX_TOKENS is not a valid u32: "@,
        "GATEWAY_MAX_TOKENS"@,
        q,
    );
    lemma_complaint_names(
        "GATEWAY_TIMEOUT_SECS is not a valid integer: "@,
        "GATEWAY_TIMEOUT_SECS"@,
        q,
    );
    lemma_complaint_names(
        "GATEWAY_MAX_ATTEMPTS is not a valid u32: "@,
        "GATEWAY_MAX_ATTEMPTS"@,
        q,
    );
    assert("GATEWAY_MAX_TOKENS"@.is_prefix_of("GATEWAY_MAX_TOKENS is not a valid u32: "@)) by {
        reveal_strlit("GATEWAY_MAX_TOKENS is not a valid u32: ");
        reveal_strlit("GATEWAY_MAX_TOKENS");
        assert("GATEWAY_MAX_TOKENS is not a valid u32: "@.subrange(0, 18)
            =~= "GATEWAY_MAX_TOKENS"@);
    }
    assert("GATEWAY_TIMEOUT_SECS"@.is_prefix_of(
        "GATEWAY_TIMEOUT_SECS is not a valid integer: "@,
    )) by {
        reveal_strlit("GATEWAY_TIMEOUT_SECS is not a valid integer: ");
        reveal_strlit("GATEWAY_TIMEOUT_SECS");
        assert("GATEWAY_TIMEOUT_SECS is not a valid integer: "@.subrange(0, 20)
            =~= "GATEWAY_TIMEOUT_SECS"@);
    }
    assert("GATEWAY_MAX_ATTEMPTS"@.is_prefix_of(
        "GATEWAY_MAX_ATTEMPTS is not a valid u32: "@,
    )) by {
        reveal_strlit("GATEWAY_MAX_ATTEMPTS is not a valid u32: ");
        reveal_strlit("GATEWAY_MAX_ATTEMPTS");
        assert("GATEWAY_MAX_ATTEMPTS is not a valid u32: "@.subrange(0, 20)
            =~= "GATEWAY_MAX_ATTEMPTS"@);
    }
}

proof fn lemma_complaint_names(complaint: Seq<char>, name: Seq<char>, q: Seq<char>)
    ensures
        name.is_prefix_of(complaint) ==> name.is_prefix_of(complaint + q),
        q.is_suffix_of(complaint + q),
{
    let all = complaint + q;
    assert(all.skip(all.len() - q.len()) =~= q);
    if name.is_prefix_of(complaint) {
        assert(all.subrange(0, name.len() as int) =~= complaint.subrange(0, name.len() as int));
    }
}

proof fn lemma_no_number(value: Seq<char>)
    requires
        value.len() > 0 && value[0] != '+' && !('0' <= value[0] <= '9'),
    ensures
        crate::text::digits_value(value, 10) is None,
    decreases value.len(),
{
    if value.len() == 1 {
        assert(value.last() == value[0]);
    } else {
        assert(value.drop_last()[0] == value[0]);
        lemma_no_number(value.drop_last());
    }
}

/// Optional values are shown with what they hold, or as none.
pub proof fn law_optional_values_are_shown(text: Seq<char>, n: u32)
    ensures
        has_text(shown_text(Some(text)), quoted(text)),
        has_text(shown_number(Some(n)), decimal(n as nat)),
        shown_text(None) == "None"@,
        shown_number(None) == "None"@,
{
    lemma_has_middle("Some("@, quoted(text), ")"@);
    lemma_has_middle("Some("@, decimal(n as nat), ")"@);
}

/// The text of an override names its model and shows its values.
pub proof fn law_overrides_are_shown(entry: (Seq<char>, ParamsView))
    ensures
        quoted(entry.0).is_prefix_of(shown_override(entry)),
        has_text(shown_override(entry), shown_text(entry.1.reasoning_effort)),
        has_text(shown_override(entry), shown_number(entry.1.max_tokens)),
{
    let a = quoted(entry.0) + ": ModelParams { reasoning_effort: "@;
    let effort = shown_text(entry.1.reasoning_effort);
    let b = ", max_tokens: "@;
    let tokens = shown_number(entry.1.max_tokens);
    let c = " }"@;
    assert(shown_override(entry).take(quoted(entry.0).len() as int) =~= quoted(entry.0));
    lemma_has_middle(a, effort, Seq::empty());
    lemma_has_more(a + effort, b, effort);
    lemma_has_more(a + effort + b, tokens, effort);
    lemma_has_more(a + effort + b + tokens, c, effort);
    lemma_has_middle(a + effort + b, tokens, c);
}

/// Everything of a configuration but its key is shown: the address, the model,
/// the defaults, every override, the time limit and the number of attempts.
pub proof fn law_the_configuration_is_shown(
    config: ConfigView,
    entries: Seq<(Seq<char>, ParamsView)>,
    i: int,
)
    ensures
        has_text(config.shown(entries), quoted(config.base_url)),
        has_text(config.shown(entries), quoted(config.model)),
        has_text(config.shown(entries), shown_text(config.default_reasoning_effort)),
        has_text(config.shown(entries), shown_number(config.default_max_tokens)),
        0 <= i < entries.len() ==> has_text(config.shown(entries), shown_override(entries[i])),
        has_text(
            config.shown(entries),
            duration_text(
                (config.request_timeout / 1_000_000_000) as u64,
                (config.request_timeout % 1_000_000_000) as u32,
            ),
        ),
        has_text(config.shown(entries), decimal(config.max_attempts as nat)),
        has_text(config.shown(entries), "<redacted>"@),
{
    let lines = Seq::new(entries.len(), |i: int| shown_override(entries[i]));
    let list = join(lines, ", "@);
    lemma_shown(config, entries);
    if 0 <= i < entries.len() {
        lemma_join_has(lines, ", "@, i);
        assert(lines[i] == shown_override(entries[i]));
        lemma_has_through(config.shown(entries), list, shown_override(entries[i]));
    }
    assert(has_text(", api_key: \"<redacted>\", model: "@, "<redacted>"@)) by {
        reveal_strlit(", api_key: \"<redacted>\", model: ");
        reveal_strlit("<redacted>");
        assert(", api_key: \"<redacted>\", model: "@.subrange(12, 22) =~= "<redacted>"@);
        assert(crate::text::occurs_at(", api_key: \"<redacted>\", model: "@, "<redacted>"@, 12));
    }
    lemma_has_through(
        config.shown(entries),
        ", api_key: \"<redacted>\", model: "@,
        "<redacted>"@,
    );
}

/// A text of pieces, put together from the front.
spec fn pieced(pieces: Seq<Seq<char>>) -> Seq<char>
    decreases pieces.len(),
{
    if pieces.len() == 0 {
        Seq::empty()
    } else if pieces.len() == 1 {
        pieces[0]
    } else {
        pieced(pieces.drop_last()) + pieces.last()
    }
}

proof fn lemma_pieced_has(pieces: Seq<Seq<char>>, i: int)
    requires
        0 <= i < pieces.len(),
    ensures
        has_text(pieced(pieces), pieces[i]),
    decreases pieces.len(),
{
    if pieces.len() == 1 {
        lemma_has_middle(Seq::empty(), pieces[0], Seq::empty());
        assert(Seq::<char>::empty() + pieces[0] + Seq::<char>::empty() =~= pieces[0]);
    } else if i == pieces.len() - 1 {
        lemma_has_middle(pieced(pieces.drop_last()), pieces[i], Seq::empty());
    } else {
        assert(pieces.drop_last()[i] == pieces[i]);
        lemma_pieced_has(pieces.drop_last(), i);
        lemma_has_more(pieced(pieces.drop_last()), pieces.last(), pieces[i]);
    }
}

proof fn lemma_pieced_push(pieces: Seq<Seq<char>>, last: Seq<char>)
    requires
        pieces.len() > 0,
    ensures
        pieced(pieces.push(last)) == pieced(pieces) + last,
{
    assert(pieces.push(last).drop_last() =~= pieces);
}

proof fn lemma_shown(config: ConfigView, entries: Seq<(Seq<char>, ParamsView)>)
    ensures
        has_text(config.shown(entries), quoted(config.base_url)),
        has_text(config.shown(entries), ", api_key: \"<redacted>\", model: "@),
        has_text(config.shown(entries), quoted(config.model)),
        has_text(config.shown(entries), shown_text(config.default_reasoning_effort)),
        has_text(config.shown(entries), shown_number(config.default_max_tokens)),
        has_text(
            config.shown(entries),
            join(Seq::new(entries.len(), |i: int| shown_override(entries[i])), ", "@),
        ),
        has_text(
            config.shown(entries),
            duration_text(
                (config.request_timeout / 1_000_000_000) as u64,
                (config.request_timeout % 1_000_000_000) as u32,
            ),
        ),
        has_text(config.shown(entries), decimal(config.max_attempts as nat)),
{
    let list = join(Seq::new(entries.len(), |i: int| shown_override(entries[i])), ", "@);
    let time = duration_text(
        (config.request_timeout / 1_000_000_000) as u64,
        (config.request_timeout % 1_000_000_000) as u32,
    );
    let p1 = seq!["GatewayConfig { base_url: "@];
    let p2 = p1.push(quoted(config.base_url));
    let p3 = p2.push(", api_key: \"<redacted>\", model: "@);
    let p4 = p3.push(quoted(config.model));
    let p5 = p4.push(", default_reasoning_effort: "@);
    let p6 = p5.push(shown_text(config.default_reasoning_effort));
    let p7 = p6.push(", default_max_tokens: "@);
    let p8 = p7.push(shown_number(config.default_max_tokens));
    let p9 = p8.push(", model_overrides: {"@);
    let p10 = p9.push(list);
    let p11 = p10.push("}, request_timeout: "@);
    let p12 = p11.push(time);
    let p13 = p12.push(", max_attempts: "@);
    let p14 = p13.push(decimal(config.max_attempts as nat));
    let p15 = p14.push(" }"@);
    lemma_pieced_push(p1, quoted(config.base_url));
    lemma_pieced_push(p2, ", api_key: \"<redacted>\", model: "@);
    lemma_pieced_push(p3, quoted(config.model));
    lemma_pieced_push(p4, ", default_reasoning_effort: "@);
    lemma_pieced_push(p5, shown_text(config.default_reasoning_effort));
    lemma_pieced_push(p6, ", default_max_tokens: "@);
    lemma_pieced_push(p7, shown_number(config.default_max_tokens));
    lemma_pieced_push(p8, ", model_overrides: {"@);
    lemma_pieced_push(p9, list);
    lemma_pieced_push(p10, "}, request_timeout: "@);
    lemma_pieced_push(p11, time);
    lemma_pieced_push(p12, ", max_attempts: "@);
    lemma_pieced_push(p13, decimal(config.max_attempts as nat));
    lemma_pieced_push(p14, " }"@);
    assert(pieced(p15) == config.shown(entries));
    lemma_pieced_has(p15, 1);
    lemma_pieced_has(p15, 2);
    lemma_pieced_has(p15, 3);
    lemma_pieced_has(p15, 5);
    lemma_pieced_has(p15, 7);
    lemma_pieced_has(p15, 9);
    lemma_pieced_has(p15, 11);
    lemma_pieced_has(p15, 13);
}

} // verus!
