//! The runtime settings model: providers, channels, memory and tools.
//!
//! Reading configuration files and environment variables happens outside the
//! library; everything here is the settings data itself, its defaults, and
//! the parsing of the small string-valued knobs.

use vstd::prelude::*;
use vstd::string::StringSliceAdditionalSpecFns;

use crate::text::{bytes_eq, bytes_of, find_from, find_sub, lemma_find_from_some, sub_bytes,
    to_lower, trim_bytes, trim_spec};
use crate::agent::lower_seq;

verus! {

/// An LLM provider.
pub enum ProviderKind {
    OpenRouter,
    OpenAI,
    Ollama,
}

/// The provider named by a configuration value, after trimming and
/// lowercasing.
pub open spec fn provider_parse_spec(raw: Seq<u8>) -> Option<ProviderKind> {
    let t = lower_seq(trim_spec(raw));
    if t == "openrouter".spec_bytes() {
        Some(ProviderKind::OpenRouter)
    } else if t == "openai".spec_bytes() {
        Some(ProviderKind::OpenAI)
    } else if t == "ollama".spec_bytes() {
        Some(ProviderKind::Ollama)
    } else {
        None
    }
}

impl ProviderKind {
    /// Parse a provider name, case-insensitively, ignoring outer whitespace.
    pub fn parse(raw: &str) -> (r: Option<Self>)
        ensures
            r == provider_parse_spec(raw.spec_bytes()),
    {
        let b = bytes_of(raw);
        let t = trim_bytes(b.as_slice());
        let low = to_lower(t.as_slice());
        proof {
            assert(low@ =~= lower_seq(trim_spec(raw.spec_bytes())));
        }
        if bytes_eq(low.as_slice(), bytes_of("openrouter").as_slice()) {
            Some(ProviderKind::OpenRouter)
        } else if bytes_eq(low.as_slice(), bytes_of("openai").as_slice()) {
            Some(ProviderKind::OpenAI)
        } else if bytes_eq(low.as_slice(), bytes_of("ollama").as_slice()) {
            Some(ProviderKind::Ollama)
        } else {
            None
        }
    }

    pub fn as_str(&self) -> (r: &'static str)
        ensures
            self is OpenRouter ==> r@ == "openrouter"@,
            self is OpenAI ==> r@ == "openai"@,
            self is Ollama ==> r@ == "ollama"@,
    {
        match self {
            ProviderKind::OpenRouter => "openrouter",
            ProviderKind::OpenAI => "openai",
            ProviderKind::Ollama => "ollama",
        }
    }
}

/// How much memory the runtime keeps.
pub enum MemoryMode {
    Off,
    Simple,
    Smart,
}

/// The memory mode named by a configuration value.
pub open spec fn memory_mode_parse_spec(raw: Seq<u8>) -> Option<MemoryMode> {
    let t = lower_seq(trim_spec(raw));
    if t == "none".spec_bytes() || t == "off".spec_bytes() || t == "disabled".spec_bytes() {
        Some(MemoryMode::Off)
    } else if t == "simple".spec_bytes() || t == "file".spec_bytes() {
        Some(MemoryMode::Simple)
    } else if t == "smart".spec_bytes() || t == "vector".spec_bytes() || t
        == "mem0".spec_bytes() {
        Some(MemoryMode::Smart)
    } else {
        None
    }
}

impl MemoryMode {
    /// Parse a memory mode, case-insensitively, ignoring outer whitespace.
    pub fn parse(raw: &str) -> (r: Option<Self>)
        ensures
            r == memory_mode_parse_spec(raw.spec_bytes()),
    {
        let b = bytes_of(raw);
        let t = trim_bytes(b.as_slice());
        let low = to_lower(t.as_slice());
        proof {
            assert(low@ =~= lower_seq(trim_spec(raw.spec_bytes())));
        }
        if bytes_eq(low.as_slice(), bytes_of("none").as_slice()) || bytes_eq(
            low.as_slice(),
            bytes_of("off").as_slice(),
        ) || bytes_eq(low.as_slice(), bytes_of("disabled").as_slice()) {
            Some(MemoryMode::Off)
        } else if bytes_eq(low.as_slice(), bytes_of("simple").as_slice()) || bytes_eq(
            low.as_slice(),
            bytes_of("file").as_slice(),
        ) {
            Some(MemoryMode::Simple)
        } else if bytes_eq(low.as_slice(), bytes_of("smart").as_slice()) || bytes_eq(
            low.as_slice(),
            bytes_of("vector").as_slice(),
        ) || bytes_eq(low.as_slice(), bytes_of("mem0").as_slice()) {
            Some(MemoryMode::Smart)
        } else {
            None
        }
    }
}

/// Which web search backend to call.
pub enum WebSearchProvider {
    Brave,
    Firecrawl,
}

/// The search backend named by a configuration value.
pub open spec fn web_search_parse_spec(raw: Seq<u8>) -> Option<WebSearchProvider> {
    let t = lower_seq(trim_spec(raw));
    if t == "brave".spec_bytes() {
        Some(WebSearchProvider::Brave)
    } else if t == "firecrawl".spec_bytes() {
        Some(WebSearchProvider::Firecrawl)
    } else {
        None
    }
}

impl WebSearchProvider {
    /// Parse a search backend name.
    pub fn parse(raw: &str) -> (r: Option<Self>)
        ensures
            r == web_search_parse_spec(raw.spec_bytes()),
    {
        let b = bytes_of(raw);
        let t = trim_bytes(b.as_slice());
        let low = to_lower(t.as_slice());
        proof {
            assert(low@ =~= lower_seq(trim_spec(raw.spec_bytes())));
        }
        if bytes_eq(low.as_slice(), bytes_of("brave").as_slice()) {
            Some(WebSearchProvider::Brave)
        } else if bytes_eq(low.as_slice(), bytes_of("firecrawl").as_slice()) {
            Some(WebSearchProvider::Firecrawl)
        } else {
            None
        }
    }
}

/// `1`, `true`, `yes` or `y`; `0`, `false`, `no` or `n`.
pub open spec fn bool_parse_spec(raw: Seq<u8>) -> Option<bool> {
    let t = lower_seq(trim_spec(raw));
    if t == "1".spec_bytes() || t == "true".spec_bytes() || t == "yes".spec_bytes() || t
        == "y".spec_bytes() {
        Some(true)
    } else if t == "0".spec_bytes() || t == "false".spec_bytes() || t == "no".spec_bytes() || t
        == "n".spec_bytes() {
        Some(false)
    } else {
        None
    }
}

/// Parse a boolean configuration value.
pub fn parse_bool(value: &str) -> (r: Option<bool>)
    ensures
        r == bool_parse_spec(value.spec_bytes()),
{
    let b = bytes_of(value);
    let t = trim_bytes(b.as_slice());
    let low = to_lower(t.as_slice());
    proof {
        assert(low@ =~= lower_seq(trim_spec(value.spec_bytes())));
    }
    if bytes_eq(low.as_slice(), bytes_of("1").as_slice()) || bytes_eq(
        low.as_slice(),
        bytes_of("true").as_slice(),
    ) || bytes_eq(low.as_slice(), bytes_of("yes").as_slice()) || bytes_eq(
        low.as_slice(),
        bytes_of("y").as_slice(),
    ) {
        Some(true)
    } else if bytes_eq(low.as_slice(), bytes_of("0").as_slice()) || bytes_eq(
        low.as_slice(),
        bytes_of("false").as_slice(),
    ) || bytes_eq(low.as_slice(), bytes_of("no").as_slice()) || bytes_eq(
        low.as_slice(),
        bytes_of("n").as_slice(),
    ) {
        Some(false)
    } else {
        None
    }
}

/// Generic provider credentials.
pub struct ProviderEntry {
    pub api_key: String,
    pub base_url: String,
    pub extra_headers: Vec<(String, String)>,
}

/// OpenRouter credentials, with its referer and title headers.
pub struct OpenRouterEntry {
    pub api_key: String,
    pub base_url: String,
    pub http_referer: Option<String>,
    pub app_title: Option<String>,
    pub extra_headers: Vec<(String, String)>,
}

/// Mistral credentials.
pub struct MistralEntry {
    pub api_key: String,
    pub base_url: String,
}

/// All provider credentials.
pub struct ProvidersConfig {
    pub openrouter: OpenRouterEntry,
    pub openai: ProviderEntry,
    pub ollama: ProviderEntry,
    pub mistral: MistralEntry,
}

/// Model selection and agent limits.
pub struct ModelConfig {
    pub model: String,
    pub fallbacks: Vec<String>,
    pub max_tool_turns: usize,
}

/// Telegram channel settings.
pub struct TelegramConfig {
    pub bot_token: String,
    pub allow_from: Vec<String>,
}

/// Discord channel settings.
pub struct DiscordConfig {
    pub bot_token: String,
    pub allow_from: Vec<String>,
    pub allowed_channels: Vec<String>,
}

/// All channel settings.
pub struct ChannelsConfig {
    pub telegram: TelegramConfig,
    pub discord: DiscordConfig,
}

/// Speech-to-text settings.
pub struct TranscriptionConfig {
    pub enabled: bool,
    pub provider: String,
    pub model: String,
    pub language: Option<String>,
    pub max_bytes: usize,
    pub mistral_diarize: bool,
    pub mistral_context_bias: Option<String>,
    pub mistral_timestamp_granularities: Vec<String>,
}

/// Memory settings.
pub struct MemoryConfig {
    pub mode: MemoryMode,
    pub embedding_model: String,
    pub max_memories: usize,
}

/// Tool settings.
pub struct ToolsConfig {
    pub exec_timeout_secs: u64,
    pub restrict_to_workspace: bool,
    pub web_search_provider: WebSearchProvider,
    pub brave_api_key: Option<String>,
    pub firecrawl_api_key: Option<String>,
}

/// The whole runtime configuration.
pub struct AppConfig {
    pub provider: ProviderKind,
    pub providers: ProvidersConfig,
    pub model: ModelConfig,
    pub channels: ChannelsConfig,
    pub transcription: TranscriptionConfig,
    pub memory: MemoryConfig,
    pub tools: ToolsConfig,
    pub data_dir: String,
    pub workspace_dir: String,
}

/// One provider/model pair to try.
pub struct ModelRoute {
    pub provider: ProviderKind,
    pub model: Vec<u8>,
}

impl AppConfig {
    /// The built-in defaults, before any file or environment overrides.
    pub fn defaults() -> (r: Self)
        ensures
            r.provider is OpenRouter,
            r.model.model@ == "openrouter/auto"@,
            r.model.fallbacks@.len() == 0,
            r.model.max_tool_turns == 20,
            r.memory.mode is Simple,
            r.memory.embedding_model@ == "text-embedding-3-small"@,
            r.memory.max_memories == 1000,
            r.tools.exec_timeout_secs == 60,
            !r.tools.restrict_to_workspace,
            r.tools.web_search_provider is Brave,
            r.transcription.enabled,
            r.transcription.max_bytes == 20971520,
            r.channels.telegram.bot_token@ == Seq::<char>::empty(),
            r.channels.discord.bot_token@ == Seq::<char>::empty(),
    {
        AppConfig {
            provider: ProviderKind::OpenRouter,
            providers: ProvidersConfig {
                openrouter: OpenRouterEntry {
                    api_key: String::new(),
                    base_url: "https://openrouter.ai/api/v1".to_owned(),
                    http_referer: None,
                    app_title: None,
                    extra_headers: Vec::new(),
                },
                openai: ProviderEntry {
                    api_key: String::new(),
                    base_url: "https://api.openai.com/v1".to_owned(),
                    extra_headers: Vec::new(),
                },
                ollama: ProviderEntry {
                    api_key: String::new(),
                    base_url: "http://127.0.0.1:11434/v1".to_owned(),
                    extra_headers: Vec::new(),
                },
                mistral: MistralEntry {
                    api_key: String::new(),
                    base_url: "https://api.mistral.ai/v1".to_owned(),
                },
            },
            model: ModelConfig {
                model: "openrouter/auto".to_owned(),
                fallbacks: Vec::new(),
                max_tool_turns: 20,
            },
            channels: ChannelsConfig {
                telegram: TelegramConfig { bot_token: String::new(), allow_from: Vec::new() },
                discord: DiscordConfig {
                    bot_token: String::new(),
                    allow_from: Vec::new(),
                    allowed_channels: Vec::new(),
                },
            },
            transcription: TranscriptionConfig {
                enabled: true,
                provider: "openai".to_owned(),
                model: "whisper-1".to_owned(),
                language: None,
                max_bytes: 20971520,
                mistral_diarize: false,
                mistral_context_bias: None,
                mistral_timestamp_granularities: Vec::new(),
            },
            memory: MemoryConfig {
                mode: MemoryMode::Simple,
                embedding_model: "text-embedding-3-small".to_owned(),
                max_memories: 1000,
            },
            tools: ToolsConfig {
                exec_timeout_secs: 60,
                restrict_to_workspace: false,
                web_search_provider: WebSearchProvider::Brave,
                brave_api_key: None,
                firecrawl_api_key: None,
            },
            data_dir: String::new(),
            workspace_dir: String::new(),
        }
    }

    /// The active provider's API key.
    pub fn provider_api_key(&self) -> (r: &str)
        ensures
            self.provider is OpenRouter ==> r@ == self.providers.openrouter.api_key@,
            self.provider is OpenAI ==> r@ == self.providers.openai.api_key@,
            self.provider is Ollama ==> r@ == self.providers.ollama.api_key@,
    {
        match self.provider {
            ProviderKind::OpenRouter => self.providers.openrouter.api_key.as_str(),
            ProviderKind::OpenAI => self.providers.openai.api_key.as_str(),
            ProviderKind::Ollama => self.providers.ollama.api_key.as_str(),
        }
    }

    /// Hosted providers demand a key; a local one does not.
    pub fn provider_requires_api_key(&self) -> (r: bool)
        ensures
            r == (self.provider is OpenRouter || self.provider is OpenAI),
    {
        match self.provider {
            ProviderKind::OpenRouter => true,
            ProviderKind::OpenAI => true,
            ProviderKind::Ollama => false,
        }
    }

    /// Telegram runs when its token is nonblank.
    pub fn telegram_enabled(&self) -> (r: bool)
        ensures
            r == (trim_spec(string_bytes(self.channels.telegram.bot_token@)).len() > 0),
    {
        let b = bytes_of(self.channels.telegram.bot_token.as_str());
        let t = trim_bytes(b.as_slice());
        t.len() > 0
    }

    /// Discord runs when its token is nonblank.
    pub fn discord_enabled(&self) -> (r: bool)
        ensures
            r == (trim_spec(string_bytes(self.channels.discord.bot_token@)).len() > 0),
    {
        let b = bytes_of(self.channels.discord.bot_token.as_str());
        let t = trim_bytes(b.as_slice());
        t.len() > 0
    }

    /// The configuration is complete enough to start: a provider that needs
    /// an API key has a nonblank one.
    pub fn validate(&self) -> (r: bool)
        ensures
            r == !((self.provider is OpenRouter || self.provider is OpenAI) && trim_spec(
                provider_key_bytes(self),
            ).len() == 0),
    {
        if self.provider_requires_api_key() {
            let b = bytes_of(self.provider_api_key());
            let t = trim_bytes(b.as_slice());
            t.len() > 0
        } else {
            true
        }
    }

    /// The provider/model routes to try, primary first, parsed fallbacks
    /// after it, without duplicates.
    pub fn model_routes(&self) -> (r: Vec<ModelRoute>)
        ensures
            route_views(r@) == routes_spec(
                self.provider,
                string_bytes(self.model.model@),
                fallback_views(self.model.fallbacks@),
            ),
    {
        let mut routes: Vec<ModelRoute> = Vec::new();
        let primary_model = bytes_of(self.model.model.as_str());
        let trimmed = trim_bytes(primary_model.as_slice());
        if trimmed.len() > 0 {
            routes.push(ModelRoute { provider: copy_provider(&self.provider), model: trimmed });
        }
        let ghost acc0 = route_views(routes@);
        proof {
            assert(acc0 =~= initial_routes(self.provider, string_bytes(self.model.model@)));
        }
        let mut i: usize = 0;
        let ghost fvs = fallback_views(self.model.fallbacks@);
        while i < self.model.fallbacks.len()
            invariant
                i <= self.model.fallbacks@.len(),
                fvs == fallback_views(self.model.fallbacks@),
                fvs.len() == self.model.fallbacks@.len(),
                routes_spec(self.provider, string_bytes(self.model.model@), fvs)
                    == routes_fold(route_views(routes@), fvs, i as int, self.provider),
            decreases self.model.fallbacks@.len() - i,
        {
            let ghost pre = route_views(routes@);
            proof {
                assert(fvs[i as int] == string_bytes(self.model.fallbacks@[i as int]@));
            }
            match parse_model_route(self.model.fallbacks[i].as_str(), &self.provider) {
                Some(route) => {
                    let dup = route_listed(&routes, &route);
                    if !dup {
                        routes.push(route);
                        proof {
                            assert(route_views(routes@) =~= pre.push(
                                (routes@[routes@.len() - 1].provider, routes@[routes@.len()
                                    - 1].model@),
                            ));
                        }
                    }
                },
                None => {},
            }
            i = i + 1;
        }
        proof {
            assert(routes_fold(route_views(routes@), fvs, fvs.len() as int, self.provider)
                == route_views(routes@));
        }
        routes
    }
}

/// The UTF-8 bytes of an owned string.
pub open spec fn string_bytes(s: Seq<char>) -> Seq<u8> {
    vstd::utf8::encode_utf8(s)
}

/// The bytes of the active provider's key.
pub open spec fn provider_key_bytes(c: &AppConfig) -> Seq<u8> {
    match c.provider {
        ProviderKind::OpenRouter => string_bytes(c.providers.openrouter.api_key@),
        ProviderKind::OpenAI => string_bytes(c.providers.openai.api_key@),
        ProviderKind::Ollama => string_bytes(c.providers.ollama.api_key@),
    }
}

/// A fallback entry parsed into a route: an explicit `provider/model` prefix
/// when the provider name is known, else the default provider with the whole
/// trimmed text as the model; blank models are dropped.
pub open spec fn parse_route_spec(raw: Seq<u8>, default_provider: ProviderKind) -> Option<
    (ProviderKind, Seq<u8>),
> {
    let t = trim_spec(raw);
    if t.len() == 0 {
        None
    } else {
        match find_from(t, seq![47u8], 0) {
            Some(i) => {
                match provider_parse_spec(t.take(i)) {
                    Some(p) => {
                        let m = trim_spec(t.skip(i + 1));
                        if m.len() == 0 {
                            None
                        } else {
                            Some((p, m))
                        }
                    },
                    None => Some((default_provider, t)),
                }
            },
            None => Some((default_provider, t)),
        }
    }
}

/// Parse one fallback entry.
pub fn parse_model_route(raw: &str, default_provider: &ProviderKind) -> (r: Option<ModelRoute>)
    ensures
        r is Some ==> Some((r->Some_0.provider, r->Some_0.model@)) == parse_route_spec(
            raw.spec_bytes(),
            *default_provider,
        ),
        r is None ==> parse_route_spec(raw.spec_bytes(), *default_provider) is None,
{
    let b = bytes_of(raw);
    let t = trim_bytes(b.as_slice());
    if t.len() == 0 {
        return None;
    }
    let slash = vec![47u8];
    proof {
        assert(slash@ =~= seq![47u8]);
    }
    match find_sub(t.as_slice(), slash.as_slice(), 0) {
        Some(i) => {
            proof {
                assert(slash@ =~= seq![47u8]);
                lemma_find_from_some(t@, seq![47u8], 0);
            }
            let before = sub_bytes(t.as_slice(), 0, i);
            let before_t = trim_bytes(before.as_slice());
            let low = to_lower(before_t.as_slice());
            proof {
                assert(before@ =~= t@.take(i as int));
                assert(low@ =~= lower_seq(trim_spec(t@.take(i as int))));
                assert(i + 1 <= t@.len());
            }
            let parsed: Option<ProviderKind> = if bytes_eq(
                low.as_slice(),
                bytes_of("openrouter").as_slice(),
            ) {
                Some(ProviderKind::OpenRouter)
            } else if bytes_eq(low.as_slice(), bytes_of("openai").as_slice()) {
                Some(ProviderKind::OpenAI)
            } else if bytes_eq(low.as_slice(), bytes_of("ollama").as_slice()) {
                Some(ProviderKind::Ollama)
            } else {
                None
            };
            match parsed {
                Some(p) => {
                    let after = sub_bytes(t.as_slice(), i + 1, t.len());
                    let m = trim_bytes(after.as_slice());
                    proof {
                        assert(after@ =~= t@.skip(i + 1));
                    }
                    if m.len() == 0 {
                        proof {
                            assert(parse_route_spec(raw.spec_bytes(), *default_provider)
                                is None);
                        }
                        None
                    } else {
                        proof {
                            assert(parse_route_spec(raw.spec_bytes(), *default_provider) == Some(
                                (p, m@),
                            ));
                        }
                        Some(ModelRoute { provider: p, model: m })
                    }
                },
                None => {
                    proof {
                        assert(parse_route_spec(raw.spec_bytes(), *default_provider) == Some(
                            (*default_provider, t@),
                        ));
                    }
                    Some(ModelRoute { provider: copy_provider(default_provider), model: t })
                },
            }
        },
        None => {
            proof {
                assert(parse_route_spec(raw.spec_bytes(), *default_provider) == Some(
                    (*default_provider, t@),
                ));
            }
            Some(ModelRoute { provider: copy_provider(default_provider), model: t })
        },
    }
}

/// Copy a provider tag.
pub fn copy_provider(p: &ProviderKind) -> (r: ProviderKind)
    ensures
        r == *p,
{
    match p {
        ProviderKind::OpenRouter => ProviderKind::OpenRouter,
        ProviderKind::OpenAI => ProviderKind::OpenAI,
        ProviderKind::Ollama => ProviderKind::Ollama,
    }
}

/// The views of the configured fallback entries.
pub open spec fn fallback_views(fallbacks: Seq<String>) -> Seq<Seq<u8>> {
    Seq::new(fallbacks.len(), |i: int| string_bytes(fallbacks[i]@))
}

/// The provider/model views of built routes.
pub open spec fn route_views(routes: Seq<ModelRoute>) -> Seq<(ProviderKind, Seq<u8>)> {
    Seq::new(routes.len(), |i: int| (routes[i].provider, routes[i].model@))
}

/// The primary route, when its model is nonblank.
pub open spec fn initial_routes(provider: ProviderKind, primary_model: Seq<u8>) -> Seq<
    (ProviderKind, Seq<u8>),
> {
    if trim_spec(primary_model).len() > 0 {
        seq![(provider, trim_spec(primary_model))]
    } else {
        Seq::empty()
    }
}

/// Fold the fallbacks into the accumulated routes, skipping duplicates.
pub open spec fn routes_fold(
    acc: Seq<(ProviderKind, Seq<u8>)>,
    fallbacks: Seq<Seq<u8>>,
    i: int,
    default_provider: ProviderKind,
) -> Seq<(ProviderKind, Seq<u8>)>
    decreases fallbacks.len() - i
{
    if i < 0 || i >= fallbacks.len() {
        acc
    } else {
        match parse_route_spec(fallbacks[i], default_provider) {
            Some(route) => if acc.contains(route) {
                routes_fold(acc, fallbacks, i + 1, default_provider)
            } else {
                routes_fold(acc.push(route), fallbacks, i + 1, default_provider)
            },
            None => routes_fold(acc, fallbacks, i + 1, default_provider),
        }
    }
}

/// All routes: the primary first, then the deduplicated parsed fallbacks.
pub open spec fn routes_spec(
    provider: ProviderKind,
    primary_model: Seq<u8>,
    fallbacks: Seq<Seq<u8>>,
) -> Seq<(ProviderKind, Seq<u8>)> {
    routes_fold(initial_routes(provider, primary_model), fallbacks, 0, provider)
}

/// Is an equal route already listed?
fn route_listed(routes: &Vec<ModelRoute>, route: &ModelRoute) -> (r: bool)
    ensures
        r == route_views(routes@).contains((route.provider, route.model@)),
{
    let mut i: usize = 0;
    while i < routes.len()
        invariant
            i <= routes@.len(),
            forall|j: int|
                0 <= j < i ==> #[trigger] route_views(routes@)[j] != (route.provider, route.model@),
        decreases routes@.len() - i,
    {
        let same_provider = match (&routes[i].provider, &route.provider) {
            (ProviderKind::OpenRouter, ProviderKind::OpenRouter) => true,
            (ProviderKind::OpenAI, ProviderKind::OpenAI) => true,
            (ProviderKind::Ollama, ProviderKind::Ollama) => true,
            _ => false,
        };
        if same_provider && bytes_eq(routes[i].model.as_slice(), route.model.as_slice()) {
            proof {
                assert(route_views(routes@)[i as int] == (route.provider, route.model@));
            }
            return true;
        }
        i = i + 1;
    }
    proof {
        if route_views(routes@).contains((route.provider, route.model@)) {
            let j = choose|j: int|
                0 <= j < route_views(routes@).len() && route_views(routes@)[j] == (
                route.provider,
                route.model@,
            );
            assert(false);
        }
    }
    false
}

} // verus!
