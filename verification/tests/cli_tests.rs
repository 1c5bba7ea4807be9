use femtobot::config::{
    parse_bool, parse_model_route, AppConfig, MemoryMode, ProviderKind, WebSearchProvider,
};
use femtobot::service::Scope;
use femtobot::skills::{
    looks_like_source, normalize_limit, resolve_skills_sh_target, truncate, SkillEntry,
};
use femtobot::tools::{
    allowed_memory_path, default_max_results, is_daily_memory_file, normalize_memory_path,
    search_memory_sources, slice_line_window, FileSource, RememberKind, ToolError,
};
use femtobot::file_store::MemoryStore;
use femtobot::tools::append_remembered;
use femtobot::uninstall::{bin_name, is_dev_binary};
use femtobot::web::{clamp_search_count, scheme_allowed, WebFetchTool, WebSearchTool};

#[test]
fn source_detection_handles_common_inputs() {
    assert!(looks_like_source("vercel-labs/agent-skills"));
    assert!(looks_like_source("./skills"));
    assert!(looks_like_source("https://github.com/vercel-labs/agent-skills"));
    assert!(!looks_like_source("weather"));
}

#[test]
fn limit_is_clamped() {
    assert_eq!(normalize_limit(Some(0), 10), 1);
    assert_eq!(normalize_limit(Some(5), 10), 5);
    assert_eq!(normalize_limit(Some(300), 10), 100);
    assert_eq!(normalize_limit(None, 12), 12);
}

#[test]
fn provider_names_parse_loosely() {
    assert!(matches!(ProviderKind::parse(" OpenRouter "), Some(ProviderKind::OpenRouter)));
    assert!(matches!(ProviderKind::parse("openai"), Some(ProviderKind::OpenAI)));
    assert!(matches!(ProviderKind::parse("OLLAMA"), Some(ProviderKind::Ollama)));
    assert!(ProviderKind::parse("mistral").is_none());
    assert_eq!(ProviderKind::OpenRouter.as_str(), "openrouter");
}

#[test]
fn memory_modes_parse_with_aliases() {
    assert!(matches!(MemoryMode::parse("none"), Some(MemoryMode::Off)));
    assert!(matches!(MemoryMode::parse("off"), Some(MemoryMode::Off)));
    assert!(matches!(MemoryMode::parse("file"), Some(MemoryMode::Simple)));
    assert!(matches!(MemoryMode::parse("Smart"), Some(MemoryMode::Smart)));
    assert!(matches!(MemoryMode::parse("mem0"), Some(MemoryMode::Smart)));
    assert!(MemoryMode::parse("sorta").is_none());
}

#[test]
fn web_search_provider_parses() {
    assert!(matches!(WebSearchProvider::parse("brave"), Some(WebSearchProvider::Brave)));
    assert!(matches!(
        WebSearchProvider::parse(" Firecrawl "),
        Some(WebSearchProvider::Firecrawl)
    ));
    assert!(WebSearchProvider::parse("bing").is_none());
}

#[test]
fn booleans_parse_their_aliases() {
    for yes in ["1", "true", "YES", " y "] {
        assert_eq!(parse_bool(yes), Some(true));
    }
    for no in ["0", "false", "No", "n"] {
        assert_eq!(parse_bool(no), Some(false));
    }
    assert_eq!(parse_bool("maybe"), None);
}

#[test]
fn defaults_are_sensible() {
    let cfg = AppConfig::defaults();
    assert!(matches!(cfg.provider, ProviderKind::OpenRouter));
    assert_eq!(cfg.model.model, "openrouter/auto");
    assert_eq!(cfg.model.max_tool_turns, 20);
    assert_eq!(cfg.memory.max_memories, 1000);
    assert!(matches!(cfg.memory.mode, MemoryMode::Simple));
    assert!(cfg.provider_requires_api_key());
    assert!(!cfg.validate());
    assert!(!cfg.telegram_enabled());
    assert!(!cfg.discord_enabled());
}

#[test]
fn model_routes_dedup_and_parse_fallbacks() {
    let mut cfg = AppConfig::defaults();
    cfg.model.model = "main-model".to_string();
    cfg.model.fallbacks = vec![
        "openai/gpt-4o".to_string(),
        "  ".to_string(),
        "plain-model".to_string(),
        "openai/gpt-4o".to_string(),
        "unknownprov/x".to_string(),
    ];
    let routes = cfg.model_routes();
    assert_eq!(routes.len(), 4);
    assert!(matches!(routes[0].provider, ProviderKind::OpenRouter));
    assert_eq!(routes[0].model, b"main-model".to_vec());
    assert!(matches!(routes[1].provider, ProviderKind::OpenAI));
    assert_eq!(routes[1].model, b"gpt-4o".to_vec());
    assert_eq!(routes[2].model, b"plain-model".to_vec());
    assert_eq!(routes[3].model, b"unknownprov/x".to_vec());
}

#[test]
fn route_entries_parse_prefixes() {
    let r = parse_model_route("openai/gpt-4o", &ProviderKind::OpenRouter).unwrap();
    assert!(matches!(r.provider, ProviderKind::OpenAI));
    assert_eq!(r.model, b"gpt-4o".to_vec());
    let r2 = parse_model_route("just-a-model", &ProviderKind::Ollama).unwrap();
    assert!(matches!(r2.provider, ProviderKind::Ollama));
    assert!(parse_model_route("openai/   ", &ProviderKind::OpenRouter).is_none());
    assert!(parse_model_route("   ", &ProviderKind::OpenRouter).is_none());
}

#[test]
fn daily_file_names_are_strict() {
    assert!(is_daily_memory_file("2025-01-01.md"));
    assert!(!is_daily_memory_file("2025-1-01.md"));
    assert!(!is_daily_memory_file("2025-01-01.txt"));
    assert!(!is_daily_memory_file("MEMORY.md"));
    assert!(allowed_memory_path("MEMORY.md"));
    assert!(allowed_memory_path("2024-12-31.md"));
    assert!(!allowed_memory_path("secrets.md"));
}

#[test]
fn memory_paths_normalize() {
    assert_eq!(normalize_memory_path("memory/MEMORY.md"), Some(b"MEMORY.md".to_vec()));
    assert_eq!(normalize_memory_path(" MEMORY.md "), Some(b"MEMORY.md".to_vec()));
    assert_eq!(normalize_memory_path("   "), None);
}

#[test]
fn memory_search_simple_scans_historical_daily_files() {
    let sources = vec![
        FileSource { path: b"memory/MEMORY.md".to_vec(), content: b"General notes\n".to_vec() },
        FileSource {
            path: b"memory/2025-01-01.md".to_vec(),
            content: b"Project decision: use rust-analyzer cache\n".to_vec(),
        },
    ];
    let hits = search_memory_sources(&sources, "rust-analyzer", 5);
    assert_eq!(hits.len(), 1);
    assert_eq!(hits[0].path, b"memory/2025-01-01.md".to_vec());
    assert_eq!(hits[0].snippet, b"Project decision: use rust-analyzer cache".to_vec());
}

#[test]
fn memory_search_respects_the_result_cap_per_file() {
    let sources = vec![FileSource {
        path: b"memory/MEMORY.md".to_vec(),
        content: b"match a\nmatch b\nmatch c\n".to_vec(),
    }];
    let hits = search_memory_sources(&sources, "match", 2);
    assert_eq!(hits.len(), 2);
}

#[test]
fn line_windows_slice_one_based_ranges() {
    let doc = b"l1\nl2\nl3\nl4\n";
    assert_eq!(slice_line_window(doc, Some(2), Some(2)), b"l2\nl3".to_vec());
    assert_eq!(slice_line_window(doc, None, None), doc.to_vec());
    assert_eq!(slice_line_window(doc, Some(9), Some(2)), Vec::<u8>::new());
}

#[test]
fn remember_kinds_name_themselves() {
    assert_eq!(RememberKind::RememberedFact.as_str(), "remembered_fact");
    assert_eq!(RememberKind::GroundedFact.as_str(), "grounded_fact");
    assert!(matches!(RememberKind::default(), RememberKind::RememberedFact));
    assert_eq!(default_max_results(), 6);
}

#[test]
fn tool_errors_keep_their_text() {
    let e = ToolError::msg("it broke");
    assert_eq!(e.message, "it broke");
}

#[test]
fn skills_selection_prefers_slug_then_name() {
    let results = vec![
        SkillEntry {
            slug: b"weather-pro".to_vec(),
            name: b"Weather".to_vec(),
            source: b"a/b".to_vec(),
            installs: 10,
        },
        SkillEntry {
            slug: b"weather".to_vec(),
            name: b"Forecast".to_vec(),
            source: b"c/d".to_vec(),
            installs: 5,
        },
    ];
    assert_eq!(resolve_skills_sh_target(&results, "WEATHER"), Some(1));
    assert_eq!(resolve_skills_sh_target(&results, "forecast"), Some(1));
    assert_eq!(resolve_skills_sh_target(&results, "unrelated"), Some(0));
    assert_eq!(resolve_skills_sh_target(&results, "  "), None);
    assert_eq!(resolve_skills_sh_target(&Vec::new(), "weather"), None);
}

#[test]
fn skills_summaries_collapse_and_cut() {
    assert_eq!(truncate("a  b   c", 100), b"a b c".to_vec());
    assert_eq!(truncate("abcdefgh", 5), b"abcd...".to_vec());
}

#[test]
fn web_counts_clamp_to_one_through_ten() {
    assert_eq!(clamp_search_count(None), 5);
    assert_eq!(clamp_search_count(Some(0)), 1);
    assert_eq!(clamp_search_count(Some(7)), 7);
    assert_eq!(clamp_search_count(Some(200)), 10);
}

#[test]
fn only_web_schemes_pass() {
    assert!(scheme_allowed("http"));
    assert!(scheme_allowed("https"));
    assert!(!scheme_allowed("ftp"));
    assert!(!scheme_allowed("file"));
}

#[test]
fn web_tools_hold_their_keys() {
    let t = WebSearchTool::new(Some("k".to_string()));
    assert_eq!(t.api_key, Some("k".to_string()));
    let _f = WebFetchTool::new();
}

#[test]
fn scopes_name_themselves() {
    assert_eq!(Scope::User.as_str(), "user");
    assert_eq!(Scope::System.as_str(), "system");
}

#[test]
fn dev_binaries_are_recognized() {
    assert_eq!(bin_name(), "lightclaw");
    assert!(is_dev_binary("/home/u/proj/target/debug/lightclaw"));
    assert!(is_dev_binary("C:\\proj\\target\\release\\lightclaw.exe"));
    assert!(!is_dev_binary("/usr/local/bin/lightclaw"));
}

#[test]
fn today_stamp_is_a_date_shape() {
    let store = femtobot::file_store::MemoryStore::new("/tmp/ws");
    let d = &store.today;
    assert!(d.len() >= 10);
    assert!(d.iter().all(|b| b.is_ascii_digit() || *b == b'-'));
    assert_eq!(d[4], b'-');
    assert_eq!(d[7], b'-');
}

#[test]
fn remember_kinds_parse_and_dispatch_to_their_sections() {
    assert!(matches!(
        RememberKind::parse("grounded_fact"),
        Some(RememberKind::GroundedFact)
    ));
    assert!(matches!(
        RememberKind::parse("conversation_observation"),
        Some(RememberKind::ConversationObservation)
    ));
    assert!(RememberKind::parse("Grounded_Fact").is_none());
    let mut store = MemoryStore::with_today("/tmp/ws", b"2025-01-02".to_vec());
    append_remembered(&mut store, &RememberKind::UserObservation, "I like tests", "", 70);
    append_remembered(&mut store, &RememberKind::GroundedFact, "build is green", "ci", 92);
    let doc = String::from_utf8_lossy(store.read_long_term()).into_owned();
    assert!(doc.contains("## User Observations"));
    assert!(doc.contains("- [2025-01-02] I like tests"));
    assert!(doc.contains("## Grounded Facts"));
    assert!(doc.contains("build is green (source: ci, confidence: 0.92)"));
}

#[test]
fn skills_summaries_count_characters() {
    // five characters, six bytes; a cut to 3 keeps 2 characters plus the mark
    assert_eq!(
        String::from_utf8(truncate("h\u{e9}llo", 3)).unwrap(),
        "h\u{e9}..."
    );
}
