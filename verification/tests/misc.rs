use cyx::config::{Config, ConfigManager, LLMProvider};
use cyx::deps::{DependencyChecker, DependencyStatus, OllamaProbe};
use cyx::session::{extract_sources, format_duration_ago};
use cyx::update::{should_check_now, UpdateInfo, UpdateMetadata, Version};
use cyx::cli::CliContext;
use cyx::codec::{blob_decode, blob_encode};
use cyx::search::SearchResult;

#[test]
fn test_should_check_now() {
    let now: i64 = 1_000_000_000;

    // No previous check
    assert!(should_check_now(None, now));

    // Recent check (1 hour ago)
    let recent = now - 3600;
    assert!(!should_check_now(Some(recent), now));

    // Old check (25 hours ago)
    let old = now - 25 * 3600;
    assert!(should_check_now(Some(old), now));
}

#[test]
fn test_update_info_ordering() {
    let v1 = Version { major: 1, minor: 2, patch: 3 };
    let v2 = Version { major: 1, minor: 3, patch: 0 };
    let info = UpdateInfo::new(v1.clone(), v2.clone());
    assert!(info.needs_update);
    let same = UpdateInfo::new(v2.clone(), v2);
    assert!(!same.needs_update);
}

#[test]
fn test_update_metadata_roundtrip() {
    let mut meta = UpdateMetadata::new();
    assert!(meta.last_check.is_none());
    meta.update_last_check(42);
    assert_eq!(meta.last_check, Some(42));
    assert!(meta.last_update.is_none());
    meta.update_last_update(77);
    assert_eq!(meta.last_update, Some(77));
    assert_eq!(meta.last_check, Some(42));
}

#[test]
fn test_config_get_and_set() {
    let mut config = Config::default();
    assert_eq!(
        ConfigManager::get_value(&config, "provider").unwrap(),
        "Groq"
    );
    assert_eq!(
        ConfigManager::get_value(&config, "cache.enabled").unwrap(),
        "true"
    );
    assert_eq!(
        ConfigManager::get_value(&config, "cache.ttl_days").unwrap(),
        "30"
    );
    assert_eq!(
        ConfigManager::get_value(&config, "groq_api_key").unwrap(),
        "Not set"
    );
    assert!(ConfigManager::get_value(&config, "nonsense").is_err());

    ConfigManager::set_value(&mut config, "provider", "OLLAMA").unwrap();
    assert!(matches!(config.provider, LLMProvider::Ollama));
    ConfigManager::set_value(&mut config, "cache.ttl_days", "45").unwrap();
    assert_eq!(config.cache.ttl_days, 45);
    assert!(ConfigManager::set_value(&mut config, "cache.ttl_days", "4x5").is_err());
    assert_eq!(config.cache.ttl_days, 45);
    assert!(ConfigManager::set_value(&mut config, "provider", "skynet").is_err());
}

#[test]
fn test_extract_sources_with_marker() {
    let response = "Use nmap -sS.\n\n[SOURCES]\n- nmap docs: https://nmap.org/book/\n- RFC 793: https://www.ietf.org/rfc/rfc793.txt\n";
    let (body, sources) = extract_sources(response);
    assert_eq!(body, "Use nmap -sS.");
    assert_eq!(
        sources,
        vec![
            "nmap docs: https://nmap.org/book/".to_string(),
            "RFC 793: https://www.ietf.org/rfc/rfc793.txt".to_string(),
        ]
    );
}

#[test]
fn test_extract_sources_without_marker() {
    let response = "Just an answer, no sources.";
    let (body, sources) = extract_sources(response);
    assert_eq!(body, response);
    assert!(sources.is_empty());
}

#[test]
fn test_format_duration_ago_buckets() {
    let now: i64 = 10_000_000;
    assert_eq!(format_duration_ago(now, now - 5), "just now");
    assert_eq!(format_duration_ago(now, now - 60), "1 minute ago");
    assert_eq!(format_duration_ago(now, now - 120), "2 minutes ago");
    assert_eq!(format_duration_ago(now, now - 3 * 3600), "3 hours ago");
    assert_eq!(format_duration_ago(now, now - 5 * 86400), "5 days ago");
    assert_eq!(format_duration_ago(now, now - 70 * 86400), "2 months ago");
}

#[test]
fn test_dependency_checker() {
    let checker = DependencyChecker::new().unwrap();
    let probe = OllamaProbe {
        version_output: Some("ollama version 0.3.6\n".to_string()),
        service_responds: false,
    };
    match checker.check_dependency("Ollama", &probe).unwrap() {
        DependencyStatus::Installed { version } => assert_eq!(version, "0.3.6"),
        _ => panic!("expected installed"),
    }
    match checker.check_dependency("SQLite", &probe).unwrap() {
        DependencyStatus::Installed { version } => assert_eq!(version, "bundled"),
        _ => panic!("expected installed"),
    }
    assert!(checker.check_dependency("Redis", &probe).is_err());

    let silent = OllamaProbe { version_output: None, service_responds: true };
    match checker.check_dependency("Ollama", &silent).unwrap() {
        DependencyStatus::Installed { version } => assert_eq!(version, "running"),
        _ => panic!("expected running"),
    }
    let absent = OllamaProbe { version_output: None, service_responds: false };
    assert!(matches!(
        checker.check_dependency("Ollama", &absent).unwrap(),
        DependencyStatus::NotInstalled
    ));

    let results = checker.check_all(&absent, "linux").unwrap();
    assert_eq!(results.len(), 2);
    assert_eq!(results[0].name, "SQLite");
    assert_eq!(results[1].name, "Ollama");
}

#[test]
fn test_search_result_trust() {
    let trusted = vec!["owasp.org".to_string(), "nmap.org".to_string()];
    let hit = SearchResult::new(
        "t".to_string(),
        "s".to_string(),
        "https://nmap.org/book/".to_string(),
        &trusted,
    );
    assert!(hit.is_trusted);
    let miss = SearchResult::new(
        "t".to_string(),
        "s".to_string(),
        "https://example.com/".to_string(),
        &trusted,
    );
    assert!(!miss.is_trusted);
}

#[test]
fn test_blob_codec_round_trip() {
    let v: Vec<i64> = vec![0, 1, 65536, -3, i64::MAX, i64::MIN];
    let blob = blob_encode(&v);
    assert_eq!(blob.len(), v.len() * 8);
    let back = blob_decode(&blob).unwrap();
    assert_eq!(back, v);
    let bad = vec![1u8, 2, 3];
    assert!(blob_decode(&bad).is_none());
}

#[test]
fn test_cli_context_flags() {
    let ctx = CliContext::new(true, false, false, false);
    assert!(ctx.should_disable_colors());
    assert!(!ctx.should_show_decorations());
    assert!(!ctx.should_show_progress());
    assert!(!ctx.should_show_verbose());
    let loud = CliContext::new(false, true, false, false);
    assert!(!loud.should_disable_colors());
    assert!(loud.should_show_decorations());
    assert!(loud.should_show_progress());
    assert!(loud.should_show_verbose());
}

#[test]
fn test_prompts_mention_sources_section() {
    let p = cyx::session::create_system_prompt();
    let l = cyx::session::create_learn_system_prompt();
    assert!(p.contains("[SOURCES]"));
    assert!(l.contains("[SOURCES]"));
    assert!(l.contains("LEARN MODE"));
}

#[test]
fn test_whitespace_class_is_exact() {
    // The normalizer's notion of whitespace must agree with the standard
    // library on every character.
    let listed: Vec<char> = vec![
        '\u{0009}', '\u{000A}', '\u{000B}', '\u{000C}', '\u{000D}', ' ', '\u{0085}', '\u{00A0}',
        '\u{1680}', '\u{2000}', '\u{2001}', '\u{2002}', '\u{2003}', '\u{2004}', '\u{2005}',
        '\u{2006}', '\u{2007}', '\u{2008}', '\u{2009}', '\u{200A}', '\u{2028}', '\u{2029}',
        '\u{202F}', '\u{205F}', '\u{3000}',
    ];
    for cp in 0..=0x10FFFFu32 {
        if let Some(c) = char::from_u32(cp) {
            assert_eq!(c.is_whitespace(), listed.contains(&c), "mismatch at U+{:04X}", cp);
        }
    }
}

#[test]
fn test_hash_of_empty_string_is_offset_basis() {
    let normalizer = {
        let config = cyx::normalizer::NormalizationConfig::default();
        cyx::normalizer::QueryNormalizer::new(config, Vec::new(), Vec::new())
    };
    // FNV-1a of no input is the offset basis, rendered as 16 hex digits.
    assert_eq!(normalizer.compute_hash(""), "cbf29ce484222325");
}

#[test]
fn test_normalize_respects_disabled_steps() {
    let mut config = cyx::normalizer::NormalizationConfig::default();
    config.lowercase = false;
    config.expand_abbreviations = false;
    config.remove_stopwords = false;
    let normalizer = cyx::normalizer::QueryNormalizer::new(
        config,
        vec![("nmap".to_string(), "network mapper".to_string())],
        vec!["the".to_string()],
    );
    // only trim and the final whitespace collapse apply
    assert_eq!(
        normalizer.normalize("  The NMAP   scan  ").unwrap(),
        "The NMAP scan"
    );
}
