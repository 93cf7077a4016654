//! Exercises the supporting components: hashing and encodings, one-time
//! codes, the scanners, the stores and caches, and the host guards.

use identity_core::access::generate_signed_token;
use identity_core::access::verify_signed_token;
use identity_core::audio::text_to_audio;
use identity_core::cluster::predict_load;
use identity_core::config::parse_config_line;
use identity_core::cluster::IntrusionDetectionSystem;
use identity_core::cluster::LoadBalancer;
use identity_core::cluster::NetworkPolicyManager;
use identity_core::cluster::SelfHealingSystem;
use identity_core::config::ConfigManager;
use identity_core::content::CDNCache;
use identity_core::crypto::generate_rotation_key;
use identity_core::crypto::generate_secure_session_id;
use identity_core::crypto::generate_totp;
use identity_core::crypto::secure_random_256;
use identity_core::crypto::sha256;
use identity_core::crypto::sha256_hash;
use identity_core::crypto::verify_totp;
use identity_core::guard::MemoryProtection;
use identity_core::guard::ProcessMonitor;
use identity_core::guard::SyscallInterceptor;
use identity_core::guard::SyscallMonitor;
use identity_core::guard::ZeroTrustSecurity;
use identity_core::headers::BrowserSecurityPolicies;
use identity_core::headers::SecurityHeaders;
use identity_core::hex::hex_decode;
use identity_core::hex::hex_encode;
use identity_core::inspect::check_suspicious_patterns;
use identity_core::inspect::deep_packet_inspection;
use identity_core::inspect::deep_request_inspection;
use identity_core::inspect::detect_buffer_overflow;
use identity_core::inspect::validate_jwt;
use identity_core::inspect::vulnerable_signatures;
use identity_core::scrape::extract_result_count;
use identity_core::scrape::extract_title;
use identity_core::ui::PwaCache;
use identity_core::ui::SecureLocalStorage;
use identity_core::ui::UIState;
use identity_core::ui::WebPushNotifications;

#[test]
fn sha256_digest_matches_known_value() {
    let digest = sha256(b"abc");
    assert_eq!(
        hex_encode(&digest),
        "ba7816bf8f01cfea414140de5dae2223b00361a396177a9cb410ff61f20015ad"
    );
    assert_eq!(sha256_hash("abc"), hex_encode(&digest));
}

#[test]
fn hex_round_trip_and_strictness() {
    let bytes = vec![0u8, 15, 16, 255, 100];
    let encoded = hex_encode(&bytes);
    assert_eq!(encoded, "000f10ff64");
    assert_eq!(hex_decode(&encoded).unwrap(), bytes);
    assert!(hex_decode("abc").is_none());
    assert!(hex_decode("AB").is_none());
    assert!(hex_decode("zz").is_none());
    assert_eq!(hex_decode("").unwrap(), Vec::<u8>::new());
}

#[test]
fn random_material_has_the_documented_sizes() {
    assert_eq!(secure_random_256().len(), 32);
    let sid = generate_secure_session_id();
    assert_eq!(sid.len(), 64);
    assert!(sid.chars().all(|c| c.is_ascii_hexdigit()));
}

#[test]
fn rotation_key_is_the_digest_of_the_instant() {
    let key = generate_rotation_key(12345);
    assert_eq!(key, sha256(b"12345"));
}

#[test]
fn totp_round_trip_and_mismatch() {
    let secret = b"super_secure_mfa_secret";
    let code = generate_totp(secret, 59);
    assert_eq!(code.len(), 6);
    assert!(code.chars().all(|c| c.is_ascii_digit()));
    assert!(verify_totp(secret, 59, &code));
    assert!(!verify_totp(secret, 59, "000000") || code == "000000");
    // the same 30-second step yields the same code
    assert_eq!(generate_totp(secret, 31), generate_totp(secret, 59));
}

#[test]
fn dpi_flags_threats_and_passes_clean_traffic() {
    assert!(deep_packet_inspection(b"GET /index.html HTTP/1.1"));
    assert!(!deep_packet_inspection(b"x'; DROP TABLE users; --"));
    assert!(!deep_packet_inspection(b"<script>alert(1)</script>"));
    assert!(!deep_packet_inspection(b"GET /../../etc/passwd"));
    assert!(!deep_packet_inspection(b"run chmod 777 /tmp"));
}

#[test]
fn suspicious_patterns_name_the_first_match() {
    assert_eq!(check_suspicious_patterns(b"hello world"), None);
    assert_eq!(
        check_suspicious_patterns(b"run cmd.exe now"),
        Some("Possible command injection attempt detected")
    );
    assert_eq!(
        check_suspicious_patterns(b"exec /bin/sh -c id"),
        Some("Possible Unix shell invocation detected")
    );
}

#[test]
fn signature_table_holds_the_three_probes() {
    let sigs = vulnerable_signatures();
    assert_eq!(sigs.len(), 3);
    assert_eq!(sigs[0].0, vec![0xff, 0xe4]);
    assert_eq!(sigs[2].1, "syscall - Linux 64-bit syscall");
}

#[test]
fn jwt_placeholder_compares_exactly() {
    assert!(validate_jwt("sekrit", "sekrit"));
    assert!(!validate_jwt("sekrit ", "sekrit"));
}

#[test]
fn canary_detection() {
    assert!(detect_buffer_overflow(&[1, 2, 3, 0xAA], 0xAA));
    assert!(!detect_buffer_overflow(&[1, 2, 3, 0x00], 0xAA));
    assert!(!detect_buffer_overflow(&[], 0xAA));
}

#[test]
fn config_store_round_trip() {
    let mut cfg = ConfigManager::new();
    assert!(cfg.get_config("DATABASE_URL").is_none());
    cfg.set_config("DATABASE_URL", "postgres://localhost");
    cfg.set_config("MAX_CONNECTIONS", "100");
    assert_eq!(cfg.get_config("DATABASE_URL").unwrap(), "postgres://localhost");
    cfg.set_config("MAX_CONNECTIONS", "200");
    assert_eq!(cfg.get_config("MAX_CONNECTIONS").unwrap(), "200");
}

#[test]
fn cdn_cache_serves_fresh_and_drops_stale() {
    let mut cache = CDNCache::new();
    cache.cache_asset("/logo.png", b"bytes", 100);
    assert_eq!(cache.get_asset("/logo.png", 150).unwrap(), b"bytes".to_vec());
    // the time-to-live has elapsed: the entry is dropped
    assert!(cache.get_asset("/logo.png", 500).is_none());
    assert!(cache.get_asset("/logo.png", 150).is_none());
}

#[test]
fn ui_state_updates_and_reads_back() {
    let mut ui = UIState::new();
    ui.update_component("navbar", "expanded");
    assert_eq!(ui.get_component_state("navbar").unwrap(), "expanded");
    ui.update_component("navbar", "collapsed");
    assert_eq!(ui.get_component_state("navbar").unwrap(), "collapsed");
    assert!(ui.get_component_state("footer").is_none());
}

#[test]
fn pwa_cache_and_local_storage() {
    let mut cache = PwaCache::new();
    assert!(cache.cache_asset("/app.js", b"console"));
    assert_eq!(cache.get_asset("/app.js").unwrap(), b"console".to_vec());
    let mut storage = SecureLocalStorage::new();
    storage.store_data("user_session", "session_token_abc123");
    assert_eq!(
        storage.retrieve_data("user_session").unwrap(),
        "session_token_abc123"
    );
    let mut push = WebPushNotifications::new();
    push.register_device("device-1", "key-1");
    assert_eq!(push.device_key("device-1").unwrap(), "key-1");
}

#[test]
fn security_headers_apply_over_a_response() {
    let headers = SecurityHeaders::new();
    let mut response = identity_core::kvmap::StrMap::<String>::new();
    headers.apply_headers(&mut response);
    assert_eq!(response.get("X-Frame-Options").unwrap(), "DENY");
    assert_eq!(response.get("X-Content-Type-Options").unwrap(), "nosniff");
    assert_eq!(
        response.get("Strict-Transport-Security").unwrap(),
        "max-age=31536000; includeSubDomains; preload"
    );
}

#[test]
fn csrf_tokens_round_trip() {
    let mut policies = BrowserSecurityPolicies::new();
    let token = policies.generate_csrf_token("session_abc123", 777);
    assert_eq!(token, "csrf-session_abc123-777");
    assert!(policies.validate_csrf_token("session_abc123", &token));
    assert!(!policies.validate_csrf_token("session_abc123", "csrf-session_abc123-778"));
    assert!(!policies.validate_csrf_token("other", &token));
}

#[test]
fn fingerprinting_mitigation_overrides_headers() {
    let mut headers = identity_core::kvmap::StrMap::<String>::new();
    headers.insert("User-Agent", "Mozilla/5.0 (X11; Linux x86_64)".to_owned());
    identity_core::headers::mitigate_fingerprinting(&mut headers);
    assert_eq!(
        headers.get("User-Agent").unwrap(),
        "Mozilla/5.0 (privacy-enforced)"
    );
    assert_eq!(headers.get("Accept-Language").unwrap(), "en-US");
}

#[test]
fn load_balancer_round_robin() {
    let mut lb = LoadBalancer::new();
    assert!(lb.get_next_service().is_none());
    lb.register_service("a");
    lb.register_service("b");
    lb.register_service("a");
    assert_eq!(lb.get_next_service().unwrap(), "a");
    assert_eq!(lb.get_next_service().unwrap(), "b");
    assert_eq!(lb.get_next_service().unwrap(), "a");
}

#[test]
fn network_policy_authentication() {
    let mut npm = NetworkPolicyManager::new();
    npm.register_service("billing", "key-123");
    assert!(npm.validate_authentication("billing", "key-123"));
    assert!(!npm.validate_authentication("billing", "key-999"));
    assert!(!npm.validate_authentication("unknown", "key-123"));
}

#[test]
fn intrusion_detection_counts_and_blocks() {
    let mut ids = IntrusionDetectionSystem::new();
    ids.log_traffic("10.0.0.1");
    ids.log_traffic("10.0.0.1");
    assert!(!ids.is_blocked("10.0.0.1"));
    ids.block_ip("10.0.0.1");
    assert!(ids.is_blocked("10.0.0.1"));
    assert!(!ids.is_blocked("10.0.0.2"));
}

#[test]
fn self_healing_restart_budget() {
    let mut healer = SelfHealingSystem::new();
    healer.register_service("webserver", "serve --port 80");
    assert_eq!(healer.restart_plan("webserver").unwrap(), "serve --port 80");
    healer.record_restart("webserver");
    healer.record_restart("webserver");
    healer.record_restart("webserver");
    assert!(healer.restart_plan("webserver").is_none());
    assert!(healer.restart_plan("unknown").is_none());
}

#[test]
fn load_prediction_is_the_floor_average() {
    assert_eq!(predict_load(&[2, 4, 6]), 4);
    assert_eq!(predict_load(&[1, 2]), 1);
    assert_eq!(predict_load(&[u64::MAX, u64::MAX]), u64::MAX);
}

#[test]
fn memory_guard_detects_tampering() {
    let mut guard = MemoryProtection::new();
    guard.store_memory_snapshot("daemon", &[0u8; 16]);
    assert!(!guard.detect_memory_tampering("daemon", &[0u8; 16]));
    assert!(guard.detect_memory_tampering("daemon", &[255u8; 16]));
    assert!(!guard.detect_memory_tampering("unmonitored", &[255u8; 16]));
    guard.authorize_process("daemon");
    assert!(guard.enforce_memory_access_control("daemon"));
    assert!(!guard.enforce_memory_access_control("stranger"));
}

#[test]
fn syscall_policies_fail_closed() {
    let zt = ZeroTrustSecurity::new();
    assert!(!zt.enforce_policy("ptrace"));
    assert!(zt.enforce_policy("read"));
    assert!(zt.prevent_privilege_escalation("sshd"));
    assert!(!zt.prevent_privilege_escalation("suspicious_binary"));
    let interceptor = SyscallInterceptor::new();
    assert!(!interceptor.enforce_syscall_policies("execve"));
    assert!(interceptor.enforce_syscall_policies("open"));
    let pm = ProcessMonitor::new();
    assert!(!pm.enforce_execution_policies("keylogger"));
    assert!(pm.enforce_execution_policies("editor"));
}

#[test]
fn syscall_monitor_counts_calls() {
    let mut mon = SyscallMonitor::new();
    mon.log_syscall("editor");
    mon.log_syscall("editor");
    let _ = mon.timestamp();
    let mut icp = SyscallInterceptor::new();
    icp.log_syscall("editor");
    let _ = icp.timestamp();
}

#[test]
fn html_escaping_neutralizes_metacharacters() {
    let renderer = identity_core::render::HTMLRenderer::new();
    assert_eq!(
        renderer.escape_html("<b>\"Tom & Jerry's\"</b>"),
        "&lt;b&gt;&quot;Tom &amp; Jerry&#39;s&quot;&lt;/b&gt;"
    );
    assert_eq!(renderer.escape_html("plain"), "plain");
}

#[test]
fn templates_render_with_escaped_variables() {
    let mut renderer = identity_core::render::HTMLRenderer::new();
    renderer.register_template("welcome", "<h1>Welcome, {{username}}!</h1>");
    let mut variables = identity_core::kvmap::StrMap::<String>::new();
    variables.insert("username", "Alice & Bob".to_owned());
    assert_eq!(
        renderer.render("welcome", &variables).unwrap(),
        "<h1>Welcome, Alice &amp; Bob!</h1>"
    );
    assert!(renderer.render("missing", &variables).is_none());
    let mut engine = identity_core::render::TemplatingEngine::new();
    engine.register_template("greet", "hi {{who}}");
    let mut vars = identity_core::kvmap::StrMap::<String>::new();
    vars.insert("who", "<you>".to_owned());
    assert_eq!(engine.render("greet", &vars).unwrap(), "hi &lt;you&gt;");
}

#[test]
fn wav_header_layout() {
    let header = identity_core::audio::write_wav_header(1000);
    assert_eq!(header.len(), 44);
    assert_eq!(&header[..4], b"RIFF");
    assert_eq!(&header[8..16], b"WAVEfmt ");
    assert_eq!(&header[36..40], b"data");
    assert_eq!(u32::from_le_bytes([header[4], header[5], header[6], header[7]]), 1036);
    assert_eq!(u32::from_le_bytes([header[40], header[41], header[42], header[43]]), 1000);
}

#[test]
fn phoneme_table_seeds_two_words() {
    let phonemes = identity_core::audio::phoneme_library();
    assert!(phonemes.get("hello").is_some());
    assert!(phonemes.get("world").is_some());
    assert!(phonemes.get("silence").is_none());
}

#[test]
fn title_extraction_trims_and_needs_both_tags() {
    assert_eq!(
        extract_title("<html><title>  Hello World </title></html>").unwrap(),
        "Hello World"
    );
    assert_eq!(extract_title("<title>a</title><title>b</title>").unwrap(), "a");
    assert!(extract_title("<title>unterminated").is_none());
    assert!(extract_title("no tags at all").is_none());
}

#[test]
fn result_count_parses_with_thousands_separators() {
    assert_eq!(
        extract_result_count("About 1,230,000 results (0.42 seconds)"),
        Some(1_230_000)
    );
    assert_eq!(extract_result_count("About 7 results"), Some(7));
    assert_eq!(extract_result_count("About seven results"), None);
    assert_eq!(extract_result_count("nothing to see"), None);
}

#[test]
fn request_inspection_is_laxer_than_the_firewall() {
    assert!(deep_request_inspection(b"GET /index.html HTTP/1.1"));
    assert!(!deep_request_inspection(b"x'; DROP TABLE users; --"));
    assert!(!deep_request_inspection(b"<script>alert(1)</script>"));
    // three directory levels trip the request filter, two do not
    assert!(!deep_request_inspection(b"GET /../../../etc/passwd"));
    assert!(deep_request_inspection(b"GET /../../static/a.css"));
    assert!(!deep_packet_inspection(b"GET /../../static/a.css"));
    // permission probes are the firewall's concern, not the request filter's
    assert!(deep_request_inspection(b"run chmod 777 /tmp"));
    assert!(!deep_packet_inspection(b"run chmod 777 /tmp"));
}

#[test]
fn signed_permission_tokens_round_trip() {
    let key = secure_random_256();
    let token = generate_signed_token("user123", "user", &key);
    assert!(token.starts_with("user123:user."));
    assert!(verify_signed_token(&token, &key));
    assert!(!verify_signed_token(&token, &[9, 9, 9]));
    let tampered = token.replace("user123", "user124");
    assert!(!verify_signed_token(&tampered, &key));
    assert!(!verify_signed_token("no signature here", &key));
}

#[test]
fn text_to_audio_concatenates_known_words() {
    let mut library = identity_core::kvmap::StrMap::<Vec<u8>>::new();
    library.insert("hello", vec![1, 2]);
    library.insert("world", vec![3]);
    assert_eq!(text_to_audio("hello world", &library), vec![1, 2, 3]);
    assert_eq!(text_to_audio("  hello   hum world hello ", &library), vec![1, 2, 3, 1, 2]);
    assert_eq!(text_to_audio("silence only", &library), Vec::<u8>::new());
    assert_eq!(text_to_audio("", &library), Vec::<u8>::new());
}

#[test]
fn config_lines_split_at_the_first_equals() {
    let kv = parse_config_line("DATABASE_URL = postgres://localhost ").unwrap();
    assert_eq!(kv.0, "DATABASE_URL");
    assert_eq!(kv.1, "postgres://localhost");
    let kv = parse_config_line("a=b=c").unwrap();
    assert_eq!(kv.0, "a");
    assert_eq!(kv.1, "b=c");
    assert!(parse_config_line("no setting here").is_none());
    let kv = parse_config_line("empty=").unwrap();
    assert_eq!(kv.1, "");
}
