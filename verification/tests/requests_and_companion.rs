use lumasift::companion::{
    companion_access, companion_route, companion_token, eq_ignore_ascii_case, is_authorized, new_companion_access,
    redact_companion_value, snake_case_key, CompanionRoute, JsonValue, RequestMethod, NOT_CONFIGURED,
};
use lumasift::digest::{sample_hash, sample_plan, FullHash, SAMPLE_BYTES};
use lumasift::model::{NasConnectRequest, ScanRequest, SelectionType};
use lumasift::request::{
    check_nas_credentials, check_purge_confirmation, connect_nas, connect_nas_source, nas_status, validate_request,
    wide, BLANK_SOURCE, NAS_CREDENTIALS_REQUIRED, NAS_NOT_UNC, NO_CATEGORIES, NO_SOURCES, PURGE_REFUSED,
};
use lumasift::text::{decimal_string, hex_string, str_eq};

fn request(sources: &[&str], selected: &[SelectionType]) -> ScanRequest {
    ScanRequest { sources: sources.iter().map(|s| s.to_string()).collect(), selected_types: selected.to_vec() }
}

fn nas(unc: &str, user: &str, password: &str, remember: bool) -> NasConnectRequest {
    NasConnectRequest {
        unc_path: unc.to_string(),
        username: user.to_string(),
        password: password.to_string(),
        remember_connection: remember,
    }
}

#[test]
fn validate_request_accepts_a_complete_request() {
    assert_eq!(validate_request(&request(&["C:\\Media"], &[SelectionType::Video])), Ok(()));
}

#[test]
fn validate_request_reports_each_error_in_order() {
    assert_eq!(validate_request(&request(&[], &[])), Err(NO_SOURCES.to_string()));
    assert_eq!(validate_request(&request(&["C:\\Media"], &[])), Err(NO_CATEGORIES.to_string()));
    assert_eq!(validate_request(&request(&["C:\\Media", "  \t"], &[SelectionType::Audio])), Err(BLANK_SOURCE.to_string()));
}

#[test]
fn wide_strings_end_in_nul() {
    assert_eq!(wide("AB"), vec![65, 66, 0]);
    assert_eq!(wide(""), vec![0]);
    assert_eq!(wide("\u{1F600}"), vec![0xD83D, 0xDE00, 0]);
    assert_eq!(wide("é"), vec![0xE9, 0]);
}

#[test]
fn nas_connection_needs_credentials_and_a_unc_path() {
    assert_eq!(check_nas_credentials(&nas("\\\\nas\\share", "  ", "pw", false)), Err(NAS_CREDENTIALS_REQUIRED.to_string()));
    assert_eq!(check_nas_credentials(&nas("\\\\nas\\share", "owner", "", false)), Err(NAS_CREDENTIALS_REQUIRED.to_string()));
    assert_eq!(connect_nas(&nas("C:\\share", "owner", "pw", false)).err(), Some(NAS_NOT_UNC.to_string()));
    let connection = connect_nas_source(&nas("\\\\nas\\share", "owner", "pw", true)).unwrap();
    assert_eq!(connection.remote, wide("\\\\nas\\share"));
    assert_eq!(connection.username, wide("owner"));
    assert_eq!(connection.password, wide("pw"));
    assert!(connection.update_profile);
    assert_eq!(connect_nas_source(&nas("nas/share", "", "", false)).err(), Some(NAS_CREDENTIALS_REQUIRED.to_string()));
}

#[test]
fn nas_status_names_the_windows_error() {
    assert_eq!(nas_status(0), Ok(()));
    assert_eq!(nas_status(1326), Err("Windows could not connect the NAS source (error 1326).".to_string()));
}

#[test]
fn purge_requires_the_exact_confirmation() {
    assert_eq!(check_purge_confirmation("ERASE LUMASIFT QUARANTINE"), Ok(()));
    assert_eq!(check_purge_confirmation("  ERASE LUMASIFT QUARANTINE\n"), Ok(()));
    assert_eq!(check_purge_confirmation("erase lumasift quarantine"), Err(PURGE_REFUSED.to_string()));
    assert_eq!(check_purge_confirmation(""), Err(PURGE_REFUSED.to_string()));
}

#[test]
fn text_rendering() {
    assert_eq!(decimal_string(0), "0");
    assert_eq!(decimal_string(18446744073709551615), "18446744073709551615");
    assert_eq!(hex_string(&[0x00, 0xab, 0x10, 0xff]), "00ab10ff");
    assert!(str_eq("same", "same"));
    assert!(!str_eq("same", "Same"));
}

#[test]
fn full_hash_is_sha256_in_hex() {
    let mut h = FullHash::new();
    h.absorb(b"ab");
    h.absorb(b"c");
    assert_eq!(h.finish(), "ba7816bf8f01cfea414140de5dae2223b00361a396177a9cb410ff61f20015ad");
    assert_eq!(FullHash::new().finish(), "e3b0c44298fc1c149afbf4c8996fb92427ae41e4649b934ca495991b7852b855");
}

#[test]
fn sampled_digests_of_equal_content_are_equal() {
    let content = b"lumasift exact content";
    let size = content.len() as u64;
    let first = sample_hash(size, content, &[]);
    let second = sample_hash(size, content, &[]);
    assert_eq!(first, second);
    assert_eq!(first.len(), 64);
    assert_ne!(first, sample_hash(size + 1, content, &[]));
    assert_ne!(first, sample_hash(size, b"lumasift other content", &[]));
}

#[test]
fn sample_plan_reads_both_ends_of_long_files() {
    let small = sample_plan(10);
    assert_eq!(small.head_len, 10);
    assert_eq!(small.tail_offset, None);
    let exact = sample_plan(SAMPLE_BYTES as u64);
    assert_eq!(exact.head_len, SAMPLE_BYTES as u64);
    assert_eq!(exact.tail_offset, None);
    let long = sample_plan(3 * SAMPLE_BYTES as u64);
    assert_eq!(long.head_len, SAMPLE_BYTES as u64);
    assert_eq!(long.tail_offset, Some(2 * SAMPLE_BYTES as u64));
}

#[test]
fn snake_case_keys() {
    assert_eq!(snake_case_key("filePath"), "file_path");
    assert_eq!(snake_case_key("queuedFileCount"), "queued_file_count");
    assert_eq!(snake_case_key("ABC"), "a_b_c");
    assert_eq!(snake_case_key("status"), "status");
    assert_eq!(snake_case_key(""), "");
}

fn text(s: &str) -> JsonValue {
    JsonValue::Text(s.to_string())
}

#[test]
fn redaction_drops_paths_and_renames_keys() {
    let candidate = JsonValue::Object(vec![
        ("filePath".to_string(), text("C:\\Media\\a.mp4")),
        ("displayName".to_string(), text("a.mp4")),
        ("quarantinePath".to_string(), JsonValue::Null),
    ]);
    let value = JsonValue::Object(vec![
        ("currentPath".to_string(), text("C:\\Media")),
        ("queuedFileCount".to_string(), JsonValue::Bool(true)),
        ("candidates".to_string(), JsonValue::Array(vec![candidate, JsonValue::Null])),
    ]);
    match redact_companion_value(value) {
        JsonValue::Object(entries) => {
            assert_eq!(entries.len(), 2);
            assert_eq!(entries[0].0, "queued_file_count");
            assert!(matches!(entries[0].1, JsonValue::Bool(true)));
            assert_eq!(entries[1].0, "candidates");
            match &entries[1].1 {
                JsonValue::Array(items) => {
                    assert_eq!(items.len(), 2);
                    match &items[0] {
                        JsonValue::Object(inner) => {
                            assert_eq!(inner.len(), 1);
                            assert_eq!(inner[0].0, "display_name");
                            assert!(matches!(&inner[0].1, JsonValue::Text(t) if t == "a.mp4"));
                        }
                        other => panic!("unexpected {:?}", other),
                    }
                    assert!(matches!(items[1], JsonValue::Null));
                }
                other => panic!("unexpected {:?}", other),
            }
        }
        other => panic!("unexpected {:?}", other),
    }
}

#[test]
fn redaction_keeps_scalars() {
    assert!(matches!(redact_companion_value(text("filePath")), JsonValue::Text(t) if t == "filePath"));
    assert!(matches!(redact_companion_value(JsonValue::Bool(false)), JsonValue::Bool(false)));
}

fn headers(pairs: &[(&str, &str)]) -> Vec<(String, String)> {
    pairs.iter().map(|(n, v)| (n.to_string(), v.to_string())).collect()
}

#[test]
fn authorization_needs_the_bearer_token() {
    assert!(is_authorized(&headers(&[("Authorization", "Bearer tok")]), "tok"));
    assert!(is_authorized(&headers(&[("Host", "x"), ("authorization", "Bearer tok")]), "tok"));
    assert!(!is_authorized(&headers(&[("Authorization", "bearer tok")]), "tok"));
    assert!(!is_authorized(&headers(&[("Authorization", "Bearer other")]), "tok"));
    assert!(!is_authorized(&headers(&[("X-Authorization", "Bearer tok")]), "tok"));
    assert!(!is_authorized(&headers(&[]), "tok"));
}

#[test]
fn ascii_case_comparison() {
    assert!(eq_ignore_ascii_case("Content-Type", "content-type"));
    assert!(!eq_ignore_ascii_case("Content-Type", "content_type"));
    assert!(!eq_ignore_ascii_case("É", "é"));
}

#[test]
fn companion_routes() {
    assert_eq!(companion_route(RequestMethod::Get, "/api/lumasift/status"), CompanionRoute::Status);
    assert_eq!(companion_route(RequestMethod::Get, "/api/lumasift/plan"), CompanionRoute::Plan);
    assert_eq!(companion_route(RequestMethod::Post, "/api/lumasift/start"), CompanionRoute::Start);
    assert_eq!(companion_route(RequestMethod::Post, "/api/lumasift/plan/apply"), CompanionRoute::Apply);
    assert_eq!(companion_route(RequestMethod::Post, "/api/lumasift/status"), CompanionRoute::NotFound);
    assert_eq!(companion_route(RequestMethod::Other, "/api/lumasift/plan"), CompanionRoute::NotFound);
    assert_eq!(companion_route(RequestMethod::Get, "/api/lumasift/plan?x=1"), CompanionRoute::NotFound);
}

#[test]
fn companion_token_reuses_a_stored_token() {
    assert_eq!(companion_token(Some("  stored-token \n"), 1), ("stored-token".to_string(), false));
    let (fresh, store) = companion_token(Some("   "), 1);
    assert!(store);
    assert_eq!(fresh.len(), 36);
    let (other, store_again) = companion_token(None, 2);
    assert!(store_again);
    assert_ne!(fresh, other);
    assert_eq!(fresh, "00000000-0000-4000-8000-000000000001");
}

#[test]
fn companion_access_requires_configuration() {
    assert_eq!(companion_access(&None).err(), Some(NOT_CONFIGURED.to_string()));
    let access = new_companion_access("tok".to_string());
    assert_eq!(access.local_url, "http://127.0.0.1:7417");
    let copy = companion_access(&Some(access)).unwrap();
    assert_eq!(copy.access_token, "tok");
    assert!(copy.tls_notice.starts_with("Expose this local service"));
}

#[test]
fn trimming_removes_unicode_white_space_only_at_the_ends() {
    assert_eq!(lumasift::text::trim_str("\u{3000} a b \u{85}\t"), "a b");
    assert_eq!(lumasift::text::trim_str("   "), "");
    assert_eq!(lumasift::text::trim_str("x"), "x");
    assert_eq!(lumasift::text::trim_str("\u{200B}x"), "\u{200B}x");
}

#[test]
fn ids_are_version_four_uuid_texts() {
    assert_eq!(lumasift::runtime::new_id(0x0123456789abcdef0123456789abcdef), "01234567-89ab-4def-8123-456789abcdef");
    assert_eq!(lumasift::runtime::new_id(u128::MAX), "ffffffff-ffff-4fff-bfff-ffffffffffff");
}
