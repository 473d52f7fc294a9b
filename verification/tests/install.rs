//! URL and slug hardening coverage.

use tinyskills::document::{load_document, split_tool_list};
use tinyskills::install::{
    bare_host, check_lookup, check_resolved, derive_install_slug, dns_target, github_candidate,
    is_loopback_http_url, is_non_global_v4, is_non_global_v6, is_private_or_local_host,
    normalize_install_url, validate_install_url, IpAddress, ParsedUrl, MAX_INSTALL_URL_LEN,
};
use tinyskills::model::{MetaValue, SkillFrontmatter};

#[test]
fn normalizes_supported_urls_and_rejects_non_documents() {
    assert_eq!(
        normalize_install_url("https://github.com/o/r/blob/main/path/SKILL.md"),
        Ok("https://raw.githubusercontent.com/o/r/main/path/SKILL.md".to_owned())
    );
    assert_eq!(
        normalize_install_url("https://example.com/SKILL.MD?raw=1"),
        Ok("https://example.com/SKILL.MD?raw=1".to_owned())
    );
    for url in [
        "not a url",
        "https://github.com/o/r",
        "https://github.com/o/r/tree/main/path",
        "https://github.com/o/r/raw/main/path",
        "https://example.com/archive.zip",
    ] {
        assert!(normalize_install_url(url).is_err(), "{url}");
    }
}

fn named(name: &str) -> SkillFrontmatter {
    let mut f = SkillFrontmatter::empty();
    f.name = name.to_owned();
    f
}

#[test]
fn derives_bounded_slugs_from_id_or_name() {
    let mut frontmatter = named("Display Name");
    frontmatter.metadata = vec![("id".to_owned(), MetaValue::Text("Stable ID".to_owned()))];
    assert_eq!(derive_install_slug(&frontmatter), Ok("stable-id".to_owned()));
    assert!(derive_install_slug(&SkillFrontmatter::empty()).is_err());
    assert!(derive_install_slug(&named(&"x".repeat(65))).is_err());
    assert_eq!(derive_install_slug(&named(" --A  B-- ")), Ok("a-b".into()));
}

#[test]
fn validates_scheme_length_and_literal_host_safety() {
    assert!(validate_install_url("", false).is_err());
    assert!(
        validate_install_url(&format!("https://example.com/{}", "x".repeat(MAX_INSTALL_URL_LEN)), false)
            .is_err()
    );
    assert!(validate_install_url("not a url", false).is_err());
    assert!(validate_install_url("ftp://example.com/SKILL.md", false).is_err());
    assert!(validate_install_url("http://localhost/SKILL.md", false).is_err());
    assert!(validate_install_url("http://localhost/SKILL.md", true).is_ok());
    assert!(validate_install_url("https://127.0.0.1/SKILL.md", false).is_err());
    assert!(validate_install_url("https://example.com/SKILL.md", false).is_ok());
}

#[test]
fn classifies_local_hosts_and_loopback_http_exactly() {
    for host in [
        "localhost",
        "LOCALHOST.",
        "sub.localhost",
        "device.local",
        "127.0.0.1",
        "10.0.0.1",
        "169.254.1.1",
        "100.64.0.1",
        "198.51.100.1",
        "[::1]",
        "fd00::1",
        "fe80::1",
        "ff02::1",
        "::ffff:127.0.0.1",
    ] {
        assert!(is_private_or_local_host(host), "{host}");
    }
    for host in ["example.com", "8.8.8.8", "2606:4700:4700::1111"] {
        assert!(!is_private_or_local_host(host), "{host}");
    }
    assert!(is_loopback_http_url("http://127.0.0.1/a"));
    assert!(is_loopback_http_url("http://[::1]/a"));
    assert!(!is_loopback_http_url("https://localhost/a"));
    assert!(!is_loopback_http_url("http://127.0.0.2/a"));
    assert!(!is_loopback_http_url("bad"));
}

#[test]
fn url_error_messages_are_exact() {
    assert_eq!(validate_install_url("   ", false), Err("url must not be empty".to_owned()));
    assert_eq!(
        validate_install_url("ftp://example.com/SKILL.md", false),
        Err("url scheme \"ftp\" not allowed; https only".to_owned())
    );
    assert_eq!(
        validate_install_url(" https://127.0.0.1/SKILL.md ", false),
        Err("host \"127.0.0.1\" not allowed (loopback/private/link-local/multicast)".to_owned())
    );
    let long = format!("https://example.com/{}", "x".repeat(MAX_INSTALL_URL_LEN));
    assert_eq!(
        validate_install_url(&long, false),
        Err(format!("url exceeds max 2048 chars (got {})", long.len()))
    );
    assert_eq!(
        normalize_install_url("https://github.com/o/r"),
        Err("unsupported url form: only direct SKILL.md links are supported, got \"https://github.com/o/r\" (whole-repo URLs are not yet supported)".to_owned())
    );
    assert_eq!(
        normalize_install_url("https://example.com/archive.zip"),
        Err("unsupported url form: path must end in .md, got \"https://example.com/archive.zip\"".to_owned())
    );
    assert_eq!(
        derive_install_slug(&named(&"x".repeat(65))),
        Err(format!("invalid SKILL.md: derived slug \"{}\" exceeds 64 chars", "x".repeat(65)))
    );
}

fn parsed(host: &str, path: &str) -> ParsedUrl {
    ParsedUrl {
        scheme: "https".to_owned(),
        host: Some(host.to_owned()),
        ipv6_host: false,
        path: path.to_owned(),
        port: None,
    }
}

#[test]
fn github_candidates_follow_the_path_segments() {
    let raw = "https://GitHub.com/o/r/blob/main/a/b/SKILL.md";
    assert_eq!(
        github_candidate(raw, &parsed("GitHub.com", "/o/r/blob/main/a/b/SKILL.md")),
        Ok("https://raw.githubusercontent.com/o/r/main/a/b/SKILL.md".to_owned())
    );
    assert_eq!(
        github_candidate("u", &parsed("github.com", "/o/r/issues/1")),
        Ok("u".to_owned())
    );
    assert!(github_candidate("u", &parsed("github.com", "/o/r/tree/x")).is_err());
    assert!(github_candidate("u", &parsed("github.com", "/o")).is_err());
    assert_eq!(github_candidate("u", &parsed("example.com", "/o")), Ok("u".to_owned()));
}

#[test]
fn address_classes_match_the_reserved_ranges() {
    assert!(is_non_global_v4([127, 0, 0, 1]));
    assert!(is_non_global_v4([172, 31, 255, 255]));
    assert!(!is_non_global_v4([172, 32, 0, 0]));
    assert!(is_non_global_v4([198, 19, 0, 1]));
    assert!(!is_non_global_v4([1, 1, 1, 1]));
    assert!(is_non_global_v4([255, 255, 255, 255]));
    assert!(is_non_global_v6([0, 0, 0, 0, 0, 0, 0, 1]));
    assert!(is_non_global_v6([0x2001, 0x0db8, 0, 0, 0, 0, 0, 1]));
    assert!(is_non_global_v6([0, 0, 0, 0, 0, 0xffff, 0x0a00, 0x0001]));
    assert!(!is_non_global_v6([0, 0, 0, 0, 0, 0xffff, 0x0808, 0x0808]));
    assert!(!is_non_global_v6([0x2606, 0x4700, 0x4700, 0, 0, 0, 0, 0x1111]));
    assert_eq!(bare_host("[::1]"), vec![':', ':', '1']);
    assert_eq!(bare_host("Example.COM."), "Example.COM".chars().collect::<Vec<_>>());
}

#[test]
fn dns_guard_rejects_invalid_and_loopback_targets() {
    assert!(dns_target("not a url").is_err());
    let (host, target) = dns_target("https://127.0.0.1/SKILL.md").expect("target");
    assert_eq!(host, "127.0.0.1");
    assert_eq!(target, "127.0.0.1:443");
    assert!(check_resolved(&host, &[IpAddress::V4([127, 0, 0, 1])]).is_err());
    let (host, target) = dns_target("https://[::1]:8443/SKILL.md").expect("target");
    assert_eq!(host, "[::1]");
    assert_eq!(target, "[[::1]]:8443");
    assert!(check_resolved(&host, &[IpAddress::V6([0, 0, 0, 0, 0, 0, 0, 1])]).is_err());
    assert_eq!(
        check_resolved("example.com", &[]),
        Err("host \"example.com\" resolved to no IP addresses".to_owned())
    );
    assert_eq!(
        check_resolved("example.com", &[IpAddress::V4([8, 8, 8, 8]), IpAddress::V4([10, 1, 2, 3])]),
        Err("host \"example.com\" resolved to non-public IP 10.1.2.3 (loopback/private/link-local)".to_owned())
    );
    assert!(check_resolved("example.com", &[IpAddress::V4([8, 8, 8, 8])]).is_ok());
    assert_eq!(dns_target("http://example.com/x").map(|t| t.1), Ok("example.com:80".to_owned()));
}

#[test]
fn lookup_failures_and_answers_are_judged() {
    assert_eq!(
        check_lookup("example.com", Err("no such host".to_owned())),
        Err("dns lookup failed for \"example.com\": no such host".to_owned())
    );
    assert_eq!(
        check_lookup("example.com", Ok(Vec::new())),
        Err("host \"example.com\" resolved to no IP addresses".to_owned())
    );
    assert_eq!(
        check_lookup("example.com", Ok(vec![IpAddress::V6([0xfe80, 0, 0, 0, 0, 0, 0, 1])])),
        Err("host \"example.com\" resolved to non-public IP fe80::1 (loopback/private/link-local)"
            .to_owned())
    );
    assert!(check_lookup("example.com", Ok(vec![IpAddress::V4([1, 1, 1, 1])])).is_ok());
}

#[test]
fn scalar_tool_lists_split_on_commas() {
    assert_eq!(split_tool_list("Bash, Read"), ["Bash", "Read"]);
    assert_eq!(split_tool_list(" , a ,, b ,"), ["a", "b"]);
    assert!(split_tool_list("").is_empty());
    let f = SkillFrontmatter::empty();
    let s = load_document(Some((f, String::new(), Vec::new())), "d/SKILL.md", "d", Vec::new(), Default::default());
    assert!(s.tools.is_empty());
}
