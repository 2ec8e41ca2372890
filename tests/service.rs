use pkagent::api::{api_base_url, contains, is_version_error, retry_delay};
use pkagent::system::get_linux_distribution;
use pkagent::update::{find_platform_asset, is_newer_version, GitHubAsset, GitHubRelease};

fn asset(name: &str, size: u64) -> GitHubAsset {
    GitHubAsset {
        name: name.to_string(),
        browser_download_url: format!("https://example.invalid/{}", name),
        size,
        content_type: "application/octet-stream".to_string(),
    }
}

#[test]
fn version_comparison() {
    assert!(is_newer_version("1.0.0", "1.0.1"));
    assert!(is_newer_version("v1.2.3", "v1.10.0"));
    assert!(!is_newer_version("1.10.0", "1.9.9"));
    assert!(!is_newer_version("1.0", "1.0.0"));
    assert!(is_newer_version("1.0", "1.0.0.1"));
    assert!(!is_newer_version("2.0.0", "v2.0.0"));
    assert!(is_newer_version("1.x.2", "1.3"));
    assert!(!is_newer_version("", ""));
}

#[test]
fn platform_asset_lookup() {
    let release = GitHubRelease {
        tag_name: "v1.1.0".to_string(),
        name: "1.1.0".to_string(),
        body: String::new(),
        draft: false,
        prerelease: false,
        assets: vec![asset("pkagent-darwin-aarch64", 10), asset("pkagent-linux-x86_64", 20), asset("pkagent-linux-x86_64", 30)],
    };
    let found = find_platform_asset(&release, &"pkagent-linux-x86_64".to_string()).unwrap();
    assert_eq!(found.size, 20);
    assert!(find_platform_asset(&release, &"pkagent-linux-arm".to_string()).is_none());
}

#[test]
fn base_url_under_endpoint() {
    assert_eq!(api_base_url("http://localhost:3000"), "http://localhost:3000/api");
    assert_eq!(api_base_url("http://localhost:3000/"), "http://localhost:3000/api");
    assert_eq!(api_base_url(""), "/api");
}

#[test]
fn version_errors_are_recognized() {
    assert!(is_version_error("Agent version 0.1.0 is too old. Minimum required version: 0.2.0."));
    assert!(!is_version_error("Agent version check passed"));
    assert!(!is_version_error("HTTP error (500): too old"));
    assert!(contains("abc", ""));
    assert!(contains("abcabd", "abd"));
    assert!(!contains("ab", "abc"));
}

#[test]
fn retry_delays_double() {
    assert_eq!(retry_delay(1, 3, false), Some(1));
    assert_eq!(retry_delay(2, 3, false), Some(2));
    assert_eq!(retry_delay(3, 3, false), None);
    assert_eq!(retry_delay(1, 3, true), None);
    assert_eq!(retry_delay(5, 10, false), Some(16));
    assert_eq!(retry_delay(70, 100, false), Some(u64::MAX));
}

#[test]
fn distribution_from_host_files() {
    let os_release = "ID=debian\nNAME=\"Debian GNU/Linux\"\r\nVERSION=12\nNAME=Other\n";
    assert_eq!(get_linux_distribution(Some(os_release), Some("ignored")), Some("Debian GNU/Linux".to_string()));
    assert_eq!(get_linux_distribution(Some("NAME=Arch"), None), Some("Arch".to_string()));
    assert_eq!(get_linux_distribution(Some("NAME=\"\"\"\n"), None), Some(String::new()));
    assert_eq!(get_linux_distribution(Some("ID=x\n"), Some("  Ubuntu 22.04 LTS \\n \\l \t\nmore\n")), Some("Ubuntu 22.04 LTS \\n \\l".to_string()));
    assert_eq!(get_linux_distribution(None, Some("\n")), Some(String::new()));
    assert_eq!(get_linux_distribution(None, Some("")), None);
    assert_eq!(get_linux_distribution(None, None), None);
}
