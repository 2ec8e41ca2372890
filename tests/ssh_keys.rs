use pkagent::api::KeyAssignment;
use pkagent::locator::{AuthorizedKeysFile, SshKeyManager};
use pkagent::owner::{ownership_action, OwnershipAction};
use pkagent::ssh_keys::{KeyParseError, SshKey};
use pkagent::sync::{FileContents, KeySyncStats, WriteOutcome};
use pkagent::users::UserInfo;
use std::path::PathBuf;

const RSA_DATA: &str = "AAAAB3NzaC1yc2EAAAADAQABAAABAQDO5XOnOPRhZ/6vQSXnd1QN2i0Swq9FvM3Nwwx5GcBTP9ydZiYqHA00wYRmWoEQpUdrosGE8UaanvdNxCm79oX0AJdiBMm7L73G3J5svovX5jY5ysOB9BnWrMrl+a180L8bWiQ3G/4zMk8dGgkf4NMa6X6KqdfjL0NKKam6q8SJ21CBDaJ5QlBZUEOWsX3qEhs/yswTNT+M7eU+NnaQTzGTfR52sW9ks+lKAF1y4lBiS3L/jeu3eO+XFVVmvbbT6ees+hMnWa0Os8AZx/k9aKao+4GSW1QlQZWuUxcG1r54djP8jiiFrrNsqJ5zEq0R8DkgfOYhxzAfyjAeCaZ6PQuj";
const ED_DATA: &str = "AAAAC3NzaC1lZDI1NTE5AAAAIMRzhlN/DHptVc+onPgMzh73YshU9/T3BLEkip0gGx9e";
const ED_FP: &str = "SHA256:SeN3AUxp8YpJHIJx9k5QSxGL4X9lFpicdgS6BbKsPbU=";
const RSA_FP: &str = "SHA256:ANnkdnpitKwiRM59vOyy+2xzht5pirEfwzd/6dMC5JY=";
const HEADER: &str = "# PubliKey managed - do not edit manually\n# This file is managed by PubliKey Agent\n# Manual changes will be overwritten\n\n";

fn assignment(username: &str, public_key: &str) -> KeyAssignment {
    KeyAssignment {
        username: username.to_string(),
        fingerprint: String::new(),
        public_key: public_key.to_string(),
        key_type: String::new(),
        comment: None,
        use_primary_key: None,
        assignment_id: "a1".to_string(),
    }
}

fn key_file(path: &str, username: &str, uid: u32, exists: bool) -> AuthorizedKeysFile {
    AuthorizedKeysFile { path: path.to_string(), username: username.to_string(), uid, exists }
}

fn user(username: &str, uid: u32, home_dir: Option<&str>) -> UserInfo {
    UserInfo {
        username: username.to_string(),
        uid,
        shell: Some("/bin/bash".to_string()),
        home_dir: home_dir.map(|h| h.to_string()),
        disabled: Some(false),
    }
}

#[test]
fn test_parse_valid_ssh_key() {
    let key_line = "ssh-rsa AAAAB3NzaC1yc2EAAAADAQABAAABAQDO5XOnOPRhZ/6vQSXnd1QN2i0Swq9FvM3Nwwx5GcBTP9ydZiYqHA00wYRmWoEQpUdrosGE8UaanvdNxCm79oX0AJdiBMm7L73G3J5svovX5jY5ysOB9BnWrMrl+a180L8bWiQ3G/4zMk8dGgkf4NMa6X6KqdfjL0NKKam6q8SJ21CBDaJ5QlBZUEOWsX3qEhs/yswTNT+M7eU+NnaQTzGTfR52sW9ks+lKAF1y4lBiS3L/jeu3eO+XFVVmvbbT6ees+hMnWa0Os8AZx/k9aKao+4GSW1QlQZWuUxcG1r54djP8jiiFrrNsqJ5zEq0R8DkgfOYhxzAfyjAeCaZ6PQuj test@example.com";
    let result = SshKey::parse(key_line);
    assert!(result.is_ok());

    let key = result.unwrap();
    assert_eq!(key.key_type, "ssh-rsa");
    assert_eq!(key.key_data, "AAAAB3NzaC1yc2EAAAADAQABAAABAQDO5XOnOPRhZ/6vQSXnd1QN2i0Swq9FvM3Nwwx5GcBTP9ydZiYqHA00wYRmWoEQpUdrosGE8UaanvdNxCm79oX0AJdiBMm7L73G3J5svovX5jY5ysOB9BnWrMrl+a180L8bWiQ3G/4zMk8dGgkf4NMa6X6KqdfjL0NKKam6q8SJ21CBDaJ5QlBZUEOWsX3qEhs/yswTNT+M7eU+NnaQTzGTfR52sW9ks+lKAF1y4lBiS3L/jeu3eO+XFVVmvbbT6ees+hMnWa0Os8AZx/k9aKao+4GSW1QlQZWuUxcG1r54djP8jiiFrrNsqJ5zEq0R8DkgfOYhxzAfyjAeCaZ6PQuj");
    assert_eq!(key.comment, Some("test@example.com".to_string()));
}

#[test]
fn test_parse_key_without_comment() {
    let key_line = "ssh-ed25519 AAAAC3NzaC1lZDI1NTE5AAAAIMRzhlN/DHptVc+onPgMzh73YshU9/T3BLEkip0gGx9e";
    let result = SshKey::parse(key_line);
    assert!(result.is_ok());

    let key = result.unwrap();
    assert_eq!(key.key_type, "ssh-ed25519");
    assert_eq!(key.comment, None);
}

#[test]
fn test_parse_invalid_key() {
    let invalid_key = "not-a-valid-ssh-key";
    let result = SshKey::parse(invalid_key);
    assert!(result.is_err());
}

#[test]
fn test_ssh_key_to_string() {
    let key = SshKey {
        key_type: "ssh-rsa".to_string(),
        key_data: "AAAAB3NzaC1yc2EAAAADAQABAAABAQDO5XOnOPRhZ/6vQSXnd1QN2i0Swq9FvM3Nwwx5GcBTP9ydZiYqHA00wYRmWoEQpUdrosGE8UaanvdNxCm79oX0AJdiBMm7L73G3J5svovX5jY5ysOB9BnWrMrl+a180L8bWiQ3G/4zMk8dGgkf4NMa6X6KqdfjL0NKKam6q8SJ21CBDaJ5QlBZUEOWsX3qEhs/yswTNT+M7eU+NnaQTzGTfR52sW9ks+lKAF1y4lBiS3L/jeu3eO+XFVVmvbbT6ees+hMnWa0Os8AZx/k9aKao+4GSW1QlQZWuUxcG1r54djP8jiiFrrNsqJ5zEq0R8DkgfOYhxzAfyjAeCaZ6PQuj".to_string(),
        comment: Some("test@example.com".to_string()),
        fingerprint: "SHA256:test".to_string(),
    };

    assert_eq!(key.to_string(), "ssh-rsa AAAAB3NzaC1yc2EAAAADAQABAAABAQDO5XOnOPRhZ/6vQSXnd1QN2i0Swq9FvM3Nwwx5GcBTP9ydZiYqHA00wYRmWoEQpUdrosGE8UaanvdNxCm79oX0AJdiBMm7L73G3J5svovX5jY5ysOB9BnWrMrl+a180L8bWiQ3G/4zMk8dGgkf4NMa6X6KqdfjL0NKKam6q8SJ21CBDaJ5QlBZUEOWsX3qEhs/yswTNT+M7eU+NnaQTzGTfR52sW9ks+lKAF1y4lBiS3L/jeu3eO+XFVVmvbbT6ees+hMnWa0Os8AZx/k9aKao+4GSW1QlQZWuUxcG1r54djP8jiiFrrNsqJ5zEq0R8DkgfOYhxzAfyjAeCaZ6PQuj test@example.com");
}

#[test]
fn test_expand_authorized_keys_pattern() {
    let manager = SshKeyManager::new();
    let username = "testuser";
    let home_dir = PathBuf::from("/home/testuser");
    let home = home_dir.to_str().unwrap();

    // Test relative path
    let result = manager.expand_authorized_keys_pattern(".ssh/authorized_keys", username, home);
    assert_eq!(result.map(PathBuf::from), Some(PathBuf::from("/home/testuser/.ssh/authorized_keys")));

    // Test absolute path
    let result = manager.expand_authorized_keys_pattern("/etc/ssh/authorized_keys/%u", username, home);
    assert_eq!(result.map(PathBuf::from), Some(PathBuf::from("/etc/ssh/authorized_keys/testuser")));

    // Test %h expansion
    let result = manager.expand_authorized_keys_pattern("%h/.ssh/authorized_keys", username, home);
    assert_eq!(result.map(PathBuf::from), Some(PathBuf::from("/home/testuser/.ssh/authorized_keys")));

    // Test %u expansion
    let result = manager.expand_authorized_keys_pattern("/var/keys/%u/authorized_keys", username, home);
    assert_eq!(result.map(PathBuf::from), Some(PathBuf::from("/var/keys/testuser/authorized_keys")));

    // Test %% expansion
    let result = manager.expand_authorized_keys_pattern("/path/with%%percent/%u", username, home);
    assert_eq!(result.map(PathBuf::from), Some(PathBuf::from("/path/with%percent/testuser")));
}

#[test]
fn fingerprint_is_sha256_of_decoded_payload() {
    let ed = SshKey::parse(&format!("ssh-ed25519 {}", ED_DATA)).unwrap();
    assert_eq!(ed.fingerprint, ED_FP);
    let rsa = SshKey::parse(&format!("ssh-rsa {} someone", RSA_DATA)).unwrap();
    assert_eq!(rsa.fingerprint, RSA_FP);
    let tiny = SshKey::parse("ssh-dss AAAA").unwrap();
    assert_eq!(tiny.fingerprint, "SHA256:cJ6AyISHokEeHuTfufIqhhSS0gxHZRUMDHlKvXD4FHw=");
}

#[test]
fn fingerprint_ignores_comment_and_type() {
    let a = SshKey::parse(&format!("ssh-ed25519 {} alice@one", ED_DATA)).unwrap();
    let b = SshKey::parse(&format!("ssh-ed25519 {} bob@two and more", ED_DATA)).unwrap();
    let c = SshKey::parse(&format!("ssh-rsa {}", ED_DATA)).unwrap();
    assert_eq!(a.fingerprint, b.fingerprint);
    assert_eq!(a.fingerprint, c.fingerprint);
    let again = SshKey::parse(&format!("ssh-ed25519 {} alice@one", ED_DATA)).unwrap();
    assert_eq!(a, again);
}

#[test]
fn parse_errors_by_kind() {
    assert_eq!(SshKey::parse(""), Err(KeyParseError::EmptyOrComment));
    assert_eq!(SshKey::parse("   \t "), Err(KeyParseError::EmptyOrComment));
    assert_eq!(SshKey::parse("# ssh-rsa AAAA"), Err(KeyParseError::EmptyOrComment));
    assert_eq!(SshKey::parse("  #ssh-rsa AAAA"), Err(KeyParseError::EmptyOrComment));
    assert_eq!(SshKey::parse("ssh-rsa"), Err(KeyParseError::TooFewFields));
    assert_eq!(SshKey::parse("not-a-valid-ssh-key"), Err(KeyParseError::TooFewFields));
    assert_eq!(SshKey::parse("ssh-foo AAAA"), Err(KeyParseError::UnsupportedKeyType));
    assert_eq!(SshKey::parse("SSH-RSA AAAA"), Err(KeyParseError::UnsupportedKeyType));
    assert_eq!(SshKey::parse("ssh-rsa not*base64"), Err(KeyParseError::InvalidKeyData));
    assert_eq!(SshKey::parse("ssh-rsa AAA"), Err(KeyParseError::InvalidKeyData));
}

#[test]
fn every_allowed_type_parses() {
    for t in [
        "ssh-rsa",
        "ssh-dss",
        "ssh-ed25519",
        "ecdsa-sha2-nistp256",
        "ecdsa-sha2-nistp384",
        "ecdsa-sha2-nistp521",
        "sk-ssh-ed25519@openssh.com",
        "sk-ecdsa-sha2-nistp256@openssh.com",
    ] {
        let key = SshKey::parse(&format!("{} {}", t, ED_DATA)).unwrap();
        assert_eq!(key.key_type, t);
    }
}

#[test]
fn comment_whitespace_is_normalized_and_round_trips() {
    let line = format!("  ssh-ed25519\t{}   first  second\tthird  \r", ED_DATA);
    let key = SshKey::parse(&line).unwrap();
    assert_eq!(key.comment, Some("first second third".to_string()));
    let rendered = key.to_string();
    assert_eq!(rendered, format!("ssh-ed25519 {} first second third", ED_DATA));
    let again = SshKey::parse(&rendered).unwrap();
    assert_eq!(again, key);
}

#[test]
fn matches_assignment_by_fingerprint_or_type_and_data() {
    let key = SshKey::parse(&format!("ssh-ed25519 {} me", ED_DATA)).unwrap();
    let mut by_fp = assignment("alice", "unrelated");
    by_fp.fingerprint = ED_FP.to_string();
    assert!(key.matches_assignment(&by_fp));

    let mut by_data = assignment("alice", &format!("ssh-ed25519 {} other comment", ED_DATA));
    by_data.key_type = "ssh-ed25519".to_string();
    assert!(key.matches_assignment(&by_data));

    let mut wrong_type = assignment("alice", &format!("ssh-rsa {}", ED_DATA));
    wrong_type.key_type = "ssh-rsa".to_string();
    assert!(!key.matches_assignment(&wrong_type));

    let mut one_field = assignment("alice", "ssh-ed25519");
    one_field.key_type = "ssh-ed25519".to_string();
    assert!(!key.matches_assignment(&one_field));
}

#[test]
fn patterns_from_config() {
    let m = SshKeyManager::new();
    assert_eq!(m.get_authorized_keys_patterns(None), vec![".ssh/authorized_keys".to_string()]);
    assert_eq!(
        m.get_authorized_keys_patterns(Some("Port 22\n# AuthorizedKeysFile nope\n")),
        vec![".ssh/authorized_keys".to_string()]
    );
    let config = "Port 22\n  AuthorizedKeysFile .ssh/authorized_keys .ssh/authorized_keys2\r\n#AuthorizedKeysFile x\nAuthorizedKeysFile /etc/ssh/keys/%u";
    assert_eq!(
        m.get_authorized_keys_patterns(Some(config)),
        vec![
            ".ssh/authorized_keys".to_string(),
            ".ssh/authorized_keys2".to_string(),
            "/etc/ssh/keys/%u".to_string()
        ]
    );
}

#[test]
fn token_expansion_for_alice() {
    let m = SshKeyManager::new();
    let e = |p: &str| m.expand_authorized_keys_pattern(p, "alice", "/home/alice").unwrap();
    assert_eq!(e(".ssh/authorized_keys"), "/home/alice/.ssh/authorized_keys");
    assert_eq!(e("/etc/ssh/keys/%u"), "/etc/ssh/keys/alice");
    assert_eq!(e("%h/.ssh/authorized_keys"), "/home/alice/.ssh/authorized_keys");
    assert_eq!(e("/keys/100%%/%u"), "/keys/100%/alice");
    assert_eq!(m.expand_authorized_keys_pattern("keys", "root", "/").unwrap(), "/keys");
}

#[test]
fn discovery_is_users_times_patterns() {
    let m = SshKeyManager::new();
    let users = vec![user("root", 0, Some("/var/root")), user("bob", 1001, None), user("carol", 1002, Some("/srv/carol"))];
    let patterns = vec![".ssh/authorized_keys".to_string(), "/etc/keys/%u".to_string()];
    let files = m.discover_authorized_keys_files(&users, &patterns);
    let paths: Vec<&str> = files.iter().map(|f| f.path.as_str()).collect();
    assert_eq!(
        paths,
        vec![
            "/root/.ssh/authorized_keys",
            "/etc/keys/root",
            "/home/bob/.ssh/authorized_keys",
            "/etc/keys/bob",
            "/srv/carol/.ssh/authorized_keys",
            "/etc/keys/carol",
        ]
    );
    assert_eq!(files[3].username, "bob");
    assert_eq!(files[3].uid, 1001);
    assert!(files.iter().all(|f| !f.exists));
}

#[test]
fn read_drops_lines_that_do_not_parse() {
    let m = SshKeyManager::new();
    let content = format!(
        "{}ssh-ed25519 {} one\ngarbage line\nssh-rsa not*base64\n\nssh-rsa {} two\r\n# ssh-rsa {}\n",
        HEADER, ED_DATA, RSA_DATA, RSA_DATA
    );
    let keys = m.read_authorized_keys(&key_file("/x", "bob", 1001, true), &content);
    let fps: Vec<&str> = keys.iter().map(|k| k.fingerprint.as_str()).collect();
    assert_eq!(fps, vec![ED_FP, RSA_FP]);
    assert_eq!(keys[1].comment, Some("two".to_string()));
    let none = m.read_authorized_keys(&key_file("/x", "bob", 1001, false), &content);
    assert!(none.is_empty());
}

#[test]
fn rendered_file_text() {
    let m = SshKeyManager::new();
    let keys = vec![
        SshKey::parse(&format!("ssh-ed25519 {} a@b", ED_DATA)).unwrap(),
        SshKey::parse(&format!("ssh-rsa {}", RSA_DATA)).unwrap(),
    ];
    let text = m.authorized_keys_content(&keys);
    assert_eq!(text, format!("{}ssh-ed25519 {} a@b\nssh-rsa {}\n", HEADER, ED_DATA, RSA_DATA));
    assert_eq!(m.authorized_keys_content(&Vec::new()), HEADER);
}

#[test]
fn new_key_for_absent_file_is_added_and_written() {
    let m = SshKeyManager::new();
    let line = format!("ssh-ed25519 {} bob@x", ED_DATA);
    let assigns = vec![assignment("bob", &line)];
    let file = key_file("/home/bob/.ssh/authorized_keys", "bob", 1001, false);
    let plan = m.sync_user_keys(&file, &FileContents::Missing, &assigns, false);
    assert!(plan.readable);
    assert_eq!(plan.keys_added, 1);
    assert_eq!(plan.keys_removed, 0);
    assert!(plan.changed);
    let written = plan.content.clone().unwrap();
    assert_eq!(written, format!("{}{}\n", HEADER, line));
    let mut stats = KeySyncStats::new();
    stats.record(&plan, WriteOutcome::Written);
    assert_eq!(
        stats,
        KeySyncStats { users_processed: 1, keys_added: 1, keys_removed: 0, files_updated: 1, errors: 0 }
    );
    let keys = m.read_authorized_keys(&key_file("/home/bob/.ssh/authorized_keys", "bob", 1001, true), &written);
    assert_eq!(keys.len(), 1);
    assert_eq!(keys[0].to_string(), line);
}

#[test]
fn second_pass_changes_nothing() {
    let m = SshKeyManager::new();
    let assigns = vec![
        assignment("bob", &format!("ssh-ed25519 {} bob@x", ED_DATA)),
        assignment("bob", &format!("ssh-rsa {} bob@y", RSA_DATA)),
    ];
    let file = key_file("/k", "bob", 1001, true);
    let first = m.sync_user_keys(&file, &FileContents::Text(format!("{}ssh-rsa {} old\n", HEADER, ED_DATA.replace('M', "N"))), &assigns, false);
    assert!(first.changed);
    let written = first.content.unwrap();
    let second = m.sync_user_keys(&file, &FileContents::Text(written.clone()), &assigns, false);
    assert_eq!(second.keys_added, 0);
    assert_eq!(second.keys_removed, 0);
    assert!(!second.changed);
    assert!(second.content.is_none());
    let fps: Vec<String> = m.read_authorized_keys(&file, &written).into_iter().map(|k| k.fingerprint).collect();
    assert_eq!(fps, vec![ED_FP.to_string(), RSA_FP.to_string()]);
}

#[test]
fn converges_regardless_of_prior_content() {
    let m = SshKeyManager::new();
    let assigns = vec![assignment("bob", &format!("ssh-rsa {} bob@y", RSA_DATA))];
    let file = key_file("/k", "bob", 1001, true);
    let prior = format!("ssh-ed25519 {} stranger\nsomething else\nssh-ed25519 {}\n", ED_DATA, ED_DATA);
    let plan = m.sync_user_keys(&file, &FileContents::Text(prior), &assigns, false);
    assert_eq!(plan.keys_added, 1);
    assert_eq!(plan.keys_removed, 2);
    let written = plan.content.unwrap();
    let fps: Vec<String> = m.read_authorized_keys(&file, &written).into_iter().map(|k| k.fingerprint).collect();
    assert_eq!(fps, vec![RSA_FP.to_string()]);
}

#[test]
fn dry_run_reports_same_counts_and_writes_nothing() {
    let m = SshKeyManager::new();
    let assigns = vec![assignment("bob", &format!("ssh-rsa {}", RSA_DATA))];
    let file = key_file("/k", "bob", 1001, true);
    let prior = format!("ssh-ed25519 {}\n", ED_DATA);
    let dry = m.sync_user_keys(&file, &FileContents::Text(prior.clone()), &assigns, true);
    let applied = m.sync_user_keys(&file, &FileContents::Text(prior), &assigns, false);
    assert_eq!((dry.keys_added, dry.keys_removed, dry.changed), (applied.keys_added, applied.keys_removed, applied.changed));
    assert_eq!((dry.keys_added, dry.keys_removed), (1, 1));
    assert!(dry.content.is_none());
    assert!(applied.content.is_some());
    let mut stats = KeySyncStats::new();
    stats.record(&dry, WriteOutcome::NotAttempted);
    assert_eq!(stats.files_updated, 1);
}

#[test]
fn invalid_and_foreign_assignments() {
    let m = SshKeyManager::new();
    let assigns = vec![
        assignment("bob", "ssh-rsa not*base64"),
        assignment("alice", &format!("ssh-rsa {}", RSA_DATA)),
        assignment("bob", &format!("ssh-ed25519 {}", ED_DATA)),
    ];
    let file = key_file("/k", "bob", 1001, false);
    let plan = m.sync_user_keys(&file, &FileContents::Missing, &assigns, false);
    assert_eq!(plan.invalid_assignments, 1);
    assert_eq!(plan.keys_added, 1);
    assert_eq!(plan.content.unwrap(), format!("{}ssh-ed25519 {}\n", HEADER, ED_DATA));
    let idle = m.sync_user_keys(&key_file("/d", "dave", 1003, false), &FileContents::Missing, &assigns, false);
    assert!(!idle.changed);
    assert!(idle.content.is_none());
}

#[test]
fn failures_count_as_errors() {
    let m = SshKeyManager::new();
    let assigns = vec![assignment("bob", "bad"), assignment("bob", &format!("ssh-rsa {}", RSA_DATA))];
    let file = key_file("/k", "bob", 1001, true);
    let unreadable = m.sync_user_keys(&file, &FileContents::Unreadable, &assigns, false);
    assert!(!unreadable.readable);
    let mut stats = KeySyncStats::new();
    stats.record(&unreadable, WriteOutcome::NotAttempted);
    assert_eq!(stats, KeySyncStats { users_processed: 1, keys_added: 0, keys_removed: 0, files_updated: 0, errors: 1 });
    let plan = m.sync_user_keys(&file, &FileContents::Missing, &assigns, false);
    stats.record(&plan, WriteOutcome::Failed);
    assert_eq!(stats, KeySyncStats { users_processed: 2, keys_added: 0, keys_removed: 0, files_updated: 0, errors: 3 });
    stats.record(&plan, WriteOutcome::Written);
    assert_eq!(stats, KeySyncStats { users_processed: 3, keys_added: 1, keys_removed: 0, files_updated: 1, errors: 4 });
}

#[test]
fn session_walks_every_file_in_order() {
    let m = SshKeyManager::new();
    let users = vec![user("bob", 1001, None)];
    let patterns = vec![".ssh/authorized_keys".to_string(), "/etc/keys/%u".to_string()];
    let assigns = vec![assignment("bob", &format!("ssh-ed25519 {} bob@x", ED_DATA)), assignment("zed", "ssh-rsa AAAA")];
    let mut session = m.sync_ssh_keys(&users, &assigns, false, false, &patterns);
    let mut seen = Vec::new();
    while let Some(file) = session.current_file() {
        seen.push(file.path.clone());
        let contents = if file.path.starts_with("/etc") {
            FileContents::Text(m.authorized_keys_content(&vec![SshKey::parse(&format!("ssh-ed25519 {} bob@x", ED_DATA)).unwrap()]))
        } else {
            FileContents::Missing
        };
        let plan = session.plan_current(&m, &contents);
        let outcome = if plan.content.is_some() { WriteOutcome::Written } else { WriteOutcome::NotAttempted };
        session.complete_current(&plan, outcome);
    }
    assert_eq!(seen, vec!["/home/bob/.ssh/authorized_keys".to_string(), "/etc/keys/bob".to_string()]);
    assert_eq!(
        session.stats(),
        KeySyncStats { users_processed: 2, keys_added: 1, keys_removed: 0, files_updated: 1, errors: 0 }
    );
}

#[test]
fn ownership_decisions() {
    assert_eq!(ownership_action(true, 0, 1001, Some(100)), OwnershipAction::Chown { uid: 1001, gid: 100 });
    assert_eq!(ownership_action(true, 0, 1001, None), OwnershipAction::Chown { uid: 1001, gid: 1001 });
    assert_eq!(ownership_action(false, 1000, 1001, Some(100)), OwnershipAction::WarnNotPrivileged);
    assert_eq!(ownership_action(false, 1001, 1001, Some(100)), OwnershipAction::Keep);
}

#[test]
fn primary_gid_from_account_database() {
    let m = SshKeyManager::new();
    let passwd = "# comment\nroot:x:0:0:root:/root:/bin/bash\nbob:x:1001:1500::/home/bob:/bin/sh\r\nodd:x:1002:none:::\nodd2:x:1002:77:::\n";
    assert_eq!(m.get_user_primary_gid(passwd, 0), Some(0));
    assert_eq!(m.get_user_primary_gid(passwd, 1001), Some(1500));
    assert_eq!(m.get_user_primary_gid(passwd, 1002), Some(77));
    assert_eq!(m.get_user_primary_gid(passwd, 4242), None);
}

#[test]
fn only_the_exact_directive_is_read() {
    let m = SshKeyManager::new();
    assert_eq!(
        m.get_authorized_keys_patterns(Some("AuthorizedKeysFile2 .ssh/authorized_keys2\n")),
        vec![".ssh/authorized_keys".to_string()]
    );
    assert_eq!(
        m.get_authorized_keys_patterns(Some("AuthorizedKeysFile k\nAuthorizedKeysFile2 .ssh/authorized_keys2\nAuthorizedKeysFileX y\n")),
        vec!["k".to_string()]
    );
    assert_eq!(
        m.get_authorized_keys_patterns(Some("\tAuthorizedKeysFile\t a  b \nAuthorizedKeysFile\n")),
        vec!["a".to_string(), "b".to_string()]
    );
}

#[test]
fn tokens_expand_in_one_scan() {
    let m = SshKeyManager::new();
    assert_eq!(m.expand_authorized_keys_pattern("/k/%%u", "alice", "/home/alice").unwrap(), "/k/%u");
    assert_eq!(m.expand_authorized_keys_pattern("%h/keys", "alice", "/home/%u").unwrap(), "/home/%u/keys");
    assert_eq!(m.expand_authorized_keys_pattern("/k/%x%", "alice", "/home/alice").unwrap(), "/k/%x%");
    assert_eq!(m.expand_authorized_keys_pattern("/k/%%%u", "alice", "/h").unwrap(), "/k/%alice");
}

#[test]
fn pass_for_bob_with_absent_file() {
    let m = SshKeyManager::new();
    let users = vec![user("bob", 1000, Some("/home/bob"))];
    let patterns = m.get_authorized_keys_patterns(None);
    let line = format!("ssh-ed25519 {} bob@x", ED_DATA);
    let assigns = vec![assignment("bob", &line)];
    let mut session = m.sync_ssh_keys(&users, &assigns, false, false, &patterns);
    let mut written = Vec::new();
    while let Some(file) = session.current_file() {
        let path = file.path.clone();
        let plan = session.plan_current(&m, &FileContents::Missing);
        let outcome = match &plan.content {
            Some(text) => {
                written.push((path, text.clone()));
                WriteOutcome::Written
            }
            None => WriteOutcome::NotAttempted,
        };
        session.complete_current(&plan, outcome);
    }
    assert_eq!(
        session.stats(),
        KeySyncStats { users_processed: 1, keys_added: 1, keys_removed: 0, files_updated: 1, errors: 0 }
    );
    assert_eq!(written.len(), 1);
    assert_eq!(written[0].0, "/home/bob/.ssh/authorized_keys");
    assert_eq!(written[0].1, format!("{}{}\n", HEADER, line));
    let keys = m.read_authorized_keys(&key_file("/home/bob/.ssh/authorized_keys", "bob", 1000, true), &written[0].1);
    assert_eq!(keys.len(), 1);
    assert_eq!(keys[0].to_string(), line);
}
