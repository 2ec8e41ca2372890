use pkagent::users::{collect_users, is_user_disabled, parse_passwd, UserInfo};

const PASSWD: &str = "root:x:0:0:root:/root:/bin/bash
daemon:x:1:1:daemon:/usr/sbin:/usr/sbin/nologin
sync:x:4:65534:sync:/bin:/bin/sync
# a comment line
alice:x:1000:1000:Alice:/home/alice:/bin/zsh
nobody:x:65534:65534:nobody:/nonexistent:/usr/sbin/nologin
svc:x:1500:1500::/srv/svc:/bin/false
old:x:1600:1600::/home/old:/sbin/nologin
bob:x:1001:1001::/home/bob:/usr/bin/false
carol:x:1002:1002:::
short:x:1003
";

fn named(username: &str, uid: u32) -> UserInfo {
    UserInfo {
        username: username.to_string(),
        uid,
        shell: Some("/bin/bash".to_string()),
        home_dir: None,
        disabled: Some(false),
    }
}

#[test]
fn test_collect_users() {
    let users = collect_users(&[], &[], &parse_passwd(PASSWD));

    // Should have at least root user (unless root has nologin shell)
    // Check that all users have valid UIDs (0 or >= 1000)
    for user in &users {
        assert!(user.uid == 0 || user.uid >= 1000);
    }

    // All users should have login shells (no nologin shells)
    for user in &users {
        if let Some(shell) = &user.shell {
            assert!(
                shell != "/usr/sbin/nologin" &&
                shell != "/sbin/nologin" &&
                shell != "/bin/false" &&
                shell != "/usr/bin/false",
                "User {} has nologin shell: {}", user.username, shell
            );
        }
    }
}

#[test]
fn test_user_disabled_detection() {
    assert!(!is_user_disabled("/bin/bash"));
    assert!(!is_user_disabled("/bin/zsh"));
    assert!(!is_user_disabled("/usr/bin/false"));
    assert!(!is_user_disabled("/sbin/nologin"));
}

#[test]
fn passwd_entries_kept_and_defaults() {
    let users = parse_passwd(PASSWD);
    let names: Vec<&str> = users.iter().map(|u| u.username.as_str()).collect();
    assert_eq!(names, vec!["root", "alice", "carol"]);
    assert_eq!(users[0].home_dir, Some("/root".to_string()));
    assert_eq!(users[1].shell, Some("/bin/zsh".to_string()));
    assert_eq!(users[2].uid, 1002);
    assert_eq!(users[2].shell, Some("/bin/bash".to_string()));
    assert_eq!(users[2].home_dir, Some("/home/carol".to_string()));
    assert_eq!(users[2].disabled, Some(false));
}

#[test]
fn passwd_line_endings_and_odd_uids() {
    let text = "dave:x:+2000:2000::/home/dave:/bin/sh\r\nbroken:x:abc:1::/:/bin/sh\r\nbig:x:99999999999:1::/:/bin/sh\r\nlast:x:3000:3000::/home/last:/bin/sh\r";
    let users = parse_passwd(text);
    let names: Vec<&str> = users.iter().map(|u| u.username.as_str()).collect();
    assert_eq!(names, vec!["dave", "broken", "big", "last"]);
    assert_eq!(users[0].uid, 2000);
    assert_eq!(users[0].shell, Some("/bin/sh".to_string()));
    assert_eq!(users[1].uid, 0);
    assert_eq!(users[2].uid, 0);
    assert_eq!(users[3].shell, Some("/bin/sh\r".to_string()));
}

#[test]
fn include_list_wins_and_order_is_by_uid() {
    let candidates = vec![named("zed", 1005), named("amy", 1001), named("root", 0), named("ben", 1001)];
    let all = collect_users(&[], &[], &candidates);
    let names: Vec<&str> = all.iter().map(|u| u.username.as_str()).collect();
    assert_eq!(names, vec!["root", "amy", "ben", "zed"]);

    let only = collect_users(&["amy".to_string()], &["zed".to_string(), "ben".to_string()], &candidates);
    let names: Vec<&str> = only.iter().map(|u| u.username.as_str()).collect();
    assert_eq!(names, vec!["ben", "zed"]);

    let without = collect_users(&["amy".to_string()], &[], &candidates);
    let names: Vec<&str> = without.iter().map(|u| u.username.as_str()).collect();
    assert_eq!(names, vec!["root", "ben", "zed"]);
}
