use dms_email_client::config::{
    default_body_cache_limit, default_cache_dir, default_cache_limit, default_imap_timeout_secs,
    default_poll_interval_secs, default_port, default_true, find_account, Account, Config,
};

fn account(name: &str, enabled: bool) -> Account {
    Account {
        name: name.to_string(),
        host: "imap.example.org".to_string(),
        port: default_port(),
        username: "u".to_string(),
        password: "p".to_string(),
        ssl: default_true(),
        enabled,
    }
}

fn config(limit: usize, accounts: Vec<Account>) -> Config {
    Config { cache_limit: limit, accounts, ..Config::first() }
}

#[test]
fn defaults_are_as_documented() {
    assert_eq!(default_port(), 993);
    assert!(default_true());
    assert_eq!(default_cache_limit(), 50);
    assert_eq!(default_imap_timeout_secs(), 60);
    assert_eq!(default_poll_interval_secs(), 45);
    assert_eq!(default_body_cache_limit(), 500);
}

#[test]
fn the_first_config_holds_an_example() {
    let (c, fresh) = Config::load(None);
    assert!(fresh);
    assert_eq!(c.cache_limit, 50);
    assert_eq!(c.cache_dir, "");
    assert_eq!(c.accounts.len(), 1);
    let a = &c.accounts[0];
    assert_eq!(a.name, "QQ Mail");
    assert_eq!(a.host, "imap.qq.com");
    assert_eq!(a.port, 993);
    assert_eq!(a.username, "your_email@qq.com");
    assert_eq!(a.password, "your_imap_authorization_code");
    assert!(a.ssl && a.enabled);
}

#[test]
fn a_stored_config_is_kept() {
    let (c, fresh) = Config::load(Some(config(7, vec![])));
    assert!(!fresh);
    assert_eq!(c.cache_limit, 7);
    assert!(c.accounts.is_empty());
}

#[test]
fn paths_of_the_config_and_of_the_bodies() {
    let home = Some("/home/me/.config".to_string());
    assert_eq!(Config::get_path(&home), "/home/me/.config/dms-email-client/config.toml");
    assert_eq!(Config::get_path(&None), "./dms-email-client/config.toml");
    let base = Some("/home/me/.cache".to_string());
    assert_eq!(default_cache_dir(&base, "/tmp"), "/home/me/.cache/dms-email-client");
    assert_eq!(default_cache_dir(&None, "/tmp"), "/tmp/dms-email-client-cache");
    let mut c = config(1, vec![]);
    assert_eq!(c.body_dir(&base, "/tmp"), "/home/me/.cache/dms-email-client");
    c.cache_dir = "/var/bodies".to_string();
    assert_eq!(c.body_dir(&base, "/tmp"), "/var/bodies");
}

#[test]
fn the_limit_is_shared_among_enabled_accounts() {
    let on = |n: usize| (0..n).map(|i| account(&i.to_string(), true)).collect::<Vec<_>>();
    assert_eq!(config(50, on(1)).per_account_limit(), 50);
    assert_eq!(config(50, on(3)).per_account_limit(), 16);
    assert_eq!(config(2, on(3)).per_account_limit(), 1);
    assert_eq!(config(0, on(3)).per_account_limit(), 0);
    assert_eq!(config(50, on(0)).per_account_limit(), 50);
    let mut some = on(2);
    some.push(account("off", false));
    assert_eq!(config(50, some).per_account_limit(), 25);
}

#[test]
fn times_are_kept_within_bounds() {
    let mut c = config(1, vec![]);
    for (set, want) in [(0, 5), (5, 5), (6, 6), (600, 600)] {
        c.imap_timeout_secs = set;
        assert_eq!(c.io_timeout_secs(), want);
    }
    for (set, want) in [(0, 15), (15, 15), (45, 45), (1740, 1740), (1741, 1740)] {
        c.poll_interval_secs = set;
        assert_eq!(c.idle_poll_secs(), want);
    }
}

#[test]
fn the_first_account_of_a_name_counts() {
    let list = vec![account("a", true), account("b", false), account("b", true)];
    assert_eq!(find_account(&list, "b"), Some(1));
    assert_eq!(find_account(&list, "a"), Some(0));
    assert_eq!(find_account(&list, "A"), None);
    assert_eq!(find_account(&[], "a"), None);
}
