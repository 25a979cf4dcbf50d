//! The configuration: the accounts, the limits, and what the daemon makes of them.

use crate::text;
use vstd::prelude::*;

verus! {

/// A mail account.
#[derive(Debug, Clone)]
pub struct Account {
    pub name: String,
    pub host: String,
    pub port: u16,
    pub username: String,
    pub password: String,
    pub ssl: bool,
    pub enabled: bool,
}

/// What an [`Account`] holds.
pub struct AccountView {
    pub name: Seq<char>,
    pub host: Seq<char>,
    pub port: u16,
    pub username: Seq<char>,
    pub password: Seq<char>,
    pub ssl: bool,
    pub enabled: bool,
}

impl View for Account {
    type V = AccountView;

    open spec fn view(&self) -> AccountView {
        AccountView {
            name: self.name@,
            host: self.host@,
            port: self.port,
            username: self.username@,
            password: self.password@,
            ssl: self.ssl,
            enabled: self.enabled,
        }
    }
}

/// The views of a list of accounts.
pub open spec fn account_views(accounts: Seq<Account>) -> Seq<AccountView> {
    accounts.map_values(|a: Account| a@)
}

/// The configuration of the daemon.
#[derive(Debug, Clone)]
pub struct Config {
    /// How many mails are listed in all; they are shared out evenly among the enabled accounts.
    /// Zero means no limit.
    pub cache_limit: usize,
    /// The directory of the bodies that were fetched; empty for the usual one.
    pub cache_dir: String,
    /// How long the server may take to answer, in seconds.
    pub imap_timeout_secs: u64,
    /// How long the daemon waits for news before it looks for itself, in seconds.
    pub poll_interval_secs: u64,
    /// How many bodies are kept on disk. Zero means no limit.
    pub body_cache_limit: usize,
    pub accounts: Vec<Account>,
}

/// What a [`Config`] holds.
pub struct ConfigView {
    pub cache_limit: usize,
    pub cache_dir: Seq<char>,
    pub imap_timeout_secs: u64,
    pub poll_interval_secs: u64,
    pub body_cache_limit: usize,
    pub accounts: Seq<AccountView>,
}

impl View for Config {
    type V = ConfigView;

    open spec fn view(&self) -> ConfigView {
        ConfigView {
            cache_limit: self.cache_limit,
            cache_dir: self.cache_dir@,
            imap_timeout_secs: self.imap_timeout_secs,
            poll_interval_secs: self.poll_interval_secs,
            body_cache_limit: self.body_cache_limit,
            accounts: account_views(self.accounts@),
        }
    }
}

// ---------------------------------------------------------------------------
// Defaults
// ---------------------------------------------------------------------------

/// The port of an account that names none: IMAP over TLS.
pub fn default_port() -> (port: u16)
    ensures
        port == 993,
{
    993
}

/// An account is enabled, and uses TLS, unless it says otherwise.
pub fn default_true() -> (yes: bool)
    ensures
        yes,
{
    true
}

/// How many mails are listed where the configuration does not say.
pub fn default_cache_limit() -> (n: usize)
    ensures
        n == 50,
{
    50
}

/// How long the server may take to answer where the configuration does not say.
pub fn default_imap_timeout_secs() -> (secs: u64)
    ensures
        secs == 60,
{
    60
}

/// How long the daemon waits for news where the configuration does not say.
pub fn default_poll_interval_secs() -> (secs: u64)
    ensures
        secs == 45,
{
    45
}

/// How many bodies are kept on disk where the configuration does not say.
pub fn default_body_cache_limit() -> (n: usize)
    ensures
        n == 500,
{
    500
}

/// The usual directory of the bodies: under the user's cache directory where there is one, and
/// else under the directory for temporary files.
pub open spec fn usual_cache_dir(cache_base: Option<Seq<char>>, temp_dir: Seq<char>) -> Seq<char> {
    match cache_base {
        Some(base) => text::path_under(base, "dms-email-client"@),
        None => text::path_under(temp_dir, "dms-email-client-cache"@),
    }
}

/// The usual directory of the bodies: under the user's cache directory where there is one, and
/// else under the directory for temporary files.
pub fn default_cache_dir(cache_base: &Option<String>, temp_dir: &str) -> (dir: String)
    ensures
        dir@ == usual_cache_dir(text::opt(*cache_base), temp_dir@),
{
    let path = match cache_base {
        Some(base) => {
            let base = text::to_chars(base.as_str());
            let name = text::to_chars("dms-email-client");
            text::path_join(&base, &name)
        },
        None => {
            let base = text::to_chars(temp_dir);
            let name = text::to_chars("dms-email-client-cache");
            text::path_join(&base, &name)
        },
    };
    text::from_chars(&path)
}

/// The configuration that is written where there is none: the defaults and an example account.
pub open spec fn first_config() -> ConfigView {
    ConfigView {
        cache_limit: 50,
        cache_dir: Seq::<char>::empty(),
        imap_timeout_secs: 60,
        poll_interval_secs: 45,
        body_cache_limit: 500,
        accounts: seq![
            AccountView {
                name: "QQ Mail"@,
                host: "imap.qq.com"@,
                port: 993,
                username: "your_email@qq.com"@,
                password: "your_imap_authorization_code"@,
                ssl: true,
                enabled: true,
            },
        ],
    }
}

// ---------------------------------------------------------------------------
// What the daemon makes of it
// ---------------------------------------------------------------------------

/// How many accounts are enabled.
pub open spec fn enabled_count(accounts: Seq<AccountView>) -> nat
    decreases accounts.len(),
{
    if accounts.len() == 0 {
        0
    } else {
        enabled_count(accounts.drop_last()) + (if accounts.last().enabled {
            1nat
        } else {
            0nat
        })
    }
}

/// How many mails are listed of each account: an even share of the limit, but at least one.
/// Zero means no limit.
pub open spec fn account_share(limit: nat, enabled: nat) -> nat {
    if limit == 0 || enabled == 0 {
        limit
    } else if limit / enabled == 0 {
        1
    } else {
        limit / enabled
    }
}

/// `name` is the name of an account before `k`.
pub open spec fn named_before(accounts: Seq<AccountView>, name: Seq<char>, k: int) -> bool {
    exists|i: int| 0 <= i < k && (#[trigger] accounts[i]).name == name
}

/// The first account of that name.
pub fn find_account(accounts: &[Account], name: &str) -> (place: Option<usize>)
    ensures
        match place {
            Some(i) => {
                &&& i < accounts@.len()
                &&& accounts@[i as int].name@ == name@
                &&& !named_before(account_views(accounts@), name@, i as int)
            },
            None => !named_before(account_views(accounts@), name@, accounts@.len() as int),
        },
{
    let ghost all = account_views(accounts@);
    let mut i: usize = 0;
    while i < accounts.len()
        invariant
            i <= accounts.len(),
            all == account_views(accounts@),
            !named_before(all, name@, i as int),
        decreases accounts.len() - i,
    {
        if text::same_text(accounts[i].name.as_str(), name) {
            return Some(i);
        }
        assert(all[i as int].name != name@);
        i += 1;
    }
    None
}

impl Config {
    /// The path of the configuration, under the user's configuration directory or, where there
    /// is none, under the current directory.
    pub fn get_path(config_dir: &Option<String>) -> (path: String)
        ensures
            path@ == text::path_under(
                text::path_under(text::opt_or(text::opt(*config_dir), "."@), "dms-email-client"@),
                "config.toml"@,
            ),
    {
        let base = match config_dir {
            Some(d) => text::to_chars(d.as_str()),
            None => text::to_chars("."),
        };
        let own = text::to_chars("dms-email-client");
        let dir = text::path_join(&base, &own);
        let file = text::to_chars("config.toml");
        let path = text::path_join(&dir, &file);
        text::from_chars(&path)
    }

    /// The configuration that is written where there is none.
    pub fn first() -> (config: Config)
        ensures
            config@ == first_config(),
    {
        let mut accounts: Vec<Account> = Vec::new();
        accounts.push(
            Account {
                name: "QQ Mail".to_owned(),
                host: "imap.qq.com".to_owned(),
                port: default_port(),
                username: "your_email@qq.com".to_owned(),
                password: "your_imap_authorization_code".to_owned(),
                ssl: default_true(),
                enabled: default_true(),
            },
        );
        let config = Config {
            cache_limit: default_cache_limit(),
            cache_dir: String::new(),
            imap_timeout_secs: default_imap_timeout_secs(),
            poll_interval_secs: default_poll_interval_secs(),
            body_cache_limit: default_body_cache_limit(),
            accounts,
        };
        assert(config@.accounts =~= first_config().accounts);
        assert(config@.cache_dir =~= Seq::<char>::empty());
        config
    }

    /// The configuration to run with, and whether it still has to be written: the stored one,
    /// or the first one where none is stored.
    pub fn load(stored: Option<Config>) -> (loaded: (Config, bool))
        ensures
            loaded.1 == (stored is None),
            match stored {
                Some(c) => loaded.0 == c,
                None => loaded.0@ == first_config(),
            },
    {
        match stored {
            Some(c) => (c, false),
            None => (Config::first(), true),
        }
    }

    /// The directory of the bodies: the configured one, or the usual one where that is empty.
    pub fn body_dir(&self, cache_base: &Option<String>, temp_dir: &str) -> (dir: String)
        ensures
            dir@ == (if self@.cache_dir.len() == 0 {
                usual_cache_dir(text::opt(*cache_base), temp_dir@)
            } else {
                self@.cache_dir
            }),
    {
        if self.cache_dir.as_str().is_empty() {
            default_cache_dir(cache_base, temp_dir)
        } else {
            self.cache_dir.clone()
        }
    }

    /// How many mails are listed of each account. Zero means no limit.
    pub fn per_account_limit(&self) -> (limit: usize)
        ensures
            limit == account_share(self@.cache_limit as nat, enabled_count(self@.accounts)),
    {
        let ghost all = self@.accounts;
        let mut enabled: usize = 0;
        let mut i: usize = 0;
        while i < self.accounts.len()
            invariant
                i <= self.accounts.len(),
                all == account_views(self.accounts@),
                enabled <= i,
                enabled == enabled_count(all.take(i as int)),
            decreases self.accounts.len() - i,
        {
            assert(all.take(i + 1).drop_last() =~= all.take(i as int));
            if self.accounts[i].enabled {
                enabled += 1;
            }
            i += 1;
        }
        assert(all.take(i as int) =~= all);
        if self.cache_limit == 0 || enabled == 0 {
            return self.cache_limit;
        }
        let share: usize = self.cache_limit / enabled;
        if share == 0 {
            1
        } else {
            share
        }
    }

    /// How long the server may take to answer: what is configured, but at least five seconds.
    pub fn io_timeout_secs(&self) -> (secs: u64)
        ensures
            secs == (if self@.imap_timeout_secs < 5 {
                5
            } else {
                self@.imap_timeout_secs
            }),
    {
        if self.imap_timeout_secs < 5 {
            5
        } else {
            self.imap_timeout_secs
        }
    }

    /// How long the daemon waits for news before it looks for itself: what is configured, but
    /// at least fifteen seconds and at most twenty-nine minutes.
    pub fn idle_poll_secs(&self) -> (secs: u64)
        ensures
            secs == (if self@.poll_interval_secs < 15 {
                15
            } else if self@.poll_interval_secs > 1740 {
                1740
            } else {
                self@.poll_interval_secs
            }),
    {
        if self.poll_interval_secs < 15 {
            15
        } else if self.poll_interval_secs > 1740 {
            1740
        } else {
            self.poll_interval_secs
        }
    }
}

/// All shares together stay within the limit, unless there are more accounts than mails.
pub proof fn lemma_shares_stay_within_limit(limit: nat, enabled: nat)
    requires
        0 < enabled <= limit,
    ensures
        account_share(limit, enabled) * enabled <= limit,
{
    assert(limit / enabled >= 1) by (nonlinear_arith)
        requires
            0 < enabled <= limit,
    ;
    assert((limit / enabled) * enabled <= limit) by (nonlinear_arith)
        requires
            0 < enabled,
    ;
}

/// With a limit every account is listed: its share is at least one mail.
pub proof fn lemma_every_account_is_listed(limit: nat, enabled: nat)
    requires
        limit > 0,
    ensures
        account_share(limit, enabled) > 0,
{
}

/// The accounts that count are those that are enabled.
pub proof fn lemma_enabled_accounts_count(accounts: Seq<AccountView>)
    ensures
        enabled_count(accounts) == accounts.filter(|a: AccountView| a.enabled).len(),
    decreases accounts.len(),
{
    reveal(Seq::filter);
    if accounts.len() > 0 {
        lemma_enabled_accounts_count(accounts.drop_last());
    }
}

/// The share of an account is as large as an even share can be: one more for each would be over
/// the limit. Without a limit there is none for an account, and where no account is enabled, the
/// limit is not shared.
pub proof fn lemma_shares_are_even(limit: nat, enabled: nat)
    ensures
        account_share(0, enabled) == 0,
        account_share(limit, 0) == limit,
        0 < enabled ==> (account_share(limit, enabled) + 1) * enabled > limit,
        0 < limit < enabled ==> account_share(limit, enabled) == 1,
{
    if 0 < enabled {
        let q = limit / enabled;
        assert((q + 1) * enabled > limit) by (nonlinear_arith)
            requires
                q == limit / enabled,
                enabled > 0,
        ;
        if limit < enabled {
            assert(q == 0) by (nonlinear_arith)
                requires
                    q == limit / enabled,
                    limit < enabled,
            ;
            assert(2 * enabled > limit);
        }
        if limit > 0 && q == 0 {
            assert((1 + 1) * enabled > limit) by (nonlinear_arith)
                requires
                    (q + 1) * enabled > limit,
                    q == 0,
                    enabled > 0,
            ;
        }
    }
}

/// The bodies lie in a directory of their own, under the user's cache directory, or under the one
/// for temporary files where there is none.
pub proof fn lemma_usual_cache_dir(base: Seq<char>, temp: Seq<char>)
    requires
        base.len() > 0 && base[base.len() - 1] != '/',
        temp.len() > 0 && temp[temp.len() - 1] != '/',
    ensures
        usual_cache_dir(Some(base), temp) == base + "/dms-email-client"@,
        usual_cache_dir(None, temp) == temp + "/dms-email-client-cache"@,
{
    reveal_strlit("dms-email-client");
    reveal_strlit("/dms-email-client");
    reveal_strlit("dms-email-client-cache");
    reveal_strlit("/dms-email-client-cache");
    text::lemma_paths_have_one_slash_between(base, "dms-email-client"@);
    text::lemma_paths_have_one_slash_between(temp, "dms-email-client-cache"@);
    assert(base + seq!['/'] + "dms-email-client"@ =~= base + "/dms-email-client"@);
    assert(temp + seq!['/'] + "dms-email-client-cache"@ =~= temp + "/dms-email-client-cache"@);
}

/// The configuration that is written where there is none has the usual limits and times, and one
/// account to fill in, which is enabled and uses TLS.
pub proof fn lemma_first_config_is_to_be_filled_in()
    ensures
        ({
            let c = first_config();
            &&& c.cache_limit == 50 && c.body_cache_limit == 500 && c.cache_dir.len() == 0
            &&& c.imap_timeout_secs == 60 && c.poll_interval_secs == 45
            &&& c.accounts.len() == 1
            &&& c.accounts[0].name == "QQ Mail"@ && c.accounts[0].host == "imap.qq.com"@
            &&& c.accounts[0].port == 993 && c.accounts[0].ssl && c.accounts[0].enabled
            &&& c.accounts[0].username == "your_email@qq.com"@
            &&& c.accounts[0].password == "your_imap_authorization_code"@
        }),
{
}

} // verus!
