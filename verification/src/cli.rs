//! The options shared by the Dandanplay commands, and the choices they make from
//! them: where the cache is, which credentials to use, whether to query the API.
use vstd::prelude::*;
use crate::config::Config;
use crate::text::trim;

verus! {

/// Options common to the commands.
pub struct CommonArgs {
    pub cache_dir: Option<String>,
    pub appid: Option<String>,
    pub appsecret: Option<String>,
    pub config: Option<String>,
}

/// `--query` forces a request; `--no-query` forbids one.
pub struct QueryArgs {
    pub query: bool,
    pub no_query: bool,
}

/// Why a command cannot go on.
#[derive(PartialEq, Eq, Structural, Clone, Copy)]
pub enum CliError {
    /// No cache directory in the options, the environment or the configuration.
    MissingCacheDir,
    /// No AppID anywhere.
    MissingAppId,
    /// No AppSecret anywhere.
    MissingAppSecret,
    /// The AppID or the AppSecret is blank.
    BlankCredentials,
}

/// What a command does about its cache file.
#[derive(PartialEq, Eq, Structural, Clone, Copy)]
pub enum CacheAction {
    /// The cache file exists and no request is forced: nothing to do.
    UseCache,
    /// Query the API and write the cache.
    Query,
    /// The cache file is missing and `--no-query` forbids a request.
    Refuse,
}

pub open spec fn opt_view(o: Option<String>) -> Option<Seq<char>> {
    match o {
        Some(s) => Some(s@),
        None => None,
    }
}

/// The first value present, in order of priority.
pub open spec fn first_of(a: Option<Seq<char>>, b: Option<Seq<char>>, c: Option<Seq<char>>) -> Option<
    Seq<char>,
> {
    match a {
        Some(x) => Some(x),
        None => match b {
            Some(y) => Some(y),
            None => c,
        },
    }
}

fn first_present(a: &Option<String>, b: Option<String>, c: &Option<String>) -> (r: Option<String>)
    ensures
        opt_view(r) == first_of(opt_view(*a), opt_view(b), opt_view(*c)),
{
    match a {
        Some(x) => Some(x.clone()),
        None => match b {
            Some(y) => Some(y),
            None => match c {
                Some(z) => Some(z.clone()),
                None => None,
            },
        },
    }
}

fn is_blank(s: &String) -> (b: bool)
    ensures
        b == (trim(s@).len() == 0),
{
    let t = crate::text::trim_str(s.as_str());
    let c = crate::text::chars_of(t.as_str());
    c.len() == 0
}

impl CommonArgs {
    /// The configuration file to read: the one given, else the default.
    pub fn config_path(&self, default_path: &str) -> (r: String)
        ensures
            r@ == match self.config {
                Some(c) => c@,
                None => default_path@,
            },
    {
        match &self.config {
            Some(c) => c.clone(),
            None => crate::text::owned(default_path),
        }
    }

    /// The cache directory: from the options, else from `ANIME_TOOL_CACHE_DIR`
    /// (`env_cache_dir`), else from the configuration.
    pub fn cache_dir(&self, env_cache_dir: Option<String>, config: &Config) -> (r: Result<
        String,
        CliError,
    >)
        ensures
            match first_of(opt_view(self.cache_dir), opt_view(env_cache_dir), opt_view(config.cache_dir)) {
                Some(d) => r matches Ok(x) && x@ == d,
                None => r == Err::<String, CliError>(CliError::MissingCacheDir),
            },
    {
        match first_present(&self.cache_dir, env_cache_dir, &config.cache_dir) {
            Some(d) => Ok(d),
            None => Err(CliError::MissingCacheDir),
        }
    }

    /// The AppID and AppSecret: each from the options, else from the environment
    /// (`ANIME_TOOL_APPID`, `ANIME_TOOL_APPSECRET`), else from the configuration;
    /// neither may be blank.
    pub fn credentials(
        &self,
        env_appid: Option<String>,
        env_appsecret: Option<String>,
        config: &Config,
    ) -> (r: Result<(String, String), CliError>)
        ensures
            ({
                let id = first_of(opt_view(self.appid), opt_view(env_appid), opt_view(config.appid));
                let secret = first_of(
                    opt_view(self.appsecret),
                    opt_view(env_appsecret),
                    opt_view(config.appsecret),
                );
                match (id, secret) {
                    (None, _) => r == Err::<(String, String), CliError>(CliError::MissingAppId),
                    (Some(_), None) => r == Err::<(String, String), CliError>(
                        CliError::MissingAppSecret,
                    ),
                    (Some(i), Some(s)) => if trim(i).len() == 0 || trim(s).len() == 0 {
                        r == Err::<(String, String), CliError>(CliError::BlankCredentials)
                    } else {
                        r matches Ok((a, b)) && a@ == i && b@ == s
                    },
                }
            }),
    {
        let appid = match first_present(&self.appid, env_appid, &config.appid) {
            Some(a) => a,
            None => {
                return Err(CliError::MissingAppId);
            },
        };
        let appsecret = match first_present(&self.appsecret, env_appsecret, &config.appsecret) {
            Some(s) => s,
            None => {
                return Err(CliError::MissingAppSecret);
            },
        };
        if is_blank(&appid) || is_blank(&appsecret) {
            return Err(CliError::BlankCredentials);
        }
        Ok((appid, appsecret))
    }
}

impl QueryArgs {
    pub fn force_query(&self) -> (b: bool)
        ensures
            b == self.query,
    {
        self.query
    }

    pub fn allow_network(&self) -> (b: bool)
        ensures
            b == !self.no_query,
    {
        !self.no_query
    }

    /// What to do given whether the cache file exists: keep an existing cache unless
    /// a request is forced; otherwise query, unless `--no-query` forbids it.
    pub fn cache_action(&self, cache_exists: bool) -> (a: CacheAction)
        ensures
            a == (if cache_exists && !self.query {
                CacheAction::UseCache
            } else if self.no_query {
                CacheAction::Refuse
            } else {
                CacheAction::Query
            }),
    {
        if cache_exists && !self.force_query() {
            CacheAction::UseCache
        } else if !self.allow_network() {
            CacheAction::Refuse
        } else {
            CacheAction::Query
        }
    }
}

impl CliError {
    /// The message that reports the error.
    pub fn to_message(&self) -> (r: String)
        ensures
            r@ == match *self {
                CliError::MissingCacheDir => "未设置缓存目录。请使用 --cache-dir/-c、ANIME_TOOL_CACHE_DIR 或配置文件中的 cache_dir"@,
                CliError::MissingAppId => "未设置 AppID"@,
                CliError::MissingAppSecret => "未设置 AppSecret"@,
                CliError::BlankCredentials => "AppID/AppSecret 不能为空"@,
            },
    {
        match self {
            CliError::MissingCacheDir => crate::text::owned(
                "未设置缓存目录。请使用 --cache-dir/-c、ANIME_TOOL_CACHE_DIR 或配置文件中的 cache_dir",
            ),
            CliError::MissingAppId => crate::text::owned("未设置 AppID"),
            CliError::MissingAppSecret => crate::text::owned("未设置 AppSecret"),
            CliError::BlankCredentials => crate::text::owned("AppID/AppSecret 不能为空"),
        }
    }
}


/// A setting given in the options wins over the environment, which wins over the
/// configuration file.
pub proof fn law_options_before_environment_before_config(
    a: Seq<char>,
    b: Option<Seq<char>>,
    c: Option<Seq<char>>,
    e: Seq<char>,
)
    ensures
        first_of(Some(a), b, c) == Some(a),
        first_of(None, Some(e), c) == Some(e),
        first_of(None, None, c) == c,
{
}

} // verus!
