//! The global configuration: cache directory and Dandanplay credentials.
use vstd::prelude::*;
use crate::path::{join, path_join};

verus! {

/// The content of the configuration file.
pub struct Config {
    pub cache_dir: Option<String>,
    pub appid: Option<String>,
    pub appsecret: Option<String>,
}

pub open spec fn anime_tool() -> Seq<char> {
    seq!['a', 'n', 'i', 'm', 'e', '-', 't', 'o', 'o', 'l']
}

pub open spec fn config_json() -> Seq<char> {
    seq!['c', 'o', 'n', 'f', 'i', 'g', '.', 'j', 's', 'o', 'n']
}

pub open spec fn dot_config() -> Seq<char> {
    seq!['.', 'c', 'o', 'n', 'f', 'i', 'g']
}

/// `<base>/anime-tool/config.json`, where the base is `XDG_CONFIG_HOME` when it is set,
/// else the platform's configuration directory, else `.config`.
pub open spec fn spec_default_path(xdg: Option<Seq<char>>, platform: Option<Seq<char>>) -> Seq<char> {
    let base = match xdg {
        Some(x) => x,
        None => match platform {
            Some(p) => p,
            None => dot_config(),
        },
    };
    join(join(base, anime_tool()), config_json())
}

impl Config {
    /// An empty configuration.
    pub fn empty() -> (c: Self)
        ensures
            c.cache_dir is None && c.appid is None && c.appsecret is None,
    {
        Config { cache_dir: None, appid: None, appsecret: None }
    }

    /// The default place of the configuration file, from the value of `XDG_CONFIG_HOME`
    /// and the platform's configuration directory.
    pub fn default_path(xdg_config_home: Option<String>, platform_config_dir: Option<String>) -> (r:
        String)
        ensures
            r@ == spec_default_path(
                match xdg_config_home {
                    Some(x) => Some(x@),
                    None => None,
                },
                match platform_config_dir {
                    Some(p) => Some(p@),
                    None => None,
                },
            ),
    {
        let base = match xdg_config_home {
            Some(x) => x,
            None => match platform_config_dir {
                Some(p) => p,
                None => crate::text::owned(".config"),
            },
        };
        proof {
            reveal_strlit(".config");
            reveal_strlit("anime-tool");
            reveal_strlit("config.json");
            assert(".config"@ =~= dot_config());
            assert("anime-tool"@ =~= anime_tool());
            assert("config.json"@ =~= config_json());
        }
        let dir = path_join(base.as_str(), "anime-tool");
        path_join(dir.as_str(), "config.json")
    }
}


/// Where the configuration file is by default: under `XDG_CONFIG_HOME` when it is set,
/// else under the platform's configuration directory, else under `.config`, always as
/// `anime-tool/config.json` below that base.
pub proof fn law_default_path_base(x: Seq<char>, p: Seq<char>, platform: Option<Seq<char>>)
    ensures
        spec_default_path(Some(x), platform) == join(
            join(x, seq!['a', 'n', 'i', 'm', 'e', '-', 't', 'o', 'o', 'l']),
            seq!['c', 'o', 'n', 'f', 'i', 'g', '.', 'j', 's', 'o', 'n'],
        ),
        spec_default_path(None, Some(p)) == join(
            join(p, seq!['a', 'n', 'i', 'm', 'e', '-', 't', 'o', 'o', 'l']),
            seq!['c', 'o', 'n', 'f', 'i', 'g', '.', 'j', 's', 'o', 'n'],
        ),
        spec_default_path(None, None) == join(
            join(seq!['.', 'c', 'o', 'n', 'f', 'i', 'g'], seq!['a', 'n', 'i', 'm', 'e', '-', 't', 'o', 'o', 'l']),
            seq!['c', 'o', 'n', 'f', 'i', 'g', '.', 'j', 's', 'o', 'n'],
        ),
{
}

} // verus!
