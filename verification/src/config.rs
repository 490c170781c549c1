//! User configuration.
//!
//! Settings come from `config.toml` in the user's config directory
//! (`$XDG_CONFIG_HOME/termkrush/` or `~/.config/termkrush/`), falling back
//! to defaults when the file is missing or a key is absent. Today the only
//! key is the crate root:
//!
//! ```toml
//! crate_root = "~/Music/termkrush"
//! ```
//!
//! Reading the environment and the file is the caller's part; the values
//! it found come in as plain arguments.
use vstd::prelude::*;
use crate::paths::{join, joined, pushed};
use crate::text::chars_of;

verus! {

#[verifier::external_type_specification]
#[verifier::external_body]
#[verifier::reject_recursive_types(K)]
#[verifier::reject_recursive_types(V)]
pub struct ExTomlMap<K, V>(toml::map::Map<K, V>);

#[verifier::external_type_specification]
#[verifier::external_body]
pub struct ExTomlValue(toml::Value);

#[verifier::external_type_specification]
#[verifier::external_body]
pub struct ExTomlError(toml::de::Error);

/// The string-valued top-level keys of TOML document `text`, when it
/// parses as a table; `None` when it does not.
pub uninterp spec fn toml_strings(text: Seq<char>) -> Option<Map<Seq<char>, Seq<char>>>;

/// The string-valued entries of a parsed table.
pub uninterp spec fn table_strings(t: toml::Table) -> Map<Seq<char>, Seq<char>>;

/// Parse `text` as a TOML table (`str::parse::<toml::Table>`). Claimed:
/// it succeeds exactly when `toml_strings` has a value for the text, and
/// the table's string entries are those.
#[verifier::external_body]
fn parse_table(text: &str) -> (r: Result<toml::Table, toml::de::Error>)
    ensures
        r is Ok <==> toml_strings(text@) is Some,
        r matches Ok(t) ==> table_strings(t) == toml_strings(text@)->0,
{
    text.parse::<toml::Table>()
}

/// The string stored under `key` in `t` (`toml::map::Map::get`, keeping
/// only a `Value::String`). Claimed: present exactly when the table has a
/// string entry for the key, and equal to it.
#[verifier::external_body]
fn table_str(t: &toml::Table, key: &str) -> (r: Option<String>)
    ensures
        r is Some <==> table_strings(*t).contains_key(key@),
        r matches Some(s) ==> s@ == table_strings(*t)[key@],
{
    match t.get(key) {
        Some(toml::Value::String(s)) => Some(s.clone()),
        _ => None,
    }
}

/// The user's home directory: `$HOME`, else `%USERPROFILE%`, ignoring an
/// empty value.
pub open spec fn home_of(home_var: Option<Seq<char>>, profile_var: Option<Seq<char>>) -> Option<
    Seq<char>,
> {
    let v = match home_var {
        Some(h) => Some(h),
        None => profile_var,
    };
    match v {
        Some(h) if h.len() > 0 => Some(h),
        _ => None,
    }
}

/// `~/Music/termkrush`, or `Music/termkrush` without a home.
pub open spec fn default_root(home: Option<Seq<char>>) -> Seq<char> {
    let base = match home {
        Some(h) => joined(h, seq!['M', 'u', 's', 'i', 'c']),
        None => seq!['M', 'u', 's', 'i', 'c'],
    };
    joined(base, seq!['t', 'e', 'r', 'm', 'k', 'r', 'u', 's', 'h'])
}

/// `s` with a leading `~/` (or a bare `~`) expanded to `home`; other paths,
/// and all paths without a home, pass through.
pub open spec fn tilde_expanded(s: Seq<char>, home: Option<Seq<char>>) -> Seq<char> {
    if s == seq!['~'] {
        match home {
            Some(h) => h,
            None => s,
        }
    } else if s.len() >= 2 && s[0] == '~' && s[1] == '/' && home is Some {
        pushed(home->0, s.subrange(2, s.len() as int))
    } else {
        s
    }
}

/// The crate root a configuration names: the `crate_root` string when
/// there is one, tilde-expanded, else the default.
pub open spec fn configured_root(found: Option<Seq<char>>, home: Option<Seq<char>>) -> Seq<char> {
    match found {
        Some(s) => tilde_expanded(s, home),
        None => default_root(home),
    }
}

/// The `crate_root` key's name.
pub open spec fn crate_root_key() -> Seq<char> {
    seq!['c', 'r', 'a', 't', 'e', '_', 'r', 'o', 'o', 't']
}

/// The crate root a config file's text gives: its string `crate_root` if
/// it parses and has one, else the default.
pub open spec fn root_from_toml(text: Seq<char>, home: Option<Seq<char>>) -> Seq<char> {
    let found = match toml_strings(text) {
        Some(m) => if m.contains_key(crate_root_key()) {
            Some(m[crate_root_key()])
        } else {
            None
        },
        None => None,
    };
    configured_root(found, home)
}

/// The config file's path: `$XDG_CONFIG_HOME/termkrush/config.toml` (an
/// empty value counts as unset), else `~/.config/termkrush/config.toml`;
/// `None` without either.
pub open spec fn config_file(xdg: Option<Seq<char>>, home: Option<Seq<char>>) -> Option<Seq<char>> {
    let base = match xdg {
        Some(x) if x.len() > 0 => Some(x),
        _ => match home {
            Some(h) => Some(joined(h, seq!['.', 'c', 'o', 'n', 'f', 'i', 'g'])),
            None => None,
        },
    };
    match base {
        Some(b) => Some(
            joined(
                joined(b, seq!['t', 'e', 'r', 'm', 'k', 'r', 'u', 's', 'h']),
                seq!['c', 'o', 'n', 'f', 'i', 'g', '.', 't', 'o', 'm', 'l'],
            ),
        ),
        None => None,
    }
}

/// Resolved configuration.
#[derive(Debug, Clone, PartialEq, Eq)]
pub struct Config {
    /// Root directory scanned for the local crate.
    pub crate_root: String,
}

/// The user's home directory from the values of `$HOME` and
/// `%USERPROFILE%`.
pub fn home_dir(home_var: Option<String>, profile_var: Option<String>) -> (r: Option<String>)
    ensures
        match home_of(
            match home_var {
                Some(h) => Some(h@),
                None => None,
            },
            match profile_var {
                Some(h) => Some(h@),
                None => None,
            },
        ) {
            Some(h) => r matches Some(s) && s@ == h,
            None => r is None,
        },
{
    let v = match home_var {
        Some(h) => Some(h),
        None => profile_var,
    };
    match v {
        Some(h) => if !h.as_str().is_empty() {
            Some(h)
        } else {
            None
        },
        None => None,
    }
}


/// An optional string's characters.
pub open spec fn opt_chars(o: Option<&str>) -> Option<Seq<char>> {
    match o {
        Some(s) => Some(s@),
        None => None,
    }
}

fn lit(s: &str) -> (r: String)
    ensures
        r@ == s@,
{
    s.to_owned()
}

/// Default crate root: `~/Music/termkrush` (just `Music/termkrush` if the
/// home directory is unknown).
pub fn default_crate_root(home: Option<&str>) -> (r: String)
    ensures
        r@ == default_root(opt_chars(home)),
{
    proof {
        reveal_strlit("Music");
        reveal_strlit("termkrush");
    }
    let music = lit("Music");
    let name = lit("termkrush");
    assert(music@ =~= seq!['M', 'u', 's', 'i', 'c']);
    assert(name@ =~= seq!['t', 'e', 'r', 'm', 'k', 'r', 'u', 's', 'h']);
    let base = match home {
        Some(h) => join(h, music.as_str()),
        None => music,
    };
    join(base.as_str(), name.as_str())
}

/// Tilde expansion against an explicit home: a leading `~/` (or a bare
/// `~`) becomes the home directory; other paths pass through, as does any
/// path when there is no home.
pub fn expand_tilde_with(s: &str, home: Option<&str>) -> (r: String)
    ensures
        r@ == tilde_expanded(s@, opt_chars(home)),
{
    let cs = chars_of(s);
    if cs.len() == 1 && cs[0] == '~' {
        proof {
            assert(cs@ =~= seq!['~']);
        }
        return match home {
            Some(h) => h.to_owned(),
            None => s.to_owned(),
        };
    }
    proof {
        if s@ == seq!['~'] {
            assert(cs@[0] == '~');
        }
    }
    if cs.len() >= 2 && cs[0] == '~' && cs[1] == '/' {
        match home {
            Some(h) => {
                let rest = crate::text::copy_range(&cs, 2, cs.len());
                let rest_s = crate::text::string_of(rest.as_slice());
                if rest.len() > 0 && rest[0] == '/' {
                    return rest_s;
                }
                return join(h, rest_s.as_str());
            },
            None => {},
        }
    }
    s.to_owned()
}

/// Tilde expansion against the home directory that the values of `$HOME`
/// and `%USERPROFILE%` give.
pub fn expand_tilde(s: &str, home_var: Option<String>, profile_var: Option<String>) -> (r: String)
    ensures
        r@ == tilde_expanded(
            s@,
            home_of(
                match home_var {
                    Some(h) => Some(h@),
                    None => None,
                },
                match profile_var {
                    Some(h) => Some(h@),
                    None => None,
                },
            ),
        ),
{
    let home = home_dir(home_var, profile_var);
    match home {
        Some(h) => expand_tilde_with(s, Some(h.as_str())),
        None => expand_tilde_with(s, None),
    }
}

/// The crate root for a configuration whose `crate_root` string is
/// `found` (if it has one), given the home directory.
pub fn resolve_crate_root(found: Option<&str>, home: Option<&str>) -> (r: String)
    ensures
        r@ == configured_root(opt_chars(found), opt_chars(home)),
{
    match found {
        Some(s) => expand_tilde_with(s, home),
        None => default_crate_root(home),
    }
}

impl Config {
    /// The configuration when no file says otherwise.
    pub fn defaults(home: Option<&str>) -> (c: Config)
        ensures
            c.crate_root@ == default_root(opt_chars(home)),
    {
        Config { crate_root: default_crate_root(home) }
    }

    /// Read a configuration from TOML text, taking missing or non-string
    /// keys, and a text that does not parse, as the defaults.
    pub fn from_toml(text: &str, home: Option<&str>) -> (c: Config)
        ensures
            c.crate_root@ == root_from_toml(text@, opt_chars(home)),
    {
        proof {
            reveal_strlit("crate_root");
        }
        let key = lit("crate_root");
        assert(key@ =~= crate_root_key());
        match parse_table(text) {
            Ok(table) => {
                let found = table_str(&table, key.as_str());
                match found {
                    Some(s) => Config { crate_root: resolve_crate_root(Some(s.as_str()), home) },
                    None => Config::defaults(home),
                }
            },
            Err(_) => Config::defaults(home),
        }
    }
}

/// Path to the config file, from the values of `$XDG_CONFIG_HOME` and the
/// home directory; `None` when neither is known.
pub fn config_path(xdg: Option<&str>, home: Option<&str>) -> (r: Option<String>)
    ensures
        match config_file(opt_chars(xdg), opt_chars(home)) {
            Some(p) => r matches Some(s) && s@ == p,
            None => r is None,
        },
{
    proof {
        reveal_strlit(".config");
        reveal_strlit("termkrush");
        reveal_strlit("config.toml");
    }
    let dot_config = lit(".config");
    let name = lit("termkrush");
    let file = lit("config.toml");
    assert(dot_config@ =~= seq!['.', 'c', 'o', 'n', 'f', 'i', 'g']);
    assert(name@ =~= seq!['t', 'e', 'r', 'm', 'k', 'r', 'u', 's', 'h']);
    assert(file@ =~= seq!['c', 'o', 'n', 'f', 'i', 'g', '.', 't', 'o', 'm', 'l']);
    let base: Option<String> = match xdg {
        Some(x) if !x.is_empty() => Some(x.to_owned()),
        _ => match home {
            Some(h) => Some(join(h, dot_config.as_str())),
            None => None,
        },
    };
    match base {
        Some(b) => {
            let dir = join(b.as_str(), name.as_str());
            Some(join(dir.as_str(), file.as_str()))
        },
        None => None,
    }
}

} // verus!
