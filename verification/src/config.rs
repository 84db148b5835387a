use vstd::prelude::*;

verus! {

/// Where the history server is and how to authenticate to it.
#[derive(Debug)]
pub struct ServerConfig {
    pub url: String,
    pub basic_auth_user: Option<String>,
    pub basic_auth_password: Option<String>,
}

/// Settings of the interactive search.
#[derive(Debug)]
pub struct SearchConfig {
    /// If set, filter results to this hostname only
    pub hostname: Option<String>,
    /// Number of records to fetch per page
    pub page_size: usize,
    /// Deduplicate by command string (keep most recently used)
    pub dedup: bool,
    /// Height of the finder window (e.g. `"40%"`)
    pub height: String,
}

/// Settings of `clh add`.
#[derive(Debug)]
pub struct AddConfig {
    /// Regular expressions: matching commands are not recorded
    pub ignore_patterns: Vec<String>,
}

/// The whole configuration file.
#[derive(Debug)]
pub struct Config {
    pub server: ServerConfig,
    pub search: SearchConfig,
    pub add: AddConfig,
}

/// Records fetched per page when the configuration does not say.
pub const DEFAULT_PAGE_SIZE: usize = 1000;

/// The finder's height when the configuration does not say: the full screen.
pub open spec fn default_height() -> Seq<char> {
    seq!['1', '0', '0', '%']
}

impl Default for SearchConfig {
    fn default() -> (s: SearchConfig)
        ensures
            s.hostname is None,
            s.page_size == DEFAULT_PAGE_SIZE,
            s.dedup,
            s.height@ == default_height(),
    {
        let mut h: Vec<char> = Vec::new();
        h.push('1');
        h.push('0');
        h.push('0');
        h.push('%');
        assert(h@ == default_height());
        SearchConfig {
            hostname: None,
            page_size: DEFAULT_PAGE_SIZE,
            dedup: true,
            height: crate::text::string_from_chars(&h),
        }
    }
}

impl Default for AddConfig {
    fn default() -> (a: AddConfig)
        ensures
            a.ignore_patterns@.len() == 0,
    {
        AddConfig { ignore_patterns: Vec::new() }
    }
}

/// The text of an optional string, as an optional sequence of characters.
pub open spec fn opt_text(s: Option<String>) -> Option<Seq<char>> {
    match s {
        Some(t) => Some(t@),
        None => None,
    }
}

/// The text of an optional string slice, as an optional sequence of characters.
pub open spec fn opt_str_text(s: Option<&str>) -> Option<Seq<char>> {
    match s {
        Some(t) => Some(t@),
        None => None,
    }
}

/// An owned copy of an optional string slice.
pub fn opt_to_owned(s: Option<&str>) -> (r: Option<String>)
    ensures
        opt_text(r) == opt_str_text(s),
{
    match s {
        Some(t) => Some(t.to_owned()),
        None => None,
    }
}

impl Config {
    /// The configuration that `clh config init` writes: the server and its
    /// credentials as given, default search and add settings.
    pub fn initial(url: &str, user: Option<&str>, password: Option<&str>) -> (cfg: Config)
        ensures
            cfg.server.url@ == url@,
            opt_text(cfg.server.basic_auth_user) == opt_str_text(user),
            opt_text(cfg.server.basic_auth_password) == opt_str_text(password),
            cfg.search.hostname is None,
            cfg.search.page_size == DEFAULT_PAGE_SIZE,
            cfg.search.dedup,
            cfg.search.height@ == default_height(),
            cfg.add.ignore_patterns@.len() == 0,
    {
        Config {
            server: ServerConfig {
                url: url.to_owned(),
                basic_auth_user: opt_to_owned(user),
                basic_auth_password: opt_to_owned(password),
            },
            search: SearchConfig::default(),
            add: AddConfig::default(),
        }
    }
}

} // verus!
