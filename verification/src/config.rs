//! The configuration of the proxy.
use std::path::PathBuf;
use vstd::prelude::*;
use vstd::string::*;

use crate::text::{decimal, decimal_i64, text_pairs, texts};

verus! {

/// Where the proxy listens.
#[derive(Debug)]
pub struct ServerCfg {
    pub host: String,
    pub port: u16,
    pub listen_paths: Vec<String>,
}

impl ServerCfg {
    /// Whether these are the settings that hold where nothing is configured.
    pub open spec fn is_default(self) -> bool {
        &&& self.host@ == "127.0.0.1"@
        &&& self.port == 8787
        &&& texts(self.listen_paths@) == seq!["/backend-api/codex/responses"@, "/v1/responses"@]
    }
}

impl Default for ServerCfg {
    fn default() -> (r: Self)
        ensures
            r.is_default(),
    {
        let listen_paths = vec![
            "/backend-api/codex/responses".to_owned(),
            "/v1/responses".to_owned(),
        ];
        assert(texts(listen_paths@) =~= seq![
            "/backend-api/codex/responses"@,
            "/v1/responses"@,
        ]);
        ServerCfg { host: "127.0.0.1".to_owned(), port: 8787, listen_paths }
    }
}

/// Where requests are sent.
#[derive(Debug)]
pub struct UpstreamCfg {
    pub url: String,
    pub mode: String,
    pub headers: Vec<(String, String)>,
}

impl UpstreamCfg {
    /// Whether these are the settings that hold where nothing is configured.
    pub open spec fn is_default(self) -> bool {
        &&& self.url@ == "https://chatgpt.com/backend-api/codex/responses"@
        &&& self.mode@ == "fixed"@
        &&& self.headers@.len() == 0
    }
}

impl Default for UpstreamCfg {
    fn default() -> (r: Self)
        ensures
            r.is_default(),
    {
        UpstreamCfg {
            url: "https://chatgpt.com/backend-api/codex/responses".to_owned(),
            mode: "fixed".to_owned(),
            headers: Vec::new(),
        }
    }
}

/// The credentials of the proxy and when it uses them.
#[derive(Debug)]
pub struct AuthCfg {
    pub mode: String,
    pub access_token: String,
    pub chatgpt_account_id: String,
}

impl AuthCfg {
    /// Whether these are the settings that hold where nothing is configured.
    pub open spec fn is_default(self) -> bool {
        &&& self.mode@ == "passthrough_then_inject"@
        &&& self.access_token@.len() == 0
        &&& self.chatgpt_account_id@.len() == 0
    }
}

impl Default for AuthCfg {
    fn default() -> (r: Self)
        ensures
            r.is_default(),
    {
        AuthCfg {
            mode: "passthrough_then_inject".to_owned(),
            access_token: String::new(),
            chatgpt_account_id: String::new(),
        }
    }
}

/// When and how a truncated response is continued.
#[derive(Debug)]
pub struct ContinueCfg {
    pub enabled: bool,
    pub truncation_step: i64,
    pub max_continue: usize,
    pub min_n: i64,
    pub max_n: i64,
    pub method: String,
    pub marker_text: String,
    pub forward_marker: bool,
    pub continue_tool_name: String,
    pub continue_output_text: String,
    pub repair_followup: String,
    pub max_total_output_tokens: i64,
}

impl ContinueCfg {
    /// Whether these are the settings that hold where nothing is configured.
    pub open spec fn is_default(self) -> bool {
        &&& self.enabled
        &&& self.truncation_step == 518
        &&& self.max_continue == 8
        &&& self.min_n == 1
        &&& self.max_n == 0
        &&& self.method@ == "commentary"@
        &&& self.marker_text@ == "Continue thinking..."@
        &&& !self.forward_marker
        &&& self.continue_tool_name@ == "continue_thinking"@
        &&& self.continue_output_text@ == "Please continue thinking about the query."@
        &&& self.repair_followup@ == "off"@
        &&& self.max_total_output_tokens == 0
    }
}

impl Default for ContinueCfg {
    fn default() -> (r: Self)
        ensures
            r.is_default(),
    {
        ContinueCfg {
            enabled: true,
            truncation_step: 518,
            max_continue: 8,
            min_n: 1,
            max_n: 0,
            method: "commentary".to_owned(),
            marker_text: "Continue thinking...".to_owned(),
            forward_marker: false,
            continue_tool_name: "continue_thinking".to_owned(),
            continue_output_text: "Please continue thinking about the query.".to_owned(),
            repair_followup: "off".to_owned(),
            max_total_output_tokens: 0,
        }
    }
}

/// How responses are streamed.
#[derive(Debug)]
pub struct StreamCfg {
    pub force_include_encrypted: bool,
    pub rechunk_final_answer: bool,
    pub rechunk_size: usize,
}

impl StreamCfg {
    /// Whether these are the settings that hold where nothing is configured.
    pub open spec fn is_default(self) -> bool {
        &&& self.force_include_encrypted
        &&& self.rechunk_final_answer
        &&& self.rechunk_size == 8
    }
}

impl Default for StreamCfg {
    fn default() -> (r: Self)
        ensures
            r.is_default(),
    {
        StreamCfg { force_include_encrypted: true, rechunk_final_answer: true, rechunk_size: 8 }
    }
}

/// What is logged.
#[derive(Debug)]
pub struct LogCfg {
    pub level: String,
    pub dump_rounds_dir: String,
}

impl LogCfg {
    /// Whether these are the settings that hold where nothing is configured.
    pub open spec fn is_default(self) -> bool {
        &&& self.level@ == "info"@
        &&& self.dump_rounds_dir@.len() == 0
    }
}

impl Default for LogCfg {
    fn default() -> (r: Self)
        ensures
            r.is_default(),
    {
        LogCfg { level: "info".to_owned(), dump_rounds_dir: String::new() }
    }
}

/// `std::path::PathBuf`, a path of the file system.
#[verifier::external_type_specification]
#[verifier::external_body]
pub struct ExPathBuf(PathBuf);

/// The path that a text writes down, by the rules of the platform that the crate is built for.
pub uninterp spec fn path_of(text: Seq<char>) -> PathBuf;

/// The path without its last component, if it has one, by the rules of the platform.
pub uninterp spec fn path_parent(path: PathBuf) -> Option<PathBuf>;

/// Whether a path is the empty text.
pub uninterp spec fn path_is_empty(path: PathBuf) -> bool;

/// The path of `name` inside `path`.
pub uninterp spec fn path_join(path: PathBuf, name: Seq<char>) -> PathBuf;

/// `PathBuf::from` writes a text down as a path; the path is empty where the text is.
#[verifier::external_body]
fn path_from(text: &str) -> (r: PathBuf)
    ensures
        r == path_of(text@),
        path_is_empty(r) == (text@.len() == 0),
{
    PathBuf::from(text)
}

/// `Path::parent` leaves out the last component of a path.
#[verifier::external_body]
fn parent_of(path: &PathBuf) -> (r: Option<PathBuf>)
    ensures
        r == path_parent(*path),
{
    match path.parent() {
        Some(p) => Some(p.to_path_buf()),
        None => None,
    }
}

/// `OsStr::is_empty` tells whether the text of a path is empty.
#[verifier::external_body]
fn has_no_text(path: &PathBuf) -> (r: bool)
    ensures
        r == path_is_empty(*path),
{
    path.as_os_str().is_empty()
}

/// `Path::join` puts a name behind a path.
#[verifier::external_body]
fn join(path: &PathBuf, name: &str) -> (r: PathBuf)
    ensures
        r == path_join(*path, name@),
{
    path.join(name)
}

/// The configuration of the proxy.
#[derive(Debug)]
pub struct Config {
    pub server: ServerCfg,
    pub upstream: UpstreamCfg,
    pub auth: AuthCfg,
    pub cont: ContinueCfg,
    pub stream: StreamCfg,
    pub log: LogCfg,
    pub root: PathBuf,
}

impl Config {
    /// Whether all sections hold what holds where nothing is configured.
    pub open spec fn sections_default(self) -> bool {
        &&& self.server.is_default()
        &&& self.upstream.is_default()
        &&& self.auth.is_default()
        &&& self.cont.is_default()
        &&& self.stream.is_default()
        &&& self.log.is_default()
    }
}

impl Default for Config {
    fn default() -> (r: Self)
        ensures
            r.sections_default(),
            r.root == path_of("."@),
    {
        Config {
            server: ServerCfg::default(),
            upstream: UpstreamCfg::default(),
            auth: AuthCfg::default(),
            cont: ContinueCfg::default(),
            stream: StreamCfg::default(),
            log: LogCfg::default(),
            root: path_from("."),
        }
    }
}

/// The directory that a file lies in; the current one, where its path names none.
pub open spec fn directory_of(path: PathBuf) -> PathBuf {
    match path_parent(path) {
        Some(p) => if path_is_empty(p) {
            path_of("."@)
        } else {
            p
        },
        None => path_of("."@),
    }
}

/// The directory that a file lies in, given the parent of its path and whether that is empty.
pub fn directory_of_parent(parent: Option<PathBuf>, is_empty: bool) -> (r: PathBuf)
    ensures
        r == (match parent {
            Some(p) => if is_empty {
                path_of("."@)
            } else {
                p
            },
            None => path_of("."@),
        }),
{
    match parent {
        Some(p) => if is_empty {
            path_from(".")
        } else {
            p
        },
        None => path_from("."),
    }
}

/// The directory that a file lies in.
pub fn config_root(path: &PathBuf) -> (r: PathBuf)
    ensures
        r == directory_of(*path),
{
    match parent_of(path) {
        Some(p) => {
            let is_empty = has_no_text(&p);
            directory_of_parent(Some(p), is_empty)
        },
        None => directory_of_parent(None, false),
    }
}

/// The configuration file that belongs to an executable: `config.toml` beside it.
pub fn config_path_for_exe(exe: &PathBuf) -> (r: PathBuf)
    ensures
        r == path_join(directory_of(*exe), "config.toml"@),
{
    let dir = config_root(exe);
    join(&dir, "config.toml")
}

/// Whether `r` is the configuration that comes of what was read of the file at `path`.
pub open spec fn is_loaded(
    path: PathBuf,
    file: Option<Result<Config, String>>,
    r: Result<Config, String>,
) -> bool {
    match file {
        None => r is Ok && r->Ok_0.sections_default() && r->Ok_0.root == directory_of(path),
        Some(Ok(cfg)) => r == Ok::<Config, String>(Config { root: directory_of(path), ..cfg }),
        Some(Err(e)) => r == Err::<Config, String>(e),
    }
}

/// The configuration, given what came of reading the file at `path`: nothing where there is no
/// such file, else its settings or what is wrong with it.
pub fn load_config(path: &PathBuf, file: Option<Result<Config, String>>) -> (r: Result<
    Config,
    String,
>)
    ensures
        is_loaded(*path, file, r),
        match file {
            None => r is Ok && r->Ok_0.sections_default() && r->Ok_0.root == directory_of(*path),
            Some(Ok(cfg)) => r == Ok::<Config, String>(Config { root: directory_of(*path), ..cfg }),
            Some(Err(e)) => r == Err::<Config, String>(e),
        },
{
    let root = config_root(path);
    match file {
        None => {
            let mut cfg = Config::default();
            cfg.root = root;
            Ok(cfg)
        },
        Some(Ok(cfg)) => {
            let mut cfg = cfg;
            cfg.root = root;
            Ok(cfg)
        },
        Some(Err(e)) => Err(e),
    }
}

/// A configured header value: a text, an integer or a truth value; anything else comes with the
/// text that writes it down.
pub enum HeaderSetting {
    Text(String),
    Integer(i64),
    Boolean(bool),
    Other(String),
}

impl HeaderSetting {
    /// The text that is sent for the value.
    pub open spec fn text(self) -> Seq<char> {
        match self {
            HeaderSetting::Text(s) => s@,
            HeaderSetting::Integer(i) => decimal(i as int),
            HeaderSetting::Boolean(b) => if b {
                "true"@
            } else {
                "false"@
            },
            HeaderSetting::Other(s) => s@,
        }
    }
}

/// The text of each configured header.
pub fn header_texts(raw: Vec<(String, HeaderSetting)>) -> (r: Vec<(String, String)>)
    ensures
        text_pairs(r@) == raw@.map_values(|p: (String, HeaderSetting)| (p.0@, p.1.text())),
{
    let mut out: Vec<(String, String)> = Vec::new();
    let ghost want = raw@.map_values(|p: (String, HeaderSetting)| (p.0@, p.1.text()));
    assert(text_pairs(out@) =~= want.take(0));
    for entry in it: raw
        invariant
            it.seq() == raw@,
            want == raw@.map_values(|p: (String, HeaderSetting)| (p.0@, p.1.text())),
            text_pairs(out@) == want.take(it.index() as int),
    {
        let ghost before = out@;
        let ghost text = entry.1.text();
        let (name, setting) = entry;
        let value = match setting {
            HeaderSetting::Text(s) => s,
            HeaderSetting::Integer(i) => decimal_i64(i),
            HeaderSetting::Boolean(b) => if b {
                "true".to_owned()
            } else {
                "false".to_owned()
            },
            HeaderSetting::Other(s) => s,
        };
        let pair = (name, value);
        out.push(pair);
        assert(text_pairs(out@) =~= text_pairs(before).push((pair.0@, pair.1@)));
        assert(want.take(it.index() + 1) =~= want.take(it.index() as int).push((pair.0@, text)));
    }
    assert(want.take(want.len() as int) =~= want);
    out
}

/// A configured header is sent as the text of its value: a text as it is, a number in decimal, and
/// a truth value by its name.
pub proof fn law_header_text(s: String, i: i64)
    ensures
        HeaderSetting::Text(s).text() == s@,
        HeaderSetting::Other(s).text() == s@,
        HeaderSetting::Integer(i).text() == decimal(i as int),
        HeaderSetting::Boolean(true).text() == "true"@,
        HeaderSetting::Boolean(false).text() == "false"@,
{
}

/// A file lies in the directory that its path names, and in the current one where it names none.
pub proof fn law_directory(path: PathBuf, parent: PathBuf)
    ensures
        path_parent(path) is None ==> directory_of(path) == path_of("."@),
        path_parent(path) == Some(parent) && path_is_empty(parent) ==> directory_of(path)
            == path_of("."@),
        path_parent(path) == Some(parent) && !path_is_empty(parent) ==> directory_of(path)
            == parent,
{
}

/// Where nothing is configured, no credentials are, the upstream is fixed, and truncated responses
/// are continued and cut anew in pieces of eight characters.
pub proof fn law_defaults(cfg: Config)
    requires
        cfg.sections_default(),
    ensures
        cfg.auth.access_token@.len() == 0 && cfg.auth.chatgpt_account_id@.len() == 0,
        cfg.auth.mode@ == "passthrough_then_inject"@,
        cfg.upstream.mode@ == "fixed"@,
        cfg.upstream.headers@.len() == 0,
        cfg.upstream.url@ == "https://chatgpt.com/backend-api/codex/responses"@,
        cfg.cont.enabled && cfg.cont.max_total_output_tokens == 0,
        cfg.cont.continue_tool_name@ == "continue_thinking"@,
        cfg.cont.continue_output_text@ == "Please continue thinking about the query."@,
        cfg.cont.repair_followup@ == "off"@,
        cfg.stream.force_include_encrypted && cfg.stream.rechunk_final_answer
            && cfg.stream.rechunk_size == 8,
        cfg.server.host@ == "127.0.0.1"@ && cfg.server.port == 8787,
        cfg.log.level@ == "info"@ && cfg.log.dump_rounds_dir@.len() == 0,
{
}

/// The root of a configuration is the directory of its file, whatever the file says; all else is
/// what the file says. What is wrong with a file is told as it is, and nothing is wrong with a file
/// that is not there.
pub proof fn law_loaded(
    path: PathBuf,
    file: Option<Result<Config, String>>,
    r: Result<Config, String>,
)
    requires
        is_loaded(path, file, r),
    ensures
        r is Ok ==> r->Ok_0.root == directory_of(path),
        file is None ==> r is Ok,
        file is Some && file->Some_0 is Ok ==> {
            let cfg = file->Some_0->Ok_0;
            &&& r is Ok
            &&& r->Ok_0.server == cfg.server
            &&& r->Ok_0.upstream == cfg.upstream
            &&& r->Ok_0.auth == cfg.auth
            &&& r->Ok_0.cont == cfg.cont
            &&& r->Ok_0.stream == cfg.stream
            &&& r->Ok_0.log == cfg.log
        },
        file is Some && file->Some_0 is Err ==> r is Err && r->Err_0 == file->Some_0->Err_0,
{
}

} // verus!
