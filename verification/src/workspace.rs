//! The workspace: settings, provider configs, servers and the network.

use vstd::prelude::*;

use vstd::string::to_string_from_display_ensures;

use crate::conf_map::ConfMap;
use crate::order::{
    chars_lt, lemma_lex_lt_irreflexive, lemma_lex_lt_total, lemma_lex_lt_transitive, lex_lt,
};
use crate::text::{
    after_key, all_digits, chars_of, ends_with, find_char, first_index, last_index,
    lemma_last_index, lemma_last_index_found, line_ranges, lines, pieces, range_after_key,
    range_all_digits, range_ends_with, range_is, range_starts_with, ranges_within, rfind_char,
    second_field, second_field_range, starts_with, string_of, trim, trim_range, word_ranges, words,
    is_ws, trim_start, trim_end, strip_cr, lemma_first_index, lemma_trim_end_concat,
};

verus! {

/// `std::io::Error`, carried through as an opaque value.
#[verifier::external_type_specification]
#[verifier::external_body]
pub struct ExIoError(std::io::Error);

/// `serde_json::Error`, carried through as an opaque value.
#[verifier::external_type_specification]
#[verifier::external_body]
pub struct ExJsonError(serde_json::Error);

/// Why a workspace operation failed.
#[derive(Debug)]
pub enum WorkspaceError {
    Io(std::io::Error),
    Json(serde_json::Error),
    Message(String),
}

/// `e` is the error with message `m`.
pub open spec fn is_message(e: WorkspaceError, m: Seq<char>) -> bool {
    e matches WorkspaceError::Message(s) && s@ == m
}

/// A message error whose text is `m`.
pub fn message_error(m: &str) -> (e: WorkspaceError)
    ensures
        is_message(e, m@),
{
    WorkspaceError::Message(String::from_str(m))
}

impl WorkspaceError {
    /// The text shown for this error: `IO error: ..`, `JSON error: ..` or the message itself.
    pub fn describe(&self) -> (s: String)
        ensures
            self matches WorkspaceError::Message(m) ==> s@ == m@,
            self matches WorkspaceError::Io(e) ==> exists|d: String|
                to_string_from_display_ensures::<std::io::Error>(e, d) && s@ == "IO error: "@ + d@,
            self matches WorkspaceError::Json(e) ==> exists|d: String|
                to_string_from_display_ensures::<serde_json::Error>(e, d) && s@ == "JSON error: "@
                    + d@,
    {
        match self {
            WorkspaceError::Io(e) => {
                let mut s = String::from_str("IO error: ");
                let detail = e.to_string();
                s.append(detail.as_str());
                s
            },
            WorkspaceError::Json(e) => {
                let mut s = String::from_str("JSON error: ");
                let detail = e.to_string();
                s.append(detail.as_str());
                s
            },
            WorkspaceError::Message(m) => m.clone(),
        }
    }
}

/// The view of an optional string.
pub open spec fn opt_view(o: Option<String>) -> Option<Seq<char>> {
    match o {
        Some(s) => Some(s@),
        None => None,
    }
}

/// A copy of an optional string.
pub fn opt_clone(o: &Option<String>) -> (r: Option<String>)
    ensures
        opt_view(r) == opt_view(*o),
{
    match o {
        Some(s) => Some(s.clone()),
        None => None,
    }
}

/// What the application remembers between runs.
#[derive(Debug, Clone)]
pub struct Settings {
    pub workspace: Option<String>,
    pub selected_server: Option<u8>,
}

/// The content of `Settings`.
pub struct SettingsView {
    pub workspace: Option<Seq<char>>,
    pub selected_server: Option<u8>,
}

impl View for Settings {
    type V = SettingsView;

    open spec fn view(&self) -> SettingsView {
        SettingsView { workspace: opt_view(self.workspace), selected_server: self.selected_server }
    }
}

impl Default for Settings {
    fn default() -> (s: Settings)
        ensures
            s@.workspace is None,
            s@.selected_server is None,
    {
        Settings { workspace: None, selected_server: None }
    }
}

/// The settings `s` with `index` as the selected server.
pub open spec fn with_selected(s: SettingsView, index: u8) -> SettingsView {
    SettingsView { selected_server: Some(index), ..s }
}

/// The settings `s` with `path` as the workspace.
pub open spec fn with_workspace(s: SettingsView, path: Seq<char>) -> SettingsView {
    SettingsView { workspace: Some(path), ..s }
}

impl Settings {
    /// The server the user selected last, if any.
    pub fn selected_server(&self) -> (r: Option<u8>)
        ensures
            r == self@.selected_server,
    {
        self.selected_server
    }

    /// Remembers `index` as the selected server; the workspace stays.
    pub fn select_server(&mut self, index: u8)
        ensures
            final(self)@ == with_selected(old(self)@, index),
    {
        self.selected_server = Some(index);
    }
}

/// What is set is read back: the selected server after selecting `index` is
/// `index`, the workspace after setting `path` is `path`, and either change
/// leaves the other setting as it was, in whichever order they are made.
pub proof fn lemma_settings_read_back(s: SettingsView, index: u8, path: Seq<char>)
    ensures
        with_selected(s, index).selected_server == Some(index),
        with_selected(s, index).workspace == s.workspace,
        with_workspace(s, path).workspace == Some(path),
        with_workspace(s, path).selected_server == s.selected_server,
        with_selected(with_workspace(s, path), index) == with_workspace(
            with_selected(s, index),
            path,
        ),
{
}

/// The configured workspace folder, if any.
pub fn workspace_path(settings: &Settings) -> (r: Option<String>)
    ensures
        opt_view(r) == settings@.workspace,
{
    opt_clone(&settings.workspace)
}

/// Makes `path` the workspace. A path that is not a directory is refused and
/// the settings stay as they were; otherwise the workspace becomes `path`, the
/// selected server stays, and `path` is returned.
pub fn set_workspace(settings: &mut Settings, path: &str, path_is_dir: bool) -> (r: Result<
    String,
    WorkspaceError,
>)
    ensures
        !path_is_dir ==> r is Err && is_message(r->Err_0, "Path is not a directory"@),
        !path_is_dir ==> final(settings)@ == old(settings)@,
        path_is_dir ==> r is Ok && r->Ok_0@ == path@ && final(settings)@ == with_workspace(
            old(settings)@,
            path@,
        ),
{
    if !path_is_dir {
        return Err(message_error("Path is not a directory"));
    }
    settings.workspace = Some(String::from_str(path));
    Ok(String::from_str(path))
}

/// The workspace that a command needs, or the refusal when none is configured.
pub fn require_workspace(workspace: Option<String>) -> (r: Result<String, String>)
    ensures
        workspace matches Some(w) ==> r is Ok && r->Ok_0@ == w@,
        workspace is None ==> r is Err && r->Err_0@ == "No workspace configured"@,
{
    match workspace {
        Some(w) => Ok(w),
        None => Err(String::from_str("No workspace configured")),
    }
}

/// Generated connect configs: `smart<N>-wifi.conf` or `smart<N>-eth.conf`,
/// with `N` one or more ASCII digits.
pub open spec fn is_generated_name(n: Seq<char>) -> bool {
    &&& starts_with(n, "smart"@)
    &&& ends_with(n, ".conf"@)
    &&& {
        let rest = n.skip("smart"@.len() as int);
        match first_index(rest, '-') {
            None => false,
            Some(k) => {
                let num = rest.take(k);
                let suffix = rest.skip(k + 1);
                num.len() > 0 && all_digits(num) && (suffix == "wifi.conf"@ || suffix
                    == "eth.conf"@)
            },
        }
    }
}

/// Generated connect configs live beside providers; never treat them as sources.
pub fn is_generated_conf_name(name: &str) -> (r: bool)
    ensures
        r == is_generated_name(name@),
{
    let v = chars_of(name);
    let n = v.len();
    let smart = chars_of("smart");
    let conf = chars_of(".conf");
    assert(v@.subrange(0, n as int) =~= v@);
    if !range_starts_with(&v, 0, n, &smart) || !range_ends_with(&v, 0, n, &conf) {
        return false;
    }
    let start = smart.len();
    let ghost rest = v@.skip(start as int);
    assert(rest =~= v@.subrange(start as int, n as int));
    match find_char(&v, start, n, '-') {
        None => false,
        Some(dash) => {
            assert(rest.take(dash - start) =~= v@.subrange(start as int, dash as int));
            assert(rest.skip(dash - start + 1) =~= v@.subrange(dash + 1, n as int));
            let wifi = chars_of("wifi.conf");
            let eth = chars_of("eth.conf");
            dash > start && range_all_digits(&v, start, dash) && (range_is(&v, dash + 1, n, &wifi)
                || range_is(&v, dash + 1, n, &eth))
        },
    }
}

/// How `parse_endpoint` splits `e`: around its last `:`.
pub open spec fn endpoint_parts(e: Seq<char>) -> Option<(Seq<char>, Seq<char>)> {
    match last_index(e, ':') {
        None => None,
        Some(i) => Some((e.take(i), e.skip(i + 1))),
    }
}

/// Splitting an endpoint and joining its parts with `:` gives it back, and
/// the port holds no `:`; an endpoint that does not split holds no `:`.
pub proof fn lemma_endpoint_rejoin(e: Seq<char>)
    ensures
        endpoint_parts(e) matches Some(p) ==> p.0 + ":"@ + p.1 == e && forall|i: int|
            0 <= i < p.1.len() ==> p.1[i] != ':',
        endpoint_parts(e) is None ==> forall|i: int| 0 <= i < e.len() ==> e[i] != ':',
{
    reveal_strlit(":");
    lemma_last_index_found(e, ':');
    if let Some(k) = last_index(e, ':') {
        let p = (e.take(k), e.skip(k + 1));
        assert(p.0 + ":"@ + p.1 =~= e);
        assert forall|i: int| 0 <= i < p.1.len() implies p.1[i] != ':' by {
            assert(p.1[i] == e[k + 1 + i]);
        }
    }
}

/// A host joined with `:` to a port that holds no `:` splits back into that host and port.
pub proof fn lemma_endpoint_split_join(host: Seq<char>, port: Seq<char>)
    requires
        forall|i: int| 0 <= i < port.len() ==> port[i] != ':',
    ensures
        endpoint_parts(host + ":"@ + port) == Some((host, port)),
{
    reveal_strlit(":");
    let e = host + ":"@ + port;
    let k = host.len() as int;
    assert forall|i: int| k < i < e.len() implies e[i] != ':' by {
        assert(e[i] == port[i - k - 1]);
    }
    lemma_last_index(e, ':', k);
    assert(e.take(k) =~= host);
    assert(e.skip(k + 1) =~= port);
}

/// Splits `host:port` at the last `:`; an endpoint without `:` is refused.
pub fn parse_endpoint(endpoint: &str) -> (r: Result<(String, String), WorkspaceError>)
    ensures
        endpoint_parts(endpoint@) matches Some(p) ==> r is Ok && r->Ok_0.0@ == p.0
            && r->Ok_0.1@ == p.1,
        endpoint_parts(endpoint@) is None ==> r is Err && is_message(
            r->Err_0,
            "Invalid endpoint: "@ + endpoint@,
        ),
{
    let v = chars_of(endpoint);
    let n = v.len();
    assert(v@.subrange(0, n as int) =~= v@);
    match rfind_char(&v, 0, n, ':') {
        None => {
            let mut m = String::from_str("Invalid endpoint: ");
            m.append(endpoint);
            Err(WorkspaceError::Message(m))
        },
        Some(i) => {
            assert(v@.take(i as int) =~= v@.subrange(0, i as int));
            assert(v@.skip(i + 1) =~= v@.subrange(i + 1, n as int));
            Ok((string_of(&v, 0, i), string_of(&v, i + 1, n)))
        },
    }
}


/// The key and value that a config line sets: for a line that, trimmed, is
/// neither empty nor a `[section]` header nor a `#` comment and holds an `=`,
/// the trimmed text before the first `=` and the trimmed text after it.
pub open spec fn conf_entry(line: Seq<char>) -> Option<(Seq<char>, Seq<char>)> {
    let t = trim(line);
    if t.len() == 0 || t[0] == '[' || t[0] == '#' {
        None
    } else {
        match first_index(t, '=') {
            None => None,
            Some(k) => Some((trim(t.take(k)), trim(t.skip(k + 1)))),
        }
    }
}

/// The settings of a config whose lines are `ls`; a later line overrides an earlier one.
pub open spec fn conf_of(ls: Seq<Seq<char>>) -> Map<Seq<char>, Seq<char>>
    decreases ls.len(),
{
    if ls.len() == 0 {
        Map::empty()
    } else {
        let m = conf_of(ls.drop_last());
        match conf_entry(ls.last()) {
            Some(e) => m.insert(e.0, e.1),
            None => m,
        }
    }
}

/// The key that a config line sets, if it sets one.
pub open spec fn key_of(line: Seq<char>) -> Option<Seq<char>> {
    match conf_entry(line) {
        Some(e) => Some(e.0),
        None => None,
    }
}

/// A key as a config writes it: not empty, no whitespace at either end, no
/// `=`, and not starting as a section header or a comment does.
pub open spec fn plain_key(k: Seq<char>) -> bool {
    &&& k.len() > 0
    &&& !is_ws(k[0])
    &&& !is_ws(k.last())
    &&& k[0] != '['
    &&& k[0] != '#'
    &&& forall|i: int| 0 <= i < k.len() ==> k[i] != '='
}

/// No whitespace at either end of `v`.
pub open spec fn trimmed_value(v: Seq<char>) -> bool {
    v.len() == 0 || (!is_ws(v[0]) && !is_ws(v.last()))
}

/// The config line that sets `key` to `value`.
pub open spec fn setting(key: Seq<char>, value: Seq<char>) -> Seq<char> {
    key + " = "@ + value
}

/// A line that starts with `key =` sets `key`, to the trimmed rest of the line.
pub proof fn lemma_key_line(k: Seq<char>, r: Seq<char>)
    requires
        plain_key(k),
    ensures
        conf_entry(k + seq![' ', '='] + r) == Some((k, trim(trim_end(r)))),
{
    let p = k + seq![' ', '='];
    let line = p + r;
    let n = k.len() as int;
    assert(line[0] == k[0]);
    assert(trim_start(line) == line);
    lemma_trim_end_concat(p, r);
    let t = trim(line);
    assert(t == p + trim_end(r));
    assert(t[0] == k[0]);
    assert forall|i: int| 0 <= i < n + 1 implies t[i] != '=' by {
        if i < n {
            assert(t[i] == k[i]);
        }
    }
    assert(t[n + 1] == '=');
    lemma_first_index(t, '=', n + 1);
    let kt = t.take(n + 1);
    assert(kt =~= k + seq![' ']);
    assert(kt[0] == k[0]);
    assert(trim_start(kt) == kt);
    assert(kt.drop_last() =~= k);
    assert(trim_end(kt) == trim_end(k));
    assert(trim_end(k) == k);
    assert(t.skip(n + 2) =~= trim_end(r));
}

/// `key = value` sets `key` to `value` when neither end of `value` is
/// whitespace, and no carriage return ends it.
pub proof fn lemma_setting_entry(k: Seq<char>, v: Seq<char>)
    requires
        plain_key(k),
        trimmed_value(v),
    ensures
        conf_entry(setting(k, v)) == Some((k, v)),
        strip_cr(setting(k, v)) == setting(k, v),
{
    reveal_strlit(" = ");
    let r = seq![' '] + v;
    assert(setting(k, v) =~= k + seq![' ', '='] + r);
    lemma_key_line(k, r);
    if v.len() == 0 {
        assert(r.drop_last() =~= Seq::<char>::empty());
        assert(trim_end(r) == trim_end(r.drop_last()));
        assert(trim_end(r) == Seq::<char>::empty());
    } else {
        assert(r.last() == v.last());
        assert(trim_end(r) == r);
        assert(r.drop_first() =~= v);
        assert(trim_start(r) == trim_start(v));
        assert(trim_start(v) == v);
        assert(trim_end(v) == v);
    }
    assert(setting(k, v).last() == r.last());
}

/// `key = ...` sets `key`, whatever follows, also once a final carriage
/// return is dropped.
pub proof fn lemma_setting_key(k: Seq<char>, v: Seq<char>)
    requires
        plain_key(k),
    ensures
        key_of(strip_cr(setting(k, v))) == Some(k),
{
    reveal_strlit(" = ");
    let r = seq![' '] + v;
    let p = k + seq![' ', '='];
    assert(setting(k, v) =~= p + r);
    if strip_cr(setting(k, v)) == setting(k, v) {
        lemma_key_line(k, r);
    } else {
        assert(strip_cr(setting(k, v)) =~= p + r.drop_last());
        lemma_key_line(k, r.drop_last());
    }
}

/// A section header or a comment sets nothing.
pub proof fn lemma_header_line(l: Seq<char>)
    requires
        l.len() > 0,
        l[0] == '[' || l[0] == '#',
    ensures
        conf_entry(l) is None,
{
    let p = seq![l[0]];
    assert(l =~= p + l.drop_first());
    assert(trim_start(l) == l);
    lemma_trim_end_concat(p, l.drop_first());
    assert(trim(l)[0] == l[0]);
}

/// The value that a config gives `k` comes from the last line that sets `k`.
pub proof fn lemma_conf_lookup(ls: Seq<Seq<char>>, i: int, k: Seq<char>, v: Seq<char>)
    requires
        0 <= i < ls.len(),
        conf_entry(ls[i]) == Some((k, v)),
        forall|j: int| i < j < ls.len() ==> key_of(#[trigger] ls[j]) != Some(k),
    ensures
        conf_of(ls).contains_key(k),
        conf_of(ls)[k] == v,
    decreases ls.len(),
{
    let d = ls.drop_last();
    if i < ls.len() - 1 {
        assert forall|j: int| i < j < d.len() implies key_of(#[trigger] d[j]) != Some(k) by {
            assert(d[j] == ls[j]);
        }
        assert(d[i] == ls[i]);
        lemma_conf_lookup(d, i, k, v);
        assert(key_of(ls[ls.len() - 1]) != Some(k));
    }
}

/// Reads the `key = value` lines of a WireGuard config, ignoring section
/// headers, comments and lines without `=`.
pub fn parse_wg_conf(content: &str) -> (m: ConfMap)
    ensures
        m@ == conf_of(lines(content@)),
{
    let v = chars_of(content);
    let ls = line_ranges(&v);
    let ghost ps = pieces(v@, ls@);
    let mut m = ConfMap::new();
    assert(ps.take(0) =~= Seq::<Seq<char>>::empty());
    for i in 0..ls.len()
        invariant
            ranges_within(ls@, v@.len() as int),
            ps == pieces(v@, ls@),
            m@ == conf_of(ps.take(i as int)),
    {
        let (a, b) = ls[i];
        assert(ps[i as int] == v@.subrange(a as int, b as int));
        assert(ps.take(i + 1).drop_last() =~= ps.take(i as int));
        let (ta, tb) = trim_range(&v, a, b);
        let ghost t = v@.subrange(ta as int, tb as int);
        if ta < tb && v[ta] != '[' && v[ta] != '#' {
            assert(t[0] == v@[ta as int]);
            match find_char(&v, ta, tb, '=') {
                Some(e) => {
                    assert(t.take(e - ta) =~= v@.subrange(ta as int, e as int));
                    assert(t.skip(e - ta + 1) =~= v@.subrange(e + 1, tb as int));
                    let (ka, kb) = trim_range(&v, ta, e);
                    let (va, vb) = trim_range(&v, e + 1, tb);
                    let key = string_of(&v, ka, kb);
                    let value = string_of(&v, va, vb);
                    m.insert(key, value);
                },
                None => {},
            }
        } else {
            if ta < tb {
                assert(t[0] == v@[ta as int]);
            }
        }
    }
    assert(ps.take(ls@.len() as int) =~= ps);
    m
}


/// `conf[key]`, or `dflt` when the config does not set `key`.
pub open spec fn value_or(conf: Map<Seq<char>, Seq<char>>, key: Seq<char>, dflt: Seq<char>) -> Seq<
    char,
> {
    if conf.contains_key(key) {
        conf[key]
    } else {
        dflt
    }
}

/// The value of `key` in `m`, or `dflt`.
pub fn get_or(m: &ConfMap, key: &str, dflt: &str) -> (r: String)
    ensures
        r@ == value_or(m@, key@, dflt@),
{
    match m.get(key) {
        Some(s) => s,
        None => String::from_str(dflt),
    }
}

/// A provider server as the UI lists it.
#[derive(Debug, Clone)]
pub struct ServerInfo {
    pub index: u8,
    pub file: String,
    pub host: String,
    pub port: String,
    pub address: String,
}

/// The content of a `ServerInfo`.
pub struct ServerInfoView {
    pub index: u8,
    pub file: Seq<char>,
    pub host: Seq<char>,
    pub port: Seq<char>,
    pub address: Seq<char>,
}

impl View for ServerInfo {
    type V = ServerInfoView;

    open spec fn view(&self) -> ServerInfoView {
        ServerInfoView {
            index: self.index,
            file: self.file@,
            host: self.host@,
            port: self.port@,
            address: self.address@,
        }
    }
}

/// The server described by the provider config `content`, found at
/// `position` (from 0) among the sorted sources, in file `file`, whose path
/// reads `display`; or the message of the error.
pub open spec fn server_from(position: int, file: Seq<char>, display: Seq<char>, content: Seq<char>) -> Result<
    ServerInfoView,
    Seq<char>,
> {
    let conf = conf_of(lines(content));
    if !conf.contains_key("Endpoint"@) {
        Err("Missing Endpoint in "@ + display)
    } else {
        match endpoint_parts(conf["Endpoint"@]) {
            None => Err("Invalid endpoint: "@ + conf["Endpoint"@]),
            Some(p) => Ok(
                ServerInfoView {
                    index: ((position + 1) % 256) as u8,
                    file: file,
                    host: p.0,
                    port: p.1,
                    address: value_or(conf, "Address"@, seq![]),
                },
            ),
        }
    }
}

/// Reads one provider config into the server that `list_servers` shows for it.
pub fn server_info(position: usize, file_name: &str, path_display: &str, content: &str) -> (r:
    Result<ServerInfo, WorkspaceError>)
    ensures
        server_from(position as int, file_name@, path_display@, content@) matches Ok(sv) ==> r is Ok
            && r->Ok_0@ == sv,
        server_from(position as int, file_name@, path_display@, content@) matches Err(m) ==> r is Err
            && is_message(r->Err_0, m),
{
    let conf = parse_wg_conf(content);
    let endpoint = match conf.get("Endpoint") {
        Some(e) => e,
        None => {
            let mut m = String::from_str("Missing Endpoint in ");
            m.append(path_display);
            return Err(WorkspaceError::Message(m));
        },
    };
    let (host, port) = parse_endpoint(endpoint.as_str())?;
    let index = ((position % 256 + 1) % 256) as u8;
    assert((position % 256 + 1) % 256 == (position + 1) % 256) by (nonlinear_arith);
    let address = get_or(&conf, "Address", "");
    proof {
        reveal_strlit("");
        assert(""@ =~= Seq::<char>::empty());
        assert(address@ == value_or(conf@, "Address"@, seq![]));
    }
    Ok(ServerInfo { index, file: String::from_str(file_name), host, port, address })
}


/// The listed server carries the provider config's whole `Address` setting,
/// as the config reader gives it, or nothing when the config sets none.
pub proof fn lemma_listed_address(position: int, file: Seq<char>, display: Seq<char>, content: Seq<char>)
    ensures
        server_from(position, file, display, content) matches Ok(sv) ==> {
            let conf = conf_of(lines(content));
            &&& conf.contains_key("Address"@) ==> sv.address == conf["Address"@]
            &&& !conf.contains_key("Address"@) ==> sv.address == Seq::<char>::empty()
        },
{
}

/// A provider config is listed exactly when it sets an `Endpoint` that holds
/// a `:`; the listed server then carries its file name, and its host and port
/// join with `:` back into that endpoint, the port holding no `:`.
pub proof fn lemma_listed_endpoint(position: int, file: Seq<char>, display: Seq<char>, content: Seq<char>)
    ensures
        ({
            let conf = conf_of(lines(content));
            server_from(position, file, display, content) is Ok <==> conf.contains_key("Endpoint"@)
                && exists|i: int| 0 <= i < conf["Endpoint"@].len() && conf["Endpoint"@][i] == ':'
        }),
        server_from(position, file, display, content) matches Ok(sv) ==> {
            &&& sv.file == file
            &&& sv.host + ":"@ + sv.port == conf_of(lines(content))["Endpoint"@]
            &&& forall|i: int| 0 <= i < sv.port.len() ==> sv.port[i] != ':'
        },
{
    let conf = conf_of(lines(content));
    if conf.contains_key("Endpoint"@) {
        let e = conf["Endpoint"@];
        lemma_endpoint_rejoin(e);
        lemma_last_index_found(e, ':');
    }
}

/// A directory entry found directly in the workspace folder.
#[derive(Debug, Clone)]
pub struct DirEntryInfo {
    pub name: String,
    pub is_file: bool,
}

/// `Path::extension` of a file named `name` is `conf`: the name ends in
/// `.conf` and something stands before that dot.
pub open spec fn has_conf_extension(name: Seq<char>) -> bool {
    ends_with(name, ".conf"@) && name.len() > ".conf"@.len()
}

/// A provider config: a file with the `conf` extension that is not a generated config.
pub open spec fn is_source_entry(e: DirEntryInfo) -> bool {
    e.is_file && has_conf_extension(e.name@) && !is_generated_name(e.name@)
}

/// A non-empty stem followed by `.conf` has the `conf` extension, whatever
/// dots the stem holds (the extension is what follows the last dot).
pub proof fn lemma_conf_extension_of_stem(stem: Seq<char>)
    requires
        stem.len() > 0,
    ensures
        has_conf_extension(stem + ".conf"@),
{
    reveal_strlit(".conf");
    let n = stem + ".conf"@;
    assert(n.skip(n.len() - 5) =~= ".conf"@);
}

/// A name has the `conf` extension only as a non-empty stem followed by `.conf`.
pub proof fn lemma_conf_extension_has_stem(name: Seq<char>)
    ensures
        has_conf_extension(name) ==> {
            let stem = name.take(name.len() - 5);
            &&& stem.len() > 0
            &&& name == stem + ".conf"@
        },
{
    reveal_strlit(".conf");
    if has_conf_extension(name) {
        let stem = name.take(name.len() - 5);
        assert(name =~= stem + name.skip(name.len() - 5));
    }
}

/// A file named with a non-empty stem and `.conf`, other than a generated
/// config, is a provider config, whatever dots the stem holds.
pub proof fn lemma_stem_conf_is_source(e: DirEntryInfo, stem: Seq<char>)
    requires
        e.is_file,
        stem.len() > 0,
        e.name@ == stem + ".conf"@,
        !is_generated_name(e.name@),
    ensures
        is_source_entry(e),
{
    lemma_conf_extension_of_stem(stem);
}

/// Whether the entry is a provider config (see `is_source_entry`).
pub fn is_source_conf(e: &DirEntryInfo) -> (r: bool)
    ensures
        r == is_source_entry(*e),
{
    if !e.is_file {
        return false;
    }
    let v = chars_of(e.name.as_str());
    let conf = chars_of(".conf");
    let n = v.len();
    assert(v@.subrange(0, n as int) =~= v@);
    range_ends_with(&v, 0, n, &conf) && n > conf.len() && !is_generated_conf_name(e.name.as_str())
}

/// `r` lists the provider configs of `entries` by their positions: each
/// provider config once and nothing else, sorted by file name, equal names in
/// the order of the listing.
pub open spec fn lists_sources(entries: Seq<DirEntryInfo>, r: Seq<usize>) -> bool {
    &&& forall|k: int|
        0 <= k < r.len() ==> #[trigger] r[k] < entries.len() && is_source_entry(entries[r[k] as int])
    &&& forall|j: int|
        0 <= j < entries.len() && is_source_entry(#[trigger] entries[j]) ==> exists|k: int|
            0 <= k < r.len() && r[k] == j
    &&& r.no_duplicates()
    &&& forall|a: int, b: int|
        0 <= a < b < r.len() ==> !lex_lt(
            entries[#[trigger] r[b] as int].name@,
            entries[#[trigger] r[a] as int].name@,
        )
    &&& forall|a: int, b: int|
        0 <= a < b < r.len() && entries[#[trigger] r[a] as int].name@ == entries[#[trigger] r[b] as int].name@
            ==> r[a] < r[b]
}

/// Provider configs are `.conf` files directly in the workspace (not
/// subfolders), excluding generated `smartN-wifi.conf` / `smartN-eth.conf`.
/// Returns the positions in `entries` of the provider configs, each once,
/// sorted by file name.
#[verifier::spinoff_prover]
#[verifier::rlimit(40)]
pub fn select_source_confs(entries: &Vec<DirEntryInfo>) -> (r: Vec<usize>)
    ensures
        lists_sources(entries@, r@),
{
    let n = entries.len();
    let mut keys: Vec<Vec<char>> = Vec::new();
    for j in 0..n
        invariant
            n == entries@.len(),
            keys@.len() == j,
            forall|q: int| 0 <= q < j ==> (#[trigger] keys@[q])@ == entries@[q].name@,
    {
        keys.push(chars_of(entries[j].name.as_str()));
    }
    let mut r: Vec<usize> = Vec::new();
    for i in 0..n
        invariant
            n == entries@.len(),
            keys@.len() == n,
            forall|q: int| 0 <= q < n ==> (#[trigger] keys@[q])@ == entries@[q].name@,
            forall|k: int|
                0 <= k < r@.len() ==> #[trigger] r@[k] < i && is_source_entry(
                    entries@[r@[k] as int],
                ),
            forall|j: int|
                0 <= j < i && is_source_entry(#[trigger] entries@[j]) ==> exists|k: int|
                    0 <= k < r@.len() && r@[k] == j,
            r@.no_duplicates(),
            forall|a: int, b: int|
                0 <= a < b < r@.len() ==> !lex_lt(
                    entries@[#[trigger] r@[b] as int].name@,
                    entries@[#[trigger] r@[a] as int].name@,
                ),
            forall|a: int, b: int|
                0 <= a < b < r@.len() && entries@[#[trigger] r@[a] as int].name@ == entries@[
                #[trigger] r@[b] as int].name@ ==> r@[a] < r@[b],
    {
        if is_source_conf(&entries[i]) {
            let mut p: usize = 0;
            while p < r.len() && !chars_lt(&keys[i], &keys[r[p]])
                invariant
                    p <= r@.len(),
                    n == entries@.len(),
                    keys@.len() == n,
                    i < n,
                    forall|k: int| 0 <= k < r@.len() ==> #[trigger] r@[k] < i,
                    forall|q: int| 0 <= q < n ==> (#[trigger] keys@[q])@ == entries@[q].name@,
                    forall|q: int|
                        0 <= q < p ==> !lex_lt(
                            entries@[i as int].name@,
                            entries@[#[trigger] r@[q] as int].name@,
                        ),
                decreases r@.len() - p,
            {
                p = p + 1;
            }
            let ghost old_r = r@;
            let ghost ki = entries@[i as int].name@;
            proof {
                old_r.insert_ensures(p as int, i);
                if p < old_r.len() {
                    assert(lex_lt(ki, entries@[old_r[p as int] as int].name@));
                }
            }
            r.insert(p, i);
            proof {
                assert forall|a: int, b: int| 0 <= a < b < r@.len() implies !lex_lt(
                    entries@[#[trigger] r@[b] as int].name@,
                    entries@[#[trigger] r@[a] as int].name@,
                ) by {
                    if b < p {
                        assert(r@[a] == old_r[a] && r@[b] == old_r[b]);
                    } else if b == p {
                        assert(r@[a] == old_r[a]);
                    } else if a < p {
                        assert(r@[a] == old_r[a] && r@[b] == old_r[b - 1]);
                    } else if a == p {
                        let kb = entries@[old_r[b - 1] as int].name@;
                        let kp = entries@[old_r[p as int] as int].name@;
                        assert(r@[b] == old_r[b - 1]);
                        if b - 1 > p {
                            assert(!lex_lt(kb, kp));
                        }
                        if lex_lt(kb, ki) {
                            lemma_lex_lt_transitive(kb, ki, kp);
                            if b - 1 == p {
                                lemma_lex_lt_irreflexive(kp);
                            }
                        }
                    } else {
                        assert(r@[a] == old_r[a - 1] && r@[b] == old_r[b - 1]);
                    }
                }
                assert forall|a: int, b: int|
                    0 <= a < b < r@.len() && entries@[#[trigger] r@[a] as int].name@ == entries@[
                    #[trigger] r@[b] as int].name@ implies r@[a] < r@[b] by {
                    if b < p {
                        assert(r@[a] == old_r[a] && r@[b] == old_r[b]);
                    } else if b == p {
                        assert(r@[a] == old_r[a]);
                    } else if a < p {
                        assert(r@[a] == old_r[a] && r@[b] == old_r[b - 1]);
                    } else if a == p {
                        let kb = entries@[old_r[b - 1] as int].name@;
                        let kp = entries@[old_r[p as int] as int].name@;
                        assert(r@[b] == old_r[b - 1]);
                        if b - 1 > p {
                            assert(!lex_lt(kb, kp));
                            if kb == ki {
                                assert(lex_lt(kb, kp));
                            }
                        } else {
                            lemma_lex_lt_irreflexive(kp);
                        }
                    } else {
                        assert(r@[a] == old_r[a - 1] && r@[b] == old_r[b - 1]);
                    }
                }
                assert forall|j: int|
                    0 <= j < i + 1 && is_source_entry(#[trigger] entries@[j]) implies exists|k: int|
                    0 <= k < r@.len() && r@[k] == j by {
                    if j == i {
                        assert(r@[p as int] == i);
                    } else {
                        let k = choose|k: int| 0 <= k < old_r.len() && old_r[k] == j;
                        if k < p {
                            assert(r@[k] == j);
                        } else {
                            assert(r@[k + 1] == j);
                        }
                    }
                }
                assert forall|k: int| 0 <= k < r@.len() implies #[trigger] r@[k] < i + 1
                    && is_source_entry(entries@[r@[k] as int]) by {
                    if k < p {
                        assert(r@[k] == old_r[k]);
                    } else if k > p {
                        assert(r@[k] == old_r[k - 1]);
                    }
                }
                assert forall|a: int, b: int|
                    0 <= a < r@.len() && 0 <= b < r@.len() && a != b implies r@[a] != r@[b] by {
                    if a != p && b != p {
                        let oa = if a < p {
                            a
                        } else {
                            a - 1
                        };
                        let ob = if b < p {
                            b
                        } else {
                            b - 1
                        };
                        assert(r@[a] == old_r[oa] && r@[b] == old_r[ob]);
                    } else if a == p {
                        let ob = if b < p {
                            b
                        } else {
                            b - 1
                        };
                        assert(r@[b] == old_r[ob]);
                    } else {
                        let oa = if a < p {
                            a
                        } else {
                            a - 1
                        };
                        assert(r@[a] == old_r[oa]);
                    }
                }
            }
        }
    }
    r
}


/// The names of the provider configs in a folder listing.
pub open spec fn source_names(entries: Seq<DirEntryInfo>) -> Set<Seq<char>> {
    Set::new(
        |nm: Seq<char>|
            exists|i: int| 0 <= i < entries.len() && is_source_entry(#[trigger] entries[i]) && entries[i].name@ == nm,
    )
}

/// No two entries of the listing share a name, as in a folder.
pub open spec fn unique_names(entries: Seq<DirEntryInfo>) -> bool {
    forall|i: int, j: int| 0 <= i < j < entries.len() ==> entries[i].name@ != entries[j].name@
}

/// The names of the entries at the positions `r`.
pub open spec fn listed_names(entries: Seq<DirEntryInfo>, r: Seq<usize>) -> Seq<Seq<char>> {
    r.map_values(|k: usize| entries[k as int].name@)
}

/// Every name in `s` comes before every later one.
pub open spec fn strictly_sorted(s: Seq<Seq<char>>) -> bool {
    forall|i: int, j: int| 0 <= i < j < s.len() ==> lex_lt(#[trigger] s[i], #[trigger] s[j])
}

/// Two strictly sorted lists of the same names are the same list.
proof fn lemma_strictly_sorted_unique(a: Seq<Seq<char>>, b: Seq<Seq<char>>)
    requires
        strictly_sorted(a),
        strictly_sorted(b),
        forall|x: Seq<char>| a.contains(x) <==> b.contains(x),
    ensures
        a == b,
    decreases a.len(),
{
    if a.len() == 0 {
        if b.len() > 0 {
            assert(b.contains(b[0]));
        }
        assert(a =~= b);
    } else {
        assert(a.contains(a[0]));
        assert(b.len() > 0);
        assert(b.contains(b[0]));
        let j = choose|j: int| 0 <= j < b.len() && b[j] == a[0];
        let i = choose|i: int| 0 <= i < a.len() && a[i] == b[0];
        lemma_lex_lt_irreflexive(a[0]);
        if j > 0 {
            if i > 0 {
                lemma_lex_lt_transitive(a[0], b[0], a[0]);
            }
        }
        assert(a[0] == b[0]);
        let a1 = a.drop_first();
        let b1 = b.drop_first();
        assert forall|x: Seq<char>| a1.contains(x) <==> b1.contains(x) by {
            if a1.contains(x) {
                let p = choose|p: int| 0 <= p < a1.len() && a1[p] == x;
                assert(a[p + 1] == x);
                assert(lex_lt(a[0], a[p + 1]));
                assert(b.contains(x));
                let q = choose|q: int| 0 <= q < b.len() && b[q] == x;
                assert(q != 0);
                assert(b1[q - 1] == x);
            }
            if b1.contains(x) {
                let p = choose|p: int| 0 <= p < b1.len() && b1[p] == x;
                assert(b[p + 1] == x);
                assert(lex_lt(b[0], b[p + 1]));
                assert(a.contains(x));
                let q = choose|q: int| 0 <= q < a.len() && a[q] == x;
                assert(q != 0);
                assert(a1[q - 1] == x);
            }
        }
        assert forall|p: int, q: int| 0 <= p < q < a1.len() implies lex_lt(#[trigger] a1[p], #[trigger] a1[q]) by {
            assert(a1[p] == a[p + 1] && a1[q] == a[q + 1]);
        }
        assert forall|p: int, q: int| 0 <= p < q < b1.len() implies lex_lt(#[trigger] b1[p], #[trigger] b1[q]) by {
            assert(b1[p] == b[p + 1] && b1[q] == b[q + 1]);
        }
        lemma_strictly_sorted_unique(a1, b1);
        assert forall|k: int| 0 <= k < a.len() implies a[k] == b[k] by {
            if k > 0 {
                assert(a[k] == a1[k - 1] && b[k] == b1[k - 1]);
            }
        }
        assert(a =~= b);
    }
}

/// A listing of provider configs, with names unique as in a folder, is
/// strictly sorted and holds exactly the names of the provider configs.
proof fn lemma_listed_names(entries: Seq<DirEntryInfo>, r: Seq<usize>)
    requires
        lists_sources(entries, r),
        unique_names(entries),
    ensures
        strictly_sorted(listed_names(entries, r)),
        forall|x: Seq<char>|
            #[trigger] listed_names(entries, r).contains(x) <==> source_names(entries).contains(x),
{
    let s = listed_names(entries, r);
    assert forall|a: int, b: int| 0 <= a < b < s.len() implies lex_lt(#[trigger] s[a], #[trigger] s[b]) by {
        let ea = r[a] as int;
        let eb = r[b] as int;
        assert(r[a] < entries.len() && r[b] < entries.len());
        assert(r[a] != r[b]);
        assert(entries[ea].name@ != entries[eb].name@);
        assert(!lex_lt(entries[eb].name@, entries[ea].name@));
        lemma_lex_lt_total(entries[ea].name@, entries[eb].name@);
    }
    assert forall|x: Seq<char>| s.contains(x) <==> source_names(entries).contains(x) by {
        if s.contains(x) {
            let k = choose|k: int| 0 <= k < s.len() && s[k] == x;
            assert(r[k] < entries.len());
            let i = r[k] as int;
            assert(is_source_entry(entries[i]) && entries[i].name@ == x);
        }
        if source_names(entries).contains(x) {
            let i = choose|i: int|
                0 <= i < entries.len() && is_source_entry(#[trigger] entries[i]) && entries[i].name@ == x;
            let k = choose|k: int| 0 <= k < r.len() && r[k] == i;
            assert(s[k] == x);
        }
    }
}

/// Two folder listings with the same provider configs list them alike: the
/// provider files come out under the same names in the same order, however
/// the folder happened to list its entries.
pub proof fn lemma_sources_listed_alike(
    before: Seq<DirEntryInfo>,
    r_before: Seq<usize>,
    after: Seq<DirEntryInfo>,
    r_after: Seq<usize>,
)
    requires
        lists_sources(before, r_before),
        lists_sources(after, r_after),
        unique_names(before),
        unique_names(after),
        source_names(before) == source_names(after),
    ensures
        listed_names(before, r_before) == listed_names(after, r_after),
{
    lemma_listed_names(before, r_before);
    lemma_listed_names(after, r_after);
    let a = listed_names(before, r_before);
    let b = listed_names(after, r_after);
    assert forall|x: Seq<char>| a.contains(x) <==> b.contains(x) by {
        assert(a.contains(x) <==> source_names(before).contains(x));
        assert(b.contains(x) <==> source_names(after).contains(x));
    }
    lemma_strictly_sorted_unique(listed_names(before, r_before), listed_names(after, r_after));
}

/// The default gateway and the interfaces that the tunnels route through.
#[derive(Debug, Clone)]
pub struct NetworkInfo {
    pub gateway: String,
    pub interface_wifi: String,
    pub interface_eth: String,
}

/// The content of a `NetworkInfo`.
pub struct NetworkInfoView {
    pub gateway: Seq<char>,
    pub interface_wifi: Seq<char>,
    pub interface_eth: Seq<char>,
}

impl View for NetworkInfo {
    type V = NetworkInfoView;

    open spec fn view(&self) -> NetworkInfoView {
        NetworkInfoView {
            gateway: self.gateway@,
            interface_wifi: self.interface_wifi@,
            interface_eth: self.interface_eth@,
        }
    }
}

/// The first line of `s`, or nothing when `s` has no line.
pub open spec fn first_line(s: Seq<char>) -> Seq<char> {
    if lines(s).len() > 0 {
        lines(s)[0]
    } else {
        seq![]
    }
}

/// The gateway that `ip route show default` names after `via` on its first line.
pub open spec fn route_gateway(route: Seq<char>) -> Option<Seq<char>> {
    after_key(words(first_line(route)), "via"@)
}

/// The device that `ip route show default` names after `dev` on its first line, or `eth0`.
pub open spec fn route_device(route: Seq<char>) -> Seq<char> {
    match after_key(words(first_line(route)), "dev"@) {
        Some(d) => d,
        None => "eth0"@,
    }
}

/// The bounds of the first line of `v` (empty when `v` has no line).
fn first_line_range(v: &Vec<char>) -> (r: (usize, usize))
    ensures
        r.0 <= r.1 <= v@.len(),
        v@.subrange(r.0 as int, r.1 as int) == first_line(v@),
{
    let ls = line_ranges(v);
    if ls.len() > 0 {
        assert(pieces(v@, ls@)[0] == v@.subrange(ls@[0].0 as int, ls@[0].1 as int));
        ls[0]
    } else {
        (0, 0)
    }
}

/// Reads the default route: the gateway (required) and the default device.
pub fn parse_route(route: &str) -> (r: Result<(String, String), WorkspaceError>)
    ensures
        route_gateway(route@) matches Some(g) ==> r is Ok && r->Ok_0.0@ == g && r->Ok_0.1@
            == route_device(route@),
        route_gateway(route@) is None ==> r is Err && is_message(
            r->Err_0,
            "Could not detect gateway"@,
        ),
{
    let v = chars_of(route);
    let (a, b) = first_line_range(&v);
    let ws = word_ranges(&v, a, b);
    let via = chars_of("via");
    let dev = chars_of("dev");
    let gateway = match range_after_key(&v, &ws, &via) {
        Some((ga, gb)) => string_of(&v, ga, gb),
        None => return Err(message_error("Could not detect gateway")),
    };
    let device = match range_after_key(&v, &ws, &dev) {
        Some((da, db)) => string_of(&v, da, db),
        None => String::from_str("eth0"),
    };
    Ok((gateway, device))
}

/// The interface that a line of `ip -o link show` names: its second
/// `:`-separated field, trimmed.
pub open spec fn link_iface(line: Seq<char>) -> Option<Seq<char>> {
    match second_field(line) {
        Some(f) => Some(trim(f)),
        None => None,
    }
}

/// The first interface other than `lo`, among the lines `ls`, whose name starts with `c`.
pub open spec fn first_iface(ls: Seq<Seq<char>>, c: char) -> Option<Seq<char>>
    decreases ls.len(),
{
    if ls.len() == 0 {
        None
    } else {
        match link_iface(ls[0]) {
            Some(f) => if f != "lo"@ && f.len() > 0 && f[0] == c {
                Some(f)
            } else {
                first_iface(ls.drop_first(), c)
            },
            None => first_iface(ls.drop_first(), c),
        }
    }
}

/// The line names an interface other than `lo` whose name starts with `c`.
pub open spec fn names_iface_with(line: Seq<char>, c: char) -> bool {
    match link_iface(line) {
        Some(f) => f != "lo"@ && f.len() > 0 && f[0] == c,
        None => false,
    }
}

/// The interface chosen for `c` is the one on the first line that names an
/// interface (other than `lo`) starting with `c`, wherever that line stands
/// and whatever the lines before it name; none is chosen only when no line
/// names one.
pub proof fn lemma_first_iface_found(ls: Seq<Seq<char>>, c: char)
    ensures
        first_iface(ls, c) matches Some(f) ==> exists|j: int|
            0 <= j < ls.len() && names_iface_with(#[trigger] ls[j], c) && link_iface(ls[j]) == Some(f)
                && forall|i: int| 0 <= i < j ==> !names_iface_with(#[trigger] ls[i], c),
        first_iface(ls, c) is None ==> forall|j: int|
            0 <= j < ls.len() ==> !names_iface_with(#[trigger] ls[j], c),
    decreases ls.len(),
{
    if ls.len() > 0 {
        let rest = ls.drop_first();
        lemma_first_iface_found(rest, c);
        if names_iface_with(ls[0], c) {
            assert(first_iface(ls, c) == link_iface(ls[0]));
            assert(names_iface_with(ls[0], c));
        } else {
            assert(first_iface(ls, c) == first_iface(rest, c));
            if let Some(f) = first_iface(ls, c) {
                let j = choose|j: int|
                    0 <= j < rest.len() && names_iface_with(#[trigger] rest[j], c) && link_iface(rest[j])
                        == Some(f) && forall|i: int| 0 <= i < j ==> !names_iface_with(#[trigger] rest[i], c);
                assert(ls[j + 1] == rest[j]);
                assert forall|i: int| 0 <= i < j + 1 implies !names_iface_with(#[trigger] ls[i], c) by {
                    if i > 0 {
                        assert(ls[i] == rest[i - 1]);
                    }
                }
            } else {
                assert forall|j: int| 0 <= j < ls.len() implies !names_iface_with(#[trigger] ls[j], c) by {
                    if j > 0 {
                        assert(ls[j] == rest[j - 1]);
                    }
                }
            }
        }
    }
}

/// The Ethernet interface (`e..`) and the WiFi interface (`w..`) that
/// `ip -o link show` lists first; `default_dev` stands in for one it lacks.
pub fn pick_interfaces(link: &str, default_dev: &str) -> (r: (String, String))
    ensures
        r.0@ == match first_iface(lines(link@), 'e') {
            Some(f) => f,
            None => default_dev@,
        },
        r.1@ == match first_iface(lines(link@), 'w') {
            Some(f) => f,
            None => default_dev@,
        },
{
    let v = chars_of(link);
    let ls = line_ranges(&v);
    let ghost ps = pieces(v@, ls@);
    let lo = chars_of("lo");
    let mut eth: Option<(usize, usize)> = None;
    let mut wifi: Option<(usize, usize)> = None;
    assert(ps.skip(0) =~= ps);
    for i in 0..ls.len()
        invariant
            ranges_within(ls@, v@.len() as int),
            ps == pieces(v@, ls@),
            lo@ == "lo"@,
            eth is None ==> first_iface(ps, 'e') == first_iface(ps.skip(i as int), 'e'),
            eth matches Some(p) ==> p.0 <= p.1 <= v@.len() && first_iface(ps, 'e') == Some(
                v@.subrange(p.0 as int, p.1 as int),
            ),
            wifi is None ==> first_iface(ps, 'w') == first_iface(ps.skip(i as int), 'w'),
            wifi matches Some(p) ==> p.0 <= p.1 <= v@.len() && first_iface(ps, 'w') == Some(
                v@.subrange(p.0 as int, p.1 as int),
            ),
    {
        let (a, b) = ls[i];
        assert(ps.skip(i as int)[0] == v@.subrange(a as int, b as int));
        assert(ps.skip(i as int).drop_first() =~= ps.skip(i + 1));
        match second_field_range(&v, a, b) {
            Some((fa, fb)) => {
                let (ta, tb) = trim_range(&v, fa, fb);
                let ghost f = v@.subrange(ta as int, tb as int);
                if !range_is(&v, ta, tb, &lo) && ta < tb {
                    assert(f[0] == v@[ta as int]);
                    if v[ta] == 'e' && eth.is_none() {
                        eth = Some((ta, tb));
                    }
                    if v[ta] == 'w' && wifi.is_none() {
                        wifi = Some((ta, tb));
                    }
                }
            },
            None => {},
        }
    }
    assert(ps.skip(ls@.len() as int) =~= Seq::<Seq<char>>::empty());
    let e = match eth {
        Some((a, b)) => string_of(&v, a, b),
        None => String::from_str(default_dev),
    };
    let w = match wifi {
        Some((a, b)) => string_of(&v, a, b),
        None => String::from_str(default_dev),
    };
    (e, w)
}

} // verus!
