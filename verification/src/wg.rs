//! The status of the WireGuard tunnel, read from the output of `wg show`.

use vstd::prelude::*;

use crate::text::{
    decimal, lemma_parse_u8_decimal, chars_of, line_ranges, lines, parse_u8, parse_u8_range, pieces, ranges_within, string_of, trim,
    trim_range,
};
use crate::workspace::opt_view;

verus! {

/// A line that names the tunnel interface.
pub const IFACE_PATTERN: &'static str = r"^interface:\s+(\S+)";

/// A line that names the peer endpoint.
pub const ENDPOINT_PATTERN: &'static str = r"^\s+endpoint:\s+(.+)$";

/// A line that tells the latest handshake.
pub const HANDSHAKE_PATTERN: &'static str = r"^\s+latest handshake:\s+(.+)$";

/// A line that tells the bytes received and sent.
pub const TRANSFER_PATTERN: &'static str = r"^\s+transfer:\s+(.+?)\s+received,\s+(.+?)\s+sent";

/// The server number in a generated interface name.
pub const SERVER_PATTERN: &'static str = r"smart(\d+)-";

/// `regex::Regex`, held inside a `Pattern`.
#[verifier::external_type_specification]
#[verifier::external_body]
pub struct ExRegex(regex::Regex);

/// Whether the `regex` crate accepts `pattern`.
pub uninterp spec fn pattern_compiles(pattern: Seq<char>) -> bool;

/// The groups that the `regex` crate captures when the regex compiled from
/// `pattern` is searched for in `text`: the text of each group, in order,
/// starting with the whole match (`None` for a group that took no part);
/// `None` when it does not match.
pub uninterp spec fn regex_captures(pattern: Seq<char>, text: Seq<char>) -> Option<Seq<Option<Seq<char>>>>;

/// The views of captured groups.
pub open spec fn groups_view(g: Seq<Option<String>>) -> Seq<Option<Seq<char>>> {
    g.map_values(|o: Option<String>| opt_view(o))
}

/// The view of an optional list of captured groups.
pub open spec fn opt_groups_view(g: Option<Vec<Option<String>>>) -> Option<Seq<Option<Seq<char>>>> {
    match g {
        Some(v) => Some(groups_view(v@)),
        None => None,
    }
}

/// A compiled regex, with the pattern it was compiled from.
pub struct Pattern {
    source: String,
    re: regex::Regex,
}

impl View for Pattern {
    type V = Seq<char>;

    closed spec fn view(&self) -> Seq<char> {
        self.source@
    }
}

/// `regex::Regex::new(pattern)`: the compiled pattern, kept with its source
/// text; `None` when the crate refuses the pattern. The contract names
/// whether it compiles (`pattern_compiles`) and says nothing more of it.
#[verifier::external_body]
fn compile(pattern: &str) -> (r: Option<Pattern>)
    ensures
        r is Some == pattern_compiles(pattern@),
        r matches Some(p) ==> p@ == pattern@,
{
    match regex::Regex::new(pattern) {
        Ok(re) => Some(Pattern { source: pattern.to_string(), re }),
        Err(_) => None,
    }
}

/// `Regex::captures(text)`: the groups that the compiled pattern captures in
/// `text`, each group's text copied out (`Match::as_str`). The contract names
/// the result (`regex_captures`, a function of the pattern and the text
/// alone) and states nothing else of it: which texts a pattern matches is
/// left to the `regex` crate.
#[verifier::external_body]
fn captures(p: &Pattern, text: &str) -> (r: Option<Vec<Option<String>>>)
    ensures
        opt_groups_view(r) == regex_captures(p@, text@),
{
    p.re.captures(text).map(|c| c.iter().map(|m| m.map(|m| m.as_str().to_string())).collect())
}

/// What searching for `pattern` in `text` finds: nothing when the pattern
/// does not compile, else what the regex captures.
pub open spec fn matched(pattern: Seq<char>, text: Seq<char>) -> Option<Seq<Option<Seq<char>>>> {
    if pattern_compiles(pattern) {
        regex_captures(pattern, text)
    } else {
        None
    }
}

/// A slot that holds the pattern `src` compiled, or nothing when it does not compile.
pub open spec fn slot_holds(p: Option<Pattern>, src: Seq<char>) -> bool {
    match p {
        Some(q) => q@ == src && pattern_compiles(src),
        None => !pattern_compiles(src),
    }
}

/// Searches for the pattern of a slot (see `matched`).
fn search(p: &Option<Pattern>, text: &str, Ghost(src): Ghost<Seq<char>>) -> (r: Option<
    Vec<Option<String>>,
>)
    requires
        slot_holds(*p, src),
    ensures
        opt_groups_view(r) == matched(src, text@),
{
    match p {
        Some(q) => captures(q, text),
        None => None,
    }
}

/// The source of the pattern that a slot holds, if it holds one.
pub open spec fn slot_source(p: Option<Pattern>) -> Option<Seq<char>> {
    match p {
        Some(q) => Some(q@),
        None => None,
    }
}

/// What compiling `src` leaves in a slot: `src` when it compiles, else nothing.
pub open spec fn compiled_slot(src: Seq<char>) -> Option<Seq<char>> {
    if pattern_compiles(src) {
        Some(src)
    } else {
        None
    }
}

/// The patterns that a line of `wg show` is read with, compiled once.
pub struct ShowPatterns {
    iface: Option<Pattern>,
    endpoint: Option<Pattern>,
    handshake: Option<Pattern>,
    transfer: Option<Pattern>,
    server: Option<Pattern>,
}

impl View for ShowPatterns {
    type V = Seq<Option<Seq<char>>>;

    /// The sources of the interface, endpoint, handshake, transfer and server
    /// patterns, in that order, each where it compiled.
    closed spec fn view(&self) -> Seq<Option<Seq<char>>> {
        seq![
            slot_source(self.iface),
            slot_source(self.endpoint),
            slot_source(self.handshake),
            slot_source(self.transfer),
            slot_source(self.server),
        ]
    }
}

impl ShowPatterns {
    #[verifier::type_invariant]
    closed spec fn wf(self) -> bool {
        &&& slot_holds(self.iface, IFACE_PATTERN@)
        &&& slot_holds(self.endpoint, ENDPOINT_PATTERN@)
        &&& slot_holds(self.handshake, HANDSHAKE_PATTERN@)
        &&& slot_holds(self.transfer, TRANSFER_PATTERN@)
        &&& slot_holds(self.server, SERVER_PATTERN@)
    }

    /// Compiles the interface, endpoint, handshake, transfer and server
    /// patterns; each slot holds its pattern where the pattern compiles.
    pub fn new() -> (p: ShowPatterns)
        ensures
            p@ == seq![
                compiled_slot(IFACE_PATTERN@),
                compiled_slot(ENDPOINT_PATTERN@),
                compiled_slot(HANDSHAKE_PATTERN@),
                compiled_slot(TRANSFER_PATTERN@),
                compiled_slot(SERVER_PATTERN@),
            ],
    {
        ShowPatterns {
            iface: compile(IFACE_PATTERN),
            endpoint: compile(ENDPOINT_PATTERN),
            handshake: compile(HANDSHAKE_PATTERN),
            transfer: compile(TRANSFER_PATTERN),
            server: compile(SERVER_PATTERN),
        }
    }
}

/// The text of group `i`, or nothing when the group is missing.
pub open spec fn group_text(g: Seq<Option<Seq<char>>>, i: int) -> Seq<char> {
    if 0 <= i < g.len() && g[i] is Some {
        g[i]->Some_0
    } else {
        seq![]
    }
}

/// The text of group `i` (see `group_text`).
fn group_string(g: &Vec<Option<String>>, i: usize) -> (s: String)
    ensures
        s@ == group_text(groups_view(g@), i as int),
{
    if i < g.len() {
        match &g[i] {
            Some(t) => t.clone(),
            None => String::new(),
        }
    } else {
        String::new()
    }
}

/// Bytes received and sent through the tunnel, as `wg show` prints them.
#[derive(Debug, Clone)]
pub struct TransferInfo {
    pub rx: String,
    pub tx: String,
}

/// The state of the tunnel.
#[derive(Debug, Clone)]
pub struct WgStatus {
    pub connected: bool,
    pub interface: Option<String>,
    pub server_index: Option<u8>,
    pub endpoint: Option<String>,
    pub latest_handshake: Option<String>,
    pub transfer: TransferInfo,
}

/// The content of a `WgStatus`.
pub struct WgStatusView {
    pub connected: bool,
    pub interface: Option<Seq<char>>,
    pub server_index: Option<u8>,
    pub endpoint: Option<Seq<char>>,
    pub latest_handshake: Option<Seq<char>>,
    pub rx: Seq<char>,
    pub tx: Seq<char>,
}

impl View for WgStatus {
    type V = WgStatusView;

    open spec fn view(&self) -> WgStatusView {
        WgStatusView {
            connected: self.connected,
            interface: opt_view(self.interface),
            server_index: self.server_index,
            endpoint: opt_view(self.endpoint),
            latest_handshake: opt_view(self.latest_handshake),
            rx: self.transfer.rx@,
            tx: self.transfer.tx@,
        }
    }
}

/// The status of no tunnel: disconnected, nothing known.
pub open spec fn idle_status() -> WgStatusView {
    WgStatusView {
        connected: false,
        interface: None,
        server_index: None,
        endpoint: None,
        latest_handshake: None,
        rx: seq![],
        tx: seq![],
    }
}

impl Default for WgStatus {
    fn default() -> (s: WgStatus)
        ensures
            s@ == idle_status(),
    {
        WgStatus {
            connected: false,
            interface: None,
            server_index: None,
            endpoint: None,
            latest_handshake: None,
            transfer: TransferInfo { rx: String::new(), tx: String::new() },
        }
    }
}

/// What a line of `wg show` says, with the groups its pattern captured.
pub enum ShowLine {
    /// An `interface:` line, and what the server pattern captured in the interface name.
    Interface { groups: Vec<Option<String>>, server: Option<Vec<Option<String>>> },
    Endpoint(Vec<Option<String>>),
    Handshake(Vec<Option<String>>),
    Transfer(Vec<Option<String>>),
    Other,
}

/// The content of a `ShowLine`.
pub enum ShowLineView {
    Interface { groups: Seq<Option<Seq<char>>>, server: Option<Seq<Option<Seq<char>>>> },
    Endpoint(Seq<Option<Seq<char>>>),
    Handshake(Seq<Option<Seq<char>>>),
    Transfer(Seq<Option<Seq<char>>>),
    Other,
}

impl View for ShowLine {
    type V = ShowLineView;

    open spec fn view(&self) -> ShowLineView {
        match self {
            ShowLine::Interface { groups, server } => ShowLineView::Interface {
                groups: groups_view(groups@),
                server: opt_groups_view(*server),
            },
            ShowLine::Endpoint(g) => ShowLineView::Endpoint(groups_view(g@)),
            ShowLine::Handshake(g) => ShowLineView::Handshake(groups_view(g@)),
            ShowLine::Transfer(g) => ShowLineView::Transfer(groups_view(g@)),
            ShowLine::Other => ShowLineView::Other,
        }
    }
}

/// How a line of `wg show` is read: the first of the interface, endpoint,
/// handshake and transfer patterns that matches it decides.
pub open spec fn classify(line: Seq<char>) -> ShowLineView {
    match matched(IFACE_PATTERN@, line) {
        Some(g) => ShowLineView::Interface {
            groups: g,
            server: matched(SERVER_PATTERN@, group_text(g, 1)),
        },
        None => match matched(ENDPOINT_PATTERN@, line) {
            Some(g) => ShowLineView::Endpoint(g),
            None => match matched(HANDSHAKE_PATTERN@, line) {
                Some(g) => ShowLineView::Handshake(g),
                None => match matched(TRANSFER_PATTERN@, line) {
                    Some(g) => ShowLineView::Transfer(g),
                    None => ShowLineView::Other,
                },
            },
        },
    }
}

/// Matches a line of `wg show` against the patterns (see `classify`).
pub fn classify_line(patterns: &ShowPatterns, line: &str) -> (m: ShowLine)
    ensures
        m@ == classify(line@),
{
    proof {
        use_type_invariant(patterns);
    }
    match search(&patterns.iface, line, Ghost(IFACE_PATTERN@)) {
        Some(groups) => {
            let iface = group_string(&groups, 1);
            let server = search(&patterns.server, iface.as_str(), Ghost(SERVER_PATTERN@));
            ShowLine::Interface { groups, server }
        },
        None => match search(&patterns.endpoint, line, Ghost(ENDPOINT_PATTERN@)) {
            Some(g) => ShowLine::Endpoint(g),
            None => match search(&patterns.handshake, line, Ghost(HANDSHAKE_PATTERN@)) {
                Some(g) => ShowLine::Handshake(g),
                None => match search(&patterns.transfer, line, Ghost(TRANSFER_PATTERN@)) {
                    Some(g) => ShowLine::Transfer(g),
                    None => ShowLine::Other,
                },
            },
        },
    }
}

/// What one line of `wg show` changes in the status: an interface line marks
/// the tunnel connected, names the interface and, when the server pattern
/// matched the name, sets the server number it parses to; the other lines
/// set the endpoint, the handshake, or the transfer figures, trimmed.
pub open spec fn show_step(st: WgStatusView, m: ShowLineView) -> WgStatusView {
    match m {
        ShowLineView::Interface { groups, server } => WgStatusView {
            connected: true,
            interface: Some(group_text(groups, 1)),
            server_index: match server {
                Some(sg) => parse_u8(group_text(sg, 1)),
                None => st.server_index,
            },
            ..st
        },
        ShowLineView::Endpoint(g) => WgStatusView { endpoint: Some(trim(group_text(g, 1))), ..st },
        ShowLineView::Handshake(g) => WgStatusView {
            latest_handshake: Some(trim(group_text(g, 1))),
            ..st
        },
        ShowLineView::Transfer(g) => WgStatusView {
            rx: trim(group_text(g, 1)),
            tx: trim(group_text(g, 2)),
            ..st
        },
        ShowLineView::Other => st,
    }
}

/// The trimmed text of a string.
fn trimmed_string(s: &String) -> (r: String)
    ensures
        r@ == trim(s@),
{
    let v = chars_of(s.as_str());
    let (a, b) = trim_range(&v, 0, v.len());
    assert(v@.subrange(0, v@.len() as int) =~= v@);
    string_of(&v, a, b)
}

/// Applies what one line of `wg show` says (see `show_step`).
pub fn apply_show_line(status: &mut WgStatus, m: ShowLine)
    ensures
        final(status)@ == show_step(old(status)@, m@),
{
    match m {
        ShowLine::Interface { groups, server } => {
            let iface = group_string(&groups, 1);
            status.connected = true;
            status.interface = Some(iface);
            match server {
                Some(sg) => {
                    let digits = group_string(&sg, 1);
                    let v = chars_of(digits.as_str());
                    assert(v@.subrange(0, v@.len() as int) =~= v@);
                    status.server_index = parse_u8_range(&v, 0, v.len());
                },
                None => {},
            }
        },
        ShowLine::Endpoint(g) => {
            status.endpoint = Some(trimmed_string(&group_string(&g, 1)));
        },
        ShowLine::Handshake(g) => {
            status.latest_handshake = Some(trimmed_string(&group_string(&g, 1)));
        },
        ShowLine::Transfer(g) => {
            status.transfer.rx = trimmed_string(&group_string(&g, 1));
            status.transfer.tx = trimmed_string(&group_string(&g, 2));
        },
        ShowLine::Other => {},
    }
}

/// The status after reading the lines `ls` one after the other.
pub open spec fn show_fold(st: WgStatusView, ls: Seq<Seq<char>>) -> WgStatusView
    decreases ls.len(),
{
    if ls.len() == 0 {
        st
    } else {
        show_fold(show_step(st, classify(ls[0])), ls.drop_first())
    }
}

/// Whether output of `wg show` holds nothing but whitespace.
pub fn is_blank(output: &str) -> (r: bool)
    ensures
        r == (trim(output@).len() == 0),
{
    let v = chars_of(output);
    let (a, b) = trim_range(&v, 0, v.len());
    assert(v@.subrange(0, v@.len() as int) =~= v@);
    a == b
}

/// Reads the output of `wg show`: blank output is the idle status; otherwise
/// each line is read in turn (see `show_step`), from the idle status.
pub fn parse_wg_show(output: &str) -> (s: WgStatus)
    ensures
        s@ == if trim(output@).len() == 0 {
            idle_status()
        } else {
            show_fold(idle_status(), lines(output@))
        },
{
    let mut status = WgStatus::default();
    if is_blank(output) {
        return status;
    }
    let patterns = ShowPatterns::new();
    let v = chars_of(output);
    let ls = line_ranges(&v);
    let ghost ps = pieces(v@, ls@);
    assert(ps.skip(0) =~= ps);
    for i in 0..ls.len()
        invariant
            ranges_within(ls@, v@.len() as int),
            ps == pieces(v@, ls@),
            ps == lines(output@),
            show_fold(idle_status(), ps) == show_fold(status@, ps.skip(i as int)),
    {
        let (a, b) = ls[i];
        let line = string_of(&v, a, b);
        assert(ps.skip(i as int)[0] == line@);
        assert(ps.skip(i as int).drop_first() =~= ps.skip(i + 1));
        let m = classify_line(&patterns, line.as_str());
        apply_show_line(&mut status, m);
    }
    assert(ps.skip(ls@.len() as int) =~= Seq::<Seq<char>>::empty());
    status
}


/// The tunnel reads as connected exactly when it already was or some line
/// of the output names an interface.
pub proof fn lemma_connected_iff_interface(st: WgStatusView, ls: Seq<Seq<char>>)
    ensures
        show_fold(st, ls).connected <==> (st.connected || exists|i: int|
            0 <= i < ls.len() && #[trigger] classify(ls[i]) is Interface),
    decreases ls.len(),
{
    if ls.len() > 0 {
        let next = show_step(st, classify(ls[0]));
        lemma_connected_iff_interface(next, ls.drop_first());
        if exists|i: int| 0 <= i < ls.len() && #[trigger] classify(ls[i]) is Interface {
            let i = choose|i: int| 0 <= i < ls.len() && #[trigger] classify(ls[i]) is Interface;
            if i > 0 {
                assert(ls.drop_first()[i - 1] == ls[i]);
            }
        }
        if exists|i: int|
            0 <= i < ls.drop_first().len() && #[trigger] classify(ls.drop_first()[i]) is Interface {
            let i = choose|i: int|
                0 <= i < ls.drop_first().len() && #[trigger] classify(ls.drop_first()[i]) is Interface;
            assert(ls[i + 1] == ls.drop_first()[i]);
        }
    }
}

/// An interface line marks the tunnel connected under the captured
/// interface name, and sets the server number to the number that the server
/// pattern captured, whatever the rest of the interface name is: a capture
/// that reads `n` in decimal gives server `n`, for a WiFi and an Ethernet
/// tunnel alike, whatever was read before.
pub proof fn lemma_interface_line_sets_server(
    st: WgStatusView,
    groups: Seq<Option<Seq<char>>>,
    sg: Seq<Option<Seq<char>>>,
    n: u8,
)
    requires
        group_text(sg, 1) == decimal(n as nat),
    ensures
        show_step(st, ShowLineView::Interface { groups, server: Some(sg) }).server_index == Some(n),
        show_step(st, ShowLineView::Interface { groups, server: Some(sg) }).connected,
        show_step(st, ShowLineView::Interface { groups, server: Some(sg) }).interface == Some(
            group_text(groups, 1),
        ),
{
    lemma_parse_u8_decimal(n);
}

/// Two interface lines with the same server capture set the same server
/// number, whatever their interface names and whatever was read before.
pub proof fn lemma_server_number_ignores_interface_name(
    st1: WgStatusView,
    st2: WgStatusView,
    g1: Seq<Option<Seq<char>>>,
    g2: Seq<Option<Seq<char>>>,
    sg: Seq<Option<Seq<char>>>,
)
    ensures
        show_step(st1, ShowLineView::Interface { groups: g1, server: Some(sg) }).server_index
            == show_step(st2, ShowLineView::Interface { groups: g2, server: Some(sg) }).server_index,
{
}

/// Each line of `wg show` changes only what it reports: an interface line
/// only the connection, interface and server number; an endpoint, handshake
/// or transfer line only its own value; any other line nothing.
pub proof fn lemma_show_step_changes_only_its_fields(st: WgStatusView, m: ShowLineView)
    ensures
        ({
            let r = show_step(st, m);
            &&& !(m is Interface) ==> r.connected == st.connected && r.interface == st.interface
                && r.server_index == st.server_index
            &&& !(m is Endpoint) ==> r.endpoint == st.endpoint
            &&& !(m is Handshake) ==> r.latest_handshake == st.latest_handshake
            &&& !(m is Transfer) ==> r.rx == st.rx && r.tx == st.tx
            &&& m is Interface ==> r.connected
            &&& m is Other ==> r == st
        }),
{
}

} // verus!
