//! Generation of the WiFi and Ethernet connect configs from provider configs.

use vstd::prelude::*;

use crate::text::{
    decimal, decimal_string, is_digit, joined, lemma_decimal_value, lemma_first_index,
    lemma_joined_push, lines, single_line, strip_cr, lemma_lines_joined, lemma_joined_concat,
    lemma_joined_ends, lemma_lines_concat,
};
use crate::workspace::{
    server_from, conf_of, endpoint_parts, get_or, is_generated_name, is_message, parse_endpoint, parse_wg_conf,
    value_or, DirEntryInfo, NetworkInfo, WorkspaceError, is_source_entry, setting, key_of, plain_key,
    trimmed_value, conf_entry, lemma_setting_entry, lemma_setting_key, lemma_header_line,
    lemma_conf_lookup, lemma_endpoint_split_join, lists_sources, listed_names, source_names,
    unique_names, lemma_sources_listed_alike,
};

verus! {

/// What a provider config contributes to the generated configs.
#[derive(Debug, Clone)]
pub struct ParsedConfig {
    pub private_key: String,
    pub address: String,
    pub dns: String,
    pub mtu: String,
    pub public_key: String,
    pub allowed_ips: String,
    pub persistent_keepalive: String,
    pub host: String,
    pub port: String,
}

/// The content of a `ParsedConfig`.
pub struct ParsedConfigView {
    pub private_key: Seq<char>,
    pub address: Seq<char>,
    pub dns: Seq<char>,
    pub mtu: Seq<char>,
    pub public_key: Seq<char>,
    pub allowed_ips: Seq<char>,
    pub persistent_keepalive: Seq<char>,
    pub host: Seq<char>,
    pub port: Seq<char>,
}

impl View for ParsedConfig {
    type V = ParsedConfigView;

    open spec fn view(&self) -> ParsedConfigView {
        ParsedConfigView {
            private_key: self.private_key@,
            address: self.address@,
            dns: self.dns@,
            mtu: self.mtu@,
            public_key: self.public_key@,
            allowed_ips: self.allowed_ips@,
            persistent_keepalive: self.persistent_keepalive@,
            host: self.host@,
            port: self.port@,
        }
    }
}

/// The provider config in `content` (whose path reads `display`), with the
/// defaults for DNS, MTU and keepalive; or the message of the error.
pub open spec fn parsed_from(content: Seq<char>, display: Seq<char>) -> Result<
    ParsedConfigView,
    Seq<char>,
> {
    let conf = conf_of(lines(content));
    if !conf.contains_key("Endpoint"@) {
        Err("Missing Endpoint in "@ + display)
    } else {
        match endpoint_parts(conf["Endpoint"@]) {
            None => Err("Invalid endpoint: "@ + conf["Endpoint"@]),
            Some(p) => Ok(
                ParsedConfigView {
                    private_key: value_or(conf, "PrivateKey"@, seq![]),
                    address: value_or(conf, "Address"@, seq![]),
                    dns: value_or(conf, "DNS"@, "8.8.8.8, 8.8.4.4"@),
                    mtu: value_or(conf, "MTU"@, "1300"@),
                    public_key: value_or(conf, "PublicKey"@, seq![]),
                    allowed_ips: value_or(conf, "AllowedIPs"@, seq![]),
                    persistent_keepalive: value_or(conf, "PersistentKeepalive"@, "11"@),
                    host: p.0,
                    port: p.1,
                },
            ),
        }
    }
}

/// Reads one provider config (see `parsed_from`).
pub fn source_config(content: &str, path_display: &str) -> (r: Result<ParsedConfig, WorkspaceError>)
    ensures
        parsed_from(content@, path_display@) matches Ok(c) ==> r is Ok && r->Ok_0@ == c,
        parsed_from(content@, path_display@) matches Err(m) ==> r is Err && is_message(
            r->Err_0,
            m,
        ),
{
    let conf = parse_wg_conf(content);
    let endpoint = match conf.get("Endpoint") {
        Some(e) => e,
        None => {
            let mut m = String::from_str("Missing Endpoint in ");
            m.append(path_display);
            return Err(WorkspaceError::Message(m));
        },
    };
    let (host, port) = parse_endpoint(endpoint.as_str())?;
    proof {
        reveal_strlit("");
        assert(""@ =~= Seq::<char>::empty());
    }
    Ok(
        ParsedConfig {
            private_key: get_or(&conf, "PrivateKey", ""),
            address: get_or(&conf, "Address", ""),
            dns: get_or(&conf, "DNS", "8.8.8.8, 8.8.4.4"),
            mtu: get_or(&conf, "MTU", "1300"),
            public_key: get_or(&conf, "PublicKey", ""),
            allowed_ips: get_or(&conf, "AllowedIPs", ""),
            persistent_keepalive: get_or(&conf, "PersistentKeepalive", "11"),
            host,
            port,
        },
    )
}

/// The refusal when a workspace holds no provider config.
pub fn no_sources_error(workspace_display: &str) -> (e: WorkspaceError)
    ensures
        is_message(e, "No .conf files found in "@ + workspace_display@),
{
    let mut m = String::from_str("No .conf files found in ");
    m.append(workspace_display);
    WorkspaceError::Message(m)
}

/// Regeneration needs at least one provider config: with `count` provider
/// configs found in the workspace, refuses the workspace when there are none.
pub fn require_sources(count: usize, workspace_display: &str) -> (r: Result<(), WorkspaceError>)
    ensures
        r is Ok <==> count > 0,
        r is Err ==> is_message(r->Err_0, "No .conf files found in "@ + workspace_display@),
{
    if count == 0 {
        return Err(no_sources_error(workspace_display));
    }
    Ok(())
}

/// The views of a list of strings.
pub open spec fn views(v: Seq<String>) -> Seq<Seq<char>> {
    v.map_values(|s: String| s@)
}

/// The route line that a connect config holds for each address:
/// `<key> = <cmd><ip> via <gateway> dev <iface>`.
pub open spec fn route_lines(
    ips: Seq<Seq<char>>,
    key: Seq<char>,
    cmd: Seq<char>,
    gateway: Seq<char>,
    iface: Seq<char>,
) -> Seq<Seq<char>> {
    ips.map_values(|ip: Seq<char>| setting(key, cmd + ip + " via "@ + gateway + " dev "@ + iface))
}

/// The lines of the connect config that routes `ips` through `gateway` on
/// `iface`. Bringing the tunnel up sets each route with `ip route replace`,
/// so a route that already exists does not make it fail; bringing it down
/// deletes the routes again.
pub open spec fn config_lines(
    ips: Seq<Seq<char>>,
    cfg: ParsedConfigView,
    iface: Seq<char>,
    gateway: Seq<char>,
) -> Seq<Seq<char>> {
    seq![
        "[Interface]"@,
        setting("PrivateKey"@, cfg.private_key),
        setting("Address"@, cfg.address),
        setting("DNS"@, cfg.dns),
        setting("MTU"@, cfg.mtu),
        Seq::<char>::empty(),
        "# Linux Customization "@,
    ] + route_lines(ips, "PostUp"@, "ip route replace "@, gateway, iface) + route_lines(
        ips,
        "PostDown"@,
        "ip route del "@,
        gateway,
        iface,
    ) + seq![
        Seq::<char>::empty(),
        "[Peer]"@,
        setting("PublicKey"@, cfg.public_key),
        setting("Endpoint"@, cfg.host + ":"@ + cfg.port),
        setting("AllowedIPs"@, cfg.allowed_ips),
        setting("PersistentKeepalive"@, cfg.persistent_keepalive),
    ]
}

/// The connect config that routes `ips` through `gateway` on `iface`.
pub open spec fn config_text(ips: Seq<Seq<char>>, cfg: ParsedConfigView, iface: Seq<char>, gateway: Seq<char>) -> Seq<char> {
    joined(config_lines(ips, cfg, iface, gateway))
}

/// The line `key = value`.
fn setting_line(key: &str, value: &str) -> (l: String)
    ensures
        l@ == setting(key@, value@),
{
    let mut l = String::from_str(key);
    l.append(" = ");
    l.append(value);
    l
}

/// Writes one more line of the text whose lines so far are `done`.
fn push_line(s: &mut String, line: &str, Ghost(done): Ghost<Seq<Seq<char>>>)
    requires
        old(s)@ == joined(done),
    ensures
        final(s)@ == joined(done.push(line@)),
{
    s.append(line);
    s.append("\n");
    proof {
        reveal_strlit("\n");
        assert("\n"@ =~= seq!['\n']);
        lemma_joined_push(done, line@);
    }
}

/// Writes the route lines for `ips` after the lines `done`.
fn push_routes(
    s: &mut String,
    ips: &Vec<String>,
    key: &str,
    cmd: &str,
    gateway: &str,
    iface: &str,
    Ghost(done): Ghost<Seq<Seq<char>>>,
)
    requires
        old(s)@ == joined(done),
    ensures
        final(s)@ == joined(done + route_lines(views(ips@), key@, cmd@, gateway@, iface@)),
{
    let ghost rl = route_lines(views(ips@), key@, cmd@, gateway@, iface@);
    assert(done + rl.take(0) =~= done);
    for i in 0..ips.len()
        invariant
            rl == route_lines(views(ips@), key@, cmd@, gateway@, iface@),
            s@ == joined(done + rl.take(i as int)),
    {
        let mut value = String::from_str(cmd);
        value.append(ips[i].as_str());
        value.append(" via ");
        value.append(gateway);
        value.append(" dev ");
        value.append(iface);
        let line = setting_line(key, value.as_str());
        assert(line@ == rl[i as int]);
        push_line(s, line.as_str(), Ghost(done + rl.take(i as int)));
        assert((done + rl.take(i as int)).push(line@) =~= done + rl.take(i + 1));
    }
    assert(rl.take(ips@.len() as int) =~= rl);
}

/// Writes the connect config of `cfg` that routes the resolved `ips` of its
/// endpoint around the tunnel, through `gateway` on `iface`. The routes are
/// set with `ip route replace`, so bringing the tunnel up again does not fail
/// on a route that is already there.
pub fn build_config(ips: &Vec<String>, cfg: &ParsedConfig, iface: &str, gateway: &str) -> (s: String)
    ensures
        s@ == config_text(views(ips@), cfg@, iface@, gateway@),
{
    let mut s = String::new();
    let ghost mut ls: Seq<Seq<char>> = seq![];
    proof {
        assert(joined(ls) == Seq::<char>::empty());
        assert(s@ =~= joined(ls));
    }
    push_line(&mut s, "[Interface]", Ghost(ls));
    proof { ls = ls.push("[Interface]"@); }
    let l = setting_line("PrivateKey", cfg.private_key.as_str());
    push_line(&mut s, l.as_str(), Ghost(ls));
    proof { ls = ls.push(l@); }
    let l = setting_line("Address", cfg.address.as_str());
    push_line(&mut s, l.as_str(), Ghost(ls));
    proof { ls = ls.push(l@); }
    let l = setting_line("DNS", cfg.dns.as_str());
    push_line(&mut s, l.as_str(), Ghost(ls));
    proof { ls = ls.push(l@); }
    let l = setting_line("MTU", cfg.mtu.as_str());
    push_line(&mut s, l.as_str(), Ghost(ls));
    proof { ls = ls.push(l@); }
    push_line(&mut s, "", Ghost(ls));
    proof { ls = ls.push(""@); }
    push_line(&mut s, "# Linux Customization ", Ghost(ls));
    proof {
        ls = ls.push("# Linux Customization "@);
        reveal_strlit("");
        assert(ls.len() == 7);
        assert(ls[0] == "[Interface]"@);
        assert(ls[1] == setting("PrivateKey"@, cfg.private_key@));
        assert(ls[5] == Seq::<char>::empty());
        assert(ls[6] == "# Linux Customization "@);
        assert(ls =~= seq![
            "[Interface]"@,
            setting("PrivateKey"@, cfg.private_key@),
            setting("Address"@, cfg.address@),
            setting("DNS"@, cfg.dns@),
            setting("MTU"@, cfg.mtu@),
            Seq::<char>::empty(),
            "# Linux Customization "@,
        ]);
    }
    push_routes(&mut s, ips, "PostUp", "ip route replace ", gateway, iface, Ghost(ls));
    proof { ls = ls + route_lines(views(ips@), "PostUp"@, "ip route replace "@, gateway@, iface@); }
    push_routes(&mut s, ips, "PostDown", "ip route del ", gateway, iface, Ghost(ls));
    proof { ls = ls + route_lines(views(ips@), "PostDown"@, "ip route del "@, gateway@, iface@); }
    let ghost middle = ls;
    push_line(&mut s, "", Ghost(ls));
    proof { ls = ls.push(""@); }
    push_line(&mut s, "[Peer]", Ghost(ls));
    proof { ls = ls.push("[Peer]"@); }
    let l = setting_line("PublicKey", cfg.public_key.as_str());
    push_line(&mut s, l.as_str(), Ghost(ls));
    proof { ls = ls.push(l@); }
    let mut endpoint = String::from_str(cfg.host.as_str());
    endpoint.append(":");
    endpoint.append(cfg.port.as_str());
    let l = setting_line("Endpoint", endpoint.as_str());
    push_line(&mut s, l.as_str(), Ghost(ls));
    proof { ls = ls.push(l@); }
    let l = setting_line("AllowedIPs", cfg.allowed_ips.as_str());
    push_line(&mut s, l.as_str(), Ghost(ls));
    proof { ls = ls.push(l@); }
    let l = setting_line("PersistentKeepalive", cfg.persistent_keepalive.as_str());
    push_line(&mut s, l.as_str(), Ghost(ls));
    proof {
        ls = ls.push(l@);
        reveal_strlit("");
        let tail = seq![
            Seq::<char>::empty(),
            "[Peer]"@,
            setting("PublicKey"@, cfg.public_key@),
            setting("Endpoint"@, cfg.host@ + ":"@ + cfg.port@),
            setting("AllowedIPs"@, cfg.allowed_ips@),
            setting("PersistentKeepalive"@, cfg.persistent_keepalive@),
        ];
        assert(ls =~= middle + tail);
        assert(ls =~= config_lines(views(ips@), cfg@, iface@, gateway@));
    }
    s
}

/// The views of a list of optional strings.
pub open spec fn opt_views(v: Seq<Option<String>>) -> Seq<Option<Seq<char>>> {
    v.map_values(|o: Option<String>| match o {
        Some(s) => Some(s@),
        None => None,
    })
}

/// The present items of `s`, in order.
pub open spec fn present(s: Seq<Option<Seq<char>>>) -> Seq<Seq<char>>
    decreases s.len(),
{
    if s.len() == 0 {
        seq![]
    } else {
        present(s.drop_last()) + match s.last() {
            Some(x) => seq![x],
            None => seq![],
        }
    }
}

/// One more present address is kept, at the end.
pub proof fn lemma_present_push_some(s: Seq<Option<Seq<char>>>, x: Seq<char>)
    ensures
        present(s.push(Some(x))) == present(s).push(x),
{
    assert(s.push(Some(x)).drop_last() =~= s);
    assert(present(s) + seq![x] =~= present(s).push(x));
}

/// A missing address adds nothing.
pub proof fn lemma_present_push_none(s: Seq<Option<Seq<char>>>)
    ensures
        present(s.push(None)) == present(s),
{
    assert(s.push(None).drop_last() =~= s);
    assert(present(s) + Seq::<Seq<char>>::empty() =~= present(s));
}

/// Every present address is kept, each as often as it is given, and nothing
/// else: the kept addresses are as many as the present ones, each present
/// address is among them, and each of them is a present address.
pub proof fn lemma_present_keeps_all(s: Seq<Option<Seq<char>>>)
    ensures
        present(s).len() == s.filter(|o: Option<Seq<char>>| o is Some).len(),
        forall|i: int| 0 <= i < s.len() && s[i] is Some ==> present(s).contains(s[i]->Some_0),
        forall|k: int| 0 <= k < present(s).len() ==> s.contains(Some(#[trigger] present(s)[k])),
    decreases s.len(),
{
    if s.len() > 0 {
        let d = s.drop_last();
        lemma_present_keeps_all(d);
        assert(s =~= d.push(s.last()));
        reveal_with_fuel(Seq::filter, 1);
        assert(s.filter(|o: Option<Seq<char>>| o is Some) == d.filter(|o: Option<Seq<char>>| o is Some)
            + if s.last() is Some { seq![s.last()] } else { Seq::<Option<Seq<char>>>::empty() });
        match s.last() {
            Some(x) => {
                lemma_present_push_some(d, x);
            },
            None => {
                lemma_present_push_none(d);
            },
        }
        assert forall|i: int| 0 <= i < s.len() && s[i] is Some implies present(s).contains(s[i]->Some_0) by {
            if i < d.len() {
                assert(d[i] == s[i]);
                let k = choose|k: int| 0 <= k < present(d).len() && present(d)[k] == d[i]->Some_0;
                assert(present(s)[k] == present(d)[k]);
            } else {
                assert(present(s)[present(s).len() - 1] == s[i]->Some_0);
            }
        }
        assert forall|k: int| 0 <= k < present(s).len() implies s.contains(Some(#[trigger] present(s)[k])) by {
            if k < present(d).len() {
                assert(present(s)[k] == present(d)[k]);
                assert(d.contains(Some(present(d)[k])));
                let j = choose|j: int| 0 <= j < d.len() && d[j] == Some(present(d)[k]);
                assert(s[j] == d[j]);
            } else {
                assert(s[s.len() - 1] == Some(present(s)[k]));
            }
        }
    }
}

/// Keeps the IPv4 addresses that name resolution gave for `host` (the
/// caller passes `None` for any other address); none at all is an error.
pub fn select_ipv4(host: &str, addrs: Vec<Option<String>>) -> (r: Result<Vec<String>, WorkspaceError>)
    ensures
        present(opt_views(addrs@)).len() > 0 ==> r is Ok && views(r->Ok_0@) == present(
            opt_views(addrs@),
        ),
        present(opt_views(addrs@)).len() == 0 ==> r is Err && is_message(
            r->Err_0,
            "No IPv4 addresses for "@ + host@,
        ),
{
    let ghost ov = opt_views(addrs@);
    let mut out: Vec<String> = Vec::new();
    let mut rest = addrs;
    let ghost all = rest@;
    let mut i: usize = 0;
    assert(ov.take(0) =~= Seq::<Option<Seq<char>>>::empty());
    assert(views(out@) =~= Seq::<Seq<char>>::empty());
    while i < rest.len()
        invariant
            rest@ == all,
            ov == opt_views(all),
            i <= rest@.len(),
            views(out@) == present(ov.take(i as int)),
        decreases rest@.len() - i,
    {
        assert(ov.take(i + 1).drop_last() =~= ov.take(i as int));
        let item = rest[i].clone();
        match item {
            Some(a) => {
                let ghost before = out@;
                out.push(a);
                assert(views(out@) =~= views(before) + seq![out@.last()@]);
            },
            None => {
                assert(present(ov.take(i + 1)) =~= present(ov.take(i as int)));
            },
        }
        i = i + 1;
    }
    assert(ov.take(rest@.len() as int) =~= ov);
    if out.len() == 0 {
        let mut m = String::from_str("No IPv4 addresses for ");
        m.append(host);
        return Err(WorkspaceError::Message(m));
    }
    Ok(out)
}


/// The name of the `n`-th generated config: `smart<n>-wifi.conf` or `smart<n>-eth.conf`.
pub open spec fn generated_name(n: nat, wifi: bool) -> Seq<char> {
    "smart"@ + decimal(n) + if wifi {
        "-wifi.conf"@
    } else {
        "-eth.conf"@
    }
}

/// The name of the `n`-th generated config (see `generated_name`).
pub fn generated_conf_name(n: usize, wifi: bool) -> (s: String)
    ensures
        s@ == generated_name(n as nat, wifi),
{
    let mut s = String::from_str("smart");
    let digits = decimal_string(n as u64);
    s.append(digits.as_str());
    if wifi {
        s.append("-wifi.conf");
    } else {
        s.append("-eth.conf");
    }
    s
}

/// Generated configs are recognised as generated, so they are never read back as sources.
pub proof fn lemma_generated_name_is_generated(n: nat, wifi: bool)
    ensures
        is_generated_name(generated_name(n, wifi)),
{
    reveal_strlit("smart");
    reveal_strlit(".conf");
    reveal_strlit("-wifi.conf");
    reveal_strlit("-eth.conf");
    reveal_strlit("wifi.conf");
    reveal_strlit("eth.conf");
    lemma_decimal_value(n);
    let d = decimal(n);
    let tail: Seq<char> = if wifi {
        "-wifi.conf"@
    } else {
        "-eth.conf"@
    };
    let g = generated_name(n, wifi);
    assert(g == "smart"@ + d + tail);
    assert(g.take(5) =~= "smart"@);
    assert(g.skip(g.len() - 5) =~= ".conf"@);
    let rest = g.skip(5);
    assert(rest =~= d + tail);
    assert forall|i: int| 0 <= i < d.len() implies rest[i] != '-' by {
        assert(rest[i] == d[i]);
        assert(is_digit(d[i]));
    }
    lemma_first_index(rest, '-', d.len() as int);
    assert(rest.take(d.len() as int) =~= d);
    if wifi {
        assert(rest.skip(d.len() as int + 1) =~= "wifi.conf"@);
    } else {
        assert(rest.skip(d.len() as int + 1) =~= "eth.conf"@);
    }
}

/// A generated config file: its name and its content.
#[derive(Debug, Clone)]
pub struct GeneratedFile {
    pub name: String,
    pub content: String,
}

/// The two connect configs of the provider at `position` (from 0) among the
/// sorted provider configs, numbered `position + 1`: first the WiFi one, then
/// the Ethernet one, both routing the endpoint's addresses `ips` through the
/// gateway on their interface. Their names are generated names.
pub fn render_server_configs(position: usize, ips: &Vec<String>, cfg: &ParsedConfig, net: &NetworkInfo) -> (r:
    Vec<GeneratedFile>)
    requires
        position < usize::MAX,
    ensures
        r@.len() == 2,
        r@[0].name@ == generated_name((position + 1) as nat, true),
        r@[0].content@ == config_text(views(ips@), cfg@, net@.interface_wifi, net@.gateway),
        r@[1].name@ == generated_name((position + 1) as nat, false),
        r@[1].content@ == config_text(views(ips@), cfg@, net@.interface_eth, net@.gateway),
        forall|k: int| 0 <= k < r@.len() ==> is_generated_name(#[trigger] r@[k].name@),
{
    let n = position + 1;
    let wifi = build_config(ips, cfg, net.interface_wifi.as_str(), net.gateway.as_str());
    let eth = build_config(ips, cfg, net.interface_eth.as_str(), net.gateway.as_str());
    let mut r: Vec<GeneratedFile> = Vec::new();
    r.push(GeneratedFile { name: generated_conf_name(n, true), content: wifi });
    r.push(GeneratedFile { name: generated_conf_name(n, false), content: eth });
    proof {
        lemma_generated_name_is_generated(n as nat, true);
        lemma_generated_name_is_generated(n as nat, false);
    }
    r
}

/// The server listed at `position` among the sorted provider configs carries
/// the number of the connect configs generated for the same provider: the list
/// reads a provider exactly when generation does, with the same host and port
/// (so the same `Endpoint` line), and its index is `position + 1`, the number
/// in the names of that provider's WiFi and Ethernet configs. The index is a
/// `u8`, so this holds for the first 255 providers.
pub proof fn lemma_listed_index_matches_generated(
    position: nat,
    file: Seq<char>,
    display: Seq<char>,
    content: Seq<char>,
)
    requires
        position < 255,
    ensures
        server_from(position as int, file, display, content) is Ok <==> parsed_from(content, display) is Ok,
        server_from(position as int, file, display, content) matches Err(m) ==> parsed_from(content, display)
            == Err::<ParsedConfigView, Seq<char>>(m),
        server_from(position as int, file, display, content) matches Ok(sv) ==> {
            let c = parsed_from(content, display)->Ok_0;
            &&& sv.index == position + 1
            &&& sv.host == c.host
            &&& sv.port == c.port
            &&& sv.file == file
            &&& generated_name(sv.index as nat, true) == generated_name(position + 1, true)
            &&& generated_name(sv.index as nat, false) == generated_name(position + 1, false)
        },
{
}

/// The listed server and the connect configs read the same `Address` from a
/// provider config, for every position in the list.
pub proof fn lemma_listed_address_matches_generated(
    position: int,
    file: Seq<char>,
    display: Seq<char>,
    content: Seq<char>,
)
    ensures
        server_from(position, file, display, content) matches Ok(sv) ==> sv.address == parsed_from(
            content,
            display,
        )->Ok_0.address,
{
}

/// A generated config beside the providers is never read back as a provider config.
pub proof fn lemma_generated_never_source(e: DirEntryInfo, n: nat, wifi: bool)
    requires
        e.name@ == generated_name(n, wifi),
    ensures
        !is_source_entry(e),
{
    lemma_generated_name_is_generated(n, wifi);
}

/// The provider configs in a folder listing.
pub open spec fn source_set(listing: Seq<DirEntryInfo>) -> Set<DirEntryInfo> {
    Set::new(|e: DirEntryInfo| listing.contains(e) && is_source_entry(e))
}

/// `after` lists the folder `before` once regeneration has run: the entries
/// that are not generated configs stayed, the generated configs may have been
/// removed, and whatever was added carries a generated name.
pub open spec fn regenerated_from(after: Seq<DirEntryInfo>, before: Seq<DirEntryInfo>) -> bool {
    &&& forall|e: DirEntryInfo|
        #[trigger] after.contains(e) ==> is_generated_name(e.name@) || before.contains(e)
    &&& forall|e: DirEntryInfo|
        #[trigger] before.contains(e) && !is_generated_name(e.name@) ==> after.contains(e)
}

/// Regeneration leaves the provider configs as they were: removing the old
/// generated configs and writing new ones under generated names neither adds
/// nor drops a provider config, so the next regeneration reads the same providers.
pub proof fn lemma_regeneration_keeps_sources(before: Seq<DirEntryInfo>, after: Seq<DirEntryInfo>)
    requires
        regenerated_from(after, before),
    ensures
        source_set(after) == source_set(before),
{
    assert(source_set(after) =~= source_set(before));
}

/// After regeneration the provider configs are listed as before: the same
/// files under the same names in the same order, so a second regeneration
/// reads the same providers and numbers them alike.
pub proof fn lemma_regeneration_lists_same_providers(
    before: Seq<DirEntryInfo>,
    r_before: Seq<usize>,
    after: Seq<DirEntryInfo>,
    r_after: Seq<usize>,
)
    requires
        regenerated_from(after, before),
        lists_sources(before, r_before),
        lists_sources(after, r_after),
        unique_names(before),
        unique_names(after),
    ensures
        listed_names(before, r_before) == listed_names(after, r_after),
{
    assert forall|x: Seq<char>| source_names(before).contains(x) <==> source_names(after).contains(x) by {
        if source_names(before).contains(x) {
            let i = choose|i: int|
                0 <= i < before.len() && is_source_entry(#[trigger] before[i]) && before[i].name@ == x;
            assert(before.contains(before[i]));
            assert(after.contains(before[i]));
            let j = choose|j: int| 0 <= j < after.len() && after[j] == before[i];
            assert(is_source_entry(after[j]) && after[j].name@ == x);
        }
        if source_names(after).contains(x) {
            let j = choose|j: int|
                0 <= j < after.len() && is_source_entry(#[trigger] after[j]) && after[j].name@ == x;
            assert(after.contains(after[j]));
            let i = choose|i: int| 0 <= i < before.len() && before[i] == after[j];
            assert(is_source_entry(before[i]) && before[i].name@ == x);
        }
    }
    assert(source_names(before) =~= source_names(after));
    lemma_sources_listed_alike(before, r_before, after, r_after);
}

/// A value that a config line carries and reads back unchanged: one line,
/// with no whitespace at either end.
pub open spec fn clean_value(v: Seq<char>) -> bool {
    single_line(v) && trimmed_value(v)
}

/// Two texts without line breaks make one without.
proof fn lemma_single_line_concat(a: Seq<char>, b: Seq<char>)
    requires
        single_line(a),
        single_line(b),
    ensures
        single_line(a + b),
{
    assert forall|i: int| 0 <= i < (a + b).len() implies (a + b)[i] != '\n' by {
        if i < a.len() {
            assert((a + b)[i] == a[i]);
        } else {
            assert((a + b)[i] == b[i - a.len()]);
        }
    }
}

/// A setting whose key and value hold no line break is one line.
proof fn lemma_setting_single_line(k: Seq<char>, v: Seq<char>)
    requires
        single_line(k),
        single_line(v),
    ensures
        single_line(setting(k, v)),
{
    reveal_strlit(" = ");
    lemma_single_line_concat(k, " = "@);
    lemma_single_line_concat(k + " = "@, v);
}

/// The keys of a connect config are told apart.
proof fn lemma_config_keys_distinct()
    ensures
        plain_key("PrivateKey"@),
        plain_key("Address"@),
        plain_key("DNS"@),
        plain_key("MTU"@),
        plain_key("PostUp"@),
        plain_key("PostDown"@),
        plain_key("PublicKey"@),
        plain_key("Endpoint"@),
        plain_key("AllowedIPs"@),
        plain_key("PersistentKeepalive"@),
        "PrivateKey"@.len() == 10 && "PrivateKey"@[0] == 'P',
        "Address"@.len() == 7,
        "DNS"@.len() == 3 && "DNS"@[0] == 'D',
        "MTU"@.len() == 3 && "MTU"@[0] == 'M',
        "PostUp"@.len() == 6,
        "PostDown"@.len() == 8 && "PostDown"@[0] == 'P',
        "PublicKey"@.len() == 9,
        "Endpoint"@.len() == 8 && "Endpoint"@[0] == 'E',
        "AllowedIPs"@.len() == 10 && "AllowedIPs"@[0] == 'A',
        "PersistentKeepalive"@.len() == 19,
        single_line("PrivateKey"@),
        single_line("Address"@),
        single_line("DNS"@),
        single_line("MTU"@),
        single_line("PostUp"@),
        single_line("PostDown"@),
        single_line("PublicKey"@),
        single_line("Endpoint"@),
        single_line("AllowedIPs"@),
        single_line("PersistentKeepalive"@),
{
    reveal_strlit("PrivateKey");
    reveal_strlit("Address");
    reveal_strlit("DNS");
    reveal_strlit("MTU");
    reveal_strlit("PostUp");
    reveal_strlit("PostDown");
    reveal_strlit("PublicKey");
    reveal_strlit("Endpoint");
    reveal_strlit("AllowedIPs");
    reveal_strlit("PersistentKeepalive");
}

/// The first lines of a connect config: the interface settings.
pub open spec fn config_head(cfg: ParsedConfigView) -> Seq<Seq<char>> {
    seq![
        "[Interface]"@,
        setting("PrivateKey"@, cfg.private_key),
        setting("Address"@, cfg.address),
        setting("DNS"@, cfg.dns),
        setting("MTU"@, cfg.mtu),
        Seq::<char>::empty(),
        "# Linux Customization "@,
    ]
}

/// The route lines of a connect config: those that set the routes up, then
/// those that delete them.
pub open spec fn route_block(ips: Seq<Seq<char>>, iface: Seq<char>, gateway: Seq<char>) -> Seq<
    Seq<char>,
> {
    route_lines(ips, "PostUp"@, "ip route replace "@, gateway, iface) + route_lines(
        ips,
        "PostDown"@,
        "ip route del "@,
        gateway,
        iface,
    )
}

/// The last lines of a connect config: the peer settings.
pub open spec fn config_tail(cfg: ParsedConfigView) -> Seq<Seq<char>> {
    seq![
        Seq::<char>::empty(),
        "[Peer]"@,
        setting("PublicKey"@, cfg.public_key),
        setting("Endpoint"@, cfg.host + ":"@ + cfg.port),
        setting("AllowedIPs"@, cfg.allowed_ips),
        setting("PersistentKeepalive"@, cfg.persistent_keepalive),
    ]
}

/// The keys under which a connect config carries the fields of its provider config.
pub open spec fn field_key(k: Seq<char>) -> bool {
    ||| k == "PrivateKey"@
    ||| k == "Address"@
    ||| k == "DNS"@
    ||| k == "MTU"@
    ||| k == "PublicKey"@
    ||| k == "Endpoint"@
    ||| k == "AllowedIPs"@
    ||| k == "PersistentKeepalive"@
}

/// A line that sets one of the keys under which the fields are carried.
pub open spec fn sets_field(line: Seq<char>) -> bool {
    match key_of(line) {
        Some(k) => field_key(k),
        None => false,
    }
}

/// No line that the route lines read as sets a key under which a field is
/// carried. This holds when the addresses, the gateway and the interface
/// hold no line break (`lemma_plain_routes_set_no_field`), and also when a
/// line break there starts no such setting.
pub open spec fn routes_set_no_field(ips: Seq<Seq<char>>, iface: Seq<char>, gateway: Seq<char>) -> bool {
    let rl = lines(joined(route_block(ips, iface, gateway)));
    forall|j: int| 0 <= j < rl.len() ==> !sets_field(#[trigger] rl[j])
}

/// The field key carried on line `j` of a connect config whose route lines
/// read as `m` lines (empty where no field is carried).
spec fn field_at(j: int, m: int) -> Seq<char> {
    if j == 1 {
        "PrivateKey"@
    } else if j == 2 {
        "Address"@
    } else if j == 3 {
        "DNS"@
    } else if j == 4 {
        "MTU"@
    } else if j == 9 + m {
        "PublicKey"@
    } else if j == 10 + m {
        "Endpoint"@
    } else if j == 11 + m {
        "AllowedIPs"@
    } else if j == 12 + m {
        "PersistentKeepalive"@
    } else {
        Seq::<char>::empty()
    }
}

/// What each interface line of a connect config sets.
proof fn lemma_config_head_facts(cfg: ParsedConfigView)
    requires
        clean_value(cfg.private_key),
        clean_value(cfg.address),
        clean_value(cfg.dns),
        clean_value(cfg.mtu),
    ensures
        ({
            let h = config_head(cfg);
            &&& forall|j: int| 0 <= j < h.len() ==> single_line(#[trigger] h[j])
            &&& key_of(strip_cr(h[0])) is None
            &&& conf_entry(strip_cr(h[1])) == Some(("PrivateKey"@, cfg.private_key))
            &&& conf_entry(strip_cr(h[2])) == Some(("Address"@, cfg.address))
            &&& conf_entry(strip_cr(h[3])) == Some(("DNS"@, cfg.dns))
            &&& conf_entry(strip_cr(h[4])) == Some(("MTU"@, cfg.mtu))
            &&& key_of(strip_cr(h[5])) is None
            &&& key_of(strip_cr(h[6])) is None
        }),
{
    let h = config_head(cfg);
    lemma_config_keys_distinct();
    reveal_strlit("[Interface]");
    reveal_strlit("# Linux Customization ");
    lemma_setting_entry("PrivateKey"@, cfg.private_key);
    lemma_setting_entry("Address"@, cfg.address);
    lemma_setting_entry("DNS"@, cfg.dns);
    lemma_setting_entry("MTU"@, cfg.mtu);
    lemma_setting_single_line("PrivateKey"@, cfg.private_key);
    lemma_setting_single_line("Address"@, cfg.address);
    lemma_setting_single_line("DNS"@, cfg.dns);
    lemma_setting_single_line("MTU"@, cfg.mtu);
    lemma_header_line("[Interface]"@);
    lemma_header_line("# Linux Customization "@);
    assert(strip_cr("[Interface]"@) == "[Interface]"@);
    assert(strip_cr("# Linux Customization "@) == "# Linux Customization "@);
    assert(strip_cr(Seq::<char>::empty()) == Seq::<char>::empty());
    assert(conf_entry(Seq::<char>::empty()) is None);
    assert forall|j: int| 0 <= j < h.len() implies single_line(#[trigger] h[j]) by {
        if j == 0 || j == 5 || j == 6 {
        }
    }
}

/// What each peer line of a connect config sets.
proof fn lemma_config_tail_facts(cfg: ParsedConfigView)
    requires
        clean_value(cfg.public_key),
        clean_value(cfg.allowed_ips),
        clean_value(cfg.persistent_keepalive),
        clean_value(cfg.host),
        clean_value(cfg.port),
    ensures
        ({
            let t = config_tail(cfg);
            &&& forall|j: int| 0 <= j < t.len() ==> single_line(#[trigger] t[j])
            &&& key_of(strip_cr(t[0])) is None
            &&& key_of(strip_cr(t[1])) is None
            &&& conf_entry(strip_cr(t[2])) == Some(("PublicKey"@, cfg.public_key))
            &&& conf_entry(strip_cr(t[3])) == Some(("Endpoint"@, cfg.host + ":"@ + cfg.port))
            &&& conf_entry(strip_cr(t[4])) == Some(("AllowedIPs"@, cfg.allowed_ips))
            &&& conf_entry(strip_cr(t[5])) == Some(("PersistentKeepalive"@, cfg.persistent_keepalive))
        }),
{
    let t = config_tail(cfg);
    lemma_config_keys_distinct();
    reveal_strlit("[Peer]");
    reveal_strlit(":");
    assert(single_line(":"@));
    let endpoint = cfg.host + ":"@ + cfg.port;
    lemma_single_line_concat(cfg.host, ":"@);
    lemma_single_line_concat(cfg.host + ":"@, cfg.port);
    assert(trimmed_value(endpoint)) by {
        assert(endpoint.len() > 0);
        if cfg.host.len() > 0 {
            assert(endpoint[0] == cfg.host[0]);
        } else {
            assert(endpoint[0] == ':');
        }
        if cfg.port.len() > 0 {
            assert(endpoint.last() == cfg.port.last());
        } else {
            assert(endpoint.last() == ':');
        }
    }
    lemma_setting_entry("PublicKey"@, cfg.public_key);
    lemma_setting_entry("Endpoint"@, endpoint);
    lemma_setting_entry("AllowedIPs"@, cfg.allowed_ips);
    lemma_setting_entry("PersistentKeepalive"@, cfg.persistent_keepalive);
    lemma_setting_single_line("PublicKey"@, cfg.public_key);
    lemma_setting_single_line("Endpoint"@, endpoint);
    lemma_setting_single_line("AllowedIPs"@, cfg.allowed_ips);
    lemma_setting_single_line("PersistentKeepalive"@, cfg.persistent_keepalive);
    lemma_header_line("[Peer]"@);
    assert(strip_cr("[Peer]"@) == "[Peer]"@);
    assert(strip_cr(Seq::<char>::empty()) == Seq::<char>::empty());
    assert(conf_entry(Seq::<char>::empty()) is None);
    assert forall|j: int| 0 <= j < t.len() implies single_line(#[trigger] t[j]) by {
        if j == 0 || j == 1 {
        }
    }
}

/// Route lines whose addresses, gateway and interface hold no line break
/// read as one line each, and each sets `PostUp` or `PostDown`: no field key.
pub proof fn lemma_plain_routes_set_no_field(ips: Seq<Seq<char>>, iface: Seq<char>, gateway: Seq<char>)
    requires
        single_line(iface),
        single_line(gateway),
        forall|i: int| 0 <= i < ips.len() ==> single_line(#[trigger] ips[i]),
    ensures
        routes_set_no_field(ips, iface, gateway),
{
    lemma_config_keys_distinct();
    reveal_strlit("ip route replace ");
    reveal_strlit("ip route del ");
    reveal_strlit(" via ");
    reveal_strlit(" dev ");
    assert(single_line("ip route replace "@));
    assert(single_line("ip route del "@));
    assert(single_line(" via "@));
    assert(single_line(" dev "@));
    let n = ips.len() as int;
    let ups = route_lines(ips, "PostUp"@, "ip route replace "@, gateway, iface);
    let downs = route_lines(ips, "PostDown"@, "ip route del "@, gateway, iface);
    let b = route_block(ips, iface, gateway);
    assert forall|j: int| 0 <= j < n implies single_line(#[trigger] ups[j]) && key_of(strip_cr(ups[j]))
        == Some("PostUp"@) by {
        let v = "ip route replace "@ + ips[j] + " via "@ + gateway + " dev "@ + iface;
        assert(ups[j] == setting("PostUp"@, v));
        lemma_single_line_concat("ip route replace "@, ips[j]);
        lemma_single_line_concat("ip route replace "@ + ips[j], " via "@);
        lemma_single_line_concat("ip route replace "@ + ips[j] + " via "@, gateway);
        lemma_single_line_concat("ip route replace "@ + ips[j] + " via "@ + gateway, " dev "@);
        lemma_single_line_concat("ip route replace "@ + ips[j] + " via "@ + gateway + " dev "@, iface);
        lemma_setting_single_line("PostUp"@, v);
        lemma_setting_key("PostUp"@, v);
    }
    assert forall|j: int| 0 <= j < n implies single_line(#[trigger] downs[j]) && key_of(
        strip_cr(downs[j]),
    ) == Some("PostDown"@) by {
        let v = "ip route del "@ + ips[j] + " via "@ + gateway + " dev "@ + iface;
        assert(downs[j] == setting("PostDown"@, v));
        lemma_single_line_concat("ip route del "@, ips[j]);
        lemma_single_line_concat("ip route del "@ + ips[j], " via "@);
        lemma_single_line_concat("ip route del "@ + ips[j] + " via "@, gateway);
        lemma_single_line_concat("ip route del "@ + ips[j] + " via "@ + gateway, " dev "@);
        lemma_single_line_concat("ip route del "@ + ips[j] + " via "@ + gateway + " dev "@, iface);
        lemma_setting_single_line("PostDown"@, v);
        lemma_setting_key("PostDown"@, v);
    }
    assert forall|j: int| 0 <= j < b.len() implies single_line(#[trigger] b[j]) && !sets_field(
        strip_cr(b[j]),
    ) by {
        if j < n {
            assert(b[j] == ups[j]);
        } else {
            assert(b[j] == downs[j - n]);
        }
    }
    lemma_lines_joined(b);
    let rl = lines(joined(b));
    assert forall|j: int| 0 <= j < rl.len() implies !sets_field(#[trigger] rl[j]) by {
        assert(rl[j] == strip_cr(b[j]));
    }
}

/// A connect config reads back as what it was written from: the config
/// reader finds each field of `cfg` under its key, and the endpoint as
/// `host:port`. This holds when every field is one line with no whitespace at
/// either end, and no line that the route lines read as sets one of those
/// keys (as when the addresses, the gateway and the interface hold no line
/// break: `lemma_plain_routes_set_no_field`).
#[verifier::spinoff_prover]
#[verifier::rlimit(40)]
pub proof fn lemma_config_reads_back(
    ips: Seq<Seq<char>>,
    cfg: ParsedConfigView,
    iface: Seq<char>,
    gateway: Seq<char>,
)
    requires
        clean_value(cfg.private_key),
        clean_value(cfg.address),
        clean_value(cfg.dns),
        clean_value(cfg.mtu),
        clean_value(cfg.public_key),
        clean_value(cfg.allowed_ips),
        clean_value(cfg.persistent_keepalive),
        clean_value(cfg.host),
        clean_value(cfg.port),
        routes_set_no_field(ips, iface, gateway),
    ensures
        ({
            let conf = conf_of(lines(config_text(ips, cfg, iface, gateway)));
            &&& conf.contains_key("PrivateKey"@) && conf["PrivateKey"@] == cfg.private_key
            &&& conf.contains_key("Address"@) && conf["Address"@] == cfg.address
            &&& conf.contains_key("DNS"@) && conf["DNS"@] == cfg.dns
            &&& conf.contains_key("MTU"@) && conf["MTU"@] == cfg.mtu
            &&& conf.contains_key("PublicKey"@) && conf["PublicKey"@] == cfg.public_key
            &&& conf.contains_key("Endpoint"@) && conf["Endpoint"@] == cfg.host + ":"@ + cfg.port
            &&& conf.contains_key("AllowedIPs"@) && conf["AllowedIPs"@] == cfg.allowed_ips
            &&& conf.contains_key("PersistentKeepalive"@) && conf["PersistentKeepalive"@]
                == cfg.persistent_keepalive
        }),
{
    let h = config_head(cfg);
    let b = route_block(ips, iface, gateway);
    let t = config_tail(cfg);
    lemma_config_head_facts(cfg);
    lemma_config_tail_facts(cfg);
    lemma_config_keys_distinct();
    assert(config_lines(ips, cfg, iface, gateway) =~= h + b + t);
    lemma_joined_concat(h + b, t);
    lemma_joined_concat(h, b);
    let text = config_text(ips, cfg, iface, gateway);
    assert(text =~= joined(h) + (joined(b) + joined(t)));
    lemma_joined_ends(h);
    lemma_lines_concat(joined(h), joined(b) + joined(t));
    lemma_joined_ends(b);
    lemma_lines_concat(joined(b), joined(t));
    lemma_lines_joined(h);
    lemma_lines_joined(t);
    let hl = h.map_values(|l: Seq<char>| strip_cr(l));
    let rl = lines(joined(b));
    let tl = t.map_values(|l: Seq<char>| strip_cr(l));
    let read = hl + rl + tl;
    assert(lines(text) == read);
    let m = rl.len() as int;
    assert forall|j: int| 0 <= j < read.len() && sets_field(#[trigger] read[j]) implies key_of(read[j])
        == Some(field_at(j, m)) by {
        if j < 7 {
            assert(read[j] == strip_cr(h[j]));
        } else if j < 7 + m {
            assert(read[j] == rl[j - 7]);
        } else {
            assert(read[j] == strip_cr(t[j - 7 - m]));
        }
    }
    assert(read[1] == strip_cr(h[1]));
    assert(read[2] == strip_cr(h[2]));
    assert(read[3] == strip_cr(h[3]));
    assert(read[4] == strip_cr(h[4]));
    assert(read[9 + m] == strip_cr(t[2]));
    assert(read[10 + m] == strip_cr(t[3]));
    assert(read[11 + m] == strip_cr(t[4]));
    assert(read[12 + m] == strip_cr(t[5]));
    lemma_conf_lookup(read, 1, "PrivateKey"@, cfg.private_key);
    lemma_conf_lookup(read, 2, "Address"@, cfg.address);
    lemma_conf_lookup(read, 3, "DNS"@, cfg.dns);
    lemma_conf_lookup(read, 4, "MTU"@, cfg.mtu);
    lemma_conf_lookup(read, 9 + m, "PublicKey"@, cfg.public_key);
    lemma_conf_lookup(read, 10 + m, "Endpoint"@, cfg.host + ":"@ + cfg.port);
    lemma_conf_lookup(read, 11 + m, "AllowedIPs"@, cfg.allowed_ips);
    lemma_conf_lookup(read, 12 + m, "PersistentKeepalive"@, cfg.persistent_keepalive);
}

/// Reading a connect config as a provider config gives back the provider
/// config it was written from, under the conditions of
/// `lemma_config_reads_back` and when the port holds no `:` (the endpoint
/// splits at its last `:`).
pub proof fn lemma_config_round_trip(
    ips: Seq<Seq<char>>,
    cfg: ParsedConfigView,
    iface: Seq<char>,
    gateway: Seq<char>,
    display: Seq<char>,
)
    requires
        clean_value(cfg.private_key),
        clean_value(cfg.address),
        clean_value(cfg.dns),
        clean_value(cfg.mtu),
        clean_value(cfg.public_key),
        clean_value(cfg.allowed_ips),
        clean_value(cfg.persistent_keepalive),
        clean_value(cfg.host),
        clean_value(cfg.port),
        routes_set_no_field(ips, iface, gateway),
        forall|i: int| 0 <= i < cfg.port.len() ==> cfg.port[i] != ':',
    ensures
        parsed_from(config_text(ips, cfg, iface, gateway), display) == Ok::<ParsedConfigView, Seq<char>>(cfg),
{
    lemma_config_reads_back(ips, cfg, iface, gateway);
    lemma_endpoint_split_join(cfg.host, cfg.port);
}

} // verus!
