//! Running `wgctl.sh` with elevated rights: the arguments it gets, how the
//! outcome of `sudo -n` and `pkexec` is read, and the one-time installer.

use vstd::prelude::*;

use crate::text::{
    chars_of, contains, decimal, decimal_string, first_index, lemma_first_index,
    lemma_first_index_found, push_char, str_contains,
};

verus! {

/// What `wgctl.sh` is asked to do.
pub enum WgAction {
    Up(u8),
    Down,
    Restart(u8),
}

/// The views of a list of strings.
pub open spec fn string_views(v: Seq<String>) -> Seq<Seq<char>> {
    v.map_values(|s: String| s@)
}

/// The arguments that follow `--workspace <dir>` for an action.
pub open spec fn action_args(a: WgAction) -> Seq<Seq<char>> {
    match a {
        WgAction::Up(n) => seq!["up"@, decimal(n as nat)],
        WgAction::Down => seq!["down"@],
        WgAction::Restart(n) => seq!["restart"@, decimal(n as nat)],
    }
}

/// The arguments for an action (see `action_args`).
pub fn wgctl_args(action: WgAction) -> (r: Vec<String>)
    ensures
        string_views(r@) == action_args(action),
{
    let mut r: Vec<String> = Vec::new();
    match action {
        WgAction::Up(n) => {
            r.push(String::from_str("up"));
            r.push(decimal_string(n as u64));
        },
        WgAction::Down => {
            r.push(String::from_str("down"));
        },
        WgAction::Restart(n) => {
            r.push(String::from_str("restart"));
            r.push(decimal_string(n as u64));
        },
    }
    assert(string_views(r@) =~= action_args(action));
    r
}

/// What a finished command reported.
pub struct CommandOutput {
    pub success: bool,
    pub stdout: String,
    pub stderr: String,
}

/// The standard error of a failed command, or its standard output when it wrote no error.
pub open spec fn failure_text(stdout: Seq<char>, stderr: Seq<char>) -> Seq<char> {
    if stderr.len() == 0 {
        stdout
    } else {
        stderr
    }
}

/// `sudo -n` refused because it would have needed a password.
pub open spec fn asks_password(stderr: Seq<char>) -> bool {
    ||| contains(stderr, "a password is required"@)
    ||| contains(stderr, "password is required"@)
    ||| contains(stderr, "PasswordRequired"@)
}

/// Whether `sudo -n` refused for want of a password (see `asks_password`).
pub fn needs_password(stderr: &str) -> (r: bool)
    ensures
        r == asks_password(stderr@),
{
    str_contains(stderr, "a password is required") || str_contains(stderr, "password is required")
        || str_contains(stderr, "PasswordRequired")
}

/// What to do after trying `sudo -n wgctl.sh ..`.
pub enum SudoOutcome {
    /// The run is over, with this result.
    Finished(Result<String, String>),
    /// Fall back to `pkexec`, which prompts for a password.
    TryPkexec,
}

/// Reads the outcome of `sudo -n`: when it could not be started, or refused
/// for want of a password, fall back to `pkexec`; when it succeeded, its
/// output is the result; any other failure is reported as it is.
pub fn sudo_outcome(output: Option<CommandOutput>) -> (r: SudoOutcome)
    ensures
        output is None ==> r is TryPkexec,
        output matches Some(o) ==> (if o.success {
            r matches SudoOutcome::Finished(Ok(s)) && s@ == o.stdout@
        } else if asks_password(o.stderr@) {
            r is TryPkexec
        } else {
            r matches SudoOutcome::Finished(Err(e)) && e@ == failure_text(o.stdout@, o.stderr@)
        }),
{
    match output {
        None => SudoOutcome::TryPkexec,
        Some(o) => {
            let needs = needs_password(o.stderr.as_str());
            if o.success {
                SudoOutcome::Finished(Ok(o.stdout))
            } else if !needs {
                SudoOutcome::Finished(Err(failure_message(o.stdout, o.stderr)))
            } else {
                SudoOutcome::TryPkexec
            }
        },
    }
}

/// The text that reports a failed command (see `failure_text`).
pub fn failure_message(stdout: String, stderr: String) -> (r: String)
    ensures
        r@ == failure_text(stdout@, stderr@),
{
    if stderr.as_str().is_empty() {
        stdout
    } else {
        stderr
    }
}

/// Reads the outcome of `pkexec wgctl.sh ..`: its output on success, else its failure text.
pub fn pkexec_outcome(output: CommandOutput) -> (r: Result<String, String>)
    ensures
        output.success ==> r is Ok && r->Ok_0@ == output.stdout@,
        !output.success ==> r is Err && r->Err_0@ == failure_text(
            output.stdout@,
            output.stderr@,
        ),
{
    if !output.success {
        return Err(failure_message(output.stdout, output.stderr));
    }
    Ok(output.stdout)
}

/// Whether the probe `sudo -n wgctl.sh --workspace .. status` ran without
/// asking for a password; a probe that could not start means no.
pub fn passwordless(probe_stderr: Option<String>) -> (r: bool)
    ensures
        r == (probe_stderr matches Some(e) && !contains(e@, "a password is required"@) && !contains(
            e@,
            "password is required"@,
        )),
{
    match probe_stderr {
        None => false,
        Some(e) => !str_contains(e.as_str(), "a password is required") && !str_contains(
            e.as_str(),
            "password is required",
        ),
    }
}

/// The workspace that the probe names: the configured one, or `/tmp`.
pub fn probe_workspace(workspace: Option<String>) -> (r: String)
    ensures
        workspace matches Some(w) ==> r@ == w@,
        workspace is None ==> r@ == "/tmp"@,
{
    match workspace {
        Some(w) => w,
        None => String::from_str("/tmp"),
    }
}

/// `s` with each `'` replaced by `'"'"'`.
pub open spec fn escape_quotes(s: Seq<char>) -> Seq<char>
    decreases s.len(),
{
    if s.len() == 0 {
        seq![]
    } else {
        escape_quotes(s.drop_last()) + if s.last() == '\'' {
            "'\"'\"'"@
        } else {
            seq![s.last()]
        }
    }
}

/// `s` as one single-quoted shell word.
pub open spec fn shell_quoted(s: Seq<char>) -> Seq<char> {
    "'"@ + escape_quotes(s) + "'"@
}

/// How a POSIX shell reads a word made of single-quoted runs, each taken
/// literally, and `"'"` runs, each a single quote; `None` for any other word.
pub open spec fn shell_unquote(w: Seq<char>) -> Option<Seq<char>>
    decreases w.len(),
{
    if w.len() == 0 {
        Some(seq![])
    } else if w[0] == '\'' {
        let rest = w.drop_first();
        match first_index(rest, '\'') {
            None => None,
            Some(k) => {
                proof {
                    lemma_first_index_found(rest, '\'');
                }
                match shell_unquote(rest.skip(k + 1)) {
                    Some(t) => Some(rest.take(k) + t),
                    None => None,
                }
            },
        }
    } else if w.len() >= 3 && w[0] == '"' && w[1] == '\'' && w[2] == '"' {
        match shell_unquote(w.skip(3)) {
            Some(t) => Some(seq!['\''] + t),
            None => None,
        }
    } else {
        None
    }
}

/// Escaping distributes over concatenation.
pub proof fn lemma_escape_concat(a: Seq<char>, b: Seq<char>)
    ensures
        escape_quotes(a + b) == escape_quotes(a) + escape_quotes(b),
    decreases b.len(),
{
    if b.len() == 0 {
        assert(a + b =~= a);
        assert(escape_quotes(a) + escape_quotes(b) =~= escape_quotes(a));
    } else {
        lemma_escape_concat(a, b.drop_last());
        assert((a + b).drop_last() =~= a + b.drop_last());
        assert((a + b).last() == b.last());
    }
}

/// Text without a single quote is left as it is.
pub proof fn lemma_escape_plain(a: Seq<char>)
    requires
        forall|i: int| 0 <= i < a.len() ==> a[i] != '\'',
    ensures
        escape_quotes(a) == a,
    decreases a.len(),
{
    if a.len() > 0 {
        lemma_escape_plain(a.drop_last());
        assert(escape_quotes(a.drop_last()) + seq![a.last()] =~= a);
    }
}

/// A shell reads the quoted word back as the text that was quoted, so the
/// installer hands the path and the user name over unchanged.
pub proof fn lemma_shell_quoted_reads_back(s: Seq<char>)
    ensures
        shell_unquote(shell_quoted(s)) == Some(s),
    decreases s.len(),
{
    reveal_strlit("'");
    reveal_strlit("'\"'\"'");
    let w = shell_quoted(s);
    lemma_first_index_found(s, '\'');
    match first_index(s, '\'') {
        None => {
            lemma_escape_plain(s);
            let rest = w.drop_first();
            assert(rest =~= s + seq!['\'']);
            lemma_first_index(rest, '\'', s.len() as int);
            assert(rest.take(s.len() as int) =~= s);
            assert(rest.skip(s.len() as int + 1) =~= Seq::<char>::empty());
            assert(s + Seq::<char>::empty() =~= s);
            assert(w[0] == '\'');
            assert(shell_unquote(Seq::<char>::empty()) == Some(Seq::<char>::empty()));
        },
        Some(k) => {
            let a = s.take(k);
            let b = s.skip(k + 1);
            assert(s =~= a + seq!['\''] + b);
            assert forall|i: int| 0 <= i < a.len() implies a[i] != '\'' by {
                assert(a[i] == s[i]);
            }
            lemma_escape_plain(a);
            lemma_escape_concat(a + seq!['\''], b);
            lemma_escape_concat(a, seq!['\'']);
            assert(seq!['\''].drop_last() =~= Seq::<char>::empty());
            assert(escape_quotes(seq!['\'']) == escape_quotes(Seq::<char>::empty()) + "'\"'\"'"@);
            assert(escape_quotes(seq!['\'']) =~= "'\"'\"'"@);
            let x = seq!['"', '\'', '"'] + shell_quoted(b);
            let rest = w.drop_first();
            assert(rest =~= a + seq!['\''] + x);
            lemma_first_index(rest, '\'', k);
            assert(rest.take(k) =~= a);
            assert(rest.skip(k + 1) =~= x);
            assert(x.skip(3) =~= shell_quoted(b));
            lemma_shell_quoted_reads_back(b);
            assert(x[0] == '"' && x[1] == '\'' && x[2] == '"');
            assert(shell_unquote(x) == Some(seq!['\''] + b));
            assert(w[0] == '\'');
            assert(shell_unquote(w) == Some(a + (seq!['\''] + b)));
            assert(a + (seq!['\''] + b) =~= s);
        },
    }
}

/// Quotes `s` for a POSIX shell (see `shell_quoted`).
pub fn shell_escape(s: &str) -> (r: String)
    ensures
        r@ == shell_quoted(s@),
{
    let v = chars_of(s);
    let mut body = String::new();
    assert(v@.take(0) =~= Seq::<char>::empty());
    for i in 0..v.len()
        invariant
            body@ == escape_quotes(v@.take(i as int)),
    {
        assert(v@.take(i + 1).drop_last() =~= v@.take(i as int));
        if v[i] == '\'' {
            body.append("'\"'\"'");
        } else {
            push_char(&mut body, v[i]);
        }
    }
    assert(v@.take(v@.len() as int) =~= v@);
    let mut r = String::from_str("'");
    r.append(body.as_str());
    r.append("'");
    r
}

/// The refusal of a `wgctl.sh` path with a space, which the sudoers rule cannot hold.
pub fn check_script_path(script: &str) -> (r: Result<(), String>)
    ensures
        contains(script@, " "@) ==> r is Err && r->Err_0@
            == "wgctl.sh path contains spaces; move Aether to a path without spaces"@,
        !contains(script@, " "@) ==> r is Ok,
{
    if str_contains(script, " ") {
        return Err(String::from_str("wgctl.sh path contains spaces; move Aether to a path without spaces"));
    }
    Ok(())
}

/// The start of the installer, up to the `wgctl.sh` path.
pub const INSTALLER_HEAD: &'static str = "#!/bin/bash\nset -euo pipefail\nSCRIPT=";

/// The installer between the path and the user name.
pub const INSTALLER_MID: &'static str = "\nUSER_NAME=";

/// The rest of the installer: the sudoers rule and the polkit rule.
pub const INSTALLER_TAIL: &'static str = r##"
RULE_FILE=/etc/sudoers.d/aether-wgctl
POLKIT_FILE=/etc/polkit-1/rules.d/50-aether.rules

mkdir -p /etc/sudoers.d
printf '%s ALL=(root) NOPASSWD: %s\n' "$USER_NAME" "$SCRIPT" > "$RULE_FILE"
chmod 440 "$RULE_FILE"
visudo -cf "$RULE_FILE"

mkdir -p /etc/polkit-1/rules.d
cat > "$POLKIT_FILE" <<'EOF'
// Aether — allow pkexec of wgctl.sh without password for sudo group
polkit.addRule(function(action, subject) {
    if (action.id == "org.freedesktop.policykit.exec" &&
        action.lookup("program") &&
        action.lookup("program").indexOf("wgctl.sh") >= 0 &&
        subject.isInGroup("sudo")) {
        return polkit.Result.YES;
    }
});
EOF
chmod 644 "$POLKIT_FILE"
echo OK
"##;

/// The one-time installer that lets `user` run `script` without a password.
pub open spec fn installer_text(script: Seq<char>, user: Seq<char>) -> Seq<char> {
    INSTALLER_HEAD@ + shell_quoted(script) + INSTALLER_MID@ + shell_quoted(user) + INSTALLER_TAIL@
}

/// Writes the installer (see `installer_text`).
pub fn elevation_script(script: &str, user: &str) -> (r: String)
    ensures
        r@ == installer_text(script@, user@),
{
    let mut r = String::from_str(INSTALLER_HEAD);
    r.append(shell_escape(script).as_str());
    r.append(INSTALLER_MID);
    r.append(shell_escape(user).as_str());
    r.append(INSTALLER_TAIL);
    r
}

} // verus!
