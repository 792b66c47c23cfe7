//! The command line surface. Mirrors git so it feels familiar: `init`, `add`,
//! `status`, `commit`, `log`, `show`, `branch`, `checkout`, `merge`,
//! `materialize`, plus remotes (`clone`, `push`, `fetch`, `pull`, `remote`)
//! and `config`.
//!
//! This module holds what the commands decide and how they render their
//! output; reading the clock, the environment and the disk is the caller's
//! part.

use vstd::prelude::*;

use crate::brief::{short, short_id, short_ok};
use crate::config::{label_of, Config, Identity, Remote};
use crate::error::{opt_str, LoreError, SpecError};
use crate::object::{Commit, SpecCommit};
use crate::repo::CommitView;
use crate::text::{
    append_str, chars_of, dec, push_dec, split_newlines, str_eq, string_from_chars, strs, trim,
    trimmed,
};
use crate::time::{format_ns, unix_ns_text};
use crate::transport::trim_trailing_slashes;

verus! {

// ---------------------------------------------------------------------------
// Small decisions
// ---------------------------------------------------------------------------

/// The text after the last `'/'` of `s`, or all of `s` if it has none.
pub open spec fn last_segment(s: Seq<char>) -> Seq<char>
    decreases s.len(),
{
    if s.len() == 0 || s.last() == '/' {
        Seq::empty()
    } else {
        last_segment(s.drop_last()).push(s.last())
    }
}

/// The directory git-style clone would create: the last path segment of the
/// url.
pub fn default_clone_dir(url: &str) -> (d: String)
    ensures
        d@ == last_segment(trim_trailing_slashes(url@)),
{
    let cs = chars_of(url);
    let mut j = cs.len();
    assert(cs@.take(j as int) == cs@);
    while j > 0 && cs[j - 1] == '/'
        invariant
            j <= cs.len(),
            cs@ == url@,
            trim_trailing_slashes(url@) == trim_trailing_slashes(cs@.take(j as int)),
        decreases j,
    {
        assert(cs@.take(j as int).drop_last() == cs@.take(j - 1));
        j = j - 1;
    }
    let ghost t = cs@.take(j as int);
    assert(trim_trailing_slashes(url@) == t);
    let mut i = j;
    while i > 0 && cs[i - 1] != '/'
        invariant
            i <= j <= cs.len(),
            t == cs@.take(j as int),
            last_segment(t) == last_segment(cs@.take(i as int)) + cs@.subrange(i as int, j as int),
        decreases i,
    {
        assert(cs@.take(i as int).drop_last() == cs@.take(i - 1));
        assert(cs@.subrange(i - 1, j as int) == seq![cs@[i - 1]] + cs@.subrange(i as int, j as int));
        i = i - 1;
    }
    assert(last_segment(cs@.take(i as int)) == Seq::<char>::empty());
    string_from_chars(&cs, i, j)
}

/// The first line of `s`: the text before its first line break, without a
/// carriage return that ends it.
pub open spec fn first_line(s: Seq<char>) -> Seq<char> {
    let p = split_newlines(s)[0];
    if split_newlines(s).len() > 1 && p.len() > 0 && p.last() == '\r' {
        p.drop_last()
    } else {
        p
    }
}

proof fn lemma_split_first(s: Seq<char>, i: int)
    requires
        0 <= i <= s.len(),
        forall|k: int| 0 <= k < i ==> s[k] != '\n',
    ensures
        split_newlines(s.take(i)) == seq![s.take(i)],
    decreases i,
{
    if i > 0 {
        lemma_split_first(s, i - 1);
        assert(s.take(i).drop_last() == s.take(i - 1));
        assert(s.take(i).last() == s[i - 1]);
        assert(s.take(i - 1).push(s[i - 1]) == s.take(i));
        let rest = split_newlines(s.take(i - 1));
        assert(rest.update(rest.len() - 1, rest.last().push(s[i - 1])) =~= seq![s.take(i)]);
    } else {
        assert(s.take(0) == Seq::<char>::empty());
    }
}

proof fn lemma_split_more(s: Seq<char>, n: int)
    requires
        0 <= n < s.len(),
        s[n] == '\n',
        split_newlines(s.take(n)) == seq![s.take(n)],
    ensures
        split_newlines(s)[0] == s.take(n),
        split_newlines(s).len() > 1,
    decreases s.len(),
{
    if s.len() == n + 1 {
        assert(s.drop_last() == s.take(n));
    } else {
        assert(s.drop_last().take(n) == s.take(n));
        lemma_split_more(s.drop_last(), n);
        lemma_split_nonempty(s.drop_last());
    }
}

proof fn lemma_split_nonempty(s: Seq<char>)
    ensures
        split_newlines(s).len() >= 1,
    decreases s.len(),
{
    if s.len() > 0 {
        lemma_split_nonempty(s.drop_last());
    }
}

/// The first line of an entry, trimmed, for a one-line-per-entry listing.
/// Intent text has no length limit; this only keeps listings scannable.
pub fn oneline(text: &str) -> (l: String)
    ensures
        l@ == first_line(trim(text@)),
{
    let t = trimmed(text);
    let cs = chars_of(t.as_str());
    let mut i: usize = 0;
    while i < cs.len() && cs[i] != '\n'
        invariant
            i <= cs.len(),
            forall|k: int| 0 <= k < i ==> cs@[k] != '\n',
        decreases cs.len() - i,
    {
        i = i + 1;
    }
    proof {
        lemma_split_first(cs@, i as int);
        if i == cs.len() {
            assert(cs@.take(i as int) == cs@);
        } else {
            lemma_split_more(cs@, i as int);
        }
    }
    if i < cs.len() && i > 0 && cs[i - 1] == '\r' {
        assert(cs@.take(i as int).drop_last() == cs@.subrange(0, i - 1));
        string_from_chars(&cs, 0, i - 1)
    } else {
        assert(cs@.take(i as int) == cs@.subrange(0, i as int));
        string_from_chars(&cs, 0, i)
    }
}

/// The first of `options` that holds a non-empty string.
pub open spec fn first_nonempty_of(options: Seq<Option<Seq<char>>>) -> Option<Seq<char>>
    decreases options.len(),
{
    if options.len() == 0 {
        None
    } else {
        match options[0] {
            Some(s) if s.len() > 0 => Some(s),
            _ => first_nonempty_of(options.drop_first()),
        }
    }
}

/// The optional strings of `v`, as values.
pub open spec fn opt_strs(v: Seq<Option<String>>) -> Seq<Option<Seq<char>>> {
    v.map_values(|o: Option<String>| opt_str(o))
}

/// The first of `options` that holds a non-empty string.
pub fn first_nonempty(options: Vec<Option<String>>) -> (r: Option<String>)
    ensures
        opt_str(r) == first_nonempty_of(opt_strs(options@)),
{
    let ghost all = opt_strs(options@);
    let mut i: usize = 0;
    assert(all.skip(0) == all);
    while i < options.len()
        invariant
            i <= options.len(),
            all == opt_strs(options@),
            first_nonempty_of(all) == first_nonempty_of(all.skip(i as int)),
        decreases options.len() - i,
    {
        assert(all.skip(i as int).drop_first() == all.skip(i + 1));
        match &options[i] {
            Some(s) => {
                if !s.as_str().is_empty() {
                    return Some(s.clone());
                }
            },
            None => {},
        }
        i = i + 1;
    }
    None
}

/// Who is recording: the flag, then `LORE_AUTHOR`, then the configured
/// name, then `USER`, else `anonymous`; the email from the flag, then
/// `LORE_EMAIL`, then the configured email, else empty.
pub fn resolve_identity(
    cfg: &Config,
    author: Option<String>,
    env_author: Option<String>,
    env_user: Option<String>,
    email: Option<String>,
    env_email: Option<String>,
) -> (who: Identity)
    ensures
        who.name@ == match first_nonempty_of(
            seq![opt_str(author), opt_str(env_author), Some(cfg.user.name@), opt_str(env_user)],
        ) {
            Some(n) => n,
            None => "anonymous"@,
        },
        who.email@ == match first_nonempty_of(
            seq![opt_str(email), opt_str(env_email), Some(cfg.user.email@)],
        ) {
            Some(e) => e,
            None => Seq::<char>::empty(),
        },
{
    let ghost a0 = opt_str(author);
    let ghost a1 = opt_str(env_author);
    let ghost a2 = opt_str(env_user);
    let ghost e0 = opt_str(email);
    let ghost e1 = opt_str(env_email);
    let mut names: Vec<Option<String>> = Vec::new();
    names.push(author);
    names.push(env_author);
    names.push(Some(cfg.user.name.clone()));
    names.push(env_user);
    let ghost ns = opt_strs(names@);
    let name = match first_nonempty(names) {
        Some(n) => n,
        None => "anonymous".to_owned(),
    };
    let mut emails: Vec<Option<String>> = Vec::new();
    emails.push(email);
    emails.push(env_email);
    emails.push(Some(cfg.user.email.clone()));
    let ghost es = opt_strs(emails@);
    let mail = match first_nonempty(emails) {
        Some(e) => e,
        None => String::new(),
    };
    assert(ns =~= seq![a0, a1, Some(cfg.user.name@), a2]);
    assert(es =~= seq![e0, e1, Some(cfg.user.email@)]);
    Identity { name, email: mail }
}

/// The message of a merge: the one given, else `Merge branch '<branch>'`.
pub fn merge_message(branch: &str, message: Option<String>) -> (m: String)
    ensures
        m@ == match message {
            Some(msg) => msg@,
            None => "Merge branch '"@ + branch@ + "'"@,
        },
{
    match message {
        Some(m) => m,
        None => {
            let mut m = String::new();
            append_str(&mut m, "Merge branch '");
            append_str(&mut m, branch);
            append_str(&mut m, "'");
            m
        },
    }
}

// ---------------------------------------------------------------------------
// Config and remotes
// ---------------------------------------------------------------------------

/// What a `config` command asked for.
#[derive(Debug, PartialEq, Eq)]
pub enum ConfigOutcome {
    /// Print both settings.
    ShowAll { name: String, email: String },
    /// Print one setting.
    Show(String),
    /// A setting changed; the config must be saved.
    Updated,
}

/// Get or set `user.name` or `user.email`.
pub fn apply_config(cfg: &mut Config, key: Option<&str>, value: Option<String>) -> (r: Result<
    ConfigOutcome,
    LoreError,
>)
    ensures
        final(cfg).remotes == old(cfg).remotes,
        match key {
            None => r matches Ok(ConfigOutcome::ShowAll { name, email }) && name@ == old(
                cfg,
            ).user.name@ && email@ == old(cfg).user.email@ && *final(cfg) == *old(cfg),
            Some(k) => if k@ == "user.name"@ {
                match value {
                    None => r matches Ok(ConfigOutcome::Show(v)) && v@ == old(cfg).user.name@
                        && *final(cfg) == *old(cfg),
                    Some(v) => r matches Ok(ConfigOutcome::Updated) && final(cfg).user.name == v
                        && final(cfg).user.email == old(cfg).user.email,
                }
            } else if k@ == "user.email"@ {
                match value {
                    None => r matches Ok(ConfigOutcome::Show(v)) && v@ == old(cfg).user.email@
                        && *final(cfg) == *old(cfg),
                    Some(v) => r matches Ok(ConfigOutcome::Updated) && final(cfg).user.email == v
                        && final(cfg).user.name == old(cfg).user.name,
                }
            } else {
                r matches Err(e) && e@ == SpecError::UnknownConfigKey(k@) && *final(cfg) == *old(
                    cfg,
                )
            },
        },
{
    match key {
        None => Ok(ConfigOutcome::ShowAll { name: cfg.user.name.clone(), email: cfg.user.email.clone() }),
        Some(k) => {
            if str_eq(k, "user.name") {
                match value {
                    None => Ok(ConfigOutcome::Show(cfg.user.name.clone())),
                    Some(v) => {
                        cfg.user.name = v;
                        Ok(ConfigOutcome::Updated)
                    },
                }
            } else if str_eq(k, "user.email") {
                match value {
                    None => Ok(ConfigOutcome::Show(cfg.user.email.clone())),
                    Some(v) => {
                        cfg.user.email = v;
                        Ok(ConfigOutcome::Updated)
                    },
                }
            } else {
                Err(LoreError::UnknownConfigKey(k.to_owned()))
            }
        },
    }
}

/// Add (or replace) the remote `name`.
pub fn add_remote(cfg: &mut Config, name: &str, url: String)
    ensures
        final(cfg).user == old(cfg).user,
        final(cfg).remotes@ == old(cfg).remotes@.insert(name@, Remote { url }),
{
    cfg.remotes.insert(name.to_owned(), Remote { url });
}

/// Remove the remote `name`.
pub fn remove_remote(cfg: &mut Config, name: &str) -> (r: Result<(), LoreError>)
    ensures
        final(cfg).user == old(cfg).user,
        final(cfg).remotes@ == old(cfg).remotes@.remove(name@),
        match r {
            Ok(()) => old(cfg).remotes@.contains_key(name@),
            Err(e) => !old(cfg).remotes@.contains_key(name@) && e@ == SpecError::NoSuchRemote(name@),
        },
{
    match cfg.remotes.remove(name) {
        Some(_) => Ok(()),
        None => Err(LoreError::NoSuchRemote(name.to_owned())),
    }
}

// ---------------------------------------------------------------------------
// Rendering
// ---------------------------------------------------------------------------

/// How long a commit message may be in the log before it is cut.
pub open spec fn log_message_limit() -> nat {
    50
}

/// A commit message as the log shows it: in full up to the limit, else cut
/// to the limit and marked with `...`.
pub open spec fn log_message(m: Seq<char>) -> Seq<char> {
    if m.len() <= log_message_limit() {
        m
    } else {
        m.take(log_message_limit() as int) + "..."@
    }
}

/// One line of the log.
pub open spec fn log_line_text(id: Seq<char>, c: SpecCommit) -> Seq<char> {
    short_id(id) + " "@ + unix_ns_text(c.timestamp as nat) + " "@ + c.author + " - "@
        + log_message(c.message) + (if c.parents.len() > 1 {
        " (merge)"@
    } else {
        Seq::empty()
    }) + " ["@ + dec(c.entries.len()) + " intent]"@
}

/// One line of the log: short id, time, author, message, and how much
/// intent the commit recorded.
pub fn log_line(id: &str, c: &Commit) -> (s: String)
    requires
        short_ok(id@),
    ensures
        s@ == log_line_text(id@, c@),
{
    let mut s = String::new();
    append_str(&mut s, short(id));
    append_str(&mut s, " ");
    let t = format_ns(c.timestamp);
    append_str(&mut s, t.as_str());
    append_str(&mut s, " ");
    append_str(&mut s, c.author.as_str());
    append_str(&mut s, " - ");
    let ms = chars_of(c.message.as_str());
    if ms.len() <= 50 {
        append_str(&mut s, c.message.as_str());
    } else {
        let cut = string_from_chars(&ms, 0, 50);
        append_str(&mut s, cut.as_str());
        append_str(&mut s, "...");
    }
    if c.parents.len() > 1 {
        append_str(&mut s, " (merge)");
    }
    append_str(&mut s, " [");
    push_dec(&mut s, c.entries.len() as u64);
    append_str(&mut s, " intent]");
    assert(s@ == log_line_text(id@, c@));
    s
}

/// The full text of a commit as `show` prints it.
pub open spec fn show_text(id: Seq<char>, c: SpecCommit, es: Seq<(Seq<char>, crate::object::SpecEntry)>) -> Seq<char> {
    "commit "@ + id + "\n"@ + "Author: "@ + c.author + "\n"@ + "Date:   "@ + unix_ns_text(
        c.timestamp as nat,
    ) + "\n"@ + "\n"@ + c.message + "\n"@ + "\n"@ + show_entries_text(es)
}

/// The entries of a commit as `show` prints them: id, author, and the
/// intent in full.
pub open spec fn show_entries_text(es: Seq<(Seq<char>, crate::object::SpecEntry)>) -> Seq<char>
    decreases es.len(),
{
    if es.len() == 0 {
        Seq::empty()
    } else {
        show_entries_text(es.drop_last()) + "  "@ + short_id(es.last().0) + " "@ + es.last().1.author
            + ": "@ + trim(es.last().1.text) + "\n"@
    }
}

/// Render a commit and its entries, in full.
pub fn show_commit(v: &CommitView) -> (s: String)
    requires
        forall|i: int| 0 <= i < v.entries@.len() ==> short_ok(#[trigger] v.entries@[i].0@),
    ensures
        s@ == show_text(v.id@, v.commit@, crate::brief::entry_pairs(v.entries@)),
{
    let mut s = String::new();
    append_str(&mut s, "commit ");
    append_str(&mut s, v.id.as_str());
    append_str(&mut s, "\n");
    append_str(&mut s, "Author: ");
    append_str(&mut s, v.commit.author.as_str());
    append_str(&mut s, "\n");
    append_str(&mut s, "Date:   ");
    let t = format_ns(v.commit.timestamp);
    append_str(&mut s, t.as_str());
    append_str(&mut s, "\n");
    append_str(&mut s, "\n");
    append_str(&mut s, v.commit.message.as_str());
    append_str(&mut s, "\n");
    append_str(&mut s, "\n");
    let ghost start = s@;
    let ghost es = crate::brief::entry_pairs(v.entries@);
    let mut i: usize = 0;
    while i < v.entries.len()
        invariant
            i <= v.entries.len(),
            es == crate::brief::entry_pairs(v.entries@),
            s@ == start + show_entries_text(es.take(i as int)),
            forall|j: int| 0 <= j < v.entries@.len() ==> short_ok(#[trigger] v.entries@[j].0@),
        decreases v.entries.len() - i,
    {
        let (id, e) = (&v.entries[i].0, &v.entries[i].1);
        append_str(&mut s, "  ");
        append_str(&mut s, short(id.as_str()));
        append_str(&mut s, " ");
        append_str(&mut s, e.author.as_str());
        append_str(&mut s, ": ");
        let body = trimmed(e.text.as_str());
        append_str(&mut s, body.as_str());
        append_str(&mut s, "\n");
        proof {
            assert(es.take(i + 1).drop_last() == es.take(i as int));
            assert(es.take(i + 1).last() == es[i as int]);
        }
        i = i + 1;
    }
    assert(es.take(v.entries.len() as int) == es);
    s
}

} // verus!

verus! {

// ---------------------------------------------------------------------------
// Parsing the command line
// ---------------------------------------------------------------------------

/// A parsed command line.
#[derive(Debug)]
pub struct Cli {
    pub command: Command,
}

/// What the user asked for.
#[derive(Debug)]
#[allow(inconsistent_fields)]
pub enum Command {
    /// Create a new Lore repository in the current directory
    Init,
    /// Stage a unit of intent (a prompt, note, or decision)
    Add { text: Vec<String>, author: Option<String>, email: Option<String> },
    /// Show the current branch, head, and staged intent
    Status,
    /// Record staged intent as a commit
    Commit { message: String, author: Option<String>, email: Option<String> },
    /// Show commit history, newest first
    Log,
    /// Show a commit in full with the intent it recorded
    Show { reference: String },
    /// List branches, or create one with a name
    Branch { name: Option<String> },
    /// Switch to another branch, creating it first with `-b`
    Checkout { name: String, create: bool },
    /// Merge another branch's intent into the current branch
    Merge {
        branch: String,
        message: Option<String>,
        author: Option<String>,
        email: Option<String>,
    },
    /// Render accumulated intent into a brief an agent can rebuild from
    Materialize { reference: String, out: Option<String> },
    /// Copy a remote repository into a new directory
    Clone { url: String, dir: Option<String> },
    /// Send local intent to a remote (default: origin, current branch)
    Push { remote: Option<String>, branch: Option<String> },
    /// Download remote intent into tracking refs (default: origin)
    Fetch { remote: Option<String> },
    /// Fetch and merge a remote's matching branch (default: origin)
    Pull { remote: Option<String>, author: Option<String>, email: Option<String> },
    /// Manage remotes
    Remote { command: Option<RemoteCmd> },
    /// Get or set config: user.name, user.email
    Config { key: Option<String>, value: Option<String> },
}

/// What `remote` was asked to do.
#[derive(Debug)]
pub enum RemoteCmd {
    /// Add a remote
    Add { name: String, url: String },
    /// Remove a remote
    Remove { name: String },
}

/// The mathematical value of a [`RemoteCmd`].
pub enum SpecRemoteCmd {
    Add { name: Seq<char>, url: Seq<char> },
    Remove { name: Seq<char> },
}

/// The mathematical value of a [`Command`].
#[allow(inconsistent_fields)]
pub enum SpecCommand {
    Init,
    Add { text: Seq<Seq<char>>, author: Option<Seq<char>>, email: Option<Seq<char>> },
    Status,
    Commit { message: Seq<char>, author: Option<Seq<char>>, email: Option<Seq<char>> },
    Log,
    Show { reference: Seq<char> },
    Branch { name: Option<Seq<char>> },
    Checkout { name: Seq<char>, create: bool },
    Merge {
        branch: Seq<char>,
        message: Option<Seq<char>>,
        author: Option<Seq<char>>,
        email: Option<Seq<char>>,
    },
    Materialize { reference: Seq<char>, out: Option<Seq<char>> },
    Clone { url: Seq<char>, dir: Option<Seq<char>> },
    Push { remote: Option<Seq<char>>, branch: Option<Seq<char>> },
    Fetch { remote: Option<Seq<char>> },
    Pull { remote: Option<Seq<char>>, author: Option<Seq<char>>, email: Option<Seq<char>> },
    Remote { command: Option<SpecRemoteCmd> },
    Config { key: Option<Seq<char>>, value: Option<Seq<char>> },
}

impl View for RemoteCmd {
    type V = SpecRemoteCmd;

    open spec fn view(&self) -> SpecRemoteCmd {
        match self {
            RemoteCmd::Add { name, url } => SpecRemoteCmd::Add { name: name@, url: url@ },
            RemoteCmd::Remove { name } => SpecRemoteCmd::Remove { name: name@ },
        }
    }
}

impl View for Command {
    type V = SpecCommand;

    open spec fn view(&self) -> SpecCommand {
        match self {
            Command::Init => SpecCommand::Init,
            Command::Add { text, author, email } => SpecCommand::Add {
                text: strs(text@),
                author: opt_str(*author),
                email: opt_str(*email),
            },
            Command::Status => SpecCommand::Status,
            Command::Commit { message, author, email } => SpecCommand::Commit {
                message: message@,
                author: opt_str(*author),
                email: opt_str(*email),
            },
            Command::Log => SpecCommand::Log,
            Command::Show { reference } => SpecCommand::Show { reference: reference@ },
            Command::Branch { name } => SpecCommand::Branch { name: opt_str(*name) },
            Command::Checkout { name, create } => SpecCommand::Checkout {
                name: name@,
                create: *create,
            },
            Command::Merge { branch, message, author, email } => SpecCommand::Merge {
                branch: branch@,
                message: opt_str(*message),
                author: opt_str(*author),
                email: opt_str(*email),
            },
            Command::Materialize { reference, out } => SpecCommand::Materialize {
                reference: reference@,
                out: opt_str(*out),
            },
            Command::Clone { url, dir } => SpecCommand::Clone { url: url@, dir: opt_str(*dir) },
            Command::Push { remote, branch } => SpecCommand::Push {
                remote: opt_str(*remote),
                branch: opt_str(*branch),
            },
            Command::Fetch { remote } => SpecCommand::Fetch { remote: opt_str(*remote) },
            Command::Pull { remote, author, email } => SpecCommand::Pull {
                remote: opt_str(*remote),
                author: opt_str(*author),
                email: opt_str(*email),
            },
            Command::Remote { command } => SpecCommand::Remote {
                command: match command {
                    Some(c) => Some(c@),
                    None => None,
                },
            },
            Command::Config { key, value } => SpecCommand::Config {
                key: opt_str(*key),
                value: opt_str(*value),
            },
        }
    }
}

/// The options each subcommand accepts.
pub open spec fn allowed_for(name: Seq<char>) -> Seq<char> {
    if name == "add"@ || name == "pull"@ {
        seq!['a', 'e']
    } else if name == "commit"@ || name == "merge"@ {
        seq!['m', 'a', 'e']
    } else if name == "materialize"@ {
        seq!['r', 'o']
    } else if name == "checkout"@ {
        seq!['b']
    } else {
        Seq::empty()
    }
}

/// The error for a surplus argument.
pub open spec fn unexpected_msg(t: Seq<char>) -> Seq<char> {
    "unexpected argument '"@ + t + "' found"@
}

/// The error for a missing required argument.
pub open spec fn required_msg(what: Seq<char>) -> Seq<char> {
    "the following required arguments were not provided: "@ + what
}

/// The `i`th positional argument, if given.
pub open spec fn nth(pos: Seq<Seq<char>>, i: int) -> Option<Seq<char>> {
    if i < pos.len() {
        Some(pos[i])
    } else {
        None
    }
}

/// At most `n` positional arguments.
pub open spec fn at_most(pos: Seq<Seq<char>>, n: int, ok: SpecCommand) -> Result<SpecCommand, Seq<char>> {
    if pos.len() > n {
        Err(unexpected_msg(pos[n]))
    } else {
        Ok(ok)
    }
}

/// The command a subcommand `name` forms from its scanned arguments.
pub open spec fn assemble(name: Seq<char>, st: crate::argscan::ScanState) -> Result<SpecCommand, Seq<char>> {
    let pos = st.pos;
    let a = crate::argscan::opt_of(st, 'a');
    let e = crate::argscan::opt_of(st, 'e');
    if name == "init"@ {
        at_most(pos, 0, SpecCommand::Init)
    } else if name == "status"@ {
        at_most(pos, 0, SpecCommand::Status)
    } else if name == "log"@ {
        at_most(pos, 0, SpecCommand::Log)
    } else if name == "add"@ {
        if pos.len() == 0 {
            Err(required_msg("<TEXT>..."@))
        } else {
            Ok(SpecCommand::Add { text: pos, author: a, email: e })
        }
    } else if name == "commit"@ {
        if pos.len() > 0 {
            Err(unexpected_msg(pos[0]))
        } else {
            match crate::argscan::opt_of(st, 'm') {
                Some(m) => Ok(SpecCommand::Commit { message: m, author: a, email: e }),
                None => Err(required_msg("--message <MESSAGE>"@)),
            }
        }
    } else if name == "show"@ {
        at_most(
            pos,
            1,
            SpecCommand::Show {
                reference: match nth(pos, 0) {
                    Some(r) => r,
                    None => "HEAD"@,
                },
            },
        )
    } else if name == "branch"@ {
        at_most(pos, 1, SpecCommand::Branch { name: nth(pos, 0) })
    } else if name == "checkout"@ {
        if pos.len() > 1 {
            Err(unexpected_msg(pos[1]))
        } else if pos.len() == 0 {
            Err(required_msg("<NAME>"@))
        } else {
            Ok(SpecCommand::Checkout { name: pos[0], create: st.flag })
        }
    } else if name == "merge"@ {
        if pos.len() > 1 {
            Err(unexpected_msg(pos[1]))
        } else if pos.len() == 0 {
            Err(required_msg("<BRANCH>"@))
        } else {
            Ok(
                SpecCommand::Merge {
                    branch: pos[0],
                    message: crate::argscan::opt_of(st, 'm'),
                    author: a,
                    email: e,
                },
            )
        }
    } else if name == "materialize"@ {
        at_most(
            pos,
            0,
            SpecCommand::Materialize {
                reference: match crate::argscan::opt_of(st, 'r') {
                    Some(r) => r,
                    None => "HEAD"@,
                },
                out: crate::argscan::opt_of(st, 'o'),
            },
        )
    } else if name == "clone"@ {
        if pos.len() > 2 {
            Err(unexpected_msg(pos[2]))
        } else if pos.len() == 0 {
            Err(required_msg("<URL>"@))
        } else {
            Ok(SpecCommand::Clone { url: pos[0], dir: nth(pos, 1) })
        }
    } else if name == "push"@ {
        at_most(pos, 2, SpecCommand::Push { remote: nth(pos, 0), branch: nth(pos, 1) })
    } else if name == "fetch"@ {
        at_most(pos, 1, SpecCommand::Fetch { remote: nth(pos, 0) })
    } else if name == "pull"@ {
        at_most(pos, 1, SpecCommand::Pull { remote: nth(pos, 0), author: a, email: e })
    } else {
        at_most(pos, 2, SpecCommand::Config { key: nth(pos, 0), value: nth(pos, 1) })
    }
}

/// Whether `name` is a subcommand other than `remote`.
pub open spec fn is_plain_command(name: Seq<char>) -> bool {
    name == "init"@ || name == "add"@ || name == "status"@ || name == "commit"@ || name == "log"@
        || name == "show"@ || name == "branch"@ || name == "checkout"@ || name == "merge"@ || name
        == "materialize"@ || name == "clone"@ || name == "push"@ || name == "fetch"@ || name
        == "pull"@ || name == "config"@
}

/// The `remote` subcommand's own subcommand, from the arguments after it.
pub open spec fn parse_remote(toks: Seq<Seq<char>>) -> Result<SpecCommand, Seq<char>> {
    if toks.len() == 0 {
        Ok(SpecCommand::Remote { command: None })
    } else if toks[0] == "add"@ {
        match crate::argscan::scan_from(Seq::empty(), crate::argscan::scan_start(), toks.drop_first()) {
            Err(m) => Err(m),
            Ok(st) => if st.pos.len() > 2 {
                Err(unexpected_msg(st.pos[2]))
            } else if st.pos.len() < 2 {
                Err(required_msg("<NAME> <URL>"@))
            } else {
                Ok(SpecCommand::Remote { command: Some(SpecRemoteCmd::Add { name: st.pos[0], url: st.pos[1] }) })
            },
        }
    } else if toks[0] == "remove"@ {
        match crate::argscan::scan_from(Seq::empty(), crate::argscan::scan_start(), toks.drop_first()) {
            Err(m) => Err(m),
            Ok(st) => if st.pos.len() > 1 {
                Err(unexpected_msg(st.pos[1]))
            } else if st.pos.len() < 1 {
                Err(required_msg("<NAME>"@))
            } else {
                Ok(SpecCommand::Remote { command: Some(SpecRemoteCmd::Remove { name: st.pos[0] }) })
            },
        }
    } else {
        Err("unrecognized subcommand '"@ + toks[0] + "'"@)
    }
}

/// What a command line (program name first) asks for.
pub open spec fn parse_args(args: Seq<Seq<char>>) -> Result<SpecCommand, Seq<char>> {
    if args.len() < 2 {
        Err("a subcommand is required"@)
    } else if args[1] == "remote"@ {
        parse_remote(args.skip(2))
    } else if is_plain_command(args[1]) {
        match crate::argscan::scan_from(allowed_for(args[1]), crate::argscan::scan_start(), args.skip(2)) {
            Ok(st) => assemble(args[1], st),
            Err(m) => Err(m),
        }
    } else {
        Err("unrecognized subcommand '"@ + args[1] + "'"@)
    }
}

} // verus!

verus! {

fn nth_of(pos: &Vec<String>, i: usize) -> (r: Option<String>)
    ensures
        opt_str(r) == nth(strs(pos@), i as int),
{
    if i < pos.len() {
        Some(pos[i].clone())
    } else {
        None
    }
}

fn unexpected_err(t: &String) -> (e: LoreError)
    ensures
        e@ == SpecError::Usage(unexpected_msg(t@)),
{
    let mut m = String::new();
    append_str(&mut m, "unexpected argument '");
    append_str(&mut m, t.as_str());
    append_str(&mut m, "' found");
    LoreError::Usage(m)
}

fn required_err(what: &str) -> (e: LoreError)
    ensures
        e@ == SpecError::Usage(required_msg(what@)),
{
    let mut m = String::new();
    append_str(&mut m, "the following required arguments were not provided: ");
    append_str(&mut m, what);
    LoreError::Usage(m)
}

fn unrecognized_err(t: &String) -> (e: LoreError)
    ensures
        e@ == SpecError::Usage("unrecognized subcommand '"@ + t@ + "'"@),
{
    let mut m = String::new();
    append_str(&mut m, "unrecognized subcommand '");
    append_str(&mut m, t.as_str());
    append_str(&mut m, "'");
    LoreError::Usage(m)
}

fn allowed_vec(name: &str) -> (v: Vec<char>)
    ensures
        v@ == allowed_for(name@),
{
    let mut v: Vec<char> = Vec::new();
    if str_eq(name, "add") || str_eq(name, "pull") {
        v.push('a');
        v.push('e');
    } else if str_eq(name, "commit") || str_eq(name, "merge") {
        v.push('m');
        v.push('a');
        v.push('e');
    } else if str_eq(name, "materialize") {
        v.push('r');
        v.push('o');
    } else if str_eq(name, "checkout") {
        v.push('b');
    }
    assert(v@ =~= allowed_for(name@));
    v
}

fn is_plain(name: &str) -> (b: bool)
    ensures
        b == is_plain_command(name@),
{
    str_eq(name, "init") || str_eq(name, "add") || str_eq(name, "status") || str_eq(name, "commit")
        || str_eq(name, "log") || str_eq(name, "show") || str_eq(name, "branch") || str_eq(
        name,
        "checkout",
    ) || str_eq(name, "merge") || str_eq(name, "materialize") || str_eq(name, "clone") || str_eq(
        name,
        "push",
    ) || str_eq(name, "fetch") || str_eq(name, "pull") || str_eq(name, "config")
}

fn at_most_exec(pos: &Vec<String>, n: usize, ok: Command) -> (r: Result<Command, LoreError>)
    ensures
        match at_most(strs(pos@), n as int, ok@) {
            Ok(c) => r matches Ok(cmd) && cmd@ == c,
            Err(m) => r matches Err(e) && e@ == SpecError::Usage(m),
        },
{
    if pos.len() > n {
        Err(unexpected_err(&pos[n]))
    } else {
        Ok(ok)
    }
}

fn head_or(o: Option<String>) -> (s: String)
    ensures
        s@ == match opt_str(o) {
            Some(r) => r,
            None => "HEAD"@,
        },
{
    match o {
        Some(r) => r,
        None => "HEAD".to_owned(),
    }
}

fn assemble_exec(name: &str, s: crate::argscan::Scan) -> (r: Result<Command, LoreError>)
    ensures
        match assemble(name@, s.state()) {
            Ok(c) => r matches Ok(cmd) && cmd@ == c,
            Err(m) => r matches Err(e) && e@ == SpecError::Usage(m),
        },
{
    let ghost st = s.state();
    assert(crate::argscan::opt_of(st, 'a') == opt_str(s.author));
    assert(crate::argscan::opt_of(st, 'e') == opt_str(s.email));
    assert(crate::argscan::opt_of(st, 'm') == opt_str(s.message));
    assert(crate::argscan::opt_of(st, 'r') == opt_str(s.reference));
    assert(crate::argscan::opt_of(st, 'o') == opt_str(s.out));
    let pos = s.pos;
    if str_eq(name, "init") {
        at_most_exec(&pos, 0, Command::Init)
    } else if str_eq(name, "status") {
        at_most_exec(&pos, 0, Command::Status)
    } else if str_eq(name, "log") {
        at_most_exec(&pos, 0, Command::Log)
    } else if str_eq(name, "add") {
        if pos.len() == 0 {
            Err(required_err("<TEXT>..."))
        } else {
            Ok(Command::Add { text: pos, author: s.author, email: s.email })
        }
    } else if str_eq(name, "commit") {
        if pos.len() > 0 {
            Err(unexpected_err(&pos[0]))
        } else {
            match s.message {
                Some(m) => Ok(Command::Commit { message: m, author: s.author, email: s.email }),
                None => Err(required_err("--message <MESSAGE>")),
            }
        }
    } else if str_eq(name, "show") {
        let reference = head_or(nth_of(&pos, 0));
        at_most_exec(&pos, 1, Command::Show { reference })
    } else if str_eq(name, "branch") {
        let b = nth_of(&pos, 0);
        at_most_exec(&pos, 1, Command::Branch { name: b })
    } else if str_eq(name, "checkout") {
        if pos.len() > 1 {
            Err(unexpected_err(&pos[1]))
        } else if pos.len() == 0 {
            Err(required_err("<NAME>"))
        } else {
            Ok(Command::Checkout { name: pos[0].clone(), create: s.flag })
        }
    } else if str_eq(name, "merge") {
        if pos.len() > 1 {
            Err(unexpected_err(&pos[1]))
        } else if pos.len() == 0 {
            Err(required_err("<BRANCH>"))
        } else {
            Ok(
                Command::Merge {
                    branch: pos[0].clone(),
                    message: s.message,
                    author: s.author,
                    email: s.email,
                },
            )
        }
    } else if str_eq(name, "materialize") {
        let reference = head_or(s.reference);
        at_most_exec(&pos, 0, Command::Materialize { reference, out: s.out })
    } else if str_eq(name, "clone") {
        if pos.len() > 2 {
            Err(unexpected_err(&pos[2]))
        } else if pos.len() == 0 {
            Err(required_err("<URL>"))
        } else {
            let dir = nth_of(&pos, 1);
            Ok(Command::Clone { url: pos[0].clone(), dir })
        }
    } else if str_eq(name, "push") {
        let remote = nth_of(&pos, 0);
        let branch = nth_of(&pos, 1);
        at_most_exec(&pos, 2, Command::Push { remote, branch })
    } else if str_eq(name, "fetch") {
        let remote = nth_of(&pos, 0);
        at_most_exec(&pos, 1, Command::Fetch { remote })
    } else if str_eq(name, "pull") {
        let remote = nth_of(&pos, 0);
        at_most_exec(&pos, 1, Command::Pull { remote, author: s.author, email: s.email })
    } else {
        let key = nth_of(&pos, 0);
        let value = nth_of(&pos, 1);
        at_most_exec(&pos, 2, Command::Config { key, value })
    }
}

fn parse_remote_exec(toks: &Vec<String>) -> (r: Result<Command, LoreError>)
    requires
        toks@.len() >= 2,
    ensures
        match parse_remote(strs(toks@).skip(2)) {
            Ok(c) => r matches Ok(cmd) && cmd@ == c,
            Err(m) => r matches Err(e) && e@ == SpecError::Usage(m),
        },
{
    let ghost rest = strs(toks@).skip(2);
    if toks.len() == 2 {
        return Ok(Command::Remote { command: None });
    }
    assert(rest[0] == toks@[2]@);
    assert(rest.drop_first() == strs(toks@).skip(3));
    let none: Vec<char> = Vec::new();
    assert(none@ =~= Seq::<char>::empty());
    if str_eq(toks[2].as_str(), "add") {
        let s = crate::argscan::scan(&none, toks, 3)?;
        if s.pos.len() > 2 {
            Err(unexpected_err(&s.pos[2]))
        } else if s.pos.len() < 2 {
            Err(required_err("<NAME> <URL>"))
        } else {
            Ok(Command::Remote { command: Some(RemoteCmd::Add { name: s.pos[0].clone(), url: s.pos[1].clone() }) })
        }
    } else if str_eq(toks[2].as_str(), "remove") {
        let s = crate::argscan::scan(&none, toks, 3)?;
        if s.pos.len() > 1 {
            Err(unexpected_err(&s.pos[1]))
        } else if s.pos.len() < 1 {
            Err(required_err("<NAME>"))
        } else {
            Ok(Command::Remote { command: Some(RemoteCmd::Remove { name: s.pos[0].clone() }) })
        }
    } else {
        Err(unrecognized_err(&toks[2]))
    }
}

/// The words of a command line, as values.
pub open spec fn words(args: Seq<&str>) -> Seq<Seq<char>> {
    args.map_values(|s: &str| s@)
}

impl Cli {
    /// Parse a command line, program name first.
    pub fn try_parse_from(args: &[&str]) -> (r: Result<Cli, LoreError>)
        ensures
            match parse_args(words(args@)) {
                Ok(c) => r matches Ok(cli) && cli.command@ == c,
                Err(m) => r matches Err(e) && e@ == SpecError::Usage(m),
            },
    {
        let mut toks: Vec<String> = Vec::new();
        let mut i: usize = 0;
        while i < args.len()
            invariant
                i <= args@.len(),
                strs(toks@) == words(args@).take(i as int),
            decreases args.len() - i,
        {
            let ghost before = toks@;
            toks.push(args[i].to_owned());
            assert(strs(toks@) == strs(before).push(args@[i as int]@));
            assert(words(args@).take(i + 1) == words(args@).take(i as int).push(args@[i as int]@));
            i = i + 1;
        }
        assert(words(args@).take(args@.len() as int) == words(args@));
        if toks.len() < 2 {
            let mut m = String::new();
            append_str(&mut m, "a subcommand is required");
            return Err(LoreError::Usage(m));
        }
        let name = toks[1].clone();
        if str_eq(name.as_str(), "remote") {
            let command = parse_remote_exec(&toks)?;
            Ok(Cli { command })
        } else if is_plain(name.as_str()) {
            let allowed = allowed_vec(name.as_str());
            let s = crate::argscan::scan(&allowed, &toks, 2)?;
            let command = assemble_exec(name.as_str(), s)?;
            Ok(Cli { command })
        } else {
            Err(unrecognized_err(&name))
        }
    }
}

} // verus!
