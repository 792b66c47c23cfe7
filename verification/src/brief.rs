//! The materialized brief: the deduplicated, chronological intent behind a
//! commit, rendered as text an agent can act on.

use vstd::prelude::*;

use crate::object::SpecEntry;
use vstd::string::StringSliceAdditionalSpecFns;
use crate::order::ascending;
use crate::text::{append_str, dec, push_dec, trim, trimmed};
use crate::time::{civil, format_ns, timestamp_text, unix_ns_text};

verus! {

/// How many bytes a short id keeps: ten, or all of a shorter id.
pub open spec fn short_len(id: Seq<char>) -> int {
    let n = vstd::utf8::encode_utf8(id).len() as int;
    if n < 10 {
        n
    } else {
        10
    }
}

/// The id can be cut after [`short_len`] bytes: the cut falls between two
/// characters. Always so for an id of hex digits.
pub open spec fn short_ok(id: Seq<char>) -> bool {
    vstd::utf8::is_char_boundary(vstd::utf8::encode_utf8(id), short_len(id))
}

/// The first ten UTF-8 bytes of an id, or all of a shorter one, as text.
pub open spec fn short_id(id: Seq<char>) -> Seq<char> {
    vstd::utf8::decode_utf8(vstd::utf8::encode_utf8(id).take(short_len(id)))
}

/// Short, git-style id prefix: the first ten bytes.
pub fn short(id: &str) -> (s: &str)
    requires
        short_ok(id@),
    ensures
        s@ == short_id(id@),
        s.spec_bytes() == id.spec_bytes().take(short_len(id@)),
{
    let n = id.as_bytes().len();
    let k = if n < 10 {
        n
    } else {
        10
    };
    proof {
        broadcast use vstd::utf8::encode_utf8_valid_utf8;
        assert(k as int == short_len(id@));
    }
    let s = id.split_at(k).0;
    proof {
        broadcast use vstd::utf8::encode_utf8_decode_utf8, vstd::utf8::encode_utf8_valid_utf8;
        assert(s.spec_bytes() =~= id.spec_bytes().take(short_len(id@)));
        assert(vstd::utf8::decode_utf8(vstd::utf8::encode_utf8(s@)) == s@);
    }
    s
}

/// An entry's `(timestamp, id)` key.
pub open spec fn entry_key(p: (Seq<char>, SpecEntry)) -> (u64, Seq<char>) {
    (p.1.timestamp, p.0)
}

/// The guidance that heads every brief.
pub open spec fn brief_guidance() -> Seq<char> {
    "## How to use this brief\n\nThe entries below are the complete, deduplicated, chronological record of\nwhat everyone on this project asked for and decided. Reconcile the working\ndirectory to satisfy this intent: keep what is already correct, add what is\nmissing, and remove what now contradicts it. Do not commit this file.\n"@
}

/// The lines above the intent: what was materialized, from how much, when.
pub open spec fn brief_header(
    reference: Seq<char>,
    commit_id: Seq<char>,
    commits: nat,
    entries: nat,
    now: u64,
) -> Seq<char> {
    "# Lore Materialization\n"@ + "\n"@ + "Target: "@ + reference + " ("@ + short_id(commit_id)
        + ")"@ + "\n"@ + "Commits: "@ + dec(commits) + "   Intent entries: "@ + dec(entries)
        + "\n"@ + "Generated: "@ + unix_ns_text(now as nat) + "\n"@ + "\n"@ + brief_guidance()
        + "\n"@ + "## Intent\n"@ + "\n"@
}

/// One entry of the brief: who, when, and the intent itself.
pub open spec fn entry_text(e: SpecEntry) -> Seq<char> {
    "### "@ + e.author + " - "@ + unix_ns_text(e.timestamp as nat) + "\n"@ + trim(e.text) + "\n"@
        + "\n"@
}

/// The entries of the brief, in order.
pub open spec fn entries_text(es: Seq<(Seq<char>, SpecEntry)>) -> Seq<char>
    decreases es.len(),
{
    if es.len() == 0 {
        Seq::empty()
    } else {
        entries_text(es.drop_last()) + entry_text(es.last().1)
    }
}

/// The whole brief.
pub open spec fn brief_text(
    reference: Seq<char>,
    commit_id: Seq<char>,
    commits: nat,
    es: Seq<(Seq<char>, SpecEntry)>,
    now: u64,
) -> Seq<char> {
    brief_header(reference, commit_id, commits, es.len(), now) + (if es.len() == 0 {
        "_No intent recorded yet._\n"@
    } else {
        Seq::empty()
    }) + entries_text(es)
}

/// Entries with their ids as values.
pub open spec fn entry_pairs(v: Seq<(String, crate::object::Entry)>) -> Seq<(Seq<char>, SpecEntry)> {
    v.map_values(|p: (String, crate::object::Entry)| (p.0@, p.1@))
}

fn push_entry_text(s: &mut String, e: &crate::object::Entry)
    ensures
        final(s)@ == old(s)@ + entry_text(e@),
{
    append_str(s, "### ");
    append_str(s, e.author.as_str());
    append_str(s, " - ");
    let t = format_ns(e.timestamp);
    append_str(s, t.as_str());
    append_str(s, "\n");
    let body = trimmed(e.text.as_str());
    append_str(s, body.as_str());
    append_str(s, "\n");
    append_str(s, "\n");
    assert(s@ == old(s)@ + entry_text(e@));
}

/// Render the brief for `reference`, which resolved to `commit_id`, drawn
/// from `commits` commits and holding `entries` in order.
pub fn render_brief(
    reference: &str,
    commit_id: &str,
    commits: usize,
    entries: &Vec<(String, crate::object::Entry)>,
    now: u64,
) -> (s: String)
    requires
        short_ok(commit_id@),
    ensures
        s@ == brief_text(reference@, commit_id@, commits as nat, entry_pairs(entries@), now),
{
    let mut s = String::new();
    append_str(&mut s, "# Lore Materialization\n");
    append_str(&mut s, "\n");
    append_str(&mut s, "Target: ");
    append_str(&mut s, reference);
    append_str(&mut s, " (");
    append_str(&mut s, short(commit_id));
    append_str(&mut s, ")");
    append_str(&mut s, "\n");
    append_str(&mut s, "Commits: ");
    push_dec(&mut s, commits as u64);
    append_str(&mut s, "   Intent entries: ");
    push_dec(&mut s, entries.len() as u64);
    append_str(&mut s, "\n");
    append_str(&mut s, "Generated: ");
    let g = format_ns(now);
    append_str(&mut s, g.as_str());
    append_str(&mut s, "\n");
    append_str(&mut s, "\n");
    append_str(
        &mut s,
        "## How to use this brief\n\nThe entries below are the complete, deduplicated, chronological record of\nwhat everyone on this project asked for and decided. Reconcile the working\ndirectory to satisfy this intent: keep what is already correct, add what is\nmissing, and remove what now contradicts it. Do not commit this file.\n",
    );
    append_str(&mut s, "\n");
    append_str(&mut s, "## Intent\n");
    append_str(&mut s, "\n");
    assert(s@ == brief_header(
        reference@,
        commit_id@,
        commits as nat,
        entry_pairs(entries@).len(),
        now,
    ));
    if entries.len() == 0 {
        append_str(&mut s, "_No intent recorded yet._\n");
    }
    let ghost start = s@;
    let mut i: usize = 0;
    while i < entries.len()
        invariant
            i <= entries.len(),
            s@ == start + entries_text(entry_pairs(entries@).take(i as int)),
        decreases entries.len() - i,
    {
        push_entry_text(&mut s, &entries[i].1);
        proof {
            let es = entry_pairs(entries@);
            assert(es.take(i + 1).drop_last() == es.take(i as int));
            assert(es.take(i + 1).last() == es[i as int]);
        }
        i = i + 1;
    }
    assert(entry_pairs(entries@).take(entries.len() as int) == entry_pairs(entries@));
    s
}

/// The UTC date and time, `YYYY-MM-DD HH:MM:SS UTC`, of the whole second
/// that Unix nanosecond `ns` falls in, spelled out over the calendar.
pub open spec fn second_text(ns: nat) -> Seq<char> {
    let secs = ns / 1_000_000_000;
    let day = civil((secs / 86400) as int);
    let rem = secs % 86400;
    timestamp_text(
        day.0,
        day.1,
        day.2,
        (rem / 3600) as int,
        ((rem % 3600) / 60) as int,
        (rem % 60) as int,
    )
}

/// An entry as the brief shows it: the author, then the date and time of
/// its nanosecond timestamp to the second, then the trimmed intent.
pub open spec fn entry_block(e: SpecEntry) -> Seq<char> {
    "### "@ + e.author + " - "@ + second_text(e.timestamp as nat) + "\n"@ + trim(e.text) + "\n"@
        + "\n"@
}

proof fn lemma_entry_text_is_block(e: SpecEntry)
    ensures
        entry_text(e) == entry_block(e),
{
}

proof fn lemma_entries_hold(es: Seq<(Seq<char>, SpecEntry)>, i: int)
    requires
        0 <= i < es.len(),
    ensures
        exists|p: Seq<char>, q: Seq<char>| entries_text(es) == p + entry_block(es[i].1) + q,
    decreases es.len(),
{
    lemma_entry_text_is_block(es[i].1);
    if i == es.len() - 1 {
        let p = entries_text(es.drop_last());
        let q = Seq::<char>::empty();
        assert(entries_text(es) =~= p + entry_block(es[i].1) + q);
    } else {
        lemma_entries_hold(es.drop_last(), i);
        let (p, q) = choose|p: Seq<char>, q: Seq<char>|
            entries_text(es.drop_last()) == p + entry_block(es.drop_last()[i].1) + q;
        let q2 = q + entry_text(es.last().1);
        assert(entries_text(es) =~= p + entry_block(es[i].1) + q2);
    }
}

/// Every entry handed to the brief appears in it as a block of its own:
/// author, then the date and time, to the second, of its nanosecond
/// timestamp, then its intent.
pub proof fn law_brief_shows_each_entry(
    reference: Seq<char>,
    commit_id: Seq<char>,
    commits: nat,
    es: Seq<(Seq<char>, SpecEntry)>,
    now: u64,
    i: int,
)
    requires
        0 <= i < es.len(),
    ensures
        exists|p: Seq<char>, q: Seq<char>|
            brief_text(reference, commit_id, commits, es, now) == p + entry_block(es[i].1) + q,
{
    lemma_entries_hold(es, i);
    let (p, q) = choose|p: Seq<char>, q: Seq<char>| entries_text(es) == p + entry_block(es[i].1) + q;
    let head = brief_header(reference, commit_id, commits, es.len(), now) + (if es.len() == 0 {
        "_No intent recorded yet._\n"@
    } else {
        Seq::empty()
    });
    assert(brief_text(reference, commit_id, commits, es, now) =~= (head + p) + entry_block(es[i].1)
        + q);
}

/// The brief opens with its title, the target and its short id, then the
/// number of commits it was drawn from and the number of entries it lists,
/// whatever those entries are, then when it was made, to the second.
pub proof fn law_brief_counts(
    reference: Seq<char>,
    commit_id: Seq<char>,
    commits: nat,
    es: Seq<(Seq<char>, SpecEntry)>,
    now: u64,
)
    ensures
        exists|q: Seq<char>|
            brief_text(reference, commit_id, commits, es, now) == "# Lore Materialization\n"@ + "\n"@
                + "Target: "@ + reference + " ("@ + short_id(commit_id) + ")"@ + "\n"@
                + "Commits: "@ + dec(commits) + "   Intent entries: "@ + dec(es.len()) + "\n"@
                + "Generated: "@ + second_text(now as nat) + "\n"@ + q,
{
    let lead = "# Lore Materialization\n"@ + "\n"@ + "Target: "@ + reference + " ("@ + short_id(commit_id)
        + ")"@ + "\n"@ + "Commits: "@ + dec(commits) + "   Intent entries: "@ + dec(es.len()) + "\n"@
        + "Generated: "@ + second_text(now as nat) + "\n"@;
    let q = "\n"@ + brief_guidance() + "\n"@
        + "## Intent\n"@ + "\n"@ + (if es.len() == 0 {
        "_No intent recorded yet._\n"@
    } else {
        Seq::empty()
    }) + entries_text(es);
    assert(brief_text(reference, commit_id, commits, es, now) =~= lead + q);
}

} // verus!
