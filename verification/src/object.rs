//! The two things Lore stores, both content addressed by SHA-256.
//!
//! An [`Entry`] is one unit of intent: a prompt, a note, or a decision. Its id
//! is the hash of its `kind` and `text` only, so the same intent expressed
//! twice collapses to a single object. That is what makes merges deduplicate
//! for free. A [`Commit`] groups entries and points at its parents; its id
//! covers every field, because a commit is a unique event in history.
//!
//! Objects are stored as compact JSON, tagged by `"type"`; [`Object::to_bytes`]
//! writes that encoding and [`object_json`] states it.

use vstd::prelude::*;

use crate::text::{append_str, chars_of, copy_strings, dec, push_char, push_dec, strs};

verus! {

/// One unit of intent.
#[derive(Debug, PartialEq, Eq)]
pub struct Entry {
    /// Free-form category, conventionally `prompt`, `note`, or `decision`.
    pub kind: String,
    /// Who first recorded this intent.
    pub author: String,
    /// Unix nanoseconds when it was first recorded.
    pub timestamp: u64,
    /// The intent itself.
    pub text: String,
}

/// A group of entries with links to its parent commits.
#[derive(Debug, PartialEq, Eq)]
pub struct Commit {
    /// Parent commit ids. Empty for the root, two or more for a merge.
    pub parents: Vec<String>,
    pub author: String,
    pub timestamp: u64,
    pub message: String,
    /// Entry ids recorded by this commit.
    pub entries: Vec<String>,
}

/// A stored object.
#[derive(Debug, PartialEq, Eq)]
pub enum Object {
    Entry(Entry),
    Commit(Commit),
}

/// The mathematical value of an [`Entry`].
pub struct SpecEntry {
    pub kind: Seq<char>,
    pub author: Seq<char>,
    pub timestamp: u64,
    pub text: Seq<char>,
}

/// The mathematical value of a [`Commit`].
pub struct SpecCommit {
    pub parents: Seq<Seq<char>>,
    pub author: Seq<char>,
    pub timestamp: u64,
    pub message: Seq<char>,
    pub entries: Seq<Seq<char>>,
}

/// The mathematical value of an [`Object`].
pub enum SpecObject {
    Entry(SpecEntry),
    Commit(SpecCommit),
}

impl View for Entry {
    type V = SpecEntry;

    open spec fn view(&self) -> SpecEntry {
        SpecEntry {
            kind: self.kind@,
            author: self.author@,
            timestamp: self.timestamp,
            text: self.text@,
        }
    }
}

impl View for Commit {
    type V = SpecCommit;

    open spec fn view(&self) -> SpecCommit {
        SpecCommit {
            parents: strs(self.parents@),
            author: self.author@,
            timestamp: self.timestamp,
            message: self.message@,
            entries: strs(self.entries@),
        }
    }
}

impl View for Object {
    type V = SpecObject;

    open spec fn view(&self) -> SpecObject {
        match self {
            Object::Entry(e) => SpecObject::Entry(e@),
            Object::Commit(c) => SpecObject::Commit(c@),
        }
    }
}

impl Entry {
    /// An entry equal to this one.
    pub fn copy(&self) -> (e: Entry)
        ensures
            e@ == self@,
    {
        Entry {
            kind: self.kind.clone(),
            author: self.author.clone(),
            timestamp: self.timestamp,
            text: self.text.clone(),
        }
    }
}

impl Commit {
    /// A commit equal to this one.
    pub fn copy(&self) -> (c: Commit)
        ensures
            c@ == self@,
    {
        Commit {
            parents: copy_strings(&self.parents),
            author: self.author.clone(),
            timestamp: self.timestamp,
            message: self.message.clone(),
            entries: copy_strings(&self.entries),
        }
    }
}

impl Object {
    /// An object equal to this one.
    pub fn copy(&self) -> (o: Object)
        ensures
            o@ == self@,
    {
        match self {
            Object::Entry(e) => Object::Entry(e.copy()),
            Object::Commit(c) => Object::Commit(c.copy()),
        }
    }

    pub fn is_commit(&self) -> (b: bool)
        ensures
            b == (self@ is Commit),
    {
        match self {
            Object::Commit(_) => true,
            Object::Entry(_) => false,
        }
    }
}

// ---------------------------------------------------------------------------
// JSON encoding
// ---------------------------------------------------------------------------

/// The lowercase hex digit for `d < 16`.
pub open spec fn hex_digit(d: nat) -> char {
    if d < 10 {
        crate::text::digit_char(d)
    } else if d == 10 {
        'a'
    } else if d == 11 {
        'b'
    } else if d == 12 {
        'c'
    } else if d == 13 {
        'd'
    } else if d == 14 {
        'e'
    } else {
        'f'
    }
}

fn hex_digit_of(d: u8) -> (c: char)
    requires
        d < 16,
    ensures
        c == hex_digit(d as nat),
{
    if d == 0 {
        '0'
    } else if d == 1 {
        '1'
    } else if d == 2 {
        '2'
    } else if d == 3 {
        '3'
    } else if d == 4 {
        '4'
    } else if d == 5 {
        '5'
    } else if d == 6 {
        '6'
    } else if d == 7 {
        '7'
    } else if d == 8 {
        '8'
    } else if d == 9 {
        '9'
    } else if d == 10 {
        'a'
    } else if d == 11 {
        'b'
    } else if d == 12 {
        'c'
    } else if d == 13 {
        'd'
    } else if d == 14 {
        'e'
    } else {
        'f'
    }
}

/// How JSON writes one character inside a string: quote, backslash and the
/// control characters below U+0020 are escaped, everything else is literal.
pub open spec fn json_char(c: char) -> Seq<char> {
    let u = c as u32;
    if c == '"' {
        seq!['\\', '"']
    } else if c == '\\' {
        seq!['\\', '\\']
    } else if u == 0x08 {
        seq!['\\', 'b']
    } else if u == 0x0c {
        seq!['\\', 'f']
    } else if c == '\n' {
        seq!['\\', 'n']
    } else if c == '\r' {
        seq!['\\', 'r']
    } else if c == '\t' {
        seq!['\\', 't']
    } else if u < 0x20 {
        seq!['\\', 'u', '0', '0', hex_digit((u / 16) as nat), hex_digit((u % 16) as nat)]
    } else {
        seq![c]
    }
}

/// The escaped contents of a JSON string.
pub open spec fn json_escape(s: Seq<char>) -> Seq<char>
    decreases s.len(),
{
    if s.len() == 0 {
        Seq::empty()
    } else {
        json_escape(s.drop_last()) + json_char(s.last())
    }
}

/// A JSON string literal.
pub open spec fn json_str(s: Seq<char>) -> Seq<char> {
    seq!['"'] + json_escape(s) + seq!['"']
}

/// JSON string literals separated by commas.
pub open spec fn json_str_items(xs: Seq<Seq<char>>) -> Seq<char>
    decreases xs.len(),
{
    if xs.len() == 0 {
        Seq::empty()
    } else if xs.len() == 1 {
        json_str(xs[0])
    } else {
        json_str_items(xs.drop_last()) + seq![','] + json_str(xs.last())
    }
}

/// A JSON array of strings.
pub open spec fn json_str_array(xs: Seq<Seq<char>>) -> Seq<char> {
    seq!['['] + json_str_items(xs) + seq![']']
}

/// The fields of a commit, as they follow the opening brace.
pub open spec fn commit_fields(c: SpecCommit) -> Seq<char> {
    "\"parents\":"@ + json_str_array(c.parents) + ",\"author\":"@ + json_str(c.author)
        + ",\"timestamp\":"@ + dec(c.timestamp as nat) + ",\"message\":"@ + json_str(c.message)
        + ",\"entries\":"@ + json_str_array(c.entries)
}

/// The compact JSON of a commit on its own.
pub open spec fn commit_json(c: SpecCommit) -> Seq<char> {
    seq!['{'] + commit_fields(c) + seq!['}']
}

/// The compact JSON of an entry's fields, as they follow the type tag.
pub open spec fn entry_fields(e: SpecEntry) -> Seq<char> {
    ",\"kind\":"@ + json_str(e.kind) + ",\"author\":"@ + json_str(e.author) + ",\"timestamp\":"@
        + dec(e.timestamp as nat) + ",\"text\":"@ + json_str(e.text)
}

/// The stored form of an object: compact JSON, tagged by `"type"`.
pub open spec fn object_json(o: SpecObject) -> Seq<char> {
    match o {
        SpecObject::Entry(e) => "{\"type\":\"entry\""@ + entry_fields(e) + seq!['}'],
        SpecObject::Commit(c) => "{\"type\":\"commit\","@ + commit_fields(c) + seq!['}'],
    }
}

/// Appends `s` as a JSON string literal.
pub fn push_json_str(out: &mut String, s: &str)
    ensures
        final(out)@ == old(out)@ + json_str(s@),
{
    push_char(out, '"');
    let cs = chars_of(s);
    let ghost start = out@;
    let mut i: usize = 0;
    while i < cs.len()
        invariant
            cs@ == s@,
            i <= cs.len(),
            out@ == start + json_escape(s@.take(i as int)),
        decreases cs.len() - i,
    {
        let c = cs[i];
        let u = c as u32;
        if c == '"' {
            push_char(out, '\\');
            push_char(out, '"');
        } else if c == '\\' {
            push_char(out, '\\');
            push_char(out, '\\');
        } else if u == 0x08 {
            push_char(out, '\\');
            push_char(out, 'b');
        } else if u == 0x0c {
            push_char(out, '\\');
            push_char(out, 'f');
        } else if c == '\n' {
            push_char(out, '\\');
            push_char(out, 'n');
        } else if c == '\r' {
            push_char(out, '\\');
            push_char(out, 'r');
        } else if c == '\t' {
            push_char(out, '\\');
            push_char(out, 't');
        } else if u < 0x20 {
            push_char(out, '\\');
            push_char(out, 'u');
            push_char(out, '0');
            push_char(out, '0');
            push_char(out, hex_digit_of((u / 16) as u8));
            push_char(out, hex_digit_of((u % 16) as u8));
        } else {
            push_char(out, c);
        }
        proof {
            assert(s@.take(i + 1).drop_last() == s@.take(i as int));
            assert(s@.take(i + 1).last() == c);
        }
        i = i + 1;
    }
    assert(s@.take(cs.len() as int) == s@);
    push_char(out, '"');
    assert(out@ == old(out)@ + json_str(s@));
}

/// Appends `v` as a JSON array of strings.
pub fn push_json_str_array(out: &mut String, v: &Vec<String>)
    ensures
        final(out)@ == old(out)@ + json_str_array(strs(v@)),
{
    push_char(out, '[');
    let ghost start = out@;
    let mut i: usize = 0;
    while i < v.len()
        invariant
            i <= v.len(),
            out@ == start + json_str_items(strs(v@.take(i as int))),
        decreases v.len() - i,
    {
        if i > 0 {
            push_char(out, ',');
        }
        push_json_str(out, v[i].as_str());
        proof {
            let t = strs(v@.take(i + 1));
            assert(t.drop_last() == strs(v@.take(i as int)));
            assert(t.last() == v@[i as int]@);
            if i == 0 {
                assert(t.len() == 1);
            }
        }
        i = i + 1;
    }
    assert(v@.take(v.len() as int) == v@);
    push_char(out, ']');
    assert(out@ == old(out)@ + json_str_array(strs(v@)));
}

fn push_commit_fields(out: &mut String, c: &Commit)
    ensures
        final(out)@ == old(out)@ + commit_fields(c@),
{
    append_str(out, "\"parents\":");
    push_json_str_array(out, &c.parents);
    append_str(out, ",\"author\":");
    push_json_str(out, c.author.as_str());
    append_str(out, ",\"timestamp\":");
    push_dec(out, c.timestamp);
    append_str(out, ",\"message\":");
    push_json_str(out, c.message.as_str());
    append_str(out, ",\"entries\":");
    push_json_str_array(out, &c.entries);
    assert(out@ == old(out)@ + commit_fields(c@));
}

/// The compact JSON of a commit.
pub fn commit_to_json(c: &Commit) -> (s: String)
    ensures
        s@ == commit_json(c@),
{
    let mut s = String::new();
    push_char(&mut s, '{');
    push_commit_fields(&mut s, c);
    push_char(&mut s, '}');
    assert(s@ == commit_json(c@));
    s
}

/// The JSON text an object is stored as.
pub fn object_to_json(o: &Object) -> (s: String)
    ensures
        s@ == object_json(o@),
{
    let mut s = String::new();
    match o {
        Object::Entry(e) => {
            append_str(&mut s, "{\"type\":\"entry\"");
            append_str(&mut s, ",\"kind\":");
            push_json_str(&mut s, e.kind.as_str());
            append_str(&mut s, ",\"author\":");
            push_json_str(&mut s, e.author.as_str());
            append_str(&mut s, ",\"timestamp\":");
            push_dec(&mut s, e.timestamp);
            append_str(&mut s, ",\"text\":");
            push_json_str(&mut s, e.text.as_str());
            push_char(&mut s, '}');
            assert(s@ == object_json(o@));
        },
        Object::Commit(c) => {
            append_str(&mut s, "{\"type\":\"commit\",");
            push_commit_fields(&mut s, c);
            push_char(&mut s, '}');
            assert(s@ == object_json(o@));
        },
    }
    s
}

// ---------------------------------------------------------------------------
// Hashing and ids
// ---------------------------------------------------------------------------

/// The SHA-256 digest of `data`, as computed by the `sha2` crate.
pub uninterp spec fn sha256_digest(data: Seq<u8>) -> Seq<u8>;

/// `sha2::Sha256::digest`: the 32-byte SHA-256 digest of `data`. The
/// contract names the digest and states its length, nothing more.
#[verifier::external_body]
fn sha256(data: &[u8]) -> (d: Vec<u8>)
    ensures
        d@ == sha256_digest(data@),
        d@.len() == 32,
{
    <sha2::Sha256 as sha2::Digest>::digest(data).to_vec()
}

/// Two lowercase hex digits per byte.
pub open spec fn hex(bytes: Seq<u8>) -> Seq<char>
    decreases bytes.len(),
{
    if bytes.len() == 0 {
        Seq::empty()
    } else {
        hex(bytes.drop_last()) + seq![
            hex_digit((bytes.last() / 16) as nat),
            hex_digit((bytes.last() % 16) as nat),
        ]
    }
}

pub proof fn lemma_hex_len(bytes: Seq<u8>)
    ensures
        hex(bytes).len() == 2 * bytes.len(),
    decreases bytes.len(),
{
    if bytes.len() > 0 {
        lemma_hex_len(bytes.drop_last());
    }
}

/// Lowercase hex of `bytes`.
pub fn to_hex(bytes: &[u8]) -> (s: String)
    ensures
        s@ == hex(bytes@),
{
    let mut s = String::new();
    let mut i: usize = 0;
    while i < bytes.len()
        invariant
            i <= bytes.len(),
            s@ == hex(bytes@.take(i as int)),
        decreases bytes.len() - i,
    {
        let b = bytes[i];
        push_char(&mut s, hex_digit_of(b / 16));
        push_char(&mut s, hex_digit_of(b % 16));
        proof {
            assert(bytes@.take(i + 1).drop_last() == bytes@.take(i as int));
            assert(bytes@.take(i + 1).last() == b);
        }
        i = i + 1;
    }
    assert(bytes@.take(bytes.len() as int) == bytes@);
    s
}

/// What an object's id hashes: an entry's kind and text, or everything a
/// commit holds.
pub open spec fn id_preimage(o: SpecObject) -> Seq<char> {
    match o {
        SpecObject::Entry(e) => "entry\0"@ + e.kind + "\0"@ + e.text,
        SpecObject::Commit(c) => "commit\0"@ + commit_json(c),
    }
}

/// The content address of an object: lowercase hex of the SHA-256 of the
/// UTF-8 bytes of its preimage.
pub open spec fn object_id(o: SpecObject) -> Seq<char> {
    hex(sha256_digest(vstd::utf8::encode_utf8(id_preimage(o))))
}

/// Whether every character is a lowercase hex digit.
pub open spec fn is_lower_hex(s: Seq<char>) -> bool {
    forall|i: int|
        0 <= i < s.len() ==> (('0' <= #[trigger] s[i] && s[i] <= '9') || ('a' <= s[i] && s[i]
            <= 'f'))
}

proof fn lemma_hex_is_lower_hex(bytes: Seq<u8>)
    ensures
        is_lower_hex(hex(bytes)),
    decreases bytes.len(),
{
    if bytes.len() > 0 {
        lemma_hex_is_lower_hex(bytes.drop_last());
        let h = hex(bytes);
        let p = hex(bytes.drop_last());
        assert forall|i: int| 0 <= i < h.len() implies (('0' <= #[trigger] h[i] && h[i] <= '9')
            || ('a' <= h[i] && h[i] <= 'f')) by {
            if i < p.len() {
                assert(h[i] == p[i]);
            }
        }
    }
}

/// An entry's id is determined by its kind and text alone: two entries that
/// agree on those share one id whoever wrote them and whenever.
pub proof fn lemma_entry_id_is_intent_only(a: SpecEntry, b: SpecEntry)
    requires
        a.kind == b.kind,
        a.text == b.text,
    ensures
        object_id(SpecObject::Entry(a)) == object_id(SpecObject::Entry(b)),
{
}

impl Object {
    /// The content address of this object as lowercase hex.
    pub fn id(&self) -> (id: String)
        ensures
            id@ == object_id(self@),
            id@.len() == 64,
            is_lower_hex(id@),
    {
        let mut pre = String::new();
        match self {
            Object::Entry(e) => {
                append_str(&mut pre, "entry\0");
                append_str(&mut pre, e.kind.as_str());
                append_str(&mut pre, "\0");
                append_str(&mut pre, e.text.as_str());
            },
            Object::Commit(c) => {
                append_str(&mut pre, "commit\0");
                let j = commit_to_json(c);
                append_str(&mut pre, j.as_str());
            },
        }
        assert(pre@ == id_preimage(self@));
        let digest = sha256(pre.as_str().as_bytes());
        let id = to_hex(digest.as_slice());
        proof {
            lemma_hex_len(digest@);
            lemma_hex_is_lower_hex(digest@);
        }
        id
    }

    /// The serialized bytes written to the object store.
    pub fn to_bytes(&self) -> (b: Vec<u8>)
        ensures
            b@ == vstd::utf8::encode_utf8(object_json(self@)),
    {
        let s = object_to_json(self);
        s.as_str().as_bytes_vec()
    }
}

} // verus!
