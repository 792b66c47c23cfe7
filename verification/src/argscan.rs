//! Scanning a subcommand's arguments: options with values (`-m msg`,
//! `-mmsg`, `--message msg`, `--message=msg`), the `-b` flag, `--` to end
//! options, and positional arguments.

use vstd::prelude::*;

use crate::error::{opt_str, LoreError, SpecError};
use crate::text::{append_str, chars_of, push_char, str_eq, string_from_chars, strs};

verus! {

/// The short name of the value option called `name`: `a`uthor, `e`mail,
/// `m`essage, `r`ef and `o`ut take a value; `b` is a flag.
pub open spec fn short_of_long(name: Seq<char>) -> Option<char> {
    if name == "author"@ {
        Some('a')
    } else if name == "email"@ {
        Some('e')
    } else if name == "message"@ {
        Some('m')
    } else if name == "ref"@ {
        Some('r')
    } else if name == "out"@ {
        Some('o')
    } else {
        None
    }
}

/// Whether `c` names an option that takes a value.
pub open spec fn takes_value(c: char) -> bool {
    c == 'a' || c == 'e' || c == 'm' || c == 'r' || c == 'o'
}

/// The state of a scan: positionals so far, option values so far, whether
/// the flag was seen, and whether `--` ended the options.
pub struct ScanState {
    pub pos: Seq<Seq<char>>,
    pub opts: Map<char, Seq<char>>,
    pub flag: bool,
    pub raw: bool,
}

/// The text before the first `'='` of `s`, and the text after it if any.
pub open spec fn split_eq(s: Seq<char>) -> (Seq<char>, Option<Seq<char>>)
    decreases s.len(),
{
    if s.len() == 0 {
        (s, None)
    } else if s[0] == '=' {
        (Seq::empty(), Some(s.drop_first()))
    } else {
        let r = split_eq(s.drop_first());
        (seq![s[0]] + r.0, r.1)
    }
}

/// Record value `v` for option `c`, which may be given once.
pub open spec fn set_opt(
    allowed: Seq<char>,
    st: ScanState,
    c: char,
    v: Seq<char>,
    rest: Seq<Seq<char>>,
    t: Seq<char>,
) -> Result<ScanState, Seq<char>> {
    if st.opts.contains_key(c) {
        Err("the argument '"@ + t + "' cannot be used multiple times"@)
    } else {
        Ok(ScanState { opts: st.opts.insert(c, v), ..st })
    }
}

/// The value attached to a short option token such as `-mtext` or
/// `-m=text`: what follows the option letter, less one leading `=`.
pub open spec fn attached_value(t: Seq<char>) -> Seq<char> {
    if t.len() > 2 && t[2] == '=' {
        t.skip(3)
    } else {
        t.skip(2)
    }
}

/// Scan `toks` for a subcommand that accepts the options `allowed`.
pub open spec fn scan_from(allowed: Seq<char>, st: ScanState, toks: Seq<Seq<char>>) -> Result<
    ScanState,
    Seq<char>,
>
    decreases toks.len(),
{
    if toks.len() == 0 {
        Ok(st)
    } else {
        let t = toks[0];
        let rest = toks.drop_first();
        if st.raw || t.len() < 2 || t[0] != '-' {
            scan_from(allowed, ScanState { pos: st.pos.push(t), ..st }, rest)
        } else if t.len() == 2 && t[1] == '-' {
            scan_from(allowed, ScanState { raw: true, ..st }, rest)
        } else if t[1] == '-' {
            let (name, inline) = split_eq(t.skip(2));
            match short_of_long(name) {
                Some(c) if allowed.contains(c) => match inline {
                    Some(v) => match set_opt(allowed, st, c, v, rest, "--"@ + name) {
                        Ok(st2) => scan_from(allowed, st2, rest),
                        Err(m) => Err(m),
                    },
                    None => if rest.len() == 0 {
                        Err("a value is required for '"@ + ("--"@ + name) + "'"@)
                    } else {
                        match set_opt(allowed, st, c, rest[0], rest, "--"@ + name) {
                            Ok(st2) => scan_from(allowed, st2, rest.drop_first()),
                            Err(m) => Err(m),
                        }
                    },
                },
                _ => Err("unexpected argument '"@ + t + "' found"@),
            }
        } else {
            let c = t[1];
            if !allowed.contains(c) {
                Err("unexpected argument '"@ + t + "' found"@)
            } else if !takes_value(c) {
                if t.len() == 2 && !st.flag {
                    scan_from(allowed, ScanState { flag: true, ..st }, rest)
                } else {
                    Err("unexpected argument '"@ + t + "' found"@)
                }
            } else if t.len() > 2 {
                match set_opt(allowed, st, c, attached_value(t), rest, seq!['-', c]) {
                    Ok(st2) => scan_from(allowed, st2, rest),
                    Err(m) => Err(m),
                }
            } else if rest.len() == 0 {
                Err("a value is required for '-"@ + seq![c] + "'"@)
            } else {
                match set_opt(allowed, st, c, rest[0], rest, seq!['-', c]) {
                    Ok(st2) => scan_from(allowed, st2, rest.drop_first()),
                    Err(m) => Err(m),
                }
            }
        }
    }
}

/// The scan of a subcommand's arguments before any was read.
pub open spec fn scan_start() -> ScanState {
    ScanState { pos: Seq::empty(), opts: Map::empty(), flag: false, raw: false }
}

/// A finished scan.
pub struct Scan {
    pub pos: Vec<String>,
    pub author: Option<String>,
    pub email: Option<String>,
    pub message: Option<String>,
    pub reference: Option<String>,
    pub out: Option<String>,
    pub flag: bool,
    pub raw: bool,
}

/// The value given for option `c`, if any.
pub open spec fn opt_of(st: ScanState, c: char) -> Option<Seq<char>> {
    if st.opts.contains_key(c) {
        Some(st.opts[c])
    } else {
        None
    }
}

impl Scan {
    /// This scan as a scan state.
    pub open spec fn state(self) -> ScanState {
        ScanState {
            pos: strs(self.pos@),
            opts: Map::new(
                |c: char|
                    (c == 'a' && self.author is Some) || (c == 'e' && self.email is Some) || (c
                        == 'm' && self.message is Some) || (c == 'r' && self.reference is Some) || (c
                        == 'o' && self.out is Some),
                |c: char|
                    if c == 'a' {
                        opt_str(self.author)->0
                    } else if c == 'e' {
                        opt_str(self.email)->0
                    } else if c == 'm' {
                        opt_str(self.message)->0
                    } else if c == 'r' {
                        opt_str(self.reference)->0
                    } else {
                        opt_str(self.out)->0
                    },
            ),
            flag: self.flag,
            raw: self.raw,
        }
    }

    fn has(&self, c: char) -> (b: bool)
        ensures
            b == self.state().opts.contains_key(c),
    {
        if c == 'a' {
            self.author.is_some()
        } else if c == 'e' {
            self.email.is_some()
        } else if c == 'm' {
            self.message.is_some()
        } else if c == 'r' {
            self.reference.is_some()
        } else if c == 'o' {
            self.out.is_some()
        } else {
            false
        }
    }

    fn set(&mut self, c: char, v: String)
        requires
            takes_value(c),
        ensures
            final(self).state() == (ScanState {
                opts: old(self).state().opts.insert(c, v@),
                ..old(self).state()
            }),
    {
        if c == 'a' {
            self.author = Some(v);
        } else if c == 'e' {
            self.email = Some(v);
        } else if c == 'm' {
            self.message = Some(v);
        } else if c == 'r' {
            self.reference = Some(v);
        } else {
            self.out = Some(v);
        }
        assert(self.state().opts =~= old(self).state().opts.insert(c, v@));
    }
}

fn long_short(name: &str) -> (r: Option<char>)
    ensures
        r == short_of_long(name@),
{
    if str_eq(name, "author") {
        Some('a')
    } else if str_eq(name, "email") {
        Some('e')
    } else if str_eq(name, "message") {
        Some('m')
    } else if str_eq(name, "ref") {
        Some('r')
    } else if str_eq(name, "out") {
        Some('o')
    } else {
        None
    }
}

fn contains_char_vec(v: &Vec<char>, c: char) -> (b: bool)
    ensures
        b == v@.contains(c),
{
    let mut i: usize = 0;
    while i < v.len()
        invariant
            i <= v.len(),
            forall|j: int| 0 <= j < i ==> v@[j] != c,
        decreases v.len() - i,
    {
        if v[i] == c {
            return true;
        }
        i = i + 1;
    }
    false
}

/// The name and inline value of a long option body `cs[from..]`.
fn split_eq_at(cs: &Vec<char>, from: usize) -> (r: (String, Option<String>))
    requires
        from <= cs.len(),
    ensures
        r.0@ == split_eq(cs@.skip(from as int)).0,
        opt_str(r.1) == split_eq(cs@.skip(from as int)).1,
{
    let mut i = from;
    while i < cs.len() && cs[i] != '='
        invariant
            from <= i <= cs.len(),
            forall|k: int| from <= k < i ==> cs@[k] != '=',
        decreases cs.len() - i,
    {
        i = i + 1;
    }
    proof {
        lemma_split_eq(cs@, from as int, i as int);
    }
    if i < cs.len() {
        (string_from_chars(cs, from, i), Some(string_from_chars(cs, i + 1, cs.len())))
    } else {
        (string_from_chars(cs, from, i), None)
    }
}

proof fn lemma_split_eq(cs: Seq<char>, from: int, i: int)
    requires
        0 <= from <= i <= cs.len(),
        forall|k: int| from <= k < i ==> cs[k] != '=',
        i < cs.len() ==> cs[i] == '=',
    ensures
        split_eq(cs.skip(from)).0 == cs.subrange(from, i),
        split_eq(cs.skip(from)).1 == (if i < cs.len() {
            Some(cs.subrange(i + 1, cs.len() as int))
        } else {
            None
        }),
    decreases i - from,
{
    if from == i {
        if i < cs.len() {
            assert(cs.skip(from)[0] == '=');
            assert(cs.skip(from).drop_first() == cs.subrange(i + 1, cs.len() as int));
        } else {
            assert(cs.skip(from).len() == 0);
        }
        assert(cs.subrange(from, i) == Seq::<char>::empty());
    } else {
        lemma_split_eq(cs, from + 1, i);
        assert(cs.skip(from).drop_first() == cs.skip(from + 1));
        assert(cs.skip(from)[0] == cs[from]);
        assert(seq![cs[from]] + cs.subrange(from + 1, i) == cs.subrange(from, i));
    }
}

fn unexpected(t: &str) -> (e: LoreError)
    ensures
        e@ == SpecError::Usage("unexpected argument '"@ + t@ + "' found"@),
{
    let mut m = String::new();
    append_str(&mut m, "unexpected argument '");
    append_str(&mut m, t);
    append_str(&mut m, "' found");
    LoreError::Usage(m)
}

fn repeated(t: &str) -> (e: LoreError)
    ensures
        e@ == SpecError::Usage("the argument '"@ + t@ + "' cannot be used multiple times"@),
{
    let mut m = String::new();
    append_str(&mut m, "the argument '");
    append_str(&mut m, t);
    append_str(&mut m, "' cannot be used multiple times");
    LoreError::Usage(m)
}

fn value_required(t: &str) -> (e: LoreError)
    ensures
        e@ == SpecError::Usage("a value is required for '"@ + t@ + "'"@),
{
    let mut m = String::new();
    append_str(&mut m, "a value is required for '");
    append_str(&mut m, t);
    append_str(&mut m, "'");
    LoreError::Usage(m)
}

/// The scan of `toks[from..]` for a subcommand accepting `allowed`.
pub fn scan(allowed: &Vec<char>, toks: &Vec<String>, from: usize) -> (r: Result<Scan, LoreError>)
    requires
        from <= toks.len(),
    ensures
        match scan_from(allowed@, scan_start(), strs(toks@).skip(from as int)) {
            Ok(st) => r matches Ok(s) && s.state() == st,
            Err(m) => r matches Err(e) && e@ == SpecError::Usage(m),
        },
{
    let mut s = Scan {
        pos: Vec::new(),
        author: None,
        email: None,
        message: None,
        reference: None,
        out: None,
        flag: false,
        raw: false,
    };
    assert(s.state().opts =~= Map::<char, Seq<char>>::empty());
    assert(s.state().pos =~= Seq::<Seq<char>>::empty());
    let mut i = from;
    while i < toks.len()
        invariant
            from <= i <= toks.len(),
            scan_from(allowed@, scan_start(), strs(toks@).skip(from as int)) == scan_from(
                allowed@,
                s.state(),
                strs(toks@).skip(i as int),
            ),
        decreases toks.len() - i,
    {
        let ghost ts = strs(toks@).skip(i as int);
        let ghost st = s.state();
        assert(ts[0] == toks@[i as int]@);
        assert(ts.drop_first() == strs(toks@).skip(i + 1));
        let t = toks[i].as_str();
        let cs = chars_of(t);
        if s.raw || cs.len() < 2 || cs[0] != '-' {
            let ghost before = s.pos@;
            s.pos.push(toks[i].clone());
            assert(strs(s.pos@) == strs(before).push(t@));
            assert(s.state() == ScanState { pos: st.pos.push(t@), ..st });
            i = i + 1;
        } else if cs.len() == 2 && cs[1] == '-' {
            s.raw = true;
            assert(s.state() == ScanState { raw: true, ..st });
            i = i + 1;
        } else if cs[1] == '-' {
            let (name, inline) = split_eq_at(&cs, 2);
            assert(cs@.skip(2) == t@.skip(2));
            let mut dashed = String::new();
            append_str(&mut dashed, "--");
            append_str(&mut dashed, name.as_str());
            match long_short(name.as_str()) {
                Some(c) => {
                    if !contains_char_vec(allowed, c) {
                        return Err(unexpected(t));
                    }
                    match inline {
                        Some(v) => {
                            if s.has(c) {
                                return Err(repeated(dashed.as_str()));
                            }
                            s.set(c, v);
                            i = i + 1;
                        },
                        None => {
                            if i + 1 >= toks.len() {
                                assert(ts.drop_first().len() == 0);
                                return Err(value_required(dashed.as_str()));
                            }
                            if s.has(c) {
                                return Err(repeated(dashed.as_str()));
                            }
                            assert(ts.drop_first()[0] == toks@[i + 1]@);
                            assert(ts.drop_first().drop_first() == strs(toks@).skip(i + 2));
                            s.set(c, toks[i + 1].clone());
                            i = i + 2;
                        },
                    }
                },
                None => {
                    return Err(unexpected(t));
                },
            }
        } else {
            let c = cs[1];
            if !contains_char_vec(allowed, c) {
                return Err(unexpected(t));
            }
            if !(c == 'a' || c == 'e' || c == 'm' || c == 'r' || c == 'o') {
                if cs.len() == 2 && !s.flag {
                    s.flag = true;
                    assert(s.state() == ScanState { flag: true, ..st });
                    i = i + 1;
                } else {
                    return Err(unexpected(t));
                }
            } else {
                let mut dashed = String::new();
                push_char(&mut dashed, '-');
                push_char(&mut dashed, c);
                assert(dashed@ == seq!['-', c]);
                if cs.len() > 2 {
                    if s.has(c) {
                        return Err(repeated(dashed.as_str()));
                    }
                    let from: usize = if cs[2] == '=' {
                        3
                    } else {
                        2
                    };
                    let v = string_from_chars(&cs, from, cs.len());
                    assert(v@ == attached_value(t@));
                    s.set(c, v);
                    i = i + 1;
                } else {
                    if i + 1 >= toks.len() {
                        assert(ts.drop_first().len() == 0);
                        let mut m = String::new();
                        append_str(&mut m, "a value is required for '-");
                        push_char(&mut m, c);
                        append_str(&mut m, "'");
                        assert(m@ == "a value is required for '-"@ + seq![c] + "'"@);
                        return Err(LoreError::Usage(m));
                    }
                    if s.has(c) {
                        return Err(repeated(dashed.as_str()));
                    }
                    assert(ts.drop_first()[0] == toks@[i + 1]@);
                    assert(ts.drop_first().drop_first() == strs(toks@).skip(i + 2));
                    s.set(c, toks[i + 1].clone());
                    i = i + 2;
                }
            }
        }
    }
    assert(strs(toks@).skip(i as int).len() == 0);
    Ok(s)
}

} // verus!
