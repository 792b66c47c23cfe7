//! Character-level text handling: building strings one character at a time,
//! whitespace trimming, line splitting, prefixes, lexicographic order and
//! decimal rendering. Everything is stated over `Seq<char>`, the view of a
//! `String`.

use vstd::prelude::*;

verus! {

// ---------------------------------------------------------------------------
// Building and reading strings
// ---------------------------------------------------------------------------

/// Appends one character to a string (std's `String::push`).
#[verifier::external_body]
pub(crate) fn push_char(s: &mut String, c: char)
    ensures
        final(s)@ == old(s)@.push(c),
{
    s.push(c);
}

/// The characters of `s`, in order.
pub fn chars_of(s: &str) -> (v: Vec<char>)
    ensures
        v@ == s@,
{
    let mut v: Vec<char> = Vec::new();
    for c in it: s.chars()
        invariant
            v@ == it.seq().take(it.index() as int),
    {
        v.push(c);
    }
    v
}

/// A string holding exactly the characters `cs[from..to]`.
pub fn string_from_chars(cs: &Vec<char>, from: usize, to: usize) -> (s: String)
    requires
        from <= to <= cs.len(),
    ensures
        s@ == cs@.subrange(from as int, to as int),
{
    let mut s = String::new();
    let mut i = from;
    while i < to
        invariant
            from <= i <= to <= cs.len(),
            s@ == cs@.subrange(from as int, i as int),
        decreases to - i,
    {
        push_char(&mut s, cs[i]);
        i = i + 1;
    }
    s
}

/// Appends every character of `t` to `s`.
pub fn append_str(s: &mut String, t: &str)
    ensures
        final(s)@ == old(s)@ + t@,
{
    let cs = chars_of(t);
    let mut i: usize = 0;
    while i < cs.len()
        invariant
            i <= cs.len(),
            cs@ == t@,
            s@ == old(s)@ + t@.take(i as int),
        decreases cs.len() - i,
    {
        push_char(s, cs[i]);
        i = i + 1;
        assert(t@.take(i as int) == t@.take((i - 1) as int).push(cs@[i - 1]));
    }
    assert(t@.take(cs.len() as int) == t@);
}

/// The characters of each string in `v`.
pub open spec fn strs(v: Seq<String>) -> Seq<Seq<char>> {
    v.map_values(|s: String| s@)
}

/// A copy of `v` holding the same strings.
pub fn copy_strings(v: &Vec<String>) -> (r: Vec<String>)
    ensures
        r@ == v@,
{
    let mut r: Vec<String> = Vec::new();
    let mut i: usize = 0;
    while i < v.len()
        invariant
            i <= v.len(),
            r@ == v@.take(i as int),
        decreases v.len() - i,
    {
        r.push(v[i].clone());
        assert(v@.take(i + 1) == v@.take(i as int).push(v@[i as int]));
        i = i + 1;
    }
    assert(v@.take(v.len() as int) == v@);
    r
}

/// Whether `v` holds a string equal to `s`.
pub fn contains_str(v: &Vec<String>, s: &str) -> (b: bool)
    ensures
        b == strs(v@).contains(s@),
{
    let mut i: usize = 0;
    while i < v.len()
        invariant
            i <= v.len(),
            forall|j: int| 0 <= j < i ==> v@[j]@ != s@,
        decreases v.len() - i,
    {
        if str_eq(v[i].as_str(), s) {
            assert(strs(v@)[i as int] == s@);
            return true;
        }
        i = i + 1;
    }
    proof {
        if strs(v@).contains(s@) {
            let j = choose|j: int| 0 <= j < strs(v@).len() && strs(v@)[j] == s@;
            assert(v@[j]@ == s@);
        }
    }
    false
}

/// `s` with later repeats dropped, keeping each item's first occurrence.
pub open spec fn dedup<A>(s: Seq<A>) -> Seq<A>
    decreases s.len(),
{
    if s.len() == 0 {
        s
    } else {
        let d = dedup(s.drop_last());
        if d.contains(s.last()) {
            d
        } else {
            d.push(s.last())
        }
    }
}

pub proof fn lemma_dedup<A>(s: Seq<A>)
    ensures
        dedup(s).no_duplicates(),
        forall|x: A| dedup(s).contains(x) <==> s.contains(x),
        dedup(s).len() <= s.len(),
    decreases s.len(),
{
    if s.len() > 0 {
        lemma_dedup(s.drop_last());
        let d = dedup(s.drop_last());
        let l = s.last();
        assert forall|x: A| dedup(s).contains(x) <==> s.contains(x) by {
            if s.contains(x) {
                let i = choose|i: int| 0 <= i < s.len() && s[i] == x;
                if i < s.len() - 1 {
                    assert(s.drop_last()[i] == x);
                    assert(s.drop_last().contains(x));
                    assert(d.contains(x));
                    let k = choose|k: int| 0 <= k < d.len() && d[k] == x;
                    if !d.contains(l) {
                        assert(dedup(s)[k] == x);
                    }
                } else {
                    if !d.contains(l) {
                        assert(dedup(s)[d.len() as int] == x);
                    }
                }
            }
            if dedup(s).contains(x) {
                let k = choose|k: int| 0 <= k < dedup(s).len() && dedup(s)[k] == x;
                if k < d.len() {
                    assert(d[k] == x);
                    assert(d.contains(x));
                    assert(s.drop_last().contains(x));
                    let j = choose|j: int| 0 <= j < s.drop_last().len() && s.drop_last()[j] == x;
                    assert(s[j] == x);
                } else {
                    assert(s[s.len() - 1] == x);
                }
            }
        }
    }
}

/// Drops duplicate strings while preserving first-seen order.
pub fn dedup_strings(v: &Vec<String>) -> (r: Vec<String>)
    ensures
        strs(r@) == dedup(strs(v@)),
{
    let mut r: Vec<String> = Vec::new();
    let mut i: usize = 0;
    while i < v.len()
        invariant
            i <= v.len(),
            strs(r@) == dedup(strs(v@.take(i as int))),
        decreases v.len() - i,
    {
        assert(strs(v@.take(i + 1)).drop_last() == strs(v@.take(i as int)));
        assert(strs(v@.take(i + 1)).last() == v@[i as int]@);
        if !contains_str(&r, v[i].as_str()) {
            r.push(v[i].clone());
            assert(strs(r@) == strs(r@.drop_last()).push(v@[i as int]@));
        }
        i = i + 1;
    }
    assert(v@.take(v.len() as int) == v@);
    r
}

// ---------------------------------------------------------------------------
// Whitespace and trimming
// ---------------------------------------------------------------------------

/// Unicode `White_Space`, the set that `char::is_whitespace` recognises.
pub open spec fn is_ws(c: char) -> bool {
    let u = c as u32;
    (0x09 <= u && u <= 0x0d) || u == 0x20 || u == 0x85 || u == 0xa0 || u == 0x1680 || (0x2000
        <= u && u <= 0x200a) || u == 0x2028 || u == 0x2029 || u == 0x202f || u == 0x205f || u
        == 0x3000
}

pub fn is_whitespace(c: char) -> (b: bool)
    ensures
        b == is_ws(c),
{
    let u = c as u32;
    (0x09 <= u && u <= 0x0d) || u == 0x20 || u == 0x85 || u == 0xa0 || u == 0x1680 || (0x2000
        <= u && u <= 0x200a) || u == 0x2028 || u == 0x2029 || u == 0x202f || u == 0x205f || u
        == 0x3000
}

/// `s` without its leading whitespace.
pub open spec fn trim_start(s: Seq<char>) -> Seq<char>
    decreases s.len(),
{
    if s.len() > 0 && is_ws(s[0]) {
        trim_start(s.drop_first())
    } else {
        s
    }
}

/// `s` without its trailing whitespace.
pub open spec fn trim_end(s: Seq<char>) -> Seq<char>
    decreases s.len(),
{
    if s.len() > 0 && is_ws(s.last()) {
        trim_end(s.drop_last())
    } else {
        s
    }
}

/// `s` without leading and trailing whitespace (`str::trim`).
pub open spec fn trim(s: Seq<char>) -> Seq<char> {
    trim_end(trim_start(s))
}

/// The first index of `cs[from..to]` that is not whitespace, or `to`.
fn skip_ws_forward(cs: &Vec<char>, from: usize, to: usize) -> (i: usize)
    requires
        from <= to <= cs.len(),
    ensures
        from <= i <= to,
        trim_start(cs@.subrange(from as int, to as int)) == cs@.subrange(i as int, to as int),
{
    let mut i = from;
    while i < to && is_whitespace(cs[i])
        invariant
            from <= i <= to <= cs.len(),
            trim_start(cs@.subrange(from as int, to as int)) == trim_start(
                cs@.subrange(i as int, to as int),
            ),
        decreases to - i,
    {
        assert(cs@.subrange(i as int, to as int).drop_first() == cs@.subrange(
            i + 1,
            to as int,
        ));
        i = i + 1;
    }
    i
}

/// The index one past the last non-whitespace character of `cs[from..to]`,
/// or `from`.
fn skip_ws_backward(cs: &Vec<char>, from: usize, to: usize) -> (j: usize)
    requires
        from <= to <= cs.len(),
    ensures
        from <= j <= to,
        trim_end(cs@.subrange(from as int, to as int)) == cs@.subrange(from as int, j as int),
{
    let mut j = to;
    while j > from && is_whitespace(cs[j - 1])
        invariant
            from <= j <= to <= cs.len(),
            trim_end(cs@.subrange(from as int, to as int)) == trim_end(
                cs@.subrange(from as int, j as int),
            ),
        decreases j - from,
    {
        assert(cs@.subrange(from as int, j as int).drop_last() == cs@.subrange(
            from as int,
            j - 1,
        ));
        j = j - 1;
    }
    j
}

/// Bounds `(i, j)` such that `cs[i..j]` is `cs[from..to]` trimmed.
pub fn trim_bounds(cs: &Vec<char>, from: usize, to: usize) -> (r: (usize, usize))
    requires
        from <= to <= cs.len(),
    ensures
        from <= r.0 <= r.1 <= to,
        trim(cs@.subrange(from as int, to as int)) == cs@.subrange(r.0 as int, r.1 as int),
{
    let i = skip_ws_forward(cs, from, to);
    let j = skip_ws_backward(cs, i, to);
    (i, j)
}

/// `s` with leading and trailing whitespace removed.
pub fn trimmed(s: &str) -> (t: String)
    ensures
        t@ == trim(s@),
{
    let cs = chars_of(s);
    let (i, j) = trim_bounds(&cs, 0, cs.len());
    assert(cs@.subrange(0, cs@.len() as int) == s@);
    string_from_chars(&cs, i, j)
}

/// Whether `s` is empty once trimmed.
pub fn is_blank(s: &str) -> (b: bool)
    ensures
        b == (trim(s@).len() == 0),
{
    let t = trimmed(s);
    t.as_str().unicode_len() == 0
}

// ---------------------------------------------------------------------------
// Lines
// ---------------------------------------------------------------------------

/// The pieces of `s` between `'\n'` separators, in order; a string with `k`
/// separators has `k + 1` pieces.
pub open spec fn split_newlines(s: Seq<char>) -> Seq<Seq<char>>
    decreases s.len(),
{
    if s.len() == 0 {
        seq![Seq::<char>::empty()]
    } else {
        let rest = split_newlines(s.drop_last());
        if s.last() == '\n' {
            rest.push(Seq::<char>::empty())
        } else {
            rest.update(rest.len() - 1, rest.last().push(s.last()))
        }
    }
}

/// The trimmed, non-blank lines of `s`, in order: what
/// `s.lines().map(str::trim).filter(|l| !l.is_empty())` yields.
pub open spec fn nonblank_lines(s: Seq<char>) -> Seq<Seq<char>> {
    split_newlines(s).map_values(|l: Seq<char>| trim(l)).filter(|l: Seq<char>| l.len() > 0)
}

proof fn lemma_split_newlines_nonempty(s: Seq<char>)
    ensures
        split_newlines(s).len() >= 1,
    decreases s.len(),
{
    if s.len() > 0 {
        lemma_split_newlines_nonempty(s.drop_last());
    }
}

/// The trimmed, non-blank lines of `s`, in order.
pub fn nonblank_lines_of(s: &str) -> (v: Vec<String>)
    ensures
        v@.map_values(|x: String| x@) == nonblank_lines(s@),
{
    let cs = chars_of(s);
    let mut v: Vec<String> = Vec::new();
    let mut start: usize = 0;
    let mut i: usize = 0;
    let ghost done: Seq<Seq<char>> = Seq::empty();
    assert(cs@.take(0) =~= Seq::<char>::empty());
    assert(cs@.subrange(0, 0) =~= Seq::<char>::empty());
    // `done` holds the completed pieces; the current piece is cs[start..i].
    while i < cs.len()
        invariant
            cs@ == s@,
            start <= i <= cs.len(),
            split_newlines(cs@.take(i as int)) == done.push(cs@.subrange(start as int, i as int)),
            v@.map_values(|x: String| x@) == done.map_values(|l: Seq<char>| trim(l)).filter(
                |l: Seq<char>| l.len() > 0,
            ),
        decreases cs.len() - i,
    {
        let ghost prev = cs@.take(i as int);
        assert(cs@.take(i + 1).drop_last() == prev);
        if cs[i] == '\n' {
            let (a, b) = trim_bounds(&cs, start, i);
            let ghost piece = cs@.subrange(start as int, i as int);
            let ghost old_v = v@;
            let ghost old_done = done;
            if a < b {
                v.push(string_from_chars(&cs, a, b));
            }
            proof {
                done = done.push(piece);
                let f = |l: Seq<char>| trim(l);
                let p = |l: Seq<char>| l.len() > 0;
                assert(done.map_values(f) == old_done.map_values(f).push(trim(piece)));
                assert(done.map_values(f).drop_last() == old_done.map_values(f));
                assert(v@.map_values(|x: String| x@) == old_v.map_values(|x: String| x@) + (
                if a < b {
                    seq![trim(piece)]
                } else {
                    seq![]
                }));
                Seq::filter_distributes_over_add(old_done.map_values(f), seq![trim(piece)], p);
                assert(done.map_values(f) == old_done.map_values(f) + seq![trim(piece)]);
                reveal_with_fuel(Seq::filter, 2);
                assert(seq![trim(piece)].filter(p) == (if a < b {
                    seq![trim(piece)]
                } else {
                    seq![]
                }));
            }
            start = i + 1;
            i = i + 1;
            assert(cs@.subrange(start as int, i as int) == Seq::<char>::empty());
        } else {
            proof {
                lemma_split_newlines_nonempty(prev);
                assert(cs@.subrange(start as int, i + 1) == cs@.subrange(
                    start as int,
                    i as int,
                ).push(cs@[i as int]));
            }
            i = i + 1;
        }
    }
    proof {
        assert(cs@.take(cs.len() as int) == cs@);
    }
    // the final piece
    let (a, b) = trim_bounds(&cs, start, cs.len());
    let ghost piece = cs@.subrange(start as int, cs.len() as int);
    let ghost old_v = v@;
    if a < b {
        v.push(string_from_chars(&cs, a, b));
    }
    proof {
        let f = |l: Seq<char>| trim(l);
        let p = |l: Seq<char>| l.len() > 0;
        let all = done.push(piece);
        assert(all.map_values(f) == done.map_values(f) + seq![trim(piece)]);
        Seq::filter_distributes_over_add(done.map_values(f), seq![trim(piece)], p);
        reveal_with_fuel(Seq::filter, 2);
        assert(seq![trim(piece)].filter(p) == (if a < b {
            seq![trim(piece)]
        } else {
            seq![]
        }));
        assert(v@.map_values(|x: String| x@) == old_v.map_values(|x: String| x@) + (if a < b {
            seq![trim(piece)]
        } else {
            seq![]
        }));
    }
    v
}

// ---------------------------------------------------------------------------
// Prefixes and the first line
// ---------------------------------------------------------------------------

/// Whether `s` begins with `p`.
pub open spec fn has_prefix(s: Seq<char>, p: Seq<char>) -> bool {
    p.len() <= s.len() && s.take(p.len() as int) == p
}

pub fn starts_with(s: &str, p: &str) -> (b: bool)
    ensures
        b == has_prefix(s@, p@),
{
    let cs = chars_of(s);
    let ps = chars_of(p);
    if ps.len() > cs.len() {
        return false;
    }
    let mut i: usize = 0;
    while i < ps.len()
        invariant
            cs@ == s@,
            ps@ == p@,
            ps.len() <= cs.len(),
            i <= ps.len(),
            cs@.take(i as int) == ps@.take(i as int),
        decreases ps.len() - i,
    {
        if cs[i] != ps[i] {
            assert(cs@.take(ps.len() as int)[i as int] != ps@[i as int]);
            return false;
        }
        assert(cs@.take(i + 1) == cs@.take(i as int).push(cs@[i as int]));
        assert(ps@.take(i + 1) == ps@.take(i as int).push(ps@[i as int]));
        i = i + 1;
    }
    assert(ps@.take(ps.len() as int) == ps@);
    true
}

/// Whether `a` and `b` hold the same characters.
pub fn str_eq(a: &str, b: &str) -> (r: bool)
    ensures
        r == (a@ == b@),
{
    let ac = chars_of(a);
    let bc = chars_of(b);
    if ac.len() != bc.len() {
        return false;
    }
    let mut i: usize = 0;
    while i < ac.len()
        invariant
            ac@ == a@,
            bc@ == b@,
            ac.len() == bc.len(),
            i <= ac.len(),
            forall|j: int| 0 <= j < i ==> a@[j] == b@[j],
        decreases ac.len() - i,
    {
        if ac[i] != bc[i] {
            return false;
        }
        i = i + 1;
    }
    assert(a@ =~= b@);
    true
}

// ---------------------------------------------------------------------------
// Lexicographic order
// ---------------------------------------------------------------------------

/// Lexicographic order on characters by code point: the order of `String`'s
/// `Ord`, which compares the UTF-8 bytes.
pub open spec fn seq_lt(a: Seq<char>, b: Seq<char>) -> bool
    decreases a.len(),
{
    if a.len() == 0 {
        b.len() > 0
    } else if b.len() == 0 {
        false
    } else if a[0] != b[0] {
        a[0] < b[0]
    } else {
        seq_lt(a.drop_first(), b.drop_first())
    }
}

pub proof fn lemma_seq_lt_irreflexive(a: Seq<char>)
    ensures
        !seq_lt(a, a),
    decreases a.len(),
{
    if a.len() > 0 {
        lemma_seq_lt_irreflexive(a.drop_first());
    }
}

pub proof fn lemma_seq_lt_transitive(a: Seq<char>, b: Seq<char>, c: Seq<char>)
    requires
        seq_lt(a, b),
        seq_lt(b, c),
    ensures
        seq_lt(a, c),
    decreases a.len(),
{
    if a.len() > 0 && b.len() > 0 && c.len() > 0 {
        if a[0] == b[0] && b[0] == c[0] {
            lemma_seq_lt_transitive(a.drop_first(), b.drop_first(), c.drop_first());
        }
    }
}

pub proof fn lemma_seq_lt_total(a: Seq<char>, b: Seq<char>)
    requires
        a != b,
    ensures
        seq_lt(a, b) || seq_lt(b, a),
    decreases a.len(),
{
    if a.len() == 0 {
        if b.len() == 0 {
            assert(a =~= b);
        }
    } else if b.len() == 0 {
    } else if a[0] != b[0] {
        assert(a[0] < b[0] || b[0] < a[0]);
    } else {
        if a.drop_first() == b.drop_first() {
            assert(a == seq![a[0]] + a.drop_first());
            assert(b == seq![b[0]] + b.drop_first());
        }
        lemma_seq_lt_total(a.drop_first(), b.drop_first());
    }
}

pub proof fn lemma_seq_lt_asymmetric(a: Seq<char>, b: Seq<char>)
    requires
        seq_lt(a, b),
    ensures
        !seq_lt(b, a),
{
    if seq_lt(b, a) {
        lemma_seq_lt_transitive(a, b, a);
        lemma_seq_lt_irreflexive(a);
    }
}

/// `a < b` in `String`'s order.
pub fn str_lt(a: &str, b: &str) -> (r: bool)
    ensures
        r == seq_lt(a@, b@),
{
    let ac = chars_of(a);
    let bc = chars_of(b);
    let mut i: usize = 0;
    assert(a@.skip(0) == a@);
    assert(b@.skip(0) == b@);
    while i < ac.len() && i < bc.len() && ac[i] == bc[i]
        invariant
            ac@ == a@,
            bc@ == b@,
            i <= ac.len(),
            i <= bc.len(),
            seq_lt(a@, b@) == seq_lt(a@.skip(i as int), b@.skip(i as int)),
        decreases ac.len() - i,
    {
        assert(a@.skip(i as int).drop_first() == a@.skip(i + 1));
        assert(b@.skip(i as int).drop_first() == b@.skip(i + 1));
        i = i + 1;
    }
    if i == ac.len() {
        i < bc.len()
    } else if i == bc.len() {
        false
    } else {
        ac[i] < bc[i]
    }
}

// ---------------------------------------------------------------------------
// Decimal rendering
// ---------------------------------------------------------------------------

/// The ASCII digit for `d < 10`.
pub open spec fn digit_char(d: nat) -> char {
    if d == 0 { '0' } else if d == 1 { '1' } else if d == 2 { '2' } else if d == 3 { '3' }
    else if d == 4 { '4' } else if d == 5 { '5' } else if d == 6 { '6' } else if d == 7 { '7' }
    else if d == 8 { '8' } else { '9' }
}

/// The decimal digits of `n`, most significant first, without leading zeros.
pub open spec fn dec(n: nat) -> Seq<char>
    decreases n,
{
    if n < 10 {
        seq![digit_char(n)]
    } else {
        dec(n / 10).push(digit_char(n % 10))
    }
}

/// `s` left-padded with `'0'` to at least `width` characters.
pub open spec fn zero_pad(s: Seq<char>, width: nat) -> Seq<char> {
    if s.len() >= width {
        s
    } else {
        Seq::new((width - s.len()) as nat, |i: int| '0') + s
    }
}

fn digit(d: u64) -> (c: char)
    requires
        d < 10,
    ensures
        c == digit_char(d as nat),
{
    if d == 0 { '0' } else if d == 1 { '1' } else if d == 2 { '2' } else if d == 3 { '3' }
    else if d == 4 { '4' } else if d == 5 { '5' } else if d == 6 { '6' } else if d == 7 { '7' }
    else if d == 8 { '8' } else { '9' }
}

/// Appends the decimal digits of `n`.
pub fn push_dec(s: &mut String, n: u64)
    ensures
        final(s)@ == old(s)@ + dec(n as nat),
    decreases n,
{
    if n < 10 {
        push_char(s, digit(n));
        assert(dec(n as nat) == seq![digit_char(n as nat)]);
    } else {
        push_dec(s, n / 10);
        push_char(s, digit(n % 10));
        assert(dec(n as nat) == dec((n / 10) as nat).push(digit_char((n % 10) as nat)));
    }
}

pub proof fn lemma_dec_len(n: nat)
    ensures
        1 <= dec(n).len(),
        n < 10 ==> dec(n).len() == 1,
        n < 100 ==> dec(n).len() <= 2,
        n < 1000 ==> dec(n).len() <= 3,
        n < 10000 ==> dec(n).len() <= 4,
    decreases n,
{
    if n >= 10 {
        lemma_dec_len(n / 10);
    }
}

/// Appends `n` in decimal, left-padded with zeros to `width` characters.
pub fn push_dec_padded(s: &mut String, n: u64, width: usize)
    ensures
        final(s)@ == old(s)@ + zero_pad(dec(n as nat), width as nat),
{
    let mut digits = String::new();
    push_dec(&mut digits, n);
    let len = digits.as_str().unicode_len();
    let ghost start = s@;
    let mut k = len;
    while k < width
        invariant
            len == dec(n as nat).len(),
            len <= k <= width || (k == len && len >= width),
            s@ == start + Seq::new((k - len) as nat, |i: int| '0'),
        decreases width - k,
    {
        push_char(s, '0');
        assert(Seq::new((k + 1 - len) as nat, |i: int| '0') == Seq::new(
            (k - len) as nat,
            |i: int| '0',
        ).push('0'));
        k = k + 1;
    }
    append_str(s, digits.as_str());
    proof {
        if len >= width {
            assert(Seq::new(0nat, |i: int| '0') + dec(n as nat) == dec(n as nat));
        }
    }
}

} // verus!
