//! Reading objects back from what the library writes. An object's stored
//! JSON determines the object, and what its id is computed from determines
//! an entry's kind and text or every field of a commit. Together with the
//! collision resistance of SHA-256, which nothing here states, this is why
//! ids tell intent and commits apart.

use vstd::prelude::*;

use crate::object::{
    commit_fields, commit_json, entry_fields, hex_digit, id_preimage, json_char, json_escape,
    json_str, json_str_array, json_str_items, object_json, SpecCommit, SpecEntry, SpecObject,
};
use crate::text::{dec, digit_char, lemma_dec_len};

verus! {

/// Escaping a non-empty string starts with escaping its first character.
pub proof fn lemma_json_escape_cons(s: Seq<char>)
    requires
        s.len() > 0,
    ensures
        json_escape(s) == json_char(s[0]) + json_escape(s.drop_first()),
    decreases s.len(),
{
    if s.len() == 1 {
        assert(s.drop_last().len() == 0);
        assert(s.drop_first().len() == 0);
        assert(json_escape(s.drop_first()) == Seq::<char>::empty());
        assert(json_escape(s) == json_escape(s.drop_last()) + json_char(s.last()));
        assert(json_escape(s) =~= json_char(s[0]) + json_escape(s.drop_first()));
    } else {
        let d = s.drop_last();
        lemma_json_escape_cons(d);
        assert(d[0] == s[0]);
        assert(d.drop_first() =~= s.drop_first().drop_last());
        assert(s.drop_first().last() == s.last());
        assert(json_escape(s.drop_first()) == json_escape(s.drop_first().drop_last()) + json_char(
            s.drop_first().last(),
        ));
        assert(json_escape(s) =~= json_char(s[0]) + json_escape(s.drop_first()));
    }
}

proof fn lemma_hex_digit_injective(a: nat, b: nat)
    requires
        a < 16,
        b < 16,
        hex_digit(a) == hex_digit(b),
    ensures
        a == b,
{
}

/// One escaped character, whatever follows it, can be read back: the
/// character and what follows are both determined.
pub proof fn lemma_json_char_unique(c1: char, c2: char, r1: Seq<char>, r2: Seq<char>)
    requires
        json_char(c1) + r1 == json_char(c2) + r2,
    ensures
        c1 == c2,
        r1 == r2,
{
    let x = json_char(c1) + r1;
    let j1 = json_char(c1);
    let j2 = json_char(c2);
    assert(x[0] == j1[0]);
    assert(x[0] == j2[0]);
    if j1.len() >= 2 && j2.len() >= 2 {
        assert(x[1] == j1[1]);
        assert(x[1] == j2[1]);
    }
    if j1.len() == 6 && j2.len() == 6 {
        assert(x[4] == j1[4] && x[4] == j2[4]);
        assert(x[5] == j1[5] && x[5] == j2[5]);
        let u1 = c1 as u32;
        let u2 = c2 as u32;
        lemma_hex_digit_injective((u1 / 16) as nat, (u2 / 16) as nat);
        lemma_hex_digit_injective((u1 % 16) as nat, (u2 % 16) as nat);
        assert(u1 == u2);
    }
    assert(j1 == j2);
    assert(r1 =~= x.skip(j1.len() as int));
    assert(r2 =~= x.skip(j2.len() as int));
}

/// No escaped character begins with a double quote.
proof fn lemma_json_char_not_quote(c: char)
    ensures
        json_char(c).len() > 0,
        json_char(c)[0] != '"',
{
}

/// The body of a JSON string literal ends at its first unescaped double
/// quote: the string, and whatever follows the literal, can be read back.
pub proof fn lemma_json_str_unique(s1: Seq<char>, s2: Seq<char>, t1: Seq<char>, t2: Seq<char>)
    requires
        json_escape(s1) + seq!['"'] + t1 == json_escape(s2) + seq!['"'] + t2,
    ensures
        s1 == s2,
        t1 == t2,
    decreases s1.len(),
{
    let a = json_escape(s1) + seq!['"'] + t1;
    if s1.len() == 0 {
        assert(json_escape(s1) == Seq::<char>::empty());
        assert(a[0] == '"');
        if s2.len() > 0 {
            lemma_json_escape_cons(s2);
            lemma_json_char_not_quote(s2[0]);
            assert(a[0] == json_char(s2[0])[0]);
        }
        assert(json_escape(s2) == Seq::<char>::empty());
        assert(t1 =~= a.drop_first());
        assert(t2 =~= a.drop_first());
    } else {
        lemma_json_escape_cons(s1);
        lemma_json_char_not_quote(s1[0]);
        assert(a[0] == json_char(s1[0])[0]);
        if s2.len() == 0 {
            assert(json_escape(s2) == Seq::<char>::empty());
            assert(a[0] == '"');
        }
        lemma_json_escape_cons(s2);
        let r1 = json_escape(s1.drop_first()) + seq!['"'] + t1;
        let r2 = json_escape(s2.drop_first()) + seq!['"'] + t2;
        assert(a =~= json_char(s1[0]) + r1);
        assert(a =~= json_char(s2[0]) + r2);
        lemma_json_char_unique(s1[0], s2[0], r1, r2);
        lemma_json_str_unique(s1.drop_first(), s2.drop_first(), t1, t2);
        assert(s1 =~= seq![s1[0]] + s1.drop_first());
        assert(s2 =~= seq![s2[0]] + s2.drop_first());
    }
}

/// A list of two or more string literals starts with its first literal.
pub proof fn lemma_json_items_cons(xs: Seq<Seq<char>>)
    requires
        xs.len() >= 2,
    ensures
        json_str_items(xs) == json_str(xs[0]) + seq![','] + json_str_items(xs.drop_first()),
    decreases xs.len(),
{
    let d = xs.drop_last();
    if xs.len() == 2 {
        assert(d.len() == 1);
        assert(json_str_items(d) == json_str(d[0]));
        assert(xs.drop_first().len() == 1);
        assert(json_str_items(xs.drop_first()) == json_str(xs.drop_first()[0]));
        assert(json_str_items(xs) =~= json_str(xs[0]) + seq![','] + json_str_items(xs.drop_first()));
    } else {
        lemma_json_items_cons(d);
        assert(d.drop_first() =~= xs.drop_first().drop_last());
        assert(xs.drop_first().last() == xs.last());
        assert(json_str_items(xs.drop_first()) == json_str_items(xs.drop_first().drop_last()) + seq![
            ',',
        ] + json_str(xs.drop_first().last()));
        assert(json_str_items(xs) =~= json_str(xs[0]) + seq![','] + json_str_items(xs.drop_first()));
    }
}

/// What follows the first literal of a non-empty list of string literals
/// closed by `]` and followed by `t`.
spec fn items_rest(xs: Seq<Seq<char>>, t: Seq<char>) -> Seq<char> {
    if xs.len() == 1 {
        seq![']'] + t
    } else {
        seq![','] + json_str_items(xs.drop_first()) + seq![']'] + t
    }
}

proof fn lemma_items_head(xs: Seq<Seq<char>>, t: Seq<char>)
    requires
        xs.len() > 0,
    ensures
        json_str_items(xs) + seq![']'] + t == seq!['"'] + (json_escape(xs[0]) + seq!['"'] + items_rest(
            xs,
            t,
        )),
{
    if xs.len() >= 2 {
        lemma_json_items_cons(xs);
    }
    assert(json_str_items(xs) + seq![']'] + t =~= seq!['"'] + (json_escape(xs[0]) + seq!['"']
        + items_rest(xs, t)));
}

/// The items of a JSON array of strings end at the closing bracket: the
/// strings, and whatever follows the array, can be read back.
pub proof fn lemma_json_items_unique(
    xs: Seq<Seq<char>>,
    ys: Seq<Seq<char>>,
    t1: Seq<char>,
    t2: Seq<char>,
)
    requires
        json_str_items(xs) + seq![']'] + t1 == json_str_items(ys) + seq![']'] + t2,
    ensures
        xs == ys,
        t1 == t2,
    decreases xs.len(),
{
    let a = json_str_items(xs) + seq![']'] + t1;
    if xs.len() == 0 {
        assert(json_str_items(xs) == Seq::<char>::empty());
        assert(a[0] == ']');
        if ys.len() > 0 {
            lemma_items_head(ys, t2);
        }
        assert(json_str_items(ys) == Seq::<char>::empty());
        assert(t1 =~= a.drop_first());
        assert(t2 =~= a.drop_first());
    } else {
        lemma_items_head(xs, t1);
        if ys.len() == 0 {
            assert(json_str_items(ys) == Seq::<char>::empty());
            assert(a[0] == ']');
        }
        lemma_items_head(ys, t2);
        let rest1 = items_rest(xs, t1);
        let rest2 = items_rest(ys, t2);
        assert(a.drop_first() =~= json_escape(xs[0]) + seq!['"'] + rest1);
        assert(a.drop_first() =~= json_escape(ys[0]) + seq!['"'] + rest2);
        lemma_json_str_unique(xs[0], ys[0], rest1, rest2);
        assert(rest1[0] == rest2[0]);
        if xs.len() == 1 {
            assert(ys.len() == 1);
            assert(t1 =~= rest1.drop_first());
            assert(t2 =~= rest2.drop_first());
            assert(xs =~= ys);
        } else {
            assert(ys.len() >= 2);
            assert(rest1.drop_first() =~= json_str_items(xs.drop_first()) + seq![']'] + t1);
            assert(rest2.drop_first() =~= json_str_items(ys.drop_first()) + seq![']'] + t2);
            lemma_json_items_unique(xs.drop_first(), ys.drop_first(), t1, t2);
            assert(xs =~= seq![xs[0]] + xs.drop_first());
            assert(ys =~= seq![ys[0]] + ys.drop_first());
        }
    }
}

/// Every character of a decimal numeral is a digit.
proof fn lemma_dec_digits(n: nat)
    ensures
        forall|i: int| 0 <= i < dec(n).len() ==> '0' <= #[trigger] dec(n)[i] <= '9',
    decreases n,
{
    if n >= 10 {
        lemma_dec_digits(n / 10);
        assert forall|i: int| 0 <= i < dec(n).len() implies '0' <= #[trigger] dec(n)[i] <= '9' by {
            if i < dec(n / 10).len() {
                assert(dec(n)[i] == dec(n / 10)[i]);
            }
        }
    }
}

/// Different numbers have different decimal numerals.
proof fn lemma_dec_injective(a: nat, b: nat)
    requires
        dec(a) == dec(b),
    ensures
        a == b,
    decreases a,
{
    lemma_dec_len(a / 10);
    lemma_dec_len(b / 10);
    if a < 10 && b < 10 {
        assert(dec(a)[0] == digit_char(a));
        assert(dec(b)[0] == digit_char(b));
    } else if a < 10 || b < 10 {
        if a >= 10 {
            assert(dec(a) == dec(a / 10).push(digit_char(a % 10)));
            assert(dec(b) == seq![digit_char(b)]);
        } else {
            assert(dec(b) == dec(b / 10).push(digit_char(b % 10)));
            assert(dec(a) == seq![digit_char(a)]);
        }
        assert(dec(a).len() != dec(b).len());
    } else {
        assert(dec(a).last() == digit_char(a % 10));
        assert(dec(b).last() == digit_char(b % 10));
        assert(a % 10 == b % 10);
        assert(dec(a / 10) =~= dec(a).drop_last());
        assert(dec(b / 10) =~= dec(b).drop_last());
        lemma_dec_injective(a / 10, b / 10);
    }
}

/// A decimal numeral followed by a non-digit can be read back: the number,
/// and what follows it, are both determined.
pub proof fn lemma_dec_unique(a: nat, b: nat, t1: Seq<char>, t2: Seq<char>)
    requires
        dec(a) + t1 == dec(b) + t2,
        t1.len() > 0,
        t2.len() > 0,
        !('0' <= t1[0] <= '9'),
        !('0' <= t2[0] <= '9'),
    ensures
        a == b,
        t1 == t2,
{
    let x = dec(a) + t1;
    lemma_dec_digits(a);
    lemma_dec_digits(b);
    let la = dec(a).len();
    let lb = dec(b).len();
    if la < lb {
        assert(x[la as int] == t1[0]);
        assert(x[la as int] == dec(b)[la as int]);
    } else if lb < la {
        assert(x[lb as int] == t2[0]);
        assert(x[lb as int] == dec(a)[lb as int]);
    }
    assert(dec(a) =~= x.take(la as int));
    assert(dec(b) =~= x.take(lb as int));
    lemma_dec_injective(a, b);
    assert(t1 =~= x.skip(la as int));
    assert(t2 =~= x.skip(lb as int));
}

proof fn lemma_skip_common(p: Seq<char>, a: Seq<char>, b: Seq<char>)
    requires
        p + a == p + b,
    ensures
        a == b,
{
    assert(a =~= (p + a).skip(p.len() as int));
    assert(b =~= (p + b).skip(p.len() as int));
}

/// What a commit's id is computed from covers every field of the commit:
/// commits that differ in any field hash different input.
pub proof fn law_commit_preimage_covers_every_field(c1: SpecCommit, c2: SpecCommit)
    requires
        c1 != c2,
    ensures
        id_preimage(SpecObject::Commit(c1)) != id_preimage(SpecObject::Commit(c2)),
{
    if id_preimage(SpecObject::Commit(c1)) == id_preimage(SpecObject::Commit(c2)) {
        lemma_skip_common("commit\0"@, commit_json(c1), commit_json(c2));
        lemma_commit_json_unique(c1, c2);
    }
}

/// `((a + b) + c) + t`, regrouped to the right.
proof fn lemma_regroup(a: Seq<char>, b: Seq<char>, c: Seq<char>, t: Seq<char>)
    ensures
        a + b + c + t == a + (b + c + t),
{
    assert(a + b + c + t =~= a + (b + c + t));
}

/// What an entry's id is computed from tells entries apart by kind and
/// text: entries that differ in either hash different input, provided their
/// kinds hold no NUL character (the separator between kind and text).
pub proof fn law_entry_preimage_tells_intent_apart(a: SpecEntry, b: SpecEntry)
    requires
        !a.kind.contains('\0'),
        !b.kind.contains('\0'),
        a.kind != b.kind || a.text != b.text,
    ensures
        id_preimage(SpecObject::Entry(a)) != id_preimage(SpecObject::Entry(b)),
{
    reveal_strlit("entry\0");
    reveal_strlit("\0");
    let pa = id_preimage(SpecObject::Entry(a));
    let pb = id_preimage(SpecObject::Entry(b));
    let ka = a.kind;
    let kb = b.kind;
    assert(pa == "entry\0"@ + ka + "\0"@ + a.text);
    if pa == pb {
        assert forall|i: int| 0 <= i < ka.len() implies pa[6 + i] == ka[i] by {}
        assert forall|i: int| 0 <= i < kb.len() implies pb[6 + i] == kb[i] by {}
        assert(pa[6 + ka.len() as int] == '\0');
        assert(pb[6 + kb.len() as int] == '\0');
        if ka.len() < kb.len() {
            assert(pb[6 + ka.len() as int] == kb[ka.len() as int]);
            assert(kb.contains(kb[ka.len() as int]));
        } else if kb.len() < ka.len() {
            assert(pa[6 + kb.len() as int] == ka[kb.len() as int]);
            assert(ka.contains(ka[kb.len() as int]));
        } else {
            assert(ka =~= kb) by {
                assert forall|i: int| 0 <= i < ka.len() implies ka[i] == kb[i] by {
                    assert(pa[6 + i] == pb[6 + i]);
                }
            }
            assert(a.text =~= pa.skip(7 + ka.len() as int));
            assert(b.text =~= pb.skip(7 + kb.len() as int));
        }
    }
}

/// An entry and a commit never hash the same input: the two kinds of
/// object are tagged apart.
pub proof fn law_entry_and_commit_preimages_differ(e: SpecEntry, c: SpecCommit)
    ensures
        id_preimage(SpecObject::Entry(e)) != id_preimage(SpecObject::Commit(c)),
{
    reveal_strlit("entry\0");
    reveal_strlit("commit\0");
    assert(id_preimage(SpecObject::Entry(e))[0] == 'e');
    assert(id_preimage(SpecObject::Commit(c))[0] == 'c');
}

/// A commit's JSON from the end: `tail(c, k)` is everything after the
/// first `k` pieces of its fields, with the closing brace.
spec fn tail(c: SpecCommit, k: int) -> Seq<char>
    decreases 10 - k,
{
    if k >= 10 {
        seq!['}']
    } else {
        piece(c, k) + tail(c, k + 1)
    }
}

/// The `k`th piece of a commit's fields, in order.
spec fn piece(c: SpecCommit, k: int) -> Seq<char> {
    if k == 0 {
        "\"parents\":"@
    } else if k == 1 {
        json_str_array(c.parents)
    } else if k == 2 {
        ",\"author\":"@
    } else if k == 3 {
        json_str(c.author)
    } else if k == 4 {
        ",\"timestamp\":"@
    } else if k == 5 {
        dec(c.timestamp as nat)
    } else if k == 6 {
        ",\"message\":"@
    } else if k == 7 {
        json_str(c.message)
    } else if k == 8 {
        ",\"entries\":"@
    } else {
        json_str_array(c.entries)
    }
}

proof fn lemma_commit_fields_layout(c: SpecCommit)
    ensures
        commit_fields(c) + seq!['}'] == tail(c, 0),
{
    let f1 = piece(c, 0);
    let f2 = f1 + piece(c, 1);
    let f3 = f2 + piece(c, 2);
    let f4 = f3 + piece(c, 3);
    let f5 = f4 + piece(c, 4);
    let f6 = f5 + piece(c, 5);
    let f7 = f6 + piece(c, 6);
    let f8 = f7 + piece(c, 7);
    let f9 = f8 + piece(c, 8);
    let f10 = f9 + piece(c, 9);
    assert(commit_fields(c) == f10);
    assert(tail(c, 10) == seq!['}']);
    assert forall|k: int| 0 <= k < 10 implies #[trigger] tail(c, k) == piece(c, k) + tail(c, k + 1) by {}
    assert(f10 + seq!['}'] =~= f9 + tail(c, 9));
    assert(f9 + tail(c, 9) =~= f8 + tail(c, 8));
    assert(f8 + tail(c, 8) =~= f7 + tail(c, 7));
    assert(f7 + tail(c, 7) =~= f6 + tail(c, 6));
    assert(f6 + tail(c, 6) =~= f5 + tail(c, 5));
    assert(f5 + tail(c, 5) =~= f4 + tail(c, 4));
    assert(f4 + tail(c, 4) =~= f3 + tail(c, 3));
    assert(f3 + tail(c, 3) =~= f2 + tail(c, 2));
    assert(f2 + tail(c, 2) =~= f1 + tail(c, 1));
    assert(f1 + tail(c, 1) == tail(c, 0));
}

proof fn lemma_commit_json_layout(c: SpecCommit)
    ensures
        commit_json(c) == seq!['{'] + tail(c, 0),
{
    lemma_commit_fields_layout(c);
    assert(commit_json(c) =~= seq!['{'] + (commit_fields(c) + seq!['}']));
}

/// Equal tails from a literal piece on: equal tails from the next piece.
proof fn lemma_peel_literal(c1: SpecCommit, c2: SpecCommit, k: int)
    requires
        0 <= k < 10,
        k % 2 == 0,
        tail(c1, k) == tail(c2, k),
    ensures
        tail(c1, k + 1) == tail(c2, k + 1),
{
    assert(piece(c1, k) == piece(c2, k));
    lemma_skip_common(piece(c1, k), tail(c1, k + 1), tail(c2, k + 1));
}

/// Equal tails from a string piece on: equal strings, equal tails after.
proof fn lemma_peel_str(s1: Seq<char>, s2: Seq<char>, t1: Seq<char>, t2: Seq<char>)
    requires
        json_str(s1) + t1 == json_str(s2) + t2,
    ensures
        s1 == s2,
        t1 == t2,
{
    lemma_regroup(seq!['"'], json_escape(s1), seq!['"'], t1);
    lemma_regroup(seq!['"'], json_escape(s2), seq!['"'], t2);
    lemma_skip_common(seq!['"'], json_escape(s1) + seq!['"'] + t1, json_escape(s2) + seq!['"'] + t2);
    lemma_json_str_unique(s1, s2, t1, t2);
}

/// Equal tails from an array piece on: equal arrays, equal tails after.
proof fn lemma_peel_array(xs: Seq<Seq<char>>, ys: Seq<Seq<char>>, t1: Seq<char>, t2: Seq<char>)
    requires
        json_str_array(xs) + t1 == json_str_array(ys) + t2,
    ensures
        xs == ys,
        t1 == t2,
{
    lemma_regroup(seq!['['], json_str_items(xs), seq![']'], t1);
    lemma_regroup(seq!['['], json_str_items(ys), seq![']'], t2);
    lemma_skip_common(
        seq!['['],
        json_str_items(xs) + seq![']'] + t1,
        json_str_items(ys) + seq![']'] + t2,
    );
    lemma_json_items_unique(xs, ys, t1, t2);
}

/// A commit's JSON can be read back into the commit.
proof fn lemma_commit_json_unique(c1: SpecCommit, c2: SpecCommit)
    requires
        commit_json(c1) == commit_json(c2),
    ensures
        c1 == c2,
{
    lemma_commit_json_layout(c1);
    lemma_commit_json_layout(c2);
    lemma_skip_common(seq!['{'], tail(c1, 0), tail(c2, 0));
    lemma_commit_tail_unique(c1, c2);
}

/// A commit's fields, from the first on, can be read back into the commit.
proof fn lemma_commit_tail_unique(c1: SpecCommit, c2: SpecCommit)
    requires
        tail(c1, 0) == tail(c2, 0),
    ensures
        c1 == c2,
{
    lemma_peel_literal(c1, c2, 0);
    lemma_peel_array(c1.parents, c2.parents, tail(c1, 2), tail(c2, 2));
    lemma_peel_literal(c1, c2, 2);
    lemma_peel_str(c1.author, c2.author, tail(c1, 4), tail(c2, 4));
    lemma_peel_literal(c1, c2, 4);
    reveal_strlit(",\"message\":");
    assert(tail(c1, 6)[0] == ',');
    assert(tail(c2, 6)[0] == ',');
    lemma_dec_unique(c1.timestamp as nat, c2.timestamp as nat, tail(c1, 6), tail(c2, 6));
    lemma_peel_literal(c1, c2, 6);
    lemma_peel_str(c1.message, c2.message, tail(c1, 8), tail(c2, 8));
    lemma_peel_literal(c1, c2, 8);
    lemma_peel_array(c1.entries, c2.entries, tail(c1, 10), tail(c2, 10));
}

/// The `k`th piece of an entry's fields, in order.
spec fn entry_piece(e: SpecEntry, k: int) -> Seq<char> {
    if k == 0 {
        ",\"kind\":"@
    } else if k == 1 {
        json_str(e.kind)
    } else if k == 2 {
        ",\"author\":"@
    } else if k == 3 {
        json_str(e.author)
    } else if k == 4 {
        ",\"timestamp\":"@
    } else if k == 5 {
        dec(e.timestamp as nat)
    } else if k == 6 {
        ",\"text\":"@
    } else {
        json_str(e.text)
    }
}

/// An entry's fields from the `k`th piece on, with the closing brace.
spec fn entry_tail(e: SpecEntry, k: int) -> Seq<char>
    decreases 8 - k,
{
    if k >= 8 {
        seq!['}']
    } else {
        entry_piece(e, k) + entry_tail(e, k + 1)
    }
}

proof fn lemma_entry_fields_layout(e: SpecEntry)
    ensures
        entry_fields(e) + seq!['}'] == entry_tail(e, 0),
{
    let f1 = entry_piece(e, 0);
    let f2 = f1 + entry_piece(e, 1);
    let f3 = f2 + entry_piece(e, 2);
    let f4 = f3 + entry_piece(e, 3);
    let f5 = f4 + entry_piece(e, 4);
    let f6 = f5 + entry_piece(e, 5);
    let f7 = f6 + entry_piece(e, 6);
    let f8 = f7 + entry_piece(e, 7);
    assert(entry_fields(e) == f8);
    assert(entry_tail(e, 8) == seq!['}']);
    assert forall|k: int| 0 <= k < 8 implies #[trigger] entry_tail(e, k) == entry_piece(e, k)
        + entry_tail(e, k + 1) by {}
    assert(f8 + seq!['}'] =~= f7 + entry_tail(e, 7));
    assert(f7 + entry_tail(e, 7) =~= f6 + entry_tail(e, 6));
    assert(f6 + entry_tail(e, 6) =~= f5 + entry_tail(e, 5));
    assert(f5 + entry_tail(e, 5) =~= f4 + entry_tail(e, 4));
    assert(f4 + entry_tail(e, 4) =~= f3 + entry_tail(e, 3));
    assert(f3 + entry_tail(e, 3) =~= f2 + entry_tail(e, 2));
    assert(f2 + entry_tail(e, 2) =~= f1 + entry_tail(e, 1));
    assert(f1 + entry_tail(e, 1) == entry_tail(e, 0));
}

proof fn lemma_entry_peel_literal(e1: SpecEntry, e2: SpecEntry, k: int)
    requires
        0 <= k < 8,
        k % 2 == 0,
        entry_tail(e1, k) == entry_tail(e2, k),
    ensures
        entry_tail(e1, k + 1) == entry_tail(e2, k + 1),
{
    assert(entry_piece(e1, k) == entry_piece(e2, k));
    lemma_skip_common(entry_piece(e1, k), entry_tail(e1, k + 1), entry_tail(e2, k + 1));
}

/// An entry's fields can be read back into the entry.
proof fn lemma_entry_tail_unique(e1: SpecEntry, e2: SpecEntry)
    requires
        entry_tail(e1, 0) == entry_tail(e2, 0),
    ensures
        e1 == e2,
{
    lemma_entry_peel_literal(e1, e2, 0);
    lemma_peel_str(e1.kind, e2.kind, entry_tail(e1, 2), entry_tail(e2, 2));
    lemma_entry_peel_literal(e1, e2, 2);
    lemma_peel_str(e1.author, e2.author, entry_tail(e1, 4), entry_tail(e2, 4));
    lemma_entry_peel_literal(e1, e2, 4);
    reveal_strlit(",\"text\":");
    assert(entry_tail(e1, 6)[0] == ',');
    assert(entry_tail(e2, 6)[0] == ',');
    lemma_dec_unique(e1.timestamp as nat, e2.timestamp as nat, entry_tail(e1, 6), entry_tail(e2, 6));
    lemma_entry_peel_literal(e1, e2, 6);
    lemma_peel_str(e1.text, e2.text, entry_tail(e1, 8), entry_tail(e2, 8));
}

/// The stored form of an object can be read back: different objects are
/// stored as different JSON.
pub proof fn law_stored_form_determines_object(o1: SpecObject, o2: SpecObject)
    requires
        object_json(o1) == object_json(o2),
    ensures
        o1 == o2,
{
    let pe = "{\"type\":\"entry\""@;
    let pc = "{\"type\":\"commit\","@;
    reveal_strlit("{\"type\":\"entry\"");
    reveal_strlit("{\"type\":\"commit\",");
    match (o1, o2) {
        (SpecObject::Entry(e1), SpecObject::Entry(e2)) => {
            lemma_entry_fields_layout(e1);
            lemma_entry_fields_layout(e2);
            assert(object_json(o1) =~= pe + entry_tail(e1, 0));
            assert(object_json(o2) =~= pe + entry_tail(e2, 0));
            lemma_skip_common(pe, entry_tail(e1, 0), entry_tail(e2, 0));
            lemma_entry_tail_unique(e1, e2);
        },
        (SpecObject::Commit(c1), SpecObject::Commit(c2)) => {
            lemma_commit_fields_layout(c1);
            lemma_commit_fields_layout(c2);
            assert(object_json(o1) =~= pc + tail(c1, 0));
            assert(object_json(o2) =~= pc + tail(c2, 0));
            lemma_skip_common(pc, tail(c1, 0), tail(c2, 0));
            lemma_commit_tail_unique(c1, c2);
        },
        (SpecObject::Entry(e1), SpecObject::Commit(c2)) => {
            assert(object_json(o1)[9] == 'e');
            assert(object_json(o2)[9] == 'c');
        },
        (SpecObject::Commit(c1), SpecObject::Entry(e2)) => {
            assert(object_json(o1)[9] == 'c');
            assert(object_json(o2)[9] == 'e');
        },
    }
}

} // verus!
