//! Byte-level text operations the row parser is built from: whitespace
//! trimming, splitting on a delimiter byte, canonical family names
//! (the prefix of a token before its first apostrophe), and counting
//! occurrences of a name in a token list.

use vstd::prelude::*;

verus! {

/// Bytes treated as whitespace when a field is trimmed: space, tab,
/// carriage return and line feed.
pub open spec fn is_space(b: u8) -> bool {
    b == 32 || b == 9 || b == 13 || b == 10
}

fn is_space_byte(b: u8) -> (r: bool)
    ensures
        r == is_space(b),
{
    b == 32 || b == 9 || b == 13 || b == 10
}

/// A field with leading and trailing whitespace removed.
pub open spec fn trim_spec(s: Seq<u8>) -> Seq<u8>
    decreases s.len(),
{
    if s.len() == 0 {
        s
    } else if is_space(s[0]) {
        trim_spec(s.subrange(1, s.len() as int))
    } else if is_space(s[s.len() - 1]) {
        trim_spec(s.subrange(0, s.len() - 1))
    } else {
        s
    }
}

pub proof fn lemma_trim_len(s: Seq<u8>)
    ensures
        trim_spec(s).len() <= s.len(),
    decreases s.len(),
{
    if s.len() == 0 {
    } else if is_space(s[0]) {
        lemma_trim_len(s.subrange(1, s.len() as int));
    } else if is_space(s[s.len() - 1]) {
        lemma_trim_len(s.subrange(0, s.len() - 1));
    }
}

pub fn trim_bytes(s: &Vec<u8>) -> (r: Vec<u8>)
    ensures
        r@ == trim_spec(s@),
{
    let mut lo: usize = 0;
    let mut hi: usize = s.len();
    proof {
        assert(s@.subrange(0, s@.len() as int) =~= s@);
    }
    while lo < hi && is_space_byte(s[lo])
        invariant
            lo <= hi <= s@.len(),
            trim_spec(s@) == trim_spec(s@.subrange(lo as int, hi as int)),
        decreases hi - lo,
    {
        proof {
            let sub = s@.subrange(lo as int, hi as int);
            assert(sub.subrange(1, sub.len() as int) =~= s@.subrange(lo as int + 1, hi as int));
        }
        lo = lo + 1;
    }
    while lo < hi && is_space_byte(s[hi - 1])
        invariant
            lo <= hi <= s@.len(),
            trim_spec(s@) == trim_spec(s@.subrange(lo as int, hi as int)),
            lo < hi ==> !is_space(s@[lo as int]),
        decreases hi,
    {
        proof {
            let sub = s@.subrange(lo as int, hi as int);
            assert(sub.subrange(0, sub.len() - 1) =~= s@.subrange(lo as int, hi - 1));
        }
        hi = hi - 1;
    }
    let mut r: Vec<u8> = Vec::new();
    let mut i: usize = lo;
    while i < hi
        invariant
            lo <= i <= hi <= s@.len(),
            r@ == s@.subrange(lo as int, i as int),
        decreases hi - i,
    {
        r.push(s[i]);
        proof {
            assert(s@.subrange(lo as int, i + 1 as int) =~= s@.subrange(lo as int, i as int)
                .push(s@[i as int]));
        }
        i = i + 1;
    }
    proof {
        let sub = s@.subrange(lo as int, hi as int);
        assert(r@ =~= sub);
        if lo == hi {
            assert(trim_spec(sub) =~= sub);
        }
    }
    r
}

/// The segments of `s` between occurrences of the delimiter `d`, in order;
/// a string with no delimiter yields one segment, and every delimiter adds
/// one more, so the result is never empty.
pub open spec fn split_spec(s: Seq<u8>, d: u8) -> Seq<Seq<u8>>
    decreases s.len(),
{
    if s.len() == 0 {
        seq![Seq::empty()]
    } else {
        let rest = split_spec(s.drop_last(), d);
        if s.last() == d {
            rest.push(Seq::empty())
        } else {
            rest.update(rest.len() - 1, rest.last().push(s.last()))
        }
    }
}

/// Total length of all segments in a split, used to bound how many name
/// tokens one row can produce.
pub open spec fn sum_lens(parts: Seq<Seq<u8>>) -> int
    decreases parts.len(),
{
    if parts.len() == 0 {
        0
    } else {
        sum_lens(parts.drop_last()) + parts.last().len()
    }
}

pub proof fn lemma_split_bounds(s: Seq<u8>, d: u8)
    ensures
        split_spec(s, d).len() >= 1,
        split_spec(s, d).len() <= s.len() + 1,
        sum_lens(split_spec(s, d)) <= s.len(),
        forall|i: int|
            0 <= i < split_spec(s, d).len() ==> #[trigger] split_spec(s, d)[i].len() <= s.len(),
    decreases s.len(),
{
    if s.len() == 0 {
        let parts = split_spec(s, d);
        assert(parts =~= seq![Seq::<u8>::empty()]);
        assert(parts.drop_last() =~= Seq::<Seq<u8>>::empty());
        assert(sum_lens(Seq::<Seq<u8>>::empty()) == 0);
        assert(sum_lens(parts) == 0);
    } else {
        lemma_split_bounds(s.drop_last(), d);
        let rest = split_spec(s.drop_last(), d);
        if s.last() == d {
            let parts = rest.push(Seq::<u8>::empty());
            assert(parts.drop_last() =~= rest);
            assert(sum_lens(parts) == sum_lens(rest));
        } else {
            let parts = rest.update(rest.len() - 1, rest.last().push(s.last()));
            assert(parts.drop_last() =~= rest.drop_last());
            assert(parts.last() =~= rest.last().push(s.last()));
            assert(sum_lens(parts) == sum_lens(rest.drop_last()) + rest.last().len() + 1);
            assert(sum_lens(rest) == sum_lens(rest.drop_last()) + rest.last().len());
        }
    }
}

pub fn split_bytes(s: &Vec<u8>, d: u8) -> (r: Vec<Vec<u8>>)
    ensures
        r.deep_view() == split_spec(s@, d),
        r@.len() == split_spec(s@, d).len(),
{
    let mut parts: Vec<Vec<u8>> = Vec::new();
    let mut cur: Vec<u8> = Vec::new();
    let mut i: usize = 0;
    proof {
        assert(s@.subrange(0, 0) =~= Seq::<u8>::empty());
        assert(parts.deep_view().push(cur@) =~~= split_spec(s@.subrange(0, 0), d));
    }
    while i < s.len()
        invariant
            i <= s@.len(),
            parts.deep_view().push(cur@) == split_spec(s@.subrange(0, i as int), d),
        decreases s@.len() - i,
    {
        let ghost pre = s@.subrange(0, i as int);
        let ghost pre1 = s@.subrange(0, i + 1 as int);
        proof {
            assert(pre1.drop_last() =~= pre);
            assert(pre1.last() == s@[i as int]);
        }
        let b = s[i];
        let ghost old_dv = parts.deep_view();
        let ghost old_cur = cur@;
        if b == d {
            parts.push(cur);
            cur = Vec::new();
            proof {
                assert(parts.deep_view() =~~= old_dv.push(old_cur));
                assert(split_spec(pre1, d) =~= old_dv.push(old_cur).push(Seq::<u8>::empty()));
                assert(parts.deep_view().push(cur@) =~~= old_dv.push(old_cur).push(
                    Seq::<u8>::empty(),
                ));
            }
        } else {
            cur.push(b);
            proof {
                let whole = old_dv.push(old_cur);
                assert(split_spec(pre1, d) =~= whole.update(
                    whole.len() - 1,
                    whole.last().push(s@[i as int]),
                ));
                assert(parts.deep_view().push(cur@) =~~= whole.update(
                    whole.len() - 1,
                    whole.last().push(s@[i as int]),
                ));
            }
        }
        i = i + 1;
    }
    let ghost old_dv = parts.deep_view();
    let ghost old_cur = cur@;
    parts.push(cur);
    proof {
        assert(s@.subrange(0, s@.len() as int) =~= s@);
        assert(parts.deep_view() =~~= old_dv.push(old_cur));
    }
    parts
}

/// The canonical family name of a token: its prefix before the first
/// apostrophe, or the whole token when it has none.
pub open spec fn canon_spec(t: Seq<u8>) -> Seq<u8>
    decreases t.len(),
{
    if t.len() == 0 {
        t
    } else if t[0] == 39 {
        Seq::empty()
    } else {
        seq![t[0]] + canon_spec(t.subrange(1, t.len() as int))
    }
}

proof fn lemma_canon_prefix(t: Seq<u8>, p: int)
    requires
        0 <= p <= t.len(),
        forall|j: int| 0 <= j < p ==> t[j] != 39,
        p == t.len() || t[p] == 39,
    ensures
        canon_spec(t) == t.subrange(0, p),
    decreases p,
{
    if p == 0 {
        assert(canon_spec(t) =~= t.subrange(0, 0));
    } else {
        let rest = t.subrange(1, t.len() as int);
        lemma_canon_prefix(rest, p - 1);
        assert(rest.subrange(0, p - 1) =~= t.subrange(1, p));
        assert(seq![t[0]] + t.subrange(1, p) =~= t.subrange(0, p));
    }
}

pub fn canon_token(t: &Vec<u8>) -> (r: Vec<u8>)
    ensures
        r@ == canon_spec(t@),
{
    let mut p: usize = 0;
    while p < t.len() && t[p] != 39
        invariant
            p <= t@.len(),
            forall|j: int| 0 <= j < p ==> t@[j] != 39,
        decreases t@.len() - p,
    {
        p = p + 1;
    }
    let mut r: Vec<u8> = Vec::new();
    let mut i: usize = 0;
    while i < p
        invariant
            i <= p <= t@.len(),
            r@ == t@.subrange(0, i as int),
        decreases p - i,
    {
        r.push(t[i]);
        proof {
            assert(t@.subrange(0, i + 1 as int) =~= t@.subrange(0, i as int).push(t@[i as int]));
        }
        i = i + 1;
    }
    proof {
        lemma_canon_prefix(t@, p as int);
    }
    r
}

pub fn bytes_eq(a: &Vec<u8>, b: &Vec<u8>) -> (r: bool)
    ensures
        r == (a@ == b@),
{
    if a.len() != b.len() {
        return false;
    }
    let mut i: usize = 0;
    while i < a.len()
        invariant
            i <= a@.len(),
            a@.len() == b@.len(),
            forall|j: int| 0 <= j < i ==> a@[j] == b@[j],
        decreases a@.len() - i,
    {
        if a[i] != b[i] {
            return false;
        }
        i = i + 1;
    }
    proof {
        assert(a@ =~= b@);
    }
    true
}

pub fn copy_bytes(v: &Vec<u8>) -> (r: Vec<u8>)
    ensures
        r@ == v@,
{
    let mut r: Vec<u8> = Vec::new();
    let mut i: usize = 0;
    while i < v.len()
        invariant
            i <= v@.len(),
            r@ == v@.subrange(0, i as int),
        decreases v@.len() - i,
    {
        r.push(v[i]);
        proof {
            assert(v@.subrange(0, i + 1 as int) =~= v@.subrange(0, i as int).push(v@[i as int]));
        }
        i = i + 1;
    }
    proof {
        assert(r@ =~= v@);
    }
    r
}

/// The name tokens of one trimmed field: none when the field is blank,
/// else its comma-separated segments (empty segments from stray commas
/// count as the empty name).
pub open spec fn field_toks(field: Seq<u8>) -> Seq<Seq<u8>> {
    let f = trim_spec(field);
    if f.len() == 0 {
        Seq::empty()
    } else {
        split_spec(f, 44)
    }
}

pub proof fn lemma_field_toks_len(field: Seq<u8>)
    ensures
        field_toks(field).len() <= field.len() + 1,
{
    lemma_trim_len(field);
    if trim_spec(field).len() != 0 {
        lemma_split_bounds(trim_spec(field), 44);
    }
}

pub fn field_tokens(field: &Vec<u8>) -> (r: Vec<Vec<u8>>)
    ensures
        r.deep_view() == field_toks(field@),
{
    let f = trim_bytes(field);
    if f.len() == 0 {
        let r: Vec<Vec<u8>> = Vec::new();
        proof {
            assert(r.deep_view() =~~= field_toks(field@));
        }
        r
    } else {
        split_bytes(&f, 44)
    }
}

/// How many tokens in `toks` are exactly `name`.
pub open spec fn occ(toks: Seq<Seq<u8>>, name: Seq<u8>) -> nat
    decreases toks.len(),
{
    if toks.len() == 0 {
        0
    } else {
        occ(toks.drop_last(), name) + if toks.last() == name {
            1nat
        } else {
            0nat
        }
    }
}

/// How many tokens in `toks` have `fam` as their canonical family name.
pub open spec fn occ_canon(toks: Seq<Seq<u8>>, fam: Seq<u8>) -> nat
    decreases toks.len(),
{
    if toks.len() == 0 {
        0
    } else {
        occ_canon(toks.drop_last(), fam) + if canon_spec(toks.last()) == fam {
            1nat
        } else {
            0nat
        }
    }
}

pub proof fn lemma_occ_le_len(toks: Seq<Seq<u8>>, name: Seq<u8>)
    ensures
        occ(toks, name) <= toks.len(),
    decreases toks.len(),
{
    if toks.len() > 0 {
        lemma_occ_le_len(toks.drop_last(), name);
    }
}

pub proof fn lemma_occ_canon_le_len(toks: Seq<Seq<u8>>, fam: Seq<u8>)
    ensures
        occ_canon(toks, fam) <= toks.len(),
    decreases toks.len(),
{
    if toks.len() > 0 {
        lemma_occ_canon_le_len(toks.drop_last(), fam);
    }
}

/// Counting over one more token of a prefix.
pub proof fn lemma_occ_take_step(toks: Seq<Seq<u8>>, n: int, name: Seq<u8>)
    requires
        0 <= n < toks.len(),
    ensures
        occ(toks.take(n + 1), name) == occ(toks.take(n), name) + if toks[n] == name {
            1int
        } else {
            0int
        },
        occ_canon(toks.take(n + 1), name) == occ_canon(toks.take(n), name) + if canon_spec(
            toks[n],
        ) == name {
            1int
        } else {
            0int
        },
{
    assert(toks.take(n + 1).drop_last() =~= toks.take(n));
    assert(toks.take(n + 1).last() == toks[n]);
}

pub proof fn lemma_occ_take_all(toks: Seq<Seq<u8>>, name: Seq<u8>)
    ensures
        occ(toks.take(toks.len() as int), name) == occ(toks, name),
        occ_canon(toks.take(toks.len() as int), name) == occ_canon(toks, name),
{
    assert(toks.take(toks.len() as int) =~= toks);
}

} // verus!
