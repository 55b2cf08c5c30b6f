//! Character-level text utilities: splitting on separators, substring search,
//! prefix tests and decimal rendering.  Everything is specified over the
//! `Seq<char>` view of strings.

use vstd::prelude::*;
use vstd::string::*;

verus! {

/// Which characters a split treats as a separator.
#[derive(Clone, Copy, PartialEq, Eq, Structural)]
pub enum SepMode {
    /// Either `/` or `\` — used for absolute source paths.
    AnySep,
    /// Only `/` — used for archive entry paths and tree paths.
    Slash,
    /// Only `\n` — used for manifest lines.
    Newline,
}

pub open spec fn is_sep_char(m: SepMode, c: char) -> bool {
    match m {
        SepMode::AnySep => c == '/' || c == '\\',
        SepMode::Slash => c == '/',
        SepMode::Newline => c == '\n',
    }
}

pub fn is_sep_exec(m: SepMode, c: char) -> (r: bool)
    ensures
        r == is_sep_char(m, c),
{
    match m {
        SepMode::AnySep => c == '/' || c == '\\',
        SepMode::Slash => c == '/',
        SepMode::Newline => c == '\n',
    }
}

/// The segments of `s` when cut at every separator.  A string with no
/// separator is one segment; every separator ends the segment before it, so
/// `"a/b"` gives `["a", "b"]` and `"a/"` gives `["a", ""]`.
pub open spec fn split_spec(s: Seq<char>, m: SepMode) -> Seq<Seq<char>>
    decreases s.len(),
{
    if s.len() == 0 {
        seq![Seq::<char>::empty()]
    } else if is_sep_char(m, s.last()) {
        split_spec(s.drop_last(), m).push(Seq::<char>::empty())
    } else {
        let r = split_spec(s.drop_last(), m);
        r.update(r.len() - 1, r.last().push(s.last()))
    }
}

pub proof fn lemma_split_len(s: Seq<char>, m: SepMode)
    ensures
        split_spec(s, m).len() >= 1,
    decreases s.len(),
{
    if s.len() > 0 {
        lemma_split_len(s.drop_last(), m);
    }
}

/// No segment of a split contains a separator character.
pub proof fn lemma_split_no_sep(s: Seq<char>, m: SepMode)
    ensures
        forall|i: int, j: int|
            0 <= i < split_spec(s, m).len() && 0 <= j < split_spec(s, m)[i].len()
                ==> !is_sep_char(m, split_spec(s, m)[i][j]),
    decreases s.len(),
{
    if s.len() > 0 {
        lemma_split_no_sep(s.drop_last(), m);
        lemma_split_len(s.drop_last(), m);
    }
}

/// A string without separators is a single segment: itself.
pub proof fn lemma_split_sepless(s: Seq<char>, m: SepMode)
    requires
        forall|k: int| 0 <= k < s.len() ==> !is_sep_char(m, s[k]),
    ensures
        split_spec(s, m) == seq![s],
    decreases s.len(),
{
    if s.len() == 0 {
        assert(split_spec(s, m) =~~= seq![s]);
    } else {
        lemma_split_sepless(s.drop_last(), m);
        assert(split_spec(s, m) =~~= seq![s]);
    }
}

/// Appending a separator appends one empty segment.
pub proof fn lemma_split_push_sep(s: Seq<char>, c: char, m: SepMode)
    requires
        is_sep_char(m, c),
    ensures
        split_spec(s.push(c), m) == split_spec(s, m).push(Seq::<char>::empty()),
{
    assert(s.push(c).drop_last() =~= s);
    assert(s.push(c).last() == c);
}

/// Appending separator-free text extends only the last segment.
pub proof fn lemma_split_append_sepless(a: Seq<char>, b: Seq<char>, m: SepMode)
    requires
        forall|k: int| 0 <= k < b.len() ==> !is_sep_char(m, b[k]),
    ensures
        split_spec(a + b, m) == split_spec(a, m).update(
            split_spec(a, m).len() - 1,
            split_spec(a, m).last() + b,
        ),
    decreases b.len(),
{
    lemma_split_len(a, m);
    if b.len() == 0 {
        assert(a + b =~= a);
        assert(split_spec(a, m).last() + b =~= split_spec(a, m).last());
        assert(split_spec(a, m).update(
            split_spec(a, m).len() - 1,
            split_spec(a, m).last() + b,
        ) =~~= split_spec(a, m));
    } else {
        lemma_split_append_sepless(a, b.drop_last(), m);
        assert(a + b =~= (a + b.drop_last()).push(b.last()));
        assert((a + b).drop_last() =~= a + b.drop_last());
        let r = split_spec(a + b.drop_last(), m);
        assert(r.len() == split_spec(a, m).len());
        assert(r.last() == split_spec(a, m).last() + b.drop_last());
        assert(r.last().push(b.last()) =~= split_spec(a, m).last() + b);
        assert(split_spec(a + b, m) =~~= split_spec(a, m).update(
            split_spec(a, m).len() - 1,
            split_spec(a, m).last() + b,
        ));
    }
}

/// Cut `s` into its segments.
pub fn split_string(s: &str, m: SepMode) -> (r: Vec<String>)
    ensures
        r.deep_view() == split_spec(s@, m),
        r.len() >= 1,
{
    let n: usize = s.unicode_len();
    let mut r: Vec<String> = Vec::new();
    let mut start: usize = 0;
    let mut i: usize = 0;
    proof {
        assert(s@.take(0) =~= Seq::<char>::empty());
        assert(split_spec(s@.take(0), m) =~~= r.deep_view().push(s@.subrange(0, 0)));
    }
    while i < n
        invariant
            start <= i <= n,
            n == s@.len(),
            split_spec(s@.take(i as int), m) == r.deep_view().push(
                s@.subrange(start as int, i as int),
            ),
        decreases n - i,
    {
        let ghost pre = s@.take(i as int);
        let ghost post = s@.take(i + 1 as int);
        proof {
            assert(post.drop_last() =~= pre);
            assert(post.last() == s@[i as int]);
        }
        let c = s.get_char(i);
        if is_sep_exec(m, c) {
            let seg = s.substring_char(start, i);
            let owned = seg.to_owned();
            proof {
                assert(split_spec(post, m) == split_spec(pre, m).push(Seq::<char>::empty()));
            }
            r.push(owned);
            proof {
                assert(r.deep_view() =~~= split_spec(pre, m));
                assert(s@.subrange(i + 1 as int, i + 1 as int) =~= Seq::<char>::empty());
            }
            start = i + 1;
        } else {
            proof {
                let rr = split_spec(pre, m);
                lemma_split_len(pre, m);
                assert(rr == r.deep_view().push(s@.subrange(start as int, i as int)));
                assert(rr.len() == r.deep_view().len() + 1);
                assert(rr.last() == s@.subrange(start as int, i as int));
                assert(split_spec(post, m) == rr.update(rr.len() - 1, rr.last().push(post.last())));
                assert(s@.subrange(start as int, i as int).push(s@[i as int]) =~= s@.subrange(
                    start as int,
                    i + 1 as int,
                ));
                assert(rr.update(rr.len() - 1, rr.last().push(post.last())) =~~= r.deep_view().push(
                    s@.subrange(start as int, i + 1 as int),
                ));
            }
        }
        i = i + 1;
    }
    let seg = s.substring_char(start, n);
    let owned = seg.to_owned();
    r.push(owned);
    proof {
        assert(s@.take(n as int) =~= s@);
        assert(r.deep_view() =~~= split_spec(s@, m));
    }
    r
}

/// True when `p` is a prefix (at character level) of `s`.
pub open spec fn is_prefix_of(p: Seq<char>, s: Seq<char>) -> bool {
    p.len() <= s.len() && s.take(p.len() as int) == p
}

pub fn starts_with_str(s: &str, p: &str) -> (r: bool)
    ensures
        r == is_prefix_of(p@, s@),
{
    let n: usize = s.unicode_len();
    let pn: usize = p.unicode_len();
    if pn > n {
        proof {
            assert(!is_prefix_of(p@, s@));
        }
        return false;
    }
    let mut i: usize = 0;
    while i < pn
        invariant
            i <= pn <= n,
            n == s@.len(),
            pn == p@.len(),
            forall|k: int| 0 <= k < i ==> s@[k] == p@[k],
        decreases pn - i,
    {
        if s.get_char(i) != p.get_char(i) {
            proof {
                assert(s@.take(pn as int)[i as int] != p@[i as int]);
            }
            return false;
        }
        i = i + 1;
    }
    proof {
        assert(s@.take(pn as int) =~= p@);
    }
    true
}

pub fn str_eq(a: &str, b: &str) -> (r: bool)
    ensures
        r == (a@ == b@),
{
    let na: usize = a.unicode_len();
    let nb: usize = b.unicode_len();
    if na != nb {
        return false;
    }
    let mut i: usize = 0;
    while i < na
        invariant
            i <= na,
            na == a@.len(),
            na == b@.len(),
            forall|k: int| 0 <= k < i ==> a@[k] == b@[k],
        decreases na - i,
    {
        if a.get_char(i) != b.get_char(i) {
            return false;
        }
        i = i + 1;
    }
    proof {
        assert(a@ =~= b@);
    }
    true
}

/// First index at which character `c` occurs in `s`.
pub fn find_char(s: &str, c: char) -> (r: Option<usize>)
    ensures
        match r {
            Some(i) => i < s@.len() && s@[i as int] == c && forall|k: int|
                0 <= k < i ==> s@[k] != c,
            None => forall|k: int| 0 <= k < s@.len() ==> s@[k] != c,
        },
{
    let n: usize = s.unicode_len();
    let mut i: usize = 0;
    while i < n
        invariant
            i <= n,
            n == s@.len(),
            forall|k: int| 0 <= k < i ==> s@[k] != c,
        decreases n - i,
    {
        if s.get_char(i) == c {
            return Some(i);
        }
        i = i + 1;
    }
    None
}

/// Last index at which a separator of mode `m` occurs in `s`.
pub fn rfind_sep(s: &str, m: SepMode) -> (r: Option<usize>)
    ensures
        match r {
            Some(i) => i < s@.len() && is_sep_char(m, s@[i as int]) && forall|k: int|
                i < k < s@.len() ==> !is_sep_char(m, s@[k]),
            None => forall|k: int| 0 <= k < s@.len() ==> !is_sep_char(m, s@[k]),
        },
{
    let n: usize = s.unicode_len();
    let mut i: usize = n;
    while i > 0
        invariant
            i <= n,
            n == s@.len(),
            forall|k: int| i <= k < s@.len() ==> !is_sep_char(m, s@[k]),
        decreases i,
    {
        i = i - 1;
        let c = s.get_char(i);
        if is_sep_exec(m, c) {
            return Some(i);
        }
    }
    None
}

/// `t` occurs in `s` starting at index `j`.
pub open spec fn occurs_at(s: Seq<char>, t: Seq<char>, j: int) -> bool {
    0 <= j && j + t.len() <= s.len() && s.subrange(j, j + t.len()) == t
}

/// True when `t` occurs somewhere in `s`.
pub open spec fn contains_seq(s: Seq<char>, t: Seq<char>) -> bool {
    exists|j: int| occurs_at(s, t, j)
}

/// Search for the first occurrence of `t` in `s`.
pub fn find_substr(s: &str, t: &str) -> (r: Option<usize>)
    ensures
        match r {
            Some(i) => occurs_at(s@, t@, i as int) && forall|j: int|
                0 <= j < i ==> !occurs_at(s@, t@, j),
            None => forall|j: int| !occurs_at(s@, t@, j),
        },
        r is Some <==> contains_seq(s@, t@),
{
    let n: usize = s.unicode_len();
    let tn: usize = t.unicode_len();
    if tn > n {
        proof {
            assert forall|j: int| !occurs_at(s@, t@, j) by {}
        }
        return None;
    }
    if tn == 0 {
        proof {
            assert(s@.subrange(0, 0) =~= t@);
            assert(occurs_at(s@, t@, 0));
        }
        return Some(0);
    }
    let mut i: usize = 0;
    while i <= n - tn
        invariant
            i <= n - tn + 1,
            1 <= tn <= n,
            n == s@.len(),
            tn == t@.len(),
            forall|j: int| 0 <= j < i ==> !occurs_at(s@, t@, j),
        decreases n - tn - i + 1,
    {
        let mut k: usize = 0;
        let mut matched: bool = true;
        while k < tn
            invariant
                k <= tn,
                i + tn <= n,
                n == s@.len(),
                tn == t@.len(),
                matched ==> forall|q: int| 0 <= q < k ==> s@[i + q] == t@[q],
                !matched ==> !occurs_at(s@, t@, i as int),
            decreases tn - k,
        {
            if s.get_char(i + k) != t.get_char(k) {
                proof {
                    if occurs_at(s@, t@, i as int) {
                        assert(s@.subrange(i as int, i + t@.len())[k as int] == t@[k as int]);
                    }
                }
                matched = false;
                k = tn;
            } else {
                k = k + 1;
            }
        }
        if matched {
            proof {
                assert(s@.subrange(i as int, i + t@.len()) =~= t@);
                assert(occurs_at(s@, t@, i as int));
            }
            return Some(i);
        }
        i = i + 1;
    }
    proof {
        assert forall|j: int| !occurs_at(s@, t@, j) by {
            if 0 <= j && j + t@.len() <= s@.len() {
                assert(j < i);
            }
        }
    }
    None
}

/// Strict lexicographic order on character sequences, by code point.
pub open spec fn lex_lt(a: Seq<char>, b: Seq<char>) -> bool
    decreases a.len(),
{
    if b.len() == 0 {
        false
    } else if a.len() == 0 {
        true
    } else if a.first() != b.first() {
        (a.first() as u32) < (b.first() as u32)
    } else {
        lex_lt(a.drop_first(), b.drop_first())
    }
}

/// Two distinct strings are ordered one way or the other.
pub proof fn lemma_lex_trichotomy(a: Seq<char>, b: Seq<char>)
    requires
        a != b,
    ensures
        lex_lt(a, b) || lex_lt(b, a),
        !(lex_lt(a, b) && lex_lt(b, a)),
    decreases a.len(),
{
    if a.len() == 0 || b.len() == 0 {
        if a.len() == 0 && b.len() == 0 {
            assert(a =~= b);
        }
    } else if a.first() != b.first() {
        assert((a.first() as u32) != (b.first() as u32)) by {
            vstd::utf8::char_u32_cast(a.first(), a.first() as u32);
            vstd::utf8::char_u32_cast(b.first(), b.first() as u32);
        }
    } else {
        assert(a.drop_first() != b.drop_first()) by {
            if a.drop_first() == b.drop_first() {
                assert(a.drop_first().len() == a.len() - 1);
                assert(b.drop_first().len() == b.len() - 1);
                assert(a.len() == b.len());
                assert forall|i: int| 0 <= i < a.len() implies a[i] == b[i] by {
                    if i > 0 {
                        assert(a[i] == a.drop_first()[i - 1]);
                        assert(b[i] == b.drop_first()[i - 1]);
                    }
                }
                assert(a =~= b);
            }
        }
        lemma_lex_trichotomy(a.drop_first(), b.drop_first());
    }
}

pub proof fn lemma_lex_irrefl(a: Seq<char>)
    ensures
        !lex_lt(a, a),
    decreases a.len(),
{
    if a.len() > 0 {
        lemma_lex_irrefl(a.drop_first());
    }
}

pub proof fn lemma_lex_transitive(a: Seq<char>, b: Seq<char>, c: Seq<char>)
    requires
        lex_lt(a, b),
        lex_lt(b, c),
    ensures
        lex_lt(a, c),
    decreases a.len(),
{
    if c.len() == 0 || a.len() == 0 {
    } else if b.len() == 0 {
    } else {
        if a.first() == b.first() && b.first() == c.first() {
            lemma_lex_transitive(a.drop_first(), b.drop_first(), c.drop_first());
        }
    }
}

/// Compare two strings lexicographically.
pub fn str_lt(a: &str, b: &str) -> (r: bool)
    ensures
        r == lex_lt(a@, b@),
{
    let na: usize = a.unicode_len();
    let nb: usize = b.unicode_len();
    let mut i: usize = 0;
    proof {
        assert(a@.skip(0) =~= a@);
        assert(b@.skip(0) =~= b@);
    }
    while i < na && i < nb
        invariant
            i <= na,
            i <= nb,
            na == a@.len(),
            nb == b@.len(),
            forall|k: int| 0 <= k < i ==> a@[k] == b@[k],
            lex_lt(a@, b@) == lex_lt(a@.skip(i as int), b@.skip(i as int)),
        decreases na - i,
    {
        let ca = a.get_char(i);
        let cb = b.get_char(i);
        proof {
            assert(a@.skip(i as int).first() == a@[i as int]);
            assert(b@.skip(i as int).first() == b@[i as int]);
            assert(a@.skip(i as int).drop_first() =~= a@.skip(i + 1 as int));
            assert(b@.skip(i as int).drop_first() =~= b@.skip(i + 1 as int));
        }
        if ca != cb {
            return (ca as u32) < (cb as u32);
        }
        i = i + 1;
    }
    proof {
        assert(lex_lt(a@, b@) == lex_lt(a@.skip(i as int), b@.skip(i as int)));
    }
    i < nb
}

/// The character a decimal digit prints as.
pub open spec fn digit_char(d: nat) -> char {
    if d == 0 {
        '0'
    } else if d == 1 {
        '1'
    } else if d == 2 {
        '2'
    } else if d == 3 {
        '3'
    } else if d == 4 {
        '4'
    } else if d == 5 {
        '5'
    } else if d == 6 {
        '6'
    } else if d == 7 {
        '7'
    } else if d == 8 {
        '8'
    } else {
        '9'
    }
}

/// Ordinary decimal rendering of `n`, most significant digit first, no sign,
/// no leading zeros (except for `0` itself).
pub open spec fn dec_spec(n: nat) -> Seq<char>
    decreases n,
{
    if n < 10 {
        seq![digit_char(n)]
    } else {
        dec_spec(n / 10).push(digit_char(n % 10))
    }
}

fn digit_str(d: u64) -> (r: &'static str)
    requires
        d < 10,
    ensures
        r@ == seq![digit_char(d as nat)],
{
    proof {
        reveal_strlit("0");
        reveal_strlit("1");
        reveal_strlit("2");
        reveal_strlit("3");
        reveal_strlit("4");
        reveal_strlit("5");
        reveal_strlit("6");
        reveal_strlit("7");
        reveal_strlit("8");
        reveal_strlit("9");
    }
    let r = match d {
        0 => "0",
        1 => "1",
        2 => "2",
        3 => "3",
        4 => "4",
        5 => "5",
        6 => "6",
        7 => "7",
        8 => "8",
        _ => "9",
    };
    proof {
        assert(r@ =~= seq![digit_char(d as nat)]);
    }
    r
}

/// Render `n` in decimal.
pub fn u64_to_dec(n: u64) -> (r: String)
    ensures
        r@ == dec_spec(n as nat),
    decreases n,
{
    if n < 10 {
        digit_str(n).to_owned()
    } else {
        let mut s = u64_to_dec(n / 10);
        s.append(digit_str(n % 10));
        proof {
            assert(dec_spec((n / 10) as nat) + seq![digit_char((n % 10) as nat)] =~= dec_spec(
                (n / 10) as nat,
            ).push(digit_char((n % 10) as nat)));
        }
        s
    }
}


/// Index of the first separator in `s`, or `s.len()` when there is none.
pub open spec fn first_sep_idx(s: Seq<char>, m: SepMode) -> int
    decreases s.len(),
{
    if s.len() == 0 {
        0
    } else if is_sep_char(m, s.first()) {
        0
    } else {
        1 + first_sep_idx(s.drop_first(), m)
    }
}

pub proof fn lemma_first_sep_idx(s: Seq<char>, m: SepMode)
    ensures
        0 <= first_sep_idx(s, m) <= s.len(),
        forall|k: int| 0 <= k < first_sep_idx(s, m) ==> !is_sep_char(m, s[k]),
        first_sep_idx(s, m) < s.len() ==> is_sep_char(m, s[first_sep_idx(s, m)]),
    decreases s.len(),
{
    if s.len() > 0 && !is_sep_char(m, s.first()) {
        lemma_first_sep_idx(s.drop_first(), m);
        let d = s.drop_first();
        assert forall|k: int| 0 <= k < first_sep_idx(s, m) implies !is_sep_char(m, s[k]) by {
            if k > 0 {
                assert(s[k] == d[k - 1]);
            }
        }
        if first_sep_idx(s, m) < s.len() {
            assert(s[first_sep_idx(s, m)] == d[first_sep_idx(d, m)]);
        }
    }
}

/// The first separator is where the first separator character stands.
pub proof fn lemma_first_sep_idx_at(s: Seq<char>, m: SepMode, i: int)
    requires
        0 <= i <= s.len(),
        forall|k: int| 0 <= k < i ==> !is_sep_char(m, s[k]),
        i < s.len() ==> is_sep_char(m, s[i]),
    ensures
        first_sep_idx(s, m) == i,
    decreases s.len(),
{
    if s.len() == 0 {
    } else if i == 0 {
    } else {
        let d = s.drop_first();
        assert forall|k: int| 0 <= k < i - 1 implies !is_sep_char(m, d[k]) by {
            assert(d[k] == s[k + 1]);
        }
        if i - 1 < d.len() {
            assert(d[i - 1] == s[i]);
        }
        lemma_first_sep_idx_at(d, m, i - 1);
    }
}

} // verus!
