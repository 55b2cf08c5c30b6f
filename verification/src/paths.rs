//! Path arithmetic: basenames, the user-profile remapping rule, and the
//! prefix relations used when filtering archive entries against a selection.

use vstd::prelude::*;
use vstd::string::*;
use crate::text::{SepMode, is_sep_char, split_spec, split_string, str_eq, starts_with_str, rfind_sep, lemma_split_len, lemma_split_no_sep, lemma_split_sepless, lemma_split_push_sep, lemma_split_append_sepless};

verus! {

/// The last segment of a path, cutting at either separator: the name the
/// item goes by inside the archive.
pub open spec fn basename_spec(s: Seq<char>) -> Seq<char> {
    split_spec(s, SepMode::AnySep).last()
}

/// A basename never contains a separator.
pub proof fn lemma_basename_sepless(s: Seq<char>)
    ensures
        forall|k: int|
            0 <= k < basename_spec(s).len() ==> !is_sep_char(SepMode::AnySep, basename_spec(s)[k]),
{
    lemma_split_no_sep(s, SepMode::AnySep);
    lemma_split_len(s, SepMode::AnySep);
}

/// Compute the basename of a path.
pub fn basename(s: &str) -> (r: String)
    ensures
        r@ == basename_spec(s@),
{
    let n: usize = s.unicode_len();
    match rfind_sep(s, SepMode::AnySep) {
        Some(i) => {
            let sub = s.substring_char(i + 1, n);
            proof {
                let a = s@.take(i + 1);
                let b = s@.subrange(i + 1, n as int);
                assert(a =~= s@.take(i as int).push(s@[i as int]));
                lemma_split_push_sep(s@.take(i as int), s@[i as int], SepMode::AnySep);
                lemma_split_append_sepless(a, b, SepMode::AnySep);
                assert(a + b =~= s@);
                lemma_split_len(a, SepMode::AnySep);
                assert(split_spec(a, SepMode::AnySep).last() =~= Seq::<char>::empty());
                assert(basename_spec(s@) == split_spec(a, SepMode::AnySep).last() + b);
                assert(Seq::<char>::empty() + b =~= b);
            }
            sub.to_owned()
        },
        None => {
            proof {
                lemma_split_sepless(s@, SepMode::AnySep);
            }
            s.to_owned()
        },
    }
}

/// The fixed middle segment of a user-profile root, as in `C:\Users\alice`.
pub open spec fn users_seg() -> Seq<char> {
    seq!['U', 's', 'e', 'r', 's']
}

/// A recorded path begins with a user-profile root when its first segment is
/// a drive root (ending in `:`), its second segment is the fixed users
/// segment, and a non-empty username segment follows.
pub open spec fn matches_profile(s: Seq<char>) -> bool {
    let segs = split_spec(s, SepMode::AnySep);
    &&& segs.len() >= 3
    &&& segs[0].len() >= 1
    &&& segs[0].last() == ':'
    &&& segs[1] == users_seg()
    &&& segs[2].len() >= 1
}

/// Number of characters covered by the profile root: drive segment,
/// separator, users segment, separator, username segment.
pub open spec fn profile_prefix_len(s: Seq<char>) -> int {
    let segs = split_spec(s, SepMode::AnySep);
    segs[0].len() + segs[1].len() + segs[2].len() + 2int
}

/// The remapping rule: a path under a user-profile root is re-rooted onto
/// `home` (keeping everything after the username, separators included); any
/// other path is returned unchanged.
pub open spec fn adjust_spec(s: Seq<char>, home: Seq<char>) -> Seq<char> {
    if matches_profile(s) {
        home + s.skip(profile_prefix_len(s))
    } else {
        s
    }
}

/// Characters taken by the first `k` segments of a split, with one separator
/// charged to each segment.
pub open spec fn prefix_units(ss: Seq<Seq<char>>, k: int) -> int
    decreases k,
{
    if k <= 0 {
        0
    } else {
        prefix_units(ss, k - 1) + ss[k - 1].len() + 1
    }
}

pub proof fn lemma_prefix_units_mono(ss: Seq<Seq<char>>, k1: int, k2: int)
    requires
        0 <= k1 <= k2,
    ensures
        prefix_units(ss, k1) <= prefix_units(ss, k2),
    decreases k2 - k1,
{
    if k1 < k2 {
        lemma_prefix_units_mono(ss, k1, k2 - 1);
    }
}

pub proof fn lemma_prefix_units_congruent(ss1: Seq<Seq<char>>, ss2: Seq<Seq<char>>, k: int)
    requires
        forall|i: int| 0 <= i < k ==> ss1[i] == ss2[i],
    ensures
        prefix_units(ss1, k) == prefix_units(ss2, k),
    decreases k,
{
    if k > 0 {
        lemma_prefix_units_congruent(ss1, ss2, k - 1);
    }
}

/// The segments of a split, each with its separator, cover the whole string
/// and one position more (the last segment has no separator after it).
pub proof fn lemma_prefix_units_total(s: Seq<char>, m: SepMode)
    ensures
        prefix_units(split_spec(s, m), split_spec(s, m).len() as int) == s.len() + 1,
    decreases s.len(),
{
    lemma_split_len(s, m);
    if s.len() == 0 {
        let ss = split_spec(s, m);
        assert(ss.len() == 1);
        assert(prefix_units(ss, 0) == 0);
        assert(prefix_units(ss, 1) == ss[0].len() + 1);
    } else {
        lemma_prefix_units_total(s.drop_last(), m);
        lemma_split_len(s.drop_last(), m);
        let r = split_spec(s.drop_last(), m);
        let ss = split_spec(s, m);
        if is_sep_char(m, s.last()) {
            assert(ss == r.push(Seq::<char>::empty()));
            assert(ss.len() == r.len() + 1);
            lemma_prefix_units_congruent(ss, r, r.len() as int);
            assert(prefix_units(ss, ss.len() as int) == prefix_units(ss, r.len() as int) + ss[
                r.len() as int
            ].len() + 1);
            assert(ss[r.len() as int].len() == 0);
        } else {
            assert(ss == r.update(r.len() - 1, r.last().push(s.last())));
            lemma_prefix_units_congruent(ss, r, r.len() - 1);
            assert(ss.len() == r.len());
            assert(prefix_units(ss, ss.len() as int) == prefix_units(ss, ss.len() - 1) + ss[
                ss.len() - 1
            ].len() + 1);
            assert(prefix_units(r, r.len() as int) == prefix_units(r, r.len() - 1) + r[
                r.len() - 1
            ].len() + 1);
            assert(ss[ss.len() - 1].len() == r[r.len() - 1].len() + 1);
        }
    }
}

/// The profile root fits inside the path it was parsed from.
pub proof fn lemma_profile_prefix_in_range(s: Seq<char>)
    requires
        matches_profile(s),
    ensures
        3 <= profile_prefix_len(s) <= s.len(),
{
    let segs = split_spec(s, SepMode::AnySep);
    lemma_prefix_units_total(s, SepMode::AnySep);
    lemma_prefix_units_mono(segs, 3, segs.len() as int);
    assert(prefix_units(segs, 0) == 0);
    assert(prefix_units(segs, 1) == segs[0].len() + 1);
    assert(prefix_units(segs, 2) == segs[0].len() + segs[1].len() + 2);
    assert(prefix_units(segs, 3) == segs[0].len() + segs[1].len() + segs[2].len() + 3);
}

/// Apply the remapping rule: rewrite `original` onto `current_home` when it
/// begins with a user-profile root, and return it unchanged otherwise.
pub fn adjust(original: &str, current_home: &str) -> (r: String)
    ensures
        r@ == adjust_spec(original@, current_home@),
{
    let n: usize = original.unicode_len();
    let segs = split_string(original, SepMode::AnySep);
    proof {
        reveal_strlit("Users");
        assert("Users"@ =~= users_seg());
    }
    if segs.len() < 3 {
        return original.to_owned();
    }
    let l0: usize = segs[0].as_str().unicode_len();
    let l1: usize = segs[1].as_str().unicode_len();
    let l2: usize = segs[2].as_str().unicode_len();
    let drive_ok: bool = l0 >= 1 && segs[0].as_str().get_char(l0 - 1) == ':';
    let users_ok: bool = str_eq(segs[1].as_str(), "Users");
    let name_ok: bool = l2 >= 1;
    if drive_ok && users_ok && name_ok {
        proof {
            assert(segs.deep_view()[0] == split_spec(original@, SepMode::AnySep)[0]);
            assert(matches_profile(original@));
            lemma_profile_prefix_in_range(original@);
        }
        let pl: usize = l0 + l1 + l2 + 2;
        let rest = original.substring_char(pl, n);
        let mut out = current_home.to_owned();
        out.append(rest);
        proof {
            assert(original@.subrange(pl as int, n as int) =~= original@.skip(
                profile_prefix_len(original@),
            ));
        }
        out
    } else {
        proof {
            assert(!matches_profile(original@));
        }
        original.to_owned()
    }
}

/// `a` names the same tree path as `b` or an ancestor of it, at `/`-separated
/// segment level.
pub open spec fn is_path_prefix(a: Seq<char>, b: Seq<char>) -> bool {
    a == b || (a.len() < b.len() && b.take(a.len() as int) == a && b[a.len() as int] == '/')
}

/// An entry path is covered by a selection when it is one of the selected
/// paths, lies under one, or is an ancestor of one (ancestors must still be
/// created as directories).
pub open spec fn selected_spec(sel: Seq<Seq<char>>, e: Seq<char>) -> bool {
    exists|i: int|
        0 <= i < sel.len() && (is_path_prefix(sel[i], e) || is_path_prefix(e, sel[i]))
}

pub fn path_related(a: &str, b: &str) -> (r: bool)
    ensures
        r == (is_path_prefix(a@, b@) || is_path_prefix(b@, a@)),
{
    let na: usize = a.unicode_len();
    let nb: usize = b.unicode_len();
    if na == nb {
        let e = str_eq(a, b);
        proof {
            if a@ != b@ {
                assert(!is_path_prefix(a@, b@));
                assert(!is_path_prefix(b@, a@));
            }
        }
        e
    } else if na < nb {
        let r = starts_with_str(b, a) && b.get_char(na) == '/';
        proof {
            assert(!is_path_prefix(b@, a@));
        }
        r
    } else {
        let r = starts_with_str(a, b) && a.get_char(nb) == '/';
        proof {
            assert(!is_path_prefix(a@, b@));
        }
        r
    }
}

/// Decide whether an entry path is covered by the selected tree paths.
pub fn entry_selected(sel: &Vec<String>, e: &str) -> (r: bool)
    ensures
        r == selected_spec(sel.deep_view(), e@),
{
    let mut i: usize = 0;
    while i < sel.len()
        invariant
            i <= sel.len(),
            forall|k: int|
                0 <= k < i ==> !(is_path_prefix(sel.deep_view()[k], e@) || is_path_prefix(
                    e@,
                    sel.deep_view()[k],
                )),
        decreases sel.len() - i,
    {
        if path_related(sel[i].as_str(), e) {
            proof {
                assert(sel.deep_view()[i as int] == sel@[i as int]@);
            }
            return true;
        }
        i = i + 1;
    }
    false
}

} // verus!
