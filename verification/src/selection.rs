//! The set of absolute paths the user picked for backup: ordered,
//! deduplicated, and free of characters the manifest could not carry.

use vstd::prelude::*;
use vstd::string::*;
use crate::paths::basename_spec;
use crate::text::{lex_lt, lemma_lex_trichotomy, lemma_lex_irrefl, lemma_lex_transitive, str_eq,
    str_lt, find_char};

verus! {

/// A path the archiver can record: non-empty, with a non-empty basename, and
/// without a line break (one manifest line holds one path).
pub open spec fn valid_path(p: Seq<char>) -> bool {
    &&& p.len() > 0
    &&& basename_spec(p).len() > 0
    &&& forall|k: int| 0 <= k < p.len() ==> p[k] != '\n'
}

/// Check that a path can be recorded in a manifest.
pub fn path_is_valid(p: &str) -> (r: bool)
    ensures
        r == valid_path(p@),
{
    if p.unicode_len() == 0 {
        return false;
    }
    let bn = crate::paths::basename(p);
    if bn.as_str().unicode_len() == 0 {
        return false;
    }
    match find_char(p, '\n') {
        Some(_) => false,
        None => true,
    }
}

/// Strictly increasing: sorted, and so without duplicates.
pub open spec fn sorted_strict(s: Seq<Seq<char>>) -> bool {
    forall|i: int, j: int| 0 <= i < j < s.len() ==> lex_lt(s[i], s[j])
}

/// The ordered, deduplicated collection of absolute source paths chosen for
/// one backup run.
pub struct SelectionSet {
    paths: Vec<String>,
}

impl View for SelectionSet {
    type V = Seq<Seq<char>>;

    closed spec fn view(&self) -> Seq<Seq<char>> {
        self.paths.deep_view()
    }
}

impl SelectionSet {
    /// Sorted, duplicate-free, and every path recordable.
    pub open spec fn wf(&self) -> bool {
        &&& sorted_strict(self@)
        &&& forall|i: int| 0 <= i < self@.len() ==> valid_path(#[trigger] self@[i])
    }

    pub fn new() -> (r: SelectionSet)
        ensures
            r@ == Seq::<Seq<char>>::empty(),
            r.wf(),
    {
        let r = SelectionSet { paths: Vec::new() };
        proof {
            assert(r@ =~= Seq::<Seq<char>>::empty());
        }
        r
    }

    pub fn len(&self) -> (r: usize)
        ensures
            r == self@.len(),
    {
        self.paths.len()
    }

    pub fn get(&self, i: usize) -> (r: &String)
        requires
            i < self@.len(),
        ensures
            r@ == self@[i as int],
    {
        &self.paths[i]
    }

    /// Insert a path, keeping the collection sorted and duplicate-free.
    /// A path already present is not inserted twice.
    pub fn add(&mut self, p: String)
        requires
            old(self).wf(),
            valid_path(p@),
        ensures
            final (self).wf(),
            forall|q: Seq<char>|
                final (self)@.contains(q) <==> (old(self)@.contains(q) || q == p@),
    {
        let ghost pre = self@;
        let mut i: usize = 0;
        while i < self.paths.len() && str_lt(self.paths[i].as_str(), p.as_str())
            invariant
                i <= self@.len(),
                self@ == pre,
                forall|k: int| 0 <= k < i ==> lex_lt(pre[k], p@),
            decreases self@.len() - i,
        {
            proof {
                assert(self@[i as int] == self.paths@[i as int]@);
            }
            i = i + 1;
        }
        if i < self.paths.len() && str_eq(self.paths[i].as_str(), p.as_str()) {
            proof {
                assert(pre[i as int] == p@);
                assert(pre.contains(p@));
            }
            return ;
        }
        proof {
            if i < pre.len() {
                assert(pre[i as int] != p@);
                lemma_lex_trichotomy(pre[i as int], p@);
            }
            lemma_lex_irrefl(p@);
        }
        self.paths.insert(i, p);
        proof {
            let post = self@;
            assert(post.len() == pre.len() + 1);
            assert(post[i as int] == p@);
            assert(forall|k: int| 0 <= k < i ==> post[k] == pre[k]);
            assert(forall|k: int| i < k < post.len() ==> post[k] == pre[k - 1]);
            assert forall|a: int, b: int| 0 <= a < b < post.len() implies lex_lt(
                post[a],
                post[b],
            ) by {
                if a == i && b - 1 > i {
                    lemma_lex_transitive(p@, pre[i as int], pre[b - 1]);
                }
            }
            assert forall|q: Seq<char>| post.contains(q) implies (pre.contains(q) || q == p@) by {
                let w = choose|w: int| 0 <= w < post.len() && post[w] == q;
                if w < i {
                    assert(pre[w] == q);
                } else if w > i {
                    assert(pre[w - 1] == q);
                }
            }
            assert forall|q: Seq<char>| pre.contains(q) || q == p@ implies post.contains(q) by {
                if pre.contains(q) {
                    let w = choose|w: int| 0 <= w < pre.len() && pre[w] == q;
                    if w < i {
                        assert(post[w] == q);
                    } else {
                        assert(post[w + 1] == q);
                    }
                } else {
                    assert(post[i as int] == q);
                }
            }
        }
    }
}

} // verus!
