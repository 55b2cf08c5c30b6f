//! Manifest ("fingerprint") codec: the text block, embedded in every
//! archive, that validates authenticity and records each top-level
//! selection's original absolute path.
//!
//! Layout: one signature line, one header line, then one line
//! `Folder <index>: <absolute path>` per top-level item, 1-indexed, in
//! selection order.

use vstd::prelude::*;
use vstd::string::*;
use crate::paths::{basename, basename_spec};
use crate::selection::SelectionSet;
use crate::text::{SepMode, split_spec, split_string, find_substr, occurs_at, contains_seq,
    dec_spec, u64_to_dec, digit_char};

verus! {

/// Failure to understand an archive's manifest.
#[derive(Clone, Copy, PartialEq, Eq, Structural, Debug)]
pub enum FormatError {
    /// The signature token is missing: the file is not one of our archives.
    InvalidFingerprint,
}

pub open spec fn nl() -> Seq<char> {
    seq!['\n']
}

pub open spec fn colon_space() -> Seq<char> {
    seq![':', ' ']
}

/// The word each manifest body line begins with.
pub open spec fn folder_word() -> Seq<char> {
    seq!['F', 'o', 'l', 'd', 'e', 'r', ' ']
}

/// The fixed signature token that marks an archive as ours.
pub open spec fn signature_spec() -> Seq<char> {
    seq!['K', 'O', 'N', 'S', 'E', 'R', 'V', 'E', '_', 'F', 'I', 'N', 'G', 'E', 'R', 'P', 'R', 'I',
        'N', 'T']
}

/// The header label on the manifest's second line.
pub open spec fn header_spec() -> Seq<char> {
    seq!['B', 'a', 'c', 'k', 'e', 'd', ' ', 'u', 'p', ' ', 'f', 'o', 'l', 'd', 'e', 'r', 's']
}

pub fn signature_text() -> (r: &'static str)
    ensures
        r@ == signature_spec(),
{
    proof {
        reveal_strlit("KONSERVE_FINGERPRINT");
        assert("KONSERVE_FINGERPRINT"@ =~= signature_spec());
    }
    "KONSERVE_FINGERPRINT"
}

pub fn header_text() -> (r: &'static str)
    ensures
        r@ == header_spec(),
{
    proof {
        reveal_strlit("Backed up folders");
        assert("Backed up folders"@ =~= header_spec());
    }
    "Backed up folders"
}

/// One manifest body line: `Folder <n>: <path>`.
pub open spec fn folder_line(n: nat, p: Seq<char>) -> Seq<char> {
    folder_word() + dec_spec(n) + colon_space() + p
}

/// The whole manifest text for a selection, each line ending in a newline.
pub open spec fn encode_spec(paths: Seq<Seq<char>>) -> Seq<char>
    decreases paths.len(),
{
    if paths.len() == 0 {
        signature_spec() + nl() + header_spec() + nl()
    } else {
        encode_spec(paths.drop_last()) + folder_line(paths.len() as nat, paths.last()) + nl()
    }
}

/// An archive is authentic when the signature token appears anywhere in its
/// manifest text.
pub open spec fn sig_ok(text: Seq<char>) -> bool {
    contains_seq(text, signature_spec())
}

/// Index of the first `": "` in a line, or a value within two of the line's
/// end when there is none.
pub open spec fn first_cs(line: Seq<char>) -> int
    decreases line.len(),
{
    if line.len() < 2 {
        line.len() as int
    } else if line[0] == ':' && line[1] == ' ' {
        0
    } else {
        1 + first_cs(line.drop_first())
    }
}

/// The path a manifest line records: everything after the first `": "`.
/// Lines without the separator record nothing and are ignored.
pub open spec fn line_path(line: Seq<char>) -> Option<Seq<char>> {
    if first_cs(line) + 2 <= line.len() {
        Some(line.skip(first_cs(line) + 2))
    } else {
        None
    }
}

/// The key map a manifest text decodes to: for every line that records a
/// path, `basename(path)` maps to `path`; later lines overwrite earlier ones.
pub open spec fn decode_map(lines: Seq<Seq<char>>) -> Map<Seq<char>, Seq<char>>
    decreases lines.len(),
{
    if lines.len() == 0 {
        Map::empty()
    } else {
        let m = decode_map(lines.drop_last());
        match line_path(lines.last()) {
            Some(p) => m.insert(basename_spec(p), p),
            None => m,
        }
    }
}

/// The key map a selection should decode back to: each path keyed by its
/// basename, later paths overwriting earlier ones on a collision.
pub open spec fn key_map_of(paths: Seq<Seq<char>>) -> Map<Seq<char>, Seq<char>>
    decreases paths.len(),
{
    if paths.len() == 0 {
        Map::empty()
    } else {
        key_map_of(paths.drop_last()).insert(
            basename_spec(paths.last()),
            paths.last(),
        )
    }
}

/// A line with no `": "` records nothing.
pub proof fn lemma_first_cs_none(line: Seq<char>)
    requires
        forall|j: int| 0 <= j && j + 2 <= line.len() ==> !(#[trigger] line[j] == ':' && line[j + 1] == ' '),
    ensures
        first_cs(line) + 2 > line.len(),
        line_path(line) is None,
    decreases line.len(),
{
    if line.len() >= 2 && !(line[0] == ':' && line[1] == ' ') {
        let d = line.drop_first();
        assert forall|j: int| 0 <= j && j + 2 <= d.len() implies !(#[trigger] d[j] == ':' && d[
            j + 1
        ] == ' ') by {
            assert(d[j] == line[j + 1]);
            assert(d[j + 1] == line[j + 2]);
        }
        lemma_first_cs_none(d);
    }
}

/// The first `": "` is where the first colon-then-space stands.
pub proof fn lemma_first_cs_at(line: Seq<char>, i: int)
    requires
        0 <= i,
        i + 2 <= line.len(),
        line[i] == ':',
        line[i + 1] == ' ',
        forall|j: int| 0 <= j < i ==> !(#[trigger] line[j] == ':' && line[j + 1] == ' '),
    ensures
        first_cs(line) == i,
        line_path(line) == Some(line.skip(i + 2)),
    decreases line.len(),
{
    if i == 0 {
    } else {
        let d = line.drop_first();
        assert forall|j: int| 0 <= j < i - 1 implies !(#[trigger] d[j] == ':' && d[j + 1]
            == ' ') by {
            assert(d[j] == line[j + 1]);
            assert(d[j + 1] == line[j + 2]);
        }
        assert(d[i - 1] == line[i]);
        assert(d[i] == line[i + 1]);
        lemma_first_cs_at(d, i - 1);
        assert(d.skip(i + 1) =~= line.skip(i + 2));
    }
}

/// Map from top-level basename to original absolute path, decoded from a
/// manifest.  Later insertions for the same key overwrite earlier ones.
pub struct PathKeyMap {
    keys: Vec<String>,
    vals: Vec<String>,
}

/// The map an association list denotes, inserting pairs first to last.
pub open spec fn assoc_map(ks: Seq<Seq<char>>, vs: Seq<Seq<char>>) -> Map<Seq<char>, Seq<char>>
    decreases ks.len(),
{
    if ks.len() == 0 || ks.len() != vs.len() {
        Map::empty()
    } else {
        assoc_map(ks.drop_last(), vs.drop_last()).insert(ks.last(), vs.last())
    }
}

proof fn lemma_assoc_get(ks: Seq<Seq<char>>, vs: Seq<Seq<char>>, i: int)
    requires
        ks.len() == vs.len(),
        0 <= i < ks.len(),
        forall|j: int| i < j < ks.len() ==> ks[j] != ks[i],
    ensures
        assoc_map(ks, vs).contains_key(ks[i]),
        assoc_map(ks, vs)[ks[i]] == vs[i],
    decreases ks.len(),
{
    if i < ks.len() - 1 {
        assert(ks.drop_last()[i] == ks[i]);
        lemma_assoc_get(ks.drop_last(), vs.drop_last(), i);
    }
}

proof fn lemma_assoc_absent(ks: Seq<Seq<char>>, vs: Seq<Seq<char>>, k: Seq<char>)
    requires
        ks.len() == vs.len(),
        forall|j: int| 0 <= j < ks.len() ==> ks[j] != k,
    ensures
        !assoc_map(ks, vs).contains_key(k),
    decreases ks.len(),
{
    if ks.len() > 0 {
        lemma_assoc_absent(ks.drop_last(), vs.drop_last(), k);
    }
}

impl View for PathKeyMap {
    type V = Map<Seq<char>, Seq<char>>;

    closed spec fn view(&self) -> Map<Seq<char>, Seq<char>> {
        assoc_map(self.keys.deep_view(), self.vals.deep_view())
    }
}

impl PathKeyMap {
    /// One value per stored key; insertion keeps both lists aligned.
    pub closed spec fn wf(&self) -> bool {
        self.keys.len() == self.vals.len()
    }

    pub fn new() -> (r: PathKeyMap)
        ensures
            r@ == Map::<Seq<char>, Seq<char>>::empty(),
            r.wf(),
    {
        let r = PathKeyMap { keys: Vec::new(), vals: Vec::new() };
        proof {
            assert(r.keys.deep_view().len() == 0);
        }
        r
    }

    /// Record `key -> val`, overwriting any earlier value for `key`.
    pub fn insert(&mut self, key: String, val: String)
        requires
            old(self).wf(),
        ensures
            final (self).wf(),
            final (self)@ == old(self)@.insert(key@, val@),
    {
        let ghost ks = self.keys.deep_view();
        let ghost vs = self.vals.deep_view();
        self.keys.push(key);
        self.vals.push(val);
        proof {
            assert(self.keys.deep_view().drop_last() =~~= ks);
            assert(self.vals.deep_view().drop_last() =~~= vs);
            assert(self.keys.deep_view().last() == key@);
            assert(self.vals.deep_view().last() == val@);
        }
    }

    /// Look up the original path recorded for a top-level basename.
    pub fn get(&self, key: &str) -> (r: Option<&String>)
        requires
            self.wf(),
        ensures
            match r {
                Some(v) => self@.contains_key(key@) && v@ == self@[key@],
                None => !self@.contains_key(key@),
            },
    {
        let ghost ks = self.keys.deep_view();
        let ghost vs = self.vals.deep_view();
        let mut i: usize = self.keys.len();
        while i > 0
            invariant
                i <= ks.len(),
                ks.len() == vs.len(),
                ks == self.keys.deep_view(),
                vs == self.vals.deep_view(),
                self.wf(),
                forall|j: int| i <= j < ks.len() ==> ks[j] != key@,
            decreases i,
        {
            i = i - 1;
            if crate::text::str_eq(self.keys[i].as_str(), key) {
                proof {
                    assert(ks[i as int] == key@);
                    lemma_assoc_get(ks, vs, i as int);
                }
                return Some(&self.vals[i]);
            }
            proof {
                assert(ks[i as int] != key@);
            }
        }
        proof {
            lemma_assoc_absent(ks, vs, key@);
        }
        None
    }

    /// Whether a basename is recorded at all.
    pub fn contains_key(&self, key: &str) -> (r: bool)
        requires
            self.wf(),
        ensures
            r == self@.contains_key(key@),
    {
        match self.get(key) {
            Some(_) => true,
            None => false,
        }
    }
}

/// Emit the manifest text for a selection.
pub fn encode(sel: &SelectionSet) -> (r: String)
    ensures
        r@ == encode_spec(sel@),
{
    proof {
        reveal_strlit("\n");
        reveal_strlit("Folder ");
        reveal_strlit(": ");
        assert("\n"@ =~= nl());
        assert("Folder "@ =~= folder_word());
        assert(": "@ =~= colon_space());
    }
    let mut out: String = String::new();
    out.append(signature_text());
    out.append("\n");
    out.append(header_text());
    out.append("\n");
    proof {
        assert(sel@.take(0) =~= Seq::<Seq<char>>::empty());
        assert(out@ =~= encode_spec(sel@.take(0)));
    }
    let n: usize = sel.len();
    let mut i: usize = 0;
    while i < n
        invariant
            i <= n,
            n == sel@.len(),
            out@ == encode_spec(sel@.take(i as int)),
        decreases n - i,
    {
        proof {
            reveal_strlit("\n");
            reveal_strlit("Folder ");
            reveal_strlit(": ");
            assert("\n"@ =~= nl());
            assert("Folder "@ =~= folder_word());
            assert(": "@ =~= colon_space());
        }
        out.append("Folder ");
        let idx = u64_to_dec((i as u64) + 1);
        out.append(idx.as_str());
        out.append(": ");
        out.append(sel.get(i).as_str());
        out.append("\n");
        proof {
            let pre = sel@.take(i as int);
            let post = sel@.take(i + 1 as int);
            assert(post.drop_last() =~= pre);
            assert(post.last() == sel@[i as int]);
            assert(post.len() == i + 1);
            assert(out@ =~= encode_spec(pre) + folder_line((i + 1) as nat, sel@[i as int]) + nl());
        }
        i = i + 1;
    }
    proof {
        assert(sel@.take(n as int) =~= sel@);
    }
    out
}

/// Parse a manifest text: validate the signature token, then record every
/// line holding `": "` as `basename(path) -> path`, later lines overwriting
/// earlier ones.  Lines of any other shape are ignored.
pub fn decode(text: &str) -> (r: Result<PathKeyMap, FormatError>)
    ensures
        match r {
            Ok(m) => sig_ok(text@) && m.wf() && m@ == decode_map(
                split_spec(text@, SepMode::Newline),
            ),
            Err(e) => e == FormatError::InvalidFingerprint && !sig_ok(text@),
        },
{
    proof {
        reveal_strlit(": ");
        assert(": "@ =~= colon_space());
    }
    if find_substr(text, signature_text()).is_none() {
        return Err(FormatError::InvalidFingerprint);
    }
    let lines = split_string(text, SepMode::Newline);
    let ghost lv = lines.deep_view();
    let mut map = PathKeyMap::new();
    let mut li: usize = 0;
    proof {
        assert(lv.take(0) =~= Seq::<Seq<char>>::empty());
    }
    while li < lines.len()
        invariant
            li <= lines.len(),
            lv == lines.deep_view(),
            lv == split_spec(text@, SepMode::Newline),
            map.wf(),
            map@ == decode_map(lv.take(li as int)),
        decreases lines.len() - li,
    {
        let line: &String = &lines[li];
        proof {
            reveal_strlit(": ");
            assert(": "@ =~= colon_space());
            assert(line@ == lv[li as int]);
            assert(lv.take(li + 1 as int).drop_last() =~= lv.take(li as int));
            assert(lv.take(li + 1 as int).last() == line@);
        }
        match find_substr(line.as_str(), ": ") {
            Some(cs) => {
                proof {
                    assert(line@[cs as int] == ':' && line@[cs + 1] == ' ') by {
                        assert(occurs_at(line@, ": "@, cs as int));
                        assert(line@.subrange(cs as int, cs + 2)[0] == ':');
                        assert(line@.subrange(cs as int, cs + 2)[1] == ' ');
                    }
                    assert forall|j: int| 0 <= j < cs implies !(#[trigger] line@[j] == ':'
                        && line@[j + 1] == ' ') by {
                        if j + 2 <= line@.len() && line@[j] == ':' && line@[j + 1] == ' ' {
                            assert(line@.subrange(j, j + 2) =~= ": "@);
                            assert(occurs_at(line@, ": "@, j));
                        }
                    }
                    lemma_first_cs_at(line@, cs as int);
                }
                let ln: usize = line.as_str().unicode_len();
                let path = line.as_str().substring_char(cs + 2, ln);
                let key = basename(path);
                proof {
                    assert(path@ =~= line@.skip(cs + 2));
                }
                map.insert(key, path.to_owned());
            },
            None => {
                proof {
                    assert forall|j: int|
                        0 <= j && j + 2 <= line@.len() implies !(#[trigger] line@[j] == ':'
                        && line@[j + 1] == ' ') by {
                        if line@[j] == ':' && line@[j + 1] == ' ' {
                            assert(line@.subrange(j, j + 2) =~= ": "@);
                            assert(occurs_at(line@, ": "@, j));
                        }
                    }
                    lemma_first_cs_none(line@);
                }
            },
        }
        li = li + 1;
    }
    proof {
        assert(lv.take(lines.len() as int) =~= lv);
    }
    Ok(map)
}


/// Decimal digits are plain digit characters: never a colon, a space, or a
/// line break.
pub proof fn lemma_dec_chars(n: nat)
    ensures
        forall|k: int|
            0 <= k < dec_spec(n).len() ==> (#[trigger] dec_spec(n)[k] != ':' && dec_spec(n)[k]
                != ' ' && dec_spec(n)[k] != '\n'),
    decreases n,
{
    if n >= 10 {
        lemma_dec_chars(n / 10);
        assert forall|k: int| 0 <= k < dec_spec(n).len() implies (#[trigger] dec_spec(n)[k] != ':'
            && dec_spec(n)[k] != ' ' && dec_spec(n)[k] != '\n') by {
            if k < dec_spec(n / 10).len() {
                assert(dec_spec(n)[k] == dec_spec(n / 10)[k]);
            } else {
                assert(dec_spec(n)[k] == digit_char(n % 10));
            }
        }
    }
}

/// Every manifest text ends with a newline.
pub proof fn lemma_encode_ends_nl(paths: Seq<Seq<char>>)
    ensures
        encode_spec(paths).len() > 0,
        encode_spec(paths).last() == '\n',
{
    let e = encode_spec(paths);
    if paths.len() == 0 {
        assert(e[e.len() - 1] == '\n');
    } else {
        assert(e[e.len() - 1] == '\n');
    }
}

/// The signature token stands at the very start of every manifest text.
pub proof fn lemma_encode_sig_prefix(paths: Seq<Seq<char>>)
    ensures
        occurs_at(encode_spec(paths), signature_spec(), 0),
        sig_ok(encode_spec(paths)),
    decreases paths.len(),
{
    let e = encode_spec(paths);
    let sg = signature_spec();
    if paths.len() == 0 {
        assert(e.subrange(0, sg.len() as int) =~= sg);
    } else {
        lemma_encode_sig_prefix(paths.drop_last());
        let e0 = encode_spec(paths.drop_last());
        assert forall|k: int| 0 <= k < sg.len() implies e[k] == sg[k] by {
            assert(e[k] == e0[k]);
            assert(e0.subrange(0, sg.len() as int)[k] == sg[k]);
        }
        assert(e.subrange(0, sg.len() as int) =~= sg);
    }
    assert(occurs_at(e, sg, 0));
}

/// A manifest body line records exactly the path it was written for.
proof fn lemma_folder_line_path(n: nat, p: Seq<char>)
    requires
        forall|k: int| 0 <= k < p.len() ==> p[k] != '\n',
    ensures
        forall|k: int|
            0 <= k < folder_line(n, p).len() ==> #[trigger] folder_line(n, p)[k] != '\n',
        line_path(folder_line(n, p)) == Some(p),
{
    let line = folder_line(n, p);
    let fw = folder_word();
    let d = dec_spec(n);
    let j: int = fw.len() as int + d.len() as int;
    lemma_dec_chars(n);
    assert forall|k: int| 0 <= k < line.len() implies #[trigger] line[k] != '\n' by {
        if k < fw.len() {
            assert(line[k] == fw[k]);
        } else if k < j {
            assert(line[k] == d[k - fw.len()]);
        } else if k < j + 2 {
            assert(line[k] == colon_space()[k - j]);
        } else {
            assert(line[k] == p[k - j - 2]);
        }
    }
    assert(line[j] == colon_space()[0]);
    assert(line[j + 1] == colon_space()[1]);
    assert forall|k: int| 0 <= k < j implies !(#[trigger] line[k] == ':' && line[k + 1]
        == ' ') by {
        if k < fw.len() {
            assert(line[k] == fw[k]);
        } else {
            assert(line[k] == d[k - fw.len()]);
        }
    }
    lemma_first_cs_at(line, j);
    assert(line.skip(j + 2) =~= p);
}

/// Decoding the manifest of a selection recovers exactly the selection's
/// key map: every top-level path keyed by its basename, later items
/// overwriting earlier ones on a basename collision.
proof fn lemma_sig_line_ignored()
    ensures
        line_path(signature_spec()) is None,
{
    assert forall|j: int|
        0 <= j && j + 2 <= signature_spec().len() implies !(#[trigger] signature_spec()[j] == ':'
        && signature_spec()[j + 1] == ' ') by {}
    lemma_first_cs_none(signature_spec());
}

proof fn lemma_header_line_ignored()
    ensures
        line_path(header_spec()) is None,
{
    assert forall|j: int|
        0 <= j && j + 2 <= header_spec().len() implies !(#[trigger] header_spec()[j] == ':'
        && header_spec()[j + 1] == ' ') by {}
    lemma_first_cs_none(header_spec());
}

#[verifier::rlimit(60)]
proof fn lemma_decode_encode_base()
    ensures
        decode_map(split_spec(encode_spec(Seq::<Seq<char>>::empty()), SepMode::Newline))
            == key_map_of(Seq::<Seq<char>>::empty()),
{
    let m = SepMode::Newline;
    let paths = Seq::<Seq<char>>::empty();
    let sg = signature_spec();
    let hd = header_spec();
    let a2 = sg + nl();
    let a3 = a2 + hd;
    let e0 = encode_spec(paths);
    crate::text::lemma_split_sepless(sg, m);
    assert(a2 =~= sg.push('\n'));
    crate::text::lemma_split_push_sep(sg, '\n', m);
    assert(split_spec(a2, m) =~~= seq![sg, Seq::<char>::empty()]);
    crate::text::lemma_split_append_sepless(a2, hd, m);
    assert(split_spec(a3, m) =~~= seq![sg, hd]);
    assert(e0 =~= a3.push('\n'));
    crate::text::lemma_split_push_sep(a3, '\n', m);
    let ls = split_spec(e0, m);
    let l3 = seq![sg, hd, Seq::<char>::empty()];
    let l2 = seq![sg, hd];
    let l1 = seq![sg];
    let l0 = Seq::<Seq<char>>::empty();
    assert(ls =~~= l3);
    assert(line_path(Seq::<char>::empty()) is None);
    lemma_sig_line_ignored();
    lemma_header_line_ignored();
    assert(l3.drop_last() =~~= l2);
    assert(l3.last() =~= Seq::<char>::empty());
    assert(decode_map(l3) == decode_map(l2));
    assert(l2.drop_last() =~~= l1);
    assert(l2.last() == hd);
    assert(decode_map(l2) == decode_map(l1));
    assert(l1.drop_last() =~~= l0);
    assert(l1.last() == sg);
    assert(decode_map(l1) == decode_map(l0));
    assert(decode_map(l0) =~~= Map::<Seq<char>, Seq<char>>::empty());
}

#[verifier::rlimit(80)]
pub proof fn lemma_decode_encode(paths: Seq<Seq<char>>)
    requires
        forall|i: int| 0 <= i < paths.len() ==> crate::selection::valid_path(#[trigger] paths[i]),
    ensures
        sig_ok(encode_spec(paths)),
        decode_map(split_spec(encode_spec(paths), SepMode::Newline)) == key_map_of(paths),
    decreases paths.len(),
{
    lemma_encode_sig_prefix(paths);
    let m = SepMode::Newline;
    if paths.len() == 0 {
        assert(paths =~~= Seq::<Seq<char>>::empty());
        lemma_decode_encode_base();
    } else {
        let ps = paths.drop_last();
        let p = paths.last();
        assert(forall|i: int|
            0 <= i < ps.len() ==> crate::selection::valid_path(#[trigger] ps[i])) by {
            assert(forall|i: int| 0 <= i < ps.len() ==> ps[i] == paths[i]);
        }
        lemma_decode_encode(ps);
        let e0 = encode_spec(ps);
        let line = folder_line(paths.len() as nat, p);
        let e1 = e0 + line;
        let e = encode_spec(paths);
        lemma_folder_line_path(paths.len() as nat, p);
        crate::text::lemma_split_append_sepless(e0, line, m);
        lemma_encode_ends_nl(ps);
        assert(e0 =~= e0.drop_last().push('\n'));
        crate::text::lemma_split_push_sep(e0.drop_last(), '\n', m);
        assert(split_spec(e0, m) == split_spec(e0.drop_last(), m).push(Seq::<char>::empty()));
        let ls0 = split_spec(e0, m);
        assert(ls0.last() =~= Seq::<char>::empty());
        assert(ls0.last() + line =~= line);
        let ls1 = split_spec(e1, m);
        assert(ls1 == ls0.update(ls0.len() - 1, ls0.last() + line));
        assert(e =~= e1.push('\n'));
        crate::text::lemma_split_push_sep(e1, '\n', m);
        let ls = split_spec(e, m);
        assert(ls == ls1.push(Seq::<char>::empty()));
        // Peel the trailing empty line, then the folder line.
        assert(ls.drop_last() =~~= ls1);
        assert(decode_map(ls) == decode_map(ls1));
        assert(ls1.last() == line);
        assert(ls1.drop_last() =~~= ls0.drop_last());
        assert(decode_map(ls1) == decode_map(ls0.drop_last()).insert(basename_spec(p), p));
        assert(decode_map(ls0) == decode_map(ls0.drop_last()));
        assert(decode_map(ls) == key_map_of(ps).insert(basename_spec(p), p));
    }
}

/// The decoded keys are exactly the basenames of the selection's paths.
pub proof fn lemma_key_map_keys(paths: Seq<Seq<char>>)
    ensures
        forall|k: Seq<char>|
            #[trigger] key_map_of(paths).contains_key(k) <==> exists|i: int|
                0 <= i < paths.len() && basename_spec(#[trigger] paths[i]) == k,
    decreases paths.len(),
{
    if paths.len() > 0 {
        lemma_key_map_keys(paths.drop_last());
        let ps = paths.drop_last();
        assert forall|k: Seq<char>| #[trigger] key_map_of(paths).contains_key(k) implies exists|
            i: int,
        | 0 <= i < paths.len() && basename_spec(#[trigger] paths[i]) == k by {
            if k == basename_spec(paths.last()) {
                assert(basename_spec(paths[paths.len() - 1]) == k);
            } else {
                assert(key_map_of(ps).contains_key(k));
                let i = choose|i: int| 0 <= i < ps.len() && basename_spec(#[trigger] ps[i]) == k;
                assert(ps[i] == paths[i]);
                assert(basename_spec(paths[i]) == k);
            }
        }
        assert forall|k: Seq<char>|
            (exists|i: int| 0 <= i < paths.len() && basename_spec(#[trigger] paths[i]) == k)
            implies #[trigger] key_map_of(paths).contains_key(k) by {
            let i = choose|i: int|
                0 <= i < paths.len() && basename_spec(#[trigger] paths[i]) == k;
            if i < paths.len() - 1 {
                assert(ps[i] == paths[i]);
                assert(basename_spec(ps[i]) == k);
                assert(key_map_of(ps).contains_key(k));
            }
        }
    }
}

/// A basename maps to the path of the last selection item bearing it: on a
/// collision the later item wins.
pub proof fn lemma_key_map_latest(paths: Seq<Seq<char>>, i: int)
    requires
        0 <= i < paths.len(),
        forall|j: int|
            i < j < paths.len() ==> basename_spec(#[trigger] paths[j]) != basename_spec(paths[i]),
    ensures
        key_map_of(paths).contains_key(basename_spec(paths[i])),
        key_map_of(paths)[basename_spec(paths[i])] == paths[i],
    decreases paths.len(),
{
    if i < paths.len() - 1 {
        let ps = paths.drop_last();
        assert(ps[i] == paths[i]);
        assert forall|j: int| i < j < ps.len() implies basename_spec(#[trigger] ps[j])
            != basename_spec(ps[i]) by {
            assert(ps[j] == paths[j]);
        }
        lemma_key_map_latest(ps, i);
        assert(basename_spec(paths.last()) != basename_spec(paths[i]));
    }
}

} // verus!\n