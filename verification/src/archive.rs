//! The archive value and the archiver: turn a selection, together with the
//! contents found under each selected path, into a manifest plus a sequence
//! of archive entries.

use vstd::prelude::*;
use vstd::string::*;
use crate::manifest::{encode, encode_spec};
use crate::paths::{basename, basename_spec};
use crate::progress::{ProgressCell, PROGRESS_DONE};
use crate::selection::SelectionSet;

verus! {

/// Filesystem failures the core itself can detect.
#[derive(Clone, Copy, PartialEq, Eq, Structural, Debug)]
pub enum IOError {
    /// Nothing was selected: an empty backup is never attempted.
    NothingSelected,
}

/// What one archive entry stores.
#[derive(Clone, Copy, PartialEq, Eq, Structural, Debug)]
pub enum EntryKind {
    /// A regular file with a byte stream.
    File,
    /// A directory marker.
    Directory,
}

/// One record inside the archive: a `/`-separated entry path, a kind, and
/// (for files) the content bytes.
pub struct ArchiveEntry {
    pub path: String,
    pub kind: EntryKind,
    pub data: Vec<u8>,
}

pub ghost struct EntryModel {
    pub path: Seq<char>,
    pub kind: EntryKind,
    pub data: Seq<u8>,
}

impl View for ArchiveEntry {
    type V = EntryModel;

    open spec fn view(&self) -> EntryModel {
        EntryModel { path: self.path@, kind: self.kind, data: self.data@ }
    }
}

pub open spec fn entry_models(es: Seq<ArchiveEntry>) -> Seq<EntryModel> {
    es.map_values(|e: ArchiveEntry| e@)
}

/// A whole archive: the manifest text plus the content entries, in the order
/// they were written.
pub struct Archive {
    pub manifest: String,
    pub entries: Vec<ArchiveEntry>,
}

/// One descendant found while walking a selected directory: its path
/// relative to that directory (`/`-separated, non-empty), its kind, and its
/// bytes when it is a file.
pub struct DirEntry {
    pub rel_path: String,
    pub kind: EntryKind,
    pub data: Vec<u8>,
}

pub ghost struct DirEntryModel {
    pub rel_path: Seq<char>,
    pub kind: EntryKind,
    pub data: Seq<u8>,
}

impl View for DirEntry {
    type V = DirEntryModel;

    open spec fn view(&self) -> DirEntryModel {
        DirEntryModel { rel_path: self.rel_path@, kind: self.kind, data: self.data@ }
    }
}

/// What stands on disk under one selected path: the bytes of a regular
/// file, or the recursively enumerated descendants of a directory.
pub enum SourceContent {
    File(Vec<u8>),
    Directory(Vec<DirEntry>),
}

pub ghost enum ContentModel {
    File(Seq<u8>),
    Directory(Seq<DirEntryModel>),
}

impl View for SourceContent {
    type V = ContentModel;

    open spec fn view(&self) -> ContentModel {
        match self {
            SourceContent::File(d) => ContentModel::File(d@),
            SourceContent::Directory(ds) => ContentModel::Directory(
                ds@.map_values(|d: DirEntry| d@),
            ),
        }
    }
}

pub open spec fn content_models(cs: Seq<SourceContent>) -> Seq<ContentModel> {
    cs.map_values(|c: SourceContent| c@)
}

/// A walked directory listing is usable when every recorded relative path is
/// non-empty (the directory itself is never listed).
pub open spec fn content_wf(c: ContentModel) -> bool {
    match c {
        ContentModel::File(_) => true,
        ContentModel::Directory(ds) => forall|i: int|
            0 <= i < ds.len() ==> (#[trigger] ds[i].rel_path).len() > 0,
    }
}

/// The archive entry one directory descendant becomes: named
/// `<top-level basename>/<relative path>`; only files carry bytes.
pub open spec fn dir_entry_entry(bn: Seq<char>, d: DirEntryModel) -> EntryModel {
    EntryModel {
        path: bn + seq!['/'] + d.rel_path,
        kind: d.kind,
        data: if d.kind is File {
            d.data
        } else {
            Seq::<u8>::empty()
        },
    }
}

/// The entries one selected item contributes: a file becomes one entry named
/// by its basename; a directory contributes one entry per descendant, in
/// listing order, and no entry for itself.
pub open spec fn item_entries(path: Seq<char>, c: ContentModel) -> Seq<EntryModel> {
    match c {
        ContentModel::File(data) => seq![
            EntryModel { path: basename_spec(path), kind: EntryKind::File, data },
        ],
        ContentModel::Directory(ds) => ds.map_values(
            |d: DirEntryModel| dir_entry_entry(basename_spec(path), d),
        ),
    }
}

/// All entries of an archive created from a selection, in selection order.
pub open spec fn create_entries(paths: Seq<Seq<char>>, cs: Seq<ContentModel>) -> Seq<EntryModel>
    decreases paths.len(),
{
    if paths.len() == 0 || paths.len() != cs.len() {
        Seq::<EntryModel>::empty()
    } else {
        create_entries(paths.drop_last(), cs.drop_last()) + item_entries(paths.last(), cs.last())
    }
}

/// Entry counts only grow as the selection grows.
pub proof fn lemma_create_entries_prefix(paths: Seq<Seq<char>>, cs: Seq<ContentModel>, i: int)
    requires
        paths.len() == cs.len(),
        0 <= i <= paths.len(),
    ensures
        create_entries(paths.take(i), cs.take(i)).len() <= create_entries(paths, cs).len(),
    decreases paths.len() - i,
{
    if i == paths.len() {
        assert(paths.take(i) =~= paths);
        assert(cs.take(i) =~= cs);
    } else {
        lemma_create_entries_prefix(paths.take(paths.len() - 1), cs.take(cs.len() - 1), i);
        assert(paths.take(paths.len() - 1) =~= paths.drop_last());
        assert(cs.take(cs.len() - 1) =~= cs.drop_last());
        assert(paths.drop_last().take(i) =~= paths.take(i));
        assert(cs.drop_last().take(i) =~= cs.take(i));
        if paths.len() > 0 {
            assert(create_entries(paths, cs) == create_entries(
                paths.drop_last(),
                cs.drop_last(),
            ) + item_entries(paths.last(), cs.last()));
        }
    }
}

/// Copy a byte vector.
pub fn copy_bytes(v: &Vec<u8>) -> (r: Vec<u8>)
    ensures
        r@ == v@,
{
    let mut r: Vec<u8> = Vec::new();
    let mut i: usize = 0;
    while i < v.len()
        invariant
            i <= v.len(),
            r@ =~= v@.take(i as int),
        decreases v.len() - i,
    {
        r.push(v[i]);
        proof {
            assert(r@ =~= v@.take(i + 1 as int));
        }
        i = i + 1;
    }
    proof {
        assert(v@.take(v.len() as int) =~= v@);
    }
    r
}

/// Package a selection into an archive value.  The manifest is produced
/// first; then, for each top-level path in selection order, a file becomes
/// one entry named by its basename and a directory one entry per descendant,
/// named `<basename>/<relative path>`.  Progress is reported after every
/// entry and the sentinel is set on completion.  An empty selection is
/// refused and the progress cell is left untouched.
pub fn create(sel: &SelectionSet, contents: &Vec<SourceContent>, progress: &mut ProgressCell) -> (r:
    Result<Archive, IOError>)
    requires
        contents@.len() == sel@.len(),
        forall|i: int| 0 <= i < contents@.len() ==> content_wf(#[trigger] contents@[i]@),
        create_entries(sel@, content_models(contents@)).len() <= usize::MAX,
    ensures
        match r {
            Ok(a) => {
                &&& sel@.len() > 0
                &&& a.manifest@ == encode_spec(sel@)
                &&& entry_models(a.entries@) == create_entries(sel@, content_models(contents@))
                &&& final (progress).current() == PROGRESS_DONE
            },
            Err(e) => {
                &&& e == IOError::NothingSelected
                &&& sel@.len() == 0
                &&& *final (progress) == *old(progress)
            },
        },
{
    let n: usize = sel.len();
    if n == 0 {
        return Err(IOError::NothingSelected);
    }
    let ghost models = content_models(contents@);
    // Count the entries the archive will hold, for progress reporting.
    let mut total: usize = 0;
    let mut i: usize = 0;
    proof {
        assert(sel@.take(0) =~= Seq::<Seq<char>>::empty());
        assert(models.take(0) =~= Seq::<ContentModel>::empty());
    }
    while i < n
        invariant
            i <= n,
            n == sel@.len(),
            n == contents@.len(),
            models == content_models(contents@),
            total == create_entries(sel@.take(i as int), models.take(i as int)).len(),
            create_entries(sel@, models).len() <= usize::MAX,
        decreases n - i,
    {
        proof {
            lemma_create_entries_prefix(sel@, models, i + 1);
            assert(sel@.take(i + 1 as int).drop_last() =~= sel@.take(i as int));
            assert(models.take(i + 1 as int).drop_last() =~= models.take(i as int));
            assert(sel@.take(i + 1 as int).last() == sel@[i as int]);
            assert(models.take(i + 1 as int).last() == contents@[i as int]@);
        }
        match &contents[i] {
            SourceContent::File(_) => {
                total = total + 1;
            },
            SourceContent::Directory(ds) => {
                proof {
                    let bn = basename_spec(sel@[i as int]);
                    assert(item_entries(sel@[i as int], contents@[i as int]@).len()
                        == ds@.map_values(|d: DirEntry| d@).map_values(
                        |d: DirEntryModel| dir_entry_entry(bn, d),
                    ).len());
                }
                total = total + ds.len();
            },
        }
        i = i + 1;
    }
    proof {
        assert(sel@.take(n as int) =~= sel@);
        assert(models.take(n as int) =~= models);
    }
    // Manifest first, then the entries, reporting progress as they are cut.
    let manifest_text = encode(sel);
    let mut entries: Vec<ArchiveEntry> = Vec::new();
    let mut done: usize = 0;
    let mut i: usize = 0;
    proof {
        assert(entry_models(entries@) =~~= create_entries(sel@.take(0), models.take(0)));
    }
    while i < n
        invariant
            i <= n,
            n == sel@.len(),
            n == contents@.len(),
            models == content_models(contents@),
            total == create_entries(sel@, models).len(),
            forall|k: int| 0 <= k < contents@.len() ==> content_wf(#[trigger] contents@[k]@),
            entry_models(entries@) == create_entries(sel@.take(i as int), models.take(i as int)),
            done == entry_models(entries@).len(),
        decreases n - i,
    {
        let ghost pre = entry_models(entries@);
        proof {
            lemma_create_entries_prefix(sel@, models, i + 1);
            assert(sel@.take(i + 1 as int).drop_last() =~= sel@.take(i as int));
            assert(models.take(i + 1 as int).drop_last() =~= models.take(i as int));
            assert(sel@.take(i + 1 as int).last() == sel@[i as int]);
            assert(models.take(i + 1 as int).last() == contents@[i as int]@);
        }
        let bn = basename(sel.get(i).as_str());
        match &contents[i] {
            SourceContent::File(data) => {
                let e = ArchiveEntry { path: bn, kind: EntryKind::File, data: copy_bytes(data) };
                proof {
                    assert(e@ == item_entries(sel@[i as int], contents@[i as int]@)[0]);
                }
                let ghost cur = entry_models(entries@);
                entries.push(e);
                proof {
                    assert(entry_models(entries@) =~~= cur.push(e@));
                    assert(cur.push(e@) =~~= create_entries(
                        sel@.take(i + 1 as int),
                        models.take(i + 1 as int),
                    ));
                }
                done = done + 1;
                progress.report(done, total);
            },
            SourceContent::Directory(ds) => {
                let ghost dms = ds@.map_values(|d: DirEntry| d@);
                let ghost target = item_entries(sel@[i as int], contents@[i as int]@);
                proof {
                    assert(contents@[i as int]@ == ContentModel::Directory(dms));
                    assert(target == dms.map_values(
                        |d: DirEntryModel| dir_entry_entry(basename_spec(sel@[i as int]), d),
                    ));
                }
                proof {
                    assert(target =~= dms.map_values(
                        |d: DirEntryModel| dir_entry_entry(bn@, d),
                    ));
                    assert(target.take(0) =~= Seq::<EntryModel>::empty());
                    assert(pre + target.take(0) =~= pre);
                    assert(target.len() == dms.len());
                }
                let mut j: usize = 0;
                while j < ds.len()
                    invariant
                        j <= ds.len(),
                        dms == ds@.map_values(|d: DirEntry| d@),
                        dms.len() == ds@.len(),
                        target == dms.map_values(
                            |d: DirEntryModel| dir_entry_entry(bn@, d),
                        ),
                        bn@ == basename_spec(sel@[i as int]),
                        total == create_entries(sel@, models).len(),
                        entry_models(entries@) == pre + target.take(j as int),
                        pre.len() + target.len() <= total,
                        done == entry_models(entries@).len(),
                    decreases ds.len() - j,
                {
                    let d = &ds[j];
                    let mut path = bn.clone();
                    path.append("/");
                    path.append(d.rel_path.as_str());
                    proof {
                        reveal_strlit("/");
                        assert("/"@ =~= seq!['/']);
                        assert(path@ =~= bn@ + seq!['/'] + d.rel_path@);
                        assert(dms[j as int] == ds@[j as int]@);
                    }
                    let e = match d.kind {
                        EntryKind::File => ArchiveEntry {
                            path,
                            kind: EntryKind::File,
                            data: copy_bytes(&d.data),
                        },
                        EntryKind::Directory => ArchiveEntry {
                            path,
                            kind: EntryKind::Directory,
                            data: Vec::new(),
                        },
                    };
                    proof {
                        assert(e@ == dir_entry_entry(bn@, dms[j as int]));
                        assert(target[j as int] == dir_entry_entry(bn@, dms[j as int]));
                    }
                    let ghost cur = entry_models(entries@);
                    entries.push(e);
                    proof {
                        assert(entry_models(entries@) =~~= cur.push(e@));
                        assert(cur.push(e@) =~~= pre + target.take(j + 1 as int));
                    }
                    done = done + 1;
                    progress.report(done, total);
                    j = j + 1;
                }
                proof {
                    assert(target.take(ds.len() as int) =~= target);
                    assert(entry_models(entries@) =~~= create_entries(
                        sel@.take(i + 1 as int),
                        models.take(i + 1 as int),
                    ));
                }
            },
        }
        i = i + 1;
    }
    proof {
        assert(sel@.take(n as int) =~= sel@);
        assert(models.take(n as int) =~= models);
    }
    progress.finish();
    Ok(Archive { manifest: manifest_text, entries })
}

} // verus!
