//! The selective restorer: compute, for each archive entry covered by the
//! caller's selection, the filesystem action that restores it — writing a
//! file or creating a directory — at a destination remapped onto the current
//! home directory.  Executing the actions (and creating intermediate
//! directories) is the surrounding application's task.

use vstd::prelude::*;
use vstd::string::*;
use crate::archive::{Archive, ArchiveEntry, ContentModel, DirEntryModel, EntryKind, EntryModel,
    content_wf, copy_bytes, create_entries, dir_entry_entry, entry_models, item_entries};
use crate::manifest::{FormatError, PathKeyMap, decode, decode_map, encode_spec, key_map_of,
    sig_ok, lemma_decode_encode, lemma_key_map_latest};
use crate::paths::{adjust, adjust_spec, basename_spec, lemma_basename_sepless, selected_spec};
use crate::progress::{ProgressCell, PROGRESS_DONE};
use crate::selection::valid_path;
use crate::text::{SepMode, find_char, first_sep_idx, is_sep_char, lemma_first_sep_idx_at,
    split_spec};

verus! {

/// One step of a restore: create a directory, or write a file's bytes, at an
/// absolute destination path.
pub enum RestoreAction {
    MakeDir(String),
    WriteFile(String, Vec<u8>),
}

pub ghost enum ActionModel {
    MakeDir(Seq<char>),
    WriteFile(Seq<char>, Seq<u8>),
}

impl View for RestoreAction {
    type V = ActionModel;

    open spec fn view(&self) -> ActionModel {
        match self {
            RestoreAction::MakeDir(p) => ActionModel::MakeDir(p@),
            RestoreAction::WriteFile(p, d) => ActionModel::WriteFile(p@, d@),
        }
    }
}

pub open spec fn action_models(s: Seq<RestoreAction>) -> Seq<ActionModel> {
    s.map_values(|a: RestoreAction| a@)
}

/// `None` restores everything; `Some` restores only entries related to a
/// selected tree path (the path itself, anything under it, or an ancestor of
/// it, since ancestor directories must still exist).
pub open spec fn sel_covers(sel: Option<Seq<Seq<char>>>, p: Seq<char>) -> bool {
    match sel {
        None => true,
        Some(s) => selected_spec(s, p),
    }
}

pub open spec fn sel_views(sel: Option<&Vec<String>>) -> Option<Seq<Seq<char>>> {
    match sel {
        None => None,
        Some(v) => Some(v.deep_view()),
    }
}

/// The action one entry gives rise to.  An entry outside the selection, or
/// whose top-level key the manifest does not record, is skipped.  A
/// single-segment entry is a top-level item and restores directly at the
/// remapped recorded path; a longer entry restores at that base joined (by a
/// backslash) with the part after the key.
pub open spec fn entry_actions(
    e: EntryModel,
    km: Map<Seq<char>, Seq<char>>,
    sel: Option<Seq<Seq<char>>>,
    home: Seq<char>,
) -> Seq<ActionModel> {
    if !sel_covers(sel, e.path) {
        Seq::<ActionModel>::empty()
    } else {
        let ki = first_sep_idx(e.path, SepMode::Slash);
        let key = e.path.take(ki);
        if !km.contains_key(key) {
            Seq::<ActionModel>::empty()
        } else {
            let base = adjust_spec(km[key], home);
            let dest = if ki >= e.path.len() {
                base
            } else {
                base + seq!['\\'] + e.path.skip(ki + 1)
            };
            if e.kind is File {
                seq![ActionModel::WriteFile(dest, e.data)]
            } else {
                seq![ActionModel::MakeDir(dest)]
            }
        }
    }
}

/// The actions a whole restore performs, in entry order.
pub open spec fn restore_actions(
    entries: Seq<EntryModel>,
    km: Map<Seq<char>, Seq<char>>,
    sel: Option<Seq<Seq<char>>>,
    home: Seq<char>,
) -> Seq<ActionModel>
    decreases entries.len(),
{
    if entries.len() == 0 {
        Seq::<ActionModel>::empty()
    } else {
        restore_actions(entries.drop_last(), km, sel, home) + entry_actions(
            entries.last(),
            km,
            sel,
            home,
        )
    }
}

/// Open an archive for restore: validate and decode its manifest into the
/// key map, and hand the content entries out beside it.
pub fn list_entries(archive: &Archive) -> (r: Result<(&Vec<ArchiveEntry>, PathKeyMap), FormatError>)
    ensures
        match r {
            Ok(p) => {
                &&& sig_ok(archive.manifest@)
                &&& p.0@ == archive.entries@
                &&& p.1.wf()
                &&& p.1@ == decode_map(split_spec(archive.manifest@, SepMode::Newline))
            },
            Err(e) => e == FormatError::InvalidFingerprint && !sig_ok(archive.manifest@),
        },
{
    match decode(archive.manifest.as_str()) {
        Ok(m) => Ok((&archive.entries, m)),
        Err(e) => Err(e),
    }
}

/// Restore the selected part of an archive: validate the manifest, then
/// compute one action per covered entry, reporting progress after every
/// entry (skipped ones included) and setting the sentinel at the end.  No
/// action is produced — and the progress cell is untouched — when the
/// manifest is invalid.
pub fn restore(
    archive: &Archive,
    selection: Option<&Vec<String>>,
    home: &str,
    progress: &mut ProgressCell,
) -> (r: Result<Vec<RestoreAction>, FormatError>)
    ensures
        match r {
            Ok(actions) => {
                &&& sig_ok(archive.manifest@)
                &&& action_models(actions@) == restore_actions(
                    entry_models(archive.entries@),
                    decode_map(split_spec(archive.manifest@, SepMode::Newline)),
                    sel_views(selection),
                    home@,
                )
                &&& final (progress).current() == PROGRESS_DONE
            },
            Err(e) => {
                &&& e == FormatError::InvalidFingerprint
                &&& !sig_ok(archive.manifest@)
                &&& *final (progress) == *old(progress)
            },
        },
{
    let km = match list_entries(archive) {
        Ok((_, km)) => km,
        Err(e) => {
            return Err(e);
        },
    };
    let ghost kmv = km@;
    let ghost ems = entry_models(archive.entries@);
    let ghost sv = sel_views(selection);
    let total: usize = archive.entries.len();
    let mut actions: Vec<RestoreAction> = Vec::new();
    let mut i: usize = 0;
    proof {
        assert(ems.take(0) =~= Seq::<EntryModel>::empty());
        assert(action_models(actions@) =~~= restore_actions(ems.take(0), kmv, sv, home@));
    }
    while i < total
        invariant
            i <= total,
            total == archive.entries@.len(),
            ems == entry_models(archive.entries@),
            kmv == km@,
            km.wf(),
            sv == sel_views(selection),
            action_models(actions@) == restore_actions(ems.take(i as int), kmv, sv, home@),
        decreases total - i,
    {
        let entry: &ArchiveEntry = &archive.entries[i];
        let ghost em = ems[i as int];
        proof {
            assert(em == entry@);
            assert(ems.take(i + 1 as int).drop_last() =~= ems.take(i as int));
            assert(ems.take(i + 1 as int).last() == em);
        }
        let covered: bool = match selection {
            Some(s) => crate::paths::entry_selected(s, entry.path.as_str()),
            None => true,
        };
        if covered {
            let plen: usize = entry.path.as_str().unicode_len();
            let key_end: usize = match find_char(entry.path.as_str(), '/') {
                Some(ki) => {
                    proof {
                        lemma_first_sep_idx_at(em.path, SepMode::Slash, ki as int);
                    }
                    ki
                },
                None => {
                    proof {
                        lemma_first_sep_idx_at(em.path, SepMode::Slash, plen as int);
                    }
                    plen
                },
            };
            let key = entry.path.as_str().substring_char(0, key_end);
            proof {
                assert(key@ =~= em.path.take(first_sep_idx(em.path, SepMode::Slash)));
            }
            match km.get(key) {
                Some(orig) => {
                    let base = adjust(orig.as_str(), home);
                    let dest: String = if key_end >= plen {
                        base
                    } else {
                        let mut d = base;
                        d.append("\\");
                        d.append(entry.path.as_str().substring_char(key_end + 1, plen));
                        proof {
                            reveal_strlit("\\");
                            assert("\\"@ =~= seq!['\\']);
                            assert(d@ =~= adjust_spec(kmv[key@], home@) + seq!['\\'] + em.path.skip(
                                first_sep_idx(em.path, SepMode::Slash) + 1,
                            ));
                        }
                        d
                    };
                    let ghost cur = action_models(actions@);
                    match entry.kind {
                        EntryKind::File => {
                            actions.push(RestoreAction::WriteFile(dest, copy_bytes(&entry.data)));
                        },
                        EntryKind::Directory => {
                            actions.push(RestoreAction::MakeDir(dest));
                        },
                    }
                    proof {
                        assert(action_models(actions@) =~~= cur.push(
                            entry_actions(em, kmv, sv, home@)[0],
                        ));
                        assert(action_models(actions@) =~~= restore_actions(
                            ems.take(i + 1 as int),
                            kmv,
                            sv,
                            home@,
                        ));
                    }
                },
                None => {
                    proof {
                        assert(entry_actions(em, kmv, sv, home@) =~= Seq::<ActionModel>::empty());
                        assert(action_models(actions@) =~~= restore_actions(
                            ems.take(i + 1 as int),
                            kmv,
                            sv,
                            home@,
                        ));
                    }
                },
            }
        } else {
            proof {
                assert(!sel_covers(sv, em.path));
                assert(entry_actions(em, kmv, sv, home@) =~= Seq::<ActionModel>::empty());
                assert(action_models(actions@) =~~= restore_actions(
                    ems.take(i + 1 as int),
                    kmv,
                    sv,
                    home@,
                ));
            }
        }
        if total > 0 {
            progress.report(i + 1, total);
        }
        i = i + 1;
    }
    proof {
        assert(ems.take(total as int) =~= ems);
    }
    progress.finish();
    Ok(actions)
}


/// The actions that put one selected item's content back at its own path.
pub open spec fn item_restore_actions(path: Seq<char>, c: ContentModel) -> Seq<ActionModel> {
    match c {
        ContentModel::File(d) => seq![ActionModel::WriteFile(path, d)],
        ContentModel::Directory(ds) => ds.map_values(
            |de: DirEntryModel|
                if de.kind is File {
                    ActionModel::WriteFile(path + seq!['\\'] + de.rel_path, de.data)
                } else {
                    ActionModel::MakeDir(path + seq!['\\'] + de.rel_path)
                },
        ),
    }
}

/// The actions that put every selected item's content back, in order.
pub open spec fn all_restore_actions(paths: Seq<Seq<char>>, cs: Seq<ContentModel>) -> Seq<
    ActionModel,
>
    decreases paths.len(),
{
    if paths.len() == 0 || paths.len() != cs.len() {
        Seq::<ActionModel>::empty()
    } else {
        all_restore_actions(paths.drop_last(), cs.drop_last()) + item_restore_actions(
            paths.last(),
            cs.last(),
        )
    }
}

proof fn lemma_restore_actions_concat(
    a: Seq<EntryModel>,
    b: Seq<EntryModel>,
    km: Map<Seq<char>, Seq<char>>,
    sel: Option<Seq<Seq<char>>>,
    home: Seq<char>,
)
    ensures
        restore_actions(a + b, km, sel, home) == restore_actions(a, km, sel, home)
            + restore_actions(b, km, sel, home),
    decreases b.len(),
{
    if b.len() == 0 {
        assert(a + b =~= a);
        assert(restore_actions(a, km, sel, home) + restore_actions(b, km, sel, home)
            =~= restore_actions(a, km, sel, home));
    } else {
        lemma_restore_actions_concat(a, b.drop_last(), km, sel, home);
        assert((a + b).drop_last() =~= a + b.drop_last());
        assert((a + b).last() == b.last());
        assert(restore_actions(a, km, sel, home) + restore_actions(b.drop_last(), km, sel, home)
            + entry_actions(b.last(), km, sel, home) =~= restore_actions(a, km, sel, home) + (
        restore_actions(b.drop_last(), km, sel, home) + entry_actions(b.last(), km, sel, home)));
    }
}

/// A basename contains no `/`.
proof fn lemma_basename_slashless(path: Seq<char>)
    ensures
        forall|k: int|
            0 <= k < basename_spec(path).len() ==> !is_sep_char(
                SepMode::Slash,
                basename_spec(path)[k],
            ),
{
    lemma_basename_sepless(path);
    assert forall|k: int| 0 <= k < basename_spec(path).len() implies !is_sep_char(
        SepMode::Slash,
        basename_spec(path)[k],
    ) by {
        assert(!is_sep_char(SepMode::AnySep, basename_spec(path)[k]));
    }
}

/// Restoring the entries of one item, unfiltered and with its own recorded
/// path, puts its content back where it came from.
proof fn lemma_item_round_trip(
    path: Seq<char>,
    c: ContentModel,
    km: Map<Seq<char>, Seq<char>>,
    home: Seq<char>,
)
    requires
        valid_path(path),
        content_wf(c),
        km.contains_key(basename_spec(path)),
        km[basename_spec(path)] == path,
        adjust_spec(path, home) == path,
    ensures
        restore_actions(item_entries(path, c), km, None, home) == item_restore_actions(path, c),
{
    let bn = basename_spec(path);
    lemma_basename_slashless(path);
    match c {
        ContentModel::File(d) => {
            let es = item_entries(path, c);
            let e = es[0];
            assert(es.drop_last() =~= Seq::<EntryModel>::empty());
            assert(es.last() == e);
            lemma_first_sep_idx_at(bn, SepMode::Slash, bn.len() as int);
            assert(bn.take(bn.len() as int) =~= bn);
            assert(entry_actions(e, km, None, home) == seq![ActionModel::WriteFile(path, d)]);
            assert(restore_actions(Seq::<EntryModel>::empty(), km, None, home)
                =~= Seq::<ActionModel>::empty());
            assert(restore_actions(es, km, None, home) == restore_actions(
                Seq::<EntryModel>::empty(),
                km,
                None,
                home,
            ) + entry_actions(e, km, None, home));
            assert(restore_actions(es, km, None, home) =~= seq![ActionModel::WriteFile(path, d)]);
        },
        ContentModel::Directory(ds) => {
            lemma_dir_round_trip(path, ds, km, home);
        },
    }
}

proof fn lemma_dir_round_trip(
    path: Seq<char>,
    ds: Seq<DirEntryModel>,
    km: Map<Seq<char>, Seq<char>>,
    home: Seq<char>,
)
    requires
        valid_path(path),
        forall|i: int| 0 <= i < ds.len() ==> (#[trigger] ds[i].rel_path).len() > 0,
        km.contains_key(basename_spec(path)),
        km[basename_spec(path)] == path,
        adjust_spec(path, home) == path,
    ensures
        restore_actions(
            ds.map_values(|d: DirEntryModel| dir_entry_entry(basename_spec(path), d)),
            km,
            None,
            home,
        ) == item_restore_actions(path, ContentModel::Directory(ds)),
    decreases ds.len(),
{
    let bn = basename_spec(path);
    let f = |d: DirEntryModel| dir_entry_entry(bn, d);
    let g = |de: DirEntryModel|
        if de.kind is File {
            ActionModel::WriteFile(path + seq!['\\'] + de.rel_path, de.data)
        } else {
            ActionModel::MakeDir(path + seq!['\\'] + de.rel_path)
        };
    let ents = ds.map_values(f);
    let want = ds.map_values(g);
    if ds.len() == 0 {
        assert(ents =~= Seq::<EntryModel>::empty());
        assert(restore_actions(ents, km, None, home) =~= want);
    } else {
        let dsd = ds.drop_last();
        let de = ds.last();
        lemma_dir_round_trip(path, dsd, km, home);
        assert(ents.drop_last() =~= dsd.map_values(f));
        assert(ents.last() == f(de));
        // The one entry of the last descendant restores to its own place.
        let e = f(de);
        let ep = bn + seq!['/'] + de.rel_path;
        assert(e.path == ep);
        lemma_basename_slashless(path);
        assert forall|k: int| 0 <= k < bn.len() implies !is_sep_char(SepMode::Slash, ep[k]) by {
            assert(ep[k] == bn[k]);
        }
        assert(ep[bn.len() as int] == '/');
        assert(ds[ds.len() - 1].rel_path.len() > 0);
        assert(ep.len() > bn.len());
        lemma_first_sep_idx_at(ep, SepMode::Slash, bn.len() as int);
        assert(ep.take(bn.len() as int) =~= bn);
        assert(ep.skip(bn.len() as int + 1) =~= de.rel_path);
        assert(entry_actions(e, km, None, home) == seq![g(de)]);
        assert(restore_actions(ents, km, None, home) == restore_actions(
            dsd.map_values(f),
            km,
            None,
            home,
        ) + seq![g(de)]);
        assert(item_restore_actions(path, ContentModel::Directory(dsd)) =~= dsd.map_values(g));
        assert(want.drop_last() =~= dsd.map_values(g));
        assert(want.last() == g(de));
        assert(dsd.map_values(g) + seq![g(de)] =~= want);
    }
}

proof fn lemma_round_trip_inner(
    paths: Seq<Seq<char>>,
    cs: Seq<ContentModel>,
    km: Map<Seq<char>, Seq<char>>,
    home: Seq<char>,
)
    requires
        paths.len() == cs.len(),
        forall|i: int| 0 <= i < paths.len() ==> valid_path(#[trigger] paths[i]),
        forall|i: int| 0 <= i < cs.len() ==> content_wf(#[trigger] cs[i]),
        forall|i: int| 0 <= i < paths.len() ==> adjust_spec(#[trigger] paths[i], home) == paths[i],
        forall|i: int|
            0 <= i < paths.len() ==> km.contains_key(basename_spec(#[trigger] paths[i]))
                && km[basename_spec(paths[i])] == paths[i],
    ensures
        restore_actions(create_entries(paths, cs), km, None, home) == all_restore_actions(
            paths,
            cs,
        ),
    decreases paths.len(),
{
    if paths.len() == 0 {
    } else {
        let ps = paths.drop_last();
        let csd = cs.drop_last();
        assert forall|i: int| 0 <= i < ps.len() implies valid_path(#[trigger] ps[i]) && content_wf(
            csd[i],
        ) && adjust_spec(ps[i], home) == ps[i] && km.contains_key(basename_spec(ps[i]))
            && km[basename_spec(ps[i])] == ps[i] by {
            assert(ps[i] == paths[i]);
            assert(csd[i] == cs[i]);
        }
        lemma_round_trip_inner(ps, csd, km, home);
        lemma_restore_actions_concat(
            create_entries(ps, csd),
            item_entries(paths.last(), cs.last()),
            km,
            None,
            home,
        );
        assert(paths[paths.len() - 1] == paths.last());
        lemma_item_round_trip(paths.last(), cs.last(), km, home);
    }
}

/// Round trip: restoring an archive freshly created from a non-empty
/// selection, with no filter and under the home its paths were recorded
/// under, writes back exactly the selected content — every top-level file at
/// its own path, and every directory descendant at its own path under its
/// directory — in selection order.  The selection's basenames must be
/// distinct (on a collision the manifest's last-write-wins key map loses the
/// earlier item) and each path must either carry no user-profile root or
/// carry the one the remapping keeps in place.
pub proof fn lemma_round_trip(paths: Seq<Seq<char>>, cs: Seq<ContentModel>, home: Seq<char>)
    requires
        paths.len() == cs.len(),
        paths.len() > 0,
        forall|i: int| 0 <= i < paths.len() ==> valid_path(#[trigger] paths[i]),
        forall|i: int| 0 <= i < cs.len() ==> content_wf(#[trigger] cs[i]),
        forall|i: int, j: int|
            0 <= i < j < paths.len() ==> basename_spec(#[trigger] paths[i]) != basename_spec(
                #[trigger] paths[j],
            ),
        forall|i: int| 0 <= i < paths.len() ==> adjust_spec(#[trigger] paths[i], home) == paths[i],
    ensures
        restore_actions(
            create_entries(paths, cs),
            decode_map(split_spec(encode_spec(paths), SepMode::Newline)),
            None,
            home,
        ) == all_restore_actions(paths, cs),
{
    lemma_decode_encode(paths);
    let km = key_map_of(paths);
    assert forall|i: int| 0 <= i < paths.len() implies km.contains_key(
        basename_spec(#[trigger] paths[i]),
    ) && km[basename_spec(paths[i])] == paths[i] by {
        lemma_key_map_latest(paths, i);
    }
    lemma_round_trip_inner(paths, cs, km, home);
}

} // verus!
