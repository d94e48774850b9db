//! The scan engine: recording the files found on disk and their matches, and
//! reconciling a directory with what an earlier scan recorded.
use crate::matcher::{lemma_outcome_sources, match_outcome, match_roms, source_of};
use crate::model::{RomRecord, DatId, DirId, DirRecord, FileMatch, FileRecord, MatchRecord, NewDir, NewFile, NewMatch, SetId, SetRecord, SizeWrapper};
use crate::paths::{extension_of, opt_text, path_extension, path_prefix, prefix_of};
use crate::util::{excluded_ext, extension_listed, hidden_name, is_excluded, is_hidden_name, is_zip_extension, zip_ext};
use crate::relation::{any_row, lemma_filter_all, lemma_filter_extend, lemma_filter_member, lemma_filter_none, lemma_filter_filter, lemma_filter_len_bound, lemma_none_filter, select, seq_all, seq_any};
use crate::store::{dat_is, dir_at, dir_at_id, dir_key, file_key, shaped_from, file_is, file_named, dir_is, rom_is, Index, StoreError};
use vstd::prelude::*;

verus! {

/// How many matches the outcome of the matcher holds.
pub open spec fn outcome_len(o: Option<Seq<FileMatch>>) -> nat {
    match o {
        Some(v) => v.len(),
        None => 0,
    }
}

/// Match row `m` records attribution `fm` of file `file` under catalog `dat`.
pub open spec fn records(m: MatchRecord, fm: FileMatch, dat: i64, file: i64) -> bool {
    &&& m.dat_id.0 == dat && m.file_id.0 == file
    &&& m.status == fm.status && m.set_id.0 == fm.set_id.0 && m.rom_id.0 == fm.rom_id.0
}

/// The match rows after `before` are the attributions `o` of file `file`,
/// in order, with consecutive identifiers from `first`.
pub open spec fn appended_matches(
    before: Seq<MatchRecord>,
    after: Seq<MatchRecord>,
    o: Option<Seq<FileMatch>>,
    dat: i64,
    file: i64,
    first: int,
) -> bool {
    &&& after.len() == before.len() + outcome_len(o)
    &&& after.subrange(0, before.len() as int) == before
    &&& forall|k: int|
        0 <= k < outcome_len(o) ==> records(#[trigger] after[before.len() + k], o.unwrap()[k], dat, file)
            && after[before.len() + k].id.0 == first + k
}

/// Matches `file` against catalog `dat_id` and records each attribution.
/// Fails only when identifiers run out.
pub fn insert_matches(index: &mut Index, dat_id: &DatId, file: &FileRecord, matched_sets: &Vec<SetId>) -> (r: Result<(), StoreError>)
    requires
        old(index).wf(),
        seq_any(old(index).files@, file_is(file.id.0, dat_id.0)),
    ensures
        final(index).wf(),
        final(index).dats@ == old(index).dats@ && final(index).sets@ == old(index).sets@,
        final(index).roms@ == old(index).roms@ && final(index).dirs@ == old(index).dirs@,
        final(index).files@ == old(index).files@,
        ({
            let o = match_outcome(old(index).roms@, dat_id.0, file.name@, file.size, file.hash@, matched_sets@);
            &&& r is Ok <==> old(index).next_id + outcome_len(o) <= i64::MAX
            &&& r is Ok ==> appended_matches(old(index).matches@, final(index).matches@, o, dat_id.0, file.id.0, old(index).next_id as int)
                && final(index).next_id == old(index).next_id + outcome_len(o)
            &&& r matches Err(e) ==> e == StoreError::Backend
        }),
        final(index).next_id >= old(index).next_id,
        r is Err ==> final(index).next_id == i64::MAX,
{
    let ghost pre = *index;
    let ghost o = match_outcome(pre.roms@, dat_id.0, file.name@, file.size, file.hash@, matched_sets@);
    let found = match_roms(index, dat_id, file.name.as_str(), file.size, file.hash.as_str(), matched_sets);
    let items = match found {
        Some(items) => items,
        None => {
            assert(index.matches@.subrange(0, pre.matches@.len() as int) =~= pre.matches@);
            return Ok(());
        },
    };
    let mut i: usize = 0;
    while i < items.len()
        invariant
            index.wf(),
            pre == *old(index),
            o == Some(items@),
            i <= items.len(),
            index.dats@ == pre.dats@ && index.sets@ == pre.sets@ && index.roms@ == pre.roms@,
            index.dirs@ == pre.dirs@ && index.files@ == pre.files@,
            seq_any(pre.files@, file_is(file.id.0, dat_id.0)),
            o == match_outcome(pre.roms@, dat_id.0, file.name@, file.size, file.hash@, matched_sets@),
            index.next_id == pre.next_id + i,
            index.matches@.len() == pre.matches@.len() + i,
            index.matches@.subrange(0, pre.matches@.len() as int) == pre.matches@,
            forall|k: int|
                0 <= k < i ==> records(#[trigger] index.matches@[pre.matches@.len() + k], items@[k], dat_id.0, file.id.0)
                    && index.matches@[pre.matches@.len() + k].id.0 == pre.next_id + k,
        decreases items.len() - i,
    {
        let item = &items[i];
        proof {
            lemma_outcome_sources(pre.roms@, dat_id.0, file.name@, file.size, file.hash@, matched_sets@, i as int);
            let c = choose|c: crate::model::RomRecord|
                pre.roms@.contains(c) && #[trigger] source_of(o.unwrap()[i as int], c, dat_id.0, file.name@, file.size, file.hash@, matched_sets@);
            let j = choose|j: int| 0 <= j < pre.roms@.len() && pre.roms@[j] == c;
            assert(rom_is(item.rom_id.0, item.set_id.0, dat_id.0)(index.roms@[j]));
            assert(index.rom_ok(index.roms@[j]));
        }
        let ghost before = index.matches@;
        let ghost mid = *index;
        let new = NewMatch {
            dat_id: dat_id.duplicate(),
            file_id: file.id.duplicate(),
            status: item.status,
            set_id: item.set_id.duplicate(),
            rom_id: item.rom_id.duplicate(),
        };
        match MatchRecord::insert(index, &new) {
            Ok(_) => {},
            Err(e) => {
                assert(index.same_as(mid));
                assert(mid.next_id == i64::MAX);
                return Err(e);
            },
        }
        proof {
            assert forall|k: int| 0 <= k < i + 1 implies
                records(#[trigger] index.matches@[pre.matches@.len() + k], items@[k], dat_id.0, file.id.0)
                    && index.matches@[pre.matches@.len() + k].id.0 == pre.next_id + k by {
                if k < i {
                    assert(index.matches@[pre.matches@.len() + k] == before[pre.matches@.len() + k]);
                }
            }
            assert(index.matches@.subrange(0, pre.matches@.len() as int) =~= pre.matches@) by {
                assert forall|k: int| 0 <= k < pre.matches@.len() implies
                    index.matches@[k] == pre.matches@[k] by {
                    assert(index.matches@[k] == before[k]);
                    assert(before.subrange(0, pre.matches@.len() as int)[k] == before[k]);
                }
            }
        }
        i = i + 1;
    }
    Ok(())
}

/// File row `f` is the one recorded for a file called `name` in dir `dir`
/// of catalog `dat`, of `size` bytes with hash `hash`, under identifier `id`.
pub open spec fn new_file(f: FileRecord, id: i64, dat: i64, dir: i64, name: Seq<char>, size: u64, hash: Seq<char>) -> bool {
    &&& f.id.0 == id && f.dat_id.0 == dat && f.dir_id.0 == dir
    &&& f.name@ == name && f.size == size && f.hash@ == hash
}

/// Records a file found on disk in dir `dir_id`, then its matches against
/// catalog `dat_id`. Fails with `Conflict` when the dir already holds a file
/// of that name; otherwise fails only when the dir is not one of the catalog
/// or identifiers run out.
pub fn insert_files_and_matches(
    index: &mut Index,
    dat_id: &DatId,
    dir_id: &DirId,
    file_name: &str,
    file_size: u64,
    hash: &str,
    matched_sets: &Vec<SetId>,
) -> (r: Result<(), StoreError>)
    requires
        old(index).wf(),
    ensures
        final(index).wf(),
        final(index).dats@ == old(index).dats@ && final(index).sets@ == old(index).sets@,
        final(index).roms@ == old(index).roms@ && final(index).dirs@ == old(index).dirs@,
        (r matches Err(StoreError::Conflict)) <==> seq_any(old(index).files@, file_named(dir_id.0, file_name@)),
        r matches Err(StoreError::Conflict) ==> final(index).same_as(*old(index)),
        r matches Err(e) ==> e == StoreError::Conflict || e == StoreError::Backend,
        final(index).next_id >= old(index).next_id,
        r matches Err(StoreError::Backend) && seq_any(old(index).dirs@, dir_is(dir_id.0, dat_id.0)) ==> final(index).next_id == i64::MAX,
        final(index).files@ == old(index).files@ || {
            &&& final(index).files@ == old(index).files@.push(final(index).files@.last())
            &&& new_file(final(index).files@.last(), old(index).next_id, dat_id.0, dir_id.0, file_name@, file_size, hash@)
        },
        ({
            let o = match_outcome(old(index).roms@, dat_id.0, file_name@, file_size, hash@, matched_sets@);
            let n = old(index).next_id;
            &&& r is Ok <==> {
                &&& !seq_any(old(index).files@, file_named(dir_id.0, file_name@))
                &&& seq_any(old(index).dirs@, dir_is(dir_id.0, dat_id.0))
                &&& n + 1 + outcome_len(o) <= i64::MAX
            }
            &&& r is Ok ==> {
                &&& final(index).files@ == old(index).files@.push(final(index).files@.last())
                &&& new_file(final(index).files@.last(), n, dat_id.0, dir_id.0, file_name@, file_size, hash@)
                &&& appended_matches(old(index).matches@, final(index).matches@, o, dat_id.0, n, n + 1int)
                &&& final(index).next_id == n + 1 + outcome_len(o)
            }
        }),
{
    let new = NewFile {
        dat_id: dat_id.duplicate(),
        dir_id: dir_id.duplicate(),
        name: file_name.to_owned(),
        size: SizeWrapper(file_size),
        hash: hash.to_owned(),
    };
    let file = match FileRecord::insert(index, &new) {
        Ok(f) => f,
        Err(e) => return Err(e),
    };
    assert(file_is(file.id.0, dat_id.0)(index.files@[index.files@.len() - 1]));
    insert_matches(index, dat_id, &file, matched_sets)
}

/// The identifiers of the sets of catalog `dat` called `name`.
pub open spec fn named_set_ids(sets: Seq<SetRecord>, dat: i64, name: Seq<char>) -> Seq<SetId> {
    sets.filter(|s: SetRecord| s.dat_id.0 == dat && s.name@ == name).map_values(|s: SetRecord| s.id)
}

/// The sets of catalog `dat_id` whose name is exactly `name`, by identifier.
pub fn sets_named(index: &Index, dat_id: &DatId, name: &str) -> (r: Vec<SetId>)
    ensures
        r@ == named_set_ids(index.sets@, dat_id.0, name@),
{
    let sets = SetRecord::named_rows(index, dat_id, name, true);
    assert((|x: SetRecord| x.dat_id.0 == dat_id.0 && crate::store::name_fits(x.name@, name@, true))
        =~= (|s: SetRecord| s.dat_id.0 == dat_id.0 && s.name@ == name@));
    let mut r: Vec<SetId> = Vec::new();
    let mut i: usize = 0;
    while i < sets.len()
        invariant
            i <= sets.len(),
            r@ == sets@.subrange(0, i as int).map_values(|s: SetRecord| s.id),
        decreases sets.len() - i,
    {
        r.push(sets[i].id.duplicate());
        assert(r@ =~= sets@.subrange(0, i as int + 1).map_values(|s: SetRecord| s.id));
        i = i + 1;
    }
    assert(sets@.subrange(0, i as int) == sets@);
    r
}

/// The sets that an archive at `path` stands for: those of catalog `dat_id`
/// named like the prefix of its file name. `None` when the path has no file
/// name.
pub fn match_sets(index: &Index, dat_id: &DatId, path: &str) -> (r: Option<Vec<SetId>>)
    ensures
        match path_prefix(path@) {
            Some(p) => r matches Some(v) && v@ == named_set_ids(index.sets@, dat_id.0, p),
            None => r is None,
        },
{
    match prefix_of(path) {
        Some(p) => Some(sets_named(index, dat_id, p.as_str())),
        None => None,
    }
}

/// The scan of one directory in progress: the dir row it fills, whether it
/// keeps earlier rows (incremental), and the child dirs and files that an
/// earlier scan recorded and this one has not seen yet.
pub struct DirScan {
    pub dir: DirRecord,
    pub incremental: bool,
    pub pending_dirs: Vec<String>,
    pub pending_files: Vec<FileRecord>,
}

/// The paths of `dirs`.
pub open spec fn paths_of(dirs: Seq<DirRecord>) -> Seq<Seq<char>> {
    dirs.map_values(|d: DirRecord| d.path@)
}

pub open spec fn strings_view(v: Seq<String>) -> Seq<Seq<char>> {
    v.map_values(|s: String| s@)
}

/// What to do with one entry found in a directory being scanned.
#[derive(Debug, Clone, Copy, PartialEq, Eq, Structural)]
pub enum EntryAction {
    /// Hidden, excluded, or neither a directory nor a regular file.
    Skip,
    /// A directory to scan in turn.
    Recurse,
    /// A ZIP archive, scanned as a dir of its own.
    Archive,
    /// A regular file to hash and match.
    File,
}

/// The action for an entry called `name`, with extension `ext`: hidden
/// entries are skipped; directories are scanned when the scan is recursive;
/// regular files are skipped when excluded, taken as archives when their
/// extension is `zip`, and hashed otherwise.
pub open spec fn entry_action_of(
    name: Seq<char>,
    ext: Option<Seq<char>>,
    is_dir: bool,
    is_file: bool,
    recursive: bool,
    exclude: Seq<String>,
) -> EntryAction {
    if hidden_name(name) {
        EntryAction::Skip
    } else if recursive && is_dir {
        EntryAction::Recurse
    } else if is_file {
        if excluded_ext(ext, exclude) {
            EntryAction::Skip
        } else if zip_ext(ext) {
            EntryAction::Archive
        } else {
            EntryAction::File
        }
    } else {
        EntryAction::Skip
    }
}

/// Decides what to do with an entry called `name`, with extension `ext`.
pub fn classify_entry(
    name: &str,
    ext: &Option<String>,
    is_dir: bool,
    is_file: bool,
    recursive: bool,
    exclude: &Vec<String>,
) -> (r: EntryAction)
    ensures
        r == entry_action_of(name@, opt_text(*ext), is_dir, is_file, recursive, exclude@),
{
    if is_hidden_name(name) {
        EntryAction::Skip
    } else if recursive && is_dir {
        EntryAction::Recurse
    } else if is_file {
        let excluded = match ext {
            Some(e) => extension_listed(e.as_str(), exclude),
            None => false,
        };
        if excluded {
            EntryAction::Skip
        } else if is_zip_extension(ext) {
            EntryAction::Archive
        } else {
            EntryAction::File
        }
    } else {
        EntryAction::Skip
    }
}

/// Decides what to do with the entry at `path`, called `name`.
pub fn entry_action(
    path: &str,
    name: &str,
    is_dir: bool,
    is_file: bool,
    recursive: bool,
    exclude: &Vec<String>,
) -> (r: EntryAction)
    ensures
        r == entry_action_of(name@, path_extension(path@), is_dir, is_file, recursive, exclude@),
{
    let ext = extension_of(path);
    classify_entry(name, &ext, is_dir, is_file, recursive, exclude)
}

impl DirScan {
    /// Starts the scan of the directory at `path` for catalog `dat_id`. A dir
    /// recorded earlier is kept in an incremental scan and emptied of its
    /// files otherwise; a new path gets a new dir row under `parent`.
    pub fn begin(index: &mut Index, dat_id: &DatId, path: &str, parent: Option<&DirId>, incremental: bool) -> (r: Result<DirScan, StoreError>)
        requires
            old(index).wf(),
        ensures
            final(index).wf(),
            final(index).dats@ == old(index).dats@ && final(index).sets@ == old(index).sets@,
            final(index).roms@ == old(index).roms@,
            seq_any(old(index).dirs@, dir_at(path@, dat_id.0)) ==> r is Ok,
            ({
                &&& seq_any(old(index).dats@, dat_is(dat_id.0))
                &&& (parent matches Some(p) ==> seq_any(old(index).dirs@, dir_is(p.0, dat_id.0)))
                &&& old(index).next_id < i64::MAX
            }) ==> r is Ok,
            seq_any(old(index).dirs@, dir_at(path@, dat_id.0)) ==> (r matches Ok(scan) ==> old(index).dirs@.contains(scan.dir)),
            !seq_any(old(index).dirs@, dir_at(path@, dat_id.0)) ==> (r matches Ok(scan) ==> match parent {
                Some(p) => scan.dir.parent_id matches Some(q) && q.0 == p.0,
                None => scan.dir.parent_id is None,
            }),
            r is Err ==> final(index).same_as(*old(index)),
            r matches Ok(scan) ==> {
                &&& final(index).dirs@.contains(scan.dir)
                &&& scan.dir.path@ == path@ && scan.dir.dat_id.0 == dat_id.0
                &&& scan.incremental == (incremental && seq_any(old(index).dirs@, dir_at(path@, dat_id.0)))
                &&& !scan.incremental ==> !seq_any(final(index).files@, |f: FileRecord| f.dir_id.0 == scan.dir.id.0)
                    && scan.pending_files@.len() == 0
                &&& incremental ==> final(index).same_as(*old(index)) || !seq_any(old(index).dirs@, dir_at(path@, dat_id.0))
                &&& scan.pending_files@ == final(index).files@.filter(|f: FileRecord| f.dir_id.0 == scan.dir.id.0)
                &&& strings_view(scan.pending_dirs@) == paths_of(
                    final(index).dirs@.filter(|d: DirRecord| d.parent_id matches Some(p) && p.0 == scan.dir.id.0),
                )
            },
    {
        let ghost pre = *index;
        let (dir, keep) = match DirRecord::get_by_dat_path(index, dat_id, path) {
            Some(dir) => {
                if incremental {
                    (dir, true)
                } else {
                    dir.delete_files(index);
                    proof {
                        let p = |f: FileRecord| f.dir_id.0 == dir.id.0;
                        if seq_any(index.files@, p) {
                            let k = choose|k: int| 0 <= k < index.files@.len() && #[trigger] p(index.files@[k]);
                            let q = |x: FileRecord| !(x.dir_id.0 == dir.id.0);
                            assert(q(index.files@[k]));
                        }
                    }
                    (dir, false)
                }
            },
            None => {
                let new = NewDir {
                    dat_id: dat_id.duplicate(),
                    path: path.to_owned(),
                    parent_id: match parent {
                        Some(p) => Some(p.duplicate()),
                        None => None,
                    },
                };
                let dir = match DirRecord::insert(index, &new) {
                    Ok(d) => d,
                    Err(e) => return Err(e),
                };
                assert(index.dirs@[index.dirs@.len() - 1] == dir);
                proof {
                    let p = |f: FileRecord| f.dir_id.0 == dir.id.0;
                    if seq_any(index.files@, p) {
                        let k = choose|k: int| 0 <= k < index.files@.len() && #[trigger] p(index.files@[k]);
                        assert(pre.file_ok(pre.files@[k]));
                        let t = choose|t: int| 0 <= t < pre.dirs@.len() && #[trigger] dir_is(pre.files@[k].dir_id.0, pre.files@[k].dat_id.0)(pre.dirs@[t]);
                        assert(pre.keys_ok());
                        assert(dir_key()(pre.dirs@[t]) < pre.next_id);
                    }
                }
                (dir, false)
            },
        };
        let children = dir.child_dirs(index);
        let mut pending_dirs: Vec<String> = Vec::new();
        let mut i: usize = 0;
        while i < children.len()
            invariant
                i <= children.len(),
                strings_view(pending_dirs@) == paths_of(children@.subrange(0, i as int)),
            decreases children.len() - i,
        {
            let ghost before = pending_dirs@;
            let p = children[i].path.clone();
            pending_dirs.push(p);
            proof {
                let a = strings_view(pending_dirs@);
                let b = paths_of(children@.subrange(0, i as int + 1));
                assert(strings_view(before).len() == before.len());
                assert(paths_of(children@.subrange(0, i as int)).len() == i);
                assert(before.len() == i);
                assert(a.len() == b.len());
                assert forall|j: int| 0 <= j < a.len() implies a[j] == b[j] by {
                    if j < i {
                        assert(pending_dirs@[j] == before[j]);
                        assert(strings_view(before)[j] == paths_of(children@.subrange(0, i as int))[j]);
                    }
                }
                assert(a =~= b);
            }
            i = i + 1;
        }
        assert(children@.subrange(0, i as int) == children@);
        let pending_files = FileRecord::files_of_dir(index, &dir.id);
        proof {
            let p = |f: FileRecord| f.dir_id.0 == dir.id.0;
            if !keep && pending_files@.len() > 0 {
                lemma_filter_member(index.files@, p, 0);
                assert(p(pending_files@[0]));
                let t = choose|t: int| 0 <= t < index.files@.len() && index.files@[t] == pending_files@[0];
                assert(p(index.files@[t]));
            }
        }
        Ok(DirScan { dir, incremental: keep, pending_dirs, pending_files })
    }

    /// Notes that the child at `path` was found on disk again.
    pub fn note_dir_seen(&mut self, path: &str)
        ensures
            final(self).dir == old(self).dir && final(self).incremental == old(self).incremental,
            final(self).pending_files@ == old(self).pending_files@,
            strings_view(final(self).pending_dirs@) == strings_view(old(self).pending_dirs@).filter(|p: Seq<char>| p != path@),
    {
        let query = path.to_owned();
        let mut kept: Vec<String> = Vec::new();
        let mut i: usize = 0;
        while i < self.pending_dirs.len()
            invariant
                i <= self.pending_dirs.len(),
                query@ == path@,
                strings_view(kept@) == strings_view(self.pending_dirs@.subrange(0, i as int)).filter(|p: Seq<char>| p != path@),
            decreases self.pending_dirs.len() - i,
        {
            proof {
                let sub = strings_view(self.pending_dirs@.subrange(0, i as int + 1));
                assert(sub.drop_last() =~= strings_view(self.pending_dirs@.subrange(0, i as int)));
                reveal(Seq::filter);
            }
            if self.pending_dirs[i] != query {
                kept.push(self.pending_dirs[i].clone());
                assert(strings_view(kept@) =~= strings_view(self.pending_dirs@.subrange(0, i as int + 1)).filter(|p: Seq<char>| p != path@));
            }
            i = i + 1;
        }
        assert(self.pending_dirs@.subrange(0, i as int) == self.pending_dirs@);
        self.pending_dirs = kept;
    }

    /// Notes that a regular file called `name` was found on disk, and says
    /// whether it must be hashed and recorded: always in a full scan, and in
    /// an incremental one only when no file of that name was recorded.
    pub fn note_file_seen(&mut self, name: &str) -> (r: bool)
        ensures
            final(self).dir == old(self).dir && final(self).incremental == old(self).incremental,
            final(self).pending_dirs@ == old(self).pending_dirs@,
            final(self).pending_files@ == old(self).pending_files@.filter(|f: FileRecord| f.name@ != name@),
            r == !(old(self).incremental && seq_any(old(self).pending_files@, |f: FileRecord| f.name@ == name@)),
    {
        let query = name.to_owned();
        let existed = any_row(
            &self.pending_files,
            (|f: &FileRecord| -> (b: bool)
                ensures
                    b == (f.name@ == name@),
            {
                f.name == query
            }),
            Ghost(|f: FileRecord| f.name@ == name@),
        );
        let kept = select(
            &self.pending_files,
            (|f: &FileRecord| -> (b: bool)
                ensures
                    b == (f.name@ != name@),
            {
                f.name != query
            }),
            Ghost(|f: FileRecord| f.name@ != name@),
        );
        self.pending_files = kept;
        !(existed && self.incremental)
    }

    /// Records the regular files called `names` that were found in this
    /// directory. Each one that must be hashed (see `note_file_seen`) is read
    /// through `read`, which gives its size and hash, or nothing when it
    /// cannot be read; it is then recorded with its matches. Returns how many
    /// files were recorded. In an incremental scan where every name was
    /// recorded before, nothing is read and the index does not change.
    /// Unless identifiers run out, every name that was not recorded before
    /// either gets a row, with the matcher's outcome as its match rows, or
    /// could not be read. The scan's dir must be in the index, as `begin`
    /// leaves it.
    pub fn record_files<F: Fn(&str) -> Option<(u64, String)>>(
        &mut self,
        index: &mut Index,
        dat_id: &DatId,
        names: &Vec<String>,
        read: F,
    ) -> (r: u64)
        requires
            old(index).wf(),
            old(index).dirs@.contains(old(self).dir),
            old(self).dir.dat_id.0 == dat_id.0,
            forall|s: &str| #[trigger] read.requires((s,)),
        ensures
            final(index).wf(),
            final(index).dats@ == old(index).dats@ && final(index).sets@ == old(index).sets@,
            final(index).roms@ == old(index).roms@ && final(index).dirs@ == old(index).dirs@,
            final(self).dir == old(self).dir && final(self).incremental == old(self).incremental,
            final(self).pending_dirs@ == old(self).pending_dirs@,
            final(self).pending_files@ == old(self).pending_files@.filter(|f: FileRecord| !strings_view(names@).contains(f.name@)),
            r <= names@.len(),
            old(self).incremental && all_recorded(old(self).pending_files@, names@) ==> final(index).same_as(*old(index)) && r == 0,
            final(index).files@.len() >= old(index).files@.len(),
            final(index).files@.subrange(0, old(index).files@.len() as int) == old(index).files@,
            forall|k: int| old(index).files@.len() <= k < final(index).files@.len() ==> {
                &&& (#[trigger] final(index).files@[k]).dir_id.0 == old(self).dir.id.0
                &&& strings_view(names@).contains(final(index).files@[k].name@)
            },
            final(index).next_id < i64::MAX ==> {
                &&& final(index).files@.len() == old(index).files@.len() + r
                &&& forall|k: int| old(index).files@.len() <= k < final(index).files@.len() ==> matches_recorded(
                    final(index).matches@,
                    plain_outcome(old(index).roms@, dat_id.0, #[trigger] final(index).files@[k]),
                    dat_id.0,
                    final(index).files@[k].id.0,
                )
                &&& forall|t: int| 0 <= t < names@.len()
                    && !(old(self).incremental && seq_any(old(self).pending_files@, |f: FileRecord| f.name@ == names@[t]@))
                    ==> seq_any(final(index).files@, file_named(old(self).dir.id.0, (#[trigger] names@[t])@))
                        || exists|s: &str| s@ == names@[t]@ && read.ensures((s,), None::<(u64, String)>)
            },
    {
        let ghost pre = *index;
        let ghost pending0 = self.pending_files@;
        let ghost seen = |i: int| |f: FileRecord| !strings_view(names@.subrange(0, i)).contains(f.name@);
        let mut count: u64 = 0;
        let mut i: usize = 0;
        assert(pending0.filter(seen(0)) =~= pending0) by {
            assert(seq_all(pending0, seen(0)));
            lemma_filter_all(pending0, seen(0));
        }
        while i < names.len()
            invariant
                index.wf(),
                pre == *old(index),
                pending0 == old(self).pending_files@,
                i <= names.len(),
                count <= i,
                seen == (|i: int| |f: FileRecord| !strings_view(names@.subrange(0, i)).contains(f.name@)),
                index.dats@ == pre.dats@ && index.sets@ == pre.sets@ && index.roms@ == pre.roms@ && index.dirs@ == pre.dirs@,
                self.dir == old(self).dir && self.incremental == old(self).incremental,
                self.pending_dirs@ == old(self).pending_dirs@,
                self.pending_files@ == pending0.filter(seen(i as int)),
                forall|s: &str| #[trigger] read.requires((s,)),
                old(self).incremental && all_recorded(pending0, names@) ==> index.same_as(pre) && count == 0,
                pre.dirs@.contains(old(self).dir),
                old(self).dir.dat_id.0 == dat_id.0,
                index.files@.len() >= pre.files@.len(),
                index.files@.subrange(0, pre.files@.len() as int) == pre.files@,
                forall|k: int| pre.files@.len() <= k < index.files@.len() ==> {
                    &&& (#[trigger] index.files@[k]).dir_id.0 == old(self).dir.id.0
                    &&& strings_view(names@.subrange(0, i as int)).contains(index.files@[k].name@)
                },
                index.next_id >= pre.next_id,
                index.next_id < i64::MAX ==> {
                    &&& index.files@.len() == pre.files@.len() + count
                    &&& forall|k: int| pre.files@.len() <= k < index.files@.len() ==> matches_recorded(
                        index.matches@,
                        plain_outcome(pre.roms@, dat_id.0, #[trigger] index.files@[k]),
                        dat_id.0,
                        index.files@[k].id.0,
                    )
                    &&& forall|t: int| 0 <= t < i
                        && !(old(self).incremental && seq_any(pending0, |f: FileRecord| f.name@ == names@[t]@))
                        ==> seq_any(index.files@, file_named(old(self).dir.id.0, (#[trigger] names@[t])@))
                            || exists|s: &str| s@ == names@[t]@ && read.ensures((s,), None::<(u64, String)>)
                },
            decreases names.len() - i,
        {
            let name = names[i].as_str();
            let ghost before = self.pending_files@;
            let fresh = self.note_file_seen(name);
            proof {
                let q = |f: FileRecord| f.name@ != names@[i as int]@;
                lemma_filter_filter(pending0, seen(i as int), q);
                assert(strings_view(names@.subrange(0, i as int + 1)) =~= strings_view(names@.subrange(0, i as int)).push(names@[i as int]@));
                assert forall|x: FileRecord| #[trigger] seen(i as int + 1)(x) == (seen(i as int)(x) && q(x)) by {
                    vstd::seq_lib::lemma_seq_contains_after_push(
                        strings_view(names@.subrange(0, i as int)),
                        names@[i as int]@,
                        x.name@,
                    );
                }
                assert((|x: FileRecord| seen(i as int)(x) && q(x)) =~= seen(i as int + 1));
                if old(self).incremental && all_recorded(pending0, names@) {
                    let k = choose|k: int| 0 <= k < pending0.len() && #[trigger] pending0[k].name@ == names@[i as int]@;
                    assert(!strings_view(names@.subrange(0, i as int)).contains(names@[i as int]@)) by {
                        if strings_view(names@.subrange(0, i as int)).contains(names@[i as int]@) {
                            let t = choose|t: int| 0 <= t < i && strings_view(names@.subrange(0, i as int))[t] == names@[i as int]@;
                            assert(names@.subrange(0, i as int)[t] == names@[t]);
                        }
                    }
                    assert(seen(i as int)(pending0[k]));
                    assert(pending0.filter(seen(i as int)).contains(pending0[k]));
                    let u = choose|u: int| 0 <= u < before.len() && before[u] == pending0[k];
                    assert((|f: FileRecord| f.name@ == name@)(before[u]));
                }
            }
            let ghost files_before = index.files@;
            let ghost mid = *index;
            proof {
                if !fresh {
                    let pf = |f: FileRecord| f.name@ == names@[i as int]@;
                    let u = choose|u: int| 0 <= u < before.len() && #[trigger] pf(before[u]);
                    lemma_filter_member(pending0, seen(i as int), u);
                    let w = choose|w: int| 0 <= w < pending0.len() && pending0[w] == before[u];
                    assert(pf(pending0[w]));
                }
            }
            if fresh {
                let content = read(name);
                let recorded = record_read(index, dat_id, &self.dir, name, content);
                proof {
                    if recorded {
                        let f = index.files@.last();
                        assert forall|k: int| pre.files@.len() <= k < index.files@.len() - 1 && index.next_id < i64::MAX implies matches_recorded(
                            index.matches@,
                            plain_outcome(pre.roms@, dat_id.0, #[trigger] index.files@[k]),
                            dat_id.0,
                            index.files@[k].id.0,
                        ) by {
                            assert(index.files@[k] == files_before[k]);
                            assert(mid.keys_ok());
                            assert(file_key()(mid.files@[k]) < mid.next_id);
                            lemma_other_file_rows(mid.matches@, index.matches@, plain_outcome(pre.roms@, dat_id.0, f), dat_id.0,
                                mid.next_id, mid.next_id + 1int, plain_outcome(pre.roms@, dat_id.0, files_before[k]), files_before[k].id.0);
                        }
                        lemma_new_file_rows(mid, index.matches@, plain_outcome(pre.roms@, dat_id.0, f), dat_id.0);
                    }
                    if content is None {
                        assert(name@ == names@[i as int]@);
                        assert(exists|s: &str| s@ == names@[i as int]@ && read.ensures((s,), None::<(u64, String)>));
                    }
                }
                if recorded {
                    count = count + 1;
                }
            }
            proof {
                let sv_i = strings_view(names@.subrange(0, i as int));
                let sv_n = strings_view(names@.subrange(0, i as int + 1));
                assert(sv_n =~= sv_i.push(names@[i as int]@));
                assert(index.files@.subrange(0, pre.files@.len() as int) =~= pre.files@) by {
                    assert forall|k: int| 0 <= k < pre.files@.len() implies index.files@[k] == pre.files@[k] by {
                        assert(index.files@[k] == files_before[k]);
                        assert(files_before.subrange(0, pre.files@.len() as int)[k] == files_before[k]);
                    }
                }
                assert forall|k: int| pre.files@.len() <= k < index.files@.len() implies {
                    &&& (#[trigger] index.files@[k]).dir_id.0 == old(self).dir.id.0
                    &&& sv_n.contains(index.files@[k].name@)
                } by {
                    vstd::seq_lib::lemma_seq_contains_after_push(sv_i, names@[i as int]@, index.files@[k].name@);
                    if k < files_before.len() {
                        assert(index.files@[k] == files_before[k]);
                    }
                }
                if index.next_id < i64::MAX {
                    assert forall|t: int| 0 <= t < i + 1
                        && !(old(self).incremental && seq_any(pending0, |f: FileRecord| f.name@ == names@[t]@))
                        implies seq_any(index.files@, file_named(old(self).dir.id.0, (#[trigger] names@[t])@))
                            || exists|s: &str| s@ == names@[t]@ && read.ensures((s,), None::<(u64, String)>) by {
                        if t == i {
                            if fresh {
                            }
                        } else {
                            if seq_any(files_before, file_named(old(self).dir.id.0, names@[t]@)) {
                                let w = choose|w: int| 0 <= w < files_before.len()
                                    && #[trigger] file_named(old(self).dir.id.0, names@[t]@)(files_before[w]);
                                assert(file_named(old(self).dir.id.0, names@[t]@)(index.files@[w]));
                            }
                        }
                    }
                    assert forall|k: int| pre.files@.len() <= k < index.files@.len() implies matches_recorded(
                        index.matches@,
                        plain_outcome(pre.roms@, dat_id.0, #[trigger] index.files@[k]),
                        dat_id.0,
                        index.files@[k].id.0,
                    ) by {
                        if k < files_before.len() {
                            assert(index.files@[k] == files_before[k]);
                        }
                    }
                }
            }
            i = i + 1;
        }
        assert(names@.subrange(0, i as int) == names@);
        count
    }

    /// Ends the scan: child dirs not seen again are removed with their files,
    /// except, in an incremental scan, those that `still_dirs` says are still
    /// directories on disk; recorded files not seen again are removed with
    /// their matches.
    pub fn finish(self, index: &mut Index, dat_id: &DatId, still_dirs: &Vec<bool>)
        requires
            old(index).wf(),
            still_dirs@.len() == self.pending_dirs@.len(),
        ensures
            final(index).wf(),
            final(index).dats@ == old(index).dats@ && final(index).sets@ == old(index).sets@,
            final(index).roms@ == old(index).roms@,
            forall|k: int| 0 <= k < self.pending_files@.len() ==>
                !seq_any(final(index).files@, #[trigger] file_id_is(self.pending_files@[k].id.0)),
            self.pending_files@.len() == 0 && (self.pending_dirs@.len() == 0 || self.incremental && all_true(still_dirs@))
                ==> final(index).same_as(*old(index)),
            forall|k: int| 0 <= k < final(index).files@.len() ==> old(index).files@.contains(#[trigger] final(index).files@[k]),
            forall|i: int| 0 <= i < self.pending_dirs@.len() && self.removed(still_dirs@, i)
                ==> !seq_any(final(index).dirs@, dir_at((#[trigger] self.pending_dirs@[i])@, dat_id.0)),
            forall|k: int| 0 <= k < final(index).files@.len()
                ==> !self.in_removed_dir(old(index).dirs@, still_dirs@, dat_id.0, (#[trigger] final(index).files@[k]).dir_id.0),
            forall|k: int| 0 <= k < old(index).dirs@.len() && !self.at_removed_path(still_dirs@, dat_id.0, #[trigger] old(index).dirs@[k])
                ==> shaped_from(final(index).dirs@, old(index).dirs@[k]),
            forall|k: int| 0 <= k < old(index).files@.len() && self.kept(old(index).dirs@, still_dirs@, dat_id.0, #[trigger] old(index).files@[k])
                ==> final(index).files@.contains(old(index).files@[k]),
            forall|k: int, j: int| 0 <= k < old(index).matches@.len() && 0 <= j < old(index).files@.len()
                && (#[trigger] old(index).matches@[k]).file_id.0 == (#[trigger] old(index).files@[j]).id.0
                && self.kept(old(index).dirs@, still_dirs@, dat_id.0, old(index).files@[j])
                ==> final(index).matches@.contains(old(index).matches@[k]),
    {
        let ghost pre = *index;
        let mut i: usize = 0;
        assert forall|k: int| 0 <= k < index.dirs@.len() implies shaped_from(pre.dirs@, #[trigger] index.dirs@[k]) by {
            let x = index.dirs@[k];
            assert(dir_at_id(x.path@, x.dat_id.0, x.id.0)(pre.dirs@[k]));
        }
        assert forall|k: int| 0 <= k < pre.dirs@.len() && !self.at_removed_path(still_dirs@, dat_id.0, #[trigger] pre.dirs@[k])
            implies shaped_from(index.dirs@, pre.dirs@[k]) by {
            let x = pre.dirs@[k];
            assert(dir_at_id(x.path@, x.dat_id.0, x.id.0)(index.dirs@[k]));
        }
        while i < self.pending_dirs.len()
            invariant
                index.wf(),
                pre == *old(index),
                i <= self.pending_dirs.len(),
                still_dirs@.len() == self.pending_dirs@.len(),
                index.dats@ == pre.dats@ && index.sets@ == pre.sets@ && index.roms@ == pre.roms@,
                self.pending_dirs@.len() == 0 || self.incremental && all_true(still_dirs@) ==> index.same_as(pre),
                forall|k: int| 0 <= k < index.files@.len() ==> pre.files@.contains(#[trigger] index.files@[k]),
                forall|k: int| 0 <= k < index.dirs@.len() ==> shaped_from(pre.dirs@, #[trigger] index.dirs@[k]),
                forall|k: int| 0 <= k < pre.dirs@.len() && !self.at_removed_path(still_dirs@, dat_id.0, #[trigger] pre.dirs@[k])
                    ==> shaped_from(index.dirs@, pre.dirs@[k]),
                forall|t: int| 0 <= t < i && self.removed(still_dirs@, t)
                    ==> !seq_any(index.dirs@, dir_at((#[trigger] self.pending_dirs@[t])@, dat_id.0)),
                forall|k: int| 0 <= k < pre.files@.len() && self.kept(pre.dirs@, still_dirs@, dat_id.0, #[trigger] pre.files@[k])
                    ==> index.files@.contains(pre.files@[k]),
                forall|k: int, j: int| 0 <= k < pre.matches@.len() && 0 <= j < pre.files@.len()
                    && (#[trigger] pre.matches@[k]).file_id.0 == (#[trigger] pre.files@[j]).id.0
                    && self.kept(pre.dirs@, still_dirs@, dat_id.0, pre.files@[j])
                    ==> index.matches@.contains(pre.matches@[k]),
            decreases self.pending_dirs.len() - i,
        {
            if !(self.incremental && still_dirs[i]) {
                let ghost before = *index;
                let path = self.pending_dirs[i].as_str();
                DirRecord::delete_at(index, dat_id, path);
                proof {
                    let p = self.pending_dirs@[i as int]@;
                    assert forall|k: int| 0 <= k < index.files@.len() implies pre.files@.contains(#[trigger] index.files@[k]) by {
                        let t = choose|t: int| 0 <= t < before.files@.len() && before.files@[t] == index.files@[k];
                    }
                    assert forall|k: int| 0 <= k < index.dirs@.len() implies shaped_from(pre.dirs@, #[trigger] index.dirs@[k]) by {
                        let x = index.dirs@[k];
                        assert(shaped_from(before.dirs@, x));
                        let t = choose|t: int| 0 <= t < before.dirs@.len() && #[trigger] dir_at_id(x.path@, x.dat_id.0, x.id.0)(before.dirs@[t]);
                        assert(shaped_from(pre.dirs@, before.dirs@[t]));
                    }
                    assert forall|k: int| 0 <= k < pre.dirs@.len() && !self.at_removed_path(still_dirs@, dat_id.0, #[trigger] pre.dirs@[k])
                        implies shaped_from(index.dirs@, pre.dirs@[k]) by {
                        let x = pre.dirs@[k];
                        let w = choose|w: int| 0 <= w < before.dirs@.len() && #[trigger] dir_at_id(x.path@, x.dat_id.0, x.id.0)(before.dirs@[w]);
                        if dir_at(p, dat_id.0)(before.dirs@[w]) {
                            assert(dir_at(self.pending_dirs@[i as int]@, dat_id.0)(x));
                        }
                    }
                    assert forall|t: int| 0 <= t < i + 1 && self.removed(still_dirs@, t)
                        implies !seq_any(index.dirs@, dir_at((#[trigger] self.pending_dirs@[t])@, dat_id.0)) by {
                        if t < i {
                            let pt = dir_at(self.pending_dirs@[t]@, dat_id.0);
                            if seq_any(index.dirs@, pt) {
                                let x = choose|x: int| 0 <= x < index.dirs@.len() && #[trigger] pt(index.dirs@[x]);
                                assert(shaped_from(before.dirs@, index.dirs@[x]));
                                let y = choose|y: int| 0 <= y < before.dirs@.len()
                                    && #[trigger] dir_at_id(index.dirs@[x].path@, index.dirs@[x].dat_id.0, index.dirs@[x].id.0)(before.dirs@[y]);
                                assert(pt(before.dirs@[y]));
                            }
                        }
                    }
                    assert forall|k: int| 0 <= k < pre.files@.len() && self.kept(pre.dirs@, still_dirs@, dat_id.0, #[trigger] pre.files@[k])
                        implies index.files@.contains(pre.files@[k]) by {
                        let f = pre.files@[k];
                        let t = choose|t: int| 0 <= t < before.files@.len() && before.files@[t] == f;
                        if seq_any(before.dirs@, dir_at_id(p, dat_id.0, f.dir_id.0)) {
                            let y = choose|y: int| 0 <= y < before.dirs@.len() && #[trigger] dir_at_id(p, dat_id.0, f.dir_id.0)(before.dirs@[y]);
                            assert(shaped_from(pre.dirs@, before.dirs@[y]));
                            let z = choose|z: int| 0 <= z < pre.dirs@.len()
                                && #[trigger] dir_at_id(before.dirs@[y].path@, before.dirs@[y].dat_id.0, before.dirs@[y].id.0)(pre.dirs@[z]);
                            assert(dir_at_id(p, dat_id.0, f.dir_id.0)(pre.dirs@[z]));
                            assert(self.in_removed_dir(pre.dirs@, still_dirs@, dat_id.0, f.dir_id.0));
                        }
                    }
                    assert forall|k: int, j: int| 0 <= k < pre.matches@.len() && 0 <= j < pre.files@.len()
                        && (#[trigger] pre.matches@[k]).file_id.0 == (#[trigger] pre.files@[j]).id.0
                        && self.kept(pre.dirs@, still_dirs@, dat_id.0, pre.files@[j])
                        implies index.matches@.contains(pre.matches@[k]) by {
                        let f = pre.files@[j];
                        let m = pre.matches@[k];
                        let tf = choose|t: int| 0 <= t < before.files@.len() && before.files@[t] == f;
                        let tm = choose|t: int| 0 <= t < before.matches@.len() && before.matches@[t] == m;
                        if seq_any(before.dirs@, dir_at_id(p, dat_id.0, f.dir_id.0)) {
                            let y = choose|y: int| 0 <= y < before.dirs@.len() && #[trigger] dir_at_id(p, dat_id.0, f.dir_id.0)(before.dirs@[y]);
                            assert(shaped_from(pre.dirs@, before.dirs@[y]));
                            let z = choose|z: int| 0 <= z < pre.dirs@.len()
                                && #[trigger] dir_at_id(before.dirs@[y].path@, before.dirs@[y].dat_id.0, before.dirs@[y].id.0)(pre.dirs@[z]);
                            assert(dir_at_id(p, dat_id.0, f.dir_id.0)(pre.dirs@[z]));
                            assert(self.in_removed_dir(pre.dirs@, still_dirs@, dat_id.0, f.dir_id.0));
                        }
                        assert(before.matches@[tm].file_id.0 == before.files@[tf].id.0);
                    }
                }
            }
            i = i + 1;
        }
        let ghost mid = *index;
        let mut j: usize = 0;
        while j < self.pending_files.len()
            invariant
                index.wf(),
                pre == *old(index),
                j <= self.pending_files.len(),
                index.dats@ == pre.dats@ && index.sets@ == pre.sets@ && index.roms@ == pre.roms@,
                index.dirs@ == mid.dirs@,
                self.pending_files@.len() == 0 ==> index.same_as(mid),
                forall|k: int| 0 <= k < j ==> !seq_any(index.files@, #[trigger] file_id_is(self.pending_files@[k].id.0)),
                forall|k: int| 0 <= k < index.files@.len() ==> pre.files@.contains(#[trigger] index.files@[k]),
                forall|k: int| 0 <= k < pre.files@.len() && self.kept(pre.dirs@, still_dirs@, dat_id.0, #[trigger] pre.files@[k])
                    ==> index.files@.contains(pre.files@[k]),
                forall|k: int, j: int| 0 <= k < pre.matches@.len() && 0 <= j < pre.files@.len()
                    && (#[trigger] pre.matches@[k]).file_id.0 == (#[trigger] pre.files@[j]).id.0
                    && self.kept(pre.dirs@, still_dirs@, dat_id.0, pre.files@[j])
                    ==> index.matches@.contains(pre.matches@[k]),
            decreases self.pending_files.len() - j,
        {
            let ghost before = *index;
            let id = self.pending_files[j].id.duplicate();
            FileRecord::delete_by_id(index, &id);
            proof {
                let q = |x: FileRecord| !(x.id.0 == id.0);
                assert forall|k: int| 0 <= k < index.files@.len() implies pre.files@.contains(#[trigger] index.files@[k]) by {
                    lemma_filter_member(before.files@, q, k);
                    let t = choose|t: int| 0 <= t < before.files@.len() && before.files@[t] == index.files@[k];
                }
                assert forall|k: int| 0 <= k < j + 1 implies !seq_any(index.files@, #[trigger] file_id_is(self.pending_files@[k].id.0)) by {
                    if k < j {
                        lemma_none_filter(before.files@, file_id_is(self.pending_files@[k].id.0), q);
                    } else {
                        let p = file_id_is(id.0);
                        if seq_any(index.files@, p) {
                            let t = choose|t: int| 0 <= t < index.files@.len() && #[trigger] p(index.files@[t]);
                            assert(q(index.files@[t]));
                        }
                    }
                }
                assert forall|k: int| 0 <= k < pre.files@.len() && self.kept(pre.dirs@, still_dirs@, dat_id.0, #[trigger] pre.files@[k])
                    implies index.files@.contains(pre.files@[k]) by {
                    let f = pre.files@[k];
                    let t = choose|t: int| 0 <= t < before.files@.len() && before.files@[t] == f;
                    assert(file_id_is(id.0)(self.pending_files@[j as int]));
                    assert(q(before.files@[t]));
                }
                let doomed = before.files@.filter(|x: FileRecord| x.id.0 == id.0);
                assert forall|k: int, jj: int| 0 <= k < pre.matches@.len() && 0 <= jj < pre.files@.len()
                    && (#[trigger] pre.matches@[k]).file_id.0 == (#[trigger] pre.files@[jj]).id.0
                    && self.kept(pre.dirs@, still_dirs@, dat_id.0, pre.files@[jj])
                    implies index.matches@.contains(pre.matches@[k]) by {
                    let m = pre.matches@[k];
                    let tm = choose|t: int| 0 <= t < before.matches@.len() && before.matches@[t] == m;
                    assert(file_id_is(id.0)(self.pending_files@[j as int]));
                    let pid = |x: FileRecord| x.id.0 == m.file_id.0;
                    if seq_any(doomed, pid) {
                        let u = choose|u: int| 0 <= u < doomed.len() && #[trigger] pid(doomed[u]);
                        assert((|x: FileRecord| x.id.0 == id.0)(doomed[u]));
                    }
                    let qm = |mm: MatchRecord| !seq_any(doomed, |x: FileRecord| x.id.0 == mm.file_id.0);
                    assert(qm(before.matches@[tm]));
                }
            }
            j = j + 1;
        }
        proof {
            assert forall|k: int| 0 <= k < index.files@.len()
                implies !self.in_removed_dir(pre.dirs@, still_dirs@, dat_id.0, (#[trigger] index.files@[k]).dir_id.0) by {
                let f = index.files@[k];
                if self.in_removed_dir(pre.dirs@, still_dirs@, dat_id.0, f.dir_id.0) {
                    let i2 = choose|i2: int| 0 <= i2 < self.pending_dirs@.len() && self.removed(still_dirs@, i2)
                        && seq_any(pre.dirs@, dir_at_id(self.pending_dirs@[i2]@, dat_id.0, f.dir_id.0));
                    let p = self.pending_dirs@[i2]@;
                    let y = choose|y: int| 0 <= y < pre.dirs@.len() && #[trigger] dir_at_id(p, dat_id.0, f.dir_id.0)(pre.dirs@[y]);
                    assert(index.file_ok(f));
                    let x = choose|x: int| 0 <= x < index.dirs@.len() && #[trigger] dir_is(f.dir_id.0, f.dat_id.0)(index.dirs@[x]);
                    assert(shaped_from(pre.dirs@, index.dirs@[x]));
                    let z = choose|z: int| 0 <= z < pre.dirs@.len()
                        && #[trigger] dir_at_id(index.dirs@[x].path@, index.dirs@[x].dat_id.0, index.dirs@[x].id.0)(pre.dirs@[z]);
                    assert(dir_key()(pre.dirs@[z]) == dir_key()(pre.dirs@[y]));
                    assert(dir_at(p, dat_id.0)(index.dirs@[x]));
                    assert(!seq_any(index.dirs@, dir_at(self.pending_dirs@[i2]@, dat_id.0)));
                }
            }
        }
    }

    /// Pending dir `i` is removed at the end of the scan: the scan is full,
    /// or the directory is gone from disk.
    pub open spec fn removed(&self, still_dirs: Seq<bool>, i: int) -> bool {
        !(self.incremental && still_dirs[i])
    }

    /// Dir `d` is recorded for a pending path that is removed.
    pub open spec fn at_removed_path(&self, still_dirs: Seq<bool>, dat: i64, d: DirRecord) -> bool {
        exists|i: int| 0 <= i < self.pending_dirs@.len() && self.removed(still_dirs, i)
            && dir_at((#[trigger] self.pending_dirs@[i])@, dat)(d)
    }

    /// Dir `dir_id` of `dirs` was recorded for a pending path that is removed.
    pub open spec fn in_removed_dir(&self, dirs: Seq<DirRecord>, still_dirs: Seq<bool>, dat: i64, dir_id: i64) -> bool {
        exists|i: int| 0 <= i < self.pending_dirs@.len() && self.removed(still_dirs, i)
            && seq_any(dirs, dir_at_id((#[trigger] self.pending_dirs@[i])@, dat, dir_id))
    }

    /// File `f` survives the end of the scan: it was seen again and does not
    /// lie in a removed dir.
    pub open spec fn kept(&self, dirs: Seq<DirRecord>, still_dirs: Seq<bool>, dat: i64, f: FileRecord) -> bool {
        &&& !seq_any(self.pending_files@, file_id_is(f.id.0))
        &&& !self.in_removed_dir(dirs, still_dirs, dat, f.dir_id.0)
    }
}

/// The match rows of file `id`.
pub open spec fn file_rows(matches: Seq<MatchRecord>, id: i64) -> Seq<MatchRecord> {
    matches.filter(|m: MatchRecord| m.file_id.0 == id)
}

/// The match rows of file `id` record the attributions `o`, in order.
pub open spec fn matches_recorded(matches: Seq<MatchRecord>, o: Option<Seq<FileMatch>>, dat: i64, id: i64) -> bool {
    &&& file_rows(matches, id).len() == outcome_len(o)
    &&& forall|k: int| 0 <= k < file_rows(matches, id).len() ==> records(#[trigger] file_rows(matches, id)[k], o.unwrap()[k], dat, id)
}

/// What a file of a plain directory matches: no set restriction.
pub open spec fn plain_outcome(roms: Seq<RomRecord>, dat: i64, f: FileRecord) -> Option<Seq<FileMatch>> {
    match_outcome(roms, dat, f.name@, f.size, f.hash@, Seq::empty())
}

/// The matches appended for a new file are exactly its match rows.
#[verifier::rlimit(50)]
proof fn lemma_new_file_rows(before: Index, after: Seq<MatchRecord>, o: Option<Seq<FileMatch>>, dat: i64)
    requires
        before.wf(),
        appended_matches(before.matches@, after, o, dat, before.next_id, before.next_id + 1int),
    ensures
        matches_recorded(after, o, dat, before.next_id),
{
    let n = before.next_id;
    let p = |m: MatchRecord| m.file_id.0 == n;
    let b = before.matches@;
    let tail = after.subrange(b.len() as int, after.len() as int);
    lemma_filter_extend(b, after, p);
    assert forall|k: int| 0 <= k < b.len() implies !p(#[trigger] b[k]) by {
        assert(before.match_ok(b[k]));
        let t = choose|t: int| 0 <= t < before.files@.len() && #[trigger] file_is(b[k].file_id.0, b[k].dat_id.0)(before.files@[t]);
        assert(file_key()(before.files@[t]) < n);
    }
    lemma_filter_none(b, p);
    assert forall|k: int| 0 <= k < tail.len() implies #[trigger] p(tail[k]) by {
        assert(tail[k] == after[b.len() + k]);
    }
    assert(seq_all(tail, p));
    lemma_filter_all(tail, p);
    assert(file_rows(after, n) =~= tail);
    assert forall|k: int| 0 <= k < tail.len() implies records(#[trigger] file_rows(after, n)[k], o.unwrap()[k], dat, n) by {
        assert(tail[k] == after[b.len() + k]);
    }
}

/// Matches appended for a file that had none are exactly its match rows.
pub proof fn lemma_rows_after_append(
    before: Seq<MatchRecord>,
    after: Seq<MatchRecord>,
    o: Option<Seq<FileMatch>>,
    dat: i64,
    id: i64,
    first: int,
)
    requires
        appended_matches(before, after, o, dat, id, first),
        file_rows(before, id) == Seq::<MatchRecord>::empty(),
    ensures
        matches_recorded(after, o, dat, id),
{
    let p = |m: MatchRecord| m.file_id.0 == id;
    let tail = after.subrange(before.len() as int, after.len() as int);
    lemma_filter_extend(before, after, p);
    assert forall|k: int| 0 <= k < tail.len() implies #[trigger] p(tail[k]) by {
        assert(tail[k] == after[before.len() + k]);
    }
    assert(seq_all(tail, p));
    lemma_filter_all(tail, p);
    assert(file_rows(after, id) =~= tail);
    assert forall|k: int| 0 <= k < tail.len() implies records(#[trigger] file_rows(after, id)[k], o.unwrap()[k], dat, id) by {
        assert(tail[k] == after[before.len() + k]);
    }
}

/// Matches appended for file `n` leave the match rows of another file alone.
pub proof fn lemma_other_file_rows(
    before: Seq<MatchRecord>,
    after: Seq<MatchRecord>,
    o_new: Option<Seq<FileMatch>>,
    dat: i64,
    n: i64,
    first: int,
    o: Option<Seq<FileMatch>>,
    id: i64,
)
    requires
        appended_matches(before, after, o_new, dat, n, first),
        id != n,
        matches_recorded(before, o, dat, id),
    ensures
        matches_recorded(after, o, dat, id),
{
    let p = |m: MatchRecord| m.file_id.0 == id;
    let tail = after.subrange(before.len() as int, after.len() as int);
    lemma_filter_extend(before, after, p);
    assert forall|k: int| 0 <= k < tail.len() implies !p(#[trigger] tail[k]) by {
        assert(tail[k] == after[before.len() + k]);
    }
    lemma_filter_none(tail, p);
    assert(file_rows(after, id) =~= file_rows(before, id));
}

/// Every flag is set.
pub open spec fn all_true(flags: Seq<bool>) -> bool {
    forall|k: int| 0 <= k < flags.len() ==> #[trigger] flags[k]
}

/// Every name in `names` is that of one of `files`, and no name repeats.
pub open spec fn all_recorded(files: Seq<FileRecord>, names: Seq<String>) -> bool {
    &&& forall|k: int| 0 <= k < names.len() ==> exists|j: int| 0 <= j < files.len() && #[trigger] files[j].name@ == (#[trigger] names[k])@
    &&& forall|a: int, b: int| 0 <= a < b < names.len() ==> (#[trigger] names[a])@ != (#[trigger] names[b])@
}

/// File row with identifier `id`.
pub open spec fn file_id_is(id: i64) -> spec_fn(FileRecord) -> bool {
    |f: FileRecord| f.id.0 == id
}

/// The contents of one member of an archive: its name as stored, its size
/// and the hash of its bytes.
#[derive(Debug, Clone)]
pub struct ArchiveMember {
    pub name: String,
    pub size: u64,
    pub hash: String,
}

/// Why the scan of an archive was abandoned.
#[derive(Debug, Clone, Copy, PartialEq, Eq, Structural)]
pub enum ScanError {
    /// The index refused a row.
    Store(StoreError),
    /// The archive path has no file name to take set names from.
    NoFileName,
}

/// The archive at `path` must be read: always in a full scan, and in an
/// incremental one only when no dir was recorded for it.
pub fn archive_needs_scan(index: &Index, dat_id: &DatId, path: &str, incremental: bool) -> (r: bool)
    ensures
        r == !(incremental && seq_any(index.dirs@, dir_at(path@, dat_id.0))),
{
    let found = DirRecord::get_by_dat_path(index, dat_id, path);
    !(incremental && found.is_some())
}

/// The members of an archive that a scan excluding `exclude` records.
pub open spec fn included_members(members: Seq<ArchiveMember>, exclude: Seq<String>) -> Seq<ArchiveMember> {
    members.filter(member_included(exclude))
}

/// A member that a scan excluding `exclude` records.
pub open spec fn member_included(exclude: Seq<String>) -> spec_fn(ArchiveMember) -> bool {
    |m: ArchiveMember| !excluded_ext(path_extension(m.name@), exclude)
}

/// No two included members share a name.
pub open spec fn distinct_included(members: Seq<ArchiveMember>, inc: spec_fn(ArchiveMember) -> bool) -> bool {
    forall|a: int, b: int|
        0 <= a < b < members.len() && inc(members[a]) && inc(members[b])
            ==> (#[trigger] members[a]).name@ != (#[trigger] members[b]).name@
}

/// The scan of the archive at `path` can be recorded: the path has a file
/// name, the included members have distinct names, the archive's dir exists
/// or its parent is a dir of the catalog, and identifiers suffice (one for
/// the dir, and per member one for its row and at most one per rom).
pub open spec fn archive_can_succeed(idx: Index, dat: i64, path: Seq<char>, parent: i64, members: Seq<ArchiveMember>, exclude: Seq<String>) -> bool {
    &&& path_prefix(path) is Some
    &&& distinct_included(members, member_included(exclude))
    &&& seq_any(idx.dirs@, dir_at(path, dat)) || seq_any(idx.dirs@, dir_is(parent, dat))
    &&& idx.next_id + 1 + members.filter(member_included(exclude)).len() * (1 + idx.roms@.len()) <= i64::MAX
}

/// Dir `d` holds the archive at `path` as scanned: the dir recorded before
/// is kept, a new one hangs under `parent`, its files are the members, and
/// each file's match rows are the matcher's outcome restricted to the sets
/// named like the archive.
pub open spec fn archive_dir(
    old: Index,
    files: Seq<FileRecord>,
    matches: Seq<MatchRecord>,
    d: DirRecord,
    dat: i64,
    path: Seq<char>,
    parent: i64,
    incl: Seq<ArchiveMember>,
) -> bool {
    &&& dir_at(path, dat)(d)
    &&& archive_recorded(files, d.id.0, incl)
    &&& seq_any(old.dirs@, dir_at(path, dat)) ==> old.dirs@.contains(d)
    &&& !seq_any(old.dirs@, dir_at(path, dat)) ==> (d.parent_id matches Some(p) && p.0 == parent)
    &&& forall|k: int| 0 <= k < files.len() && (#[trigger] files[k]).dir_id.0 == d.id.0 ==> matches_recorded(
        matches,
        match_outcome(old.roms@, dat, files[k].name@, files[k].size, files[k].hash@, named_set_ids(old.sets@, dat, path_prefix(path).unwrap())),
        dat,
        files[k].id.0,
    )
}

/// Scans the ZIP archive at `path`, found in dir `parent_id`, as a dir of its
/// own: unless the scan is incremental and the archive was recorded before,
/// its dir is emptied or created, and each member that is not excluded is
/// recorded and matched, restricted to the sets named like the archive.
/// Returns how many members were recorded. All or nothing: on failure the
/// index is left as it was.
pub fn scan_zip_file(
    index: &mut Index,
    dat_id: &DatId,
    path: &str,
    incremental: bool,
    exclude: &Vec<String>,
    parent_id: &DirId,
    members: &Vec<ArchiveMember>,
) -> (r: Result<u64, ScanError>)
    requires
        old(index).wf(),
    ensures
        final(index).wf(),
        final(index).dats@ == old(index).dats@ && final(index).sets@ == old(index).sets@,
        final(index).roms@ == old(index).roms@,
        r is Err ==> final(index).same_as(*old(index)),
        incremental && seq_any(old(index).dirs@, dir_at(path@, dat_id.0)) ==> r == Ok::<u64, ScanError>(0u64) && final(index).same_as(*old(index)),
        path_prefix(path@) is None && !(incremental && seq_any(old(index).dirs@, dir_at(path@, dat_id.0))) ==> r == Err::<u64, ScanError>(ScanError::NoFileName),
        !(incremental && seq_any(old(index).dirs@, dir_at(path@, dat_id.0))) ==> (r matches Ok(n) ==> {
            &&& n == included_members(members@, exclude@).len()
            &&& exists|d: DirRecord| #[trigger] final(index).dirs@.contains(d) && archive_dir(*old(index), final(index).files@, final(index).matches@,
                d, dat_id.0, path@, parent_id.0, included_members(members@, exclude@))
        }),
        archive_can_succeed(*old(index), dat_id.0, path@, parent_id.0, members@, exclude@) ==> r is Ok,
{
    if !archive_needs_scan(index, dat_id, path, incremental) {
        return Ok(0);
    }
    let saved = index.snapshot();
    let result = record_archive(index, dat_id, path, exclude, parent_id, members);
    match result {
        Ok(n) => Ok(n),
        Err(e) => {
            *index = saved;
            Err(e)
        },
    }
}

/// Records the file called `name` in `dir`, with the size and hash that
/// were read for it (none: it could not be read), and its matches; says
/// whether a row was added.
fn record_read(index: &mut Index, dat_id: &DatId, dir: &DirRecord, name: &str, content: Option<(u64, String)>) -> (recorded: bool)
    requires
        old(index).wf(),
        old(index).dirs@.contains(*dir),
        dir.dat_id.0 == dat_id.0,
    ensures
        final(index).wf(),
        final(index).dats@ == old(index).dats@ && final(index).sets@ == old(index).sets@,
        final(index).roms@ == old(index).roms@ && final(index).dirs@ == old(index).dirs@,
        final(index).next_id >= old(index).next_id,
        final(index).files@ == old(index).files@ || {
            &&& final(index).files@ == old(index).files@.push(final(index).files@.last())
            &&& final(index).files@.last().id.0 == old(index).next_id
            &&& final(index).files@.last().dir_id.0 == dir.id.0
            &&& final(index).files@.last().name@ == name@
        },
        recorded ==> final(index).files@ != old(index).files@ && appended_matches(
            old(index).matches@,
            final(index).matches@,
            plain_outcome(old(index).roms@, dat_id.0, final(index).files@.last()),
            dat_id.0,
            old(index).next_id,
            old(index).next_id + 1int,
        ),
        !recorded && final(index).next_id < i64::MAX ==> final(index).files@ == old(index).files@
            && final(index).matches@ == old(index).matches@,
        final(index).next_id < i64::MAX ==> content is None || seq_any(final(index).files@, file_named(dir.id.0, name@)),
{
    match content {
        Some((size, hash)) => {
            proof {
                let w = choose|w: int| 0 <= w < old(index).dirs@.len() && old(index).dirs@[w] == *dir;
                assert(dir_is(dir.id.0, dat_id.0)(old(index).dirs@[w]));
            }
            let res = insert_files_and_matches(index, dat_id, &dir.id, name, size, hash.as_str(), &Vec::new());
            proof {
                if res is Ok {
                    assert(file_named(dir.id.0, name@)(index.files@[index.files@.len() - 1]));
                } else if res matches Err(StoreError::Conflict) {
                    assert(index.same_as(*old(index)));
                } else {
                    assert(res matches Err(StoreError::Backend));
                    assert(index.next_id == i64::MAX);
                }
            }
            res.is_ok()
        },
        None => false,
    }
}

/// The names of `members`.
pub open spec fn member_names(members: Seq<ArchiveMember>) -> Seq<Seq<char>> {
    members.map_values(|m: ArchiveMember| m.name@)
}

/// Every file row of dir `dir` is named after one of `members`, and every
/// one of `members` has a file row in `dir` with its name, size and hash.
pub open spec fn archive_recorded(files: Seq<FileRecord>, dir: i64, members: Seq<ArchiveMember>) -> bool {
    &&& forall|k: int| 0 <= k < files.len() && (#[trigger] files[k]).dir_id.0 == dir ==> member_names(members).contains(files[k].name@)
    &&& forall|t: int| 0 <= t < members.len() ==> exists|k: int| 0 <= k < files.len() && {
        let f = #[trigger] files[k];
        let m = #[trigger] members[t];
        f.dir_id.0 == dir && f.name@ == m.name@ && f.size == m.size && f.hash@ == m.hash@
    }
}

/// The body of an archive scan, without the rollback.
fn record_archive(
    index: &mut Index,
    dat_id: &DatId,
    path: &str,
    exclude: &Vec<String>,
    parent_id: &DirId,
    members: &Vec<ArchiveMember>,
) -> (r: Result<u64, ScanError>)
    requires
        old(index).wf(),
    ensures
        final(index).wf(),
        final(index).dats@ == old(index).dats@ && final(index).sets@ == old(index).sets@,
        final(index).roms@ == old(index).roms@,
        path_prefix(path@) is None ==> r == Err::<u64, ScanError>(ScanError::NoFileName),
        r matches Ok(n) ==> {
            &&& n == included_members(members@, exclude@).len()
            &&& exists|d: DirRecord| #[trigger] final(index).dirs@.contains(d) && archive_dir(*old(index), final(index).files@, final(index).matches@,
                d, dat_id.0, path@, parent_id.0, included_members(members@, exclude@))
        },
        archive_can_succeed(*old(index), dat_id.0, path@, parent_id.0, members@, exclude@) ==> r is Ok,
{
    let ghost pre = *index;
    let matched = match match_sets(index, dat_id, path) {
        Some(m) => m,
        None => return Err(ScanError::NoFileName),
    };
    let ghost pre_dir = *index;
    let dir = match DirRecord::get_by_dat_path(index, dat_id, path) {
        Some(dir) => {
            dir.delete_files(index);
            proof {
                let p = |f: FileRecord| f.dir_id.0 == dir.id.0;
                assert forall|k: int| 0 <= k < index.files@.len() implies !p(#[trigger] index.files@[k]) by {
                    assert((|x: FileRecord| !(x.dir_id.0 == dir.id.0))(index.files@[k]));
                }
            }
            dir
        },
        None => {
            let new = NewDir { dat_id: dat_id.duplicate(), path: path.to_owned(), parent_id: Some(parent_id.duplicate()) };
            match DirRecord::insert(index, &new) {
                Ok(d) => {
                    assert(index.dirs@[index.dirs@.len() - 1] == d);
                    proof {
                        assert forall|k: int| 0 <= k < index.files@.len() implies (#[trigger] index.files@[k]).dir_id.0 != d.id.0 by {
                            assert(pre_dir.file_ok(pre_dir.files@[k]));
                            let t = choose|t: int| 0 <= t < pre_dir.dirs@.len()
                                && #[trigger] dir_is(pre_dir.files@[k].dir_id.0, pre_dir.files@[k].dat_id.0)(pre_dir.dirs@[t]);
                            assert(pre_dir.keys_ok());
                            assert(dir_key()(pre_dir.dirs@[t]) < pre_dir.next_id);
                        }
                    }
                    d
                },
                Err(e) => return Err(ScanError::Store(e)),
            }
        },
    };
    let dir_id = dir.id.duplicate();
    let ghost dirs = index.dirs@;
    let ghost n0 = index.next_id;
    let ghost inc = member_included(exclude@);
    let mut count: u64 = 0;
    let mut i: usize = 0;
    while i < members.len()
        invariant
            index.wf(),
            pre == *old(index),
            path_prefix(path@) is Some,
            i <= members.len(),
            index.dats@ == pre.dats@ && index.sets@ == pre.sets@ && index.roms@ == pre.roms@,
            index.dirs@ == dirs,
            dirs.contains(dir) && dir_at(path@, dat_id.0)(dir) && dir_id == dir.id,
            inc == member_included(exclude@),
            count == members@.subrange(0, i as int).filter(inc).len(),
            archive_recorded(index.files@, dir_id.0, members@.subrange(0, i as int).filter(inc)),
            seq_any(pre.dirs@, dir_at(path@, dat_id.0)) ==> pre.dirs@.contains(dir),
            !seq_any(pre.dirs@, dir_at(path@, dat_id.0)) ==> dir.parent_id == Some(*parent_id),
            matched@ == named_set_ids(pre.sets@, dat_id.0, path_prefix(path@).unwrap()),
            forall|k: int| 0 <= k < index.files@.len() && (#[trigger] index.files@[k]).dir_id.0 == dir_id.0 ==> matches_recorded(
                index.matches@,
                match_outcome(pre.roms@, dat_id.0, index.files@[k].name@, index.files@[k].size, index.files@[k].hash@, matched@),
                dat_id.0,
                index.files@[k].id.0,
            ),
            index.next_id <= n0 + count * (1 + pre.roms@.len()),
            n0 <= pre.next_id + 1,
            count <= i,
            archive_can_succeed(pre, dat_id.0, path@, parent_id.0, members@, exclude@) ==>
                n0 + members@.filter(inc).len() * (1 + pre.roms@.len()) <= i64::MAX,
        decreases members.len() - i,
    {
        let ghost done = members@.subrange(0, i as int).filter(inc);
        let ghost next = members@.subrange(0, i as int + 1).filter(inc);
        proof {
            assert(members@.subrange(0, i as int + 1).drop_last() == members@.subrange(0, i as int));
            reveal(Seq::filter);
            lemma_filter_len_bound(members@.subrange(0, i as int), inc);
        }
        let m = &members[i];
        let ghost files_before = index.files@;
        let ghost mid = *index;
        if !is_excluded(m.name.as_str(), exclude) {
            let ghost o = match_outcome(pre.roms@, dat_id.0, m.name@, m.size, m.hash@, matched@);
            let ghost big_r = pre.roms@.len();
            proof {
                assert(inc(*m));
                assert(next == done.push(*m));
                crate::matcher::lemma_outcome_len(pre.roms@, dat_id.0, m.name@, m.size, m.hash@, matched@);
                pre.roms@.lemma_filter_len(|r: RomRecord| r.dat_id.0 == dat_id.0);
                assert(outcome_len(o) <= big_r);
                lemma_filter_extend(members@.subrange(0, i as int + 1), members@, inc);
                assert(members@.subrange(0, members@.len() as int) == members@);
                assert(count + 1 <= members@.filter(inc).len());
                assert((count + 1) * (1 + big_r) == count * (1 + big_r) + (1 + big_r)) by (nonlinear_arith);
                assert((count + 1) * (1 + big_r) <= members@.filter(inc).len() * (1 + big_r)) by (nonlinear_arith)
                    requires
                        count + 1 <= members@.filter(inc).len(),
                ;
                let w = choose|w: int| 0 <= w < dirs.len() && dirs[w] == dir;
                assert(dir_is(dir_id.0, dat_id.0)(index.dirs@[w]));
                if archive_can_succeed(pre, dat_id.0, path@, parent_id.0, members@, exclude@) {
                    let fnm = file_named(dir_id.0, m.name@);
                    if seq_any(index.files@, fnm) {
                        let k = choose|k: int| 0 <= k < index.files@.len() && #[trigger] fnm(index.files@[k]);
                        assert(member_names(done).contains(index.files@[k].name@));
                        let u = choose|u: int| 0 <= u < member_names(done).len() && member_names(done)[u] == index.files@[k].name@;
                        lemma_filter_member(members@.subrange(0, i as int), inc, u);
                        assert(inc(done[u]));
                        let a = choose|a: int| 0 <= a < i && members@.subrange(0, i as int)[a] == done[u];
                        assert(members@[a] == done[u]);
                        assert(members@[a].name@ != members@[i as int].name@);
                    }
                }
            }
            let res = insert_files_and_matches(index, dat_id, &dir_id, m.name.as_str(), m.size, m.hash.as_str(), &matched);
            match res {
                Ok(()) => {},
                Err(e) => {
                    assert(!archive_can_succeed(pre, dat_id.0, path@, parent_id.0, members@, exclude@));
                    return Err(ScanError::Store(e));
                },
            }
            proof {
                let f = index.files@.last();
                assert(o == match_outcome(pre.roms@, dat_id.0, f.name@, f.size, f.hash@, matched@));
                lemma_new_file_rows(mid, index.matches@, o, dat_id.0);
                assert forall|k: int| 0 <= k < index.files@.len() && (#[trigger] index.files@[k]).dir_id.0 == dir_id.0 implies matches_recorded(
                    index.matches@,
                    match_outcome(pre.roms@, dat_id.0, index.files@[k].name@, index.files@[k].size, index.files@[k].hash@, matched@),
                    dat_id.0,
                    index.files@[k].id.0,
                ) by {
                    if k < files_before.len() {
                        assert(index.files@[k] == files_before[k]);
                        assert(mid.keys_ok());
                        assert(file_key()(mid.files@[k]) < mid.next_id);
                        lemma_other_file_rows(mid.matches@, index.matches@, o, dat_id.0, mid.next_id, mid.next_id + 1int,
                            match_outcome(pre.roms@, dat_id.0, files_before[k].name@, files_before[k].size, files_before[k].hash@, matched@),
                            files_before[k].id.0);
                    }
                }
            }
            proof {
                assert(next == done.push(*m));
                assert(member_names(next) =~= member_names(done).push(m.name@));
                let files = index.files@;
                let last = files.len() - 1;
                assert forall|k: int| 0 <= k < files.len() && (#[trigger] files[k]).dir_id.0 == dir_id.0
                    implies member_names(next).contains(files[k].name@) by {
                    vstd::seq_lib::lemma_seq_contains_after_push(member_names(done), m.name@, files[k].name@);
                    if k < last {
                        assert(files[k] == files_before[k]);
                    }
                }
                assert forall|t: int| 0 <= t < next.len() implies exists|k: int| 0 <= k < files.len() && {
                    let f = #[trigger] files[k];
                    let mm = #[trigger] next[t];
                    f.dir_id.0 == dir_id.0 && f.name@ == mm.name@ && f.size == mm.size && f.hash@ == mm.hash@
                } by {
                    if t < done.len() {
                        assert(next[t] == done[t]);
                        let k = choose|k: int| 0 <= k < files_before.len() && {
                            let f = #[trigger] files_before[k];
                            let mm = #[trigger] done[t];
                            f.dir_id.0 == dir_id.0 && f.name@ == mm.name@ && f.size == mm.size && f.hash@ == mm.hash@
                        };
                        assert(files[k] == files_before[k]);
                    } else {
                        assert(next[t] == *m);
                        assert(files[last].name@ == m.name@);
                    }
                }
            }
            count = count + 1;
        } else {
            proof {
                assert(next == done);
            }
        }
        i = i + 1;
    }
    assert(members@.subrange(0, i as int) == members@);
    assert(archive_dir(pre, index.files@, index.matches@, dir, dat_id.0, path@, parent_id.0, included_members(members@, exclude@)));
    Ok(count)
}

} // verus!
