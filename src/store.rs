//! The index: every relation of the data model, held in memory, with the
//! integrity rules that tie its rows together.
use crate::model::{
    DatId, DatRecord, DirId, DirRecord, FileId, FileRecord, Id, MatchId, MatchRecord, MatchStatus, NewDat,
    NewDir, NewFile, NewMatch, NewRom, NewSet, RomId, RomRecord, SetId, SetRecord,
};
use crate::relation::{
    all_rows, check_keys, lemma_filter_excludes, any_row, copy_rows, find_row, keys_below, keys_unique, lemma_any_filter, lemma_any_push,
    lemma_filter_len_bound, lemma_filter_len_lt, lemma_filter_member, lemma_keys_filter, lemma_keys_map, lemma_keys_push, seq_any, select, Row,
};
use crate::order::{sort_by_key, sorted_by_key, Keyed};
use crate::text::{contains_text, is_infix};
use core::marker::PhantomData;
use vstd::prelude::*;

verus! {

broadcast use vstd::seq_lib::group_filter_ensures;

/// Why an operation on the index failed.
#[derive(Debug, Clone, Copy, PartialEq, Eq, Structural)]
pub enum StoreError {
    /// No record has the identifier asked for.
    NotFound,
    /// An insert would repeat a key that must be unique.
    Conflict,
    /// The record refers to rows that do not exist, or identifiers ran out.
    Backend,
}

/// All relations of the index. Identifiers are drawn from one counter, so
/// every identifier ever handed out is below `next_id`.
#[derive(Debug, Clone)]
pub struct Index {
    pub dats: Vec<DatRecord>,
    pub sets: Vec<SetRecord>,
    pub roms: Vec<RomRecord>,
    pub dirs: Vec<DirRecord>,
    pub files: Vec<FileRecord>,
    pub matches: Vec<MatchRecord>,
    pub next_id: i64,
}

pub open spec fn dat_key() -> spec_fn(DatRecord) -> i64 {
    |d: DatRecord| d.id.0
}

pub open spec fn set_key() -> spec_fn(SetRecord) -> i64 {
    |s: SetRecord| s.id.0
}

pub open spec fn rom_key() -> spec_fn(RomRecord) -> i64 {
    |r: RomRecord| r.id.0
}

pub open spec fn dir_key() -> spec_fn(DirRecord) -> i64 {
    |d: DirRecord| d.id.0
}

pub open spec fn file_key() -> spec_fn(FileRecord) -> i64 {
    |f: FileRecord| f.id.0
}

pub open spec fn match_key() -> spec_fn(MatchRecord) -> i64 {
    |m: MatchRecord| m.id.0
}

/// The catalog `dat` exists.
pub open spec fn dat_is(dat: i64) -> spec_fn(DatRecord) -> bool {
    |d: DatRecord| d.id.0 == dat
}

/// The set `set` exists and belongs to `dat`.
pub open spec fn set_is(set: i64, dat: i64) -> spec_fn(SetRecord) -> bool {
    |s: SetRecord| s.id.0 == set && s.dat_id.0 == dat
}

/// The rom `rom` exists and belongs to `set` of `dat`.
pub open spec fn rom_is(rom: i64, set: i64, dat: i64) -> spec_fn(RomRecord) -> bool {
    |r: RomRecord| r.id.0 == rom && r.set_id.0 == set && r.dat_id.0 == dat
}

/// The dir `dir` exists and belongs to `dat`.
pub open spec fn dir_is(dir: i64, dat: i64) -> spec_fn(DirRecord) -> bool {
    |d: DirRecord| d.id.0 == dir && d.dat_id.0 == dat
}

/// The file `file` exists and belongs to `dat`.
pub open spec fn file_is(file: i64, dat: i64) -> spec_fn(FileRecord) -> bool {
    |f: FileRecord| f.id.0 == file && f.dat_id.0 == dat
}

/// The dir recorded for `path` under `dat`.
pub open spec fn dir_at(path: Seq<char>, dat: i64) -> spec_fn(DirRecord) -> bool {
    |d: DirRecord| d.path@ == path && d.dat_id.0 == dat
}

/// The file called `name` in `dir`.
pub open spec fn file_named(dir: i64, name: Seq<char>) -> spec_fn(FileRecord) -> bool {
    |f: FileRecord| f.dir_id.0 == dir && f.name@ == name
}

/// The dir `dir` exists, in any catalog.
pub open spec fn dir_id_is(dir: i64) -> spec_fn(DirRecord) -> bool {
    |d: DirRecord| d.id.0 == dir
}

impl Index {
    pub open spec fn set_ok(self, s: SetRecord) -> bool {
        seq_any(self.dats@, dat_is(s.dat_id.0))
    }

    pub open spec fn rom_ok(self, r: RomRecord) -> bool {
        seq_any(self.sets@, set_is(r.set_id.0, r.dat_id.0))
    }

    pub open spec fn dir_ok(self, d: DirRecord) -> bool {
        seq_any(self.dats@, dat_is(d.dat_id.0))
    }

    pub open spec fn file_ok(self, f: FileRecord) -> bool {
        seq_any(self.dirs@, dir_is(f.dir_id.0, f.dat_id.0))
    }

    pub open spec fn match_ok(self, m: MatchRecord) -> bool {
        &&& seq_any(self.files@, file_is(m.file_id.0, m.dat_id.0))
        &&& seq_any(self.sets@, set_is(m.set_id.0, m.dat_id.0))
        &&& seq_any(self.roms@, rom_is(m.rom_id.0, m.set_id.0, m.dat_id.0))
    }

    /// Identifiers are unique within each relation and below the counter.
    pub open spec fn keys_ok(self) -> bool {
        &&& 0 < self.next_id
        &&& keys_unique(self.dats@, dat_key()) && keys_below(self.dats@, dat_key(), self.next_id)
        &&& keys_unique(self.sets@, set_key()) && keys_below(self.sets@, set_key(), self.next_id)
        &&& keys_unique(self.roms@, rom_key()) && keys_below(self.roms@, rom_key(), self.next_id)
        &&& keys_unique(self.dirs@, dir_key()) && keys_below(self.dirs@, dir_key(), self.next_id)
        &&& keys_unique(self.files@, file_key()) && keys_below(self.files@, file_key(), self.next_id)
        &&& keys_unique(self.matches@, match_key()) && keys_below(self.matches@, match_key(), self.next_id)
    }

    /// Every row refers only to rows that exist, all owned by the same catalog.
    pub open spec fn refs_ok(self) -> bool {
        &&& forall|k: int| 0 <= k < self.sets@.len() ==> self.set_ok(#[trigger] self.sets@[k])
        &&& forall|k: int| 0 <= k < self.roms@.len() ==> self.rom_ok(#[trigger] self.roms@[k])
        &&& forall|k: int| 0 <= k < self.dirs@.len() ==> self.dir_ok(#[trigger] self.dirs@[k])
        &&& forall|k: int| 0 <= k < self.files@.len() ==> self.file_ok(#[trigger] self.files@[k])
        &&& forall|k: int| 0 <= k < self.matches@.len() ==> self.match_ok(#[trigger] self.matches@[k])
    }

    /// Both hold the same rows and the same counter.
    pub open spec fn same_as(self, other: Index) -> bool {
        &&& self.dats@ == other.dats@ && self.sets@ == other.sets@ && self.roms@ == other.roms@
        &&& self.dirs@ == other.dirs@ && self.files@ == other.files@ && self.matches@ == other.matches@
        &&& self.next_id == other.next_id
    }

    pub open spec fn wf(self) -> bool {
        self.keys_ok() && self.refs_ok()
    }

    /// An empty index.
    pub fn new() -> (r: Index)
        ensures
            r.wf(),
            r.dats@.len() == 0 && r.sets@.len() == 0 && r.roms@.len() == 0,
            r.dirs@.len() == 0 && r.files@.len() == 0 && r.matches@.len() == 0,
    {
        Index {
            dats: Vec::new(),
            sets: Vec::new(),
            roms: Vec::new(),
            dirs: Vec::new(),
            files: Vec::new(),
            matches: Vec::new(),
            next_id: 1,
        }
    }

    /// A copy of the whole index, to return to if a later step fails.
    pub fn snapshot(&self) -> (r: Index)
        ensures
            r.same_as(*self),
    {
        let r = Index {
            dats: copy_rows(&self.dats),
            sets: copy_rows(&self.sets),
            roms: copy_rows(&self.roms),
            dirs: copy_rows(&self.dirs),
            files: copy_rows(&self.files),
            matches: copy_rows(&self.matches),
            next_id: self.next_id,
        };
        r
    }

    /// Draws a fresh identifier.
    fn fresh_id(&mut self) -> (r: Result<i64, StoreError>)
        requires
            old(self).keys_ok(),
        ensures
            final(self).dats@ == old(self).dats@ && final(self).sets@ == old(self).sets@,
            final(self).roms@ == old(self).roms@ && final(self).dirs@ == old(self).dirs@,
            final(self).files@ == old(self).files@ && final(self).matches@ == old(self).matches@,
            match r {
                Ok(id) => id == old(self).next_id && id < i64::MAX && final(self).next_id == id + 1,
                Err(e) => e == StoreError::Backend && old(self).next_id == i64::MAX
                    && final(self).next_id == old(self).next_id,
            },
    {
        if self.next_id == i64::MAX {
            Err(StoreError::Backend)
        } else {
            let id = self.next_id;
            self.next_id = id + 1;
            Ok(id)
        }
    }
}

impl DatRecord {
    /// Adds a catalog under a fresh identifier.
    pub fn insert(index: &mut Index, new: &NewDat) -> (r: Result<DatRecord, StoreError>)
        requires
            old(index).wf(),
        ensures
            final(index).wf(),
            r is Ok <==> old(index).next_id < i64::MAX,
            match r {
                Ok(d) => {
                    &&& d.id.0 == old(index).next_id && final(index).next_id == old(index).next_id + 1
                    &&& d.name == new.name && d.description == new.description
                    &&& d.version == new.version && d.author == new.author
                    &&& d.hash_type == new.hash_type
                    &&& final(index).dats@ == old(index).dats@.push(d)
                    &&& final(index).sets@ == old(index).sets@ && final(index).roms@ == old(index).roms@
                    &&& final(index).dirs@ == old(index).dirs@ && final(index).files@ == old(index).files@
                    &&& final(index).matches@ == old(index).matches@
                },
                Err(e) => e == StoreError::Backend && final(index).same_as(*old(index)),
            },
    {
        let ghost pre = *index;
        let id = match index.fresh_id() {
            Ok(id) => id,
            Err(e) => return Err(e),
        };
        let d = DatRecord {
            id: Id::new(id),
            name: new.name.clone(),
            description: new.description.clone(),
            version: new.version.clone(),
            author: new.author.clone(),
            hash_type: new.hash_type.clone(),
        };
        index.dats.push(d.duplicate());
        proof {
            lemma_keys_push(pre.dats@, dat_key(), pre.next_id, d);
            assert forall|k: int| 0 <= k < index.sets@.len() implies index.set_ok(#[trigger] index.sets@[k]) by {
                assert(pre.set_ok(pre.sets@[k]));
                lemma_any_push(pre.dats@, dat_is(index.sets@[k].dat_id.0), d);
            }
            assert forall|k: int| 0 <= k < index.dirs@.len() implies index.dir_ok(#[trigger] index.dirs@[k]) by {
                assert(pre.dir_ok(pre.dirs@[k]));
                lemma_any_push(pre.dats@, dat_is(index.dirs@[k].dat_id.0), d);
            }
            assert(forall|k: int| 0 <= k < index.roms@.len() ==> pre.rom_ok(#[trigger] index.roms@[k]));
            assert(forall|k: int| 0 <= k < index.files@.len() ==> pre.file_ok(#[trigger] index.files@[k]));
            assert(forall|k: int| 0 <= k < index.matches@.len() ==> pre.match_ok(#[trigger] index.matches@[k]));
        }
        Ok(d)
    }
}

impl SetRecord {
    /// Adds a set to an existing catalog.
    pub fn insert(index: &mut Index, new: &NewSet) -> (r: Result<SetRecord, StoreError>)
        requires
            old(index).wf(),
        ensures
            final(index).wf(),
            r is Ok <==> old(index).next_id < i64::MAX && seq_any(old(index).dats@, dat_is(new.dat_id.0)),
            match r {
                Ok(x) => {
                    &&& x.id.0 == old(index).next_id && final(index).next_id == old(index).next_id + 1
                    &&& x.dat_id.0 == new.dat_id.0 && x.name == new.name
                    &&& final(index).sets@ == old(index).sets@.push(x)
                    &&& final(index).dats@ == old(index).dats@ && final(index).roms@ == old(index).roms@
                    &&& final(index).dirs@ == old(index).dirs@ && final(index).files@ == old(index).files@
                    &&& final(index).matches@ == old(index).matches@
                },
                Err(e) => e == StoreError::Backend && final(index).same_as(*old(index)),
            },
    {
        let ghost pre = *index;
        let found = any_row(
            &index.dats,
            (|d: &DatRecord| -> (b: bool)
                ensures
                    b == dat_is(new.dat_id.0)(*d),
            {
                d.id.0 == new.dat_id.0
            }),
            Ghost(dat_is(new.dat_id.0)),
        );
        if !found {
            return Err(StoreError::Backend);
        }
        let id = match index.fresh_id() {
            Ok(id) => id,
            Err(e) => return Err(e),
        };
        let x = SetRecord { id: Id::new(id), dat_id: new.dat_id.duplicate(), name: new.name.clone() };
        index.sets.push(x.duplicate());
        proof {
            lemma_keys_push(pre.sets@, set_key(), pre.next_id, x);
            assert forall|k: int| 0 <= k < index.sets@.len() implies index.set_ok(#[trigger] index.sets@[k]) by {
                if k < pre.sets@.len() {
                    assert(pre.set_ok(pre.sets@[k]));
                }
            }
            assert forall|k: int| 0 <= k < index.roms@.len() implies index.rom_ok(#[trigger] index.roms@[k]) by {
                let r = index.roms@[k];
                assert(pre.rom_ok(r));
                lemma_any_push(pre.sets@, set_is(r.set_id.0, r.dat_id.0), x);
            }
            assert forall|k: int| 0 <= k < index.matches@.len() implies index.match_ok(#[trigger] index.matches@[k]) by {
                let m = index.matches@[k];
                assert(pre.match_ok(m));
                lemma_any_push(pre.sets@, set_is(m.set_id.0, m.dat_id.0), x);
            }
            assert(forall|k: int| 0 <= k < index.dirs@.len() ==> pre.dir_ok(#[trigger] index.dirs@[k]));
            assert(forall|k: int| 0 <= k < index.files@.len() ==> pre.file_ok(#[trigger] index.files@[k]));
        }
        Ok(x)
    }
}

impl RomRecord {
    /// Adds a rom to an existing set of the same catalog.
    pub fn insert(index: &mut Index, new: &NewRom) -> (r: Result<RomRecord, StoreError>)
        requires
            old(index).wf(),
        ensures
            final(index).wf(),
            r is Ok <==> old(index).next_id < i64::MAX
                && seq_any(old(index).sets@, set_is(new.set_id.0, new.dat_id.0)),
            match r {
                Ok(x) => {
                    &&& x.id.0 == old(index).next_id && final(index).next_id == old(index).next_id + 1
                    &&& x.dat_id.0 == new.dat_id.0 && x.set_id.0 == new.set_id.0
                    &&& x.name == new.name && x.size == new.size.0 && x.hash == new.hash
                    &&& final(index).roms@ == old(index).roms@.push(x)
                    &&& final(index).dats@ == old(index).dats@ && final(index).sets@ == old(index).sets@
                    &&& final(index).dirs@ == old(index).dirs@ && final(index).files@ == old(index).files@
                    &&& final(index).matches@ == old(index).matches@
                },
                Err(e) => e == StoreError::Backend && final(index).same_as(*old(index)),
            },
    {
        let ghost pre = *index;
        let found = any_row(
            &index.sets,
            (|x: &SetRecord| -> (b: bool)
                ensures
                    b == set_is(new.set_id.0, new.dat_id.0)(*x),
            {
                x.id.0 == new.set_id.0 && x.dat_id.0 == new.dat_id.0
            }),
            Ghost(set_is(new.set_id.0, new.dat_id.0)),
        );
        if !found {
            return Err(StoreError::Backend);
        }
        let id = match index.fresh_id() {
            Ok(id) => id,
            Err(e) => return Err(e),
        };
        let x = RomRecord {
            id: Id::new(id),
            dat_id: new.dat_id.duplicate(),
            set_id: new.set_id.duplicate(),
            name: new.name.clone(),
            size: new.size.0,
            hash: new.hash.clone(),
        };
        index.roms.push(x.duplicate());
        proof {
            lemma_keys_push(pre.roms@, rom_key(), pre.next_id, x);
            assert forall|k: int| 0 <= k < index.roms@.len() implies index.rom_ok(#[trigger] index.roms@[k]) by {
                if k < pre.roms@.len() {
                    assert(pre.rom_ok(pre.roms@[k]));
                }
            }
            assert forall|k: int| 0 <= k < index.matches@.len() implies index.match_ok(#[trigger] index.matches@[k]) by {
                let m = index.matches@[k];
                assert(pre.match_ok(m));
                lemma_any_push(pre.roms@, rom_is(m.rom_id.0, m.set_id.0, m.dat_id.0), x);
            }
            assert(forall|k: int| 0 <= k < index.sets@.len() ==> pre.set_ok(#[trigger] index.sets@[k]));
            assert(forall|k: int| 0 <= k < index.dirs@.len() ==> pre.dir_ok(#[trigger] index.dirs@[k]));
            assert(forall|k: int| 0 <= k < index.files@.len() ==> pre.file_ok(#[trigger] index.files@[k]));
        }
        Ok(x)
    }
}

impl DirRecord {
    /// Records a directory of a catalog. A path is recorded at most once per
    /// catalog, and a parent must be a dir of the same catalog.
    pub fn insert(index: &mut Index, new: &NewDir) -> (r: Result<DirRecord, StoreError>)
        requires
            old(index).wf(),
        ensures
            final(index).wf(),
            (r matches Err(StoreError::Conflict)) <==> seq_any(old(index).dirs@, dir_at(new.path@, new.dat_id.0)),
            r is Ok <==> {
                &&& !seq_any(old(index).dirs@, dir_at(new.path@, new.dat_id.0))
                &&& seq_any(old(index).dats@, dat_is(new.dat_id.0))
                &&& (new.parent_id matches Some(p) ==> seq_any(old(index).dirs@, dir_is(p.0, new.dat_id.0)))
                &&& old(index).next_id < i64::MAX
            },
            match r {
                Ok(x) => {
                    &&& x.id.0 == old(index).next_id && final(index).next_id == old(index).next_id + 1
                    &&& x.dat_id.0 == new.dat_id.0 && x.path == new.path && x.parent_id == new.parent_id
                    &&& final(index).dirs@ == old(index).dirs@.push(x)
                    &&& final(index).dats@ == old(index).dats@ && final(index).sets@ == old(index).sets@
                    &&& final(index).roms@ == old(index).roms@ && final(index).files@ == old(index).files@
                    &&& final(index).matches@ == old(index).matches@
                },
                Err(e) => final(index).same_as(*old(index)),
            },
    {
        let ghost pre = *index;
        let taken = any_row(
            &index.dirs,
            (|d: &DirRecord| -> (b: bool)
                ensures
                    b == dir_at(new.path@, new.dat_id.0)(*d),
            {
                d.path == new.path && d.dat_id.0 == new.dat_id.0
            }),
            Ghost(dir_at(new.path@, new.dat_id.0)),
        );
        if taken {
            return Err(StoreError::Conflict);
        }
        let found = any_row(
            &index.dats,
            (|d: &DatRecord| -> (b: bool)
                ensures
                    b == dat_is(new.dat_id.0)(*d),
            {
                d.id.0 == new.dat_id.0
            }),
            Ghost(dat_is(new.dat_id.0)),
        );
        if !found {
            return Err(StoreError::Backend);
        }
        match &new.parent_id {
            Some(p) => {
                let parent_found = any_row(
                    &index.dirs,
                    (|d: &DirRecord| -> (b: bool)
                        ensures
                            b == dir_is(p.0, new.dat_id.0)(*d),
                    {
                        d.id.0 == p.0 && d.dat_id.0 == new.dat_id.0
                    }),
                    Ghost(dir_is(p.0, new.dat_id.0)),
                );
                if !parent_found {
                    return Err(StoreError::Backend);
                }
            },
            None => {},
        }
        let id = match index.fresh_id() {
            Ok(id) => id,
            Err(e) => return Err(e),
        };
        let parent_id = match &new.parent_id {
            Some(p) => Some(p.duplicate()),
            None => None,
        };
        let x = DirRecord { id: Id::new(id), dat_id: new.dat_id.duplicate(), path: new.path.clone(), parent_id };
        index.dirs.push(x.duplicate());
        proof {
            lemma_keys_push(pre.dirs@, dir_key(), pre.next_id, x);
            assert forall|k: int| 0 <= k < index.dirs@.len() implies index.dir_ok(#[trigger] index.dirs@[k]) by {
                if k < pre.dirs@.len() {
                    assert(pre.dir_ok(pre.dirs@[k]));
                }
            }
            assert forall|k: int| 0 <= k < index.files@.len() implies index.file_ok(#[trigger] index.files@[k]) by {
                let f = index.files@[k];
                assert(pre.file_ok(f));
                lemma_any_push(pre.dirs@, dir_is(f.dir_id.0, f.dat_id.0), x);
            }
            assert(forall|k: int| 0 <= k < index.sets@.len() ==> pre.set_ok(#[trigger] index.sets@[k]));
            assert(forall|k: int| 0 <= k < index.roms@.len() ==> pre.rom_ok(#[trigger] index.roms@[k]));
            assert(forall|k: int| 0 <= k < index.matches@.len() ==> pre.match_ok(#[trigger] index.matches@[k]));
        }
        Ok(x)
    }
}

impl FileRecord {
    /// Records a file in a dir; a dir holds at most one file of each name.
    pub fn insert(index: &mut Index, new: &NewFile) -> (r: Result<FileRecord, StoreError>)
        requires
            old(index).wf(),
        ensures
            final(index).wf(),
            (r matches Err(StoreError::Conflict)) <==> seq_any(old(index).files@, file_named(new.dir_id.0, new.name@)),
            r matches Err(e) ==> e == StoreError::Conflict || e == StoreError::Backend,
            r is Ok <==> {
                &&& !seq_any(old(index).files@, file_named(new.dir_id.0, new.name@))
                &&& seq_any(old(index).dirs@, dir_is(new.dir_id.0, new.dat_id.0))
                &&& old(index).next_id < i64::MAX
            },
            match r {
                Ok(x) => {
                    &&& x.id.0 == old(index).next_id && final(index).next_id == old(index).next_id + 1
                    &&& x.dat_id.0 == new.dat_id.0 && x.dir_id.0 == new.dir_id.0
                    &&& x.name == new.name && x.size == new.size.0 && x.hash == new.hash
                    &&& final(index).files@ == old(index).files@.push(x)
                    &&& final(index).dats@ == old(index).dats@ && final(index).sets@ == old(index).sets@
                    &&& final(index).roms@ == old(index).roms@ && final(index).dirs@ == old(index).dirs@
                    &&& final(index).matches@ == old(index).matches@
                },
                Err(e) => final(index).same_as(*old(index)),
            },
    {
        let ghost pre = *index;
        let taken = any_row(
            &index.files,
            (|f: &FileRecord| -> (b: bool)
                ensures
                    b == file_named(new.dir_id.0, new.name@)(*f),
            {
                f.dir_id.0 == new.dir_id.0 && f.name == new.name
            }),
            Ghost(file_named(new.dir_id.0, new.name@)),
        );
        if taken {
            return Err(StoreError::Conflict);
        }
        let found = any_row(
            &index.dirs,
            (|d: &DirRecord| -> (b: bool)
                ensures
                    b == dir_is(new.dir_id.0, new.dat_id.0)(*d),
            {
                d.id.0 == new.dir_id.0 && d.dat_id.0 == new.dat_id.0
            }),
            Ghost(dir_is(new.dir_id.0, new.dat_id.0)),
        );
        if !found {
            return Err(StoreError::Backend);
        }
        let id = match index.fresh_id() {
            Ok(id) => id,
            Err(e) => return Err(e),
        };
        let x = FileRecord {
            id: Id::new(id),
            dat_id: new.dat_id.duplicate(),
            dir_id: new.dir_id.duplicate(),
            name: new.name.clone(),
            size: new.size.0,
            hash: new.hash.clone(),
        };
        index.files.push(x.duplicate());
        proof {
            lemma_keys_push(pre.files@, file_key(), pre.next_id, x);
            assert forall|k: int| 0 <= k < index.files@.len() implies index.file_ok(#[trigger] index.files@[k]) by {
                if k < pre.files@.len() {
                    assert(pre.file_ok(pre.files@[k]));
                }
            }
            assert forall|k: int| 0 <= k < index.matches@.len() implies index.match_ok(#[trigger] index.matches@[k]) by {
                let m = index.matches@[k];
                assert(pre.match_ok(m));
                lemma_any_push(pre.files@, file_is(m.file_id.0, m.dat_id.0), x);
            }
            assert(forall|k: int| 0 <= k < index.sets@.len() ==> pre.set_ok(#[trigger] index.sets@[k]));
            assert(forall|k: int| 0 <= k < index.roms@.len() ==> pre.rom_ok(#[trigger] index.roms@[k]));
            assert(forall|k: int| 0 <= k < index.dirs@.len() ==> pre.dir_ok(#[trigger] index.dirs@[k]));
        }
        Ok(x)
    }
}

impl MatchRecord {
    /// Records a match between a file and a rom of one catalog.
    pub fn insert(index: &mut Index, new: &NewMatch) -> (r: Result<MatchRecord, StoreError>)
        requires
            old(index).wf(),
        ensures
            final(index).wf(),
            r is Ok <==> {
                &&& seq_any(old(index).files@, file_is(new.file_id.0, new.dat_id.0))
                &&& seq_any(old(index).sets@, set_is(new.set_id.0, new.dat_id.0))
                &&& seq_any(old(index).roms@, rom_is(new.rom_id.0, new.set_id.0, new.dat_id.0))
                &&& old(index).next_id < i64::MAX
            },
            match r {
                Ok(x) => {
                    &&& x.id.0 == old(index).next_id && final(index).next_id == old(index).next_id + 1
                    &&& x.dat_id.0 == new.dat_id.0 && x.file_id.0 == new.file_id.0
                    &&& x.status == new.status && x.set_id.0 == new.set_id.0 && x.rom_id.0 == new.rom_id.0
                    &&& final(index).matches@ == old(index).matches@.push(x)
                    &&& final(index).dats@ == old(index).dats@ && final(index).sets@ == old(index).sets@
                    &&& final(index).roms@ == old(index).roms@ && final(index).dirs@ == old(index).dirs@
                    &&& final(index).files@ == old(index).files@
                },
                Err(e) => e == StoreError::Backend && final(index).same_as(*old(index)),
            },
    {
        let ghost pre = *index;
        let file_found = any_row(
            &index.files,
            (|f: &FileRecord| -> (b: bool)
                ensures
                    b == file_is(new.file_id.0, new.dat_id.0)(*f),
            {
                f.id.0 == new.file_id.0 && f.dat_id.0 == new.dat_id.0
            }),
            Ghost(file_is(new.file_id.0, new.dat_id.0)),
        );
        let set_found = any_row(
            &index.sets,
            (|x: &SetRecord| -> (b: bool)
                ensures
                    b == set_is(new.set_id.0, new.dat_id.0)(*x),
            {
                x.id.0 == new.set_id.0 && x.dat_id.0 == new.dat_id.0
            }),
            Ghost(set_is(new.set_id.0, new.dat_id.0)),
        );
        let rom_found = any_row(
            &index.roms,
            (|x: &RomRecord| -> (b: bool)
                ensures
                    b == rom_is(new.rom_id.0, new.set_id.0, new.dat_id.0)(*x),
            {
                x.id.0 == new.rom_id.0 && x.set_id.0 == new.set_id.0 && x.dat_id.0 == new.dat_id.0
            }),
            Ghost(rom_is(new.rom_id.0, new.set_id.0, new.dat_id.0)),
        );
        if !(file_found && set_found && rom_found) {
            return Err(StoreError::Backend);
        }
        let id = match index.fresh_id() {
            Ok(id) => id,
            Err(e) => return Err(e),
        };
        let x = MatchRecord {
            id: Id::new(id),
            dat_id: new.dat_id.duplicate(),
            file_id: new.file_id.duplicate(),
            status: new.status,
            set_id: new.set_id.duplicate(),
            rom_id: new.rom_id.duplicate(),
        };
        index.matches.push(x.duplicate());
        proof {
            lemma_keys_push(pre.matches@, match_key(), pre.next_id, x);
            assert forall|k: int| 0 <= k < index.matches@.len() implies index.match_ok(#[trigger] index.matches@[k]) by {
                if k < pre.matches@.len() {
                    assert(pre.match_ok(pre.matches@[k]));
                }
            }
            assert(forall|k: int| 0 <= k < index.sets@.len() ==> pre.set_ok(#[trigger] index.sets@[k]));
            assert(forall|k: int| 0 <= k < index.roms@.len() ==> pre.rom_ok(#[trigger] index.roms@[k]));
            assert(forall|k: int| 0 <= k < index.dirs@.len() ==> pre.dir_ok(#[trigger] index.dirs@[k]));
            assert(forall|k: int| 0 <= k < index.files@.len() ==> pre.file_ok(#[trigger] index.files@[k]));
        }
        Ok(x)
    }
}

impl Index {
    /// Removes catalog `dat_id` and every row that belongs to it.
    pub fn delete_catalog(&mut self, dat_id: &DatId)
        requires
            old(self).wf(),
        ensures
            final(self).wf(),
            final(self).next_id == old(self).next_id,
            final(self).dats@ == old(self).dats@.filter(|x: DatRecord| x.id.0 != dat_id.0),
            final(self).sets@ == old(self).sets@.filter(|x: SetRecord| x.dat_id.0 != dat_id.0),
            final(self).roms@ == old(self).roms@.filter(|x: RomRecord| x.dat_id.0 != dat_id.0),
            final(self).dirs@ == old(self).dirs@.filter(|x: DirRecord| x.dat_id.0 != dat_id.0),
            final(self).files@ == old(self).files@.filter(|x: FileRecord| x.dat_id.0 != dat_id.0),
            final(self).matches@ == old(self).matches@.filter(|x: MatchRecord| x.dat_id.0 != dat_id.0),
    {
        let ghost pre = *self;
        let dats = select(
            &self.dats,
            (|x: &DatRecord| -> (b: bool)
                ensures
                    b == (x.id.0 != dat_id.0),
            {
                x.id.0 != dat_id.0
            }),
            Ghost(|x: DatRecord| x.id.0 != dat_id.0),
        );
        let sets = select(
            &self.sets,
            (|x: &SetRecord| -> (b: bool)
                ensures
                    b == (x.dat_id.0 != dat_id.0),
            {
                x.dat_id.0 != dat_id.0
            }),
            Ghost(|x: SetRecord| x.dat_id.0 != dat_id.0),
        );
        let roms = select(
            &self.roms,
            (|x: &RomRecord| -> (b: bool)
                ensures
                    b == (x.dat_id.0 != dat_id.0),
            {
                x.dat_id.0 != dat_id.0
            }),
            Ghost(|x: RomRecord| x.dat_id.0 != dat_id.0),
        );
        let dirs = select(
            &self.dirs,
            (|x: &DirRecord| -> (b: bool)
                ensures
                    b == (x.dat_id.0 != dat_id.0),
            {
                x.dat_id.0 != dat_id.0
            }),
            Ghost(|x: DirRecord| x.dat_id.0 != dat_id.0),
        );
        let files = select(
            &self.files,
            (|x: &FileRecord| -> (b: bool)
                ensures
                    b == (x.dat_id.0 != dat_id.0),
            {
                x.dat_id.0 != dat_id.0
            }),
            Ghost(|x: FileRecord| x.dat_id.0 != dat_id.0),
        );
        let matches = select(
            &self.matches,
            (|x: &MatchRecord| -> (b: bool)
                ensures
                    b == (x.dat_id.0 != dat_id.0),
            {
                x.dat_id.0 != dat_id.0
            }),
            Ghost(|x: MatchRecord| x.dat_id.0 != dat_id.0),
        );
        self.dats = dats;
        self.sets = sets;
        self.roms = roms;
        self.dirs = dirs;
        self.files = files;
        self.matches = matches;
        proof {
            let d = dat_id.0;
            lemma_keys_filter(pre.dats@, dat_key(), pre.next_id, |x: DatRecord| x.id.0 != d);
            lemma_keys_filter(pre.sets@, set_key(), pre.next_id, |x: SetRecord| x.dat_id.0 != d);
            lemma_keys_filter(pre.roms@, rom_key(), pre.next_id, |x: RomRecord| x.dat_id.0 != d);
            lemma_keys_filter(pre.dirs@, dir_key(), pre.next_id, |x: DirRecord| x.dat_id.0 != d);
            lemma_keys_filter(pre.files@, file_key(), pre.next_id, |x: FileRecord| x.dat_id.0 != d);
            lemma_keys_filter(pre.matches@, match_key(), pre.next_id, |x: MatchRecord| x.dat_id.0 != d);
            assert forall|k: int| 0 <= k < self.sets@.len() implies self.set_ok(#[trigger] self.sets@[k]) by {
                let x = self.sets@[k];
                lemma_filter_member(pre.sets@, |x: SetRecord| x.dat_id.0 != d, k);
                let j = choose|j: int| 0 <= j < pre.sets@.len() && pre.sets@[j] == x;
                assert(pre.set_ok(pre.sets@[j]));
                lemma_any_filter(pre.dats@, dat_is(x.dat_id.0), |x: DatRecord| x.id.0 != d);
            }
            assert forall|k: int| 0 <= k < self.roms@.len() implies self.rom_ok(#[trigger] self.roms@[k]) by {
                let x = self.roms@[k];
                lemma_filter_member(pre.roms@, |x: RomRecord| x.dat_id.0 != d, k);
                let j = choose|j: int| 0 <= j < pre.roms@.len() && pre.roms@[j] == x;
                assert(pre.rom_ok(pre.roms@[j]));
                lemma_any_filter(pre.sets@, set_is(x.set_id.0, x.dat_id.0), |x: SetRecord| x.dat_id.0 != d);
            }
            assert forall|k: int| 0 <= k < self.dirs@.len() implies self.dir_ok(#[trigger] self.dirs@[k]) by {
                let x = self.dirs@[k];
                lemma_filter_member(pre.dirs@, |x: DirRecord| x.dat_id.0 != d, k);
                let j = choose|j: int| 0 <= j < pre.dirs@.len() && pre.dirs@[j] == x;
                assert(pre.dir_ok(pre.dirs@[j]));
                lemma_any_filter(pre.dats@, dat_is(x.dat_id.0), |x: DatRecord| x.id.0 != d);
            }
            assert forall|k: int| 0 <= k < self.files@.len() implies self.file_ok(#[trigger] self.files@[k]) by {
                let x = self.files@[k];
                lemma_filter_member(pre.files@, |x: FileRecord| x.dat_id.0 != d, k);
                let j = choose|j: int| 0 <= j < pre.files@.len() && pre.files@[j] == x;
                assert(pre.file_ok(pre.files@[j]));
                lemma_any_filter(pre.dirs@, dir_is(x.dir_id.0, x.dat_id.0), |x: DirRecord| x.dat_id.0 != d);
            }
            assert forall|k: int| 0 <= k < self.matches@.len() implies self.match_ok(#[trigger] self.matches@[k]) by {
                let x = self.matches@[k];
                lemma_filter_member(pre.matches@, |x: MatchRecord| x.dat_id.0 != d, k);
                let j = choose|j: int| 0 <= j < pre.matches@.len() && pre.matches@[j] == x;
                assert(pre.match_ok(pre.matches@[j]));
                lemma_any_filter(pre.files@, file_is(x.file_id.0, x.dat_id.0), |x: FileRecord| x.dat_id.0 != d);
                lemma_any_filter(pre.sets@, set_is(x.set_id.0, x.dat_id.0), |x: SetRecord| x.dat_id.0 != d);
                lemma_any_filter(pre.roms@, rom_is(x.rom_id.0, x.set_id.0, x.dat_id.0), |x: RomRecord| x.dat_id.0 != d);
            }
        }
    }
}

impl Index {
    /// Removes the files that `f` accepts, and the matches of those files.
    fn remove_files<F: Fn(&FileRecord) -> bool>(&mut self, f: F, Ghost(p): Ghost<spec_fn(FileRecord) -> bool>) -> (r: usize)
        requires
            old(self).wf(),
            forall|x: &FileRecord| #[trigger] f.requires((x,)),
            forall|x: &FileRecord, b: bool| f.ensures((x,), b) ==> b == p(*x),
        ensures
            final(self).wf(),
            final(self).next_id == old(self).next_id,
            final(self).dats@ == old(self).dats@ && final(self).sets@ == old(self).sets@,
            final(self).roms@ == old(self).roms@ && final(self).dirs@ == old(self).dirs@,
            final(self).files@ == old(self).files@.filter(|x: FileRecord| !p(x)),
            final(self).matches@ == old(self).matches@.filter(
                |m: MatchRecord| !seq_any(old(self).files@.filter(p), |x: FileRecord| x.id.0 == m.file_id.0),
            ),
            r == old(self).files@.filter(p).len(),
    {
        let ghost pre = *self;
        let doomed = select(
            &self.files,
            (|x: &FileRecord| -> (b: bool)
                ensures
                    b == p(*x),
            {
                f(x)
            }),
            Ghost(p),
        );
        let kept = select(
            &self.files,
            (|x: &FileRecord| -> (b: bool)
                ensures
                    b == !p(*x),
            {
                !f(x)
            }),
            Ghost(|x: FileRecord| !p(x)),
        );
        let matches = select(
            &self.matches,
            (|m: &MatchRecord| -> (b: bool)
                ensures
                    b == !seq_any(doomed@, |x: FileRecord| x.id.0 == m.file_id.0),
            {
                !any_row(
                    &doomed,
                    (|x: &FileRecord| -> (c: bool)
                        ensures
                            c == (x.id.0 == m.file_id.0),
                    {
                        x.id.0 == m.file_id.0
                    }),
                    Ghost(|x: FileRecord| x.id.0 == m.file_id.0),
                )
            }),
            Ghost(|m: MatchRecord| !seq_any(doomed@, |x: FileRecord| x.id.0 == m.file_id.0)),
        );
        self.files = kept;
        self.matches = matches;
        proof {
            let q = |x: FileRecord| !p(x);
            let mq = |m: MatchRecord| !seq_any(pre.files@.filter(p), |x: FileRecord| x.id.0 == m.file_id.0);
            lemma_keys_filter(pre.files@, file_key(), pre.next_id, q);
            lemma_keys_filter(pre.matches@, match_key(), pre.next_id, mq);
            assert forall|k: int| 0 <= k < self.files@.len() implies self.file_ok(#[trigger] self.files@[k]) by {
                lemma_filter_member(pre.files@, q, k);
                let j = choose|j: int| 0 <= j < pre.files@.len() && pre.files@[j] == self.files@[k];
                assert(pre.file_ok(pre.files@[j]));
            }
            assert forall|k: int| 0 <= k < self.matches@.len() implies self.match_ok(#[trigger] self.matches@[k]) by {
                let m = self.matches@[k];
                lemma_filter_member(pre.matches@, mq, k);
                let j = choose|j: int| 0 <= j < pre.matches@.len() && pre.matches@[j] == m;
                assert(pre.match_ok(pre.matches@[j]));
                assert(mq(m));
                assert forall|t: int| 0 <= t < pre.files@.len() && #[trigger] file_is(m.file_id.0, m.dat_id.0)(pre.files@[t])
                    implies q(pre.files@[t]) by {
                    if p(pre.files@[t]) {
                        assert(pre.files@.filter(p).contains(pre.files@[t]));
                        let u = choose|u: int| 0 <= u < pre.files@.filter(p).len() && pre.files@.filter(p)[u] == pre.files@[t];
                        assert((|x: FileRecord| x.id.0 == m.file_id.0)(pre.files@.filter(p)[u]));
                    }
                }
                lemma_any_filter(pre.files@, file_is(m.file_id.0, m.dat_id.0), q);
            }
        }
        doomed.len()
    }
}

impl FileRecord {
    /// Removes every file of dir `dir_id`, with the matches of those files.
    /// Returns how many files were removed.
    pub fn delete_files(index: &mut Index, dir_id: &DirId) -> (r: usize)
        requires
            old(index).wf(),
        ensures
            final(index).wf(),
            final(index).next_id == old(index).next_id,
            final(index).dats@ == old(index).dats@ && final(index).sets@ == old(index).sets@,
            final(index).roms@ == old(index).roms@ && final(index).dirs@ == old(index).dirs@,
            final(index).files@ == old(index).files@.filter(|x: FileRecord| !(x.dir_id.0 == dir_id.0)),
            final(index).matches@ == old(index).matches@.filter(
                |m: MatchRecord| !seq_any(
                    old(index).files@.filter(|x: FileRecord| x.dir_id.0 == dir_id.0),
                    |x: FileRecord| x.id.0 == m.file_id.0,
                ),
            ),
            r == old(index).files@.filter(|x: FileRecord| x.dir_id.0 == dir_id.0).len(),
    {
        let n = index.remove_files(
            (|x: &FileRecord| -> (b: bool)
                ensures
                    b == (x.dir_id.0 == dir_id.0),
            {
                x.dir_id.0 == dir_id.0
            }),
            Ghost(|x: FileRecord| x.dir_id.0 == dir_id.0),
        );
        proof {
            let p = |x: FileRecord| x.dir_id.0 == dir_id.0;
            assert((|x: FileRecord| !p(x)) =~= (|x: FileRecord| !(x.dir_id.0 == dir_id.0)));
        }
        n
    }

    /// Removes file `id` and its matches; says whether it existed.
    pub fn delete_by_id(index: &mut Index, id: &FileId) -> (r: bool)
        requires
            old(index).wf(),
        ensures
            final(index).wf(),
            final(index).next_id == old(index).next_id,
            final(index).dats@ == old(index).dats@ && final(index).sets@ == old(index).sets@,
            final(index).roms@ == old(index).roms@ && final(index).dirs@ == old(index).dirs@,
            final(index).files@ == old(index).files@.filter(|x: FileRecord| !(x.id.0 == id.0)),
            final(index).matches@ == old(index).matches@.filter(
                |m: MatchRecord| !seq_any(
                    old(index).files@.filter(|x: FileRecord| x.id.0 == id.0),
                    |x: FileRecord| x.id.0 == m.file_id.0,
                ),
            ),
            r == seq_any(old(index).files@, |x: FileRecord| x.id.0 == id.0),
    {
        let ghost pre = *index;
        let n = index.remove_files(
            (|x: &FileRecord| -> (b: bool)
                ensures
                    b == (x.id.0 == id.0),
            {
                x.id.0 == id.0
            }),
            Ghost(|x: FileRecord| x.id.0 == id.0),
        );
        proof {
            let p = |x: FileRecord| x.id.0 == id.0;
            assert((|x: FileRecord| !p(x)) =~= (|x: FileRecord| !(x.id.0 == id.0)));
            if seq_any(pre.files@, p) {
                let k = choose|k: int| 0 <= k < pre.files@.len() && #[trigger] p(pre.files@[k]);
                assert(pre.files@.filter(p).contains(pre.files@[k]));
            }
            if n > 0 {
                assert(p(pre.files@.filter(p)[0]));
                lemma_filter_member(pre.files@, p, 0);
            }
        }
        n > 0
    }
}

impl DirRecord {
    /// Removes the files of this dir, with their matches.
    pub fn delete_files(&self, index: &mut Index) -> (r: usize)
        requires
            old(index).wf(),
        ensures
            final(index).wf(),
            final(index).next_id == old(index).next_id,
            final(index).dats@ == old(index).dats@ && final(index).sets@ == old(index).sets@,
            final(index).roms@ == old(index).roms@ && final(index).dirs@ == old(index).dirs@,
            final(index).files@ == old(index).files@.filter(|x: FileRecord| !(x.dir_id.0 == self.id.0)),
            final(index).matches@ == old(index).matches@.filter(
                |m: MatchRecord| !seq_any(
                    old(index).files@.filter(|x: FileRecord| x.dir_id.0 == self.id.0),
                    |x: FileRecord| x.id.0 == m.file_id.0,
                ),
            ),
            r == old(index).files@.filter(|x: FileRecord| x.dir_id.0 == self.id.0).len(),
    {
        FileRecord::delete_files(index, &self.id)
    }

    /// Removes dir `id` together with its files and their matches; says
    /// whether the dir existed.
    pub fn delete_by_id(index: &mut Index, id: &DirId) -> (r: bool)
        requires
            old(index).wf(),
        ensures
            final(index).wf(),
            final(index).next_id == old(index).next_id,
            final(index).dats@ == old(index).dats@ && final(index).sets@ == old(index).sets@,
            final(index).roms@ == old(index).roms@,
            final(index).dirs@ == old(index).dirs@.filter(|x: DirRecord| x.id.0 != id.0).map_values(
                |x: DirRecord| unparent(x, id.0),
            ),
            final(index).files@ == old(index).files@.filter(|x: FileRecord| !(x.dir_id.0 == id.0)),
            final(index).matches@ == old(index).matches@.filter(
                |m: MatchRecord| !seq_any(
                    old(index).files@.filter(|x: FileRecord| x.dir_id.0 == id.0),
                    |x: FileRecord| x.id.0 == m.file_id.0,
                ),
            ),
            r == seq_any(old(index).dirs@, |x: DirRecord| x.id.0 == id.0),
    {
        let found = any_row(
            &index.dirs,
            (|x: &DirRecord| -> (b: bool)
                ensures
                    b == (x.id.0 == id.0),
            {
                x.id.0 == id.0
            }),
            Ghost(|x: DirRecord| x.id.0 == id.0),
        );
        FileRecord::delete_files(index, id);
        let ghost mid = *index;
        let dirs = select(
            &index.dirs,
            (|x: &DirRecord| -> (b: bool)
                ensures
                    b == (x.id.0 != id.0),
            {
                x.id.0 != id.0
            }),
            Ghost(|x: DirRecord| x.id.0 != id.0),
        );
        index.dirs = dirs;
        proof {
            let q = |x: DirRecord| x.id.0 != id.0;
            lemma_keys_filter(mid.dirs@, dir_key(), mid.next_id, q);
            assert forall|k: int| 0 <= k < index.dirs@.len() implies index.dir_ok(#[trigger] index.dirs@[k]) by {
                lemma_filter_member(mid.dirs@, q, k);
                let j = choose|j: int| 0 <= j < mid.dirs@.len() && mid.dirs@[j] == index.dirs@[k];
                assert(mid.dir_ok(mid.dirs@[j]));
            }
            assert forall|k: int| 0 <= k < index.files@.len() implies index.file_ok(#[trigger] index.files@[k]) by {
                let f = index.files@[k];
                assert(mid.file_ok(f));
                assert(f.dir_id.0 != id.0);
                lemma_any_filter(mid.dirs@, dir_is(f.dir_id.0, f.dat_id.0), q);
            }
            assert(forall|k: int| 0 <= k < index.matches@.len() ==> mid.match_ok(#[trigger] index.matches@[k]));
        }
        index.orphan_children(id);
        found
    }
}

impl MatchRecord {
    /// Removes every match made against catalog `dat_id`.
    pub fn delete_by_dat(index: &mut Index, dat_id: &DatId) -> (r: usize)
        requires
            old(index).wf(),
        ensures
            final(index).wf(),
            final(index).next_id == old(index).next_id,
            final(index).dats@ == old(index).dats@ && final(index).sets@ == old(index).sets@,
            final(index).roms@ == old(index).roms@ && final(index).dirs@ == old(index).dirs@,
            final(index).files@ == old(index).files@,
            final(index).matches@ == old(index).matches@.filter(|x: MatchRecord| x.dat_id.0 != dat_id.0),
            r == old(index).matches@.len() - final(index).matches@.len(),
    {
        let ghost pre = *index;
        let kept = select(
            &index.matches,
            (|x: &MatchRecord| -> (b: bool)
                ensures
                    b == (x.dat_id.0 != dat_id.0),
            {
                x.dat_id.0 != dat_id.0
            }),
            Ghost(|x: MatchRecord| x.dat_id.0 != dat_id.0),
        );
        let n = index.matches.len() - kept.len();
        index.matches = kept;
        proof {
            let q = |x: MatchRecord| x.dat_id.0 != dat_id.0;
            lemma_keys_filter(pre.matches@, match_key(), pre.next_id, q);
            assert forall|k: int| 0 <= k < index.matches@.len() implies index.match_ok(#[trigger] index.matches@[k]) by {
                lemma_filter_member(pre.matches@, q, k);
                let j = choose|j: int| 0 <= j < pre.matches@.len() && pre.matches@[j] == index.matches@[k];
                assert(pre.match_ok(pre.matches@[j]));
            }
        }
        n
    }

    /// Sets the status of this match in the index; the match keeps its
    /// file, set and rom.
    pub fn update(&self, index: &mut Index, status: &MatchStatus) -> (r: Result<MatchRecord, StoreError>)
        requires
            old(index).wf(),
        ensures
            final(index).wf(),
            final(index).next_id == old(index).next_id,
            final(index).dats@ == old(index).dats@ && final(index).sets@ == old(index).sets@,
            final(index).roms@ == old(index).roms@ && final(index).dirs@ == old(index).dirs@,
            final(index).files@ == old(index).files@,
            final(index).matches@ == old(index).matches@.map_values(|m: MatchRecord| restatus(m, self.id.0, *status)),
            r is Ok <==> seq_any(old(index).matches@, |m: MatchRecord| m.id.0 == self.id.0),
            r matches Ok(m) ==> m == restatus(*self, self.id.0, *status),
    {
        let ghost pre = *index;
        let mut out: Vec<MatchRecord> = Vec::new();
        let mut found = false;
        let mut i: usize = 0;
        while i < index.matches.len()
            invariant
                i <= index.matches.len(),
                *index == pre,
                out@ == pre.matches@.subrange(0, i as int).map_values(|m: MatchRecord| restatus(m, self.id.0, *status)),
                found == seq_any(pre.matches@.subrange(0, i as int), |m: MatchRecord| m.id.0 == self.id.0),
            decreases index.matches.len() - i,
        {
            let m = &index.matches[i];
            let ghost sub = pre.matches@.subrange(0, i as int + 1);
            if m.id.0 == self.id.0 {
                let mut x = m.duplicate();
                x.status = *status;
                out.push(x);
                found = true;
                assert((|m: MatchRecord| m.id.0 == self.id.0)(sub[i as int]));
            } else {
                out.push(m.duplicate());
                proof {
                    if found {
                        let k = choose|k: int| 0 <= k < i && #[trigger] pre.matches@.subrange(0, i as int)[k].id.0 == self.id.0;
                        assert(sub[k] == pre.matches@.subrange(0, i as int)[k]);
                    } else {
                        assert forall|k: int| 0 <= k < i + 1 implies !(#[trigger] sub[k].id.0 == self.id.0) by {
                            if k < i {
                                assert(sub[k] == pre.matches@.subrange(0, i as int)[k]);
                                assert(!(|m: MatchRecord| m.id.0 == self.id.0)(pre.matches@.subrange(0, i as int)[k]));
                            } else {
                                assert(sub[k] == index.matches@[k]);
                            }
                        }
                    }
                }
            }
            assert(out@ =~= sub.map_values(|m: MatchRecord| restatus(m, self.id.0, *status)));
            i = i + 1;
        }
        assert(pre.matches@.subrange(0, i as int) == pre.matches@);
        index.matches = out;
        proof {
            let t = index.matches@;
            let s = pre.matches@;
            lemma_keys_map(s, t, match_key(), pre.next_id);
            assert forall|k: int| 0 <= k < t.len() implies index.match_ok(#[trigger] t[k]) by {
                assert(pre.match_ok(s[k]));
            }
        }
        if found {
            let mut x = self.duplicate();
            x.status = *status;
            Ok(x)
        } else {
            Err(StoreError::NotFound)
        }
    }
}

/// `m` with its status set to `status` when it is match `id`.
pub open spec fn restatus(m: MatchRecord, id: i64, status: MatchStatus) -> MatchRecord {
    if m.id.0 == id {
        MatchRecord { status, ..m }
    } else {
        m
    }
}

/// `d` moved from catalog `from` to catalog `to`.
pub open spec fn relink_dir(d: DirRecord, from: i64, to: i64) -> DirRecord {
    if d.dat_id.0 == from {
        DirRecord { dat_id: Id(to, PhantomData), ..d }
    } else {
        d
    }
}

/// `f` moved from catalog `from` to catalog `to`.
pub open spec fn relink_file(f: FileRecord, from: i64, to: i64) -> FileRecord {
    if f.dat_id.0 == from {
        FileRecord { dat_id: Id(to, PhantomData), ..f }
    } else {
        f
    }
}

impl DirRecord {
    /// Moves every dir of catalog `old_dat_id`, and the files in them, to
    /// catalog `new_dat_id`, which must exist (else `NotFound`). The matches
    /// made against the old catalog refer to its roms, so they are dropped;
    /// the files are matched again by the caller. Moving a catalog onto
    /// itself changes nothing. Returns how many dirs moved.
    pub fn relink_dirs(index: &mut Index, old_dat_id: &DatId, new_dat_id: &DatId) -> (r: Result<usize, StoreError>)
        requires
            old(index).wf(),
        ensures
            final(index).wf(),
            r is Err <==> old_dat_id.0 != new_dat_id.0 && !seq_any(old(index).dats@, dat_is(new_dat_id.0)),
            r matches Err(e) ==> e == StoreError::NotFound,
            r is Err || old_dat_id.0 == new_dat_id.0 ==> final(index).same_as(*old(index)),
            old_dat_id.0 != new_dat_id.0 ==> (r matches Ok(n) ==> {
                &&& final(index).next_id == old(index).next_id
                &&& final(index).dats@ == old(index).dats@ && final(index).sets@ == old(index).sets@
                &&& final(index).roms@ == old(index).roms@
                &&& final(index).matches@ == old(index).matches@.filter(|x: MatchRecord| x.dat_id.0 != old_dat_id.0)
                &&& final(index).dirs@ == old(index).dirs@.map_values(|d: DirRecord| relink_dir(d, old_dat_id.0, new_dat_id.0))
                &&& final(index).files@ == old(index).files@.map_values(|f: FileRecord| relink_file(f, old_dat_id.0, new_dat_id.0))
                &&& n == old(index).dirs@.filter(|d: DirRecord| d.dat_id.0 == old_dat_id.0).len()
            }),
    {
        if old_dat_id.0 == new_dat_id.0 {
            return Ok(0);
        }
        let exists = any_row(
            &index.dats,
            (|x: &DatRecord| -> (b: bool)
                ensures
                    b == dat_is(new_dat_id.0)(*x),
            {
                x.id.0 == new_dat_id.0
            }),
            Ghost(dat_is(new_dat_id.0)),
        );
        if !exists {
            return Err(StoreError::NotFound);
        }
        let ghost pre = *index;
        MatchRecord::delete_by_dat(index, old_dat_id);
        proof {
            lemma_filter_excludes(pre.matches@, |m: MatchRecord| m.dat_id.0 == old_dat_id.0, |x: MatchRecord| x.dat_id.0 != old_dat_id.0);
        }
        Ok(DirRecord::move_rows(index, old_dat_id, new_dat_id))
    }

    fn move_rows(index: &mut Index, old_dat_id: &DatId, new_dat_id: &DatId) -> (r: usize)
        requires
            old(index).wf(),
            !seq_any(old(index).matches@, |m: MatchRecord| m.dat_id.0 == old_dat_id.0),
            seq_any(old(index).dats@, dat_is(new_dat_id.0)),
        ensures
            final(index).wf(),
            final(index).next_id == old(index).next_id,
            final(index).dats@ == old(index).dats@ && final(index).sets@ == old(index).sets@,
            final(index).roms@ == old(index).roms@ && final(index).matches@ == old(index).matches@,
            final(index).dirs@ == old(index).dirs@.map_values(|d: DirRecord| relink_dir(d, old_dat_id.0, new_dat_id.0)),
            final(index).files@ == old(index).files@.map_values(|f: FileRecord| relink_file(f, old_dat_id.0, new_dat_id.0)),
            r == old(index).dirs@.filter(|d: DirRecord| d.dat_id.0 == old_dat_id.0).len(),
    {
        let ghost pre = *index;
        let ghost from = old_dat_id.0;
        let ghost to = new_dat_id.0;
        let ghost moved = |d: DirRecord| d.dat_id.0 == old_dat_id.0;
        let mut dirs: Vec<DirRecord> = Vec::new();
        let mut count: usize = 0;
        let mut i: usize = 0;
        while i < index.dirs.len()
            invariant
                i <= index.dirs.len(),
                *index == pre,
                moved == (|d: DirRecord| d.dat_id.0 == old_dat_id.0),
                dirs@ == pre.dirs@.subrange(0, i as int).map_values(|d: DirRecord| relink_dir(d, from, to)),
                count == pre.dirs@.subrange(0, i as int).filter(moved).len(),
                from == old_dat_id.0 && to == new_dat_id.0,
            decreases index.dirs.len() - i,
        {
            proof {
                assert(pre.dirs@.subrange(0, i as int + 1).drop_last() == pre.dirs@.subrange(0, i as int));
                reveal(Seq::filter);
                lemma_filter_len_bound(pre.dirs@.subrange(0, i as int), moved);
            }
            let d = &index.dirs[i];
            let mut x = d.duplicate();
            if d.dat_id.0 == old_dat_id.0 {
                x.dat_id = new_dat_id.duplicate();
                count = count + 1;
            }
            dirs.push(x);
            assert(dirs@ =~= pre.dirs@.subrange(0, i as int + 1).map_values(|d: DirRecord| relink_dir(d, from, to)));
            i = i + 1;
        }
        let mut files: Vec<FileRecord> = Vec::new();
        let mut j: usize = 0;
        while j < index.files.len()
            invariant
                j <= index.files.len(),
                *index == pre,
                files@ == pre.files@.subrange(0, j as int).map_values(|f: FileRecord| relink_file(f, from, to)),
                from == old_dat_id.0 && to == new_dat_id.0,
            decreases index.files.len() - j,
        {
            let f = &index.files[j];
            let mut x = f.duplicate();
            if f.dat_id.0 == old_dat_id.0 {
                x.dat_id = new_dat_id.duplicate();
            }
            files.push(x);
            assert(files@ =~= pre.files@.subrange(0, j as int + 1).map_values(|f: FileRecord| relink_file(f, from, to)));
            j = j + 1;
        }
        assert(pre.dirs@.subrange(0, i as int) == pre.dirs@);
        assert(pre.files@.subrange(0, j as int) == pre.files@);
        index.dirs = dirs;
        index.files = files;
        proof {
            lemma_keys_map(pre.dirs@, index.dirs@, dir_key(), pre.next_id);
            lemma_keys_map(pre.files@, index.files@, file_key(), pre.next_id);
            assert forall|k: int| 0 <= k < index.dirs@.len() implies index.dir_ok(#[trigger] index.dirs@[k]) by {
                assert(pre.dir_ok(pre.dirs@[k]));
            }
            assert forall|k: int| 0 <= k < index.files@.len() implies index.file_ok(#[trigger] index.files@[k]) by {
                let f = pre.files@[k];
                assert(pre.file_ok(f));
                let t = choose|t: int| 0 <= t < pre.dirs@.len() && #[trigger] dir_is(f.dir_id.0, f.dat_id.0)(pre.dirs@[t]);
                assert(dir_is(index.files@[k].dir_id.0, index.files@[k].dat_id.0)(index.dirs@[t]));
            }
            assert forall|k: int| 0 <= k < index.matches@.len() implies index.match_ok(#[trigger] index.matches@[k]) by {
                let m = pre.matches@[k];
                assert(pre.match_ok(m));
                assert(m.dat_id.0 != from) by {
                    if m.dat_id.0 == from {
                        assert((|m: MatchRecord| m.dat_id.0 == old_dat_id.0)(pre.matches@[k]));
                    }
                }
                let t = choose|t: int| 0 <= t < pre.files@.len() && #[trigger] file_is(m.file_id.0, m.dat_id.0)(pre.files@[t]);
                assert(file_is(m.file_id.0, m.dat_id.0)(index.files@[t]));
            }
        }
        count
    }
}

impl SetRecord {
    /// The sets of `dat_id` named `name`, or whose name contains it when not
    /// `exact`, ordered by name.
    pub fn find_by_name(index: &Index, dat_id: &DatId, name: &str, exact: bool) -> (r: Vec<SetRecord>)
        ensures
            sorted_by_key(r@),
            r@.to_multiset() == index.sets@.filter(|x: SetRecord| x.dat_id.0 == dat_id.0 && name_fits(x.name@, name@, exact)).to_multiset(),
    {
        sort_by_key(SetRecord::named_rows(index, dat_id, name, exact))
    }
}

impl RomRecord {
    /// The roms of `dat_id` named `name`, or whose name contains it when not
    /// `exact`, ordered by name.
    pub fn find_by_name(index: &Index, dat_id: &DatId, name: &str, exact: bool) -> (r: Vec<RomRecord>)
        ensures
            sorted_by_key(r@),
            r@.to_multiset() == index.roms@.filter(|x: RomRecord| x.dat_id.0 == dat_id.0 && name_fits(x.name@, name@, exact)).to_multiset(),
    {
        sort_by_key(RomRecord::named_rows(index, dat_id, name, exact))
    }
}

impl FileRecord {
    /// The files of `dir_id` named `name`, or whose name contains it when not
    /// `exact`, ordered by name.
    pub fn find_by_name(index: &Index, dir_id: &DirId, name: &str, exact: bool) -> (r: Vec<FileRecord>)
        ensures
            sorted_by_key(r@),
            r@.to_multiset() == index.files@.filter(|x: FileRecord| x.dir_id.0 == dir_id.0 && name_fits(x.name@, name@, exact)).to_multiset(),
    {
        sort_by_key(FileRecord::named_rows(index, dir_id, name, exact))
    }
}

impl FileRecord {
    /// The files of dir `dir_id`, ordered by name.
    pub fn get_by_dir(index: &Index, dir_id: &DirId) -> (r: Vec<FileRecord>)
        ensures
            sorted_by_key(r@),
            r@.to_multiset() == index.files@.filter(|x: FileRecord| x.dir_id.0 == dir_id.0).to_multiset(),
    {
        sort_by_key(FileRecord::files_of_dir(index, dir_id))
    }
}

impl DirRecord {
    /// The dirs recorded for `path`, under any catalog, ordered by path.
    pub fn get_by_path(index: &Index, path: &str) -> (r: Vec<DirRecord>)
        ensures
            sorted_by_key(r@),
            r@.to_multiset() == index.dirs@.filter(|x: DirRecord| x.path@ == path@).to_multiset(),
    {
        sort_by_key(DirRecord::dirs_at_path(index, path))
    }
}

impl DirRecord {
    /// The dirs whose parent is this dir, ordered by path.
    pub fn get_children(&self, index: &Index) -> (r: Vec<DirRecord>)
        ensures
            sorted_by_key(r@),
            r@.to_multiset() == index.dirs@.filter(|x: DirRecord| x.parent_id matches Some(p) && p.0 == self.id.0).to_multiset(),
    {
        sort_by_key(self.child_dirs(index))
    }
}

impl Keyed for SetRecord {
    open spec fn key(&self) -> Seq<char> {
        self.name@
    }

    fn key_text(&self) -> (r: &str) {
        self.name.as_str()
    }
}

impl Keyed for RomRecord {
    open spec fn key(&self) -> Seq<char> {
        self.name@
    }

    fn key_text(&self) -> (r: &str) {
        self.name.as_str()
    }
}

impl Keyed for FileRecord {
    open spec fn key(&self) -> Seq<char> {
        self.name@
    }

    fn key_text(&self) -> (r: &str) {
        self.name.as_str()
    }
}

impl Keyed for DirRecord {
    open spec fn key(&self) -> Seq<char> {
        self.path@
    }

    fn key_text(&self) -> (r: &str) {
        self.path.as_str()
    }
}

/// `d` without its parent when the parent is dir `id`.
pub open spec fn unparent(d: DirRecord, id: i64) -> DirRecord {
    if d.parent_id matches Some(p) && p.0 == id {
        DirRecord { parent_id: None, ..d }
    } else {
        d
    }
}

impl Index {
    /// Clears the parent of every dir whose parent is dir `id`.
    fn orphan_children(&mut self, id: &DirId)
        requires
            old(self).wf(),
        ensures
            final(self).wf(),
            final(self).next_id == old(self).next_id,
            final(self).dats@ == old(self).dats@ && final(self).sets@ == old(self).sets@,
            final(self).roms@ == old(self).roms@ && final(self).files@ == old(self).files@,
            final(self).matches@ == old(self).matches@,
            final(self).dirs@ == old(self).dirs@.map_values(|x: DirRecord| unparent(x, id.0)),
    {
        let ghost pre = *self;
        let mut dirs: Vec<DirRecord> = Vec::new();
        let mut i: usize = 0;
        while i < self.dirs.len()
            invariant
                i <= self.dirs.len(),
                *self == pre,
                dirs@ == pre.dirs@.subrange(0, i as int).map_values(|x: DirRecord| unparent(x, id.0)),
            decreases self.dirs.len() - i,
        {
            let d = &self.dirs[i];
            let mut x = d.duplicate();
            let clear = match &d.parent_id {
                Some(p) => p.0 == id.0,
                None => false,
            };
            if clear {
                x.parent_id = None;
            }
            dirs.push(x);
            assert(dirs@ =~= pre.dirs@.subrange(0, i as int + 1).map_values(|x: DirRecord| unparent(x, id.0)));
            i = i + 1;
        }
        assert(pre.dirs@.subrange(0, i as int) == pre.dirs@);
        self.dirs = dirs;
        proof {
            lemma_keys_map(pre.dirs@, self.dirs@, dir_key(), pre.next_id);
            assert forall|k: int| 0 <= k < self.dirs@.len() implies self.dir_ok(#[trigger] self.dirs@[k]) by {
                assert(pre.dir_ok(pre.dirs@[k]));
            }
            assert forall|k: int| 0 <= k < self.files@.len() implies self.file_ok(#[trigger] self.files@[k]) by {
                let f = pre.files@[k];
                assert(pre.file_ok(f));
                let t = choose|t: int| 0 <= t < pre.dirs@.len() && #[trigger] dir_is(f.dir_id.0, f.dat_id.0)(pre.dirs@[t]);
                assert(dir_is(f.dir_id.0, f.dat_id.0)(self.dirs@[t]));
            }
            assert(forall|k: int| 0 <= k < self.matches@.len() ==> pre.match_ok(#[trigger] self.matches@[k]));
        }
    }
}

impl MatchRecord {
    /// Removes match `id`; says whether it existed.
    pub fn delete_by_id(index: &mut Index, id: &MatchId) -> (r: bool)
        requires
            old(index).wf(),
        ensures
            final(index).wf(),
            final(index).next_id == old(index).next_id,
            final(index).dats@ == old(index).dats@ && final(index).sets@ == old(index).sets@,
            final(index).roms@ == old(index).roms@ && final(index).dirs@ == old(index).dirs@,
            final(index).files@ == old(index).files@,
            final(index).matches@ == old(index).matches@.filter(|x: MatchRecord| x.id.0 != id.0),
            r == seq_any(old(index).matches@, |x: MatchRecord| x.id.0 == id.0),
    {
        let ghost pre = *index;
        let found = any_row(
            &index.matches,
            (|x: &MatchRecord| -> (b: bool)
                ensures
                    b == (x.id.0 == id.0),
            {
                x.id.0 == id.0
            }),
            Ghost(|x: MatchRecord| x.id.0 == id.0),
        );
        let kept = select(
            &index.matches,
            (|x: &MatchRecord| -> (b: bool)
                ensures
                    b == (x.id.0 != id.0),
            {
                x.id.0 != id.0
            }),
            Ghost(|x: MatchRecord| x.id.0 != id.0),
        );
        index.matches = kept;
        proof {
            let q = |x: MatchRecord| x.id.0 != id.0;
            lemma_keys_filter(pre.matches@, match_key(), pre.next_id, q);
            assert forall|k: int| 0 <= k < index.matches@.len() implies index.match_ok(#[trigger] index.matches@[k]) by {
                lemma_filter_member(pre.matches@, q, k);
                let j = choose|j: int| 0 <= j < pre.matches@.len() && pre.matches@[j] == index.matches@[k];
                assert(pre.match_ok(pre.matches@[j]));
            }
        }
        found
    }
}

impl DatRecord {
    /// Removes catalog `id` when no set or dir belongs to it any more, and
    /// says whether it existed; fails with `Backend` while some row still
    /// refers to it (use `delete_catalog` to remove everything).
    pub fn delete_by_id(index: &mut Index, id: &DatId) -> (r: Result<bool, StoreError>)
        requires
            old(index).wf(),
        ensures
            final(index).wf(),
            r is Err <==> seq_any(old(index).sets@, |x: SetRecord| x.dat_id.0 == id.0)
                || seq_any(old(index).dirs@, |x: DirRecord| x.dat_id.0 == id.0),
            r matches Err(e) ==> e == StoreError::Backend && final(index).same_as(*old(index)),
            r matches Ok(found) ==> {
                &&& found == seq_any(old(index).dats@, dat_is(id.0))
                &&& final(index).dats@ == old(index).dats@.filter(|x: DatRecord| x.id.0 != id.0)
                &&& final(index).sets@ == old(index).sets@ && final(index).roms@ == old(index).roms@
                &&& final(index).dirs@ == old(index).dirs@ && final(index).files@ == old(index).files@
                &&& final(index).matches@ == old(index).matches@ && final(index).next_id == old(index).next_id
            },
    {
        let ghost pre = *index;
        let has_sets = any_row(
            &index.sets,
            (|x: &SetRecord| -> (b: bool)
                ensures
                    b == (x.dat_id.0 == id.0),
            {
                x.dat_id.0 == id.0
            }),
            Ghost(|x: SetRecord| x.dat_id.0 == id.0),
        );
        let has_dirs = any_row(
            &index.dirs,
            (|x: &DirRecord| -> (b: bool)
                ensures
                    b == (x.dat_id.0 == id.0),
            {
                x.dat_id.0 == id.0
            }),
            Ghost(|x: DirRecord| x.dat_id.0 == id.0),
        );
        if has_sets || has_dirs {
            return Err(StoreError::Backend);
        }
        let found = any_row(
            &index.dats,
            (|x: &DatRecord| -> (b: bool)
                ensures
                    b == dat_is(id.0)(*x),
            {
                x.id.0 == id.0
            }),
            Ghost(dat_is(id.0)),
        );
        let kept = select(
            &index.dats,
            (|x: &DatRecord| -> (b: bool)
                ensures
                    b == (x.id.0 != id.0),
            {
                x.id.0 != id.0
            }),
            Ghost(|x: DatRecord| x.id.0 != id.0),
        );
        index.dats = kept;
        proof {
            let q = |x: DatRecord| x.id.0 != id.0;
            lemma_keys_filter(pre.dats@, dat_key(), pre.next_id, q);
            assert forall|k: int| 0 <= k < index.sets@.len() implies index.set_ok(#[trigger] index.sets@[k]) by {
                let x = index.sets@[k];
                assert(pre.set_ok(x));
                assert(!(|x: SetRecord| x.dat_id.0 == id.0)(x));
                lemma_any_filter(pre.dats@, dat_is(x.dat_id.0), q);
            }
            assert forall|k: int| 0 <= k < index.dirs@.len() implies index.dir_ok(#[trigger] index.dirs@[k]) by {
                let x = index.dirs@[k];
                assert(pre.dir_ok(x));
                assert(!(|x: DirRecord| x.dat_id.0 == id.0)(x));
                lemma_any_filter(pre.dats@, dat_is(x.dat_id.0), q);
            }
            assert(forall|k: int| 0 <= k < index.roms@.len() ==> pre.rom_ok(#[trigger] index.roms@[k]));
            assert(forall|k: int| 0 <= k < index.files@.len() ==> pre.file_ok(#[trigger] index.files@[k]));
            assert(forall|k: int| 0 <= k < index.matches@.len() ==> pre.match_ok(#[trigger] index.matches@[k]));
        }
        Ok(found)
    }
}

/// Some dir of `dirs` recorded for `path` under `dat` has identifier `id`.
pub open spec fn dir_at_id(path: Seq<char>, dat: i64, id: i64) -> spec_fn(DirRecord) -> bool {
    |d: DirRecord| d.path@ == path && d.dat_id.0 == dat && d.id.0 == id
}

/// Dir `x` keeps the identifier, path and catalog of some dir of `dirs`.
pub open spec fn shaped_from(dirs: Seq<DirRecord>, x: DirRecord) -> bool {
    seq_any(dirs, dir_at_id(x.path@, x.dat_id.0, x.id.0))
}

impl DirRecord {
    /// Removes every dir recorded for `path` under `dat_id`, with their files
    /// and the matches of those files; all other files and their matches stay.
    pub fn delete_at(index: &mut Index, dat_id: &DatId, path: &str)
        requires
            old(index).wf(),
        ensures
            final(index).wf(),
            final(index).next_id == old(index).next_id,
            final(index).dats@ == old(index).dats@ && final(index).sets@ == old(index).sets@,
            final(index).roms@ == old(index).roms@,
            !seq_any(final(index).dirs@, dir_at(path@, dat_id.0)),
            forall|k: int| 0 <= k < final(index).dirs@.len() ==> shaped_from(old(index).dirs@, #[trigger] final(index).dirs@[k]),
            forall|k: int| 0 <= k < old(index).dirs@.len() && !dir_at(path@, dat_id.0)(#[trigger] old(index).dirs@[k])
                ==> shaped_from(final(index).dirs@, old(index).dirs@[k]),
            forall|k: int| 0 <= k < final(index).files@.len() ==> old(index).files@.contains(#[trigger] final(index).files@[k])
                && !seq_any(old(index).dirs@, dir_at_id(path@, dat_id.0, final(index).files@[k].dir_id.0)),
            forall|k: int| 0 <= k < old(index).files@.len()
                && !seq_any(old(index).dirs@, dir_at_id(path@, dat_id.0, (#[trigger] old(index).files@[k]).dir_id.0))
                ==> final(index).files@.contains(old(index).files@[k]),
            forall|k: int, j: int| 0 <= k < old(index).matches@.len() && 0 <= j < old(index).files@.len()
                && (#[trigger] old(index).matches@[k]).file_id.0 == (#[trigger] old(index).files@[j]).id.0
                && !seq_any(old(index).dirs@, dir_at_id(path@, dat_id.0, old(index).files@[j].dir_id.0))
                ==> final(index).matches@.contains(old(index).matches@[k]),
    {
        let ghost pre = *index;
        assert forall|k: int| 0 <= k < index.dirs@.len() implies shaped_from(pre.dirs@, #[trigger] index.dirs@[k]) by {
            let x = index.dirs@[k];
            assert(dir_at_id(x.path@, x.dat_id.0, x.id.0)(pre.dirs@[k]));
        }
        assert forall|k: int| 0 <= k < pre.dirs@.len() && !dir_at(path@, dat_id.0)(#[trigger] pre.dirs@[k])
            implies shaped_from(index.dirs@, pre.dirs@[k]) by {
            let x = pre.dirs@[k];
            assert(dir_at_id(x.path@, x.dat_id.0, x.id.0)(index.dirs@[k]));
        }
        loop
            invariant
                index.wf(),
                pre == *old(index),
                index.next_id == pre.next_id,
                index.dats@ == pre.dats@ && index.sets@ == pre.sets@ && index.roms@ == pre.roms@,
                forall|k: int| 0 <= k < index.dirs@.len() ==> shaped_from(pre.dirs@, #[trigger] index.dirs@[k]),
                forall|k: int| 0 <= k < pre.dirs@.len() && !dir_at(path@, dat_id.0)(#[trigger] pre.dirs@[k])
                    ==> shaped_from(index.dirs@, pre.dirs@[k]),
                forall|k: int| 0 <= k < index.files@.len() ==> pre.files@.contains(#[trigger] index.files@[k]),
                forall|k: int| 0 <= k < pre.files@.len()
                    && !seq_any(pre.dirs@, dir_at_id(path@, dat_id.0, (#[trigger] pre.files@[k]).dir_id.0))
                    ==> index.files@.contains(pre.files@[k]),
                forall|k: int, j: int| 0 <= k < pre.matches@.len() && 0 <= j < pre.files@.len()
                    && (#[trigger] pre.matches@[k]).file_id.0 == (#[trigger] pre.files@[j]).id.0
                    && !seq_any(pre.dirs@, dir_at_id(path@, dat_id.0, pre.files@[j].dir_id.0))
                    ==> index.matches@.contains(pre.matches@[k]),
            ensures
                !seq_any(index.dirs@, dir_at(path@, dat_id.0)),
            decreases index.dirs@.len(),
        {
            let d = match DirRecord::get_by_dat_path(index, dat_id, path) {
                Some(d) => d,
                None => break,
            };
            let ghost before = *index;
            DirRecord::delete_by_id(index, &d.id);
            proof {
                let kd = choose|k: int| 0 <= k < before.dirs@.len() && before.dirs@[k] == d;
                assert(shaped_from(pre.dirs@, before.dirs@[kd]));
                let y = choose|y: int| 0 <= y < pre.dirs@.len() && #[trigger] dir_at_id(d.path@, d.dat_id.0, d.id.0)(pre.dirs@[y]);
                lemma_filter_len_lt(before.dirs@, |x: DirRecord| x.id.0 != d.id.0, kd);
                let qd = |x: DirRecord| x.id.0 != d.id.0;
                assert forall|k: int| 0 <= k < index.dirs@.len() implies shaped_from(pre.dirs@, #[trigger] index.dirs@[k]) by {
                    lemma_filter_member(before.dirs@, qd, k);
                    let t = choose|t: int| 0 <= t < before.dirs@.len() && before.dirs@[t] == before.dirs@.filter(qd)[k];
                    assert(shaped_from(pre.dirs@, before.dirs@[t]));
                }
                assert forall|k: int| 0 <= k < pre.dirs@.len() && !dir_at(path@, dat_id.0)(#[trigger] pre.dirs@[k])
                    implies shaped_from(index.dirs@, pre.dirs@[k]) by {
                    let x = pre.dirs@[k];
                    let w = choose|w: int| 0 <= w < before.dirs@.len() && #[trigger] dir_at_id(x.path@, x.dat_id.0, x.id.0)(before.dirs@[w]);
                    if before.dirs@[w].id.0 == d.id.0 {
                        assert(dir_key()(before.dirs@[w]) == dir_key()(before.dirs@[kd]));
                    }
                    assert(qd(before.dirs@[w]));
                    assert(before.dirs@.filter(qd).contains(before.dirs@[w]));
                    let u = choose|u: int| 0 <= u < before.dirs@.filter(qd).len() && before.dirs@.filter(qd)[u] == before.dirs@[w];
                    assert(dir_at_id(x.path@, x.dat_id.0, x.id.0)(index.dirs@[u]));
                }
                let qf = |x: FileRecord| !(x.dir_id.0 == d.id.0);
                assert forall|k: int| 0 <= k < index.files@.len() implies pre.files@.contains(#[trigger] index.files@[k]) by {
                    lemma_filter_member(before.files@, qf, k);
                    let t = choose|t: int| 0 <= t < before.files@.len() && before.files@[t] == index.files@[k];
                }
                assert forall|k: int| 0 <= k < pre.files@.len()
                    && !seq_any(pre.dirs@, dir_at_id(path@, dat_id.0, (#[trigger] pre.files@[k]).dir_id.0))
                    implies index.files@.contains(pre.files@[k]) by {
                    let f = pre.files@[k];
                    let t = choose|t: int| 0 <= t < before.files@.len() && before.files@[t] == f;
                    if f.dir_id.0 == d.id.0 {
                        assert(dir_at_id(path@, dat_id.0, f.dir_id.0)(pre.dirs@[y]));
                    }
                    assert(qf(before.files@[t]));
                }
                let doomed = before.files@.filter(|x: FileRecord| x.dir_id.0 == d.id.0);
                assert forall|k: int, j: int| 0 <= k < pre.matches@.len() && 0 <= j < pre.files@.len()
                    && (#[trigger] pre.matches@[k]).file_id.0 == (#[trigger] pre.files@[j]).id.0
                    && !seq_any(pre.dirs@, dir_at_id(path@, dat_id.0, pre.files@[j].dir_id.0))
                    implies index.matches@.contains(pre.matches@[k]) by {
                    let m = pre.matches@[k];
                    let f = pre.files@[j];
                    let tm = choose|t: int| 0 <= t < before.matches@.len() && before.matches@[t] == m;
                    let tf = choose|t: int| 0 <= t < before.files@.len() && before.files@[t] == f;
                    if f.dir_id.0 == d.id.0 {
                        assert(dir_at_id(path@, dat_id.0, f.dir_id.0)(pre.dirs@[y]));
                    }
                    let pid = |x: FileRecord| x.id.0 == m.file_id.0;
                    if seq_any(doomed, pid) {
                        let u = choose|u: int| 0 <= u < doomed.len() && #[trigger] pid(doomed[u]);
                        lemma_filter_member(before.files@, |x: FileRecord| x.dir_id.0 == d.id.0, u);
                        let v = choose|v: int| 0 <= v < before.files@.len() && before.files@[v] == doomed[u];
                        assert((|x: FileRecord| x.dir_id.0 == d.id.0)(doomed[u]));
                        assert(file_key()(before.files@[v]) == file_key()(before.files@[tf]));
                    }
                    let qm = |mm: MatchRecord| !seq_any(doomed, |x: FileRecord| x.id.0 == mm.file_id.0);
                    assert(qm(before.matches@[tm]));
                }
            }
        }
        proof {
            assert forall|k: int| 0 <= k < index.files@.len() implies pre.files@.contains(#[trigger] index.files@[k])
                && !seq_any(pre.dirs@, dir_at_id(path@, dat_id.0, index.files@[k].dir_id.0)) by {
                let f = index.files@[k];
                if seq_any(pre.dirs@, dir_at_id(path@, dat_id.0, f.dir_id.0)) {
                    let y = choose|y: int| 0 <= y < pre.dirs@.len() && #[trigger] dir_at_id(path@, dat_id.0, f.dir_id.0)(pre.dirs@[y]);
                    assert(index.file_ok(f));
                    let x = choose|x: int| 0 <= x < index.dirs@.len() && #[trigger] dir_is(f.dir_id.0, f.dat_id.0)(index.dirs@[x]);
                    assert(shaped_from(pre.dirs@, index.dirs@[x]));
                    let z = choose|z: int| 0 <= z < pre.dirs@.len()
                        && #[trigger] dir_at_id(index.dirs@[x].path@, index.dirs@[x].dat_id.0, index.dirs@[x].id.0)(pre.dirs@[z]);
                    assert(dir_key()(pre.dirs@[z]) == dir_key()(pre.dirs@[y]));
                    assert(dir_at(path@, dat_id.0)(index.dirs@[x]));
                }
            }
        }
    }
}

impl Index {
    /// Whether an index read from storage is well formed, as every operation
    /// of the index requires. It compares every pair of rows of a relation,
    /// so it takes time quadratic in their number, and it also refuses two
    /// equal rows under one identifier.
    pub fn check(&self) -> (r: bool)
        ensures
            r ==> self.wf(),
            r ==> crate::catalog::ids_distinct(self.files@),
    {
        if self.next_id <= 0 {
            return false;
        }
        let n = self.next_id;
        if !check_keys(
            &self.dats,
            (|x: &DatRecord| -> (k: i64)
                ensures
                    k == dat_key()(*x),
            {
                x.id.0
            }),
            Ghost(dat_key()),
            n,
        ) {
            return false;
        }
        if !check_keys(
            &self.sets,
            (|x: &SetRecord| -> (k: i64)
                ensures
                    k == set_key()(*x),
            {
                x.id.0
            }),
            Ghost(set_key()),
            n,
        ) {
            return false;
        }
        if !check_keys(
            &self.roms,
            (|x: &RomRecord| -> (k: i64)
                ensures
                    k == rom_key()(*x),
            {
                x.id.0
            }),
            Ghost(rom_key()),
            n,
        ) {
            return false;
        }
        if !check_keys(
            &self.dirs,
            (|x: &DirRecord| -> (k: i64)
                ensures
                    k == dir_key()(*x),
            {
                x.id.0
            }),
            Ghost(dir_key()),
            n,
        ) {
            return false;
        }
        if !check_keys(
            &self.files,
            (|x: &FileRecord| -> (k: i64)
                ensures
                    k == file_key()(*x),
            {
                x.id.0
            }),
            Ghost(file_key()),
            n,
        ) {
            return false;
        }
        if !check_keys(
            &self.matches,
            (|x: &MatchRecord| -> (k: i64)
                ensures
                    k == match_key()(*x),
            {
                x.id.0
            }),
            Ghost(match_key()),
            n,
        ) {
            return false;
        }
        let ok = all_rows(
            &self.sets,
            (|x: &SetRecord| -> (b: bool)
                ensures
                    b == self.set_ok(*x),
            {
                any_row(
                    &self.dats,
                    (|y: &DatRecord| -> (c: bool)
                        ensures
                            c == dat_is(x.dat_id.0)(*y),
                    {
                        y.id.0 == x.dat_id.0
                    }),
                    Ghost(dat_is(x.dat_id.0)),
                )
            }),
            Ghost(|x: SetRecord| self.set_ok(x)),
        );
        if !ok {
            return false;
        }
        let ok = all_rows(
            &self.roms,
            (|x: &RomRecord| -> (b: bool)
                ensures
                    b == self.rom_ok(*x),
            {
                any_row(
                    &self.sets,
                    (|y: &SetRecord| -> (c: bool)
                        ensures
                            c == set_is(x.set_id.0, x.dat_id.0)(*y),
                    {
                        y.id.0 == x.set_id.0 && y.dat_id.0 == x.dat_id.0
                    }),
                    Ghost(set_is(x.set_id.0, x.dat_id.0)),
                )
            }),
            Ghost(|x: RomRecord| self.rom_ok(x)),
        );
        if !ok {
            return false;
        }
        let ok = all_rows(
            &self.dirs,
            (|x: &DirRecord| -> (b: bool)
                ensures
                    b == self.dir_ok(*x),
            {
                any_row(
                    &self.dats,
                    (|y: &DatRecord| -> (c: bool)
                        ensures
                            c == dat_is(x.dat_id.0)(*y),
                    {
                        y.id.0 == x.dat_id.0
                    }),
                    Ghost(dat_is(x.dat_id.0)),
                )
            }),
            Ghost(|x: DirRecord| self.dir_ok(x)),
        );
        if !ok {
            return false;
        }
        let ok = all_rows(
            &self.files,
            (|x: &FileRecord| -> (b: bool)
                ensures
                    b == self.file_ok(*x),
            {
                any_row(
                    &self.dirs,
                    (|y: &DirRecord| -> (c: bool)
                        ensures
                            c == dir_is(x.dir_id.0, x.dat_id.0)(*y),
                    {
                        y.id.0 == x.dir_id.0 && y.dat_id.0 == x.dat_id.0
                    }),
                    Ghost(dir_is(x.dir_id.0, x.dat_id.0)),
                )
            }),
            Ghost(|x: FileRecord| self.file_ok(x)),
        );
        if !ok {
            return false;
        }
        let ok = all_rows(
            &self.matches,
            (|x: &MatchRecord| -> (b: bool)
                ensures
                    b == self.match_ok(*x),
            {
                any_row(
                    &self.files,
                    (|y: &FileRecord| -> (c: bool)
                        ensures
                            c == file_is(x.file_id.0, x.dat_id.0)(*y),
                    {
                        y.id.0 == x.file_id.0 && y.dat_id.0 == x.dat_id.0
                    }),
                    Ghost(file_is(x.file_id.0, x.dat_id.0)),
                )
                    && any_row(
                    &self.sets,
                    (|y: &SetRecord| -> (c: bool)
                        ensures
                            c == set_is(x.set_id.0, x.dat_id.0)(*y),
                    {
                        y.id.0 == x.set_id.0 && y.dat_id.0 == x.dat_id.0
                    }),
                    Ghost(set_is(x.set_id.0, x.dat_id.0)),
                )
                    && any_row(
                    &self.roms,
                    (|y: &RomRecord| -> (c: bool)
                        ensures
                            c == rom_is(x.rom_id.0, x.set_id.0, x.dat_id.0)(*y),
                    {
                        y.id.0 == x.rom_id.0 && y.set_id.0 == x.set_id.0 && y.dat_id.0 == x.dat_id.0
                    }),
                    Ghost(rom_is(x.rom_id.0, x.set_id.0, x.dat_id.0)),
                )
            }),
            Ghost(|x: MatchRecord| self.match_ok(x)),
        );
        if !ok {
            return false;
        }
        proof {
            assert forall|k: int| 0 <= k < self.sets@.len() implies self.set_ok(#[trigger] self.sets@[k]) by {
                assert((|x: SetRecord| self.set_ok(x))(self.sets@[k]));
            }
            assert forall|k: int| 0 <= k < self.roms@.len() implies self.rom_ok(#[trigger] self.roms@[k]) by {
                assert((|x: RomRecord| self.rom_ok(x))(self.roms@[k]));
            }
            assert forall|k: int| 0 <= k < self.dirs@.len() implies self.dir_ok(#[trigger] self.dirs@[k]) by {
                assert((|x: DirRecord| self.dir_ok(x))(self.dirs@[k]));
            }
            assert forall|k: int| 0 <= k < self.files@.len() implies self.file_ok(#[trigger] self.files@[k]) by {
                assert((|x: FileRecord| self.file_ok(x))(self.files@[k]));
            }
            assert forall|k: int| 0 <= k < self.matches@.len() implies self.match_ok(#[trigger] self.matches@[k]) by {
                assert((|x: MatchRecord| self.match_ok(x))(self.matches@[k]));
            }
            assert forall|a: int, b: int| 0 <= a < self.files@.len() && 0 <= b < self.files@.len() && a != b
                implies (#[trigger] self.files@[a]).id.0 != (#[trigger] self.files@[b]).id.0 by {
                assert(file_key()(self.files@[a]) != file_key()(self.files@[b]));
            }
        }
        true
    }
}

/// `candidate` is `query`, or holds it when the search is not `exact`.
pub open spec fn name_fits(candidate: Seq<char>, query: Seq<char>, exact: bool) -> bool {
    if exact {
        candidate == query
    } else {
        is_infix(query, candidate)
    }
}

fn name_matches(candidate: &String, query: &String, query_text: &str, exact: bool) -> (r: bool)
    requires
        query@ == query_text@,
    ensures
        r == name_fits(candidate@, query_text@, exact),
{
    if exact {
        *candidate == *query
    } else {
        contains_text(candidate.as_str(), query_text)
    }
}

impl DatRecord {
    /// The record with identifier `id`.
    pub fn get_by_id(index: &Index, id: &DatId) -> (r: Result<DatRecord, StoreError>)
        ensures
            r is Ok <==> seq_any(index.dats@, |x: DatRecord| x.id.0 == id.0),
            match r {
                Ok(x) => index.dats@.contains(x) && x.id.0 == id.0,
                Err(e) => e == StoreError::NotFound,
            },
    {
        match find_row(
            &index.dats,
            (|x: &DatRecord| -> (b: bool)
                ensures
                    b == (x.id.0 == id.0),
            {
                x.id.0 == id.0
            }),
            Ghost(|x: DatRecord| x.id.0 == id.0),
        ) {
            Some(x) => Ok(x),
            None => Err(StoreError::NotFound),
        }
    }

    /// Every catalog, in the order they were added.
    pub fn get_all(index: &Index) -> (r: Vec<DatRecord>)
        ensures
            r@ == index.dats@,
    {
        copy_rows(&index.dats)
    }

    /// The sets of this catalog.
    pub fn get_sets(&self, index: &Index) -> (r: Vec<SetRecord>)
        ensures
            r@ == index.sets@.filter(|x: SetRecord| x.dat_id.0 == self.id.0),
    {
        SetRecord::get_by_dat(index, &self.id)
    }

    /// The roms of this catalog.
    pub fn get_roms(&self, index: &Index) -> (r: Vec<RomRecord>)
        ensures
            r@ == index.roms@.filter(|x: RomRecord| x.dat_id.0 == self.id.0),
    {
        RomRecord::get_by_dat(index, &self.id)
    }

    /// The dirs scanned against this catalog.
    pub fn get_directories(&self, index: &Index) -> (r: Vec<DirRecord>)
        ensures
            r@ == index.dirs@.filter(|x: DirRecord| x.dat_id.0 == self.id.0),
    {
        DirRecord::get_by_dat(index, &self.id)
    }
}

impl SetRecord {
    /// The record with identifier `id`.
    pub fn get_by_id(index: &Index, id: &SetId) -> (r: Result<SetRecord, StoreError>)
        ensures
            r is Ok <==> seq_any(index.sets@, |x: SetRecord| x.id.0 == id.0),
            match r {
                Ok(x) => index.sets@.contains(x) && x.id.0 == id.0,
                Err(e) => e == StoreError::NotFound,
            },
    {
        match find_row(
            &index.sets,
            (|x: &SetRecord| -> (b: bool)
                ensures
                    b == (x.id.0 == id.0),
            {
                x.id.0 == id.0
            }),
            Ghost(|x: SetRecord| x.id.0 == id.0),
        ) {
            Some(x) => Ok(x),
            None => Err(StoreError::NotFound),
        }
    }
    /// The sets of catalog `dat_id`.
    pub fn get_by_dat(index: &Index, dat_id: &DatId) -> (r: Vec<SetRecord>)
        ensures
            r@ == index.sets@.filter(|x: SetRecord| x.dat_id.0 == dat_id.0),
    {
        select(
            &index.sets,
            (|x: &SetRecord| -> (b: bool)
                ensures
                    b == (x.dat_id.0 == dat_id.0),
            {
                x.dat_id.0 == dat_id.0
            }),
            Ghost(|x: SetRecord| x.dat_id.0 == dat_id.0),
        )
    }
    /// The sets of `dat_id` named `name`, or whose name contains it when not `exact`.
    pub(crate) fn named_rows(index: &Index, dat_id: &DatId, name: &str, exact: bool) -> (r: Vec<SetRecord>)
        ensures
            r@ == index.sets@.filter(|x: SetRecord| x.dat_id.0 == dat_id.0 && name_fits(x.name@, name@, exact)),
    {
        let query = name.to_owned();
        select(
            &index.sets,
            (|x: &SetRecord| -> (b: bool)
                ensures
                    b == (x.dat_id.0 == dat_id.0 && name_fits(x.name@, name@, exact)),
            {
                x.dat_id.0 == dat_id.0 && name_matches(&x.name, &query, name, exact)
            }),
            Ghost(|x: SetRecord| x.dat_id.0 == dat_id.0 && name_fits(x.name@, name@, exact)),
        )
    }

    /// The roms of this set.
    pub fn get_roms(&self, index: &Index) -> (r: Vec<RomRecord>)
        ensures
            r@ == index.roms@.filter(|x: RomRecord| x.set_id.0 == self.id.0),
    {
        RomRecord::get_by_set(index, &self.id)
    }
}

impl RomRecord {
    /// The record with identifier `id`.
    pub fn get_by_id(index: &Index, id: &RomId) -> (r: Result<RomRecord, StoreError>)
        ensures
            r is Ok <==> seq_any(index.roms@, |x: RomRecord| x.id.0 == id.0),
            match r {
                Ok(x) => index.roms@.contains(x) && x.id.0 == id.0,
                Err(e) => e == StoreError::NotFound,
            },
    {
        match find_row(
            &index.roms,
            (|x: &RomRecord| -> (b: bool)
                ensures
                    b == (x.id.0 == id.0),
            {
                x.id.0 == id.0
            }),
            Ghost(|x: RomRecord| x.id.0 == id.0),
        ) {
            Some(x) => Ok(x),
            None => Err(StoreError::NotFound),
        }
    }
    /// The roms of catalog `dat_id`.
    pub fn get_by_dat(index: &Index, dat_id: &DatId) -> (r: Vec<RomRecord>)
        ensures
            r@ == index.roms@.filter(|x: RomRecord| x.dat_id.0 == dat_id.0),
    {
        select(
            &index.roms,
            (|x: &RomRecord| -> (b: bool)
                ensures
                    b == (x.dat_id.0 == dat_id.0),
            {
                x.dat_id.0 == dat_id.0
            }),
            Ghost(|x: RomRecord| x.dat_id.0 == dat_id.0),
        )
    }
    /// The roms of `dat_id` named `name`, or whose name contains it when not `exact`.
    pub(crate) fn named_rows(index: &Index, dat_id: &DatId, name: &str, exact: bool) -> (r: Vec<RomRecord>)
        ensures
            r@ == index.roms@.filter(|x: RomRecord| x.dat_id.0 == dat_id.0 && name_fits(x.name@, name@, exact)),
    {
        let query = name.to_owned();
        select(
            &index.roms,
            (|x: &RomRecord| -> (b: bool)
                ensures
                    b == (x.dat_id.0 == dat_id.0 && name_fits(x.name@, name@, exact)),
            {
                x.dat_id.0 == dat_id.0 && name_matches(&x.name, &query, name, exact)
            }),
            Ghost(|x: RomRecord| x.dat_id.0 == dat_id.0 && name_fits(x.name@, name@, exact)),
        )
    }
    /// The roms of set `set_id`.
    pub fn get_by_set(index: &Index, set_id: &SetId) -> (r: Vec<RomRecord>)
        ensures
            r@ == index.roms@.filter(|x: RomRecord| x.set_id.0 == set_id.0),
    {
        select(
            &index.roms,
            (|x: &RomRecord| -> (b: bool)
                ensures
                    b == (x.set_id.0 == set_id.0),
            {
                x.set_id.0 == set_id.0
            }),
            Ghost(|x: RomRecord| x.set_id.0 == set_id.0),
        )
    }
    /// The roms of `dat_id` whose hash is `hash`.
    pub fn get_by_hash(index: &Index, dat_id: &DatId, hash: &str) -> (r: Vec<RomRecord>)
        ensures
            r@ == index.roms@.filter(|x: RomRecord| x.dat_id.0 == dat_id.0 && x.hash@ == hash@),
    {
        let query = hash.to_owned();
        select(
            &index.roms,
            (|x: &RomRecord| -> (b: bool)
                ensures
                    b == (x.dat_id.0 == dat_id.0 && x.hash@ == hash@),
            {
                x.dat_id.0 == dat_id.0 && x.hash == query
            }),
            Ghost(|x: RomRecord| x.dat_id.0 == dat_id.0 && x.hash@ == hash@),
        )
    }
}

impl DirRecord {
    /// The record with identifier `id`.
    pub fn get_by_id(index: &Index, id: &DirId) -> (r: Result<DirRecord, StoreError>)
        ensures
            r is Ok <==> seq_any(index.dirs@, |x: DirRecord| x.id.0 == id.0),
            match r {
                Ok(x) => index.dirs@.contains(x) && x.id.0 == id.0,
                Err(e) => e == StoreError::NotFound,
            },
    {
        match find_row(
            &index.dirs,
            (|x: &DirRecord| -> (b: bool)
                ensures
                    b == (x.id.0 == id.0),
            {
                x.id.0 == id.0
            }),
            Ghost(|x: DirRecord| x.id.0 == id.0),
        ) {
            Some(x) => Ok(x),
            None => Err(StoreError::NotFound),
        }
    }
    /// The dirs of catalog `dat_id`.
    pub fn get_by_dat(index: &Index, dat_id: &DatId) -> (r: Vec<DirRecord>)
        ensures
            r@ == index.dirs@.filter(|x: DirRecord| x.dat_id.0 == dat_id.0),
    {
        select(
            &index.dirs,
            (|x: &DirRecord| -> (b: bool)
                ensures
                    b == (x.dat_id.0 == dat_id.0),
            {
                x.dat_id.0 == dat_id.0
            }),
            Ghost(|x: DirRecord| x.dat_id.0 == dat_id.0),
        )
    }
    /// The dirs recorded for `path`, under any catalog.
    pub(crate) fn dirs_at_path(index: &Index, path: &str) -> (r: Vec<DirRecord>)
        ensures
            r@ == index.dirs@.filter(|x: DirRecord| x.path@ == path@),
    {
        let query = path.to_owned();
        select(
            &index.dirs,
            (|x: &DirRecord| -> (b: bool)
                ensures
                    b == (x.path@ == path@),
            {
                x.path == query
            }),
            Ghost(|x: DirRecord| x.path@ == path@),
        )
    }
    /// The dirs whose parent is this dir.
    pub(crate) fn child_dirs(&self, index: &Index) -> (r: Vec<DirRecord>)
        ensures
            r@ == index.dirs@.filter(|x: DirRecord| x.parent_id matches Some(p) && p.0 == self.id.0),
    {
        select(
            &index.dirs,
            (|x: &DirRecord| -> (b: bool)
                ensures
                    b == (x.parent_id matches Some(p) && p.0 == self.id.0),
            {
                match &x.parent_id {
                    Some(p) => p.0 == self.id.0,
                    None => false,
                }
            }),
            Ghost(|x: DirRecord| x.parent_id matches Some(p) && p.0 == self.id.0),
        )
    }

    /// The dir recorded for `path` under `dat_id`, if any.
    pub fn get_by_dat_path(index: &Index, dat_id: &DatId, path: &str) -> (r: Option<DirRecord>)
        ensures
            r is Some <==> seq_any(index.dirs@, dir_at(path@, dat_id.0)),
            r matches Some(x) ==> index.dirs@.contains(x) && x.path@ == path@ && x.dat_id.0 == dat_id.0,
    {
        let query = path.to_owned();
        find_row(
            &index.dirs,
            (|x: &DirRecord| -> (b: bool)
                ensures
                    b == dir_at(path@, dat_id.0)(*x),
            {
                x.path == query && x.dat_id.0 == dat_id.0
            }),
            Ghost(dir_at(path@, dat_id.0)),
        )
    }

    /// The files of this dir, ordered by name.
    pub fn get_files(&self, index: &Index) -> (r: Vec<FileRecord>)
        ensures
            sorted_by_key(r@),
            r@.to_multiset() == index.files@.filter(|x: FileRecord| x.dir_id.0 == self.id.0).to_multiset(),
    {
        FileRecord::get_by_dir(index, &self.id)
    }

    /// The files of this dir named `name`, or whose name contains it when
    /// not `exact`, ordered by name.
    pub fn find_files(&self, index: &Index, name: &str, exact: bool) -> (r: Vec<FileRecord>)
        ensures
            sorted_by_key(r@),
            r@.to_multiset() == index.files@.filter(
                |x: FileRecord| x.dir_id.0 == self.id.0 && name_fits(x.name@, name@, exact),
            ).to_multiset(),
    {
        FileRecord::find_by_name(index, &self.id, name, exact)
    }
}

impl FileRecord {
    /// The record with identifier `id`.
    pub fn get_by_id(index: &Index, id: &FileId) -> (r: Result<FileRecord, StoreError>)
        ensures
            r is Ok <==> seq_any(index.files@, |x: FileRecord| x.id.0 == id.0),
            match r {
                Ok(x) => index.files@.contains(x) && x.id.0 == id.0,
                Err(e) => e == StoreError::NotFound,
            },
    {
        match find_row(
            &index.files,
            (|x: &FileRecord| -> (b: bool)
                ensures
                    b == (x.id.0 == id.0),
            {
                x.id.0 == id.0
            }),
            Ghost(|x: FileRecord| x.id.0 == id.0),
        ) {
            Some(x) => Ok(x),
            None => Err(StoreError::NotFound),
        }
    }
    /// The files scanned against catalog `dat_id`.
    pub fn get_by_dat(index: &Index, dat_id: &DatId) -> (r: Vec<FileRecord>)
        ensures
            r@ == index.files@.filter(|x: FileRecord| x.dat_id.0 == dat_id.0),
    {
        select(
            &index.files,
            (|x: &FileRecord| -> (b: bool)
                ensures
                    b == (x.dat_id.0 == dat_id.0),
            {
                x.dat_id.0 == dat_id.0
            }),
            Ghost(|x: FileRecord| x.dat_id.0 == dat_id.0),
        )
    }
    /// The files of dir `dir_id`.
    pub(crate) fn files_of_dir(index: &Index, dir_id: &DirId) -> (r: Vec<FileRecord>)
        ensures
            r@ == index.files@.filter(|x: FileRecord| x.dir_id.0 == dir_id.0),
    {
        select(
            &index.files,
            (|x: &FileRecord| -> (b: bool)
                ensures
                    b == (x.dir_id.0 == dir_id.0),
            {
                x.dir_id.0 == dir_id.0
            }),
            Ghost(|x: FileRecord| x.dir_id.0 == dir_id.0),
        )
    }
    /// The files of `dir_id` named `name`, or whose name contains it when not `exact`.
    pub(crate) fn named_rows(index: &Index, dir_id: &DirId, name: &str, exact: bool) -> (r: Vec<FileRecord>)
        ensures
            r@ == index.files@.filter(|x: FileRecord| x.dir_id.0 == dir_id.0 && name_fits(x.name@, name@, exact)),
    {
        let query = name.to_owned();
        select(
            &index.files,
            (|x: &FileRecord| -> (b: bool)
                ensures
                    b == (x.dir_id.0 == dir_id.0 && name_fits(x.name@, name@, exact)),
            {
                x.dir_id.0 == dir_id.0 && name_matches(&x.name, &query, name, exact)
            }),
            Ghost(|x: FileRecord| x.dir_id.0 == dir_id.0 && name_fits(x.name@, name@, exact)),
        )
    }
}

impl MatchRecord {
    /// The record with identifier `id`.
    pub fn get_by_id(index: &Index, id: &MatchId) -> (r: Result<MatchRecord, StoreError>)
        ensures
            r is Ok <==> seq_any(index.matches@, |x: MatchRecord| x.id.0 == id.0),
            match r {
                Ok(x) => index.matches@.contains(x) && x.id.0 == id.0,
                Err(e) => e == StoreError::NotFound,
            },
    {
        match find_row(
            &index.matches,
            (|x: &MatchRecord| -> (b: bool)
                ensures
                    b == (x.id.0 == id.0),
            {
                x.id.0 == id.0
            }),
            Ghost(|x: MatchRecord| x.id.0 == id.0),
        ) {
            Some(x) => Ok(x),
            None => Err(StoreError::NotFound),
        }
    }
    /// The matches made against catalog `dat_id`.
    pub fn get_by_dat(index: &Index, dat_id: &DatId) -> (r: Vec<MatchRecord>)
        ensures
            r@ == index.matches@.filter(|x: MatchRecord| x.dat_id.0 == dat_id.0),
    {
        select(
            &index.matches,
            (|x: &MatchRecord| -> (b: bool)
                ensures
                    b == (x.dat_id.0 == dat_id.0),
            {
                x.dat_id.0 == dat_id.0
            }),
            Ghost(|x: MatchRecord| x.dat_id.0 == dat_id.0),
        )
    }
    /// The matches of file `file_id`.
    pub fn get_by_file(index: &Index, file_id: &FileId) -> (r: Vec<MatchRecord>)
        ensures
            r@ == index.matches@.filter(|x: MatchRecord| x.file_id.0 == file_id.0),
    {
        select(
            &index.matches,
            (|x: &MatchRecord| -> (b: bool)
                ensures
                    b == (x.file_id.0 == file_id.0),
            {
                x.file_id.0 == file_id.0
            }),
            Ghost(|x: MatchRecord| x.file_id.0 == file_id.0),
        )
    }
    /// The matches of file `file_id` that have `status`.
    pub fn get_by_file_status(index: &Index, file_id: &FileId, status: MatchStatus) -> (r: Vec<MatchRecord>)
        ensures
            r@ == index.matches@.filter(|x: MatchRecord| x.file_id.0 == file_id.0 && x.status == status),
    {
        select(
            &index.matches,
            (|x: &MatchRecord| -> (b: bool)
                ensures
                    b == (x.file_id.0 == file_id.0 && x.status == status),
            {
                x.file_id.0 == file_id.0 && x.status == status
            }),
            Ghost(|x: MatchRecord| x.file_id.0 == file_id.0 && x.status == status),
        )
    }
}

/// Referential integrity: every match, its file, the file's dir, its set
/// and its rom all belong to one catalog, and the rom belongs to the set.
pub proof fn lemma_referential_integrity(
    index: Index,
    m: MatchRecord,
    f: FileRecord,
    d: DirRecord,
    s: SetRecord,
    r: RomRecord,
)
    requires
        index.wf(),
        index.matches@.contains(m),
        index.files@.contains(f) && f.id.0 == m.file_id.0,
        index.dirs@.contains(d) && d.id.0 == f.dir_id.0,
        index.sets@.contains(s) && s.id.0 == m.set_id.0,
        index.roms@.contains(r) && r.id.0 == m.rom_id.0,
    ensures
        d.dat_id.0 == m.dat_id.0,
        f.dat_id.0 == m.dat_id.0,
        s.dat_id.0 == m.dat_id.0,
        r.dat_id.0 == m.dat_id.0,
        r.set_id.0 == s.id.0,
{
    let km = choose|k: int| 0 <= k < index.matches@.len() && index.matches@[k] == m;
    assert(index.match_ok(index.matches@[km]));
    let kf = choose|k: int| 0 <= k < index.files@.len() && index.files@[k] == f;
    let wf = choose|k: int| 0 <= k < index.files@.len() && #[trigger] file_is(m.file_id.0, m.dat_id.0)(index.files@[k]);
    assert(file_key()(index.files@[kf]) == file_key()(index.files@[wf]));
    assert(index.file_ok(index.files@[kf]));
    let kd = choose|k: int| 0 <= k < index.dirs@.len() && index.dirs@[k] == d;
    let wd = choose|k: int| 0 <= k < index.dirs@.len() && #[trigger] dir_is(f.dir_id.0, f.dat_id.0)(index.dirs@[k]);
    assert(dir_key()(index.dirs@[kd]) == dir_key()(index.dirs@[wd]));
    let ks = choose|k: int| 0 <= k < index.sets@.len() && index.sets@[k] == s;
    let ws = choose|k: int| 0 <= k < index.sets@.len() && #[trigger] set_is(m.set_id.0, m.dat_id.0)(index.sets@[k]);
    assert(set_key()(index.sets@[ks]) == set_key()(index.sets@[ws]));
    let kr = choose|k: int| 0 <= k < index.roms@.len() && index.roms@[k] == r;
    let wr = choose|k: int| 0 <= k < index.roms@.len() && #[trigger] rom_is(m.rom_id.0, m.set_id.0, m.dat_id.0)(index.roms@[k]);
    assert(rom_key()(index.roms@[kr]) == rom_key()(index.roms@[wr]));
}

} // verus!
