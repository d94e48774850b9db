//! Choosing the loose files that can be renamed to the rom they hold.
use crate::model::{DatId, DirRecord, FileRecord, MatchRecord, MatchStatus, RomRecord};
use crate::relation::{lemma_filter_member, select, Row};
use crate::store::{rom_is, Index, StoreError};
use crate::util::{is_zip_path, zip_ext};
use crate::paths::path_extension;
use vstd::prelude::*;

verus! {

broadcast use vstd::seq_lib::group_filter_ensures;

/// The hash-only matches of file `id`.
pub open spec fn hash_matches(matches: Seq<MatchRecord>, id: i64) -> Seq<MatchRecord> {
    matches.filter(|m: MatchRecord| m.file_id.0 == id && m.status == MatchStatus::Hash)
}

/// The file has exactly one match, by hash only.
pub open spec fn single_hash_match(matches: Seq<MatchRecord>) -> spec_fn(FileRecord) -> bool {
    |f: FileRecord| hash_matches(matches, f.id.0).len() == 1
}

/// Among `singles`, `f` is the only file with its name.
pub open spec fn alone_by_name(singles: Seq<FileRecord>) -> spec_fn(FileRecord) -> bool {
    |f: FileRecord| singles.filter(|g: FileRecord| g.name@ == f.name@).len() == 1
}

/// The files of `dir` that can be renamed: those with exactly one match,
/// by hash only, and no other such file of the same name in the dir.
pub open spec fn renameable(index: Index, dir: i64) -> Seq<FileRecord> {
    let singles = index.files@.filter(|f: FileRecord| f.dir_id.0 == dir).filter(single_hash_match(index.matches@));
    singles.filter(alone_by_name(singles))
}

/// The files of `dir` that can be renamed to the rom they hold.
pub fn rename_candidates(index: &Index, dir: &DirRecord) -> (r: Vec<FileRecord>)
    ensures
        r@ == renameable(*index, dir.id.0),
{
    let files = FileRecord::files_of_dir(index, &dir.id);
    let singles = select(
        &files,
        (|f: &FileRecord| -> (b: bool)
            ensures
                b == single_hash_match(index.matches@)(*f),
        {
            MatchRecord::get_by_file_status(index, &f.id, MatchStatus::Hash).len() == 1
        }),
        Ghost(single_hash_match(index.matches@)),
    );
    let picked = select(
        &singles,
        (|f: &FileRecord| -> (b: bool)
            ensures
                b == alone_by_name(singles@)(*f),
        {
            let same = select(
                &singles,
                (|g: &FileRecord| -> (c: bool)
                    ensures
                        c == (g.name@ == f.name@),
                {
                    g.name == f.name
                }),
                Ghost(|g: FileRecord| g.name@ == f.name@),
            );
            same.len() == 1
        }),
        Ghost(alone_by_name(singles@)),
    );
    picked
}

/// One rename: the file, its single hash-only match, the dir it lies in and
/// the name of the rom it holds.
#[derive(Debug, Clone)]
pub struct RenameStep {
    pub dir_path: String,
    pub file: FileRecord,
    pub file_match: MatchRecord,
    pub target: String,
}

/// Some step renames file `f`.
pub open spec fn planned(steps: Seq<RenameStep>, f: FileRecord) -> bool {
    exists|k: int| 0 <= k < steps.len() && #[trigger] steps[k].file == f
}

proof fn lemma_planned_push(steps: Seq<RenameStep>, x: RenameStep, f: FileRecord)
    requires
        planned(steps, f),
    ensures
        planned(steps.push(x), f),
{
    let k = choose|k: int| 0 <= k < steps.len() && #[trigger] steps[k].file == f;
    assert(steps.push(x)[k] == steps[k]);
}

/// The renames for catalog `dat_id`: for each dir of the catalog that is not
/// a ZIP archive, each file that `rename_candidates` gives, with its match
/// and the name of the rom. Fails with `NotFound` when a match refers to a
/// rom that is not in the index, which a well-formed index rules out.
pub fn rename_plan(index: &Index, dat_id: &DatId) -> (r: Result<Vec<RenameStep>, StoreError>)
    ensures
        index.wf() ==> r is Ok,
        r matches Ok(steps) ==> forall|k: int| 0 <= k < steps@.len() ==> {
            let s = #[trigger] steps@[k];
            &&& index.files@.contains(s.file) && index.matches@.contains(s.file_match)
            &&& s.file_match.file_id.0 == s.file.id.0 && s.file_match.status == MatchStatus::Hash
            &&& hash_matches(index.matches@, s.file.id.0).len() == 1
            &&& exists|d: DirRecord| #[trigger] index.dirs@.contains(d) && d.dat_id.0 == dat_id.0 && d.path == s.dir_path
                && !zip_ext(path_extension(d.path@)) && renameable(*index, d.id.0).contains(s.file)
            &&& exists|rom: RomRecord| #[trigger] index.roms@.contains(rom) && rom.id.0 == s.file_match.rom_id.0
                && rom.name == s.target
        },
        r matches Ok(steps) ==> forall|t: int, c: int|
            0 <= t < index.dirs@.len() && index.dirs@[t].dat_id.0 == dat_id.0 && !zip_ext(path_extension(index.dirs@[t].path@))
                && 0 <= c < renameable(*index, index.dirs@[t].id.0).len()
                ==> planned(steps@, #[trigger] renameable(*index, index.dirs@[t].id.0)[c]),
{
    let dirs = DirRecord::get_by_dat(index, dat_id);
    let mut steps: Vec<RenameStep> = Vec::new();
    let mut i: usize = 0;
    while i < dirs.len()
        invariant
            i <= dirs.len(),
            dirs@ == index.dirs@.filter(|x: DirRecord| x.dat_id.0 == dat_id.0),
            forall|t: int, c: int|
                0 <= t < i && !zip_ext(path_extension(dirs@[t].path@)) && 0 <= c < renameable(*index, dirs@[t].id.0).len()
                    ==> planned(steps@, #[trigger] renameable(*index, dirs@[t].id.0)[c]),
            forall|k: int| 0 <= k < steps@.len() ==> {
                let s = #[trigger] steps@[k];
                &&& index.files@.contains(s.file) && index.matches@.contains(s.file_match)
                &&& s.file_match.file_id.0 == s.file.id.0 && s.file_match.status == MatchStatus::Hash
                &&& hash_matches(index.matches@, s.file.id.0).len() == 1
                &&& exists|d: DirRecord| #[trigger] index.dirs@.contains(d) && d.dat_id.0 == dat_id.0 && d.path == s.dir_path
                    && !zip_ext(path_extension(d.path@)) && renameable(*index, d.id.0).contains(s.file)
                &&& exists|rom: RomRecord| #[trigger] index.roms@.contains(rom) && rom.id.0 == s.file_match.rom_id.0
                    && rom.name == s.target
            },
        decreases dirs.len() - i,
    {
        let dir = &dirs[i];
        proof {
            lemma_filter_member(index.dirs@, |x: DirRecord| x.dat_id.0 == dat_id.0, i as int);
            assert((|x: DirRecord| x.dat_id.0 == dat_id.0)(dirs@[i as int]));
        }
        if !is_zip_path(dir.path.as_str()) {
            let candidates = rename_candidates(index, dir);
            let mut j: usize = 0;
            while j < candidates.len()
                invariant
                    j <= candidates.len(),
                    candidates@ == renameable(*index, dir.id.0),
                    *dir == dirs@[i as int],
                    i < dirs.len(),
                    forall|t: int, c: int|
                        0 <= t < i && !zip_ext(path_extension(dirs@[t].path@)) && 0 <= c < renameable(*index, dirs@[t].id.0).len()
                            ==> planned(steps@, #[trigger] renameable(*index, dirs@[t].id.0)[c]),
                    forall|c: int| 0 <= c < j ==> planned(steps@, #[trigger] candidates@[c]),
                    index.dirs@.contains(*dir) && dir.dat_id.0 == dat_id.0 && !zip_ext(path_extension(dir.path@)),
                    forall|k: int| 0 <= k < steps@.len() ==> {
                        let s = #[trigger] steps@[k];
                        &&& index.files@.contains(s.file) && index.matches@.contains(s.file_match)
                        &&& s.file_match.file_id.0 == s.file.id.0 && s.file_match.status == MatchStatus::Hash
                        &&& hash_matches(index.matches@, s.file.id.0).len() == 1
                        &&& exists|d: DirRecord| #[trigger] index.dirs@.contains(d) && d.dat_id.0 == dat_id.0 && d.path == s.dir_path
                            && !zip_ext(path_extension(d.path@)) && renameable(*index, d.id.0).contains(s.file)
                        &&& exists|rom: RomRecord| #[trigger] index.roms@.contains(rom) && rom.id.0 == s.file_match.rom_id.0
                            && rom.name == s.target
                    },
                decreases candidates.len() - j,
            {
                let file = &candidates[j];
                let found = MatchRecord::get_by_file_status(index, &file.id, MatchStatus::Hash);
                proof {
                    let singles = index.files@.filter(|f: FileRecord| f.dir_id.0 == dir.id.0).filter(single_hash_match(index.matches@));
                    lemma_filter_member(singles, alone_by_name(singles), j as int);
                    let t = choose|t: int| 0 <= t < singles.len() && singles[t] == *file;
                    assert(single_hash_match(index.matches@)(singles[t]));
                    let ff = index.files@.filter(|f: FileRecord| f.dir_id.0 == dir.id.0);
                    lemma_filter_member(ff, single_hash_match(index.matches@), t);
                    let u = choose|u: int| 0 <= u < ff.len() && ff[u] == *file;
                    lemma_filter_member(index.files@, |f: FileRecord| f.dir_id.0 == dir.id.0, u);
                    assert(renameable(*index, dir.id.0)[j as int] == *file);
                    assert(found@.len() == 1);
                }
                if found.len() == 1 {
                    let m = found[0].duplicate();
                    proof {
                        let q = |x: MatchRecord| x.file_id.0 == file.id.0 && x.status == MatchStatus::Hash;
                        lemma_filter_member(index.matches@, q, 0);
                        assert(q(found@[0]));
                        if index.wf() {
                            let k = choose|k: int| 0 <= k < index.matches@.len() && index.matches@[k] == m;
                            assert(index.match_ok(index.matches@[k]));
                            let t = choose|t: int| 0 <= t < index.roms@.len()
                                && #[trigger] rom_is(m.rom_id.0, m.set_id.0, m.dat_id.0)(index.roms@[t]);
                            assert((|x: RomRecord| x.id.0 == m.rom_id.0)(index.roms@[t]));
                        }
                    }
                    let rom = match RomRecord::get_by_id(index, &m.rom_id) {
                        Ok(rom) => rom,
                        Err(e) => return Err(e),
                    };
                    let ghost before = steps@;
                    let step = RenameStep { dir_path: dir.path.clone(), file: file.duplicate(), file_match: m, target: rom.name };
                    steps.push(step);
                    proof {
                        assert forall|t: int, c: int|
                            0 <= t < i && !zip_ext(path_extension(dirs@[t].path@)) && 0 <= c < renameable(*index, dirs@[t].id.0).len()
                                implies planned(steps@, #[trigger] renameable(*index, dirs@[t].id.0)[c]) by {
                            lemma_planned_push(before, step, renameable(*index, dirs@[t].id.0)[c]);
                        }
                        assert forall|c: int| 0 <= c < j + 1 implies planned(steps@, #[trigger] candidates@[c]) by {
                            if c < j {
                                lemma_planned_push(before, step, candidates@[c]);
                            } else {
                                assert(steps@[before.len() as int].file == candidates@[c]);
                            }
                        }
                    }
                }
                j = j + 1;
            }
            proof {
                assert forall|t: int, c: int|
                    0 <= t < i + 1 && !zip_ext(path_extension(dirs@[t].path@)) && 0 <= c < renameable(*index, dirs@[t].id.0).len()
                        implies planned(steps@, #[trigger] renameable(*index, dirs@[t].id.0)[c]) by {
                    if t == i {
                        assert(renameable(*index, dirs@[t].id.0)[c] == candidates@[c]);
                    }
                }
            }
        }
        i = i + 1;
    }
    proof {
        let q = |x: DirRecord| x.dat_id.0 == dat_id.0;
        assert forall|t: int, c: int|
            0 <= t < index.dirs@.len() && index.dirs@[t].dat_id.0 == dat_id.0 && !zip_ext(path_extension(index.dirs@[t].path@))
                && 0 <= c < renameable(*index, index.dirs@[t].id.0).len()
                implies planned(steps@, #[trigger] renameable(*index, index.dirs@[t].id.0)[c]) by {
            assert(q(index.dirs@[t]));
            assert(index.dirs@.filter(q).contains(index.dirs@[t]));
            let u = choose|u: int| 0 <= u < dirs@.len() && dirs@[u] == index.dirs@[t];
            assert(renameable(*index, dirs@[u].id.0)[c] == renameable(*index, index.dirs@[t].id.0)[c]);
        }
    }
    Ok(steps)
}

} // verus!
