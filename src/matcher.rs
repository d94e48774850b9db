//! Attribution of a scanned file to the roms of a catalog.
use crate::model::{DatId, FileMatch, MatchStatus, RomRecord, SetId};
use crate::relation::{lemma_filter_len_implies, lemma_filter_member, select};
use crate::store::Index;
use vstd::prelude::*;

verus! {

broadcast use vstd::seq_lib::group_filter_ensures;

/// Set `set` may receive matches: no restriction applies, or it is one of `sets`.
pub open spec fn allowed(sets: Seq<SetId>, set: i64) -> bool {
    sets.len() == 0 || exists|i: int| 0 <= i < sets.len() && #[trigger] sets[i].0 == set
}

pub open spec fn allowed_rom(sets: Seq<SetId>) -> spec_fn(RomRecord) -> bool {
    |r: RomRecord| allowed(sets, r.set_id.0)
}

/// The rom has exactly this size and hash.
pub open spec fn same_content(size: u64, hash: Seq<char>) -> spec_fn(RomRecord) -> bool {
    |r: RomRecord| r.size == size && r.hash@ == hash
}

/// The attribution of a file to rom `r` with `status`.
pub open spec fn as_match(r: RomRecord, status: MatchStatus) -> FileMatch {
    FileMatch { status, set_id: r.set_id, rom_id: r.id }
}

/// One attribution with `status` per candidate in an allowed set; none at all
/// when no candidate is left.
pub open spec fn attribute(candidates: Seq<RomRecord>, sets: Seq<SetId>, status: MatchStatus) -> Option<Seq<FileMatch>> {
    let v = candidates.filter(allowed_rom(sets)).map_values(|r: RomRecord| as_match(r, status));
    if v.len() == 0 {
        None
    } else {
        Some(v)
    }
}

pub open spec fn opt_view(r: Option<Vec<FileMatch>>) -> Option<Seq<FileMatch>> {
    match r {
        Some(v) => Some(v@),
        None => None,
    }
}

/// A rom of catalog `dat` called `name`.
pub open spec fn called(dat: i64, name: Seq<char>) -> spec_fn(RomRecord) -> bool {
    |r: RomRecord| r.dat_id.0 == dat && r.name@ == name
}

/// A rom of catalog `dat` whose hash is `hash`.
pub open spec fn hashed(dat: i64, hash: Seq<char>) -> spec_fn(RomRecord) -> bool {
    |r: RomRecord| r.dat_id.0 == dat && r.hash@ == hash
}

/// The roms of catalog `dat` called `name`.
pub open spec fn named_roms(roms: Seq<RomRecord>, dat: i64, name: Seq<char>) -> Seq<RomRecord> {
    roms.filter(called(dat, name))
}

/// The roms of catalog `dat` whose hash is `hash`.
pub open spec fn hashed_roms(roms: Seq<RomRecord>, dat: i64, hash: Seq<char>) -> Seq<RomRecord> {
    roms.filter(hashed(dat, hash))
}

/// How a file called `name`, of `size` bytes with hash `hash`, matches the
/// roms of catalog `dat`: exactly (name, size and hash) when some rom of that
/// name agrees; otherwise by hash alone; otherwise by name alone; otherwise
/// not at all. Only roms of the sets in `sets` count, unless `sets` is empty.
pub open spec fn match_outcome(
    roms: Seq<RomRecord>,
    dat: i64,
    name: Seq<char>,
    size: u64,
    hash: Seq<char>,
    sets: Seq<SetId>,
) -> Option<Seq<FileMatch>> {
    let named = named_roms(roms, dat, name);
    let exact = attribute(named.filter(same_content(size, hash)), sets, MatchStatus::Match);
    if exact is Some {
        exact
    } else {
        let by_hash = attribute(hashed_roms(roms, dat, hash), sets, MatchStatus::Hash);
        if by_hash is Some {
            by_hash
        } else {
            attribute(named, sets, MatchStatus::Name)
        }
    }
}

/// Each attribution comes from a candidate in an allowed set.
pub proof fn lemma_attribute_member(candidates: Seq<RomRecord>, sets: Seq<SetId>, status: MatchStatus, k: int)
    requires
        attribute(candidates, sets, status) matches Some(v) && 0 <= k < v.len(),
    ensures
        exists|c: RomRecord|
            candidates.contains(c) && allowed(sets, c.set_id.0)
                && #[trigger] attribute(candidates, sets, status).unwrap()[k] == as_match(c, status),
{
    let kept = candidates.filter(allowed_rom(sets));
    let c = kept[k];
    lemma_filter_member(candidates, allowed_rom(sets), k);
    assert(allowed_rom(sets)(c));
    assert(attribute(candidates, sets, status).unwrap()[k] == as_match(c, status));
}

/// Rom `c` of catalog `dat` is where attribution `m` of a file called
/// `name`, of `size` bytes with hash `hash`, comes from.
pub open spec fn source_of(
    m: FileMatch,
    c: RomRecord,
    dat: i64,
    name: Seq<char>,
    size: u64,
    hash: Seq<char>,
    sets: Seq<SetId>,
) -> bool {
    &&& c.dat_id.0 == dat && allowed(sets, c.set_id.0)
    &&& m == as_match(c, m.status)
    &&& m.status == MatchStatus::Match ==> c.name@ == name && c.size == size && c.hash@ == hash
    &&& m.status == MatchStatus::Hash ==> c.hash@ == hash
    &&& m.status == MatchStatus::Name ==> c.name@ == name
}

/// Every attribution that the matcher gives comes from a rom of the catalog
/// in an allowed set; an exact one from a rom with the file's name, size and
/// hash, a hash-only one from a rom with its hash, a name-only one from a rom
/// with its name.
pub proof fn lemma_outcome_sources(
    roms: Seq<RomRecord>,
    dat: i64,
    name: Seq<char>,
    size: u64,
    hash: Seq<char>,
    sets: Seq<SetId>,
    k: int,
)
    requires
        match_outcome(roms, dat, name, size, hash, sets) matches Some(v) && 0 <= k < v.len(),
    ensures
        exists|c: RomRecord|
            roms.contains(c) && #[trigger] source_of(
                match_outcome(roms, dat, name, size, hash, sets).unwrap()[k],
                c,
                dat,
                name,
                size,
                hash,
                sets,
            ),
{
    let named = named_roms(roms, dat, name);
    let np = called(dat, name);
    let hp = hashed(dat, hash);
    let same = named.filter(same_content(size, hash));
    let exact = attribute(same, sets, MatchStatus::Match);
    let m = match_outcome(roms, dat, name, size, hash, sets).unwrap()[k];
    if exact is Some {
        lemma_attribute_member(same, sets, MatchStatus::Match, k);
        let c = choose|c: RomRecord|
            same.contains(c) && allowed(sets, c.set_id.0)
                && #[trigger] attribute(same, sets, MatchStatus::Match).unwrap()[k] == as_match(c, MatchStatus::Match);
        let i = choose|i: int| 0 <= i < same.len() && same[i] == c;
        lemma_filter_member(named, same_content(size, hash), i);
        assert(same_content(size, hash)(same[i]));
        let j = choose|j: int| 0 <= j < named.len() && named[j] == c;
        lemma_filter_member(roms, np, j);
        assert(np(named[j]));
        assert(roms.contains(c) && source_of(m, c, dat, name, size, hash, sets));
    } else if attribute(hashed_roms(roms, dat, hash), sets, MatchStatus::Hash) is Some {
        let hashed = hashed_roms(roms, dat, hash);
        lemma_attribute_member(hashed, sets, MatchStatus::Hash, k);
        let c = choose|c: RomRecord|
            hashed.contains(c) && allowed(sets, c.set_id.0)
                && #[trigger] attribute(hashed, sets, MatchStatus::Hash).unwrap()[k] == as_match(c, MatchStatus::Hash);
        let i = choose|i: int| 0 <= i < hashed.len() && hashed[i] == c;
        lemma_filter_member(roms, hp, i);
        assert(hp(hashed[i]));
        assert(roms.contains(c) && source_of(m, c, dat, name, size, hash, sets));
    } else {
        lemma_attribute_member(named, sets, MatchStatus::Name, k);
        let c = choose|c: RomRecord|
            named.contains(c) && allowed(sets, c.set_id.0)
                && #[trigger] attribute(named, sets, MatchStatus::Name).unwrap()[k] == as_match(c, MatchStatus::Name);
        let i = choose|i: int| 0 <= i < named.len() && named[i] == c;
        lemma_filter_member(roms, np, i);
        assert(np(named[i]));
        assert(roms.contains(c) && source_of(m, c, dat, name, size, hash, sets));
    }
}

/// The matcher gives at most one attribution per rom of the catalog.
pub proof fn lemma_outcome_len(roms: Seq<RomRecord>, dat: i64, name: Seq<char>, size: u64, hash: Seq<char>, sets: Seq<SetId>)
    ensures
        match match_outcome(roms, dat, name, size, hash, sets) {
            Some(v) => v.len() <= roms.filter(|r: RomRecord| r.dat_id.0 == dat).len(),
            None => true,
        },
{
    let d = |r: RomRecord| r.dat_id.0 == dat;
    let named = named_roms(roms, dat, name);
    let same = named.filter(same_content(size, hash));
    lemma_filter_len_implies(roms, called(dat, name), d);
    lemma_filter_len_implies(roms, hashed(dat, hash), d);
    named.lemma_filter_len(same_content(size, hash));
    same.lemma_filter_len(allowed_rom(sets));
    named.lemma_filter_len(allowed_rom(sets));
    hashed_roms(roms, dat, hash).lemma_filter_len(allowed_rom(sets));
}

/// Whether set `set` may receive matches under the restriction `sets`.
pub fn set_allowed(sets: &Vec<SetId>, set: &SetId) -> (r: bool)
    ensures
        r == allowed(sets@, set.0),
{
    if sets.len() == 0 {
        return true;
    }
    let mut i: usize = 0;
    while i < sets.len()
        invariant
            i <= sets.len(),
            forall|k: int| 0 <= k < i ==> #[trigger] sets@[k].0 != set.0,
        decreases sets.len() - i,
    {
        if sets[i].0 == set.0 {
            return true;
        }
        i = i + 1;
    }
    false
}

/// One attribution with `status` for each of `roms` that lies in an allowed set.
fn attribute_roms(status: MatchStatus, sets: &Vec<SetId>, roms: &Vec<RomRecord>) -> (r: Option<Vec<FileMatch>>)
    ensures
        opt_view(r) == attribute(roms@, sets@, status),
{
    let kept = select(
        roms,
        (|x: &RomRecord| -> (b: bool)
            ensures
                b == allowed_rom(sets@)(*x),
        {
            set_allowed(sets, &x.set_id)
        }),
        Ghost(allowed_rom(sets@)),
    );
    let mut out: Vec<FileMatch> = Vec::new();
    let mut i: usize = 0;
    while i < kept.len()
        invariant
            i <= kept.len(),
            out@ == kept@.subrange(0, i as int).map_values(|r: RomRecord| as_match(r, status)),
        decreases kept.len() - i,
    {
        out.push(FileMatch { status, set_id: kept[i].set_id.duplicate(), rom_id: kept[i].id.duplicate() });
        assert(out@ =~= kept@.subrange(0, i as int + 1).map_values(|r: RomRecord| as_match(r, status)));
        i = i + 1;
    }
    assert(kept@.subrange(0, kept@.len() as int) == kept@);
    if out.len() == 0 {
        None
    } else {
        Some(out)
    }
}

/// The exact matches among `named_roms`: same size and hash, in an allowed set.
pub fn match_exact(file_size: u64, hash: &str, matched_sets: &Vec<SetId>, named_roms: &Vec<RomRecord>) -> (r: Option<Vec<FileMatch>>)
    ensures
        opt_view(r) == attribute(named_roms@.filter(same_content(file_size, hash@)), matched_sets@, MatchStatus::Match),
{
    let query = hash.to_owned();
    let same = select(
        named_roms,
        (|x: &RomRecord| -> (b: bool)
            ensures
                b == same_content(file_size, hash@)(*x),
        {
            x.size == file_size && x.hash == query
        }),
        Ghost(same_content(file_size, hash@)),
    );
    attribute_roms(MatchStatus::Match, matched_sets, &same)
}

/// Name-only matches: one for each of `named_roms` in an allowed set.
pub fn match_names(matched_sets: &Vec<SetId>, named_roms: &Vec<RomRecord>) -> (r: Option<Vec<FileMatch>>)
    ensures
        opt_view(r) == attribute(named_roms@, matched_sets@, MatchStatus::Name),
{
    attribute_roms(MatchStatus::Name, matched_sets, named_roms)
}

/// Hash-only matches: one for each of `hash_roms` in an allowed set.
pub fn match_hashes(matched_sets: &Vec<SetId>, hash_roms: &Vec<RomRecord>) -> (r: Option<Vec<FileMatch>>)
    ensures
        opt_view(r) == attribute(hash_roms@, matched_sets@, MatchStatus::Hash),
{
    attribute_roms(MatchStatus::Hash, matched_sets, hash_roms)
}

/// Matches a file called `filename`, of `file_size` bytes with hash `hash`,
/// against the roms of catalog `dat_id`, restricted to `matched_sets` when it
/// is not empty.
pub fn match_roms(
    index: &Index,
    dat_id: &DatId,
    filename: &str,
    file_size: u64,
    hash: &str,
    matched_sets: &Vec<SetId>,
) -> (r: Option<Vec<FileMatch>>)
    ensures
        opt_view(r) == match_outcome(index.roms@, dat_id.0, filename@, file_size, hash@, matched_sets@),
{
    let named = RomRecord::named_rows(index, dat_id, filename, true);
    proof {
        assert((|x: RomRecord| x.dat_id.0 == dat_id.0 && crate::store::name_fits(x.name@, filename@, true))
            =~= called(dat_id.0, filename@));
        assert((|x: RomRecord| x.dat_id.0 == dat_id.0 && x.hash@ == hash@) =~= hashed(dat_id.0, hash@));
    }
    let exact = match_exact(file_size, hash, matched_sets, &named);
    if exact.is_some() {
        return exact;
    }
    let hashed = RomRecord::get_by_hash(index, dat_id, hash);
    let by_hash = match_hashes(matched_sets, &hashed);
    if by_hash.is_some() {
        return by_hash;
    }
    match_names(matched_sets, &named)
}

} // verus!
