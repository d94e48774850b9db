//! What the listings of scanned files and found sets show.
use crate::model::{DatId, FileRecord, MatchRecord, MatchStatus, RomRecord, SetId};
use crate::relation::{any_row, select, seq_any};
use crate::store::{Index, StoreError};
use vstd::prelude::*;

verus! {

/// Which files a listing shows.
#[derive(Debug, Clone, Copy, PartialEq, Eq, Structural)]
pub enum ListMode {
    /// Every file.
    All,
    /// Files that match a rom exactly.
    Matched,
    /// Files that match a rom by hash only or by name only.
    Warning,
    /// Files that match no rom.
    Unmatched,
}

/// How complete a set of the catalog is on disk.
#[derive(Debug, Clone, Copy, PartialEq, Eq, Structural)]
pub enum SetStatus {
    Missing,
    Partial,
    Complete,
}

/// A file with this status (none: no match) appears in a listing in `mode`.
pub open spec fn shown(status: Option<MatchStatus>, mode: ListMode) -> bool {
    match status {
        None => mode == ListMode::Unmatched || mode == ListMode::All,
        Some(MatchStatus::Hash) | Some(MatchStatus::Name) => mode == ListMode::Warning || mode == ListMode::All,
        Some(MatchStatus::Match) => mode == ListMode::Matched || mode == ListMode::All,
    }
}

/// Whether a file with this status (none: no match) appears in a listing in `mode`.
pub fn should_display_file_status(status: Option<&MatchStatus>, mode: &ListMode) -> (r: bool)
    ensures
        r == shown(
            match status {
                Some(s) => Some(*s),
                None => None,
            },
            *mode,
        ),
{
    match status {
        None => *mode == ListMode::Unmatched || *mode == ListMode::All,
        Some(MatchStatus::Hash) | Some(MatchStatus::Name) => *mode == ListMode::Warning || *mode == ListMode::All,
        Some(MatchStatus::Match) => *mode == ListMode::Matched || *mode == ListMode::All,
    }
}

/// The mark shown before a file: for no match, a partial match and an exact
/// one, a glyph on a terminal and a four-letter word elsewhere.
pub open spec fn file_indicator(status: Option<MatchStatus>, is_tty: bool) -> Seq<char> {
    match status {
        None => if is_tty { "❌"@ } else { "NONE"@ },
        Some(MatchStatus::Hash) | Some(MatchStatus::Name) => if is_tty { "⚠️"@ } else { "WARN"@ },
        Some(MatchStatus::Match) => if is_tty { "✅"@ } else { " OK "@ },
    }
}

pub fn format_file_indicator(status: Option<&MatchStatus>, is_tty: bool) -> (r: &'static str)
    ensures
        r@ == file_indicator(
            match status {
                Some(s) => Some(*s),
                None => None,
            },
            is_tty,
        ),
{
    match status {
        None => if is_tty { "❌" } else { "NONE" },
        Some(MatchStatus::Hash) | Some(MatchStatus::Name) => if is_tty { "⚠️" } else { "WARN" },
        Some(MatchStatus::Match) => if is_tty { "✅" } else { " OK " },
    }
}

/// The mark shown before a set.
pub open spec fn set_indicator(status: SetStatus, is_tty: bool) -> Seq<char> {
    match status {
        SetStatus::Missing => if is_tty { "❌"@ } else { "NONE"@ },
        SetStatus::Partial => if is_tty { "⚠️"@ } else { "WARN"@ },
        SetStatus::Complete => if is_tty { "✅"@ } else { " OK "@ },
    }
}

pub fn format_set_indicator(status: &SetStatus, is_tty: bool) -> (r: &'static str)
    ensures
        r@ == set_indicator(*status, is_tty),
{
    match status {
        SetStatus::Missing => if is_tty { "❌" } else { "NONE" },
        SetStatus::Partial => if is_tty { "⚠️" } else { "WARN" },
        SetStatus::Complete => if is_tty { "✅" } else { " OK " },
    }
}

/// The line that lists `file` with its match `m` (none: no match), where
/// `rom` is the text the match refers to: the rom's name for a hash-only
/// match and its hash for a name-only one.
pub open spec fn status_line(file: FileRecord, status: Option<MatchStatus>, rom: Seq<char>, is_tty: bool) -> Seq<char> {
    let head = "["@ + file_indicator(status, is_tty) + "] "@ + file.hash@ + " "@ + file.name@;
    match status {
        None => head + " - unknown file"@,
        Some(MatchStatus::Hash) => head + " - incorrect name, should be named "@ + rom,
        Some(MatchStatus::Name) => head + " - incorrect hash, should have hash "@ + rom,
        Some(MatchStatus::Match) => head,
    }
}

/// The listing line for `file` and its match `matched`, if any. Fails with
/// `NotFound` when a partial match refers to a rom that is not in the index.
pub fn format_file_status(index: &Index, file: &FileRecord, matched: Option<&MatchRecord>, is_tty: bool) -> (r: Result<String, StoreError>)
    ensures
        match matched {
            None => r matches Ok(s) && s@ == status_line(*file, None, Seq::empty(), is_tty),
            Some(m) => match m.status {
                MatchStatus::Match => r matches Ok(s) && s@ == status_line(*file, Some(m.status), Seq::empty(), is_tty),
                MatchStatus::Hash => match r {
                    Ok(s) => exists|rom: RomRecord| #[trigger] index.roms@.contains(rom) && rom.id.0 == m.rom_id.0
                        && s@ == status_line(*file, Some(m.status), rom.name@, is_tty),
                    Err(e) => e == StoreError::NotFound && !seq_any_rom(index.roms@, m.rom_id.0),
                },
                MatchStatus::Name => match r {
                    Ok(s) => exists|rom: RomRecord| #[trigger] index.roms@.contains(rom) && rom.id.0 == m.rom_id.0
                        && s@ == status_line(*file, Some(m.status), rom.hash@, is_tty),
                    Err(e) => e == StoreError::NotFound && !seq_any_rom(index.roms@, m.rom_id.0),
                },
            },
        },
{
    let status = match matched {
        Some(m) => Some(&m.status),
        None => None,
    };
    let mut line = String::new();
    line.append("[");
    line.append(format_file_indicator(status, is_tty));
    line.append("] ");
    line.append(file.hash.as_str());
    line.append(" ");
    line.append(file.name.as_str());
    match matched {
        None => {
            line.append(" - unknown file");
            Ok(line)
        },
        Some(m) => match m.status {
            MatchStatus::Match => Ok(line),
            MatchStatus::Hash => {
                let rom = match RomRecord::get_by_id(index, &m.rom_id) {
                    Ok(rom) => rom,
                    Err(e) => return Err(e),
                };
                line.append(" - incorrect name, should be named ");
                line.append(rom.name.as_str());
                Ok(line)
            },
            MatchStatus::Name => {
                let rom = match RomRecord::get_by_id(index, &m.rom_id) {
                    Ok(rom) => rom,
                    Err(e) => return Err(e),
                };
                line.append(" - incorrect hash, should have hash ");
                line.append(rom.hash.as_str());
                Ok(line)
            },
        },
    }
}

/// Some rom of `roms` has identifier `id`.
pub open spec fn seq_any_rom(roms: Seq<RomRecord>, id: i64) -> bool {
    crate::relation::seq_any(roms, |x: RomRecord| x.id.0 == id)
}

/// Some match of catalog `dat` refers to rom `r`.
pub open spec fn rom_found(matches: Seq<MatchRecord>, dat: i64) -> spec_fn(RomRecord) -> bool {
    |r: RomRecord| seq_any(matches, |m: MatchRecord| m.dat_id.0 == dat && m.rom_id.0 == r.id.0)
}

/// The roms of set `set`.
pub open spec fn roms_of_set(roms: Seq<RomRecord>, set: i64) -> Seq<RomRecord> {
    roms.filter(|r: RomRecord| r.set_id.0 == set)
}

/// A set is missing when no file matches it (or it has no roms), complete
/// when every one of its roms is matched by some file, and partial otherwise.
pub open spec fn set_status_of(index: Index, dat: i64, set: i64) -> SetStatus {
    let roms = roms_of_set(index.roms@, set);
    if !seq_any(index.matches@, |m: MatchRecord| m.dat_id.0 == dat && m.set_id.0 == set) || roms.len() == 0 {
        SetStatus::Missing
    } else if roms.filter(rom_found(index.matches@, dat)).len() == roms.len() {
        SetStatus::Complete
    } else {
        SetStatus::Partial
    }
}

/// The roms of set `set_id` that no file of catalog `dat_id` matches.
pub fn missing_roms(index: &Index, dat_id: &DatId, set_id: &SetId) -> (r: Vec<RomRecord>)
    ensures
        r@ == roms_of_set(index.roms@, set_id.0).filter(|x: RomRecord| !rom_found(index.matches@, dat_id.0)(x)),
{
    let roms = RomRecord::get_by_set(index, set_id);
    select(
        &roms,
        (|x: &RomRecord| -> (b: bool)
            ensures
                b == !rom_found(index.matches@, dat_id.0)(*x),
        {
            !rom_is_found(index, dat_id, x)
        }),
        Ghost(|x: RomRecord| !rom_found(index.matches@, dat_id.0)(x)),
    )
}

/// Whether some match of catalog `dat_id` refers to `rom`.
pub fn rom_is_found(index: &Index, dat_id: &DatId, rom: &RomRecord) -> (r: bool)
    ensures
        r == rom_found(index.matches@, dat_id.0)(*rom),
{
    any_row(
        &index.matches,
        (|m: &MatchRecord| -> (b: bool)
            ensures
                b == (m.dat_id.0 == dat_id.0 && m.rom_id.0 == rom.id.0),
        {
            m.dat_id.0 == dat_id.0 && m.rom_id.0 == rom.id.0
        }),
        Ghost(|m: MatchRecord| m.dat_id.0 == dat_id.0 && m.rom_id.0 == rom.id.0),
    )
}

/// How complete set `set_id` of catalog `dat_id` is among the scanned files.
pub fn set_status(index: &Index, dat_id: &DatId, set_id: &SetId) -> (r: SetStatus)
    ensures
        r == set_status_of(*index, dat_id.0, set_id.0),
{
    let matched = any_row(
        &index.matches,
        (|m: &MatchRecord| -> (b: bool)
            ensures
                b == (m.dat_id.0 == dat_id.0 && m.set_id.0 == set_id.0),
        {
            m.dat_id.0 == dat_id.0 && m.set_id.0 == set_id.0
        }),
        Ghost(|m: MatchRecord| m.dat_id.0 == dat_id.0 && m.set_id.0 == set_id.0),
    );
    let roms = RomRecord::get_by_set(index, set_id);
    if !matched || roms.len() == 0 {
        return SetStatus::Missing;
    }
    let found = select(
        &roms,
        (|x: &RomRecord| -> (b: bool)
            ensures
                b == rom_found(index.matches@, dat_id.0)(*x),
        {
            rom_is_found(index, dat_id, x)
        }),
        Ghost(rom_found(index.matches@, dat_id.0)),
    );
    if found.len() == roms.len() {
        SetStatus::Complete
    } else {
        SetStatus::Partial
    }
}

} // verus!
