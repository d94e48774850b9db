//! Records of the index: catalogs (dats), their sets and roms, and the
//! directories, files and matches recorded by scans.
use core::marker::PhantomData;
use crate::relation::Row;
use vstd::prelude::*;

verus! {

/// A record identifier, tagged with the kind of record it names so that
/// identifiers of different relations cannot be mixed up.
#[derive(Debug, PartialEq, Eq, Hash, PartialOrd, Ord)]
pub struct Id<T>(pub i64, pub PhantomData<T>);

impl<T> Id<T> {
    pub fn new(id: i64) -> (r: Self)
        ensures
            r.0 == id,
    {
        Id(id, PhantomData)
    }

    /// A second handle on the same identifier.
    pub fn duplicate(&self) -> (r: Self)
        ensures
            r == *self,
    {
        Id(self.0, PhantomData)
    }
}

impl<T> Clone for Id<T> {
    fn clone(&self) -> (r: Self)
        ensures
            r == *self,
    {
        Id(self.0, PhantomData)
    }
}

/// Access to the raw key of an identifier.
pub trait HasId {
    spec fn spec_id(&self) -> i64;

    fn id(&self) -> (r: i64)
        ensures
            r == self.spec_id(),
    ;
}

impl<T> HasId for Id<T> {
    open spec fn spec_id(&self) -> i64 {
        self.0
    }

    fn id(&self) -> (r: i64) {
        self.0
    }
}

impl<T> From<i64> for Id<T> {
    fn from(v: i64) -> (r: Self) {
        Id(v, PhantomData)
    }
}

impl<T> vstd::std_specs::convert::FromSpecImpl<i64> for Id<T> {
    open spec fn obeys_from_spec() -> bool {
        true
    }

    open spec fn from_spec(v: i64) -> Self {
        Id(v, PhantomData)
    }
}

/// Tags that tell the kinds of identifiers apart.
#[derive(Debug, Clone, Copy, PartialEq, Eq, Hash, PartialOrd, Ord)]
pub struct DatTag;

#[derive(Debug, Clone, Copy, PartialEq, Eq, Hash, PartialOrd, Ord)]
pub struct SetTag;

#[derive(Debug, Clone, Copy, PartialEq, Eq, Hash, PartialOrd, Ord)]
pub struct RomTag;

#[derive(Debug, Clone, Copy, PartialEq, Eq, Hash, PartialOrd, Ord)]
pub struct DirTag;

#[derive(Debug, Clone, Copy, PartialEq, Eq, Hash, PartialOrd, Ord)]
pub struct FileTag;

#[derive(Debug, Clone, Copy, PartialEq, Eq, Hash, PartialOrd, Ord)]
pub struct MatchTag;

pub type DatId = Id<DatTag>;

pub type SetId = Id<SetTag>;

pub type RomId = Id<RomTag>;

pub type DirId = Id<DirTag>;

pub type FileId = Id<FileTag>;

pub type MatchId = Id<MatchTag>;

/// How a scanned file relates to a rom of the catalog.
#[derive(Debug, Clone, Copy, PartialEq, Eq, Structural, Hash, PartialOrd, Ord)]
pub enum MatchStatus {
    /// Right bytes, wrong name.
    Hash,
    /// Right name, wrong bytes.
    Name,
    /// Name, size and hash all agree.
    Match,
}

#[derive(Debug, Clone)]
pub struct DatRecord {
    pub id: DatId,
    pub name: String,
    pub description: String,
    pub version: String,
    pub author: String,
    pub hash_type: String,
}

#[derive(Debug, Clone)]
pub struct NewDat {
    pub name: String,
    pub description: String,
    pub version: String,
    pub author: String,
    pub hash_type: String,
}

#[derive(Debug, Clone)]
pub struct SetRecord {
    pub id: SetId,
    pub dat_id: DatId,
    pub name: String,
}

#[derive(Debug, Clone)]
pub struct NewSet {
    pub dat_id: DatId,
    pub name: String,
}

#[derive(Debug, Clone)]
pub struct RomRecord {
    pub id: RomId,
    pub dat_id: DatId,
    pub set_id: SetId,
    pub name: String,
    pub size: u64,
    pub hash: String,
}

#[derive(Debug, Clone)]
pub struct NewRom {
    pub dat_id: DatId,
    pub set_id: SetId,
    pub name: String,
    pub size: SizeWrapper,
    pub hash: String,
}

#[derive(Debug, Clone)]
pub struct DirRecord {
    pub id: DirId,
    pub dat_id: DatId,
    pub path: String,
    pub parent_id: Option<DirId>,
}

#[derive(Debug, Clone)]
pub struct NewDir {
    pub dat_id: DatId,
    pub path: String,
    pub parent_id: Option<DirId>,
}

#[derive(Debug, Clone)]
pub struct FileRecord {
    pub id: FileId,
    pub dat_id: DatId,
    pub dir_id: DirId,
    pub name: String,
    pub size: u64,
    pub hash: String,
}

#[derive(Debug, Clone)]
pub struct NewFile {
    pub dat_id: DatId,
    pub dir_id: DirId,
    pub name: String,
    pub size: SizeWrapper,
    pub hash: String,
}

#[derive(Debug, Clone)]
pub struct MatchRecord {
    pub id: MatchId,
    pub dat_id: DatId,
    pub file_id: FileId,
    pub status: MatchStatus,
    pub set_id: SetId,
    pub rom_id: RomId,
}

#[derive(Debug, Clone)]
pub struct NewMatch {
    pub dat_id: DatId,
    pub file_id: FileId,
    pub status: MatchStatus,
    pub set_id: SetId,
    pub rom_id: RomId,
}

/// One attribution of a file to a rom, before it is stored.
#[derive(Debug, Clone)]
pub struct FileMatch {
    pub status: MatchStatus,
    pub set_id: SetId,
    pub rom_id: RomId,
}

/// A byte size, stored in the index as its decimal text.
#[derive(Debug, Clone, Copy, PartialEq, Eq, Structural, Hash, PartialOrd, Ord)]
pub struct SizeWrapper(pub u64);

impl Row for DatRecord {
    fn duplicate(&self) -> (r: Self) {
        DatRecord {
            id: self.id.duplicate(),
            name: self.name.clone(),
            description: self.description.clone(),
            version: self.version.clone(),
            author: self.author.clone(),
            hash_type: self.hash_type.clone(),
        }
    }
}

impl Row for SetRecord {
    fn duplicate(&self) -> (r: Self) {
        SetRecord {
            id: self.id.duplicate(),
            dat_id: self.dat_id.duplicate(),
            name: self.name.clone(),
        }
    }
}

impl Row for RomRecord {
    fn duplicate(&self) -> (r: Self) {
        RomRecord {
            id: self.id.duplicate(),
            dat_id: self.dat_id.duplicate(),
            set_id: self.set_id.duplicate(),
            name: self.name.clone(),
            size: self.size,
            hash: self.hash.clone(),
        }
    }
}

impl Row for DirRecord {
    fn duplicate(&self) -> (r: Self) {
        DirRecord {
            id: self.id.duplicate(),
            dat_id: self.dat_id.duplicate(),
            path: self.path.clone(),
            parent_id: match &self.parent_id { Some(p) => Some(p.duplicate()), None => None },
        }
    }
}

impl Row for FileRecord {
    fn duplicate(&self) -> (r: Self) {
        FileRecord {
            id: self.id.duplicate(),
            dat_id: self.dat_id.duplicate(),
            dir_id: self.dir_id.duplicate(),
            name: self.name.clone(),
            size: self.size,
            hash: self.hash.clone(),
        }
    }
}

impl Row for MatchRecord {
    fn duplicate(&self) -> (r: Self) {
        MatchRecord {
            id: self.id.duplicate(),
            dat_id: self.dat_id.duplicate(),
            file_id: self.file_id.duplicate(),
            status: self.status,
            set_id: self.set_id.duplicate(),
            rom_id: self.rom_id.duplicate(),
        }
    }
}

impl Row for FileMatch {
    fn duplicate(&self) -> (r: Self) {
        FileMatch {
            status: self.status,
            set_id: self.set_id.duplicate(),
            rom_id: self.rom_id.duplicate(),
        }
    }
}

impl MatchStatus {
    /// The text under which the index stores this status.
    pub fn as_text(&self) -> (r: &'static str)
        ensures
            r@ == status_text(*self),
    {
        match self {
            MatchStatus::Hash => "hash",
            MatchStatus::Name => "name",
            MatchStatus::Match => "match",
        }
    }

    /// The status stored as `text`, if it is one.
    pub fn from_text(text: &str) -> (r: Option<MatchStatus>)
        ensures
            r matches Some(st) ==> status_text(st) == text@,
            r is None ==> text@ != status_text(MatchStatus::Hash) && text@ != status_text(MatchStatus::Name)
                && text@ != status_text(MatchStatus::Match),
    {
        let t = text.to_owned();
        if t == "hash".to_owned() {
            Some(MatchStatus::Hash)
        } else if t == "name".to_owned() {
            Some(MatchStatus::Name)
        } else if t == "match".to_owned() {
            Some(MatchStatus::Match)
        } else {
            None
        }
    }
}

/// The stored text of a status.
pub open spec fn status_text(st: MatchStatus) -> Seq<char> {
    match st {
        MatchStatus::Hash => "hash"@,
        MatchStatus::Name => "name"@,
        MatchStatus::Match => "match"@,
    }
}

} // verus!
