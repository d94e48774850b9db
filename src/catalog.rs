//! Reference catalogs: reading one from its XML form, and adding, replacing
//! and removing catalogs in the index.
use crate::decimal::{parse_decimal, parse_size};
use crate::model::{DatId, DirRecord, FileRecord, MatchRecord, DatRecord, NewDat, NewRom, NewSet, RomRecord, SetRecord, SizeWrapper};
use crate::store::{dat_is, dat_key, dir_is, file_is, relink_dir, relink_file, set_is, Index, StoreError};
use crate::paths::opt_text;
use crate::text::{ascii_lower, to_ascii_lower};
use crate::relation::{lemma_all_filter, copy_rows, lemma_filter_filter, lemma_filter_extend, lemma_filter_none, any_row, lemma_any_filter, lemma_filter_all, lemma_filter_excludes, seq_all, seq_any};
use crate::scanner::{match_sets, matches_recorded, named_set_ids};
use crate::matcher::match_outcome;
use crate::paths::{path_extension, path_prefix};
use crate::util::zip_ext;
use crate::util::is_zip_path;
use crate::xml::{attr_value, attribute, nodes_view, parse_xml, xml_nodes, NodeView, XmlNode};
use vstd::prelude::*;

verus! {

/// The header fields that a catalog must have.
#[derive(Debug, Clone, Copy, PartialEq, Eq, Structural)]
pub enum HeaderField {
    Name,
    Description,
    Version,
    Author,
}

/// Why a catalog could not be read or added.
#[derive(Debug, Clone)]
pub enum ImportError {
    /// The text is not well-formed XML; the parser's message.
    Xml(String),
    /// No `header` element under the root.
    MissingHeader,
    /// The header lacks this field, or the field has no text.
    MissingHeaderField(HeaderField),
    /// A game without a name, or a rom without a name, size or hash.
    MissingAttribute,
    /// A rom size that is not a decimal number of 64 bits.
    BadRomSize,
    /// The index refused a row.
    Store(crate::store::StoreError),
}

/// A rom as the catalog declares it: name, size and lowercase hash.
#[derive(Debug, Clone)]
pub struct RomEntry {
    pub name: String,
    pub size: u64,
    pub hash: String,
}

/// A game (set) as the catalog declares it.
#[derive(Debug, Clone)]
pub struct GameEntry {
    pub name: String,
    pub roms: Vec<RomEntry>,
}

/// A catalog read from its XML form.
#[derive(Debug, Clone)]
pub struct Catalog {
    pub name: String,
    pub description: String,
    pub version: String,
    pub author: String,
    pub games: Vec<GameEntry>,
}

pub type RomView = (Seq<char>, u64, Seq<char>);

pub type GameView = (Seq<char>, Seq<RomView>);

pub type CatalogView = (Seq<char>, Seq<char>, Seq<char>, Seq<char>, Seq<GameView>);

pub open spec fn rom_view(r: RomEntry) -> RomView {
    (r.name@, r.size, r.hash@)
}

pub open spec fn game_view(g: GameEntry) -> GameView {
    (g.name@, g.roms@.map_values(|r: RomEntry| rom_view(r)))
}

pub open spec fn catalog_view(c: Catalog) -> CatalogView {
    (c.name@, c.description@, c.version@, c.author@, c.games@.map_values(|g: GameEntry| game_view(g)))
}

/// Node `k` lies inside node `i`: after it, with every node up to `k`
/// deeper than `i`.
pub open spec fn within(v: Seq<NodeView>, i: int, k: int) -> bool {
    0 <= i < k < v.len() && forall|j: int| i < j <= k ==> #[trigger] v[j].0 > v[i].0
}

/// Node `k` is a child of node `i`.
pub open spec fn is_child(v: Seq<NodeView>, i: int, k: int) -> bool {
    within(v, i, k) && v[k].0 == v[i].0 + 1
}

/// The first child of `parent` tagged `tag` among the nodes before `n`.
pub open spec fn first_tagged_child(v: Seq<NodeView>, parent: int, tag: Seq<char>, n: int) -> Option<int>
    decreases n,
{
    if n <= 0 {
        None
    } else {
        match first_tagged_child(v, parent, tag, n - 1) {
            Some(k) => Some(k),
            None => if is_child(v, parent, n - 1) && v[n - 1].1 == tag {
                Some(n - 1)
            } else {
                None
            },
        }
    }
}

/// The text of the last child of `parent` tagged `tag` among the nodes
/// before `n`, if there is such a child.
pub open spec fn last_child_text(v: Seq<NodeView>, parent: int, tag: Seq<char>, n: int) -> Option<Option<Seq<char>>>
    decreases n,
{
    if n <= 0 {
        None
    } else if is_child(v, parent, n - 1) && v[n - 1].1 == tag {
        Some(v[n - 1].2)
    } else {
        last_child_text(v, parent, tag, n - 1)
    }
}

/// The text of header field `tag`: that of the last such child of the header.
pub open spec fn header_value(v: Seq<NodeView>, h: int, tag: Seq<char>) -> Option<Seq<char>> {
    match last_child_text(v, h, tag, v.len() as int) {
        Some(Some(t)) => Some(t),
        _ => None,
    }
}

/// A rom from its attributes: name, size and hash are required, the size
/// must be a decimal number, and the hash is kept in lowercase.
pub open spec fn rom_of(attrs: Seq<(Seq<char>, Seq<char>)>) -> Result<RomView, ImportError> {
    match (attr_value(attrs, "name"@), attr_value(attrs, "size"@), attr_value(attrs, "sha1"@)) {
        (Some(n), Some(s), Some(h)) => match parse_decimal(s) {
            Some(z) => Ok((n, z, h.map_values(|c: char| ascii_lower(c)))),
            None => Err(ImportError::BadRomSize),
        },
        _ => Err(ImportError::MissingAttribute),
    }
}

/// The roms inside game node `g`, among the nodes before `n`, in document
/// order; the first bad rom is the error.
pub open spec fn game_roms(v: Seq<NodeView>, g: int, n: int) -> Result<Seq<RomView>, ImportError>
    decreases n - g,
{
    if n <= g + 1 {
        Ok(Seq::empty())
    } else {
        match game_roms(v, g, n - 1) {
            Err(e) => Err(e),
            Ok(acc) => if within(v, g, n - 1) && v[n - 1].1 == "rom"@ {
                match rom_of(v[n - 1].3) {
                    Ok(r) => Ok(acc.push(r)),
                    Err(e) => Err(e),
                }
            } else {
                Ok(acc)
            },
        }
    }
}

/// The game at node `g`: its name attribute and its roms.
pub open spec fn game_of(v: Seq<NodeView>, g: int) -> Result<GameView, ImportError> {
    match attr_value(v[g].3, "name"@) {
        None => Err(ImportError::MissingAttribute),
        Some(name) => match game_roms(v, g, v.len() as int) {
            Ok(roms) => Ok((name, roms)),
            Err(e) => Err(e),
        },
    }
}

/// The games among the children of the root before node `n`, in document
/// order; the first bad game or rom is the error.
pub open spec fn games_upto(v: Seq<NodeView>, n: int) -> Result<Seq<GameView>, ImportError>
    decreases n,
{
    if n <= 1 {
        Ok(Seq::empty())
    } else {
        match games_upto(v, n - 1) {
            Err(e) => Err(e),
            Ok(acc) => if is_child(v, 0, n - 1) && v[n - 1].1 == "game"@ {
                match game_of(v, n - 1) {
                    Ok(g) => Ok(acc.push(g)),
                    Err(e) => Err(e),
                }
            } else {
                Ok(acc)
            },
        }
    }
}

/// The catalog that the nodes of a document describe: the first `header`
/// child of the root, with its name, description, version and author (each
/// required, checked in that order), then every `game` child of the root.
pub open spec fn catalog_of(v: Seq<NodeView>) -> Result<CatalogView, ImportError> {
    match first_tagged_child(v, 0, "header"@, v.len() as int) {
        None => Err(ImportError::MissingHeader),
        Some(h) => {
            let name = header_value(v, h, "name"@);
            let description = header_value(v, h, "description"@);
            let version = header_value(v, h, "version"@);
            let author = header_value(v, h, "author"@);
            if name is None {
                Err(ImportError::MissingHeaderField(HeaderField::Name))
            } else if description is None {
                Err(ImportError::MissingHeaderField(HeaderField::Description))
            } else if version is None {
                Err(ImportError::MissingHeaderField(HeaderField::Version))
            } else if author is None {
                Err(ImportError::MissingHeaderField(HeaderField::Author))
            } else {
                match games_upto(v, v.len() as int) {
                    Ok(games) => Ok((name.unwrap(), description.unwrap(), version.unwrap(), author.unwrap(), games)),
                    Err(e) => Err(e),
                }
            }
        },
    }
}

pub open spec fn import_view(r: Result<Catalog, ImportError>) -> Result<CatalogView, ImportError> {
    match r {
        Ok(c) => Ok(catalog_view(c)),
        Err(e) => Err(e),
    }
}

/// The first child of node `parent` tagged `tag`.
fn first_child_tagged(nodes: &Vec<XmlNode>, parent: usize, tag: &str) -> (r: Option<usize>)
    requires
        parent < nodes.len(),
    ensures
        match first_tagged_child(nodes_view(nodes@), parent as int, tag@, nodes@.len() as int) {
            Some(k) => r == Some(k as usize),
            None => r is None,
        },
        r matches Some(k) ==> k < nodes.len(),
{
    let ghost v = nodes_view(nodes@);
    let query = tag.to_owned();
    let mut inside = true;
    let mut k: usize = parent + 1;
    proof {
        lemma_first_tagged_none(v, parent as int, tag@, k as int);
    }
    while k < nodes.len()
        invariant
            v == nodes_view(nodes@),
            parent < k <= nodes.len(),
            query@ == tag@,
            inside == (forall|j: int| parent < j < k ==> #[trigger] v[j].0 > v[parent as int].0),
            first_tagged_child(v, parent as int, tag@, k as int) is None,
        decreases nodes.len() - k,
    {
        let deeper = nodes[k].depth > nodes[parent].depth;
        proof {
            assert(v.len() == nodes@.len());
            assert(v[k as int] == nodes@[k as int]@);
            assert(v[parent as int] == nodes@[parent as int]@);
            assert(within(v, parent as int, k as int) == (inside && deeper)) by {
                if inside && deeper {
                    assert forall|j: int| parent < j <= k implies #[trigger] v[j].0 > v[parent as int].0 by {
                        if j < k {
                        }
                    }
                }
                if within(v, parent as int, k as int) {
                    assert forall|j: int| parent < j < k implies #[trigger] v[j].0 > v[parent as int].0 by {
                        assert(parent < j <= k);
                    }
                    assert(v[k as int].0 > v[parent as int].0);
                }
            }
        }
        if inside && deeper && nodes[k].depth == nodes[parent].depth + 1 && nodes[k].tag == query {
            proof {
                lemma_first_tagged_stable(v, parent as int, tag@, k as int + 1, nodes@.len() as int);
            }
            return Some(k);
        }
        inside = inside && deeper;
        k = k + 1;
    }
    None
}

/// The text of the last child of node `parent` tagged `tag`, if any.
fn last_child_text_of(nodes: &Vec<XmlNode>, parent: usize, tag: &str) -> (r: Option<Option<String>>)
    requires
        parent < nodes.len(),
    ensures
        match last_child_text(nodes_view(nodes@), parent as int, tag@, nodes@.len() as int) {
            Some(t) => r matches Some(x) && opt_text(x) == t,
            None => r is None,
        },
{
    let ghost v = nodes_view(nodes@);
    let query = tag.to_owned();
    let mut inside = true;
    let mut found: Option<Option<String>> = None;
    let mut k: usize = parent + 1;
    proof {
        lemma_last_text_none(v, parent as int, tag@, k as int);
    }
    while k < nodes.len()
        invariant
            v == nodes_view(nodes@),
            parent < k <= nodes.len(),
            query@ == tag@,
            inside == (forall|j: int| parent < j < k ==> #[trigger] v[j].0 > v[parent as int].0),
            match last_child_text(v, parent as int, tag@, k as int) {
                Some(t) => found matches Some(x) && opt_text(x) == t,
                None => found is None,
            },
        decreases nodes.len() - k,
    {
        let deeper = nodes[k].depth > nodes[parent].depth;
        proof {
            assert(v.len() == nodes@.len());
            assert(v[k as int] == nodes@[k as int]@);
            assert(v[parent as int] == nodes@[parent as int]@);
            assert(within(v, parent as int, k as int) == (inside && deeper)) by {
                if inside && deeper {
                    assert forall|j: int| parent < j <= k implies #[trigger] v[j].0 > v[parent as int].0 by {
                        if j < k {
                        }
                    }
                }
                if within(v, parent as int, k as int) {
                    assert forall|j: int| parent < j < k implies #[trigger] v[j].0 > v[parent as int].0 by {
                        assert(parent < j <= k);
                    }
                    assert(v[k as int].0 > v[parent as int].0);
                }
            }
        }
        if inside && deeper && nodes[k].depth == nodes[parent].depth + 1 && nodes[k].tag == query {
            found = Some(nodes[k].text.clone());
        }
        inside = inside && deeper;
        k = k + 1;
    }
    found
}

pub proof fn lemma_first_tagged_stable(v: Seq<NodeView>, parent: int, tag: Seq<char>, n: int, m: int)
    requires
        first_tagged_child(v, parent, tag, n) is Some,
        n <= m,
    ensures
        first_tagged_child(v, parent, tag, m) == first_tagged_child(v, parent, tag, n),
    decreases m - n,
{
    if n < m {
        lemma_first_tagged_stable(v, parent, tag, n, m - 1);
    }
}

pub proof fn lemma_first_tagged_range(v: Seq<NodeView>, parent: int, tag: Seq<char>, n: int)
    ensures
        first_tagged_child(v, parent, tag, n) matches Some(k) ==> 0 <= k < n && is_child(v, parent, k),
    decreases n,
{
    if n > 0 {
        lemma_first_tagged_range(v, parent, tag, n - 1);
    }
}

pub proof fn lemma_first_tagged_none(v: Seq<NodeView>, parent: int, tag: Seq<char>, n: int)
    requires
        0 <= parent,
        n <= parent + 1,
    ensures
        first_tagged_child(v, parent, tag, n) is None,
    decreases n,
{
    if n > 0 {
        lemma_first_tagged_none(v, parent, tag, n - 1);
    }
}

pub proof fn lemma_last_text_none(v: Seq<NodeView>, parent: int, tag: Seq<char>, n: int)
    requires
        0 <= parent,
        n <= parent + 1,
    ensures
        last_child_text(v, parent, tag, n) is None,
    decreases n,
{
    if n > 0 {
        lemma_last_text_none(v, parent, tag, n - 1);
    }
}

pub proof fn lemma_game_roms_err_stable(v: Seq<NodeView>, g: int, n: int, m: int)
    requires
        game_roms(v, g, n) is Err,
        n <= m,
    ensures
        game_roms(v, g, m) == game_roms(v, g, n),
    decreases m - n,
{
    if n < m {
        lemma_game_roms_err_stable(v, g, n, m - 1);
    }
}

/// Past the end of a game's nodes, no further rom belongs to it.
pub proof fn lemma_game_roms_stop(v: Seq<NodeView>, g: int, j: int, m: int)
    requires
        0 <= g < j <= m,
        j < v.len() ==> v[j].0 <= v[g].0,
    ensures
        game_roms(v, g, m) == game_roms(v, g, j),
    decreases m - j,
{
    if j < m {
        lemma_game_roms_stop(v, g, j, m - 1);
        if m - 1 >= j {
            if within(v, g, m - 1) {
                assert(v[j].0 > v[g].0);
            }
        }
    }
}

pub proof fn lemma_games_err_stable(v: Seq<NodeView>, n: int, m: int)
    requires
        games_upto(v, n) is Err,
        n <= m,
    ensures
        games_upto(v, m) == games_upto(v, n),
    decreases m - n,
{
    if n < m {
        lemma_games_err_stable(v, n, m - 1);
    }
}

/// The rom that a `rom` node declares.
fn rom_from_node(node: &XmlNode) -> (r: Result<RomEntry, ImportError>)
    ensures
        match r {
            Ok(e) => rom_of(node@.3) == Ok::<RomView, ImportError>(rom_view(e)),
            Err(e) => rom_of(node@.3) == Err::<RomView, ImportError>(e),
        },
{
    let name = attribute(node, "name");
    let size = attribute(node, "size");
    let hash = attribute(node, "sha1");
    match (name, size, hash) {
        (Some(n), Some(z), Some(h)) => match parse_size(z.as_str()) {
            Some(v) => Ok(RomEntry { name: n, size: v, hash: to_ascii_lower(h.as_str()) }),
            None => Err(ImportError::BadRomSize),
        },
        _ => Err(ImportError::MissingAttribute),
    }
}

/// The roms inside game node `g`.
fn read_game_roms(nodes: &Vec<XmlNode>, g: usize) -> (r: Result<Vec<RomEntry>, ImportError>)
    requires
        g < nodes.len(),
    ensures
        match r {
            Ok(roms) => game_roms(nodes_view(nodes@), g as int, nodes@.len() as int)
                == Ok::<Seq<RomView>, ImportError>(roms@.map_values(|x: RomEntry| rom_view(x))),
            Err(e) => game_roms(nodes_view(nodes@), g as int, nodes@.len() as int) == Err::<Seq<RomView>, ImportError>(e),
        },
{
    let ghost v = nodes_view(nodes@);
    let rom = "rom".to_owned();
    let mut roms: Vec<RomEntry> = Vec::new();
    let mut j: usize = g + 1;
    assert(roms@.map_values(|x: RomEntry| rom_view(x)) =~= Seq::<RomView>::empty());
    while j < nodes.len() && nodes[j].depth > nodes[g].depth
        invariant
            v == nodes_view(nodes@),
            v.len() == nodes@.len(),
            g < j <= nodes.len(),
            rom@ == "rom"@,
            forall|t: int| g < t < j ==> #[trigger] v[t].0 > v[g as int].0,
            game_roms(v, g as int, j as int) == Ok::<Seq<RomView>, ImportError>(roms@.map_values(|x: RomEntry| rom_view(x))),
        decreases nodes.len() - j,
    {
        proof {
            assert(v[j as int] == nodes@[j as int]@);
            assert(v[g as int] == nodes@[g as int]@);
            assert forall|t: int| g < t <= j implies #[trigger] v[t].0 > v[g as int].0 by {
                if t < j {
                }
            }
            assert(within(v, g as int, j as int));
        }
        if nodes[j].tag == rom {
            match rom_from_node(&nodes[j]) {
                Ok(e) => {
                    let ghost before = roms@;
                    roms.push(e);
                    assert(roms@.map_values(|x: RomEntry| rom_view(x)) =~= before.map_values(|x: RomEntry| rom_view(x)).push(rom_view(e)));
                },
                Err(e) => {
                    proof {
                        lemma_game_roms_err_stable(v, g as int, j as int + 1, v.len() as int);
                    }
                    return Err(e);
                },
            }
        }
        j = j + 1;
    }
    proof {
        if j < nodes.len() {
            assert(v[j as int] == nodes@[j as int]@);
            assert(v[g as int] == nodes@[g as int]@);
        }
        lemma_game_roms_stop(v, g as int, j as int, v.len() as int);
    }
    Ok(roms)
}

/// The game that node `g` declares.
fn read_game(nodes: &Vec<XmlNode>, g: usize) -> (r: Result<GameEntry, ImportError>)
    requires
        g < nodes.len(),
    ensures
        match r {
            Ok(e) => game_of(nodes_view(nodes@), g as int) == Ok::<GameView, ImportError>(game_view(e)),
            Err(e) => game_of(nodes_view(nodes@), g as int) == Err::<GameView, ImportError>(e),
        },
{
    assert(nodes_view(nodes@)[g as int] == nodes@[g as int]@);
    let name = match attribute(&nodes[g], "name") {
        Some(n) => n,
        None => return Err(ImportError::MissingAttribute),
    };
    match read_game_roms(nodes, g) {
        Ok(roms) => Ok(GameEntry { name, roms }),
        Err(e) => Err(e),
    }
}

/// The games that the children of the root declare.
fn read_games(nodes: &Vec<XmlNode>) -> (r: Result<Vec<GameEntry>, ImportError>)
    requires
        nodes.len() > 0,
    ensures
        match r {
            Ok(games) => games_upto(nodes_view(nodes@), nodes@.len() as int)
                == Ok::<Seq<GameView>, ImportError>(games@.map_values(|x: GameEntry| game_view(x))),
            Err(e) => games_upto(nodes_view(nodes@), nodes@.len() as int) == Err::<Seq<GameView>, ImportError>(e),
        },
{
    let ghost v = nodes_view(nodes@);
    let game = "game".to_owned();
    let mut games: Vec<GameEntry> = Vec::new();
    let mut inside = true;
    let mut k: usize = 1;
    assert(games@.map_values(|x: GameEntry| game_view(x)) =~= Seq::<GameView>::empty());
    while k < nodes.len()
        invariant
            v == nodes_view(nodes@),
            v.len() == nodes@.len(),
            1 <= k <= nodes.len(),
            game@ == "game"@,
            inside == (forall|j: int| 0 < j < k ==> #[trigger] v[j].0 > v[0].0),
            games_upto(v, k as int) == Ok::<Seq<GameView>, ImportError>(games@.map_values(|x: GameEntry| game_view(x))),
        decreases nodes.len() - k,
    {
        let deeper = nodes[k].depth > nodes[0].depth;
        proof {
            assert(v[k as int] == nodes@[k as int]@);
            assert(v[0] == nodes@[0]@);
            assert(within(v, 0, k as int) == (inside && deeper)) by {
                if inside && deeper {
                    assert forall|j: int| 0 < j <= k implies #[trigger] v[j].0 > v[0].0 by {
                        if j < k {
                        }
                    }
                }
                if within(v, 0, k as int) {
                    assert forall|j: int| 0 < j < k implies #[trigger] v[j].0 > v[0].0 by {
                        assert(0 < j <= k);
                    }
                    assert(v[k as int].0 > v[0].0);
                }
            }
        }
        if inside && deeper && nodes[k].depth == nodes[0].depth + 1 && nodes[k].tag == game {
            match read_game(nodes, k) {
                Ok(e) => {
                    let ghost before = games@;
                    games.push(e);
                    assert(games@.map_values(|x: GameEntry| game_view(x)) =~= before.map_values(|x: GameEntry| game_view(x)).push(game_view(e)));
                },
                Err(e) => {
                    proof {
                        lemma_games_err_stable(v, k as int + 1, v.len() as int);
                    }
                    return Err(e);
                },
            }
        }
        inside = inside && deeper;
        k = k + 1;
    }
    Ok(games)
}

/// Reads a catalog from the nodes of its XML document.
pub fn parse_catalog(nodes: &Vec<XmlNode>) -> (r: Result<Catalog, ImportError>)
    ensures
        import_view(r) == catalog_of(nodes_view(nodes@)),
{
    let ghost v = nodes_view(nodes@);
    if nodes.len() == 0 {
        return Err(ImportError::MissingHeader);
    }
    let h = match first_child_tagged(nodes, 0, "header") {
        Some(h) => h,
        None => return Err(ImportError::MissingHeader),
    };
    proof {
        lemma_first_tagged_range(v, 0, "header"@, v.len() as int);
    }
    let name = match last_child_text_of(nodes, h, "name") {
        Some(Some(t)) => t,
        _ => return Err(ImportError::MissingHeaderField(HeaderField::Name)),
    };
    let description = match last_child_text_of(nodes, h, "description") {
        Some(Some(t)) => t,
        _ => return Err(ImportError::MissingHeaderField(HeaderField::Description)),
    };
    let version = match last_child_text_of(nodes, h, "version") {
        Some(Some(t)) => t,
        _ => return Err(ImportError::MissingHeaderField(HeaderField::Version)),
    };
    let author = match last_child_text_of(nodes, h, "author") {
        Some(Some(t)) => t,
        _ => return Err(ImportError::MissingHeaderField(HeaderField::Author)),
    };
    match read_games(nodes) {
        Ok(games) => Ok(Catalog { name, description, version, author, games }),
        Err(e) => Err(e),
    }
}

/// How many roms the games declare in all.
pub open spec fn total_roms(games: Seq<GameEntry>) -> nat
    decreases games.len(),
{
    if games.len() == 0 {
        0
    } else {
        total_roms(games.drop_last()) + games.last().roms@.len()
    }
}

/// How many roms the game views declare in all.
pub open spec fn total_rom_views(games: Seq<GameView>) -> nat
    decreases games.len(),
{
    if games.len() == 0 {
        0
    } else {
        total_rom_views(games.drop_last()) + games.last().1.len()
    }
}

proof fn lemma_total_views(games: Seq<GameEntry>)
    ensures
        total_rom_views(games.map_values(|g: GameEntry| game_view(g))) == total_roms(games),
    decreases games.len(),
{
    if games.len() > 0 {
        lemma_total_views(games.drop_last());
        assert(games.map_values(|g: GameEntry| game_view(g)).drop_last() =~= games.drop_last().map_values(|g: GameEntry| game_view(g)));
    }
}

/// Set rows `after` extend `before` with one set per game, named as the
/// games, in catalog `dat`.
pub open spec fn sets_added(before: Seq<SetRecord>, after: Seq<SetRecord>, games: Seq<GameEntry>, dat: i64) -> bool {
    &&& after.len() == before.len() + games.len()
    &&& after.subrange(0, before.len() as int) == before
    &&& forall|i: int| 0 <= i < games.len() ==> {
        &&& (#[trigger] after[before.len() + i]).dat_id.0 == dat
        &&& after[before.len() + i].name@ == games[i].name@
    }
}

/// Rom rows `after` extend `before` with `count` roms of catalog `dat`.
pub open spec fn roms_added(before: Seq<RomRecord>, after: Seq<RomRecord>, count: nat, dat: i64) -> bool {
    &&& after.len() == before.len() + count
    &&& after.subrange(0, before.len() as int) == before
    &&& forall|j: int| before.len() <= j < after.len() ==> (#[trigger] after[j]).dat_id.0 == dat
}

/// Rom row `x` records the rom `e` (name, size, hash) under set row `s`.
pub open spec fn rom_recorded_view(x: RomRecord, e: RomView, s: SetRecord) -> bool {
    x.set_id.0 == s.id.0 && x.name@ == e.0 && x.size == e.1 && x.hash@ == e.2
}

/// For every game of `games`, the rom rows after the first `roms_base`
/// hold its roms game by game, each under the set row added for its game.
pub open spec fn roms_placed_view(
    sets: Seq<SetRecord>,
    sets_base: int,
    roms: Seq<RomRecord>,
    roms_base: int,
    games: Seq<GameView>,
) -> bool {
    forall|i: int, j: int|
        0 <= i < games.len() && 0 <= j < games[i].1.len() ==> rom_recorded_view(
            roms[roms_base + total_rom_views(games.subrange(0, i)) + j],
            #[trigger] games[i].1[j],
            sets[sets_base + i],
        )
}

/// Rom row `x` records rom `e` of the game whose set row is `s`.
pub open spec fn rom_recorded(x: RomRecord, e: RomEntry, s: SetRecord) -> bool {
    x.set_id.0 == s.id.0 && x.name@ == e.name@ && x.size == e.size && x.hash@ == e.hash@
}

/// For the first `n` games, the rom rows after the first `roms_base` hold
/// their roms game by game, each under the set row that was added for its
/// game after the first `sets_base`.
pub open spec fn roms_placed(
    sets: Seq<SetRecord>,
    sets_base: int,
    roms: Seq<RomRecord>,
    roms_base: int,
    games: Seq<GameEntry>,
    n: int,
) -> bool {
    forall|i: int, j: int|
        0 <= i < n && 0 <= j < games[i].roms@.len() ==> rom_recorded(
            roms[roms_base + total_roms(games.subrange(0, i)) + j],
            #[trigger] games[i].roms@[j],
            sets[sets_base + i],
        )
}

proof fn lemma_total_roms_step(games: Seq<GameEntry>, i: int)
    requires
        0 <= i < games.len(),
    ensures
        total_roms(games.subrange(0, i + 1)) == total_roms(games.subrange(0, i)) + games[i].roms@.len(),
{
    assert(games.subrange(0, i + 1).drop_last() == games.subrange(0, i));
}

/// Adds `catalog` to the index as a new catalog with its sets and roms.
/// Fails only when identifiers run out.
pub fn import_catalog(index: &mut Index, catalog: &Catalog) -> (r: Result<DatRecord, StoreError>)
    requires
        old(index).wf(),
    ensures
        final(index).wf(),
        final(index).dirs@ == old(index).dirs@ && final(index).files@ == old(index).files@,
        final(index).matches@ == old(index).matches@,
        old(index).next_id + 1 + catalog.games@.len() + total_roms(catalog.games@) <= i64::MAX ==> r is Ok,
        r matches Err(e) ==> e == StoreError::Backend,
        r matches Ok(d) ==> {
            &&& d.id.0 == old(index).next_id
            &&& d.name@ == catalog.name@ && d.description@ == catalog.description@
            &&& d.version@ == catalog.version@ && d.author@ == catalog.author@
            &&& d.hash_type@ == "sha1"@
            &&& final(index).dats@ == old(index).dats@.push(d)
            &&& final(index).next_id == old(index).next_id + 1 + catalog.games@.len() + total_roms(catalog.games@)
            &&& sets_added(old(index).sets@, final(index).sets@, catalog.games@, d.id.0)
            &&& roms_added(old(index).roms@, final(index).roms@, total_roms(catalog.games@), d.id.0)
            &&& roms_placed(
                final(index).sets@,
                old(index).sets@.len() as int,
                final(index).roms@,
                old(index).roms@.len() as int,
                catalog.games@,
                catalog.games@.len() as int,
            )
        },
{
    let ghost pre = *index;
    let new = NewDat {
        name: catalog.name.clone(),
        description: catalog.description.clone(),
        version: catalog.version.clone(),
        author: catalog.author.clone(),
        hash_type: "sha1".to_owned(),
    };
    let dat = match DatRecord::insert(index, &new) {
        Ok(d) => d,
        Err(e) => return Err(e),
    };
    assert(index.dats@[index.dats@.len() - 1] == dat);
    let ghost games = catalog.games@;
    let mut i: usize = 0;
    assert(index.sets@.subrange(0, pre.sets@.len() as int) =~= pre.sets@);
    assert(index.roms@.subrange(0, pre.roms@.len() as int) =~= pre.roms@);
    assert(games.subrange(0, 0) =~= Seq::<GameEntry>::empty());
    while i < catalog.games.len()
        invariant
            index.wf(),
            pre == *old(index),
            games == catalog.games@,
            i <= games.len(),
            dat.id.0 == pre.next_id,
            index.dats@ == pre.dats@.push(dat),
            index.dats@[index.dats@.len() - 1] == dat,
            index.dirs@ == pre.dirs@ && index.files@ == pre.files@ && index.matches@ == pre.matches@,
            index.next_id == pre.next_id + 1 + i + total_roms(games.subrange(0, i as int)),
            index.sets@.len() == pre.sets@.len() + i,
            index.sets@.subrange(0, pre.sets@.len() as int) == pre.sets@,
            forall|t: int| 0 <= t < i ==> {
                &&& (#[trigger] index.sets@[pre.sets@.len() + t]).dat_id.0 == dat.id.0
                &&& index.sets@[pre.sets@.len() + t].name@ == games[t].name@
            },
            roms_added(pre.roms@, index.roms@, total_roms(games.subrange(0, i as int)), dat.id.0),
            pre.next_id + 1 + games.len() + total_roms(games) <= i64::MAX ==>
                index.next_id + (games.len() - i) + (total_roms(games) - total_roms(games.subrange(0, i as int))) <= i64::MAX,
            total_roms(games.subrange(0, i as int)) <= total_roms(games),
            roms_placed(index.sets@, pre.sets@.len() as int, index.roms@, pre.roms@.len() as int, games, i as int),
        decreases games.len() - i,
    {
        let game = &catalog.games[i];
        proof {
            lemma_total_roms_step(games, i as int);
            lemma_total_roms_prefix(games, i as int + 1);
            assert(dat_is(dat.id.0)(index.dats@[index.dats@.len() - 1]));
        }
        let ghost sets_before = index.sets@;
        let set = match SetRecord::insert(index, &NewSet { dat_id: dat.id.duplicate(), name: game.name.clone() }) {
            Ok(s) => s,
            Err(e) => return Err(e),
        };
        proof {
            assert forall|t: int| 0 <= t < i + 1 implies {
                &&& (#[trigger] index.sets@[pre.sets@.len() + t]).dat_id.0 == dat.id.0
                &&& index.sets@[pre.sets@.len() + t].name@ == games[t].name@
            } by {
                if t < i {
                    assert(index.sets@[pre.sets@.len() + t] == sets_before[pre.sets@.len() + t]);
                }
            }
            assert(index.sets@.subrange(0, pre.sets@.len() as int) =~= pre.sets@) by {
                assert forall|t: int| 0 <= t < pre.sets@.len() implies index.sets@[t] == pre.sets@[t] by {
                    assert(index.sets@[t] == sets_before[t]);
                    assert(sets_before.subrange(0, pre.sets@.len() as int)[t] == sets_before[t]);
                }
            }
            assert(index.sets@[pre.sets@.len() + i] == set);
            assert forall|a: int, b: int| 0 <= a < i && 0 <= b < games[a].roms@.len() implies rom_recorded(
                index.roms@[pre.roms@.len() + total_roms(games.subrange(0, a)) + b],
                #[trigger] games[a].roms@[b],
                index.sets@[pre.sets@.len() + a],
            ) by {
                assert(index.sets@[pre.sets@.len() + a] == sets_before[pre.sets@.len() + a]);
            }
        }
        let ghost sets_now = index.sets@;
        let mut j: usize = 0;
        while j < game.roms.len()
            invariant
                index.wf(),
                pre == *old(index),
                games == catalog.games@,
                i < games.len(),
                *game == games[i as int],
                total_roms(games.subrange(0, i as int)) + game.roms@.len() <= total_roms(games),
                dat.id.0 == pre.next_id,
                index.sets@ == sets_now,
                j <= game.roms@.len(),
                index.dats@ == pre.dats@.push(dat),
                index.dirs@ == pre.dirs@ && index.files@ == pre.files@ && index.matches@ == pre.matches@,
                index.sets@[index.sets@.len() - 1] == set,
                index.sets@.len() > 0,
                set.dat_id.0 == dat.id.0,
                index.next_id == pre.next_id + 1 + i + 1 + total_roms(games.subrange(0, i as int)) + j,
                roms_added(pre.roms@, index.roms@, (total_roms(games.subrange(0, i as int)) + j) as nat, dat.id.0),
                pre.next_id + 1 + games.len() + total_roms(games) <= i64::MAX ==>
                    index.next_id + (games.len() - i - 1) + (total_roms(games) - total_roms(games.subrange(0, i as int)) - j) <= i64::MAX,
                roms_placed(index.sets@, pre.sets@.len() as int, index.roms@, pre.roms@.len() as int, games, i as int),
                index.sets@[pre.sets@.len() + i] == set,
                forall|t: int| 0 <= t < j ==> rom_recorded(
                    index.roms@[pre.roms@.len() + total_roms(games.subrange(0, i as int)) + t],
                    #[trigger] game.roms@[t],
                    set,
                ),
            decreases game.roms@.len() - j,
        {
            let rom = &game.roms[j];
            assert(set_is(set.id.0, dat.id.0)(index.sets@[index.sets@.len() - 1]));
            let ghost roms_before = index.roms@;
            let new_rom = NewRom {
                dat_id: dat.id.duplicate(),
                set_id: set.id.duplicate(),
                name: rom.name.clone(),
                size: SizeWrapper(rom.size),
                hash: rom.hash.clone(),
            };
            match RomRecord::insert(index, &new_rom) {
                Ok(_) => {},
                Err(e) => return Err(e),
            }
            proof {
                assert forall|t: int| pre.roms@.len() <= t < index.roms@.len() implies (#[trigger] index.roms@[t]).dat_id.0 == dat.id.0 by {
                    if t < roms_before.len() {
                        assert(index.roms@[t] == roms_before[t]);
                    }
                }
                assert(index.roms@.subrange(0, pre.roms@.len() as int) =~= pre.roms@) by {
                    assert forall|t: int| 0 <= t < pre.roms@.len() implies index.roms@[t] == pre.roms@[t] by {
                        assert(index.roms@[t] == roms_before[t]);
                        assert(roms_before.subrange(0, pre.roms@.len() as int)[t] == roms_before[t]);
                    }
                }
                let base = pre.roms@.len() + total_roms(games.subrange(0, i as int));
                assert forall|a: int, b: int| 0 <= a < i && 0 <= b < games[a].roms@.len() implies rom_recorded(
                    index.roms@[pre.roms@.len() + total_roms(games.subrange(0, a)) + b],
                    #[trigger] games[a].roms@[b],
                    index.sets@[pre.sets@.len() + a],
                ) by {
                    lemma_total_roms_before(games, a, i as int);
                    assert(index.roms@[pre.roms@.len() + total_roms(games.subrange(0, a)) + b]
                        == roms_before[pre.roms@.len() + total_roms(games.subrange(0, a)) + b]);
                }
                assert forall|t: int| 0 <= t < j + 1 implies rom_recorded(
                    index.roms@[base + t],
                    #[trigger] game.roms@[t],
                    set,
                ) by {
                    if t < j {
                        assert(index.roms@[base + t] == roms_before[base + t]);
                    }
                }
            }
            j = j + 1;
        }
        proof {
            assert forall|a: int, b: int| 0 <= a < i + 1 && 0 <= b < games[a].roms@.len() implies rom_recorded(
                index.roms@[pre.roms@.len() + total_roms(games.subrange(0, a)) + b],
                #[trigger] games[a].roms@[b],
                index.sets@[pre.sets@.len() + a],
            ) by {
                if a == i {
                    assert(game.roms@[b] == games[a].roms@[b]);
                }
            }
        }
        i = i + 1;
    }
    assert(games.subrange(0, i as int) == games);
    Ok(dat)
}

/// The roms of the games before `a` come before those of the game `a`, and
/// all of them before the games from `i` on.
proof fn lemma_total_roms_before(games: Seq<GameEntry>, a: int, i: int)
    requires
        0 <= a < i <= games.len(),
    ensures
        total_roms(games.subrange(0, a)) + games[a].roms@.len() <= total_roms(games.subrange(0, i)),
    decreases i - a,
{
    lemma_total_roms_step(games, a);
    if a + 1 < i {
        lemma_total_roms_mono(games, a + 1, i);
    }
}

proof fn lemma_total_roms_mono(games: Seq<GameEntry>, a: int, i: int)
    requires
        0 <= a <= i <= games.len(),
    ensures
        total_roms(games.subrange(0, a)) <= total_roms(games.subrange(0, i)),
    decreases i - a,
{
    if a < i {
        lemma_total_roms_step(games, a);
        lemma_total_roms_mono(games, a + 1, i);
    }
}

proof fn lemma_total_roms_prefix(games: Seq<GameEntry>, i: int)
    requires
        0 <= i <= games.len(),
    ensures
        total_roms(games.subrange(0, i)) <= total_roms(games),
    decreases games.len() - i,
{
    if i < games.len() {
        lemma_total_roms_prefix(games, i + 1);
        lemma_total_roms_step(games, i);
    } else {
        assert(games.subrange(0, i) == games);
    }
}

/// Reads the catalog in the XML document `text` and adds it to the index.
/// All or nothing: on failure the index is left as it was.
pub fn import_dat(index: &mut Index, text: &str) -> (r: Result<DatRecord, ImportError>)
    requires
        old(index).wf(),
    ensures
        final(index).wf(),
        final(index).dirs@ == old(index).dirs@ && final(index).files@ == old(index).files@,
        final(index).matches@ == old(index).matches@,
        r is Err ==> final(index).same_as(*old(index)),
        match xml_nodes(text@) {
            None => r matches Err(ImportError::Xml(_)),
            Some(v) => match catalog_of(v) {
                Err(e) => r == Err::<DatRecord, ImportError>(e),
                Ok(c) => (old(index).next_id + 1 + c.4.len() + total_rom_views(c.4) <= i64::MAX ==> r is Ok)
                    && (r matches Ok(d) ==> {
                    &&& d.id.0 == old(index).next_id
                    &&& d.name@ == c.0 && d.description@ == c.1 && d.version@ == c.2 && d.author@ == c.3
                    &&& final(index).dats@ == old(index).dats@.push(d)
                    &&& final(index).sets@.len() == old(index).sets@.len() + c.4.len()
                    &&& forall|i: int| 0 <= i < c.4.len() ==> {
                        &&& (#[trigger] final(index).sets@[old(index).sets@.len() + i]).dat_id.0 == d.id.0
                        &&& final(index).sets@[old(index).sets@.len() + i].name@ == c.4[i].0
                    }
                    &&& d.hash_type@ == "sha1"@
                    &&& final(index).next_id == old(index).next_id + 1 + c.4.len() + total_rom_views(c.4)
                    &&& roms_added(old(index).roms@, final(index).roms@, total_rom_views(c.4), d.id.0)
                    &&& roms_placed_view(
                        final(index).sets@,
                        old(index).sets@.len() as int,
                        final(index).roms@,
                        old(index).roms@.len() as int,
                        c.4,
                    )
                }),
            },
        },
{
    let nodes = match parse_xml(text) {
        Ok(n) => n,
        Err(m) => return Err(ImportError::Xml(m)),
    };
    let catalog = match parse_catalog(&nodes) {
        Ok(c) => c,
        Err(e) => return Err(e),
    };
    let saved = index.snapshot();
    proof {
        lemma_total_views(catalog.games@);
    }
    match import_catalog(index, &catalog) {
        Ok(d) => {
            proof {
                let games = catalog.games@;
                let gv = catalog_view(catalog).4;
                assert forall|i: int| 0 <= i < games.len() implies games[i].name@ == gv[i].0 by {
                }
                assert forall|i: int, j: int| 0 <= i < gv.len() && 0 <= j < gv[i].1.len() implies rom_recorded_view(
                    index.roms@[old(index).roms@.len() + total_rom_views(gv.subrange(0, i)) + j],
                    #[trigger] gv[i].1[j],
                    index.sets@[old(index).sets@.len() + i],
                ) by {
                    assert(gv.subrange(0, i) =~= games.subrange(0, i).map_values(|g: GameEntry| game_view(g)));
                    lemma_total_views(games.subrange(0, i));
                    assert(gv[i].1[j] == rom_view(games[i].roms@[j]));
                    assert(rom_recorded(
                        index.roms@[old(index).roms@.len() + total_roms(games.subrange(0, i)) + j],
                        games[i].roms@[j],
                        index.sets@[old(index).sets@.len() + i],
                    ));
                }
            }
            Ok(d)
        },
        Err(e) => {
            *index = saved;
            Err(ImportError::Store(e))
        },
    }
}

/// Removes catalog `dat_id` with all its sets, roms, dirs, files and
/// matches: afterwards no row of any relation refers to it.
pub fn delete_dat(index: &mut Index, dat_id: &DatId)
    requires
        old(index).wf(),
    ensures
        final(index).wf(),
        final(index).dats@ == old(index).dats@.filter(|x: DatRecord| x.id.0 != dat_id.0),
        final(index).sets@ == old(index).sets@.filter(|x: SetRecord| x.dat_id.0 != dat_id.0),
        final(index).roms@ == old(index).roms@.filter(|x: RomRecord| x.dat_id.0 != dat_id.0),
        final(index).dirs@ == old(index).dirs@.filter(|x: DirRecord| x.dat_id.0 != dat_id.0),
        final(index).files@ == old(index).files@.filter(|x: FileRecord| x.dat_id.0 != dat_id.0),
        final(index).matches@ == old(index).matches@.filter(|x: MatchRecord| x.dat_id.0 != dat_id.0),
        !seq_any(final(index).dats@, dat_is(dat_id.0)),
        !seq_any(final(index).sets@, |x: SetRecord| x.dat_id.0 == dat_id.0),
        !seq_any(final(index).roms@, |x: RomRecord| x.dat_id.0 == dat_id.0),
        !seq_any(final(index).dirs@, |x: DirRecord| x.dat_id.0 == dat_id.0),
        !seq_any(final(index).files@, |x: FileRecord| x.dat_id.0 == dat_id.0),
        !seq_any(final(index).matches@, |x: MatchRecord| x.dat_id.0 == dat_id.0),
{
    index.delete_catalog(dat_id);
    proof {
        let d = dat_id.0;
        let pre = *old(index);
        lemma_filter_excludes(pre.dats@, dat_is(d), |x: DatRecord| x.id.0 != d);
        lemma_filter_excludes(pre.sets@, |x: SetRecord| x.dat_id.0 == d, |x: SetRecord| x.dat_id.0 != d);
        lemma_filter_excludes(pre.roms@, |x: RomRecord| x.dat_id.0 == d, |x: RomRecord| x.dat_id.0 != d);
        lemma_filter_excludes(pre.dirs@, |x: DirRecord| x.dat_id.0 == d, |x: DirRecord| x.dat_id.0 != d);
        lemma_filter_excludes(pre.files@, |x: FileRecord| x.dat_id.0 == d, |x: FileRecord| x.dat_id.0 != d);
        lemma_filter_excludes(pre.matches@, |x: MatchRecord| x.dat_id.0 == d, |x: MatchRecord| x.dat_id.0 != d);
    }
}

/// No two rows of `files` share an identifier.
pub open spec fn ids_distinct(files: Seq<FileRecord>) -> bool {
    forall|a: int, b: int| 0 <= a < files.len() && 0 <= b < files.len() && a != b ==> (#[trigger] files[a]).id.0 != (#[trigger] files[b]).id.0
}

/// The sets that files in a dir at `path` are matched against: in a ZIP
/// archive, those named like the archive; elsewhere any.
pub open spec fn rematch_sets(sets: Seq<SetRecord>, dat: i64, path: Seq<char>) -> Seq<crate::model::SetId> {
    if zip_ext(path_extension(path)) {
        match path_prefix(path) {
            Some(p) => named_set_ids(sets, dat, p),
            None => Seq::empty(),
        }
    } else {
        Seq::empty()
    }
}

/// File `f` of catalog `dat` lies in a dir of the index, and its match rows
/// are the matcher's outcome for it under that dir's restriction.
pub open spec fn rematched(index: Index, f: FileRecord, dat: i64) -> bool {
    exists|d: DirRecord| #[trigger] index.dirs@.contains(d) && d.id.0 == f.dir_id.0 && matches_recorded(
        index.matches@,
        match_outcome(index.roms@, dat, f.name@, f.size, f.hash@, rematch_sets(index.sets@, dat, d.path@)),
        dat,
        f.id.0,
    )
}

/// Replaces catalog `old_dat_id` by the catalog in the XML document `text`:
/// the new catalog is added, every dir of the old one (and the files in it)
/// moves to the new one, every file is matched again against it (restricted,
/// inside a ZIP archive, to the sets named like the archive), and the old
/// catalog is removed. All or nothing: on failure the index is left as it
/// was. Fails with `NotFound` when the old catalog does not exist; succeeds
/// for a valid catalog text while identifiers suffice. When no two file rows
/// share an identifier (as `Index::check` ensures of a loaded index), each
/// moved file's match rows are the matcher's outcome under the new catalog.
pub fn update_dat(index: &mut Index, text: &str, old_dat_id: &DatId) -> (r: Result<DatRecord, ImportError>)
    requires
        old(index).wf(),
    ensures
        final(index).wf(),
        r is Err ==> final(index).same_as(*old(index)),
        !seq_any(old(index).dats@, dat_is(old_dat_id.0)) ==> r matches Err(ImportError::Store(StoreError::NotFound)),
        ({
            &&& seq_any(old(index).dats@, dat_is(old_dat_id.0))
            &&& xml_nodes(text@) matches Some(v)
            &&& catalog_of(v) matches Ok(c)
            &&& old(index).next_id + 1 + c.4.len() + total_rom_views(c.4) + old(index).files@.len() * total_rom_views(c.4) <= i64::MAX
        }) ==> r is Ok,
        (xml_nodes(text@) is None || (xml_nodes(text@) matches Some(v) && catalog_of(v) is Err)) ==> r is Err,
        r matches Ok(d) ==> {
            &&& final(index).dirs@ == old(index).dirs@.map_values(|x: DirRecord| relink_dir(x, old_dat_id.0, d.id.0))
            &&& final(index).files@ == old(index).files@.map_values(|x: FileRecord| relink_file(x, old_dat_id.0, d.id.0))
            &&& !seq_any(final(index).dats@, dat_is(old_dat_id.0))
            &&& seq_any(final(index).dats@, dat_is(d.id.0))
            &&& ids_distinct(old(index).files@) ==> forall|k: int| 0 <= k < final(index).files@.len()
                && (#[trigger] final(index).files@[k]).dat_id.0 == d.id.0 ==> rematched(*final(index), final(index).files@[k], d.id.0)
        },
{
    let ghost pre = *index;
    let exists = any_row(
        &index.dats,
        (|x: &DatRecord| -> (b: bool)
            ensures
                b == dat_is(old_dat_id.0)(*x),
        {
            x.id.0 == old_dat_id.0
        }),
        Ghost(dat_is(old_dat_id.0)),
    );
    if !exists {
        return Err(ImportError::Store(StoreError::NotFound));
    }
    let saved = index.snapshot();
    let imported = match import_dat(index, text) {
        Ok(d) => d,
        Err(e) => return Err(e),
    };
    let new_id = imported.id.duplicate();
    let ghost budget = {
        &&& xml_nodes(text@) matches Some(v)
        &&& catalog_of(v) matches Ok(c)
        &&& pre.next_id + 1 + c.4.len() + total_rom_views(c.4) + pre.files@.len() * total_rom_views(c.4) <= i64::MAX
    };
    let ghost t0 = if budget { total_rom_views(catalog_of(xml_nodes(text@).unwrap()).unwrap().4) } else { 0 };
    proof {
        if budget {
            let c = catalog_of(xml_nodes(text@).unwrap()).unwrap();
            let dn = |r: RomRecord| r.dat_id.0 == new_id.0;
            lemma_filter_extend(pre.roms@, index.roms@, dn);
            assert forall|k: int| 0 <= k < pre.roms@.len() implies !dn(#[trigger] pre.roms@[k]) by {
                let r = pre.roms@[k];
                assert(pre.rom_ok(r));
                let t = choose|t: int| 0 <= t < pre.sets@.len() && #[trigger] set_is(r.set_id.0, r.dat_id.0)(pre.sets@[t]);
                assert(pre.set_ok(pre.sets@[t]));
                let u = choose|u: int| 0 <= u < pre.dats@.len() && #[trigger] dat_is(r.dat_id.0)(pre.dats@[u]);
                assert(dat_key()(pre.dats@[u]) < pre.next_id);
            }
            lemma_filter_none(pre.roms@, dn);
            let tail = index.roms@.subrange(pre.roms@.len() as int, index.roms@.len() as int);
            assert forall|k: int| 0 <= k < tail.len() implies dn(#[trigger] tail[k]) by {
                assert(tail[k] == index.roms@[pre.roms@.len() + k]);
            }
            assert(seq_all(tail, dn));
            lemma_filter_all(tail, dn);
            assert(index.roms@.filter(dn).len() == t0);
            assert(index.next_id + pre.files@.len() * t0 <= i64::MAX);
        }
    }
    proof {
        let k = choose|k: int| 0 <= k < pre.dats@.len() && #[trigger] dat_is(old_dat_id.0)(pre.dats@[k]);
        assert(dat_key()(pre.dats@[k]) < pre.next_id);
        assert(old_dat_id.0 != new_id.0);
        assert(dat_is(new_id.0)(index.dats@[index.dats@.len() - 1]));
    }
    MatchRecord::delete_by_dat(index, old_dat_id);
    proof {
        lemma_filter_excludes(pre.matches@, |m: MatchRecord| m.dat_id.0 == old_dat_id.0, |x: MatchRecord| x.dat_id.0 != old_dat_id.0);
        assert(dat_is(new_id.0)(index.dats@[index.dats@.len() - 1]));
    }
    let ghost before_relink = *index;
    match DirRecord::relink_dirs(index, old_dat_id, &new_id) {
        Ok(_) => {},
        Err(e) => {
            *index = saved;
            return Err(ImportError::Store(e));
        },
    }
    assert(index.files@ == before_relink.files@.map_values(|x: FileRecord| relink_file(x, old_dat_id.0, new_id.0)));
    let ghost relinked = index.dirs@;
    let ghost relinked_files = index.files@;
    let ghost n1 = index.next_id;
    let ghost total = index.roms@.filter(|r: RomRecord| r.dat_id.0 == new_id.0).len();
    assert(budget ==> total == t0 && n1 + pre.files@.len() * total <= i64::MAX);
    let ghost before_delete = *index;
    index.delete_catalog(old_dat_id);
    proof {
        let q = |x: DirRecord| x.dat_id.0 != old_dat_id.0;
        assert(seq_all(relinked, q)) by {
            assert forall|k: int| 0 <= k < relinked.len() implies #[trigger] q(relinked[k]) by {
                assert(relinked[k] == relink_dir(pre.dirs@[k], old_dat_id.0, new_id.0));
            }
        }
        lemma_filter_all(relinked, q);
        let qf = |x: FileRecord| x.dat_id.0 != old_dat_id.0;
        assert(seq_all(relinked_files, qf)) by {
            assert forall|k: int| 0 <= k < relinked_files.len() implies #[trigger] qf(relinked_files[k]) by {
                assert(relinked_files[k] == relink_file(pre.files@[k], old_dat_id.0, new_id.0));
            }
        }
        lemma_filter_all(relinked_files, qf);
        lemma_filter_excludes(before_delete.dats@, dat_is(old_dat_id.0), |x: DatRecord| x.id.0 != old_dat_id.0);
        let k = choose|k: int| 0 <= k < before_delete.dats@.len() && #[trigger] dat_is(new_id.0)(before_delete.dats@[k]);
        lemma_any_filter(before_delete.dats@, dat_is(new_id.0), |x: DatRecord| x.id.0 != old_dat_id.0);
        let dn = |r: RomRecord| r.dat_id.0 == new_id.0;
        let qo = |r: RomRecord| r.dat_id.0 != old_dat_id.0;
        lemma_filter_filter(before_delete.roms@, qo, dn);
        assert((|x: RomRecord| qo(x) && dn(x)) =~= dn);
        // no match refers to the new catalog yet
        let nm = |m: MatchRecord| m.dat_id.0 != new_id.0;
        assert(seq_all(pre.matches@, nm)) by {
            assert forall|k: int| 0 <= k < pre.matches@.len() implies #[trigger] nm(pre.matches@[k]) by {
                let m = pre.matches@[k];
                assert(pre.match_ok(m));
                let t = choose|t: int| 0 <= t < pre.sets@.len() && #[trigger] set_is(m.set_id.0, m.dat_id.0)(pre.sets@[t]);
                assert(pre.set_ok(pre.sets@[t]));
                let u = choose|u: int| 0 <= u < pre.dats@.len() && #[trigger] dat_is(m.dat_id.0)(pre.dats@[u]);
                assert(dat_key()(pre.dats@[u]) < pre.next_id);
            }
        }
        let q1 = |x: MatchRecord| x.dat_id.0 != old_dat_id.0;
        lemma_all_filter(pre.matches@, nm, q1);
        lemma_all_filter(before_relink.matches@, nm, q1);
        lemma_all_filter(before_delete.matches@, nm, q1);
    }
    let files = copy_rows(&index.files);
    let ghost distinct = ids_distinct(pre.files@);
    let ghost sets_now = index.sets@;
    let ghost roms_now = index.roms@;
    let mut j: usize = 0;
    while j < files.len()
        invariant
            index.wf(),
            j <= files.len(),
            files@ == relinked_files,
            files@.len() == pre.files@.len(),
            index.dirs@ == relinked,
            index.files@ == relinked_files,
            index.sets@ == sets_now && index.roms@ == roms_now,
            index.roms@.filter(|r: RomRecord| r.dat_id.0 == new_id.0).len() == total,
            seq_any(index.dats@, dat_is(new_id.0)),
            !seq_any(index.dats@, dat_is(old_dat_id.0)),
            old_dat_id.0 != new_id.0,
            saved.same_as(pre),
            pre == *old(index),
            pre.wf(),
            seq_any(pre.dats@, dat_is(old_dat_id.0)),
            relinked == pre.dirs@.map_values(|x: DirRecord| relink_dir(x, old_dat_id.0, new_id.0)),
            relinked_files == pre.files@.map_values(|x: FileRecord| relink_file(x, old_dat_id.0, new_id.0)),
            index.next_id <= n1 + j * total,
            budget ==> n1 + pre.files@.len() * total <= i64::MAX,
            budget == ({
                &&& xml_nodes(text@) matches Some(v)
                &&& catalog_of(v) matches Ok(c)
                &&& pre.next_id + 1 + c.4.len() + total_rom_views(c.4) + pre.files@.len() * total_rom_views(c.4) <= i64::MAX
            }),
            distinct == ids_distinct(pre.files@),
            j == 0 ==> seq_all(index.matches@, |m: MatchRecord| m.dat_id.0 != new_id.0),
            distinct ==> forall|k: int| 0 <= k < j && (#[trigger] files@[k]).dat_id.0 == new_id.0
                ==> rematched(*index, files@[k], new_id.0),
            distinct && j > 0 ==> forall|k: int| j <= k < files@.len() && (#[trigger] files@[k]).dat_id.0 == new_id.0
                ==> crate::scanner::file_rows(index.matches@, files@[k].id.0) == Seq::<MatchRecord>::empty(),
        decreases files.len() - j,
    {
        let file = &files[j];
        proof {
            assert(j * total <= (j + 1) * total) by (nonlinear_arith);
            if distinct && j == 0 {
                assert forall|k: int| 0 <= k < files@.len() && (#[trigger] files@[k]).dat_id.0 == new_id.0
                    implies crate::scanner::file_rows(index.matches@, files@[k].id.0) == Seq::<MatchRecord>::empty() by {
                    let f = files@[k];
                    let p = |m: MatchRecord| m.file_id.0 == f.id.0;
                    assert forall|u: int| 0 <= u < index.matches@.len() implies !p(#[trigger] index.matches@[u]) by {
                        let m = index.matches@[u];
                        if p(m) {
                            assert(index.match_ok(m));
                            let g = choose|g: int| 0 <= g < index.files@.len() && #[trigger] file_is(m.file_id.0, m.dat_id.0)(index.files@[g]);
                            assert(pre.files@[g].id.0 == index.files@[g].id.0);
                            assert(pre.files@[k].id.0 == index.files@[k].id.0);
                            assert(g == k);
                            assert((|m: MatchRecord| m.dat_id.0 != new_id.0)(index.matches@[u]));
                        }
                    }
                    lemma_filter_none(index.matches@, p);
                }
            }
        }
        if file.dat_id.0 == new_id.0 {
            proof {
                assert(index.file_ok(index.files@[j as int]));
                let t = choose|t: int| 0 <= t < index.dirs@.len()
                    && #[trigger] dir_is(file.dir_id.0, file.dat_id.0)(index.dirs@[t]);
                assert((|x: DirRecord| x.id.0 == file.dir_id.0)(index.dirs@[t]));
            }
            let dir = match DirRecord::get_by_id(index, &file.dir_id) {
                Ok(d) => d,
                Err(_) => {
                    proof {
                        assert(false);
                    }
                    j = j + 1;
                    continue;
                },
            };
            let allowed = if is_zip_path(dir.path.as_str()) {
                match match_sets(index, &new_id, dir.path.as_str()) {
                    Some(sets) => sets,
                    None => Vec::new(),
                }
            } else {
                Vec::new()
            };
            assert(allowed@ == rematch_sets(index.sets@, new_id.0, dir.path@));
            proof {
                let t = j as int;
                assert(file_is(file.id.0, new_id.0)(index.files@[t]));
                crate::matcher::lemma_outcome_len(index.roms@, new_id.0, file.name@, file.size, file.hash@, allowed@);
                assert((j + 1) * total == j * total + total) by (nonlinear_arith);
                assert((j + 1) * total <= pre.files@.len() * total) by (nonlinear_arith)
                    requires
                        j + 1 <= pre.files@.len(),
                        total >= 0,
                ;
                let o = crate::matcher::match_outcome(index.roms@, new_id.0, file.name@, file.size, file.hash@, allowed@);
                assert(crate::scanner::outcome_len(o) <= total);
                if budget {
                    assert(index.next_id + crate::scanner::outcome_len(o) <= i64::MAX);
                }
            }
            let ghost mid = *index;
            match crate::scanner::insert_matches(index, &new_id, file, &allowed) {
                Ok(()) => {},
                Err(e) => {
                    assert(!budget);
                    *index = saved;
                    return Err(ImportError::Store(e));
                },
            }
            proof {
                if distinct {
                    let o = crate::matcher::match_outcome(mid.roms@, new_id.0, file.name@, file.size, file.hash@, allowed@);
                    let first = mid.next_id as int;
                    if j > 0 {
                        crate::scanner::lemma_rows_after_append(mid.matches@, index.matches@, o, new_id.0, file.id.0, first);
                    } else {
                        crate::scanner::lemma_rows_after_append(mid.matches@, index.matches@, o, new_id.0, file.id.0, first);
                    }
                    assert(rematched(*index, files@[j as int], new_id.0));
                    assert forall|k: int| 0 <= k < j + 1 && (#[trigger] files@[k]).dat_id.0 == new_id.0
                        implies rematched(*index, files@[k], new_id.0) by {
                        if k < j {
                            assert(files@[k].id.0 != file.id.0) by {
                                assert(pre.files@[k].id.0 == files@[k].id.0);
                                assert(pre.files@[j as int].id.0 == files@[j as int].id.0);
                            }
                            let f = files@[k];
                            let d = choose|d: DirRecord| #[trigger] mid.dirs@.contains(d) && d.id.0 == f.dir_id.0 && crate::scanner::matches_recorded(
                                mid.matches@,
                                crate::matcher::match_outcome(mid.roms@, new_id.0, f.name@, f.size, f.hash@, rematch_sets(mid.sets@, new_id.0, d.path@)),
                                new_id.0,
                                f.id.0,
                            );
                            crate::scanner::lemma_other_file_rows(mid.matches@, index.matches@, o, new_id.0, file.id.0, first,
                                crate::matcher::match_outcome(mid.roms@, new_id.0, f.name@, f.size, f.hash@, rematch_sets(mid.sets@, new_id.0, d.path@)),
                                f.id.0);
                        }
                    }
                    assert forall|k: int| j + 1 <= k < files@.len() && (#[trigger] files@[k]).dat_id.0 == new_id.0
                        implies crate::scanner::file_rows(index.matches@, files@[k].id.0) == Seq::<MatchRecord>::empty() by {
                        assert(files@[k].id.0 != file.id.0) by {
                            assert(pre.files@[k].id.0 == files@[k].id.0);
                            assert(pre.files@[j as int].id.0 == files@[j as int].id.0);
                        }
                        let p = |m: MatchRecord| m.file_id.0 == files@[k].id.0;
                        let tail = index.matches@.subrange(mid.matches@.len() as int, index.matches@.len() as int);
                        lemma_filter_extend(mid.matches@, index.matches@, p);
                        assert forall|u: int| 0 <= u < tail.len() implies !p(#[trigger] tail[u]) by {
                            assert(tail[u] == index.matches@[mid.matches@.len() + u]);
                        }
                        lemma_filter_none(tail, p);
                        assert(crate::scanner::file_rows(index.matches@, files@[k].id.0) =~= crate::scanner::file_rows(mid.matches@, files@[k].id.0));
                    }
                }
            }
        }
        j = j + 1;
    }
    Ok(imported)
}

} // verus!
