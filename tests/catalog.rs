use rrm::catalog::{delete_dat, import_dat, update_dat, HeaderField, ImportError};
use rrm::model::{DatRecord, DirRecord, FileRecord, MatchRecord, MatchStatus, RomRecord, SetRecord};
use rrm::scanner::insert_files_and_matches;
use rrm::store::Index;

const SHA_EMPTY: &str = "da39a3ee5e6b4b0d3255bfef95601890afd80709";

fn catalog_xml(games: &str) -> String {
    format!(
        "<?xml version=\"1.0\"?>\n<!DOCTYPE datafile SYSTEM \"datafile.dtd\">\n<datafile><header><name>X</name><description>d</description><version>1</version><author>a</author></header>{games}</datafile>"
    )
}

#[test]
fn empty_import_gives_one_dat_and_nothing_else() {
    let mut index = Index::new();
    let dat = import_dat(&mut index, &catalog_xml("")).expect("imports");
    assert_eq!(index.dats.len(), 1);
    assert_eq!(index.sets.len(), 0);
    assert_eq!(index.roms.len(), 0);
    assert_eq!(dat.name, "X");
    assert_eq!(dat.description, "d");
    assert_eq!(dat.version, "1");
    assert_eq!(dat.author, "a");
    assert_eq!(dat.hash_type, "sha1");
}

#[test]
fn import_reads_games_and_roms() {
    let mut index = Index::new();
    let xml = catalog_xml(
        "<game name=\"G\"><description>g</description><rom name=\"R.bin\" size=\"3\" sha1=\"A9993E364706816ABA3E25717850C26C9CD0D89D\"/><rom name=\"S.bin\" size=\"+10\" sha1=\"00\"/></game><game name=\"H\"/>",
    );
    let dat = import_dat(&mut index, &xml).expect("imports");
    let sets = dat.get_sets(&index);
    assert_eq!(sets.len(), 2);
    assert_eq!(sets[0].name, "G");
    assert_eq!(sets[1].name, "H");
    let roms = sets[0].get_roms(&index);
    assert_eq!(roms.len(), 2);
    assert_eq!(roms[0].name, "R.bin");
    assert_eq!(roms[0].size, 3);
    assert_eq!(roms[0].hash, "a9993e364706816aba3e25717850c26c9cd0d89d");
    assert_eq!(roms[1].size, 10);
    assert_eq!(sets[1].get_roms(&index).len(), 0);
}

#[test]
fn import_errors_name_their_cause() {
    let mut index = Index::new();
    assert!(matches!(import_dat(&mut index, "<datafile>"), Err(ImportError::Xml(_))));
    assert!(matches!(import_dat(&mut index, "<datafile><game name=\"G\"/></datafile>"), Err(ImportError::MissingHeader)));
    assert!(matches!(
        import_dat(&mut index, "<datafile><header><name>X</name><description>d</description><version>1</version></header></datafile>"),
        Err(ImportError::MissingHeaderField(HeaderField::Author))
    ));
    assert!(matches!(
        import_dat(&mut index, "<datafile><header><name/><description>d</description><version>1</version><author>a</author></header></datafile>"),
        Err(ImportError::MissingHeaderField(HeaderField::Name))
    ));
    assert!(matches!(import_dat(&mut index, &catalog_xml("<game><rom name=\"a\" size=\"1\" sha1=\"00\"/></game>")), Err(ImportError::MissingAttribute)));
    assert!(matches!(import_dat(&mut index, &catalog_xml("<game name=\"G\"><rom name=\"a\" sha1=\"00\"/></game>")), Err(ImportError::MissingAttribute)));
    assert!(matches!(
        import_dat(&mut index, &catalog_xml("<game name=\"G\"><rom name=\"a\" size=\"18446744073709551616\" sha1=\"00\"/></game>")),
        Err(ImportError::BadRomSize)
    ));
    assert!(matches!(import_dat(&mut index, &catalog_xml("<game name=\"G\"><rom name=\"a\" size=\"x1\" sha1=\"00\"/></game>")), Err(ImportError::BadRomSize)));
    assert_eq!(index.dats.len(), 0);
    assert_eq!(index.sets.len(), 0);
}

fn setup_with_file() -> (Index, DatRecord, DirRecord) {
    let mut index = Index::new();
    let xml = catalog_xml(&format!("<game name=\"G\"><rom name=\"R.bin\" size=\"0\" sha1=\"{SHA_EMPTY}\"/></game>"));
    let dat = import_dat(&mut index, &xml).unwrap();
    let dir = DirRecord::insert(
        &mut index,
        &rrm::model::NewDir { dat_id: dat.id.clone(), path: "/roms".to_string(), parent_id: None },
    )
    .unwrap();
    insert_files_and_matches(&mut index, &dat.id, &dir.id, "R.bin", 0, SHA_EMPTY, &Vec::new()).unwrap();
    (index, dat, dir)
}

#[test]
fn remove_leaves_no_row_of_the_catalog() {
    let (mut index, dat, _) = setup_with_file();
    assert_eq!(index.matches.len(), 1);
    delete_dat(&mut index, &dat.id);
    assert!(index.dats.is_empty());
    assert!(index.sets.is_empty());
    assert!(index.roms.is_empty());
    assert!(index.dirs.is_empty());
    assert!(index.files.is_empty());
    assert!(index.matches.is_empty());
}

#[test]
fn remove_keeps_other_catalogs() {
    let (mut index, dat, _) = setup_with_file();
    let other = import_dat(&mut index, &catalog_xml("<game name=\"K\"/>")).unwrap();
    delete_dat(&mut index, &dat.id);
    assert_eq!(index.dats.len(), 1);
    assert_eq!(index.dats[0].id, other.id);
    assert_eq!(index.sets.len(), 1);
    assert_eq!(index.sets[0].name, "K");
}

#[test]
fn update_moves_dirs_to_the_new_catalog_and_rematches() {
    let (mut index, old, dir) = setup_with_file();
    let xml = catalog_xml(&format!("<game name=\"N\"><rom name=\"Other.bin\" size=\"0\" sha1=\"{SHA_EMPTY}\"/></game>"));
    let new = update_dat(&mut index, &xml, &old.id).expect("updates");
    assert!(DatRecord::get_by_id(&index, &old.id).is_err());
    assert_eq!(index.dats.len(), 1);
    let dirs = DirRecord::get_by_dat(&index, &new.id);
    assert_eq!(dirs.len(), 1);
    assert_eq!(dirs[0].id, dir.id);
    assert_eq!(dirs[0].path, "/roms");
    let files = FileRecord::get_by_dat(&index, &new.id);
    assert_eq!(files.len(), 1);
    let matches = MatchRecord::get_by_file(&index, &files[0].id);
    assert_eq!(matches.len(), 1);
    assert_eq!(matches[0].status, MatchStatus::Hash);
    assert_eq!(matches[0].dat_id, new.id);
    let rom = RomRecord::get_by_id(&index, &matches[0].rom_id).unwrap();
    assert_eq!(rom.name, "Other.bin");
    assert_eq!(SetRecord::get_by_dat(&index, &old.id).len(), 0);
}

#[test]
fn update_of_a_missing_catalog_fails_and_changes_nothing() {
    let (mut index, _, _) = setup_with_file();
    let before = index.clone();
    let missing = rrm::model::Id::new(999);
    let r = update_dat(&mut index, &catalog_xml(""), &missing);
    assert!(matches!(r, Err(ImportError::Store(rrm::store::StoreError::NotFound))));
    assert_eq!(index.dats.len(), before.dats.len());
    assert_eq!(index.next_id, before.next_id);
}

#[test]
fn update_with_a_bad_catalog_changes_nothing() {
    let (mut index, old, _) = setup_with_file();
    let r = update_dat(&mut index, "<datafile/>", &old.id);
    assert!(matches!(r, Err(ImportError::MissingHeader)));
    assert_eq!(index.dats.len(), 1);
    assert_eq!(index.matches.len(), 1);
}

#[test]
fn update_rematches_archive_files_within_their_set() {
    let mut index = Index::new();
    let old = import_dat(&mut index, &catalog_xml("<game name=\"A\"/>")).unwrap();
    let top = DirRecord::insert(
        &mut index,
        &rrm::model::NewDir { dat_id: old.id.clone(), path: "/roms".to_string(), parent_id: None },
    )
    .unwrap();
    let zip = DirRecord::insert(
        &mut index,
        &rrm::model::NewDir { dat_id: old.id.clone(), path: "/roms/G1.zip".to_string(), parent_id: Some(top.id.clone()) },
    )
    .unwrap();
    insert_files_and_matches(&mut index, &old.id, &zip.id, "R.bin", 0, SHA_EMPTY, &Vec::new()).unwrap();
    insert_files_and_matches(&mut index, &old.id, &top.id, "R.bin", 0, SHA_EMPTY, &Vec::new()).unwrap();
    assert!(index.check());
    let xml = catalog_xml(&format!(
        "<game name=\"G1\"><rom name=\"R.bin\" size=\"0\" sha1=\"{SHA_EMPTY}\"/></game><game name=\"G2\"><rom name=\"R.bin\" size=\"0\" sha1=\"{SHA_EMPTY}\"/></game>"
    ));
    let new = update_dat(&mut index, &xml, &old.id).unwrap();
    let g1 = SetRecord::find_by_name(&index, &new.id, "G1", true)[0].clone();
    let in_zip = FileRecord::get_by_dir(&index, &zip.id);
    let zip_matches = MatchRecord::get_by_file(&index, &in_zip[0].id);
    assert_eq!(zip_matches.len(), 1);
    assert_eq!(zip_matches[0].set_id, g1.id);
    assert_eq!(zip_matches[0].status, MatchStatus::Match);
    let loose = FileRecord::get_by_dir(&index, &top.id);
    assert_eq!(MatchRecord::get_by_file(&index, &loose[0].id).len(), 2);
    assert!(index.check());
}
