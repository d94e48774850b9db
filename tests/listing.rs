use rrm::catalog::import_dat;
use rrm::listing::{missing_roms, set_status, SetStatus};
use rrm::model::{MatchStatus, DatRecord, DirRecord, MatchRecord, NewDir, RomRecord, SetRecord};
use rrm::scanner::insert_files_and_matches;
use rrm::store::{Index, StoreError};

const ZEROS: &str = "0000000000000000000000000000000000000000";
const ONES: &str = "1111111111111111111111111111111111111111";

fn two_rom_catalog() -> (Index, DatRecord, DirRecord) {
    let mut index = Index::new();
    let xml = format!(
        "<datafile><header><name>X</name><description>d</description><version>1</version><author>a</author></header>\
         <game name=\"Zeta\"><rom name=\"b.bin\" size=\"1\" sha1=\"{ZEROS}\"/><rom name=\"a.bin\" size=\"1\" sha1=\"{ONES}\"/></game>\
         <game name=\"Alpha\"/><game name=\"Mid\"/></datafile>"
    );
    let dat = import_dat(&mut index, &xml).unwrap();
    let dir = DirRecord::insert(&mut index, &NewDir { dat_id: dat.id.clone(), path: "/roms".to_string(), parent_id: None }).unwrap();
    (index, dat, dir)
}

#[test]
fn searches_come_ordered_by_name() {
    let (mut index, dat, dir) = two_rom_catalog();
    let sets = SetRecord::find_by_name(&index, &dat.id, "", false);
    let names: Vec<&str> = sets.iter().map(|s| s.name.as_str()).collect();
    assert_eq!(names, vec!["Alpha", "Mid", "Zeta"]);
    let roms = RomRecord::find_by_name(&index, &dat.id, ".bin", false);
    let names: Vec<&str> = roms.iter().map(|r| r.name.as_str()).collect();
    assert_eq!(names, vec!["a.bin", "b.bin"]);
    for name in ["c", "B", "a", "ab"] {
        insert_files_and_matches(&mut index, &dat.id, &dir.id, name, 0, ZEROS, &vec![]).unwrap();
    }
    let files = dir.get_files(&index);
    let names: Vec<&str> = files.iter().map(|f| f.name.as_str()).collect();
    assert_eq!(names, vec!["B", "a", "ab", "c"]);
}

#[test]
fn set_completeness() {
    let (mut index, dat, dir) = two_rom_catalog();
    let zeta = SetRecord::find_by_name(&index, &dat.id, "Zeta", true)[0].clone();
    let alpha = SetRecord::find_by_name(&index, &dat.id, "Alpha", true)[0].clone();
    assert_eq!(set_status(&index, &dat.id, &zeta.id), SetStatus::Missing);
    insert_files_and_matches(&mut index, &dat.id, &dir.id, "b.bin", 1, ZEROS, &vec![]).unwrap();
    assert_eq!(set_status(&index, &dat.id, &zeta.id), SetStatus::Partial);
    let missing = missing_roms(&index, &dat.id, &zeta.id);
    assert_eq!(missing.len(), 1);
    assert_eq!(missing[0].name, "a.bin");
    insert_files_and_matches(&mut index, &dat.id, &dir.id, "x.bin", 1, ONES, &vec![]).unwrap();
    assert_eq!(set_status(&index, &dat.id, &zeta.id), SetStatus::Complete);
    assert!(missing_roms(&index, &dat.id, &zeta.id).is_empty());
    assert_eq!(set_status(&index, &dat.id, &alpha.id), SetStatus::Missing);
}

#[test]
fn deleting_a_dir_orphans_its_children() {
    let (mut index, dat, dir) = two_rom_catalog();
    let child = DirRecord::insert(
        &mut index,
        &NewDir { dat_id: dat.id.clone(), path: "/roms/sub".to_string(), parent_id: Some(dir.id.clone()) },
    )
    .unwrap();
    assert_eq!(dir.get_children(&index).len(), 1);
    assert!(DirRecord::delete_by_id(&mut index, &dir.id));
    let left = DirRecord::get_by_id(&index, &child.id).unwrap();
    assert_eq!(left.parent_id, None);
}

#[test]
fn single_row_deletes() {
    let (mut index, dat, dir) = two_rom_catalog();
    insert_files_and_matches(&mut index, &dat.id, &dir.id, "b.bin", 1, ZEROS, &vec![]).unwrap();
    let m = index.matches[0].clone();
    assert!(MatchRecord::delete_by_id(&mut index, &m.id));
    assert!(!MatchRecord::delete_by_id(&mut index, &m.id));
    assert!(index.matches.is_empty());
    assert_eq!(DatRecord::delete_by_id(&mut index, &dat.id), Err(StoreError::Backend));
    assert_eq!(index.dats.len(), 1);
    let mut empty = Index::new();
    let lone = import_dat(
        &mut empty,
        "<datafile><header><name>Y</name><description>d</description><version>1</version><author>a</author></header></datafile>",
    )
    .unwrap();
    assert_eq!(DatRecord::delete_by_id(&mut empty, &lone.id), Ok(true));
    assert_eq!(DatRecord::delete_by_id(&mut empty, &lone.id), Ok(false));
}

#[test]
fn index_check_accepts_what_operations_build_and_refuses_dangling_rows() {
    let (mut index, dat, dir) = two_rom_catalog();
    insert_files_and_matches(&mut index, &dat.id, &dir.id, "b.bin", 1, ZEROS, &vec![]).unwrap();
    assert!(index.check());
    let mut broken = index.clone();
    broken.files[0].dir_id = rrm::model::Id::new(9999);
    assert!(!broken.check());
    let mut twice = index.clone();
    let copy = twice.sets[0].clone();
    twice.sets.push(copy);
    assert!(!twice.check());
    let mut late = index.clone();
    late.next_id = 1;
    assert!(!late.check());
}

#[test]
fn relinking_needs_an_existing_catalog() {
    let (mut index, dat, _) = two_rom_catalog();
    let missing = rrm::model::Id::new(4242);
    assert_eq!(DirRecord::relink_dirs(&mut index, &dat.id, &missing), Err(StoreError::NotFound));
    assert_eq!(DirRecord::relink_dirs(&mut index, &dat.id, &dat.id), Ok(0));
    assert_eq!(index.dirs.len(), 1);
}

#[test]
fn status_text_round_trip() {
    for st in [MatchStatus::Hash, MatchStatus::Name, MatchStatus::Match] {
        assert_eq!(MatchStatus::from_text(st.as_text()), Some(st));
    }
    assert_eq!(MatchStatus::Match.as_text(), "match");
    assert_eq!(MatchStatus::from_text("none"), None);
}
