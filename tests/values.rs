use rrm::decimal::{decimal_text, parse_size};
use rrm::hashing::calc_hash;
use rrm::listing::{format_file_indicator, format_file_status, format_set_indicator, should_display_file_status, ListMode, SetStatus};
use rrm::model::{DatRecord, FileRecord, MatchRecord, MatchStatus, NewDir, SetRecord, SizeWrapper, DirRecord};
use rrm::rename::{rename_candidates, rename_plan};
use rrm::scanner::insert_files_and_matches;
use rrm::store::{Index, StoreError};
use rrm::text::{contains_ignore_ascii_case, contains_text, eq_ignore_ascii_case, to_ascii_lower};
use rrm::util::{extension_listed, human_size, is_excluded, is_hidden_name, is_zip_path};

#[test]
fn hash_of_known_bytes() {
    let (hash, size) = calc_hash(b"abc");
    assert_eq!(hash, "a9993e364706816aba3e25717850c26c9cd0d89d");
    assert_eq!(size, 3);
    let (empty, zero) = calc_hash(b"");
    assert_eq!(empty, "da39a3ee5e6b4b0d3255bfef95601890afd80709");
    assert_eq!(zero, 0);
}

#[test]
fn hashing_twice_gives_the_same_text() {
    let data: Vec<u8> = (0..5000u32).map(|i| (i * 7 % 251) as u8).collect();
    let first = calc_hash(&data);
    let second = calc_hash(&data);
    assert_eq!(first, second);
    assert_eq!(first.0.len(), 40);
    assert!(first.0.chars().all(|c| c.is_ascii_digit() || ('a'..='f').contains(&c)));
    assert_eq!(first.1, 5000);
}

#[test]
fn sizes_round_trip_through_text() {
    for v in [0u64, 1, 9, 10, 99, 12345, 4294967296, u64::MAX - 1, u64::MAX] {
        let text = SizeWrapper(v).to_text();
        assert_eq!(text, v.to_string());
        assert_eq!(SizeWrapper::from_text(&text), Some(SizeWrapper(v)));
    }
}

#[test]
fn size_text_is_checked() {
    assert_eq!(parse_size("+42"), Some(42));
    assert_eq!(parse_size("18446744073709551615"), Some(u64::MAX));
    assert_eq!(parse_size("18446744073709551616"), None);
    assert_eq!(parse_size(""), None);
    assert_eq!(parse_size("+"), None);
    assert_eq!(parse_size("-1"), None);
    assert_eq!(parse_size("1 "), None);
    assert_eq!(decimal_text(907), "907");
}

#[test]
fn human_sizes() {
    assert_eq!(human_size(0), "0 B");
    assert_eq!(human_size(1023), "1023 B");
    assert_eq!(human_size(1024), "1 KB");
    assert_eq!(human_size(1536), "1 KB");
    assert_eq!(human_size(3 * 1024 * 1024), "3 MB");
    assert_eq!(human_size(5 * 1024 * 1024 * 1024), "5 GB");
    assert_eq!(human_size(2 * 1024 * 1024 * 1024 * 1024), "2 TB");
    assert_eq!(human_size(u64::MAX), "16777215 TB");
}

#[test]
fn text_helpers() {
    assert!(contains_text("Super Game (USA)", "Game"));
    assert!(!contains_text("Super Game (USA)", "game"));
    assert!(contains_text("abc", ""));
    assert!(!contains_text("ab", "abc"));
    assert!(eq_ignore_ascii_case("ZiP", "zip"));
    assert!(!eq_ignore_ascii_case("zip", "zips"));
    assert_eq!(to_ascii_lower("ABCdef09É"), "abcdef09É");
    assert!(contains_ignore_ascii_case("Super Game (USA)", "game (usa"));
    assert!(!contains_ignore_ascii_case("Super Game", "games"));
    assert!(is_hidden_name(".git"));
    assert!(!is_hidden_name("git"));
    assert!(!is_hidden_name(""));
}

#[test]
fn extensions_by_path() {
    let ex = vec!["m3u".to_string(), "dat".to_string(), "txt".to_string()];
    assert!(is_excluded("/a/readme.TXT", &ex));
    assert!(!is_excluded("/a/readme", &ex));
    assert!(!is_excluded("/a/.txt", &ex));
    assert!(is_zip_path("/a/b.ZIP"));
    assert!(!is_zip_path("/a/zip"));
    assert!(extension_listed("Dat", &ex));
    assert!(!extension_listed("bin", &ex));
}

#[test]
fn listing_filters_and_marks() {
    assert!(should_display_file_status(None, &ListMode::All));
    assert!(should_display_file_status(None, &ListMode::Unmatched));
    assert!(!should_display_file_status(None, &ListMode::Matched));
    assert!(should_display_file_status(Some(&MatchStatus::Hash), &ListMode::Warning));
    assert!(should_display_file_status(Some(&MatchStatus::Name), &ListMode::Warning));
    assert!(!should_display_file_status(Some(&MatchStatus::Name), &ListMode::Matched));
    assert!(should_display_file_status(Some(&MatchStatus::Match), &ListMode::Matched));
    assert!(!should_display_file_status(Some(&MatchStatus::Match), &ListMode::Unmatched));
    assert_eq!(format_file_indicator(None, false), "NONE");
    assert_eq!(format_file_indicator(Some(&MatchStatus::Name), false), "WARN");
    assert_eq!(format_file_indicator(Some(&MatchStatus::Match), false), " OK ");
    assert_eq!(format_file_indicator(Some(&MatchStatus::Match), true), "✅");
    assert_eq!(format_set_indicator(&SetStatus::Missing, true), "❌");
    assert_eq!(format_set_indicator(&SetStatus::Partial, false), "WARN");
    assert_eq!(format_set_indicator(&SetStatus::Complete, false), " OK ");
}

fn small_index() -> (Index, DatRecord, DirRecord) {
    let mut index = Index::new();
    let xml = "<datafile><header><name>X</name><description>d</description><version>1</version><author>a</author></header><game name=\"G\"><rom name=\"Right.bin\" size=\"0\" sha1=\"da39a3ee5e6b4b0d3255bfef95601890afd80709\"/></game></datafile>";
    let dat = rrm::catalog::import_dat(&mut index, xml).unwrap();
    let dir = DirRecord::insert(&mut index, &NewDir { dat_id: dat.id.clone(), path: "/roms".to_string(), parent_id: None }).unwrap();
    (index, dat, dir)
}

#[test]
fn status_lines() {
    let (mut index, dat, dir) = small_index();
    insert_files_and_matches(&mut index, &dat.id, &dir.id, "Wrong.bin", 0, "da39a3ee5e6b4b0d3255bfef95601890afd80709", &vec![]).unwrap();
    let file = index.files[0].clone();
    let m = index.matches[0].clone();
    let line = format_file_status(&index, &file, Some(&m), false).unwrap();
    assert_eq!(line, "[WARN] da39a3ee5e6b4b0d3255bfef95601890afd80709 Wrong.bin - incorrect name, should be named Right.bin");
    let none = format_file_status(&index, &file, None, false).unwrap();
    assert_eq!(none, "[NONE] da39a3ee5e6b4b0d3255bfef95601890afd80709 Wrong.bin - unknown file");
    let mut dangling = m.clone();
    dangling.rom_id = rrm::model::Id::new(4242);
    assert_eq!(format_file_status(&index, &file, Some(&dangling), false), Err(StoreError::NotFound));
}

#[test]
fn renames_pick_single_hash_matches() {
    let (mut index, dat, dir) = small_index();
    insert_files_and_matches(&mut index, &dat.id, &dir.id, "Wrong.bin", 0, "da39a3ee5e6b4b0d3255bfef95601890afd80709", &vec![]).unwrap();
    insert_files_and_matches(&mut index, &dat.id, &dir.id, "Unknown.bin", 0, "0000000000000000000000000000000000000000", &vec![]).unwrap();
    let candidates = rename_candidates(&index, &dir);
    assert_eq!(candidates.len(), 1);
    assert_eq!(candidates[0].name, "Wrong.bin");
    let plan = rename_plan(&index, &dat.id).unwrap();
    assert_eq!(plan.len(), 1);
    assert_eq!(plan[0].target, "Right.bin");
    assert_eq!(plan[0].dir_path, "/roms");
    let updated = plan[0].file_match.update(&mut index, &MatchStatus::Match).unwrap();
    assert_eq!(updated.status, MatchStatus::Match);
    assert_eq!(MatchRecord::get_by_file_status(&index, &plan[0].file.id, MatchStatus::Match).len(), 1);
    assert!(rename_plan(&index, &dat.id).unwrap().is_empty());
}

#[test]
fn store_lookups() {
    let (mut index, dat, dir) = small_index();
    assert!(DatRecord::get_by_id(&index, &dat.id).is_ok());
    assert_eq!(DatRecord::get_by_id(&index, &rrm::model::Id::new(99)).unwrap_err(), StoreError::NotFound);
    assert_eq!(SetRecord::find_by_name(&index, &dat.id, "G", false).len(), 1);
    assert_eq!(SetRecord::find_by_name(&index, &dat.id, "g", false).len(), 0);
    let dup = DirRecord::insert(&mut index, &NewDir { dat_id: dat.id.clone(), path: "/roms".to_string(), parent_id: None });
    assert_eq!(dup.unwrap_err(), StoreError::Conflict);
    let orphan = SetRecord::insert(&mut index, &rrm::model::NewSet { dat_id: rrm::model::Id::new(99), name: "x".to_string() });
    assert_eq!(orphan.unwrap_err(), StoreError::Backend);
    assert_eq!(DirRecord::get_by_path(&index, "/roms").len(), 1);
    assert!(DirRecord::get_by_dat_path(&index, &dat.id, "/other").is_none());
    insert_files_and_matches(&mut index, &dat.id, &dir.id, "a.bin", 0, "00", &vec![]).unwrap();
    insert_files_and_matches(&mut index, &dat.id, &dir.id, "b.bin", 0, "00", &vec![]).unwrap();
    assert_eq!(dir.find_files(&index, ".bin", false).len(), 2);
    assert_eq!(dir.find_files(&index, "a.bin", true).len(), 1);
    assert_eq!(dir.delete_files(&mut index), 2);
    assert!(dir.get_files(&index).is_empty());
    assert!(DirRecord::delete_by_id(&mut index, &dir.id));
    assert!(!DirRecord::delete_by_id(&mut index, &dir.id));
    assert!(!FileRecord::delete_by_id(&mut index, &rrm::model::Id::new(1)));
}
