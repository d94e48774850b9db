use rrm::catalog::import_dat;
use rrm::hashing::calc_hash;
use rrm::matcher::{match_exact, match_hashes, match_names, match_roms};
use rrm::model::{DatRecord, FileRecord, Id, MatchRecord, MatchStatus, RomRecord, SetId};
use rrm::scanner::{entry_action, insert_files_and_matches, match_sets, scan_zip_file, ArchiveMember, DirScan, EntryAction, ScanError};
use rrm::store::{Index, StoreError};

const SHA_EMPTY: &str = "da39a3ee5e6b4b0d3255bfef95601890afd80709";
const SHA_ABC: &str = "a9993e364706816aba3e25717850c26c9cd0d89d";
const ZEROS: &str = "0000000000000000000000000000000000000000";

fn catalog(games: &str) -> (Index, DatRecord) {
    let mut index = Index::new();
    let xml = format!(
        "<datafile><header><name>X</name><description>d</description><version>1</version><author>a</author></header>{games}</datafile>"
    );
    let dat = import_dat(&mut index, &xml).expect("imports");
    (index, dat)
}

fn single_rom_catalog() -> (Index, DatRecord) {
    catalog(&format!("<game name=\"G\"><rom name=\"R.bin\" size=\"3\" sha1=\"{SHA_EMPTY}\"/></game>"))
}

/// Scans one flat directory whose files have the given names, sizes and hashes.
fn scan_dir(index: &mut Index, dat: &DatRecord, path: &str, files: &[(&str, u64, &str)], incremental: bool) -> u64 {
    let mut scan = DirScan::begin(index, &dat.id, path, None, incremental).expect("dir recorded");
    let names: Vec<String> = files.iter().map(|(n, _, _)| n.to_string()).collect();
    let count = scan.record_files(index, &dat.id, &names, |name| {
        files.iter().find(|(n, _, _)| *n == name).map(|(_, size, hash)| (*size, hash.to_string()))
    });
    let still = vec![true; scan.pending_dirs.len()];
    scan.finish(index, &dat.id, &still);
    count
}

/// The same scan, one file at a time.
fn scan_dir_by_steps(index: &mut Index, dat: &DatRecord, path: &str, files: &[(&str, u64, &str)], incremental: bool) -> u64 {
    let mut scan = DirScan::begin(index, &dat.id, path, None, incremental).expect("dir recorded");
    let mut count = 0;
    for (name, size, hash) in files {
        if scan.note_file_seen(name) {
            insert_files_and_matches(index, &dat.id, &scan.dir.id, name, *size, hash, &Vec::new()).expect("file recorded");
            count += 1;
        }
    }
    let still = vec![true; scan.pending_dirs.len()];
    scan.finish(index, &dat.id, &still);
    count
}

fn statuses(index: &Index, file: &FileRecord) -> Vec<MatchStatus> {
    MatchRecord::get_by_file(index, &file.id).iter().map(|m| m.status).collect()
}

#[test]
fn single_exact_match() {
    let (mut index, dat) = single_rom_catalog();
    scan_dir(&mut index, &dat, "/roms", &[("R.bin", 3, SHA_EMPTY)], true);
    assert_eq!(index.files.len(), 1);
    assert_eq!(index.matches.len(), 1);
    assert_eq!(index.matches[0].status, MatchStatus::Match);
    let rom = RomRecord::get_by_id(&index, &index.matches[0].rom_id).unwrap();
    assert_eq!(rom.size, index.files[0].size);
    assert_eq!(rom.hash, index.files[0].hash);
}

#[test]
fn name_only_mismatch() {
    let (mut index, dat) = single_rom_catalog();
    scan_dir(&mut index, &dat, "/roms", &[("R.bin", 3, ZEROS)], true);
    assert_eq!(index.files.len(), 1);
    assert_eq!(statuses(&index, &index.files[0]), vec![MatchStatus::Name]);
}

#[test]
fn hash_only_mismatch() {
    let (mut index, dat) = single_rom_catalog();
    scan_dir(&mut index, &dat, "/roms", &[("Other.bin", 3, SHA_EMPTY)], true);
    assert_eq!(index.files.len(), 1);
    assert_eq!(statuses(&index, &index.files[0]), vec![MatchStatus::Hash]);
}

#[test]
fn unknown_file_has_no_match() {
    let (mut index, dat) = single_rom_catalog();
    scan_dir(&mut index, &dat, "/roms", &[("Other.bin", 3, ZEROS)], true);
    assert_eq!(index.files.len(), 1);
    assert!(index.matches.is_empty());
}

#[test]
fn exact_match_needs_the_size_too() {
    let (mut index, dat) = single_rom_catalog();
    scan_dir(&mut index, &dat, "/roms", &[("R.bin", 4, SHA_EMPTY)], true);
    assert_eq!(statuses(&index, &index.files[0]), vec![MatchStatus::Hash]);
}

#[test]
fn real_bytes_match_exactly() {
    let (mut index, dat) = catalog(&format!("<game name=\"G\"><rom name=\"abc.bin\" size=\"3\" sha1=\"{SHA_ABC}\"/></game>"));
    let (hash, size) = calc_hash(b"abc");
    scan_dir(&mut index, &dat, "/roms", &[("abc.bin", size, &hash)], false);
    assert_eq!(statuses(&index, &index.files[0]), vec![MatchStatus::Match]);
}

#[test]
fn zip_restriction() {
    let g2_hash = "1111111111111111111111111111111111111111";
    let (mut index, dat) = catalog(&format!(
        "<game name=\"G1\"><rom name=\"R.bin\" size=\"3\" sha1=\"{ZEROS}\"/></game><game name=\"G2\"><rom name=\"R.bin\" size=\"3\" sha1=\"{g2_hash}\"/></game>"
    ));
    let g1 = rrm::model::SetRecord::find_by_name(&index, &dat.id, "G1", true)[0].clone();
    let top = DirScan::begin(&mut index, &dat.id, "/roms", None, false).unwrap();
    let members = vec![ArchiveMember { name: "R.bin".to_string(), size: 3, hash: g2_hash.to_string() }];
    let n = scan_zip_file(&mut index, &dat.id, "/roms/G1.zip", false, &vec![], &top.dir.id, &members).unwrap();
    assert_eq!(n, 1);
    assert_eq!(index.files.len(), 1);
    assert_eq!(index.matches.len(), 1);
    assert_eq!(index.matches[0].status, MatchStatus::Name);
    assert_eq!(index.matches[0].set_id, g1.id);
}

#[test]
fn archive_dirs_keep_their_id_and_parent() {
    let (mut index, dat) = single_rom_catalog();
    let top = DirScan::begin(&mut index, &dat.id, "/roms", None, false).unwrap();
    let members = vec![ArchiveMember { name: "R.bin".to_string(), size: 3, hash: SHA_EMPTY.to_string() }];
    scan_zip_file(&mut index, &dat.id, "/roms/G.zip", false, &vec![], &top.dir.id, &members).unwrap();
    let zip_dir = rrm::model::DirRecord::get_by_dat_path(&index, &dat.id, "/roms/G.zip").unwrap();
    assert_eq!(zip_dir.parent_id, Some(top.dir.id.clone()));
    assert_eq!(index.matches.len(), 1);
    assert_eq!(index.matches[0].status, MatchStatus::Match);
    let n = scan_zip_file(&mut index, &dat.id, "/roms/G.zip", false, &vec![], &top.dir.id, &members).unwrap();
    assert_eq!(n, 1);
    let again = rrm::model::DirRecord::get_by_dat_path(&index, &dat.id, "/roms/G.zip").unwrap();
    assert_eq!(again.id, zip_dir.id);
    assert_eq!(index.files.len(), 1);
    assert_eq!(index.matches.len(), 1);
}

#[test]
fn new_subdir_hangs_under_its_parent() {
    let (mut index, dat) = single_rom_catalog();
    let top = DirScan::begin(&mut index, &dat.id, "/roms", None, true).unwrap();
    assert_eq!(top.dir.parent_id, None);
    let sub = DirScan::begin(&mut index, &dat.id, "/roms/sub", Some(&top.dir.id), true).unwrap();
    assert_eq!(sub.dir.parent_id, Some(top.dir.id.clone()));
}

#[test]
fn incremental_scan_keeps_child_dirs_still_on_disk() {
    let (mut index, dat) = single_rom_catalog();
    let top = DirScan::begin(&mut index, &dat.id, "/roms", None, true).unwrap();
    let sub = DirScan::begin(&mut index, &dat.id, "/roms/sub", Some(&top.dir.id), true).unwrap();
    insert_files_and_matches(&mut index, &dat.id, &sub.dir.id, "R.bin", 3, SHA_EMPTY, &Vec::new()).unwrap();
    sub.finish(&mut index, &dat.id, &vec![]);
    top.finish(&mut index, &dat.id, &vec![]);
    let files = format!("{:?}", index.files);
    let matches = format!("{:?}", index.matches);
    let again = DirScan::begin(&mut index, &dat.id, "/roms", None, true).unwrap();
    again.finish(&mut index, &dat.id, &vec![true]);
    assert_eq!(index.dirs.len(), 2);
    assert_eq!(format!("{:?}", index.files), files);
    assert_eq!(format!("{:?}", index.matches), matches);
}

#[test]
fn archive_sets_come_from_the_file_prefix() {
    let (index, dat) = catalog("<game name=\"G1\"/><game name=\"G1.x\"/>");
    let sets = match_sets(&index, &dat.id, "/roms/G1.x.zip").unwrap();
    assert_eq!(sets.len(), 1);
    assert_eq!(sets[0], index.sets[0].id);
}

#[test]
fn archive_members_excluded_by_extension() {
    let (mut index, dat) = single_rom_catalog();
    let top = DirScan::begin(&mut index, &dat.id, "/roms", None, false).unwrap();
    let members = vec![
        ArchiveMember { name: "R.bin".to_string(), size: 3, hash: SHA_EMPTY.to_string() },
        ArchiveMember { name: "readme.TXT".to_string(), size: 1, hash: ZEROS.to_string() },
    ];
    let exclude = vec!["txt".to_string()];
    let n = scan_zip_file(&mut index, &dat.id, "/roms/G.zip", false, &exclude, &top.dir.id, &members).unwrap();
    assert_eq!(n, 1);
    assert_eq!(index.files.len(), 1);
    assert_eq!(index.files[0].name, "R.bin");
    let again = scan_zip_file(&mut index, &dat.id, "/roms/G.zip", true, &exclude, &top.dir.id, &members).unwrap();
    assert_eq!(again, 0);
    assert_eq!(index.files.len(), 1);
}

#[test]
fn failed_archive_is_rolled_back() {
    let (mut index, dat) = single_rom_catalog();
    let top = DirScan::begin(&mut index, &dat.id, "/roms", None, false).unwrap();
    let members = vec![
        ArchiveMember { name: "R.bin".to_string(), size: 3, hash: SHA_EMPTY.to_string() },
        ArchiveMember { name: "R.bin".to_string(), size: 3, hash: SHA_EMPTY.to_string() },
    ];
    let dirs_before = index.dirs.len();
    let r = scan_zip_file(&mut index, &dat.id, "/roms/G.zip", false, &vec![], &top.dir.id, &members);
    assert_eq!(r, Err(ScanError::Store(StoreError::Conflict)));
    assert_eq!(index.dirs.len(), dirs_before);
    assert!(index.files.is_empty());
    assert!(index.matches.is_empty());
}

#[test]
fn incremental_delete() {
    let (mut index, dat) = single_rom_catalog();
    scan_dir(&mut index, &dat, "/roms", &[("a", 1, ZEROS), ("b", 1, SHA_EMPTY)], true);
    assert_eq!(index.files.len(), 2);
    assert_eq!(index.matches.len(), 1);
    let a_id = FileRecord::find_by_name(&index, &index.dirs[0].id, "a", true)[0].id.clone();
    let hashed = scan_dir(&mut index, &dat, "/roms", &[("a", 1, ZEROS)], true);
    assert_eq!(hashed, 0);
    assert_eq!(index.files.len(), 1);
    assert_eq!(index.files[0].name, "a");
    assert_eq!(index.files[0].id, a_id);
    assert!(index.matches.is_empty());
}

#[test]
fn stepwise_scan_agrees_with_record_files() {
    let listing = [("R.bin", 3, SHA_EMPTY), ("x", 1, ZEROS)];
    let (mut a, dat_a) = single_rom_catalog();
    let (mut b, dat_b) = single_rom_catalog();
    assert_eq!(scan_dir(&mut a, &dat_a, "/roms", &listing, true), 2);
    assert_eq!(scan_dir_by_steps(&mut b, &dat_b, "/roms", &listing, true), 2);
    assert_eq!(format!("{:?}", a.files), format!("{:?}", b.files));
    assert_eq!(format!("{:?}", a.matches), format!("{:?}", b.matches));
    assert_eq!(scan_dir_by_steps(&mut b, &dat_b, "/roms", &listing, true), 0);
    assert_eq!(format!("{:?}", a.files), format!("{:?}", b.files));
}

#[test]
fn unreadable_files_are_left_out() {
    let (mut index, dat) = single_rom_catalog();
    let mut scan = DirScan::begin(&mut index, &dat.id, "/roms", None, false).unwrap();
    let names = vec!["R.bin".to_string(), "gone".to_string()];
    let n = scan.record_files(&mut index, &dat.id, &names, |name| if name == "R.bin" { Some((3, SHA_EMPTY.to_string())) } else { None });
    assert_eq!(n, 1);
    assert_eq!(index.files.len(), 1);
    assert_eq!(index.files[0].name, "R.bin");
}

#[test]
fn incremental_rescan_is_idempotent() {
    let (mut index, dat) = single_rom_catalog();
    let listing = [("R.bin", 3, SHA_EMPTY), ("x", 1, ZEROS), ("Other.bin", 3, SHA_EMPTY)];
    scan_dir(&mut index, &dat, "/roms", &listing, true);
    let files = format!("{:?}", index.files);
    let matches = format!("{:?}", index.matches);
    let hashed = scan_dir(&mut index, &dat, "/roms", &listing, true);
    assert_eq!(hashed, 0);
    assert_eq!(format!("{:?}", index.files), files);
    assert_eq!(format!("{:?}", index.matches), matches);
}

fn names(index: &Index) -> Vec<String> {
    let mut v: Vec<String> = index.files.iter().map(|f| f.name.clone()).collect();
    v.sort();
    v
}

#[test]
fn full_rescan_matches_a_fresh_scan() {
    let (mut index, dat) = single_rom_catalog();
    scan_dir(&mut index, &dat, "/roms", &[("a", 1, ZEROS), ("b", 1, ZEROS)], true);
    let listing = [("b", 2, ZEROS), ("c", 3, SHA_EMPTY)];
    scan_dir(&mut index, &dat, "/roms", &listing, false);
    let (mut fresh, fresh_dat) = single_rom_catalog();
    scan_dir(&mut fresh, &fresh_dat, "/roms", &listing, false);
    assert_eq!(names(&index), names(&fresh));
    assert_eq!(names(&index), vec!["b".to_string(), "c".to_string()]);
    let b = FileRecord::find_by_name(&index, &index.dirs[0].id, "b", true);
    assert_eq!(b[0].size, 2);
}

#[test]
fn full_rescan_drops_vanished_files() {
    let (mut index, dat) = single_rom_catalog();
    scan_dir(&mut index, &dat, "/roms", &[("a", 1, ZEROS), ("R.bin", 3, SHA_EMPTY)], false);
    scan_dir(&mut index, &dat, "/roms", &[("a", 1, ZEROS)], false);
    assert!(FileRecord::find_by_name(&index, &index.dirs[0].id, "R.bin", true).is_empty());
    assert!(index.matches.is_empty());
}

#[test]
fn vanished_child_dirs_are_removed() {
    let (mut index, dat) = single_rom_catalog();
    let top = DirScan::begin(&mut index, &dat.id, "/roms", None, true).unwrap();
    let sub = DirScan::begin(&mut index, &dat.id, "/roms/sub", Some(&top.dir.id), true).unwrap();
    insert_files_and_matches(&mut index, &dat.id, &sub.dir.id, "R.bin", 3, SHA_EMPTY, &Vec::new()).unwrap();
    sub.finish(&mut index, &dat.id, &vec![]);
    top.finish(&mut index, &dat.id, &vec![]);
    assert_eq!(index.dirs.len(), 2);
    let again = DirScan::begin(&mut index, &dat.id, "/roms", None, true).unwrap();
    assert_eq!(again.pending_dirs, vec!["/roms/sub".to_string()]);
    again.finish(&mut index, &dat.id, &vec![false]);
    assert_eq!(index.dirs.len(), 1);
    assert!(index.files.is_empty());
    assert!(index.matches.is_empty());
}

#[test]
fn entries_are_classified() {
    let ex = vec!["m3u".to_string(), "dat".to_string(), "txt".to_string()];
    assert_eq!(entry_action("/r/.hidden", ".hidden", false, true, true, &ex), EntryAction::Skip);
    assert_eq!(entry_action("/r/sub", "sub", true, false, true, &ex), EntryAction::Recurse);
    assert_eq!(entry_action("/r/sub", "sub", true, false, false, &ex), EntryAction::Skip);
    assert_eq!(entry_action("/r/list.M3U", "list.M3U", false, true, true, &ex), EntryAction::Skip);
    assert_eq!(entry_action("/r/G.Zip", "G.Zip", false, true, true, &ex), EntryAction::Archive);
    assert_eq!(entry_action("/r/R.bin", "R.bin", false, true, true, &ex), EntryAction::File);
    assert_eq!(entry_action("/r/noext", "noext", false, true, true, &ex), EntryAction::File);
}

#[test]
fn matcher_steps_on_their_own() {
    let (index, dat) = catalog(&format!(
        "<game name=\"G1\"><rom name=\"R.bin\" size=\"3\" sha1=\"{SHA_EMPTY}\"/></game><game name=\"G2\"><rom name=\"R.bin\" size=\"3\" sha1=\"{SHA_EMPTY}\"/></game>"
    ));
    let named = RomRecord::find_by_name(&index, &dat.id, "R.bin", true);
    assert_eq!(named.len(), 2);
    let g2: SetId = named[1].set_id.clone();
    let exact = match_exact(3, SHA_EMPTY, &vec![g2.clone()], &named).unwrap();
    assert_eq!(exact.len(), 1);
    assert_eq!(exact[0].set_id, g2);
    assert!(match_exact(4, SHA_EMPTY, &vec![], &named).is_none());
    assert_eq!(match_names(&vec![], &named).unwrap().len(), 2);
    assert!(match_hashes(&vec![Id::new(12345)], &named).is_none());
    let all = match_roms(&index, &dat.id, "R.bin", 3, SHA_EMPTY, &vec![]).unwrap();
    assert_eq!(all.len(), 2);
    assert!(all.iter().all(|m| m.status == MatchStatus::Match));
}

#[test]
fn duplicate_file_is_a_conflict() {
    let (mut index, dat) = single_rom_catalog();
    let scan = DirScan::begin(&mut index, &dat.id, "/roms", None, true).unwrap();
    insert_files_and_matches(&mut index, &dat.id, &scan.dir.id, "a", 1, ZEROS, &Vec::new()).unwrap();
    let r = insert_files_and_matches(&mut index, &dat.id, &scan.dir.id, "a", 1, ZEROS, &Vec::new());
    assert_eq!(r, Err(StoreError::Conflict));
    let r = insert_files_and_matches(&mut index, &dat.id, &Id::new(777), "b", 1, ZEROS, &Vec::new());
    assert_eq!(r, Err(StoreError::Backend));
}
