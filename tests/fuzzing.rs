use prjoxide::bitstream::decode;
use prjoxide::chip::Chip;
use prjoxide::database::{Database, MergeConflict};
use prjoxide::fuzz::{value_count, FuzzError, FuzzKind, Fuzzer, TileOutcome};
use prjoxide::geometry::{DeviceGeometry, TileGeom};

fn tile(name: &str, tiletype: &str, col: usize, start_bit: usize) -> TileGeom {
    TileGeom {
        name: name.to_string(),
        tiletype: tiletype.to_string(),
        row: 0,
        col,
        start_frame: 0,
        start_bit,
        frames: 2,
        bits: 4,
    }
}

fn devices() -> Vec<DeviceGeometry> {
    vec![DeviceGeometry {
        idcode: 0x1234_5678,
        family: "LIFCL".to_string(),
        name: "LIFCL-T".to_string(),
        rows: 1,
        cols: 2,
        frames: 2,
        bits_per_frame: 8,
        tiles: vec![tile("R1C1:PLC", "PLC", 0, 0), tile("R1C2:CIB", "CIB", 1, 4)],
    }]
}

fn frame(cmd: u8, payload: &[u8]) -> Vec<u8> {
    let n = payload.len() as u32;
    let mut v = vec![cmd];
    v.extend_from_slice(&n.to_be_bytes());
    v.extend_from_slice(payload);
    v
}

/// A chip whose two configuration frames hold `f0` and `f1`. In tile PLC,
/// bit k of frame 0 is tile bit k and bit k of frame 1 is tile bit 4 + k;
/// tile CIB holds the last four bits of each frame the same way.
fn chip(f0: u8, f1: u8) -> Chip {
    let mut v = vec![0xFF, 0xFF, 0xBD, 0xB3];
    v.extend(frame(0xE2, &[0x12, 0x34, 0x56, 0x78]));
    v.extend(frame(0x80, &[f0, f1]));
    let devs = devices();
    let mut c = decode(&v, &devs).unwrap();
    c.cram_to_tiles(&devs[0]);
    c
}

fn db() -> Database {
    Database::new("db".to_string(), devices())
}

fn s(x: &str) -> String {
    x.to_string()
}

fn word_session(types: &[&str], width: usize) -> Fuzzer {
    let types: Vec<String> = types.iter().map(|t| s(t)).collect();
    Fuzzer::word_fuzzer(&chip(0, 0), &types, &s("MODE"), width, chip(0, 0)).unwrap()
}

fn pip_session(full_mux: bool) -> Fuzzer {
    Fuzzer::pip_fuzzer(chip(0, 0), &vec![s("CIB")], &s("D"), &s(""), full_mux, false).unwrap()
}

fn words(db: &Database) -> Vec<(usize, Vec<usize>)> {
    db.words.iter().map(|r| (r.value, r.bits.clone())).collect()
}

fn pips(db: &Database) -> Vec<(String, Vec<usize>)> {
    db.pips.iter().map(|r| (r.from_wire.clone(), r.bits.clone())).collect()
}

#[test]
fn word_fuzzer_width_two() {
    let mut fz = word_session(&["PLC"], 2);
    assert_eq!(fz.kind, FuzzKind::Word);
    assert_eq!(fz.tiles, vec![0]);
    // b1 is tile bit 0, b2 is tile bit 5.
    fz.add_word_sample(1, &chip(0x80, 0x00)).unwrap();
    fz.add_word_sample(2, &chip(0x00, 0x40)).unwrap();
    fz.add_word_sample(3, &chip(0x80, 0x40)).unwrap();
    let mut db = db();
    let report = fz.solve(&mut db);
    assert_eq!(report.outcomes, vec![TileOutcome::Committed]);
    assert_eq!(report.committed(), 1);
    assert_eq!(words(&db), vec![(0, vec![]), (1, vec![0]), (2, vec![5]), (3, vec![0, 5])]);
    let r = &db.words[2];
    assert_eq!((r.family.as_str(), r.tiletype.as_str(), r.word.as_str()), ("LIFCL", "PLC", "MODE"));
    let entry = db.word_entry(&s("LIFCL"), &s("PLC"), &s("MODE"));
    assert_eq!(entry, vec![0, 1, 2, 3]);
    assert!(db.word_entry(&s("LIFCL"), &s("CIB"), &s("MODE")).is_empty());
}

#[test]
fn solve_twice_is_idempotent() {
    let mut fz = word_session(&["PLC"], 2);
    fz.add_word_sample(1, &chip(0x80, 0x00)).unwrap();
    fz.add_word_sample(2, &chip(0x00, 0x40)).unwrap();
    fz.add_word_sample(3, &chip(0x80, 0x40)).unwrap();
    let mut db = db();
    let first = fz.solve(&mut db);
    let after_first = words(&db);
    let second = fz.solve(&mut db);
    assert_eq!(first.outcomes, second.outcomes);
    assert_eq!(words(&db), after_first);
}

#[test]
fn identical_diffs_are_ambiguous() {
    let mut fz = word_session(&["PLC"], 1);
    fz.add_word_sample(1, &chip(0x80, 0x00)).unwrap();
    fz.add_word_sample(0, &chip(0x80, 0x00)).unwrap();
    let mut db = db();
    let report = fz.solve(&mut db);
    assert_eq!(report.outcomes, vec![TileOutcome::EncodingAmbiguous { value: 1, other: 0 }]);
    assert!(db.words.is_empty());
}

#[test]
fn sample_without_change_leaves_tiles_unchanged() {
    let mut fz = word_session(&["PLC", "CIB"], 1);
    fz.add_word_sample(1, &chip(0x00, 0x00)).unwrap();
    let mut db = db();
    let report = fz.solve(&mut db);
    assert_eq!(report.outcomes, vec![TileOutcome::Unchanged, TileOutcome::Unchanged]);
    assert!(db.words.is_empty());
}

#[test]
fn untouched_tiles_are_skipped() {
    let mut fz = word_session(&["PLC", "CIB"], 1);
    fz.add_word_sample(1, &chip(0x80, 0x00)).unwrap();
    let mut db = db();
    let report = fz.solve(&mut db);
    assert_eq!(report.outcomes, vec![TileOutcome::Committed, TileOutcome::Unchanged]);
    assert_eq!(words(&db), vec![(0, vec![]), (1, vec![0])]);
}

#[test]
fn missing_value_is_incomplete() {
    let mut fz = word_session(&["PLC"], 2);
    fz.add_word_sample(1, &chip(0x80, 0x00)).unwrap();
    fz.add_word_sample(3, &chip(0x80, 0x40)).unwrap();
    let mut db = db();
    let report = fz.solve(&mut db);
    assert_eq!(report.outcomes, vec![TileOutcome::IncompleteCoverage { missing_value: 2 }]);
    assert!(db.words.is_empty());
    fz.add_word_sample(2, &chip(0x00, 0x40)).unwrap();
    let report = fz.solve(&mut db);
    assert_eq!(report.outcomes, vec![TileOutcome::Committed]);
    assert_eq!(db.words.len(), 4);
}

#[test]
fn word_result_contradicting_database() {
    let mut db = db();
    db.merge_word(&s("LIFCL"), &s("PLC"), &s("MODE"), &vec![(1, vec![5])]).unwrap();
    let mut fz = word_session(&["PLC"], 1);
    fz.add_word_sample(1, &chip(0x80, 0x00)).unwrap();
    let report = fz.solve(&mut db);
    assert_eq!(
        report.outcomes,
        vec![TileOutcome::AliasConflict { conflict: MergeConflict::WordAlias { value: 1, other: 1 } }]
    );
    assert_eq!(words(&db), vec![(1, vec![5])]);
}

#[test]
fn word_sample_errors() {
    let mut fz = word_session(&["PLC"], 2);
    assert_eq!(fz.add_word_sample(4, &chip(0, 0)), Err(FuzzError::IndexOutOfRange));
    assert_eq!(fz.add_pip_sample(&s("A"), &chip(0, 0)), Err(FuzzError::WrongKind));
    let mut other = chip(0, 0);
    other.tiles.pop();
    assert_eq!(fz.add_word_sample(1, &other), Err(FuzzError::LayoutMismatch));
    assert!(fz.word_samples.is_empty());
    fz.add_word_sample(3, &chip(0x80, 0x00)).unwrap();
    assert_eq!(fz.word_samples[0].diffs, vec![vec![0]]);
}

#[test]
fn session_errors() {
    let types = vec![s("PLC"), s("EBR")];
    let r = Fuzzer::word_fuzzer(&chip(0, 0), &types, &s("MODE"), 1, chip(0, 0));
    assert_eq!(r.err(), Some(FuzzError::UnknownTileType(s("EBR"))));
    let r = Fuzzer::word_fuzzer(&chip(0, 0), &vec![s("PLC")], &s("MODE"), 64, chip(0, 0));
    assert_eq!(r.err(), Some(FuzzError::WidthTooLarge));
    let mut zero = chip(0, 0);
    zero.tiles[1].tiletype = s("EBR");
    let r = Fuzzer::word_fuzzer(&chip(0, 0), &vec![s("PLC")], &s("MODE"), 1, zero);
    assert_eq!(r.err(), Some(FuzzError::LayoutMismatch));
    let r = Fuzzer::pip_fuzzer(chip(0, 0), &types, &s("D"), &s(""), false, false);
    assert_eq!(r.err(), Some(FuzzError::UnknownTileType(s("EBR"))));
}

#[test]
fn value_counts() {
    assert_eq!(value_count(0), Some(1));
    assert_eq!(value_count(3), Some(8));
    assert_eq!(value_count(63), Some(1u64 << 63));
    assert_eq!(value_count(64), None);
}

#[test]
fn pip_fuzzer_commits_disjoint_sources() {
    let mut fz = pip_session(false);
    assert_eq!(fz.tiles, vec![1]);
    // p1 is CIB tile bit 1, p2 is CIB tile bit 6.
    fz.add_pip_sample(&s("A"), &chip(0x04, 0x00)).unwrap();
    fz.add_pip_sample(&s("B"), &chip(0x00, 0x02)).unwrap();
    let mut db = db();
    let report = fz.solve(&mut db);
    assert_eq!(report.outcomes, vec![TileOutcome::Committed]);
    assert_eq!(pips(&db), vec![(s("A"), vec![1]), (s("B"), vec![6])]);
    assert_eq!(db.pip_entry(&s("LIFCL"), &s("CIB"), &s("D")), vec![0, 1]);
    assert_eq!(db.pips[0].to_wire, "D");
}

#[test]
fn pip_overlap_commits_nothing() {
    let mut fz = pip_session(false);
    fz.add_pip_sample(&s("A"), &chip(0x04, 0x00)).unwrap();
    fz.add_pip_sample(&s("B"), &chip(0x00, 0x02)).unwrap();
    fz.add_pip_sample(&s("C"), &chip(0x04, 0x00)).unwrap();
    let mut db = db();
    let report = fz.solve(&mut db);
    assert_eq!(
        report.outcomes,
        vec![TileOutcome::PipOverlapConflict { from_wire: s("A"), other_wire: s("C") }]
    );
    assert!(db.pips.is_empty());
    assert_eq!(report.committed(), 0);
}

#[test]
fn pip_full_mux_reports_unsampled_source() {
    let mut db = db();
    db.merge_pip(&s("LIFCL"), &s("CIB"), &s("D"), &vec![(s("E"), vec![3])]).unwrap();
    let mut fz = pip_session(true);
    fz.add_pip_sample(&s("A"), &chip(0x04, 0x00)).unwrap();
    let report = fz.solve(&mut db);
    assert_eq!(report.outcomes, vec![TileOutcome::CommittedIncomplete { source: s("E") }]);
    assert_eq!(pips(&db), vec![(s("E"), vec![3]), (s("A"), vec![1])]);
}

#[test]
fn pip_skip_fixed_leaves_tile_out() {
    let fz = Fuzzer::pip_fuzzer(chip(0, 0), &vec![s("CIB"), s("PLC")], &s("D"), &s("R1C2:CIB"), false, true)
        .unwrap();
    assert_eq!(fz.tiles, vec![0]);
    let fz = Fuzzer::pip_fuzzer(chip(0, 0), &vec![s("CIB"), s("PLC")], &s("D"), &s("R1C2:CIB"), false, false)
        .unwrap();
    assert_eq!(fz.tiles, vec![0, 1]);
}

#[test]
fn pip_sample_errors() {
    let mut fz = pip_session(false);
    assert_eq!(fz.add_word_sample(0, &chip(0, 0)), Err(FuzzError::WrongKind));
    let mut other = chip(0, 0);
    other.tiles[0].cram.push(false);
    assert_eq!(fz.add_pip_sample(&s("A"), &other), Err(FuzzError::LayoutMismatch));
    assert!(fz.pip_samples.is_empty());
}
