use prjoxide::database::Database;
use prjoxide::store::{decode_tables, encode_tables};

fn s(x: &str) -> String {
    x.to_string()
}

fn sample_db() -> Database {
    let mut db = Database::new(s("root"), Vec::new());
    db.merge_word(&s("LIFCL"), &s("PLC"), &s("MODE"), &vec![(0, vec![]), (1, vec![3, 70000])]).unwrap();
    db.merge_pip(&s("LIFCL"), &s("CIB"), &s("D"), &vec![(s("Ä→B"), vec![1]), (s("C"), vec![2, 4])]).unwrap();
    db
}

#[test]
fn database_bytes_round_trip() {
    let db = sample_db();
    let bytes = db.to_bytes();
    let back = Database::from_bytes(s("other"), Vec::new(), &bytes).unwrap();
    assert_eq!(back.root, "other");
    assert_eq!(back.words.len(), 2);
    assert_eq!(back.words[1].word, "MODE");
    assert_eq!(back.words[1].value, 1);
    assert_eq!(back.words[1].bits, vec![3, 70000]);
    assert_eq!(back.pips.len(), 2);
    assert_eq!(back.pips[0].from_wire, "Ä→B");
    assert_eq!(back.pips[1].bits, vec![2, 4]);
    assert_eq!(back.to_bytes(), bytes);
}

#[test]
fn encoding_layout() {
    let db = Database::new(s("r"), Vec::new());
    assert_eq!(db.to_bytes(), vec![0u8; 16]);
    let mut db = Database::new(s("r"), Vec::new());
    db.merge_word(&s("F"), &s("T"), &s("W"), &vec![(2, vec![5])]).unwrap();
    let mut expected: Vec<u8> = vec![0, 0, 0, 0, 0, 0, 0, 1];
    for name in ["F", "T", "W"] {
        expected.extend_from_slice(&[0, 0, 0, 0, 0, 0, 0, 1]);
        expected.extend_from_slice(name.as_bytes());
    }
    expected.extend_from_slice(&[0, 0, 0, 0, 0, 0, 0, 2]);
    expected.extend_from_slice(&[0, 0, 0, 0, 0, 0, 0, 1]);
    expected.extend_from_slice(&[0, 0, 0, 0, 0, 0, 0, 5]);
    expected.extend_from_slice(&[0u8; 8]);
    assert_eq!(db.to_bytes(), expected);
}

#[test]
fn corrupt_bytes_are_refused() {
    let bytes = sample_db().to_bytes();
    let mut longer = bytes.clone();
    longer.push(0);
    assert!(Database::from_bytes(s("r"), Vec::new(), &longer).is_none());
    let shorter = bytes[..bytes.len() - 1].to_vec();
    assert!(Database::from_bytes(s("r"), Vec::new(), &shorter).is_none());
    assert!(decode_tables(&vec![]).is_none());
}

#[test]
fn invalid_utf8_is_refused() {
    let mut bytes: Vec<u8> = vec![0, 0, 0, 0, 0, 0, 0, 1];
    bytes.extend_from_slice(&[0, 0, 0, 0, 0, 0, 0, 1, 0xFF]);
    bytes.extend_from_slice(&[0, 0, 0, 0, 0, 0, 0, 1, b'T']);
    bytes.extend_from_slice(&[0, 0, 0, 0, 0, 0, 0, 1, b'W']);
    bytes.extend_from_slice(&[0u8; 16]);
    bytes.extend_from_slice(&[0u8; 8]);
    assert!(decode_tables(&bytes).is_none());
    bytes[16] = b'F';
    assert!(decode_tables(&bytes).is_some());
}

#[test]
fn tables_breaking_the_invariant_are_refused() {
    let mut db = sample_db();
    let bits = db.words[1].bits.clone();
    db.words[0].bits = bits;
    let (w, p) = decode_tables(&encode_tables(&db.words, &db.pips)).unwrap();
    assert_eq!(w.len(), 2);
    assert_eq!(p.len(), 2);
    assert!(Database::from_bytes(s("r"), Vec::new(), &db.to_bytes()).is_none());
    let mut db = sample_db();
    db.pips[1].bits = vec![4, 2];
    assert!(Database::from_bytes(s("r"), Vec::new(), &db.to_bytes()).is_none());
}
