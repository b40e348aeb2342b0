use prjoxide::bits::{bits_overlap, check_bitset, copy_bits, diff, same_bits};
use prjoxide::database::{Database, MergeConflict};

fn s(x: &str) -> String {
    x.to_string()
}

fn db() -> Database {
    Database::new(s("root"), Vec::new())
}

#[test]
fn merge_word_appends_new_values() {
    let mut db = db();
    assert_eq!(db.merge_word(&s("F"), &s("T"), &s("W"), &vec![(0, vec![]), (1, vec![2])]), Ok(()));
    assert_eq!(db.merge_word(&s("F"), &s("T"), &s("W"), &vec![(1, vec![2]), (2, vec![3])]), Ok(()));
    let got: Vec<(usize, Vec<usize>)> = db.words.iter().map(|r| (r.value, r.bits.clone())).collect();
    assert_eq!(got, vec![(0, vec![]), (1, vec![2]), (2, vec![3])]);
    assert_eq!(db.root, "root");
}

#[test]
fn merge_word_twice_changes_nothing() {
    let mut db = db();
    let vals = vec![(0, vec![]), (1, vec![2, 4])];
    db.merge_word(&s("F"), &s("T"), &s("W"), &vals).unwrap();
    db.merge_word(&s("F"), &s("T"), &s("W"), &vals).unwrap();
    assert_eq!(db.words.len(), 2);
}

#[test]
fn merge_word_alias_conflict() {
    let mut db = db();
    db.merge_word(&s("F"), &s("T"), &s("W"), &vec![(1, vec![2])]).unwrap();
    assert_eq!(
        db.merge_word(&s("F"), &s("T"), &s("W"), &vec![(3, vec![4]), (2, vec![2])]),
        Err(MergeConflict::WordAlias { value: 2, other: 1 })
    );
    assert_eq!(db.words.len(), 1);
    // The same bits under another word or tile type are no alias.
    db.merge_word(&s("F"), &s("T"), &s("X"), &vec![(2, vec![2])]).unwrap();
    db.merge_word(&s("F"), &s("U"), &s("W"), &vec![(2, vec![2])]).unwrap();
    assert_eq!(db.words.len(), 3);
}

#[test]
fn merge_word_conflicts_within_result() {
    let mut db = db();
    assert_eq!(
        db.merge_word(&s("F"), &s("T"), &s("W"), &vec![(1, vec![2]), (1, vec![3])]),
        Err(MergeConflict::WordAlias { value: 1, other: 1 })
    );
    assert!(db.words.is_empty());
}

#[test]
fn merge_pip_overlap_conflict() {
    let mut db = db();
    db.merge_pip(&s("F"), &s("T"), &s("D"), &vec![(s("A"), vec![1, 2])]).unwrap();
    assert_eq!(
        db.merge_pip(&s("F"), &s("T"), &s("D"), &vec![(s("B"), vec![2, 3])]),
        Err(MergeConflict::PipOverlap { from_wire: s("B"), other_wire: s("A") })
    );
    assert_eq!(
        db.merge_pip(&s("F"), &s("T"), &s("D"), &vec![(s("A"), vec![1])]),
        Err(MergeConflict::PipOverlap { from_wire: s("A"), other_wire: s("A") })
    );
    db.merge_pip(&s("F"), &s("T"), &s("D"), &vec![(s("B"), vec![3]), (s("A"), vec![1, 2])]).unwrap();
    assert_eq!(db.pips.len(), 2);
    assert_eq!(db.pip_entry(&s("F"), &s("T"), &s("D")), vec![0, 1]);
}

#[test]
fn bit_set_helpers() {
    assert_eq!(diff(&vec![true, false, true], &vec![false, false, false]), vec![0, 2]);
    assert!(same_bits(&vec![1, 2], &vec![1, 2]));
    assert!(!same_bits(&vec![1, 2], &vec![1]));
    assert!(bits_overlap(&vec![1, 5], &vec![5, 9]));
    assert!(!bits_overlap(&vec![1, 5], &vec![]));
    assert!(check_bitset(&vec![0, 3, 7]));
    assert!(!check_bitset(&vec![3, 3]));
    assert_eq!(copy_bits(&vec![4, 8]), vec![4, 8]);
}
