use rubiks::algorithm::Alg;
use rubiks::face::Face;
use rubiks::position::Pos;
use rubiks::support::Tern;
use rubiks::tables::load1;
use rubiks::tables::load1_composite;
use rubiks::tables::load2;
use rubiks::tables::LoadError;

fn lines(text: &[&str]) -> Vec<Vec<u8>> {
    text.iter().map(|l| l.as_bytes().to_vec()).collect()
}

fn alg(s: &str) -> Alg {
    Alg::parse(s.as_bytes()).expect("notation must parse")
}

#[test]
fn test_tern_eval() {
    let tern: Tern<u8, u8> = Tern::new(vec![(1, 10), (2, 20), (1, 99)], 7);
    assert_eq!(*tern.eval(&1), 10);
    assert_eq!(*tern.eval(&2), 20);
    assert_eq!(*tern.eval(&5), 7);
    assert_eq!(tern.eval_owned(2), 20);
}

#[test]
fn test_load1_basic() {
    let table = load1(&lines(&[
        "// cross data",
        "05:\"\"",
        "15:\"L'\"",
        "51:01\"U' F U\"05\"F L' F'\"\"F' L'\"",
        "///",
        "15:\"this line is never read\"",
    ]))
    .expect("well-formed data must load");
    assert_eq!(table.len(), 3);
    let key = Pos([Face::new(1), Face::new(5)]);
    let tern = table.lookup(key).expect("key 15 is present");
    match tern {
        Tern::End(a) => assert_eq!(*a, alg("L'")),
        Tern::Con(_, _, _) => panic!("entry 15 has no conditions"),
    }
    let conditional = table.lookup(Pos([Face::new(5), Face::new(1)])).expect("key 51 is present");
    match conditional {
        Tern::Con(cond, a, rest) => {
            assert_eq!(cond.len(), 1);
            assert_eq!(cond[0], Pos([Face::new(0), Face::new(1)]));
            assert_eq!(*a, alg("U' F U"));
            match &**rest {
                Tern::Con(cond2, a2, rest2) => {
                    assert_eq!(cond2[0], Pos([Face::new(0), Face::new(5)]));
                    assert_eq!(*a2, alg("F L' F'"));
                    match &**rest2 {
                        Tern::End(d) => assert_eq!(*d, alg("F' L'")),
                        Tern::Con(_, _, _) => panic!("default must end the list"),
                    }
                }
                Tern::End(_) => panic!("entry 51 has two conditions"),
            }
        }
        Tern::End(_) => panic!("entry 51 is conditional"),
    }
    assert!(table.lookup(Pos([Face::new(0), Face::new(2)])).is_none());
}

#[test]
fn test_load1_errors() {
    assert_eq!(load1(&lines(&["05 no colon"])).err(), Some(LoadError::MissingSeparator));
    assert_eq!(load1(&lines(&["9x:\"\""])).err(), Some(LoadError::BadKey));
    assert_eq!(load1(&lines(&["061:\"\""])).err(), Some(LoadError::BadKey));
    assert_eq!(load1(&lines(&["05:\"F U"])).err(), Some(LoadError::UnterminatedAlgorithm));
    assert_eq!(load1(&lines(&["05:9\"F\"\"\""])).err(), Some(LoadError::BadPredicate));
    assert_eq!(load1(&lines(&["05:\"F X\""])).err(), Some(LoadError::BadMove));
    assert_eq!(load1(&lines(&["05:"])).err(), Some(LoadError::MissingDefault));
    assert_eq!(load1(&lines(&["05:01\"F\""])).err(), Some(LoadError::MissingDefault));
    assert_eq!(load1(&lines(&["05:\"\"", "05:\"F\""])).err(), Some(LoadError::DuplicateKey));
}

#[test]
fn test_load2_basic() {
    let table = load2(&lines(&["1,2,3:\"F U\"", "4:\"R'\""])).expect("well-formed data must load");
    assert_eq!(table.len(), 2);
    assert!(table.has_key(&vec![1, 2, 3]));
    assert!(!table.has_key(&vec![1, 2]));
    assert_eq!(table.get(&vec![1, 2, 3]), Some(&alg("F U")));
    assert_eq!(table.get(&vec![4]), Some(&alg("R'")));
    assert_eq!(table.get(&vec![5]), None);
}

#[test]
fn test_load2_errors() {
    assert_eq!(load2(&lines(&["1 2 3 \"F\""])).err(), Some(LoadError::MissingSeparator));
    assert_eq!(load2(&lines(&["1,,3:\"F\""])).err(), Some(LoadError::BadNumber));
    assert_eq!(load2(&lines(&["x:\"F\""])).err(), Some(LoadError::BadNumber));
    assert_eq!(load2(&lines(&["99999999999999999999999:\"F\""])).err(), Some(LoadError::BadNumber));
    assert_eq!(load2(&lines(&["1:\"F"])).err(), Some(LoadError::UnterminatedAlgorithm));
    assert_eq!(load2(&lines(&["1:F\""])).err(), Some(LoadError::UnterminatedAlgorithm));
    assert_eq!(load2(&lines(&["1:\"Q\""])).err(), Some(LoadError::BadMove));
    assert_eq!(load2(&lines(&["1:\"F\"", "1:\"U\""])).err(), Some(LoadError::DuplicateKey));
}

#[test]
fn test_load1_composite_basic() {
    let table = load1_composite(&lines(&[
        "// second-stage data",
        "01212:\"\"",
        "12301:01212\"U' F U\"\"F' L'\"",
        "///",
    ]))
    .expect("well-formed composite data must load");
    assert_eq!(table.len(), 2);
    let corner = rubiks::position::Pos([Face::new(1), Face::new(2), Face::new(3)]);
    let edge = rubiks::position::Pos([Face::new(0), Face::new(1)]);
    assert!(table.has_key(corner, edge));
    assert!(!table.has_key(corner, Pos([Face::new(0), Face::new(2)])));
}

#[test]
fn test_load1_composite_errors() {
    assert_eq!(load1_composite(&lines(&["012:\"\""])).err(), Some(LoadError::BadKey));
    assert_eq!(load1_composite(&lines(&["01292:\"\""])).err(), Some(LoadError::BadKey));
    assert_eq!(load1_composite(&lines(&["01212:012\"F\"\"\""])).err(), Some(LoadError::BadPredicate));
    assert_eq!(
        load1_composite(&lines(&["01212:\"\"", "01212:\"U\""])).err(),
        Some(LoadError::DuplicateKey)
    );
    assert_eq!(load1_composite(&lines(&["01212:01212\"F\""])).err(), Some(LoadError::MissingDefault));
}
