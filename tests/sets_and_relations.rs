use rgu_labs_term3_discrete_math::relation_text::{parse_relation, RelationTextError};
use rgu_labs_term3_discrete_math::commands::{parse_command, CommandError, SetCommand, SetOp};
use rgu_labs_term3_discrete_math::char_set::CharSet;
use rgu_labs_term3_discrete_math::relation::Relation;

fn set_of(s: &str) -> CharSet {
    let mut r = CharSet::new();
    for c in s.chars() {
        r.add(c);
    }
    r
}

fn items(s: &CharSet) -> String {
    s.iter().collect()
}

#[test]
fn add_keeps_order_and_uniqueness() {
    let s = set_of("dbadc");
    assert_eq!(items(&s), "abcd");
    assert_eq!(s.len(), 4);
    assert!(!s.is_empty());
    assert!(CharSet::new().is_empty());
}

#[test]
fn remove_and_clear() {
    let mut s = set_of("abc");
    s.remove('b');
    s.remove('z');
    assert_eq!(items(&s), "ac");
    s.clear();
    assert!(s.is_empty());
}

#[test]
fn lookups() {
    let s = set_of("bdf");
    assert_eq!(s.index_of('d'), Some(1));
    assert_eq!(s.index_of('c'), None);
    assert!(s.contains('f'));
    assert!(!s.contains('a'));
}

#[test]
fn set_algebra() {
    let a = set_of("abcd");
    let b = set_of("cdef");
    assert_eq!(items(&a.union(&b)), "abcdef");
    assert_eq!(items(&a.intersection(&b)), "cd");
    assert_eq!(items(&a.difference(&b)), "ab");
    assert_eq!(items(&b.difference(&a)), "ef");
    assert!(set_of("bc").is_subset(&a));
    assert!(!set_of("bz").is_subset(&a));
    assert!(CharSet::new().is_subset(&a));
    assert_eq!(a.union(&b), b.union(&a));
}

#[test]
fn power_set_by_mask() {
    let p = set_of("abc").power();
    assert_eq!(p.len(), 8);
    assert_eq!(items(&p[0]), "");
    assert_eq!(items(&p[1]), "a");
    assert_eq!(items(&p[2]), "b");
    assert_eq!(items(&p[5]), "ac");
    assert_eq!(items(&p[7]), "abc");
    assert_eq!(CharSet::new().power().len(), 1);
}

#[test]
fn relation_properties_of_an_order() {
    let r = Relation::new(set_of("abc"), vec![('a', 'a'), ('b', 'b'), ('c', 'c'), ('a', 'b'), ('b', 'c'), ('a', 'c')]);
    assert!(r.is_reflexive());
    assert!(!r.is_irreflexive());
    assert!(!r.is_symmetric());
    assert!(r.is_antisymmetric());
    assert!(!r.is_asymmetric());
    assert!(r.is_transitive());
    assert!(r.is_partial_order());
    assert!(!r.is_equivalence());
    assert_eq!(items(&r.minimal_elements()), "a");
    assert_eq!(items(&r.maximal_elements()), "c");
}

#[test]
fn relation_equivalence_classes() {
    let r = Relation::new(set_of("abcd"), vec![('a', 'a'), ('b', 'b'), ('c', 'c'), ('d', 'd'), ('a', 'c'), ('c', 'a')]);
    assert!(r.is_equivalence());
    let classes: Vec<String> = r.equivalence_classes().iter().map(items).collect();
    assert_eq!(classes, vec!["ac".to_string(), "b".to_string(), "d".to_string()]);
}

#[test]
fn relation_contains_ignores_foreign_pairs() {
    let r = Relation::new(set_of("ab"), vec![('a', 'b'), ('a', 'z')]);
    assert!(r.contains('a', 'b'));
    assert!(!r.contains('b', 'a'));
    assert!(!r.contains('a', 'z'));
    assert!(r.is_asymmetric());
    assert!(r.is_irreflexive());
    assert!(!r.is_reflexive());
}

#[test]
fn full_and_empty_relations() {
    let full = Relation::new(set_of("ab"), vec![('a', 'a'), ('a', 'b'), ('b', 'a'), ('b', 'b')]);
    assert!(full.is_reflexive() && full.is_symmetric() && full.is_transitive());
    assert!(!full.is_antisymmetric());
    let empty = Relation::new(set_of("ab"), vec![]);
    assert!(!empty.is_reflexive());
    assert!(empty.is_irreflexive() && empty.is_symmetric() && empty.is_antisymmetric() && empty.is_transitive());
    let single = Relation::new(set_of("a"), vec![('a', 'a')]);
    assert!(single.is_antisymmetric());
}

#[test]
fn non_transitive_relation() {
    let r = Relation::new(set_of("abc"), vec![('a', 'b'), ('b', 'c')]);
    assert!(!r.is_transitive());
}

#[test]
fn set_commands_are_read() {
    assert_eq!(parse_command("new Alpha"), Ok(SetCommand::New('A')));
    assert_eq!(parse_command("  add A xyz "), Ok(SetCommand::Add('A', 'x')));
    assert_eq!(parse_command("rem A x"), Ok(SetCommand::Rem('A', 'x')));
    assert_eq!(parse_command("del B"), Ok(SetCommand::Del('B')));
    assert_eq!(parse_command("pow B"), Ok(SetCommand::Pow('B')));
    assert_eq!(parse_command("see"), Ok(SetCommand::See(None)));
    assert_eq!(parse_command("see C"), Ok(SetCommand::See(Some('C'))));
    assert_eq!(parse_command("A & B"), Ok(SetCommand::Binary('A', SetOp::Intersection, 'B')));
    assert_eq!(parse_command("A < B"), Ok(SetCommand::Binary('A', SetOp::Subset, 'B')));
    assert_eq!(parse_command("A ** B"), Ok(SetCommand::Binary('A', SetOp::Unknown("**".to_string()), 'B')));
    assert_eq!(parse_command("   "), Err(CommandError::Empty));
    assert_eq!(parse_command("new"), Err(CommandError::MissingName));
    assert_eq!(parse_command("add A"), Err(CommandError::MissingElement));
    assert_eq!(parse_command("A +"), Err(CommandError::InvalidFormat));
}

#[test]
fn relation_text_is_read() {
    let (base, pairs) = parse_relation("a b c\n\na b\nbx cy\n").unwrap();
    assert_eq!(items(&base), "abc");
    assert_eq!(pairs, vec![('a', 'b'), ('b', 'c')]);
    assert_eq!(parse_relation("").unwrap_err(), RelationTextError::Empty);
    assert_eq!(parse_relation("  \na b\n").unwrap_err(), RelationTextError::EmptyBase);
    assert_eq!(parse_relation("a b\na\n").unwrap_err(), RelationTextError::WrongPairLength { line: 2, found: 1 });
    assert_eq!(parse_relation("a b\na z\n").unwrap_err(), RelationTextError::UnknownElement { element: 'z', line: 2 });
    assert_eq!(parse_relation("a b\n\n").unwrap_err(), RelationTextError::NoPairs);
}
