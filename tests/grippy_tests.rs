use grippy::alg::{relations_of_equation, AlgNode};
use grippy::analysis::{analyze, insert_region, replay_is_determined, sweep, trace};
use grippy::grip::{validate_grip_name, Grip, Relation};
use grippy::moveseq::{Move, MovePrefix, MoveSeq};
use grippy::region::Region;
use std::cmp::Ordering;

fn mv(family: &str, amount: i32) -> Move {
    Move::new(family.to_string(), None, amount)
}

fn seq(moves: &[(&str, i32)]) -> MoveSeq {
    let v: Vec<Move> = moves.iter().map(|(f, a)| mv(f, *a)).collect();
    MoveSeq::from_moves(&v)
}

fn contents(s: &MoveSeq) -> Vec<(String, i32)> {
    (0..s.len()).map(|i| (s.get(i).family.clone(), s.get(i).amount)).collect()
}

fn commutator_moves() -> Vec<Move> {
    // [R, U] [U2, R]
    vec![
        mv("R", 1),
        mv("U", 1),
        mv("R", -1),
        mv("U", -1),
        mv("U", 2),
        mv("R", 1),
        mv("U", -2),
        mv("R", -1),
    ]
}

fn relation(new_name: &str, old_name: &str, transform: &[(&str, i32)]) -> Relation {
    Relation {
        new_grip_name: new_name.to_string(),
        grip_to_replace: Grip::with_transform(old_name.to_string(), seq(transform)),
    }
}

/// The two relations of one line `new = old * alg`, where `alg` is one move.
fn relation_pair(new_name: &str, old_name: &str, family: &str) -> Vec<Relation> {
    vec![
        relation(old_name, new_name, &[(family, -1)]),
        relation(new_name, old_name, &[(family, 1)]),
    ]
}

#[test]
fn push_back_merges_same_family() {
    let s = seq(&[("R", 1), ("R", 2)]);
    assert_eq!(contents(&s), vec![("R".to_string(), 3)]);
}

#[test]
fn push_back_cancels_to_nothing() {
    let s = seq(&[("U", 1), ("R", 1), ("R", -1)]);
    assert_eq!(contents(&s), vec![("U".to_string(), 1)]);
    let t = seq(&[("R", 2), ("R", -2)]);
    assert!(t.is_empty());
}

#[test]
fn push_back_keeps_other_families() {
    let s = seq(&[("R", 1), ("U", 1), ("R", 1)]);
    assert_eq!(s.len(), 3);
}

#[test]
fn merge_is_independent_of_split() {
    let a = seq(&[("F", 1), ("R", 1), ("R", 2)]);
    let b = seq(&[("F", 1), ("R", 3)]);
    assert!(a.same_as(&b));
}

#[test]
fn merge_keeps_first_layer_info() {
    let mut s = MoveSeq::new();
    s.push_back(Move::new("R".to_string(), Some(MovePrefix::Layer(2)), 1));
    s.push_back(mv("R", 1));
    assert_eq!(s.len(), 1);
    assert_eq!(s.get(0).prefix, Some(MovePrefix::Layer(2)));
    assert_eq!(s.get(0).amount, 2);
}

#[test]
fn order_prefix_sorts_first() {
    let short = seq(&[("R", 1)]);
    let long = seq(&[("R", 1), ("U", 1)]);
    assert_eq!(short.compare(&long), Ordering::Less);
    assert_eq!(long.compare(&short), Ordering::Greater);
    assert_eq!(long.compare(&long.duplicate()), Ordering::Equal);
}

#[test]
fn order_by_family_then_amount() {
    assert_eq!(seq(&[("R", 1)]).compare(&seq(&[("U", 1)])), Ordering::Less);
    assert_eq!(seq(&[("R", 2)]).compare(&seq(&[("R", 1)])), Ordering::Greater);
    assert_eq!(seq(&[("R", -1)]).compare(&seq(&[("R", 1)])), Ordering::Less);
}

#[test]
fn order_by_layer_info_first() {
    let plain = mv("U", 1);
    let layer = Move::new("R".to_string(), Some(MovePrefix::Layer(1)), 1);
    let range = Move::new("F".to_string(), Some(MovePrefix::Range(1, 2)), 1);
    assert_eq!(plain.compare(&layer), Ordering::Less);
    assert_eq!(layer.compare(&range), Ordering::Less);
    assert_eq!(range.compare(&plain), Ordering::Greater);
    let range2 = Move::new("F".to_string(), Some(MovePrefix::Range(1, 3)), 1);
    assert_eq!(range.compare(&range2), Ordering::Less);
}

#[test]
fn pop_front_if_matches_takes_whole_prefix_only() {
    let mut s = seq(&[("R", 1), ("U", 1), ("F", 1)]);
    assert!(!s.pop_front_if_matches(&seq(&[("R", 1), ("F", 1)])));
    assert_eq!(s.len(), 3);
    assert!(!s.pop_front_if_matches(&seq(&[("R", 2)])));
    assert!(s.pop_front_if_matches(&seq(&[("R", 1), ("U", 1)])));
    assert_eq!(contents(&s), vec![("F".to_string(), 1)]);
}

#[test]
fn pop_front_if_fam_checks_family() {
    let mut s = seq(&[("R", 1), ("U", 1)]);
    s.pop_front_if_fam("U");
    assert_eq!(s.len(), 2);
    s.pop_front_if_fam("R");
    assert_eq!(contents(&s), vec![("U".to_string(), 1)]);
}

#[test]
fn inverse_sequence_reverses_and_negates() {
    let inv = MoveSeq::from_inverse_moves(&vec![mv("R", 1), mv("U", 2)]);
    assert_eq!(contents(&inv), vec![("U".to_string(), -2), ("R".to_string(), -1)]);
}

#[test]
fn grip_own_turn_cancels() {
    for amount in [1, 2, -1, 0] {
        let g = Grip::new("R".to_string()).do_move(mv("R", amount), &[]);
        assert!(g.same_as(&Grip::new("R".to_string())));
        assert!(g.transform().is_empty());
    }
}

#[test]
fn grip_other_turn_transforms() {
    let g = Grip::new("U".to_string()).do_move(mv("R", 1), &[]);
    assert_eq!(g.name(), "U");
    assert_eq!(contents(g.transform()), vec![("R".to_string(), 1)]);
}

#[test]
fn grip_relation_renames() {
    let rels = relation_pair("U", "F", "R");
    let g = Grip::new("F".to_string()).do_move(mv("R", 1), &rels);
    assert_eq!(g.name(), "U");
    assert!(g.transform().is_empty());
}

#[test]
fn relations_chain_terminates() {
    let mut rels = relation_pair("U", "F", "R");
    rels.extend(relation_pair("R", "U", "F"));
    let mut g = Grip::new("F".to_string());
    for m in [mv("R", 1), mv("F", 1), mv("R", 1)] {
        g = g.do_move(m, &rels);
    }
    // F under R is U; U under F is R; R under R stays R.
    assert_eq!(g.name(), "R");
    assert!(g.transform().is_empty());
}

#[test]
fn region_splits_on_unknown_face() {
    let (not_affected, affected) = Region::new().do_move(mv("R", 1), &[]);
    let free = not_affected.unwrap();
    let held = affected.unwrap();
    assert_eq!(free.has_grip(Grip::new("R".to_string())), Some(false));
    assert_eq!(held.has_grip(Grip::new("R".to_string())), Some(true));
    assert_eq!(held.has_grip(Grip::new("U".to_string())), None);
}

#[test]
fn region_known_faces_do_not_split() {
    let (not_affected, affected) = Region::new().do_move(mv("R", 1), &[]);
    let (a, b) = not_affected.unwrap().do_move(mv("R", 1), &[]);
    assert!(a.is_some() && b.is_none());
    let (c, d) = affected.unwrap().do_move(mv("R", 1), &[]);
    assert!(c.is_none() && d.is_some());
}

#[test]
fn held_face_moves_other_grips() {
    let (_, affected) = Region::new().do_move(mv("U", 1), &[]);
    let (_, affected) = affected.unwrap().do_move(mv("R", 1), &[]);
    let held = affected.unwrap();
    let u = Grip::with_transform("U".to_string(), seq(&[("R", 1)]));
    assert_eq!(held.has_grip(u), Some(true));
    assert_eq!(held.has_grip(Grip::new("R".to_string())), Some(true));
}

#[test]
fn reinserting_region_keeps_size() {
    let regions = sweep(&seq(&[("R", 1), ("U", 1)]), &[]);
    let mut set = sweep(&seq(&[("R", 1), ("U", 1)]), &[]);
    let before = set.len();
    for r in &regions {
        insert_region(&mut set, r.duplicate());
    }
    assert_eq!(set.len(), before);
}

#[test]
fn sweep_of_two_faces_gives_distinct_regions() {
    let regions = sweep(&seq(&[("R", 1), ("U", 1)]), &[]);
    assert_eq!(regions.len(), 4);
    for i in 0..regions.len() {
        for j in (i + 1)..regions.len() {
            assert!(!regions[i].same_as(&regions[j]));
        }
    }
}

#[test]
fn commutator_scenario() {
    let moves = MoveSeq::from_moves(&commutator_moves());
    let inverse = MoveSeq::from_inverse_moves(&commutator_moves());
    let a = analyze(&moves, &inverse, &[]);
    assert!(!a.regions.is_empty());
    let mut names: Vec<String> = a.grips.iter().map(|g| g.name().clone()).collect();
    names.sort();
    names.dedup();
    assert_eq!(names, vec!["R".to_string(), "U".to_string()]);
    let mut some_nontrivial = false;
    for r in &a.regions {
        let (net, mask) = trace(r, &moves, &[]);
        assert_eq!(mask.len(), moves.len());
        assert!(mask.iter().filter(|b| **b).count() <= moves.len());
        if !net.is_empty() {
            some_nontrivial = true;
        }
    }
    assert!(some_nontrivial);
    let grouped: usize = a.results.iter().map(|g| g.regions.len()).sum();
    assert_eq!(grouped, a.regions.len());
}

#[test]
fn commutator_replay_is_determined() {
    let moves = MoveSeq::from_moves(&commutator_moves());
    let inverse = MoveSeq::from_inverse_moves(&commutator_moves());
    let regions = sweep(&inverse, &[]);
    for r in &regions {
        assert!(replay_is_determined(r, &moves, &[]));
    }
}

#[test]
fn relation_scenario_terminates() {
    let mut rels = relation_pair("U", "F", "R");
    rels.extend(relation_pair("R", "U", "F"));
    let moves = MoveSeq::from_moves(&commutator_moves());
    let inverse = MoveSeq::from_inverse_moves(&commutator_moves());
    let a = analyze(&moves, &inverse, &rels);
    assert!(!a.regions.is_empty());
    for g in &a.grips {
        assert!(g.transform().len() <= moves.len());
    }
}

#[test]
fn trace_mask_of_untouched_region() {
    let (not_affected, _) = Region::new().do_move(mv("R", 1), &[]);
    let free_r = not_affected.unwrap();
    let (net, mask) = trace(&free_r, &seq(&[("R", 1)]), &[]);
    assert!(net.is_empty());
    assert_eq!(mask, vec![false]);
}

#[test]
fn grip_names_are_validated() {
    assert_eq!(validate_grip_name("R"), Ok(()));
    assert_eq!(validate_grip_name("Up_face"), Ok(()));
    assert_eq!(validate_grip_name(""), Ok(()));
    assert_eq!(validate_grip_name("R2"), Err("invalid grip \"R2\"".to_string()));
    assert_eq!(validate_grip_name("a b"), Err("invalid grip \"a b\"".to_string()));
}

fn node(family: &str, amount: i32) -> AlgNode {
    AlgNode::Move(mv(family, amount))
}

/// `[R, U] [U2, R]` as a notation tree.
fn commutator_tree() -> Vec<AlgNode> {
    vec![
        AlgNode::Commutator(vec![node("R", 1)], vec![node("U", 1)]),
        AlgNode::Commutator(vec![node("U", 2)], vec![node("R", 1)]),
    ]
}

#[test]
fn from_alg_expands_commutators() {
    let s = MoveSeq::from_alg(&commutator_tree());
    assert_eq!(
        contents(&s),
        vec![
            ("R".to_string(), 1),
            ("U".to_string(), 1),
            ("R".to_string(), -1),
            ("U".to_string(), 1),
            ("R".to_string(), 1),
            ("U".to_string(), -2),
            ("R".to_string(), -1),
        ]
    );
    let inv = MoveSeq::from_alg_inverse(&commutator_tree());
    assert_eq!(inv.len(), 7);
    assert_eq!(contents(&inv)[0], ("R".to_string(), 1));
}

#[test]
fn from_alg_expands_conjugates_and_groups() {
    let conj = vec![AlgNode::Conjugate(vec![node("R", 1)], vec![node("U", 1)])];
    assert_eq!(
        contents(&MoveSeq::from_alg(&conj)),
        vec![("R".to_string(), 1), ("U".to_string(), 1), ("R".to_string(), -1)]
    );
    let group = vec![AlgNode::Grouping(vec![node("R", 1), node("U", 1)], 2)];
    assert_eq!(MoveSeq::from_alg(&group).len(), 4);
    let back = vec![AlgNode::Grouping(vec![node("R", 1), node("U", 1)], -1), AlgNode::Other];
    assert_eq!(
        contents(&MoveSeq::from_alg(&back)),
        vec![("U".to_string(), -1), ("R".to_string(), -1)]
    );
    let none = vec![AlgNode::Grouping(vec![node("R", 1)], 0)];
    assert!(MoveSeq::from_alg(&none).is_empty());
}

#[test]
fn equation_gives_two_relations() {
    let rels = relations_of_equation("U".to_string(), "F".to_string(), &vec![node("R", 1)]);
    assert_eq!(rels.len(), 2);
    assert_eq!(rels[0].new_grip_name, "F");
    assert_eq!(rels[0].grip_to_replace.name(), "U");
    assert_eq!(contents(rels[0].grip_to_replace.transform()), vec![("R".to_string(), -1)]);
    assert_eq!(rels[1].new_grip_name, "U");
    assert_eq!(rels[1].grip_to_replace.name(), "F");
    assert_eq!(contents(rels[1].grip_to_replace.transform()), vec![("R".to_string(), 1)]);
}

#[test]
fn analysis_of_tree_groups_every_region_once() {
    let tree = commutator_tree();
    let moves = MoveSeq::from_alg(&tree);
    let inverse = MoveSeq::from_alg_inverse(&tree);
    let a = analyze(&moves, &inverse, &[]);
    for r in &a.regions {
        let (net, mask) = trace(r, &moves, &[]);
        assert_eq!(mask.len(), 7);
        let holding: Vec<_> = a
            .results
            .iter()
            .filter(|g| g.regions.iter().any(|x| x.same_as(r)))
            .collect();
        assert_eq!(holding.len(), 1);
        assert!(holding[0].net.same_as(&net));
        assert_eq!(holding[0].mask, mask);
    }
    assert!(a.results.iter().any(|g| !g.net.is_empty()));
}
