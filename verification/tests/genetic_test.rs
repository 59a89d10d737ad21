use rand::rngs::StdRng;
use rand::SeedableRng;
use rustc_hash::FxHashMap;
use std::rc::Rc;

use tcct::bignum::BigNum;
use tcct::name_map::NameMap;
use tcct::ast::{DebugExpressionInfixOpcode, ExpressionInfixOpcode};
use tcct::solver::genetic_algorithm::{crossover, has_best_fitness, initialize_population, mutate, selection};
use tcct::solver::mutation_test_crossover_fn::random_crossover;
use tcct::solver::mutation_test_trace_selection_fn::{pick_by_weight, roulette_selection};
use tcct::symbolic_value::{SymbolicName, SymbolicValue};

fn name(n: usize) -> SymbolicName {
    SymbolicName { name: n, owner: Rc::new(vec![]), access: vec![] }
}

fn nums(v: &[i64]) -> Vec<BigNum> {
    v.iter().map(|x| BigNum::from_i64(*x)).collect()
}

fn small(b: &BigNum) -> bool {
    [-2i64, -1, 0, 1].iter().any(|x| *b == BigNum::from_i64(*x))
}

#[test]
fn population_of_small_assignments() {
    let mut rng = StdRng::seed_from_u64(7);
    let vars = vec![name(1), name(2), name(3)];
    let pop = initialize_population(&vars, &BigNum::from_i64(17), 20, &mut rng);
    assert_eq!(pop.len(), 20);
    for ind in &pop {
        assert_eq!(ind.entries.len(), 3);
        for (j, (k, v)) in ind.entries.iter().enumerate() {
            assert_eq!(k.name, j + 1);
            assert!(small(v));
        }
    }
}

#[test]
fn selection_and_crossover_keep_values_of_parents() {
    let mut rng = StdRng::seed_from_u64(11);
    let mut p1 = NameMap::new();
    let mut p2 = NameMap::new();
    for n in 1..5usize {
        p1.insert(name(n), BigNum::from_i64(n as i64));
        p2.insert(name(n), BigNum::from_i64(100 + n as i64));
    }
    for _ in 0..10 {
        let child = crossover(&p1, &p2, &mut rng);
        assert_eq!(child.entries.len(), 4);
        for (j, (k, v)) in child.entries.iter().enumerate() {
            assert_eq!(k.name, j + 1);
            assert!(*v == BigNum::from_i64(k.name as i64) || *v == BigNum::from_i64(100 + k.name as i64));
        }
    }
    let pop = vec![p1, p2];
    let picked = selection(&pop, &mut rng);
    assert!(std::ptr::eq(picked, &pop[0]) || std::ptr::eq(picked, &pop[1]));
}

#[test]
fn mutation_changes_one_value() {
    let mut rng = StdRng::seed_from_u64(3);
    let mut ind = NameMap::new();
    for n in 1..4usize {
        ind.insert(name(n), BigNum::from_i64(50));
    }
    mutate(&mut ind, &BigNum::from_i64(17), &mut rng);
    assert_eq!(ind.entries.len(), 3);
    let changed: Vec<&BigNum> = ind.entries.iter().map(|(_, v)| v).filter(|v| **v != BigNum::from_i64(50)).collect();
    assert!(changed.len() <= 1);
    assert!(changed.iter().all(|v| small(v)));
}

#[test]
fn random_crossover_keeps_the_positions_of_the_first_parent() {
    let mut rng = StdRng::seed_from_u64(5);
    let mut p1: FxHashMap<usize, SymbolicValue> = FxHashMap::default();
    let mut p2: FxHashMap<usize, SymbolicValue> = FxHashMap::default();
    p1.insert(1, SymbolicValue::ConstantBool(true));
    p1.insert(2, SymbolicValue::ConstantBool(true));
    p2.insert(1, SymbolicValue::ConstantBool(false));
    for _ in 0..10 {
        let child = random_crossover(&p1, &p2, &mut rng);
        assert_eq!(child.len(), 2);
        assert_eq!(child[&2], SymbolicValue::ConstantBool(true));
        assert!(child.contains_key(&1));
    }
}

#[test]
fn weights_pick_the_first_place_past_the_target() {
    let w = nums(&[2, 0, 3]);
    assert_eq!(pick_by_weight(&w, 3, &BigNum::from_i64(0)), 0);
    assert_eq!(pick_by_weight(&w, 3, &BigNum::from_i64(1)), 0);
    assert_eq!(pick_by_weight(&w, 3, &BigNum::from_i64(2)), 2);
    assert_eq!(pick_by_weight(&w, 3, &BigNum::from_i64(4)), 2);
    assert_eq!(pick_by_weight(&w, 3, &BigNum::from_i64(5)), 0);
    assert_eq!(pick_by_weight(&w, 1, &BigNum::from_i64(3)), 0);
}

#[test]
fn roulette_prefers_the_fitter() {
    let mut rng = StdRng::seed_from_u64(9);
    let pop = vec!["low", "high"];
    let scores = nums(&[-5, 10]);
    for _ in 0..20 {
        // The lowest score weighs nothing, so the other member is always drawn.
        assert_eq!(*roulette_selection(&pop, &scores, &mut rng), "high");
    }
    let equal = nums(&[4, 4]);
    for _ in 0..5 {
        assert_eq!(*roulette_selection(&pop, &equal, &mut rng), "low");
    }
}

fn equals(n: usize, c: i64) -> Rc<SymbolicValue> {
    Rc::new(SymbolicValue::BinaryOp(
        Rc::new(SymbolicValue::Variable(name(n))),
        DebugExpressionInfixOpcode(ExpressionInfixOpcode::Eq),
        Rc::new(SymbolicValue::ConstantInt(BigNum::from_i64(c))),
    ))
}

#[test]
fn best_fitness_when_exactly_one_list_holds() {
    let p = BigNum::from_i64(17);
    let mut a = NameMap::new();
    a.insert(name(1), BigNum::from_i64(1));
    a.insert(name(2), BigNum::from_i64(0));
    // the trace holds entirely, the side does not
    assert!(has_best_fitness(&p, &[equals(1, 1)], &[equals(2, 1)], &a));
    // the side holds entirely, the trace does not
    assert!(has_best_fitness(&p, &[equals(1, 1), equals(2, 1)], &[equals(2, 0)], &a));
    // both hold
    assert!(!has_best_fitness(&p, &[equals(1, 1)], &[equals(2, 0)], &a));
    // neither holds
    assert!(!has_best_fitness(&p, &[equals(1, 0)], &[equals(2, 1)], &a));
    // an empty list never gives the best fitness
    assert!(!has_best_fitness(&p, &[], &[equals(2, 1)], &a));
    assert!(!has_best_fitness(&p, &[equals(1, 1)], &[], &a));
}
