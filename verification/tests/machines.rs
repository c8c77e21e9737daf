use rand::rngs::SmallRng;
use rand::SeedableRng;
use turing_machine::rulesets::RuleSets;
use turing_machine::text::Render;
use turing_machine::tm::{LookupFailure, TM};
use turing_machine::turing_machine_memory::{Memory, Memory1D, Memory2D, Memory3D};

#[test]
fn new_machine_is_in_state_zero_on_a_tape_of_zeros() {
    let machine = TM::<Memory1D<4>>::new();
    assert_eq!(machine.state(), 0);
    assert!(machine.rules().is_empty());
    assert_eq!(machine.memory().tapehead(), [0]);
    assert_eq!(machine.memory().read_memory(), 0);
    assert_eq!(machine.render(), "state: 0\n[0] 0  0  0 ");
}

#[test]
fn insert_rules_keeps_state_and_tape() {
    let mut machine = TM::<Memory1D<4>>::new();
    machine.insert_rules(&vec![[0, 0, 3, 1, 1]]);
    assert_eq!(machine.step(), Ok(()));
    let rules: Vec<[u8; 5]> = vec![[1, 0, 2, 1, 1], [3, 0, 0, 0, 0]];
    machine.insert_rules(&rules);
    assert_eq!(machine.rules(), &rules);
    assert_eq!(machine.state(), 3);
    assert_eq!(machine.render(), "state: 3\n 1 [0] 0  0 ");
    machine.insert_rules(&Vec::new());
    assert!(machine.rules().is_empty());
    assert_eq!(machine.render(), "state: 3\n 1 [0] 0  0 ");
}

#[test]
fn step_applies_the_matching_rule() {
    let mut machine = TM::<Memory1D<4>>::new();
    machine.insert_rules(&vec![[0, 0, 3, 0, 1], [3, 0, 1, 0, 1]]);
    assert_eq!(machine.step(), Ok(()));
    assert_eq!(machine.step(), Ok(()));
    assert_eq!(machine.state(), 1);
    assert_eq!(machine.memory().tapehead(), [2]);
    assert_eq!(machine.memory().read_memory(), 0);
    machine.insert_rules(&vec![[1, 0, 2, 1, 1]]);
    assert_eq!(machine.step(), Ok(()));
    assert_eq!(machine.state(), 2);
    assert_eq!(machine.memory().tapehead(), [3]);
    assert_eq!(machine.render(), "state: 2\n 0  0  1 [0]");
}

#[test]
fn step_takes_the_first_of_two_matching_rules() {
    let mut machine = TM::<Memory1D<4>>::new();
    machine.insert_rules(&vec![[1, 0, 9, 9, 0], [0, 0, 2, 5, 1], [0, 0, 7, 7, 0]]);
    assert_eq!(machine.step(), Ok(()));
    assert_eq!(machine.state(), 2);
    assert_eq!(machine.render(), "state: 2\n 5 [0] 0  0 ");
}

#[test]
fn step_without_a_matching_rule_fails_and_changes_nothing() {
    let mut machine = TM::<Memory1D<4>>::new();
    machine.insert_rules(&vec![[0, 1, 1, 1, 1], [1, 0, 1, 1, 1], [1, 1, 0, 0, 0]]);
    assert_eq!(machine.step(), Err(LookupFailure { state: 0, symbol: 0 }));
    assert_eq!(machine.state(), 0);
    assert_eq!(machine.render(), "state: 0\n[0] 0  0  0 ");
    assert_eq!(machine.step(), Err(LookupFailure { state: 0, symbol: 0 }));
}

#[test]
fn step_without_rules_fails() {
    let mut machine = TM::<Memory2D<2, 2>>::new();
    assert_eq!(machine.step(), Err(LookupFailure { state: 0, symbol: 0 }));
}

#[test]
fn step_fails_on_the_pair_that_it_reached() {
    let mut machine = TM::<Memory1D<3>>::new();
    machine.insert_rules(&vec![[0, 0, 4, 6, 2], [4, 6, 5, 7, 0], [5, 0, 5, 1, 1]]);
    assert_eq!(machine.step(), Ok(()));
    assert_eq!(machine.step(), Ok(()));
    assert_eq!(machine.step(), Ok(()));
    assert_eq!(machine.step(), Err(LookupFailure { state: 5, symbol: 7 }));
    assert_eq!(machine.render(), "state: 5\n[7] 0  1 ");
}

#[test]
fn lookup_failure_names_the_pair() {
    let failure = LookupFailure { state: 0, symbol: 0 };
    assert_eq!(failure.render(), "no rule for state 0 and symbol 0");
    let failure = LookupFailure { state: 17, symbol: 255 };
    assert_eq!(failure.render(), "no rule for state 17 and symbol 255");
}

#[test]
fn step_moves_on_a_grid_of_two_dimensions() {
    let mut machine = TM::<Memory2D<3, 2>>::new();
    machine.insert_rules(&vec![[0, 0, 1, 1, 3], [1, 0, 2, 2, 1], [2, 0, 0, 3, 2]]);
    assert_eq!(machine.step(), Ok(()));
    assert_eq!(machine.render(), "state: 1\n 1 [0] 0 \n 0  0  0 \n");
    assert_eq!(machine.step(), Ok(()));
    assert_eq!(machine.render(), "state: 2\n 1  2  0 \n 0 [0] 0 \n");
    assert_eq!(machine.step(), Ok(()));
    assert_eq!(machine.render(), "state: 0\n 1  2  0 \n[0] 3  0 \n");
    assert_eq!(machine.step(), Ok(()));
    assert_eq!(machine.render(), "state: 1\n 1  2  0 \n 1 [3] 0 \n");
    assert_eq!(machine.step(), Err(LookupFailure { state: 1, symbol: 3 }));
}

#[test]
fn step_moves_on_a_grid_of_three_dimensions() {
    let mut machine = TM::<Memory3D<2, 2, 2>>::new();
    machine.insert_rules(&vec![[0, 0, 1, 1, 1], [1, 0, 2, 2, 3], [2, 0, 3, 3, 5], [3, 0, 3, 4, 6]]);
    assert_eq!(machine.step(), Ok(()));
    assert_eq!(machine.memory().tapehead(), [1, 0, 0]);
    assert_eq!(machine.step(), Ok(()));
    assert_eq!(machine.memory().tapehead(), [1, 1, 0]);
    assert_eq!(machine.step(), Ok(()));
    assert_eq!(machine.memory().tapehead(), [1, 1, 1]);
    assert_eq!(machine.step(), Ok(()));
    assert_eq!(machine.memory().tapehead(), [1, 1, 1]);
    assert_eq!(machine.render(), "state: 3\n 1  0     2  0    \n 0  0     3 [4]   \n");
}

#[test]
fn generated_table_never_fails() {
    for seed in 0..10u64 {
        let mut rng = SmallRng::seed_from_u64(seed);
        let mut table = RuleSets::new(5, 3, 4);
        table.random_ruleset(&mut rng);
        let mut machine = TM::<Memory2D<8, 8>>::new();
        machine.insert_rules(table.rules());
        for _ in 0..500 {
            assert_eq!(machine.step(), Ok(()));
            assert!(machine.state() < 5);
            assert!(machine.memory().read_memory() < 3);
        }
    }
}

#[test]
fn pipelines_with_the_same_seed_give_the_same_trace() {
    for seed in 0..10u64 {
        let mut traces: Vec<Vec<String>> = Vec::new();
        for _ in 0..2 {
            let mut trace: Vec<String> = Vec::new();
            let mut rng = SmallRng::seed_from_u64(seed);
            let mut table = RuleSets::new(4, 2, 4);
            table.random_ruleset(&mut rng);
            trace.push(table.render());
            let mut machine = TM::<Memory2D<8, 8>>::new();
            machine.insert_rules(table.rules());
            for edit in table.mutate_ruleset(3, &mut rng) {
                trace.push(edit.render());
            }
            machine.insert_rules(table.rules());
            for _ in 0..50 {
                trace.push(machine.render());
                match machine.step() {
                    Ok(()) => {}
                    Err(failure) => {
                        trace.push(failure.render());
                        break;
                    }
                }
            }
            traces.push(trace);
        }
        assert_eq!(traces[0], traces[1]);
    }
}
