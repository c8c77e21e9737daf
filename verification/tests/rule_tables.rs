use rand::rngs::SmallRng;
use rand::SeedableRng;
use turing_machine::rulesets::{moved_on, mutated_rule, next_on_cycle, Mutation, RuleSets};
use turing_machine::text::Render;

fn small_draws() -> Vec<u8> {
    vec![
        2, 1, 2, 2, 0, 3, 0, 0, 1, 0, 1, 3, 0, 1, 0, 2, 0, 0, 2, 0, 3, 1, 0, 3, 0, 0, 1, 2, 1, 1, 0,
        0, 0, 0, 0, 1, 0, 1, 2,
    ]
}

fn small_table() -> Vec<[u8; 5]> {
    vec![
        [0, 0, 1, 1, 1],
        [0, 1, 2, 0, 2],
        [1, 0, 1, 0, 3],
        [1, 1, 2, 0, 1],
        [2, 0, 0, 1, 0],
        [2, 1, 1, 0, 0],
    ]
}

fn count_with_prefix(rules: &Vec<[u8; 5]>, state: u8, symbol: u8) -> usize {
    let mut count: usize = 0;
    for rule in rules {
        if rule[0] == state && rule[1] == symbol {
            count += 1;
        }
    }
    count
}

#[test]
fn new_keeps_counts_at_or_above_their_floors() {
    let table = RuleSets::new(7, 5, 6);
    assert_eq!(table.states(), 7);
    assert_eq!(table.symbols(), 5);
    assert_eq!(table.movements(), 6);
    assert!(table.rules().is_empty());
}

#[test]
fn new_raises_counts_below_their_floors() {
    let table = RuleSets::new(0, 0, 0);
    assert_eq!(table.states(), 3);
    assert_eq!(table.symbols(), 2);
    assert_eq!(table.movements(), 1);
    let table = RuleSets::new(2, 1, 1);
    assert_eq!(table.states(), 3);
    assert_eq!(table.symbols(), 2);
    assert_eq!(table.movements(), 1);
    let table = RuleSets::new(3, 2, 255);
    assert_eq!(table.states(), 3);
    assert_eq!(table.symbols(), 2);
    assert_eq!(table.movements(), 255);
}

#[test]
fn moved_on_adds_on_the_cycle() {
    assert_eq!(moved_on(2, 2, 3), 1);
    assert_eq!(moved_on(0, 0, 1), 0);
    assert_eq!(moved_on(255, 255, 255), 0);
    assert_eq!(moved_on(255, 255, 7), 6);
    assert_eq!(moved_on(200, 100, 251), 49);
}

#[test]
fn next_on_cycle_wraps_at_the_bound() {
    assert_eq!(next_on_cycle(0, 3), 1);
    assert_eq!(next_on_cycle(2, 3), 0);
    assert_eq!(next_on_cycle(254, 255), 0);
    assert_eq!(next_on_cycle(255, 255), 1);
    assert_eq!(next_on_cycle(255, 7), 4);
}

#[test]
fn mutated_rule_moves_the_selected_field_only() {
    let rule: [u8; 5] = [2, 1, 2, 1, 3];
    assert_eq!(mutated_rule(rule, 0, 3, 2), [0, 1, 2, 1, 3]);
    assert_eq!(mutated_rule(rule, 1, 3, 2), [2, 0, 2, 1, 3]);
    assert_eq!(mutated_rule(rule, 2, 3, 2), [2, 1, 0, 1, 3]);
    assert_eq!(mutated_rule(rule, 2, 5, 2), [2, 1, 3, 1, 3]);
    assert_eq!(mutated_rule(rule, 3, 3, 2), rule);
    assert_eq!(mutated_rule(rule, 4, 3, 2), rule);
    assert_eq!(mutated_rule(rule, 99, 3, 2), rule);
}

#[test]
fn rules_from_draws_follows_the_running_values() {
    let mut table = RuleSets::new(3, 2, 4);
    table.rules_from_draws(&small_draws());
    assert_eq!(table.rules(), &small_table());
}

#[test]
fn rules_from_draws_reduces_draws_beyond_the_bounds() {
    let draws: Vec<u8> = vec![
        101, 104, 93, 100, 196, 152, 11, 184, 212, 84, 74, 135, 33, 169, 154, 1, 173, 33, 158, 181,
        156, 246, 161, 94, 246, 241, 90, 29, 131, 11, 183, 206, 9, 214, 187, 192, 4, 231, 23, 92,
        100, 60, 125, 236, 176, 181, 128, 236, 55, 188, 151, 18, 221, 46, 106, 174, 185, 75, 174,
        141, 47, 159, 162, 156, 90, 40, 76, 158, 247, 82, 24, 41, 207, 16, 121,
    ];
    let expected: Vec<[u8; 5]> = vec![
        [0, 0, 1, 0, 0],
        [0, 1, 0, 2, 0],
        [0, 2, 2, 0, 2],
        [1, 0, 1, 1, 4],
        [1, 1, 2, 2, 1],
        [1, 2, 2, 0, 1],
        [2, 0, 0, 0, 2],
        [2, 1, 2, 0, 4],
        [2, 2, 2, 2, 0],
        [3, 0, 1, 0, 0],
        [3, 1, 1, 0, 1],
        [3, 2, 3, 2, 4],
    ];
    let mut table = RuleSets::new(4, 3, 5);
    table.rules_from_draws(&draws);
    assert_eq!(table.rules(), &expected);
}

#[test]
fn rules_from_draws_ignores_draws_beyond_those_needed() {
    let mut draws: Vec<u8> = small_draws();
    draws.push(3);
    draws.push(1);
    let mut table = RuleSets::new(3, 2, 4);
    table.rules_from_draws(&draws);
    assert_eq!(table.rules(), &small_table());
}

#[test]
fn rules_from_draws_replaces_an_earlier_table() {
    let mut table = RuleSets::new(3, 2, 4);
    table.rules_from_draws(&vec![0; 39]);
    assert_eq!(table.rules().len(), 6);
    assert_eq!(table.rules()[5], [2, 1, 0, 0, 0]);
    table.rules_from_draws(&small_draws());
    assert_eq!(table.rules(), &small_table());
}

#[test]
fn random_ruleset_is_total() {
    let configurations: Vec<(u8, u8, u8)> =
        vec![(3, 2, 1), (4, 2, 4), (5, 7, 6), (16, 3, 2), (3, 40, 9), (0, 0, 0)];
    for (states, symbols, movements) in configurations {
        for seed in 0..5u64 {
            let mut rng = SmallRng::seed_from_u64(seed);
            let mut table = RuleSets::new(states, symbols, movements);
            table.random_ruleset(&mut rng);
            let rules: &Vec<[u8; 5]> = table.rules();
            assert_eq!(rules.len(), table.states() as usize * table.symbols() as usize);
            for state in 0..table.states() {
                for symbol in 0..table.symbols() {
                    assert_eq!(count_with_prefix(rules, state, symbol), 1);
                }
            }
        }
    }
}

#[test]
fn random_ruleset_is_in_ascending_order_and_in_range() {
    let mut rng = SmallRng::seed_from_u64(42);
    let mut table = RuleSets::new(6, 5, 4);
    table.random_ruleset(&mut rng);
    let rules: &Vec<[u8; 5]> = table.rules();
    assert_eq!(rules.len(), 30);
    for (cell, rule) in rules.iter().enumerate() {
        assert_eq!(rule[0] as usize, cell / 5);
        assert_eq!(rule[1] as usize, cell % 5);
        assert!(rule[2] < 6);
        assert!(rule[3] < 5);
        assert!(rule[4] < 4);
    }
}

#[test]
fn random_ruleset_draws_from_the_source() {
    let mut rng = SmallRng::seed_from_u64(1);
    let mut table = RuleSets::new(255, 255, 255);
    table.random_ruleset(&mut rng);
    let rules: &Vec<[u8; 5]> = table.rules();
    assert_eq!(rules.len(), 65025);
    assert!(rules.iter().any(|rule| rule[2] != 0));
    assert!(rules.iter().any(|rule| rule[3] != 0));
    assert!(rules.iter().any(|rule| rule[4] != 0));
    assert!(rules.iter().all(|rule| rule[2] < 255 && rule[3] < 255 && rule[4] < 255));
}

#[test]
fn random_ruleset_replaces_an_earlier_table() {
    let mut rng = SmallRng::seed_from_u64(3);
    let mut table = RuleSets::new(4, 2, 4);
    table.random_ruleset(&mut rng);
    table.random_ruleset(&mut rng);
    assert_eq!(table.rules().len(), 8);
}

#[test]
fn random_ruleset_is_the_same_for_the_same_seed() {
    for seed in 0..20u64 {
        let mut first_rng = SmallRng::seed_from_u64(seed);
        let mut second_rng = SmallRng::seed_from_u64(seed);
        let mut first = RuleSets::new(4, 2, 4);
        let mut second = RuleSets::new(4, 2, 4);
        first.random_ruleset(&mut first_rng);
        second.random_ruleset(&mut second_rng);
        assert_eq!(first.rules(), second.rules());
    }
}

#[test]
fn apply_mutations_edits_in_order() {
    let mut table = RuleSets::new(3, 2, 4);
    table.rules_from_draws(&small_draws());
    let picks: Vec<(usize, usize)> = vec![(0, 0), (5, 1), (2, 2), (0, 0), (4, 7)];
    let log: Vec<Mutation> = table.apply_mutations(&picks);
    let expected: Vec<[u8; 5]> = vec![
        [2, 0, 1, 1, 1],
        [0, 1, 2, 0, 2],
        [1, 0, 2, 0, 3],
        [1, 1, 2, 0, 1],
        [2, 0, 0, 1, 0],
        [2, 0, 1, 0, 0],
    ];
    assert_eq!(table.rules(), &expected);
    assert_eq!(
        log,
        vec![
            Mutation { rule_index: 0, field: 0, rule: [1, 0, 1, 1, 1] },
            Mutation { rule_index: 5, field: 1, rule: [2, 0, 1, 0, 0] },
            Mutation { rule_index: 2, field: 2, rule: [1, 0, 2, 0, 3] },
            Mutation { rule_index: 0, field: 0, rule: [2, 0, 1, 1, 1] },
            Mutation { rule_index: 4, field: 7, rule: [2, 0, 0, 1, 0] },
        ]
    );
}

#[test]
fn apply_mutations_wraps_each_field_at_its_count() {
    let mut table = RuleSets::new(3, 2, 4);
    table.rules_from_draws(&small_draws());
    let log: Vec<Mutation> = table.apply_mutations(&vec![(4, 0), (1, 1), (1, 2)]);
    assert_eq!(table.rules()[4], [0, 0, 0, 1, 0]);
    assert_eq!(table.rules()[1], [0, 0, 0, 0, 2]);
    assert_eq!(log[2].rule, [0, 0, 0, 0, 2]);
}

#[test]
fn apply_mutations_with_no_edit_changes_nothing() {
    let mut table = RuleSets::new(3, 2, 4);
    let log: Vec<Mutation> = table.apply_mutations(&Vec::new());
    assert!(log.is_empty());
    assert!(table.rules().is_empty());
    table.rules_from_draws(&small_draws());
    let log: Vec<Mutation> = table.apply_mutations(&Vec::new());
    assert!(log.is_empty());
    assert_eq!(table.rules(), &small_table());
}

#[test]
fn mutate_ruleset_changes_only_what_its_log_names() {
    for seed in 0..10u64 {
        for changes in [0u8, 1, 2, 5, 40] {
            let mut rng = SmallRng::seed_from_u64(seed);
            let mut table = RuleSets::new(5, 3, 4);
            table.random_ruleset(&mut rng);
            let before: Vec<[u8; 5]> = table.rules().clone();
            let log: Vec<Mutation> = table.mutate_ruleset(changes, &mut rng);
            assert_eq!(log.len(), changes as usize);
            let after: &Vec<[u8; 5]> = table.rules();
            assert_eq!(after.len(), before.len());
            let mut replayed: Vec<[u8; 5]> = before.clone();
            for edit in &log {
                assert!(edit.rule_index < before.len());
                assert!(edit.field < 3);
                let previous: [u8; 5] = replayed[edit.rule_index];
                let next: [u8; 5] = mutated_rule(previous, edit.field, 5, 3);
                assert_ne!(next[edit.field], previous[edit.field]);
                for field in 0..5usize {
                    if field != edit.field {
                        assert_eq!(next[field], previous[field]);
                    }
                }
                replayed[edit.rule_index] = next;
                assert_eq!(edit.rule, next);
            }
            assert_eq!(after, &replayed);
            for (index, rule) in after.iter().enumerate() {
                assert_eq!(rule[3], before[index][3]);
                assert_eq!(rule[4], before[index][4]);
                if log.iter().all(|edit| edit.rule_index != index) {
                    assert_eq!(rule, &before[index]);
                }
            }
        }
    }
}

#[test]
fn mutate_ruleset_with_one_change_changes_one_entry() {
    let mut rng = SmallRng::seed_from_u64(9);
    let mut table = RuleSets::new(4, 2, 4);
    table.random_ruleset(&mut rng);
    let before: Vec<[u8; 5]> = table.rules().clone();
    let log: Vec<Mutation> = table.mutate_ruleset(1, &mut rng);
    let mut changed: usize = 0;
    for (index, rule) in table.rules().iter().enumerate() {
        for field in 0..5usize {
            if rule[field] != before[index][field] {
                changed += 1;
                assert_eq!(index, log[0].rule_index);
                assert_eq!(field, log[0].field);
            }
        }
    }
    assert_eq!(changed, 1);
}

#[test]
fn mutate_ruleset_without_changes_needs_no_rules() {
    let mut rng = SmallRng::seed_from_u64(9);
    let mut table = RuleSets::new(4, 2, 4);
    let log: Vec<Mutation> = table.mutate_ruleset(0, &mut rng);
    assert!(log.is_empty());
    assert!(table.rules().is_empty());
}

#[test]
fn mutate_ruleset_is_the_same_for_the_same_seed() {
    let mut first_rng = SmallRng::seed_from_u64(77);
    let mut second_rng = SmallRng::seed_from_u64(77);
    let mut first = RuleSets::new(6, 4, 6);
    let mut second = RuleSets::new(6, 4, 6);
    first.random_ruleset(&mut first_rng);
    second.random_ruleset(&mut second_rng);
    let first_log: Vec<Mutation> = first.mutate_ruleset(12, &mut first_rng);
    let second_log: Vec<Mutation> = second.mutate_ruleset(12, &mut second_rng);
    assert_eq!(first_log, second_log);
    assert_eq!(first.rules(), second.rules());
}

#[test]
fn possible_rules_and_inputs_count_the_combinations() {
    let table = RuleSets::new(4, 2, 4);
    assert_eq!(table.possible_rules(), 256);
    assert_eq!(table.possible_inputs(), 8);
    let table = RuleSets::new(3, 2, 1);
    assert_eq!(table.possible_rules(), 36);
    assert_eq!(table.possible_inputs(), 6);
    let table = RuleSets::new(255, 255, 255);
    assert_eq!(table.possible_rules(), 1078203909375);
    assert_eq!(table.possible_inputs(), 65025);
}

#[test]
fn possible_rule_sets_is_a_binomial_coefficient() {
    assert_eq!(RuleSets::new(4, 2, 4).possible_rule_sets(), Some(409663695276000));
    assert_eq!(RuleSets::new(3, 2, 1).possible_rule_sets(), Some(1947792));
    assert_eq!(RuleSets::new(255, 255, 255).possible_rule_sets(), None);
}

#[test]
fn binom_counts_choices() {
    assert_eq!(RuleSets::binom(0, 0), Some(1));
    assert_eq!(RuleSets::binom(5, 0), Some(1));
    assert_eq!(RuleSets::binom(5, 5), Some(1));
    assert_eq!(RuleSets::binom(5, 2), Some(10));
    assert_eq!(RuleSets::binom(10, 3), Some(120));
    assert_eq!(RuleSets::binom(52, 5), Some(2598960));
    assert_eq!(RuleSets::binom(125, 62), Some(3017467217880703353213932318284164000));
    assert_eq!(RuleSets::binom(u128::MAX, 1), Some(u128::MAX));
}

#[test]
fn binom_of_more_than_there_are_is_zero() {
    assert_eq!(RuleSets::binom(0, 1), Some(0));
    assert_eq!(RuleSets::binom(3, 4), Some(0));
    assert_eq!(RuleSets::binom(7, u128::MAX), Some(0));
}

#[test]
fn binom_gives_up_where_a_product_does_not_fit() {
    assert_eq!(RuleSets::binom(126, 63), None);
    assert_eq!(RuleSets::binom(132, 66), None);
    assert_eq!(RuleSets::binom(u128::MAX, 2), None);
}

#[test]
fn table_renders_heading_and_rules() {
    let mut table = RuleSets::new(3, 2, 4);
    assert_eq!(
        table.render(),
        "3 states, 2 symbols\nrules of (3 states, 2 symbols)-turing machine.\n"
    );
    table.rules_from_draws(&small_draws());
    let expected: &str = "3 states, 2 symbols\n\
rules of (3 states, 2 symbols)-turing machine.\n   \
#  0: ( 0 0 ) -> ( 1 1 movement #1 )\n   \
#  1: ( 0 1 ) -> ( 2 0 movement #2 )\n   \
#  2: ( 1 0 ) -> ( 1 0 movement #3 )\n   \
#  3: ( 1 1 ) -> ( 2 0 movement #1 )\n   \
#  4: ( 2 0 ) -> ( 0 1 movement #0 )\n   \
#  5: ( 2 1 ) -> ( 1 0 movement #0 )\n";
    assert_eq!(table.render(), expected);
}

#[test]
fn table_renders_indices_of_two_and_three_digits() {
    let mut table = RuleSets::new(51, 2, 1);
    table.rules_from_draws(&vec![0; 615]);
    let text: String = table.render();
    let lines: Vec<&str> = text.lines().collect();
    assert_eq!(lines.len(), 104);
    assert_eq!(lines[0], "51 states, 2 symbols");
    assert_eq!(lines[2 + 9], "   #  9: ( 4 1 ) -> ( 0 0 movement #0 )");
    assert_eq!(lines[2 + 10], "   # 10: ( 5 0 ) -> ( 0 0 movement #0 )");
    assert_eq!(lines[2 + 99], "   # 99: ( 49 1 ) -> ( 0 0 movement #0 )");
    assert_eq!(lines[2 + 100], "   # 100: ( 50 0 ) -> ( 0 0 movement #0 )");
}

#[test]
fn mutation_renders_with_the_moved_field_marked() {
    let edit = Mutation { rule_index: 3, field: 1, rule: [1, 0, 2, 0, 1] };
    assert_eq!(edit.render(), "mutate rule #3 ( 1 0 ) -> ( 1 [0] 2 )");
    let edit = Mutation { rule_index: 12, field: 0, rule: [10, 200, 7, 0, 1] };
    assert_eq!(edit.render(), "mutate rule #12 ( 10 200 ) -> ( [10] 200 7 )");
    let edit = Mutation { rule_index: 0, field: 2, rule: [0, 0, 255, 0, 1] };
    assert_eq!(edit.render(), "mutate rule #0 ( 0 0 ) -> ( 0 0 [255] )");
    let edit = Mutation { rule_index: 0, field: 4, rule: [0, 0, 255, 0, 1] };
    assert_eq!(edit.render(), "mutate rule #0 ( 0 0 ) -> ( 0 0 255 )");
}
