//! Transition tables: their generation from a random source and their
//! mutation.

use crate::random::{draw_below, draw_index};
use crate::text::{
    decimal, push_decimal, push_decimal_pair, push_number, push_text, right_aligned, Render,
};
use rand::rngs::SmallRng;
use vstd::arithmetic::div_mod::{
    lemma_div_by_multiple, lemma_fundamental_div_mod, lemma_fundamental_div_mod_converse,
};
use vstd::prelude::*;

verus! {

/// A transition `(current state, current symbol) -> (next state, next symbol,
/// movement code)`, in this order.
pub type Rule = [u8; 5];

/// The least number of states of a machine.
pub const MIN_STATES: u8 = 3;

/// The least number of symbols of a machine.
pub const MIN_SYMBOLS: u8 = 2;

/// The least number of movement codes of a machine.
pub const MIN_MOVEMENTS: u8 = 1;

/// The number of rule fields that a mutation may touch: the current state,
/// the current symbol and the next state.
pub const MUTABLE_FIELDS: usize = 3;

/// `value` moved one step forward on a cycle of `bound` values.
pub open spec fn successor(value: u8, bound: u8) -> u8 {
    ((value + 1) % (bound as int)) as u8
}

/// `rule` with the field `field` moved one step forward: the current state
/// and the next state on the cycle of states, the current symbol on the
/// cycle of symbols. Any other field selector leaves the rule as it is.
pub open spec fn bumped(rule: Rule, field: int, states: u8, symbols: u8) -> Rule {
    if field == 0 {
        [successor(rule[0], states), rule[1], rule[2], rule[3], rule[4]]
    } else if field == 1 {
        [rule[0], successor(rule[1], symbols), rule[2], rule[3], rule[4]]
    } else if field == 2 {
        [rule[0], rule[1], successor(rule[2], states), rule[3], rule[4]]
    } else {
        rule
    }
}

/// Computes [`successor`].
pub fn next_on_cycle(value: u8, bound: u8) -> (next: u8)
    requires
        bound > 0,
    ensures
        next == successor(value, bound),
        next < bound,
{
    let wide: u16 = (value as u16 + 1) % (bound as u16);
    wide as u8
}

/// `value` moved `by` steps forward on a cycle of `bound` values.
pub fn moved_on(value: u8, by: u8, bound: u8) -> (next: u8)
    requires
        bound > 0,
    ensures
        next == (value + by) % (bound as int),
        next < bound,
{
    let wide: u16 = (value as u16 + by as u16) % (bound as u16);
    wide as u8
}

/// Computes [`bumped`].
pub fn mutated_rule(rule: Rule, field: usize, states: u8, symbols: u8) -> (next: Rule)
    requires
        states > 0,
        symbols > 0,
    ensures
        next == bumped(rule, field as int, states, symbols),
{
    let next: Rule = if field == 0 {
        [next_on_cycle(rule[0], states), rule[1], rule[2], rule[3], rule[4]]
    } else if field == 1 {
        [rule[0], next_on_cycle(rule[1], symbols), rule[2], rule[3], rule[4]]
    } else if field == 2 {
        [rule[0], rule[1], next_on_cycle(rule[2], states), rule[3], rule[4]]
    } else {
        rule
    };
    assert(next =~= bumped(rule, field as int, states, symbols));
    next
}

/// Whether every field of `rule` lies below the count that bounds it.
pub open spec fn in_range(rule: Rule, states: u8, symbols: u8, movements: u8) -> bool {
    &&& rule[0] < states
    &&& rule[1] < symbols
    &&& rule[2] < states
    &&& rule[3] < symbols
    &&& rule[4] < movements
}

/// Whether every rule of `rules` is [`in_range`].
pub open spec fn all_in_range(rules: Seq<Rule>, states: u8, symbols: u8, movements: u8) -> bool {
    forall|i: int| 0 <= i < rules.len() ==> in_range(#[trigger] rules[i], states, symbols, movements)
}

/// `rules` after the edits `picks`, applied from the first to the last. An
/// edit `(index, field)` replaces the rule at `index` by [`bumped`] of it.
pub open spec fn edited(
    rules: Seq<Rule>,
    picks: Seq<(usize, usize)>,
    states: u8,
    symbols: u8,
) -> Seq<Rule>
    decreases picks.len(),
{
    if picks.len() == 0 {
        rules
    } else {
        let before = edited(rules, picks.drop_last(), states, symbols);
        let (index, field) = picks.last();
        if index < before.len() {
            before.update(index as int, bumped(before[index as int], field as int, states, symbols))
        } else {
            before
        }
    }
}

/// The field `field` of the rule at `index`.
pub open spec fn entry(rules: Seq<Rule>, index: int, field: int) -> u8 {
    rules[index][field]
}

/// Whether one of the edits `picks` is aimed at the field `field` of the rule
/// at `index`, and that field is one that an edit can change.
pub open spec fn touched(picks: Seq<(usize, usize)>, index: int, field: int) -> bool {
    field < MUTABLE_FIELDS && exists|k: int|
        0 <= k < picks.len() && (#[trigger] picks[k]).0 == index && picks[k].1 == field
}

/// Whether `after` differs from `before` at most in the entries that the
/// edits `picks` are aimed at: the tables have the same length, and every
/// other entry is the same in both.
pub open spec fn within_scope(before: Seq<Rule>, after: Seq<Rule>, picks: Seq<(usize, usize)>) -> bool {
    &&& after.len() == before.len()
    &&& forall|index: int, field: int|
        0 <= index < before.len() && 0 <= field < 5 ==> touched(picks, index, field)
            || #[trigger] entry(after, index, field) == entry(before, index, field)
}

/// Whether `rule` is the one for the pair `(state, symbol)`.
pub open spec fn has_prefix(rule: Rule, state: u8, symbol: u8) -> bool {
    rule[0] == state && rule[1] == symbol
}

/// Whether the rule at `index` is for the pair `(state, symbol)` and no
/// other rule of `rules` is.
pub open spec fn sole_match(rules: Seq<Rule>, state: u8, symbol: u8, index: int) -> bool {
    &&& 0 <= index < rules.len()
    &&& has_prefix(rules[index], state, symbol)
    &&& forall|other: int|
        0 <= other < rules.len() && has_prefix(#[trigger] rules[other], state, symbol) ==> other
            == index
}

/// Whether exactly one rule of `rules` is for the pair `(state, symbol)`.
pub open spec fn has_sole_rule(rules: Seq<Rule>, state: u8, symbol: u8) -> bool {
    exists|index: int| sole_match(rules, state, symbol, index)
}

/// Whether `rules` is a total function of the pairs of a state below
/// `states` and a symbol below `symbols`: each pair has exactly one rule.
pub open spec fn total(rules: Seq<Rule>, states: u8, symbols: u8) -> bool {
    forall|state: u8, symbol: u8|
        state < states && symbol < symbols ==> #[trigger] has_sole_rule(rules, state, symbol)
}

/// Whether `rules` holds one rule per pair, the states in ascending order
/// and, within a state, the symbols in ascending order.
pub open spec fn row_major(rules: Seq<Rule>, states: u8, symbols: u8) -> bool {
    &&& rules.len() == states * symbols
    &&& forall|cell: int|
        0 <= cell < rules.len() ==> (#[trigger] rules[cell])[0] == cell / (symbols as int)
            && rules[cell][1] == cell % (symbols as int)
}

/// The number of draws that a table for `states` states and `symbols`
/// symbols is made from: three to start with and six for each rule.
pub open spec fn draws_needed(states: u8, symbols: u8) -> int {
    3 + 6 * (states * symbols)
}

/// The count that bounds the draws of a lane: the lanes 0, 1 and 2 are those
/// of the next state, the next symbol and the movement code.
pub open spec fn lane_bound(lane: int, states: u8, symbols: u8, movements: u8) -> int {
    if lane == 0 {
        states as int
    } else if lane == 1 {
        symbols as int
    } else {
        movements as int
    }
}

/// Whether `draws` is a sequence that a random source can give for a table:
/// long enough, and each draw below the bound of its lane. The lanes take
/// turns, so the draw at `j` belongs to the lane `j % 3`.
pub open spec fn admissible(draws: Seq<u8>, states: u8, symbols: u8, movements: u8) -> bool {
    &&& draws.len() == draws_needed(states, symbols)
    &&& forall|j: int|
        0 <= j < draws.len() ==> (#[trigger] draws[j]) < lane_bound(j % 3, states, symbols, movements)
}

/// The running value of a lane when the rule at `cell` is made. It starts
/// as the lane's first draw and, after each rule, moves on by a further draw
/// on the cycle of `bound` values.
pub open spec fn accumulator(draws: Seq<u8>, lane: int, bound: int, cell: int) -> int
    decreases cell,
{
    if cell <= 0 {
        draws[lane] as int
    } else {
        (accumulator(draws, lane, bound, cell - 1) + draws[6 * cell + lane]) % bound
    }
}

/// The value that a lane gives to the rule at `cell`: the lane's running
/// value moved on by a draw of the rule's own.
pub open spec fn drawn_field(draws: Seq<u8>, lane: int, bound: int, cell: int) -> int {
    (accumulator(draws, lane, bound, cell) + draws[6 * cell + 3 + lane]) % bound
}

/// The rule at `cell` of the table made from `draws`.
pub open spec fn drawn_rule(draws: Seq<u8>, states: u8, symbols: u8, movements: u8, cell: int) -> Rule {
    [
        (cell / (symbols as int)) as u8,
        (cell % (symbols as int)) as u8,
        drawn_field(draws, 0, states as int, cell) as u8,
        drawn_field(draws, 1, symbols as int, cell) as u8,
        drawn_field(draws, 2, movements as int, cell) as u8,
    ]
}

/// The table made from `draws`: one rule per pair of a state and a symbol.
pub open spec fn generated(draws: Seq<u8>, states: u8, symbols: u8, movements: u8) -> Seq<Rule> {
    Seq::new((states * symbols) as nat, |cell: int| drawn_rule(draws, states, symbols, movements, cell))
}

/// The two lines that head a table shown as text.
pub open spec fn heading(states: u8, symbols: u8) -> Seq<char> {
    decimal(states as nat) + " states, "@ + decimal(symbols as nat) + " symbols\nrules of ("@
        + decimal(states as nat) + " states, "@ + decimal(symbols as nat)
        + " symbols)-turing machine.\n"@
}

/// The line that shows the rule at `index`.
pub open spec fn rule_line(index: nat, rule: Rule) -> Seq<char> {
    "   # "@ + right_aligned(decimal(index), 2) + ": ( "@ + decimal(rule[0] as nat) + " "@
        + decimal(rule[1] as nat) + " ) -> ( "@ + decimal(rule[2] as nat) + " "@ + decimal(
        rule[3] as nat,
    ) + " movement #"@ + decimal(rule[4] as nat) + " )\n"@
}

/// The lines that show `rules`, one per rule and in their order.
pub open spec fn rule_lines(rules: Seq<Rule>) -> Seq<char>
    decreases rules.len(),
{
    if rules.len() == 0 {
        Seq::empty()
    } else {
        rule_lines(rules.drop_last()) + rule_line((rules.len() - 1) as nat, rules.last())
    }
}

/// A field of a mutated rule as the record of the edit shows it: in square
/// brackets where it is the field that was moved, and with a blank behind it.
pub open spec fn marked_field(value: u8, marked: bool) -> Seq<char> {
    if marked {
        "["@ + decimal(value as nat) + "] "@
    } else {
        decimal(value as nat) + " "@
    }
}

/// The number of ways to choose `k` things out of `n`.
pub open spec fn binomial(n: nat, k: nat) -> nat
    decreases n,
{
    if k == 0 {
        1
    } else if n == 0 {
        0
    } else {
        binomial((n - 1) as nat, (k - 1) as nat) + binomial((n - 1) as nat, k)
    }
}

/// Whether the product that leads from `binomial(n, i)` to
/// `binomial(n, i + 1)` is too large for a `u128` at some `i` below `k`.
pub open spec fn binomial_overflows(n: nat, k: nat) -> bool {
    k <= n && exists|i: nat| i < k && #[trigger] binomial(n, i) * (n - i) > u128::MAX
}

/// What a table is: the counts it was made for and its rules in order.
pub struct RuleTable {
    pub states: u8,
    pub symbols: u8,
    pub movements: u8,
    pub rules: Seq<Rule>,
}

/// The record of one edit: the rule that was picked, the field that was
/// moved forward, and the rule as it stands after the edit.
#[derive(Clone, Copy, Debug, PartialEq, Eq)]
pub struct Mutation {
    pub rule_index: usize,
    pub field: usize,
    pub rule: Rule,
}

impl Render for Mutation {
    /// The rule's index, its pair as the edit left it, and its first three
    /// fields with the moved one marked.
    open spec fn rendering(&self) -> Seq<char> {
        "mutate rule #"@ + decimal(self.rule_index as nat) + " ( "@ + decimal(self.rule[0] as nat)
            + " "@ + decimal(self.rule[1] as nat) + " ) -> ( "@
            + marked_field(self.rule[0], self.field == 0)
            + marked_field(self.rule[1], self.field == 1)
            + marked_field(self.rule[2], self.field == 2) + ")"@
    }

    fn render(&self) -> (text: String) {
        let mut text = String::new();
        let base = Ghost(text@);
        text.append("mutate rule #");
        let line = Ghost("mutate rule #"@);
        assert(text@ =~= base@ + line@);
        let line = push_number(&mut text, self.rule_index, base, line);
        let line = push_text(&mut text, " ( ", base, line);
        let line = push_number(&mut text, self.rule[0] as usize, base, line);
        let line = push_text(&mut text, " ", base, line);
        let line = push_number(&mut text, self.rule[1] as usize, base, line);
        let line = push_text(&mut text, " ) -> ( ", base, line);
        let line = push_marked_field(&mut text, self.rule[0], self.field == 0, base, line);
        let line = push_marked_field(&mut text, self.rule[1], self.field == 1, base, line);
        let line = push_marked_field(&mut text, self.rule[2], self.field == 2, base, line);
        let line = push_text(&mut text, ")", base, line);
        assert(text@ =~= line@);
        text
    }
}

/// Appends [`marked_field`] to a text that stands as `base` followed by
/// `line`, and returns the line as it is then.
fn push_marked_field(
    out: &mut String,
    value: u8,
    marked: bool,
    base: Ghost<Seq<char>>,
    line: Ghost<Seq<char>>,
) -> (next: Ghost<Seq<char>>)
    requires
        old(out)@ == base@ + line@,
    ensures
        next@ == line@ + marked_field(value, marked),
        final(out)@ == base@ + next@,
{
    let ghost before = out@;
    if marked {
        out.append("[");
        push_decimal(out, value as usize);
        out.append("] ");
    } else {
        push_decimal(out, value as usize);
        out.append(" ");
    }
    assert(out@ =~= before + marked_field(value, marked));
    assert(out@ =~= base@ + (line@ + marked_field(value, marked)));
    Ghost(line@ + marked_field(value, marked))
}

/// Appends [`rule_line`] to `out`.
fn push_rule_line(out: &mut String, index: usize, rule: Rule)
    ensures
        final(out)@ == old(out)@ + rule_line(index as nat, rule),
{
    let base = Ghost(out@);
    out.append("   # ");
    let line = Ghost("   # "@);
    push_decimal_pair(out, index);
    let line = Ghost(line@ + right_aligned(decimal(index as nat), 2));
    assert(out@ =~= base@ + line@);
    let line = push_text(out, ": ( ", base, line);
    let line = push_number(out, rule[0] as usize, base, line);
    let line = push_text(out, " ", base, line);
    let line = push_number(out, rule[1] as usize, base, line);
    let line = push_text(out, " ) -> ( ", base, line);
    let line = push_number(out, rule[2] as usize, base, line);
    let line = push_text(out, " ", base, line);
    let line = push_number(out, rule[3] as usize, base, line);
    let line = push_text(out, " movement #", base, line);
    let line = push_number(out, rule[4] as usize, base, line);
    push_text(out, " )\n", base, line);
}

/// The edits that a log of mutations records.
pub open spec fn picks_of(log: Seq<Mutation>) -> Seq<(usize, usize)> {
    Seq::new(log.len(), |k: int| (log[k].rule_index, log[k].field))
}

/// The rule that the edit `picks[k]` picked, as that edit left it.
pub open spec fn rule_after(
    rules: Seq<Rule>,
    picks: Seq<(usize, usize)>,
    k: int,
    states: u8,
    symbols: u8,
) -> Rule {
    edited(rules, picks.take(k + 1), states, symbols)[picks[k].0 as int]
}

/// Whether `log` records the edits `picks` made on `rules`, one entry per
/// edit, each with the picked rule as that edit left it.
pub open spec fn records(
    log: Seq<Mutation>,
    rules: Seq<Rule>,
    picks: Seq<(usize, usize)>,
    states: u8,
    symbols: u8,
) -> bool {
    &&& log.len() == picks.len()
    &&& forall|k: int|
        0 <= k < log.len() ==> {
            &&& (#[trigger] log[k]).rule_index == picks[k].0
            &&& log[k].field == picks[k].1
            &&& log[k].rule == rule_after(rules, picks, k, states, symbols)
        }
}

/// A transition table for a machine with a fixed number of states, symbols
/// and movement codes.
pub struct RuleSets {
    states: u8,
    symbols: u8,
    movements: u8,
    rules: Vec<Rule>,
}

impl View for RuleSets {
    type V = RuleTable;

    closed spec fn view(&self) -> RuleTable {
        RuleTable {
            states: self.states,
            symbols: self.symbols,
            movements: self.movements,
            rules: self.rules@,
        }
    }
}

impl Render for RuleSets {
    /// The heading, then one line per rule.
    open spec fn rendering(&self) -> Seq<char> {
        heading(self@.states, self@.symbols) + rule_lines(self@.rules)
    }

    fn render(&self) -> (text: String) {
        let mut text = String::new();
        let base = Ghost(text@);
        push_decimal(&mut text, self.states as usize);
        let line = Ghost(decimal(self.states as nat));
        assert(text@ =~= base@ + line@);
        let line = push_text(&mut text, " states, ", base, line);
        let line = push_number(&mut text, self.symbols as usize, base, line);
        let line = push_text(&mut text, " symbols\nrules of (", base, line);
        let line = push_number(&mut text, self.states as usize, base, line);
        let line = push_text(&mut text, " states, ", base, line);
        let line = push_number(&mut text, self.symbols as usize, base, line);
        let line = push_text(&mut text, " symbols)-turing machine.\n", base, line);
        assert(text@ =~= heading(self.states, self.symbols)) by {
            assert(text@ =~= line@);
        }
        assert(self.rules@.take(0) =~= Seq::<Rule>::empty());
        assert(text@ =~= heading(self.states, self.symbols) + rule_lines(self.rules@.take(0)));
        let mut index: usize = 0;
        while index < self.rules.len()
            invariant
                index <= self.rules@.len(),
                text@ == heading(self.states, self.symbols) + rule_lines(self.rules@.take(index as int)),
            decreases self.rules@.len() - index,
        {
            push_rule_line(&mut text, index, self.rules[index]);
            proof {
                let upto = self.rules@.take(index as int + 1);
                assert(upto.drop_last() =~= self.rules@.take(index as int));
                assert(text@ =~= heading(self.states, self.symbols) + rule_lines(upto));
            }
            index += 1;
        }
        assert(self.rules@.take(index as int) =~= self.rules@);
        text
    }
}

impl RuleSets {
    #[verifier::type_invariant]
    spec fn inv(&self) -> bool {
        &&& self.states >= MIN_STATES
        &&& self.symbols >= MIN_SYMBOLS
        &&& self.movements >= MIN_MOVEMENTS
        &&& (self.rules@.len() == 0 || self.rules@.len() == self.states * self.symbols)
        &&& all_in_range(self.rules@, self.states, self.symbols, self.movements)
    }

    /// An empty table for the given counts, each raised to its floor where
    /// it is below.
    pub fn new(states: u8, symbols: u8, movements: u8) -> (table: Self)
        ensures
            table@.states == if states < MIN_STATES { MIN_STATES } else { states },
            table@.symbols == if symbols < MIN_SYMBOLS { MIN_SYMBOLS } else { symbols },
            table@.movements == if movements < MIN_MOVEMENTS { MIN_MOVEMENTS } else { movements },
            table@.rules == Seq::<Rule>::empty(),
    {
        RuleSets {
            states: if states < MIN_STATES { MIN_STATES } else { states },
            symbols: if symbols < MIN_SYMBOLS { MIN_SYMBOLS } else { symbols },
            movements: if movements < MIN_MOVEMENTS { MIN_MOVEMENTS } else { movements },
            rules: Vec::new(),
        }
    }

    /// The number of states.
    pub fn states(&self) -> (states: u8)
        ensures
            states == self@.states,
            states >= MIN_STATES,
    {
        proof {
            use_type_invariant(self);
        }
        self.states
    }

    /// The number of symbols.
    pub fn symbols(&self) -> (symbols: u8)
        ensures
            symbols == self@.symbols,
            symbols >= MIN_SYMBOLS,
    {
        proof {
            use_type_invariant(self);
        }
        self.symbols
    }

    /// The number of movement codes.
    pub fn movements(&self) -> (movements: u8)
        ensures
            movements == self@.movements,
            movements >= MIN_MOVEMENTS,
    {
        proof {
            use_type_invariant(self);
        }
        self.movements
    }

    /// The rules in order: none before a table is made, and one per pair of
    /// a state and a symbol from then on, each field below its count.
    pub fn rules(&self) -> (rules: &Vec<Rule>)
        ensures
            rules@ == self@.rules,
            rules@.len() == 0 || rules@.len() == self@.states * self@.symbols,
            all_in_range(rules@, self@.states, self@.symbols, self@.movements),
    {
        proof {
            use_type_invariant(self);
        }
        &self.rules
    }

    /// The number of rules that can be written down for the counts of this
    /// table: a pair, a next state, a next symbol and a movement code each.
    pub fn possible_rules(&self) -> (count: u128)
        ensures
            count == self@.states * self@.states * self@.symbols * self@.symbols * self@.movements,
    {
        let states: u128 = self.states as u128;
        let symbols: u128 = self.symbols as u128;
        let movements: u128 = self.movements as u128;
        assert(states * states <= 65025) by (nonlinear_arith)
            requires
                states <= 255,
        ;
        let pairs_of_states: u128 = states * states;
        assert(pairs_of_states * symbols <= 16581375) by (nonlinear_arith)
            requires
                pairs_of_states <= 65025,
                symbols <= 255,
        ;
        let with_symbol: u128 = pairs_of_states * symbols;
        assert(with_symbol * symbols <= 4228250625) by (nonlinear_arith)
            requires
                with_symbol <= 16581375,
                symbols <= 255,
        ;
        let with_symbols: u128 = with_symbol * symbols;
        assert(with_symbols * movements <= 1078203909375) by (nonlinear_arith)
            requires
                with_symbols <= 4228250625,
                movements <= 255,
        ;
        with_symbols * movements
    }

    /// The number of pairs of a state and a symbol.
    pub fn possible_inputs(&self) -> (count: u128)
        ensures
            count == self@.states * self@.symbols,
    {
        let states: u128 = self.states as u128;
        let symbols: u128 = self.symbols as u128;
        assert(states * symbols <= 65025) by (nonlinear_arith)
            requires
                states <= 255,
                symbols <= 255,
        ;
        states * symbols
    }

    /// The number of ways to choose as many rules as there are pairs out of
    /// the possible rules. `None` where [`RuleSets::binom`] cannot compute
    /// it in a `u128`.
    pub fn possible_rule_sets(&self) -> (count: Option<u128>)
        ensures
            count == Self::binom_model(
                (self@.states * self@.states * self@.symbols * self@.symbols * self@.movements) as nat,
                (self@.states * self@.symbols) as nat,
            ),
    {
        Self::binom(self.possible_rules(), self.possible_inputs())
    }

    /// What [`RuleSets::binom`] returns: the binomial coefficient, unless a
    /// product on the way to it is too large.
    pub open spec fn binom_model(n: nat, k: nat) -> Option<u128> {
        if binomial_overflows(n, k) {
            None
        } else {
            Some(binomial(n, k) as u128)
        }
    }

    /// The binomial coefficient of `n` and `k`, computed by multiplying and
    /// dividing in turn. `None` where one of the products does not fit.
    pub fn binom(n: u128, k: u128) -> (count: Option<u128>)
        ensures
            count == Self::binom_model(n as nat, k as nat),
            count is Some ==> count.unwrap() == binomial(n as nat, k as nat),
    {
        if k > n {
            proof {
                lemma_binomial_beyond(n as nat, k as nat);
            }
            return Some(0);
        }
        let mut res: u128 = 1;
        let mut i: u128 = 0;
        while i < k
            invariant
                i <= k <= n,
                res == binomial(n as nat, i as nat),
                forall|j: nat| j < i ==> #[trigger] binomial(n as nat, j) * (n - j) <= u128::MAX,
            decreases k - i,
        {
            proof {
                lemma_binomial_step(n as nat, i as nat);
            }
            match res.checked_mul(n - i) {
                None => {
                    return None;
                },
                Some(product) => {
                    proof {
                        let next = binomial(n as nat, (i + 1) as nat) as int;
                        assert(product == next * (i + 1)) by (nonlinear_arith)
                            requires
                                product == res * (n - i),
                                (i + 1) * next == (n - i) * res,
                        ;
                        lemma_div_by_multiple(next, i + 1);
                    }
                    res = product / (i + 1);
                },
            }
            i += 1;
        }
        Some(res)
    }

    /// Replaces the rules by the table made from `draws`, of which the first
    /// [`draws_needed`] are used: one rule per pair of a state and a symbol,
    /// the states in ascending order and, within a state, the symbols.
    pub fn rules_from_draws(&mut self, draws: &Vec<u8>)
        requires
            draws@.len() >= draws_needed(old(self)@.states, old(self)@.symbols),
        ensures
            final(self)@.states == old(self)@.states,
            final(self)@.symbols == old(self)@.symbols,
            final(self)@.movements == old(self)@.movements,
            final(self)@.rules == generated(
                draws@,
                old(self)@.states,
                old(self)@.symbols,
                old(self)@.movements,
            ),
            row_major(final(self)@.rules, old(self)@.states, old(self)@.symbols),
            all_in_range(
                final(self)@.rules,
                old(self)@.states,
                old(self)@.symbols,
                old(self)@.movements,
            ),
            total(final(self)@.rules, old(self)@.states, old(self)@.symbols),
    {
        proof {
            use_type_invariant(&*self);
        }
        let states: u8 = self.states;
        let symbols: u8 = self.symbols;
        let movements: u8 = self.movements;
        let mut rules: Vec<Rule> = Vec::new();
        let mut next_state: u8 = draws[0];
        let mut next_symbol: u8 = draws[1];
        let mut movement: u8 = draws[2];
        let mut cell: usize = 0;
        let mut state: u8 = 0;
        while state < states
            invariant
                states >= MIN_STATES,
                symbols >= MIN_SYMBOLS,
                movements >= MIN_MOVEMENTS,
                draws@.len() >= draws_needed(states, symbols),
                state <= states,
                cell == state * symbols,
                rules@.len() == cell,
                forall|j: int|
                    0 <= j < cell ==> #[trigger] rules@[j] == drawn_rule(
                        draws@,
                        states,
                        symbols,
                        movements,
                        j,
                    ),
                next_state == accumulator(draws@, 0, states as int, cell as int),
                next_symbol == accumulator(draws@, 1, symbols as int, cell as int),
                movement == accumulator(draws@, 2, movements as int, cell as int),
            decreases states - state,
        {
            let mut symbol: u8 = 0;
            while symbol < symbols
                invariant
                    states >= MIN_STATES,
                    symbols >= MIN_SYMBOLS,
                    movements >= MIN_MOVEMENTS,
                    draws@.len() >= draws_needed(states, symbols),
                    state < states,
                    symbol <= symbols,
                    cell == state * symbols + symbol,
                    rules@.len() == cell,
                    forall|j: int|
                        0 <= j < cell ==> #[trigger] rules@[j] == drawn_rule(
                            draws@,
                            states,
                            symbols,
                            movements,
                            j,
                        ),
                    next_state == accumulator(draws@, 0, states as int, cell as int),
                    next_symbol == accumulator(draws@, 1, symbols as int, cell as int),
                    movement == accumulator(draws@, 2, movements as int, cell as int),
                decreases symbols - symbol,
            {
                proof {
                    lemma_cell_of_pair(state as int, symbol as int, states as int, symbols as int);
                    assert(cell < states * symbols);
                    assert(6 * cell + 8 < draws.len());
                }
                let at: usize = 6 * cell;
                let rule: Rule = [
                    state,
                    symbol,
                    moved_on(next_state, draws[at + 3], states),
                    moved_on(next_symbol, draws[at + 4], symbols),
                    moved_on(movement, draws[at + 5], movements),
                ];
                assert(rule =~= drawn_rule(draws@, states, symbols, movements, cell as int));
                rules.push(rule);
                next_state = moved_on(next_state, draws[at + 6], states);
                next_symbol = moved_on(next_symbol, draws[at + 7], symbols);
                movement = moved_on(movement, draws[at + 8], movements);
                symbol += 1;
                cell += 1;
                assert(state * symbols + symbol == cell) by (nonlinear_arith)
                    requires
                        cell == state * symbols + (symbol - 1) + 1,
                ;
            }
            proof {
                assert((state + 1) * symbols == state * symbols + symbols) by (nonlinear_arith);
            }
            state += 1;
        }
        proof {
            assert(rules@ =~= generated(draws@, states, symbols, movements));
            lemma_generated_shape(draws@, states, symbols, movements);
            lemma_row_major_total(rules@, states, symbols);
        }
        self.rules = rules;
    }

    /// Replaces the rules by a table drawn from `rng`.
    ///
    /// The draws are taken in the order in which [`generated`] reads them:
    /// three running values to start with, then for each rule its three
    /// fields and the three steps by which the running values move on.
    /// Whatever is drawn, the table is a total function of the pairs.
    pub fn random_ruleset(&mut self, rng: &mut SmallRng)
        ensures
            final(self)@.states == old(self)@.states,
            final(self)@.symbols == old(self)@.symbols,
            final(self)@.movements == old(self)@.movements,
            exists|draws: Seq<u8>|
                admissible(draws, old(self)@.states, old(self)@.symbols, old(self)@.movements)
                    && final(self)@.rules == generated(
                    draws,
                    old(self)@.states,
                    old(self)@.symbols,
                    old(self)@.movements,
                ),
            row_major(final(self)@.rules, old(self)@.states, old(self)@.symbols),
            all_in_range(
                final(self)@.rules,
                old(self)@.states,
                old(self)@.symbols,
                old(self)@.movements,
            ),
            total(final(self)@.rules, old(self)@.states, old(self)@.symbols),
    {
        proof {
            use_type_invariant(&*self);
        }
        let states: u8 = self.states;
        let symbols: u8 = self.symbols;
        let movements: u8 = self.movements;
        assert(states * symbols <= 255 * 255) by (nonlinear_arith)
            requires
                states <= 255,
                symbols <= 255,
        ;
        let needed: usize = 3 + 6 * (states as usize * symbols as usize);
        let mut draws: Vec<u8> = Vec::new();
        let mut lane: u8 = 0;
        while draws.len() < needed
            invariant
                states > 0,
                symbols > 0,
                movements > 0,
                draws@.len() <= needed,
                lane == draws@.len() % 3,
                forall|j: int|
                    0 <= j < draws@.len() ==> (#[trigger] draws@[j]) < lane_bound(
                        j % 3,
                        states,
                        symbols,
                        movements,
                    ),
            decreases needed - draws@.len(),
        {
            let bound: u8 = if lane == 0 {
                states
            } else if lane == 1 {
                symbols
            } else {
                movements
            };
            let drawn: u8 = draw_below(rng, bound);
            draws.push(drawn);
            lane = if lane == 2 {
                0
            } else {
                lane + 1
            };
        }
        assert(admissible(draws@, states, symbols, movements));
        self.rules_from_draws(&draws);
    }

    /// Applies the edits `picks` in order and returns one record per edit.
    pub fn apply_mutations(&mut self, picks: &Vec<(usize, usize)>) -> (log: Vec<Mutation>)
        requires
            forall|k: int| 0 <= k < picks@.len() ==> (#[trigger] picks@[k]).0 < old(self)@.rules.len(),
        ensures
            final(self)@.states == old(self)@.states,
            final(self)@.symbols == old(self)@.symbols,
            final(self)@.movements == old(self)@.movements,
            final(self)@.rules == edited(
                old(self)@.rules,
                picks@,
                old(self)@.states,
                old(self)@.symbols,
            ),
            records(log@, old(self)@.rules, picks@, old(self)@.states, old(self)@.symbols),
            within_scope(old(self)@.rules, final(self)@.rules, picks@),
    {
        proof {
            use_type_invariant(&*self);
        }
        let mut rules: Vec<Rule> = Vec::new();
        core::mem::swap(&mut self.rules, &mut rules);
        let mut log: Vec<Mutation> = Vec::new();
        let mut k: usize = 0;
        while k < picks.len()
            invariant
                k <= picks@.len(),
                forall|j: int|
                    0 <= j < picks@.len() ==> (#[trigger] picks@[j]).0 < old(self).rules@.len(),
                self.states == old(self).states,
                self.symbols == old(self).symbols,
                self.movements == old(self).movements,
                self.states >= MIN_STATES,
                self.symbols >= MIN_SYMBOLS,
                rules@.len() == old(self).rules@.len(),
                all_in_range(rules@, self.states, self.symbols, self.movements),
                rules@ == edited(old(self).rules@, picks@.take(k as int), self.states, self.symbols),
                records(log@, old(self).rules@, picks@.take(k as int), self.states, self.symbols),
            decreases picks@.len() - k,
        {
            let (index, field) = picks[k];
            let next: Rule = mutated_rule(rules[index], field, self.states, self.symbols);
            proof {
                let upto = picks@.take(k as int + 1);
                assert(upto.drop_last() =~= picks@.take(k as int));
                assert(upto.last() == picks@[k as int]);
                assert forall|j: int| 0 <= j < k implies rule_after(
                    old(self).rules@,
                    picks@.take(k as int),
                    j,
                    self.states,
                    self.symbols,
                ) == #[trigger] rule_after(old(self).rules@, upto, j, self.states, self.symbols) by {
                    assert(picks@.take(k as int).take(j + 1) =~= upto.take(j + 1));
                }
                assert(upto.take(k as int + 1) =~= upto);
                assert(in_range(next, self.states, self.symbols, self.movements));
            }
            rules.set(index, next);
            log.push(Mutation { rule_index: index, field, rule: next });
            k += 1;
        }
        assert(picks@.take(k as int) =~= picks@);
        proof {
            lemma_edits_scope(old(self).rules@, picks@, self.states, self.symbols);
        }
        self.rules = rules;
        log
    }

    /// Makes `changes` edits, each on a rule and a field that `rng` picks,
    /// and returns one record per edit.
    ///
    /// Every edit draws the rule's index first and then one of the three
    /// fields that can change. The movement code and the next symbol of a
    /// rule are never picked. Moving a current state or a current symbol can
    /// leave the table with two rules for one pair and none for another.
    pub fn mutate_ruleset(&mut self, changes: u8, rng: &mut SmallRng) -> (log: Vec<Mutation>)
        requires
            changes > 0 ==> old(self)@.rules.len() > 0,
        ensures
            final(self)@.states == old(self)@.states,
            final(self)@.symbols == old(self)@.symbols,
            final(self)@.movements == old(self)@.movements,
            log@.len() == changes,
            forall|k: int|
                0 <= k < log@.len() ==> (#[trigger] log@[k]).rule_index < old(self)@.rules.len()
                    && log@[k].field < MUTABLE_FIELDS,
            final(self)@.rules == edited(
                old(self)@.rules,
                picks_of(log@),
                old(self)@.states,
                old(self)@.symbols,
            ),
            records(log@, old(self)@.rules, picks_of(log@), old(self)@.states, old(self)@.symbols),
            within_scope(old(self)@.rules, final(self)@.rules, picks_of(log@)),
    {
        let mut picks: Vec<(usize, usize)> = Vec::new();
        let mut done: u8 = 0;
        while done < changes
            invariant
                done <= changes,
                picks@.len() == done,
                changes > 0 ==> self.rules@.len() > 0,
                forall|k: int|
                    0 <= k < picks@.len() ==> (#[trigger] picks@[k]).0 < self.rules@.len() && picks@[k].1
                        < MUTABLE_FIELDS,
            decreases changes - done,
        {
            let rule_index: usize = draw_index(rng, self.rules.len());
            let field: usize = draw_index(rng, MUTABLE_FIELDS);
            picks.push((rule_index, field));
            done += 1;
        }
        let log: Vec<Mutation> = self.apply_mutations(&picks);
        assert(picks_of(log@) =~= picks@);
        log
    }
}

/// The place of the pair `(state, symbol)` in a table in ascending order,
/// and the pair that stands at a place.
pub proof fn lemma_cell_of_pair(state: int, symbol: int, states: int, symbols: int)
    requires
        0 <= state < states,
        0 <= symbol < symbols,
    ensures
        0 <= state * symbols + symbol < states * symbols,
        (state * symbols + symbol) / symbols == state,
        (state * symbols + symbol) % symbols == symbol,
{
    assert(0 <= state * symbols && (state + 1) * symbols <= states * symbols && (state + 1) * symbols
        == state * symbols + symbols) by (nonlinear_arith)
        requires
            0 <= state < states,
            0 < symbols,
    ;
    lemma_fundamental_div_mod_converse(state * symbols + symbol, symbols, state, symbol);
}

/// A table in ascending order of its pairs is a total function: the rule
/// for a pair stands at one place and nowhere else.
pub proof fn lemma_row_major_total(rules: Seq<Rule>, states: u8, symbols: u8)
    requires
        row_major(rules, states, symbols),
    ensures
        total(rules, states, symbols),
{
    assert forall|state: u8, symbol: u8| state < states && symbol < symbols implies #[trigger] has_sole_rule(
        rules,
        state,
        symbol,
    ) by {
        let index = state * symbols + symbol;
        lemma_cell_of_pair(state as int, symbol as int, states as int, symbols as int);
        assert forall|other: int|
            0 <= other < rules.len() && has_prefix(#[trigger] rules[other], state, symbol) implies other
            == index by {
            lemma_fundamental_div_mod(other, symbols as int);
            assert(symbols * state == state * symbols) by (nonlinear_arith);
        }
        assert(sole_match(rules, state, symbol, index));
    }
}

/// Whatever the draws, the table made from them holds one rule per pair in
/// ascending order, each field below its count, and is a total function.
pub proof fn lemma_generated_shape(draws: Seq<u8>, states: u8, symbols: u8, movements: u8)
    requires
        states > 0,
        symbols > 0,
        movements > 0,
    ensures
        row_major(generated(draws, states, symbols, movements), states, symbols),
        all_in_range(generated(draws, states, symbols, movements), states, symbols, movements),
        total(generated(draws, states, symbols, movements), states, symbols),
{
    let rules = generated(draws, states, symbols, movements);
    assert forall|cell: int| 0 <= cell < rules.len() implies (#[trigger] rules[cell])[0] == cell / (
    symbols as int) && rules[cell][1] == cell % (symbols as int) && in_range(
        rules[cell],
        states,
        symbols,
        movements,
    ) by {
        let y = symbols as int;
        lemma_fundamental_div_mod(cell, y);
        assert(0 <= cell % y < y && 0 <= cell / y < states) by (nonlinear_arith)
            requires
                0 <= cell < states * y,
                0 < y,
                cell == y * (cell / y) + cell % y,
        ;
        assert(0 <= drawn_field(draws, 0, states as int, cell) < states);
        assert(0 <= drawn_field(draws, 1, symbols as int, cell) < symbols);
        assert(0 <= drawn_field(draws, 2, movements as int, cell) < movements);
    }
    lemma_row_major_total(rules, states, symbols);
}

/// There is no way to choose more things than there are.
pub proof fn lemma_binomial_beyond(n: nat, k: nat)
    requires
        k > n,
    ensures
        binomial(n, k) == 0,
    decreases n,
{
    if n > 0 {
        lemma_binomial_beyond((n - 1) as nat, (k - 1) as nat);
        lemma_binomial_beyond((n - 1) as nat, k);
    }
}

/// The step from one binomial coefficient to the next:
/// `(k + 1) * binomial(n, k + 1) == (n - k) * binomial(n, k)`.
pub proof fn lemma_binomial_step(n: nat, k: nat)
    ensures
        (k + 1) * binomial(n, (k + 1) as nat) == (n - k) * binomial(n, k),
    decreases n,
{
    let here = binomial(n, k) as int;
    let next = binomial(n, (k + 1) as nat) as int;
    if n == 0 {
        assert(next == 0);
        if k > 0 {
            assert(here == 0);
        }
        assert((k + 1) * next == (n - k) * here) by (nonlinear_arith)
            requires
                next == 0,
                n == 0,
                k > 0 ==> here == 0,
                k >= 0,
        ;
    } else {
        let m = (n - 1) as nat;
        let up = binomial(m, (k + 1) as nat) as int;
        let mid = binomial(m, k) as int;
        lemma_binomial_step(m, k);
        assert(next == mid + up);
        if k == 0 {
            assert(here == 1);
            assert(mid == 1);
            assert((k + 1) * next == (n - k) * here) by (nonlinear_arith)
                requires
                    k == 0,
                    here == 1,
                    mid == 1,
                    next == mid + up,
                    (k + 1) * up == (m - k) * mid,
                    m == n - 1,
            ;
        } else {
            let low = binomial(m, (k - 1) as nat) as int;
            lemma_binomial_step(m, (k - 1) as nat);
            assert(here == low + mid);
            assert((k + 1) * next == (n - k) * here) by (nonlinear_arith)
                requires
                    next == mid + up,
                    here == low + mid,
                    (k + 1) * up == (m - k) * mid,
                    ((k - 1) + 1) * mid == (m - (k - 1)) * low,
                    m == n - 1,
            ;
        }
    }
}

/// The running value of a lane at `cell` rests on the draws before
/// `6 * cell + 3` only.
pub proof fn lemma_accumulator_by_earlier_draws(
    first: Seq<u8>,
    second: Seq<u8>,
    lane: int,
    bound: int,
    cell: int,
)
    requires
        0 <= lane < 3,
        0 <= cell,
        forall|j: int| 0 <= j < 6 * cell + 3 ==> first[j] == second[j],
    ensures
        accumulator(first, lane, bound, cell) == accumulator(second, lane, bound, cell),
    decreases cell,
{
    if cell > 0 {
        lemma_accumulator_by_earlier_draws(first, second, lane, bound, cell - 1);
    }
}

/// A table is made in one way only: two sequences of draws that agree on
/// the draws that are needed give the same table for the same counts.
pub proof fn lemma_generated_by_needed_draws(
    first: Seq<u8>,
    second: Seq<u8>,
    states: u8,
    symbols: u8,
    movements: u8,
)
    requires
        first.len() >= draws_needed(states, symbols),
        second.len() >= draws_needed(states, symbols),
        forall|j: int| 0 <= j < draws_needed(states, symbols) ==> first[j] == second[j],
    ensures
        generated(first, states, symbols, movements) == generated(second, states, symbols, movements),
{
    let one = generated(first, states, symbols, movements);
    let other = generated(second, states, symbols, movements);
    assert forall|cell: int| 0 <= cell < one.len() implies one[cell] == other[cell] by {
        lemma_accumulator_by_earlier_draws(first, second, 0, states as int, cell);
        lemma_accumulator_by_earlier_draws(first, second, 1, symbols as int, cell);
        lemma_accumulator_by_earlier_draws(first, second, 2, movements as int, cell);
        assert(first[6 * cell + 3] == second[6 * cell + 3]);
        assert(first[6 * cell + 4] == second[6 * cell + 4]);
        assert(first[6 * cell + 5] == second[6 * cell + 5]);
    }
    assert(one =~= other);
}

/// Edits keep the length of a table.
pub proof fn lemma_edited_len(rules: Seq<Rule>, picks: Seq<(usize, usize)>, states: u8, symbols: u8)
    ensures
        edited(rules, picks, states, symbols).len() == rules.len(),
    decreases picks.len(),
{
    if picks.len() > 0 {
        lemma_edited_len(rules, picks.drop_last(), states, symbols);
    }
}

/// On a cycle of two values or more, the successor of a value is another
/// value, and it lies on the cycle.
pub proof fn lemma_successor_differs(value: u8, bound: u8)
    requires
        bound >= 2,
    ensures
        successor(value, bound) != value,
        successor(value, bound) < bound,
{
    let v = value as int;
    let b = bound as int;
    assert(0 <= (v + 1) % b < b && ((v + 1) % b != v)) by (nonlinear_arith)
        requires
            0 <= v,
            2 <= b,
    {
        if v + 1 < b {
            assert((v + 1) % b == v + 1);
        } else if v + 1 == b {
            assert((v + 1) % b == 0);
        }
    }
}

/// One edit moves the field it is aimed at to another value and leaves the
/// other four fields of the rule as they are.
pub proof fn lemma_bumped_one_field(rule: Rule, field: int, states: u8, symbols: u8)
    requires
        0 <= field < MUTABLE_FIELDS,
        states >= 2,
        symbols >= 2,
    ensures
        bumped(rule, field, states, symbols)[field] != rule[field],
        forall|other: int|
            0 <= other < 5 && other != field ==> bumped(rule, field, states, symbols)[other]
                == rule[other],
{
    lemma_successor_differs(rule[0], states);
    lemma_successor_differs(rule[1], symbols);
    lemma_successor_differs(rule[2], states);
}

/// However many edits are made, an entry that none of them is aimed at
/// keeps its value: the next symbol and the movement code of every rule,
/// every rule that was not picked, and the fields of a picked rule that
/// were not picked with it.
pub proof fn lemma_edits_scope(rules: Seq<Rule>, picks: Seq<(usize, usize)>, states: u8, symbols: u8)
    ensures
        within_scope(rules, edited(rules, picks, states, symbols), picks),
    decreases picks.len(),
{
    let after = edited(rules, picks, states, symbols);
    lemma_edited_len(rules, picks, states, symbols);
    if picks.len() > 0 {
        let earlier = picks.drop_last();
        let before = edited(rules, earlier, states, symbols);
        lemma_edits_scope(rules, earlier, states, symbols);
        lemma_edited_len(rules, earlier, states, symbols);
        let (index, field) = picks.last();
        assert forall|i: int, f: int| 0 <= i < rules.len() && 0 <= f < 5 implies touched(picks, i, f)
            || #[trigger] entry(after, i, f) == entry(rules, i, f) by {
            if touched(earlier, i, f) {
                let k = choose|k: int|
                    0 <= k < earlier.len() && (#[trigger] earlier[k]).0 == i && earlier[k].1 == f;
                assert(picks[k] == earlier[k]);
            } else if i == index && f == field && f < MUTABLE_FIELDS {
                assert(picks[picks.len() - 1] == picks.last());
            } else {
                assert(entry(before, i, f) == entry(rules, i, f));
            }
        }
    }
}

} // verus!
