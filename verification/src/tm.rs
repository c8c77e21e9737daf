//! The machine: a control state, a transition table and a tape, moved on one
//! step at a time.

use crate::rulesets::{
    all_in_range, draws_needed, edited, generated, has_prefix, has_sole_rule,
    lemma_generated_by_needed_draws, sole_match, total, Rule,
};
use crate::text::{decimal, push_number, push_text, Render};
use crate::turing_machine_memory::{
    filled, lemma_moved_in_bounds, moved, origin, positive, well_formed, Memory,
};
use vstd::prelude::*;

verus! {

/// The failure of a step: the table has no rule for the machine's state and
/// the symbol under its head.
#[derive(Clone, Copy, Debug, PartialEq, Eq, Structural)]
pub struct LookupFailure {
    pub state: u8,
    pub symbol: u8,
}

impl Render for LookupFailure {
    /// The pair that has no rule, in words.
    open spec fn rendering(&self) -> Seq<char> {
        "no rule for state "@ + decimal(self.state as nat) + " and symbol "@ + decimal(
            self.symbol as nat,
        )
    }

    fn render(&self) -> (text: String) {
        let mut text = String::new();
        let base = Ghost(text@);
        text.append("no rule for state ");
        let line = Ghost("no rule for state "@);
        assert(text@ =~= base@ + line@);
        let line = push_number(&mut text, self.state as usize, base, line);
        let line = push_text(&mut text, " and symbol ", base, line);
        let line = push_number(&mut text, self.symbol as usize, base, line);
        assert(text@ =~= line@);
        text
    }
}

/// What a machine is: its control state, its rules in order, and its tape
/// with the position of the head.
pub struct Machine {
    pub state: u8,
    pub rules: Seq<Rule>,
    pub head: Seq<int>,
    pub cells: Map<Seq<int>, u8>,
}

/// The first rule of `rules` for the pair `(state, symbol)`, if there is one.
pub open spec fn lookup(rules: Seq<Rule>, state: u8, symbol: u8) -> Option<Rule>
    decreases rules.len(),
{
    if rules.len() == 0 {
        None
    } else if has_prefix(rules[0], state, symbol) {
        Some(rules[0])
    } else {
        lookup(rules.drop_first(), state, symbol)
    }
}

/// The machine after one step on a tape of the given extents: the first rule
/// for its state and the symbol under its head gives the next state, the
/// symbol to write and the movement of the head. Without such a rule the
/// step fails and names the pair.
pub open spec fn stepped(machine: Machine, extents: Seq<int>) -> Result<Machine, LookupFailure> {
    let symbol = machine.cells[machine.head];
    match lookup(machine.rules, machine.state, symbol) {
        Some(rule) => Ok(
            Machine {
                state: rule[2],
                rules: machine.rules,
                head: moved(machine.head, extents, rule[4]),
                cells: machine.cells.insert(machine.head, rule[3]),
            },
        ),
        None => Err(LookupFailure { state: machine.state, symbol }),
    }
}

/// The outcome of `steps` steps in a row: the machine after the last of
/// them, or the failure of the first step that found no rule.
pub open spec fn after_steps(
    machine: Machine,
    extents: Seq<int>,
    steps: nat,
) -> Result<Machine, LookupFailure>
    decreases steps,
{
    if steps == 0 {
        Ok(machine)
    } else {
        match after_steps(machine, extents, (steps - 1) as nat) {
            Ok(reached) => stepped(reached, extents),
            Err(failure) => Err(failure),
        }
    }
}

/// Whether a machine keeps within the counts of a table: its state is below
/// `states`, its head stands on the grid, and every cell of the grid holds a
/// symbol below `symbols`.
pub open spec fn confined(machine: Machine, extents: Seq<int>, states: u8, symbols: u8) -> bool {
    &&& machine.state < states
    &&& well_formed(machine.head, machine.cells, extents)
    &&& forall|position: Seq<int>|
        machine.cells.dom().contains(position) ==> #[trigger] machine.cells[position] < symbols
}

/// A Turing machine on a tape of type `M`.
pub struct TM<M: Memory> {
    state: u8,
    memory: M,
    rules: Vec<Rule>,
}

impl<M: Memory> View for TM<M> {
    type V = Machine;

    closed spec fn view(&self) -> Machine {
        Machine {
            state: self.state,
            rules: self.rules@,
            head: self.memory.head(),
            cells: self.memory.cells(),
        }
    }
}

impl<M: Memory + Render> Render for TM<M> {
    /// The control state in a line of its own, then the tape.
    open spec fn rendering(&self) -> Seq<char> {
        "state: "@ + decimal(self@.state as nat) + "\n"@ + self.tape().rendering()
    }

    fn render(&self) -> (text: String) {
        let mut text = String::new();
        let base = Ghost(text@);
        text.append("state: ");
        let line = Ghost("state: "@);
        assert(text@ =~= base@ + line@);
        let line = push_number(&mut text, self.state as usize, base, line);
        let line = push_text(&mut text, "\n", base, line);
        let tape: String = self.memory.render();
        let line = push_text(&mut text, tape.as_str(), base, line);
        assert(text@ =~= line@);
        text
    }
}

impl<M: Memory> TM<M> {
    /// The tape.
    pub closed spec fn tape(&self) -> M {
        self.memory
    }

    /// The control state.
    pub fn state(&self) -> (state: u8)
        ensures
            state == self@.state,
    {
        self.state
    }

    /// The tape.
    pub fn memory(&self) -> (memory: &M)
        ensures
            *memory == self.tape(),
            memory.head() == self@.head,
            memory.cells() == self@.cells,
    {
        &self.memory
    }

    /// The rules in order.
    pub fn rules(&self) -> (rules: &Vec<Rule>)
        ensures
            rules@ == self@.rules,
    {
        &self.rules
    }

    /// A machine in state 0 with no rules, on a tape of zeros with the head
    /// at the origin.
    pub fn new() -> (machine: Self)
        requires
            positive(M::extents()),
        ensures
            machine@ == (Machine {
                state: 0,
                rules: Seq::empty(),
                head: origin(M::extents().len()),
                cells: filled(M::extents(), 0),
            }),
            well_formed(machine@.head, machine@.cells, M::extents()),
    {
        TM { state: 0, memory: M::new(0), rules: Vec::new() }
    }

    /// Replaces the rules by a copy of `rules`. The control state and the
    /// tape stay as they are.
    pub fn insert_rules(&mut self, rules: &Vec<Rule>)
        ensures
            final(self)@ == (Machine { rules: rules@, ..old(self)@ }),
    {
        let mut copy: Vec<Rule> = Vec::new();
        let mut index: usize = 0;
        while index < rules.len()
            invariant
                index <= rules@.len(),
                copy@ == rules@.take(index as int),
            decreases rules@.len() - index,
        {
            copy.push(rules[index]);
            assert(copy@ =~= rules@.take(index as int + 1));
            index += 1;
        }
        assert(copy@ =~= rules@);
        self.rules = copy;
    }

    /// Makes one step as [`stepped`] says. Where no rule matches, the
    /// machine stays as it is and the failure names the pair without a rule.
    pub fn step(&mut self) -> (outcome: Result<(), LookupFailure>)
        ensures
            match stepped(old(self)@, M::extents()) {
                Ok(next) => outcome is Ok && final(self)@ == next,
                Err(failure) => outcome == Err::<(), LookupFailure>(failure)
                    && final(self)@ == old(self)@,
            },
            well_formed(final(self)@.head, final(self)@.cells, M::extents()),
    {
        let symbol: u8 = self.memory.read_memory();
        let mut index: usize = 0;
        assert(self.rules@.skip(0) =~= self.rules@);
        while index < self.rules.len()
            invariant
                index <= self.rules@.len(),
                *self == *old(self),
                symbol == self.memory.cells()[self.memory.head()],
                well_formed(self.memory.head(), self.memory.cells(), M::extents()),
                lookup(self.rules@, self.state, symbol) == lookup(
                    self.rules@.skip(index as int),
                    self.state,
                    symbol,
                ),
            decreases self.rules@.len() - index,
        {
            let rule: Rule = self.rules[index];
            proof {
                let rest = self.rules@.skip(index as int);
                assert(rest[0] == rule);
                assert(rest.drop_first() =~= self.rules@.skip(index as int + 1));
                assert(has_prefix(rule, self.state, symbol) ==> lookup(rest, self.state, symbol)
                    == Some(rule));
            }
            if rule[0] == self.state && rule[1] == symbol {
                self.state = rule[2];
                self.memory.write_memory(rule[3]);
                self.memory.move_head(rule[4]);
                return Ok(());
            }
            index += 1;
        }
        Err(LookupFailure { state: self.state, symbol })
    }
}

/// What [`lookup`] finds is the first rule for the pair: it stands at a
/// place before which no rule is for the pair. Where it finds nothing, no
/// rule is for the pair.
pub proof fn lemma_lookup_first(rules: Seq<Rule>, state: u8, symbol: u8)
    ensures
        match lookup(rules, state, symbol) {
            Some(rule) => exists|index: int|
                {
                    &&& 0 <= index < rules.len()
                    &&& #[trigger] rules[index] == rule
                    &&& has_prefix(rule, state, symbol)
                    &&& forall|earlier: int|
                        0 <= earlier < index ==> !has_prefix(#[trigger] rules[earlier], state, symbol)
                },
            None => forall|index: int|
                0 <= index < rules.len() ==> !has_prefix(#[trigger] rules[index], state, symbol),
        },
    decreases rules.len(),
{
    if rules.len() > 0 {
        if has_prefix(rules[0], state, symbol) {
            assert(rules[0] == rules[0]);
        } else {
            let rest = rules.drop_first();
            lemma_lookup_first(rest, state, symbol);
            match lookup(rest, state, symbol) {
                Some(rule) => {
                    let found = choose|index: int|
                        {
                            &&& 0 <= index < rest.len()
                            &&& #[trigger] rest[index] == rule
                            &&& has_prefix(rule, state, symbol)
                            &&& forall|earlier: int|
                                0 <= earlier < index ==> !has_prefix(
                                    #[trigger] rest[earlier],
                                    state,
                                    symbol,
                                )
                        };
                    assert(rules[found + 1] == rule);
                    assert forall|earlier: int| 0 <= earlier < found + 1 implies !has_prefix(
                        #[trigger] rules[earlier],
                        state,
                        symbol,
                    ) by {
                        if earlier > 0 {
                            assert(rules[earlier] == rest[earlier - 1]);
                        }
                    }
                },
                None => {
                    assert forall|index: int| 0 <= index < rules.len() implies !has_prefix(
                        #[trigger] rules[index],
                        state,
                        symbol,
                    ) by {
                        if index > 0 {
                            assert(rules[index] == rest[index - 1]);
                        }
                    }
                },
            }
        }
    }
}

/// A run is decided by what was drawn. Take two tables made for the same
/// counts from draws that agree where draws are needed, edit both with the
/// same picks and load each into one of two machines in the same state on
/// the same tape: after any number of steps the two runs stand alike.
pub proof fn lemma_same_draws_same_run(
    first_draws: Seq<u8>,
    second_draws: Seq<u8>,
    picks: Seq<(usize, usize)>,
    states: u8,
    symbols: u8,
    movements: u8,
    machine: Machine,
    extents: Seq<int>,
    steps: nat,
)
    requires
        first_draws.len() >= draws_needed(states, symbols),
        second_draws.len() >= draws_needed(states, symbols),
        forall|j: int| 0 <= j < draws_needed(states, symbols) ==> first_draws[j] == second_draws[j],
    ensures
        generated(first_draws, states, symbols, movements) == generated(
            second_draws,
            states,
            symbols,
            movements,
        ),
        after_steps(
            Machine {
                rules: edited(
                    generated(first_draws, states, symbols, movements),
                    picks,
                    states,
                    symbols,
                ),
                ..machine
            },
            extents,
            steps,
        ) == after_steps(
            Machine {
                rules: edited(
                    generated(second_draws, states, symbols, movements),
                    picks,
                    states,
                    symbols,
                ),
                ..machine
            },
            extents,
            steps,
        ),
{
    lemma_generated_by_needed_draws(first_draws, second_draws, states, symbols, movements);
}

/// With a total table the lookup never fails: for a state and a symbol
/// below the counts it finds the one rule for the pair.
pub proof fn lemma_total_lookup(rules: Seq<Rule>, states: u8, symbols: u8, state: u8, symbol: u8)
    requires
        total(rules, states, symbols),
        state < states,
        symbol < symbols,
    ensures
        lookup(rules, state, symbol) is Some,
        has_prefix(lookup(rules, state, symbol).unwrap(), state, symbol),
{
    lemma_lookup_first(rules, state, symbol);
    assert(has_sole_rule(rules, state, symbol));
    let index = choose|index: int| sole_match(rules, state, symbol, index);
    assert(has_prefix(rules[index], state, symbol));
}

/// A machine that keeps within the counts of a total table whose rules keep
/// within them too makes its step, and keeps within the counts after it.
pub proof fn lemma_step_stays_confined(
    machine: Machine,
    extents: Seq<int>,
    states: u8,
    symbols: u8,
    movements: u8,
)
    requires
        confined(machine, extents, states, symbols),
        total(machine.rules, states, symbols),
        all_in_range(machine.rules, states, symbols, movements),
    ensures
        stepped(machine, extents) is Ok,
        confined(stepped(machine, extents).unwrap(), extents, states, symbols),
        stepped(machine, extents).unwrap().rules == machine.rules,
{
    let symbol = machine.cells[machine.head];
    assert(machine.cells.dom().contains(machine.head));
    lemma_total_lookup(machine.rules, states, symbols, machine.state, symbol);
    lemma_lookup_first(machine.rules, machine.state, symbol);
    let rule = lookup(machine.rules, machine.state, symbol).unwrap();
    lemma_moved_in_bounds(machine.head, extents, rule[4]);
    let next = stepped(machine, extents).unwrap();
    assert(next.cells.dom() =~= machine.cells.dom());
}

/// A machine that keeps within the counts of a total table whose rules keep
/// within them too never fails, however many steps it makes.
pub proof fn lemma_run_never_fails(
    machine: Machine,
    extents: Seq<int>,
    states: u8,
    symbols: u8,
    movements: u8,
    steps: nat,
)
    requires
        confined(machine, extents, states, symbols),
        total(machine.rules, states, symbols),
        all_in_range(machine.rules, states, symbols, movements),
    ensures
        after_steps(machine, extents, steps) is Ok,
        confined(after_steps(machine, extents, steps).unwrap(), extents, states, symbols),
        after_steps(machine, extents, steps).unwrap().rules == machine.rules,
    decreases steps,
{
    if steps > 0 {
        lemma_run_never_fails(machine, extents, states, symbols, movements, (steps - 1) as nat);
        let reached = after_steps(machine, extents, (steps - 1) as nat).unwrap();
        lemma_step_stays_confined(reached, extents, states, symbols, movements);
    }
}

} // verus!
