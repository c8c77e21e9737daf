//! Tapes: grids of one, two and three dimensions that wrap around at their
//! edges, behind one trait.

use crate::text::{decimal, push_decimal, Render};
use vstd::array::spec_array_fill_for_copy_type;
use vstd::prelude::*;

verus! {

/// Whether every axis has an extent of one cell or more.
pub open spec fn positive(extents: Seq<int>) -> bool {
    forall|axis: int| 0 <= axis < extents.len() ==> #[trigger] extents[axis] > 0
}

/// Whether `position` has one coordinate per axis, each within the extent
/// of its axis.
pub open spec fn in_bounds(position: Seq<int>, extents: Seq<int>) -> bool {
    &&& position.len() == extents.len()
    &&& forall|axis: int| 0 <= axis < extents.len() ==> 0 <= #[trigger] position[axis] < extents[axis]
}

/// The position whose coordinates are all zero.
pub open spec fn origin(dimensions: nat) -> Seq<int> {
    Seq::new(dimensions, |axis: int| 0int)
}

/// The grid of the given extents with `fill` in every cell.
pub open spec fn filled(extents: Seq<int>, fill: u8) -> Map<Seq<int>, u8> {
    Map::new(|position: Seq<int>| in_bounds(position, extents), |position: Seq<int>| fill)
}

/// The coordinate before `coordinate` on an axis that wraps around.
pub open spec fn wrap_back(coordinate: int, extent: int) -> int {
    (coordinate + extent - 1) % extent
}

/// The coordinate after `coordinate` on an axis that wraps around.
pub open spec fn wrap_forward(coordinate: int, extent: int) -> int {
    (coordinate + 1) % extent
}

/// Where the head stands after the movement `movement`. The codes come in
/// pairs, one pair per axis: the even code of a pair moves the head back on
/// its axis, the odd one forward. A code beyond the pairs leaves the head
/// where it is.
pub open spec fn moved(head: Seq<int>, extents: Seq<int>, movement: u8) -> Seq<int> {
    let axis = movement as int / 2;
    if axis >= extents.len() {
        head
    } else if movement % 2 == 0 {
        head.update(axis, wrap_back(head[axis], extents[axis]))
    } else {
        head.update(axis, wrap_forward(head[axis], extents[axis]))
    }
}

/// Whether `head` stands on the grid of the given extents and `cells` has a
/// symbol in each cell of that grid and nowhere else.
pub open spec fn well_formed(head: Seq<int>, cells: Map<Seq<int>, u8>, extents: Seq<int>) -> bool {
    &&& in_bounds(head, extents)
    &&& cells.dom() =~= Set::new(|position: Seq<int>| in_bounds(position, extents))
}

/// The tape of a machine: a grid of symbols and a head that reads, writes
/// and moves.
pub trait Memory: Sized {
    /// The number of cells along each axis.
    spec fn extents() -> Seq<int>;

    /// The names of the movement codes in ascending order, the last one for
    /// every code that moves nothing.
    spec fn movement_names() -> Seq<Seq<char>>;

    /// The position of the head.
    spec fn head(&self) -> Seq<int>;

    /// The symbol in each cell.
    spec fn cells(&self) -> Map<Seq<int>, u8>;

    /// A grid with `fill` in every cell and the head at the origin.
    fn new(fill: u8) -> (memory: Self)
        requires
            positive(Self::extents()),
        ensures
            well_formed(memory.head(), memory.cells(), Self::extents()),
            memory.head() == origin(Self::extents().len()),
            memory.cells() == filled(Self::extents(), fill),
    ;

    /// The symbol under the head.
    fn read_memory(&self) -> (symbol: u8)
        ensures
            well_formed(self.head(), self.cells(), Self::extents()),
            symbol == self.cells()[self.head()],
    ;

    /// Puts `symbol` under the head.
    fn write_memory(&mut self, symbol: u8)
        ensures
            well_formed(final(self).head(), final(self).cells(), Self::extents()),
            final(self).head() == old(self).head(),
            final(self).cells() == old(self).cells().insert(old(self).head(), symbol),
    ;

    /// Moves the head as [`moved`] says.
    fn move_head(&mut self, movement: u8)
        ensures
            well_formed(final(self).head(), final(self).cells(), Self::extents()),
            final(self).head() == moved(old(self).head(), Self::extents(), movement),
            final(self).cells() == old(self).cells(),
    ;

    /// The names of the movement codes: two for each axis, then the one for
    /// staying.
    fn get_movements_by_name(&self) -> (names: &[&str])
        ensures
            names@.len() == Self::movement_names().len(),
            names@.len() == 2 * Self::extents().len() + 1,
            forall|code: int|
                0 <= code < names@.len() ==> (#[trigger] names@[code])@ == Self::movement_names()[code],
            names@[names@.len() - 1]@ == "stay"@,
    ;
}

/// A cell as text: its symbol, in square brackets where the head stands on
/// it and between blanks elsewhere.
pub open spec fn cell_text(symbol: u8, under_head: bool) -> Seq<char> {
    if under_head {
        "["@ + decimal(symbol as nat) + "]"@
    } else {
        " "@ + decimal(symbol as nat) + " "@
    }
}

/// The first `upto` cells of a line as text. The line is the one along the
/// last axis whose cells have `prefix` as their other coordinates.
pub open spec fn line_text(
    cells: Map<Seq<int>, u8>,
    head: Seq<int>,
    prefix: Seq<int>,
    upto: int,
) -> Seq<char>
    decreases upto,
{
    if upto <= 0 {
        Seq::empty()
    } else {
        line_text(cells, head, prefix, upto - 1) + cell_text(
            cells[prefix.push(upto - 1)],
            head == prefix.push(upto - 1),
        )
    }
}

/// The first `upto` rows of a grid of two dimensions as text: each row is a
/// line of `width` cells and ends with a line break.
pub open spec fn rows_text(
    cells: Map<Seq<int>, u8>,
    head: Seq<int>,
    width: int,
    upto: int,
) -> Seq<char>
    decreases upto,
{
    if upto <= 0 {
        Seq::empty()
    } else {
        rows_text(cells, head, width, upto - 1) + line_text(cells, head, seq![upto - 1], width)
            + "\n"@
    }
}

/// The row `row` of the first `upto` slices of a grid of three dimensions
/// as text: the lines stand side by side, three blanks behind each.
pub open spec fn slices_text(
    cells: Map<Seq<int>, u8>,
    head: Seq<int>,
    row: int,
    width: int,
    upto: int,
) -> Seq<char>
    decreases upto,
{
    if upto <= 0 {
        Seq::empty()
    } else {
        slices_text(cells, head, row, width, upto - 1) + line_text(
            cells,
            head,
            seq![upto - 1, row],
            width,
        ) + "   "@
    }
}

/// The first `upto` rows of a grid of three dimensions as text: each row
/// shows that row of every slice and ends with a line break.
pub open spec fn volume_text(
    cells: Map<Seq<int>, u8>,
    head: Seq<int>,
    width: int,
    depth: int,
    upto: int,
) -> Seq<char>
    decreases upto,
{
    if upto <= 0 {
        Seq::empty()
    } else {
        volume_text(cells, head, width, depth, upto - 1) + slices_text(
            cells,
            head,
            upto - 1,
            width,
            depth,
        ) + "\n"@
    }
}

/// Appends [`cell_text`] to `out`.
fn push_cell(out: &mut String, symbol: u8, under_head: bool)
    ensures
        final(out)@ == old(out)@ + cell_text(symbol, under_head),
{
    if under_head {
        out.append("[");
        push_decimal(out, symbol as usize);
        out.append("]");
    } else {
        out.append(" ");
        push_decimal(out, symbol as usize);
        out.append(" ");
    }
    assert(out@ =~= old(out)@ + cell_text(symbol, under_head));
}

/// Computes [`wrap_back`].
pub fn step_back(coordinate: usize, extent: usize) -> (next: usize)
    requires
        coordinate < extent,
    ensures
        next == wrap_back(coordinate as int, extent as int),
        next < extent,
{
    proof {
        lemma_wrap_back(coordinate as int, extent as int);
    }
    if coordinate == 0 {
        extent - 1
    } else {
        coordinate - 1
    }
}

/// Computes [`wrap_forward`].
pub fn step_forward(coordinate: usize, extent: usize) -> (next: usize)
    requires
        coordinate < extent,
    ensures
        next == wrap_forward(coordinate as int, extent as int),
        next < extent,
{
    proof {
        lemma_wrap_forward(coordinate as int, extent as int);
    }
    if coordinate == extent - 1 {
        0
    } else {
        coordinate + 1
    }
}

/// A step back leads from the first cell of an axis to its last one, and
/// from any other cell to the one before it.
pub proof fn lemma_wrap_back(coordinate: int, extent: int)
    requires
        0 <= coordinate < extent,
    ensures
        coordinate == 0 ==> wrap_back(coordinate, extent) == extent - 1,
        coordinate > 0 ==> wrap_back(coordinate, extent) == coordinate - 1,
        0 <= wrap_back(coordinate, extent) < extent,
{
    if coordinate == 0 {
        vstd::arithmetic::div_mod::lemma_small_mod((extent - 1) as nat, extent as nat);
    } else {
        vstd::arithmetic::div_mod::lemma_fundamental_div_mod_converse(
            coordinate + extent - 1,
            extent,
            1,
            coordinate - 1,
        );
    }
}

/// A step forward leads from the last cell of an axis to its first one, and
/// from any other cell to the one after it.
pub proof fn lemma_wrap_forward(coordinate: int, extent: int)
    requires
        0 <= coordinate < extent,
    ensures
        coordinate == extent - 1 ==> wrap_forward(coordinate, extent) == 0,
        coordinate < extent - 1 ==> wrap_forward(coordinate, extent) == coordinate + 1,
        0 <= wrap_forward(coordinate, extent) < extent,
{
    if coordinate == extent - 1 {
        vstd::arithmetic::div_mod::lemma_mod_self_0(extent);
    } else {
        vstd::arithmetic::div_mod::lemma_small_mod((coordinate + 1) as nat, extent as nat);
    }
}

/// A movement keeps the head on the grid and changes at most the coordinate
/// of the axis that its code belongs to.
pub proof fn lemma_moved_in_bounds(head: Seq<int>, extents: Seq<int>, movement: u8)
    requires
        in_bounds(head, extents),
    ensures
        in_bounds(moved(head, extents, movement), extents),
        forall|axis: int|
            0 <= axis < extents.len() && axis != movement as int / 2 ==> moved(
                head,
                extents,
                movement,
            )[axis] == head[axis],
{
    let axis = movement as int / 2;
    if axis < extents.len() {
        lemma_wrap_back(head[axis], extents[axis]);
        lemma_wrap_forward(head[axis], extents[axis]);
    }
}

/// On every axis the grid wraps around: the even code of the axis leads from
/// its first cell to its last one, the odd code from the last to the first.
pub proof fn lemma_wraparound(head: Seq<int>, extents: Seq<int>, axis: int)
    requires
        in_bounds(head, extents),
        0 <= axis < extents.len(),
        2 * axis + 1 <= u8::MAX,
    ensures
        head[axis] == 0 ==> moved(head, extents, (2 * axis) as u8)[axis] == extents[axis] - 1,
        head[axis] == extents[axis] - 1 ==> moved(head, extents, (2 * axis + 1) as u8)[axis] == 0,
{
    lemma_wrap_back(head[axis], extents[axis]);
    lemma_wrap_forward(head[axis], extents[axis]);
}

/// A step back and a step forward undo each other.
pub proof fn lemma_back_and_forth(head: Seq<int>, extents: Seq<int>, axis: int)
    requires
        in_bounds(head, extents),
        0 <= axis < extents.len(),
        2 * axis + 1 <= u8::MAX,
    ensures
        moved(moved(head, extents, (2 * axis) as u8), extents, (2 * axis + 1) as u8) == head,
        moved(moved(head, extents, (2 * axis + 1) as u8), extents, (2 * axis) as u8) == head,
{
    let back = wrap_back(head[axis], extents[axis]);
    let forward = wrap_forward(head[axis], extents[axis]);
    lemma_wrap_back(head[axis], extents[axis]);
    lemma_wrap_forward(head[axis], extents[axis]);
    lemma_wrap_forward(back, extents[axis]);
    lemma_wrap_back(forward, extents[axis]);
    assert(moved(moved(head, extents, (2 * axis) as u8), extents, (2 * axis + 1) as u8) =~= head);
    assert(moved(moved(head, extents, (2 * axis + 1) as u8), extents, (2 * axis) as u8) =~= head);
}

/// A grid of one dimension, `WIDTH` cells long.
pub struct Memory1D<const WIDTH: usize> {
    memory: [u8; WIDTH],
    tapehead: [usize; 1],
}

impl<const WIDTH: usize> Memory1D<WIDTH> {
    #[verifier::type_invariant]
    spec fn inv(&self) -> bool {
        self.tapehead[0] < WIDTH
    }

    /// The position of the head.
    pub fn tapehead(&self) -> (at: [usize; 1])
        ensures
            self.head() == seq![at[0] as int],
            at[0] < WIDTH,
    {
        proof {
            use_type_invariant(self);
        }
        self.tapehead
    }
}

impl<const WIDTH: usize> Memory for Memory1D<WIDTH> {
    open spec fn extents() -> Seq<int> {
        seq![WIDTH as int]
    }

    open spec fn movement_names() -> Seq<Seq<char>> {
        seq!["left"@, "right"@, "stay"@]
    }

    closed spec fn head(&self) -> Seq<int> {
        seq![self.tapehead[0] as int]
    }

    closed spec fn cells(&self) -> Map<Seq<int>, u8> {
        Map::new(
            |position: Seq<int>| in_bounds(position, Self::extents()),
            |position: Seq<int>| self.memory[position[0]],
        )
    }

    fn new(fill: u8) -> (memory: Self) {
        assert(Self::extents()[0] > 0);
        let memory = Memory1D { memory: [fill; WIDTH], tapehead: [0] };
        proof {
            assert(memory.head() =~= origin(Self::extents().len()));
            assert forall|position: Seq<int>|
                in_bounds(position, Self::extents()) implies #[trigger] memory.cells()[position]
                == fill by {
                assert(0 <= position[0] < WIDTH);
                assert(memory.memory == spec_array_fill_for_copy_type::<u8, WIDTH>(fill));
            }
            assert(memory.cells() =~= filled(Self::extents(), fill));
        }
        memory
    }

    fn read_memory(&self) -> (symbol: u8) {
        proof {
            use_type_invariant(self);
        }
        self.memory[self.tapehead[0]]
    }

    fn write_memory(&mut self, symbol: u8) {
        proof {
            use_type_invariant(&*self);
        }
        self.memory[self.tapehead[0]] = symbol;
        proof {
            assert forall|position: Seq<int>|
                in_bounds(position, Self::extents()) implies #[trigger] self.cells()[position]
                == old(self).cells().insert(old(self).head(), symbol)[position] by {
                if position[0] == old(self).tapehead[0] {
                    assert(position =~= old(self).head());
                }
            }
            assert(self.cells() =~= old(self).cells().insert(old(self).head(), symbol));
        }
    }

    fn move_head(&mut self, movement: u8) {
        proof {
            use_type_invariant(&*self);
        }
        match movement {
            0 => {
                self.tapehead = [step_back(self.tapehead[0], WIDTH)];
            },
            1 => {
                self.tapehead = [step_forward(self.tapehead[0], WIDTH)];
            },
            _ => {},
        }
        proof {
            assert(self.head() =~= moved(old(self).head(), Self::extents(), movement));
        }
    }

    fn get_movements_by_name(&self) -> (names: &[&str]) {
        &["left", "right", "stay"]
    }
}

impl<const WIDTH: usize> Render for Memory1D<WIDTH> {
    /// The cells in one line.
    open spec fn rendering(&self) -> Seq<char> {
        line_text(self.cells(), self.head(), Seq::empty(), WIDTH as int)
    }

    fn render(&self) -> (text: String) {
        proof {
            use_type_invariant(self);
        }
        let mut text = String::new();
        let mut column: usize = 0;
        while column < WIDTH
            invariant
                column <= WIDTH,
                text@ == line_text(self.cells(), self.head(), Seq::empty(), column as int),
            decreases WIDTH - column,
        {
            proof {
                let here = Seq::<int>::empty().push(column as int);
                assert(in_bounds(here, Self::extents()));
                assert(self.head() == here <==> column == self.tapehead[0]) by {
                    if self.head() == here {
                        assert(self.head()[0] == here[0]);
                    }
                }
            }
            push_cell(&mut text, self.memory[column], column == self.tapehead[0]);
            column += 1;
        }
        text
    }
}

/// A grid of two dimensions, `HEIGHT` rows of `WIDTH` cells.
pub struct Memory2D<const WIDTH: usize, const HEIGHT: usize> {
    memory: [[u8; WIDTH]; HEIGHT],
    tapehead: [usize; 2],
}

impl<const WIDTH: usize, const HEIGHT: usize> Memory2D<WIDTH, HEIGHT> {
    #[verifier::type_invariant]
    spec fn inv(&self) -> bool {
        self.tapehead[0] < HEIGHT && self.tapehead[1] < WIDTH
    }

    /// The position of the head: its row, then its place in the row.
    pub fn tapehead(&self) -> (at: [usize; 2])
        ensures
            self.head() == seq![at[0] as int, at[1] as int],
            at[0] < HEIGHT,
            at[1] < WIDTH,
    {
        proof {
            use_type_invariant(self);
        }
        self.tapehead
    }
}

impl<const WIDTH: usize, const HEIGHT: usize> Memory for Memory2D<WIDTH, HEIGHT> {
    open spec fn extents() -> Seq<int> {
        seq![HEIGHT as int, WIDTH as int]
    }

    open spec fn movement_names() -> Seq<Seq<char>> {
        seq!["up"@, "down"@, "left"@, "right"@, "stay"@]
    }

    closed spec fn head(&self) -> Seq<int> {
        seq![self.tapehead[0] as int, self.tapehead[1] as int]
    }

    closed spec fn cells(&self) -> Map<Seq<int>, u8> {
        Map::new(
            |position: Seq<int>| in_bounds(position, Self::extents()),
            |position: Seq<int>| self.memory[position[0]][position[1]],
        )
    }

    fn new(fill: u8) -> (memory: Self) {
        assert(Self::extents()[0] > 0 && Self::extents()[1] > 0);
        let memory = Memory2D { memory: [[fill; WIDTH]; HEIGHT], tapehead: [0, 0] };
        proof {
            assert(memory.head() =~= origin(Self::extents().len()));
            assert forall|position: Seq<int>|
                in_bounds(position, Self::extents()) implies #[trigger] memory.cells()[position]
                == fill by {
                assert(0 <= position[0] < HEIGHT && 0 <= position[1] < WIDTH);
                let row = spec_array_fill_for_copy_type::<u8, WIDTH>(fill);
                assert(memory.memory == spec_array_fill_for_copy_type::<[u8; WIDTH], HEIGHT>(row));
                assert(memory.memory[position[0]] == row);
            }
            assert(memory.cells() =~= filled(Self::extents(), fill));
        }
        memory
    }

    fn read_memory(&self) -> (symbol: u8) {
        proof {
            use_type_invariant(self);
        }
        self.memory[self.tapehead[0]][self.tapehead[1]]
    }

    fn write_memory(&mut self, symbol: u8) {
        proof {
            use_type_invariant(&*self);
        }
        self.memory[self.tapehead[0]][self.tapehead[1]] = symbol;
        proof {
            assert forall|position: Seq<int>|
                in_bounds(position, Self::extents()) implies #[trigger] self.cells()[position]
                == old(self).cells().insert(old(self).head(), symbol)[position] by {
                if position[0] == old(self).tapehead[0] && position[1] == old(self).tapehead[1] {
                    assert(position =~= old(self).head());
                }
            }
            assert(self.cells() =~= old(self).cells().insert(old(self).head(), symbol));
        }
    }

    fn move_head(&mut self, movement: u8) {
        proof {
            use_type_invariant(&*self);
        }
        match movement {
            0 => {
                self.tapehead = [step_back(self.tapehead[0], HEIGHT), self.tapehead[1]];
            },
            1 => {
                self.tapehead = [step_forward(self.tapehead[0], HEIGHT), self.tapehead[1]];
            },
            2 => {
                self.tapehead = [self.tapehead[0], step_back(self.tapehead[1], WIDTH)];
            },
            3 => {
                self.tapehead = [self.tapehead[0], step_forward(self.tapehead[1], WIDTH)];
            },
            _ => {},
        }
        proof {
            assert(self.head() =~= moved(old(self).head(), Self::extents(), movement));
        }
    }

    fn get_movements_by_name(&self) -> (names: &[&str]) {
        &["up", "down", "left", "right", "stay"]
    }
}

impl<const WIDTH: usize, const HEIGHT: usize> Render for Memory2D<WIDTH, HEIGHT> {
    /// The rows from the first to the last, one line each.
    open spec fn rendering(&self) -> Seq<char> {
        rows_text(self.cells(), self.head(), WIDTH as int, HEIGHT as int)
    }

    fn render(&self) -> (text: String) {
        proof {
            use_type_invariant(self);
        }
        let mut text = String::new();
        let mut row: usize = 0;
        while row < HEIGHT
            invariant
                row <= HEIGHT,
                self.tapehead[0] < HEIGHT && self.tapehead[1] < WIDTH,
                text@ == rows_text(self.cells(), self.head(), WIDTH as int, row as int),
            decreases HEIGHT - row,
        {
            let ghost above = text@;
            let ghost prefix = seq![row as int];
            assert(text@ =~= above + line_text(self.cells(), self.head(), prefix, 0));
            let mut column: usize = 0;
            while column < WIDTH
                invariant
                    row < HEIGHT,
                    column <= WIDTH,
                    prefix == seq![row as int],
                    self.tapehead[0] < HEIGHT && self.tapehead[1] < WIDTH,
                    text@ == above + line_text(self.cells(), self.head(), prefix, column as int),
                decreases WIDTH - column,
            {
                let under_head: bool = row == self.tapehead[0] && column == self.tapehead[1];
                proof {
                    let here = prefix.push(column as int);
                    assert(in_bounds(here, Self::extents()));
                    assert(self.head() == here <==> under_head) by {
                        if self.head() == here {
                            assert(self.head()[0] == here[0] && self.head()[1] == here[1]);
                        }
                        if under_head {
                            assert(self.head() =~= here);
                        }
                    }
                }
                push_cell(&mut text, self.memory[row][column], under_head);
                assert(text@ =~= above + line_text(self.cells(), self.head(), prefix, column + 1));
                column += 1;
            }
            text.append("\n");
            row += 1;
        }
        text
    }
}

/// A grid of three dimensions, `DEPTH` slices of `HEIGHT` rows of `WIDTH`
/// cells.
pub struct Memory3D<const WIDTH: usize, const HEIGHT: usize, const DEPTH: usize> {
    memory: [[[u8; WIDTH]; HEIGHT]; DEPTH],
    tapehead: [usize; 3],
}

impl<const WIDTH: usize, const HEIGHT: usize, const DEPTH: usize> Memory3D<WIDTH, HEIGHT, DEPTH> {
    #[verifier::type_invariant]
    spec fn inv(&self) -> bool {
        self.tapehead[0] < DEPTH && self.tapehead[1] < HEIGHT && self.tapehead[2] < WIDTH
    }

    /// The position of the head: its slice, its row in the slice, and its
    /// place in the row.
    pub fn tapehead(&self) -> (at: [usize; 3])
        ensures
            self.head() == seq![at[0] as int, at[1] as int, at[2] as int],
            at[0] < DEPTH,
            at[1] < HEIGHT,
            at[2] < WIDTH,
    {
        proof {
            use_type_invariant(self);
        }
        self.tapehead
    }
}

impl<const WIDTH: usize, const HEIGHT: usize, const DEPTH: usize> Memory for Memory3D<
    WIDTH,
    HEIGHT,
    DEPTH,
> {
    open spec fn extents() -> Seq<int> {
        seq![DEPTH as int, HEIGHT as int, WIDTH as int]
    }

    open spec fn movement_names() -> Seq<Seq<char>> {
        seq!["back"@, "forward"@, "up"@, "down"@, "left"@, "right"@, "stay"@]
    }

    closed spec fn head(&self) -> Seq<int> {
        seq![self.tapehead[0] as int, self.tapehead[1] as int, self.tapehead[2] as int]
    }

    closed spec fn cells(&self) -> Map<Seq<int>, u8> {
        Map::new(
            |position: Seq<int>| in_bounds(position, Self::extents()),
            |position: Seq<int>| self.memory[position[0]][position[1]][position[2]],
        )
    }

    fn new(fill: u8) -> (memory: Self) {
        assert(Self::extents()[0] > 0 && Self::extents()[1] > 0 && Self::extents()[2] > 0);
        let memory = Memory3D { memory: [[[fill; WIDTH]; HEIGHT]; DEPTH], tapehead: [0, 0, 0] };
        proof {
            assert(memory.head() =~= origin(Self::extents().len()));
            assert forall|position: Seq<int>|
                in_bounds(position, Self::extents()) implies #[trigger] memory.cells()[position]
                == fill by {
                assert(0 <= position[0] < DEPTH && 0 <= position[1] < HEIGHT && 0 <= position[2]
                    < WIDTH);
                let row = spec_array_fill_for_copy_type::<u8, WIDTH>(fill);
                let slice = spec_array_fill_for_copy_type::<[u8; WIDTH], HEIGHT>(row);
                assert(memory.memory == spec_array_fill_for_copy_type::<
                    [[u8; WIDTH]; HEIGHT],
                    DEPTH,
                >(slice));
                assert(memory.memory[position[0]] == slice);
                assert(slice[position[1]] == row);
            }
            assert(memory.cells() =~= filled(Self::extents(), fill));
        }
        memory
    }

    fn read_memory(&self) -> (symbol: u8) {
        proof {
            use_type_invariant(self);
        }
        self.memory[self.tapehead[0]][self.tapehead[1]][self.tapehead[2]]
    }

    fn write_memory(&mut self, symbol: u8) {
        proof {
            use_type_invariant(&*self);
        }
        self.memory[self.tapehead[0]][self.tapehead[1]][self.tapehead[2]] = symbol;
        proof {
            assert forall|position: Seq<int>|
                in_bounds(position, Self::extents()) implies #[trigger] self.cells()[position]
                == old(self).cells().insert(old(self).head(), symbol)[position] by {
                if position[0] == old(self).tapehead[0] && position[1] == old(self).tapehead[1]
                    && position[2] == old(self).tapehead[2] {
                    assert(position =~= old(self).head());
                }
            }
            assert(self.cells() =~= old(self).cells().insert(old(self).head(), symbol));
        }
    }

    fn move_head(&mut self, movement: u8) {
        proof {
            use_type_invariant(&*self);
        }
        let at: [usize; 3] = self.tapehead;
        match movement {
            0 => {
                self.tapehead = [step_back(at[0], DEPTH), at[1], at[2]];
            },
            1 => {
                self.tapehead = [step_forward(at[0], DEPTH), at[1], at[2]];
            },
            2 => {
                self.tapehead = [at[0], step_back(at[1], HEIGHT), at[2]];
            },
            3 => {
                self.tapehead = [at[0], step_forward(at[1], HEIGHT), at[2]];
            },
            4 => {
                self.tapehead = [at[0], at[1], step_back(at[2], WIDTH)];
            },
            5 => {
                self.tapehead = [at[0], at[1], step_forward(at[2], WIDTH)];
            },
            _ => {},
        }
        proof {
            assert(self.head() =~= moved(old(self).head(), Self::extents(), movement));
        }
    }

    fn get_movements_by_name(&self) -> (names: &[&str]) {
        &["back", "forward", "up", "down", "left", "right", "stay"]
    }
}

impl<const WIDTH: usize, const HEIGHT: usize, const DEPTH: usize> Render for Memory3D<
    WIDTH,
    HEIGHT,
    DEPTH,
> {
    /// The rows from the first to the last, one line each, and in each line
    /// that row of every slice.
    open spec fn rendering(&self) -> Seq<char> {
        volume_text(self.cells(), self.head(), WIDTH as int, DEPTH as int, HEIGHT as int)
    }

    fn render(&self) -> (text: String) {
        proof {
            use_type_invariant(self);
        }
        let mut text = String::new();
        let mut row: usize = 0;
        while row < HEIGHT
            invariant
                row <= HEIGHT,
                self.tapehead[0] < DEPTH && self.tapehead[1] < HEIGHT && self.tapehead[2] < WIDTH,
                text@ == volume_text(self.cells(), self.head(), WIDTH as int, DEPTH as int, row as int),
            decreases HEIGHT - row,
        {
            let ghost above = text@;
            assert(text@ =~= above + slices_text(self.cells(), self.head(), row as int, WIDTH as int, 0));
            let mut slice: usize = 0;
            while slice < DEPTH
                invariant
                    row < HEIGHT,
                    slice <= DEPTH,
                    self.tapehead[0] < DEPTH && self.tapehead[1] < HEIGHT && self.tapehead[2] < WIDTH,
                    text@ == above + slices_text(
                        self.cells(),
                        self.head(),
                        row as int,
                        WIDTH as int,
                        slice as int,
                    ),
                decreases DEPTH - slice,
            {
                let ghost before = text@;
                let ghost prefix = seq![slice as int, row as int];
                assert(text@ =~= before + line_text(self.cells(), self.head(), prefix, 0));
                let mut column: usize = 0;
                while column < WIDTH
                    invariant
                        row < HEIGHT,
                        slice < DEPTH,
                        column <= WIDTH,
                        prefix == seq![slice as int, row as int],
                        self.tapehead[0] < DEPTH && self.tapehead[1] < HEIGHT && self.tapehead[2]
                            < WIDTH,
                        text@ == before + line_text(self.cells(), self.head(), prefix, column as int),
                    decreases WIDTH - column,
                {
                    let under_head: bool = row == self.tapehead[1] && slice == self.tapehead[0]
                        && column == self.tapehead[2];
                    proof {
                        let here = prefix.push(column as int);
                        assert(in_bounds(here, Self::extents()));
                        assert(self.head() == here <==> under_head) by {
                            if self.head() == here {
                                assert(self.head()[0] == here[0] && self.head()[1] == here[1]
                                    && self.head()[2] == here[2]);
                            }
                            if under_head {
                                assert(self.head() =~= here);
                            }
                        }
                    }
                    push_cell(&mut text, self.memory[slice][row][column], under_head);
                    assert(text@ =~= before + line_text(
                        self.cells(),
                        self.head(),
                        prefix,
                        column + 1,
                    ));
                    column += 1;
                }
                text.append("   ");
                assert(text@ =~= above + slices_text(
                    self.cells(),
                    self.head(),
                    row as int,
                    WIDTH as int,
                    slice + 1,
                ));
                slice += 1;
            }
            text.append("\n");
            row += 1;
        }
        text
    }
}

} // verus!
