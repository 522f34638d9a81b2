//! The grid engine: board, moves, merges, spawning and the win latch.

use vstd::prelude::*;
use crate::rng::{fresh_rng, rng_below};

verus! {

/// Visual annotation of a tile after the last move: freshly spawned,
/// slid or left in place, or produced by a merge.
#[derive(Debug, Clone, Copy, PartialEq, Eq, Structural)]
pub enum TileState {
    New,
    Static,
    Merged,
}

/// Mathematical image of a tile: its value, annotation, and the cell
/// index it occupied before the last move.
pub ghost struct TileView {
    pub value: int,
    pub state: TileState,
    pub prev_pos: Option<usize>,
}

/// One cell occupant: a power-of-two value, an annotation, and the index
/// the tile sat at before the last move (for slide animation).
#[derive(Debug, Clone, Copy)]
pub struct Tile {
    value: usize,
    state: TileState,
    prev_pos: Option<usize>,
}

impl View for Tile {
    type V = TileView;

    closed spec fn view(&self) -> TileView {
        TileView { value: self.value as int, state: self.state, prev_pos: self.prev_pos }
    }
}

/// The tile values the engine can hold: powers of two from 2 to 2048.
pub open spec fn valid_value(v: int) -> bool {
    ||| v == 2 ||| v == 4 ||| v == 8 ||| v == 16 ||| v == 32 ||| v == 64
    ||| v == 128 ||| v == 256 ||| v == 512 ||| v == 1024 ||| v == 2048
}

impl Tile {
    /// A freshly spawned tile carrying the given value.
    pub fn new(value: usize) -> (r: Tile)
        ensures
            r@ == (TileView { value: value as int, state: TileState::New, prev_pos: None }),
    {
        Tile { value, state: TileState::New, prev_pos: None }
    }

    /// Rebuilds a tile from its parts, as a persistence layer hands them back.
    pub fn restore(value: usize, state: TileState, prev_pos: Option<usize>) -> (r: Tile)
        ensures
            r@ == (TileView { value: value as int, state, prev_pos }),
    {
        Tile { value, state, prev_pos }
    }

    pub fn get_value(&self) -> (r: usize)
        ensures
            r as int == self@.value,
    {
        self.value
    }

    pub fn get_prev(&self) -> (r: Option<usize>)
        ensures
            r == self@.prev_pos,
    {
        self.prev_pos
    }

    /// The annotation itself, for collaborators that store the tile.
    pub fn annotation(&self) -> (r: TileState)
        ensures
            r == self@.state,
    {
        self.state
    }

    /// The style-class suffix the presentation layer appends for this tile.
    pub fn get_state(&self) -> (r: String)
        ensures
            r@ == state_class(self@.state),
    {
        match self.state {
            TileState::New => " tile-new".to_owned(),
            TileState::Merged => " tile-merged".to_owned(),
            TileState::Static => "".to_owned(),
        }
    }
}

impl PartialEq for Tile {
    /// Merge equality: tiles compare by value alone, ignoring the
    /// annotation and the previous position.
    fn eq(&self, other: &Tile) -> (r: bool) {
        self.value == other.value
    }
}

impl vstd::std_specs::cmp::PartialEqSpecImpl for Tile {
    open spec fn obeys_eq_spec() -> bool {
        true
    }

    open spec fn eq_spec(&self, other: &Tile) -> bool {
        self@.value == other@.value
    }
}

/// The style-class suffix for each annotation.
pub open spec fn state_class(s: TileState) -> Seq<char> {
    match s {
        TileState::New => " tile-new"@,
        TileState::Merged => " tile-merged"@,
        TileState::Static => ""@,
    }
}

/// The four movement directions. Tiles slide toward the named edge.
#[derive(Debug, Clone, Copy)]
pub enum Direction {
    Left,
    Right,
    Up,
    Down,
}

/// Cell index of slot `j` of line `l` under direction `d`. A line is a row
/// (Left/Right) or a column (Up/Down); slot 0 lies at the edge the tiles
/// slide toward, and the board is row-major with index = row * 4 + col.
pub open spec fn line_cell(d: Direction, l: int, j: int) -> int {
    match d {
        Direction::Left => 4 * l + j,
        Direction::Right => 4 * l + 3 - j,
        Direction::Up => l + 4 * j,
        Direction::Down => l + 4 * (3 - j),
    }
}

/// The line that cell `i` belongs to under direction `d`.
pub open spec fn cell_line(d: Direction, i: int) -> int {
    match d {
        Direction::Left => i / 4,
        Direction::Right => i / 4,
        Direction::Up => i % 4,
        Direction::Down => i % 4,
    }
}

/// The slot within its line that cell `i` occupies under direction `d`.
pub open spec fn cell_slot(d: Direction, i: int) -> int {
    match d {
        Direction::Left => i % 4,
        Direction::Right => 3 - i % 4,
        Direction::Up => i / 4,
        Direction::Down => 3 - i / 4,
    }
}

proof fn lemma_line_cell_bounds(d: Direction, l: int, j: int)
    requires
        0 <= l < 4,
        0 <= j < 4,
    ensures
        0 <= line_cell(d, l, j) < 16,
        cell_line(d, line_cell(d, l, j)) == l,
        cell_slot(d, line_cell(d, l, j)) == j,
{
}

proof fn lemma_cell_inverse(d: Direction, i: int)
    requires
        0 <= i < 16,
    ensures
        0 <= cell_line(d, i) < 4,
        0 <= cell_slot(d, i) < 4,
        line_cell(d, cell_line(d, i), cell_slot(d, i)) == i,
{
}

/// Cell index of slot `j` of line `l` under `direction`, executably.
fn line_cell_at(direction: Direction, l: usize, j: usize) -> (r: usize)
    requires
        l < 4,
        j < 4,
    ensures
        r < 16,
        r as int == line_cell(direction, l as int, j as int),
{
    match direction {
        Direction::Left => 4 * l + j,
        Direction::Right => 4 * l + 3 - j,
        Direction::Up => l + 4 * j,
        Direction::Down => l + 4 * (3 - j),
    }
}

// ------ the mathematical model of a move ------

/// Image of a whole board: 16 cells, each empty or holding a tile.
pub open spec fn cells_view(g: Seq<Option<Tile>>) -> Seq<Option<TileView>> {
    Seq::new(g.len(), |i: int| match g[i] {
        Some(t) => Some(t@),
        None => None,
    })
}

/// The numeric value a cell contributes: 0 when empty.
pub open spec fn cell_value(c: Option<TileView>) -> int {
    match c {
        Some(t) => t.value,
        None => 0,
    }
}

/// Step 1 of a move: every occupied cell is marked Static and records its
/// own index as the previous position.
pub open spec fn prepared(g: Seq<Option<TileView>>) -> Seq<Option<TileView>> {
    Seq::new(g.len(), |i: int| match g[i] {
        Some(t) => Some(TileView { value: t.value, state: TileState::Static, prev_pos: Some(i as usize) }),
        None => None,
    })
}

/// The four cells of line `l` under direction `d`, ordered by slot.
pub open spec fn line_seq(g: Seq<Option<TileView>>, d: Direction, l: int) -> Seq<Option<TileView>> {
    Seq::new(4, |j: int| g[line_cell(d, l, j)])
}

/// The occupants of a line, compacted toward the leading edge.
pub open spec fn occ_tiles(s: Seq<Option<TileView>>) -> Seq<TileView>
    decreases s.len(),
{
    if s.len() == 0 {
        Seq::empty()
    } else {
        occ_tiles(s.drop_last()) + match s.last() {
            Some(t) => seq![t],
            None => Seq::<TileView>::empty(),
        }
    }
}

/// Greedy pairwise merging along a compacted line: the two leading tiles
/// merge exactly when their values are equal, and a merged tile takes part
/// in no further merge within the same move.
pub open spec fn merge_tiles(ts: Seq<TileView>) -> Seq<TileView>
    decreases ts.len(),
{
    if ts.len() == 0 {
        Seq::empty()
    } else if ts.len() >= 2 && ts[0].value == ts[1].value {
        seq![TileView { value: 2 * ts[0].value, state: TileState::Merged, prev_pos: ts[0].prev_pos }]
            + merge_tiles(ts.skip(2))
    } else {
        seq![ts[0]] + merge_tiles(ts.skip(1))
    }
}

/// The score a compacted line yields: the sum of the merged tiles' new values.
pub open spec fn merge_gain(ts: Seq<TileView>) -> int
    decreases ts.len(),
{
    if ts.len() == 0 {
        0
    } else if ts.len() >= 2 && ts[0].value == ts[1].value {
        2 * ts[0].value + merge_gain(ts.skip(2))
    } else {
        merge_gain(ts.skip(1))
    }
}

/// Whether merging a compacted line produces a 2048 tile.
pub open spec fn merge_wins(ts: Seq<TileView>) -> bool
    decreases ts.len(),
{
    if ts.len() == 0 {
        false
    } else if ts.len() >= 2 && ts[0].value == ts[1].value {
        2 * ts[0].value == 2048 || merge_wins(ts.skip(2))
    } else {
        merge_wins(ts.skip(1))
    }
}

/// Sum of the values of a run of tiles.
pub open spec fn sum_values(ts: Seq<TileView>) -> int
    decreases ts.len(),
{
    if ts.len() == 0 {
        0
    } else {
        ts[0].value + sum_values(ts.skip(1))
    }
}

/// The tiles of line `l` after the move: compacted toward the edge and merged.
pub open spec fn slid_line(g: Seq<Option<TileView>>, d: Direction, l: int) -> Seq<TileView> {
    merge_tiles(occ_tiles(line_seq(g, d, l)))
}

/// The whole board after step 2 of a move on `g` (annotations already
/// reset by `prepared`): each line is compacted and merged independently.
pub open spec fn moved_grid(g: Seq<Option<TileView>>, d: Direction) -> Seq<Option<TileView>> {
    Seq::new(16, |i: int| {
        let s = slid_line(prepared(g), d, cell_line(d, i));
        if cell_slot(d, i) < s.len() {
            Some(s[cell_slot(d, i)])
        } else {
            None
        }
    })
}

/// Score gained by line `l` of a move on `g`.
pub open spec fn line_gain(g: Seq<Option<TileView>>, d: Direction, l: int) -> int {
    merge_gain(occ_tiles(line_seq(prepared(g), d, l)))
}

/// Whether line `l` of a move on `g` produces a 2048 tile.
pub open spec fn line_wins(g: Seq<Option<TileView>>, d: Direction, l: int) -> bool {
    merge_wins(occ_tiles(line_seq(prepared(g), d, l)))
}

/// Score gained by the first `n` lines of a move.
pub open spec fn gain_upto(g: Seq<Option<TileView>>, d: Direction, n: int) -> int
    decreases n,
{
    if n <= 0 { 0 } else { gain_upto(g, d, n - 1) + line_gain(g, d, n - 1) }
}

/// Whether one of the first `n` lines of a move produces a 2048 tile.
pub open spec fn wins_upto(g: Seq<Option<TileView>>, d: Direction, n: int) -> bool
    decreases n,
{
    if n <= 0 { false } else { wins_upto(g, d, n - 1) || line_wins(g, d, n - 1) }
}

/// Total score gained by a move.
pub open spec fn move_gain(g: Seq<Option<TileView>>, d: Direction) -> int {
    gain_upto(g, d, 4)
}

/// Whether a move produces a 2048 tile somewhere.
pub open spec fn move_wins(g: Seq<Option<TileView>>, d: Direction) -> bool {
    wins_upto(g, d, 4)
}

/// Whether a move on `g` relocates or merges any tile: some cell's value
/// differs between the board before and after.
pub open spec fn board_changed(g: Seq<Option<TileView>>, d: Direction) -> bool {
    exists|i: int| 0 <= i < 16 && cell_value(moved_grid(g, d)[i]) != cell_value(#[trigger] g[i])
}

/// A tile just spawned with value `v`.
pub open spec fn spawn_tile(v: int) -> TileView {
    TileView { value: v, state: TileState::New, prev_pos: None }
}

/// `post` is `pre` with one previously empty cell now holding a freshly
/// spawned tile of value 2 or 4.
pub open spec fn spawned_into(pre: Seq<Option<TileView>>, post: Seq<Option<TileView>>) -> bool {
    exists|i: int| 0 <= i < 16 && #[trigger] pre[i] is None
        && (post == pre.update(i, Some(spawn_tile(2))) || post == pre.update(i, Some(spawn_tile(4))))
}

/// Every cell of the board is occupied.
pub open spec fn board_full(g: Seq<Option<TileView>>) -> bool {
    forall|i: int| 0 <= i < g.len() ==> #[trigger] g[i] is Some
}

/// Two cells agree for board equality: same occupancy, same value.
pub open spec fn cells_match(x: Option<TileView>, y: Option<TileView>) -> bool {
    match (x, y) {
        (None, None) => true,
        (Some(a), Some(b)) => a.value == b.value,
        _ => false,
    }
}

/// Two boards agree cell by cell, tiles compared by value alone.
pub open spec fn grids_match(a: Seq<Option<TileView>>, b: Seq<Option<TileView>>) -> bool {
    a.len() == b.len() && forall|i: int| 0 <= i < a.len() ==> cells_match(#[trigger] a[i], b[i])
}

// ------ counting and summing cells ------

/// Fold of `f` over the first `n` cells of a board.
pub open spec fn cells_fold(g: Seq<Option<TileView>>, f: spec_fn(Option<TileView>) -> int, n: int) -> int
    decreases n,
{
    if n <= 0 { 0 } else { cells_fold(g, f, n - 1) + f(g[n - 1]) }
}

/// 1 for an occupied cell, 0 for an empty one.
pub open spec fn occ_ind(c: Option<TileView>) -> int {
    if c is Some { 1 } else { 0 }
}

/// The occupancy indicator as a function value.
pub open spec fn occ_f() -> spec_fn(Option<TileView>) -> int {
    |c: Option<TileView>| occ_ind(c)
}

/// The cell value as a function value.
pub open spec fn val_f() -> spec_fn(Option<TileView>) -> int {
    |c: Option<TileView>| cell_value(c)
}

/// Number of occupied cells of a 16-cell board.
pub open spec fn cell_count(g: Seq<Option<TileView>>) -> int {
    cells_fold(g, occ_f(), 16)
}

/// Sum of all tile values of a 16-cell board.
pub open spec fn cell_sum(g: Seq<Option<TileView>>) -> int {
    cells_fold(g, val_f(), 16)
}

/// `f` summed over the four cells of one line.
pub open spec fn line_fold(g: Seq<Option<TileView>>, f: spec_fn(Option<TileView>) -> int, d: Direction, l: int) -> int {
    f(g[line_cell(d, l, 0)]) + f(g[line_cell(d, l, 1)]) + f(g[line_cell(d, l, 2)]) + f(g[line_cell(d, l, 3)])
}

proof fn lemma_fold_by_lines(g: Seq<Option<TileView>>, f: spec_fn(Option<TileView>) -> int, d: Direction)
    requires
        g.len() == 16,
    ensures
        cells_fold(g, f, 16) == line_fold(g, f, d, 0) + line_fold(g, f, d, 1)
            + line_fold(g, f, d, 2) + line_fold(g, f, d, 3),
{
    reveal_with_fuel(cells_fold, 17);
}

// ------ lemmas about compaction and merging ------

/// A tile value the engine can hold on a board that has not won yet.
pub open spec fn tile_ok_small(t: TileView) -> bool {
    valid_value(t.value) && t.value <= 1024
}

/// The cell is empty or holds such a tile.
pub open spec fn cell_ok_small(c: Option<TileView>) -> bool {
    match c {
        Some(t) => tile_ok_small(t),
        None => true,
    }
}

proof fn lemma_sum_push(ts: Seq<TileView>, t: TileView)
    ensures
        sum_values(ts.push(t)) == sum_values(ts) + t.value,
    decreases ts.len(),
{
    if ts.len() == 0 {
        assert(ts.push(t) =~= seq![t]);
        assert(seq![t].skip(1) =~= Seq::<TileView>::empty());
        assert(sum_values(Seq::<TileView>::empty()) == 0);
        assert(sum_values(seq![t]) == t.value + sum_values(seq![t].skip(1)));
    } else {
        assert(ts.push(t).skip(1) =~= ts.skip(1).push(t));
        lemma_sum_push(ts.skip(1), t);
        assert(ts.push(t)[0] == ts[0]);
        assert(sum_values(ts.push(t)) == ts[0].value + sum_values(ts.skip(1).push(t)));
        assert(sum_values(ts) == ts[0].value + sum_values(ts.skip(1)));
    }
}

proof fn lemma_occ_len(s: Seq<Option<TileView>>)
    ensures
        occ_tiles(s).len() <= s.len(),
    decreases s.len(),
{
    if s.len() > 0 {
        lemma_occ_len(s.drop_last());
    }
}

proof fn lemma_occ_tiles_ok(s: Seq<Option<TileView>>)
    requires
        forall|j: int| 0 <= j < s.len() ==> cell_ok_small(#[trigger] s[j]),
    ensures
        forall|k: int| 0 <= k < occ_tiles(s).len() ==> tile_ok_small(#[trigger] occ_tiles(s)[k]),
    decreases s.len(),
{
    if s.len() > 0 {
        let s2 = s.drop_last();
        lemma_occ_tiles_ok(s2);
        assert forall|k: int| 0 <= k < occ_tiles(s).len() implies tile_ok_small(
            #[trigger] occ_tiles(s)[k],
        ) by {
            if k < occ_tiles(s2).len() {
                assert(occ_tiles(s)[k] == occ_tiles(s2)[k]);
            } else {
                assert(s[s.len() - 1] == s.last());
                assert(cell_ok_small(s[s.len() - 1]));
            }
        }
    }
}

proof fn lemma_occ_full(s: Seq<Option<TileView>>)
    requires
        occ_tiles(s).len() == s.len(),
    ensures
        forall|j: int| 0 <= j < s.len() ==> #[trigger] s[j] is Some
            && occ_tiles(s)[j].value == cell_value(s[j]),
    decreases s.len(),
{
    if s.len() > 0 {
        let s2 = s.drop_last();
        lemma_occ_len(s2);
        if s.last() is None {
            assert(occ_tiles(s) =~= occ_tiles(s2));
        }
        assert(s.last() is Some);
        lemma_occ_full(s2);
        assert forall|j: int| 0 <= j < s.len() implies #[trigger] s[j] is Some
            && occ_tiles(s)[j].value == cell_value(s[j]) by {
            if j < s.len() - 1 {
                assert(s[j] == s2[j]);
                assert(occ_tiles(s)[j] == occ_tiles(s2)[j]);
            } else {
                let t = s.last().unwrap();
                assert(occ_tiles(s) == occ_tiles(s2) + seq![t]);
                assert(occ_tiles(s)[j] == t);
                assert(s[j] == s.last());
            }
        }
    }
}

proof fn lemma_merge_props(ts: Seq<TileView>)
    requires
        forall|k: int| 0 <= k < ts.len() ==> tile_ok_small(#[trigger] ts[k]),
    ensures
        merge_tiles(ts).len() <= ts.len(),
        merge_tiles(ts).len() == ts.len() ==> merge_tiles(ts) == ts && merge_gain(ts) == 0
            && !merge_wins(ts),
        0 <= merge_gain(ts),
        merge_gain(ts) <= sum_values(ts),
        sum_values(merge_tiles(ts)) == sum_values(ts),
        forall|m: int| 0 <= m < merge_tiles(ts).len() ==> valid_value(
            #[trigger] merge_tiles(ts)[m].value,
        ) && (merge_tiles(ts)[m].value == 2048 ==> merge_wins(ts)),
    decreases ts.len(),
{
    if ts.len() == 0 {
    } else if ts.len() >= 2 && ts[0].value == ts[1].value {
        let rest = ts.skip(2);
        lemma_merge_props(rest);
        let m = TileView { value: 2 * ts[0].value, state: TileState::Merged, prev_pos: ts[0].prev_pos };
        assert(ts.skip(1).skip(1) =~= rest);
        assert(ts.skip(1)[0] == ts[1]);
        assert(sum_values(ts.skip(1)) == ts[1].value + sum_values(rest));
        assert(sum_values(ts) == ts[0].value + sum_values(ts.skip(1)));
        assert(seq![m] + merge_tiles(rest) =~= merge_tiles(rest).insert(0, m));
        assert((seq![m] + merge_tiles(rest)).skip(1) =~= merge_tiles(rest));
        assert(sum_values(merge_tiles(ts)) == m.value + sum_values(merge_tiles(rest)));
    } else {
        let rest = ts.skip(1);
        lemma_merge_props(rest);
        assert((seq![ts[0]] + merge_tiles(rest)).skip(1) =~= merge_tiles(rest));
        assert(sum_values(merge_tiles(ts)) == ts[0].value + sum_values(merge_tiles(rest)));
        assert(sum_values(ts) == ts[0].value + sum_values(rest));
        if merge_tiles(ts).len() == ts.len() {
            assert(merge_tiles(rest) == rest);
            assert(merge_tiles(ts) =~= ts);
        }
    }
}

/// Sum of tiles with values at most 1024 is at most 1024 per tile.
proof fn lemma_sum_bound(ts: Seq<TileView>)
    requires
        forall|k: int| 0 <= k < ts.len() ==> tile_ok_small(#[trigger] ts[k]),
    ensures
        0 <= sum_values(ts) <= 1024 * ts.len(),
    decreases ts.len(),
{
    if ts.len() > 0 {
        lemma_sum_bound(ts.skip(1));
    }
}

// ------ the engine state ------

/// Mathematical image of the whole engine state.
pub ghost struct GameView {
    pub grid: Seq<Option<TileView>>,
    pub score: int,
    pub over: bool,
    pub won: bool,
    pub spawn_enabled: bool,
}

/// What every cell of a well-formed board satisfies: a legal value, and a
/// 2048 tile only on a board whose win flag is already latched.
pub open spec fn cell_wf(c: Option<TileView>, won: bool) -> bool {
    match c {
        Some(t) => valid_value(t.value) && (t.value == 2048 ==> won),
        None => true,
    }
}

/// A well-formed board: 16 cells, each empty or holding a legal tile.
pub open spec fn grid_wf(g: Seq<Option<TileView>>, won: bool) -> bool {
    &&& g.len() == 16
    &&& forall|i: int| 0 <= i < 16 ==> cell_wf(#[trigger] g[i], won)
}

impl GameView {
    /// The engine's invariant, established by every constructor and kept
    /// by every operation.
    pub open spec fn wf(&self) -> bool {
        grid_wf(self.grid, self.won)
    }
}

/// The engine: a 16-cell board, the cumulative score, the terminal flags,
/// and whether moves spawn random tiles.
#[derive(Debug, Clone)]
pub struct GameState {
    grid: Vec<Option<Tile>>,
    score: usize,
    over: bool,
    won: bool,
    generate_tiles: bool,
}

impl View for GameState {
    type V = GameView;

    closed spec fn view(&self) -> GameView {
        GameView {
            grid: cells_view(self.grid@),
            score: self.score as int,
            over: self.over,
            won: self.won,
            spawn_enabled: self.generate_tiles,
        }
    }
}

impl PartialEq for GameState {
    /// Board equality: two states compare by their grids alone, cell by
    /// cell with tiles compared by value; score and flags are ignored.
    fn eq(&self, other: &GameState) -> (r: bool) {
        if self.grid.len() != other.grid.len() {
            return false;
        }
        let mut i: usize = 0;
        while i < self.grid.len()
            invariant
                i <= self.grid@.len(),
                self.grid@.len() == other.grid@.len(),
                forall|k: int| 0 <= k < i ==> cells_match(
                    #[trigger] cells_view(self.grid@)[k],
                    cells_view(other.grid@)[k],
                ),
            decreases self.grid@.len() - i,
        {
            let same = match (self.grid[i], other.grid[i]) {
                (None, None) => true,
                (Some(a), Some(b)) => a.value == b.value,
                _ => false,
            };
            if !same {
                proof {
                    assert(!cells_match(
                        cells_view(self.grid@)[i as int],
                        cells_view(other.grid@)[i as int],
                    ));
                }
                return false;
            }
            proof {
                assert(cells_match(
                    cells_view(self.grid@)[i as int],
                    cells_view(other.grid@)[i as int],
                ));
            }
            i = i + 1;
        }
        true
    }
}

impl vstd::std_specs::cmp::PartialEqSpecImpl for GameState {
    open spec fn obeys_eq_spec() -> bool {
        true
    }

    open spec fn eq_spec(&self, other: &GameState) -> bool {
        grids_match(self@.grid, other@.grid)
    }
}

impl GameState {
    /// A fresh engine over the given board, with score zero and no flag set.
    pub fn new(grid: Vec<Option<Tile>>, generate_tiles: bool) -> (r: GameState)
        requires
            grid_wf(cells_view(grid@), false),
        ensures
            r@ == (GameView {
                grid: cells_view(grid@),
                score: 0,
                over: false,
                won: false,
                spawn_enabled: generate_tiles,
            }),
            r@.wf(),
    {
        GameState { grid, score: 0, over: false, won: false, generate_tiles }
    }

    /// Rebuilds an engine from persisted parts; `grid_valid` checks the
    /// assumption executably.
    pub fn restore(
        grid: Vec<Option<Tile>>,
        score: usize,
        over: bool,
        won: bool,
        generate_tiles: bool,
    ) -> (r: GameState)
        requires
            grid_wf(cells_view(grid@), won),
        ensures
            r@ == (GameView {
                grid: cells_view(grid@),
                score: score as int,
                over,
                won,
                spawn_enabled: generate_tiles,
            }),
            r@.wf(),
    {
        GameState { grid, score, over, won, generate_tiles }
    }

    pub fn score(&self) -> (r: usize)
        ensures
            r as int == self@.score,
    {
        self.score
    }

    pub fn is_won(&self) -> (r: bool)
        ensures
            r == self@.won,
    {
        self.won
    }

    pub fn is_over(&self) -> (r: bool)
        ensures
            r == self@.over,
    {
        self.over
    }

    pub fn spawning_enabled(&self) -> (r: bool)
        ensures
            r == self@.spawn_enabled,
    {
        self.generate_tiles
    }

    /// A copy of the board, cell by cell, for persistence.
    pub fn cells(&self) -> (r: Vec<Option<Tile>>)
        ensures
            cells_view(r@) == self@.grid,
    {
        let mut r: Vec<Option<Tile>> = Vec::new();
        let mut i: usize = 0;
        while i < self.grid.len()
            invariant
                i <= self.grid@.len(),
                r@.len() == i,
                forall|k: int| 0 <= k < i ==> r@[k] == self.grid@[k],
            decreases self.grid@.len() - i,
        {
            r.push(self.grid[i]);
            i = i + 1;
        }
        proof {
            assert(r@ =~= self.grid@);
        }
        r
    }

    fn is_game_over(&self) -> (r: bool)
        ensures
            r == (self@.over || self@.won),
    {
        self.over || self.won
    }

    /// If spawning is enabled and an empty cell exists, places a tile of
    /// value 2 (probability 0.9) or 4 (probability 0.1) on an empty cell
    /// chosen uniformly at random; otherwise leaves the state alone.
    pub fn add_random_tile(&mut self)
        requires
            old(self)@.wf(),
        ensures
            final(self)@.wf(),
            final(self)@.score == old(self)@.score,
            final(self)@.over == old(self)@.over,
            final(self)@.won == old(self)@.won,
            final(self)@.spawn_enabled == old(self)@.spawn_enabled,
            !old(self)@.spawn_enabled ==> final(self)@ == old(self)@,
            old(self)@.spawn_enabled && board_full(old(self)@.grid) ==> final(self)@ == old(self)@,
            old(self)@.spawn_enabled && !board_full(old(self)@.grid) ==> spawned_into(
                old(self)@.grid,
                final(self)@.grid,
            ),
    {
        if !self.generate_tiles {
            return;
        }
        let mut empties: Vec<usize> = Vec::new();
        let mut i: usize = 0;
        while i < 16
            invariant
                i <= 16,
                *self == *old(self),
                self@.grid.len() == 16,
                forall|k: int| 0 <= k < empties@.len() ==> (#[trigger] empties@[k]) < 16
                    && self@.grid[empties@[k] as int] is None,
                empties@.len() == 0 ==> forall|k: int| 0 <= k < i ==> #[trigger] self@.grid[k] is Some,
            decreases 16 - i,
        {
            if self.grid[i].is_none() {
                empties.push(i);
            }
            i = i + 1;
        }
        if empties.len() == 0 {
            return;
        }
        let mut rng = fresh_rng();
        let k = rng_below(&mut rng, empties.len());
        let cell = empties[k];
        let draw = rng_below(&mut rng, 10);
        let value: usize = if draw >= 9 { 4 } else { 2 };
        let ghost pre = self@.grid;
        self.grid[cell] = Some(Tile::new(value));
        proof {
            assert(cells_view(self.grid@) =~= pre.update(cell as int, Some(spawn_tile(value as int))));
            assert(pre[cell as int] is None);
            assert(spawned_into(pre, self@.grid));
        }
    }
}

// ------ the move itself ------

/// Views of a run of tiles.
pub open spec fn tiles_view(s: Seq<Tile>) -> Seq<TileView> {
    Seq::new(s.len(), |k: int| s[k]@)
}

/// Content of slot `j` of line `l` after sliding, on a prepared board `g`.
pub open spec fn line_result(g: Seq<Option<TileView>>, d: Direction, l: int, j: int) -> Option<
    TileView,
> {
    let s = merge_tiles(occ_tiles(line_seq(g, d, l)));
    if j < s.len() {
        Some(s[j])
    } else {
        None
    }
}

/// Whether sliding changes any value of line `l` of a prepared board `g`.
pub open spec fn line_changed(g: Seq<Option<TileView>>, d: Direction, l: int) -> bool {
    exists|j: int| 0 <= j < 4 && cell_value(line_result(g, d, l, j)) != cell_value(
        #[trigger] g[line_cell(d, l, j)],
    )
}

/// Whether one of the first `n` lines of a move on `g` changes a value.
pub open spec fn changed_upto(g: Seq<Option<TileView>>, d: Direction, n: int) -> bool
    decreases n,
{
    if n <= 0 {
        false
    } else {
        changed_upto(g, d, n - 1) || line_changed(prepared(g), d, n - 1)
    }
}

impl GameState {
    /// Step 1 of a move: mark every occupied cell Static and record its
    /// index as the previous position.
    fn prepare_move(&mut self)
        requires
            old(self)@.grid.len() == 16,
        ensures
            final(self)@.grid == prepared(old(self)@.grid),
            final(self)@.score == old(self)@.score,
            final(self)@.over == old(self)@.over,
            final(self)@.won == old(self)@.won,
            final(self)@.spawn_enabled == old(self)@.spawn_enabled,
    {
        let mut i: usize = 0;
        while i < 16
            invariant
                i <= 16,
                self.grid@.len() == 16,
                old(self)@.grid.len() == 16,
                self.score == old(self).score,
                self.over == old(self).over,
                self.won == old(self).won,
                self.generate_tiles == old(self).generate_tiles,
                forall|k: int| 0 <= k < i ==> #[trigger] self@.grid[k] == prepared(old(self)@.grid)[k],
                forall|k: int| i <= k < 16 ==> #[trigger] self@.grid[k] == old(self)@.grid[k],
            decreases 16 - i,
        {
            let ghost pre = self@.grid;
            let c = self.grid[i];
            proof {
                assert(pre[i as int] == old(self)@.grid[i as int]);
                assert(pre[i as int] == match c {
                    Some(t) => Some(t@),
                    None => None,
                });
            }
            if let Some(t) = c {
                self.grid[i] = Some(
                    Tile { value: t.value, state: TileState::Static, prev_pos: Some(i) },
                );
                proof {
                    assert(old(self)@.grid[i as int] == Some(t@));
                    assert(self@.grid[i as int] == Some(
                        TileView { value: t@.value, state: TileState::Static, prev_pos: Some(i) },
                    ));
                }
            }
            proof {
                assert(self@.grid.len() == 16);
                assert(self@.grid[i as int] == prepared(old(self)@.grid)[i as int]);
                assert(forall|k: int| 0 <= k < 16 && k != i ==> #[trigger] self@.grid[k] == pre[k]);
            }
            i = i + 1;
        }
        proof {
            assert(self@.grid =~= prepared(old(self)@.grid));
        }
    }

    /// Step 2 of a move for one line: compact the line's tiles toward the
    /// edge, merging the two leading tiles when their values are equal,
    /// at most once per resulting tile. Adds the merged values to the
    /// score, latches the win flag on a 2048, and reports whether any
    /// value of the line changed.
    fn slide_line(&mut self, direction: Direction, l: usize) -> (changed: bool)
        requires
            old(self)@.grid.len() == 16,
            l < 4,
            forall|j: int| 0 <= j < 4 ==> cell_ok_small(
                #[trigger] old(self)@.grid[line_cell(direction, l as int, j)],
            ),
            old(self)@.score + 4096 <= usize::MAX,
        ensures
            final(self)@.grid.len() == 16,
            forall|i: int| 0 <= i < 16 && cell_line(direction, i) != l ==> final(self)@.grid[i]
                == #[trigger] old(self)@.grid[i],
            forall|j: int| 0 <= j < 4 ==> final(self)@.grid[#[trigger] line_cell(
                direction,
                l as int,
                j,
            )] == line_result(old(self)@.grid, direction, l as int, j),
            final(self)@.score == old(self)@.score + merge_gain(
                occ_tiles(line_seq(old(self)@.grid, direction, l as int)),
            ),
            final(self)@.won == (old(self)@.won || merge_wins(
                occ_tiles(line_seq(old(self)@.grid, direction, l as int)),
            )),
            final(self)@.over == old(self)@.over,
            final(self)@.spawn_enabled == old(self)@.spawn_enabled,
            changed == line_changed(old(self)@.grid, direction, l as int),
    {
        let ghost g0 = self@.grid;
        let ghost lint = l as int;
        let ghost lseq = line_seq(g0, direction, lint);

        // collect the line's occupants, ordered from the edge inward
        let mut ts: Vec<Tile> = Vec::new();
        let mut j: usize = 0;
        while j < 4
            invariant
                j <= 4,
                l < 4,
                *self == *old(self),
                self@.grid.len() == 16,
                g0 == self@.grid,
                lint == l as int,
                lseq == line_seq(g0, direction, lint),
                ts@.len() <= j,
                tiles_view(ts@) == occ_tiles(lseq.take(j as int)),
            decreases 4 - j,
        {
            let i = line_cell_at(direction, l, j);
            proof {
                lemma_line_cell_bounds(direction, lint, j as int);
            }
            let c = self.grid[i];
            let ghost q = lseq.take(j as int);
            let ghost outv = tiles_view(ts@);
            proof {
                assert(lseq.take(j as int + 1) =~= q.push(lseq[j as int]));
                assert(q.push(lseq[j as int]).drop_last() =~= q);
                assert(lseq[j as int] == g0[line_cell(direction, lint, j as int)]);
            }
            if let Some(t) = c {
                ts.push(t);
                proof {
                    assert(tiles_view(ts@) =~= outv.push(t@));
                    assert(occ_tiles(lseq.take(j as int + 1)) == occ_tiles(q) + seq![t@]);
                    assert(outv.push(t@) =~= outv + seq![t@]);
                }
            } else {
                proof {
                    assert(occ_tiles(lseq.take(j as int + 1)) == occ_tiles(q)
                        + Seq::<TileView>::empty());
                    assert(occ_tiles(q) + Seq::<TileView>::empty() =~= occ_tiles(q));
                }
            }
            j = j + 1;
        }
        proof {
            assert(lseq.take(4) =~= lseq);
            assert forall|m: int| 0 <= m < 4 implies cell_ok_small(#[trigger] lseq[m]) by {
                assert(lseq[m] == g0[line_cell(direction, lint, m)]);
            }
            lemma_occ_len(lseq);
            lemma_occ_tiles_ok(lseq);
        }

        // merge pass over the compacted run
        let ghost tsv = tiles_view(ts@);
        proof {
            lemma_merge_props(tsv);
            lemma_sum_bound(tsv);
        }
        let mut out: Vec<Tile> = Vec::new();
        let mut gain: usize = 0;
        let mut win: bool = false;
        let mut k: usize = 0;
        proof {
            assert(tsv.skip(0) =~= tsv);
            assert(tiles_view(out@) =~= Seq::<TileView>::empty());
            assert(Seq::<TileView>::empty() + merge_tiles(tsv) =~= merge_tiles(tsv));
        }
        while k < ts.len()
            invariant
                k <= ts@.len(),
                ts@.len() <= 4,
                *self == *old(self),
                tsv == tiles_view(ts@),
                forall|m: int| 0 <= m < tsv.len() ==> tile_ok_small(#[trigger] tsv[m]),
                merge_gain(tsv) <= 4096,
                merge_tiles(tsv) == tiles_view(out@) + merge_tiles(tsv.skip(k as int)),
                merge_gain(tsv) == gain + merge_gain(tsv.skip(k as int)),
                merge_wins(tsv) == (win || merge_wins(tsv.skip(k as int))),
                gain <= 4096,
            decreases ts@.len() - k,
        {
            let ghost sk = tsv.skip(k as int);
            let ghost outv = tiles_view(out@);
            proof {
                assert(sk[0] == tsv[k as int]);
                assert(tsv[k as int] == ts@[k as int]@);
            }
            let t = ts[k];
            if k + 1 < ts.len() && t.value == ts[k + 1].value {
                proof {
                    assert(sk[1] == tsv[k as int + 1]);
                    assert(sk.skip(2) =~= tsv.skip(k as int + 2));
                    lemma_merge_props(sk.skip(2));
                }
                let nv = t.value * 2;
                out.push(Tile { value: nv, state: TileState::Merged, prev_pos: t.prev_pos });
                gain = gain + nv;
                if nv == 2048 {
                    win = true;
                }
                proof {
                    let m = TileView { value: 2 * sk[0].value, state: TileState::Merged, prev_pos: sk[0].prev_pos };
                    assert(merge_tiles(sk) == seq![m] + merge_tiles(sk.skip(2)));
                    assert(merge_gain(sk) == 2 * sk[0].value + merge_gain(sk.skip(2)));
                    assert(merge_wins(sk) == (2 * sk[0].value == 2048 || merge_wins(sk.skip(2))));
                    assert(tiles_view(out@) =~= outv.push(m));
                    assert(outv.push(m) + merge_tiles(tsv.skip(k as int + 2)) =~= outv + (seq![m]
                        + merge_tiles(tsv.skip(k as int + 2))));
                }
                k = k + 2;
            } else {
                proof {
                    assert(sk.skip(1) =~= tsv.skip(k as int + 1));
                    assert(merge_tiles(sk) == seq![sk[0]] + merge_tiles(sk.skip(1)));
                    assert(merge_gain(sk) == merge_gain(sk.skip(1)));
                    assert(merge_wins(sk) == merge_wins(sk.skip(1)));
                }
                out.push(t);
                proof {
                    assert(tiles_view(out@) =~= outv.push(sk[0]));
                    assert(outv.push(sk[0]) + merge_tiles(tsv.skip(k as int + 1)) =~= outv + (seq![
                        sk[0],
                    ] + merge_tiles(tsv.skip(k as int + 1))));
                }
                k = k + 1;
            }
        }
        proof {
            assert(tsv.skip(ts@.len() as int) =~= Seq::<TileView>::empty());
            assert(merge_tiles(Seq::<TileView>::empty()) == Seq::<TileView>::empty());
            assert(merge_gain(Seq::<TileView>::empty()) == 0);
            assert(!merge_wins(Seq::<TileView>::empty()));
            assert(tiles_view(out@) + Seq::<TileView>::empty() =~= tiles_view(out@));
            assert(tiles_view(out@) == merge_tiles(tsv));
        }

        // write the merged run back onto the line
        let ghost slid = merge_tiles(occ_tiles(lseq));
        let mut changed: bool = false;
        let mut j2: usize = 0;
        while j2 < 4
            invariant
                j2 <= 4,
                l < 4,
                lint == l as int,
                self.score == old(self).score,
                self.over == old(self).over,
                self.won == old(self).won,
                self.generate_tiles == old(self).generate_tiles,
                self@.grid.len() == 16,
                g0 == old(self)@.grid,
                g0.len() == 16,
                lseq == line_seq(g0, direction, lint),
                slid == merge_tiles(occ_tiles(lseq)),
                tiles_view(out@) == slid,
                out@.len() == slid.len(),
                slid.len() <= 4,
                gain as int == merge_gain(occ_tiles(lseq)),
                win == merge_wins(occ_tiles(lseq)),
                gain <= 4096,
                forall|i: int| 0 <= i < 16 && !(cell_line(direction, i) == lint && cell_slot(
                    direction,
                    i,
                ) < j2) ==> #[trigger] self@.grid[i] == g0[i],
                forall|jj: int| 0 <= jj < j2 ==> #[trigger] self@.grid[line_cell(
                    direction,
                    lint,
                    jj,
                )] == line_result(g0, direction, lint, jj),
                changed == exists|jj: int| 0 <= jj < j2 && cell_value(
                    line_result(g0, direction, lint, jj),
                ) != cell_value(#[trigger] g0[line_cell(direction, lint, jj)]),
            decreases 4 - j2,
        {
            let i = line_cell_at(direction, l, j2);
            proof {
                lemma_line_cell_bounds(direction, lint, j2 as int);
            }
            let before = self.grid[i];
            let after: Option<Tile> = if j2 < out.len() {
                Some(out[j2])
            } else {
                None
            };
            let bv: usize = match before {
                Some(t) => t.value,
                None => 0,
            };
            let av: usize = match after {
                Some(t) => t.value,
                None => 0,
            };
            proof {
                assert(before == self.grid@[i as int]);
                assert(cells_view(self.grid@)[i as int] == g0[i as int]);
                if j2 < out.len() {
                    assert(tiles_view(out@)[j2 as int] == out@[j2 as int]@);
                }
            }
            if av != bv {
                changed = true;
            }
            let ghost gprev = self.grid@;
            self.grid[i] = after;
            proof {
                assert(cells_view(self.grid@) =~= cells_view(gprev).update(
                    i as int,
                    match after {
                        Some(t) => Some(t@),
                        None => None,
                    },
                ));
                assert(self@.grid[i as int] == line_result(g0, direction, lint, j2 as int));
            }
            j2 = j2 + 1;
        }
        self.score = self.score + gain;
        if win {
            self.won = true;
        }
        changed
    }
}

// ------ putting the lines together ------

proof fn lemma_line_changed_eq(
    g1: Seq<Option<TileView>>,
    g2: Seq<Option<TileView>>,
    d: Direction,
    l: int,
)
    requires
        0 <= l < 4,
        forall|j: int| 0 <= j < 4 ==> g1[#[trigger] line_cell(d, l, j)] == g2[line_cell(d, l, j)],
    ensures
        line_seq(g1, d, l) == line_seq(g2, d, l),
        line_changed(g1, d, l) == line_changed(g2, d, l),
{
    assert(line_seq(g1, d, l) =~= line_seq(g2, d, l));
    if line_changed(g1, d, l) {
        let j = choose|j: int| 0 <= j < 4 && cell_value(line_result(g1, d, l, j)) != cell_value(
            g1[line_cell(d, l, j)],
        );
        assert(cell_value(line_result(g2, d, l, j)) != cell_value(g2[line_cell(d, l, j)]));
        assert(line_changed(g2, d, l));
    }
    if line_changed(g2, d, l) {
        let j = choose|j: int| 0 <= j < 4 && cell_value(line_result(g2, d, l, j)) != cell_value(
            g2[line_cell(d, l, j)],
        );
        assert(cell_value(line_result(g1, d, l, j)) != cell_value(g1[line_cell(d, l, j)]));
        assert(line_changed(g1, d, l));
    }
}

proof fn lemma_line_ok(g: Seq<Option<TileView>>, d: Direction, l: int)
    requires
        g.len() == 16,
        0 <= l < 4,
        forall|i: int| 0 <= i < 16 ==> cell_ok_small(#[trigger] g[i]),
    ensures
        slid_line(prepared(g), d, l).len() <= 4,
        forall|m: int| 0 <= m < slid_line(prepared(g), d, l).len() ==> valid_value(
            #[trigger] slid_line(prepared(g), d, l)[m].value,
        ) && (slid_line(prepared(g), d, l)[m].value == 2048 ==> line_wins(g, d, l)),
{
    let pg = prepared(g);
    let ls = line_seq(pg, d, l);
    assert forall|j: int| 0 <= j < 4 implies cell_ok_small(#[trigger] ls[j]) by {
        lemma_line_cell_bounds(d, l, j);
        assert(ls[j] == pg[line_cell(d, l, j)]);
        assert(cell_ok_small(g[line_cell(d, l, j)]));
    }
    lemma_occ_len(ls);
    lemma_occ_tiles_ok(ls);
    lemma_merge_props(occ_tiles(ls));
}

proof fn lemma_moved_wf(g: Seq<Option<TileView>>, d: Direction)
    requires
        g.len() == 16,
        forall|i: int| 0 <= i < 16 ==> cell_ok_small(#[trigger] g[i]),
    ensures
        forall|i: int| 0 <= i < 16 ==> match #[trigger] moved_grid(g, d)[i] {
            Some(t) => valid_value(t.value) && (t.value == 2048 ==> move_wins(g, d)),
            None => true,
        },
{
    assert forall|i: int| 0 <= i < 16 implies match #[trigger] moved_grid(g, d)[i] {
        Some(t) => valid_value(t.value) && (t.value == 2048 ==> move_wins(g, d)),
        None => true,
    } by {
        lemma_cell_inverse(d, i);
        let l = cell_line(d, i);
        lemma_line_ok(g, d, l);
        reveal_with_fuel(wins_upto, 5);
    }
}

proof fn lemma_changed_equiv(g: Seq<Option<TileView>>, d: Direction)
    requires
        g.len() == 16,
    ensures
        changed_upto(g, d, 4) == board_changed(g, d),
{
    reveal_with_fuel(changed_upto, 5);
    let pg = prepared(g);
    if changed_upto(g, d, 4) {
        assert(exists|l: int| 0 <= l < 4 && line_changed(pg, d, l));
        let l = choose|l: int| 0 <= l < 4 && line_changed(pg, d, l);
        let j = choose|j: int| 0 <= j < 4 && cell_value(line_result(pg, d, l, j)) != cell_value(
            pg[line_cell(d, l, j)],
        );
        lemma_line_cell_bounds(d, l, j);
        let i = line_cell(d, l, j);
        assert(moved_grid(g, d)[i] == line_result(pg, d, l, j));
        assert(cell_value(pg[i]) == cell_value(g[i]));
        assert(board_changed(g, d));
    }
    if board_changed(g, d) {
        let i = choose|i: int| 0 <= i < 16 && cell_value(moved_grid(g, d)[i]) != cell_value(
            #[trigger] g[i],
        );
        lemma_cell_inverse(d, i);
        let l = cell_line(d, i);
        let j = cell_slot(d, i);
        assert(moved_grid(g, d)[i] == line_result(pg, d, l, j));
        assert(cell_value(pg[line_cell(d, l, j)]) == cell_value(g[i]));
        assert(line_changed(pg, d, l));
        assert(changed_upto(g, d, 4));
    }
}

proof fn lemma_changed_not_full(g: Seq<Option<TileView>>, d: Direction)
    requires
        g.len() == 16,
        forall|i: int| 0 <= i < 16 ==> cell_ok_small(#[trigger] g[i]),
        board_changed(g, d),
    ensures
        !board_full(moved_grid(g, d)),
{
    let pg = prepared(g);
    let i0 = choose|i: int| 0 <= i < 16 && cell_value(moved_grid(g, d)[i]) != cell_value(
        #[trigger] g[i],
    );
    lemma_cell_inverse(d, i0);
    let l = cell_line(d, i0);
    let j0 = cell_slot(d, i0);
    let ls = line_seq(pg, d, l);
    assert forall|j: int| 0 <= j < 4 implies cell_ok_small(#[trigger] ls[j]) by {
        lemma_line_cell_bounds(d, l, j);
        assert(ls[j] == pg[line_cell(d, l, j)]);
        assert(cell_ok_small(g[line_cell(d, l, j)]));
    }
    lemma_occ_len(ls);
    lemma_occ_tiles_ok(ls);
    let occ = occ_tiles(ls);
    lemma_merge_props(occ);
    let slid = merge_tiles(occ);
    if slid.len() == 4 {
        lemma_occ_full(ls);
        assert(moved_grid(g, d)[i0] == line_result(pg, d, l, j0));
        assert(line_result(pg, d, l, j0) == Some(slid[j0]));
        assert(slid[j0].value == cell_value(ls[j0]));
        assert(ls[j0] == pg[i0]);
        assert(cell_value(pg[i0]) == cell_value(g[i0]));
        assert(false);
    }
    lemma_line_cell_bounds(d, l, 3);
    assert(moved_grid(g, d)[line_cell(d, l, 3)] is None);
    assert(!board_full(moved_grid(g, d)));
}

impl GameState {
    /// Applies a directional move: unless the game is already terminal,
    /// every line is compacted toward the named edge with at most one
    /// merge per resulting tile, the merged values are added to the
    /// score, the win flag latches on a 2048 tile, and if anything moved
    /// and spawning is enabled one random tile is placed on an empty cell.
    pub fn move_tiles(&mut self, direction: Direction)
        requires
            old(self)@.wf(),
            old(self)@.won || old(self)@.over || old(self)@.score + 16384 <= usize::MAX,
        ensures
            final(self)@.wf(),
            old(self)@.won || old(self)@.over ==> final(self)@ == old(self)@,
            !(old(self)@.won || old(self)@.over) ==> {
                let g = old(self)@.grid;
                &&& final(self)@.score == old(self)@.score + move_gain(g, direction)
                &&& final(self)@.won == move_wins(g, direction)
                &&& final(self)@.over == old(self)@.over
                &&& final(self)@.spawn_enabled == old(self)@.spawn_enabled
                &&& (board_changed(g, direction) && old(self)@.spawn_enabled ==> spawned_into(
                    moved_grid(g, direction),
                    final(self)@.grid,
                ))
                &&& (!(board_changed(g, direction) && old(self)@.spawn_enabled)
                    ==> final(self)@.grid == moved_grid(g, direction))
            },
    {
        if self.is_game_over() {
            return;
        }
        let ghost g = self@.grid;
        self.prepare_move();
        let ghost pg = prepared(g);
        let mut moved = false;
        let mut l: usize = 0;
        while l < 4
            invariant
                l <= 4,
                self@.grid.len() == 16,
                g == old(self)@.grid,
                g.len() == 16,
                pg == prepared(g),
                !old(self)@.won,
                !old(self)@.over,
                old(self)@.wf(),
                old(self)@.score + 16384 <= usize::MAX,
                forall|i: int| 0 <= i < 16 ==> #[trigger] self@.grid[i] == (if cell_line(
                    direction,
                    i,
                ) < l {
                    moved_grid(g, direction)[i]
                } else {
                    pg[i]
                }),
                self@.score == old(self)@.score + gain_upto(g, direction, l as int),
                self@.score <= old(self)@.score + 4096 * l,
                self@.won == wins_upto(g, direction, l as int),
                self@.over == old(self)@.over,
                self@.spawn_enabled == old(self)@.spawn_enabled,
                moved == changed_upto(g, direction, l as int),
            decreases 4 - l,
        {
            let ghost lint = l as int;
            let ghost cur = self@.grid;
            proof {
                assert forall|j: int| 0 <= j < 4 implies cell_ok_small(
                    #[trigger] cur[line_cell(direction, lint, j)],
                ) by {
                    lemma_line_cell_bounds(direction, lint, j);
                    let i = line_cell(direction, lint, j);
                    assert(cur[i] == pg[i]);
                    assert(cell_wf(g[i], false));
                    assert(cell_value(pg[i]) == cell_value(g[i]));
                }
            }
            let ch = self.slide_line(direction, l);
            if ch {
                moved = true;
            }
            proof {
                let lsc = line_seq(cur, direction, lint);
                let lsp = line_seq(pg, direction, lint);
                assert forall|j: int| 0 <= j < 4 implies cur[#[trigger] line_cell(
                    direction,
                    lint,
                    j,
                )] == pg[line_cell(direction, lint, j)] && cell_ok_small(lsp[j]) by {
                    lemma_line_cell_bounds(direction, lint, j);
                    let i = line_cell(direction, lint, j);
                    assert(cur[i] == pg[i]);
                    assert(cell_wf(g[i], false));
                    assert(cell_value(pg[i]) == cell_value(g[i]));
                }
                lemma_line_changed_eq(cur, pg, direction, lint);
                assert(lsc == lsp);
                let occ = occ_tiles(lsp);
                lemma_occ_len(lsp);
                lemma_occ_tiles_ok(lsp);
                lemma_merge_props(occ);
                lemma_sum_bound(occ);
                assert(self@.score == old(self)@.score + gain_upto(g, direction, lint)
                    + merge_gain(occ));
                assert(merge_gain(occ) == line_gain(g, direction, lint));
                assert(gain_upto(g, direction, lint + 1) == gain_upto(g, direction, lint)
                    + line_gain(g, direction, lint));
                assert(merge_gain(occ) <= 4096);
                assert(self@.won == (wins_upto(g, direction, lint) || line_wins(
                    g,
                    direction,
                    lint,
                )));
                assert(ch == line_changed(pg, direction, lint));
                assert forall|i: int| 0 <= i < 16 implies #[trigger] self@.grid[i] == (if cell_line(
                    direction,
                    i,
                ) < lint + 1 {
                    moved_grid(g, direction)[i]
                } else {
                    pg[i]
                }) by {
                    lemma_cell_inverse(direction, i);
                    if cell_line(direction, i) == lint {
                        let j = cell_slot(direction, i);
                        assert(i == line_cell(direction, lint, j));
                        assert(self@.grid[i] == line_result(cur, direction, lint, j));
                        assert(line_result(cur, direction, lint, j) == line_result(
                            pg,
                            direction,
                            lint,
                            j,
                        ));
                        assert(moved_grid(g, direction)[i] == line_result(pg, direction, lint, j));
                    } else {
                        assert(self@.grid[i] == cur[i]);
                    }
                }
            }
            l = l + 1;
        }
        proof {
            assert forall|i: int| 0 <= i < 16 implies #[trigger] self@.grid[i] == moved_grid(
                g,
                direction,
            )[i] by {
                lemma_cell_inverse(direction, i);
            }
            assert(self@.grid =~= moved_grid(g, direction));
            lemma_changed_equiv(g, direction);
            assert forall|i: int| 0 <= i < 16 implies cell_ok_small(#[trigger] g[i]) by {
                assert(cell_wf(g[i], false));
            }
            lemma_moved_wf(g, direction);
            assert(self@.wf());
        }
        if moved {
            proof {
                lemma_changed_not_full(g, direction);
            }
            self.add_random_tile();
        }
    }
}

// ------ the read-only projection ------

/// The presentation entries one cell yields: a merged tile is preceded
/// by a synthetic Static tile showing the pre-merge half value, so both
/// the sliding-in tile and the result can be drawn at the same position.
pub open spec fn cell_entries(c: Option<TileView>, i: int) -> Seq<(usize, TileView)> {
    match c {
        None => Seq::empty(),
        Some(t) => if t.state == TileState::Merged {
            seq![
                (i as usize, TileView { value: t.value / 2, state: TileState::Static, prev_pos: t.prev_pos }),
                (i as usize, t),
            ]
        } else {
            seq![(i as usize, t)]
        },
    }
}

/// The entries of the first `n` cells, in index order.
pub open spec fn entries_upto(g: Seq<Option<TileView>>, n: int) -> Seq<(usize, TileView)>
    decreases n,
{
    if n <= 0 {
        Seq::empty()
    } else {
        entries_upto(g, n - 1) + cell_entries(g[n - 1], n - 1)
    }
}

/// What `get_tiles` yields, over the whole board.
pub open spec fn tiles_projection(g: Seq<Option<TileView>>) -> Seq<(usize, TileView)> {
    entries_upto(g, g.len() as int)
}

/// View of the returned index/tile pairs.
pub open spec fn pairs_view(s: Seq<(usize, Tile)>) -> Seq<(usize, TileView)> {
    Seq::new(s.len(), |k: int| (s[k].0, s[k].1@))
}

impl GameState {
    /// The occupied cells in index order, each as an index/tile pair; a
    /// cell merged this move yields two entries, the synthetic pre-merge
    /// half first.
    pub fn get_tiles(&self) -> (r: Vec<(usize, Tile)>)
        ensures
            pairs_view(r@) == tiles_projection(self@.grid),
    {
        let mut r: Vec<(usize, Tile)> = Vec::new();
        let mut i: usize = 0;
        proof {
            assert(pairs_view(r@) =~= Seq::<(usize, TileView)>::empty());
        }
        while i < self.grid.len()
            invariant
                i <= self.grid@.len(),
                pairs_view(r@) == entries_upto(cells_view(self.grid@), i as int),
            decreases self.grid@.len() - i,
        {
            let ghost prev = r@;
            let c = self.grid[i];
            match c {
                Some(t) => {
                    match t.state {
                        TileState::Merged => {
                            r.push((i, Tile {
                                value: t.value / 2,
                                state: TileState::Static,
                                prev_pos: t.prev_pos,
                            }));
                            r.push((i, t));
                        },
                        _ => {
                            r.push((i, t));
                        },
                    }
                },
                None => {},
            }
            proof {
                let gv = cells_view(self.grid@);
                assert(gv[i as int] == match c {
                    Some(t) => Some(t@),
                    None => None,
                });
                assert(pairs_view(r@) =~= pairs_view(prev) + cell_entries(gv[i as int], i as int));
            }
            i = i + 1;
        }
        r
    }
}

impl Default for GameState {
    /// A fresh game: an otherwise empty board holding exactly two spawned
    /// tiles, each New with value 2 or 4; spawning enabled, nothing scored.
    fn default() -> (r: GameState)
        ensures
            r@.wf(),
            r@.score == 0,
            !r@.over,
            !r@.won,
            r@.spawn_enabled,
            r@.grid.len() == 16,
            cell_count(r@.grid) == 2,
            forall|i: int| 0 <= i < 16 && #[trigger] r@.grid[i] is Some ==> r@.grid[i] == Some(
                spawn_tile(2),
            ) || r@.grid[i] == Some(spawn_tile(4)),
    {
        let mut grid: Vec<Option<Tile>> = Vec::new();
        let mut i: usize = 0;
        while i < 16
            invariant
                i <= 16,
                grid@.len() == i,
                forall|k: int| 0 <= k < i ==> #[trigger] grid@[k] is None,
            decreases 16 - i,
        {
            grid.push(None);
            i = i + 1;
        }
        proof {
            assert(grid_wf(cells_view(grid@), false));
        }
        let mut gs = GameState::new(grid, true);
        let ghost g0 = gs@.grid;
        proof {
            assert(forall|k: int| 0 <= k < 16 ==> #[trigger] g0[k] is None);
            lemma_count_extremes(g0);
            assert(!board_full(g0));
        }
        gs.add_random_tile();
        let ghost g1 = gs@.grid;
        proof {
            lemma_spawn_count(g0, g1);
            lemma_count_extremes(g1);
            assert(!board_full(g1));
        }
        gs.add_random_tile();
        let ghost g2 = gs@.grid;
        proof {
            lemma_spawn_count(g1, g2);
            assert(cell_count(g2) == 2);
            let i1 = choose|i: int| 0 <= i < 16 && #[trigger] g0[i] is None && (g1 == g0.update(
                i,
                Some(spawn_tile(2)),
            ) || g1 == g0.update(i, Some(spawn_tile(4))));
            let i2 = choose|i: int| 0 <= i < 16 && #[trigger] g1[i] is None && (g2 == g1.update(
                i,
                Some(spawn_tile(2)),
            ) || g2 == g1.update(i, Some(spawn_tile(4))));
            assert forall|k: int| 0 <= k < 16 && #[trigger] g2[k] is Some implies g2[k] == Some(
                spawn_tile(2),
            ) || g2[k] == Some(spawn_tile(4)) by {
                if k != i2 {
                    assert(g2[k] == g1[k]);
                    if k != i1 {
                        assert(g1[k] == g0[k]);
                    }
                }
            }
        }
        gs
    }
}

/// Whether `v` is a value the engine can hold, executably.
fn is_valid_value(v: usize) -> (b: bool)
    ensures
        b == valid_value(v as int),
{
    v == 2 || v == 4 || v == 8 || v == 16 || v == 32 || v == 64 || v == 128 || v == 256 || v == 512
        || v == 1024 || v == 2048
}

/// Checks executably what `restore` assumes of persisted parts, so a
/// persistence layer can fall back to a fresh game on damaged data.
pub fn grid_valid(grid: &Vec<Option<Tile>>, won: bool) -> (r: bool)
    ensures
        r == grid_wf(cells_view(grid@), won),
{
    if grid.len() != 16 {
        return false;
    }
    let mut ok = true;
    let mut i: usize = 0;
    while i < 16
        invariant
            i <= 16,
            grid@.len() == 16,
            ok == (forall|k: int| 0 <= k < i ==> cell_wf(#[trigger] cells_view(grid@)[k], won)),
        decreases 16 - i,
    {
        let c = grid[i];
        match c {
            Some(t) => {
                if !is_valid_value(t.value) || (t.value == 2048 && !won) {
                    ok = false;
                }
            },
            None => {},
        }
        proof {
            assert(cells_view(grid@)[i as int] == match c {
                Some(t) => Some(t@),
                None => None,
            });
        }
        i = i + 1;
    }
    ok
}

// ------ the laws of the engine ------

/// The value at position `j`, or 0 past the end.
spec fn val_at(ts: Seq<TileView>, j: int) -> int {
    if 0 <= j < ts.len() {
        ts[j].value
    } else {
        0
    }
}

proof fn lemma_merge_len(ts: Seq<TileView>)
    ensures
        merge_tiles(ts).len() <= ts.len(),
    decreases ts.len(),
{
    if ts.len() == 0 {
    } else if ts.len() >= 2 && ts[0].value == ts[1].value {
        lemma_merge_len(ts.skip(2));
    } else {
        lemma_merge_len(ts.skip(1));
    }
}

proof fn lemma_sum4(ts: Seq<TileView>)
    requires
        ts.len() <= 4,
    ensures
        sum_values(ts) == val_at(ts, 0) + val_at(ts, 1) + val_at(ts, 2) + val_at(ts, 3),
    decreases ts.len(),
{
    if ts.len() > 0 {
        lemma_sum4(ts.skip(1));
        assert(sum_values(ts) == ts[0].value + sum_values(ts.skip(1)));
        assert(val_at(ts.skip(1), 0) == val_at(ts, 1));
        assert(val_at(ts.skip(1), 1) == val_at(ts, 2));
        assert(val_at(ts.skip(1), 2) == val_at(ts, 3));
        assert(val_at(ts.skip(1), 3) == 0);
    }
}

proof fn lemma_fold_prefix(
    a: Seq<Option<TileView>>,
    b: Seq<Option<TileView>>,
    f: spec_fn(Option<TileView>) -> int,
    n: int,
)
    requires
        forall|k: int| 0 <= k < n ==> a[k] == b[k],
    ensures
        cells_fold(a, f, n) == cells_fold(b, f, n),
    decreases n,
{
    if n > 0 {
        lemma_fold_prefix(a, b, f, n - 1);
    }
}

proof fn lemma_fold_update(
    g: Seq<Option<TileView>>,
    f: spec_fn(Option<TileView>) -> int,
    n: int,
    i: int,
    c: Option<TileView>,
)
    requires
        0 <= i < g.len(),
        n <= g.len(),
    ensures
        cells_fold(g.update(i, c), f, n) == cells_fold(g, f, n) + (if 0 <= i < n {
            f(c) - f(g[i])
        } else {
            0
        }),
    decreases n,
{
    if n > 0 {
        lemma_fold_update(g, f, n - 1, i, c);
    }
}

proof fn lemma_occ_fold(s: Seq<Option<TileView>>)
    ensures
        occ_tiles(s).len() == cells_fold(s, occ_f(), s.len() as int),
        sum_values(occ_tiles(s)) == cells_fold(s, val_f(), s.len() as int),
    decreases s.len(),
{
    if s.len() > 0 {
        let s2 = s.drop_last();
        lemma_occ_fold(s2);
        lemma_fold_prefix(s, s2, occ_f(), s.len() - 1);
        lemma_fold_prefix(s, s2, val_f(), s.len() - 1);
        match s.last() {
            Some(t) => {
                assert(occ_tiles(s) =~= occ_tiles(s2).push(t));
                lemma_sum_push(occ_tiles(s2), t);
            },
            None => {
                assert(occ_tiles(s) =~= occ_tiles(s2));
            },
        }
    }
}

/// The slide of line `l`, related cell by cell to the folds that make up
/// the board-wide count and sum.
proof fn lemma_line_fold(g: Seq<Option<TileView>>, d: Direction, l: int)
    requires
        g.len() == 16,
        0 <= l < 4,
        forall|i: int| 0 <= i < 16 ==> cell_ok_small(#[trigger] g[i]),
    ensures
        line_fold(moved_grid(g, d), occ_f(), d, l) <= line_fold(g, occ_f(), d, l),
        line_fold(moved_grid(g, d), val_f(), d, l) == line_fold(g, val_f(), d, l),
{
    let pg = prepared(g);
    let m = moved_grid(g, d);
    let ls = line_seq(pg, d, l);
    assert forall|j: int| 0 <= j < 4 implies cell_ok_small(#[trigger] ls[j]) && ls[j] == pg[line_cell(
        d,
        l,
        j,
    )] by {
        lemma_line_cell_bounds(d, l, j);
        assert(cell_ok_small(g[line_cell(d, l, j)]));
        assert(cell_value(pg[line_cell(d, l, j)]) == cell_value(g[line_cell(d, l, j)]));
    }
    lemma_occ_len(ls);
    lemma_occ_tiles_ok(ls);
    let occ = occ_tiles(ls);
    lemma_merge_props(occ);
    lemma_merge_len(occ);
    let slid = merge_tiles(occ);
    lemma_occ_fold(ls);
    lemma_sum4(slid);
    reveal_with_fuel(cells_fold, 5);
    assert(cells_fold(ls, occ_f(), 4) == occ_ind(ls[0]) + occ_ind(ls[1]) + occ_ind(ls[2])
        + occ_ind(ls[3]));
    assert(cells_fold(ls, val_f(), 4) == cell_value(ls[0]) + cell_value(ls[1]) + cell_value(ls[2])
        + cell_value(ls[3]));
    assert forall|j: int| 0 <= j < 4 implies #[trigger] m[line_cell(d, l, j)] == line_result(
        pg,
        d,
        l,
        j,
    ) by {
        lemma_line_cell_bounds(d, l, j);
    }
    assert forall|j: int| 0 <= j < 4 implies occ_ind(#[trigger] m[line_cell(d, l, j)]) == (if j
        < slid.len() {
        1int
    } else {
        0int
    }) && cell_value(m[line_cell(d, l, j)]) == val_at(slid, j) by {
        lemma_line_cell_bounds(d, l, j);
    }
    assert forall|j: int| 0 <= j < 4 implies occ_ind(#[trigger] g[line_cell(d, l, j)]) == occ_ind(
        ls[j],
    ) && cell_value(g[line_cell(d, l, j)]) == cell_value(ls[j]) by {
        lemma_line_cell_bounds(d, l, j);
    }
    assert(slid.len() <= occ.len());
    assert(line_fold(m, occ_f(), d, l) == slid.len());
    assert(line_fold(g, occ_f(), d, l) == occ.len());
    assert(line_fold(m, val_f(), d, l) == sum_values(slid));
    assert(line_fold(g, val_f(), d, l) == sum_values(occ));
}

/// Tile-count invariant: a move never increases the number of occupied
/// cells, and whenever it changes the board it leaves an empty cell
/// behind. A spawn fills exactly one empty cell (`lemma_spawn_count`),
/// so one `move_tiles` call raises the count by at most one, and by
/// exactly one just when the board changed and spawning was enabled, as
/// `move_tiles`' contract states.
pub proof fn lemma_tile_count_invariant(g: Seq<Option<TileView>>, d: Direction)
    requires
        g.len() == 16,
        forall|i: int| 0 <= i < 16 ==> cell_ok_small(#[trigger] g[i]),
    ensures
        cell_count(moved_grid(g, d)) <= cell_count(g),
        board_changed(g, d) ==> !board_full(moved_grid(g, d)),
{
    lemma_fold_by_lines(g, occ_f(), d);
    lemma_fold_by_lines(moved_grid(g, d), occ_f(), d);
    lemma_line_fold(g, d, 0);
    lemma_line_fold(g, d, 1);
    lemma_line_fold(g, d, 2);
    lemma_line_fold(g, d, 3);
    if board_changed(g, d) {
        lemma_changed_not_full(g, d);
    }
}

proof fn lemma_count_extremes(g: Seq<Option<TileView>>)
    requires
        g.len() == 16,
    ensures
        (forall|i: int| 0 <= i < 16 ==> #[trigger] g[i] is None) ==> cell_count(g) == 0,
        board_full(g) ==> cell_count(g) == 16,
{
    reveal_with_fuel(cells_fold, 17);
}

/// A spawn fills exactly one previously empty cell.
pub proof fn lemma_spawn_count(pre: Seq<Option<TileView>>, post: Seq<Option<TileView>>)
    requires
        pre.len() == 16,
        spawned_into(pre, post),
    ensures
        cell_count(post) == cell_count(pre) + 1,
{
    let i = choose|i: int| 0 <= i < 16 && #[trigger] pre[i] is None && (post == pre.update(
        i,
        Some(spawn_tile(2)),
    ) || post == pre.update(i, Some(spawn_tile(4))));
    if post == pre.update(i, Some(spawn_tile(2))) {
        lemma_fold_update(pre, occ_f(), 16, i, Some(spawn_tile(2)));
    } else {
        lemma_fold_update(pre, occ_f(), 16, i, Some(spawn_tile(4)));
    }
}

/// Merge conservation: each merge combines two equal tiles into one
/// holding their sum, so a move leaves the total of all tile values
/// unchanged; the score rises by exactly the merged tiles' new values,
/// as the gain term in `move_tiles`' contract states.
pub proof fn lemma_merge_conservation(g: Seq<Option<TileView>>, d: Direction)
    requires
        g.len() == 16,
        forall|i: int| 0 <= i < 16 ==> cell_ok_small(#[trigger] g[i]),
    ensures
        cell_sum(moved_grid(g, d)) == cell_sum(g),
{
    lemma_fold_by_lines(g, val_f(), d);
    lemma_fold_by_lines(moved_grid(g, d), val_f(), d);
    lemma_line_fold(g, d, 0);
    lemma_line_fold(g, d, 1);
    lemma_line_fold(g, d, 2);
    lemma_line_fold(g, d, 3);
}

proof fn lemma_line_noop(g: Seq<Option<TileView>>, d: Direction, l: int)
    requires
        g.len() == 16,
        0 <= l < 4,
        forall|i: int| 0 <= i < 16 ==> cell_ok_small(#[trigger] g[i]),
        !line_changed(prepared(g), d, l),
    ensures
        line_gain(g, d, l) == 0,
        !line_wins(g, d, l),
{
    let pg = prepared(g);
    let ls = line_seq(pg, d, l);
    assert forall|j: int| 0 <= j < 4 implies cell_ok_small(#[trigger] ls[j]) && ls[j] == pg[line_cell(
        d,
        l,
        j,
    )] by {
        lemma_line_cell_bounds(d, l, j);
        assert(cell_ok_small(g[line_cell(d, l, j)]));
        assert(cell_value(pg[line_cell(d, l, j)]) == cell_value(g[line_cell(d, l, j)]));
    }
    lemma_occ_len(ls);
    lemma_occ_tiles_ok(ls);
    let occ = occ_tiles(ls);
    lemma_merge_props(occ);
    lemma_merge_len(occ);
    let slid = merge_tiles(occ);
    lemma_occ_fold(ls);
    reveal_with_fuel(cells_fold, 5);
    assert(cells_fold(ls, occ_f(), 4) == occ_ind(ls[0]) + occ_ind(ls[1]) + occ_ind(ls[2])
        + occ_ind(ls[3]));
    assert forall|j: int| 0 <= j < 4 implies cell_value(line_result(pg, d, l, j)) == cell_value(
        #[trigger] pg[line_cell(d, l, j)],
    ) by {
        assert(!(cell_value(line_result(pg, d, l, j)) != cell_value(pg[line_cell(d, l, j)])));
    }
    assert forall|j: int| 0 <= j < 4 implies occ_ind(#[trigger] ls[j]) == (if j < slid.len() {
        1int
    } else {
        0int
    }) by {
        assert(cell_value(line_result(pg, d, l, j)) == val_at(slid, j));
        if j < slid.len() {
            assert(valid_value(slid[j].value));
            assert(cell_value(ls[j]) == slid[j].value);
        } else {
            assert(cell_value(ls[j]) == 0);
            if ls[j] is Some {
                assert(valid_value(ls[j].unwrap().value));
                assert(false);
            }
        }
    }
    assert(occ.len() == slid.len());
}

/// No-op guarantee: a move that changes no cell's value gains no score
/// and does not win, so by `move_tiles`' contract it leaves the board,
/// the score and the win flag unchanged and spawns no tile.
pub proof fn lemma_no_op_guarantee(g: Seq<Option<TileView>>, d: Direction)
    requires
        g.len() == 16,
        forall|i: int| 0 <= i < 16 ==> cell_ok_small(#[trigger] g[i]),
        !board_changed(g, d),
    ensures
        move_gain(g, d) == 0,
        !move_wins(g, d),
{
    lemma_changed_equiv(g, d);
    reveal_with_fuel(changed_upto, 5);
    reveal_with_fuel(gain_upto, 5);
    reveal_with_fuel(wins_upto, 5);
    lemma_line_noop(g, d, 0);
    lemma_line_noop(g, d, 1);
    lemma_line_noop(g, d, 2);
    lemma_line_noop(g, d, 3);
}

/// Single merge per resulting tile: a run of four equal tiles merges
/// into two pairs, each resulting tile the product of exactly one merge,
/// never of a chain of three or four.
pub proof fn lemma_single_merge_per_move(a: TileView, b: TileView, c: TileView, d: TileView)
    requires
        a.value == b.value,
        b.value == c.value,
        c.value == d.value,
    ensures
        merge_tiles(seq![a, b, c, d]) == seq![
            TileView { value: 2 * a.value, state: TileState::Merged, prev_pos: a.prev_pos },
            TileView { value: 2 * c.value, state: TileState::Merged, prev_pos: c.prev_pos },
        ],
{
    let s = seq![a, b, c, d];
    let s2 = seq![c, d];
    assert(s.skip(2) =~= s2);
    assert(s2.skip(2) =~= Seq::<TileView>::empty());
    let ma = TileView { value: 2 * a.value, state: TileState::Merged, prev_pos: a.prev_pos };
    let mc = TileView { value: 2 * c.value, state: TileState::Merged, prev_pos: c.prev_pos };
    assert(merge_tiles(s2) == seq![mc] + merge_tiles(Seq::<TileView>::empty()));
    assert(seq![mc] + Seq::<TileView>::empty() =~= seq![mc]);
    assert(merge_tiles(s) == seq![ma] + merge_tiles(s2));
    assert(seq![ma] + seq![mc] =~= seq![ma, mc]);
}

} // verus!
