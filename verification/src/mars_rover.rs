//! A rover on a toroidal grid: unit moves that wrap at the edges, walks that
//! stop in front of an obstacle, and a breadth-first route finder.

use crate::search::{
    confined, continued, covers, explore, follows, has_parent, has_parents, in_level_order,
    is_walk, lemma_continued_prepend, lemma_explore, lemma_explore_distinct, lemma_explore_fuel,
    lemma_push_to_set, lemma_reachable_self, lemma_start_covered, lemma_step_covered,
    lemma_unseen_next, reachable, unseen, visit, Order,
};
use std::collections::{HashSet, VecDeque};
use vstd::prelude::*;
use vstd::std_specs::hash::*;

verus! {

/// What a rover can be told to do.
#[derive(Debug, PartialEq, Eq, Structural, Hash, Clone, Copy)]
pub enum Command {
    /// Move forward by this many cells, stopping in front of an obstacle.
    Forward(usize),
    /// Turn a quarter to the right.
    Clockwise,
    /// Turn a quarter to the left.
    AntiClockwise,
}

/// One of the four compass directions.
#[derive(Debug, PartialEq, Eq, Structural, Hash, Clone, Copy)]
pub enum CardinalDir {
    North,
    East,
    South,
    West,
}

impl CardinalDir {
    /// The signed unit of the direction: `+1` for north and east, `-1` for
    /// south and west.
    pub open spec fn unit(self) -> int {
        match self {
            CardinalDir::North | CardinalDir::East => 1,
            CardinalDir::South | CardinalDir::West => -1,
        }
    }

    /// Whether a move in this direction changes the first coordinate.
    pub open spec fn is_horizontal(self) -> bool {
        self is East || self is West
    }

    /// The signed step that one move in this direction adds to its axis.
    pub fn v(&self) -> (r: isize)
        ensures
            r == self.unit(),
    {
        match self {
            Self::North | Self::East => 1,
            Self::South | Self::West => -1,
        }
    }
}

/// A cell of a grid: its column and its row.
#[derive(Debug, PartialEq, Eq, Structural, Hash, Clone, Copy)]
pub struct Coord(pub usize, pub usize);

/// Where one step of `unit` from `at` ends on an axis of `extent` cells that
/// closes on itself.
pub open spec fn wrapped(at: usize, unit: int, extent: usize) -> usize {
    ((at + unit) % (extent as int)) as usize
}

/// A grid as mathematics: its size and the set of its blocked cells.
pub struct GridView {
    pub width: usize,
    pub height: usize,
    pub obstacles: Set<Coord>,
}

impl GridView {
    /// The number of cells along the axis of `dir`.
    pub open spec fn extent(self, dir: CardinalDir) -> usize {
        if dir.is_horizontal() {
            self.width
        } else {
            self.height
        }
    }

    /// The cell one move in direction `dir` from `from`. Only the coordinate
    /// along `dir` changes; it is taken modulo the extent of its axis.
    pub open spec fn moved(self, dir: CardinalDir, from: Coord) -> Coord {
        if dir.is_horizontal() {
            Coord(wrapped(from.0, dir.unit(), self.width), from.1)
        } else {
            Coord(from.0, wrapped(from.1, dir.unit(), self.height))
        }
    }

    /// Whether `c` is a cell of the grid.
    pub open spec fn inside(self, c: Coord) -> bool {
        c.0 < self.width && c.1 < self.height
    }

    /// Where a walk of up to `steps` moves in direction `dir` ends: at the
    /// last cell before the first blocked one, or after all the moves.
    pub open spec fn walk(self, dir: CardinalDir, from: Coord, steps: nat) -> Coord
        decreases steps,
    {
        if steps == 0 || self.obstacles.contains(self.moved(dir, from)) {
            from
        } else {
            self.walk(dir, self.moved(dir, from), (steps - 1) as nat)
        }
    }
}

impl GridView {
    /// Where one move from `c` to the north, east, south and west ends, in
    /// that order; a move that an obstacle stops ends at `c`.
    pub open spec fn step_ends(self, c: Coord) -> Seq<Coord> {
        seq![
            self.walk(CardinalDir::North, c, 1),
            self.walk(CardinalDir::East, c, 1),
            self.walk(CardinalDir::South, c, 1),
            self.walk(CardinalDir::West, c, 1),
        ]
    }

    /// The cells next to `c`: the ends of the four moves that are not `c`
    /// itself.
    pub open spec fn neighbours(self, c: Coord) -> Seq<Coord> {
        self.step_ends(c).filter(differs(c))
    }

    /// A walk that starts on a cell of the grid ends on a cell of the grid.
    pub proof fn lemma_walk_inside(self, dir: CardinalDir, from: Coord, steps: nat)
        requires
            self.inside(from),
        ensures
            self.inside(self.walk(dir, from, steps)),
        decreases steps,
    {
        if steps > 0 && !self.obstacles.contains(self.moved(dir, from)) {
            vstd::arithmetic::div_mod::lemma_mod_bound(from.0 + dir.unit(), self.width as int);
            vstd::arithmetic::div_mod::lemma_mod_bound(from.1 + dir.unit(), self.height as int);
            self.lemma_walk_inside(dir, self.moved(dir, from), (steps - 1) as nat);
        }
    }

    /// A neighbour of a cell is another cell, is not blocked, and is one
    /// move away from it.
    pub proof fn lemma_neighbours(self, c: Coord)
        ensures
            forall|i: int|
                0 <= i < self.neighbours(c).len() ==> {
                    &&& #[trigger] self.neighbours(c)[i] != c
                    &&& !self.obstacles.contains(self.neighbours(c)[i])
                    &&& exists|dir: CardinalDir| self.neighbours(c)[i] == self.moved(dir, c)
                },
    {
        let ends = self.step_ends(c);
        let out = self.neighbours(c);
        assert forall|i: int| 0 <= i < out.len() implies {
            &&& #[trigger] out[i] != c
            &&& !self.obstacles.contains(out[i])
            &&& exists|dir: CardinalDir| out[i] == self.moved(dir, c)
        } by {
            ends.lemma_filter_pred(differs(c), i);
            ends.lemma_filter_contains_rev(differs(c), out[i]);
            reveal_with_fuel(GridView::walk, 2);
        }
    }
}

impl GridView {
    /// The grid as a search space.
    pub open spec fn adj(self) -> spec_fn(Coord) -> Seq<Coord> {
        |c: Coord| self.neighbours(c)
    }

    /// There is a walk from `from` to `to`, each cell a neighbour of the one
    /// before.
    pub open spec fn reaches(self, from: Coord, to: Coord) -> bool {
        reachable(self.adj(), from, to)
    }

    /// The cells that a rover starting at `start` can come to at all: a move
    /// brings the coordinate it changes into the grid and leaves the other
    /// as it was.
    pub open spec fn range(self, start: Coord) -> Set<Coord> {
        Set::new(
            |c: Coord|
                (c.0 < self.width || c.0 == start.0) && (c.1 < self.height || c.1 == start.1),
        )
    }

    /// A bound on the number of cells a search takes from its queue.
    pub open spec fn fuel(self) -> nat {
        ((self.width + 1) * (self.height + 1) + 1) as nat
    }

    /// The cells that a breadth-first search from `start` for `target`
    /// visits, in the order of the visits and up to the target, or `None` if
    /// it does not come to the target.
    pub open spec fn history(self, start: Coord, target: Coord) -> Option<Seq<Coord>> {
        explore(self.adj(), Order::BreadthFirst, start, target, self.fuel())
    }

    /// The route that a history holds: its last cell, before it the latest
    /// earlier cell that has it as a neighbour, before that one the latest
    /// still earlier cell that has that one as a neighbour, and so on.
    pub open spec fn trace_back(self, history: Seq<Coord>) -> Seq<Coord>
        decreases history.len(),
    {
        if history.len() == 0 {
            Seq::empty()
        } else {
            let later = self.trace_back(history.drop_first());
            if later.len() == 0 || self.neighbours(history.first()).contains(later.first()) {
                seq![history.first()] + later
            } else {
                later
            }
        }
    }

    /// The route from `start` to `target` that the search finds, or `None`
    /// if it finds none.
    pub open spec fn route(self, start: Coord, target: Coord) -> Option<Seq<Coord>> {
        match self.history(start, target) {
            Some(h) => Some(self.trace_back(h)),
            None => None,
        }
    }

    /// The cells a rover can come to are finitely many, at most one column
    /// and one row more than the grid has.
    pub proof fn lemma_range(self, start: Coord)
        ensures
            self.range(start).finite(),
            self.range(start).len() < self.fuel(),
    {
        let w = self.width as int;
        let h = self.height as int;
        let n = (w + 1) * (h + 1);
        let cell = |k: int|
            Coord(
                if k / (h + 1) < w {
                    (k / (h + 1)) as usize
                } else {
                    start.0
                },
                if k % (h + 1) < h {
                    (k % (h + 1)) as usize
                } else {
                    start.1
                },
            );
        let numbers = vstd::set_lib::set_int_range(0, n);
        let cells = numbers.map(cell);
        assert(0 <= n) by (nonlinear_arith)
            requires
                n == (w + 1) * (h + 1),
                0 <= w,
                0 <= h,
        ;
        vstd::set_lib::lemma_int_range(0, n);
        vstd::set_lib::lemma_map_size_bound(numbers, cells, cell);
        assert forall|c: Coord| self.range(start).contains(c) implies cells.contains(c) by {
            let a: int = if c.0 < w {
                c.0 as int
            } else {
                w
            };
            let b: int = if c.1 < h {
                c.1 as int
            } else {
                h
            };
            let k = a * (h + 1) + b;
            assert(0 <= k < n) by (nonlinear_arith)
                requires
                    k == a * (h + 1) + b,
                    n == (w + 1) * (h + 1),
                    0 <= a <= w,
                    0 <= b <= h,
            ;
            vstd::arithmetic::div_mod::lemma_fundamental_div_mod_converse(k, h + 1, a, b);
            assert(numbers.contains(k));
        }
        vstd::set_lib::lemma_len_subset(self.range(start), cells);
    }

    /// A search that starts at `start` stays among the cells that a rover
    /// starting there can come to.
    pub proof fn lemma_confined(self, start: Coord)
        requires
            self.width > 0,
            self.height > 0,
        ensures
            confined(self.adj(), self.range(start), seq![start]),
    {
        let work = seq![start];
        assert forall|v: Coord, x: Coord|
            (work.contains(v) || self.range(start).contains(v)) && #[trigger] (self.adj())(
                v,
            ).contains(x) implies self.range(start).contains(x) by {
            let i = choose|i: int| 0 <= i < self.neighbours(v).len() && self.neighbours(v)[i] == x;
            self.lemma_neighbours(v);
            let dir = choose|dir: CardinalDir| self.neighbours(v)[i] == self.moved(dir, v);
            vstd::arithmetic::div_mod::lemma_mod_bound(v.0 + dir.unit(), self.width as int);
            vstd::arithmetic::div_mod::lemma_mod_bound(v.1 + dir.unit(), self.height as int);
        }
    }

    /// The search comes to its target exactly when the start reaches it. Its
    /// history then starts at the start and ends at the target, which occurs
    /// nowhere else in it; the start reaches every cell in it; no cell occurs
    /// in it twice; and it goes level by level: no cell comes before one that
    /// fewer moves lead to from the start.
    pub proof fn lemma_history(self, start: Coord, target: Coord)
        requires
            self.width > 0,
            self.height > 0,
        ensures
            self.history(start, target) is Some <==> self.reaches(start, target),
            self.history(start, target) matches Some(h) ==> {
                &&& h.len() > 0
                &&& h.first() == start
                &&& h.last() == target
                &&& forall|i: int| 0 <= i < h.len() - 1 ==> h[i] != target
                &&& forall|i: int| 0 <= i < h.len() ==> self.reaches(start, #[trigger] h[i])
                &&& forall|i: int| 0 < i < h.len() ==> self.range(start).contains(#[trigger] h[i])
                &&& h.no_duplicates()
                &&& in_level_order(self.adj(), start, h)
            },
    {
        self.lemma_range(start);
        self.lemma_confined(start);
        lemma_explore(
            self.adj(),
            Order::BreadthFirst,
            self.range(start),
            start,
            target,
            self.fuel(),
        );
    }

    /// The search finds a route exactly when the start reaches the target.
    /// The route is then a walk from the start to the target: each of its
    /// cells has the next one as a neighbour. No cell occurs in it twice,
    /// and a route that starts on the grid stays on the grid.
    pub proof fn lemma_route(self, start: Coord, target: Coord)
        requires
            start != target ==> self.width > 0 && self.height > 0,
        ensures
            self.route(start, target) is Some <==> self.reaches(start, target),
            self.route(start, target) matches Some(p) ==> {
                &&& is_walk(self.adj(), p)
                &&& p.first() == start
                &&& p.last() == target
                &&& p.no_duplicates()
                &&& self.inside(start) ==> forall|i: int|
                    0 <= i < p.len() ==> self.inside(#[trigger] p[i])
            },
    {
        if let Some(h) = self.history(start, target) {
            let p = self.trace_back(h);
            let order = Order::BreadthFirst;
            lemma_explore_distinct(self.adj(), order, start, target, self.fuel());
            self.lemma_trace_back_distinct(h);
            if start != target {
                self.lemma_range(start);
                self.lemma_confined(start);
                lemma_explore(
                    self.adj(),
                    Order::BreadthFirst,
                    self.range(start),
                    start,
                    target,
                    self.fuel(),
                );
            }
            assert forall|i: int| 0 <= i < p.len() && self.inside(start) implies self.inside(
                #[trigger] p[i],
            ) by {
                assert(p.contains(p[i]));
                let k = choose|k: int| 0 <= k < h.len() && h[k] == p[i];
                if k > 0 {
                    assert(self.range(start).contains(h[k]));
                }
            }
        }
        if start == target {
            let h = seq![target];
            lemma_reachable_self(self.adj(), start);
            self.lemma_trace_back(h);
            assert(self.trace_back(h).contains(self.trace_back(h).first()));
        } else {
            self.lemma_range(start);
            self.lemma_confined(start);
            lemma_explore(
                self.adj(),
                Order::BreadthFirst,
                self.range(start),
                start,
                target,
                self.fuel(),
            );
            if let Some(h) = self.history(start, target) {
                self.lemma_trace_back(h);
            }
        }
    }

    /// The history does not depend on the bound that its definition puts on
    /// the number of visits: every bound above the number of cells that the
    /// rover can come to gives the same.
    pub proof fn lemma_history_fuel(self, start: Coord, target: Coord, fuel: nat)
        requires
            self.width > 0,
            self.height > 0,
            fuel >= self.fuel(),
        ensures
            explore(self.adj(), Order::BreadthFirst, start, target, fuel) == self.history(
                start,
                target,
            ),
    {
        self.lemma_range(start);
        self.lemma_confined(start);
        lemma_explore_fuel(
            self.adj(),
            Order::BreadthFirst,
            self.range(start),
            start,
            target,
            fuel,
            self.fuel(),
        );
    }

    /// A move along an axis of two cells or more ends on another cell: on
    /// such a grid a cell is missing among the neighbours only where an
    /// obstacle blocks the move.
    pub proof fn lemma_moved_differs(self, dir: CardinalDir, c: Coord)
        requires
            self.extent(dir) >= 2,
        ensures
            self.moved(dir, c) != c,
    {
        let at: int = if dir.is_horizontal() {
            c.0 as int
        } else {
            c.1 as int
        };
        let n = self.extent(dir) as int;
        vstd::arithmetic::div_mod::lemma_fundamental_div_mod(at, n);
        vstd::arithmetic::div_mod::lemma_mod_bound(at, n);
        vstd::arithmetic::div_mod::lemma_mod_bound(at + dir.unit(), n);
        if at < n {
            vstd::arithmetic::div_mod::lemma_small_mod(at as nat, n as nat);
            if dir.unit() == 1 {
                if at + 1 < n {
                    vstd::arithmetic::div_mod::lemma_small_mod((at + 1) as nat, n as nat);
                } else {
                    vstd::arithmetic::div_mod::lemma_mod_self_0(n);
                }
            } else {
                if at > 0 {
                    vstd::arithmetic::div_mod::lemma_small_mod((at - 1) as nat, n as nat);
                } else {
                    vstd::arithmetic::div_mod::lemma_fundamental_div_mod_converse(
                        -1,
                        n,
                        -1,
                        n - 1,
                    );
                }
            }
        }
    }

    /// Two walks on one grid in the same direction, from the same cell and
    /// of the same length, end on the same cell.
    pub proof fn lemma_walk_repeats(
        self,
        dir: CardinalDir,
        from: Coord,
        steps: nat,
        first: Coord,
        second: Coord,
    )
        requires
            first == self.walk(dir, from, steps),
            second == self.walk(dir, from, steps),
        ensures
            first == second,
    {
    }

    /// Two searches on one grid from the same start for the same target
    /// find the same route, or both find none.
    pub proof fn lemma_route_repeats(
        self,
        start: Coord,
        target: Coord,
        first: Option<Seq<Coord>>,
        second: Option<Seq<Coord>>,
    )
        requires
            first == self.route(start, target),
            second == self.route(start, target),
        ensures
            first == second,
    {
    }

    /// The route that a history holds is made of cells of the history, and
    /// holds none of them twice if the history holds none twice.
    pub proof fn lemma_trace_back_distinct(self, history: Seq<Coord>)
        requires
            history.no_duplicates(),
        ensures
            self.trace_back(history).no_duplicates(),
            forall|x: Coord| #[trigger]
                self.trace_back(history).contains(x) ==> history.contains(x),
        decreases history.len(),
    {
        if history.len() > 0 {
            let rest = history.drop_first();
            let later = self.trace_back(rest);
            let path = self.trace_back(history);
            self.lemma_trace_back_distinct(rest);
            assert forall|x: Coord| rest.contains(x) implies history.contains(x) && x
                != history.first() by {
                let k = choose|k: int| 0 <= k < rest.len() && rest[k] == x;
                assert(history[k + 1] == x);
            }
            assert(history[0] == history.first());
            assert forall|x: Coord| #[trigger] path.contains(x) implies history.contains(x) by {
                let k = choose|k: int| 0 <= k < path.len() && path[k] == x;
                if path != later && k > 0 {
                    assert(later[k - 1] == x);
                }
                if path == later || k > 0 {
                    assert(later.contains(x));
                }
            }
            assert forall|i: int, j: int| 0 <= i < j < path.len() implies path[i] != path[j] by {
                if path != later {
                    assert(later[j - 1] == path[j]);
                    assert(later.contains(path[j]));
                    if i > 0 {
                        assert(later[i - 1] == path[i]);
                    }
                }
            }
        }
    }

    /// The route that a history holds ends where the history ends and is a
    /// walk: each of its cells has the next one as a neighbour. Every cell
    /// of it is a cell of the history. If every cell of the history but the
    /// first is a neighbour of a cell before it, the route starts where the
    /// history starts.
    pub proof fn lemma_trace_back(self, history: Seq<Coord>)
        requires
            history.len() > 0,
        ensures
            is_walk(self.adj(), self.trace_back(history)),
            self.trace_back(history).last() == history.last(),
            forall|i: int|
                0 <= i < self.trace_back(history).len() ==> history.contains(
                    #[trigger] self.trace_back(history)[i],
                ),
            has_parents(self.adj(), history, 0) ==> self.trace_back(history).first()
                == history.first(),
    {
        let adj = self.adj();
        self.lemma_trace_back_from(history, 0);
        assert(history.skip(0) == history);
        if has_parents(adj, history, 0) {
            let f = choose|f: int|
                0 <= f < history.len() && self.trace_back(history).first() == history[f]
                    && forall|j: int|
                    0 <= j < f ==> !(#[trigger] adj(history[j])).contains(history[f]);
            if f > 0 {
                assert(has_parent(adj, history, f));
            }
        }
    }

    /// What `lemma_trace_back` says, of the history from position `i` on.
    /// The route of that part starts with a cell at some position `f` of the
    /// history, and no cell between `i` and `f` has that cell as a neighbour.
    proof fn lemma_trace_back_from(self, history: Seq<Coord>, i: int)
        requires
            0 <= i < history.len(),
        ensures
            is_walk(self.adj(), self.trace_back(history.skip(i))),
            self.trace_back(history.skip(i)).last() == history.last(),
            forall|k: int|
                0 <= k < self.trace_back(history.skip(i)).len() ==> history.contains(
                    #[trigger] self.trace_back(history.skip(i))[k],
                ),
            exists|f: int|
                i <= f < history.len() && self.trace_back(history.skip(i)).first() == history[f]
                    && forall|j: int|
                    i <= j < f ==> !(#[trigger] (self.adj())(history[j])).contains(history[f]),
        decreases history.len() - i,
    {
        let adj = self.adj();
        let part = history.skip(i);
        let path = self.trace_back(part);
        assert(part.drop_first() == history.skip(i + 1));
        if i == history.len() - 1 {
            assert(self.trace_back(history.skip(i + 1)) == Seq::<Coord>::empty());
        } else {
            let later = self.trace_back(history.skip(i + 1));
            self.lemma_trace_back_from(history, i + 1);
            if adj(history[i]).contains(later.first()) {
                assert forall|k: int| 0 <= k < path.len() - 1 implies #[trigger] follows(
                    adj,
                    path,
                    k,
                ) by {
                    if k > 0 {
                        assert(follows(adj, later, k - 1));
                    }
                }
            }
        }
    }
}

/// The test whether a cell is another one than `c`.
pub open spec fn differs(c: Coord) -> spec_fn(Coord) -> bool {
    |p: Coord| p != c
}

/// Nothing is left of nothing.
proof fn lemma_filter_empty(pred: spec_fn(Coord) -> bool)
    ensures
        Seq::<Coord>::empty().filter(pred) == Seq::<Coord>::empty(),
{
    reveal(Seq::filter);
}

/// One step of `unit`, which is `1` or `-1`, from `at` on an axis of `extent`
/// cells that closes on itself.
fn wrap(at: usize, unit: isize, extent: usize) -> (r: usize)
    requires
        extent > 0,
        unit == 1 || unit == -1,
    ensures
        r == wrapped(at, unit as int, extent),
        r < extent,
{
    let inside = at % extent;
    proof {
        let q = at as int / extent as int;
        vstd::arithmetic::div_mod::lemma_fundamental_div_mod(at as int, extent as int);
        if unit == 1 {
            if inside + 1 == extent {
                vstd::arithmetic::mul::lemma_mul_is_distributive_add(extent as int, q, 1);
                vstd::arithmetic::div_mod::lemma_fundamental_div_mod_converse(
                    at + 1,
                    extent as int,
                    q + 1,
                    0,
                );
            } else {
                vstd::arithmetic::div_mod::lemma_fundamental_div_mod_converse(
                    at + 1,
                    extent as int,
                    q,
                    inside + 1,
                );
            }
        } else {
            if inside == 0 {
                vstd::arithmetic::mul::lemma_mul_is_distributive_sub(extent as int, q, 1);
                vstd::arithmetic::div_mod::lemma_fundamental_div_mod_converse(
                    at - 1,
                    extent as int,
                    q - 1,
                    extent - 1,
                );
            } else {
                vstd::arithmetic::div_mod::lemma_fundamental_div_mod_converse(
                    at - 1,
                    extent as int,
                    q,
                    inside - 1,
                );
            }
        }
    }
    if unit > 0 {
        if inside + 1 == extent {
            0
        } else {
            inside + 1
        }
    } else {
        if inside == 0 {
            extent - 1
        } else {
            inside - 1
        }
    }
}

/// The number under which a cell is filed: no two cells have the same.
spec fn key(c: Coord) -> u128 {
    (c.0 * 0x1_0000_0000_0000_0000 + c.1) as u128
}

/// Two cells with the same number are the same cell.
proof fn lemma_key_injective(a: Coord, b: Coord)
    ensures
        key(a) == key(b) <==> a == b,
{
}

/// The number under which the cell is filed.
fn key_of(c: &Coord) -> (k: u128)
    ensures
        k == key(*c),
{
    let column: u128 = c.0 as u128;
    let row: u128 = c.1 as u128;
    column * 0x1_0000_0000_0000_0000u128 + row
}

/// The cells filed under the given numbers.
spec fn filed(keys: Set<u128>) -> Set<Coord> {
    Set::new(|c: Coord| keys.contains(key(c)))
}

/// Filing the number of a cell files that cell and no other.
proof fn lemma_filed_insert(keys: Set<u128>, c: Coord)
    ensures
        filed(keys.insert(key(c))) == filed(keys).insert(c),
{
    assert forall|d: Coord| filed(keys.insert(key(c))).contains(d) <==> filed(keys).insert(
        c,
    ).contains(d) by {
        lemma_key_injective(c, d);
    }
}

/// A grid that closes on itself in both directions, with some of its cells
/// blocked. Nothing changes it once its terrain is set.
#[derive(Debug, PartialEq, Eq)]
pub struct Grid {
    width: usize,
    height: usize,
    obstacles: HashSet<u128>,
}

impl View for Grid {
    type V = GridView;

    closed spec fn view(&self) -> GridView {
        GridView {
            width: self.width,
            height: self.height,
            obstacles: filed(self.obstacles@),
        }
    }
}

impl Grid {
    /// A grid of the given size without obstacles.
    pub fn new(width: usize, height: usize) -> (g: Self)
        ensures
            g@ == (GridView { width, height, obstacles: Set::empty() }),
    {
        let g = Self { width, height, obstacles: HashSet::new() };
        assert(g@.obstacles =~= Set::empty());
        g
    }

    /// The same grid with exactly the given cells blocked. Cells outside the
    /// grid are accepted; no move ever ends on one.
    pub fn add_terrain(self, obstacles: Vec<Coord>) -> (g: Self)
        ensures
            g@ == (GridView { obstacles: obstacles@.to_set(), ..self@ }),
    {
        broadcast use group_hash_axioms;

        let mut keys: HashSet<u128> = HashSet::new();
        let mut i: usize = 0;
        while i < obstacles.len()
            invariant
                i <= obstacles.len(),
                filed(keys@) =~= obstacles@.take(i as int).to_set(),
            decreases obstacles.len() - i,
        {
            let ghost before = keys@;
            let k = key_of(&obstacles[i]);
            keys.insert(k);
            proof {
                let c = obstacles@[i as int];
                assert(obstacles@.take(i + 1) == obstacles@.take(i as int).push(c));
                lemma_push_to_set(obstacles@.take(i as int), c);
                assert forall|d: Coord| filed(keys@).contains(d) <==> filed(before).insert(
                    c,
                ).contains(d) by {
                    lemma_key_injective(c, d);
                }
            }
            i += 1;
        }
        assert(obstacles@.take(i as int) == obstacles@);
        Self { obstacles: keys, ..self }
    }

    /// For a given position, the cells next to it that the rover can move
    /// to: where one move to the north, east, south and west ends, in that
    /// order, without the moves that an obstacle stops.
    pub fn cord_neighbours(&self, position: &Coord) -> (r: VecDeque<Coord>)
        requires
            self@.width > 0,
            self@.height > 0,
        ensures
            r@ == self@.neighbours(*position),
            forall|i: int|
                0 <= i < r@.len() ==> {
                    &&& #[trigger] r@[i] != *position
                    &&& !self@.obstacles.contains(r@[i])
                    &&& exists|dir: CardinalDir| r@[i] == self@.moved(dir, *position)
                },
    {
        let ends = [
            self.step(&CardinalDir::North, position, 1),
            self.step(&CardinalDir::East, position, 1),
            self.step(&CardinalDir::South, position, 1),
            self.step(&CardinalDir::West, position, 1),
        ];
        let ghost all = self@.step_ends(*position);
        let mut out: VecDeque<Coord> = VecDeque::new();
        let mut i: usize = 0;
        proof {
            lemma_filter_empty(differs(*position));
        }
        while i < 4
            invariant
                i <= 4,
                ends@ == all,
                all == self@.step_ends(*position),
                out@ == all.take(i as int).filter(differs(*position)),
            decreases 4 - i,
        {
            proof {
                assert(all.take(i + 1) == all.take(i as int).push(all[i as int]));
                all.take(i as int).lemma_filter_push(all[i as int], differs(*position));
            }
            if ends[i] != *position {
                out.push_back(ends[i]);
            }
            i += 1;
        }
        proof {
            assert(all.take(4) == all);
            self@.lemma_neighbours(*position);
            assert forall|i: int| 0 <= i < out@.len() implies {
                &&& #[trigger] out@[i] != *position
                &&& !self@.obstacles.contains(out@[i])
                &&& exists|dir: CardinalDir| out@[i] == self@.moved(dir, *position)
            } by {
                assert(out@[i] == self@.neighbours(*position)[i]);
            }
        }
        out
    }

    /// Let the rover attempt to take `steps` moves in direction `dir` from
    /// `location`, one cell at a time. A move that would end on an obstacle
    /// is not made, and the walk ends where it stands. A walk that starts on
    /// the grid ends on the grid.
    pub fn step(&self, dir: &CardinalDir, location: &Coord, steps: usize) -> (r: Coord)
        requires
            steps > 0 ==> self@.extent(*dir) > 0,
        ensures
            r == self@.walk(*dir, *location, steps as nat),
            self@.inside(*location) ==> self@.inside(r),
    {
        proof {
            if self@.inside(*location) {
                self@.lemma_walk_inside(*dir, *location, steps as nat);
            }
        }
        let mut count: usize = 0;
        let mut new_position: Coord = *location;

        // One move at a time; the first blocked cell ends the walk.
        while count < steps
            invariant
                count <= steps,
                steps > 0 ==> self@.extent(*dir) > 0,
                self@.inside(*location) ==> self@.inside(
                    self@.walk(*dir, *location, steps as nat),
                ),
                self@.walk(*dir, new_position, (steps - count) as nat) == self@.walk(
                    *dir,
                    *location,
                    steps as nat,
                ),
            decreases steps - count,
        {
            let position = match dir {
                CardinalDir::East | CardinalDir::West => {
                    Coord(wrap(new_position.0, dir.v(), self.width), new_position.1)
                },
                CardinalDir::North | CardinalDir::South => {
                    Coord(new_position.0, wrap(new_position.1, dir.v(), self.height))
                },
            };

            if self.is_obstacle(&position) {
                return new_position;
            }
            new_position = position;
            count += 1;
        }

        new_position
    }

    /// The number of columns.
    pub fn width(&self) -> (w: usize)
        ensures
            w == self@.width,
    {
        self.width
    }

    /// The number of rows.
    pub fn height(&self) -> (h: usize)
        ensures
            h == self@.height,
    {
        self.height
    }

    /// Whether the cell is blocked.
    fn is_obstacle(&self, c: &Coord) -> (r: bool)
        ensures
            r == self@.obstacles.contains(*c),
    {
        broadcast use group_hash_axioms;

        let k = key_of(c);
        self.obstacles.contains(&k)
    }
}

/// Whether `c` is one of the cells.
fn holds(cells: &VecDeque<Coord>, c: &Coord) -> (r: bool)
    ensures
        r == cells@.contains(*c),
{
    let mut i: usize = 0;
    while i < cells.len()
        invariant
            i <= cells.len(),
            forall|j: int| 0 <= j < i ==> cells@[j] != *c,
        decreases cells.len() - i,
    {
        if cells[i] == *c {
            return true;
        }
        i += 1;
    }
    false
}

/// The route that a search history holds. The history is walked from its
/// end: its last cell starts the route, and each earlier cell is put in front
/// of the route if the cell now at the front is one of its neighbours. What
/// was visited but does not lead on to the end is left out.
pub fn get_history(history: Vec<Coord>, g: &Grid) -> (path: Vec<Coord>)
    requires
        history@.len() > 1 ==> g@.width > 0 && g@.height > 0,
    ensures
        path@ == g@.trace_back(history@),
        history@.len() > 0 ==> {
            &&& is_walk(g@.adj(), path@)
            &&& path@.last() == history@.last()
            &&& forall|i: int| 0 <= i < path@.len() ==> history@.contains(#[trigger] path@[i])
            &&& has_parents(g@.adj(), history@, 0) ==> path@.first() == history@.first()
        },
{
    let mut pathway: VecDeque<Coord> = VecDeque::new();
    let mut i: usize = history.len();
    while i > 0
        invariant
            i <= history.len(),
            history@.len() > 1 ==> g@.width > 0 && g@.height > 0,
            pathway@ == g@.trace_back(history@.skip(i as int)),
            i < history.len() ==> pathway@.len() > 0,
        decreases i,
    {
        i -= 1;
        let c = history[i];
        let ghost part = history@.skip(i as int);
        assert(part.drop_first() == history@.skip(i + 1));
        if pathway.len() > 0 {
            let nxt = pathway[0];
            let around = g.cord_neighbours(&c);
            if holds(&around, &nxt) {
                pathway.push_front(c);
            }
        } else {
            pathway.push_front(c);
        }
    }
    assert(history@.skip(0) == history@);
    proof {
        if history@.len() > 0 {
            g@.lemma_trace_back(history@);
        }
    }
    let mut path: Vec<Coord> = Vec::new();
    let mut k: usize = 0;
    while k < pathway.len()
        invariant
            k <= pathway.len(),
            path@ == pathway@.take(k as int),
        decreases pathway.len() - k,
    {
        path.push(pathway[k]);
        k += 1;
    }
    assert(pathway@.take(k as int) == pathway@);
    path
}

/// The quarter turn to the right of `d`.
pub open spec fn clockwise(d: CardinalDir) -> CardinalDir {
    match d {
        CardinalDir::North => CardinalDir::East,
        CardinalDir::East => CardinalDir::South,
        CardinalDir::South => CardinalDir::West,
        CardinalDir::West => CardinalDir::North,
    }
}

/// The quarter turn to the left of `d`.
pub open spec fn anticlockwise(d: CardinalDir) -> CardinalDir {
    match d {
        CardinalDir::North => CardinalDir::West,
        CardinalDir::East => CardinalDir::North,
        CardinalDir::South => CardinalDir::East,
        CardinalDir::West => CardinalDir::South,
    }
}

/// A rover: the cell it stands on and the direction it faces.
#[derive(Debug, PartialEq, Eq, Structural, Hash, Clone, Copy)]
pub struct MarsRover {
    pub position: Coord,
    pub direction: CardinalDir,
}

/// The view of a route, if there is one.
pub open spec fn route_view(r: Option<Vec<Coord>>) -> Option<Seq<Coord>> {
    match r {
        Some(p) => Some(p@),
        None => None,
    }
}

impl MarsRover {
    /// The rover after it has carried out `command` on `grid`: a turn
    /// changes the direction only, a move forward the position only.
    pub open spec fn after(self, command: Command, grid: GridView) -> MarsRover {
        match command {
            Command::Forward(steps) => MarsRover {
                position: grid.walk(self.direction, self.position, steps as nat),
                direction: self.direction,
            },
            Command::Clockwise => MarsRover {
                position: self.position,
                direction: clockwise(self.direction),
            },
            Command::AntiClockwise => MarsRover {
                position: self.position,
                direction: anticlockwise(self.direction),
            },
        }
    }

    /// Four quarter turns to the same side leave a rover as it was.
    pub proof fn lemma_four_turns(self, grid: GridView)
        ensures
            self.after(Command::Clockwise, grid).after(Command::Clockwise, grid).after(
                Command::Clockwise,
                grid,
            ).after(Command::Clockwise, grid) == self,
            self.after(Command::AntiClockwise, grid).after(Command::AntiClockwise, grid).after(
                Command::AntiClockwise,
                grid,
            ).after(Command::AntiClockwise, grid) == self,
    {
    }

    /// A quarter turn to one side undoes a quarter turn to the other,
    /// whatever the rover's position and direction.
    pub proof fn lemma_turns_undo(self, grid: GridView)
        ensures
            self.after(Command::Clockwise, grid).after(Command::AntiClockwise, grid) == self,
            self.after(Command::AntiClockwise, grid).after(Command::Clockwise, grid) == self,
    {
    }

    /// A rover on `position` that faces `direction`.
    pub fn new(position: Coord, direction: CardinalDir) -> (r: Self)
        ensures
            r.position == position,
            r.direction == direction,
    {
        Self { position, direction }
    }

    /// Find a route from the rover's position to `target` on `g`: a
    /// breadth-first search over the cells next to each other, and from its
    /// history the route that leads to the target. `None` if no walk leads
    /// from the position to the target. The route holds no cell twice, and
    /// from a position on the grid it stays on the grid.
    pub fn auto_pilot(&self, g: &Grid, target: &Coord) -> (r: Option<Vec<Coord>>)
        requires
            self.position != *target ==> g@.width > 0 && g@.height > 0,
        ensures
            route_view(r) == g@.route(self.position, *target),
            r is Some <==> g@.reaches(self.position, *target),
            r matches Some(p) ==> {
                &&& is_walk(g@.adj(), p@)
                &&& p@.first() == self.position
                &&& p@.last() == *target
                &&& p@.no_duplicates()
                &&& g@.inside(self.position) ==> forall|i: int|
                    0 <= i < p@.len() ==> g@.inside(#[trigger] p@[i])
            },
    {
        broadcast use group_hash_axioms;

        let ghost model = g@;
        let ghost adj = model.adj();
        let ghost universe = model.range(self.position);
        let ghost sized = model.width > 0 && model.height > 0;
        let ghost mut fuel: nat = model.fuel();
        let mut visited: HashSet<u128> = HashSet::new();
        let mut history: Vec<Coord> = Vec::new();
        let mut queue: VecDeque<Coord> = VecDeque::new();

        visited.insert(key_of(&self.position));
        queue.push_back(self.position);
        proof {
            model.lemma_route(self.position, *target);
            model.lemma_range(self.position);
            if sized {
                model.lemma_confined(self.position);
            }
            lemma_start_covered(universe, self.position, fuel);
            lemma_filed_insert(Set::empty(), self.position);
            assert(filed(Set::<u128>::empty()) =~= Set::<Coord>::empty());
        }

        while queue.len() > 0
            invariant
                model == g@,
                adj == model.adj(),
                sized == (model.width > 0 && model.height > 0),
                sized || (history@.len() == 0 && queue@.first() == *target),
                sized ==> confined(adj, universe, queue@),
                covers(universe, queue@, filed(visited@), fuel),
                continued(
                    history@,
                    visit(adj, Order::BreadthFirst, *target, queue@, filed(visited@), fuel),
                ) == model.history(self.position, *target),
            decreases fuel,
        {
            let ghost work = queue@;
            let ghost seen = filed(visited@);
            let ghost past = history@;
            let current = queue.pop_front().unwrap();
            history.push(current);

            if current == *target {
                proof {
                    assert(history@ == past + seq![*target]);
                    model.lemma_route(self.position, *target);
                }
                return Some(get_history(history, g));
            }
            let around = g.cord_neighbours(&current);
            let ghost cands = around@;
            let mut i: usize = 0;
            while i < around.len()
                invariant
                    i <= around.len(),
                    work.len() > 0,
                    cands == around@,
                    queue@ == work.drop_first() + unseen(cands.take(i as int), seen),
                    filed(visited@) == seen.union(unseen(cands.take(i as int), seen).to_set()),
                decreases around.len() - i,
            {
                let n = around[i];
                let ghost got = unseen(cands.take(i as int), seen);
                let ghost marked = visited@;
                proof {
                    lemma_unseen_next(cands, seen, i as int);
                    assert(filed(marked).contains(n) == marked.contains(key(n)));
                }
                let k = key_of(&n);
                if !visited.contains(&k) {
                    visited.insert(k);
                    queue.push_back(n);
                    proof {
                        lemma_filed_insert(marked, n);
                        lemma_push_to_set(got, n);
                    }
                }
                i += 1;
            }
            proof {
                assert(cands.take(i as int) == cands);
                lemma_step_covered(adj, Order::BreadthFirst, universe, work, seen, fuel);
                lemma_continued_prepend(
                    past,
                    current,
                    visit(
                        adj,
                        Order::BreadthFirst,
                        *target,
                        queue@,
                        filed(visited@),
                        (fuel - 1) as nat,
                    ),
                );
                fuel = (fuel - 1) as nat;
            }
        }
        proof {
            model.lemma_route(self.position, *target);
        }
        None
    }

    /// The rover turned a quarter to the right.
    fn rotate_clockwise(self) -> (r: Self)
        ensures
            r.position == self.position,
            r.direction == clockwise(self.direction),
    {
        Self {
            direction: match self.direction {
                CardinalDir::North => CardinalDir::East,
                CardinalDir::East => CardinalDir::South,
                CardinalDir::South => CardinalDir::West,
                CardinalDir::West => CardinalDir::North,
            },
            ..self
        }
    }

    /// The rover turned a quarter to the left.
    fn rotate_anticlockwise(self) -> (r: Self)
        ensures
            r.position == self.position,
            r.direction == anticlockwise(self.direction),
    {
        Self {
            direction: match self.direction {
                CardinalDir::North => CardinalDir::West,
                CardinalDir::East => CardinalDir::North,
                CardinalDir::South => CardinalDir::East,
                CardinalDir::West => CardinalDir::South,
            },
            ..self
        }
    }

    /// The rover that carrying out `command` on `g` makes of this one.
    pub fn execute_command(self, command: &Command, g: &Grid) -> (r: Self)
        requires
            command matches Command::Forward(steps) ==> steps > 0 ==> g@.extent(self.direction)
                > 0,
        ensures
            r == self.after(*command, g@),
    {
        match command {
            Command::Forward(steps) => Self {
                position: g.step(&self.direction, &self.position, *steps),
                ..self
            },
            Command::Clockwise => self.rotate_clockwise(),
            Command::AntiClockwise => self.rotate_anticlockwise(),
        }
    }
}

} // verus!
