use vstd::prelude::*;

verus! {

/// One ply's action: the position of the chosen successor in the move
/// list of the configuration that generated it. A movement is only
/// meaningful against that same configuration.
#[derive(Clone, Copy, PartialEq, Eq, Structural, Debug)]
pub struct Movement {
    pub index: usize,
}

/// Mathematical model of a board snapshot: a finite arena of positions
/// holding, for each position, a static score for the side to move and a
/// slice of its successor positions, plus the position currently played.
#[verifier::ext_equal]
pub ghost struct GameView {
    pub values: Seq<int>,
    pub starts: Seq<int>,
    pub counts: Seq<int>,
    pub succs: Seq<int>,
    pub current: int,
}

impl GameView {
    pub open spec fn n(self) -> int {
        self.values.len() as int
    }

    /// The tables are consistent, every stored score leaves room for
    /// negation, and every successor stays inside the arena.
    pub open spec fn wf(self) -> bool {
        &&& self.starts.len() == self.n()
        &&& self.counts.len() == self.n()
        &&& 0 <= self.current < self.n()
        &&& forall|i: int| 0 <= i < self.n() ==> -127 <= #[trigger] self.values[i] <= 127
        &&& forall|i: int|
            0 <= i < self.n() ==> 0 <= #[trigger] self.counts[i] && 0 <= self.starts[i]
                && self.starts[i] + self.counts[i] <= self.succs.len()
        &&& forall|k: int| 0 <= k < self.succs.len() ==> 0 <= #[trigger] self.succs[k] < self.n()
    }

    /// Number of legal movements for the side to move.
    pub open spec fn nmoves(self) -> int {
        self.counts[self.current]
    }

    pub open spec fn legal(self, m: Movement) -> bool {
        (m.index as int) < self.nmoves()
    }

    /// Successor position reached by the `i`-th legal movement.
    pub open spec fn target(self, i: int) -> int {
        self.succs[self.starts[self.current] + i]
    }

    /// The snapshot after playing the `i`-th legal movement.
    pub open spec fn next(self, i: int) -> GameView {
        GameView { current: self.target(i), ..self }
    }

    /// Static score of the position, from the side to move.
    pub open spec fn val(self) -> int {
        self.values[self.current]
    }

    /// A search at this remaining depth stops here.
    pub open spec fn terminal(self, depth: nat) -> bool {
        depth == 0 || self.nmoves() == 0
    }
}

pub proof fn lemma_next_wf(g: GameView, i: int)
    requires
        g.wf(),
        0 <= i < g.nmoves(),
    ensures
        g.next(i).wf(),
{
    assert(g.starts[g.current] + i < g.succs.len());
}

pub open spec fn spec_max(a: int, b: int) -> int {
    if a >= b {
        a
    } else {
        b
    }
}

/// Reference game value under the negamax convention: at depth 0 or with
/// no legal movement the negated static score, otherwise the maximum over
/// all movements of the negated value of the successor one ply shallower.
pub open spec fn negamax_value(g: GameView, depth: nat) -> int
    decreases depth, 1int, 0int,
{
    if g.terminal(depth) {
        -g.val()
    } else {
        best_upto(g, (depth - 1) as nat, g.nmoves())
    }
}

/// Score, for the side to move of `g`, of playing the `i`-th movement and
/// searching the successor `cd` plies deep.
pub open spec fn move_value(g: GameView, i: int, cd: nat) -> int
    decreases cd, 2int, 0int,
{
    -negamax_value(g.next(i), cd)
}

/// Best movement score among the first `n` movements, where -127 stands
/// for "no movement considered".
pub open spec fn best_upto(g: GameView, cd: nat, n: int) -> int
    decreases cd, 3int, n,
{
    if n <= 0 {
        -127
    } else {
        spec_max(best_upto(g, cd, n - 1), move_value(g, n - 1, cd))
    }
}

pub proof fn lemma_negamax_bounds(g: GameView, depth: nat)
    requires
        g.wf(),
    ensures
        -127 <= negamax_value(g, depth) <= 127,
    decreases depth, 1int, 0int,
{
    if !g.terminal(depth) {
        lemma_best_upto_bounds(g, (depth - 1) as nat, g.nmoves());
    }
}

pub proof fn lemma_move_value_bounds(g: GameView, i: int, cd: nat)
    requires
        g.wf(),
        0 <= i < g.nmoves(),
    ensures
        -127 <= move_value(g, i, cd) <= 127,
    decreases cd, 2int, 0int,
{
    lemma_next_wf(g, i);
    lemma_negamax_bounds(g.next(i), cd);
}

pub proof fn lemma_best_upto_bounds(g: GameView, cd: nat, n: int)
    requires
        g.wf(),
        n <= g.nmoves(),
    ensures
        -127 <= best_upto(g, cd, n) <= 127,
    decreases cd, 3int, n,
{
    if n > 0 {
        lemma_best_upto_bounds(g, cd, n - 1);
        lemma_move_value_bounds(g, n - 1, cd);
    }
}

/// The best over a prefix dominates each movement of the prefix.
pub proof fn lemma_best_upto_ge(g: GameView, cd: nat, n: int, i: int)
    requires
        0 <= i < n,
    ensures
        best_upto(g, cd, n) >= move_value(g, i, cd),
    decreases n,
{
    if i < n - 1 {
        lemma_best_upto_ge(g, cd, n - 1, i);
    }
}

/// A bound on every movement of a prefix bounds the best over it.
pub proof fn lemma_best_upto_le(g: GameView, cd: nat, n: int, bound: int)
    requires
        bound >= -127,
        forall|i: int| 0 <= i < n ==> #[trigger] move_value(g, i, cd) <= bound,
    ensures
        best_upto(g, cd, n) <= bound,
    decreases n,
{
    if n > 0 {
        lemma_best_upto_le(g, cd, n - 1, bound);
        assert(move_value(g, n - 1, cd) <= bound);
    }
}

/// Best movement score over an explicit list of movements.
pub open spec fn list_best(g: GameView, cd: nat, ms: Seq<Movement>) -> int
    decreases ms.len(),
{
    if ms.len() == 0 {
        -127
    } else {
        spec_max(list_best(g, cd, ms.drop_last()), move_value(g, ms.last().index as int, cd))
    }
}

pub proof fn lemma_list_best_ge(g: GameView, cd: nat, ms: Seq<Movement>, k: int)
    requires
        0 <= k < ms.len(),
    ensures
        list_best(g, cd, ms) >= move_value(g, ms[k].index as int, cd),
    decreases ms.len(),
{
    if k < ms.len() - 1 {
        lemma_list_best_ge(g, cd, ms.drop_last(), k);
    }
}

pub proof fn lemma_list_best_le(g: GameView, cd: nat, ms: Seq<Movement>, bound: int)
    requires
        bound >= -127,
        forall|k: int| 0 <= k < ms.len() ==> move_value(g, (#[trigger] ms[k]).index as int, cd) <= bound,
    ensures
        list_best(g, cd, ms) <= bound,
    decreases ms.len(),
{
    if ms.len() > 0 {
        lemma_list_best_le(g, cd, ms.drop_last(), bound);
    }
}

/// Over the canonical movement list, the list best is the best over all
/// movements of the position.
pub proof fn lemma_list_best_canonical(g: GameView, cd: nat, ms: Seq<Movement>, n: int)
    requires
        ms.len() == n,
        forall|k: int| 0 <= k < n ==> (#[trigger] ms[k]).index == k,
    ensures
        list_best(g, cd, ms) == best_upto(g, cd, n),
    decreases n,
{
    if n > 0 {
        lemma_list_best_canonical(g, cd, ms.drop_last(), n - 1);
    }
}


pub proof fn lemma_list_best_floor(g: GameView, cd: nat, ms: Seq<Movement>)
    ensures
        list_best(g, cd, ms) >= -127,
    decreases ms.len(),
{
    if ms.len() > 0 {
        lemma_list_best_floor(g, cd, ms.drop_last());
    }
}

/// A list best above the floor is achieved by some entry of the list.
pub proof fn lemma_list_best_achieved(g: GameView, cd: nat, ms: Seq<Movement>)
    ensures
        list_best(g, cd, ms) == -127 || exists|k: int|
            0 <= k < ms.len() && move_value(g, (#[trigger] ms[k]).index as int, cd) == list_best(
                g,
                cd,
                ms,
            ),
    decreases ms.len(),
{
    if ms.len() > 0 {
        lemma_list_best_achieved(g, cd, ms.drop_last());
        let b = list_best(g, cd, ms);
        if b == move_value(g, ms.last().index as int, cd) {
            assert(move_value(g, (ms[ms.len() - 1]).index as int, cd) == b);
        } else {
            assert(b == list_best(g, cd, ms.drop_last()));
            if b != -127 {
                let k = choose|k: int|
                    0 <= k < ms.drop_last().len() && move_value(
                        g,
                        (ms.drop_last()[k]).index as int,
                        cd,
                    ) == b;
                assert(move_value(g, (ms[k]).index as int, cd) == b);
            }
        }
    }
}

/// A list whose entries all occur in another cannot have the better best.
pub proof fn lemma_list_best_subset(g: GameView, cd: nat, a: Seq<Movement>, b: Seq<Movement>)
    requires
        forall|k: int| 0 <= k < a.len() ==> b.contains(#[trigger] a[k]),
    ensures
        list_best(g, cd, a) <= list_best(g, cd, b),
{
    lemma_list_best_floor(g, cd, b);
    lemma_list_best_achieved(g, cd, a);
    let ba = list_best(g, cd, a);
    if ba != -127 {
        let k = choose|k: int|
            0 <= k < a.len() && move_value(g, (#[trigger] a[k]).index as int, cd) == ba;
        assert(b.contains(a[k]));
        let j = choose|j: int| 0 <= j < b.len() && b[j] == a[k];
        lemma_list_best_ge(g, cd, b, j);
    }
}

/// A board snapshot for one side to move, as a value: the arena tables
/// plus the current position. `play` hands out an independent copy, so
/// concurrent searches never share mutable state.
pub struct Configuration {
    pub values: Vec<i8>,
    pub starts: Vec<usize>,
    pub counts: Vec<usize>,
    pub succs: Vec<usize>,
    pub current: usize,
}

impl View for Configuration {
    type V = GameView;

    open spec fn view(&self) -> GameView {
        GameView {
            values: self.values@.map_values(|v: i8| v as int),
            starts: self.starts@.map_values(|v: usize| v as int),
            counts: self.counts@.map_values(|v: usize| v as int),
            succs: self.succs@.map_values(|v: usize| v as int),
            current: self.current as int,
        }
    }
}

fn copy_i8(v: &Vec<i8>) -> (r: Vec<i8>)
    ensures
        r@ =~= v@,
{
    let mut r: Vec<i8> = Vec::new();
    let mut i: usize = 0;
    while i < v.len()
        invariant
            i <= v.len(),
            r@ =~= v@.subrange(0, i as int),
        decreases v.len() - i,
    {
        r.push(v[i]);
        i += 1;
        proof {
            assert(r@ =~= v@.subrange(0, i as int));
        }
    }
    proof {
        assert(v@.subrange(0, v@.len() as int) =~= v@);
    }
    r
}

fn copy_usize(v: &Vec<usize>) -> (r: Vec<usize>)
    ensures
        r@ =~= v@,
{
    let mut r: Vec<usize> = Vec::new();
    let mut i: usize = 0;
    while i < v.len()
        invariant
            i <= v.len(),
            r@ =~= v@.subrange(0, i as int),
        decreases v.len() - i,
    {
        r.push(v[i]);
        i += 1;
        proof {
            assert(r@ =~= v@.subrange(0, i as int));
        }
    }
    proof {
        assert(v@.subrange(0, v@.len() as int) =~= v@);
    }
    r
}

impl Configuration {
    /// Static score of this position for the side to move.
    pub fn value(&self) -> (r: i8)
        requires
            self@.wf(),
        ensures
            r as int == self@.val(),
            -127 <= r as int <= 127,
    {
        proof {
            assert(-127 <= self@.values[self@.current] <= 127);
        }
        self.values[self.current]
    }

    /// The legal movements of the side to move, in generation order.
    pub fn movements(&self) -> (r: Vec<Movement>)
        requires
            self@.wf(),
        ensures
            r@.len() == self@.nmoves(),
            forall|k: int| 0 <= k < r@.len() ==> (#[trigger] r@[k]).index == k,
    {
        let n = self.counts[self.current];
        let mut r: Vec<Movement> = Vec::new();
        let mut i: usize = 0;
        while i < n
            invariant
                i <= n,
                r@.len() == i as int,
                forall|k: int| 0 <= k < i as int ==> (#[trigger] r@[k]).index == k,
            decreases n - i,
        {
            r.push(Movement { index: i });
            i += 1;
        }
        r
    }

    /// The snapshot after playing `m`: a pure value, the receiver is kept.
    pub fn play(&self, m: &Movement) -> (r: Configuration)
        requires
            self@.wf(),
            self@.legal(*m),
        ensures
            r@ == self@.next(m.index as int),
    {
        proof {
            assert(0 <= self@.counts[self@.current]);
            assert(self@.starts[self@.current] + self@.counts[self@.current]
                <= self@.succs.len());
        }
        let s = self.starts[self.current];
        let bound = self.succs.len();
        proof {
            assert(s as int == self@.starts[self@.current]);
            assert((m.index as int) < self@.counts[self@.current]);
            assert((s as int + m.index as int) < bound as int);
        }
        let t = self.succs[s + m.index];
        let r = Configuration {
            values: copy_i8(&self.values),
            starts: copy_usize(&self.starts),
            counts: copy_usize(&self.counts),
            succs: copy_usize(&self.succs),
            current: t,
        };
        proof {
            assert(r@ =~= self@.next(m.index as int));
        }
        r
    }
}


impl Configuration {
    /// An independent copy of the snapshot; `play` and the parallel
    /// searches work on such copies, never on shared mutable state.
    pub fn duplicate(&self) -> (r: Configuration)
        ensures
            r@ == self@,
    {
        let r = Configuration {
            values: copy_i8(&self.values),
            starts: copy_usize(&self.starts),
            counts: copy_usize(&self.counts),
            succs: copy_usize(&self.succs),
            current: self.current,
        };
        proof {
            assert(r@ =~= self@);
        }
        r
    }
}

impl Default for Configuration {
    /// A small opening position: the side to move has two replies, each
    /// answered by two replies in turn.
    fn default() -> (r: Self)
        ensures
            r@.wf(),
            r@.nmoves() == 2,
    {
        let r = Configuration {
            values: vec![0, -3, 5, 2, -1, -4, 7],
            starts: vec![0, 2, 4, 6, 6, 6, 6],
            counts: vec![2, 2, 2, 0, 0, 0, 0],
            succs: vec![1, 2, 3, 4, 5, 6],
            current: 0,
        };
        proof {
            assert forall|i: int| 0 <= i < r@.n() implies -127 <= #[trigger] r@.values[i] <= 127 by {}
            assert forall|i: int|
                0 <= i < r@.n() implies 0 <= #[trigger] r@.counts[i] && 0 <= r@.starts[i]
                && r@.starts[i] + r@.counts[i] <= r@.succs.len() by {}
            assert forall|k: int| 0 <= k < r@.succs.len() implies 0 <= #[trigger] r@.succs[k] < r@.n() by {}
        }
        r
    }
}

} // verus!
