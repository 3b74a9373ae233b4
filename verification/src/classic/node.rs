//! Nodes, edges and the arena-backed search tree.
use vstd::prelude::*;

use crate::exact::{is_unrounded, lemma_quotient};
use crate::position::{GameResult, Move};
use crate::scalar::Scalar;
use crate::sorting::{sort_by, Comparison};

verus! {

/// Why a node is terminal, if it is.
#[derive(Clone, Copy, Debug, PartialEq, Eq, Structural)]
pub enum Terminal {
    NonTerminal,
    EndOfGame,
    Tablebase,
    TwoFold,
}

impl Default for Terminal {
    fn default() -> (r: Self)
        ensures
            r == Terminal::NonTerminal,
    {
        Terminal::NonTerminal
    }
}

/// The bit pattern of the largest prior, 1.
pub const PRIOR_ONE_BITS: u32 = 0x3f80_0000;

/// The 16-bit code of a prior, given by its single-precision bit pattern: the
/// pattern less that of the smallest prior kept, rounded to the upper bits.
pub open spec fn prior_code(bits: u32) -> u16 {
    let shifted = bits as int + 0x800 - 0x3000_0000;
    if shifted < 0 {
        0
    } else {
        (shifted / 0x1000) as u16
    }
}

/// The bit pattern that a 16-bit code stands for.
pub open spec fn prior_bits(code: u16) -> u32 {
    (code as int * 0x1000 + 0x3000_0000) as u32
}

/// Decoding and encoding a code gives the code back.
pub proof fn law_prior_code_round_trip(code: u16)
    ensures
        prior_code(prior_bits(code)) == code,
{
}

/// A larger prior never gets a smaller code.
pub proof fn law_prior_code_is_monotone(a: u32, b: u32)
    requires
        a <= b <= PRIOR_ONE_BITS,
    ensures
        prior_code(a) <= prior_code(b),
{
}

/// An edge: a move and the code of its policy prior.
#[derive(Clone, Copy, Debug, PartialEq, Eq, Structural)]
pub struct Edge {
    pub mv: Move,
    pub p: u16,
}

impl Edge {
    /// An edge whose prior is not set yet.
    pub fn new(mv: Move) -> (r: Self)
        ensures
            r == (Edge { mv, p: 0 }),
    {
        Edge { mv, p: 0 }
    }

    /// Sets the prior, given as a single-precision bit pattern of a number in [0, 1].
    pub fn set_p(&mut self, bits: u32)
        requires
            bits <= PRIOR_ONE_BITS,
        ensures
            *final(self) == (Edge { mv: old(self).mv, p: prior_code(bits) }),
    {
        if bits < 0x3000_0000 - 0x800 {
            self.p = 0;
        } else {
            self.p = ((bits - (0x3000_0000 - 0x800)) / 0x1000) as u16;
        }
    }

    /// The prior, as a single-precision bit pattern.
    pub fn get_p(self) -> (bits: u32)
        ensures
            bits == prior_bits(self.p),
    {
        self.p as u32 * 0x1000 + 0x3000_0000
    }
}

/// Orders edges by prior.
struct ByPrior;

impl Comparison<Edge> for ByPrior {
    open spec fn can_compare(&self, a: Edge, b: Edge) -> bool {
        true
    }

    open spec fn spec_is_better(&self, a: Edge, b: Edge) -> bool {
        a.p > b.p
    }

    fn is_better(&self, a: Edge, b: Edge) -> (r: bool) {
        a.p > b.p
    }
}

/// A node: its place in the tree, its edges and its statistics. `wl`, `d` and
/// `m` are averages seen by the player who moved to the node.
#[derive(Debug)]
pub struct Node<S> {
    pub parent: Option<usize>,
    pub edge_index: u16,
    pub edges: Vec<Edge>,
    /// The child behind each edge, in the order of `edges`.
    pub children: Vec<Option<usize>>,
    pub terminal: Terminal,
    pub lower_bound: GameResult,
    pub upper_bound: GameResult,
    pub wl: S,
    pub d: S,
    pub m: S,
    /// Completed visits.
    pub n: u32,
    /// Visits that have started and not completed.
    pub n_in_flight: u32,
    pub solid_children: bool,
}

/// `value + (weight * delta) / n`, evaluated in this order.
pub open spec fn nudged<S: Scalar>(value: S, weight: u32, delta: S, n: S) -> S {
    value.spec_plus(S::spec_count(weight).spec_times(delta).spec_over(n))
}

/// `value - (weight * delta) / n`, evaluated in this order.
pub open spec fn unnudged<S: Scalar>(value: S, weight: u32, delta: S, n: S) -> S {
    value.spec_minus(S::spec_count(weight).spec_times(delta).spec_over(n))
}

fn nudge<S: Scalar>(value: S, weight: u32, delta: S, n: S) -> (r: S)
    ensures
        r == nudged(value, weight, delta, n),
{
    value.plus(S::count(weight).times(delta).over(n))
}

fn unnudge<S: Scalar>(value: S, weight: u32, delta: S, n: S) -> (r: S)
    ensures
        r == unnudged(value, weight, delta, n),
{
    value.minus(S::count(weight).times(delta).over(n))
}

/// Completed visits, value sum and draw sum of a node that stops being
/// terminal: one visit of its own, and those of the first `k` children with
/// the value seen from the other side.
pub open spec fn reopened_sums<S: Scalar>(children: Seq<(u32, S, S)>, k: int) -> (int, S, S)
    decreases k,
{
    if k <= 0 {
        (1, S::spec_zero(), S::spec_zero())
    } else {
        let (n, wl, d) = reopened_sums(children, k - 1);
        let (child_n, child_wl, child_d) = children[k - 1];
        if child_n > 0 {
            (
                n + child_n,
                wl.spec_plus(child_wl.spec_negated().spec_times(S::spec_count(child_n))),
                d.spec_plus(child_d.spec_times(S::spec_count(child_n))),
            )
        } else {
            (n, wl, d)
        }
    }
}

/// The completed visits of a node that stops being terminal.
pub open spec fn reopened_n<S: Scalar>(children: Seq<(u32, S, S)>) -> int {
    reopened_sums(children, children.len() as int).0
}

pub proof fn lemma_reopened_n_grows<S: Scalar>(children: Seq<(u32, S, S)>, i: int, j: int)
    requires
        0 <= i <= j <= children.len(),
    ensures
        1 <= reopened_sums(children, i).0 <= reopened_sums(children, j).0,
    decreases j,
{
    if i < j {
        lemma_reopened_n_grows(children, i, j - 1);
    } else if i > 0 {
        lemma_reopened_n_grows(children, i - 1, j - 1);
    }
}

/// The value and draw of a terminal node with the given result; those of an
/// undecided one are left as they are.
pub open spec fn terminal_values<S: Scalar>(result: GameResult, wl: S, d: S) -> (S, S) {
    match result {
        GameResult::Draw => (S::spec_zero(), S::spec_one()),
        GameResult::WhiteWon => (S::spec_one(), S::spec_zero()),
        GameResult::BlackWon => (S::spec_one().spec_negated(), S::spec_zero()),
        GameResult::Undecided => (wl, d),
    }
}

impl<S: Scalar> Node<S> {
    pub open spec fn spec_is_terminal(self) -> bool {
        self.terminal != Terminal::NonTerminal
    }

    pub open spec fn spec_n_started(self) -> int {
        if self.n + self.n_in_flight > u32::MAX {
            u32::MAX as int
        } else {
            self.n + self.n_in_flight
        }
    }

    pub open spec fn spec_child(self, index: int) -> Option<usize> {
        if 0 <= index < self.children@.len() {
            self.children@[index]
        } else {
            None
        }
    }

    pub open spec fn spec_q(self, draw_score: S) -> S {
        self.wl.spec_plus(draw_score.spec_times(self.d))
    }

    /// A node just created: no edges, no visits, nothing known of its result.
    pub open spec fn is_fresh(self, parent: Option<usize>, edge_index: u16) -> bool {
        &&& self.parent == parent
        &&& self.edge_index == edge_index
        &&& self.edges@.len() == 0
        &&& self.children@.len() == 0
        &&& self.terminal == Terminal::NonTerminal
        &&& self.lower_bound == GameResult::BlackWon
        &&& self.upper_bound == GameResult::WhiteWon
        &&& self.wl == S::spec_zero()
        &&& self.d == S::spec_zero()
        &&& self.m == S::spec_zero()
        &&& self.n == 0
        &&& self.n_in_flight == 0
        &&& !self.solid_children
    }

    /// Creates a node below an edge of a parent.
    pub fn new(parent: Option<usize>, edge_index: u16) -> (r: Self)
        ensures
            r.is_fresh(parent, edge_index),
    {
        Node {
            parent,
            edge_index,
            edges: Vec::new(),
            children: Vec::new(),
            terminal: Terminal::NonTerminal,
            lower_bound: GameResult::BlackWon,
            upper_bound: GameResult::WhiteWon,
            wl: S::zero(),
            d: S::zero(),
            m: S::zero(),
            n: 0,
            n_in_flight: 0,
            solid_children: false,
        }
    }

    pub fn parent(&self) -> (r: Option<usize>)
        ensures
            r == self.parent,
    {
        self.parent
    }

    pub fn edge_index(&self) -> (r: u16)
        ensures
            r == self.edge_index,
    {
        self.edge_index
    }

    pub fn num_edges(&self) -> (r: usize)
        ensures
            r == self.edges@.len(),
    {
        self.edges.len()
    }

    pub fn n(&self) -> (r: u32)
        ensures
            r == self.n,
    {
        self.n
    }

    pub fn n_in_flight(&self) -> (r: u32)
        ensures
            r == self.n_in_flight,
    {
        self.n_in_flight
    }

    /// Visits that have started, completed or not.
    pub fn n_started(&self) -> (r: u32)
        ensures
            r == self.spec_n_started(),
    {
        self.n.saturating_add(self.n_in_flight)
    }

    /// Completed visits that went on to a child.
    pub fn children_visits(&self) -> (r: u32)
        ensures
            r == (if self.n > 0 {
                self.n - 1
            } else {
                0
            }),
    {
        if self.n > 0 {
            self.n - 1
        } else {
            0
        }
    }

    pub fn wl(&self) -> (r: S)
        ensures
            r == self.wl,
    {
        self.wl
    }

    pub fn d(&self) -> (r: S)
        ensures
            r == self.d,
    {
        self.d
    }

    pub fn m(&self) -> (r: S)
        ensures
            r == self.m,
    {
        self.m
    }

    pub fn lower_bound(&self) -> (r: GameResult)
        ensures
            r == self.lower_bound,
    {
        self.lower_bound
    }

    pub fn upper_bound(&self) -> (r: GameResult)
        ensures
            r == self.upper_bound,
    {
        self.upper_bound
    }

    /// The value with draws counted at `draw_score`.
    pub fn q(&self, draw_score: S) -> (r: S)
        ensures
            r == self.spec_q(draw_score),
    {
        self.wl.plus(draw_score.times(self.d))
    }

    pub fn is_terminal(&self) -> (r: bool)
        ensures
            r == self.spec_is_terminal(),
    {
        self.terminal != Terminal::NonTerminal
    }

    pub fn is_twofold_terminal(&self) -> (r: bool)
        ensures
            r == (self.terminal == Terminal::TwoFold),
    {
        self.terminal == Terminal::TwoFold
    }

    pub fn is_tablebase_terminal(&self) -> (r: bool)
        ensures
            r == (self.terminal == Terminal::Tablebase),
    {
        self.terminal == Terminal::Tablebase
    }

    pub fn edge(&self, index: usize) -> (r: Edge)
        requires
            index < self.edges@.len(),
        ensures
            r == self.edges@[index as int],
    {
        self.edges[index]
    }

    pub fn edges(&self) -> (r: &Vec<Edge>)
        ensures
            r@ == self.edges@,
    {
        &self.edges
    }

    /// Gives access to one edge.
    pub fn edge_mut(&mut self, index: usize) -> (r: &mut Edge)
        requires
            index < old(self).edges@.len(),
        ensures
            *r == old(self).edges@[index as int],
            final(self).edges@ == old(self).edges@.update(index as int, *final(r)),
            *final(self) == (Node { edges: final(self).edges, ..*old(self) }),
    {
        &mut self.edges[index]
    }

    /// Orders the edges by prior, best first. Only possible while no edge has a
    /// child, since the children keep their places.
    pub fn sort_edges(&mut self)
        requires
            forall|i: int| 0 <= i < old(self).children@.len() ==> old(self).children@[i] is None,
        ensures
            final(self).edges@.to_multiset() == old(self).edges@.to_multiset(),
            final(self).edges@.len() == old(self).edges@.len(),
            forall|i: int, j: int|
                0 <= i <= j < final(self).edges@.len() ==> final(self).edges@[i].p
                    >= final(self).edges@[j].p,
            *final(self) == (Node { edges: final(self).edges, ..*old(self) }),
    {
        let sorted: Vec<Edge> = sort_by(&self.edges, &ByPrior);
        let ghost higher = |a: Edge, b: Edge| ByPrior.spec_is_better(a, b);
        proof {
            assert forall|i: int, j: int| 0 <= i <= j < sorted@.len() implies sorted@[i].p
                >= sorted@[j].p by {
                if i < j {
                    crate::sorting::law_ranked_pairwise(sorted@, higher, i, j);
                }
            }
        }
        self.edges = sorted;
    }

    /// The child behind an edge, if there is one.
    pub fn child(&self, index: usize) -> (r: Option<usize>)
        ensures
            r == self.spec_child(index as int),
    {
        if index < self.children.len() {
            self.children[index]
        } else {
            None
        }
    }

    pub fn has_solid_children(&self) -> (r: bool)
        ensures
            r == self.solid_children,
    {
        self.solid_children
    }

    /// Gives a node without edges one edge for each move, in order.
    pub fn create_edges(&mut self, moves: &Vec<Move>)
        requires
            old(self).edges@.len() == 0,
            forall|i: int| 0 <= i < old(self).children@.len() ==> old(self).children@[i] is None,
            moves@.len() <= u8::MAX,
        ensures
            final(self).edges@ == moves@.map_values(|mv: Move| Edge { mv, p: 0 }),
            final(self).children@ == Seq::new(moves@.len(), |i: int| None::<usize>),
            *final(self) == (Node {
                edges: final(self).edges,
                children: final(self).children,
                ..*old(self)
            }),
    {
        let mut edges: Vec<Edge> = Vec::new();
        let mut children: Vec<Option<usize>> = Vec::new();
        let mut i: usize = 0;
        while i < moves.len()
            invariant
                i <= moves.len(),
                edges@ =~= moves@.take(i as int).map_values(|mv: Move| Edge { mv, p: 0 }),
                children@ =~= Seq::new(i as nat, |k: int| None::<usize>),
            decreases moves.len() - i,
        {
            edges.push(Edge::new(moves[i]));
            children.push(None);
            i += 1;
        }
        assert(moves@.take(i as int) =~= moves@);
        self.edges = edges;
        self.children = children;
    }

    /// Gives a node without edges a single edge and returns its index.
    pub fn create_single_child_node(&mut self, mv: Move) -> (r: usize)
        requires
            old(self).edges@.len() == 0,
        ensures
            r == 0,
            final(self).edges@ == seq![Edge { mv, p: 0 }],
            final(self).children@ == seq![None::<usize>],
            *final(self) == (Node {
                edges: final(self).edges,
                children: final(self).children,
                ..*old(self)
            }),
    {
        let mut edges: Vec<Edge> = Vec::new();
        edges.push(Edge::new(mv));
        let mut children: Vec<Option<usize>> = Vec::new();
        children.push(None);
        assert(edges@ =~= seq![Edge { mv, p: 0 }]);
        assert(children@ =~= seq![None::<usize>]);
        self.edges = edges;
        self.children = children;
        0
    }

    /// Whether a visit may start: an unvisited node takes one visit at a time.
    pub open spec fn accepts_visit(self) -> bool {
        !(self.n == 0 && self.n_in_flight > 0)
    }

    /// Starts one visit, unless the node has no completed visit and one is
    /// already under way.
    pub fn try_start_score_update(&mut self) -> (r: bool)
        requires
            old(self).n_in_flight < u32::MAX,
        ensures
            r == old(self).accepts_visit(),
            *final(self) == (Node {
                n_in_flight: (old(self).n_in_flight + if r {
                    1int
                } else {
                    0
                }) as u32,
                ..*old(self)
            }),
    {
        if self.n == 0 && self.n_in_flight > 0 {
            return false;
        }
        self.n_in_flight = self.n_in_flight + 1;
        true
    }

    /// Takes back visits that have started.
    pub fn cancel_score_update(&mut self, multivisit: u32)
        requires
            old(self).n_in_flight >= multivisit,
        ensures
            *final(self) == (Node {
                n_in_flight: (old(self).n_in_flight - multivisit) as u32,
                ..*old(self)
            }),
    {
        self.n_in_flight = self.n_in_flight - multivisit;
    }

    /// Starts further visits.
    pub fn increment_n_in_flight(&mut self, count: u32)
        requires
            old(self).n_in_flight + count <= u32::MAX,
        ensures
            *final(self) == (Node {
                n_in_flight: (old(self).n_in_flight + count) as u32,
                ..*old(self)
            }),
    {
        self.n_in_flight = self.n_in_flight + count;
    }

    /// Copies the priors of the first edges, at most `max_needed`, to the front
    /// of `out`; entries behind them stay.
    pub fn copy_policy(&self, max_needed: usize, out: &mut Vec<u32>)
        ensures
            final(out)@.len() == old(out)@.len(),
            forall|i: int|
                0 <= i < old(out)@.len() ==> #[trigger] final(out)@[i] == (if i < max_needed && i
                    < self.edges@.len() {
                    prior_bits(self.edges@[i].p)
                } else {
                    old(out)@[i]
                }),
    {
        let mut i: usize = 0;
        while i < out.len() && i < max_needed && i < self.edges.len()
            invariant
                i <= out@.len(),
                i <= max_needed,
                i <= self.edges@.len(),
                out@.len() == old(out)@.len(),
                forall|k: int|
                    0 <= k < out@.len() ==> #[trigger] out@[k] == (if k < i {
                        prior_bits(self.edges@[k].p)
                    } else {
                        old(out)@[k]
                    }),
            decreases self.edges@.len() - i,
        {
            out[i] = self.edges[i].get_p();
            i += 1;
        }
    }

    /// The node after `multivisit` visits of value `v`, draw `d` and length `m`
    /// have completed.
    pub open spec fn finalized(self, v: S, d: S, m: S, multivisit: u32) -> Self {
        let total = S::spec_count((self.n + multivisit) as u32);
        Node {
            wl: nudged(self.wl, multivisit, v.spec_minus(self.wl), total),
            d: nudged(self.d, multivisit, d.spec_minus(self.d), total),
            m: nudged(self.m, multivisit, m.spec_minus(self.m), total),
            n: (self.n + multivisit) as u32,
            n_in_flight: (self.n_in_flight - multivisit) as u32,
            ..self
        }
    }

    /// Completes visits that have started and moves the averages towards their
    /// values.
    pub fn finalize_score_update(&mut self, v: S, d: S, m: S, multivisit: u32)
        requires
            old(self).n + multivisit <= u32::MAX,
            old(self).n_in_flight >= multivisit,
        ensures
            *final(self) == old(self).finalized(v, d, m, multivisit),
    {
        let total: S = S::count(self.n + multivisit);
        self.wl = nudge(self.wl, multivisit, v.minus(self.wl), total);
        self.d = nudge(self.d, multivisit, d.minus(self.d), total);
        self.m = nudge(self.m, multivisit, m.minus(self.m), total);
        self.n = self.n + multivisit;
        self.n_in_flight = self.n_in_flight - multivisit;
    }

    /// The node after the values of `multivisit` of its visits changed by the
    /// given amounts.
    pub open spec fn adjusted(self, v: S, d: S, m: S, multivisit: u32) -> Self {
        let total = S::spec_count(self.n);
        Node {
            wl: nudged(self.wl, multivisit, v, total),
            d: nudged(self.d, multivisit, d, total),
            m: nudged(self.m, multivisit, m, total),
            ..self
        }
    }

    /// Corrects the averages where a result below became certain: no visit is
    /// added, the values of `multivisit` visits change by the given amounts.
    pub fn adjust_for_terminal(&mut self, v: S, d: S, m: S, multivisit: u32)
        ensures
            *final(self) == old(self).adjusted(v, d, m, multivisit),
    {
        let total: S = S::count(self.n);
        self.wl = nudge(self.wl, multivisit, v, total);
        self.d = nudge(self.d, multivisit, d, total);
        self.m = nudge(self.m, multivisit, m, total);
    }

    /// The node without `multivisit` of its visits, which had the given values.
    pub open spec fn reverted(self, v: S, d: S, m: S, multivisit: u32) -> Self {
        if self.n <= multivisit {
            Node { wl: S::spec_zero(), d: S::spec_one(), m: S::spec_zero(), n: 0, ..self }
        } else {
            let left = S::spec_count((self.n - multivisit) as u32);
            Node {
                wl: unnudged(self.wl, multivisit, v.spec_minus(self.wl), left),
                d: unnudged(self.d, multivisit, d.spec_minus(self.d), left),
                m: unnudged(self.m, multivisit, m.spec_minus(self.m), left),
                n: (self.n - multivisit) as u32,
                ..self
            }
        }
    }

    /// Takes completed visits out of the averages again.
    pub fn revert_terminal_visits(&mut self, v: S, d: S, m: S, multivisit: u32)
        ensures
            *final(self) == old(self).reverted(v, d, m, multivisit),
    {
        if self.n <= multivisit {
            self.wl = S::zero();
            self.d = S::one();
            self.m = S::zero();
            self.n = 0;
            return;
        }
        let left: S = S::count(self.n - multivisit);
        self.wl = unnudge(self.wl, multivisit, v.minus(self.wl), left);
        self.d = unnudge(self.d, multivisit, d.minus(self.d), left);
        self.m = unnudge(self.m, multivisit, m.minus(self.m), left);
        self.n = self.n - multivisit;
    }

    /// The node as a terminal one.
    pub open spec fn made_terminal(
        self,
        result: GameResult,
        plies_left: S,
        terminal: Terminal,
    ) -> Self {
        let (wl, d) = terminal_values(result, self.wl, self.d);
        Node {
            terminal,
            m: plies_left,
            wl,
            d,
            lower_bound: if terminal == Terminal::TwoFold {
                self.lower_bound
            } else {
                result
            },
            upper_bound: if terminal == Terminal::TwoFold {
                self.upper_bound
            } else {
                result
            },
            ..self
        }
    }

    /// Makes the node terminal. A two-fold repetition may be revoked later and
    /// so leaves the bounds alone.
    pub(crate) fn make_terminal(&mut self, result: GameResult, plies_left: S, terminal: Terminal)
        ensures
            *final(self) == old(self).made_terminal(result, plies_left, terminal),
    {
        if terminal != Terminal::TwoFold {
            self.set_bounds(result, result);
        }
        self.terminal = terminal;
        self.m = plies_left;
        match result {
            GameResult::Draw => {
                self.wl = S::zero();
                self.d = S::one();
            },
            GameResult::WhiteWon => {
                self.wl = S::one();
                self.d = S::zero();
            },
            GameResult::BlackWon => {
                self.wl = S::one().negated();
                self.d = S::zero();
            },
            GameResult::Undecided => {},
        }
    }

    /// The node as it is once it is no longer terminal, given the visits, value
    /// and draw of its children.
    pub open spec fn made_not_terminal(self, children: Seq<(u32, S, S)>) -> Self {
        if self.edges@.len() == 0 {
            Node { terminal: Terminal::NonTerminal, n: 0, ..self }
        } else {
            let (n, wl, d) = reopened_sums(children, children.len() as int);
            Node {
                terminal: Terminal::NonTerminal,
                n: n as u32,
                wl: wl.spec_over(S::spec_count(n as u32)),
                d: d.spec_over(S::spec_count(n as u32)),
                ..self
            }
        }
    }

    /// Makes a terminal node an ordinary one again, with the statistics that its
    /// children account for.
    pub(crate) fn make_not_terminal(&mut self, children: &Vec<(u32, S, S)>)
        requires
            reopened_n(children@) <= u32::MAX,
        ensures
            *final(self) == old(self).made_not_terminal(children@),
    {
        self.terminal = Terminal::NonTerminal;
        let mut n: u32 = 0;
        if !self.edges.is_empty() {
            n = 1;
            self.wl = S::zero();
            self.d = S::zero();
            let mut i: usize = 0;
            while i < children.len()
                invariant
                    i <= children.len(),
                    (n as int, self.wl, self.d) == reopened_sums(children@, i as int),
                    reopened_n(children@) <= u32::MAX,
                    *self == (Node {
                        terminal: Terminal::NonTerminal,
                        wl: self.wl,
                        d: self.d,
                        ..*old(self)
                    }),
                decreases children.len() - i,
            {
                let (child_n, child_wl, child_d) = children[i];
                proof {
                    lemma_reopened_n_grows(children@, i + 1, children@.len() as int);
                }
                if child_n > 0 {
                    n = n + child_n;
                    self.wl = self.wl.plus(child_wl.negated().times(S::count(child_n)));
                    self.d = self.d.plus(child_d.times(S::count(child_n)));
                }
                i += 1;
            }
            self.wl = self.wl.over(S::count(n));
            self.d = self.d.over(S::count(n));
        }
        self.n = n;
    }

    pub fn set_bounds(&mut self, lower: GameResult, upper: GameResult)
        ensures
            *final(self) == (Node { lower_bound: lower, upper_bound: upper, ..*old(self) }),
    {
        self.lower_bound = lower;
        self.upper_bound = upper;
    }

    /// Drops every child but the one behind `keep_edge`; without one, drops the
    /// edges too.
    pub(crate) fn release_children_except_one(&mut self, keep_edge: Option<usize>)
        ensures
            keep_edge is None ==> final(self).edges@.len() == 0 && final(self).children@.len() == 0,
            keep_edge matches Some(k) ==> {
                &&& final(self).edges == old(self).edges
                &&& final(self).children@ == Seq::new(
                    old(self).children@.len(),
                    |i: int|
                        if i == k {
                            old(self).children@[i]
                        } else {
                            None
                        },
                )
            },
            *final(self) == (Node {
                edges: final(self).edges,
                children: final(self).children,
                solid_children: false,
                ..*old(self)
            }),
    {
        match keep_edge {
            Some(k) => {
                let mut i: usize = 0;
                while i < self.children.len()
                    invariant
                        i <= self.children@.len(),
                        self.children@.len() == old(self).children@.len(),
                        forall|j: int|
                            0 <= j < self.children@.len() ==> #[trigger] self.children@[j] == (if j
                                < i && j != k {
                                None
                            } else {
                                old(self).children@[j]
                            }),
                        *self == (Node { children: self.children, ..*old(self) }),
                    decreases self.children@.len() - i,
                {
                    if i != k {
                        self.children[i] = None;
                    }
                    i += 1;
                }
                assert(self.children@ =~= Seq::new(
                    old(self).children@.len(),
                    |j: int|
                        if j == k {
                            old(self).children@[j]
                        } else {
                            None
                        },
                ));
            },
            None => {
                self.children = Vec::new();
                self.edges = Vec::new();
            },
        }
        self.solid_children = false;
    }
}

/// An edge together with the node behind it, if that exists.
pub struct EdgeAndNode<'a, S> {
    pub edge: Edge,
    pub node: Option<&'a Node<S>>,
}

impl<'a, S: Scalar> EdgeAndNode<'a, S> {
    pub fn new(edge: Edge, node: Option<&'a Node<S>>) -> (r: Self)
        ensures
            r.edge == edge,
            r.node == node,
    {
        EdgeAndNode { edge, node }
    }

    pub open spec fn spec_n_started(self) -> int {
        match self.node {
            Some(node) => node.spec_n_started(),
            None => 0,
        }
    }

    pub open spec fn spec_q(self, default_q: S, draw_score: S) -> S {
        match self.node {
            Some(node) => if node.n > 0 {
                node.spec_q(draw_score)
            } else {
                default_q
            },
            None => default_q,
        }
    }

    pub open spec fn spec_p(self) -> S {
        S::spec_from_bits(prior_bits(self.edge.p))
    }

    /// `numerator * p / (1 + started visits)`.
    pub open spec fn spec_u(self, numerator: S) -> S {
        numerator.spec_times(self.spec_p()).spec_over(
            S::spec_count((1 + self.spec_n_started()) as u32),
        )
    }

    /// The value of the node once it has been visited, `default_q` before.
    pub fn q(&self, default_q: S, draw_score: S) -> (r: S)
        ensures
            r == self.spec_q(default_q, draw_score),
    {
        match self.node {
            Some(node) => if node.n > 0 {
                node.q(draw_score)
            } else {
                default_q
            },
            None => default_q,
        }
    }

    pub fn n_started(&self) -> (r: u32)
        ensures
            r == self.spec_n_started(),
    {
        match self.node {
            Some(node) => node.n_started(),
            None => 0,
        }
    }

    /// The prior of the edge.
    pub fn p(&self) -> (r: S)
        ensures
            r == self.spec_p(),
    {
        S::from_bits(self.edge.get_p())
    }

    pub fn mv(&self) -> (r: Move)
        ensures
            r == self.edge.mv,
    {
        self.edge.mv
    }

    /// The exploration term. The numerator is the factor common to all edges of
    /// the parent.
    pub fn u(&self, numerator: S) -> (r: S)
        requires
            self.spec_n_started() < u32::MAX,
        ensures
            r == self.spec_u(numerator),
    {
        numerator.times(self.p()).over(S::count(1 + self.n_started()))
    }

    pub fn child(&self) -> (r: Option<&'a Node<S>>)
        ensures
            r == self.node,
    {
        self.node
    }
}

/// Whether numbers are reckoned without rounding, as far as averages need it.
pub open spec fn is_exact<S: Scalar>() -> bool {
    &&& forall|a: S, b: S, c: S|
        c.spec_minus(#[trigger] a.spec_plus(b)) == (#[trigger] c.spec_minus(a)).spec_minus(b)
    &&& forall|a: S, b: S| #[trigger] a.spec_plus(b).spec_minus(b) == a
    &&& forall|a: S, b: S| #[trigger] a.spec_times(b) == b.spec_times(a)
    &&& forall|a: S, b: S, c: S| #[trigger]
        a.spec_times(b.spec_plus(c)) == a.spec_times(b).spec_plus(a.spec_times(c))
    &&& forall|a: S, b: S, c: S| #[trigger]
        a.spec_times(b.spec_minus(c)) == a.spec_times(b).spec_minus(a.spec_times(c))
    &&& forall|a: S, b: S| b != S::spec_zero() ==> #[trigger] a.spec_over(b).spec_times(b) == a
    &&& forall|a: S, b: S, c: S|
        b != S::spec_zero() && #[trigger] a.spec_times(b) == #[trigger] c.spec_times(b) ==> a == c
    &&& forall|i: u32, j: u32|
        i + j <= u32::MAX ==> S::spec_count((i + j) as u32) == #[trigger] S::spec_count(
            i,
        ).spec_plus(S::spec_count(j))
    &&& forall|i: u32| i > 0 ==> #[trigger] S::spec_count(i) != S::spec_zero()
}

/// An average that moved towards a value and back again is what it was, where numbers are
/// reckoned without rounding.
proof fn lemma_nudge_undone<S: Scalar>(x: S, v: S, n: u32, k: u32)
    requires
        is_exact::<S>(),
        n > 0,
        n + k <= u32::MAX,
    ensures
        ({
            let y = nudged(x, k, v.spec_minus(x), S::spec_count((n + k) as u32));
            unnudged(y, k, v.spec_minus(y), S::spec_count(n)) == x
        }),
{
    let weight = S::spec_count(k);
    let left = S::spec_count(n);
    let total = S::spec_count((n + k) as u32);
    let far = v.spec_minus(x);
    let step = weight.spec_times(far).spec_over(total);
    let y = x.spec_plus(step);
    let back = weight.spec_times(v.spec_minus(y)).spec_over(left);
    assert(total == left.spec_plus(weight));
    assert(step.spec_times(total) == weight.spec_times(far));
    assert(v.spec_minus(y) == far.spec_minus(step));
    assert(back.spec_times(left) == weight.spec_times(far.spec_minus(step)));
    assert(weight.spec_times(far.spec_minus(step)) == weight.spec_times(far).spec_minus(
        weight.spec_times(step),
    ));
    assert(step.spec_times(total) == step.spec_times(left).spec_plus(step.spec_times(weight)));
    assert(step.spec_times(weight) == weight.spec_times(step));
    assert(back.spec_times(left) == step.spec_times(left));
    assert(back == step);
    assert(y.spec_minus(step) == x);
}

/// Taking visits back undoes completing them: the node has the visits that it had, and only
/// those under way are fewer. A node that had none is reset. One that had some has its
/// averages again, up to rounding.
pub proof fn law_reverting_undoes_finalizing<S: Scalar>(
    node: Node<S>,
    v: S,
    d: S,
    m: S,
    multivisit: u32,
)
    requires
        node.n + multivisit <= u32::MAX,
        node.n_in_flight >= multivisit,
    ensures
        ({
            let after = node.finalized(v, d, m, multivisit).reverted(v, d, m, multivisit);
            let begun = Node {
                n_in_flight: (node.n_in_flight - multivisit) as u32,
                ..node
            };
            &&& after == (Node { wl: after.wl, d: after.d, m: after.m, ..begun })
            &&& node.n == 0 ==> (after.wl, after.d, after.m) == (
                S::spec_zero(),
                S::spec_one(),
                S::spec_zero(),
            )
            &&& node.n > 0 && is_exact::<S>() ==> after == begun
        }),
{
    if node.n > 0 && is_exact::<S>() {
        lemma_nudge_undone(node.wl, v, node.n, multivisit);
        lemma_nudge_undone(node.d, d, node.n, multivisit);
        lemma_nudge_undone(node.m, m, node.n, multivisit);
    }
}

/// The values of the first `k` children, each counted with its visits, added up as real
/// numbers.
pub open spec fn worth_of_children<S: Scalar>(
    value: spec_fn(S) -> real,
    children: Seq<(u32, S, S)>,
    k: int,
) -> real
    decreases k,
{
    if k <= 0 {
        0real
    } else {
        worth_of_children(value, children, k - 1) + value(children[k - 1].1) * (
        children[k - 1].0 as real)
    }
}

proof fn lemma_reopened_value<S: Scalar>(
    value: spec_fn(S) -> real,
    children: Seq<(u32, S, S)>,
    k: int,
)
    requires
        is_unrounded(value),
        0 <= k <= children.len(),
    ensures
        value(reopened_sums(children, k).1) == -worth_of_children(value, children, k),
    decreases k,
{
    if k > 0 {
        lemma_reopened_value(value, children, k - 1);
        let (x, n) = (value(children[k - 1].1), children[k - 1].0 as real);
        assert((-x) * n == -(x * n)) by (nonlinear_arith);
        if children[k - 1].0 == 0 {
            assert(x * n == 0real) by (nonlinear_arith)
                requires
                    n == 0real,
            ;
        }
    }
}

/// Where nothing is rounded, a node that is no longer terminal has the mean of a visit of its
/// own, which counts for nothing, and of its children's visits, whose values count for the
/// other side.
pub proof fn law_reopened_node_is_set_against_its_children<S: Scalar>(
    value: spec_fn(S) -> real,
    node: Node<S>,
    children: Seq<(u32, S, S)>,
)
    requires
        is_unrounded(value),
        node.edges@.len() > 0,
        reopened_n(children) <= u32::MAX,
    ensures
        ({
            let after = node.made_not_terminal(children);
            &&& after.terminal == Terminal::NonTerminal
            &&& after.n == reopened_n(children)
            &&& value(after.wl) * (after.n as real) == -worth_of_children(
                value,
                children,
                children.len() as int,
            )
        }),
{
    let n = children.len() as int;
    lemma_reopened_n_grows(children, 0, n);
    lemma_reopened_value(value, children, n);
    lemma_quotient(
        value,
        reopened_sums(children, n).1,
        S::spec_count(reopened_n(children) as u32),
    );
}

} // verus!
