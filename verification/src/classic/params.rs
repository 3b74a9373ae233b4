//! The parameters of the tree search.
use vstd::prelude::*;

use crate::scalar::Scalar;

verus! {

/// What the score of a line is expressed in.
#[derive(Clone, Copy, Debug, PartialEq, Eq, Structural)]
pub enum ScoreType {
    Centipawn,
    CentipawnWithDrawscore,
    Centipawn2019,
    Centipawn2018,
    WinPercentage,
    Q,
    WinLoss,
    WdlMu,
}

impl Default for ScoreType {
    fn default() -> (r: Self)
        ensures
            r == ScoreType::WdlMu,
    {
        ScoreType::WdlMu
    }
}

fn same_text(a: &str, b: &str) -> (r: bool)
    ensures
        r == (a@ == b@),
{
    a.to_owned() == b.to_owned()
}

impl ScoreType {
    /// The name of a score type among the engine's options.
    pub open spec fn spec_as_uci(self) -> Seq<char> {
        match self {
            ScoreType::Centipawn => "centipawn"@,
            ScoreType::CentipawnWithDrawscore => "centipawn_with_drawscore"@,
            ScoreType::Centipawn2019 => "centipawn_2019"@,
            ScoreType::Centipawn2018 => "centipawn_2018"@,
            ScoreType::WinPercentage => "win_percentage"@,
            ScoreType::Q => "Q"@,
            ScoreType::WinLoss => "W-L"@,
            ScoreType::WdlMu => "WDL_mu"@,
        }
    }

    /// The name of a score type among the engine's options.
    pub fn as_uci(self) -> (r: &'static str)
        ensures
            r@ == self.spec_as_uci(),
    {
        match self {
            ScoreType::Centipawn => "centipawn",
            ScoreType::CentipawnWithDrawscore => "centipawn_with_drawscore",
            ScoreType::Centipawn2019 => "centipawn_2019",
            ScoreType::Centipawn2018 => "centipawn_2018",
            ScoreType::WinPercentage => "win_percentage",
            ScoreType::Q => "Q",
            ScoreType::WinLoss => "W-L",
            ScoreType::WdlMu => "WDL_mu",
        }
    }

    /// The score type with a name, if there is one.
    pub fn parse_uci(value: &str) -> (r: Option<Self>)
        ensures
            r matches Some(kind) ==> kind.spec_as_uci() == value@,
            r is None ==> forall|kind: ScoreType| kind.spec_as_uci() != value@,
    {
        if same_text(value, "centipawn") {
            Some(ScoreType::Centipawn)
        } else if same_text(value, "centipawn_with_drawscore") {
            Some(ScoreType::CentipawnWithDrawscore)
        } else if same_text(value, "centipawn_2019") {
            Some(ScoreType::Centipawn2019)
        } else if same_text(value, "centipawn_2018") {
            Some(ScoreType::Centipawn2018)
        } else if same_text(value, "win_percentage") {
            Some(ScoreType::WinPercentage)
        } else if same_text(value, "Q") {
            Some(ScoreType::Q)
        } else if same_text(value, "W-L") {
            Some(ScoreType::WinLoss)
        } else if same_text(value, "WDL_mu") {
            Some(ScoreType::WdlMu)
        } else {
            None
        }
    }
}

/// No two score types share a name, so parsing a name gives its score type back.
pub proof fn law_score_type_names_are_distinct(a: ScoreType, b: ScoreType)
    requires
        a.spec_as_uci() == b.spec_as_uci(),
    ensures
        a == b,
{
    reveal_strlit("centipawn");
    reveal_strlit("centipawn_with_drawscore");
    reveal_strlit("centipawn_2019");
    reveal_strlit("centipawn_2018");
    reveal_strlit("win_percentage");
    reveal_strlit("Q");
    reveal_strlit("W-L");
    reveal_strlit("WDL_mu");
    assert("centipawn"@.len() == 9);
    assert("centipawn_with_drawscore"@.len() == 24);
    assert("centipawn_2019"@.len() == 14);
    assert("centipawn_2018"@.len() == 14);
    assert("win_percentage"@.len() == 14);
    assert("Q"@.len() == 1);
    assert("W-L"@.len() == 3);
    assert("WDL_mu"@.len() == 6);
    assert("centipawn_2019"@[13] != "centipawn_2018"@[13]);
    assert("centipawn_2019"@[0] != "win_percentage"@[0]);
    assert("centipawn_2018"@[0] != "win_percentage"@[0]);
}

/// For which side draws are valued differently.
#[derive(Clone, Copy, Debug, PartialEq, Eq, Structural)]
pub enum ContemptMode {
    /// The side that the engine plays, to be settled when a search starts.
    Play,
    White,
    Black,
    Disable,
}

/// The parameters that are numbers of the search's arithmetic.
#[derive(Clone, Copy, Debug)]
pub struct Weights<S> {
    pub cpuct: S,
    pub cpuct_at_root: S,
    pub cpuct_base: S,
    pub cpuct_factor: S,
    pub fpu_value: S,
    pub fpu_value_at_root: S,
    pub draw_score: S,
    pub temperature: S,
    pub wdl_rescale_ratio: S,
    pub wdl_rescale_diff: S,
    /// How wide the chances may be spread before they are rescaled.
    pub wdl_max_s: S,
    /// The share of the difference that is displayed.
    pub wdl_eval_objectivity: S,
    /// Playouts per second that a search keeps to; 0 where there is no limit.
    pub nps_limit: S,
}

/// The parameters of one search.
#[derive(Clone, Copy, Debug)]
pub struct SearchParams<S> {
    pub weights: Weights<S>,
    /// Positions evaluated at once; 0 stands for the backend's own choice.
    pub minibatch_size: i32,
    pub root_has_own_cpuct_params: bool,
    pub fpu_absolute: bool,
    pub fpu_absolute_at_root: bool,
    pub fpu_strategy_at_root_same: bool,
    pub two_fold_draws: bool,
    pub sticky_endgames: bool,
    pub solid_tree_threshold: u32,
    pub max_concurrent_searchers: i32,
    pub max_collision_visits: i32,
    pub max_collision_visits_scaling_start: i32,
    pub max_collision_visits_scaling_end: i32,
    pub out_of_order_eval: bool,
    pub task_workers_per_search_worker: i32,
    pub minimum_work_size_for_processing: u32,
    pub minimum_work_size_for_picking: u32,
    pub minimum_remaining_work_size_for_picking: u32,
    pub minimum_work_per_task_for_processing: u32,
    pub max_prefetch_batch: u32,
    pub idling_minimum_work: u32,
    pub thread_idling_threshold: i32,
    pub multi_pv: usize,
    pub per_pv_counters: bool,
    pub score_type: ScoreType,
    pub contempt_mode: ContemptMode,
}

impl<S: Scalar> SearchParams<S> {
    /// The default parameters, with the given weights.
    pub fn with_weights(weights: Weights<S>) -> (r: Self)
        ensures
            r.weights == weights,
            r.minibatch_size == 0,
            !r.root_has_own_cpuct_params,
            !r.fpu_absolute && !r.fpu_absolute_at_root && r.fpu_strategy_at_root_same,
            r.two_fold_draws && r.sticky_endgames && r.out_of_order_eval,
            r.solid_tree_threshold == 100,
            r.max_concurrent_searchers == 1,
            r.max_collision_visits == 80_000,
            r.max_collision_visits_scaling_start == 28,
            r.max_collision_visits_scaling_end == 100_000,
            r.task_workers_per_search_worker == -1,
            r.minimum_work_size_for_processing == 20,
            r.minimum_work_size_for_picking == 1,
            r.minimum_remaining_work_size_for_picking == 20,
            r.minimum_work_per_task_for_processing == 8,
            r.max_prefetch_batch == 32,
            r.idling_minimum_work == 0,
            r.thread_idling_threshold == 1,
            r.multi_pv == 1,
            !r.per_pv_counters,
            r.score_type == ScoreType::WdlMu,
            r.contempt_mode == ContemptMode::Play,
    {
        SearchParams {
            weights,
            minibatch_size: 0,
            root_has_own_cpuct_params: false,
            fpu_absolute: false,
            fpu_absolute_at_root: false,
            fpu_strategy_at_root_same: true,
            two_fold_draws: true,
            sticky_endgames: true,
            solid_tree_threshold: 100,
            max_concurrent_searchers: 1,
            max_collision_visits: 80_000,
            max_collision_visits_scaling_start: 28,
            max_collision_visits_scaling_end: 100_000,
            out_of_order_eval: true,
            task_workers_per_search_worker: -1,
            minimum_work_size_for_processing: 20,
            minimum_work_size_for_picking: 1,
            minimum_remaining_work_size_for_picking: 20,
            minimum_work_per_task_for_processing: 8,
            max_prefetch_batch: 32,
            idling_minimum_work: 0,
            thread_idling_threshold: 1,
            multi_pv: 1,
            per_pv_counters: false,
            score_type: ScoreType::WdlMu,
            contempt_mode: ContemptMode::Play,
        }
    }

    pub open spec fn spec_cpuct(self, at_root: bool) -> S {
        if at_root && self.root_has_own_cpuct_params {
            self.weights.cpuct_at_root
        } else {
            self.weights.cpuct
        }
    }

    /// The constant exploration weight.
    pub fn cpuct(&self, at_root: bool) -> (r: S)
        ensures
            r == self.spec_cpuct(at_root),
    {
        if at_root && self.root_has_own_cpuct_params {
            self.weights.cpuct_at_root
        } else {
            self.weights.cpuct
        }
    }

    /// How late the exploration weight starts to grow.
    pub fn cpuct_base(&self, _at_root: bool) -> (r: S)
        ensures
            r == self.weights.cpuct_base,
    {
        self.weights.cpuct_base
    }

    /// How much the exploration weight grows.
    pub fn cpuct_factor(&self, _at_root: bool) -> (r: S)
        ensures
            r == self.weights.cpuct_factor,
    {
        self.weights.cpuct_factor
    }

    pub open spec fn spec_fpu_absolute(self, at_root: bool) -> bool {
        if at_root && !self.fpu_strategy_at_root_same {
            self.fpu_absolute_at_root
        } else {
            self.fpu_absolute
        }
    }

    /// Whether an unvisited edge has a fixed value rather than a reduced one.
    pub fn fpu_absolute(&self, at_root: bool) -> (r: bool)
        ensures
            r == self.spec_fpu_absolute(at_root),
    {
        if at_root && !self.fpu_strategy_at_root_same {
            self.fpu_absolute_at_root
        } else {
            self.fpu_absolute
        }
    }

    pub open spec fn spec_fpu_value(self, at_root: bool) -> S {
        if at_root && !self.fpu_strategy_at_root_same {
            self.weights.fpu_value_at_root
        } else {
            self.weights.fpu_value
        }
    }

    /// The value, or reduction, of an unvisited edge.
    pub fn fpu_value(&self, at_root: bool) -> (r: S)
        ensures
            r == self.spec_fpu_value(at_root),
    {
        if at_root && !self.fpu_strategy_at_root_same {
            self.weights.fpu_value_at_root
        } else {
            self.weights.fpu_value
        }
    }

    pub open spec fn spec_collisions_left(self, nodes: i64, interpolated: i32) -> i32 {
        if nodes >= self.max_collision_visits_scaling_end {
            self.max_collision_visits
        } else if nodes <= self.max_collision_visits_scaling_start {
            1
        } else {
            interpolated
        }
    }

    /// How many visits one batch may spend on collisions in a tree of `nodes`
    /// nodes. Between the two ends of the scaling range it is `interpolated`.
    pub fn collisions_left(&self, nodes: i64, interpolated: i32) -> (r: i32)
        ensures
            r == self.spec_collisions_left(nodes, interpolated),
    {
        if nodes >= self.max_collision_visits_scaling_end as i64 {
            return self.max_collision_visits;
        }
        if nodes <= self.max_collision_visits_scaling_start as i64 {
            return 1;
        }
        interpolated
    }
}

} // verus!
