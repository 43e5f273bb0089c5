use vstd::prelude::*;

use crate::text::{
    concat, concat_number, contains_text, decimal, occurs_in, parse_u32, parsed_u32, strip_prefix, strip_suffix,
};

verus! {

/// Training steps per iteration: half the self-play games, at least one.
pub open spec fn spec_train_steps(games: u32) -> u32 {
    if games / 2 >= 1 {
        games / 2
    } else {
        1
    }
}

/// The step counts of a training run.
#[derive(Clone, Copy, Debug, PartialEq, Eq, Structural)]
pub struct TrainPlan {
    /// Training steps per iteration.
    pub train_steps: u32,
    /// Iterations over the run's lifetime: those already on disk and those to come.
    pub lifetime_iters: u32,
    /// Training steps over the run's lifetime.
    pub total_steps: u32,
}

impl TrainPlan {
    /// The plan for `iterations` more iterations of `games` games after `prior_iters` earlier
    /// ones.
    pub fn new(games: u32, prior_iters: u32, iterations: u32) -> (r: TrainPlan)
        requires
            prior_iters + iterations <= u32::MAX,
            spec_train_steps(games) * (prior_iters + iterations) <= u32::MAX,
        ensures
            r.train_steps == spec_train_steps(games),
            r.lifetime_iters == prior_iters + iterations,
            r.total_steps == spec_train_steps(games) * (prior_iters + iterations),
    {
        let half = games / 2;
        let train_steps = if half >= 1 {
            half
        } else {
            1
        };
        let lifetime_iters = prior_iters + iterations;
        TrainPlan { train_steps, lifetime_iters, total_steps: train_steps * lifetime_iters }
    }
}

/// The hide-mode label of a run: `hide` or `show`.
pub open spec fn hide_label(hide: bool) -> Seq<char> {
    if hide {
        "hide"@
    } else {
        "show"@
    }
}

/// The id of a training run of build `generation`:
/// `<generation>_-_g<games>:s<sims>/<size>x<size>_<hide label>`.
pub fn run_id(generation: &str, games: u32, sims: u32, size: u32, hide: bool) -> (r: String)
    ensures
        r@ == generation@ + "_-_g"@ + decimal(games as nat) + ":s"@ + decimal(sims as nat) + "/"@ + decimal(
            size as nat,
        ) + "x"@ + decimal(size as nat) + "_"@ + hide_label(hide),
{
    let a = concat_number("_-_g", games as u64);
    let b = concat_number(":s", sims as u64);
    let c = concat_number("/", size as u64);
    let d = concat_number("x", size as u64);
    let label = if hide {
        "_hide"
    } else {
        "_show"
    };
    let r1 = concat(generation, a.as_str());
    let r2 = concat(r1.as_str(), b.as_str());
    let r3 = concat(r2.as_str(), c.as_str());
    let r4 = concat(r3.as_str(), d.as_str());
    let r = concat(r4.as_str(), label);
    proof {
        reveal_strlit("_hide");
        reveal_strlit("_show");
        reveal_strlit("hide");
        reveal_strlit("show");
        reveal_strlit("_");
        assert("_hide"@ =~= "_"@ + "hide"@);
        assert("_show"@ =~= "_"@ + "show"@);
        assert(r@ =~= generation@ + "_-_g"@ + decimal(games as nat) + ":s"@ + decimal(sims as nat) + "/"@
            + decimal(size as nat) + "x"@ + decimal(size as nat) + "_"@ + hide_label(hide));
    }
    r
}

/// The version of a model file named `model_v<version>.onnx`, if `name` is one.
pub open spec fn model_version(name: Seq<char>) -> Option<u32> {
    if "model_v"@.is_prefix_of(name) && ".onnx"@.is_suffix_of(name.skip("model_v"@.len() as int)) {
        let middle = name.skip("model_v"@.len() as int);
        parsed_u32(middle.take(middle.len() - ".onnx"@.len()))
    } else {
        None
    }
}

/// The version of a model file name (see [`model_version`]).
pub fn model_version_of(name: &str) -> (r: Option<u32>)
    ensures
        r == model_version(name@),
{
    match strip_prefix(name, "model_v") {
        None => None,
        Some(rest) => match strip_suffix(rest, ".onnx") {
            None => None,
            Some(digits) => parse_u32(digits),
        },
    }
}

/// The highest model version among file names `names`, 0 when none is a model file.
pub open spec fn latest_version(names: Seq<Seq<char>>) -> u32
    decreases names.len(),
{
    if names.len() == 0 {
        0
    } else {
        let rest = latest_version(names.drop_last());
        match model_version(names.last()) {
            Some(v) => if v > rest {
                v
            } else {
                rest
            },
            None => rest,
        }
    }
}

/// The highest model version among the file names (see [`latest_version`]).
pub fn latest_model_version(names: &Vec<String>) -> (r: u32)
    ensures
        r == latest_version(names@.map_values(|s: String| s@)),
{
    let ghost views = names@.map_values(|s: String| s@);
    let mut best: u32 = 0;
    let mut i: usize = 0;
    while i < names.len()
        invariant
            views == names@.map_values(|s: String| s@),
            i <= names.len(),
            best == latest_version(views.take(i as int)),
        decreases names.len() - i,
    {
        proof {
            assert(views.take(i + 1).drop_last() =~= views.take(i as int));
            assert(views.take(i + 1).last() == names@[i as int]@);
        }
        match model_version_of(names[i].as_str()) {
            Some(v) => {
                if v > best {
                    best = v;
                }
            },
            None => {},
        }
        i += 1;
    }
    proof {
        assert(views.take(names.len() as int) =~= views);
    }
    best
}

/// How many of the names are `.bin` files.
pub open spec fn bin_count(names: Seq<Seq<char>>) -> nat
    decreases names.len(),
{
    if names.len() == 0 {
        0
    } else {
        bin_count(names.drop_last()) + if ".bin"@.is_suffix_of(names.last()) {
            1nat
        } else {
            0nat
        }
    }
}

/// How many of the file names end in `.bin` (one per finished self-play iteration).
pub fn count_bin_files(names: &Vec<String>) -> (r: u32)
    requires
        names.len() <= u32::MAX,
    ensures
        r == bin_count(names@.map_values(|s: String| s@)),
{
    let ghost views = names@.map_values(|s: String| s@);
    let mut count: u32 = 0;
    let mut i: usize = 0;
    while i < names.len()
        invariant
            names.len() <= u32::MAX,
            views == names@.map_values(|s: String| s@),
            i <= names.len(),
            count == bin_count(views.take(i as int)),
            count <= i,
        decreases names.len() - i,
    {
        proof {
            assert(views.take(i + 1).drop_last() =~= views.take(i as int));
            assert(views.take(i + 1).last() == names@[i as int]@);
        }
        if strip_suffix(names[i].as_str(), ".bin").is_some() {
            count += 1;
        }
        i += 1;
    }
    proof {
        assert(views.take(names.len() as int) =~= views);
    }
    count
}

/// The arena id of model `version` as evaluated against the supervising player:
/// `onnx:model_v<version>|g<sims>|s<size>|h<h or v>`.
pub fn eval_model_id(version: u32, sims: u32, size: u32, hide: bool) -> (r: String)
    ensures
        r@ == "onnx:model_v"@ + decimal(version as nat) + "|g"@ + decimal(sims as nat) + "|s"@ + decimal(
            size as nat,
        ) + if hide {
            "|hh"@
        } else {
            "|hv"@
        },
{
    let a = concat_number("onnx:model_v", version as u64);
    let b = concat_number("|g", sims as u64);
    let c = concat_number("|s", size as u64);
    let flag = if hide {
        "|hh"
    } else {
        "|hv"
    };
    let r1 = concat(a.as_str(), b.as_str());
    let r2 = concat(r1.as_str(), c.as_str());
    concat(r2.as_str(), flag)
}

/// The players of an evaluation: the supervising player's spec, a comma, the model's id.
pub fn eval_players(spec: &str, model_id: &str) -> (r: String)
    ensures
        r@ == spec@ + ","@ + model_id@,
{
    let head = concat(spec, ",");
    concat(head.as_str(), model_id)
}

/// An evaluation is due after exporting `version` when a supervising player was given and the
/// version is a multiple of 10.
pub fn eval_due(version: u32, supervised: bool) -> (r: bool)
    ensures
        r == (supervised && version % 10 == 0),
{
    supervised && version % 10 == 0
}

/// Whether self-play starts with the supervising player: one was given and no model exists yet.
pub fn starts_supervised(supervised: bool, has_model: bool) -> (r: bool)
    ensures
        r == (supervised && !has_model),
{
    supervised && !has_model
}

/// What an evaluation showed.
#[derive(Clone, Copy, Debug, PartialEq, Eq, Structural)]
pub enum EvalVerdict {
    /// The model won at most 68% of its games.
    Below,
    /// Above 68%, and self-play now switches from the supervising player to the model.
    AboveSwitch,
    /// Above 68%, self-play already uses the model.
    Above,
}

/// The model won more than 68% of `total` games (`wins / total > 0.68`).
pub open spec fn above_threshold(wins: u32, total: u32) -> bool {
    wins * 100 > 68 * total
}

/// The verdict of an evaluation where the model won `wins` of `total` games, while self-play
/// uses the supervising player when `supervising`; and whether it still does afterwards.
pub fn judge_eval(wins: u32, total: u32, supervising: bool) -> (r: (EvalVerdict, bool))
    ensures
        !above_threshold(wins, total) ==> r == (EvalVerdict::Below, supervising),
        above_threshold(wins, total) && supervising ==> r == (EvalVerdict::AboveSwitch, false),
        above_threshold(wins, total) && !supervising ==> r == (EvalVerdict::Above, false),
{
    if (wins as u64) * 100 > 68 * (total as u64) {
        if supervising {
            (EvalVerdict::AboveSwitch, false)
        } else {
            (EvalVerdict::Above, false)
        }
    } else {
        (EvalVerdict::Below, supervising)
    }
}

/// The verdict of an evaluation and whether self-play still uses the supervising player
/// afterwards (see [`judge_eval`]).
pub open spec fn spec_judge(wins: u32, total: u32, supervising: bool) -> (EvalVerdict, bool) {
    if !above_threshold(wins, total) {
        (EvalVerdict::Below, supervising)
    } else if supervising {
        (EvalVerdict::AboveSwitch, false)
    } else {
        (EvalVerdict::Above, false)
    }
}

/// Where a training run stands between iterations: the latest model version, whether a model
/// exists for self-play, and whether self-play is to use the supervising player.
#[derive(Clone, Copy, Debug, PartialEq, Eq, Structural)]
pub struct TrainState {
    pub version: u32,
    pub has_model: bool,
    pub supervising: bool,
}

impl TrainState {
    /// The self-play of this iteration is played by the supervising player: it is to be used and
    /// no model exists yet.
    pub fn selfplay_supervised(&self) -> (r: bool)
        ensures
            r == (self.supervising && !self.has_model),
    {
        self.supervising && !self.has_model
    }

    /// The state after an iteration that exported the next model: its version, a model for
    /// self-play, and, when an evaluation was due ([`eval_due`] for the new version, with a
    /// supervising player given) and gave `wins` of `total` in `eval`, its verdict and what it
    /// decides about the supervising player ([`spec_judge`]); otherwise no verdict and no change.
    pub fn after_iteration(self, supervised: bool, eval: Option<(u32, u32)>) -> (r: (TrainState, Option<EvalVerdict>))
        requires
            self.version < u32::MAX,
        ensures
            r.0.version == self.version + 1,
            r.0.has_model,
            (supervised && (self.version + 1) % 10 == 0) ==> (eval matches Some((wins, total)) ==> r.1 == Some(
                spec_judge(wins, total, self.supervising).0,
            ) && r.0.supervising == spec_judge(wins, total, self.supervising).1),
            !(supervised && (self.version + 1) % 10 == 0 && eval is Some) ==> r.1 is None && r.0.supervising
                == self.supervising,
    {
        let version = self.version + 1;
        let mut next = TrainState { version, has_model: true, supervising: self.supervising };
        let mut verdict = None;
        if eval_due(version, supervised) {
            if let Some((wins, total)) = eval {
                let (v, still) = judge_eval(wins, total, self.supervising);
                next.supervising = still;
                verdict = Some(v);
            }
        }
        (next, verdict)
    }
}

/// A failed training or export run is retried when its error output shows PyTorch's transient
/// clock assertion, `getCount is non-monotonic`.
pub fn retry_after_failure(success: bool, stderr: &str) -> (r: bool)
    ensures
        r == (!success && occurs_in("getCount is non-monotonic"@, stderr@)),
{
    !success && contains_text(stderr, "getCount is non-monotonic")
}

} // verus!
