use vstd::prelude::*;

use crate::board_size::BoardSize;

verus! {

/// The command line: who plays, and what to do.
#[derive(Clone, Debug, PartialEq, Eq)]
pub struct Cli {
    pub players: PlayerArgs,
    pub command: Commands,
}

/// Who plays, on which board.
#[derive(Clone, Debug, PartialEq, Eq)]
pub struct PlayerArgs {
    /// Player 1 (columns) algorithm: manual/m, random/r, greedy/g, sadist/s.
    pub player1: String,
    /// Player 2 (rows) algorithm: manual/m, random/r, greedy/g, sadist/s.
    pub player2: String,
    /// Board size (5, 7, 9 or 11).
    pub size: BoardSize,
    /// Hide the opponent's hand.
    pub hide: bool,
    /// Directory holding `.onnx` model files.
    pub models_dir: String,
}

impl Default for PlayerArgs {
    /// A manual first player against a random one on a 5×5 board, hands shown, models in
    /// `./models`.
    fn default() -> (r: Self)
        ensures
            r.player1@ == "manual"@,
            r.player2@ == "random"@,
            r.size == BoardSize::Five,
            !r.hide,
            r.models_dir@ == "./models"@,
    {
        PlayerArgs {
            player1: "manual".to_string(),
            player2: "random".to_string(),
            size: BoardSize::Five,
            hide: false,
            models_dir: "./models".to_string(),
        }
    }
}

/// Settings of a training run.
#[derive(Clone, Copy, Debug, PartialEq, Eq, Structural)]
pub struct TrainArgs {
    /// Include the build's version in the run id.
    pub exact_generation: bool,
    /// Number of selfplay → train → export iterations.
    pub iterations: u32,
    /// Self-play games per iteration.
    pub games: u32,
    /// Search simulations per move during self-play.
    pub sims: u32,
    /// Board size.
    pub size: u32,
    /// Run self-play on the CPU.
    pub force_cpu: bool,
    /// Hide the opponent's hand.
    pub hide: bool,
}

impl Default for TrainArgs {
    /// 20 iterations of 200 games with 25 simulations per move, on a 5×5 board.
    fn default() -> (r: Self)
        ensures
            r == (TrainArgs {
                exact_generation: false,
                iterations: 20,
                games: 200,
                sims: 25,
                size: 5,
                force_cpu: false,
                hide: false,
            }),
    {
        TrainArgs {
            exact_generation: false,
            iterations: 20,
            games: 200,
            sims: 25,
            size: 5,
            force_cpu: false,
            hide: false,
        }
    }
}

/// What to do.
#[derive(Clone, Debug, PartialEq, Eq)]
pub enum Commands {
    /// Play the game in the terminal.
    Tui,
    /// Play the game with a graphical interface.
    Gui {
        /// Enable music and sound effects.
        sound: bool,
    },
    /// Tournaments and data management.
    Arena {
        /// Keep the players whose ids match these patterns (all when empty).
        select: Vec<String>,
        /// Run a one-off tournament between these player specs, without stored ratings.
        no_priors: Vec<String>,
        command: ArenaCommands,
    },
    /// Train a neural network model.
    Train { arch: TrainArch },
}

/// Network architecture to train.
#[derive(Clone, Debug, PartialEq, Eq)]
pub enum TrainArch {
    /// Residual convolutional network, optionally pre-trained against a supervising player.
    Cnn { args: TrainArgs, supervise: Option<String> },
    /// Transformer.
    Transformer { args: TrainArgs },
}

/// Arena actions.
#[derive(Clone, Debug, PartialEq, Eq)]
pub enum ArenaCommands {
    /// Run a tournament, optionally printing results as JSON.
    Tourney { mode: TourneyMode, json: bool },
    /// Player data management.
    Players { command: PlayersCommands },
}

/// Tournament formats; a thread count of 0 means all cores.
#[derive(Clone, Copy, Debug, PartialEq, Eq, Structural)]
pub enum TourneyMode {
    /// Swiss: one game per pairing, pairs within score groups, `cycles` full brackets.
    Swiss { cycles: usize, threads: usize },
    /// Rating-based: weighted random pairing by rating proximity, `target_rounds` games in all.
    Rating { target_rounds: usize, threads: usize },
    /// Single elimination by rating proximity, winners advance, `cycles` brackets.
    Elimination { cycles: usize, threads: usize },
    /// Round robin: every player meets every other once per sweep, `cycles` sweeps.
    RoundRobin { cycles: usize, threads: usize },
}

impl TourneyMode {
    /// Swiss with its default 10 brackets on all cores.
    pub fn default_swiss() -> (r: Self)
        ensures
            r == (TourneyMode::Swiss { cycles: 10, threads: 0 }),
    {
        TourneyMode::Swiss { cycles: 10, threads: 0 }
    }

    /// Rating-based with its default 100 games on all cores.
    pub fn default_rating() -> (r: Self)
        ensures
            r == (TourneyMode::Rating { target_rounds: 100, threads: 0 }),
    {
        TourneyMode::Rating { target_rounds: 100, threads: 0 }
    }

    /// Elimination with its default 10 brackets on all cores.
    pub fn default_elimination() -> (r: Self)
        ensures
            r == (TourneyMode::Elimination { cycles: 10, threads: 0 }),
    {
        TourneyMode::Elimination { cycles: 10, threads: 0 }
    }

    /// Round robin with its default 3 sweeps on all cores.
    pub fn default_round_robin() -> (r: Self)
        ensures
            r == (TourneyMode::RoundRobin { cycles: 3, threads: 0 }),
    {
        TourneyMode::RoundRobin { cycles: 3, threads: 0 }
    }
}

/// Player data actions.
#[derive(Clone, Debug, PartialEq, Eq)]
pub enum PlayersCommands {
    /// Register player specs, optionally limited to board sizes and a hide mode.
    New { players: Vec<String>, sizes: Vec<u8>, hide: Option<bool> },
    /// List all players and their ratings.
    List,
    /// Reset ratings to the default.
    ResetRatings,
    /// Remove players entirely.
    Nuke,
}

/// Settings read from the configuration file.
#[derive(Clone, Debug, Default, PartialEq, Eq)]
pub struct Config {
    pub arena: ArenaConfig,
}

/// Arena settings.
#[derive(Clone, Debug, Default, PartialEq, Eq)]
pub struct ArenaConfig {
    pub db_backend: DbBackend,
}

/// Where ratings are stored.
#[derive(Clone, Debug, PartialEq, Eq)]
pub enum DbBackend {
    /// A JSON file in the user's data directory.
    Json,
    /// A ClickHouse server.
    Clickhouse { url: String },
}

impl Default for DbBackend {
    /// The JSON file.
    fn default() -> (r: Self)
        ensures
            r is Json,
    {
        DbBackend::Json
    }
}

/// The ClickHouse address used when none is configured.
pub fn default_clickhouse_url() -> (r: String)
    ensures
        r@ == "http://localhost:8123"@,
{
    "http://localhost:8123".to_string()
}

} // verus!
