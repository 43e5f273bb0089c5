# robot_master

A card-placement game for two players on an odd N×N board, its bots, tournaments between them,
and the bookkeeping around training neural-network players — with the game's rules, the bots'
choices, the tournament pairings and the text formats proved correct by Verus.

## Layout

- `src/` — the verified library.
  - `board`, `cards`, `game`, `scoring`, `progress`: the rules; a game always ends after `N² - 1`
    legal moves with a full board.
  - `fills`: the ways to fill a line's empty cells that the sadist scores, one score each.
  - `algos/`: the bots (random, greedy, greedy for number or score, sadist, rollout) and the
    player specs (`rollout|v800`, `onnx:model_v5|g400|s5|hh`, …) with their parser.
  - `match_`, `search`: a match move by move, every move one the bot to move may pick
    (`Bot::chooses`), and rollout evaluation for tree search, played by a clone of the bot.
  - `tournament`, `roster`, `sorting`: round robin, Swiss, elimination and rating-based
    pairings; selecting and registering players.
  - `render`, `manual_input`, `eval_report`, `text`: text in and out.
  - `menu`, `key_entry`, `candidates`: the decisions of the graphical game: the set-up menu,
    clicks and keyboard placement, and the fuzzy player search.
  - `encoding`, `training`: network inputs and the training run's plan.
  - `rng`: the random generator, carried through opaquely.
- `tests/` — tests of the library.
- `app/` — the `robot_master` program: command line, terminal game, tournament runner with
  Glicko-2 ratings stored as JSON, vanilla tree search, and the training loop.
