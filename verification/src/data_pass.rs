//! One pass over game records: which games are trained on, which are held out, and how they are
//! gathered into steps.

use vstd::prelude::*;
use vstd::string::*;

use crate::build_identity::{join_path, joined};
use crate::text::{chars_of, decimal, push_decimal};

verus! {

/// Whether a game is held out: every `stride`-th one is, from the first on, and none without a
/// stride.
pub open spec fn held_out(game_seq: int, stride: Option<u64>) -> bool {
    match stride {
        None => false,
        Some(n) => if n == 0 {
            game_seq == 0
        } else {
            game_seq % (n as int) == 0
        },
    }
}

/// Whether a game is held out.
pub fn is_val_game(game_seq: u64, stride: Option<u64>) -> (r: bool)
    ensures
        r == held_out(game_seq as int, stride),
{
    match stride {
        None => false,
        Some(n) => if n == 0 {
            game_seq == 0
        } else {
            game_seq % n == 0
        },
    }
}

/// What a pass does with the games of its side.
#[derive(Clone, Copy, Debug, PartialEq, Eq, Structural)]
pub enum PassMode {
    /// Trains on the games that are not held out.
    Train,
    /// Evaluates the games that are held out.
    Validate,
}

/// What is fixed for a pass.
#[derive(Clone, Copy, Debug, PartialEq, Eq, Structural)]
pub struct PassConfig {
    pub mode: PassMode,
    /// How many games are looked at, both sides together; zero sets no limit.
    pub max_games: u64,
    /// Every so many games one is held out.
    pub val_stride: Option<u64>,
    /// Games of one step.
    pub games_per_step: usize,
    /// Every so many steps a training pass reports; zero never does.
    pub log_interval_steps: usize,
}

/// What becomes of a game.
#[derive(Clone, Copy, Debug, PartialEq, Eq, Structural)]
pub enum GameAction {
    /// The game has no positions and is not counted.
    Ignore,
    /// The limit is reached: the pass ends.
    Stop,
    /// The game is for the other side.
    Skip,
    /// The game goes into the batch.
    Push,
    /// The game goes into the batch, which is then run as a step; `log` asks for a report.
    PushAndRun { log: bool },
}

/// The model of a pass.
pub struct PassState {
    pub config: PassConfig,
    /// The number of the next game that is not empty.
    pub game_seq: int,
    /// Games and positions of the batch being gathered.
    pub batch_games: int,
    pub batch_positions: int,
    /// Games, positions and steps that were run.
    pub games: int,
    pub samples: int,
    pub steps: int,
}

/// Whether the limit on games is reached.
pub open spec fn limit_reached(config: PassConfig, game_seq: int) -> bool {
    config.max_games > 0 && game_seq >= config.max_games
}

/// Whether a pass takes the game with this number.
pub open spec fn takes(config: PassConfig, game_seq: int) -> bool {
    held_out(game_seq, config.val_stride) == (config.mode == PassMode::Validate)
}

/// What becomes of a game with `positions` positions.
pub open spec fn game_action(s: PassState, positions: int) -> GameAction {
    if positions == 0 {
        GameAction::Ignore
    } else if limit_reached(s.config, s.game_seq) {
        GameAction::Stop
    } else if !takes(s.config, s.game_seq) {
        GameAction::Skip
    } else if s.batch_games + 1 >= s.config.games_per_step {
        GameAction::PushAndRun {
            log: s.config.mode == PassMode::Train && s.config.log_interval_steps > 0 && (s.steps
                + 1) % (s.config.log_interval_steps as int) == 0,
        }
    } else {
        GameAction::Push
    }
}

/// The pass after a game.
pub open spec fn after_game(s: PassState, positions: int) -> PassState {
    match game_action(s, positions) {
        GameAction::Ignore | GameAction::Stop => s,
        GameAction::Skip => PassState { game_seq: s.game_seq + 1, ..s },
        GameAction::Push => PassState {
            game_seq: s.game_seq + 1,
            batch_games: s.batch_games + 1,
            batch_positions: s.batch_positions + positions,
            ..s
        },
        GameAction::PushAndRun { .. } => PassState {
            game_seq: s.game_seq + 1,
            batch_games: 0,
            batch_positions: 0,
            games: s.games + s.batch_games + 1,
            samples: s.samples + s.batch_positions + positions,
            steps: s.steps + 1,
            ..s
        },
    }
}

/// The pass after its end: games that did not fill a step made one last step.
pub open spec fn after_end(s: PassState) -> PassState {
    if s.batch_games > 0 {
        PassState {
            batch_games: 0,
            batch_positions: 0,
            games: s.games + s.batch_games,
            samples: s.samples + s.batch_positions,
            steps: s.steps + 1,
            ..s
        }
    } else {
        s
    }
}

/// The totals of a pass.
#[derive(Clone, Copy, Debug, PartialEq, Eq, Structural)]
pub struct PassTotals {
    pub samples: usize,
    pub games: usize,
    pub steps: usize,
}

/// Sorts the games of a pass.
#[derive(Clone, Copy, Debug, PartialEq, Eq, Structural)]
pub struct DataPass {
    config: PassConfig,
    game_seq: u64,
    batch_games: usize,
    batch_positions: usize,
    games: usize,
    samples: usize,
    steps: usize,
}

impl View for DataPass {
    type V = PassState;

    closed spec fn view(&self) -> PassState {
        PassState {
            config: self.config,
            game_seq: self.game_seq as int,
            batch_games: self.batch_games as int,
            batch_positions: self.batch_positions as int,
            games: self.games as int,
            samples: self.samples as int,
            steps: self.steps as int,
        }
    }
}

impl DataPass {
    /// A batch that is being gathered is smaller than a step, no more games were run than looked
    /// at, and every step and every game has something in it.
    pub closed spec fn wf(&self) -> bool {
        &&& self.config.games_per_step >= 1
        &&& self.batch_games < self.config.games_per_step
        &&& self.games + self.batch_games <= self.game_seq
        &&& self.steps <= self.games
        &&& self.batch_games == 0 ==> self.batch_positions == 0
    }

    /// A pass that has seen nothing.
    pub fn new(config: PassConfig) -> (r: Self)
        requires
            config.games_per_step >= 1,
        ensures
            r.wf(),
            r@ == pass_start(config),
    {
        DataPass {
            config,
            game_seq: 0,
            batch_games: 0,
            batch_positions: 0,
            games: 0,
            samples: 0,
            steps: 0,
        }
    }

    /// Decides on the next game, which has `positions` positions.
    pub fn offer_game(&mut self, positions: usize) -> (r: GameAction)
        requires
            old(self).wf(),
            old(self)@.game_seq < usize::MAX,
            old(self)@.samples + old(self)@.batch_positions + positions <= usize::MAX,
        ensures
            final(self).wf(),
            r == game_action(old(self)@, positions as int),
            final(self)@ == after_game(old(self)@, positions as int),
    {
        if positions == 0 {
            return GameAction::Ignore;
        }
        if self.config.max_games > 0 && self.game_seq >= self.config.max_games {
            return GameAction::Stop;
        }
        let seq: u64 = self.game_seq;
        self.game_seq = seq + 1;
        let want_val = self.config.mode == PassMode::Validate;
        if is_val_game(seq, self.config.val_stride) != want_val {
            return GameAction::Skip;
        }
        self.batch_games = self.batch_games + 1;
        self.batch_positions = self.batch_positions + positions;
        if self.batch_games < self.config.games_per_step {
            return GameAction::Push;
        }
        self.run_batch();
        let log = self.config.mode == PassMode::Train && self.config.log_interval_steps > 0
            && self.steps % self.config.log_interval_steps == 0;
        GameAction::PushAndRun { log }
    }

    /// Counts the batch as run.
    fn run_batch(&mut self)
        requires
            old(self).games + old(self).batch_games <= usize::MAX,
            old(self).samples + old(self).batch_positions <= usize::MAX,
            old(self).steps < usize::MAX,
        ensures
            *final(self) == (DataPass {
                games: (old(self).games + old(self).batch_games) as usize,
                samples: (old(self).samples + old(self).batch_positions) as usize,
                steps: (old(self).steps + 1) as usize,
                batch_games: 0,
                batch_positions: 0,
                ..*old(self)
            }),
    {
        self.games = self.games + self.batch_games;
        self.samples = self.samples + self.batch_positions;
        self.steps = self.steps + 1;
        self.batch_games = 0;
        self.batch_positions = 0;
    }

    /// Ends the pass. Games that did not fill a step make one last step, which the first value
    /// asks for.
    pub fn finish(&mut self) -> (r: (bool, PassTotals))
        requires
            old(self).wf(),
            old(self)@.game_seq < usize::MAX,
            old(self)@.samples + old(self)@.batch_positions <= usize::MAX,
        ensures
            final(self).wf(),
            final(self)@ == after_end(old(self)@),
            r.0 == (old(self)@.batch_games > 0),
            r.1.games == after_end(old(self)@).games,
            r.1.samples == after_end(old(self)@).samples,
            r.1.steps == after_end(old(self)@).steps,
    {
        let last = self.batch_games > 0;
        if last {
            self.run_batch();
        }
        (last, PassTotals { samples: self.samples, games: self.games, steps: self.steps })
    }
}

/// A training pass and a validating pass over the same games split them: each game below the limit
/// is taken by exactly one of the two, and both stop at the same game.
pub proof fn passes_split_the_games(train: PassConfig, validate: PassConfig, game_seq: int)
    requires
        train.mode == PassMode::Train,
        validate == (PassConfig { mode: PassMode::Validate, ..train }),
    ensures
        takes(train, game_seq) <==> !takes(validate, game_seq),
        limit_reached(train, game_seq) == limit_reached(validate, game_seq),
{
}

/// The pass after a run of games with so many positions each.
pub open spec fn after_games(s: PassState, sizes: Seq<int>) -> PassState
    decreases sizes.len(),
{
    if sizes.len() == 0 {
        s
    } else {
        after_game(after_games(s, sizes.drop_last()), sizes.last())
    }
}

/// Both passes number the games alike: after the same games they are at the same number, whichever
/// games they took.
pub proof fn passes_number_alike(a: PassState, b: PassState, sizes: Seq<int>)
    requires
        a.config.max_games == b.config.max_games,
        a.game_seq == b.game_seq,
    ensures
        after_games(a, sizes).game_seq == after_games(b, sizes).game_seq,
        after_games(a, sizes).config == a.config,
        after_games(b, sizes).config == b.config,
    decreases sizes.len(),
{
    if sizes.len() > 0 {
        passes_number_alike(a, b, sizes.drop_last());
    }
}

/// How many games both passes run or have gathered.
pub open spec fn games_in(s: PassState) -> int {
    s.games + s.batch_games
}

/// Together the two passes take every game that is not empty, up to the limit: their games add up
/// to the games that were numbered.
pub proof fn passes_take_every_game(train: PassState, validate: PassState, sizes: Seq<int>)
    requires
        train.config.mode == PassMode::Train,
        validate.config == (PassConfig { mode: PassMode::Validate, ..train.config }),
        train.game_seq == validate.game_seq,
        games_in(train) + games_in(validate) == train.game_seq,
    ensures
        games_in(after_games(train, sizes)) + games_in(after_games(validate, sizes))
            == after_games(train, sizes).game_seq,
    decreases sizes.len(),
{
    if sizes.len() > 0 {
        passes_take_every_game(train, validate, sizes.drop_last());
        passes_number_alike(train, validate, sizes.drop_last());
    }
}

/// A pass that has seen nothing.
pub open spec fn pass_start(config: PassConfig) -> PassState {
    PassState {
        config,
        game_seq: 0,
        batch_games: 0,
        batch_positions: 0,
        games: 0,
        samples: 0,
        steps: 0,
    }
}

/// How many games have positions.
pub open spec fn games_with_positions(sizes: Seq<int>) -> int
    decreases sizes.len(),
{
    if sizes.len() == 0 {
        0
    } else {
        games_with_positions(sizes.drop_last()) + if sizes.last() == 0 {
            0int
        } else {
            1int
        }
    }
}

/// How many games a pass looks at: those with positions, up to the limit where there is one.
pub open spec fn games_looked_at(config: PassConfig, sizes: Seq<int>) -> int {
    let n = games_with_positions(sizes);
    if 0 < config.max_games < n {
        config.max_games as int
    } else {
        n
    }
}

proof fn lemma_games_are_numbered(config: PassConfig, sizes: Seq<int>)
    ensures
        after_games(pass_start(config), sizes).game_seq == games_looked_at(config, sizes),
        after_games(pass_start(config), sizes).config == config,
        games_with_positions(sizes) >= 0,
    decreases sizes.len(),
{
    if sizes.len() > 0 {
        lemma_games_are_numbered(config, sizes.drop_last());
    }
}

proof fn lemma_none_held_out(config: PassConfig, sizes: Seq<int>)
    requires
        config.mode == PassMode::Validate,
        config.val_stride is None,
    ensures
        games_in(after_games(pass_start(config), sizes)) == 0,
        after_games(pass_start(config), sizes).batch_games == 0,
        after_games(pass_start(config), sizes).config == config,
    decreases sizes.len(),
{
    if sizes.len() > 0 {
        lemma_none_held_out(config, sizes.drop_last());
    }
}

/// A whole training pass and a whole validating pass over the same games use every game once:
/// the games they report add up to the games with positions, up to the limit. Game `q` is for the
/// training pass exactly where it is not held out. Without a stride the validating pass has none.
pub proof fn whole_passes_use_every_game_once(
    train: PassConfig,
    validate: PassConfig,
    sizes: Seq<int>,
)
    requires
        train.mode == PassMode::Train,
        validate == (PassConfig { mode: PassMode::Validate, ..train }),
    ensures
        after_end(after_games(pass_start(train), sizes)).games + after_end(
            after_games(pass_start(validate), sizes),
        ).games == games_looked_at(train, sizes),
        forall|q: int|
            #![trigger takes(train, q)]
            #![trigger takes(validate, q)]
            takes(train, q) == !held_out(q, train.val_stride) && takes(validate, q) == held_out(
                q,
                train.val_stride,
            ),
        train.val_stride is None ==> after_end(after_games(pass_start(validate), sizes)).games == 0,
{
    passes_take_every_game(pass_start(train), pass_start(validate), sizes);
    lemma_games_are_numbered(train, sizes);
    lemma_batch_is_counted(train, sizes);
    lemma_batch_is_counted(validate, sizes);
    if train.val_stride is None {
        lemma_none_held_out(validate, sizes);
    }
}

proof fn lemma_batch_is_counted(config: PassConfig, sizes: Seq<int>)
    ensures
        after_games(pass_start(config), sizes).batch_games >= 0,
        after_end(after_games(pass_start(config), sizes)).games == games_in(
            after_games(pass_start(config), sizes),
        ),
    decreases sizes.len(),
{
    if sizes.len() > 0 {
        lemma_batch_is_counted(config, sizes.drop_last());
    }
}

/// Why a training run cannot start, or cannot go on.
#[derive(Clone, Copy, Debug, PartialEq, Eq, Structural)]
pub enum TrainingError {
    NoEpochs,
    NoGamesPerStep,
    /// The held-out share is not within its bounds.
    ValFraction,
    NoDataFiles,
    /// The device number is too large.
    Device,
    /// Holding games out left none to train on.
    AllHeldOut,
    /// There are no games.
    NoGames,
}

impl TrainingError {
    /// The text of the error; `val_fraction` is the share as the caller writes it.
    pub open spec fn text(self, val_fraction: Seq<char>) -> Seq<char> {
        match self {
            TrainingError::NoEpochs => "--epochs must be >= 1"@,
            TrainingError::NoGamesPerStep => "--games-per-step must be >= 1"@,
            TrainingError::ValFraction => {
                "--val-fraction must be within 0.0..=0.5 (got "@ + val_fraction
                    + "); 0.0 disables held-out validation"@
            },
            TrainingError::NoDataFiles => "--data is required (comma-separated PSV files)"@,
            TrainingError::Device => "--device exceeds CUDA ordinal range"@,
            TrainingError::AllHeldOut => {
                "--val-fraction holdout left no training games; at least 2 games are required (raise --max-games or use a larger dataset)"@
            },
            TrainingError::NoGames => {
                "no training positions: the data files contain no non-empty games"@
            },
        }
    }

    /// The text of the error; `val_fraction` is the share as the caller writes it.
    pub fn message(&self, val_fraction: &str) -> (r: String)
        ensures
            r@ == self.text(val_fraction@),
    {
        match self {
            TrainingError::NoEpochs => "--epochs must be >= 1".to_owned(),
            TrainingError::NoGamesPerStep => "--games-per-step must be >= 1".to_owned(),
            TrainingError::ValFraction => {
                let mut out = "--val-fraction must be within 0.0..=0.5 (got ".to_owned();
                out.append(val_fraction);
                out.append("); 0.0 disables held-out validation");
                out
            },
            TrainingError::NoDataFiles => {
                "--data is required (comma-separated PSV files)".to_owned()
            },
            TrainingError::Device => "--device exceeds CUDA ordinal range".to_owned(),
            TrainingError::AllHeldOut => {
                "--val-fraction holdout left no training games; at least 2 games are required (raise --max-games or use a larger dataset)".to_owned()
            },
            TrainingError::NoGames => {
                "no training positions: the data files contain no non-empty games".to_owned()
            },
        }
    }
}

/// Checks the arguments of a training run that stand before its data is opened.
/// `val_fraction_valid` says whether the held-out share is a number from 0 to one half.
pub fn check_training_args(
    epochs: usize,
    games_per_step: usize,
    val_fraction_valid: bool,
    data_files: usize,
) -> (r: Result<(), TrainingError>)
    ensures
        r == if epochs == 0 {
            Err::<(), TrainingError>(TrainingError::NoEpochs)
        } else if games_per_step == 0 {
            Err(TrainingError::NoGamesPerStep)
        } else if !val_fraction_valid {
            Err(TrainingError::ValFraction)
        } else if data_files == 0 {
            Err(TrainingError::NoDataFiles)
        } else {
            Ok(())
        },
{
    if epochs == 0 {
        return Err(TrainingError::NoEpochs);
    }
    if games_per_step == 0 {
        return Err(TrainingError::NoGamesPerStep);
    }
    if !val_fraction_valid {
        return Err(TrainingError::ValFraction);
    }
    if data_files == 0 {
        return Err(TrainingError::NoDataFiles);
    }
    Ok(())
}

/// The device number in the type that the driver takes.
pub fn device_ordinal(device: usize) -> (r: Result<i32, TrainingError>)
    ensures
        r == if device <= i32::MAX {
            Ok::<i32, TrainingError>(device as i32)
        } else {
            Err(TrainingError::Device)
        },
{
    if device <= i32::MAX as usize {
        Ok(device as i32)
    } else {
        Err(TrainingError::Device)
    }
}

/// What the driver of a training run does next.
#[derive(Clone, Copy, Debug, PartialEq, Eq, Structural)]
pub enum EpochAction {
    /// Run the training pass of an epoch.
    Train { epoch: usize },
    /// Run the validating pass of an epoch.
    Validate { epoch: usize },
    /// Write the checkpoint of an epoch.
    Checkpoint { epoch: usize },
    /// Write the final weights.
    Finish,
}

/// What comes after an action, or why nothing does.
pub open spec fn action_after(
    done: EpochAction,
    samples: int,
    epochs: int,
    val_enabled: bool,
) -> Result<EpochAction, TrainingError> {
    match done {
        EpochAction::Train { epoch } => if samples == 0 && val_enabled {
            Err(TrainingError::AllHeldOut)
        } else if samples == 0 {
            Err(TrainingError::NoGames)
        } else if val_enabled {
            Ok(EpochAction::Validate { epoch })
        } else {
            Ok(EpochAction::Checkpoint { epoch })
        },
        EpochAction::Validate { epoch } => Ok(EpochAction::Checkpoint { epoch }),
        EpochAction::Checkpoint { epoch } => if epoch < epochs {
            Ok(EpochAction::Train { epoch: (epoch + 1) as usize })
        } else {
            Ok(EpochAction::Finish)
        },
        EpochAction::Finish => Ok(EpochAction::Finish),
    }
}

/// What comes after an action. An epoch is trained, then validated where games are held out, then
/// its checkpoint is written. `samples` are the positions that a training pass saw: without any,
/// the run ends before untrained weights are written.
pub fn next_action(
    done: EpochAction,
    samples: usize,
    epochs: usize,
    val_enabled: bool,
) -> (r: Result<EpochAction, TrainingError>)
    ensures
        r == action_after(done, samples as int, epochs as int, val_enabled),
{
    match done {
        EpochAction::Train { epoch } => {
            if samples == 0 {
                return Err(
                    if val_enabled {
                        TrainingError::AllHeldOut
                    } else {
                        TrainingError::NoGames
                    },
                );
            }
            if val_enabled {
                Ok(EpochAction::Validate { epoch })
            } else {
                Ok(EpochAction::Checkpoint { epoch })
            }
        },
        EpochAction::Validate { epoch } => Ok(EpochAction::Checkpoint { epoch }),
        EpochAction::Checkpoint { epoch } => if epoch < epochs {
            Ok(EpochAction::Train { epoch: epoch + 1 })
        } else {
            Ok(EpochAction::Finish)
        },
        EpochAction::Finish => Ok(EpochAction::Finish),
    }
}

/// The last place of a character, counted from the end of the first `n` characters.
pub open spec fn last_place(s: Seq<char>, c: char, n: nat) -> Option<int>
    decreases n,
{
    if n == 0 {
        None
    } else if s[n - 1] == c {
        Some(n - 1)
    } else {
        last_place(s, c, (n - 1) as nat)
    }
}

/// A path without what stands behind its last part and names nothing: slashes, and dots behind
/// slashes. The slash of the root stays.
pub open spec fn trimmed(path: Seq<char>) -> Seq<char>
    decreases path.len(),
{
    if path.len() > 1 && (path.last() == '/' || (path.last() == '.' && path[path.len() - 2]
        == '/')) {
        trimmed(path.drop_last())
    } else {
        path
    }
}

/// Where the last part of a path starts: behind its last slash.
pub open spec fn name_start(path: Seq<char>) -> int {
    match last_place(path, '/', path.len()) {
        Some(k) => k + 1,
        None => 0,
    }
}

/// The last part of a path.
pub open spec fn last_part(path: Seq<char>) -> Seq<char> {
    trimmed(path).skip(name_start(trimmed(path)))
}

/// Whether a path ends in the name of a file: not in the root, the directory itself, or the one
/// above.
pub open spec fn names_file(path: Seq<char>) -> bool {
    let name = last_part(path);
    name.len() > 0 && name != seq!['.'] && name != seq!['.', '.']
}

/// Where the extension of a file name starts, at its dot. A name that only starts with a dot has
/// none.
pub open spec fn extension_start(name: Seq<char>) -> int {
    match last_place(name, '.', name.len()) {
        Some(k) => if k > 0 {
            k
        } else {
            name.len() as int
        },
        None => name.len() as int,
    }
}

/// The path of an epoch's checkpoint: `.e` and the epoch stand before the extension of the file
/// name. A path that names no file gets a name of its own.
pub open spec fn checkpoint_path(output: Seq<char>, epoch: nat) -> Seq<char> {
    let mark = ".e"@ + decimal(epoch);
    let name = last_part(output);
    let dir = trimmed(trimmed(output).take(name_start(trimmed(output))));
    if names_file(output) {
        joined(dir, marked_name(name, epoch))
    } else {
        joined(output, mark)
    }
}

/// The length of the first `n` characters of a path without what names nothing behind them.
fn trimmed_len(path: &Vec<char>, n: usize) -> (r: usize)
    requires
        n <= path@.len(),
    ensures
        r <= n,
        path@.take(r as int) == trimmed(path@.take(n as int)),
{
    let mut k: usize = n;
    while k > 1 && (path[k - 1] == '/' || (path[k - 1] == '.' && path[k - 2] == '/'))
        invariant
            k <= n <= path@.len(),
            trimmed(path@.take(k as int)) == trimmed(path@.take(n as int)),
        decreases k,
    {
        assert(path@.take(k as int).drop_last() =~= path@.take(k - 1));
        k -= 1;
    }
    k
}

/// The last place of a character in `from..to`, counted from `from`.
fn find_last(s: &Vec<char>, c: char, from: usize, to: usize) -> (r: Option<usize>)
    requires
        from <= to <= s@.len(),
    ensures
        match last_place(s@.subrange(from as int, to as int), c, (to - from) as nat) {
            Some(k) => r == Some(k as usize) && 0 <= k < to - from,
            None => r is None,
        },
{
    let ghost part = s@.subrange(from as int, to as int);
    let mut n: usize = to;
    while n > from
        invariant
            from <= n <= to <= s@.len(),
            part == s@.subrange(from as int, to as int),
            last_place(part, c, (to - from) as nat) == last_place(part, c, (n - from) as nat),
        decreases n,
    {
        assert(part[n - from - 1] == s@[n - 1]);
        if s[n - 1] == c {
            return Some(n - 1 - from);
        }
        n -= 1;
    }
    None
}

/// Where the last part of a path stands: its first character, and the first behind it.
fn last_part_at(chars: &Vec<char>) -> (r: (usize, usize))
    ensures
        r.0 <= r.1 <= chars@.len(),
        chars@.take(r.1 as int) == trimmed(chars@),
        r.0 == name_start(trimmed(chars@)),
        chars@.subrange(r.0 as int, r.1 as int) == last_part(chars@),
{
    let len: usize = chars.len();
    assert(chars@.take(len as int) =~= chars@);
    let end: usize = trimmed_len(chars, len);
    let ghost whole = chars@.take(end as int);
    assert(chars@.subrange(0, end as int) =~= whole);
    let start: usize = match find_last(chars, '/', 0, end) {
        Some(k) => k + 1,
        None => 0,
    };
    assert(chars@.subrange(start as int, end as int) =~= whole.skip(start as int));
    (start, end)
}

/// Whether the last part of a path, at `start..end`, is the name of a file.
fn is_file_name(chars: &Vec<char>, start: usize, end: usize) -> (r: bool)
    requires
        start <= end <= chars@.len(),
        chars@.subrange(start as int, end as int) == last_part(chars@),
    ensures
        r == names_file(chars@),
{
    let ghost name = last_part(chars@);
    let n: usize = end - start;
    assert(n == name.len());
    assert(n == 1 ==> name[0] == chars@[start as int]);
    assert(n == 2 ==> name[0] == chars@[start as int] && name[1] == chars@[start + 1]);
    let dots = (n == 1 && chars[start] == '.') || (n == 2 && chars[start] == '.' && chars[start
        + 1] == '.');
    proof {
        if dots && n == 1 {
            assert(name =~= seq!['.']);
        }
        if dots && n == 2 {
            assert(name =~= seq!['.', '.']);
        }
        if name == seq!['.'] {
            assert(name[0] == '.');
        }
        if name == seq!['.', '.'] {
            assert(name[0] == '.' && name[1] == '.');
        }
    }
    n > 0 && !dots
}

/// A file name with the mark of an epoch before its extension.
pub open spec fn marked_name(name: Seq<char>, epoch: nat) -> Seq<char> {
    name.take(extension_start(name)) + (".e"@ + decimal(epoch)) + name.skip(extension_start(name))
}

/// The file name at `start..end` of a path, with the mark of an epoch before its extension.
fn mark_name(path: &str, chars: &Vec<char>, start: usize, end: usize, epoch: usize) -> (r: String)
    requires
        chars@ == path@,
        start <= end <= chars@.len(),
    ensures
        r@ == marked_name(chars@.subrange(start as int, end as int), epoch as nat),
{
    let ghost name = chars@.subrange(start as int, end as int);
    let n: usize = end - start;
    let dot: usize = match find_last(chars, '.', start, end) {
        Some(k) => if k > 0 {
            k
        } else {
            n
        },
        None => n,
    };
    assert(dot == extension_start(name));
    let mut file = path.substring_char(start, start + dot).to_owned();
    file.append(".e");
    push_decimal(&mut file, epoch as u64);
    file.append(path.substring_char(start + dot, end));
    assert(path@.subrange(start as int, start + dot) =~= name.take(dot as int));
    assert(path@.subrange(start + dot, end as int) =~= name.skip(dot as int));
    assert(file@ =~= marked_name(name, epoch as nat));
    file
}

/// The path of an epoch's checkpoint.
pub fn epoch_checkpoint_path(output: &str, epoch: usize) -> (r: String)
    ensures
        r@ == checkpoint_path(output@, epoch as nat),
{
    let chars = chars_of(output);
    let (start, end) = last_part_at(&chars);
    if !is_file_name(&chars, start, end) {
        let mut mark = ".e".to_owned();
        push_decimal(&mut mark, epoch as u64);
        return join_path(output, mark.as_str());
    }
    let dir: usize = trimmed_len(&chars, start);
    let file = mark_name(output, &chars, start, end, epoch);
    assert(trimmed(output@).take(start as int) =~= chars@.take(start as int));
    assert(output@.subrange(0, dir as int) =~= chars@.take(dir as int));
    join_path(output.substring_char(0, dir), file.as_str())
}

/// Which games are held out: with a stride of `n` the first game and then every `n`-th one, so one
/// in any `n` games that follow each other; without a stride none.
pub proof fn one_game_in_every_stride_is_held_out(q: int, k: int, n: u64)
    requires
        0 <= q,
        0 < k < n,
    ensures
        held_out(0, Some(n)),
        !held_out(k, Some(n)),
        held_out(q + n, Some(n)) <==> held_out(q, Some(n)),
        held_out(q, Some(n)) ==> !held_out(q + k, Some(n)),
        !held_out(q, None),
        held_out(0, Some(0)) && !held_out(q + 1, Some(0)),
{
    let m = n as int;
    vstd::arithmetic::div_mod::lemma_small_mod(k as nat, n as nat);
    vstd::arithmetic::div_mod::lemma_mod_add_multiples_vanish(q, m);
    vstd::arithmetic::div_mod::lemma_add_mod_noop(q, k, m);
    vstd::arithmetic::div_mod::lemma_mod_bound(q, m);
    vstd::arithmetic::div_mod::lemma_small_mod(0, n as nat);
}

/// The positions of the games that a pass looks at.
pub open spec fn positions_looked_at(config: PassConfig, sizes: Seq<int>) -> int
    decreases sizes.len(),
{
    if sizes.len() == 0 {
        0
    } else {
        positions_looked_at(config, sizes.drop_last()) + if config.max_games > 0
            && games_with_positions(sizes.drop_last()) >= config.max_games {
            0int
        } else {
            sizes.last()
        }
    }
}

/// The positions that a training pass and a validating pass report add up to the positions of the
/// games looked at: no game is left out of a step, and none is counted twice.
pub proof fn whole_passes_count_every_position_once(
    train: PassConfig,
    validate: PassConfig,
    sizes: Seq<int>,
)
    requires
        train.mode == PassMode::Train,
        validate == (PassConfig { mode: PassMode::Validate, ..train }),
        train.games_per_step >= 1,
    ensures
        after_end(after_games(pass_start(train), sizes)).samples + after_end(
            after_games(pass_start(validate), sizes),
        ).samples == positions_looked_at(train, sizes),
{
    lemma_positions_add_up(train, validate, sizes);
    lemma_steps_are_full(train, sizes);
    lemma_steps_are_full(validate, sizes);
}

proof fn lemma_positions_add_up(train: PassConfig, validate: PassConfig, sizes: Seq<int>)
    requires
        train.mode == PassMode::Train,
        validate == (PassConfig { mode: PassMode::Validate, ..train }),
    ensures
        ({
            let a = after_games(pass_start(train), sizes);
            let b = after_games(pass_start(validate), sizes);
            a.samples + a.batch_positions + b.samples + b.batch_positions == positions_looked_at(
                train,
                sizes,
            )
        }),
    decreases sizes.len(),
{
    if sizes.len() > 0 {
        let before = sizes.drop_last();
        lemma_positions_add_up(train, validate, before);
        lemma_games_are_numbered(train, before);
        lemma_games_are_numbered(validate, before);
        passes_split_the_games(train, validate, after_games(pass_start(train), before).game_seq);
    }
}

proof fn lemma_steps_are_full(config: PassConfig, sizes: Seq<int>)
    requires
        config.games_per_step >= 1,
    ensures
        ({
            let s = after_games(pass_start(config), sizes);
            &&& s.config == config
            &&& s.games == s.steps * config.games_per_step
            &&& 0 <= s.batch_games < config.games_per_step
            &&& s.batch_games == 0 ==> s.batch_positions == 0
        }),
    decreases sizes.len(),
{
    if sizes.len() > 0 {
        lemma_steps_are_full(config, sizes.drop_last());
        let s = after_games(pass_start(config), sizes.drop_last());
        let n = config.games_per_step as int;
        assert((s.steps + 1) * n == s.steps * n + n) by (nonlinear_arith);
    } else {
        let n = config.games_per_step as int;
        assert(0 * n == 0) by (nonlinear_arith);
    }
}

/// Every step but the last one of a pass has as many games as were asked for, and the last has at
/// least one. A training pass reports after every so many steps, where it reports at all.
pub proof fn steps_have_their_games(config: PassConfig, sizes: Seq<int>, size: int)
    requires
        config.games_per_step >= 1,
    ensures
        ({
            let s = after_games(pass_start(config), sizes);
            let end = after_end(s);
            let n = config.games_per_step as int;
            &&& s.games == s.steps * n
            &&& (end.steps - 1) * n < end.games <= end.steps * n
            &&& game_action(s, size) matches GameAction::PushAndRun { log } ==> {
                &&& s.batch_games + 1 == n
                &&& log <==> config.mode == PassMode::Train && config.log_interval_steps > 0 && (
                s.steps + 1) % config.log_interval_steps as int == 0
            }
            &&& game_action(s, size) is Push ==> s.batch_games + 1 < n
        }),
{
    lemma_steps_are_full(config, sizes);
    let s = after_games(pass_start(config), sizes);
    let n = config.games_per_step as int;
    assert((s.steps + 1) * n == s.steps * n + n) by (nonlinear_arith);
    assert((s.steps - 1) * n == s.steps * n - n) by (nonlinear_arith);
}

/// What becomes of a game: one without positions is passed over, the limit ends the pass, and of
/// the others a pass takes those of its own side.
pub proof fn games_are_taken_or_passed_over(s: PassState, positions: int)
    ensures
        game_action(s, positions) is Ignore <==> positions == 0,
        game_action(s, positions) is Stop <==> positions != 0 && s.config.max_games > 0
            && s.game_seq >= s.config.max_games,
        game_action(s, positions) is Push || game_action(s, positions) is PushAndRun ==> (held_out(
            s.game_seq,
            s.config.val_stride,
        ) <==> s.config.mode == PassMode::Validate),
        game_action(s, positions) is Skip ==> (held_out(s.game_seq, s.config.val_stride)
            <==> s.config.mode == PassMode::Train),
{
}

proof fn lemma_last_place(s: Seq<char>, c: char, n: nat)
    requires
        n <= s.len(),
    ensures
        match last_place(s, c, n) {
            Some(k) => 0 <= k < n && s[k] == c && forall|j: int| k < j < n ==> s[j] != c,
            None => forall|j: int| 0 <= j < n ==> s[j] != c,
        },
    decreases n,
{
    if n > 0 {
        lemma_last_place(s, c, (n - 1) as nat);
    }
}

/// The number of an epoch goes between the stem of a file name and its extension: the extension
/// begins with the last dot, but not with a dot that begins the name. Different epochs have
/// different names.
pub proof fn epochs_are_marked_before_the_extension(name: Seq<char>, a: nat, b: nat)
    requires
        name.len() > 0,
    ensures
        ({
            let k = extension_start(name);
            let (stem, ext) = (name.take(k), name.skip(k));
            &&& 0 < k <= name.len()
            &&& stem + ext == name
            &&& ext.len() > 0 ==> ext[0] == '.' && forall|j: int| 0 < j < ext.len() ==> ext[j] != '.'
            &&& ext.len() == 0 ==> forall|j: int| 0 < j < name.len() ==> name[j] != '.'
            &&& marked_name(name, a) == stem + ".e"@ + decimal(a) + ext
        }),
        marked_name(name, a) == marked_name(name, b) ==> a == b,
{
    lemma_last_place(name, '.', name.len());
    let k = extension_start(name);
    let (stem, ext) = (name.take(k), name.skip(k));
    assert(stem + ext =~= name);
    assert forall|j: int| 0 < j < ext.len() implies ext[j] != '.' by {
        assert(ext[j] == name[k + j]);
    }
    assert(marked_name(name, a) =~= stem + ".e"@ + decimal(a) + ext);
    if marked_name(name, a) == marked_name(name, b) {
        let (x, y) = (stem + ".e"@ + decimal(a), stem + ".e"@ + decimal(b));
        assert(marked_name(name, b) =~= y + ext);
        assert(x.len() == y.len());
        crate::text::lemma_sums(x, ext, y, ext);
        crate::text::lemma_sums(stem + ".e"@, decimal(a), stem + ".e"@, decimal(b));
        crate::text::lemma_decimal_injective(a, b);
    }
}

/// The actions of a run in which every training pass sees positions: each epoch, from the first to
/// the last, is trained, validated where games are held out, and its checkpoint written; then the
/// run finishes and stays so. A training pass that sees none ends the run.
pub proof fn epochs_run_in_turn(
    actions: Seq<EpochAction>,
    samples: Seq<int>,
    epochs: int,
    val_enabled: bool,
    i: int,
)
    requires
        1 <= epochs <= usize::MAX,
        samples.len() == actions.len(),
        0 <= i < actions.len(),
        actions[0] == (EpochAction::Train { epoch: 1 }),
        forall|k: int|
            0 <= k < actions.len() - 1 ==> Ok::<EpochAction, TrainingError>(actions[k + 1])
                == #[trigger] action_after(actions[k], samples[k], epochs, val_enabled),
    ensures
        ({
            let parts = if val_enabled {
                3int
            } else {
                2
            };
            let epoch = (i / parts + 1) as usize;
            actions[i] == if i / parts >= epochs {
                EpochAction::Finish
            } else if i % parts == 0 {
                EpochAction::Train { epoch }
            } else if i % parts == parts - 1 {
                EpochAction::Checkpoint { epoch }
            } else {
                EpochAction::Validate { epoch }
            }
        }),
        actions[i] is Train ==> action_after(actions[i], 0, epochs, val_enabled) is Err,
        i + 1 < actions.len() && actions[i] is Train ==> samples[i] != 0,
    decreases i,
{
    if i > 0 {
        epochs_run_in_turn(actions, samples, epochs, val_enabled, i - 1);
        assert(Ok::<EpochAction, TrainingError>(actions[i - 1 + 1]) == action_after(
            actions[i - 1],
            samples[i - 1],
            epochs,
            val_enabled,
        ));
    }
    if i + 1 < actions.len() {
        assert(Ok::<EpochAction, TrainingError>(actions[i + 1]) == action_after(
            actions[i],
            samples[i],
            epochs,
            val_enabled,
        ));
    }
}

/// The checkpoint of an epoch lies beside the output, under the marked name of the output's file.
pub proof fn checkpoints_lie_beside_the_output(dir: Seq<char>, name: Seq<char>, epoch: nat)
    requires
        name.len() > 0,
        name != seq!['.'],
        name != seq!['.', '.'],
        forall|k: int| 0 <= k < name.len() ==> name[k] != '/',
    ensures
        checkpoint_path(name, epoch) == marked_name(name, epoch),
        dir.len() > 0 && dir.last() != '/' && dir.last() != '.' ==> checkpoint_path(
            dir + seq!['/'] + name,
            epoch,
        ) == dir + seq!['/'] + marked_name(name, epoch),
        checkpoint_path(seq!['/'] + name, epoch) == seq!['/'] + marked_name(name, epoch),
{
    reveal_strlit("/");
    lemma_named_file(Seq::empty(), name);
    assert(Seq::<char>::empty() + name =~= name);
    let rooted = seq!['/'] + name;
    lemma_named_file(seq!['/'], name);
    assert(rooted.take(1) =~= seq!['/']);
    assert(trimmed(seq!['/']) == seq!['/']);
    if dir.len() > 0 && dir.last() != '/' && dir.last() != '.' {
        let front = dir + seq!['/'];
        lemma_named_file(front, name);
        assert(front.drop_last() =~= dir);
        assert(trimmed(dir) == dir);
        assert(trimmed(front) == dir);
        assert((front + name).take(front.len() as int) =~= front);
        assert("/"@ =~= seq!['/']);
    }
}

/// A path that ends in the name of a file, taken apart.
proof fn lemma_named_file(front: Seq<char>, name: Seq<char>)
    requires
        name.len() > 0,
        name != seq!['.'],
        forall|k: int| 0 <= k < name.len() ==> name[k] != '/',
        front.len() > 0 ==> front.last() == '/',
    ensures
        trimmed(front + name) == front + name,
        name_start(front + name) == front.len(),
        last_part(front + name) == name,
{
    let path = front + name;
    assert(path.last() == name.last());
    if path.last() == '.' {
        if name.len() == 1 {
            assert(name =~= seq!['.']);
        } else {
            assert(path[path.len() - 2] == name[name.len() - 2]);
        }
    }
    lemma_last_place(path, '/', path.len());
    match last_place(path, '/', path.len()) {
        Some(k) => {
            if k >= front.len() {
                assert(path[k] == name[k - front.len()]);
            }
            if front.len() > 0 {
                assert(path[front.len() - 1] == '/');
            }
        },
        None => {
            if front.len() > 0 {
                assert(path[front.len() - 1] == '/');
            }
        },
    }
    assert(path.skip(front.len() as int) =~= name);
}

/// At the end of a pass no game waits: those that did are counted, and made one step.
pub proof fn no_game_waits_after_the_end(s: PassState)
    requires
        s.batch_games >= 0,
        s.batch_games == 0 ==> s.batch_positions == 0,
    ensures
        after_end(s).batch_games == 0,
        after_end(s).batch_positions == 0,
        after_end(s).games == s.games + s.batch_games,
        after_end(s).samples == s.samples + s.batch_positions,
        after_end(s).steps - s.steps == (if s.batch_games == 0 {
            0int
        } else {
            1int
        }),
        after_end(s).game_seq == s.game_seq,
{
}

} // verus!
