//! One daemon at a time.
//!
//! Running the program always starts the scheduler and opens the settings window, so a
//! second run must see that a daemon is already there, or two schedulers ring together.
//! The daemon role is claimed with a pid file created exclusively; whether its holder is
//! alive is read from `/proc/<pid>/comm`. The file system work is done by the caller; the
//! decisions are made here.

use vstd::prelude::*;
use crate::text::{
    chars_of, decimal_string, decimal_text, is_digit, is_white_space, parse_u32, parse_u32_text,
    trim, trim_chars, leading_space, trailing_space,
};

verus! {

/// The process name of the program, as `/proc/<pid>/comm` shows it (it keeps at most 15
/// characters; this name is shorter).
pub open spec fn process_name() -> Seq<char> {
    "nap-alarm"@
}

/// Whether the `comm` file of a process names this program.
pub fn is_daemon_comm(comm: &str) -> (r: bool)
    ensures
        r == (trim(comm@) == process_name()),
{
    let name = trim_chars(&chars_of(comm));
    let expected = chars_of("nap-alarm");
    let mut same = name.len() == expected.len();
    let mut i: usize = 0;
    while same && i < name.len()
        invariant
            same ==> name.len() == expected.len(),
            i <= name.len(),
            same ==> forall|j: int| 0 <= j < i ==> name@[j] == expected@[j],
            !same ==> name@ != expected@,
        decreases name.len() - i,
    {
        if name[i] != expected[i] {
            same = false;
        }
        i = i + 1;
    }
    proof {
        if same {
            assert(name@ =~= expected@);
        }
    }
    same
}

/// The pid a pid file holds: its text without surrounding white space, read as a `u32`.
pub open spec fn pid_in_text(text: Seq<char>) -> Option<u32> {
    parse_u32_text(trim(text))
}

/// Reads the pid a pid file holds.
pub fn parse_pid(text: &str) -> (pid: Option<u32>)
    ensures
        pid == pid_in_text(text@),
{
    parse_u32(&trim_chars(&chars_of(text)))
}

/// What a pid file holds: the pid in decimal.
pub fn pid_text(pid: u32) -> (text: String)
    ensures
        text@ == decimal_text(pid as nat),
{
    decimal_string(pid as u64)
}

proof fn lemma_trim_digits(s: Seq<char>)
    requires
        s.len() >= 1,
        forall|i: int| 0 <= i < s.len() ==> is_digit(#[trigger] s[i]),
    ensures
        trim(s) == s,
{
    assert(!is_white_space(s[0]));
    assert(leading_space(s) == 0);
    assert(s.skip(0) =~= s);
    assert(!is_white_space(s.last()));
    assert(trailing_space(s) == 0);
    assert(s.take(s.len() as int) =~= s);
}

/// The pid written into a pid file is the pid read back from it.
pub proof fn lemma_pid_round_trip(pid: u32)
    ensures
        pid_in_text(decimal_text(pid as nat)) == Some(pid),
{
    crate::text::lemma_parse_decimal_text(pid);
    crate::text::lemma_decimal_text_all_digits(pid as nat);
    lemma_trim_digits(decimal_text(pid as nat));
}

/// The next thing to do while claiming the daemon role.
///
/// The pid file is never created empty: the pid is written to a file of this process's
/// own and that file is linked into place, which fails when a pid file exists. A pid file
/// judged stale is not removed by its path, which could by then name a newer file: it is
/// first moved aside to a name of this process's own, and removed only if it is still the
/// file that was judged; anything else is put back.
pub enum ClaimStep {
    /// Write our pid to a file of our own and link it into place as the pid file.
    Publish { round: u8 },
    /// Read the pid file that was already there.
    ReadHolder { round: u8 },
    /// Find out whether process `pid`, named by the pid file text `seen`, is a running
    /// daemon.
    CheckAlive { round: u8, pid: u32, seen: String },
    /// Move the pid file, judged stale from its text `seen` (`None`: it could not be read),
    /// aside to a name of our own.
    SetAside { round: u8, seen: Option<String> },
    /// Remove the file moved aside: it was the stale one.
    Discard { round: u8 },
    /// Link the file moved aside back into place: it was not the stale one.
    PutBack { round: u8 },
    /// Finished: whether this process now holds the daemon role.
    Done(bool),
}

/// The mathematical content of a [`ClaimStep`].
pub enum ClaimStepView {
    Publish { round: u8 },
    ReadHolder { round: u8 },
    CheckAlive { round: u8, pid: u32, seen: Seq<char> },
    SetAside { round: u8, seen: Option<Seq<char>> },
    Discard { round: u8 },
    PutBack { round: u8 },
    Done(bool),
}

impl View for ClaimStep {
    type V = ClaimStepView;

    open spec fn view(&self) -> ClaimStepView {
        match self {
            ClaimStep::Publish { round } => ClaimStepView::Publish { round: *round },
            ClaimStep::ReadHolder { round } => ClaimStepView::ReadHolder { round: *round },
            ClaimStep::CheckAlive { round, pid, seen } => ClaimStepView::CheckAlive {
                round: *round,
                pid: *pid,
                seen: seen@,
            },
            ClaimStep::SetAside { round, seen } => ClaimStepView::SetAside {
                round: *round,
                seen: match seen {
                    Some(t) => Some(t@),
                    None => None,
                },
            },
            ClaimStep::Discard { round } => ClaimStepView::Discard { round: *round },
            ClaimStep::PutBack { round } => ClaimStepView::PutBack { round: *round },
            ClaimStep::Done(b) => ClaimStepView::Done(*b),
        }
    }
}

/// What doing a step turned up.
pub enum ClaimEvent {
    /// The pid file now exists and holds our pid.
    Published,
    /// A pid file already exists.
    AlreadyExists,
    /// Our pid could not be put into a pid file for another reason.
    PublishFailed,
    /// The text of the pid file, or `None` when it could not be read.
    HolderRead(Option<String>),
    /// Whether the holder is a running daemon.
    Alive(bool),
    /// The pid file was moved aside; the text of the file moved aside, if it could be read.
    SetAside(Option<String>),
    /// There was no pid file to move aside.
    Gone,
    /// The file moved aside was removed.
    Discarded,
    /// The file moved aside is back in place (or could not be put back).
    PutBack,
}

/// The mathematical content of a [`ClaimEvent`].
pub enum ClaimEventView {
    Published,
    AlreadyExists,
    PublishFailed,
    HolderRead(Option<Seq<char>>),
    Alive(bool),
    SetAside(Option<Seq<char>>),
    Gone,
    Discarded,
    PutBack,
}

impl View for ClaimEvent {
    type V = ClaimEventView;

    open spec fn view(&self) -> ClaimEventView {
        match self {
            ClaimEvent::Published => ClaimEventView::Published,
            ClaimEvent::AlreadyExists => ClaimEventView::AlreadyExists,
            ClaimEvent::PublishFailed => ClaimEventView::PublishFailed,
            ClaimEvent::HolderRead(text) => ClaimEventView::HolderRead(
                match text {
                    Some(t) => Some(t@),
                    None => None,
                },
            ),
            ClaimEvent::Alive(b) => ClaimEventView::Alive(*b),
            ClaimEvent::SetAside(text) => ClaimEventView::SetAside(
                match text {
                    Some(t) => Some(t@),
                    None => None,
                },
            ),
            ClaimEvent::Gone => ClaimEventView::Gone,
            ClaimEvent::Discarded => ClaimEventView::Discarded,
            ClaimEvent::PutBack => ClaimEventView::PutBack,
        }
    }
}

/// How many times the pid file is tried: once, and once more after clearing a stale one.
pub const CLAIM_ROUNDS: u8 = 2;

/// The first step of a claim.
pub fn claim_start() -> (step: ClaimStep)
    ensures
        step@ == (ClaimStepView::Publish { round: 0 }),
{
    ClaimStep::Publish { round: 0 }
}

/// The step that starts round `round + 1`, or the end when no round is left.
pub open spec fn next_round(round: u8) -> ClaimStepView {
    if round + 1 < CLAIM_ROUNDS {
        ClaimStepView::Publish { round: (round + 1) as u8 }
    } else {
        ClaimStepView::Done(false)
    }
}

/// The step after `step` turned up `event`. A holder that is a running daemon keeps the
/// role. A pid file that cannot be read, whose text names no pid, or whose pid is not a
/// running daemon, is stale: it is moved aside, removed if it is still the file judged (the
/// same text, or again unreadable), put back otherwise, and the pid file is tried once
/// more. An event that does not answer the step ends the
/// claim unsuccessfully.
pub open spec fn claim_next_spec(step: ClaimStepView, event: ClaimEventView) -> ClaimStepView {
    match (step, event) {
        (ClaimStepView::Publish { round: _ }, ClaimEventView::Published) => ClaimStepView::Done(true),
        (ClaimStepView::Publish { round }, ClaimEventView::AlreadyExists) => ClaimStepView::ReadHolder { round },
        (ClaimStepView::Publish { round: _ }, ClaimEventView::PublishFailed) => ClaimStepView::Done(false),
        (ClaimStepView::ReadHolder { round }, ClaimEventView::HolderRead(text)) => match text {
            Some(t) => match pid_in_text(t) {
                Some(pid) => ClaimStepView::CheckAlive { round, pid, seen: t },
                None => ClaimStepView::SetAside { round, seen: Some(t) },
            },
            None => ClaimStepView::SetAside { round, seen: None },
        },
        (ClaimStepView::CheckAlive { round, pid: _, seen }, ClaimEventView::Alive(alive)) => if alive {
            ClaimStepView::Done(false)
        } else {
            ClaimStepView::SetAside { round, seen: Some(seen) }
        },
        (ClaimStepView::SetAside { round, seen }, ClaimEventView::SetAside(text)) => if text == seen {
            ClaimStepView::Discard { round }
        } else {
            ClaimStepView::PutBack { round }
        },
        (ClaimStepView::SetAside { round, seen: _ }, ClaimEventView::Gone) => next_round(round),
        (ClaimStepView::Discard { round }, ClaimEventView::Discarded) => next_round(round),
        (ClaimStepView::PutBack { round }, ClaimEventView::PutBack) => next_round(round),
        (ClaimStepView::Done(b), _) => ClaimStepView::Done(b),
        _ => ClaimStepView::Done(false),
    }
}

fn next_round_step(round: u8) -> (step: ClaimStep)
    ensures
        step@ == next_round(round),
{
    if round < CLAIM_ROUNDS - 1 {
        ClaimStep::Publish { round: round + 1 }
    } else {
        ClaimStep::Done(false)
    }
}

/// The step after `step` turned up `event`.
pub fn claim_next(step: &ClaimStep, event: ClaimEvent) -> (next: ClaimStep)
    ensures
        next@ == claim_next_spec(step@, event@),
{
    match (step, event) {
        (ClaimStep::Publish { .. }, ClaimEvent::Published) => ClaimStep::Done(true),
        (ClaimStep::Publish { round }, ClaimEvent::AlreadyExists) => ClaimStep::ReadHolder {
            round: *round,
        },
        (ClaimStep::Publish { .. }, ClaimEvent::PublishFailed) => ClaimStep::Done(false),
        (ClaimStep::ReadHolder { round }, ClaimEvent::HolderRead(text)) => match text {
            Some(t) => match parse_pid(t.as_str()) {
                Some(pid) => ClaimStep::CheckAlive { round: *round, pid, seen: t },
                None => ClaimStep::SetAside { round: *round, seen: Some(t) },
            },
            None => ClaimStep::SetAside { round: *round, seen: None },
        },
        (ClaimStep::CheckAlive { round, seen, .. }, ClaimEvent::Alive(alive)) => if alive {
            ClaimStep::Done(false)
        } else {
            ClaimStep::SetAside { round: *round, seen: Some(seen.clone()) }
        },
        (ClaimStep::SetAside { round, seen }, ClaimEvent::SetAside(text)) => {
            let same = match (&text, seen) {
                (Some(t), Some(s)) => *t == *s,
                (None, None) => true,
                _ => false,
            };
            if same {
                ClaimStep::Discard { round: *round }
            } else {
                ClaimStep::PutBack { round: *round }
            }
        },
        (ClaimStep::SetAside { round, .. }, ClaimEvent::Gone) => next_round_step(*round),
        (ClaimStep::Discard { round }, ClaimEvent::Discarded) => next_round_step(*round),
        (ClaimStep::PutBack { round }, ClaimEvent::PutBack) => next_round_step(*round),
        (ClaimStep::Done(b), _) => ClaimStep::Done(*b),
        _ => ClaimStep::Done(false),
    }
}

/// A step that a claim can reach: its round is below [`CLAIM_ROUNDS`].
pub open spec fn claim_step_ok(step: ClaimStepView) -> bool {
    match step {
        ClaimStepView::Publish { round } => round < CLAIM_ROUNDS,
        ClaimStepView::ReadHolder { round } => round < CLAIM_ROUNDS,
        ClaimStepView::CheckAlive { round, pid: _, seen: _ } => round < CLAIM_ROUNDS,
        ClaimStepView::SetAside { round, seen: _ } => round < CLAIM_ROUNDS,
        ClaimStepView::Discard { round } => round < CLAIM_ROUNDS,
        ClaimStepView::PutBack { round } => round < CLAIM_ROUNDS,
        ClaimStepView::Done(_) => true,
    }
}

/// How many steps a claim can still take at most.
pub open spec fn claim_steps_left(step: ClaimStepView) -> int {
    match step {
        ClaimStepView::Publish { round } => 12 - 6 * round,
        ClaimStepView::ReadHolder { round } => 11 - 6 * round,
        ClaimStepView::CheckAlive { round, pid: _, seen: _ } => 10 - 6 * round,
        ClaimStepView::SetAside { round, seen: _ } => 9 - 6 * round,
        ClaimStepView::Discard { round } => 8 - 6 * round,
        ClaimStepView::PutBack { round } => 8 - 6 * round,
        ClaimStepView::Done(_) => 0,
    }
}

/// A claim ends: every step before the end brings it closer, so it finishes within twelve
/// steps, after at most two tries of the pid file.
pub proof fn lemma_claim_ends(step: ClaimStepView, event: ClaimEventView)
    requires
        claim_step_ok(step),
        !(step is Done),
    ensures
        claim_step_ok(claim_next_spec(step, event)),
        0 <= claim_steps_left(claim_next_spec(step, event)) < claim_steps_left(step),
        claim_steps_left(step) <= 12,
{
}

/// The role is won only by publishing our pid in the pid file.
pub proof fn lemma_claim_won_only_by_publishing(step: ClaimStepView, event: ClaimEventView)
    requires
        !(step is Done),
        claim_next_spec(step, event) == ClaimStepView::Done(true),
    ensures
        step is Publish,
        event == ClaimEventView::Published,
{
}

/// A pid file is moved aside only when it could not be read, its text names no pid, or its
/// pid is not a running daemon; and a file moved aside is removed only when it is still the
/// file judged: the same text, or again unreadable.
pub proof fn lemma_only_stale_files_removed(step: ClaimStepView, event: ClaimEventView)
    ensures
        claim_next_spec(step, event) matches ClaimStepView::SetAside { round: _, seen } ==> (
        step is CheckAlive && event == ClaimEventView::Alive(false) && seen is Some) || (
        step is ReadHolder && event == ClaimEventView::HolderRead(seen) && (seen matches Some(
            t,
        ) ==> pid_in_text(t) is None)),
        claim_next_spec(step, event) is Discard && !(step is Done) ==> (step matches ClaimStepView::SetAside {
            round: _,
            seen,
        } && event == ClaimEventView::SetAside(seen)),
{
}

// ---------------------------------------------------------------------------------------
// Two claims at once
// ---------------------------------------------------------------------------------------

/// Who made a pid file: an earlier run, or one of the two claiming processes.
pub enum Author {
    Earlier,
    First,
    Second,
}

/// A pid file: its text (`None` when it cannot be read), and (for the argument only) who
/// made it.
pub struct PidFile {
    pub text: Option<Seq<char>>,
    pub author: Author,
}

/// The text a process publishes.
pub open spec fn pid_file_text(pid: u32) -> Seq<char> {
    decimal_text(pid as nat)
}

/// What doing `step` does to the pid file, for the process `pid` that made files as
/// `author`, holding `held` (the file it moved aside, if any): the event it turns up, the
/// pid file after, and what it holds after. Each file operation is atomic: linking into
/// place fails when a pid file exists, and moving aside takes the file there, if any.
pub open spec fn claim_act(
    step: ClaimStepView,
    file: Option<PidFile>,
    held: Option<PidFile>,
    pid: u32,
    author: Author,
    alive: spec_fn(u32) -> bool,
) -> (ClaimEventView, Option<PidFile>, Option<PidFile>) {
    match step {
        ClaimStepView::Publish { round: _ } => match file {
            None => (
                ClaimEventView::Published,
                Some(PidFile { text: Some(pid_file_text(pid)), author }),
                held,
            ),
            Some(f) => (ClaimEventView::AlreadyExists, file, held),
        },
        ClaimStepView::ReadHolder { round: _ } => match file {
            None => (ClaimEventView::HolderRead(None), file, held),
            Some(f) => (ClaimEventView::HolderRead(f.text), file, held),
        },
        ClaimStepView::CheckAlive { round: _, pid: p, seen: _ } => (
            ClaimEventView::Alive(alive(p)),
            file,
            held,
        ),
        ClaimStepView::SetAside { round: _, seen: _ } => match file {
            None => (ClaimEventView::Gone, file, held),
            Some(f) => (ClaimEventView::SetAside(f.text), None, Some(f)),
        },
        ClaimStepView::Discard { round: _ } => (ClaimEventView::Discarded, file, None),
        ClaimStepView::PutBack { round: _ } => match file {
            None => (ClaimEventView::PutBack, held, None),
            Some(f) => (ClaimEventView::PutBack, file, None),
        },
        ClaimStepView::Done(_) => (ClaimEventView::Discarded, file, held),
    }
}

/// Two processes claiming the role with the same pid file.
pub struct ClaimRace {
    pub file: Option<PidFile>,
    pub first: ClaimStepView,
    pub first_held: Option<PidFile>,
    pub second: ClaimStepView,
    pub second_held: Option<PidFile>,
}

/// Both claims about to start; `earlier` is the pid file left before, if any, by its text
/// (`None` when it cannot be read).
pub open spec fn race_start(earlier: Option<Option<Seq<char>>>) -> ClaimRace {
    ClaimRace {
        file: match earlier {
            Some(t) => Some(PidFile { text: t, author: Author::Earlier }),
            None => None,
        },
        first: ClaimStepView::Publish { round: 0 },
        first_held: None,
        second: ClaimStepView::Publish { round: 0 },
        second_held: None,
    }
}

/// One step of the first process (`first_moves`) or of the second.
pub open spec fn race_step(
    r: ClaimRace,
    first_moves: bool,
    first_pid: u32,
    second_pid: u32,
    alive: spec_fn(u32) -> bool,
) -> ClaimRace {
    if first_moves {
        let (e, file, held) = claim_act(r.first, r.file, r.first_held, first_pid, Author::First, alive);
        ClaimRace { file, first: claim_next_spec(r.first, e), first_held: held, ..r }
    } else {
        let (e, file, held) = claim_act(
            r.second,
            r.file,
            r.second_held,
            second_pid,
            Author::Second,
            alive,
        );
        ClaimRace { file, second: claim_next_spec(r.second, e), second_held: held, ..r }
    }
}

/// The race after the steps in `order`: `true` moves the first process, `false` the second.
pub open spec fn race_run(
    r: ClaimRace,
    order: Seq<bool>,
    first_pid: u32,
    second_pid: u32,
    alive: spec_fn(u32) -> bool,
) -> ClaimRace
    decreases order.len(),
{
    if order.len() == 0 {
        r
    } else {
        race_run(
            race_step(r, order[0], first_pid, second_pid, alive),
            order.drop_first(),
            first_pid,
            second_pid,
            alive,
        )
    }
}

/// A pid file text that would be judged stale.
pub open spec fn is_stale(text: Seq<char>, alive: spec_fn(u32) -> bool) -> bool {
    match pid_in_text(text) {
        Some(p) => !alive(p),
        None => true,
    }
}

/// What holds of one process (`me`) against the other, at every point of the race.
pub open spec fn race_half(
    file: Option<PidFile>,
    earlier: Option<Option<Seq<char>>>,
    me: ClaimStepView,
    me_held: Option<PidFile>,
    me_pid: u32,
    me_author: Author,
    other: ClaimStepView,
    other_held: Option<PidFile>,
    other_pid: u32,
    other_author: Author,
    alive: spec_fn(u32) -> bool,
) -> bool {
    // a pid file we made means we won, and holds our pid
    &&& (file matches Some(f) ==> (f.author == me_author ==> me == ClaimStepView::Done(true)
        && f.text == Some(pid_file_text(me_pid))))
    // having won, our file is in place, or the other has it aside and is putting it back
    &&& me == ClaimStepView::Done(true) ==> (file == Some(
        PidFile { text: Some(pid_file_text(me_pid)), author: me_author },
    ) || (file is None && other is PutBack && other_held == Some(
        PidFile { text: Some(pid_file_text(me_pid)), author: me_author },
    )))
    // putting back only ever puts back the other's winning file, into an empty place
    &&& me is PutBack ==> (file is None && other == ClaimStepView::Done(true) && me_held == Some(
        PidFile { text: Some(pid_file_text(other_pid)), author: other_author },
    ))
    // a pid we check was read from the file: the earlier one, or a running process
    &&& (me matches ClaimStepView::CheckAlive { round: _, pid, seen } ==> pid_in_text(seen) == Some(
        pid,
    ) && (earlier == Some(Some(seen)) || alive(pid)))
    // a readable file judged stale was the earlier one
    &&& (me matches ClaimStepView::SetAside { round: _, seen: Some(t) } ==> earlier == Some(
        Some(t),
    ) && is_stale(t, alive))
    // the earlier file, if still in place, is the one judged stale
    &&& (me matches ClaimStepView::SetAside { round: _, seen } ==> (file is Some && file->0.author
        == Author::Earlier ==> file->0.text == seen))
    // a file left before is the earlier one
    &&& (file matches Some(f) ==> (f.author == Author::Earlier ==> earlier == Some(f.text)))
}

/// What holds at every point of the race.
pub open spec fn race_inv(
    r: ClaimRace,
    earlier: Option<Option<Seq<char>>>,
    first_pid: u32,
    second_pid: u32,
    alive: spec_fn(u32) -> bool,
) -> bool {
    &&& race_half(
        r.file,
        earlier,
        r.first,
        r.first_held,
        first_pid,
        Author::First,
        r.second,
        r.second_held,
        second_pid,
        Author::Second,
        alive,
    )
    &&& race_half(
        r.file,
        earlier,
        r.second,
        r.second_held,
        second_pid,
        Author::Second,
        r.first,
        r.first_held,
        first_pid,
        Author::First,
        alive,
    )
}

/// One step of `me` keeps what holds of both processes.
proof fn lemma_move_keeps(
    file: Option<PidFile>,
    earlier: Option<Option<Seq<char>>>,
    me: ClaimStepView,
    me_held: Option<PidFile>,
    me_pid: u32,
    me_author: Author,
    other: ClaimStepView,
    other_held: Option<PidFile>,
    other_pid: u32,
    other_author: Author,
    alive: spec_fn(u32) -> bool,
)
    requires
        me_pid != other_pid,
        me_author != other_author,
        me_author != Author::Earlier,
        other_author != Author::Earlier,
        alive(me_pid),
        alive(other_pid),
        race_half(file, earlier, me, me_held, me_pid, me_author, other, other_held, other_pid, other_author, alive),
        race_half(file, earlier, other, other_held, other_pid, other_author, me, me_held, me_pid, me_author, alive),
    ensures
        ({
            let (e, file2, held2) = claim_act(me, file, me_held, me_pid, me_author, alive);
            let me2 = claim_next_spec(me, e);
            &&& race_half(file2, earlier, me2, held2, me_pid, me_author, other, other_held, other_pid, other_author, alive)
            &&& race_half(file2, earlier, other, other_held, other_pid, other_author, me2, held2, me_pid, me_author, alive)
        }),
{
    lemma_pid_round_trip(me_pid);
    lemma_pid_round_trip(other_pid);
    assert(pid_file_text(me_pid) != pid_file_text(other_pid));
}

proof fn lemma_race_run(
    r: ClaimRace,
    order: Seq<bool>,
    earlier: Option<Option<Seq<char>>>,
    first_pid: u32,
    second_pid: u32,
    alive: spec_fn(u32) -> bool,
)
    requires
        first_pid != second_pid,
        alive(first_pid),
        alive(second_pid),
        race_inv(r, earlier, first_pid, second_pid, alive),
    ensures
        race_inv(race_run(r, order, first_pid, second_pid, alive), earlier, first_pid, second_pid, alive),
    decreases order.len(),
{
    if order.len() > 0 {
        if order[0] {
            lemma_move_keeps(
                r.file,
                earlier,
                r.first,
                r.first_held,
                first_pid,
                Author::First,
                r.second,
                r.second_held,
                second_pid,
                Author::Second,
                alive,
            );
        } else {
            lemma_move_keeps(
                r.file,
                earlier,
                r.second,
                r.second_held,
                second_pid,
                Author::Second,
                r.first,
                r.first_held,
                first_pid,
                Author::First,
                alive,
            );
        }
        lemma_race_run(
            race_step(r, order[0], first_pid, second_pid, alive),
            order.drop_first(),
            earlier,
            first_pid,
            second_pid,
            alive,
        );
    }
}

/// One daemon at a time: of two processes claiming the role at once with the same pid
/// file, in whatever order their file operations interleave and whatever file an earlier
/// run left (readable or not), at most one wins; and once both are done, the pid file holds the winner's pid.
pub proof fn lemma_one_daemon(
    earlier: Option<Option<Seq<char>>>,
    order: Seq<bool>,
    first_pid: u32,
    second_pid: u32,
    alive: spec_fn(u32) -> bool,
)
    requires
        first_pid != second_pid,
        alive(first_pid),
        alive(second_pid),
    ensures
        ({
            let r = race_run(race_start(earlier), order, first_pid, second_pid, alive);
            &&& !(r.first == ClaimStepView::Done(true) && r.second == ClaimStepView::Done(true))
            &&& (r.first == ClaimStepView::Done(true) && r.second is Done) ==> r.file == Some(
                PidFile { text: Some(pid_file_text(first_pid)), author: Author::First },
            )
            &&& (r.second == ClaimStepView::Done(true) && r.first is Done) ==> r.file == Some(
                PidFile { text: Some(pid_file_text(second_pid)), author: Author::Second },
            )
        }),
{
    lemma_race_run(race_start(earlier), order, earlier, first_pid, second_pid, alive);
}

} // verus!
