//! Ringing: which sound, how `pw-play` is called, and when the playing stops.

use vstd::prelude::*;
use vstd::string::StringExecFns;

verus! {

/// The ring tone: the configured one; when none is configured, the packaged default (if
/// any).
pub fn ring_sound(configured: &str, packaged: Option<String>) -> (sound: Option<String>)
    ensures
        configured@.len() > 0 ==> (sound matches Some(s) && s@ == configured@),
        configured@.len() == 0 ==> sound == packaged,
{
    if !configured.is_empty() {
        Some(String::from_str(configured))
    } else {
        packaged
    }
}

/// The arguments of `pw-play`: `--target=` pins the sound to the headset's node when
/// there is one, since the default output may still be the speakers.
pub open spec fn play_arguments(sound: Seq<char>, sink: Option<Seq<char>>) -> Seq<Seq<char>> {
    match sink {
        Some(s) => seq!["--target="@ + s, sound],
        None => seq![sound],
    }
}

/// The arguments of one `pw-play` call.
pub fn player_arguments(sound: &str, sink: Option<&str>) -> (args: Vec<String>)
    ensures
        args@.map_values(|a: String| a@) == play_arguments(
            sound@,
            match sink {
                Some(s) => Some(s@),
                None => None,
            },
        ),
{
    let mut args: Vec<String> = Vec::new();
    match sink {
        Some(s) => {
            let mut target = String::from_str("--target=");
            target.append(s);
            args.push(target);
        },
        None => {},
    }
    args.push(String::from_str(sound));
    proof {
        assert(args@.map_values(|a: String| a@) =~= play_arguments(
            sound@,
            match sink {
                Some(s) => Some(s@),
                None => None,
            },
        ));
    }
    args
}

/// What was seen of the running `pw-play`.
#[derive(PartialEq, Eq, Structural, Clone, Copy, Debug)]
pub enum PlayerStatus {
    /// It finished playing the sound once.
    Finished,
    /// It is still playing.
    Playing,
    /// Its state could not be read.
    Lost,
}

/// What to do next while ringing.
#[derive(PartialEq, Eq, Structural, Clone, Copy, Debug)]
pub enum PlayerAction {
    /// Start `pw-play` (again).
    Play,
    /// Look again in a moment.
    Wait,
    /// Kill the playing `pw-play`, reap it, and stop.
    Kill,
    /// Stop.
    Stop,
}

/// Before starting a play: play unless the alarm was silenced.
pub fn before_play(silenced: bool) -> (action: PlayerAction)
    ensures
        action == (if silenced {
            PlayerAction::Stop
        } else {
            PlayerAction::Play
        }),
{
    if silenced {
        PlayerAction::Stop
    } else {
        PlayerAction::Play
    }
}

/// The decision after looking at a playing `pw-play`. A finished play starts over until
/// the alarm is silenced; a silenced alarm kills the play under way at once rather than
/// let it ring on.
pub open spec fn after_look_spec(status: PlayerStatus, silenced: bool) -> PlayerAction {
    match status {
        PlayerStatus::Finished => if silenced {
            PlayerAction::Stop
        } else {
            PlayerAction::Play
        },
        PlayerStatus::Playing => if silenced {
            PlayerAction::Kill
        } else {
            PlayerAction::Wait
        },
        PlayerStatus::Lost => PlayerAction::Stop,
    }
}

/// The decision after looking at a playing `pw-play`.
pub fn after_look(status: PlayerStatus, silenced: bool) -> (action: PlayerAction)
    ensures
        action == after_look_spec(status, silenced),
{
    match status {
        PlayerStatus::Finished => before_play(silenced),
        PlayerStatus::Playing => if silenced {
            PlayerAction::Kill
        } else {
            PlayerAction::Wait
        },
        PlayerStatus::Lost => PlayerAction::Stop,
    }
}

/// Once the alarm is silenced nothing plays on: no new play starts, and a play under way
/// is killed.
pub proof fn lemma_silenced_stops(status: PlayerStatus)
    ensures
        after_look_spec(status, true) != PlayerAction::Play,
        after_look_spec(status, true) != PlayerAction::Wait,
        status == PlayerStatus::Playing ==> after_look_spec(status, true) == PlayerAction::Kill,
{
}

} // verus!
