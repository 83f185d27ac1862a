//! Replaying a persisted move-history string: each recorded character is
//! applied in order as if typed live, without re-recording during the replay
//! itself; the successfully applied prefix is then kept in the action log.

use vstd::prelude::*;
use vstd::string::StrSliceExecFns;

use crate::base::{dir_of_char, is_action_char, is_history_char, Direction};
use crate::game::{Game, GameView};
use crate::reset::{reset_enabled, reset_no_history_spec};
use crate::resolver::{move_enabled, move_no_history_spec};

verus! {

broadcast use crate::game::lemma_game_view;

/// Whether the recorded action `c` is accepted in state `g`: a reset marker
/// is accepted when a reset is, a direction character when the move is.
pub open spec fn action_enabled(g: GameView, c: char) -> bool
    recommends
        is_action_char(c),
{
    if c == 'T' {
        reset_enabled(g)
    } else {
        move_enabled(g, dir_of_char(c))
    }
}

/// The state after replaying one accepted action, the record in the action
/// log included: exactly the state the live operation would have produced.
pub open spec fn replay_step(g: GameView, c: char) -> GameView
    recommends
        is_action_char(c),
        action_enabled(g, c),
{
    let g1 = if c == 'T' {
        reset_no_history_spec(g)
    } else {
        move_no_history_spec(g, dir_of_char(c))
    };
    GameView { history: g.history.push(c), ..g1 }
}

/// The state after replaying a recorded string: line breaks are skipped,
/// each action is applied as if typed live, and replay stops at the first
/// action the current map rejects, keeping the applied prefix.
pub open spec fn replay_spec(g: GameView, s: Seq<char>) -> GameView
    decreases s.len(),
{
    if s.len() == 0 {
        g
    } else if s[0] == '\n' {
        replay_spec(g, s.drop_first())
    } else if action_enabled(g, s[0]) {
        replay_spec(replay_step(g, s[0]), s.drop_first())
    } else {
        g
    }
}

/// The string replays without divergence: every recorded action is accepted
/// in the state it is replayed against.
pub open spec fn replay_clean(g: GameView, s: Seq<char>) -> bool
    decreases s.len(),
{
    if s.len() == 0 {
        true
    } else if s[0] == '\n' {
        replay_clean(g, s.drop_first())
    } else {
        action_enabled(g, s[0]) && replay_clean(replay_step(g, s[0]), s.drop_first())
    }
}

/// The first character of a persisted history string that falls outside the
/// accepted alphabet, if any.
pub open spec fn find_invalid(s: Seq<char>) -> Option<char>
    decreases s.len(),
{
    if s.len() == 0 {
        None
    } else if !is_history_char(s[0]) {
        Some(s[0])
    } else {
        find_invalid(s.drop_first())
    }
}

impl Game {
    /// Replay one recorded action character without recording it; report
    /// whether it was accepted.
    fn replay_one(&mut self, c: char) -> (r: bool)
        requires
            old(self)@.wf(),
            is_action_char(c),
        ensures
            r == action_enabled(old(self)@, c),
            r ==> final(self)@ == replay_step(old(self)@, c),
            !r ==> final(self)@ == old(self)@,
            final(self)@.wf(),
    {
        let worked: bool = if c == 'U' {
            self.process_player_input_no_history(Direction::Up)
        } else if c == 'L' {
            self.process_player_input_no_history(Direction::Left)
        } else if c == 'D' {
            self.process_player_input_no_history(Direction::Down)
        } else if c == 'R' {
            self.process_player_input_no_history(Direction::Right)
        } else {
            self.reset_current_level_no_history()
        };
        if worked {
            let cs: &str = if c == 'U' {
                "U"
            } else if c == 'L' {
                "L"
            } else if c == 'D' {
                "D"
            } else if c == 'R' {
                "R"
            } else {
                "T"
            };
            proof {
                reveal_strlit("U");
                reveal_strlit("L");
                reveal_strlit("D");
                reveal_strlit("R");
                reveal_strlit("T");
                assert(cs@ =~= seq![c]);
            }
            self.push_history_char(cs);
            proof {
                assert(final(self)@ =~= replay_step(old(self)@, c));
            }
        }
        worked
    }

    /// Replay an externally supplied history string.  A character outside the
    /// alphabet is a hard error carrying the first offending character, with
    /// no partial application; a recorded action the current map rejects
    /// stops the replay, keeping the applied prefix in the action log.
    pub fn apply_history(&mut self, history: &str) -> (r: Result<(), char>)
        requires
            old(self)@.wf(),
        ensures
            r == (match find_invalid(history@) {
                Some(c) => Err::<(), char>(c),
                None => Ok::<(), char>(()),
            }),
            r is Err ==> final(self)@ == old(self)@,
            r is Ok ==> final(self)@ == replay_spec(old(self)@, history@),
            final(self)@.wf(),
    {
        let n = history.unicode_len();
        let mut i: usize = 0;
        proof {
            assert(history@.skip(0) =~= history@);
        }
        while i < n
            invariant
                n == history@.len(),
                i <= n,
                self@ == old(self)@,
                old(self)@.wf(),
                find_invalid(history@) == find_invalid(history@.skip(i as int)),
                forall|j: int| 0 <= j < i ==> is_history_char(#[trigger] history@[j]),
            decreases n - i,
        {
            let c = history.get_char(i);
            proof {
                assert(history@.skip(i as int)[0] == c);
                assert(history@.skip(i as int).drop_first() =~= history@.skip(i + 1));
            }
            if !(c == 'U' || c == 'L' || c == 'D' || c == 'R' || c == 'T' || c == '\n') {
                return Err(c);
            }
            i = i + 1;
        }
        proof {
            assert(history@.skip(n as int) =~= Seq::<char>::empty());
        }
        let ghost g0 = self@;
        let mut i: usize = 0;
        proof {
            assert(history@.skip(0) =~= history@);
        }
        while i < n
            invariant
                self@.wf(),
                n == history@.len(),
                i <= n,
                g0 == old(self)@,
                find_invalid(history@) is None,
                forall|j: int| 0 <= j < n ==> is_history_char(#[trigger] history@[j]),
                replay_spec(g0, history@) == replay_spec(self@, history@.skip(i as int)),
            decreases n - i,
        {
            let c = history.get_char(i);
            proof {
                assert(history@.skip(i as int)[0] == c);
                assert(history@.skip(i as int).drop_first() =~= history@.skip(i + 1));
            }
            if c != '\n' {
                let worked = self.replay_one(c);
                if !worked {
                    return Ok(());
                }
            }
            i = i + 1;
        }
        proof {
            assert(history@.skip(n as int) =~= Seq::<char>::empty());
        }
        Ok(())
    }
}

} // verus!
