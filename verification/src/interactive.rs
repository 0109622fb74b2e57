use vstd::prelude::*;

use crate::front_matter::strs_view;
use crate::text::{chars_of, string_of_chars};

verus! {

// The interactive loop is a state machine over the input buffer, the list of
// matching titles, and the highlighted index.  Each keystroke is one step;
// after a buffer-changing step the caller re-runs the query and hands the
// new result list back through `apply_results`.  Rendering is the caller's
// concern and never changes this state.

/// One keystroke, as the loop distinguishes them.
#[derive(Clone, Copy, PartialEq, Eq, Structural, Debug)]
pub enum KeyInput {
    /// A printable character.
    Char(char),
    Backspace,
    Down,
    Up,
    Enter,
    /// The interrupt key.
    CtrlC,
    /// Anything else: ignored.
    Other,
}

/// What one step decided.
pub enum StepOutcome {
    /// Keep looping; true when the buffer changed and the query must re-run.
    Continue(bool),
    /// Enter was pressed: the selection (zero or one title) is final.
    Accepted(Vec<String>),
    /// The interrupt was pressed: no selection.
    Cancelled,
}

/// The live state of the interactive query loop.
pub struct TerminalApp {
    /// Current value of the input box.
    pub input: String,
    /// Titles matching the current input.
    pub matches: Vec<String>,
    /// Which match is highlighted, if any.
    pub selected: Option<usize>,
}

impl TerminalApp {
    /// The highlighted index, when there is one, points into the matches.
    pub open spec fn wf(&self) -> bool {
        self.selected matches Some(i) ==> i < self.matches@.len()
    }

    /// The zero-or-one-element selection: the highlighted title, if any.
    pub fn get_selected(&mut self) -> (r: Vec<String>)
        requires
            old(self).wf(),
        ensures
            *final(self) == *old(self),
            strs_view(r@) =~= (match old(self).selected {
                Some(i) => seq![old(self).matches@[i as int]@],
                None => Seq::<Seq<char>>::empty(),
            }),
    {
        let mut ret: Vec<String> = Vec::new();
        match self.selected {
            Some(i) => {
                let ghost before = ret@;
                ret.push(clone_str(&self.matches[i]));
                proof {
                    assert(strs_view(ret@) =~= seq![self.matches@[i as int]@]);
                }
            },
            None => {
                proof {
                    assert(strs_view(ret@) =~= Seq::<Seq<char>>::empty());
                }
            },
        }
        ret
    }

    /// Advances the highlight with wraparound; with no matches nothing
    /// happens, and with no highlight the first match is highlighted.
    pub fn next(&mut self) -> (r: ())
        requires
            old(self).wf(),
        ensures
            final(self).wf(),
            final(self).input == old(self).input,
            final(self).matches == old(self).matches,
            old(self).matches@.len() == 0 ==> final(self).selected == old(self).selected,
            old(self).matches@.len() > 0 ==> final(self).selected == Some(
                match old(self).selected {
                    Some(i) => if i + 1 >= old(self).matches@.len() {
                        0usize
                    } else {
                        (i + 1) as usize
                    },
                    None => 0usize,
                },
            ),
    {
        if self.matches.len() == 0 {
            return ;
        }
        let i: usize = match self.selected {
            Some(i) => {
                if i >= self.matches.len() - 1 {
                    0
                } else {
                    i + 1
                }
            },
            None => 0,
        };
        self.selected = Some(i);
    }

    /// Retreats the highlight with wraparound; with no matches nothing
    /// happens, and with no highlight the first match is highlighted.
    pub fn previous(&mut self) -> (r: ())
        requires
            old(self).wf(),
        ensures
            final(self).wf(),
            final(self).input == old(self).input,
            final(self).matches == old(self).matches,
            old(self).matches@.len() == 0 ==> final(self).selected == old(self).selected,
            old(self).matches@.len() > 0 ==> final(self).selected == Some(
                match old(self).selected {
                    Some(i) => if i == 0 {
                        (old(self).matches@.len() - 1) as usize
                    } else {
                        (i - 1) as usize
                    },
                    None => 0usize,
                },
            ),
    {
        if self.matches.len() == 0 {
            return ;
        }
        let i: usize = match self.selected {
            Some(i) => {
                if i == 0 {
                    self.matches.len() - 1
                } else {
                    i - 1
                }
            },
            None => 0,
        };
        self.selected = Some(i);
    }

    /// Replaces the result list after a re-query; a highlight that would
    /// fall outside the new list is dropped, never kept out of bounds.  A
    /// failed query is reported as an empty list, which clears the
    /// highlight.
    pub fn apply_results(&mut self, results: Vec<String>)
        ensures
            final(self).wf(),
            final(self).input == old(self).input,
            final(self).matches == results,
            final(self).selected == (match old(self).selected {
                Some(i) => if i < results@.len() {
                    Some(i)
                } else {
                    None
                },
                None => None::<usize>,
            }),
    {
        match self.selected {
            Some(i) => {
                if !(i < results.len()) {
                    self.selected = None;
                }
            },
            None => {
            },
        }
        self.matches = results;
    }

    /// One keystroke: mutates the state as the key asks and says whether
    /// the loop goes on (and must re-query), accepts, or cancels.
    pub fn step(&mut self, key: KeyInput) -> (r: StepOutcome)
        requires
            old(self).wf(),
        ensures
            final(self).wf(),
            key matches KeyInput::Char(c) ==> final(self).input@ == old(self).input@.push(c)
                && final(self).matches == old(self).matches && final(self).selected == old(
                self,
            ).selected && (r matches StepOutcome::Continue(q) && q),
            key == KeyInput::Backspace ==> final(self).input@ == (if old(self).input@.len() > 0 {
                old(self).input@.drop_last()
            } else {
                old(self).input@
            }) && final(self).matches == old(self).matches && final(self).selected == old(
                self,
            ).selected && (r matches StepOutcome::Continue(q) && q),
            key == KeyInput::Down || key == KeyInput::Up ==> final(self).input == old(self).input
                && final(self).matches == old(self).matches && (r matches StepOutcome::Continue(q)
                && !q),
            key == KeyInput::Down && old(self).matches@.len() == 0 ==> final(self).selected == old(
                self,
            ).selected,
            key == KeyInput::Up && old(self).matches@.len() == 0 ==> final(self).selected == old(
                self,
            ).selected,
            key == KeyInput::Down && old(self).matches@.len() > 0 ==> final(self).selected == Some(
                match old(self).selected {
                    Some(i) => if i + 1 >= old(self).matches@.len() {
                        0usize
                    } else {
                        (i + 1) as usize
                    },
                    None => 0usize,
                },
            ),
            key == KeyInput::Up && old(self).matches@.len() > 0 ==> final(self).selected == Some(
                match old(self).selected {
                    Some(i) => if i == 0 {
                        (old(self).matches@.len() - 1) as usize
                    } else {
                        (i - 1) as usize
                    },
                    None => 0usize,
                },
            ),
            key == KeyInput::Enter ==> *final(self) == *old(self) && (r
                matches StepOutcome::Accepted(sel) && strs_view(sel@) =~= (match old(
                self,
            ).selected {
                Some(i) => seq![old(self).matches@[i as int]@],
                None => Seq::<Seq<char>>::empty(),
            })),
            key == KeyInput::CtrlC ==> *final(self) == *old(self) && r is Cancelled,
            key == KeyInput::Other ==> *final(self) == *old(self) && (r
                matches StepOutcome::Continue(q) && !q),
    {
        match key {
            KeyInput::Enter => {
                let sel: Vec<String> = self.get_selected();
                StepOutcome::Accepted(sel)
            },
            KeyInput::CtrlC => StepOutcome::Cancelled,
            KeyInput::Char(c) => {
                let mut cs: Vec<char> = chars_of(self.input.as_str());
                cs.push(c);
                self.input = string_of_chars(&cs);
                StepOutcome::Continue(true)
            },
            KeyInput::Backspace => {
                let mut cs: Vec<char> = chars_of(self.input.as_str());
                if cs.len() > 0 {
                    let _last: Option<char> = cs.pop();
                }
                self.input = string_of_chars(&cs);
                proof {
                    if old(self).input@.len() == 0 {
                        assert(self.input@ =~= old(self).input@);
                    }
                }
                StepOutcome::Continue(true)
            },
            KeyInput::Down => {
                self.next();
                StepOutcome::Continue(false)
            },
            KeyInput::Up => {
                self.previous();
                StepOutcome::Continue(false)
            },
            KeyInput::Other => StepOutcome::Continue(false),
        }
    }
}

impl Default for TerminalApp {
    /// The initial state: empty buffer, no matches, nothing highlighted.
    fn default() -> (r: TerminalApp)
        ensures
            r.input@ == Seq::<char>::empty(),
            r.matches@ == Seq::<String>::empty(),
            r.selected is None,
            r.wf(),
    {
        TerminalApp { input: String::new(), matches: Vec::new(), selected: None }
    }
}

fn clone_str(s: &String) -> (r: String)
    ensures
        r@ == s@,
{
    s.clone()
}

} // verus!
