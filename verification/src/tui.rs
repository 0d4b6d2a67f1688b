//! The state of the interactive front-end: the query being typed, the
//! queries typed before, and what was found.
//!
//! The line being edited is one of a list of drafts. Draft 0 is the new
//! query. Moving back through the history puts the earlier queries on the
//! list, the most recent first, so that each can be edited and fired
//! again.

use crate::lex::{compare, Rank};
use vstd::prelude::*;
use vstd::string::StringSliceAdditionalSpecFns;
use vstd::utf8::encode_utf8_decode_utf8;

verus! {

/// `String::push` appends the character to the end of the string.
pub assume_specification[ String::push ](s: &mut String, ch: char)
    ensures
        final(s)@ == old(s)@.push(ch),
;

/// `String::pop` removes the last character and returns it, or returns
/// nothing and leaves the string alone where it is empty.
pub assume_specification[ String::pop ](s: &mut String) -> (r: Option<char>)
    ensures
        match r {
            Some(ch) => old(s)@.len() > 0 && ch == old(s)@.last() && final(s)@ == old(
                s,
            )@.drop_last(),
            None => old(s)@.len() == 0 && final(s)@ == old(s)@,
        },
;

/// A key as far as the front-end tells keys apart.
#[derive(Clone, Copy, Debug, PartialEq, Eq)]
pub enum Key {
    Enter,
    Up,
    Down,
    Char(char),
    Backspace,
    Other,
}

/// What the front-end keeps between two keys.
#[derive(Debug)]
pub struct App {
    // search query history
    history: Vec<String>,
    query_cursor: usize,
    queries: Vec<String>,
    results: Vec<String>,
    updates: Vec<String>,
    exit: bool,
}

/// The texts of a list of strings.
pub open spec fn texts(list: Seq<String>) -> Seq<Seq<char>> {
    Seq::new(list.len(), |i: int| list[i]@)
}

/// The command that ends the front-end.
pub open spec fn bye() -> Seq<char> {
    seq!['/', 'b', 'y', 'e']
}

impl App {
    /// The queries that were fired, the oldest first.
    pub closed spec fn history(&self) -> Seq<Seq<char>> {
        texts(self.history@)
    }

    /// The drafts: the new query, and the earlier ones brought back so far.
    pub closed spec fn queries(&self) -> Seq<Seq<char>> {
        texts(self.queries@)
    }

    /// Which draft is being edited.
    pub closed spec fn cursor(&self) -> int {
        self.query_cursor as int
    }

    /// What was found so far.
    pub closed spec fn results(&self) -> Seq<Seq<char>> {
        texts(self.results@)
    }

    /// Whether the front-end is to end.
    pub closed spec fn exiting(&self) -> bool {
        self.exit
    }

    /// There is a draft under the cursor.
    pub open spec fn wf(&self) -> bool {
        0 <= self.cursor() < self.queries().len()
    }

    /// The front-end at its start: one empty draft, no history, nothing found.
    pub fn new() -> (r: Self)
        ensures
            r.wf(),
            r.history() == Seq::<Seq<char>>::empty(),
            r.queries() == seq![Seq::<char>::empty()],
            r.cursor() == 0,
            r.results() == Seq::<Seq<char>>::empty(),
            !r.exiting(),
    {
        let mut queries = Vec::new();
        queries.push(String::new());
        let r = Self {
            history: Vec::new(),
            query_cursor: 0,
            queries,
            results: Vec::new(),
            updates: Vec::new(),
            exit: false,
        };
        proof {
            assert(r.history() =~= Seq::<Seq<char>>::empty());
            assert(r.results() =~= Seq::<Seq<char>>::empty());
            assert(r.queries() =~= seq![Seq::<char>::empty()]);
        }
        r
    }

    /// Moves to the draft before the one being edited. Behind the last
    /// draft, the next earlier query of the history is put on the list,
    /// as long as the history has one.
    pub fn query_cursor_move_back(&mut self)
        requires
            old(self).wf(),
        ensures
            final(self).wf(),
            final(self).history() == old(self).history(),
            final(self).results() == old(self).results(),
            final(self).exiting() == old(self).exiting(),
            if old(self).cursor() + 1 < old(self).queries().len() {
                final(self).queries() == old(self).queries() && final(self).cursor() == old(
                    self,
                ).cursor() + 1
            } else if old(self).cursor() < old(self).history().len() {
                final(self).queries() == old(self).queries().push(
                    old(self).history()[old(self).history().len() - 1 - old(self).cursor()],
                ) && final(self).cursor() == old(self).cursor() + 1
            } else {
                final(self).queries() == old(self).queries() && final(self).cursor() == old(
                    self,
                ).cursor()
            },
    {
        let drafts = self.queries.len();
        if self.query_cursor + 1 < drafts {
            self.query_cursor += 1;
        } else if self.history.len() > self.query_cursor {
            let earlier = self.history[self.history.len() - 1 - self.query_cursor].clone();
            self.queries.push(earlier);
            self.query_cursor += 1;
            proof {
                assert(self.queries() =~= old(self).queries().push(
                    old(self).history()[old(self).history().len() - 1 - old(self).cursor()],
                ));
            }
        }
    }

    /// Moves to the draft after the one being edited, if there is one.
    pub fn query_cursor_move_forward(&mut self)
        requires
            old(self).wf(),
        ensures
            final(self).wf(),
            final(self).history() == old(self).history(),
            final(self).queries() == old(self).queries(),
            final(self).results() == old(self).results(),
            final(self).exiting() == old(self).exiting(),
            final(self).cursor() == if old(self).cursor() == 0 {
                0
            } else {
                old(self).cursor() - 1
            },
    {
        self.query_cursor = self.query_cursor.saturating_sub(1);
    }

    /// Puts the draft being edited at the end of the history, and starts
    /// over with one empty draft.
    pub fn fire_query_and_reset_query_cursor(&mut self)
        requires
            old(self).wf(),
        ensures
            final(self).wf(),
            final(self).history() == old(self).history().push(
                old(self).queries()[old(self).cursor()],
            ),
            final(self).queries() == seq![Seq::<char>::empty()],
            final(self).cursor() == 0,
            final(self).results() == old(self).results(),
            final(self).exiting() == old(self).exiting(),
    {
        let mut fired = String::new();
        std::mem::swap(&mut self.queries[self.query_cursor], &mut fired);
        self.history.push(fired);
        let mut queries = Vec::new();
        queries.push(String::new());
        self.queries = queries;
        self.query_cursor = 0;
        proof {
            assert(self.history() =~= old(self).history().push(
                old(self).queries()[old(self).cursor()],
            ));
            assert(self.queries() =~= seq![Seq::<char>::empty()]);
        }
    }

    /// The draft being edited.
    pub fn query(&self) -> (r: &String)
        requires
            self.wf(),
        ensures
            r@ == self.queries()[self.cursor()],
    {
        &self.queries[self.query_cursor]
    }

    /// The draft being edited, to be changed.
    pub fn query_mut(&mut self) -> (r: &mut String)
        requires
            old(self).wf(),
        ensures
            r@ == old(self).queries()[old(self).cursor()],
            final(self).wf(),
            final(self).queries() == old(self).queries().update(old(self).cursor(), final(r)@),
            final(self).cursor() == old(self).cursor(),
            final(self).history() == old(self).history(),
            final(self).results() == old(self).results(),
            final(self).exiting() == old(self).exiting(),
    {
        let r = &mut self.queries[self.query_cursor];
        proof {
            assert(texts(old(self).queries@.update(old(self).cursor(), *final(r))) =~= old(
                self,
            ).queries().update(old(self).cursor(), final(r)@));
        }
        r
    }

    /// Whether the front-end is to end.
    pub fn should_exit(&self) -> (r: bool)
        ensures
            r == self.exiting(),
    {
        self.exit
    }

    /// What was found so far.
    pub fn found(&self) -> (r: &Vec<String>)
        ensures
            texts(r@) == self.results(),
    {
        &self.results
    }

    /// The number of queries in the history.
    pub fn history_len(&self) -> (r: usize)
        ensures
            r == self.history().len(),
    {
        self.history.len()
    }

    /// The place of the draft being edited.
    pub fn query_cursor(&self) -> (r: usize)
        ensures
            r == self.cursor(),
    {
        self.query_cursor
    }

    /// Acts on a key. Enter fires the draft, or ends the front-end where
    /// the draft is `/bye`; up and down move through the drafts; a
    /// character is put at the end of the draft, and backspace takes the
    /// last one off.
    pub fn handle_key_event(&mut self, key: Key)
        requires
            old(self).wf(),
        ensures
            final(self).wf(),
            match key {
                Key::Enter => if old(self).queries()[old(self).cursor()] == bye() {
                    &&& final(self).exiting()
                    &&& final(self).queries() == old(self).queries()
                    &&& final(self).cursor() == old(self).cursor()
                    &&& final(self).history() == old(self).history()
                    &&& final(self).results() == old(self).results()
                } else {
                    &&& final(self).exiting() == old(self).exiting()
                    &&& final(self).results() == old(self).results().push(
                        old(self).queries()[old(self).cursor()],
                    )
                    &&& final(self).history() == old(self).history().push(
                        old(self).queries()[old(self).cursor()],
                    )
                    &&& final(self).queries() == seq![Seq::<char>::empty()]
                    &&& final(self).cursor() == 0
                },
                Key::Up => {
                    &&& final(self).exiting() == old(self).exiting()
                    &&& final(self).history() == old(self).history()
                    &&& final(self).results() == old(self).results()
                    &&& if old(self).cursor() + 1 < old(self).queries().len() {
                        final(self).queries() == old(self).queries() && final(self).cursor()
                            == old(self).cursor() + 1
                    } else if old(self).cursor() < old(self).history().len() {
                        final(self).queries() == old(self).queries().push(
                            old(self).history()[old(self).history().len() - 1 - old(
                                self,
                            ).cursor()],
                        ) && final(self).cursor() == old(self).cursor() + 1
                    } else {
                        final(self).queries() == old(self).queries() && final(self).cursor()
                            == old(self).cursor()
                    }
                },
                Key::Down => {
                    &&& final(self).exiting() == old(self).exiting()
                    &&& final(self).history() == old(self).history()
                    &&& final(self).results() == old(self).results()
                    &&& final(self).queries() == old(self).queries()
                    &&& final(self).cursor() == if old(self).cursor() == 0 {
                        0
                    } else {
                        old(self).cursor() - 1
                    }
                },
                Key::Char(c) => {
                    &&& final(self).exiting() == old(self).exiting()
                    &&& final(self).history() == old(self).history()
                    &&& final(self).results() == old(self).results()
                    &&& final(self).cursor() == old(self).cursor()
                    &&& final(self).queries() == old(self).queries().update(
                        old(self).cursor(),
                        old(self).queries()[old(self).cursor()].push(c),
                    )
                },
                Key::Backspace => {
                    &&& final(self).exiting() == old(self).exiting()
                    &&& final(self).history() == old(self).history()
                    &&& final(self).results() == old(self).results()
                    &&& final(self).cursor() == old(self).cursor()
                    &&& final(self).queries() == old(self).queries().update(
                        old(self).cursor(),
                        if old(self).queries()[old(self).cursor()].len() == 0 {
                            old(self).queries()[old(self).cursor()]
                        } else {
                            old(self).queries()[old(self).cursor()].drop_last()
                        },
                    )
                },
                Key::Other => {
                    &&& final(self).exiting() == old(self).exiting()
                    &&& final(self).history() == old(self).history()
                    &&& final(self).results() == old(self).results()
                    &&& final(self).cursor() == old(self).cursor()
                    &&& final(self).queries() == old(self).queries()
                },
            },
    {
        match key {
            Key::Enter => {
                if is_bye(self.query()) {
                    self.exit = true;
                } else {
                    let asked = self.query().clone();
                    self.results.push(asked);
                    proof {
                        assert(self.results() =~= old(self).results().push(
                            old(self).queries()[old(self).cursor()],
                        ));
                    }
                    self.fire_query_and_reset_query_cursor();
                }
            },
            Key::Up => {
                self.query_cursor_move_back();
            },
            Key::Down => {
                self.query_cursor_move_forward();
            },
            Key::Char(c) => {
                self.query_mut().push(c);
            },
            Key::Backspace => {
                self.query_mut().pop();
                proof {
                    let before = old(self).queries();
                    let at = old(self).cursor();
                    if before[at].len() == 0 {
                        assert(before.update(at, before[at]) =~= before);
                    }
                }
            },
            Key::Other => {},
        }
    }
}

/// Whether a query is the command that ends the front-end.
pub fn is_bye(query: &String) -> (r: bool)
    ensures
        r == (query@ == bye()),
{
    let text = query.as_str();
    let r = match compare(text.as_bytes(), "/bye".as_bytes()) {
        Rank::Same => true,
        _ => false,
    };
    proof {
        reveal_strlit("/bye");
        assert("/bye"@ =~= bye());
        encode_utf8_decode_utf8(text@);
        encode_utf8_decode_utf8("/bye"@);
    }
    r
}

} // verus!
