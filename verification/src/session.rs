//! One pass over a token stream: every token goes to the tag tracker, to the word
//! table, or to neither.
//!
//! | token          | character run | tag context    | word table                         |
//! |----------------|---------------|----------------|------------------------------------|
//! | character data | open          | as it was      | its words, under the current tag   |
//! | null character | open          | as it was      | as it was                          |
//! | start tag      | closed        | enters the tag | as it was                          |
//! | end tag        | closed        | leaves a tag   | as it was                          |
//! | anything else  | closed        | as it was      | as it was                          |
//!
//! Tokens are taken strictly in order, so a word counts under the tag that was
//! innermost when its text arrived.

use crate::table::{
    count_of, lemma_record_all_counts, record_all, Counts, TagCounts, WordTable,
};
use crate::text::{lemma_words_bound, words_of};
use crate::token::Token;
use crate::tracker::{TagContext, TagTracker};
use vstd::prelude::*;

verus! {

/// The state of a session as a mathematical value.
pub struct SessionState {
    /// Whether the last token taken was character data or a null character.
    pub in_char_run: bool,
    /// The current tag and the tags around it.
    pub context: TagContext,
    /// The word table.
    pub counts: Counts,
    /// The number of words counted so far.
    pub recorded: nat,
}

impl SessionState {
    /// The state before the first token.
    pub open spec fn initial() -> SessionState {
        SessionState {
            in_char_run: false,
            context: TagContext::root(),
            counts: Map::<Seq<char>, TagCounts>::empty(),
            recorded: 0,
        }
    }

    /// The state after the words of `text` were counted under the current tag.
    pub open spec fn count_words(self, text: Seq<char>) -> SessionState {
        SessionState {
            counts: record_all(self.counts, words_of(text), self.context.current),
            recorded: self.recorded + words_of(text).len(),
            ..self
        }
    }

    /// Whether the number of words counted still fits the machine after the words of
    /// `text`.
    pub open spec fn has_room(self, text: Seq<char>) -> bool {
        self.recorded + words_of(text).len() <= usize::MAX
    }

    /// Whether `token` can be taken: every token but character data with more words
    /// than there is room for.
    pub open spec fn accepts(self, token: Token) -> bool {
        token matches Token::Characters(text) ==> self.has_room(text@)
    }

    /// The state after `token`.
    pub open spec fn step(self, token: Token) -> SessionState {
        match token {
            Token::Characters(text) => SessionState { in_char_run: true, ..self.count_words(text@) },
            Token::NullCharacter => SessionState { in_char_run: true, ..self },
            Token::StartTag { name, .. } => SessionState {
                in_char_run: false,
                context: self.context.start(name@),
                ..self
            },
            Token::EndTag { .. } => SessionState {
                in_char_run: false,
                context: self.context.end(),
                ..self
            },
            Token::ParseError(_) => SessionState { in_char_run: false, ..self },
            Token::Other => SessionState { in_char_run: false, ..self },
        }
    }

    /// The state after each of `tokens`, first to last.
    pub open spec fn run(self, tokens: Seq<Token>) -> SessionState
        decreases tokens.len(),
    {
        if tokens.len() == 0 {
            self
        } else {
            self.run(tokens.drop_last()).step(tokens.last())
        }
    }

    /// The state at the end of the stream: an open character run is closed.
    pub open spec fn end(self) -> SessionState {
        SessionState { in_char_run: false, ..self }
    }
}

/// A session: the tag tracker, the word table, and whether a character run is open.
pub struct Session {
    in_char_run: bool,
    tracker: TagTracker,
    table: WordTable,
}

impl View for Session {
    type V = SessionState;

    closed spec fn view(&self) -> SessionState {
        SessionState {
            in_char_run: self.in_char_run,
            context: self.tracker@,
            counts: self.table@,
            recorded: self.table.recorded(),
        }
    }
}

impl Session {
    /// The invariant of a session: that of its word table.
    pub closed spec fn wf(&self) -> bool {
        self.table.wf()
    }

    /// A session before the first token: at the root tag, with an empty table.
    pub fn new() -> (session: Session)
        ensures
            session.wf(),
            session@ == SessionState::initial(),
    {
        Session { in_char_run: false, tracker: TagTracker::new(), table: WordTable::new() }
    }

    /// Opens or closes the character run.
    pub fn is_char(&mut self, is_char: bool)
        ensures
            final(self)@ == (SessionState { in_char_run: is_char, ..old(self)@ }),
            old(self).wf() ==> final(self).wf(),
    {
        self.in_char_run = is_char;
    }

    /// Takes one character of character data that is not part of any word: the
    /// character run is open after it. The character itself is not looked at.
    pub fn do_char(&mut self, _c: char)
        ensures
            final(self)@ == (SessionState { in_char_run: true, ..old(self)@ }),
            old(self).wf() ==> final(self).wf(),
    {
        self.is_char(true);
    }

    /// Whether a character run is open.
    pub fn in_char_run(&self) -> (open: bool)
        ensures
            open == self@.in_char_run,
    {
        self.in_char_run
    }

    /// The name of the current tag.
    pub fn current_tag(&self) -> (tag: &str)
        ensures
            tag@ == self@.context.current,
    {
        self.tracker.current_tag()
    }

    /// The number of words counted so far.
    pub fn total(&self) -> (total: usize)
        ensures
            total == self@.recorded,
    {
        self.table.total()
    }

    /// The word table as it stands.
    pub fn table(&self) -> (table: &WordTable)
        ensures
            table@ == self@.counts,
            table.recorded() == self@.recorded,
            self.wf() ==> table.wf(),
    {
        &self.table
    }

    /// A copy of the word table as it stands; what the session does later does not
    /// change it.
    pub fn get_word_tag_counts(&self) -> (table: WordTable)
        requires
            self.wf(),
        ensures
            table.wf(),
            table@ == self@.counts,
            table.recorded() == self@.recorded,
    {
        self.table.get_table()
    }

    /// Counts the words of `text` under the current tag, where there is room for
    /// them: returns whether it did. Without room for all of them, none is counted.
    pub fn count_words(&mut self, text: &str) -> (counted: bool)
        requires
            old(self).wf(),
        ensures
            final(self).wf(),
            counted == old(self)@.has_room(text@),
            counted ==> final(self)@ == old(self)@.count_words(text@),
            !counted ==> final(self)@ == old(self)@,
    {
        self.table.count_words(text, self.tracker.current_tag())
    }

    /// Takes the next token of the stream: returns whether it did. The one token that
    /// is not taken is character data with more words than there is room for; the
    /// session is then as it was.
    pub fn process_token(&mut self, token: &Token) -> (taken: bool)
        requires
            old(self).wf(),
        ensures
            final(self).wf(),
            taken == old(self)@.accepts(*token),
            taken ==> final(self)@ == old(self)@.step(*token),
            !taken ==> final(self)@ == old(self)@,
    {
        match token {
            Token::Characters(text) => {
                if self.count_words(text.as_str()) {
                    self.is_char(true);
                    true
                } else {
                    false
                }
            },
            Token::NullCharacter => {
                self.do_char('\0');
                true
            },
            Token::StartTag { name, .. } => {
                self.is_char(false);
                self.tracker.on_start_tag(name.clone());
                true
            },
            Token::EndTag { name } => {
                self.is_char(false);
                self.tracker.on_end_tag(name.as_str());
                true
            },
            Token::ParseError(_) => {
                self.is_char(false);
                true
            },
            Token::Other => {
                self.is_char(false);
                true
            },
        }
    }

    /// Takes the tokens of `tokens` in order, up to the first that is not taken:
    /// returns how many were taken.
    pub fn feed(&mut self, tokens: &Vec<Token>) -> (taken: usize)
        requires
            old(self).wf(),
        ensures
            final(self).wf(),
            taken <= tokens.len(),
            final(self)@ == old(self)@.run(tokens@.take(taken as int)),
            forall|k: int|
                0 <= k < taken ==> old(self)@.run(#[trigger] tokens@.take(k)).accepts(tokens[k]),
            taken < tokens.len() ==> !final(self)@.accepts(tokens[taken as int]),
    {
        let mut i: usize = 0;
        while i < tokens.len()
            invariant
                i <= tokens.len(),
                self.wf(),
                self@ == old(self)@.run(tokens@.take(i as int)),
                forall|k: int|
                    0 <= k < i ==> old(self)@.run(#[trigger] tokens@.take(k)).accepts(tokens[k]),
            decreases tokens.len() - i,
        {
            assert(tokens@.take(i + 1).drop_last() == tokens@.take(i as int));
            if !self.process_token(&tokens[i]) {
                return i;
            }
            i = i + 1;
        }
        i
    }

    /// Ends the stream: closes an open character run.
    pub fn end(&mut self)
        ensures
            final(self)@ == old(self)@.end(),
            old(self).wf() ==> final(self).wf(),
    {
        self.is_char(false);
    }
}

/// By how much `tokens` deepens the nesting: the number of its start tags less the
/// number of its end tags.
pub open spec fn opened(tokens: Seq<Token>) -> int
    decreases tokens.len(),
{
    if tokens.len() == 0 {
        0
    } else {
        opened(tokens.drop_last()) + match tokens.last() {
            Token::StartTag { .. } => 1int,
            Token::EndTag { .. } => -1int,
            _ => 0int,
        }
    }
}

/// No end tag of `tokens` comes without a start tag of `tokens` before it that is
/// still open.
pub open spec fn never_closes_outer(tokens: Seq<Token>) -> bool {
    forall|k: int| 0 <= k <= tokens.len() ==> opened(#[trigger] tokens.take(k)) >= 0
}

/// `tokens` is well nested: each of its end tags closes one of its start tags, and
/// none of its start tags stays open.
pub open spec fn well_nested(tokens: Seq<Token>) -> bool {
    never_closes_outer(tokens) && opened(tokens) == 0
}

/// Tokens that close none of the tags that were open before them leave those tags in
/// place: the tags remembered before are still remembered below the new ones, and the
/// tag that was current is the next to come back.
pub proof fn lemma_outer_context_kept(state: SessionState, tokens: Seq<Token>)
    requires
        never_closes_outer(tokens),
    ensures
        state.run(tokens).context.stack.len() == state.context.stack.len() + opened(tokens),
        opened(tokens) == 0 ==> state.run(tokens).context == state.context,
        opened(tokens) > 0 ==> state.run(tokens).context.stack.take(
            state.context.stack.len() as int,
        ) == state.context.stack && state.run(tokens).context.stack[state.context.stack.len() as int]
            == state.context.current,
    decreases tokens.len(),
{
    assert(tokens.take(tokens.len() as int) == tokens);
    if tokens.len() > 0 {
        let init = tokens.drop_last();
        assert forall|k: int| 0 <= k <= init.len() implies opened(#[trigger] init.take(k))
            >= 0 by {
            assert(init.take(k) == tokens.take(k));
        }
        lemma_outer_context_kept(state, init);
        let before = state.run(init).context;
        let after = state.run(tokens).context;
        let base = state.context.stack.len() as int;
        match tokens.last() {
            Token::StartTag { .. } => {
                assert(after.stack.drop_last() == before.stack);
                if opened(init) > 0 {
                    assert(after.stack.take(base) == before.stack.take(base));
                }
            },
            Token::EndTag { .. } => {
                assert(opened(init) >= 1);
                assert(after.stack == before.stack.drop_last());
                if opened(init) > 1 {
                    assert(after.stack.take(base) == before.stack.take(base));
                }
            },
            _ => {
                assert(after == before);
            },
        }
    }
}

/// Attribution follows nesting: character data that comes after a well-nested stretch
/// of tokens is counted under the tag that was current before the stretch.
pub proof fn lemma_attribution_follows_nesting(
    state: SessionState,
    tokens: Seq<Token>,
    text: String,
)
    requires
        well_nested(tokens),
    ensures
        state.run(tokens).context == state.context,
        state.run(tokens.push(Token::Characters(text))).counts == record_all(
            state.run(tokens).counts,
            words_of(text@),
            state.context.current,
        ),
{
    lemma_outer_context_kept(state, tokens);
    assert(tokens.push(Token::Characters(text)).drop_last() == tokens);
}

/// No token lowers a count.
pub proof fn lemma_counts_never_shrink(
    state: SessionState,
    token: Token,
    word: Seq<char>,
    tag: Seq<char>,
)
    ensures
        count_of(state.step(token).counts, word, tag) >= count_of(state.counts, word, tag),
{
    if let Token::Characters(text) = token {
        lemma_record_all_counts(state.counts, words_of(text@), state.context.current, word, tag);
    }
}

/// Only character data changes the table, and only tags change the tag context.
pub proof fn lemma_token_effects(state: SessionState, token: Token)
    ensures
        !(token is Characters) ==> state.step(token).counts == state.counts && state.step(
            token,
        ).recorded == state.recorded,
        !(token is StartTag) && !(token is EndTag) ==> state.step(token).context == state.context,
        state.step(token).in_char_run == (token is Characters || token is NullCharacter),
{
}

/// A text that is no longer than the room that is left has room for its words.
pub proof fn lemma_room_for_text(state: SessionState, text: Seq<char>)
    requires
        state.recorded + text.len() <= usize::MAX,
    ensures
        state.has_room(text),
{
    lemma_words_bound(text);
}

/// An end tag with no tag open is tolerated: it is taken, the current tag stays, and
/// character data after it is counted as it would have been without it.
pub proof fn lemma_stray_end_tag(state: SessionState, name: String, text: String)
    requires
        state.context.stack.len() == 0,
    ensures
        state.accepts(Token::EndTag { name }),
        state.step(Token::EndTag { name }).context == state.context,
        state.step(Token::EndTag { name }).step(Token::Characters(text)).counts == state.step(
            Token::Characters(text),
        ).counts,
{
}

/// A start tag deepens the nesting by one; an end tag makes it shallower by one, but
/// not shallower than the root; no other token changes it.
pub proof fn lemma_depth(state: SessionState, token: Token)
    ensures
        state.step(token).context.depth() == match token {
            Token::StartTag { .. } => state.context.depth() + 1,
            Token::EndTag { .. } => if state.context.depth() > 0 {
                (state.context.depth() - 1) as nat
            } else {
                0nat
            },
            _ => state.context.depth(),
        },
{
}

} // verus!
