//! The tag context: which tag encloses the point of the stream that is being read.
//!
//! A start tag makes its own name the current tag and remembers the one that was
//! current; an end tag goes back to the tag remembered last. An end tag with nothing
//! remembered is tolerated and changes nothing. The name that an end tag carries is not
//! compared with the tag it closes.

use crate::text::views;
use vstd::prelude::*;

verus! {

/// The name of the current tag before any start tag was seen.
pub const ROOT_TAG: &'static str = "root";

/// The tag context as a mathematical value.
pub struct TagContext {
    /// The name of the innermost open tag.
    pub current: Seq<char>,
    /// The tags that were current before, outermost first. The current tag is not
    /// among them.
    pub stack: Seq<Seq<char>>,
}

impl TagContext {
    /// The context at the start of a stream: the root tag, nothing remembered.
    pub open spec fn root() -> TagContext {
        TagContext { current: ROOT_TAG@, stack: Seq::empty() }
    }

    /// The context after a start tag `name`.
    pub open spec fn start(self, name: Seq<char>) -> TagContext {
        TagContext { current: name, stack: self.stack.push(self.current) }
    }

    /// The context after an end tag.
    pub open spec fn end(self) -> TagContext {
        if self.stack.len() > 0 {
            TagContext { current: self.stack.last(), stack: self.stack.drop_last() }
        } else {
            self
        }
    }

    /// The number of tags that are open above the root.
    pub open spec fn depth(self) -> nat {
        self.stack.len()
    }
}

/// Tracks the current tag through start and end tags.
pub struct TagTracker {
    current: String,
    stack: Vec<String>,
}

impl View for TagTracker {
    type V = TagContext;

    closed spec fn view(&self) -> TagContext {
        TagContext { current: self.current@, stack: views(self.stack@) }
    }
}

impl TagTracker {
    /// A tracker at the root of a document.
    pub fn new() -> (tracker: TagTracker)
        ensures
            tracker@ == TagContext::root(),
    {
        let tracker = TagTracker { current: ROOT_TAG.to_owned(), stack: Vec::new() };
        assert(views(tracker.stack@) == Seq::<Seq<char>>::empty());
        tracker
    }

    /// Enters the tag `name`: the tag that was current is remembered, and `name` is
    /// current from now on.
    pub fn on_start_tag(&mut self, name: String)
        ensures
            final(self)@ == old(self)@.start(name@),
    {
        let previous = self.current.clone();
        assert(views(self.stack@.push(previous)) == views(self.stack@).push(previous@));
        self.stack.push(previous);
        self.current = name;
    }

    /// Leaves the current tag: the tag remembered last becomes current again. Where
    /// nothing is remembered, nothing changes. The name that the end tag carries is
    /// not looked at.
    pub fn on_end_tag(&mut self, _name: &str)
        ensures
            final(self)@ == old(self)@.end(),
    {
        let ghost before = self.stack@;
        match self.stack.pop() {
            Some(parent) => {
                assert(views(before.drop_last()) == views(before).drop_last());
                self.current = parent;
            },
            None => {},
        }
    }

    /// The name of the current tag.
    pub fn current_tag(&self) -> (tag: &str)
        ensures
            tag@ == self@.current,
    {
        self.current.as_str()
    }

    /// The number of tags that are open above the root.
    pub fn depth(&self) -> (depth: usize)
        ensures
            depth == self@.depth(),
    {
        self.stack.len()
    }
}

/// An end tag with nothing remembered leaves the context as it is.
pub proof fn lemma_end_at_root_changes_nothing(context: TagContext)
    requires
        context.stack.len() == 0,
    ensures
        context.end() == context,
{
}

/// An end tag undoes the start tag right before it, whatever the two are called.
pub proof fn lemma_end_undoes_start(context: TagContext, name: Seq<char>)
    ensures
        context.start(name).end() == context,
{
    assert(context.stack.push(context.current).drop_last() == context.stack);
}

} // verus!
