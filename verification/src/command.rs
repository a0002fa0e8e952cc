//! Deferred commands.
//!
//! Code running in the middle of an update must not mutate the world it is
//! iterating; it queues a command instead, and the scheduler drains the
//! queue at the start of the next tick, strictly first-in first-out.

use vstd::prelude::*;

verus! {

/// A deferred mutation: it captures its arguments and runs later against
/// the world value handed to it.
pub trait Command<Args> {
    /// Runs the command.
    fn run(&mut self, args: &mut Args);
}

/// A first-in first-out buffer of commands.
pub struct CommandBuffer<C> {
    commands: Vec<C>,
}

impl<C> CommandBuffer<C> {
    /// The queued commands, oldest first.
    pub closed spec fn queued(self) -> Seq<C> {
        self.commands@
    }

    /// Creates an empty buffer.
    pub fn new() -> (r: CommandBuffer<C>)
        ensures
            r.queued() == Seq::<C>::empty(),
    {
        CommandBuffer { commands: Vec::new() }
    }

    /// Appends a command at the tail.
    pub fn push(&mut self, command: C)
        ensures
            final(self).queued() == old(self).queued().push(command),
    {
        self.commands.push(command);
    }

    /// Takes the oldest queued command, if any.
    pub fn pop(&mut self) -> (r: Option<C>)
        ensures
            old(self).queued().len() > 0 ==> {
                &&& r === Some(old(self).queued().first())
                &&& final(self).queued() == old(self).queued().drop_first()
            },
            old(self).queued().len() == 0 ==> {
                &&& r is None
                &&& final(self).queued() == old(self).queued()
            },
    {
        if self.commands.len() > 0 {
            Some(self.commands.remove(0))
        } else {
            None
        }
    }
}

/// Command ordering: however many commands other senders queued before,
/// sending three commands in a row puts them behind the earlier ones, in
/// exactly the order they were sent; the receiver, which takes from the
/// front, therefore yields them in that order.
pub proof fn lemma_command_ordering<C>(queued: Seq<C>, c1: C, c2: C, c3: C)
    ensures
        queued.push(c1).push(c2).push(c3).len() == queued.len() + 3,
        queued.push(c1).push(c2).push(c3)[queued.len() as int] == c1,
        queued.push(c1).push(c2).push(c3)[queued.len() as int + 1] == c2,
        queued.push(c1).push(c2).push(c3)[queued.len() as int + 2] == c3,
{
}

} // verus!
