//! The notification queue: lightweight "a channel has a new message"
//! notes that wake the agent, handed out first in, first out. The agent
//! reads the messages themselves from the channel log.

use vstd::prelude::*;
use crate::text::views;

verus! {

/// A channel has a new message.
#[derive(Debug)]
pub struct ChannelNotification {
    /// Channel identifier (e.g. `discord_general`)
    pub channel: String,
    /// The new message's id, as text
    pub id: String,
}

impl View for ChannelNotification {
    type V = (Seq<char>, Seq<char>);

    open spec fn view(&self) -> (Seq<char>, Seq<char>) {
        (self.channel@, self.id@)
    }
}

/// Notifications waiting to be handled, oldest first.
pub struct MessageQueue {
    items: Vec<ChannelNotification>,
}

impl View for MessageQueue {
    type V = Seq<(Seq<char>, Seq<char>)>;

    closed spec fn view(&self) -> Seq<(Seq<char>, Seq<char>)> {
        views::<ChannelNotification>(self.items@)
    }
}

impl MessageQueue {
    pub fn new() -> (r: Self)
        ensures
            r@ == Seq::<(Seq<char>, Seq<char>)>::empty(),
    {
        let r = MessageQueue { items: Vec::new() };
        proof {
            assert(r@ =~= Seq::<(Seq<char>, Seq<char>)>::empty());
        }
        r
    }

    /// Add a notification at the back.
    pub fn push(&mut self, notification: ChannelNotification)
        ensures
            final(self)@ == old(self)@.push(notification@),
    {
        let ghost before = self@;
        self.items.push(notification);
        proof {
            assert(self@ =~= before.push(notification@));
        }
    }

    /// Hand out every notification, oldest first, leaving the queue empty.
    pub fn drain(&mut self) -> (r: Vec<ChannelNotification>)
        ensures
            views::<ChannelNotification>(r@) == old(self)@,
            final(self)@ == Seq::<(Seq<char>, Seq<char>)>::empty(),
    {
        let mut out: Vec<ChannelNotification> = Vec::new();
        std::mem::swap(&mut out, &mut self.items);
        proof {
            assert(self@ =~= Seq::<(Seq<char>, Seq<char>)>::empty());
        }
        out
    }

    pub fn is_empty(&self) -> (r: bool)
        ensures
            r == (self@.len() == 0),
    {
        self.items.len() == 0
    }

    pub fn len(&self) -> (r: usize)
        ensures
            r == self@.len(),
    {
        self.items.len()
    }
}

impl Default for MessageQueue {
    fn default() -> (r: Self)
        ensures
            r@ == Seq::<(Seq<char>, Seq<char>)>::empty(),
    {
        MessageQueue::new()
    }
}

/// First in, first out: what is drained after pushing onto an empty
/// queue is what was pushed, in the order pushed.
pub proof fn law_fifo(pushed: Seq<(Seq<char>, Seq<char>)>)
    ensures
        pushed.fold_left(Seq::<(Seq<char>, Seq<char>)>::empty(), |q: Seq<(Seq<char>, Seq<char>)>, n: (Seq<char>, Seq<char>)| q.push(n)) == pushed,
    decreases pushed.len(),
{
    if pushed.len() > 0 {
        law_fifo(pushed.drop_last());
        assert(pushed.drop_last().push(pushed.last()) =~= pushed);
    }
}

} // verus!
