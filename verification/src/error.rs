//! [`FitsError`]: a CFITSIO status plus the messages of its error stack.
use vstd::prelude::*;
use crate::status::status_message;
use crate::status::status_text;

verus! {

/// An error identified by a CFITSIO status code.
///
/// `status` is the `int` CFITSIO would have written through `int *status`;
/// `messages` are the lines CFITSIO would have pushed on its error stack.
#[derive(Debug, Clone, PartialEq, Eq)]
pub struct FitsError {
    /// CFITSIO status code.
    pub status: i32,
    /// Stack messages, oldest first.
    pub messages: Vec<String>,
}

impl FitsError {
    /// The stack messages, each as its characters.
    pub open spec fn message_list(&self) -> Seq<Seq<char>> {
        self.messages@.map_values(|m: String| m@)
    }

    /// Error with a status code and an empty message stack.
    pub fn new(status: i32) -> (r: FitsError)
        ensures
            r.status == status,
            r.message_list() == Seq::<Seq<char>>::empty(),
    {
        let r = FitsError { status, messages: Vec::new() };
        assert(r.message_list() =~= Seq::<Seq<char>>::empty());
        r
    }

    /// Error with a status code and one stack message.
    pub fn with_message(status: i32, msg: &str) -> (r: FitsError)
        ensures
            r.status == status,
            r.message_list() == seq![msg@],
    {
        let mut messages: Vec<String> = Vec::new();
        messages.push(msg.to_owned());
        let r = FitsError { status, messages };
        assert(r.message_list() =~= seq![msg@]);
        r
    }

    /// Short `ffgerr` text for the status.
    pub fn status_text(&self) -> (r: &'static str)
        ensures
            r@ == status_message(self.status),
    {
        status_text(self.status)
    }

    /// Messages that would appear on CFITSIO's error stack for this call.
    pub fn messages(&self) -> (r: &[String])
        ensures
            r@.map_values(|m: String| m@) == self.message_list(),
    {
        self.messages.as_slice()
    }

    /// Append a stack message (analogue of `ffpmsg`).
    pub fn push_message(&mut self, msg: &str)
        ensures
            final(self).status == old(self).status,
            final(self).message_list() == old(self).message_list().push(msg@),
    {
        self.messages.push(msg.to_owned());
        assert(self.message_list() =~= old(self).message_list().push(msg@));
    }
}

/// CFITSIO's error-message stack (`ffpmsg`, `ffgmsg`, `ffcmsg`): messages
/// are read back oldest first.
#[derive(Debug)]
pub struct MessageQueue {
    messages: Vec<String>,
}

impl View for MessageQueue {
    type V = Seq<Seq<char>>;

    /// The messages, oldest first.
    closed spec fn view(&self) -> Seq<Seq<char>> {
        self.messages@.map_values(|m: String| m@)
    }
}

impl MessageQueue {
    /// No messages.
    pub fn new() -> (r: MessageQueue)
        ensures
            r@ == Seq::<Seq<char>>::empty(),
    {
        let r = MessageQueue { messages: Vec::new() };
        assert(r@ =~= Seq::<Seq<char>>::empty());
        r
    }

    /// Add a message after the others (`ffpmsg`).
    pub fn push_err_msg(&mut self, msg: String)
        ensures
            final(self)@ == old(self)@.push(msg@),
    {
        self.messages.push(msg);
        assert(self@ =~= old(self)@.push(msg@));
    }

    /// Take the oldest message (`ffgmsg`); `None` when there is none.
    pub fn pop_err_msg(&mut self) -> (r: Option<String>)
        ensures
            old(self)@.len() == 0 ==> r is None && final(self)@ == old(self)@,
            old(self)@.len() > 0 ==> (r matches Some(m) && m@ == old(self)@[0] && final(self)@ == old(self)@.drop_first()),
    {
        if self.messages.len() == 0 {
            return None;
        }
        let ghost before = self.messages@;
        let m = self.messages.remove(0);
        assert(self@ =~= old(self)@.drop_first());
        assert(m == before[0]);
        Some(m)
    }

    /// Drop every message (`ffcmsg`).
    pub fn clear_err_msg(&mut self)
        ensures
            final(self)@ == Seq::<Seq<char>>::empty(),
    {
        self.messages.clear();
        assert(self@ =~= Seq::<Seq<char>>::empty());
    }
}

} // verus!
