//! A reader that tells a channel, once, that its body has begun to be read.
use vstd::prelude::*;
use async_channel::Sender;

verus! {

#[verifier::external_type_specification]
#[verifier::external_body]
#[verifier::reject_recursive_types(T)]
pub struct ExSender<T>(Sender<T>);

/// Calls `async_channel::Sender::try_send` with `()` and says whether the message was
/// queued. That depends on the channel's state at the time (full, closed), so nothing is
/// stated of the result.
#[verifier::external_body]
fn try_notify(sender: &Sender<()>) -> (sent: bool) {
    sender.try_send(()).is_ok()
}

/// What a call of `notify_read` did.
#[derive(Debug, Clone, Copy, PartialEq, Eq, Structural)]
pub enum Notice {
    /// The message had been sent before: nothing was tried.
    AlreadySent,
    /// A send was tried, and the channel took the message.
    Sent,
    /// A send was tried, and the channel did not take the message (full or closed).
    NotTaken,
}

/// Wraps a body reader; the first read sends a message on a channel.
#[derive(Debug)]
pub struct ReadNotifier<B> {
    reader: B,
    sender: Sender<()>,
    read: bool,
}

impl<B> ReadNotifier<B> {
    /// The wrapped reader.
    pub closed spec fn reader(&self) -> B {
        self.reader
    }

    /// Whether the message was sent.
    pub closed spec fn notified(&self) -> bool {
        self.read
    }

    /// The channel the message is sent on.
    pub closed spec fn sender(&self) -> Sender<()> {
        self.sender
    }

    /// Wraps `reader`; nothing is sent yet.
    pub fn new(reader: B, sender: Sender<()>) -> (n: Self)
        ensures
            n.reader() == reader,
            n.sender() == sender,
            !n.notified(),
    {
        ReadNotifier { reader, sender, read: false }
    }

    /// Whether a read should try to send the message: until it has been sent, each read
    /// tries.
    pub fn wants_notice(&self) -> (r: bool)
        ensures
            r == !self.notified(),
    {
        !self.read
    }

    /// Called before each read: until a message has been sent, tries to send one on the
    /// decoder's channel, and says what it did. Whether the channel takes the message
    /// depends on its state, which this library does not see.
    pub fn notify_read(&mut self) -> (r: Notice)
        ensures
            (r == Notice::AlreadySent) == old(self).notified(),
            final(self).notified() == (old(self).notified() || r == Notice::Sent),
            final(self).reader() == old(self).reader(),
            final(self).sender() == old(self).sender(),
    {
        if self.wants_notice() {
            let sent = try_notify(&self.sender);
            if self.record_attempt(sent) {
                Notice::Sent
            } else {
                Notice::NotTaken
            }
        } else {
            Notice::AlreadySent
        }
    }

    /// Records the outcome `sent` of an attempt to send the message: once it was sent,
    /// the message counts as sent. Says whether this attempt is the one that sent it.
    pub fn record_attempt(&mut self, sent: bool) -> (r: bool)
        ensures
            r == (sent && !old(self).notified()),
            final(self).notified() == (old(self).notified() || sent),
            final(self).reader() == old(self).reader(),
            final(self).sender() == old(self).sender(),
    {
        let first = sent && !self.read;
        if sent {
            self.read = true;
        }
        first
    }

    /// The wrapped reader, to read from.
    pub fn reader_mut(&mut self) -> (r: &mut B)
        ensures
            *r == old(self).reader(),
            final(self).reader() == *final(r),
            final(self).notified() == old(self).notified(),
    {
        &mut self.reader
    }
}

} // verus!
