//! The latest messages of the chats that a stream has.

use crate::clock;
use crate::clock::{unix_ms_now, ClockError};
use crate::health_report::ChatMessage;
use crate::server_ui;
use std::collections::VecDeque;
use std::time::SystemTime;
use vstd::prelude::*;

verus! {

/// A message of a Twitch chat.
#[derive(Debug)]
pub struct TwitchChatMessage {
    pub id: u64,
    pub unix_ms: u64,
    pub user: String,
    pub text: String,
}

impl Clone for TwitchChatMessage {
    fn clone(&self) -> (copy: TwitchChatMessage)
        ensures
            copy == *self,
    {
        TwitchChatMessage {
            id: self.id,
            unix_ms: self.unix_ms,
            user: self.user.clone(),
            text: self.text.clone(),
        }
    }
}

/// The latest messages of a Twitch chat, numbered from one on.
pub struct TwitchChat {
    pub messages: VecDeque<TwitchChatMessage>,
    pub next_id: u64,
    pub max_messages: usize,
}

impl TwitchChat {
    /// There are no more messages than are kept.
    pub open spec fn well_formed(self) -> bool {
        self.messages@.len() <= self.max_messages
    }

    pub fn new(max_messages: usize) -> (chat: TwitchChat)
        ensures
            chat.well_formed(),
            chat.messages@ == Seq::<TwitchChatMessage>::empty(),
            chat.next_id == 1,
            chat.max_messages == max_messages,
    {
        TwitchChat { messages: VecDeque::new(), next_id: 1, max_messages }
    }

    /// The messages that are kept, the oldest first.
    pub fn recent_messages(&self) -> (messages: Vec<TwitchChatMessage>)
        ensures
            messages@ == self.messages@,
    {
        let mut messages: Vec<TwitchChatMessage> = Vec::new();
        for i in 0..self.messages.len()
            invariant
                messages@ == self.messages@.take(i as int),
        {
            messages.push(self.messages[i].clone());
            assert(messages@ =~= self.messages@.take(i + 1));
        }
        assert(self.messages@.take(self.messages@.len() as int) =~= self.messages@);
        messages
    }

    /// The messages that are kept, as they are reported to the clients.
    pub fn reported(&self) -> (messages: Vec<ChatMessage>)
        ensures
            messages@.len() == self.messages@.len(),
            forall|i: int|
                0 <= i < messages@.len() ==> #[trigger] messages@[i] == (ChatMessage {
                    id: self.messages@[i].id,
                    unix_ms: self.messages@[i].unix_ms,
                    user: self.messages@[i].user,
                    text: self.messages@[i].text,
                }),
    {
        let mut messages: Vec<ChatMessage> = Vec::new();
        for i in 0..self.messages.len()
            invariant
                messages@.len() == i,
                forall|j: int|
                    0 <= j < i ==> #[trigger] messages@[j] == (ChatMessage {
                        id: self.messages@[j].id,
                        unix_ms: self.messages@[j].unix_ms,
                        user: self.messages@[j].user,
                        text: self.messages@[j].text,
                    }),
        {
            let message = &self.messages[i];
            messages.push(
                ChatMessage {
                    id: message.id,
                    unix_ms: message.unix_ms,
                    user: message.user.clone(),
                    text: message.text.clone(),
                },
            );
        }
        messages
    }

    /// Takes up a message that came at a known time, or uses up its number if the time is not
    /// known. The oldest messages make room; the numbers wrap around.
    pub fn push_at(
        &mut self,
        user: String,
        text: String,
        unix_ms: Result<u64, ClockError>,
    ) -> (result: Result<(), ClockError>)
        requires
            old(self).well_formed(),
        ensures
            final(self).well_formed(),
            final(self).next_id == server_ui::wrapped_sum(old(self).next_id, 1),
            final(self).max_messages == old(self).max_messages,
            match unix_ms {
                Ok(unix_ms) => {
                    let all = old(self).messages@.push(
                        TwitchChatMessage { id: old(self).next_id, unix_ms, user, text },
                    );
                    &&& result is Ok
                    &&& final(self).messages@ == (if all.len() > old(self).max_messages {
                        all.drop_first()
                    } else {
                        all
                    })
                },
                Err(error) => result == Err::<(), ClockError>(error) && final(self).messages@ == old(
                    self,
                ).messages@,
            },
    {
        let id: u64 = self.next_id;
        self.next_id = id.wrapping_add(1);
        match unix_ms {
            Ok(unix_ms) => {
                self.messages.push_back(TwitchChatMessage { id, unix_ms, user, text });
                if self.messages.len() > self.max_messages {
                    let _ = self.messages.pop_front();
                }
                Ok(())
            },
            Err(error) => Err(error),
        }
    }

    /// Takes up a message that comes now.
    pub fn push(&mut self, user: String, text: String) -> (result: Result<(), ClockError>)
        requires
            old(self).well_formed(),
        ensures
            final(self).well_formed(),
            final(self).next_id == server_ui::wrapped_sum(old(self).next_id, 1),
            final(self).max_messages == old(self).max_messages,
            exists|time: SystemTime|
                match clock::timestamp(
                    clock::whole_units(#[trigger] clock::nanos_after_epoch(time), 1_000_000),
                ) {
                    Ok(unix_ms) => {
                        let all = old(self).messages@.push(
                            TwitchChatMessage { id: old(self).next_id, unix_ms, user, text },
                        );
                        &&& result is Ok
                        &&& final(self).messages@ == (if all.len() > old(self).max_messages {
                            all.drop_first()
                        } else {
                            all
                        })
                    },
                    Err(error) => result == Err::<(), ClockError>(error) && final(self).messages@
                        == old(self).messages@,
                },
    {
        let unix_ms = unix_ms_now();
        self.push_at(user, text, unix_ms)
    }
}

/// A message of a Kick chat.
#[derive(Debug)]
pub struct KickChatMessage {
    pub id: u64,
    pub unix_ms: u64,
    pub user: String,
    pub text: String,
}

impl Clone for KickChatMessage {
    fn clone(&self) -> (copy: KickChatMessage)
        ensures
            copy == *self,
    {
        KickChatMessage {
            id: self.id,
            unix_ms: self.unix_ms,
            user: self.user.clone(),
            text: self.text.clone(),
        }
    }
}

/// The latest messages of a Kick chat, numbered from one on.
pub struct KickChat {
    pub messages: VecDeque<KickChatMessage>,
    pub next_id: u64,
    pub max_messages: usize,
}

impl KickChat {
    /// There are no more messages than are kept.
    pub open spec fn well_formed(self) -> bool {
        self.messages@.len() <= self.max_messages
    }

    pub fn new(max_messages: usize) -> (chat: KickChat)
        ensures
            chat.well_formed(),
            chat.messages@ == Seq::<KickChatMessage>::empty(),
            chat.next_id == 1,
            chat.max_messages == max_messages,
    {
        KickChat { messages: VecDeque::new(), next_id: 1, max_messages }
    }

    /// The messages that are kept, the oldest first.
    pub fn recent_messages(&self) -> (messages: Vec<KickChatMessage>)
        ensures
            messages@ == self.messages@,
    {
        let mut messages: Vec<KickChatMessage> = Vec::new();
        for i in 0..self.messages.len()
            invariant
                messages@ == self.messages@.take(i as int),
        {
            messages.push(self.messages[i].clone());
            assert(messages@ =~= self.messages@.take(i + 1));
        }
        assert(self.messages@.take(self.messages@.len() as int) =~= self.messages@);
        messages
    }

    /// The messages that are kept, as they are reported to the clients.
    pub fn reported(&self) -> (messages: Vec<ChatMessage>)
        ensures
            messages@.len() == self.messages@.len(),
            forall|i: int|
                0 <= i < messages@.len() ==> #[trigger] messages@[i] == (ChatMessage {
                    id: self.messages@[i].id,
                    unix_ms: self.messages@[i].unix_ms,
                    user: self.messages@[i].user,
                    text: self.messages@[i].text,
                }),
    {
        let mut messages: Vec<ChatMessage> = Vec::new();
        for i in 0..self.messages.len()
            invariant
                messages@.len() == i,
                forall|j: int|
                    0 <= j < i ==> #[trigger] messages@[j] == (ChatMessage {
                        id: self.messages@[j].id,
                        unix_ms: self.messages@[j].unix_ms,
                        user: self.messages@[j].user,
                        text: self.messages@[j].text,
                    }),
        {
            let message = &self.messages[i];
            messages.push(
                ChatMessage {
                    id: message.id,
                    unix_ms: message.unix_ms,
                    user: message.user.clone(),
                    text: message.text.clone(),
                },
            );
        }
        messages
    }

    /// Takes up a message that came at a known time, or uses up its number if the time is not
    /// known. The oldest messages make room; the numbers wrap around.
    pub fn push_at(
        &mut self,
        user: String,
        text: String,
        unix_ms: Result<u64, ClockError>,
    ) -> (result: Result<(), ClockError>)
        requires
            old(self).well_formed(),
        ensures
            final(self).well_formed(),
            final(self).next_id == server_ui::wrapped_sum(old(self).next_id, 1),
            final(self).max_messages == old(self).max_messages,
            match unix_ms {
                Ok(unix_ms) => {
                    let all = old(self).messages@.push(
                        KickChatMessage { id: old(self).next_id, unix_ms, user, text },
                    );
                    &&& result is Ok
                    &&& final(self).messages@ == (if all.len() > old(self).max_messages {
                        all.drop_first()
                    } else {
                        all
                    })
                },
                Err(error) => result == Err::<(), ClockError>(error) && final(self).messages@ == old(
                    self,
                ).messages@,
            },
    {
        let id: u64 = self.next_id;
        self.next_id = id.wrapping_add(1);
        match unix_ms {
            Ok(unix_ms) => {
                self.messages.push_back(KickChatMessage { id, unix_ms, user, text });
                if self.messages.len() > self.max_messages {
                    let _ = self.messages.pop_front();
                }
                Ok(())
            },
            Err(error) => Err(error),
        }
    }

    /// Takes up a message that comes now.
    pub fn push(&mut self, user: String, text: String) -> (result: Result<(), ClockError>)
        requires
            old(self).well_formed(),
        ensures
            final(self).well_formed(),
            final(self).next_id == server_ui::wrapped_sum(old(self).next_id, 1),
            final(self).max_messages == old(self).max_messages,
            exists|time: SystemTime|
                match clock::timestamp(
                    clock::whole_units(#[trigger] clock::nanos_after_epoch(time), 1_000_000),
                ) {
                    Ok(unix_ms) => {
                        let all = old(self).messages@.push(
                            KickChatMessage { id: old(self).next_id, unix_ms, user, text },
                        );
                        &&& result is Ok
                        &&& final(self).messages@ == (if all.len() > old(self).max_messages {
                            all.drop_first()
                        } else {
                            all
                        })
                    },
                    Err(error) => result == Err::<(), ClockError>(error) && final(self).messages@
                        == old(self).messages@,
                },
    {
        let unix_ms = unix_ms_now();
        self.push_at(user, text, unix_ms)
    }
}

} // verus!
