//! Chat transcript state: the message list and keyboard navigation over
//! it, including the hand-off between the list and the input field that
//! the empty-field Up-arrow recall uses.

use vstd::prelude::*;

verus! {

/// Who produced a message.
#[derive(Clone, Copy, Debug, PartialEq, Eq, Structural)]
pub enum Role {
    User,
    Assistant,
}

/// One transcript entry; the body is kept as UTF-8 bytes.
pub struct Message {
    pub id: usize,
    pub role: Role,
    pub text: Vec<u8>,
    pub timestamp: u64,
}

/// The transcript and which of its messages keyboard focus rests on;
/// `None` with the flag set means focus has been handed back to the input
/// field below the list.
pub struct ChatState {
    pub messages: Vec<Message>,
    pub streaming: bool,
    pub edit_message_id: Option<usize>,
    pub focused_message_idx: Option<usize>,
    pub fake_focused_textarea: bool,
    pub last_id: usize,
}

impl ChatState {
    /// Message ids grow with their position, so each id appears once and
    /// `last_id` is fresh.
    pub open spec fn wf(&self) -> bool {
        &&& forall|i: int, j: int|
            0 <= i < j < self.messages@.len() ==> self.messages@[i].id < self.messages@[j].id
        &&& forall|i: int|
            0 <= i < self.messages@.len() ==> (#[trigger] self.messages@[i].id) < self.last_id
        &&& match self.focused_message_idx {
            Some(k) => k < self.messages@.len(),
            None => true,
        }
    }

    /// An empty transcript with nothing focused.
    pub fn new() -> (r: ChatState)
        ensures
            r.wf(),
            r.messages@.len() == 0,
            r.focused_message_idx is None,
            !r.fake_focused_textarea,
            !r.streaming,
    {
        ChatState {
            messages: Vec::new(),
            streaming: false,
            edit_message_id: None,
            focused_message_idx: None,
            fake_focused_textarea: false,
            last_id: 0,
        }
    }

    /// Appends a message and returns its fresh id; the host supplies the
    /// clock reading.
    pub fn add_message(&mut self, role: Role, text: Vec<u8>, timestamp: u64) -> (id: usize)
        requires
            old(self).wf(),
            old(self).last_id < usize::MAX,
        ensures
            final(self).wf(),
            final(self).messages@.len() == old(self).messages@.len() + 1,
            final(self).messages@.last().id == id,
            final(self).messages@.last().role == role,
            final(self).messages@.last().text@ == text@,
            final(self).messages@.last().timestamp == timestamp,
            id == old(self).last_id,
            final(self).last_id == old(self).last_id + 1,
            forall|i: int|
                0 <= i < old(self).messages@.len()
                    ==> final(self).messages@[i] == old(self).messages@[i],
    {
        let id = self.last_id;
        self.messages.push(Message { id, role, text, timestamp });
        self.last_id = self.last_id + 1;
        id
    }

    /// Replaces the body of the message with the given id, if it exists.
    pub fn edit_message(&mut self, id: usize, new_text: Vec<u8>)
        requires
            old(self).wf(),
        ensures
            final(self).wf(),
            final(self).messages@.len() == old(self).messages@.len(),
            forall|i: int|
                0 <= i < final(self).messages@.len() && old(self).messages@[i].id != id
                    ==> final(self).messages@[i] == old(self).messages@[i],
            forall|i: int|
                0 <= i < final(self).messages@.len() ==> (#[trigger] final(self).messages@[i]).id
                    == old(self).messages@[i].id
                    && final(self).messages@[i].role == old(self).messages@[i].role
                    && final(self).messages@[i].timestamp == old(self).messages@[i].timestamp,
            forall|i: int|
                0 <= i < final(self).messages@.len() && old(self).messages@[i].id == id
                    ==> (#[trigger] final(self).messages@[i]).text@ == new_text@,
    {
        let mut k: usize = 0;
        while k < self.messages.len()
            invariant
                old(self).wf(),
                k <= self.messages@.len(),
                self.messages@.len() == old(self).messages@.len(),
                self.last_id == old(self).last_id,
                self.focused_message_idx == old(self).focused_message_idx,
                forall|i: int| 0 <= i < k ==> (#[trigger] old(self).messages@[i]).id != id,
                forall|i: int|
                    0 <= i < self.messages@.len() && old(self).messages@[i].id != id ==> #[trigger] self.messages@[i]
                        == old(self).messages@[i],
                forall|i: int|
                    0 <= i < self.messages@.len() ==> (#[trigger] self.messages@[i]).id == old(
                        self,
                    ).messages@[i].id && self.messages@[i].role == old(self).messages@[i].role
                        && self.messages@[i].timestamp == old(self).messages@[i].timestamp,
            decreases self.messages@.len() - k,
        {
            if self.messages[k].id == id {
                let ts = self.messages[k].timestamp;
                let role = self.messages[k].role;
                self.messages.set(k, Message { id, role, text: new_text, timestamp: ts });
                proof {
                    assert forall|i: int|
                        0 <= i < self.messages@.len() && old(self).messages@[i].id
                            == id implies i == k by {
                        if i > k {
                            assert(old(self).messages@[k as int].id < old(self).messages@[i].id);
                        }
                    }
                }
                return ;
            }
            k = k + 1;
        }
    }

    /// Moves keyboard focus one message up: from the input field onto the
    /// last message, then towards the first.
    pub fn up(&mut self)
        requires
            old(self).wf(),
        ensures
            final(self).wf(),
            final(self).messages@ == old(self).messages@,
            old(self).messages@.len() == 0 ==> final(self).focused_message_idx is None,
            old(self).messages@.len() > 0 ==> match old(self).focused_message_idx {
                Some(i) => final(self).focused_message_idx == Some(
                    if i > 0 {
                        (i - 1) as usize
                    } else {
                        0
                    },
                ),
                None => final(self).focused_message_idx == Some(
                    (old(self).messages@.len() - 1) as usize,
                ),
            },
            !final(self).fake_focused_textarea,
    {
        if self.messages.len() == 0 {
            self.focused_message_idx = None;
            self.fake_focused_textarea = false;
            return ;
        }
        let len = self.messages.len();
        self.focused_message_idx = match self.focused_message_idx {
            Some(i) => Some(
                if i > 0 {
                    i - 1
                } else {
                    0
                },
            ),
            None => Some(len - 1),
        };
        self.fake_focused_textarea = false;
    }

    /// Moves keyboard focus one message down: past the last message it
    /// hands focus back to the input field.
    pub fn down(&mut self)
        requires
            old(self).wf(),
        ensures
            final(self).wf(),
            final(self).messages@ == old(self).messages@,
            old(self).messages@.len() == 0 ==> final(self).focused_message_idx is None,
            old(self).messages@.len() > 0 ==> match old(self).focused_message_idx {
                Some(i) => if i + 1 >= old(self).messages@.len() {
                    final(self).focused_message_idx is None && final(self).fake_focused_textarea
                } else {
                    final(self).focused_message_idx == Some((i + 1) as usize)
                },
                None => if old(self).fake_focused_textarea {
                    final(self).focused_message_idx is None
                } else {
                    final(self).focused_message_idx == Some(0usize)
                },
            },
    {
        let len = self.messages.len();
        if len == 0 {
            self.focused_message_idx = None;
            return ;
        }
        self.focused_message_idx = match self.focused_message_idx {
            Some(i) => {
                if i >= len - 1 {
                    self.fake_focused_textarea = true;
                    None
                } else {
                    Some(i + 1)
                }
            },
            None => {
                if !self.fake_focused_textarea {
                    Some(0)
                } else {
                    None
                }
            },
        };
    }
}

} // verus!
