//! The values handed to plugin code for the first backend: a status
//! snapshot, rooms, and incoming and outgoing messages. Each wraps plain
//! data; the host fills the snapshot before dispatch.

use vstd::prelude::*;

use crate::data_struct::{
    DeleteMessage, NewMessage, ReplyMessage, Room, RoomId, SendMessage, UserId, spec_is_chat,
    spec_is_room,
};

verus! {

broadcast use vstd::std_specs::vec::group_vec_axioms;

/// A snapshot of the first backend's session, as shown to plugins.
#[derive(Debug, Clone)]
pub struct IcaStatusPy {
    pub qq_login: bool,
    pub online: bool,
    pub self_id: i64,
    pub nick_name: String,
    pub loaded_messages_count: u64,
    pub ica_version: String,
    pub os_info: String,
    pub resident_set_size: String,
    pub heap_used: String,
    pub load: String,
    pub rooms: Vec<Room>,
    pub admins: Vec<UserId>,
    pub filtered: Vec<UserId>,
}

impl IcaStatusPy {
    /// An empty snapshot; the host fills it before handing it out.
    pub fn py_new() -> (r: Self)
        ensures
            !r.qq_login,
            !r.online,
            r.self_id == 0,
            r.nick_name@.len() == 0,
            r.loaded_messages_count == 0,
            r.rooms@.len() == 0,
            r.admins@.len() == 0,
            r.filtered@.len() == 0,
    {
        Self {
            qq_login: false,
            online: false,
            self_id: 0,
            nick_name: String::new(),
            loaded_messages_count: 0,
            ica_version: String::new(),
            os_info: String::new(),
            resident_set_size: String::new(),
            heap_used: String::new(),
            load: String::new(),
            rooms: Vec::new(),
            admins: Vec::new(),
            filtered: Vec::new(),
        }
    }

    /// An empty snapshot.
    pub fn new() -> (r: Self)
        ensures
            !r.qq_login,
            !r.online,
            r.rooms@.len() == 0,
    {
        Self::py_new()
    }

    pub fn get_qq_login(&self) -> (r: bool)
        ensures
            r == self.qq_login,
    {
        self.qq_login
    }

    pub fn get_online(&self) -> (r: bool)
        ensures
            r == self.online,
    {
        self.online
    }

    pub fn get_self_id(&self) -> (r: i64)
        ensures
            r == self.self_id,
    {
        self.self_id
    }

    pub fn get_nick_name(&self) -> (r: String)
        ensures
            r@ == self.nick_name@,
    {
        self.nick_name.clone()
    }

    pub fn get_loaded_messages_count(&self) -> (r: u64)
        ensures
            r == self.loaded_messages_count,
    {
        self.loaded_messages_count
    }

    pub fn get_ica_version(&self) -> (r: String)
        ensures
            r@ == self.ica_version@,
    {
        self.ica_version.clone()
    }

    pub fn get_os_info(&self) -> (r: String)
        ensures
            r@ == self.os_info@,
    {
        self.os_info.clone()
    }

    pub fn get_resident_set_size(&self) -> (r: String)
        ensures
            r@ == self.resident_set_size@,
    {
        self.resident_set_size.clone()
    }

    pub fn get_heap_used(&self) -> (r: String)
        ensures
            r@ == self.heap_used@,
    {
        self.heap_used.clone()
    }

    pub fn get_load(&self) -> (r: String)
        ensures
            r@ == self.load@,
    {
        self.load.clone()
    }

    /// The rooms this account has joined, wrapped for plugin use.
    pub fn get_rooms(&self) -> (r: Vec<IcaRoomPy>)
        ensures
            r@.len() == self.rooms@.len(),
            forall|i: int|
                0 <= i < r@.len() ==> (#[trigger] r@[i]).inner.room_id
                    == self.rooms@[i].room_id,
    {
        let mut out: Vec<IcaRoomPy> = Vec::new();
        let mut i: usize = 0;
        while i < self.rooms.len()
            invariant
                i <= self.rooms@.len(),
                out@.len() == i,
                forall|j: int|
                    0 <= j < i ==> (#[trigger] out@[j]).inner.room_id
                        == self.rooms@[j].room_id,
            decreases self.rooms@.len() - i,
        {
            out.push(IcaRoomPy { inner: self.rooms[i].clone() });
            i = i + 1;
        }
        out
    }

    /// The configured administrators.
    pub fn get_admins(&self) -> (r: Vec<UserId>)
        ensures
            r@ == self.admins@,
    {
        self.admins.clone()
    }

    /// The configured filtered senders.
    pub fn get_filtered(&self) -> (r: Vec<UserId>)
        ensures
            r@ == self.filtered@,
    {
        self.filtered.clone()
    }
}

/// One room, wrapped for plugin use.
#[derive(Debug, Clone)]
pub struct IcaRoomPy {
    pub inner: Room,
}

impl IcaRoomPy {
    pub fn get_room_id(&self) -> (r: i64)
        ensures
            r == self.inner.room_id,
    {
        self.inner.room_id
    }

    pub fn get_room_name(&self) -> (r: String)
        ensures
            r@ == self.inner.room_name@,
    {
        self.inner.room_name.clone()
    }

    pub fn get_unread_count(&self) -> (r: u64)
        ensures
            r == self.inner.unread_count,
    {
        self.inner.unread_count
    }

    pub fn get_priority(&self) -> (r: u8)
        ensures
            r == self.inner.priority,
    {
        self.inner.priority
    }

    pub fn get_utime(&self) -> (r: i64)
        ensures
            r == self.inner.utime,
    {
        self.inner.utime
    }

    /// Whether this is a group room.
    pub fn is_group(&self) -> (r: bool)
        ensures
            r == spec_is_room(self.inner.room_id),
    {
        crate::data_struct::room_id_is_room(self.inner.room_id)
    }

    /// Whether this is a one-to-one chat.
    pub fn is_chat(&self) -> (r: bool)
        ensures
            r == spec_is_chat(self.inner.room_id),
    {
        crate::data_struct::room_id_is_chat(self.inner.room_id)
    }

    /// A fresh outgoing message addressed to this room.
    pub fn new_message_to(&self, content: String) -> (r: SendMessagePy)
        ensures
            r.msg.content@ == content@,
            r.msg.room_id == self.inner.room_id,
    {
        SendMessagePy::new(self.inner.new_message_to(content))
    }
}

/// An incoming message, wrapped for plugin use.
#[derive(Debug, Clone)]
pub struct NewMessagePy {
    pub msg: NewMessage,
}

impl NewMessagePy {
    pub fn new(msg: &NewMessage) -> (r: Self)
        ensures
            r.msg.msg_id@ == msg.msg_id@,
            r.msg.content@ == msg.content@,
            r.msg.sender_id == msg.sender_id,
            r.msg.sender_name@ == msg.sender_name@,
            r.msg.is_from_self == msg.is_from_self,
            r.msg.is_reply == msg.is_reply,
            r.msg.room_id == msg.room_id,
    {
        Self { msg: msg.clone() }
    }

    /// An outgoing reply to this message.
    pub fn reply_with(&self, content: String) -> (r: SendMessagePy)
        ensures
            r.msg.content@ == content@,
            r.msg.room_id == self.msg.room_id,
            r.msg.reply_to matches Option::Some(rep) && rep.msg_id@ == self.msg.msg_id@,
    {
        SendMessagePy::new(self.msg.reply_with(content.as_str()))
    }

    /// The deletion order for this message.
    pub fn as_deleted(&self) -> (r: DeleteMessagePy)
        ensures
            r.msg.msg_id@ == self.msg.msg_id@,
            r.msg.room_id == self.msg.room_id,
    {
        DeleteMessagePy::new(self.msg.as_deleted())
    }

    pub fn get_id(&self) -> (r: String)
        ensures
            r@ == self.msg.msg_id@,
    {
        self.msg.msg_id.clone()
    }

    pub fn get_content(&self) -> (r: String)
        ensures
            r@ == self.msg.content@,
    {
        self.msg.content.clone()
    }

    pub fn get_sender_id(&self) -> (r: i64)
        ensures
            r == self.msg.sender_id,
    {
        self.msg.sender_id
    }

    pub fn get_sender_name(&self) -> (r: String)
        ensures
            r@ == self.msg.sender_name@,
    {
        self.msg.sender_name.clone()
    }

    pub fn get_is_from_self(&self) -> (r: bool)
        ensures
            r == self.msg.is_from_self,
    {
        self.msg.is_from_self
    }

    pub fn get_is_reply(&self) -> (r: bool)
        ensures
            r == self.msg.is_reply,
    {
        self.msg.is_reply
    }

    pub fn get_is_room_msg(&self) -> (r: bool)
        ensures
            r == spec_is_room(self.msg.room_id),
    {
        crate::data_struct::room_id_is_room(self.msg.room_id)
    }

    pub fn get_is_chat_msg(&self) -> (r: bool)
        ensures
            r == spec_is_chat(self.msg.room_id),
    {
        crate::data_struct::room_id_is_chat(self.msg.room_id)
    }

    pub fn get_room_id(&self) -> (r: RoomId)
        ensures
            r == self.msg.room_id,
    {
        self.msg.room_id
    }
}

/// A reply head, wrapped for plugin use.
#[derive(Debug, Clone)]
pub struct ReplyMessagePy {
    pub msg: ReplyMessage,
}

impl ReplyMessagePy {
    pub fn new(msg: ReplyMessage) -> (r: Self)
        ensures
            r.msg == msg,
    {
        Self { msg }
    }
}

/// An outgoing message, wrapped for plugin use.
#[derive(Debug)]
pub struct SendMessagePy {
    pub msg: SendMessage,
}

impl Clone for SendMessagePy {
    /// A copy carrying a copy of the message.
    fn clone(&self) -> (r: Self)
        ensures
            r.msg.content@ == self.msg.content@,
            r.msg.room_id == self.msg.room_id,
            r.msg.reply_to is Some <==> self.msg.reply_to is Some,
            r.msg.img is Some <==> self.msg.img is Some,
    {
        Self { msg: self.msg.clone() }
    }
}

impl SendMessagePy {
    pub fn new(msg: SendMessage) -> (r: Self)
        ensures
            r.msg == msg,
    {
        Self { msg }
    }

    /// Set the text and hand a copy back, for chaining.
    pub fn with_content(&mut self, content: String) -> (r: Self)
        ensures
            final(self).msg.content@ == content@,
            final(self).msg.room_id == old(self).msg.room_id,
            final(self).msg.reply_to == old(self).msg.reply_to,
            r.msg.content@ == content@,
            r.msg.room_id == old(self).msg.room_id,
    {
        self.msg.content = content;
        let copy = self.clone();
        copy
    }

    pub fn get_content(&self) -> (r: String)
        ensures
            r@ == self.msg.content@,
    {
        self.msg.content.clone()
    }

    pub fn set_content(&mut self, content: String)
        ensures
            final(self).msg.content@ == content@,
            final(self).msg.room_id == old(self).msg.room_id,
            final(self).msg.reply_to == old(self).msg.reply_to,
            final(self).msg.img == old(self).msg.img,
    {
        self.msg.content = content;
    }

    pub fn get_room_id(&self) -> (r: RoomId)
        ensures
            r == self.msg.room_id,
    {
        self.msg.room_id
    }

    pub fn set_room_id(&mut self, room_id: RoomId)
        ensures
            final(self).msg.room_id == room_id,
            final(self).msg.content@ == old(self).msg.content@,
            final(self).msg.reply_to == old(self).msg.reply_to,
            final(self).msg.img == old(self).msg.img,
    {
        self.msg.room_id = room_id;
    }

    /// Attach an image.
    pub fn set_img(&mut self, file: Vec<u8>, file_type: String, as_sticker: bool)
        ensures
            final(self).msg.img matches Option::Some(i) && i.data@ == file@ && i.file_type@
                == file_type@ && i.as_sticker == as_sticker,
            final(self).msg.content@ == old(self).msg.content@,
            final(self).msg.room_id == old(self).msg.room_id,
            final(self).msg.reply_to == old(self).msg.reply_to,
    {
        self.msg.set_img(&file, file_type.as_str(), as_sticker);
    }

    /// Drop the reply head and hand a copy back, for chaining.
    pub fn remove_reply(&mut self) -> (r: Self)
        ensures
            final(self).msg.reply_to is None,
            final(self).msg.content@ == old(self).msg.content@,
            final(self).msg.room_id == old(self).msg.room_id,
            r.msg.reply_to is None,
            r.msg.content@ == old(self).msg.content@,
    {
        self.msg.reply_to = None;
        self.clone()
    }
}

/// A deletion order, wrapped for plugin use.
#[derive(Debug, Clone)]
pub struct DeleteMessagePy {
    pub msg: DeleteMessage,
}

impl DeleteMessagePy {
    pub fn new(msg: DeleteMessage) -> (r: Self)
        ensures
            r.msg == msg,
    {
        Self { msg }
    }
}

} // verus!
