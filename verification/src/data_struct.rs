//! Plain data carried between the chat backends and the plugins: rooms,
//! messages, and the music-platform names used in rich message nodes.

use vstd::prelude::*;

use crate::strutil::push_str;

verus! {

/// A chat room's identifier; negative for group rooms, positive for
/// one-to-one chats.
pub type RoomId = i64;

/// A user's identifier.
pub type UserId = i64;

/// Whether a room id names a group room.
pub open spec fn spec_is_room(id: RoomId) -> bool {
    id < 0
}

/// Whether a room id names a one-to-one chat.
pub open spec fn spec_is_chat(id: RoomId) -> bool {
    id > 0
}

/// Whether a room id names a group room.
pub fn room_id_is_room(id: RoomId) -> (r: bool)
    ensures
        r == spec_is_room(id),
{
    id < 0
}

/// Whether a room id names a one-to-one chat.
pub fn room_id_is_chat(id: RoomId) -> (r: bool)
    ensures
        r == spec_is_chat(id),
{
    id > 0
}

/// The room id used when a payload carries none.
pub fn room_id_default() -> (r: RoomId)
    ensures
        r == -1,
{
    -1
}

/// Who a room's unread messages mention.
#[derive(Debug, Clone, Copy, PartialEq, Eq, Structural)]
pub enum At {
    /// Nobody in particular.
    No,
    /// This account.
    Mentioned,
    /// Everyone.
    All,
}

/// The newest message shown in a room's summary.
#[derive(Debug)]
pub struct LastMessage {
    /// The message's text.
    pub content: String,
    /// The sender's display name.
    pub username: String,
}

/// One chat room as the first backend reports it.
#[derive(Debug)]
pub struct Room {
    pub room_id: RoomId,
    pub room_name: String,
    pub index: i64,
    pub unread_count: u64,
    pub priority: u8,
    pub utime: i64,
    pub at: At,
    pub last_message: LastMessage,
}

impl Room {
    /// A fresh outgoing message addressed to this room.
    pub fn new_message_to(&self, content: String) -> (r: SendMessage)
        ensures
            r.content@ == content@,
            r.room_id == self.room_id,
            r.reply_to is None,
            r.img is None,
    {
        SendMessage::new(content, self.room_id, None)
    }
}

/// A request to join a group room, as the first backend reports it.
#[derive(Debug, Clone)]
pub struct JoinRequestRoom {
    /// The request's question and answer text.
    pub comment: String,
    pub group_id: RoomId,
    pub group_name: String,
    pub user_id: UserId,
    pub nickname: String,
    pub request_type: String,
    pub post_type: String,
    pub sub_type: String,
    pub time: i64,
    pub tips: String,
    pub flag: String,
}

/// The music platforms a rich message node can point at.
#[non_exhaustive]
#[derive(Debug, Clone, Copy, PartialEq, Eq, Structural)]
pub enum MusicPlatform {
    QQ,
    Netease,
    Kugou,
    Kuwo,
    Migu,
}

impl MusicPlatform {
    /// The platform's wire name.
    pub fn name(&self) -> (r: &str)
        ensures
            r@ == match self {
                MusicPlatform::QQ => "qq"@,
                MusicPlatform::Netease => "163"@,
                MusicPlatform::Kugou => "kugou"@,
                MusicPlatform::Kuwo => "kuwo"@,
                MusicPlatform::Migu => "migu"@,
            },
    {
        match self {
            MusicPlatform::QQ => "qq",
            MusicPlatform::Netease => "163",
            MusicPlatform::Kugou => "kugou",
            MusicPlatform::Kuwo => "kuwo",
            MusicPlatform::Migu => "migu",
        }
    }
}

/// The reply head carried by an outgoing message.
#[derive(Debug)]
pub struct ReplyMessage {
    /// The replied-to message's identifier.
    pub msg_id: String,
    /// The replied-to message's text.
    pub content: String,
}

/// An image attached to an outgoing message.
#[derive(Debug)]
pub struct ImgData {
    /// The raw image bytes.
    pub data: Vec<u8>,
    /// The image's file type.
    pub file_type: String,
    /// Whether to send it as a sticker.
    pub as_sticker: bool,
}

/// An outgoing message for the first backend.
#[derive(Debug)]
pub struct SendMessage {
    /// The text to send.
    pub content: String,
    /// The room to send to.
    pub room_id: RoomId,
    /// The message replied to, if any.
    pub reply_to: Option<ReplyMessage>,
    /// The image attached, if any.
    pub img: Option<ImgData>,
}

impl SendMessage {
    /// A plain text message.
    pub fn new(content: String, room_id: RoomId, reply_to: Option<ReplyMessage>) -> (r: Self)
        ensures
            r.content@ == content@,
            r.room_id == room_id,
            r.reply_to == reply_to,
            r.img is None,
    {
        Self { content, room_id, reply_to, img: None }
    }

    /// Attach an image; everything else stays.
    pub fn set_img(&mut self, file: &Vec<u8>, file_type: &str, as_sticker: bool)
        ensures
            final(self).img matches Option::Some(i) && i.data@ == file@ && i.file_type@
                == file_type@ && i.as_sticker == as_sticker,
            final(self).content == old(self).content,
            final(self).room_id == old(self).room_id,
            final(self).reply_to == old(self).reply_to,
    {
        self.img = Some(
            ImgData { data: file.clone(), file_type: file_type.to_owned(), as_sticker },
        );
    }
}

/// An incoming message from the first backend.
#[derive(Debug)]
pub struct NewMessage {
    /// The message's identifier.
    pub msg_id: String,
    /// The message's text.
    pub content: String,
    /// The sender's identifier.
    pub sender_id: UserId,
    /// The sender's display name.
    pub sender_name: String,
    /// Whether this account sent it.
    pub is_from_self: bool,
    /// Whether it replies to another message.
    pub is_reply: bool,
    /// The room it arrived in.
    pub room_id: RoomId,
}

impl NewMessage {
    /// An outgoing reply to this message, addressed to its room.
    pub fn reply_with(&self, content: &str) -> (r: SendMessage)
        ensures
            r.content@ == content@,
            r.room_id == self.room_id,
            r.reply_to matches Option::Some(rep) && rep.msg_id@ == self.msg_id@ && rep.content@
                == self.content@,
            r.img is None,
    {
        SendMessage::new(
            content.to_owned(),
            self.room_id,
            Some(ReplyMessage { msg_id: self.msg_id.clone(), content: self.content.clone() }),
        )
    }

    /// The deletion order for this message.
    pub fn as_deleted(&self) -> (r: DeleteMessage)
        ensures
            r.msg_id@ == self.msg_id@,
            r.room_id == self.room_id,
    {
        DeleteMessage { msg_id: self.msg_id.clone(), room_id: self.room_id }
    }

    /// A short description: the sender and the text.
    pub fn describe(&self) -> (r: String)
        ensures
            r@ == self.sender_name@ + ": "@ + self.content@,
    {
        let mut s = String::new();
        push_str(&mut s, self.sender_name.as_str());
        push_str(&mut s, ": ");
        push_str(&mut s, self.content.as_str());
        s
    }
}

/// An order to delete one message.
#[derive(Debug)]
pub struct DeleteMessage {
    /// The message to delete.
    pub msg_id: String,
    /// The room it sits in.
    pub room_id: RoomId,
}

impl Clone for LastMessage {
    /// A copy with the same text and name.
    fn clone(&self) -> (r: Self)
        ensures
            r.content@ == self.content@,
            r.username@ == self.username@,
    {
        Self { content: self.content.clone(), username: self.username.clone() }
    }
}

impl Clone for Room {
    /// A copy with the same fields.
    fn clone(&self) -> (r: Self)
        ensures
            r.room_id == self.room_id,
            r.room_name@ == self.room_name@,
            r.index == self.index,
            r.unread_count == self.unread_count,
            r.priority == self.priority,
            r.utime == self.utime,
            r.at == self.at,
            r.last_message.content@ == self.last_message.content@,
            r.last_message.username@ == self.last_message.username@,
    {
        Self {
            room_id: self.room_id,
            room_name: self.room_name.clone(),
            index: self.index,
            unread_count: self.unread_count,
            priority: self.priority,
            utime: self.utime,
            at: self.at,
            last_message: self.last_message.clone(),
        }
    }
}

impl Clone for ReplyMessage {
    /// A copy with the same identifier and text.
    fn clone(&self) -> (r: Self)
        ensures
            r.msg_id@ == self.msg_id@,
            r.content@ == self.content@,
    {
        Self { msg_id: self.msg_id.clone(), content: self.content.clone() }
    }
}

impl Clone for ImgData {
    /// A copy with the same bytes and kind.
    fn clone(&self) -> (r: Self)
        ensures
            r.data@ == self.data@,
            r.file_type@ == self.file_type@,
            r.as_sticker == self.as_sticker,
    {
        Self {
            data: self.data.clone(),
            file_type: self.file_type.clone(),
            as_sticker: self.as_sticker,
        }
    }
}

impl Clone for SendMessage {
    /// A copy with the same text, room, reply head and image.
    fn clone(&self) -> (r: Self)
        ensures
            r.content@ == self.content@,
            r.room_id == self.room_id,
            r.reply_to is Some <==> self.reply_to is Some,
            self.reply_to matches Option::Some(b) ==> (r.reply_to matches Option::Some(a)
                && a.msg_id@ == b.msg_id@ && a.content@ == b.content@),
            r.img is Some <==> self.img is Some,
            self.img matches Option::Some(b) ==> (r.img matches Option::Some(a) && a.data@
                == b.data@ && a.file_type@ == b.file_type@ && a.as_sticker == b.as_sticker),
    {
        Self {
            content: self.content.clone(),
            room_id: self.room_id,
            reply_to: match &self.reply_to {
                Some(rep) => Some(rep.clone()),
                None => None,
            },
            img: match &self.img {
                Some(img) => Some(img.clone()),
                None => None,
            },
        }
    }
}

impl Clone for NewMessage {
    /// A copy with the same fields.
    fn clone(&self) -> (r: Self)
        ensures
            r.msg_id@ == self.msg_id@,
            r.content@ == self.content@,
            r.sender_id == self.sender_id,
            r.sender_name@ == self.sender_name@,
            r.is_from_self == self.is_from_self,
            r.is_reply == self.is_reply,
            r.room_id == self.room_id,
    {
        Self {
            msg_id: self.msg_id.clone(),
            content: self.content.clone(),
            sender_id: self.sender_id,
            sender_name: self.sender_name.clone(),
            is_from_self: self.is_from_self,
            is_reply: self.is_reply,
            room_id: self.room_id,
        }
    }
}

impl Clone for DeleteMessage {
    /// A copy with the same identifier and room.
    fn clone(&self) -> (r: Self)
        ensures
            r.msg_id@ == self.msg_id@,
            r.room_id == self.room_id,
    {
        Self { msg_id: self.msg_id.clone(), room_id: self.room_id }
    }
}

} // verus!
