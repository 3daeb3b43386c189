//! The local peer's identity: a display name, a stable random identifier,
//! the join time and the avatar bytes.

use vstd::prelude::*;
use crate::message::{Message, MessageHeader, MessageV};

verus! {

/// A peer's profile.  The identifier is drawn at random when the profile is
/// created and serves as the tie-break key during discovery and as the
/// peer's durable key in the registry of known users.
#[derive(Debug, PartialEq)]
pub struct Profile {
    pub name: String,
    pub uid: u32,
    pub join_time: u64,
    pub pic: Vec<u8>,
}

/// The mathematical content of a [`Profile`].
pub struct ProfileV {
    pub name: Seq<char>,
    pub uid: u32,
    pub join_time: u64,
    pub pic: Seq<u8>,
}

impl View for Profile {
    type V = ProfileV;

    open spec fn view(&self) -> ProfileV {
        ProfileV {
            name: self.name@,
            uid: self.uid,
            join_time: self.join_time,
            pic: self.pic@,
        }
    }
}

impl Clone for Profile {
    fn clone(&self) -> (r: Profile)
        ensures
            r@ == self@,
    {
        Profile {
            name: self.name.clone(),
            uid: self.uid,
            join_time: self.join_time,
            pic: vstd::slice::slice_to_vec(self.pic.as_slice()),
        }
    }
}

impl Profile {
    /// A fresh profile with the given display name, a random identifier, the
    /// current time as join time, and no avatar yet.
    pub fn new(name: String) -> (r: Profile)
        ensures
            r@.name == name@,
            r@.pic == Seq::<u8>::empty(),
    {
        Profile {
            name,
            uid: crate::utilities::gen_rand_id(),
            join_time: crate::utilities::get_curr_time(),
            pic: Vec::new(),
        }
    }

    /// The greeting sent once per new TCP session: it carries this profile's
    /// name and identifier, the avatar as payload, a fresh random message
    /// identifier and the current time.
    pub fn make_hello_msg(&self) -> (r: Message)
        ensures
            r@ matches MessageV::Hello(h, p) && h.name == self@.name && h.uid == self@.uid && p
                == self@.pic,
    {
        Message::Hello(
            MessageHeader::new(
                self.name.clone(),
                self.uid,
                crate::utilities::gen_rand_id(),
                crate::utilities::get_curr_time(),
            ),
            vstd::slice::slice_to_vec(self.pic.as_slice()),
        )
    }

    /// A chat text from this profile, with a fresh random message identifier
    /// and the current time.
    pub fn make_text_msg(&self, body: Vec<u8>) -> (r: Message)
        ensures
            r@ matches MessageV::Text(h, p) && h.name == self@.name && h.uid == self@.uid && p
                == body@,
    {
        Message::Text(
            MessageHeader::new(
                self.name.clone(),
                self.uid,
                crate::utilities::gen_rand_id(),
                crate::utilities::get_curr_time(),
            ),
            body,
        )
    }

    /// A chat image from this profile, with a fresh random message
    /// identifier and the current time.
    pub fn make_image_msg(&self, payload: Vec<u8>) -> (r: Message)
        ensures
            r@ matches MessageV::Image(h, p) && h.name == self@.name && h.uid == self@.uid && p
                == payload@,
    {
        Message::Image(
            MessageHeader::new(
                self.name.clone(),
                self.uid,
                crate::utilities::gen_rand_id(),
                crate::utilities::get_curr_time(),
            ),
            payload,
        )
    }

    /// The best-effort leave notice sent when the application shuts down; it
    /// carries the avatar like the greeting does.
    pub fn make_goodbye_msg(&self) -> (r: Message)
        ensures
            r@ matches MessageV::Goodbye(h, p) && h.name == self@.name && h.uid == self@.uid && p
                == self@.pic,
    {
        Message::Goodbye(
            MessageHeader::new(
                self.name.clone(),
                self.uid,
                crate::utilities::gen_rand_id(),
                crate::utilities::get_curr_time(),
            ),
            vstd::slice::slice_to_vec(self.pic.as_slice()),
        )
    }

    /// Applies the edits a user may make before discovery starts: an empty
    /// name is ignored, the avatar is replaced as given.  Identifier and join
    /// time never change.
    pub fn personalize(&mut self, new_name: &str, new_pic: Vec<u8>)
        ensures
            final(self)@.name == if new_name@.len() == 0 {
                old(self)@.name
            } else {
                new_name@
            },
            final(self)@.pic == new_pic@,
            final(self)@.uid == old(self)@.uid,
            final(self)@.join_time == old(self)@.join_time,
    {
        if !new_name.is_empty() {
            self.name = new_name.to_owned();
        }
        self.pic = new_pic;
    }
}

} // verus!
