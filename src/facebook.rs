//! The message bodies posted to a group-chat platform.

use vstd::prelude::*;

verus! {

/// The kind of an attachment.
#[derive(Clone, Copy, Debug, PartialEq, Eq, Structural)]
pub enum AttachmentType {
    Image,
}

impl Default for AttachmentType {
    fn default() -> (r: AttachmentType)
        ensures
            r == AttachmentType::Image,
    {
        AttachmentType::Image
    }
}

#[derive(Clone, Copy, Debug, PartialEq, Eq, Structural)]
pub struct Payload {
    pub is_reusable: bool,
}

#[derive(Clone, Copy, Debug, PartialEq, Eq, Structural)]
pub struct Attachment {
    pub kind: AttachmentType,
    pub payload: Payload,
}

/// The attachment that an image upload carries.
pub open spec fn image_attachment() -> Attachment {
    Attachment { kind: AttachmentType::Image, payload: Payload { is_reusable: false } }
}

/// A message: text, or an image attachment with empty text.
#[derive(Clone, Debug)]
pub struct Message {
    pub text: String,
    pub attachment: Option<Attachment>,
}

impl Message {
    /// A text message.
    pub fn text(text: String) -> (r: Message)
        ensures
            r.text@ == text@,
            r.attachment is None,
    {
        Message { text, attachment: None }
    }

    /// A message that carries an uploaded image and no text.
    pub fn image() -> (r: Message)
        ensures
            r.text@.len() == 0,
            r.attachment == Some(image_attachment()),
    {
        Message {
            text: String::new(),
            attachment: Some(Attachment { kind: AttachmentType::Image, payload: Payload { is_reusable: false } }),
        }
    }
}

} // verus!
