//! The message bodies posted to a workplace chat thread.

use vstd::prelude::*;

use crate::facebook::{image_attachment, Attachment, AttachmentType, Payload};

verus! {

/// A message: text, optionally with an image attachment and a reference to it.
#[derive(Clone, Debug)]
pub struct Message {
    pub text: String,
    pub attachment: Option<Attachment>,
    pub filedata: Option<String>,
}

impl Message {
    /// A text message.
    pub fn text(text: String) -> (r: Message)
        ensures
            r.text@ == text@,
            r.attachment is None,
            r.filedata is None,
    {
        Message { text, attachment: None, filedata: None }
    }

    /// A text message with an image, referred to by `image_ref`.
    pub fn text_and_image(text: String, image_ref: String) -> (r: Message)
        ensures
            r.text@ == text@,
            r.attachment == Some(image_attachment()),
            r.filedata matches Some(f) && f@ == image_ref@,
    {
        Message {
            text,
            attachment: Some(Attachment { kind: AttachmentType::Image, payload: Payload { is_reusable: false } }),
            filedata: Some(image_ref),
        }
    }
}

} // verus!
