use capchat::config::Args;
use capchat::facebook::{self, AttachmentType};
use capchat::output::{colour_code_emoji, split_long_message, Out, OutputFormat};
use capchat::cap::Severity;
use capchat::workplace;

fn out(message: &str) -> Out {
    Out { message: message.to_string(), image: Some(vec![1, 2, 3]) }
}

#[test]
fn short_message_is_not_split() {
    let (first, rest) = split_long_message(out("hello world"), 20, 5);
    assert_eq!(first, out("hello world"));
    assert!(rest.is_none());
}

#[test]
fn long_message_splits_at_a_space() {
    let (first, rest) = split_long_message(out("aaa bbb ccc ddd"), 10, 2);
    assert_eq!(first.message, "aaa bbb");
    assert_eq!(first.image, Some(vec![1, 2, 3]));
    let rest = rest.unwrap();
    assert_eq!(rest.message, "ccc ddd");
    assert_eq!(rest.image, None);
}

#[test]
fn short_remainder_uses_minimum_length() {
    // 15 characters, 3 over the maximum: the split goes by the minimum of 6.
    let (first, rest) = split_long_message(out("aaa bbb ccc ddd"), 12, 6);
    assert_eq!(first.message, "aaa");
    assert_eq!(rest.unwrap().message, "bbb ccc ddd");
}

#[test]
fn unsplittable_word_gives_empty_first_part() {
    let (first, rest) = split_long_message(out("abcdefghij"), 5, 1);
    assert_eq!(first.message, "");
    assert_eq!(rest.unwrap().message, "abcdefghij");
}

#[test]
fn split_counts_characters_not_bytes() {
    let (first, rest) = split_long_message(out("\u{e9}\u{e9}\u{e9} \u{e9}\u{e9}\u{e9} \u{e9}\u{e9}\u{e9}"), 8, 1);
    assert_eq!(first.message, "\u{e9}\u{e9}\u{e9}");
    assert_eq!(rest.unwrap().message, "\u{e9}\u{e9}\u{e9} \u{e9}\u{e9}\u{e9}");
}

#[test]
fn colour_codes_map_to_circles() {
    assert_eq!(colour_code_emoji("Red"), Some('\u{1f534}'));
    assert_eq!(colour_code_emoji("ORANGE"), Some('\u{1f7e0}'));
    assert_eq!(colour_code_emoji("green"), Some('\u{1f7e2}'));
    assert_eq!(colour_code_emoji("blue"), Some('\u{1f535}'));
    assert_eq!(colour_code_emoji("Yellow"), Some('\u{1f7e1}'));
    assert_eq!(colour_code_emoji("purple"), Some('\u{1f7e3}'));
    assert_eq!(colour_code_emoji("black"), None);
}

#[test]
fn output_formats_parse() {
    assert_eq!(OutputFormat::from_text("JSON"), Ok(OutputFormat::Json));
    assert_eq!(OutputFormat::from_text("text"), Ok(OutputFormat::Text));
    assert_eq!(OutputFormat::from_text("Image"), Ok(OutputFormat::Image));
    assert_eq!(OutputFormat::from_text("map"), Ok(OutputFormat::ImageMap));
    assert_eq!("image+map".parse::<OutputFormat>(), Ok(OutputFormat::ImageMap));
    assert_eq!(OutputFormat::from_text("pdf"), Err("unknown output type: pdf".to_string()));
}

#[test]
fn default_out_is_empty() {
    let o = Out::default();
    assert!(o.message.is_empty() && o.image.is_none());
}

#[test]
fn message_bodies() {
    let m = facebook::Message::text("hi".to_string());
    assert_eq!(m.text, "hi");
    assert!(m.attachment.is_none());
    let m = facebook::Message::image();
    assert!(m.text.is_empty());
    let a = m.attachment.unwrap();
    assert_eq!(a.kind, AttachmentType::Image);
    assert!(!a.payload.is_reusable);
    assert_eq!(AttachmentType::default(), AttachmentType::Image);
    let w = workplace::Message::text_and_image("hi".to_string(), "ref".to_string());
    assert_eq!(w.filedata, Some("ref".to_string()));
    assert!(w.attachment.is_some());
    let w = workplace::Message::text("yo".to_string());
    assert!(w.attachment.is_none() && w.filedata.is_none());
}

#[test]
fn default_settings() {
    let a = Args::defaults();
    assert_eq!(a.severity, Severity::Minor);
    assert_eq!(a.format, OutputFormat::ImageMap);
    assert_eq!((a.image_width, a.image_height), (512, 512));
    assert_eq!(a.boundaries, "_boundaries");
}
