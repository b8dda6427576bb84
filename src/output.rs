//! What the pipeline hands to its senders, and how long messages are split.

use vstd::prelude::*;

use crate::text::{chars_of, lower_of, lowercase, same_text, string_of_range};

verus! {

/// A message, and an image to go with it.
#[derive(Clone, Debug, PartialEq, Eq)]
pub struct Out {
    pub message: String,
    pub image: Option<Vec<u8>>,
}

impl Default for Out {
    fn default() -> (r: Out)
        ensures
            r.message@.len() == 0,
            r.image is None,
    {
        Out { message: String::new(), image: None }
    }
}

/// The form of the output.
#[derive(Clone, Copy, Debug, PartialEq, Eq, Structural)]
pub enum OutputFormat {
    Json,
    Text,
    Image,
    ImageMap,
}

/// The output format that a lower-case word names.
pub open spec fn format_of_lower(l: Seq<char>) -> Option<OutputFormat> {
    if l == "json"@ {
        Some(OutputFormat::Json)
    } else if l == "text"@ {
        Some(OutputFormat::Text)
    } else if l == "image"@ {
        Some(OutputFormat::Image)
    } else if l == "map"@ || l == "image+map"@ {
        Some(OutputFormat::ImageMap)
    } else {
        None
    }
}

impl OutputFormat {
    /// The output format that an already lower-cased word names.
    pub fn from_lower(l: &str) -> (r: Option<OutputFormat>)
        ensures
            r == format_of_lower(l@),
    {
        if same_text(l, "json") {
            Some(OutputFormat::Json)
        } else if same_text(l, "text") {
            Some(OutputFormat::Text)
        } else if same_text(l, "image") {
            Some(OutputFormat::Image)
        } else if same_text(l, "map") || same_text(l, "image+map") {
            Some(OutputFormat::ImageMap)
        } else {
            None
        }
    }

    /// Reads an output format name, ignoring case.
    pub fn from_text(s: &str) -> (r: Result<OutputFormat, String>)
        ensures
            match r {
                Ok(v) => format_of_lower(lower_of(s@)) == Some(v),
                Err(m) => format_of_lower(lower_of(s@)) is None && m@ == "unknown output type: "@
                    + s@,
            },
    {
        let l = lowercase(s);
        match OutputFormat::from_lower(l.as_str()) {
            Some(v) => Ok(v),
            None => Err(String::from_str("unknown output type: ").concat(s)),
        }
    }
}

impl std::str::FromStr for OutputFormat {
    type Err = String;

    fn from_str(s: &str) -> Result<OutputFormat, String> {
        OutputFormat::from_text(s)
    }
}

/// The coloured circle that a lower-case colour code names.
pub open spec fn emoji_of_lower(l: Seq<char>) -> Option<char> {
    if l == "blue"@ {
        Some('\u{1f535}')
    } else if l == "green"@ {
        Some('\u{1f7e2}')
    } else if l == "yellow"@ {
        Some('\u{1f7e1}')
    } else if l == "orange"@ {
        Some('\u{1f7e0}')
    } else if l == "red"@ {
        Some('\u{1f534}')
    } else if l == "purple"@ {
        Some('\u{1f7e3}')
    } else {
        None
    }
}

/// The coloured circle for an already lower-cased colour code.
pub fn colour_emoji_of_lower(l: &str) -> (r: Option<char>)
    ensures
        r == emoji_of_lower(l@),
{
    if same_text(l, "blue") {
        Some('\u{1f535}')
    } else if same_text(l, "green") {
        Some('\u{1f7e2}')
    } else if same_text(l, "yellow") {
        Some('\u{1f7e1}')
    } else if same_text(l, "orange") {
        Some('\u{1f7e0}')
    } else if same_text(l, "red") {
        Some('\u{1f534}')
    } else if same_text(l, "purple") {
        Some('\u{1f7e3}')
    } else {
        None
    }
}

/// The coloured circle for a colour code, ignoring case.
pub fn colour_code_emoji(c: &str) -> (r: Option<char>)
    ensures
        r == emoji_of_lower(lower_of(c@)),
{
    let l = lowercase(c);
    colour_emoji_of_lower(l.as_str())
}

/// Position `i` ends a word: a space, or the end of the text.
pub open spec fn is_break(m: Seq<char>, i: int) -> bool {
    (0 <= i < m.len() && m[i] == ' ') || i == m.len()
}

/// The last word end `i` with `i + 1 < max`, if there is one.
pub open spec fn split_point(m: Seq<char>, max: int) -> Option<int> {
    if exists|i: int| is_break(m, i) && i + 1 < max {
        Some(
            choose|i: int|
                is_break(m, i) && i + 1 < max && forall|j: int|
                    is_break(m, j) && j + 1 < max ==> j <= i,
        )
    } else {
        None
    }
}

/// The limit a split goes by: `max_len`, or `min_len` when the rest would be shorter than it.
pub open spec fn split_limit(len: int, max_len: int, min_len: int) -> int {
    if len - max_len < min_len {
        min_len
    } else {
        max_len
    }
}

/// The words that fit, joined by spaces.
pub open spec fn head_part(m: Seq<char>, max: int) -> Seq<char> {
    match split_point(m, max) {
        Some(c) => m.take(c),
        None => seq![],
    }
}

/// The words after those that fit, joined by spaces.
pub open spec fn tail_part(m: Seq<char>, max: int) -> Seq<char> {
    match split_point(m, max) {
        Some(c) => if c == m.len() {
            seq![]
        } else {
            m.skip(c + 1)
        },
        None => m,
    }
}

fn find_split_point(cs: &Vec<char>, max: usize) -> (r: Option<usize>)
    ensures
        match r {
            Some(c) => split_point(cs@, max as int) == Some(c as int) && c <= cs@.len(),
            None => split_point(cs@, max as int) is None,
        },
{
    let n = cs.len();
    let mut best: Option<usize> = None;
    let mut i: usize = 0;
    while i < n
        invariant
            n == cs@.len(),
            i <= n,
            match best {
                Some(b) => b < i && is_break(cs@, b as int) && b + 1 < max && forall|j: int|
                    0 <= j < i && is_break(cs@, j) && j + 1 < max ==> j <= b,
                None => forall|j: int| 0 <= j < i ==> !(is_break(cs@, j) && j + 1 < max),
            },
        decreases n - i,
    {
        if cs[i] == ' ' && max > 0 && i < max - 1 {
            best = Some(i);
        }
        i += 1;
    }
    if max > 0 && n < max - 1 {
        best = Some(n);
    }
    proof {
        assert forall|j: int| is_break(cs@, j) implies 0 <= j <= n by {}
        match best {
            Some(b) => {
                assert(is_break(cs@, b as int) && b + 1 < max);
                assert forall|j: int| is_break(cs@, j) && j + 1 < max implies j <= b by {
                    if j == n {
                        assert(b == n);
                    }
                }
            },
            None => {
                assert forall|j: int| !(is_break(cs@, j) && j + 1 < max) by {
                    if is_break(cs@, j) && j + 1 < max {
                        assert(0 <= j <= n);
                        if j < n {
                            assert(!(is_break(cs@, j) && j + 1 < max));
                        }
                    }
                }
            },
        }
    }
    match best {
        Some(b) => {
            proof {
                let w = choose|w: int|
                    is_break(cs@, w) && w + 1 < max && forall|j: int|
                        is_break(cs@, j) && j + 1 < max ==> j <= w;
                assert(w <= b);
                assert(b <= w);
            }
            Some(b)
        },
        None => None,
    }
}

/// Splits a message that is longer than `max_len` characters in two, at a
/// space: the first part keeps the image; the second part, with no image,
/// holds the rest. A message that fits is returned as it is.
pub fn split_long_message(out: Out, max_len: usize, min_len: usize) -> (r: (Out, Option<Out>))
    ensures
        out.message@.len() <= max_len ==> r.0 == out && r.1 is None,
        out.message@.len() > max_len ==> {
            let m = out.message@;
            let max = split_limit(m.len() as int, max_len as int, min_len as int);
            &&& r.0.message@ == head_part(m, max)
            &&& r.0.image == out.image
            &&& r.1 matches Some(o) && o.message@ == tail_part(m, max) && o.image is None
        },
{
    let cs = chars_of(out.message.as_str());
    let len = cs.len();
    if len <= max_len {
        return (out, None);
    }
    let max = if len - max_len < min_len {
        min_len
    } else {
        max_len
    };
    let (first, rest) = match find_split_point(&cs, max) {
        Some(c) => {
            let first = string_of_range(&cs, 0, c);
            let rest = if c == len {
                string_of_range(&cs, 0, 0)
            } else {
                string_of_range(&cs, c + 1, len)
            };
            proof {
                assert(cs@.subrange(0, c as int) =~= cs@.take(c as int));
                assert(cs@.subrange(c + 1, len as int) =~= cs@.skip(c + 1));
                assert(cs@.subrange(0, 0) =~= Seq::<char>::empty());
            }
            (first, rest)
        },
        None => {
            let first = string_of_range(&cs, 0, 0);
            let rest = string_of_range(&cs, 0, len);
            proof {
                assert(cs@.subrange(0, 0) =~= Seq::<char>::empty());
                assert(cs@.subrange(0, len as int) =~= cs@);
            }
            (first, rest)
        },
    };
    (Out { message: first, image: out.image }, Some(Out { message: rest, image: None }))
}

} // verus!
