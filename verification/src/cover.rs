//! A track's cover art as the data URL the library view shows.

use vstd::prelude::*;
use crate::text::push_text;
use base64::engine::general_purpose::STANDARD;
use base64::Engine;

verus! {

/// A six-bit value in the standard base64 alphabet.
pub open spec fn base64_digit(v: int) -> char {
    if v < 26 {
        (65 + v) as char
    } else if v < 52 {
        (97 + v - 26) as char
    } else if v < 62 {
        (48 + v - 52) as char
    } else if v == 62 {
        '+'
    } else {
        '/'
    }
}

/// The standard base64 alphabet with `=` padding: each group of three bytes
/// becomes four digits of six bits each, and a last group of one or two bytes is
/// padded out to four characters.
pub open spec fn standard_base64(data: Seq<u8>) -> Seq<char>
    decreases data.len(),
{
    if data.len() == 0 {
        Seq::empty()
    } else if data.len() == 1 {
        seq![base64_digit(data[0] as int / 4), base64_digit((data[0] % 4) * 16), '=', '=']
    } else if data.len() == 2 {
        seq![
            base64_digit(data[0] as int / 4),
            base64_digit((data[0] % 4) * 16 + data[1] / 16),
            base64_digit((data[1] % 16) * 4),
            '=',
        ]
    } else {
        seq![
            base64_digit(data[0] as int / 4),
            base64_digit((data[0] % 4) * 16 + data[1] / 16),
            base64_digit((data[1] % 16) * 4 + data[2] / 64),
            base64_digit(data[2] as int % 64),
        ] + standard_base64(data.skip(3))
    }
}

/// `base64::engine::general_purpose::STANDARD.encode`: the standard alphabet with
/// `=` padding, as `standard_base64` spells it out. The crate panics when the
/// encoded length (four characters for every started group of three bytes) would
/// overflow, so such inputs are left out.
#[verifier::external_body]
fn encode_base64(data: &[u8]) -> (encoded: String)
    requires
        data@.len() / 3 * 4 + 4 <= usize::MAX,
    ensures
        encoded@ == standard_base64(data@),
{
    STANDARD.encode(data)
}

/// One picture a file's metadata carries.
pub struct Visual {
    pub front_cover: bool,
    pub media_type: String,
    pub data: Vec<u8>,
}

/// The first front cover from `from` on.
pub open spec fn front_cover_from(visuals: Seq<Visual>, from: int) -> Option<int>
    decreases visuals.len() - from,
{
    if from < 0 || from >= visuals.len() {
        None
    } else if visuals[from].front_cover {
        Some(from)
    } else {
        front_cover_from(visuals, from + 1)
    }
}

/// The picture shown: the first front cover, else the first picture of any kind.
pub open spec fn chosen_visual(visuals: Seq<Visual>) -> Option<int> {
    match front_cover_from(visuals, 0) {
        Some(i) => Some(i),
        None => if visuals.len() > 0 {
            Some(0)
        } else {
            None
        },
    }
}

/// A picture with no media type is taken for a JPEG.
pub open spec fn spec_data_url(media_type: Seq<char>, encoded: Seq<char>) -> Seq<char> {
    "data:"@ + (if media_type.len() == 0 {
        "image/jpeg"@
    } else {
        media_type
    }) + ";base64,"@ + encoded
}

/// The data URL for a picture of `media_type` whose bytes encode to `encoded`.
pub fn data_url(media_type: &str, encoded: &str) -> (url: String)
    ensures
        url@ == spec_data_url(media_type@, encoded@),
{
    let mut url = String::new();
    push_text(&mut url, "data:");
    if media_type.unicode_len() == 0 {
        push_text(&mut url, "image/jpeg");
    } else {
        push_text(&mut url, media_type);
    }
    push_text(&mut url, ";base64,");
    push_text(&mut url, encoded);
    url
}

/// The cover among one revision's pictures, as a data URL; nothing when there is
/// no picture.
pub fn cover_art_url(visuals: &Vec<Visual>) -> (url: Option<String>)
    requires
        forall|i: int| 0 <= i < visuals@.len() ==> (#[trigger] visuals@[i]).data@.len() / 3 * 4 + 4 <= usize::MAX,
    ensures
        match chosen_visual(visuals@) {
            Some(i) => url matches Some(u) && u@ == spec_data_url(
                visuals@[i].media_type@,
                standard_base64(visuals@[i].data@),
            ),
            None => url is None,
        },
{
    let mut i: usize = 0;
    while i < visuals.len() && !visuals[i].front_cover
        invariant
            i <= visuals.len(),
            front_cover_from(visuals@, 0) == front_cover_from(visuals@, i as int),
        decreases visuals.len() - i,
    {
        i += 1;
    }
    let at = if i < visuals.len() {
        i
    } else if visuals.len() == 0 {
        return None;
    } else {
        0
    };
    let visual = &visuals[at];
    let encoded = encode_base64(visual.data.as_slice());
    Some(data_url(visual.media_type.as_str(), encoded.as_str()))
}

} // verus!
