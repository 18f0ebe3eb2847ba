use beatmatcher::cover::{cover_art_url, data_url, Visual};

fn visual(front_cover: bool, media_type: &str, data: &[u8]) -> Visual {
    Visual { front_cover, media_type: media_type.to_string(), data: data.to_vec() }
}

#[test]
fn the_front_cover_is_shown_before_any_other_picture() {
    let url = cover_art_url(&vec![visual(false, "image/png", b"back"), visual(true, "image/png", b"Man")]);
    assert_eq!(url.as_deref(), Some("data:image/png;base64,TWFu"));
}

#[test]
fn without_a_front_cover_the_first_picture_is_shown_and_taken_for_a_jpeg() {
    let url = cover_art_url(&vec![visual(false, "", &[1, 2, 3, 4])]);
    assert_eq!(url.as_deref(), Some("data:image/jpeg;base64,AQIDBA=="));
}

#[test]
fn no_picture_is_no_cover() {
    assert_eq!(cover_art_url(&Vec::new()), None);
}

#[test]
fn a_data_url_names_its_media_type() {
    assert_eq!(data_url("image/gif", "R0lG"), "data:image/gif;base64,R0lG");
}

#[test]
fn a_last_group_of_two_bytes_is_padded_once_and_the_upper_alphabet_is_used() {
    let url = cover_art_url(&vec![visual(true, "image/png", &[77, 97])]);
    assert_eq!(url.as_deref(), Some("data:image/png;base64,TWE="));
    let url = cover_art_url(&vec![visual(true, "image/png", &[0xfb, 0xff])]);
    assert_eq!(url.as_deref(), Some("data:image/png;base64,+/8="));
}
