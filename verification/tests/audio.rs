use beatmatcher::audio::{
    dense_point_count, live_deck_ids, read_tags, RenderFrame, Tag, TagKey, TrackTags, DENSE_POINTS_PER_SEC,
    EDIT_DECK_ID,
};
use beatmatcher::recording::{save_permille, size_sync_due, wav_header, wav_sizes, SAVE_DONE};
use beatmatcher::files::{cue_escape, strip_audio_extension};

#[test]
fn dense_point_count_follows_the_rate() {
    assert_eq!(
        dense_point_count(44100, 44100),
        DENSE_POINTS_PER_SEC as usize
    );
    assert_eq!(dense_point_count(0, 44100), 0);
    assert_eq!(dense_point_count(44100, 0), 0);
}

#[test]
fn a_started_second_counts_its_points_in_full() {
    // Half a second at 44.1 kHz is 75 points; one frame more starts the next.
    assert_eq!(dense_point_count(22050, 44100), 75);
    assert_eq!(dense_point_count(22051, 44100), 76);
    assert_eq!(dense_point_count(1, 48000), 1);
}

#[test]
fn the_edit_deck_is_not_a_live_deck() {
    assert!(!live_deck_ids().contains(&EDIT_DECK_ID));
    assert_eq!(live_deck_ids(), vec!["A", "B", "C", "D"]);
}

#[test]
fn a_render_stamp_keeps_its_frame() {
    assert_eq!(RenderFrame::from_master_clock(48_000).get(), 48_000);
}

#[test]
fn the_save_dial_never_reads_complete_while_work_remains() {
    assert_eq!(save_permille(0, 100), Some(0));
    assert_eq!(save_permille(50, 100), Some(500));
    assert_eq!(save_permille(100, 100), Some(SAVE_DONE - 1));
    assert_eq!(save_permille(u64::MAX, 1), Some(999));
    assert_eq!(save_permille(5, 0), None);
}

fn tag(key: TagKey, value: &str) -> Tag {
    Tag { key, value: value.to_string() }
}

#[test]
fn the_first_tag_for_a_field_wins() {
    let tags = read_tags(&vec![
        tag(TagKey::TrackTitle, "First"),
        tag(TagKey::Artist, "Someone"),
        tag(TagKey::TrackTitle, "Second"),
        tag(TagKey::OriginalDate, "1999"),
        tag(TagKey::Date, "2004"),
        tag(TagKey::Other, "ignored"),
    ]);
    assert_eq!(tags.title.as_deref(), Some("First"));
    assert_eq!(tags.artist.as_deref(), Some("Someone"));
    assert_eq!(tags.year.as_deref(), Some("2004"));
    assert_eq!(tags.album, None);
}

#[test]
fn the_plain_date_wins_over_an_earlier_original_date() {
    let tags = read_tags(&vec![tag(TagKey::OriginalDate, "1999"), tag(TagKey::Date, "2005")]);
    assert_eq!(tags.year.as_deref(), Some("2005"));
    let tags = read_tags(&vec![tag(TagKey::OriginalDate, "1999"), tag(TagKey::ReleaseDate, "2006")]);
    assert_eq!(tags.year.as_deref(), Some("2006"));
    let tags = read_tags(&vec![tag(TagKey::ReleaseDate, "2006"), tag(TagKey::Date, "2005")]);
    assert_eq!(tags.year.as_deref(), Some("2006"));
}

#[test]
fn the_original_date_gives_the_year_only_when_no_other_date_does() {
    let tags = read_tags(&vec![tag(TagKey::OriginalDate, "1999"), tag(TagKey::OriginalDate, "2001")]);
    assert_eq!(tags.year.as_deref(), Some("1999"));
}

#[test]
fn a_whole_number_of_points_is_counted_exactly() {
    assert_eq!(dense_point_count(6174, 44100), 21);
}

#[test]
fn no_tags_read_as_an_empty_track() {
    assert_eq!(read_tags(&Vec::new()), TrackTags::default());
}

#[test]
fn cue_escape_neutralizes_quotes() {
    assert_eq!(cue_escape(r#"A "quoted" title"#), "A 'quoted' title");
}

#[test]
fn only_an_audio_extension_is_stripped() {
    assert_eq!(strip_audio_extension("take.wav"), "take");
    assert_eq!(strip_audio_extension("TAKE.WAV"), "TAKE");
    assert_eq!(strip_audio_extension("take.flac"), "take");
    assert_eq!(strip_audio_extension("take.FLAC"), "take");
    assert_eq!(strip_audio_extension("take.mp3"), "take.mp3");
    assert_eq!(strip_audio_extension("wav"), "wav");
}

#[test]
fn a_recording_starts_with_a_stereo_header_whose_sizes_follow() {
    let header = wav_header(48_000, 16);
    assert_eq!(header.len(), 44);
    assert_eq!(&header[0..4], b"RIFF");
    assert_eq!(&header[8..16], b"WAVEfmt ");
    assert_eq!(&header[20..22], &1u16.to_le_bytes());
    assert_eq!(&header[22..24], &2u16.to_le_bytes());
    assert_eq!(&header[24..28], &48_000u32.to_le_bytes());
    assert_eq!(&header[28..32], &192_000u32.to_le_bytes());
    assert_eq!(&header[32..34], &4u16.to_le_bytes());
    assert_eq!(&header[34..36], &16u16.to_le_bytes());
    assert_eq!(&header[36..40], b"data");
    let float = wav_header(44_100, 32);
    assert_eq!(&float[20..22], &3u16.to_le_bytes());
    assert_eq!(wav_sizes(1000), (1036, 1000));
    assert_eq!(wav_sizes(u32::MAX), (u32::MAX, u32::MAX));
    assert!(size_sync_due(1_000_000, 0));
    assert!(!size_sync_due(1_000_000, 1));
}

use beatmatcher::files::{cue_sheet_text, cue_timecode_of_frames, CueTrack};

#[test]
fn cue_timecode_counts_75_frames_per_second_and_rolls_minutes() {
    assert_eq!(cue_timecode_of_frames(0), "00:00:00");
    assert_eq!(cue_timecode_of_frames(75), "00:01:00");
    assert_eq!(cue_timecode_of_frames(2), "00:00:02");
    assert_eq!(cue_timecode_of_frames(61 * 75), "01:01:00");
    assert_eq!(cue_timecode_of_frames(3600 * 75), "60:00:00");
    assert_eq!(cue_timecode_of_frames(100 * 60 * 75 + 74), "100:00:74");
}

#[test]
fn a_cue_sheet_lists_each_track_with_its_title_performer_and_index() {
    let tracks = vec![
        CueTrack { title: None, fallback_title: "__SOURCE__".to_string(), artist: None, frames: 8 },
        CueTrack {
            title: Some("A \"live\" take".to_string()),
            fallback_title: "ignored".to_string(),
            artist: Some("Someone".to_string()),
            frames: 30 * 75,
        },
    ];
    assert_eq!(
        cue_sheet_text("set.wav", "set", &tracks),
        "TITLE \"set\"\n\
         FILE \"set.wav\" WAVE\n\
         \x20 TRACK 01 AUDIO\n\
         \x20   TITLE \"__SOURCE__\"\n\
         \x20   INDEX 01 00:00:08\n\
         \x20 TRACK 02 AUDIO\n\
         \x20   TITLE \"A 'live' take\"\n\
         \x20   PERFORMER \"Someone\"\n\
         \x20   INDEX 01 00:30:00\n"
    );
}

use beatmatcher::files::numbered_name;

#[test]
fn a_repeat_save_is_numbered_the_way_browsers_number_downloads() {
    assert_eq!(numbered_name("mix", Some("wav"), 1), "mix (1).wav");
    assert_eq!(numbered_name("mix", None, 12), "mix (12)");
    assert_eq!(numbered_name("", Some("cue"), 3), " (3).cue");
}
