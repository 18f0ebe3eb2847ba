//! Names the app writes on disk: the stem a recording's sidecar files share with
//! it, and text made safe to quote in a cue sheet.

use vstd::prelude::*;
use crate::text::{push_char, push_text};

verus! {

/// `suffix` ends `text`.
pub open spec fn ends_with(text: Seq<char>, suffix: Seq<char>) -> bool {
    suffix.len() <= text.len() && text.subrange(text.len() - suffix.len(), text.len() as int) == suffix
}

/// A path without the audio extension the app records to, if it has one. The
/// lowercase spelling is tried before the uppercase, `.wav` before `.flac`.
pub open spec fn stripped(path: Seq<char>) -> Seq<char> {
    if ends_with(path, ".wav"@) {
        path.subrange(0, path.len() - 4)
    } else if ends_with(path, ".WAV"@) {
        path.subrange(0, path.len() - 4)
    } else if ends_with(path, ".flac"@) {
        path.subrange(0, path.len() - 5)
    } else if ends_with(path, ".FLAC"@) {
        path.subrange(0, path.len() - 5)
    } else {
        path
    }
}

pub fn text_ends_with(text: &str, suffix: &str) -> (ends: bool)
    ensures
        ends == ends_with(text@, suffix@),
{
    let n = text.unicode_len();
    let m = suffix.unicode_len();
    if m > n {
        return false;
    }
    let mut i: usize = 0;
    while i < m
        invariant
            n == text@.len(),
            m == suffix@.len(),
            m <= n,
            i <= m,
            forall|j: int| 0 <= j < i ==> text@[n - m + j] == suffix@[j],
        decreases m - i,
    {
        if text.get_char(n - m + i) != suffix.get_char(i) {
            assert(text@.subrange(n - m, n as int)[i as int] != suffix@[i as int]);
            return false;
        }
        i += 1;
    }
    assert(text@.subrange(n - m, n as int) =~= suffix@);
    true
}

// Mirrors the "filename (1).ext" pattern browsers use for repeat downloads,
// since this path is auto-derived from the audio filename.
pub fn strip_audio_extension(path: &str) -> (stem: &str)
    ensures
        stem@ == stripped(path@),
{
    proof {
        reveal_strlit(".wav");
        reveal_strlit(".WAV");
        reveal_strlit(".flac");
        reveal_strlit(".FLAC");
    }
    let n = path.unicode_len();
    if text_ends_with(path, ".wav") || text_ends_with(path, ".WAV") {
        return path.substring_char(0, n - 4);
    }
    if text_ends_with(path, ".flac") || text_ends_with(path, ".FLAC") {
        return path.substring_char(0, n - 5);
    }
    path
}

/// A cue sheet quotes its titles with double quotes, so a title's own become
/// single ones.
pub open spec fn escaped(value: Seq<char>) -> Seq<char> {
    value.map_values(|c: char| if c == '"' { '\'' } else { c })
}

pub fn cue_escape(value: &str) -> (escaped_value: String)
    ensures
        escaped_value@ == escaped(value@),
{
    let n = value.unicode_len();
    let mut out = String::new();
    let mut i: usize = 0;
    while i < n
        invariant
            i <= n,
            n == value@.len(),
            out@ == escaped(value@.take(i as int)),
        decreases n - i,
    {
        let c = value.get_char(i);
        push_char(&mut out, if c == '"' { '\'' } else { c });
        assert(escaped(value@.take(i + 1)) =~= escaped(value@.take(i as int)).push(if c == '"' { '\'' } else { c }));
        i += 1;
    }
    assert(value@.take(n as int) =~= value@);
    out
}

/// The character for a digit.
pub open spec fn digit(d: nat) -> char {
    ((d % 10) + 48) as char
}

/// A number in decimal, no leading zeros.
pub open spec fn decimal(n: nat) -> Seq<char>
    decreases n,
{
    if n < 10 {
        seq![digit(n)]
    } else {
        decimal(n / 10).push(digit(n % 10))
    }
}

/// A number in decimal, padded to at least two digits.
pub open spec fn two_digits(n: nat) -> Seq<char> {
    if n < 10 {
        seq!['0', digit(n)]
    } else {
        decimal(n)
    }
}

fn digit_char(d: u64) -> (c: char)
    requires
        d < 10,
    ensures
        c == digit(d as nat),
{
    let small: u8 = d as u8;
    ((small + 48) as char)
}

/// Appends `n` in decimal.
fn push_decimal(out: &mut String, n: u64)
    ensures
        final(out)@ == old(out)@ + decimal(n as nat),
{
    let ghost start = out@;
    let mut digits: Vec<char> = Vec::new();
    let mut rest = n;
    // The digits come out last first; `rest` still has the ones not taken.
    loop
        invariant_except_break
            decimal(n as nat) == decimal(rest as nat) + digits@.reverse(),
            rest <= n,
        invariant
            out@ == start,
        ensures
            decimal(n as nat) == digits@.reverse(),
        decreases rest,
    {
        let d = rest % 10;
        let c = digit_char(d);
        let ghost before = digits@;
        digits.push(c);
        assert(digits@.reverse() =~= seq![c] + before.reverse());
        if rest < 10 {
            assert(decimal(rest as nat) == seq![c]);
            assert(decimal(n as nat) =~= digits@.reverse());
            break;
        }
        assert(decimal(rest as nat) == decimal((rest / 10) as nat).push(c));
        assert(decimal((rest / 10) as nat).push(c) + before.reverse() =~= decimal((rest / 10) as nat)
            + digits@.reverse());
        rest = rest / 10;
    }
    let mut k: usize = digits.len();
    while k > 0
        invariant
            k <= digits@.len(),
            decimal(n as nat) == digits@.reverse(),
            out@ == start + digits@.reverse().take(digits@.len() - k),
        decreases k,
    {
        k -= 1;
        push_char(out, digits[k]);
        let ghost taken = (digits@.len() - k) as int;
        assert(digits@.reverse()[taken - 1] == digits@[k as int]);
        assert(digits@.reverse().take(taken) =~= digits@.reverse().take(taken - 1).push(digits@[k as int]));
    }
    assert(digits@.reverse().take(digits@.len() as int) =~= digits@.reverse());
}

fn push_two_digits(out: &mut String, n: u64)
    ensures
        final(out)@ == old(out)@ + two_digits(n as nat),
{
    if n < 10 {
        push_char(out, '0');
        push_char(out, digit_char(n));
        assert(out@ =~= old(out)@ + two_digits(n as nat));
    } else {
        push_decimal(out, n);
    }
}

/// The name a repeat save takes, after the pattern browsers use for repeat
/// downloads: `stem (counter).extension`, or `stem (counter)` without one.
pub open spec fn spec_numbered_name(stem: Seq<char>, extension: Option<Seq<char>>, counter: nat) -> Seq<char> {
    let base = stem + seq![' ', '('] + decimal(counter) + seq![')'];
    match extension {
        Some(extension) => base + seq!['.'] + extension,
        None => base,
    }
}

/// The `counter`th name tried for a file whose name is taken; the caller tries
/// 1, 2, ... beside the taken file until one is free.
pub fn numbered_name(stem: &str, extension: Option<&str>, counter: u64) -> (name: String)
    ensures
        name@ == spec_numbered_name(
            stem@,
            match extension {
                Some(e) => Some(e@),
                None => None,
            },
            counter as nat,
        ),
{
    let mut name = String::new();
    push_text(&mut name, stem);
    push_char(&mut name, ' ');
    push_char(&mut name, '(');
    push_decimal(&mut name, counter);
    push_char(&mut name, ')');
    match extension {
        Some(extension) => {
            push_char(&mut name, '.');
            push_text(&mut name, extension);
        },
        None => {},
    }
    assert(name@ =~= spec_numbered_name(
        stem@,
        match extension {
            Some(e) => Some(e@),
            None => None,
        },
        counter as nat,
    ));
    name
}

/// A cue sheet's `MM:SS:FF`, at the 75 frames a second of CD audio.
pub open spec fn spec_timecode(frames: nat) -> Seq<char> {
    two_digits(frames / (75 * 60)) + seq![':'] + two_digits((frames / 75) % 60) + seq![':'] + two_digits(
        frames % 75,
    )
}

pub fn cue_timecode_of_frames(frames: u64) -> (timecode: String)
    ensures
        timecode@ == spec_timecode(frames as nat),
{
    let mut timecode = String::new();
    push_two_digits(&mut timecode, frames / (75 * 60));
    push_char(&mut timecode, ':');
    push_two_digits(&mut timecode, (frames / 75) % 60);
    push_char(&mut timecode, ':');
    push_two_digits(&mut timecode, frames % 75);
    assert(timecode@ =~= spec_timecode(frames as nat));
    timecode
}

/// One track of a cue sheet: the title its tags give, else the name its file has,
/// its artist if tagged, and where it became audible, in frames.
pub struct CueTrack {
    pub title: Option<String>,
    pub fallback_title: String,
    pub artist: Option<String>,
    pub frames: u64,
}

pub open spec fn quoted(text: Seq<char>) -> Seq<char> {
    seq!['"'] + escaped(text) + seq!['"']
}

/// One track's lines.
pub open spec fn track_lines(number: nat, track: CueTrack) -> Seq<char> {
    "  TRACK "@ + two_digits(number) + " AUDIO\n"@ + "    TITLE "@ + quoted(
        match track.title {
            Some(title) => title@,
            None => track.fallback_title@,
        },
    ) + seq!['\n'] + match track.artist {
        Some(artist) => "    PERFORMER "@ + quoted(artist@) + seq!['\n'],
        None => Seq::empty(),
    } + "    INDEX 01 "@ + spec_timecode(track.frames as nat) + seq!['\n']
}

/// The tracks' lines, numbered from one.
pub open spec fn tracks_lines(tracks: Seq<CueTrack>) -> Seq<char>
    decreases tracks.len(),
{
    if tracks.len() == 0 {
        Seq::empty()
    } else {
        tracks_lines(tracks.drop_last()) + track_lines(tracks.len(), tracks.last())
    }
}

/// The sheet: the set's title, the audio file it indexes, then each track.
pub open spec fn spec_cue_sheet(file_name: Seq<char>, set_title: Seq<char>, tracks: Seq<CueTrack>) -> Seq<char> {
    "TITLE "@ + quoted(set_title) + seq!['\n'] + "FILE "@ + quoted(file_name) + " WAVE\n"@ + tracks_lines(tracks)
}

fn push_quoted(out: &mut String, text: &str)
    ensures
        final(out)@ == old(out)@ + quoted(text@),
{
    push_char(out, '"');
    let escaped_text = cue_escape(text);
    push_text(out, escaped_text.as_str());
    push_char(out, '"');
    assert(out@ =~= old(out)@ + quoted(text@));
}

fn push_track(sheet: &mut String, number: u64, track: &CueTrack)
    ensures
        final(sheet)@ == old(sheet)@ + track_lines(number as nat, *track),
{
    push_text(sheet, "  TRACK ");
    push_two_digits(sheet, number);
    push_text(sheet, " AUDIO\n");
    push_text(sheet, "    TITLE ");
    match &track.title {
        Some(title) => push_quoted(sheet, title.as_str()),
        None => push_quoted(sheet, track.fallback_title.as_str()),
    }
    push_char(sheet, '\n');
    let ghost titled = sheet@;
    if let Some(artist) = &track.artist {
        push_text(sheet, "    PERFORMER ");
        push_quoted(sheet, artist.as_str());
        push_char(sheet, '\n');
    }
    let ghost performed = sheet@;
    push_text(sheet, "    INDEX 01 ");
    let timecode = cue_timecode_of_frames(track.frames);
    push_text(sheet, timecode.as_str());
    push_char(sheet, '\n');
    assert(performed == titled + match track.artist {
        Some(artist) => "    PERFORMER "@ + quoted(artist@) + seq!['\n'],
        None => Seq::empty(),
    });
    assert(sheet@ =~= old(sheet)@ + track_lines(number as nat, *track));
}

/// A cue sheet for a recording. FILE references the audio by name only, so the
/// sheet has to sit beside it.
pub fn cue_sheet_text(file_name: &str, set_title: &str, tracks: &Vec<CueTrack>) -> (sheet: String)
    requires
        tracks@.len() < u64::MAX,
    ensures
        sheet@ == spec_cue_sheet(file_name@, set_title@, tracks@),
{
    let mut sheet = String::new();
    push_text(&mut sheet, "TITLE ");
    push_quoted(&mut sheet, set_title);
    push_char(&mut sheet, '\n');
    push_text(&mut sheet, "FILE ");
    push_quoted(&mut sheet, file_name);
    push_text(&mut sheet, " WAVE\n");
    let ghost header = sheet@;
    assert(tracks@.take(0) =~= Seq::<CueTrack>::empty());
    let mut i: usize = 0;
    while i < tracks.len()
        invariant
            i <= tracks.len(),
            tracks@.len() < u64::MAX,
            sheet@ == header + tracks_lines(tracks@.take(i as int)),
        decreases tracks.len() - i,
    {
        let track = &tracks[i];
        push_track(&mut sheet, (i as u64) + 1, track);
        assert(tracks@.take(i + 1).drop_last() =~= tracks@.take(i as int));
        assert(tracks@.take(i + 1).last() == *track);
        i += 1;
    }
    assert(tracks@.take(i as int) =~= tracks@);
    sheet
}

} // verus!
