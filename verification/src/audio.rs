//! The small rules of the audio side that are not signal processing: the deck
//! ids, render stamps, the waveform's point count, a track's tags and the save
//! dial.

use vstd::prelude::*;
use crate::mapping::text_of;
use crate::text::opt_view;

verus! {

/// An output device as the settings panel lists it.
pub struct DeviceInfo {
    pub id: String,
    pub name: String,
    pub is_default: bool,
    pub channels: usize,
}

/// What a caller would otherwise have to reopen the file to learn.
#[derive(Clone, Copy, Debug, PartialEq, Eq, Structural)]
pub struct DecodedShape {
    pub channels: usize,
    pub total_frames: usize,
    pub sample_rate: u32,
}

/// The deck that is session view only, so it never reaches the mixer, a
/// recording or a broadcast.
pub const EDIT_DECK_ID: &'static str = "E";

/// Every deck that reaches the live mixer. The edit deck is deliberately absent.
pub fn live_deck_ids() -> (ids: Vec<&'static str>)
    ensures
        ids@.len() == 4,
        ids@[0]@ == seq!['A'],
        ids@[1]@ == seq!['B'],
        ids@[2]@ == seq!['C'],
        ids@[3]@ == seq!['D'],
{
    proof {
        reveal_strlit("A");
        reveal_strlit("B");
        reveal_strlit("C");
        reveal_strlit("D");
    }
    vec!["A", "B", "C", "D"]
}

/// A frame stamp taken under the deck's lock, naming the buffer that consumes
/// what it stamps. The only way to make one without a lock is from the master
/// clock, for the two events that belong to the recording rather than to a deck.
#[derive(Clone, Copy, Debug, PartialEq, Eq, Structural)]
pub struct RenderFrame(u64);

impl View for RenderFrame {
    type V = u64;

    closed spec fn view(&self) -> u64 {
        self.0
    }
}

impl RenderFrame {
    pub fn get(self) -> (frame: u64)
        ensures
            frame == self@,
    {
        self.0
    }

    pub fn from_master_clock(frame: u64) -> (stamp: RenderFrame)
        ensures
            stamp@ == frame,
    {
        RenderFrame(frame)
    }
}

/// How many waveform points one second of audio gets.
pub const DENSE_POINTS_PER_SEC: u64 = 150;

/// The points a track of `total_frames` at `sample_rate` gets: every started
/// point counts, and a track with no frames or no rate gets none. More than the
/// machine can count reads as the most it can.
pub open spec fn dense_points(total_frames: int, sample_rate: int) -> int {
    if sample_rate == 0 || total_frames == 0 {
        0
    } else {
        let exact = (total_frames * DENSE_POINTS_PER_SEC + sample_rate - 1) / sample_rate;
        if exact > usize::MAX {
            usize::MAX as int
        } else {
            exact
        }
    }
}

/// Counted in integers, so a length that is an exact number of points gets that
/// number. A count taken through floating-point seconds can land a hair above such
/// a whole number and give one more (6174 frames at 44100 Hz is 21 points here).
pub fn dense_point_count(total_frames: usize, sample_rate: u32) -> (points: usize)
    ensures
        points == dense_points(total_frames as int, sample_rate as int),
{
    if sample_rate == 0 || total_frames == 0 {
        return 0;
    }
    let frames = total_frames as u128;
    let rate = sample_rate as u128;
    assert(frames * 150 <= 0xffff_ffff_ffff_ffff * 150) by (nonlinear_arith)
        requires
            frames <= 0xffff_ffff_ffff_ffff,
    ;
    let exact = (frames * 150 + rate - 1) / rate;
    if exact > usize::MAX as u128 {
        usize::MAX
    } else {
        exact as usize
    }
}

/// The standard keys a tag can carry, as far as a track's tags read them; every
/// other key is `Other`.
#[derive(Clone, Copy, Debug, PartialEq, Eq, Structural)]
pub enum TagKey {
    TrackTitle,
    Artist,
    Album,
    AlbumArtist,
    Genre,
    Composer,
    Remixer,
    Label,
    Comment,
    TrackNumber,
    Date,
    ReleaseDate,
    OriginalDate,
    Rating,
    Other,
}

/// One tag as a file's metadata carries it.
pub struct Tag {
    pub key: TagKey,
    pub value: String,
}

/// What the library shows of a track.
#[derive(Clone, Debug, PartialEq, Eq)]
pub struct TrackTags {
    pub title: Option<String>,
    pub artist: Option<String>,
    pub album: Option<String>,
    pub album_artist: Option<String>,
    pub genre: Option<String>,
    pub composer: Option<String>,
    pub remixer: Option<String>,
    pub label: Option<String>,
    pub comment: Option<String>,
    pub track_number: Option<String>,
    pub year: Option<String>,
    pub rating: Option<String>,
}

#[derive(Clone, Copy, Debug, PartialEq, Eq, Structural)]
pub enum TagField {
    Title,
    Artist,
    Album,
    AlbumArtist,
    Genre,
    Composer,
    Remixer,
    Label,
    Comment,
    TrackNumber,
    Year,
    Rating,
}

/// The field a key fills outright. The plain and the release date give the year;
/// the original release date only stands in for them (see `tag_value`).
pub open spec fn field_of(key: TagKey) -> Option<TagField> {
    match key {
        TagKey::TrackTitle => Some(TagField::Title),
        TagKey::Artist => Some(TagField::Artist),
        TagKey::Album => Some(TagField::Album),
        TagKey::AlbumArtist => Some(TagField::AlbumArtist),
        TagKey::Genre => Some(TagField::Genre),
        TagKey::Composer => Some(TagField::Composer),
        TagKey::Remixer => Some(TagField::Remixer),
        TagKey::Label => Some(TagField::Label),
        TagKey::Comment => Some(TagField::Comment),
        TagKey::TrackNumber => Some(TagField::TrackNumber),
        TagKey::Date | TagKey::ReleaseDate => Some(TagField::Year),
        TagKey::Rating => Some(TagField::Rating),
        TagKey::OriginalDate | TagKey::Other => None,
    }
}

pub open spec fn field_value(tags: TrackTags, field: TagField) -> Option<Seq<char>> {
    match field {
        TagField::Title => opt_view(tags.title),
        TagField::Artist => opt_view(tags.artist),
        TagField::Album => opt_view(tags.album),
        TagField::AlbumArtist => opt_view(tags.album_artist),
        TagField::Genre => opt_view(tags.genre),
        TagField::Composer => opt_view(tags.composer),
        TagField::Remixer => opt_view(tags.remixer),
        TagField::Label => opt_view(tags.label),
        TagField::Comment => opt_view(tags.comment),
        TagField::TrackNumber => opt_view(tags.track_number),
        TagField::Year => opt_view(tags.year),
        TagField::Rating => opt_view(tags.rating),
    }
}

pub open spec fn tags_view(tags: Seq<Tag>) -> Seq<(TagKey, Seq<char>)> {
    tags.map_values(|tag: Tag| (tag.key, tag.value@))
}

/// The first tag filling the field, in the order the file carries them: a later
/// tag for a field already filled is ignored.
pub open spec fn first_for(tags: Seq<(TagKey, Seq<char>)>, field: TagField) -> Option<Seq<char>>
    decreases tags.len(),
{
    if tags.len() == 0 {
        None
    } else {
        match first_for(tags.drop_last(), field) {
            Some(value) => Some(value),
            None => if field_of(tags.last().0) == Some(field) {
                Some(tags.last().1)
            } else {
                None
            },
        }
    }
}

/// The first tag carrying `key`, in the order the file carries them.
pub open spec fn first_of_key(tags: Seq<(TagKey, Seq<char>)>, key: TagKey) -> Option<Seq<char>>
    decreases tags.len(),
{
    if tags.len() == 0 {
        None
    } else {
        match first_of_key(tags.drop_last(), key) {
            Some(value) => Some(value),
            None => if tags.last().0 == key {
                Some(tags.last().1)
            } else {
                None
            },
        }
    }
}

/// What a field reads from a file's tags: the first tag filling it, except that a
/// year no plain or release date gives falls back to the first original release
/// date, whatever order the dates come in.
pub open spec fn tag_value(tags: Seq<(TagKey, Seq<char>)>, field: TagField) -> Option<Seq<char>> {
    if field == TagField::Year && first_for(tags, field) is None {
        first_of_key(tags, TagKey::OriginalDate)
    } else {
        first_for(tags, field)
    }
}

proof fn lemma_first_for_is_first_of_key(tags: Seq<(TagKey, Seq<char>)>, field: TagField, key: TagKey)
    requires
        forall|k: TagKey| field_of(k) == Some(field) <==> k == key,
    ensures
        first_for(tags, field) == first_of_key(tags, key),
    decreases tags.len(),
{
    if tags.len() > 0 {
        lemma_first_for_is_first_of_key(tags.drop_last(), field, key);
    }
}

proof fn lemma_year_is_a_first_date(tags: Seq<(TagKey, Seq<char>)>)
    ensures
        first_for(tags, TagField::Year) is None <==> (first_of_key(tags, TagKey::Date) is None && first_of_key(
            tags,
            TagKey::ReleaseDate,
        ) is None),
        first_for(tags, TagField::Year) is Some ==> (first_for(tags, TagField::Year) == first_of_key(tags, TagKey::Date)
            || first_for(tags, TagField::Year) == first_of_key(tags, TagKey::ReleaseDate)),
    decreases tags.len(),
{
    if tags.len() > 0 {
        lemma_year_is_a_first_date(tags.drop_last());
    }
}

/// Each tag fills the field of its own name, the first such tag winning: a title
/// tag the title, a composer tag the composer and never the remixer, and so on.
/// The year takes the first plain or release date and falls back to the first
/// original release date; any other tag fills nothing.
pub proof fn law_each_tag_fills_the_field_of_its_name(tags: Seq<(TagKey, Seq<char>)>)
    ensures
        tag_value(tags, TagField::Title) == first_of_key(tags, TagKey::TrackTitle),
        tag_value(tags, TagField::Artist) == first_of_key(tags, TagKey::Artist),
        tag_value(tags, TagField::Album) == first_of_key(tags, TagKey::Album),
        tag_value(tags, TagField::AlbumArtist) == first_of_key(tags, TagKey::AlbumArtist),
        tag_value(tags, TagField::Genre) == first_of_key(tags, TagKey::Genre),
        tag_value(tags, TagField::Composer) == first_of_key(tags, TagKey::Composer),
        tag_value(tags, TagField::Remixer) == first_of_key(tags, TagKey::Remixer),
        tag_value(tags, TagField::Label) == first_of_key(tags, TagKey::Label),
        tag_value(tags, TagField::Comment) == first_of_key(tags, TagKey::Comment),
        tag_value(tags, TagField::TrackNumber) == first_of_key(tags, TagKey::TrackNumber),
        tag_value(tags, TagField::Rating) == first_of_key(tags, TagKey::Rating),
        first_of_key(tags, TagKey::Date) is None && first_of_key(tags, TagKey::ReleaseDate) is None ==> tag_value(
            tags,
            TagField::Year,
        ) == first_of_key(tags, TagKey::OriginalDate),
        first_of_key(tags, TagKey::Date) is Some || first_of_key(tags, TagKey::ReleaseDate) is Some ==> (tag_value(
            tags,
            TagField::Year,
        ) == first_of_key(tags, TagKey::Date) || tag_value(tags, TagField::Year) == first_of_key(
            tags,
            TagKey::ReleaseDate,
        )) && tag_value(tags, TagField::Year) is Some,
{
    lemma_first_for_is_first_of_key(tags, TagField::Title, TagKey::TrackTitle);
    lemma_first_for_is_first_of_key(tags, TagField::Artist, TagKey::Artist);
    lemma_first_for_is_first_of_key(tags, TagField::Album, TagKey::Album);
    lemma_first_for_is_first_of_key(tags, TagField::AlbumArtist, TagKey::AlbumArtist);
    lemma_first_for_is_first_of_key(tags, TagField::Genre, TagKey::Genre);
    lemma_first_for_is_first_of_key(tags, TagField::Composer, TagKey::Composer);
    lemma_first_for_is_first_of_key(tags, TagField::Remixer, TagKey::Remixer);
    lemma_first_for_is_first_of_key(tags, TagField::Label, TagKey::Label);
    lemma_first_for_is_first_of_key(tags, TagField::Comment, TagKey::Comment);
    lemma_first_for_is_first_of_key(tags, TagField::TrackNumber, TagKey::TrackNumber);
    lemma_first_for_is_first_of_key(tags, TagField::Rating, TagKey::Rating);
    lemma_year_is_a_first_date(tags);
}

impl Default for TrackTags {
    fn default() -> (tags: TrackTags)
        ensures
            forall|field: TagField| field_value(tags, field) is None,
    {
        TrackTags {
            title: None,
            artist: None,
            album: None,
            album_artist: None,
            genre: None,
            composer: None,
            remixer: None,
            label: None,
            comment: None,
            track_number: None,
            year: None,
            rating: None,
        }
    }
}

fn fill(slot: &mut Option<String>, value: &String)
    ensures
        opt_view(*final(slot)) == (match opt_view(*old(slot)) {
            Some(held) => Some(held),
            None => Some(value@),
        }),
{
    if slot.is_none() {
        *slot = Some(value.clone());
    }
}

/// A track's tags from the tags its file carries: the ones before the container
/// (ID3v2 in MP3, APEv2) first, then the container's own. The plain or release
/// date is preferred for the year; the original release date counts only where
/// the file has neither.
pub fn read_tags(tags: &Vec<Tag>) -> (read: TrackTags)
    ensures
        forall|field: TagField| #[trigger] field_value(read, field) == tag_value(tags_view(tags@), field),
{
    let ghost all = tags_view(tags@);
    let mut read = TrackTags::default();
    let mut original: Option<String> = None;
    let mut i: usize = 0;
    assert(all.take(0) =~= Seq::<(TagKey, Seq<char>)>::empty());
    while i < tags.len()
        invariant
            i <= tags.len(),
            all == tags_view(tags@),
            forall|field: TagField| #[trigger] field_value(read, field) == first_for(all.take(i as int), field),
            opt_view(original) == first_of_key(all.take(i as int), TagKey::OriginalDate),
        decreases tags.len() - i,
    {
        let tag = &tags[i];
        assert(all[i as int] == (tag.key, tag.value@));
        assert(all.take(i + 1).drop_last() =~= all.take(i as int));
        assert(all.take(i + 1).last() == all[i as int]);
        let ghost before = read;
        match tag.key {
            TagKey::TrackTitle => fill(&mut read.title, &tag.value),
            TagKey::Artist => fill(&mut read.artist, &tag.value),
            TagKey::Album => fill(&mut read.album, &tag.value),
            TagKey::AlbumArtist => fill(&mut read.album_artist, &tag.value),
            TagKey::Genre => fill(&mut read.genre, &tag.value),
            TagKey::Composer => fill(&mut read.composer, &tag.value),
            TagKey::Remixer => fill(&mut read.remixer, &tag.value),
            TagKey::Label => fill(&mut read.label, &tag.value),
            TagKey::Comment => fill(&mut read.comment, &tag.value),
            TagKey::TrackNumber => fill(&mut read.track_number, &tag.value),
            TagKey::Date | TagKey::ReleaseDate => fill(&mut read.year, &tag.value),
            // Kept aside: it gives the year only if no other date does.
            TagKey::OriginalDate => fill(&mut original, &tag.value),
            TagKey::Rating => fill(&mut read.rating, &tag.value),
            TagKey::Other => {},
        }
        assert forall|field: TagField| #[trigger] field_value(read, field) == first_for(all.take(i + 1), field) by {
            assert(field_value(before, field) == first_for(all.take(i as int), field));
        }
        i += 1;
    }
    assert(all.take(i as int) =~= all);
    let ghost filled = read;
    assert(forall|field: TagField| #[trigger] field_value(filled, field) == first_for(all, field));
    if read.year.is_none() {
        read.year = original;
    }
    assert forall|field: TagField| #[trigger] field_value(read, field) == tag_value(all, field) by {
        assert(field_value(filled, field) == first_for(all, field));
        assert(field_value(filled, TagField::Year) == first_for(all, TagField::Year));
    }
    read
}

} // verus!
