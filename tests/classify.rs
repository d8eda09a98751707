use harvester::{classify_lowered, Analyzer, MediaData};

fn show(name: &str, season: u32, episode: u32) -> Option<MediaData> {
    Some(MediaData::ShowEpisode { name: name.to_string(), season, episode })
}

fn movie(title: &str, year: u32) -> Option<MediaData> {
    Some(MediaData::Movie { title: title.to_string(), year: Some(year) })
}

#[test]
fn side_files_are_garbage_whatever_the_name() {
    let a = Analyzer::new();
    for ext in [
        "srt", "sub", "idx", "ogg", "mp3", "jpg", "png", "ts", "bdjo", "clpi", "mpls", "m2ts",
        "bdmv", "torrent", "meta", "exe", "nfo", "txt", "md5",
    ] {
        for name in ["Show Name S02E05 extra", "Some Movie 1999", "x", "[grp] a - 1"] {
            let path = format!("/in/{}.{}", name, ext);
            assert_eq!(a.analyze(&path), Some(MediaData::Garbage), "{}", path);
        }
    }
}

#[test]
fn explicit_season_and_episode() {
    let a = Analyzer::new();
    assert_eq!(a.analyze("/in/Show Name S02E05 extra.mkv"), show("show name", 2, 5));
    assert_eq!(classify_lowered("show name s02e05 extra"), show("show name", 2, 5));
}

#[test]
fn bare_year_is_taken_by_the_trailing_number_rule() {
    // The trailing-integer rule comes before the year rule.
    let a = Analyzer::new();
    assert_eq!(a.analyze("/in/Some Movie 1999.mkv"), show("some movie", 1, 1999));
}

#[test]
fn year_followed_by_more_text_is_a_movie() {
    let a = Analyzer::new();
    assert_eq!(a.analyze("/in/Some Movie 1999 1080p.mp4"), movie("some movie", 1999));
    assert_eq!(classify_lowered("some.movie.2004.bluray"), movie("some movie", 2004));
}

#[test]
fn dash_episode() {
    let a = Analyzer::new();
    assert_eq!(a.analyze("/in/Series Name - 13.mkv"), show("series name", 1, 13));
    assert_eq!(classify_lowered("series name - 13v2"), show("series name", 1, 13));
    assert_eq!(classify_lowered("series name - 13 the end"), show("series name", 1, 13));
}

#[test]
fn tags_and_separators_are_cleaned() {
    let a = Analyzer::new();
    assert_eq!(a.analyze("/in/[Group] Show_Name - 03 [1080p].mkv"), show("show name", 1, 3));
    assert_eq!(classify_lowered("[a][b]x.y_z s1e2 q"), show("x y z", 1, 2));
}

#[test]
fn quoted_title_episode() {
    assert_eq!(classify_lowered("show e05 'the title'"), show("show", 1, 5));
}

#[test]
fn bare_trailing_episode_forms() {
    assert_eq!(classify_lowered("show 07"), show("show", 1, 7));
    assert_eq!(classify_lowered("show 07 v2"), show("show", 1, 7));
    assert_eq!(classify_lowered("show 07 (bd)"), show("show", 1, 7));
    assert_eq!(classify_lowered("show 07 (bd) v2"), show("show", 1, 7));
}

#[test]
fn name_is_as_long_as_possible() {
    assert_eq!(classify_lowered("a s01e01 b s02e03 c"), show("a s01e01 b", 2, 3));
}

#[test]
fn year_after_hyphen_is_not_a_year() {
    assert_eq!(classify_lowered("movie- 1999 x"), None);
    assert_eq!(classify_lowered("movie 1999 -x"), None);
}

#[test]
fn unknown_pattern_and_extension() {
    let a = Analyzer::new();
    assert_eq!(a.analyze("/in/random.mkv"), None);
    assert_eq!(a.analyze("/in/notes.doc"), None);
    assert_eq!(a.analyze("/in/README"), None);
    assert_eq!(a.analyze("/in/.mkv"), None);
    assert_eq!(a.analyze("/in/Show S01E01 x.MKV"), None);
}

#[test]
fn number_too_large_fails_classification() {
    assert_eq!(classify_lowered("show - 99999999999"), None);
    assert_eq!(classify_lowered("show - 4294967295"), show("show", 1, 4294967295));
}

#[test]
fn lowercasing_applies_to_the_stem() {
    let a = Analyzer::new();
    assert_eq!(a.analyze("/In/SHOW S03E10 X.mkv"), show("show", 3, 10));
}

#[test]
fn season_zero_is_rejected() {
    assert_eq!(classify_lowered("x s00e01 y"), None);
    assert_eq!(classify_lowered("x s01e00 y"), show("x", 1, 0));
}
