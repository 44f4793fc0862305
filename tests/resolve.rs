use anime_dl::cli::{episode_span, parse_number, resolution_from_answer};
use anime_dl::resolver::{contains_bytes, contains_number, extension_of, is_media_filename, resolve, PackageDescriptor, ResolutionError};

fn pkg(name: &str, number: u64) -> PackageDescriptor {
    PackageDescriptor { filename: name.as_bytes().to_vec(), size: 100, bot: b"Bot".to_vec(), number }
}

#[test]
fn no_match_is_not_found() {
    assert!(matches!(resolve(Some(vec![]), b"sakamoto", None), Err(ResolutionError::NotFound)));
    assert!(matches!(resolve(Some(vec![pkg("notes.txt", 1), pkg("x.zip", 2)]), b"notes", None), Err(ResolutionError::NotFound)));
}

#[test]
fn lone_candidate_without_extension() {
    assert!(matches!(resolve(Some(vec![pkg("README", 1)]), b"README", None), Err(ResolutionError::NoExtension)));
}

#[test]
fn unreachable_index() {
    assert!(matches!(resolve(None, b"x", Some(1)), Err(ResolutionError::IndexUnavailable)));
}

#[test]
fn newest_media_package_wins() {
    let r = resolve(Some(vec![pkg("a.mkv", 3), pkg("b.txt", 9), pkg("c.mp4", 7), pkg("d.avi", 7)]), b"zzz", None).unwrap();
    assert_eq!(r.filename, b"c.mp4".to_vec());
    assert_eq!(r.number, 7);
}

#[test]
fn one_failed_query_leaves_the_others() {
    let results: Vec<_> = [vec![pkg("x.txt", 1)], vec![pkg("ep2.mkv", 4)]]
        .into_iter()
        .map(|c| resolve(Some(c), b"ep", Some(2)))
        .collect();
    assert!(matches!(results[0], Err(ResolutionError::NotFound)));
    assert_eq!(results[1].as_ref().unwrap().number, 4);
}

#[test]
fn media_extensions() {
    assert!(is_media_filename(b"show.ep01.mkv"));
    assert!(is_media_filename(b"song.mp3"));
    assert!(!is_media_filename(b".mkv"));
    assert!(!is_media_filename(b"show.MKV"));
    assert!(!is_media_filename(b"show"));
    assert_eq!(extension_of(b"a.b.c"), Some(b"c".to_vec()));
    assert_eq!(extension_of(b"a."), Some(vec![]));
    assert_eq!(extension_of(b"abc"), None);
}

fn chars(s: &str) -> Vec<char> {
    s.chars().collect()
}

#[test]
fn number_input() {
    assert_eq!(parse_number(&chars("720p")), Some(720));
    assert_eq!(parse_number(&chars("")), Some(0));
    assert_eq!(parse_number(&chars("abc")), Some(0));
    assert_eq!(parse_number(&chars("65535")), Some(65535));
    assert_eq!(parse_number(&chars("65536")), None);
    assert_eq!(parse_number(&chars("1\u{0663}")), None);
    assert_eq!(parse_number(&chars(" 0 1 2 ")), Some(12));
}

#[test]
fn resolution_answers() {
    assert_eq!(resolution_from_answer(0), None);
    assert_eq!(resolution_from_answer(1), Some(480));
    assert_eq!(resolution_from_answer(2), Some(720));
    assert_eq!(resolution_from_answer(3), Some(1080));
    assert_eq!(resolution_from_answer(360), Some(360));
}

#[test]
fn episode_spans() {
    assert_eq!(episode_span(None, None), (1, 1));
    assert_eq!(episode_span(Some(3), None), (3, 3));
    assert_eq!(episode_span(Some(3), Some(7)), (3, 7));
    assert_eq!(episode_span(Some(5), Some(2)), (5, 5));
    assert_eq!(episode_span(None, Some(4)), (1, 4));
}

#[test]
fn episode_number_must_stand_alone() {
    let c = vec![pkg("Show - 12 [720p].mkv", 9), pkg("Show - 2 [720p].mkv", 3), pkg("Show - 02v2.mkv", 4)];
    let r = resolve(Some(c.clone()), b"Show", Some(2)).unwrap();
    assert_eq!(r.number, 4);
    let r = resolve(Some(c.clone()), b"Show", Some(12)).unwrap();
    assert_eq!(r.number, 9);
    assert!(matches!(resolve(Some(c), b"Show", Some(3)), Err(ResolutionError::NotFound)));
    assert!(contains_number(b"ep 007 end", 7));
    assert!(!contains_number(b"ep 1007 end", 7));
    assert!(!contains_number(b"720p", 72));
    assert!(contains_number(b"99999999999 and 5", 5));
    assert!(!contains_number(b"99999999999", 65535));
}

#[test]
fn title_match_ranks_first() {
    let c = vec![pkg("Other Show - 01.mkv", 50), pkg("Sakamoto - 01.mkv", 10), pkg("Sakamoto - 01 [v2].mkv", 20)];
    let r = resolve(Some(c), b"Sakamoto", Some(1)).unwrap();
    assert_eq!(r.number, 20);
    assert_eq!(r.filename, b"Sakamoto - 01 [v2].mkv".to_vec());
    assert!(contains_bytes(b"abcdef", b"cde"));
    assert!(contains_bytes(b"abc", b""));
    assert!(!contains_bytes(b"abc", b"abcd"));
    assert!(!contains_bytes(b"abcdef", b"ced"));
}
