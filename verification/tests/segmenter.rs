use kacl_parser::Block;
use kacl_parser::BlockKind;
use kacl_parser::Changelog;
use kacl_parser::HeadingText;
use kacl_parser::Version;
use kacl_parser::VersionParseError;

fn heading(id: usize, level: u8, text: &str) -> Block {
    Block { id, kind: BlockKind::Heading(level, HeadingText::Text(String::from(text))) }
}

fn content(id: usize) -> Block {
    Block { id, kind: BlockKind::Content }
}

fn ids(blocks: &[Block]) -> Vec<usize> {
    blocks.iter().map(|b| b.id).collect()
}

#[test]
fn no_headings_no_entries() {
    let mut c = Changelog::new(vec![content(0), content(1), content(2)]);
    assert!(c.next().is_none());
    assert!(c.next().is_none());
}

#[test]
fn empty_document_no_entries() {
    let mut c = Changelog::new(Vec::new());
    assert!(c.next().is_none());
}

#[test]
fn wrong_level_headings_yield_no_entries() {
    // Headings whose text would classify, but at the wrong level.
    let blocks = vec![heading(0, 1, "[1.0.0]"), content(1), heading(2, 3, "Unreleased")];
    let mut c = Changelog::new(blocks);
    assert!(c.next().is_none());
}

#[test]
fn single_unreleased_heading_groups_all_following() {
    let blocks = vec![
        content(0), // preamble noise, skipped
        heading(1, 2, "Unreleased"),
        content(2),
        content(3),
        content(4),
    ];
    let mut c = Changelog::new(blocks);
    let (v, body) = c.next().unwrap();
    assert!(matches!(v, Version::Unreleased));
    assert_eq!(ids(&body), vec![2, 3, 4]);
    assert!(c.next().is_none());
}

#[test]
fn entries_follow_heading_order() {
    let blocks = vec![
        content(0),
        heading(1, 2, "[Unreleased]"),
        content(2),
        heading(3, 2, "1.1.0 - 2023-06-07"),
        heading(4, 2, "[1.0.0] - 2023-01-02"),
        content(5),
        content(6),
    ];
    let mut c = Changelog::new(blocks);

    let (v, body) = c.next().unwrap();
    assert!(matches!(v, Version::Unreleased));
    assert_eq!(ids(&body), vec![2]);

    let (v, body) = c.next().unwrap();
    let (sv, d) = v.into_released().unwrap();
    assert_eq!(sv.to_string(), "1.1.0");
    assert_eq!(d.unwrap().encode(), "2023-06-07");
    assert_eq!(ids(&body), Vec::<usize>::new());

    let (v, body) = c.next().unwrap();
    let (sv, d) = v.into_released().unwrap();
    assert_eq!(sv.to_string(), "1.0.0");
    assert_eq!(d.unwrap().encode(), "2023-01-02");
    assert_eq!(ids(&body), vec![5, 6]);

    assert!(c.next().is_none());
    assert!(c.next().is_none());
}

#[test]
fn noise_between_entries_is_content_not_a_stop() {
    // Non-boundary blocks of every kind — plain content, headings at other
    // levels, level-2 headings whose text does not classify — never end the
    // scan; they join the running entry's content.
    let blocks = vec![
        heading(0, 2, "What is this"), // level 2, but no version: preamble noise
        heading(1, 2, "[2.0.0]"),
        content(2),
        heading(3, 3, "Unreleased"), // valid text at the wrong level: content
        heading(4, 2, "not a version"),
        heading(5, 1, "Title"),
        heading(6, 2, "Unreleased"),
        content(7),
    ];
    let mut c = Changelog::new(blocks);

    let (v, body) = c.next().unwrap();
    assert_eq!(v.into_released().unwrap().0.to_string(), "2.0.0");
    assert_eq!(ids(&body), vec![2, 3, 4, 5]);

    let (v, body) = c.next().unwrap();
    assert!(matches!(v, Version::Unreleased));
    assert_eq!(ids(&body), vec![7]);

    assert!(c.next().is_none());
}

#[test]
fn block_classification_reports_why() {
    let b = content(0);
    assert_eq!(Version::try_from_block(&b).unwrap_err(), VersionParseError::Header);

    let b = heading(0, 3, "Unreleased");
    assert_eq!(Version::try_from_block(&b).unwrap_err(), VersionParseError::Header);

    let b = Block { id: 0, kind: BlockKind::Heading(2, HeadingText::NotSingleSpan) };
    assert_eq!(Version::try_from_block(&b).unwrap_err(), VersionParseError::SingleSpan);

    let b = Block { id: 0, kind: BlockKind::Heading(2, HeadingText::InvalidUtf8) };
    assert_eq!(Version::try_from_block(&b).unwrap_err(), VersionParseError::Utf8);

    let b = heading(0, 2, "nothing here");
    assert_eq!(Version::try_from_block(&b).unwrap_err(), VersionParseError::Format);

    let b = heading(0, 2, "[Unreleased]");
    assert!(matches!(Version::try_from_block(&b), Ok(Version::Unreleased)));
}
