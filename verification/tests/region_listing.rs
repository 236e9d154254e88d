use memscan::regions::{enumerate_regions_handler, parse_region_line, parse_regions, split, Parting, Region};
use memscan::target::{ApiError, TargetContext};

fn region(start: &str, end: &str, protection: &str, path: Option<&str>) -> Region {
    Region {
        start_address: start.as_bytes().to_vec(),
        end_address: end.as_bytes().to_vec(),
        protection: protection.as_bytes().to_vec(),
        file_path: path.map(|p| p.as_bytes().to_vec()),
    }
}

#[test]
fn a_line_with_a_path() {
    assert_eq!(
        parse_region_line(b"7f00aa000000-7f00aa021000 r-xp /usr/lib/libc.so"),
        Some(region("7f00aa000000", "7f00aa021000", "r-xp", Some("/usr/lib/libc.so")))
    );
}

#[test]
fn a_line_without_a_path() {
    assert_eq!(
        parse_region_line(b"1000-2000 rw-"),
        Some(region("1000", "2000", "rw-", None))
    );
}

#[test]
fn fields_are_parted_by_any_whitespace() {
    assert_eq!(
        parse_region_line(b" \t1000-2000\t\trw-  \x0b /a/b \r"),
        Some(region("1000", "2000", "rw-", Some("/a/b")))
    );
}

#[test]
fn further_words_are_ignored() {
    assert_eq!(
        parse_region_line(b"1000-2000 r-- /a b c"),
        Some(region("1000", "2000", "r--", Some("/a")))
    );
}

#[test]
fn a_line_needs_two_words() {
    assert_eq!(parse_region_line(b""), None);
    assert_eq!(parse_region_line(b"   "), None);
    assert_eq!(parse_region_line(b"1000-2000"), None);
    assert_eq!(parse_region_line(b"1000-2000   "), None);
}

#[test]
fn the_first_word_needs_exactly_one_hyphen() {
    assert_eq!(parse_region_line(b"10002000 rw-"), None);
    assert_eq!(parse_region_line(b"1000-2000-3000 rw-"), None);
    assert_eq!(parse_region_line(b"-- rw-"), None);
    assert_eq!(parse_region_line(b"-2000 rw-"), Some(region("", "2000", "rw-", None)));
    assert_eq!(parse_region_line(b"1000- rw-"), Some(region("1000", "", "rw-", None)));
    assert_eq!(parse_region_line(b"- rw-"), Some(region("", "", "rw-", None)));
}

#[test]
fn a_listing_gives_a_region_for_each_good_line() {
    let listing = b"1000-2000 r-x /bin/app\n\nnot a region\n3000-4000 rw-\r\n5000-6000\n7000-8000 --- [stack]";
    assert_eq!(
        parse_regions(listing),
        vec![
            region("1000", "2000", "r-x", Some("/bin/app")),
            region("3000", "4000", "rw-", None),
            region("7000", "8000", "---", Some("[stack]")),
        ]
    );
    assert_eq!(parse_regions(b""), vec![]);
    assert_eq!(parse_regions(b"\n\n\n"), vec![]);
}

#[test]
fn splitting_gives_the_longest_stretches() {
    assert_eq!(split(b"ab  cd e", Parting::Words), vec![(0, 2), (4, 6), (7, 8)]);
    assert_eq!(split(b"  ab  ", Parting::Words), vec![(2, 4)]);
    assert_eq!(split(b"", Parting::Words), vec![]);
    assert_eq!(split(b"a b\nc d\n\ne", Parting::Lines), vec![(0, 3), (4, 7), (9, 10)]);
    assert_eq!(split(b"a\tb", Parting::Lines), vec![(0, 3)]);
}

#[test]
fn regions_are_refused_without_a_target() {
    let mut context = TargetContext::new();
    assert_eq!(enumerate_regions_handler(&context, b"1000-2000 rw-"), Err(ApiError::NotAttached));
    context.attach(3);
    assert_eq!(
        enumerate_regions_handler(&context, b"1000-2000 rw-\n"),
        Ok(vec![region("1000", "2000", "rw-", None)])
    );
}

fn words_of(text: &str) -> Vec<Vec<u8>> {
    split(text.as_bytes(), Parting::Words)
        .iter()
        .map(|(start, end)| text.as_bytes()[*start..*end].to_vec())
        .collect()
}

fn whitespace_words_of(text: &str) -> Vec<Vec<u8>> {
    text.split_whitespace().map(|w| w.as_bytes().to_vec()).collect()
}

#[test]
fn fields_parted_by_a_no_break_space() {
    assert_eq!(
        parse_regions("1000-2000\u{a0}rw-\n".as_bytes()),
        vec![region("1000", "2000", "rw-", None)]
    );
}

#[test]
fn a_path_is_cut_at_unicode_whitespace() {
    assert_eq!(
        parse_region_line("1000-2000 r-x /opt/my\u{a0}app/lib.so".as_bytes()),
        Some(region("1000", "2000", "r-x", Some("/opt/my")))
    );
    assert_eq!(
        parse_region_line("1000-2000 r-x /opt/my\u{3000}app".as_bytes()),
        Some(region("1000", "2000", "r-x", Some("/opt/my")))
    );
    // Other characters of several bytes stay inside their word.
    assert_eq!(
        parse_region_line("1000-2000 r-x /opt/café/‰/lib.so".as_bytes()),
        Some(region("1000", "2000", "r-x", Some("/opt/café/‰/lib.so")))
    );
}

#[test]
fn every_unicode_whitespace_character_parts_words() {
    let spaces = [
        '\u{9}', '\u{a}', '\u{b}', '\u{c}', '\u{d}', '\u{20}', '\u{85}', '\u{a0}', '\u{1680}',
        '\u{2000}', '\u{2001}', '\u{2002}', '\u{2003}', '\u{2004}', '\u{2005}', '\u{2006}',
        '\u{2007}', '\u{2008}', '\u{2009}', '\u{200a}', '\u{2028}', '\u{2029}', '\u{202f}',
        '\u{205f}', '\u{3000}',
    ];
    for c in spaces {
        assert!(c.is_whitespace());
        let text = format!("ab{}cd", c);
        assert_eq!(words_of(&text), vec![b"ab".to_vec(), b"cd".to_vec()]);
    }
}

#[test]
fn words_are_cut_as_split_whitespace_cuts_them_for_every_character() {
    let mut c = '\0';
    loop {
        let text = format!("a{}b", c);
        assert_eq!(words_of(&text), whitespace_words_of(&text));
        if c == char::MAX {
            break;
        }
        c = match char::from_u32(c as u32 + 1) {
            Some(next) => next,
            None => '\u{e000}',
        };
    }
}

#[test]
fn words_are_cut_as_split_whitespace_cuts_them_in_mixed_text() {
    let samples = [
        "",
        " ",
        "\u{a0}",
        "\u{2003}\u{2003}x\u{2003}",
        "one\u{85}two\u{1680}three\u{2028}four\u{202f}five\u{205f}six",
        "a \u{a0}\t\u{3000} b",
        "é\u{a0}ü",
        "\u{200b}zero-width\u{200b}space is no whitespace",
        "\u{e2}\u{80}x",
        "tail\u{2009}",
        "\u{feff}bom 1000-2000",
        "Â\u{a0}À",
    ];
    for text in samples {
        assert_eq!(words_of(text), whitespace_words_of(text));
    }
}

#[test]
fn unfinished_encodings_part_nothing() {
    // The first bytes of a whitespace character without its last byte.
    assert_eq!(split(&[b'a', 0xc2], Parting::Words), vec![(0, 2)]);
    assert_eq!(split(&[b'a', 0xe2, 0x80], Parting::Words), vec![(0, 3)]);
    assert_eq!(split(&[b'a', 0xe2, 0x80, 0x8b, b'b'], Parting::Words), vec![(0, 5)]);
    assert_eq!(split(&[b'a', 0xe2, 0x80, 0x8a, b'b'], Parting::Words), vec![(0, 1), (4, 5)]);
}
