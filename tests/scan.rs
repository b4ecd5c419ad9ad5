use token_scan::scanner::{pick_separator, scan_bytes, Action, Event, ScanError, Scanner, REPORT_INTERVAL};
use token_scan::track::Occurence;
use token_scan::utf8::{decode_sequence, utf8_char_len};

fn occ(line: u64, chars: u64, line_bytes: u64, total: u64) -> Occurence {
    Occurence {
        line_number: line,
        line_character_offset: chars,
        line_byte_offset: line_bytes,
        total_byte_offset: total,
    }
}

fn found(search: &str, sep: char, text: &str) -> Vec<Occurence> {
    match scan_bytes(search, sep, text.as_bytes()) {
        Ok(p) => {
            assert_eq!(p.bytes_scanned, text.len() as u64);
            p.occurrences
        }
        Err(e) => panic!("scan failed: {:?}", e),
    }
}

#[test]
fn separator_splits_two_matches() {
    let r = found("hello", ',', "hello world, hello");
    assert_eq!(r, vec![occ(1, 5, 5, 5), occ(1, 18, 18, 18)]);
}

#[test]
fn overlapping_matches_are_all_found() {
    let r = found("aa", ',', "aaaa");
    assert_eq!(r, vec![occ(1, 2, 2, 2), occ(1, 3, 3, 3), occ(1, 4, 4, 4)]);
}

#[test]
fn matching_ignores_case() {
    let r = found("Cat", ',', "the CAT sat");
    assert_eq!(r, vec![occ(1, 7, 7, 7)]);
}

#[test]
fn matching_folds_non_ascii_letters() {
    let r = found("école", ',', "une ÉCOLE");
    assert_eq!(r, vec![occ(1, 9, 10, 10)]);
}

#[test]
fn total_offset_sums_encoded_lengths() {
    let text = "é€😀";
    let r = found("😀", ',', text);
    assert_eq!(r, vec![occ(1, 3, 9, 9)]);
}

#[test]
fn newline_advances_line_and_resets_offsets() {
    let r = found("ab", ',', "ab\ncab\n\nxab");
    assert_eq!(r, vec![occ(1, 2, 2, 2), occ(2, 3, 3, 6), occ(4, 3, 3, 11)]);
}

#[test]
fn newline_line_offsets_count_bytes() {
    let r = found("b", ',', "é\néb");
    assert_eq!(r, vec![occ(2, 2, 3, 6)]);
}

#[test]
fn match_cannot_span_newline_or_separator() {
    assert!(found("hello", ',', "hel\nlo").is_empty());
    assert!(found("hello", ';', "hel;lo").is_empty());
    assert!(found("a,b", ',', "a,b").is_empty());
}

#[test]
fn boundary_character_may_start_a_match() {
    let r = found(",b", ',', "a,b");
    assert_eq!(r, vec![occ(1, 3, 3, 3)]);
}

#[test]
fn empty_search_is_refused() {
    assert!(matches!(scan_bytes("", ',', b"abc"), Err(ScanError::EmptySearch)));
    assert!(matches!(Scanner::new("", ','), Err(ScanError::EmptySearch)));
}

#[test]
fn stray_continuation_byte_is_an_encoding_error() {
    let r = scan_bytes("a", ',', &[0x61, 0x80, 0x61]);
    assert!(matches!(r, Err(ScanError::InvalidEncoding)));
}

#[test]
fn malformed_sequence_is_an_encoding_error() {
    let r = scan_bytes("a", ',', &[0xC3, 0x41]);
    assert!(matches!(r, Err(ScanError::InvalidEncoding)));
    let r = scan_bytes("a", ',', &[0xF8]);
    assert!(matches!(r, Err(ScanError::InvalidEncoding)));
}

#[test]
fn truncated_sequence_at_end_is_an_encoding_error() {
    let r = scan_bytes("a", ',', &[0x61, 0xE2, 0x82]);
    assert!(matches!(r, Err(ScanError::InvalidEncoding)));
}

#[test]
fn nothing_is_reported_after_an_encoding_error() {
    let mut s = Scanner::new("a", ',').ok().unwrap();
    assert!(matches!(s.handle(Event::Byte(b'a')), Action::Continue));
    assert!(matches!(s.handle(Event::Byte(0x80)), Action::Fail(ScanError::InvalidEncoding)));
    assert!(!s.is_running());
    assert!(matches!(s.handle(Event::Byte(b'a')), Action::Stop));
    assert!(matches!(s.handle(Event::End), Action::Stop));
    assert_eq!(s.bytes_scanned(), 1);
}

#[test]
fn cancelling_stops_all_further_reports() {
    let mut s = Scanner::new("a", ',').ok().unwrap();
    assert!(matches!(s.handle(Event::Byte(b'a')), Action::Continue));
    assert!(matches!(s.handle(Event::Cancelled), Action::Stop));
    assert!(matches!(s.handle(Event::Byte(b'a')), Action::Stop));
    assert!(matches!(s.handle(Event::End), Action::Stop));
    assert_eq!(s.bytes_scanned(), 1);
}

#[test]
fn read_failure_is_reported_once() {
    let mut s = Scanner::new("a", ',').ok().unwrap();
    match s.handle(Event::ReadFailed("disk gone".to_string())) {
        Action::Fail(ScanError::IoError(m)) => assert_eq!(m, "disk gone"),
        other => panic!("unexpected {:?}", other),
    }
    assert!(matches!(s.handle(Event::End), Action::Stop));
}

#[test]
fn streaming_finish_hands_out_the_rest() {
    let mut s = Scanner::new("é", ',').ok().unwrap();
    for b in "xé".as_bytes() {
        assert!(matches!(s.handle(Event::Byte(*b)), Action::Continue));
    }
    match s.handle(Event::End) {
        Action::Finish(p) => {
            assert_eq!(p.bytes_scanned, 3);
            assert_eq!(p.occurrences, vec![occ(1, 2, 3, 3)]);
        }
        other => panic!("unexpected {:?}", other),
    }
    assert!(!s.is_running());
}

#[test]
fn progress_is_reported_past_the_interval() {
    let mut s = Scanner::new("a", ',').ok().unwrap();
    let mut reports = Vec::new();
    for _ in 0..(REPORT_INTERVAL + 2) {
        if let Action::Report(p) = s.handle(Event::Byte(b'a')) {
            reports.push(p);
        }
    }
    assert_eq!(reports.len(), 1);
    assert_eq!(reports[0].bytes_scanned, REPORT_INTERVAL + 1);
    assert_eq!(reports[0].occurrences.len() as u64, REPORT_INTERVAL + 1);
    assert_eq!(reports[0].occurrences[0], occ(1, 1, 1, 1));
    match s.handle(Event::End) {
        Action::Finish(p) => {
            assert_eq!(p.bytes_scanned, REPORT_INTERVAL + 2);
            assert_eq!(p.occurrences, vec![occ(1, REPORT_INTERVAL + 2, REPORT_INTERVAL + 2, REPORT_INTERVAL + 2)]);
        }
        other => panic!("unexpected {:?}", other),
    }
}

#[test]
fn scanning_twice_gives_the_same_result() {
    let text = "abab\nbaba, ab";
    let a = scan_bytes("ab", ',', text.as_bytes()).ok().unwrap();
    let b = scan_bytes("ab", ',', text.as_bytes()).ok().unwrap();
    assert_eq!(a.bytes_scanned, b.bytes_scanned);
    assert_eq!(a.occurrences, b.occurrences);
    assert_eq!(a.occurrences.len(), 4);
}

#[test]
fn lead_byte_lengths() {
    assert_eq!(utf8_char_len(0x41), Some(1));
    assert_eq!(utf8_char_len(0xC3), Some(2));
    assert_eq!(utf8_char_len(0xE2), Some(3));
    assert_eq!(utf8_char_len(0xF0), Some(4));
    assert_eq!(utf8_char_len(0x80), None);
    assert_eq!(utf8_char_len(0xBF), None);
    assert_eq!(utf8_char_len(0xF8), None);
    assert_eq!(utf8_char_len(0xFF), None);
}

#[test]
fn decodes_one_sequence() {
    assert_eq!(decode_sequence(&[0xC3, 0xA9]), Some('é'));
    assert_eq!(decode_sequence(&[0x41]), Some('A'));
    assert_eq!(decode_sequence(&[0xC3, 0x41]), None);
    assert_eq!(decode_sequence(&[0xE0, 0x80, 0x80]), None);
}

#[test]
fn separator_keeps_first_changed_character() {
    assert_eq!(pick_separator(',', ",;"), ';');
    assert_eq!(pick_separator(',', "|"), '|');
    assert_eq!(pick_separator(',', ",,"), ',');
    assert_eq!(pick_separator(',', ""), ',');
}

#[test]
fn no_report_when_stream_ends_at_the_interval() {
    let mut s = Scanner::new("a", ',').ok().unwrap();
    for _ in 0..(REPORT_INTERVAL + 1) {
        assert!(matches!(s.handle(Event::Byte(b'a')), Action::Continue));
    }
    match s.handle(Event::End) {
        Action::Finish(p) => {
            assert_eq!(p.bytes_scanned, REPORT_INTERVAL + 1);
            assert_eq!(p.occurrences.len() as u64, REPORT_INTERVAL + 1);
        }
        other => panic!("unexpected {:?}", other),
    }
}

#[test]
fn report_on_last_byte_is_followed_by_a_larger_finish() {
    let mut s = Scanner::new("b", ',').ok().unwrap();
    let mut counts = Vec::new();
    for _ in 0..(REPORT_INTERVAL + 1) {
        assert!(matches!(s.handle(Event::Byte(b'a')), Action::Continue));
    }
    match s.handle(Event::Byte(b'b')) {
        Action::Report(p) => {
            assert!(p.occurrences.is_empty());
            counts.push(p.bytes_scanned);
        }
        other => panic!("unexpected {:?}", other),
    }
    match s.handle(Event::End) {
        Action::Finish(p) => {
            assert_eq!(p.occurrences, vec![occ(1, REPORT_INTERVAL + 2, REPORT_INTERVAL + 2, REPORT_INTERVAL + 2)]);
            counts.push(p.bytes_scanned);
        }
        other => panic!("unexpected {:?}", other),
    }
    assert_eq!(counts, vec![REPORT_INTERVAL + 1, REPORT_INTERVAL + 2]);
}

#[test]
fn report_is_kept_out_when_the_due_byte_is_malformed() {
    let mut s = Scanner::new("a", ',').ok().unwrap();
    for _ in 0..(REPORT_INTERVAL + 1) {
        assert!(matches!(s.handle(Event::Byte(b'a')), Action::Continue));
    }
    assert!(matches!(s.handle(Event::Byte(0x80)), Action::Fail(ScanError::InvalidEncoding)));
    assert!(matches!(s.handle(Event::End), Action::Stop));
}
