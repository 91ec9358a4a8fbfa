use buf_read_split_by::reader::{FailingReader, InterruptingReader, MemReader, SplitError};
use buf_read_split_by::splitter::SplitByBytes;

fn collect_segments(data: &[u8], chunk_size: usize, pattern: &[u8]) -> Vec<String> {
    let reader = MemReader::new(data.to_vec(), chunk_size);
    let mut splitter = reader.split_by_bytes(pattern);
    let mut segments: Vec<String> = Vec::new();
    while let Some(item) = splitter.next() {
        segments.push(item.unwrap());
    }
    segments
}

#[test]
pub fn split_by_iter_test1() {
    let input: Vec<String> = collect_segments("Hello-World-Hyphen".as_bytes(), 8192, b"-");
    assert_eq!(input, vec!["Hello", "World", "Hyphen"])
}

#[test]
pub fn split_by_iter_test2() {
    let input: Vec<String> = collect_segments("Hello-+World-+Minus-+Plus".as_bytes(), 8192, b"-+");
    assert_eq!(input, vec!["Hello", "World", "Minus", "Plus"])
}

#[test]
pub fn split_by_iter_test3() {
    let input: Vec<String> = collect_segments(
        "Hello------World---Hyphen--And-Newline-----Last-match".as_bytes(),
        8192,
        b"---",
    );
    assert_eq!(input, vec!["Hello", "", "World", "Hyphen--And-Newline", "--Last-match"])
}

#[test]
pub fn empty_source_yields_no_segments() {
    let segments = collect_segments(b"", 4, b"-");
    assert_eq!(segments, Vec::<String>::new());
}

#[test]
pub fn delimiter_only_source_yields_one_empty_segment() {
    let segments = collect_segments(b"-+", 4, b"-+");
    assert_eq!(segments, vec![""]);
}

#[test]
pub fn trailing_delimiter_yields_no_final_empty_segment() {
    let segments = collect_segments(b"alpha-", 4, b"-");
    assert_eq!(segments, vec!["alpha"]);
}

#[test]
pub fn leading_delimiter_yields_empty_first_segment() {
    let segments = collect_segments(b"-alpha", 4, b"-");
    assert_eq!(segments, vec!["", "alpha"]);
}

#[test]
pub fn delimiter_split_across_chunks_is_found() {
    for chunk_size in 1usize..6 {
        let segments = collect_segments("Hello-+World-+Minus-+Plus".as_bytes(), chunk_size, b"-+");
        assert_eq!(segments, vec!["Hello", "World", "Minus", "Plus"]);
    }
}

#[test]
pub fn rejoining_segments_restores_source() {
    let source = "one::two::three:and:four";
    let segments = collect_segments(source.as_bytes(), 3, b"::");
    assert_eq!(segments.join("::"), source);
}

#[test]
pub fn split_twice_yields_same_segments() {
    let source = "a--bb--ccc--".as_bytes();
    let first = collect_segments(source, 5, b"--");
    let second = collect_segments(source, 5, b"--");
    assert_eq!(first, second);
}

#[test]
pub fn self_overlapping_pattern_matches_minimally() {
    assert_eq!(collect_segments(b"aaa", 2, b"aa"), vec!["", "a"]);
    assert_eq!(collect_segments(b"aaab", 2, b"aab"), vec!["aaab"]);
}

#[test]
pub fn multibyte_text_is_decoded() {
    let segments = collect_segments("é-х-日".as_bytes(), 1, b"-");
    assert_eq!(segments, vec!["é", "х", "日"]);
}

#[test]
pub fn invalid_utf8_segment_yields_fault_item() {
    let mut data = b"ok-".to_vec();
    data.push(0xFF);
    data.push(0xFE);
    data.extend_from_slice(b"-fine");
    let reader = MemReader::new(data, 4);
    let mut splitter = reader.split_by_bytes(b"-");
    assert_eq!(splitter.next(), Some(Ok(String::from("ok"))));
    assert_eq!(splitter.next(), Some(Err(SplitError::InvalidUtf8)));
    assert_eq!(splitter.next(), Some(Ok(String::from("fine"))));
    assert_eq!(splitter.next(), None);
}

#[test]
pub fn interrupted_reads_are_retried_silently() {
    let reader = InterruptingReader::new("Hello-+World".as_bytes().to_vec(), 2, 3);
    let mut splitter = reader.split_by_bytes(b"-+");
    assert_eq!(splitter.next(), Some(Ok(String::from("Hello"))));
    assert_eq!(splitter.next(), Some(Ok(String::from("World"))));
    assert_eq!(splitter.next(), None);
}

#[test]
pub fn failing_reader_yields_failure_item() {
    let reader = FailingReader::new();
    let mut splitter = reader.split_by_bytes(b"-");
    assert_eq!(splitter.next(), Some(Err(SplitError::Failed)));
}

#[test]
pub fn read_until_bytes_reports_consumed_and_state() {
    let mut reader = MemReader::new(b"ab--cd".to_vec(), 2);
    let mut buffer: Vec<u8> = Vec::new();
    assert_eq!(reader.read_until_bytes(b"--", &mut buffer), Ok((4, 2)));
    assert_eq!(buffer, b"ab--".to_vec());
    let mut tail: Vec<u8> = Vec::new();
    assert_eq!(reader.read_until_bytes(b"--", &mut tail), Ok((2, 0)));
    assert_eq!(tail, b"cd".to_vec());
    assert_eq!(reader.read_until_bytes(b"--", &mut tail), Ok((0, 0)));
    assert_eq!(tail, b"cd".to_vec());
}

#[test]
pub fn partial_match_state_survives_chunk_boundary_in_buffer() {
    let mut reader = MemReader::new(b"xy-z-+w".to_vec(), 1);
    let mut buffer: Vec<u8> = Vec::new();
    let outcome = reader.read_until_bytes(b"-+", &mut buffer).unwrap();
    assert_eq!(outcome, (6, 2));
    assert_eq!(buffer, b"xy-z-+".to_vec());
}
