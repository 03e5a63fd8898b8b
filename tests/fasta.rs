use fasta::{get_id_from_defline, lines_of, read_lines, read_str, FastaError, Reader, Record};

fn ids_and_seqs(items: &[Result<Record, FastaError>]) -> Vec<(String, String)> {
    items
        .iter()
        .map(|item| match item {
            Ok(rec) => (rec.id().to_string(), rec.seq().to_string()),
            Err(e) => panic!("unexpected error: {:?}", e),
        })
        .collect()
}

#[test]
fn fasta_record() {
    let entry_string = ">id\nACTG\nAAAA\nACGT".to_string();
    let rec = Record::new(&entry_string).unwrap();
    assert_eq!(rec.id(), "id".to_string());
    assert_eq!(rec.seq(), "ACTGAAAAACGT".to_string());
    assert_eq!(rec.to_string(), entry_string);
}

#[test]
fn reader_single_record() {
    let items = read_str(">id\nACTG\nAAAA\nACGT");
    assert_eq!(items.len(), 1);
    let rec = items[0].as_ref().unwrap();
    assert_eq!(rec.id(), "id");
    assert_eq!(rec.seq(), "ACTGAAAAACGT");
    assert_eq!(rec.to_string(), ">idACTGAAAAACGT");
}

#[test]
fn record_new_first_line_without_marker() {
    let rec = Record::new(&"ACTG\nAAAA".to_string()).unwrap();
    assert_eq!(rec.id(), "ACTG");
    assert_eq!(rec.seq(), "AAAA");
}

#[test]
fn record_new_empty_first_line_fails() {
    assert!(matches!(Record::new(&String::new()), Err(FastaError::Parse(_))));
    assert!(matches!(Record::new(&" \t\nACGT".to_string()), Err(FastaError::Parse(_))));
}

#[test]
fn record_new_keeps_body_lines_untrimmed() {
    let rec = Record::new(&">x desc\n AC \nGT\n".to_string()).unwrap();
    assert_eq!(rec.id(), "x");
    assert_eq!(rec.seq(), " AC GT");
    assert_eq!(rec.to_string(), ">x desc\n AC \nGT\n");
}

#[test]
fn reader_without_header_yields_nothing() {
    assert!(read_str("ACTG\nAAAA").is_empty());
}

#[test]
fn reader_two_records() {
    let items = read_str(">a\nAA\n>b\nCC\nGG");
    assert_eq!(
        ids_and_seqs(&items),
        vec![("a".to_string(), "AA".to_string()), ("b".to_string(), "CCGG".to_string())]
    );
    assert_eq!(items[0].as_ref().unwrap().to_string(), ">aAA");
    assert_eq!(items[1].as_ref().unwrap().to_string(), ">bCCGG");
}

#[test]
fn reader_marker_only_header() {
    let items = read_str(">\nACTG");
    assert_eq!(ids_and_seqs(&items), vec![("".to_string(), "ACTG".to_string())]);
}

#[test]
fn reader_empty_input() {
    assert!(read_str("").is_empty());
    assert!(read_lines(&Vec::new()).is_empty());
}

#[test]
fn reader_one_record_per_header() {
    let input = "junk\n>r1 first\nAC\n>r2\n>r3\nGG\nTT\n";
    let items = read_str(input);
    assert_eq!(items.len(), 3);
    assert_eq!(
        ids_and_seqs(&items),
        vec![
            ("r1".to_string(), "AC".to_string()),
            ("r2".to_string(), "".to_string()),
            ("r3".to_string(), "GGTT".to_string()),
        ]
    );
}

#[test]
fn reader_entries_rebuild_input() {
    let input = ">a x\n AC\nGT \n>b\nTT";
    let items = read_str(input);
    let joined: String = items.iter().map(|i| i.as_ref().unwrap().to_string()).collect();
    assert_eq!(joined, input.replace('\n', ""));
}

#[test]
fn reader_id_from_own_header() {
    let items = read_str(">seq1 some description\nACGT\n>>seq2\tmore\nTT");
    let headers = [">seq1 some description", ">>seq2\tmore"];
    for (item, header) in items.iter().zip(headers.iter()) {
        let rec = item.as_ref().unwrap();
        assert!(rec.to_string().starts_with(header));
        assert_eq!(get_id_from_defline(header).unwrap(), rec.id());
    }
    assert_eq!(items.len(), 2);
}

#[test]
fn reader_trims_sequence_lines() {
    let items = read_str(">id\n  AC GT \t\n\u{3000}TT\u{a0}\n\n");
    assert_eq!(ids_and_seqs(&items), vec![("id".to_string(), "AC GTTT".to_string())]);
    assert_eq!(items[0].as_ref().unwrap().to_string(), ">id  AC GT \t\u{3000}TT\u{a0}");
}

#[test]
fn reader_crlf_lines() {
    let items = read_str(">id\r\nAC\r\nGT\r\n");
    assert_eq!(ids_and_seqs(&items), vec![("id".to_string(), "ACGT".to_string())]);
}

#[test]
fn lines_of_splits_like_bufread() {
    assert_eq!(lines_of("a\r\nb\n\nc"), vec!["a", "b", "", "c"]);
    assert_eq!(lines_of("a\n"), vec!["a"]);
    assert!(lines_of("").is_empty());
    assert_eq!(lines_of("\n"), vec![""]);
}

#[test]
fn defline_extraction() {
    assert_eq!(get_id_from_defline(">id desc").unwrap(), "id");
    assert_eq!(get_id_from_defline(">>>x").unwrap(), "x");
    assert_eq!(get_id_from_defline("  >x\ty").unwrap(), "x");
    assert_eq!(get_id_from_defline("> x").unwrap(), "");
    assert_eq!(get_id_from_defline("a>b c").unwrap(), "a>b");
    assert!(matches!(get_id_from_defline(""), Err(FastaError::Parse(_))));
    assert!(matches!(get_id_from_defline(" \t "), Err(FastaError::Parse(_))));
}

#[test]
fn reader_pushed_line_by_line() {
    let mut reader = Reader::new();
    assert!(reader.push_line("ignored before any header").is_none());
    assert!(reader.push_line(">a").is_none());
    assert!(reader.push_line("AC").is_none());
    let done = reader.push_line(">b").unwrap().unwrap();
    assert_eq!(done.id(), "a");
    assert_eq!(done.seq(), "AC");
    let last = reader.finish().unwrap().unwrap();
    assert_eq!(last.id(), "b");
    assert_eq!(last.seq(), "");
    assert!(reader.finish().is_none());
}

#[test]
fn record_new_non_ascii() {
    let rec = Record::new(&">é x\nAÇ\r\nG".to_string()).unwrap();
    assert_eq!(rec.id(), "é");
    assert_eq!(rec.seq(), "AÇ\rG");
}
