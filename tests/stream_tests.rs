use dinuc_collapse::stream::{process_lines, RecordStream};
use dinuc_collapse::threshold::Threshold;

fn lines(v: &[&str]) -> Vec<String> {
    v.iter().map(|s| String::from(*s)).collect()
}

#[test]
fn zero_threshold_tags_and_collapses() {
    let input = lines(&["@r1", "AGAGAGTT", "+", "IIIIIIII", "@r2", "ACGT"]);
    let out = process_lines(&input, &Threshold::whole(0));
    assert_eq!(out, lines(&[">@r1_dc", "AGTT", ">@r2_dc", "ACGT"]));
}

#[test]
fn positive_threshold_filters_without_tag() {
    let input = lines(&["@bad", "ATATAGGGCGAGACCCCCGAGAGA", "@good", "ACGTACGT"]);
    let out = process_lines(&input, &Threshold::whole(22));
    assert_eq!(out, lines(&[">@good", "ACGTACGT"]));
}

#[test]
fn sequence_before_any_header_is_ignored() {
    let input = lines(&["ACGT", "TTTT", "@r", "AC"]);
    let out = process_lines(&input, &Threshold::whole(0));
    assert_eq!(out, lines(&[">@r_dc", "AC"]));
}

#[test]
fn trailing_header_emits_nothing() {
    let input = lines(&["@r1", "ACAC", "@r2"]);
    let out = process_lines(&input, &Threshold::whole(0));
    assert_eq!(out, lines(&[">@r1_dc", "AC"]));
    assert!(process_lines(&lines(&["@only"]), &Threshold::whole(0)).is_empty());
}

#[test]
fn later_header_replaces_pending_one() {
    let input = lines(&["@a", "@b", "ACGT"]);
    let out = process_lines(&input, &Threshold::whole(0));
    assert_eq!(out, lines(&[">@b_dc", "ACGT"]));
}

#[test]
fn empty_stream_emits_nothing() {
    assert!(process_lines(&Vec::new(), &Threshold::whole(3)).is_empty());
}

#[test]
fn feed_line_step_by_step() {
    let mut stream = RecordStream::new(Threshold::whole(0));
    assert!(stream.feed_line("GGGG").is_empty());
    assert!(stream.feed_line("@x").is_empty());
    assert_eq!(stream.feed_line("TCTC"), lines(&[">@x_dc", "TC"]));
    assert!(stream.feed_line("TCTC").is_empty());
}
