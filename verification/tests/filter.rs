use uniq::config::Config;
use uniq::constant::{RepeatedOpt, RepeatedTypeOpt, SepKind};
use uniq::lines::{derive_key, split_clean_lines, trim_bytes};
use uniq::output::{produce_output, reset_buffer};
use uniq::table::FreqTable;

fn cfg(count: bool, repeated: bool, unique: bool, ignore_case: bool) -> Config {
    Config {
        count,
        repeated,
        all_repeated: RepeatedTypeOpt::Value(RepeatedOpt {
            condition: false,
            value: SepKind::SepNone,
        }),
        num: false,
        ignore_case,
        skip_chars: false,
        unique,
        input_file: None,
        output_file: None,
    }
}

fn run(c: Config, input: &[u8]) -> Vec<u8> {
    produce_output(c, &input.to_vec())
}

#[test]
fn default_dedups_input() {
    let out = run(cfg(false, false, false, false), b"a\nb\na\nc\nb\na\n");
    assert_eq!(out, b"a\nb\nc".to_vec());
}

#[test]
fn default_keeps_distinct_lines() {
    let out = run(cfg(false, false, false, false), b"x\ny\nz");
    assert_eq!(out, b"x\ny\nz".to_vec());
}

#[test]
fn count_output_example() {
    let out = run(cfg(true, false, false, false), b"a\nb\na\nc\nb\na\n");
    assert_eq!(out, b"3 a\n2 b\n1 c".to_vec());
}

#[test]
fn unique_output_example() {
    let out = run(cfg(false, false, true, false), b"a\nb\na\nc\nb\na\n");
    assert_eq!(out, b"c".to_vec());
}

#[test]
fn repeated_output_example() {
    let out = run(cfg(false, true, false, false), b"a\nb\na\nc\nb\na\n");
    assert_eq!(out, b"a\nb".to_vec());
}

#[test]
fn count_and_unique_matches_unique_only() {
    let both = run(cfg(true, false, true, false), b"a\nb\na\nc\nb\na\n");
    let unique_only = run(cfg(false, false, true, false), b"a\nb\na\nc\nb\na\n");
    assert_eq!(both, unique_only);
    assert_eq!(both, b"c".to_vec());
}

#[test]
fn all_three_stages_unique_wins() {
    let out = run(cfg(true, true, true, false), b"a\nb\na\n");
    assert_eq!(out, b"b".to_vec());
}

#[test]
fn default_mode_is_idempotent() {
    let first = run(cfg(false, false, false, false), b"a\nb\na\nc\nb\na\n");
    let second = produce_output(cfg(false, false, false, false), &first);
    assert_eq!(second, first);
}

#[test]
fn empty_input_empty_output() {
    let out = run(cfg(false, false, false, false), b"");
    assert_eq!(out.len(), 0);
}

#[test]
fn whitespace_only_input_empty_output() {
    let out = run(cfg(true, false, false, false), b"  \n\t\n   \n");
    assert_eq!(out.len(), 0);
}

#[test]
fn lines_are_trimmed_before_counting() {
    let out = run(cfg(true, false, false, false), b"  a  \n a\n");
    assert_eq!(out, b"2 a".to_vec());
}

#[test]
fn ignore_case_folds_keys() {
    let out = run(cfg(true, false, false, true), b"A\na\n");
    assert_eq!(out, b"2 a".to_vec());
}

#[test]
fn ignore_case_keeps_last_seen_raw() {
    let out = run(cfg(false, true, false, true), b"A\na\nB\n");
    assert_eq!(out, b"a".to_vec());
}

#[test]
fn ignore_case_alone_emits_nothing() {
    let out = run(cfg(false, false, false, true), b"a\nb\n");
    assert_eq!(out.len(), 0);
}

#[test]
fn multi_digit_counts() {
    let mut input: Vec<u8> = Vec::new();
    for _ in 0..12 {
        input.extend_from_slice(b"x\n");
    }
    input.extend_from_slice(b"y\n");
    let out = produce_output(cfg(true, false, false, false), &input);
    assert_eq!(out, b"12 x\n1 y".to_vec());
}

#[test]
fn repeated_and_unique_partition_lines() {
    let input = b"a\na\nb\n";
    let repeated = run(cfg(false, true, false, false), input);
    let unique = run(cfg(false, false, true, false), input);
    assert_eq!(repeated, b"a".to_vec());
    assert_eq!(unique, b"b".to_vec());
}

#[test]
fn table_counts_occurrences() {
    let lines = split_clean_lines(&b"a\nb\na\n".to_vec());
    let t = FreqTable::build_table(&lines, false);
    assert_eq!(t.entries.len(), 2);
    assert_eq!(t.entries[0].key, b"a".to_vec());
    assert_eq!(t.entries[0].count, 2);
    assert_eq!(t.entries[1].key, b"b".to_vec());
    assert_eq!(t.entries[1].count, 1);
}

#[test]
fn classifier_trims_and_drops_empty_pieces() {
    let lines = split_clean_lines(&b"  a \n\n\tb\n \n".to_vec());
    assert_eq!(lines.len(), 2);
    assert_eq!(lines[0], b"a".to_vec());
    assert_eq!(lines[1], b"b".to_vec());
}

#[test]
fn trim_bytes_removes_surrounding_whitespace() {
    assert_eq!(trim_bytes(&b"  hi\t".to_vec()), b"hi".to_vec());
    assert_eq!(trim_bytes(&b" \t ".to_vec()), b"".to_vec());
    assert_eq!(trim_bytes(&b"a b".to_vec()), b"a b".to_vec());
}

#[test]
fn derive_key_folds_ascii_case() {
    assert_eq!(derive_key(true, &b"AbC".to_vec()), b"abc".to_vec());
    assert_eq!(derive_key(false, &b"AbC".to_vec()), b"AbC".to_vec());
}

#[test]
fn reset_buffer_empties() {
    let mut buffer = b"stale".to_vec();
    reset_buffer(&mut buffer);
    assert_eq!(buffer.len(), 0);
    reset_buffer(&mut buffer);
    assert_eq!(buffer.len(), 0);
}
