use onebrc::hashing::hash;
use onebrc::merge::Aggregate;
use onebrc::merge::lex_less;
use onebrc::parse::parse_temperature;
use onebrc::parse::parse_temperature_simple;
use onebrc::parse::parse_temperature_swar;
use onebrc::partition::chunk_ranges;
use onebrc::present::mean_tenths;
use onebrc::present::render;
use onebrc::present::summarize;
use onebrc::table::aggregate_chunk;
use onebrc::ScanError;

fn run(input: &[u8], workers: usize) -> String {
    String::from_utf8(summarize(input, workers).unwrap()).unwrap()
}

#[test]
fn scenario_a() {
    let out = run(b"Alpha;10.0\nBeta;-5.5\nAlpha;20.0\n", 1);
    assert_eq!(out, "{Alpha=10.0/15.0/20.0, Beta=-5.5/-5.5/-5.5}");
}

#[test]
fn scenario_b_single_digit() {
    assert_eq!(run(b"X;3.2\n", 1), "{X=3.2/3.2/3.2}");
}

#[test]
fn scenario_c_negative_two_digits() {
    assert_eq!(run(b"Y;-12.7\n", 1), "{Y=-12.7/-12.7/-12.7}");
}

#[test]
fn final_line_without_terminator() {
    assert_eq!(run(b"X;3.2", 1), "{X=3.2/3.2/3.2}");
}

#[test]
fn order_independence_one_vs_eight_workers() {
    let input: &[u8] =
        b"Lima;10.0\nOslo;-3.5\nLima;12.2\nQuito;0.0\nOslo;4.4\nLima;-9.9\nQuito;7.7\nNuuk;-20.1\n";
    assert_eq!(run(input, 1), run(input, 8));
}

#[test]
fn collision_same_eight_byte_prefix() {
    // the digest reads only the first eight name bytes, so these collide
    let h1 = hash(b"Abcdefgh-North;1.0", 14);
    let h2 = hash(b"Abcdefgh-South;1.0", 14);
    assert_eq!(h1, h2);
    // yet they aggregate independently, on full-name equality
    let out = run(b"Abcdefgh-North;1.0\nAbcdefgh-South;3.0\nAbcdefgh-North;2.0\n", 1);
    assert_eq!(
        out,
        "{Abcdefgh-North=1.0/1.5/2.0, Abcdefgh-South=3.0/3.0/3.0}"
    );
}

#[test]
fn rounding_half_away_from_zero() {
    // 2.5 tenths quotient: 25 / 2 rounds up in magnitude
    assert_eq!(mean_tenths(25, 2), 13);
    assert_eq!(mean_tenths(-25, 2), -13);
    // through the pipeline: 1.2 and 1.3 average to 1.25, printed 1.3
    assert_eq!(run(b"A;1.2\nA;1.3\n", 1), "{A=1.2/1.3/1.3}");
    assert_eq!(run(b"A;-1.2\nA;-1.3\n", 1), "{A=-1.3/-1.3/-1.2}");
}

#[test]
fn output_sorted_by_name() {
    let out = run(b"Zeta;1.0\nAlpha;2.0\nMid;3.0\n", 1);
    assert_eq!(out, "{Alpha=2.0/2.0/2.0, Mid=3.0/3.0/3.0, Zeta=1.0/1.0/1.0}");
}

#[test]
fn empty_input() {
    assert_eq!(run(b"", 1), "{}");
}

#[test]
fn parse_word_path() {
    // at least eight bytes remain: the word-level decoder runs
    assert_eq!(parse_temperature_swar(b"12.3\nabc"), (123, 5));
    assert_eq!(parse_temperature_swar(b"-12.3\nab"), (-123, 6));
    assert_eq!(parse_temperature_swar(b"1.5\nabcd"), (15, 4));
    assert_eq!(parse_temperature_swar(b"-1.5\nabc"), (-15, 5));
}

#[test]
fn parse_scalar_path() {
    // near the end of the buffer: the byte-by-byte decoder runs
    assert_eq!(parse_temperature_simple(b"3.2"), (32, 4));
    assert_eq!(parse_temperature_simple(b"-3.2"), (-32, 5));
    assert_eq!(parse_temperature_simple(b"45.6\n"), (456, 5));
    assert_eq!(parse_temperature_simple(b"-45.6\n"), (-456, 6));
}

#[test]
fn parse_dispatch_agrees() {
    assert_eq!(parse_temperature(b"99.9\nXYZ"), (999, 5));
    assert_eq!(parse_temperature(b"0.0"), (0, 4));
}

#[test]
fn chunk_alignment_and_coverage() {
    let data: &[u8] = b"aa;1.0\nbb;2.0\ncc;3.0\ndd;4.0\nee;5.0\n";
    let ranges = chunk_ranges(data, 4).unwrap();
    // coverage: the ranges tile [0, len) with no gap or overlap
    assert_eq!(ranges.first().unwrap().0, 0);
    assert_eq!(ranges.last().unwrap().1, data.len());
    for w in ranges.windows(2) {
        assert_eq!(w[0].1, w[1].0);
    }
    // alignment: every split offset other than 0 follows a terminator
    for &(start, end) in &ranges {
        assert!(start < end);
        if start > 0 {
            assert_eq!(data[start - 1], b'\n');
        }
    }
}

#[test]
fn partition_missing_terminator() {
    let err = chunk_ranges(b"no terminator at all", 3).unwrap_err();
    assert_eq!(err, ScanError::MissingTerminator);
}

#[test]
fn scan_missing_separator() {
    let err = summarize(b"NoSeparatorHere\n", 1).unwrap_err();
    assert_eq!(err, ScanError::MissingSeparator);
}

#[test]
fn scan_bad_value() {
    let err = summarize(b"A;x.y\n", 1).unwrap_err();
    assert_eq!(err, ScanError::BadValue);
    let err2 = summarize(b"A;1.23;B\n", 1).unwrap_err();
    assert_eq!(err2, ScanError::BadValue);
}

#[test]
fn merge_matches_single_table() {
    // folding two chunk tables equals aggregating the whole input
    let whole: &[u8] = b"aa;1.0\nbb;2.0\naa;3.0\n";
    let first: &[u8] = b"aa;1.0\n";
    let second: &[u8] = b"bb;2.0\naa;3.0\n";
    let mut split_agg = Aggregate::new();
    split_agg.fold_table(&aggregate_chunk(first).unwrap());
    let mut other = Aggregate::new();
    other.fold_table(&aggregate_chunk(second).unwrap());
    split_agg.merge_from(&other);
    let mut whole_agg = Aggregate::new();
    whole_agg.fold_table(&aggregate_chunk(whole).unwrap());
    assert_eq!(render(&split_agg), render(&whole_agg));
    assert_eq!(
        String::from_utf8(render(&whole_agg)).unwrap(),
        "{aa=1.0/2.0/3.0, bb=2.0/2.0/2.0}"
    );
}

#[test]
fn lexicographic_order_on_bytes() {
    assert!(lex_less(b"Alpha", b"Beta"));
    assert!(lex_less(b"Alp", b"Alpha"));
    assert!(!lex_less(b"Alpha", b"Alpha"));
    assert!(!lex_less(b"b", b"Az"));
}

#[test]
fn hash_prefix_only() {
    // names differing only after the eighth byte share a digest
    assert_eq!(hash(b"ABCDEFGHx;1.0", 9), hash(b"ABCDEFGHy;1.0", 9));
    // a shorter name is zero-padded, not confused with a longer one
    assert_ne!(hash(b"AB;1.0", 2), hash(b"ABC;1.0", 3));
}

#[test]
fn mean_invariant_on_varied_input() {
    // min <= mean <= max for every entry of a mixed run
    let out = run(b"m;1.1\nm;9.9\nm;5.0\nn;-9.9\nn;-1.1\n", 2);
    assert_eq!(out, "{m=1.1/5.3/9.9, n=-9.9/-5.5/-1.1}");
}
