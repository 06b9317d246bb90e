use chunk_replace::apply::{apply, apply_draws, count_occurrences};
use chunk_replace::config::{build_rep_conf, ReplaceConfig};
use chunk_replace::selector::{ConfigError, WeightedSelector};
use chunk_replace::stream::{Chunker, StreamError};
use chunk_replace::apply::scan_stop_of;
use chunk_replace::text::matches_at;

fn chars(s: &str) -> Vec<char> {
    s.chars().collect()
}

fn rules(list: &[(&str, u8)]) -> Vec<(String, u8)> {
    list.iter().map(|(s, w)| (s.to_string(), *w)).collect()
}

fn config(pat: &str, list: &[(&str, u8)]) -> ReplaceConfig {
    build_rep_conf(Some(pat.to_string()), Some(rules(list))).unwrap()
}

/// Feeds the reads in order and returns the pushed segments and the final log.
fn run(cfg: ReplaceConfig, reads: &[&[u8]]) -> (Vec<String>, Vec<(String, u64)>) {
    let mut c = match Chunker::new(cfg, 16 * 1024) {
        Ok(c) => c,
        Err(_) => panic!("pattern does not fit"),
    };
    let mut out = Vec::new();
    for r in reads {
        if let Some(seg) = c.on_read(&r.to_vec()).unwrap() {
            out.push(seg);
        }
    }
    let (last, log) = c.finish();
    if let Some(seg) = last {
        out.push(seg);
    }
    let entries = log.texts.iter().cloned().zip(log.counts.iter().cloned()).collect();
    (out, entries)
}

#[test]
fn scenario_a_single_chunk() {
    let (segs, log) = run(config("X", &[("A", 100)]), &[b"aXbXc"]);
    assert_eq!(segs.concat(), "aAbAc");
    assert_eq!(log, vec![("A".to_string(), 2)]);
}

#[test]
fn scenario_b_pattern_split_across_reads() {
    let (segs, log) = run(config("XY", &[("Z", 100)]), &[b"abX", b"Ycd"]);
    assert_eq!(segs.concat(), "abZcd");
    assert_eq!(log, vec![("Z".to_string(), 1)]);
}

#[test]
fn scenario_c_empty_source() {
    let (segs, log) = run(config("X", &[("A", 60), ("B", 40)]), &[]);
    assert!(segs.is_empty());
    assert_eq!(log, vec![("A".to_string(), 0), ("B".to_string(), 0)]);
}

#[test]
fn scenario_d_weights_not_normalized() {
    let r = build_rep_conf(Some("X".to_string()), Some(rules(&[("A", 50), ("B", 49)])));
    assert!(matches!(r, Err(ConfigError::WeightsNotNormalized)));
}

#[test]
fn zero_weight_rejected() {
    let r = build_rep_conf(Some("X".to_string()), Some(rules(&[("A", 100), ("B", 0)])));
    assert!(matches!(r, Err(ConfigError::WeightsNotNormalized)));
}

#[test]
fn weights_over_hundred_rejected() {
    let r = build_rep_conf(Some("X".to_string()), Some(rules(&[("A", 90), ("B", 90), ("C", 90)])));
    assert!(matches!(r, Err(ConfigError::WeightsNotNormalized)));
}

#[test]
fn empty_rule_list_rejected() {
    let r = build_rep_conf(Some("X".to_string()), Some(Vec::new()));
    assert!(matches!(r, Err(ConfigError::WeightsNotNormalized)));
}

#[test]
fn missing_pattern_rejected() {
    let r = build_rep_conf(None, Some(rules(&[("A", 100)])));
    assert!(matches!(r, Err(ConfigError::MissingPattern)));
}

#[test]
fn empty_pattern_rejected() {
    let r = build_rep_conf(Some(String::new()), Some(rules(&[("A", 100)])));
    assert!(matches!(r, Err(ConfigError::EmptyPattern)));
}

#[test]
fn pattern_longer_than_buffer_rejected() {
    let r = Chunker::new(config("abcdef", &[("A", 100)]), 4);
    assert!(matches!(r, Err(ConfigError::PatternTooLong)));
}

#[test]
fn config_keeps_pattern_and_rules() {
    let c = config("héllo", &[("A", 25), ("B", 75)]);
    assert_eq!(c.pattern, chars("héllo"));
    let s = c.selector.unwrap();
    assert_eq!(s.ranges[0].text, chars("A"));
    assert_eq!((s.ranges[0].low, s.ranges[0].high), (1, 25));
    assert_eq!((s.ranges[1].low, s.ranges[1].high), (26, 100));
    assert_eq!(c.log.counts, vec![0, 0]);
}

#[test]
fn no_rules_pass_text_through() {
    let cfg = build_rep_conf(Some("X".to_string()), None).unwrap();
    assert!(cfg.selector.is_none());
    let (segs, log) = run(cfg, &[b"aXb", b"Xc"]);
    assert_eq!(segs.concat(), "aXbXc");
    assert!(log.is_empty());
}

#[test]
fn selector_ranges_partition() {
    let s = match WeightedSelector::new(&rules(&[("A", 30), ("B", 70)])) {
        Ok(s) => s,
        Err(_) => panic!("weights add up to 100"),
    };
    assert_eq!(s.select(1), 0);
    assert_eq!(s.select(30), 0);
    assert_eq!(s.select(31), 1);
    assert_eq!(s.select(100), 1);
    for d in 1..=100u8 {
        let i = s.select(d);
        assert!(s.ranges[i].low <= d && d <= s.ranges[i].high);
    }
}

#[test]
fn apply_draws_picks_by_range() {
    let cfg = config("X", &[("A", 50), ("BB", 50)]);
    let sel = cfg.selector.clone().unwrap();
    let mut log = cfg.log.clone();
    let out = apply_draws(&chars("aXbXcX"), &cfg.pattern, &sel, &vec![10, 90, 50], &mut log);
    assert_eq!(out, chars("aAbBBcA"));
    assert_eq!(log.counts, vec![2, 1]);
    assert_eq!(log.total, 3);
}

#[test]
fn apply_counts_every_occurrence() {
    let cfg = config("ab", &[("x", 40), ("y", 60)]);
    let sel = cfg.selector.clone().unwrap();
    let mut log = cfg.log.clone();
    let out = apply(&chars("abcabab"), &cfg.pattern, &sel, &mut log);
    assert_eq!(log.total, 3);
    assert_eq!(log.counts[0] + log.counts[1], 3);
    assert_eq!(out.len(), 4);
    assert_eq!(out[1], 'c');
}

#[test]
fn apply_without_occurrence_is_identity() {
    let cfg = config("X", &[("A", 100)]);
    let sel = cfg.selector.clone().unwrap();
    let mut log = cfg.log.clone();
    let out = apply(&chars("abc"), &cfg.pattern, &sel, &mut log);
    assert_eq!(out, chars("abc"));
    assert_eq!(log.counts, vec![0]);
    assert_eq!(log.total, 0);
}

#[test]
fn scan_does_not_overlap_matches() {
    assert_eq!(count_occurrences(&chars("XXX"), &chars("XX")), 1);
    assert_eq!(count_occurrences(&chars("XXXX"), &chars("XX")), 2);
    assert_eq!(count_occurrences(&chars("abc"), &chars("X")), 0);
}

#[test]
fn scan_stops_before_short_tail() {
    assert_eq!(scan_stop_of(&chars("XYZend"), &chars("XYZ")), 4);
    assert_eq!(scan_stop_of(&chars("aaa"), &chars("aa")), 2);
    assert_eq!(scan_stop_of(&chars("aXbXc"), &chars("X")), 5);
    assert_eq!(scan_stop_of(&chars("a"), &chars("XYZ")), 0);
}

#[test]
fn matches_at_checks_offset() {
    assert!(matches_at(&chars("abXY"), &chars("XY"), 2));
    assert!(!matches_at(&chars("abXY"), &chars("XY"), 3));
}

#[test]
fn read_carries_tail_that_may_start_pattern() {
    let mut c = match Chunker::new(config("XYZ", &[("Q", 100)]), 64) {
        Ok(c) => c,
        Err(_) => panic!("pattern fits"),
    };
    assert_eq!(c.read_size(), 64);
    let seg = c.on_read(&b"abcdXY".to_vec()).unwrap();
    assert_eq!(seg, Some("abcd".to_string()));
    assert_eq!(c.carry, chars("XY"));
    assert_eq!(c.read_size(), 62);
    let seg = c.on_read(&b"Zend".to_vec()).unwrap();
    assert_eq!(seg, Some("Qe".to_string()));
    assert_eq!(c.carry, chars("nd"));
    let (last, log) = c.finish();
    assert_eq!(last, Some("nd".to_string()));
    assert_eq!(log.counts, vec![1]);
}

#[test]
fn short_read_is_held_back() {
    let mut c = match Chunker::new(config("XYZ", &[("Q", 100)]), 64) {
        Ok(c) => c,
        Err(_) => panic!("pattern fits"),
    };
    assert_eq!(c.on_read(&b"a".to_vec()).unwrap(), None);
    assert_eq!(c.carry, chars("a"));
}

#[test]
fn invalid_utf8_is_decode_error() {
    let mut c = match Chunker::new(config("X", &[("A", 100)]), 64) {
        Ok(c) => c,
        Err(_) => panic!("pattern fits"),
    };
    let r = c.on_read(&vec![b'a', 0xff, b'b']);
    assert_eq!(r, Err(StreamError::DecodeError));
    assert!(c.carry.is_empty());
}

#[test]
fn multibyte_text_is_decoded() {
    let (segs, log) = run(config("é", &[("e", 100)]), &["caféé!".as_bytes()]);
    assert_eq!(segs.concat(), "cafee!");
    assert_eq!(log, vec![("e".to_string(), 2)]);
}

#[test]
fn many_small_reads_replace_everything() {
    let text = "--XY--XYXY--X--Y-XY";
    let bytes = text.as_bytes();
    let reads: Vec<&[u8]> = bytes.chunks(2).collect();
    let (segs, log) = run(config("XY", &[("<>", 100)]), &reads);
    assert_eq!(segs.concat(), "--<>--<><>--X--Y-<>");
    assert_eq!(log, vec![("<>".to_string(), 4)]);
}

#[test]
fn log_sums_rules_sharing_a_text() {
    let cfg = config("X", &[("A", 50), ("B", 25), ("A", 25)]);
    let sel = cfg.selector.clone().unwrap();
    let mut log = cfg.log.clone();
    let out = apply_draws(&chars("XXXX"), &cfg.pattern, &sel, &vec![1, 60, 90, 100], &mut log);
    assert_eq!(out, chars("ABAA"));
    assert_eq!(log.counts, vec![1, 1, 2]);
    assert_eq!(log.count_for(&"A".to_string()), 3);
    assert_eq!(log.count_for(&"B".to_string()), 1);
    assert_eq!(log.count_for(&"C".to_string()), 0);
}

#[test]
fn self_overlapping_pattern_split_across_reads() {
    let (segs, log) = run(config("aa", &[("R", 100)]), &[b"aaa", b"a"]);
    assert_eq!(segs.concat(), "RR");
    assert_eq!(log, vec![("R".to_string(), 2)]);
}
