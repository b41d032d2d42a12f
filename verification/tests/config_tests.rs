use allnodes::config::{FieldUpdate, VotingPatchConfig};

#[test]
fn reads_all_settings() {
    let mut c = VotingPatchConfig::default();
    let r = c.update("0.45 8 1 30\n");
    assert_eq!(r.threshold_token.as_deref(), Some("0.45"));
    assert_eq!(r.threshold_ahead_count, FieldUpdate::Changed);
    assert_eq!(r.after_skip_threshold, FieldUpdate::Changed);
    assert_eq!(r.threshold_escape_count, FieldUpdate::Changed);
    assert_eq!((c.threshold_ahead_count, c.after_skip_threshold, c.threshold_escape_count), (8, 1, 30));
}

#[test]
fn refuses_out_of_range_and_garbage() {
    let mut c = VotingPatchConfig::default();
    let r = c.update("  0.5\t40 x");
    assert_eq!(r.threshold_token.as_deref(), Some("0.5"));
    assert_eq!(r.threshold_ahead_count, FieldUpdate::OutOfRange);
    assert_eq!(r.after_skip_threshold, FieldUpdate::Unparsable);
    assert_eq!(r.threshold_escape_count, FieldUpdate::Missing);
    assert_eq!((c.threshold_ahead_count, c.after_skip_threshold, c.threshold_escape_count), (4, 0, 24));
}

#[test]
fn unchanged_and_empty() {
    let mut c = VotingPatchConfig::default();
    let r = c.update("0.45 4 0 24");
    assert_eq!(r.threshold_ahead_count, FieldUpdate::Unchanged);
    let r = c.update("");
    assert_eq!(r.threshold_token, None);
    assert_eq!(r.threshold_escape_count, FieldUpdate::Missing);
    let r = c.update("1 +32 2 128");
    assert_eq!(r.threshold_ahead_count, FieldUpdate::Changed);
    assert_eq!((c.threshold_ahead_count, c.after_skip_threshold, c.threshold_escape_count), (32, 2, 128));
    let r = c.update("1 33 3 129");
    assert_eq!(r.threshold_ahead_count, FieldUpdate::OutOfRange);
    assert_eq!(r.after_skip_threshold, FieldUpdate::OutOfRange);
    assert_eq!(r.threshold_escape_count, FieldUpdate::OutOfRange);
}

#[test]
fn saved_text_reads_back() {
    let c = VotingPatchConfig { threshold_ahead_count: 17, after_skip_threshold: 2, threshold_escape_count: 100 };
    let text = c.to_text("0.45");
    assert_eq!(text, "0.45 17 2 100");
    let mut d = VotingPatchConfig::default();
    let r = d.update(&text);
    assert_eq!(r.threshold_token.as_deref(), Some("0.45"));
    assert_eq!((d.threshold_ahead_count, d.after_skip_threshold, d.threshold_escape_count), (17, 2, 100));
    assert_eq!(VotingPatchConfig::default().to_text("0.45"), "0.45 4 0 24");
}
