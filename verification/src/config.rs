//! The voting patch's configuration file: a line of white-space separated
//! numbers, read again while the validator runs.

use vstd::prelude::*;
use crate::text::{is_white_space, no_white_space, lemma_words_cons, lemma_words_single, lemma_decimal, lemma_parse_decimal, parse_bounded, parse_u64_bounded, split_whitespace, string_views, words, to_string, push_str, push_decimal, decimal};

verus! {

/// The integer settings of the voting patch. (The mostly-confirmed threshold,
/// a fraction, is kept beside it by the caller.)
#[derive(Clone, Copy, Debug)]
pub struct VotingPatchConfig {
    pub threshold_ahead_count: u64,
    pub after_skip_threshold: u64,
    pub threshold_escape_count: u64,
}

/// Highest allowed `threshold_ahead_count`.
pub const THRESHOLD_AHEAD_MAX: u64 = 32;
/// Highest allowed `after_skip_threshold`.
pub const AFTER_SKIP_MAX: u64 = 2;
/// Highest allowed `threshold_escape_count`.
pub const THRESHOLD_ESCAPE_MAX: u64 = 128;

/// The settings the patch starts with.
pub open spec fn default_config() -> VotingPatchConfig {
    VotingPatchConfig { threshold_ahead_count: 4, after_skip_threshold: 0, threshold_escape_count: 24 }
}

impl VotingPatchConfig {
    /// Every setting lies in its allowed range.
    pub open spec fn wf(self) -> bool {
        &&& self.threshold_ahead_count <= THRESHOLD_AHEAD_MAX
        &&& self.after_skip_threshold <= AFTER_SKIP_MAX
        &&& self.threshold_escape_count <= THRESHOLD_ESCAPE_MAX
    }
}

impl Default for VotingPatchConfig {
    fn default() -> (r: VotingPatchConfig)
        ensures
            r == default_config(),
    {
        VotingPatchConfig { threshold_ahead_count: 4, after_skip_threshold: 0, threshold_escape_count: 24 }
    }
}

/// What became of one setting when the file was read.
#[derive(Clone, Copy, Debug, PartialEq, Eq, Structural)]
pub enum FieldUpdate {
    /// The file holds a new value in range, which was taken.
    Changed,
    /// The file holds the current value.
    Unchanged,
    /// The file holds a new value out of range, which was refused.
    OutOfRange,
    /// The file's word for the setting is no number.
    Unparsable,
    /// The file has no word for the setting.
    Missing,
}

/// A setting after reading the word `token` for it: a new value in
/// `[0, max]` is taken, anything else leaves the setting as it was.
pub open spec fn field_step(current: u64, token: Option<Seq<char>>, max: u64) -> (u64, FieldUpdate) {
    match token {
        None => (current, FieldUpdate::Missing),
        Some(t) => match parse_bounded(t, u64::MAX as nat) {
            None => (current, FieldUpdate::Unparsable),
            Some(v) => if v == current {
                (current, FieldUpdate::Unchanged)
            } else if v > max {
                (current, FieldUpdate::OutOfRange)
            } else {
                (v as u64, FieldUpdate::Changed)
            },
        },
    }
}

/// The `i`-th word of the file, if there is one.
pub open spec fn word_at(ws: Seq<Seq<char>>, i: int) -> Option<Seq<char>> {
    if 0 <= i < ws.len() {
        Some(ws[i])
    } else {
        None
    }
}

/// The settings after reading the configuration text `text`: its first word
/// is the mostly-confirmed threshold (read by the caller), the next three
/// are the integer settings in order.
pub open spec fn config_after(c: VotingPatchConfig, text: Seq<char>) -> VotingPatchConfig {
    let ws = words(text);
    VotingPatchConfig {
        threshold_ahead_count: field_step(c.threshold_ahead_count, word_at(ws, 1), THRESHOLD_AHEAD_MAX).0,
        after_skip_threshold: field_step(c.after_skip_threshold, word_at(ws, 2), AFTER_SKIP_MAX).0,
        threshold_escape_count: field_step(c.threshold_escape_count, word_at(ws, 3), THRESHOLD_ESCAPE_MAX).0,
    }
}

/// The report of reading a configuration text.
#[derive(Clone, Debug)]
pub struct ConfigUpdate {
    /// The first word, which holds the mostly-confirmed threshold.
    pub threshold_token: Option<String>,
    pub threshold_ahead_count: FieldUpdate,
    pub after_skip_threshold: FieldUpdate,
    pub threshold_escape_count: FieldUpdate,
}

fn step_field(current: u64, words_found: &Vec<String>, i: usize, max: u64) -> (r: (u64, FieldUpdate))
    ensures
        r == field_step(current, word_at(string_views(words_found@), i as int), max),
{
    if i >= words_found.len() {
        return (current, FieldUpdate::Missing);
    }
    assert(string_views(words_found@)[i as int] == words_found@[i as int]@);
    match parse_u64_bounded(words_found[i].as_str(), u64::MAX) {
        None => (current, FieldUpdate::Unparsable),
        Some(v) => if v == current {
            (current, FieldUpdate::Unchanged)
        } else if v > max {
            (current, FieldUpdate::OutOfRange)
        } else {
            (v, FieldUpdate::Changed)
        },
    }
}

impl VotingPatchConfig {
    /// Reads the configuration text: each integer setting takes the word
    /// for it where that is a new value in range; the report says what
    /// became of each, and hands back the threshold's word.
    pub fn update(&mut self, text: &str) -> (r: ConfigUpdate)
        ensures
            *final(self) == config_after(*old(self), text@),
            old(self).wf() ==> final(self).wf(),
            r.threshold_ahead_count == field_step(old(self).threshold_ahead_count, word_at(words(text@), 1), THRESHOLD_AHEAD_MAX).1,
            r.after_skip_threshold == field_step(old(self).after_skip_threshold, word_at(words(text@), 2), AFTER_SKIP_MAX).1,
            r.threshold_escape_count == field_step(old(self).threshold_escape_count, word_at(words(text@), 3), THRESHOLD_ESCAPE_MAX).1,
            match r.threshold_token {
                Some(t) => word_at(words(text@), 0) == Some(t@),
                None => word_at(words(text@), 0) is None,
            },
    {
        let ws = split_whitespace(text);
        let threshold_token = if ws.len() > 0 {
            assert(string_views(ws@)[0] == ws@[0]@);
            Some(to_string(ws[0].as_str()))
        } else {
            None
        };
        let (a, ra) = step_field(self.threshold_ahead_count, &ws, 1, THRESHOLD_AHEAD_MAX);
        let (b, rb) = step_field(self.after_skip_threshold, &ws, 2, AFTER_SKIP_MAX);
        let (c, rc) = step_field(self.threshold_escape_count, &ws, 3, THRESHOLD_ESCAPE_MAX);
        self.threshold_ahead_count = a;
        self.after_skip_threshold = b;
        self.threshold_escape_count = c;
        ConfigUpdate {
            threshold_token,
            threshold_ahead_count: ra,
            after_skip_threshold: rb,
            threshold_escape_count: rc,
        }
    }

    /// The text the configuration is saved as, behind the threshold's
    /// rendering: the four values separated by single spaces.
    pub fn to_text(&self, threshold_text: &str) -> (r: String)
        ensures
            r@ == saved_text(threshold_text@, *self),
    {
        let mut r = to_string(threshold_text);
        push_str(&mut r, " ");
        push_decimal(&mut r, self.threshold_ahead_count);
        push_str(&mut r, " ");
        push_decimal(&mut r, self.after_skip_threshold);
        push_str(&mut r, " ");
        push_decimal(&mut r, self.threshold_escape_count);
        proof {
            reveal_strlit(" ");
        }
        assert(r@ =~= saved_text(threshold_text@, *self));
        r
    }
}

/// The saved form of a configuration: the threshold's rendering and the
/// three settings in decimal, separated by single spaces.
pub open spec fn saved_text(threshold: Seq<char>, c: VotingPatchConfig) -> Seq<char> {
    threshold + seq![' '] + decimal(c.threshold_ahead_count as nat) + seq![' '] + decimal(
        c.after_skip_threshold as nat,
    ) + seq![' '] + decimal(c.threshold_escape_count as nat)
}

/// Reading back what `to_text` wrote restores the settings: whatever the
/// settings were before, reading the saved form of settings that lie in
/// their ranges, behind a one-word threshold, yields those settings.
pub proof fn saved_config_reads_back(before: VotingPatchConfig, c: VotingPatchConfig, threshold: Seq<char>)
    requires
        c.wf(),
        threshold.len() > 0,
        no_white_space(threshold),
    ensures
        config_after(before, saved_text(threshold, c)) == c,
{
    let da = decimal(c.threshold_ahead_count as nat);
    let db = decimal(c.after_skip_threshold as nat);
    let dc = decimal(c.threshold_escape_count as nat);
    lemma_decimal(c.threshold_ahead_count as nat);
    lemma_decimal(c.after_skip_threshold as nat);
    lemma_decimal(c.threshold_escape_count as nat);
    lemma_words_single(dc);
    lemma_words_cons(db, dc);
    lemma_words_cons(da, db + seq![' '] + dc);
    lemma_words_cons(threshold, da + seq![' '] + db + seq![' '] + dc);
    assert(saved_text(threshold, c) =~= threshold + seq![' '] + (da + seq![' '] + db + seq![' '] + dc));
    assert(da + seq![' '] + db + seq![' '] + dc =~= da + seq![' '] + (db + seq![' '] + dc));
    let ws = words(saved_text(threshold, c));
    assert(ws =~= seq![threshold, da, db, dc]);
    lemma_parse_decimal(c.threshold_ahead_count as nat, u64::MAX as nat);
    lemma_parse_decimal(c.after_skip_threshold as nat, u64::MAX as nat);
    lemma_parse_decimal(c.threshold_escape_count as nat, u64::MAX as nat);
}


/// One setting read from its word: it changes only to the number its word
/// reads as, and only where that number is new and in `[0, max]`; the
/// report names what happened, and every outcome but `Changed` leaves the
/// setting as it was.
pub proof fn setting_changes_only_to_its_word(current: u64, token: Option<Seq<char>>, max: u64)
    ensures
        field_step(current, token, max).0 == current || (token matches Some(t)
            && parse_bounded(t, u64::MAX as nat) == Some(field_step(current, token, max).0 as nat)
            && field_step(current, token, max).0 <= max),
        field_step(current, token, max).1 == FieldUpdate::Changed <==> field_step(current, token, max).0 != current,
        field_step(current, token, max).1 == FieldUpdate::Missing <==> token is None,
        field_step(current, token, max).1 == FieldUpdate::Unparsable <==> (token matches Some(t)
            && parse_bounded(t, u64::MAX as nat) is None),
        field_step(current, token, max).1 == FieldUpdate::Unchanged <==> (token matches Some(t)
            && parse_bounded(t, u64::MAX as nat) == Some(current as nat)),
        field_step(current, token, max).1 == FieldUpdate::OutOfRange <==> (token matches Some(t)
            && parse_bounded(t, u64::MAX as nat) matches Some(v) && v != current && v > max),
{
}

/// Reading a configuration text changes a setting only to the number its
/// word (the second, third and fourth word of the text) reads as, and only
/// to a value in the setting's range; a missing, unparsable or out-of-range
/// word leaves the setting as it was.
pub proof fn config_changes_only_to_in_range_words(c: VotingPatchConfig, text: Seq<char>)
    ensures
        config_after(c, text).threshold_ahead_count == c.threshold_ahead_count || (word_at(words(text), 1) matches Some(t)
            && parse_bounded(t, u64::MAX as nat) == Some(config_after(c, text).threshold_ahead_count as nat)
            && config_after(c, text).threshold_ahead_count <= THRESHOLD_AHEAD_MAX),
        config_after(c, text).after_skip_threshold == c.after_skip_threshold || (word_at(words(text), 2) matches Some(t)
            && parse_bounded(t, u64::MAX as nat) == Some(config_after(c, text).after_skip_threshold as nat)
            && config_after(c, text).after_skip_threshold <= AFTER_SKIP_MAX),
        config_after(c, text).threshold_escape_count == c.threshold_escape_count || (word_at(words(text), 3) matches Some(t)
            && parse_bounded(t, u64::MAX as nat) == Some(config_after(c, text).threshold_escape_count as nat)
            && config_after(c, text).threshold_escape_count <= THRESHOLD_ESCAPE_MAX),
        c.wf() ==> config_after(c, text).wf(),
{
    let ws = words(text);
    setting_changes_only_to_its_word(c.threshold_ahead_count, word_at(ws, 1), THRESHOLD_AHEAD_MAX);
    setting_changes_only_to_its_word(c.after_skip_threshold, word_at(ws, 2), AFTER_SKIP_MAX);
    setting_changes_only_to_its_word(c.threshold_escape_count, word_at(ws, 3), THRESHOLD_ESCAPE_MAX);
}

} // verus!
