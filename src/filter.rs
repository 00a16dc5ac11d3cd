//! Line filters for commit messages: drop the body lines that match any of a
//! set of regular expressions, drop blank lines and consecutive repeats, and
//! count what was done.
use vstd::prelude::*;
use crate::error::CortexError;
use crate::segment::sat_add;
use crate::text::{
    append_chars, chars_equal, chars_of, join_with, lines, lines_of, lower_of, lowercase,
    string_of, trim, trim_chars, utf8_len, utf8_len_saturating,
};

verus! {

#[verifier::external_type_specification]
#[verifier::external_body]
pub struct ExRegex(regex::Regex);

/// Whether `regex::RegexBuilder` accepts `pattern` with the given case setting.
pub uninterp spec fn regex_accepts(pattern: Seq<char>, case_insensitive: bool) -> bool;

/// Whether the expression `pattern`, with the given case setting, matches
/// somewhere in `text`.
pub uninterp spec fn regex_matches(pattern: Seq<char>, case_insensitive: bool, text: Seq<char>) -> bool;

/// One compiled drop pattern. Built only by `compile`, so the expression
/// always is the one compiled from `pattern` and `case_insensitive`.
pub struct LineFilter {
    rx: regex::Regex,
    pattern: String,
    case_insensitive: bool,
}

impl LineFilter {
    /// The pattern and its case setting.
    pub closed spec fn spec_pattern(&self) -> (Seq<char>, bool) {
        (self.pattern@, self.case_insensitive)
    }

    /// Relies on `regex::RegexBuilder::new`, `case_insensitive` and `build`:
    /// the expression compiled from `pattern`, or the builder's error.
    #[verifier::external_body]
    fn compile(pattern: &String, case_insensitive: bool) -> (r: Option<LineFilter>)
        ensures
            r is Some <==> regex_accepts(pattern@, case_insensitive),
            r matches Some(f) ==> f.spec_pattern() == (pattern@, case_insensitive),
    {
        match regex::RegexBuilder::new(pattern).case_insensitive(case_insensitive).build() {
            Ok(rx) => Some(LineFilter { rx, pattern: pattern.clone(), case_insensitive }),
            Err(_) => None,
        }
    }

    /// Relies on `regex::Regex::is_match`: whether the expression matches
    /// somewhere in `text`.
    #[verifier::external_body]
    fn is_match(&self, text: &str) -> (r: bool)
        ensures
            r == regex_matches(self.spec_pattern().0, self.spec_pattern().1, text@),
    {
        self.rx.is_match(text)
    }
}

/// Patterns of the `git-noise` preset: trailers and merge-request notes.
pub open spec fn noise_patterns() -> Seq<Seq<char>> {
    seq![
        "^Co-authored-by:"@,
        "^Signed-off-by:"@,
        "^Reviewed-by:"@,
        "^Change-Id:"@,
        "^See merge request"@,
    ]
}

/// The drop patterns of a filter configuration.
pub struct GitFilterConfig {
    pub drop_patterns: Vec<LineFilter>,
}

impl GitFilterConfig {
    /// The patterns, with their case settings.
    pub open spec fn patterns(&self) -> Seq<(Seq<char>, bool)> {
        self.drop_patterns@.map_values(|f: LineFilter| f.spec_pattern())
    }

    /// Whether any pattern is set.
    pub fn enabled(&self) -> (r: bool)
        ensures
            r == (self.drop_patterns.len() > 0),
    {
        self.drop_patterns.len() > 0
    }

    /// The configuration of a preset name, if one is given, followed by the
    /// extra patterns, all with the same case setting. An unknown preset, or a
    /// pattern that does not compile, is an `InvalidConfig` error naming it.
    pub fn from_settings(preset: Option<&str>, extra: &Vec<String>, case_insensitive: bool) -> (r: Result<GitFilterConfig, CortexError>)
        ensures
            preset matches Some(p) ==> (lower_of(p@) != "git-noise"@ ==> (r matches Err(CortexError::InvalidConfig(t)) && t@ == p@)),
            r is Ok <==> ((preset matches Some(p) ==> lower_of(p@) == "git-noise"@) && all_accepted(all_patterns(preset is Some, strings_view(extra@)), case_insensitive)),
            r matches Err(e) ==> e is InvalidConfig,
            r matches Ok(c) ==> c.patterns() == all_patterns(preset is Some, strings_view(extra@)).map_values(|p: Seq<char>| (p, case_insensitive)),
    {
        let mut raw: Vec<String> = Vec::new();
        if let Some(p) = preset {
            let lower = chars_of(lowercase(p).as_str());
            if !chars_equal(&lower, "git-noise") {
                return Err(CortexError::InvalidConfig(p.to_owned()));
            }
            raw.push("^Co-authored-by:".to_owned());
            raw.push("^Signed-off-by:".to_owned());
            raw.push("^Reviewed-by:".to_owned());
            raw.push("^Change-Id:".to_owned());
            raw.push("^See merge request".to_owned());
            proof {
                reveal_strlit("^Co-authored-by:");
                reveal_strlit("^Signed-off-by:");
                reveal_strlit("^Reviewed-by:");
                reveal_strlit("^Change-Id:");
                reveal_strlit("^See merge request");
            }
            assert(raw@.map_values(|s: String| s@) =~= noise_patterns());
        } else {
            assert(raw@.map_values(|s: String| s@) =~= Seq::<Seq<char>>::empty());
        }
        let ghost pre = raw@.map_values(|s: String| s@);
        let ghost ex = extra@.map_values(|s: String| s@);
        let mut i: usize = 0;
        while i < extra.len()
            invariant
                i <= extra.len(),
                ex == extra@.map_values(|s: String| s@),
                raw@.map_values(|s: String| s@) == pre + ex.subrange(0, i as int),
            decreases extra.len() - i,
        {
            let e = extra[i].clone();
            let ghost before = raw@.map_values(|s: String| s@);
            raw.push(e);
            assert(raw@.map_values(|s: String| s@) =~= before.push(ex[i as int]));
            assert(pre + ex.subrange(0, i + 1) =~= (pre + ex.subrange(0, i as int)).push(ex[i as int]));
            i = i + 1;
        }
        assert(ex.subrange(0, extra.len() as int) =~= ex);
        let ghost all = raw@.map_values(|s: String| s@);
        assert(all == all_patterns(preset is Some, ex));
        let mut filters: Vec<LineFilter> = Vec::new();
        let mut j: usize = 0;
        while j < raw.len()
            invariant
                j <= raw.len(),
                all == raw@.map_values(|s: String| s@),
                filters@.map_values(|f: LineFilter| f.spec_pattern()) == all.subrange(0, j as int).map_values(|p: Seq<char>| (p, case_insensitive)),
                forall|k: int| 0 <= k < j ==> regex_accepts(#[trigger] all[k], case_insensitive),
                preset matches Some(p) ==> lower_of(p@) == "git-noise"@,
                all == all_patterns(preset is Some, strings_view(extra@)),
            decreases raw.len() - j,
        {
            match LineFilter::compile(&raw[j], case_insensitive) {
                Some(f) => {
                    assert(f.spec_pattern() == (all[j as int], case_insensitive));
                    let ghost before = filters@.map_values(|f: LineFilter| f.spec_pattern());
                    filters.push(f);
                    assert(filters@.map_values(|f: LineFilter| f.spec_pattern()) =~= before.push((all[j as int], case_insensitive)));
                    assert(filters@.map_values(|f: LineFilter| f.spec_pattern()) =~= all.subrange(0, j + 1).map_values(|p: Seq<char>| (p, case_insensitive)));
                },
                None => {
                    assert(!regex_accepts(all[j as int], case_insensitive));
                    return Err(CortexError::InvalidConfig(raw[j].clone()));
                },
            }
            j = j + 1;
        }
        assert(all.subrange(0, raw.len() as int) =~= all);
        Ok(GitFilterConfig { drop_patterns: filters })
    }
}

/// The character sequences of some strings.
pub open spec fn strings_view(v: Seq<String>) -> Seq<Seq<char>> {
    v.map_values(|s: String| s@)
}

/// Every one of `ps` compiles with the given case setting.
pub open spec fn all_accepted(ps: Seq<Seq<char>>, case_insensitive: bool) -> bool {
    forall|i: int| 0 <= i < ps.len() ==> regex_accepts(#[trigger] ps[i], case_insensitive)
}

/// The patterns in force: the preset's when one is named, then the extra ones.
pub open spec fn all_patterns(with_preset: bool, extra: Seq<Seq<char>>) -> Seq<Seq<char>> {
    if with_preset {
        noise_patterns() + extra
    } else {
        extra
    }
}

/// Whether one of the patterns `ps` matches somewhere in `t`.
pub open spec fn any_match(ps: Seq<(Seq<char>, bool)>, t: Seq<char>) -> bool {
    exists|i: int| 0 <= i < ps.len() && #[trigger] regex_matches(ps[i].0, ps[i].1, t)
}

/// The body lines `ls` that are kept, trimmed: not blank, matched by no pattern.
pub open spec fn body_kept(ls: Seq<Seq<char>>, ps: Seq<(Seq<char>, bool)>) -> Seq<Seq<char>>
    decreases ls.len(),
{
    if ls.len() == 0 {
        Seq::empty()
    } else {
        let r = body_kept(ls.drop_last(), ps);
        let t = trim(ls.last());
        if t.len() == 0 || any_match(ps, t) {
            r
        } else {
            r.push(t)
        }
    }
}

/// How many of the body lines `ls` are dropped by a pattern.
pub open spec fn body_dropped(ls: Seq<Seq<char>>, ps: Seq<(Seq<char>, bool)>) -> nat
    decreases ls.len(),
{
    if ls.len() == 0 {
        0
    } else {
        let t = trim(ls.last());
        body_dropped(ls.drop_last(), ps) + if t.len() > 0 && any_match(ps, t) {
            1nat
        } else {
            0nat
        }
    }
}

/// `xs` without an element equal to the one before it.
pub open spec fn dedup_runs(xs: Seq<Seq<char>>) -> Seq<Seq<char>>
    decreases xs.len(),
{
    if xs.len() == 0 {
        Seq::empty()
    } else {
        let r = dedup_runs(xs.drop_last());
        if r.len() > 0 && r.last() == xs.last() {
            r
        } else {
            r.push(xs.last())
        }
    }
}

/// The lines of a message after filtering: the trimmed subject line unless
/// blank (it is never matched against the patterns), then the kept body lines.
pub open spec fn kept_lines(ls: Seq<Seq<char>>, ps: Seq<(Seq<char>, bool)>) -> Seq<Seq<char>> {
    if ls.len() == 0 {
        Seq::empty()
    } else {
        let head = if trim(ls[0]).len() > 0 {
            seq![trim(ls[0])]
        } else {
            Seq::empty()
        };
        head + body_kept(ls.subrange(1, ls.len() as int), ps)
    }
}

/// The filtered text of a message: kept lines, repeats removed, one per line.
pub open spec fn filtered_text(msg: Seq<char>, ps: Seq<(Seq<char>, bool)>) -> Seq<char> {
    join_with(dedup_runs(kept_lines(lines(msg), ps)), '\n')
}

/// The message that remains, if any: a blank message is skipped; without
/// patterns the message stays as it is; otherwise its filtered text, skipped
/// when blank.
pub open spec fn filter_outcome(msg: Seq<char>, ps: Seq<(Seq<char>, bool)>) -> Option<Seq<char>> {
    if trim(msg).len() == 0 {
        None
    } else if ps.len() == 0 {
        Some(msg)
    } else if trim(filtered_text(msg, ps)).len() == 0 {
        None
    } else {
        Some(filtered_text(msg, ps))
    }
}

/// Counters over the messages seen by the line filters.
#[derive(Debug, Clone, Copy, PartialEq, Eq, Structural)]
pub struct GitFilterStats {
    pub total_commits_seen: usize,
    pub commits_kept: usize,
    pub commits_skipped_empty: usize,
    pub lines_dropped: usize,
    /// Bytes of the messages before filtering.
    pub total_chars_before: usize,
    /// Bytes of the kept messages after filtering.
    pub total_chars_after: usize,
}

impl Default for GitFilterStats {
    fn default() -> (r: Self)
        ensures
            r == (GitFilterStats {
                total_commits_seen: 0,
                commits_kept: 0,
                commits_skipped_empty: 0,
                lines_dropped: 0,
                total_chars_before: 0,
                total_chars_after: 0,
            }),
    {
        GitFilterStats {
            total_commits_seen: 0,
            commits_kept: 0,
            commits_skipped_empty: 0,
            lines_dropped: 0,
            total_chars_before: 0,
            total_chars_after: 0,
        }
    }
}

/// The counters after filtering one more message `msg`.
pub open spec fn filter_stats_after(st: GitFilterStats, msg: Seq<char>, ps: Seq<(Seq<char>, bool)>) -> GitFilterStats {
    let seen = GitFilterStats {
        total_commits_seen: sat_add(st.total_commits_seen, 1),
        total_chars_before: sat_add(st.total_chars_before, utf8_len(msg)),
        ..st
    };
    let ls = lines(msg);
    let dropped = if ls.len() > 0 {
        body_dropped(ls.subrange(1, ls.len() as int), ps)
    } else {
        0
    };
    if trim(msg).len() == 0 {
        GitFilterStats { commits_skipped_empty: sat_add(st.commits_skipped_empty, 1), ..seen }
    } else if ps.len() == 0 {
        GitFilterStats {
            commits_kept: sat_add(st.commits_kept, 1),
            total_chars_after: sat_add(st.total_chars_after, utf8_len(msg)),
            ..seen
        }
    } else if trim(filtered_text(msg, ps)).len() == 0 {
        GitFilterStats {
            commits_skipped_empty: sat_add(st.commits_skipped_empty, 1),
            lines_dropped: sat_add(st.lines_dropped, dropped),
            ..seen
        }
    } else {
        GitFilterStats {
            commits_kept: sat_add(st.commits_kept, 1),
            lines_dropped: sat_add(st.lines_dropped, dropped),
            total_chars_after: sat_add(st.total_chars_after, utf8_len(filtered_text(msg, ps))),
            ..seen
        }
    }
}

/// Whether a pattern of `filters` matches somewhere in `t`.
fn matches_any(filters: &GitFilterConfig, t: &Vec<char>) -> (r: bool)
    ensures
        r == any_match(filters.patterns(), t@),
{
    let s = string_of(t);
    let mut i: usize = 0;
    while i < filters.drop_patterns.len()
        invariant
            i <= filters.drop_patterns.len(),
            s@ == t@,
            forall|j: int| 0 <= j < i ==> !#[trigger] regex_matches(filters.patterns()[j].0, filters.patterns()[j].1, t@),
        decreases filters.drop_patterns.len() - i,
    {
        if filters.drop_patterns[i].is_match(s.as_str()) {
            assert(regex_matches(filters.patterns()[i as int].0, filters.patterns()[i as int].1, t@));
            return true;
        }
        i = i + 1;
    }
    false
}

/// Filter one commit message: blank messages are skipped; without patterns
/// the message is kept as it is; otherwise the subject line is kept, body
/// lines that are blank or matched are dropped, consecutive repeats are
/// removed, and a blank result is skipped. `stats` counts what happened.
pub fn apply_git_line_filters(message: &str, filters: &GitFilterConfig, stats: &mut GitFilterStats) -> (r: Option<String>)
    ensures
        match r {
            Some(s) => filter_outcome(message@, filters.patterns()) == Some(s@),
            None => filter_outcome(message@, filters.patterns()) is None,
        },
        *final(stats) == filter_stats_after(*old(stats), message@, filters.patterns()),
{
    let ghost ps = filters.patterns();
    let msg = chars_of(message);
    let msg_bytes = utf8_len_saturating(&msg);
    stats.total_commits_seen = stats.total_commits_seen.saturating_add(1);
    stats.total_chars_before = stats.total_chars_before.saturating_add(msg_bytes);
    if trim_chars(&msg).len() == 0 {
        stats.commits_skipped_empty = stats.commits_skipped_empty.saturating_add(1);
        return None;
    }
    if !filters.enabled() {
        stats.commits_kept = stats.commits_kept.saturating_add(1);
        stats.total_chars_after = stats.total_chars_after.saturating_add(msg_bytes);
        return Some(string_of(&msg));
    }
    let ls = lines_of(&msg);
    let ghost lv = ls@.map_values(|v: Vec<char>| v@);
    let mut out: Vec<Vec<char>> = Vec::new();
    if ls.len() > 0 {
        let subject = trim_chars(&ls[0]);
        if subject.len() > 0 {
            out.push(subject);
        }
    }
    let ghost head = out@.map_values(|v: Vec<char>| v@);
    let ghost d0 = stats.lines_dropped;
    let mut i: usize = 1;
    if ls.len() > 0 {
        assert(lv.subrange(1, 1) =~= Seq::<Seq<char>>::empty());
        while i < ls.len()
            invariant
                1 <= i <= ls.len(),
                lv == ls@.map_values(|v: Vec<char>| v@),
                ps == filters.patterns(),
                out@.map_values(|v: Vec<char>| v@) == head + body_kept(lv.subrange(1, i as int), ps),
                stats.lines_dropped == sat_add(d0, body_dropped(lv.subrange(1, i as int), ps)),
                stats.total_commits_seen == old(stats).total_commits_seen.saturating_add(1),
                stats.total_chars_before == old(stats).total_chars_before.saturating_add(msg_bytes),
                stats.commits_kept == old(stats).commits_kept,
                stats.commits_skipped_empty == old(stats).commits_skipped_empty,
                stats.total_chars_after == old(stats).total_chars_after,
                d0 == old(stats).lines_dropped,
            decreases ls.len() - i,
        {
            assert(lv.subrange(1, i + 1).drop_last() =~= lv.subrange(1, i as int));
            let t = trim_chars(&ls[i]);
            if t.len() > 0 {
                if matches_any(filters, &t) {
                    stats.lines_dropped = stats.lines_dropped.saturating_add(1);
                } else {
                    let ghost before = out@.map_values(|v: Vec<char>| v@);
                    out.push(t);
                    assert(out@.map_values(|v: Vec<char>| v@) =~= before.push(t@));
                    assert(head + body_kept(lv.subrange(1, i + 1), ps) =~= (head + body_kept(lv.subrange(1, i as int), ps)).push(t@));
                }
            }
            i = i + 1;
        }
        assert(lv.subrange(1, ls.len() as int) == lv.subrange(1, lv.len() as int));
    }
    let ghost kept = out@.map_values(|v: Vec<char>| v@);
    assert(kept == kept_lines(lv, ps)) by {
        if lv.len() == 0 {
            assert(kept =~= Seq::<Seq<char>>::empty());
        }
    }
    let mut deduped: Vec<Vec<char>> = Vec::new();
    let mut j: usize = 0;
    assert(kept.subrange(0, 0) =~= Seq::<Seq<char>>::empty());
    while j < out.len()
        invariant
            j <= out.len(),
            kept == out@.map_values(|v: Vec<char>| v@),
            deduped@.map_values(|v: Vec<char>| v@) == dedup_runs(kept.subrange(0, j as int)),
        decreases out.len() - j,
    {
        assert(kept.subrange(0, j + 1).drop_last() =~= kept.subrange(0, j as int));
        let ghost before = deduped@.map_values(|v: Vec<char>| v@);
        let same = deduped.len() > 0 && vec_chars_eq(&deduped[deduped.len() - 1], &out[j]);
        if !same {
            let c = copy_chars(&out[j]);
            deduped.push(c);
            assert(deduped@.map_values(|v: Vec<char>| v@) =~= before.push(kept[j as int]));
        }
        j = j + 1;
    }
    assert(kept.subrange(0, out.len() as int) =~= kept);
    let ghost dd = deduped@.map_values(|v: Vec<char>| v@);
    let mut joined: Vec<char> = Vec::new();
    let mut k: usize = 0;
    assert(dd.subrange(0, 0) =~= Seq::<Seq<char>>::empty());
    while k < deduped.len()
        invariant
            k <= deduped.len(),
            dd == deduped@.map_values(|v: Vec<char>| v@),
            joined@ == join_with(dd.subrange(0, k as int), '\n'),
        decreases deduped.len() - k,
    {
        let ghost prefix = dd.subrange(0, k + 1);
        assert(prefix.drop_last() =~= dd.subrange(0, k as int));
        if k > 0 {
            joined.push('\n');
        }
        append_chars(&mut joined, &deduped[k]);
        assert(joined@ =~= join_with(prefix, '\n'));
        k = k + 1;
    }
    assert(dd.subrange(0, deduped.len() as int) =~= dd);
    if trim_chars(&joined).len() == 0 {
        stats.commits_skipped_empty = stats.commits_skipped_empty.saturating_add(1);
        return None;
    }
    let n = utf8_len_saturating(&joined);
    stats.commits_kept = stats.commits_kept.saturating_add(1);
    stats.total_chars_after = stats.total_chars_after.saturating_add(n);
    Some(string_of(&joined))
}

/// Whether two character vectors are equal.
fn vec_chars_eq(a: &Vec<char>, b: &Vec<char>) -> (r: bool)
    ensures
        r == (a@ == b@),
{
    if a.len() != b.len() {
        return false;
    }
    let mut i: usize = 0;
    while i < a.len()
        invariant
            i <= a.len() == b.len(),
            forall|j: int| 0 <= j < i ==> a@[j] == b@[j],
        decreases a.len() - i,
    {
        if a[i] != b[i] {
            return false;
        }
        i = i + 1;
    }
    assert(a@ =~= b@);
    true
}

/// A copy of `a`.
fn copy_chars(a: &Vec<char>) -> (r: Vec<char>)
    ensures
        r@ == a@,
{
    let mut r: Vec<char> = Vec::new();
    append_chars(&mut r, a);
    assert(Seq::<char>::empty() + a@ =~= a@);
    r
}

} // verus!
