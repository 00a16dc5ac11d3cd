//! Splitting one commit message into the logical changes it reports.
//!
//! Three strategies are tried in order (conventional headers, bullets,
//! paragraphs); the first that yields two or more segments wins, and the
//! configured mode decides whether that split is kept.
use vstd::prelude::*;
use crate::text::{
    append_chars, chars_equal, chars_of, collapse_whitespace, lines, lines_of, lower_of,
    lowercase, nonempty_trimmed, nonempty_trimmed_range, slice_chars, split_by, split_chars,
    string_of, trim, trim_chars, utf8_len, utf8_len_at_least, words,
};
use crate::error::CortexError;

verus! {

/// How eagerly a message is split.
#[derive(Debug, Clone, Copy, PartialEq, Eq, Structural)]
pub enum CommitSplitMode {
    Off,
    Auto,
    Strict,
}

/// Which strategy produced a segment.
#[derive(Debug, Clone, Copy, PartialEq, Eq, Structural)]
pub enum ParseMode {
    ConventionalHeader,
    BulletGrouped,
    ParagraphFallback,
}

/// Confidence, in hundredths, of a segment found by conventional headers.
pub const HEADER_CONFIDENCE: u32 = 95;

/// Confidence, in hundredths, of a segment found by bullets.
pub const BULLET_CONFIDENCE: u32 = 80;

/// Confidence, in hundredths, of a segment found by paragraphs.
pub const PARAGRAPH_CONFIDENCE: u32 = 65;

/// Confidence, in hundredths, of the single segment of an unsplit message.
pub const SINGLE_CONFIDENCE: u32 = 100;

/// A bullet's text must take at least this many bytes.
pub const MIN_BULLET_BYTES: usize = 8;

/// A paragraph is substantial with at least this many words.
pub const MIN_PARAGRAPH_WORDS: usize = 4;

/// One logical change found in a commit message.
#[derive(Debug, Clone)]
pub struct CommitSegment {
    pub header: String,
    pub details: Vec<String>,
    /// Confidence in hundredths (0 to 100).
    pub confidence: u32,
    pub parse_mode: ParseMode,
}

/// What a segment holds, as plain sequences.
pub struct SegmentView {
    pub header: Seq<char>,
    pub details: Seq<Seq<char>>,
    pub confidence: nat,
    pub parse_mode: ParseMode,
}

impl View for CommitSegment {
    type V = SegmentView;

    open spec fn view(&self) -> SegmentView {
        SegmentView {
            header: self.header@,
            details: self.details@.map_values(|d: String| d@),
            confidence: self.confidence as nat,
            parse_mode: self.parse_mode,
        }
    }
}

/// The views of a list of segments.
pub open spec fn segs_view(v: Seq<CommitSegment>) -> Seq<SegmentView> {
    v.map_values(|s: CommitSegment| s@)
}

/// The view of an optional list of segments.
pub open spec fn opt_segs_view(o: Option<Vec<CommitSegment>>) -> Option<Seq<SegmentView>> {
    match o {
        Some(v) => Some(segs_view(v@)),
        None => None,
    }
}

/// An ASCII letter.
pub open spec fn is_ascii_alpha(c: char) -> bool {
    ('a' <= c && c <= 'z') || ('A' <= c && c <= 'Z')
}

/// A character allowed in the type prefix of a conventional header.
pub open spec fn is_header_char(c: char) -> bool {
    is_ascii_alpha(c) || ('0' <= c && c <= '9') || c == '(' || c == ')' || c == '-' || c == '_'
        || c == '/'
}

/// A valid type prefix: non-empty, starts with an ASCII letter, and holds only
/// ASCII letters, digits and `()-_/`.
pub open spec fn header_prefix_ok(p: Seq<char>) -> bool {
    p.len() > 0 && is_ascii_alpha(p[0]) && forall|i: int| 0 <= i < p.len() ==> is_header_char(#[trigger] p[i])
}

/// The trimmed line has a first colon whose prefix is a valid type prefix and
/// whose message is not empty once trimmed.
pub open spec fn is_conventional_header_spec(line: Seq<char>) -> bool {
    let t = trim(line);
    exists|p: int|
        0 <= p < t.len() && #[trigger] t[p] == ':' && (forall|i: int| 0 <= i < p ==> t[i] != ':')
            && header_prefix_ok(t.subrange(0, p)) && trim(t.subrange(p + 1, t.len() as int)).len()
            > 0
}

/// The trimmed line starts with `"- "` or `"* "` and has more after it.
pub open spec fn is_bullet_spec(t: Seq<char>) -> bool {
    t.len() >= 3 && (t[0] == '-' || t[0] == '*') && t[1] == ' '
}

fn is_alpha(c: char) -> (r: bool)
    ensures
        r == is_ascii_alpha(c),
{
    ('a' <= c && c <= 'z') || ('A' <= c && c <= 'Z')
}

fn is_header_prefix_char(c: char) -> (r: bool)
    ensures
        r == is_header_char(c),
{
    is_alpha(c) || ('0' <= c && c <= '9') || c == '(' || c == ')' || c == '-' || c == '_' || c
        == '/'
}

/// Whether `line` is a conventional header, on its characters.
pub fn conventional_header_chars(line: &Vec<char>) -> (r: bool)
    ensures
        r == is_conventional_header_spec(line@),
{
    let t = trim_chars(line);
    let n = t.len();
    let mut p: usize = 0;
    while p < n && t[p] != ':'
        invariant
            p <= n == t.len(),
            forall|i: int| 0 <= i < p ==> t@[i] != ':',
        decreases n - p,
    {
        p = p + 1;
    }
    if p == n {
        assert(!is_conventional_header_spec(line@)) by {
            if exists|q: int| 0 <= q < t@.len() && #[trigger] t@[q] == ':' {
                let q = choose|q: int| 0 <= q < t@.len() && #[trigger] t@[q] == ':';
                assert(t@[q] != ':');
            }
        }
        return false;
    }
    let prefix = slice_chars(&t, 0, p);
    let rest = slice_chars(&t, p + 1, n);
    let message = trim_chars(&rest);
    assert(rest@ == t@.subrange(p + 1, n as int));
    let mut ok = p > 0 && message.len() > 0 && is_alpha(t[0]);
    let mut i: usize = 0;
    while ok && i < p
        invariant
            i <= p < n == t.len(),
            prefix@ == t@.subrange(0, p as int),
            message@ == trim(t@.subrange(p + 1, n as int)),
            ok ==> (p > 0 && message@.len() > 0 && is_ascii_alpha(t@[0])),
            ok ==> forall|j: int| 0 <= j < i ==> is_header_char(#[trigger] prefix@[j]),
            !ok ==> !(p > 0 && message@.len() > 0 && is_ascii_alpha(t@[0]) && forall|j: int|
                0 <= j < p ==> is_header_char(#[trigger] prefix@[j])),
        decreases p - i,
    {
        if !is_header_prefix_char(t[i]) {
            assert(prefix@[i as int] == t@[i as int]);
            ok = false;
        }
        i = i + 1;
    }
    proof {
        assert forall|q: int|
            0 <= q < t@.len() && #[trigger] t@[q] == ':' && (forall|k: int| 0 <= k < q ==> t@[k] != ':')
            implies q == p by {
            if q < p {
                assert(t@[q] != ':');
            }
            if q > p {
                assert(t@[p as int] != ':');
            }
        }
        if ok {
            assert(prefix@[0] == t@[0]);
            assert(header_prefix_ok(t@.subrange(0, p as int)));
            assert(t@[p as int] == ':');
        }
    }
    ok
}

/// Whether `line`, trimmed, has the form `type(scope): message`.
pub fn is_conventional_header(line: &str) -> (r: bool)
    ensures
        r == is_conventional_header_spec(line@),
{
    let v = chars_of(line);
    conventional_header_chars(&v)
}

/// Whether trimmed `t` is a bullet, on its characters.
fn bullet_chars(t: &Vec<char>) -> (r: bool)
    ensures
        r == is_bullet_spec(t@),
{
    t.len() >= 3 && (t[0] == '-' || t[0] == '*') && t[1] == ' '
}

/// Whether `line`, trimmed, starts with `"- "` or `"* "` and has more after it.
pub fn is_bullet_line(line: &str) -> (r: bool)
    ensures
        r == is_bullet_spec(trim(line@)),
{
    let v = chars_of(line);
    let t = trim_chars(&v);
    bullet_chars(&t)
}


/// Indices of the lines of `ls` that are conventional headers, ascending.
pub open spec fn header_indices(ls: Seq<Seq<char>>) -> Seq<int>
    decreases ls.len(),
{
    if ls.len() == 0 {
        Seq::empty()
    } else {
        let h = header_indices(ls.drop_last());
        if is_conventional_header_spec(ls.last()) {
            h.push(ls.len() - 1)
        } else {
            h
        }
    }
}

/// The smaller of two counts.
pub open spec fn min_nat(a: nat, b: nat) -> nat {
    if a <= b {
        a
    } else {
        b
    }
}

/// The segment that starts at the `j`-th header: the trimmed header line, and as
/// details the non-empty trimmed lines up to the next header or the end.
pub open spec fn header_segment(ls: Seq<Seq<char>>, h: Seq<int>, j: int) -> SegmentView {
    let end = if j + 1 < h.len() {
        h[j + 1]
    } else {
        ls.len() as int
    };
    SegmentView {
        header: trim(ls[h[j]]),
        details: nonempty_trimmed(ls.subrange(h[j] + 1, end)),
        confidence: HEADER_CONFIDENCE as nat,
        parse_mode: ParseMode::ConventionalHeader,
    }
}

/// Split at conventional headers: needs two header lines; one segment per
/// header, at most `max` of them, and at least two kept.
pub open spec fn conventional_split(ls: Seq<Seq<char>>, max: nat) -> Option<Seq<SegmentView>> {
    let h = header_indices(ls);
    let k = min_nat(h.len(), max);
    if h.len() < 2 || k < 2 {
        None
    } else {
        Some(Seq::new(k, |j: int| header_segment(ls, h, j)))
    }
}

/// Strings of `v`, each made from one character vector.
fn strings_of(v: &Vec<Vec<char>>) -> (r: Vec<String>)
    ensures
        r@.map_values(|d: String| d@) == v@.map_values(|c: Vec<char>| c@),
{
    let mut r: Vec<String> = Vec::new();
    let mut i: usize = 0;
    while i < v.len()
        invariant
            i <= v.len(),
            r@.map_values(|d: String| d@) == v@.map_values(|c: Vec<char>| c@).subrange(0, i as int),
        decreases v.len() - i,
    {
        let ghost before = r@.map_values(|d: String| d@);
        let d = string_of(&v[i]);
        r.push(d);
        assert(before.push(v@[i as int]@) =~= v@.map_values(|c: Vec<char>| c@).subrange(0, i + 1));
        assert(r@.map_values(|d: String| d@) =~= v@.map_values(|c: Vec<char>| c@).subrange(0, i + 1));
        i = i + 1;
    }
    assert(v@.map_values(|c: Vec<char>| c@).subrange(0, v.len() as int) =~= v@.map_values(|c: Vec<char>| c@));
    r
}

/// Split the lines of a message at conventional headers.
pub fn split_by_conventional_headers(lines: &Vec<Vec<char>>, max_segments: usize) -> (r: Option<Vec<CommitSegment>>)
    ensures
        opt_segs_view(r) == conventional_split(lines@.map_values(|v: Vec<char>| v@), max_segments as nat),
{
    let ghost ls = lines@.map_values(|v: Vec<char>| v@);
    let mut headers: Vec<usize> = Vec::new();
    let mut i: usize = 0;
    assert(ls.subrange(0, 0) =~= Seq::<Seq<char>>::empty());
    while i < lines.len()
        invariant
            i <= lines.len(),
            ls == lines@.map_values(|v: Vec<char>| v@),
            headers@.map_values(|x: usize| x as int) == header_indices(ls.subrange(0, i as int)),
            forall|a: int, b: int| 0 <= a < b < headers.len() ==> headers@[a] < headers@[b],
            forall|a: int| 0 <= a < headers.len() ==> headers@[a] < i,
        decreases lines.len() - i,
    {
        assert(ls.subrange(0, i + 1).drop_last() =~= ls.subrange(0, i as int));
        let ghost before = headers@.map_values(|x: usize| x as int);
        if conventional_header_chars(&lines[i]) {
            headers.push(i);
            assert(headers@.map_values(|x: usize| x as int) =~= before.push(i as int));
        }
        i = i + 1;
    }
    assert(ls.subrange(0, lines.len() as int) =~= ls);
    let ghost h = header_indices(ls);
    let k = if headers.len() <= max_segments { headers.len() } else { max_segments };
    if headers.len() < 2 || k < 2 {
        return None;
    }
    let mut segments: Vec<CommitSegment> = Vec::new();
    let mut j: usize = 0;
    while j < k
        invariant
            j <= k <= headers.len(),
            ls == lines@.map_values(|v: Vec<char>| v@),
            h == header_indices(ls),
            headers@.map_values(|x: usize| x as int) == h,
            forall|a: int, b: int| 0 <= a < b < headers.len() ==> headers@[a] < headers@[b],
            forall|a: int| 0 <= a < headers.len() ==> headers@[a] < lines.len(),
            segs_view(segments@) == Seq::new(j as nat, |t: int| header_segment(ls, h, t)),
        decreases k - j,
    {
        let start = headers[j];
        let end = if j + 1 < headers.len() { headers[j + 1] } else { lines.len() };
        assert(h[j as int] == start);
        assert(j + 1 < headers.len() ==> h[j + 1] == end);
        let header = string_of(&trim_chars(&lines[start]));
        let details_chars = nonempty_trimmed_range(lines, start + 1, end);
        let details = strings_of(&details_chars);
        let seg = CommitSegment { header, details, confidence: HEADER_CONFIDENCE, parse_mode: ParseMode::ConventionalHeader };
        let ghost before = segs_view(segments@);
        segments.push(seg);
        assert(segs_view(segments@) =~= before.push(header_segment(ls, h, j as int)));
        assert(Seq::new((j + 1) as nat, |t: int| header_segment(ls, h, t)) =~= Seq::new(j as nat, |t: int| header_segment(ls, h, t)).push(header_segment(ls, h, j as int)));
        j = j + 1;
    }
    Some(segments)
}


/// The texts of the bullet lines of `ls`: marker and surrounding whitespace
/// removed, kept when at least eight bytes long.
pub open spec fn bullet_texts(ls: Seq<Seq<char>>) -> Seq<Seq<char>>
    decreases ls.len(),
{
    if ls.len() == 0 {
        Seq::empty()
    } else {
        let b = bullet_texts(ls.drop_last());
        let t = trim(ls.last());
        let m = trim(t.subrange(2, t.len() as int));
        if is_bullet_spec(t) && utf8_len(m) >= MIN_BULLET_BYTES {
            b.push(m)
        } else {
            b
        }
    }
}

/// A header-only segment for a bullet.
pub open spec fn bullet_segment(m: Seq<char>) -> SegmentView {
    SegmentView {
        header: m,
        details: Seq::empty(),
        confidence: BULLET_CONFIDENCE as nat,
        parse_mode: ParseMode::BulletGrouped,
    }
}

/// Split at bullets: needs two bullets; one segment per bullet, at most `max`,
/// and at least two kept.
pub open spec fn bullet_split(ls: Seq<Seq<char>>, max: nat) -> Option<Seq<SegmentView>> {
    let b = bullet_texts(ls);
    let k = min_nat(b.len(), max);
    if b.len() < 2 || k < 2 {
        None
    } else {
        Some(Seq::new(k, |j: int| bullet_segment(b[j])))
    }
}

/// Split the lines of a message at bullet lines.
pub fn split_by_bullets(lines: &Vec<Vec<char>>, max_segments: usize) -> (r: Option<Vec<CommitSegment>>)
    ensures
        opt_segs_view(r) == bullet_split(lines@.map_values(|v: Vec<char>| v@), max_segments as nat),
{
    let ghost ls = lines@.map_values(|v: Vec<char>| v@);
    let mut bullets: Vec<Vec<char>> = Vec::new();
    let mut i: usize = 0;
    assert(ls.subrange(0, 0) =~= Seq::<Seq<char>>::empty());
    while i < lines.len()
        invariant
            i <= lines.len(),
            ls == lines@.map_values(|v: Vec<char>| v@),
            bullets@.map_values(|v: Vec<char>| v@) == bullet_texts(ls.subrange(0, i as int)),
        decreases lines.len() - i,
    {
        assert(ls.subrange(0, i + 1).drop_last() =~= ls.subrange(0, i as int));
        let ghost before = bullets@.map_values(|v: Vec<char>| v@);
        let t = trim_chars(&lines[i]);
        if bullet_chars(&t) {
            let m = trim_chars(&slice_chars(&t, 2, t.len()));
            if utf8_len_at_least(&m, MIN_BULLET_BYTES) {
                bullets.push(m);
                assert(bullets@.map_values(|v: Vec<char>| v@) =~= before.push(m@));
            }
        }
        i = i + 1;
    }
    assert(ls.subrange(0, lines.len() as int) =~= ls);
    let ghost b = bullet_texts(ls);
    let k = if bullets.len() <= max_segments { bullets.len() } else { max_segments };
    if bullets.len() < 2 || k < 2 {
        return None;
    }
    let mut segments: Vec<CommitSegment> = Vec::new();
    let mut j: usize = 0;
    while j < k
        invariant
            j <= k <= bullets.len(),
            bullets@.map_values(|v: Vec<char>| v@) == b,
            segs_view(segments@) == Seq::new(j as nat, |t: int| bullet_segment(b[t])),
        decreases k - j,
    {
        let header = string_of(&bullets[j]);
        let seg = CommitSegment { header, details: Vec::new(), confidence: BULLET_CONFIDENCE, parse_mode: ParseMode::BulletGrouped };
        let ghost before = segs_view(segments@);
        segments.push(seg);
        assert(seg@.details =~= Seq::<Seq<char>>::empty());
        assert(segs_view(segments@) =~= before.push(bullet_segment(b[j as int])));
        assert(Seq::new((j + 1) as nat, |t: int| bullet_segment(b[t])) =~= Seq::new(j as nat, |t: int| bullet_segment(b[t])).push(bullet_segment(b[j as int])));
        j = j + 1;
    }
    Some(segments)
}

/// The non-empty trimmed paragraphs of `msg`, paragraphs being separated by
/// `"\n\n"`.
pub open spec fn paragraphs(msg: Seq<char>) -> Seq<Seq<char>> {
    nonempty_trimmed(split_by(msg, seq!['\n', '\n']))
}

/// How many of `ps` hold at least four words.
pub open spec fn substantial_count(ps: Seq<Seq<char>>) -> nat
    decreases ps.len(),
{
    if ps.len() == 0 {
        0
    } else {
        substantial_count(ps.drop_last()) + if words(ps.last()).len() >= MIN_PARAGRAPH_WORDS {
            1nat
        } else {
            0nat
        }
    }
}

/// One segment per paragraph of `ps` that has a non-empty line: its first
/// non-empty trimmed line as header, the others as details.
pub open spec fn paragraph_segments(ps: Seq<Seq<char>>) -> Seq<SegmentView>
    decreases ps.len(),
{
    if ps.len() == 0 {
        Seq::empty()
    } else {
        let r = paragraph_segments(ps.drop_last());
        let ls = nonempty_trimmed(lines(ps.last()));
        if ls.len() == 0 {
            r
        } else {
            r.push(
                SegmentView {
                    header: ls[0],
                    details: ls.drop_first(),
                    confidence: PARAGRAPH_CONFIDENCE as nat,
                    parse_mode: ParseMode::ParagraphFallback,
                },
            )
        }
    }
}

/// Split at blank lines: needs two paragraphs, two of them substantial; one
/// segment per paragraph among the first `max`, and at least two kept.
pub open spec fn paragraph_split(msg: Seq<char>, max: nat) -> Option<Seq<SegmentView>> {
    let ps = paragraphs(msg);
    let segs = paragraph_segments(ps.take(min_nat(ps.len(), max) as int));
    if ps.len() < 2 || substantial_count(ps) < 2 || segs.len() < 2 {
        None
    } else {
        Some(segs)
    }
}

/// Split a message at blank lines.
pub fn split_by_paragraphs(message: &Vec<char>, max_segments: usize) -> (r: Option<Vec<CommitSegment>>)
    ensures
        opt_segs_view(r) == paragraph_split(message@, max_segments as nat),
{
    let mut sep: Vec<char> = Vec::new();
    sep.push('\n');
    sep.push('\n');
    assert(sep@ =~= seq!['\n', '\n']);
    let pieces = split_chars(message, &sep);
    let paras = nonempty_trimmed_range(&pieces, 0, pieces.len());
    assert(pieces@.map_values(|v: Vec<char>| v@).subrange(0, pieces.len() as int) =~= pieces@.map_values(|v: Vec<char>| v@));
    let ghost ps = paras@.map_values(|v: Vec<char>| v@);
    if paras.len() < 2 {
        return None;
    }
    let mut substantial: usize = 0;
    let mut i: usize = 0;
    assert(ps.subrange(0, 0) =~= Seq::<Seq<char>>::empty());
    while i < paras.len()
        invariant
            i <= paras.len(),
            ps == paras@.map_values(|v: Vec<char>| v@),
            substantial == substantial_count(ps.subrange(0, i as int)),
            substantial <= i,
        decreases paras.len() - i,
    {
        assert(ps.subrange(0, i + 1).drop_last() =~= ps.subrange(0, i as int));
        let (count, _) = collapse_whitespace(&paras[i]);
        if count >= MIN_PARAGRAPH_WORDS {
            substantial = substantial + 1;
        }
        i = i + 1;
    }
    assert(ps.subrange(0, paras.len() as int) =~= ps);
    if substantial < 2 {
        return None;
    }
    let k = if paras.len() <= max_segments { paras.len() } else { max_segments };
    let mut segments: Vec<CommitSegment> = Vec::new();
    let mut j: usize = 0;
    assert(ps.take(0) =~= Seq::<Seq<char>>::empty());
    while j < k
        invariant
            j <= k <= paras.len(),
            ps == paras@.map_values(|v: Vec<char>| v@),
            segs_view(segments@) == paragraph_segments(ps.take(j as int)),
        decreases k - j,
    {
        assert(ps.take(j + 1).drop_last() =~= ps.take(j as int));
        let plines = lines_of(&paras[j]);
        let ls = nonempty_trimmed_range(&plines, 0, plines.len());
        assert(plines@.map_values(|v: Vec<char>| v@).subrange(0, plines.len() as int) =~= plines@.map_values(|v: Vec<char>| v@));
        if ls.len() > 0 {
            let ghost lsv = ls@.map_values(|v: Vec<char>| v@);
            let header = string_of(&ls[0]);
            let rest = slice_vecs(&ls, 1);
            assert(rest@.map_values(|v: Vec<char>| v@) =~= lsv.drop_first());
            let details = strings_of(&rest);
            let seg = CommitSegment { header, details, confidence: PARAGRAPH_CONFIDENCE, parse_mode: ParseMode::ParagraphFallback };
            let ghost before = segs_view(segments@);
            segments.push(seg);
            assert(segs_view(segments@) =~= before.push(seg@));
        }
        j = j + 1;
    }
    if segments.len() < 2 {
        return None;
    }
    Some(segments)
}

/// Copy of `v[from..]`.
fn slice_vecs(v: &Vec<Vec<char>>, from: usize) -> (r: Vec<Vec<char>>)
    requires
        from <= v.len(),
    ensures
        r@.map_values(|c: Vec<char>| c@) == v@.map_values(|c: Vec<char>| c@).subrange(from as int, v.len() as int),
{
    let mut r: Vec<Vec<char>> = Vec::new();
    let mut i: usize = from;
    while i < v.len()
        invariant
            from <= i <= v.len(),
            r@.map_values(|c: Vec<char>| c@) == v@.map_values(|c: Vec<char>| c@).subrange(from as int, i as int),
        decreases v.len() - i,
    {
        let ghost before = r@.map_values(|c: Vec<char>| c@);
        let c = slice_chars(&v[i], 0, v[i].len());
        assert(v[i as int]@.subrange(0, v[i as int]@.len() as int) =~= v[i as int]@);
        r.push(c);
        assert(before.push(v@[i as int]@) =~= v@.map_values(|c: Vec<char>| c@).subrange(from as int, i + 1));
        assert(r@.map_values(|c: Vec<char>| c@) =~= v@.map_values(|c: Vec<char>| c@).subrange(from as int, i + 1));
        i = i + 1;
    }
    r
}


/// The single segment of an unsplit message: its first non-empty trimmed line
/// (or the trimmed message when it has none) as header, the other non-empty
/// trimmed lines as details.
pub open spec fn single_segment(msg: Seq<char>) -> Seq<SegmentView> {
    let ls = nonempty_trimmed(lines(msg));
    seq![
        SegmentView {
            header: if ls.len() > 0 {
                trim(ls[0])
            } else {
                trim(msg)
            },
            details: if ls.len() > 0 {
                ls.drop_first()
            } else {
                Seq::empty()
            },
            confidence: SINGLE_CONFIDENCE as nat,
            parse_mode: ParseMode::ParagraphFallback,
        },
    ]
}

/// The message as one segment.
pub fn fallback_single_segment(message: &Vec<char>) -> (r: Vec<CommitSegment>)
    ensures
        segs_view(r@) == single_segment(message@),
{
    let mlines = lines_of(message);
    let ls = nonempty_trimmed_range(&mlines, 0, mlines.len());
    assert(mlines@.map_values(|v: Vec<char>| v@).subrange(0, mlines.len() as int) =~= mlines@.map_values(|v: Vec<char>| v@));
    let ghost lsv = ls@.map_values(|v: Vec<char>| v@);
    let header;
    let details;
    if ls.len() > 0 {
        header = string_of(&trim_chars(&ls[0]));
        let rest = slice_vecs(&ls, 1);
        assert(rest@.map_values(|v: Vec<char>| v@) =~= lsv.drop_first());
        details = strings_of(&rest);
    } else {
        header = string_of(&trim_chars(message));
        details = Vec::new();
        assert(details@.map_values(|d: String| d@) =~= Seq::<Seq<char>>::empty());
    }
    let seg = CommitSegment { header, details, confidence: SINGLE_CONFIDENCE, parse_mode: ParseMode::ParagraphFallback };
    let mut r: Vec<CommitSegment> = Vec::new();
    r.push(seg);
    assert(segs_view(r@) =~= single_segment(message@));
    r
}

/// The first strategy that yields a split: conventional headers, then bullets,
/// then paragraphs.
pub open spec fn cascade(msg: Seq<char>, max: nat) -> Option<Seq<SegmentView>> {
    let ls = lines(msg);
    match conventional_split(ls, max) {
        Some(segs) => Some(segs),
        None => match bullet_split(ls, max) {
            Some(segs) => Some(segs),
            None => paragraph_split(msg, max),
        },
    }
}

/// Sum of the confidences of `segs`.
pub open spec fn confidence_sum(segs: Seq<SegmentView>) -> nat
    decreases segs.len(),
{
    if segs.len() == 0 {
        0
    } else {
        confidence_sum(segs.drop_last()) + segs.last().confidence
    }
}

/// Number of `segs` that come from strategy `m`.
pub open spec fn mode_count(segs: Seq<SegmentView>, m: ParseMode) -> nat
    decreases segs.len(),
{
    if segs.len() == 0 {
        0
    } else {
        mode_count(segs.drop_last(), m) + if segs.last().parse_mode == m {
            1nat
        } else {
            0nat
        }
    }
}

/// Settings of the segmenter.
#[derive(Debug, Clone, Copy)]
pub struct CommitSplitConfig {
    pub mode: CommitSplitMode,
    /// At most this many segments per message (at least one).
    pub max_segments: usize,
    /// Least mean confidence, in hundredths, for `Auto` to keep a split.
    pub min_confidence: u32,
}

/// Whether the mode keeps a split into `segs`: `Strict` always; `Auto` when the
/// mean confidence reaches the configured least (compared without division).
pub open spec fn keeps_split(cfg: CommitSplitConfig, segs: Seq<SegmentView>) -> bool {
    match cfg.mode {
        CommitSplitMode::Strict => true,
        CommitSplitMode::Auto => confidence_sum(segs) >= cfg.min_confidence * segs.len(),
        CommitSplitMode::Off => false,
    }
}

/// The split that is kept for `msg`, if any.
pub open spec fn kept_split(msg: Seq<char>, cfg: CommitSplitConfig) -> Option<Seq<SegmentView>> {
    if cfg.mode == CommitSplitMode::Off {
        None
    } else {
        match cascade(msg, cfg.max_segments as nat) {
            Some(segs) => if keeps_split(cfg, segs) {
                Some(segs)
            } else {
                None
            },
            None => None,
        }
    }
}

/// The segments emitted for `msg`.
pub open spec fn split_message(msg: Seq<char>, cfg: CommitSplitConfig) -> Seq<SegmentView> {
    match kept_split(msg, cfg) {
        Some(segs) => segs,
        None => single_segment(msg),
    }
}

/// `a + b`, saturating at the largest `usize`.
pub open spec fn sat_add(a: usize, b: nat) -> usize {
    if a + b > usize::MAX {
        usize::MAX
    } else {
        (a + b) as usize
    }
}

/// Counters over the messages seen by the segmenter.
#[derive(Debug, Clone, Copy, PartialEq, Eq, Structural)]
pub struct CommitSplitStats {
    pub commits_seen: usize,
    pub commits_split: usize,
    pub total_segments_emitted: usize,
    pub fallback_to_single: usize,
    pub segments_from_headers: usize,
    pub segments_from_bullets: usize,
    pub segments_from_paragraphs: usize,
}

impl Default for CommitSplitStats {
    fn default() -> (r: Self)
        ensures
            r == (CommitSplitStats {
                commits_seen: 0,
                commits_split: 0,
                total_segments_emitted: 0,
                fallback_to_single: 0,
                segments_from_headers: 0,
                segments_from_bullets: 0,
                segments_from_paragraphs: 0,
            }),
    {
        CommitSplitStats {
            commits_seen: 0,
            commits_split: 0,
            total_segments_emitted: 0,
            fallback_to_single: 0,
            segments_from_headers: 0,
            segments_from_bullets: 0,
            segments_from_paragraphs: 0,
        }
    }
}

/// The counters after one more message `msg`.
pub open spec fn stats_after(st: CommitSplitStats, msg: Seq<char>, cfg: CommitSplitConfig) -> CommitSplitStats {
    match kept_split(msg, cfg) {
        None => CommitSplitStats {
            commits_seen: sat_add(st.commits_seen, 1),
            total_segments_emitted: sat_add(st.total_segments_emitted, 1),
            fallback_to_single: sat_add(st.fallback_to_single, 1),
            ..st
        },
        Some(segs) => CommitSplitStats {
            commits_seen: sat_add(st.commits_seen, 1),
            commits_split: sat_add(st.commits_split, 1),
            total_segments_emitted: sat_add(st.total_segments_emitted, segs.len()),
            segments_from_headers: sat_add(st.segments_from_headers, mode_count(segs, ParseMode::ConventionalHeader)),
            segments_from_bullets: sat_add(st.segments_from_bullets, mode_count(segs, ParseMode::BulletGrouped)),
            segments_from_paragraphs: sat_add(st.segments_from_paragraphs, mode_count(segs, ParseMode::ParagraphFallback)),
            ..st
        },
    }
}

/// Split `message` into segments as `config` says, and count it in `stats`.
pub fn split_commit_message(message: &str, config: &CommitSplitConfig, stats: &mut CommitSplitStats) -> (r: Vec<CommitSegment>)
    ensures
        segs_view(r@) == split_message(message@, *config),
        *final(stats) == stats_after(*old(stats), message@, *config),
{
    let msg = chars_of(message);
    stats.commits_seen = stats.commits_seen.saturating_add(1);
    let mut candidate: Option<Vec<CommitSegment>> = None;
    if config.mode != CommitSplitMode::Off {
        let mlines = lines_of(&msg);
        candidate = split_by_conventional_headers(&mlines, config.max_segments);
        if candidate.is_none() {
            candidate = split_by_bullets(&mlines, config.max_segments);
        }
        if candidate.is_none() {
            candidate = split_by_paragraphs(&msg, config.max_segments);
        }
        assert(opt_segs_view(candidate) == cascade(message@, config.max_segments as nat));
    }
    let keep = match &candidate {
        None => false,
        Some(segments) => {
            let ghost sv = segs_view(segments@);
            let mut sum: u128 = 0;
            let mut i: usize = 0;
            assert(sv.subrange(0, 0) =~= Seq::<SegmentView>::empty());
            while i < segments.len()
                invariant
                    i <= segments.len(),
                    sv == segs_view(segments@),
                    sum == confidence_sum(sv.subrange(0, i as int)),
                    sum <= i * 0x1_0000_0000,
                decreases segments.len() - i,
            {
                assert(sv.subrange(0, i + 1).drop_last() =~= sv.subrange(0, i as int));
                sum = sum + segments[i].confidence as u128;
                i = i + 1;
            }
            assert(sv.subrange(0, segments.len() as int) =~= sv);
            match config.mode {
                CommitSplitMode::Strict => true,
                CommitSplitMode::Auto => {
                    assert(config.min_confidence * segments.len() <= 0xFFFF_FFFF * 0xFFFF_FFFF_FFFF_FFFF) by (nonlinear_arith)
                        requires config.min_confidence <= 0xFFFF_FFFF, segments.len() <= 0xFFFF_FFFF_FFFF_FFFF;
                    sum >= (config.min_confidence as u128) * (segments.len() as u128)
                },
                CommitSplitMode::Off => false,
            }
        },
    };
    if !keep {
        stats.total_segments_emitted = stats.total_segments_emitted.saturating_add(1);
        stats.fallback_to_single = stats.fallback_to_single.saturating_add(1);
        return fallback_single_segment(&msg);
    }
    let segments = candidate.unwrap();
    let ghost sv = segs_view(segments@);
    stats.commits_split = stats.commits_split.saturating_add(1);
    stats.total_segments_emitted = stats.total_segments_emitted.saturating_add(segments.len());
    let ghost h0 = stats.segments_from_headers;
    let ghost b0 = stats.segments_from_bullets;
    let ghost par0 = stats.segments_from_paragraphs;
    let mut i: usize = 0;
    assert(sv.subrange(0, 0) =~= Seq::<SegmentView>::empty());
    while i < segments.len()
        invariant
            i <= segments.len(),
            sv == segs_view(segments@),
            stats.segments_from_headers == sat_add(h0, mode_count(sv.subrange(0, i as int), ParseMode::ConventionalHeader)),
            stats.segments_from_bullets == sat_add(b0, mode_count(sv.subrange(0, i as int), ParseMode::BulletGrouped)),
            stats.segments_from_paragraphs == sat_add(par0, mode_count(sv.subrange(0, i as int), ParseMode::ParagraphFallback)),
            stats.commits_seen == old(stats).commits_seen.saturating_add(1),
            stats.commits_split == old(stats).commits_split.saturating_add(1),
            stats.total_segments_emitted == old(stats).total_segments_emitted.saturating_add(segments.len()),
            stats.fallback_to_single == old(stats).fallback_to_single,
            h0 == old(stats).segments_from_headers,
            b0 == old(stats).segments_from_bullets,
            par0 == old(stats).segments_from_paragraphs,
        decreases segments.len() - i,
    {
        assert(sv.subrange(0, i + 1).drop_last() =~= sv.subrange(0, i as int));
        match segments[i].parse_mode {
            ParseMode::ConventionalHeader => {
                stats.segments_from_headers = stats.segments_from_headers.saturating_add(1);
            },
            ParseMode::BulletGrouped => {
                stats.segments_from_bullets = stats.segments_from_bullets.saturating_add(1);
            },
            ParseMode::ParagraphFallback => {
                stats.segments_from_paragraphs = stats.segments_from_paragraphs.saturating_add(1);
            },
        }
        i = i + 1;
    }
    assert(sv.subrange(0, segments.len() as int) =~= sv);
    segments
}

/// The name of a split mode.
pub open spec fn mode_name(m: CommitSplitMode) -> Seq<char> {
    match m {
        CommitSplitMode::Off => "off"@,
        CommitSplitMode::Auto => "auto"@,
        CommitSplitMode::Strict => "strict"@,
    }
}

impl CommitSplitMode {
    /// The mode's name: `off`, `auto` or `strict`.
    pub fn as_str(self) -> (r: &'static str)
        ensures
            r@ == mode_name(self),
    {
        match self {
            CommitSplitMode::Off => "off",
            CommitSplitMode::Auto => "auto",
            CommitSplitMode::Strict => "strict",
        }
    }

    /// The mode named `name`, in any letter case; any other name is an
    /// `InvalidConfig` error.
    pub fn parse(name: &str) -> (r: Result<CommitSplitMode, CortexError>)
        ensures
            r matches Ok(m) ==> mode_name(m) == lower_of(name@),
            r is Err <==> (lower_of(name@) != "off"@ && lower_of(name@) != "auto"@ && lower_of(name@) != "strict"@),
            r matches Err(e) ==> e matches CortexError::InvalidConfig(t) && t@ == name@,
    {
        let lower = chars_of(lowercase(name).as_str());
        if chars_equal(&lower, "off") {
            Ok(CommitSplitMode::Off)
        } else if chars_equal(&lower, "auto") {
            Ok(CommitSplitMode::Auto)
        } else if chars_equal(&lower, "strict") {
            Ok(CommitSplitMode::Strict)
        } else {
            Err(CortexError::InvalidConfig(name.to_owned()))
        }
    }
}

impl CommitSplitConfig {
    /// Settings with at least one segment allowed and the least confidence at
    /// most 100 hundredths.
    pub fn new(mode: CommitSplitMode, max_segments: usize, min_confidence: u32) -> (r: Self)
        ensures
            r.mode == mode,
            r.max_segments == if max_segments >= 1 { max_segments } else { 1 },
            r.min_confidence == if min_confidence <= 100 { min_confidence } else { 100 },
    {
        CommitSplitConfig {
            mode,
            max_segments: if max_segments >= 1 { max_segments } else { 1 },
            min_confidence: if min_confidence <= 100 { min_confidence } else { 100 },
        }
    }

    /// Settings from a mode name, as `parse` reads it, and the two bounds, as
    /// `new` adjusts them.
    pub fn from_settings(mode_name: &str, max_segments: usize, min_confidence: u32) -> (r: Result<Self, CortexError>)
        ensures
            r is Ok <==> CommitSplitMode::parse_ok(mode_name@),
            r matches Ok(c) ==> (CommitSplitMode::parse_ok(mode_name@) && mode_name_is(c.mode, mode_name@)
                && c.max_segments == (if max_segments >= 1 { max_segments } else { 1 })
                && c.min_confidence == (if min_confidence <= 100 { min_confidence } else { 100 })),
            r matches Err(e) ==> e matches CortexError::InvalidConfig(t) && t@ == mode_name@,
    {
        match CommitSplitMode::parse(mode_name) {
            Ok(mode) => Ok(CommitSplitConfig::new(mode, max_segments, min_confidence)),
            Err(e) => Err(e),
        }
    }
}

impl CommitSplitMode {
    /// Whether `name` names a mode.
    pub open spec fn parse_ok(name: Seq<char>) -> bool {
        lower_of(name) == "off"@ || lower_of(name) == "auto"@ || lower_of(name) == "strict"@
    }
}

/// Whether `m` is the mode that `name` names.
pub open spec fn mode_name_is(m: CommitSplitMode, name: Seq<char>) -> bool {
    mode_name(m) == lower_of(name)
}

/// The text of a segment: trimmed header, then each non-empty trimmed detail
/// on a line of its own.
pub open spec fn segment_content(header: Seq<char>, details: Seq<Seq<char>>) -> Seq<char> {
    trim(header) + detail_lines(nonempty_trimmed(details))
}

/// Each of `ds` preceded by a newline.
pub open spec fn detail_lines(ds: Seq<Seq<char>>) -> Seq<char>
    decreases ds.len(),
{
    if ds.len() == 0 {
        Seq::empty()
    } else {
        detail_lines(ds.drop_last()) + seq!['\n'] + ds.last()
    }
}

impl CommitSegment {
    /// The segment as one text: header, then the non-empty details, one per line.
    pub fn to_content(&self) -> (r: String)
        ensures
            r@ == segment_content(self.header@, self.details@.map_values(|d: String| d@)),
    {
        let ghost ds = self.details@.map_values(|d: String| d@);
        let mut out = trim_chars(&chars_of(self.header.as_str()));
        let ghost head = out@;
        let mut i: usize = 0;
        assert(ds.subrange(0, 0) =~= Seq::<Seq<char>>::empty());
        assert(out@ =~= head + detail_lines(nonempty_trimmed(ds.subrange(0, 0))));
        while i < self.details.len()
            invariant
                i <= self.details.len(),
                ds == self.details@.map_values(|d: String| d@),
                out@ == head + detail_lines(nonempty_trimmed(ds.subrange(0, i as int))),
            decreases self.details.len() - i,
        {
            assert(ds.subrange(0, i + 1).drop_last() =~= ds.subrange(0, i as int));
            let t = trim_chars(&chars_of(self.details[i].as_str()));
            if t.len() > 0 {
                let ghost before = out@;
                out.push('\n');
                append_chars(&mut out, &t);
                let ghost nt = nonempty_trimmed(ds.subrange(0, i as int));
                assert(nonempty_trimmed(ds.subrange(0, i + 1)) == nt.push(t@));
                assert(nt.push(t@).drop_last() =~= nt);
                assert(out@ =~= head + detail_lines(nt.push(t@)));
            }
            i = i + 1;
        }
        assert(ds.subrange(0, self.details.len() as int) =~= ds);
        string_of(&out)
    }
}

/// With splitting off, every message gives exactly one segment; the empty
/// message gives one segment with an empty header and no details.
pub proof fn lemma_off_gives_one_segment(msg: Seq<char>, cfg: CommitSplitConfig)
    requires
        cfg.mode == CommitSplitMode::Off,
    ensures
        split_message(msg, cfg).len() == 1,
        msg.len() == 0 ==> split_message(msg, cfg)[0].header.len() == 0
            && split_message(msg, cfg)[0].details.len() == 0,
{
    if msg.len() == 0 {
        assert(split_by(msg, seq!['\n']) == seq![Seq::<char>::empty()]);
        assert(lines(msg) =~= Seq::<Seq<char>>::empty());
        assert(trim(msg) =~= Seq::<char>::empty());
    }
}

} // verus!
