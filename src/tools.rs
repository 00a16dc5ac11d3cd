//! Helpers of the read-only query tools: bounds on list sizes, compact
//! one-line snippets for table cells, and finding the note of a turn.
use vstd::prelude::*;
use crate::text::{chars_of, string_of};

verus! {

/// Input of the note inspection tool.
#[derive(Debug, Clone)]
pub struct InspectNoteInput {
    /// Path of a snapshot file.
    pub smg_path: String,
    /// Note to inspect.
    pub note_id: u32,
    /// Related notes to include (default 10, at most 25).
    pub links_k: Option<usize>,
    /// Characters per snippet (default 140, within 40 to 300).
    pub snippet_chars: Option<usize>,
}

/// Input of the long-range link listing tool.
#[derive(Debug, Clone)]
pub struct LongRangeLinksInput {
    /// Path of a snapshot file.
    pub smg_path: String,
    /// Links to include (default 20, at most 100).
    pub top_k: Option<usize>,
}

/// Input of the graph summary tool.
#[derive(Debug, Clone)]
pub struct GraphSummaryInput {
    /// Path of a snapshot file.
    pub smg_path: String,
}

/// Default number of snippet characters.
pub const DEFAULT_SNIPPET_CHARS: usize = 140;

/// Fewest snippet characters.
pub const MIN_SNIPPET_CHARS: usize = 40;

/// Most snippet characters.
pub const MAX_SNIPPET_CHARS: usize = 300;

/// A requested count, or `default_k` when none is given, clamped into
/// `[1, max_k]`.
pub fn clamp_top_k(top_k: Option<usize>, default_k: usize, max_k: usize) -> (r: usize)
    requires
        max_k >= 1,
    ensures
        ({
            let v = match top_k {
                Some(k) => k,
                None => default_k,
            };
            r == if v < 1 { 1 } else if v > max_k { max_k } else { v }
        }),
{
    let v = match top_k {
        Some(k) => k,
        None => default_k,
    };
    if v < 1 {
        1
    } else if v > max_k {
        max_k
    } else {
        v
    }
}

/// A requested snippet width, or the default, clamped into `[40, 300]`.
pub fn snippet_width(requested: Option<usize>) -> (r: usize)
    ensures
        ({
            let v = match requested {
                Some(k) => k,
                None => DEFAULT_SNIPPET_CHARS,
            };
            r == if v < MIN_SNIPPET_CHARS { MIN_SNIPPET_CHARS } else if v > MAX_SNIPPET_CHARS { MAX_SNIPPET_CHARS } else { v }
        }),
{
    let v = match requested {
        Some(k) => k,
        None => DEFAULT_SNIPPET_CHARS,
    };
    if v < MIN_SNIPPET_CHARS {
        MIN_SNIPPET_CHARS
    } else if v > MAX_SNIPPET_CHARS {
        MAX_SNIPPET_CHARS
    } else {
        v
    }
}

/// `s` with each pair of spaces, found left to right without overlap, made one.
pub open spec fn halve_double_spaces(s: Seq<char>) -> Seq<char>
    decreases s.len(),
{
    if s.len() == 0 {
        Seq::empty()
    } else if s.len() >= 2 && s[0] == ' ' && s[1] == ' ' {
        seq![' '] + halve_double_spaces(s.subrange(2, s.len() as int))
    } else {
        seq![s[0]] + halve_double_spaces(s.drop_first())
    }
}

/// `s` with newlines made spaces.
pub open spec fn newlines_to_spaces(s: Seq<char>) -> Seq<char> {
    s.map_values(|c: char| if c == '\n' { ' ' } else { c })
}

/// `text` on one line, cut to `max_chars` characters with `…` after a cut.
pub open spec fn snippet_of(text: Seq<char>, max_chars: nat) -> Seq<char> {
    let single = halve_double_spaces(newlines_to_spaces(text));
    if single.len() <= max_chars {
        single
    } else {
        single.take(max_chars as int).push('…')
    }
}

/// `text` on one line and at most `max_chars` characters long, with `…` after
/// a cut.
pub fn compact_snippet(text: &str, max_chars: usize) -> (r: String)
    ensures
        r@ == snippet_of(text@, max_chars as nat),
{
    let src = chars_of(text);
    let n = src.len();
    let mut flat: Vec<char> = Vec::new();
    let mut i: usize = 0;
    while i < n
        invariant
            i <= n == src.len(),
            flat@ == newlines_to_spaces(src@).subrange(0, i as int),
        decreases n - i,
    {
        let c = src[i];
        flat.push(if c == '\n' { ' ' } else { c });
        assert(flat@ =~= newlines_to_spaces(src@).subrange(0, i + 1));
        i = i + 1;
    }
    assert(newlines_to_spaces(src@).subrange(0, n as int) =~= newlines_to_spaces(src@));
    let mut single: Vec<char> = Vec::new();
    let mut j: usize = 0;
    assert(flat@.subrange(0, n as int) =~= flat@);
    while j < n
        invariant
            j <= n == flat.len(),
            single@ + halve_double_spaces(flat@.subrange(j as int, n as int)) == halve_double_spaces(flat@),
        decreases n - j,
    {
        let ghost rest = flat@.subrange(j as int, n as int);
        if j + 1 < n && flat[j] == ' ' && flat[j + 1] == ' ' {
            assert(rest.subrange(2, rest.len() as int) =~= flat@.subrange(j + 2, n as int));
            let ghost before = single@;
            single.push(' ');
            assert(before + (seq![' '] + halve_double_spaces(flat@.subrange(j + 2, n as int))) =~= single@ + halve_double_spaces(flat@.subrange(j + 2, n as int)));
            j = j + 2;
        } else {
            assert(rest.drop_first() =~= flat@.subrange(j + 1, n as int));
            let ghost before = single@;
            single.push(flat[j]);
            assert(before + (seq![flat@[j as int]] + halve_double_spaces(flat@.subrange(j + 1, n as int))) =~= single@ + halve_double_spaces(flat@.subrange(j + 1, n as int)));
            j = j + 1;
        }
    }
    assert(flat@.subrange(n as int, n as int) =~= Seq::<char>::empty());
    assert(single@ + Seq::<char>::empty() =~= single@);
    if single.len() <= max_chars {
        return string_of(&single);
    }
    let mut cut: Vec<char> = Vec::new();
    let mut k: usize = 0;
    while k < max_chars
        invariant
            k <= max_chars < single.len(),
            cut@ == single@.take(k as int),
        decreases max_chars - k,
    {
        cut.push(single[k]);
        assert(cut@ =~= single@.take(k + 1));
        k = k + 1;
    }
    cut.push('…');
    string_of(&cut)
}

/// `s` with each `|` written `\|`, so it can stand in a table cell.
pub open spec fn escape_pipes_spec(s: Seq<char>) -> Seq<char>
    decreases s.len(),
{
    if s.len() == 0 {
        Seq::empty()
    } else if s.last() == '|' {
        escape_pipes_spec(s.drop_last()) + seq!['\\', '|']
    } else {
        escape_pipes_spec(s.drop_last()).push(s.last())
    }
}

/// `s` with each `|` escaped for a table cell.
pub fn escape_pipes(s: &str) -> (r: String)
    ensures
        r@ == escape_pipes_spec(s@),
{
    let v = chars_of(s);
    let mut out: Vec<char> = Vec::new();
    let mut i: usize = 0;
    assert(v@.subrange(0, 0) =~= Seq::<char>::empty());
    while i < v.len()
        invariant
            i <= v.len(),
            out@ == escape_pipes_spec(v@.subrange(0, i as int)),
        decreases v.len() - i,
    {
        assert(v@.subrange(0, i + 1).drop_last() =~= v@.subrange(0, i as int));
        if v[i] == '|' {
            out.push('\\');
            out.push('|');
            assert(out@ =~= escape_pipes_spec(v@.subrange(0, i as int)) + seq!['\\', '|']);
        } else {
            out.push(v[i]);
        }
        i = i + 1;
    }
    assert(v@.subrange(0, v.len() as int) =~= v@);
    string_of(&out)
}

/// The id of the first of `notes` whose turns include `turn_id`.
pub fn find_note_by_turn_id(notes: &Vec<(u32, Vec<u64>)>, turn_id: u64) -> (r: Option<u32>)
    ensures
        match r {
            Some(id) => exists|i: int|
                0 <= i < notes.len() && notes@[i].0 == id && notes@[i].1@.contains(turn_id) && forall|j: int|
                    0 <= j < i ==> !(#[trigger] notes@[j].1@).contains(turn_id),
            None => forall|i: int| 0 <= i < notes.len() ==> !(#[trigger] notes@[i].1@).contains(turn_id),
        },
{
    let mut i: usize = 0;
    while i < notes.len()
        invariant
            i <= notes.len(),
            forall|j: int| 0 <= j < i ==> !(#[trigger] notes@[j].1@).contains(turn_id),
        decreases notes.len() - i,
    {
        let turns = &notes[i].1;
        let mut k: usize = 0;
        while k < turns.len()
            invariant
                k <= turns.len(),
                i < notes.len(),
                turns@ == notes@[i as int].1@,
                forall|j: int| 0 <= j < i ==> !(#[trigger] notes@[j].1@).contains(turn_id),
                forall|m: int| 0 <= m < k ==> turns@[m] != turn_id,
            decreases turns.len() - k,
        {
            if turns[k] == turn_id {
                assert(notes@[i as int].1@.contains(turn_id)) by {
                    assert(turns@[k as int] == turn_id);
                }
                return Some(notes[i].0);
            }
            k = k + 1;
        }
        assert(!notes@[i as int].1@.contains(turn_id)) by {
            if notes@[i as int].1@.contains(turn_id) {
                let m = choose|m: int| 0 <= m < turns@.len() && turns@[m] == turn_id;
                assert(turns@[m] != turn_id);
            }
        }
        i = i + 1;
    }
    None
}

} // verus!
