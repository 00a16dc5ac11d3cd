//! Character-level text utilities shared by the segmenter, the record model and
//! the line filters: whitespace, trimming, splitting into lines, paragraphs and
//! words, and joining.
use vstd::prelude::*;

verus! {

/// Unicode `White_Space`, the set that `char::is_whitespace` tests.
pub open spec fn is_ws(c: char) -> bool {
    let u = c as u32;
    (0x09 <= u && u <= 0x0D) || u == 0x20 || u == 0x85 || u == 0xA0 || u == 0x1680
        || (0x2000 <= u && u <= 0x200A) || u == 0x2028 || u == 0x2029 || u == 0x202F
        || u == 0x205F || u == 0x3000
}

/// Whether `c` is whitespace in the Unicode sense.
pub fn is_whitespace_char(c: char) -> (r: bool)
    ensures
        r == is_ws(c),
{
    let u = c as u32;
    (0x09 <= u && u <= 0x0D) || u == 0x20 || u == 0x85 || u == 0xA0 || u == 0x1680 || (0x2000
        <= u && u <= 0x200A) || u == 0x2028 || u == 0x2029 || u == 0x202F || u == 0x205F || u
        == 0x3000
}

/// `s` without its leading whitespace.
pub open spec fn trim_start(s: Seq<char>) -> Seq<char>
    decreases s.len(),
{
    if s.len() > 0 && is_ws(s[0]) {
        trim_start(s.drop_first())
    } else {
        s
    }
}

/// `s` without its trailing whitespace.
pub open spec fn trim_end(s: Seq<char>) -> Seq<char>
    decreases s.len(),
{
    if s.len() > 0 && is_ws(s.last()) {
        trim_end(s.drop_last())
    } else {
        s
    }
}

/// `s` without leading and trailing whitespace (`str::trim`).
pub open spec fn trim(s: Seq<char>) -> Seq<char> {
    trim_end(trim_start(s))
}

proof fn lemma_trim_start_at(s: Seq<char>, a: int)
    requires
        0 <= a <= s.len(),
        forall|i: int| 0 <= i < a ==> is_ws(#[trigger] s[i]),
        a == s.len() || !is_ws(s[a]),
    ensures
        trim_start(s) == s.subrange(a, s.len() as int),
    decreases a,
{
    if a == 0 {
        assert(s.subrange(0, s.len() as int) =~= s);
    } else {
        let t = s.drop_first();
        assert forall|i: int| 0 <= i < a - 1 implies is_ws(#[trigger] t[i]) by {
            assert(t[i] == s[i + 1]);
        }
        lemma_trim_start_at(t, a - 1);
        assert(t.subrange(a - 1, t.len() as int) =~= s.subrange(a, s.len() as int));
    }
}

proof fn lemma_trim_end_at(s: Seq<char>, b: int)
    requires
        0 <= b <= s.len(),
        forall|i: int| b <= i < s.len() ==> is_ws(#[trigger] s[i]),
        b == 0 || !is_ws(s[b - 1]),
    ensures
        trim_end(s) == s.subrange(0, b),
    decreases s.len() - b,
{
    if b == s.len() {
        assert(s.subrange(0, b) =~= s);
    } else {
        let t = s.drop_last();
        assert forall|i: int| b <= i < t.len() implies is_ws(#[trigger] t[i]) by {
            assert(t[i] == s[i]);
        }
        lemma_trim_end_at(t, b);
        assert(t.subrange(0, b) =~= s.subrange(0, b));
    }
}

/// Relies on `str::chars`, collected into a `Vec`: the characters of `s`, in
/// order.
#[verifier::external_body]
pub(crate) fn chars_of(s: &str) -> (r: Vec<char>)
    ensures
        r@ == s@,
{
    s.chars().collect()
}

/// Relies on `String`'s `FromIterator<&char>`: a string holding the characters
/// of `v`, in order.
#[verifier::external_body]
pub(crate) fn string_of(v: &Vec<char>) -> (r: String)
    ensures
        r@ == v@,
{
    v.iter().collect()
}

/// Copy of `s[from..to]`.
pub fn slice_chars(s: &Vec<char>, from: usize, to: usize) -> (r: Vec<char>)
    requires
        from <= to <= s.len(),
    ensures
        r@ == s@.subrange(from as int, to as int),
{
    let mut r: Vec<char> = Vec::new();
    let mut i: usize = from;
    while i < to
        invariant
            from <= i <= to <= s.len(),
            r@ == s@.subrange(from as int, i as int),
        decreases to - i,
    {
        r.push(s[i]);
        assert(r@ =~= s@.subrange(from as int, i + 1));
        i = i + 1;
    }
    r
}

/// `s` without leading and trailing whitespace.
pub fn trim_chars(s: &Vec<char>) -> (r: Vec<char>)
    ensures
        r@ == trim(s@),
{
    let mut a: usize = 0;
    while a < s.len() && is_whitespace_char(s[a])
        invariant
            a <= s.len(),
            forall|i: int| 0 <= i < a ==> is_ws(#[trigger] s@[i]),
        decreases s.len() - a,
    {
        a = a + 1;
    }
    proof {
        lemma_trim_start_at(s@, a as int);
    }
    let ghost t = s@.subrange(a as int, s@.len() as int);
    let mut b: usize = s.len();
    while b > a && is_whitespace_char(s[b - 1])
        invariant
            a <= b <= s.len(),
            t == s@.subrange(a as int, s@.len() as int),
            forall|i: int| b <= i < s.len() ==> is_ws(#[trigger] s@[i]),
        decreases b,
    {
        b = b - 1;
    }
    proof {
        assert forall|i: int| b - a <= i < t.len() implies is_ws(#[trigger] t[i]) by {
            assert(t[i] == s@[i + a]);
        }
        if b > a {
            assert(t[b - a - 1] == s@[b - 1]);
        }
        lemma_trim_end_at(t, b - a);
        assert(t.subrange(0, b - a) =~= s@.subrange(a as int, b as int));
    }
    slice_chars(s, a, b)
}


/// `p` with `pre` put in front of its first piece.
pub open spec fn glue(pre: Seq<char>, p: Seq<Seq<char>>) -> Seq<Seq<char>>
    recommends
        p.len() > 0,
{
    p.update(0, pre + p[0])
}

/// Whether `s` starts with `sep`.
pub open spec fn starts_with(s: Seq<char>, sep: Seq<char>) -> bool {
    sep.len() <= s.len() && s.subrange(0, sep.len() as int) == sep
}

/// The pieces of `s` between the occurrences of `sep`, found left to right
/// without overlap (`str::split` with a non-empty string pattern).
pub open spec fn split_by(s: Seq<char>, sep: Seq<char>) -> Seq<Seq<char>>
    decreases s.len(),
{
    if s.len() == 0 {
        seq![Seq::<char>::empty()]
    } else if sep.len() > 0 && starts_with(s, sep) {
        seq![Seq::<char>::empty()] + split_by(s.subrange(sep.len() as int, s.len() as int), sep)
    } else {
        glue(seq![s[0]], split_by(s.drop_first(), sep))
    }
}

proof fn lemma_split_by_nonempty(s: Seq<char>, sep: Seq<char>)
    ensures
        split_by(s, sep).len() > 0,
    decreases s.len(),
{
    if s.len() > 0 && !(sep.len() > 0 && starts_with(s, sep)) {
        lemma_split_by_nonempty(s.drop_first(), sep);
    }
}

/// The lines of `s` (`str::lines`): pieces between `'\n'`, without a last empty
/// piece. A `'\r'` before the `'\n'` stays on the line; every use of a line here
/// trims it, which removes that `'\r'` too.
pub open spec fn lines(s: Seq<char>) -> Seq<Seq<char>> {
    let p = split_by(s, seq!['\n']);
    if p.len() > 0 && p.last().len() == 0 {
        p.drop_last()
    } else {
        p
    }
}

/// The pieces of `s` between occurrences of the non-empty `sep`.
pub fn split_chars(s: &Vec<char>, sep: &Vec<char>) -> (r: Vec<Vec<char>>)
    requires
        sep.len() > 0,
    ensures
        r@.map_values(|v: Vec<char>| v@) == split_by(s@, sep@),
{
    let mut pieces: Vec<Vec<char>> = Vec::new();
    let mut cur: Vec<char> = Vec::new();
    let mut i: usize = 0;
    let n = s.len();
    let k = sep.len();
    proof {
        lemma_split_by_nonempty(s@, sep@);
        assert(s@.subrange(0, n as int) =~= s@);
        assert(glue(Seq::empty(), split_by(s@, sep@)) =~= split_by(s@, sep@));
    }
    while i < n
        invariant
            i <= n == s.len(),
            k == sep.len() > 0,
            split_by(s@, sep@) == pieces@.map_values(|v: Vec<char>| v@) + glue(
                cur@,
                split_by(s@.subrange(i as int, n as int), sep@),
            ),
        decreases n - i,
    {
        let ghost rest = s@.subrange(i as int, n as int);
        let mut matched = k <= n - i;
        let mut j: usize = 0;
        while matched && j < k
            invariant
                j <= k == sep.len(),
                i < n == s.len(),
                matched ==> i + k <= n,
                matched ==> forall|t: int| 0 <= t < j ==> s@[i + t] == sep@[t],
                !matched ==> (i + k > n || exists|t: int| 0 <= t < j && s@[i + t] != sep@[t]),
            decreases k - j,
        {
            if s[i + j] != sep[j] {
                matched = false;
            }
            j = j + 1;
        }
        proof {
            lemma_split_by_nonempty(rest, sep@);
            if matched {
                assert(rest.subrange(0, k as int) =~= sep@);
            } else if k <= rest.len() {
                if rest.subrange(0, k as int) == sep@ {
                    assert forall|t: int| 0 <= t < k implies s@[i + t] == sep@[t] by {
                        assert(rest.subrange(0, k as int)[t] == rest[t]);
                    }
                }
            }
        }
        if matched {
            let ghost old_pieces = pieces@.map_values(|v: Vec<char>| v@);
            let ghost tail = split_by(s@.subrange((i + k) as int, n as int), sep@);
            assert(rest.subrange(k as int, rest.len() as int) =~= s@.subrange((i + k) as int, n as int));
            proof {
                lemma_split_by_nonempty(s@.subrange((i + k) as int, n as int), sep@);
            }
            let ghost old_cur = cur@;
            proof {
                assert(split_by(rest, sep@) == seq![Seq::<char>::empty()] + tail);
                assert(glue(old_cur, seq![Seq::<char>::empty()] + tail) =~= seq![old_cur] + tail);
                assert(old_pieces + (seq![old_cur] + tail) =~= old_pieces.push(old_cur) + tail);
            }
            pieces.push(cur);
            cur = Vec::new();
            i = i + k;
            proof {
                assert(pieces@.map_values(|v: Vec<char>| v@) =~= old_pieces.push(old_cur));
                assert(glue(Seq::empty(), tail) =~= tail);
            }
        } else {
            let ghost tail = split_by(s@.subrange((i + 1) as int, n as int), sep@);
            assert(rest.drop_first() =~= s@.subrange((i + 1) as int, n as int));
            proof {
                lemma_split_by_nonempty(s@.subrange((i + 1) as int, n as int), sep@);
            }
            let ghost old_cur = cur@;
            cur.push(s[i]);
            i = i + 1;
            proof {
                assert(old_cur + (seq![s@[i - 1]] + tail[0]) =~= cur@ + tail[0]);
                assert(glue(old_cur, glue(seq![s@[i - 1]], tail)) =~= glue(cur@, tail));
            }
        }
    }
    proof {
        assert(s@.subrange(n as int, n as int) =~= Seq::<char>::empty());
        assert(glue(cur@, seq![Seq::<char>::empty()]) =~= seq![cur@]);
    }
    let ghost old_pieces = pieces@.map_values(|v: Vec<char>| v@);
    pieces.push(cur);
    assert(pieces@.map_values(|v: Vec<char>| v@) =~= old_pieces.push(pieces@[pieces@.len() - 1]@));
    pieces
}

/// The lines of `s`.
pub fn lines_of(s: &Vec<char>) -> (r: Vec<Vec<char>>)
    ensures
        r@.map_values(|v: Vec<char>| v@) == lines(s@),
{
    let mut sep: Vec<char> = Vec::new();
    sep.push('\n');
    assert(sep@ =~= seq!['\n']);
    let mut p = split_chars(s, &sep);
    let ghost pv = p@.map_values(|v: Vec<char>| v@);
    if p.len() > 0 && p[p.len() - 1].len() == 0 {
        p.pop();
        assert(p@.map_values(|v: Vec<char>| v@) =~= pv.drop_last());
    }
    p
}


/// The maximal runs of non-whitespace characters of `s` (`str::split_whitespace`).
pub open spec fn words(s: Seq<char>) -> Seq<Seq<char>>
    decreases s.len(),
{
    if s.len() == 0 {
        Seq::empty()
    } else {
        let w = words(s.drop_last());
        if is_ws(s.last()) {
            w
        } else if s.len() >= 2 && !is_ws(s[s.len() - 2]) {
            w.update(w.len() - 1, w.last().push(s.last()))
        } else {
            w.push(seq![s.last()])
        }
    }
}

proof fn lemma_words_nonempty(s: Seq<char>)
    requires
        s.len() > 0,
        !is_ws(s.last()),
    ensures
        words(s).len() > 0,
    decreases s.len(),
{
    if s.len() >= 2 && !is_ws(s[s.len() - 2]) {
        lemma_words_nonempty(s.drop_last());
    }
}

/// The pieces of `ws` with `sep` between each two (`join`).
pub open spec fn join_with(ws: Seq<Seq<char>>, sep: char) -> Seq<char>
    decreases ws.len(),
{
    if ws.len() == 0 {
        Seq::empty()
    } else if ws.len() == 1 {
        ws[0]
    } else {
        join_with(ws.drop_last(), sep) + seq![sep] + ws.last()
    }
}

/// The words of `s` joined by single spaces: `s` with each run of whitespace
/// made one space and the ends trimmed.
pub open spec fn collapse_ws(s: Seq<char>) -> Seq<char> {
    join_with(words(s), ' ')
}

/// Number of words of `s` and the whitespace-collapsed form of `s`.
pub fn collapse_whitespace(s: &Vec<char>) -> (r: (usize, Vec<char>))
    ensures
        r.0 == words(s@).len(),
        r.1@ == collapse_ws(s@),
{
    let mut out: Vec<char> = Vec::new();
    let mut count: usize = 0;
    let mut i: usize = 0;
    assert(s@.subrange(0, 0) =~= Seq::<char>::empty());
    while i < s.len()
        invariant
            i <= s.len(),
            count == words(s@.subrange(0, i as int)).len(),
            out@ == join_with(words(s@.subrange(0, i as int)), ' '),
            count <= i,
        decreases s.len() - i,
    {
        let c = s[i];
        let ghost pre = s@.subrange(0, i as int);
        let ghost next = s@.subrange(0, i + 1);
        assert(next.drop_last() =~= pre);
        let ghost w = words(pre);
        if !is_whitespace_char(c) {
            if i > 0 && !is_whitespace_char(s[i - 1]) {
                proof {
                    assert(pre.last() == s@[i - 1]);
                    lemma_words_nonempty(pre);
                    let nw = w.update(w.len() - 1, w.last().push(c));
                    assert(nw.drop_last() =~= w.drop_last());
                    if w.len() == 1 {
                        assert(join_with(nw, ' ') == nw[0]);
                    } else {
                        assert(join_with(nw, ' ') == join_with(w.drop_last(), ' ') + seq![' '] + nw.last());
                    }
                    assert(join_with(nw, ' ') =~= join_with(w, ' ').push(c));
                }
                out.push(c);
            } else {
                proof {
                    let nw = w.push(seq![c]);
                    assert(nw.drop_last() =~= w);
                }
                if count > 0 {
                    out.push(' ');
                }
                out.push(c);
                count = count + 1;
                proof {
                    let nw = w.push(seq![c]);
                    if w.len() == 0 {
                        assert(join_with(nw, ' ') == nw[0]);
                        assert(out@ =~= seq![c]);
                    } else {
                        assert(join_with(nw, ' ') =~= join_with(w, ' ') + seq![' '] + seq![c]);
                    }
                }
            }
        }
        i = i + 1;
    }
    assert(s@.subrange(0, s.len() as int) =~= s@);
    (count, out)
}

/// The trimmed forms of the pieces of `ls` that are not empty once trimmed, in order.
pub open spec fn nonempty_trimmed(ls: Seq<Seq<char>>) -> Seq<Seq<char>>
    decreases ls.len(),
{
    if ls.len() == 0 {
        Seq::empty()
    } else {
        let r = nonempty_trimmed(ls.drop_last());
        let t = trim(ls.last());
        if t.len() > 0 {
            r.push(t)
        } else {
            r
        }
    }
}

/// The pieces of `ls[from..to]` that are not empty once trimmed, trimmed.
pub fn nonempty_trimmed_range(ls: &Vec<Vec<char>>, from: usize, to: usize) -> (r: Vec<Vec<char>>)
    requires
        from <= to <= ls.len(),
    ensures
        r@.map_values(|v: Vec<char>| v@) == nonempty_trimmed(
            ls@.map_values(|v: Vec<char>| v@).subrange(from as int, to as int),
        ),
{
    let ghost lv = ls@.map_values(|v: Vec<char>| v@);
    let mut r: Vec<Vec<char>> = Vec::new();
    let mut i: usize = from;
    assert(lv.subrange(from as int, from as int) =~= Seq::<Seq<char>>::empty());
    while i < to
        invariant
            from <= i <= to <= ls.len(),
            lv == ls@.map_values(|v: Vec<char>| v@),
            r@.map_values(|v: Vec<char>| v@) == nonempty_trimmed(lv.subrange(from as int, i as int)),
        decreases to - i,
    {
        let ghost before = r@.map_values(|v: Vec<char>| v@);
        assert(lv.subrange(from as int, i + 1).drop_last() =~= lv.subrange(from as int, i as int));
        let t = trim_chars(&ls[i]);
        if t.len() > 0 {
            r.push(t);
            assert(r@.map_values(|v: Vec<char>| v@) =~= before.push(t@));
        }
        i = i + 1;
    }
    r
}

/// Number of bytes that `c` takes in UTF-8.
pub open spec fn utf8_width(c: char) -> nat {
    let u = c as u32;
    if u < 0x80 {
        1
    } else if u < 0x800 {
        2
    } else if u < 0x10000 {
        3
    } else {
        4
    }
}

/// Number of bytes that `s` takes in UTF-8 (`str::len`).
pub open spec fn utf8_len(s: Seq<char>) -> nat
    decreases s.len(),
{
    if s.len() == 0 {
        0
    } else {
        utf8_len(s.drop_last()) + utf8_width(s.last())
    }
}

/// Number of bytes that `s` takes in UTF-8, or the largest `usize` if more.
pub fn utf8_len_saturating(s: &Vec<char>) -> (r: usize)
    ensures
        r == if utf8_len(s@) <= usize::MAX { utf8_len(s@) as int } else { usize::MAX as int },
{
    let mut total: usize = 0;
    let mut i: usize = 0;
    assert(s@.subrange(0, 0) =~= Seq::<char>::empty());
    while i < s.len()
        invariant
            i <= s.len(),
            total == utf8_len(s@.subrange(0, i as int)),
        decreases s.len() - i,
    {
        assert(s@.subrange(0, i + 1).drop_last() =~= s@.subrange(0, i as int));
        let u = s[i] as u32;
        let w: usize = if u < 0x80 {
            1
        } else if u < 0x800 {
            2
        } else if u < 0x10000 {
            3
        } else {
            4
        };
        i = i + 1;
        if w > usize::MAX - total {
            proof {
                lemma_utf8_len_prefix_mono(s@, i as int);
            }
            return usize::MAX;
        }
        total = total + w;
    }
    assert(s@.subrange(0, s.len() as int) =~= s@);
    total
}

/// Whether `s` takes at least `n` bytes in UTF-8.
pub fn utf8_len_at_least(s: &Vec<char>, n: usize) -> (r: bool)
    ensures
        r == (utf8_len(s@) >= n),
{
    if n == 0 {
        return true;
    }
    let mut total: usize = 0;
    let mut i: usize = 0;
    assert(s@.subrange(0, 0) =~= Seq::<char>::empty());
    while i < s.len()
        invariant
            i <= s.len(),
            total == utf8_len(s@.subrange(0, i as int)),
            total < n,
        decreases s.len() - i,
    {
        assert(s@.subrange(0, i + 1).drop_last() =~= s@.subrange(0, i as int));
        let u = s[i] as u32;
        let w: usize = if u < 0x80 {
            1
        } else if u < 0x800 {
            2
        } else if u < 0x10000 {
            3
        } else {
            4
        };
        i = i + 1;
        if w >= n - total {
            proof {
                lemma_utf8_len_prefix_mono(s@, i as int);
            }
            return true;
        }
        total = total + w;
    }
    assert(s@.subrange(0, s.len() as int) =~= s@);
    false
}

proof fn lemma_utf8_len_prefix_mono(s: Seq<char>, i: int)
    requires
        0 <= i <= s.len(),
    ensures
        utf8_len(s.subrange(0, i)) <= utf8_len(s),
    decreases s.len() - i,
{
    if i < s.len() {
        lemma_utf8_len_prefix_mono(s, i + 1);
        assert(s.subrange(0, i + 1).drop_last() =~= s.subrange(0, i));
    } else {
        assert(s.subrange(0, i) =~= s);
    }
}


/// What `str::to_lowercase` returns for `s`.
pub uninterp spec fn lower_of(s: Seq<char>) -> Seq<char>;

/// Relies on `str::to_lowercase`: the lowercase form of `s`, which depends on
/// its characters alone.
#[verifier::external_body]
pub(crate) fn lowercase(s: &str) -> (r: String)
    ensures
        r@ == lower_of(s@),
{
    s.to_lowercase()
}

/// Whether `a` holds exactly the characters of `b`.
pub fn chars_equal(a: &Vec<char>, b: &str) -> (r: bool)
    ensures
        r == (a@ == b@),
{
    let n = b.unicode_len();
    if a.len() != n {
        return false;
    }
    let mut i: usize = 0;
    while i < n
        invariant
            i <= n == a.len() == b@.len(),
            forall|j: int| 0 <= j < i ==> a@[j] == b@[j],
        decreases n - i,
    {
        if a[i] != b.get_char(i) {
            return false;
        }
        i = i + 1;
    }
    assert(a@ =~= b@);
    true
}

/// Appends the characters of `s` to `out`.
pub fn append_chars(out: &mut Vec<char>, s: &Vec<char>)
    ensures
        final(out)@ == old(out)@ + s@,
{
    let ghost start = out@;
    let mut i: usize = 0;
    while i < s.len()
        invariant
            i <= s.len(),
            out@ == start + s@.subrange(0, i as int),
        decreases s.len() - i,
    {
        out.push(s[i]);
        assert(out@ =~= start + s@.subrange(0, i + 1));
        i = i + 1;
    }
    assert(s@.subrange(0, s.len() as int) =~= s@);
}

} // verus!
