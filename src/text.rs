//! Character-level helpers: whitespace, trimming, and splitting text into
//! lines and words, each specified over `Seq<char>`.
use vstd::prelude::*;

verus! {

/// The characters that Unicode lists as `White_Space`; `char::is_whitespace`
/// answers true exactly for these.
pub open spec fn is_space(c: char) -> bool {
    let u = c as u32;
    (0x09 <= u <= 0x0D) || u == 0x20 || u == 0x85 || u == 0xA0 || u == 0x1680
        || (0x2000 <= u <= 0x200A) || u == 0x2028 || u == 0x2029 || u == 0x202F
        || u == 0x205F || u == 0x3000
}

/// Executable whitespace test.
pub fn is_space_char(c: char) -> (r: bool)
    ensures
        r == is_space(c),
{
    let u = c as u32;
    (0x09 <= u && u <= 0x0D) || u == 0x20 || u == 0x85 || u == 0xA0 || u == 0x1680
        || (0x2000 <= u && u <= 0x200A) || u == 0x2028 || u == 0x2029 || u == 0x202F
        || u == 0x205F || u == 0x3000
}

/// Position of the first `c` in `s`, or `s.len()` when there is none.
pub open spec fn idx(s: Seq<char>, c: char) -> int
    decreases s.len(),
{
    if s.len() == 0 {
        0
    } else if s[0] == c {
        0
    } else {
        1 + idx(s.drop_first(), c)
    }
}

pub proof fn lemma_idx_bounds(s: Seq<char>, c: char)
    ensures
        0 <= idx(s, c) <= s.len(),
        idx(s, c) < s.len() ==> s[idx(s, c)] == c,
        forall|k: int| 0 <= k < idx(s, c) ==> s[k] != c,
    decreases s.len(),
{
    if s.len() > 0 && s[0] != c {
        lemma_idx_bounds(s.drop_first(), c);
        assert forall|k: int| 0 <= k < idx(s, c) implies s[k] != c by {
            if k > 0 {
                assert(s[k] == s.drop_first()[k - 1]);
            }
        }
    }
}

/// `idx` is the first position holding `c`.
pub proof fn lemma_idx_char(s: Seq<char>, c: char, j: int)
    requires
        0 <= j <= s.len(),
        j < s.len() ==> s[j] == c,
        forall|k: int| 0 <= k < j ==> s[k] != c,
    ensures
        idx(s, c) == j,
    decreases s.len(),
{
    if s.len() > 0 && s[0] != c {
        assert forall|k: int| 0 <= k < j - 1 implies s.drop_first()[k] != c by {
            assert(s[k + 1] != c);
        }
        lemma_idx_char(s.drop_first(), c, j - 1);
    }
}

/// Finds the first `c` in `s` at or after `from`.
pub fn index_of(s: &Vec<char>, from: usize, c: char) -> (r: usize)
    requires
        from <= s.len(),
    ensures
        r == from + idx(s@.skip(from as int), c),
        from <= r <= s.len(),
{
    let mut i: usize = from;
    while i < s.len() && s[i] != c
        invariant
            from <= i <= s.len(),
            forall|k: int| from <= k < i ==> s@[k] != c,
        decreases s.len() - i,
    {
        i = i + 1;
    }
    proof {
        let t = s@.skip(from as int);
        assert forall|k: int| 0 <= k < i - from implies t[k] != c by {
            assert(t[k] == s@[k + from]);
        }
        lemma_idx_char(t, c, i - from);
    }
    i
}

/// `s` without its leading whitespace.
pub open spec fn trim_start(s: Seq<char>) -> Seq<char>
    decreases s.len(),
{
    if s.len() > 0 && is_space(s[0]) {
        trim_start(s.drop_first())
    } else {
        s
    }
}

/// `s` without its trailing whitespace.
pub open spec fn trim_end(s: Seq<char>) -> Seq<char>
    decreases s.len(),
{
    if s.len() > 0 && is_space(s.last()) {
        trim_end(s.drop_last())
    } else {
        s
    }
}

/// `s` without leading and trailing whitespace, as `str::trim` gives it.
pub open spec fn trim(s: Seq<char>) -> Seq<char> {
    trim_end(trim_start(s))
}

/// Copies `s[from..to]` into a new vector.
pub fn copy_range(s: &Vec<char>, from: usize, to: usize) -> (r: Vec<char>)
    requires
        from <= to <= s.len(),
    ensures
        r@ == s@.subrange(from as int, to as int),
{
    let mut r: Vec<char> = Vec::new();
    let mut i: usize = from;
    while i < to
        invariant
            from <= i <= to <= s.len(),
            r@ == s@.subrange(from as int, i as int),
        decreases to - i,
    {
        r.push(s[i]);
        i = i + 1;
        assert(r@ =~= s@.subrange(from as int, i as int));
    }
    r
}

/// The characters of `s[from..to]` with surrounding whitespace removed.
pub fn trim_range(s: &Vec<char>, from: usize, to: usize) -> (r: Vec<char>)
    requires
        from <= to <= s.len(),
    ensures
        r@ == trim(s@.subrange(from as int, to as int)),
{
    let mut a: usize = from;
    while a < to && is_space_char(s[a])
        invariant
            from <= a <= to <= s.len(),
            trim_start(s@.subrange(from as int, to as int)) == trim_start(
                s@.subrange(a as int, to as int),
            ),
        decreases to - a,
    {
        assert(s@.subrange(a as int, to as int).drop_first() =~= s@.subrange(
            a + 1,
            to as int,
        ));
        a = a + 1;
    }
    let mut b: usize = to;
    while b > a && is_space_char(s[b - 1])
        invariant
            from <= a <= b <= to <= s.len(),
            trim_end(s@.subrange(a as int, to as int)) == trim_end(
                s@.subrange(a as int, b as int),
            ),
        decreases b - a,
    {
        assert(s@.subrange(a as int, b as int).drop_last() =~= s@.subrange(
            a as int,
            b - 1,
        ));
        b = b - 1;
    }
    copy_range(s, a, b)
}

/// The whitespace-separated words of `s`, read one character at a time:
/// a whitespace character ends the current word, any other character
/// extends it or starts a new one.
pub open spec fn words(s: Seq<char>) -> Seq<Seq<char>>
    decreases s.len(),
{
    if s.len() == 0 {
        seq![]
    } else {
        let w = words(s.drop_last());
        let c = s.last();
        if is_space(c) {
            w
        } else if s.len() >= 2 && !is_space(s[s.len() - 2]) {
            w.update(w.len() - 1, w.last().push(c))
        } else {
            w.push(seq![c])
        }
    }
}

/// The views of a vector of character vectors.
pub open spec fn views(v: Seq<Vec<char>>) -> Seq<Seq<char>> {
    v.map_values(|x: Vec<char>| x@)
}

pub proof fn lemma_words_last_nonempty(s: Seq<char>)
    ensures
        s.len() > 0 && !is_space(s.last()) ==> words(s).len() > 0,
    decreases s.len(),
{
    if s.len() > 0 {
        lemma_words_last_nonempty(s.drop_last());
    }
}

/// The whitespace-separated words of `s[from..]`, as `str::split_whitespace`
/// gives them.
pub fn split_words(s: &Vec<char>, from: usize) -> (r: Vec<Vec<char>>)
    requires
        from <= s.len(),
    ensures
        views(r@) == words(s@.skip(from as int)),
{
    let ghost t = s@.skip(from as int);
    let mut out: Vec<Vec<char>> = Vec::new();
    let mut cur: Vec<char> = Vec::new();
    let mut i: usize = from;
    while i < s.len()
        invariant
            from <= i <= s.len(),
            t == s@.skip(from as int),
            words(t.take(i - from)) == if cur.len() > 0 {
                views(out@).push(cur@)
            } else {
                views(out@)
            },
            cur.len() > 0 <==> (i > from && !is_space(s@[i - 1])),
        decreases s.len() - i,
    {
        let c = s[i];
        let ghost pre = t.take(i - from);
        let ghost nxt = t.take(i + 1 - from);
        let ghost vo = views(out@);
        assert(nxt.drop_last() =~= pre);
        assert(nxt.last() == c);
        proof {
            if nxt.len() >= 2 {
                assert(nxt[nxt.len() - 2] == s@[i - 1]);
            }
        }
        if is_space_char(c) {
            if cur.len() > 0 {
                let w = cur;
                cur = Vec::new();
                out.push(w);
                assert(views(out@) =~= vo.push(w@));
            }
        } else {
            let ghost oc = cur@;
            cur.push(c);
            if cur.len() == 1 {
                assert(cur@ =~= seq![c]);
            } else {
                assert(vo.push(cur@) =~= vo.push(oc).update(vo.len() as int, oc.push(c)));
            }
        }
        i = i + 1;
    }
    assert(t.take(i - from) =~= t);
    if cur.len() > 0 {
        let ghost vo = views(out@);
        out.push(cur);
        assert(views(out@) =~= vo.push(cur@));
    }
    out
}

/// The pieces of `s` between its newline characters: one more than there
/// are newlines.
pub open spec fn pieces(s: Seq<char>) -> Seq<Seq<char>>
    decreases s.len(),
{
    if s.len() == 0 {
        seq![seq![]]
    } else {
        let p = pieces(s.drop_last());
        if s.last() == '\n' {
            p.push(seq![])
        } else {
            p.update(p.len() - 1, p.last().push(s.last()))
        }
    }
}

/// A line that a newline ended, without the carriage return before it.
pub open spec fn strip_cr(l: Seq<char>) -> Seq<char> {
    if l.len() > 0 && l.last() == '\r' {
        l.drop_last()
    } else {
        l
    }
}

/// The lines of `s`, as `str::lines` gives them: split at each newline, a
/// carriage return just before a newline dropped, and no empty line after
/// a final newline.
pub open spec fn lines_of(s: Seq<char>) -> Seq<Seq<char>> {
    let p = pieces(s);
    let body = p.drop_last().map_values(|l: Seq<char>| strip_cr(l));
    if p.last().len() == 0 {
        body
    } else {
        body.push(p.last())
    }
}

pub proof fn lemma_pieces_len(s: Seq<char>)
    ensures
        pieces(s).len() >= 1,
    decreases s.len(),
{
    if s.len() > 0 {
        lemma_pieces_len(s.drop_last());
    }
}

/// Splits `s` into its lines.
pub fn split_lines(s: &Vec<char>) -> (r: Vec<Vec<char>>)
    ensures
        views(r@) == lines_of(s@),
{
    let mut out: Vec<Vec<char>> = Vec::new();
    let mut cur: Vec<char> = Vec::new();
    let mut i: usize = 0;
    while i < s.len()
        invariant
            0 <= i <= s.len(),
            pieces(s@.take(i as int)).len() == out.len() + 1,
            forall|k: int|
                0 <= k < out.len() ==> #[trigger] out@[k]@ == strip_cr(
                    pieces(s@.take(i as int))[k],
                ),
            pieces(s@.take(i as int)).last() == cur@,
        decreases s.len() - i,
    {
        let c = s[i];
        let ghost pre = s@.take(i as int);
        let ghost nxt = s@.take(i + 1);
        assert(nxt.drop_last() =~= pre);
        proof {
            lemma_pieces_len(pre);
        }
        if c == '\n' {
            let mut w = cur;
            if w.len() > 0 && w[w.len() - 1] == '\r' {
                let ghost ow = w@;
                w.pop();
                assert(w@ =~= ow.drop_last());
            }
            cur = Vec::new();
            out.push(w);
            assert(cur@ =~= pieces(nxt).last());
        } else {
            let ghost oc = cur@;
            cur.push(c);
            assert(cur@ =~= oc.push(c));
        }
        i = i + 1;
    }
    assert(s@.take(i as int) =~= s@);
    let ghost p = pieces(s@);
    let ghost body = p.drop_last().map_values(|l: Seq<char>| strip_cr(l));
    assert(views(out@) =~= body);
    if cur.len() > 0 {
        out.push(cur);
        assert(views(out@) =~= body.push(p.last()));
    }
    out
}

/// Relies on `str::chars` collected into a `Vec`: the characters of `s`
/// in order.
#[verifier::external_body]
pub(crate) fn chars_of(s: &str) -> (r: Vec<char>)
    ensures
        r@ == s@,
{
    s.chars().collect()
}

/// Relies on `String`'s `FromIterator<char>`: the string made of exactly
/// these characters, in order.
#[verifier::external_body]
pub(crate) fn string_from(cs: &Vec<char>) -> (r: String)
    ensures
        r@ == cs@,
{
    cs.iter().collect()
}

} // verus!
