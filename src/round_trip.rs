//! Writing a parsed makefile back as text and parsing that text again gives
//! the same model.
use vstd::prelude::*;
use crate::laws::{all_lack, lacks};
use crate::parse::{
    clean, keep_line, parse, starts_tab, strip_comment, tab_run, target_of, targets_from,
    TargetView,
};
use crate::render::{all_lines, cmd_line, dep_text, header_line, join_lines, render, target_lines};
use crate::text::{
    idx, is_space, lemma_idx_bounds, lemma_idx_char, lemma_pieces_len, lines_of, pieces, strip_cr,
    trim, trim_end, trim_start, words,
};

verus! {

/// `s` is empty or neither starts nor ends with whitespace.
pub open spec fn edges_ok(s: Seq<char>) -> bool {
    s.len() == 0 || (!is_space(s[0]) && !is_space(s.last()))
}

/// A dependency as parsing gives it: non-empty, with no whitespace and no
/// `#`.
pub open spec fn word_ok(d: Seq<char>) -> bool {
    d.len() > 0 && forall|p: int| 0 <= p < d.len() ==> !is_space(#[trigger] d[p]) && d[p] != '#'
}

/// A command as parsing gives it: trimmed, on one line, without `#`.
pub open spec fn cmd_ok(c: Seq<char>) -> bool {
    edges_ok(c) && lacks(c, '#') && lacks(c, '\n')
}

/// A target as parsing gives it.
pub open spec fn target_ok(t: TargetView) -> bool {
    &&& edges_ok(t.name)
    &&& lacks(t.name, ':')
    &&& lacks(t.name, '#')
    &&& lacks(t.name, '\n')
    &&& forall|k: int| 0 <= k < t.dependencies.len() ==> word_ok(#[trigger] t.dependencies[k])
    &&& forall|k: int| 0 <= k < t.commands.len() ==> cmd_ok(#[trigger] t.commands[k])
}

/// Every target is as parsing gives it.
pub open spec fn canonical(ts: Seq<TargetView>) -> bool {
    forall|i: int| 0 <= i < ts.len() ==> target_ok(#[trigger] ts[i])
}

proof fn lemma_pieces_one(l: Seq<char>)
    requires
        lacks(l, '\n'),
    ensures
        pieces(l) == seq![l],
    decreases l.len(),
{
    if l.len() > 0 {
        let p = l.drop_last();
        assert(lacks(p, '\n')) by {
            assert forall|i: int| 0 <= i < p.len() implies p[i] != '\n' by {
                assert(p[i] == l[i]);
            }
        }
        lemma_pieces_one(p);
        assert(l.last() == l[l.len() - 1]);
        assert(p.push(l.last()) =~= l);
        assert(seq![p].update(0, p.push(l.last())) =~= seq![l]);
    } else {
        assert(l =~= Seq::<char>::empty());
    }
}

proof fn lemma_pieces_after_break(a: Seq<char>, b: Seq<char>)
    requires
        pieces(a).last().len() == 0,
    ensures
        pieces(a + b) == pieces(a).drop_last() + pieces(b),
    decreases b.len(),
{
    lemma_pieces_len(a);
    if b.len() == 0 {
        assert(a + b =~= a);
        assert(pieces(a).last() =~= Seq::<char>::empty());
        assert(pieces(a).drop_last() + pieces(b) =~= pieces(a));
    } else {
        let b1 = b.drop_last();
        lemma_pieces_after_break(a, b1);
        lemma_pieces_len(b1);
        assert((a + b).drop_last() =~= a + b1);
        assert((a + b).last() == b.last());
        let pa = pieces(a).drop_last();
        if b.last() == '\n' {
            assert((pa + pieces(b1)).push(seq![]) =~= pa + pieces(b1).push(seq![]));
        } else {
            let q = pieces(b1);
            assert((pa + q).update(
                (pa + q).len() - 1,
                (pa + q).last().push(b.last()),
            ) =~= pa + q.update(q.len() - 1, q.last().push(b.last())));
        }
    }
}

proof fn lemma_pieces_join(ls: Seq<Seq<char>>)
    requires
        all_lack(ls, '\n'),
    ensures
        pieces(join_lines(ls)) == ls.push(seq![]),
    decreases ls.len(),
{
    if ls.len() == 0 {
        assert(pieces(Seq::<char>::empty()) == seq![Seq::<char>::empty()]);
        assert(ls.push(seq![]) =~= seq![Seq::<char>::empty()]);
    } else {
        let rest = ls.drop_first();
        assert(all_lack(rest, '\n')) by {
            assert forall|k: int| 0 <= k < rest.len() implies lacks(#[trigger] rest[k], '\n') by {
                assert(rest[k] == ls[k + 1]);
            }
        }
        lemma_pieces_join(rest);
        let l = ls[0];
        assert(lacks(l, '\n'));
        lemma_pieces_one(l);
        let a = l.push('\n');
        assert(a.drop_last() =~= l);
        assert(pieces(a) == seq![l].push(seq![]));
        lemma_pieces_after_break(a, join_lines(rest));
        assert(pieces(a).drop_last() =~= seq![l]);
        assert(seq![l] + rest.push(seq![]) =~= ls.push(seq![]));
    }
}

proof fn lemma_lines_of_join(ls: Seq<Seq<char>>)
    requires
        all_lack(ls, '\n'),
        forall|k: int| 0 <= k < ls.len() ==> strip_cr(#[trigger] ls[k]) == ls[k],
    ensures
        lines_of(join_lines(ls)) == ls,
{
    lemma_pieces_join(ls);
    let p = pieces(join_lines(ls));
    assert(p.drop_last() =~= ls);
    assert(p.drop_last().map_values(|l: Seq<char>| strip_cr(l)) =~= ls);
}

proof fn lemma_clean_same(ls: Seq<Seq<char>>)
    requires
        forall|k: int| 0 <= k < ls.len() ==> keep_line(#[trigger] ls[k]) && lacks(ls[k], '#'),
    ensures
        clean(ls) == ls,
    decreases ls.len(),
{
    if ls.len() > 0 {
        let p = ls.drop_last();
        assert forall|k: int| 0 <= k < p.len() implies keep_line(#[trigger] p[k]) && lacks(
            p[k],
            '#',
        ) by {
            assert(p[k] == ls[k]);
        }
        lemma_clean_same(p);
        let l = ls.last();
        assert(l == ls[ls.len() - 1]);
        lemma_idx_char(l, '#', l.len() as int);
        assert(strip_comment(l) =~= l);
        assert(p.push(l) =~= ls);
    }
}

proof fn lemma_words_word(x: Seq<char>, d: Seq<char>, m: int)
    requires
        word_ok(d),
        1 <= m <= d.len(),
    ensures
        words(x.push(' ') + d.take(m)) == words(x).push(d.take(m)),
    decreases m,
{
    let s = x.push(' ') + d.take(m);
    assert(s.last() == d[m - 1]);
    assert(!is_space(d[m - 1]));
    assert(is_space(' ')) by {
        assert(' ' as u32 == 0x20);
    }
    if m == 1 {
        assert(s.drop_last() =~= x.push(' '));
        assert(x.push(' ').drop_last() =~= x);
        assert(x.push(' ').last() == ' ');
        assert(words(x.push(' ')) == words(x));
        assert(s[s.len() - 2] == ' ');
        assert(words(s) == words(x.push(' ')).push(seq![d[0]]));
        assert(d.take(1) =~= seq![d[0]]);
    } else {
        lemma_words_word(x, d, m - 1);
        assert(s.drop_last() =~= x.push(' ') + d.take(m - 1));
        assert(s[s.len() - 2] == d[m - 2]);
        assert(!is_space(d[m - 2]));
        let w = words(x).push(d.take(m - 1));
        assert(words(s) == w.update(w.len() - 1, w.last().push(s.last())));
        assert(w.last() == d.take(m - 1));
        assert(d.take(m - 1).push(d[m - 1]) =~= d.take(m));
        assert(w.update(w.len() - 1, d.take(m)) =~= words(x).push(d.take(m)));
    }
}

proof fn lemma_words_dep_text(ds: Seq<Seq<char>>)
    requires
        forall|k: int| 0 <= k < ds.len() ==> word_ok(#[trigger] ds[k]),
    ensures
        words(dep_text(ds)) == ds,
    decreases ds.len(),
{
    if ds.len() == 0 {
        assert(words(Seq::<char>::empty()) == Seq::<Seq<char>>::empty());
        assert(ds =~= Seq::<Seq<char>>::empty());
    } else {
        let p = ds.drop_last();
        assert forall|k: int| 0 <= k < p.len() implies word_ok(#[trigger] p[k]) by {
            assert(p[k] == ds[k]);
        }
        lemma_words_dep_text(p);
        let d = ds.last();
        assert(word_ok(ds[ds.len() - 1]));
        lemma_words_word(dep_text(p), d, d.len() as int);
        assert(d.take(d.len() as int) =~= d);
        assert(p.push(d) =~= ds);
    }
}

/// What the text of some dependencies looks like.
proof fn lemma_dep_text_shape(ds: Seq<Seq<char>>)
    requires
        forall|k: int| 0 <= k < ds.len() ==> word_ok(#[trigger] ds[k]),
    ensures
        lacks(dep_text(ds), '#'),
        lacks(dep_text(ds), '\n'),
        dep_text(ds).len() > 0 ==> !is_space(dep_text(ds).last()),
    decreases ds.len(),
{
    if ds.len() > 0 {
        let p = ds.drop_last();
        assert forall|k: int| 0 <= k < p.len() implies word_ok(#[trigger] p[k]) by {
            assert(p[k] == ds[k]);
        }
        lemma_dep_text_shape(p);
        let d = ds.last();
        assert(word_ok(ds[ds.len() - 1]));
        let t = dep_text(p).push(' ') + d;
        assert forall|i: int| 0 <= i < t.len() implies t[i] != '#' && t[i] != '\n' by {
            if i < dep_text(p).len() {
                assert(t[i] == dep_text(p)[i]);
            } else if i > dep_text(p).len() {
                assert(t[i] == d[i - dep_text(p).len() - 1]);
                assert(!is_space(d[i - dep_text(p).len() - 1]));
            }
        }
        assert(t.last() == d[d.len() - 1]);
    }
}

/// What a header line looks like.
proof fn lemma_header_shape(t: TargetView)
    requires
        target_ok(t),
    ensures
        header_line(t).len() > 0,
        !is_space(header_line(t)[0]),
        header_line(t)[0] != '#',
        header_line(t)[0] != '\t',
        !is_space(header_line(t).last()),
        lacks(header_line(t), '#'),
        lacks(header_line(t), '\n'),
        idx(header_line(t), ':') == t.name.len(),
        header_line(t).take(t.name.len() as int) == t.name,
        header_line(t).skip((t.name.len() + 1) as int) == dep_text(t.dependencies),
        keep_line(header_line(t)),
        strip_cr(header_line(t)) == header_line(t),
        !starts_tab(header_line(t)),
{
    let h = header_line(t);
    let n = t.name;
    let dt = dep_text(t.dependencies);
    lemma_dep_text_shape(t.dependencies);
    assert(h[n.len() as int] == ':');
    assert forall|i: int| 0 <= i < h.len() implies h[i] != '#' && h[i] != '\n' by {
        if i < n.len() {
            assert(h[i] == n[i]);
        } else if i > n.len() {
            assert(h[i] == dt[i - n.len() - 1]);
        }
    }
    if n.len() > 0 {
        assert(h[0] == n[0]);
    }
    if dt.len() > 0 {
        assert(h.last() == dt.last());
    }
    assert forall|i: int| 0 <= i < n.len() implies h[i] != ':' by {
        assert(h[i] == n[i]);
    }
    lemma_idx_char(h, ':', n.len() as int);
    assert(h.take(n.len() as int) =~= n);
    assert(h.skip((n.len() + 1) as int) =~= dt);
    assert(trim_start(h) == h);
    assert(trim_end(h) == h);
}

/// Trimming a command line gives back the command.
proof fn lemma_trim_cmd_line(c: Seq<char>)
    requires
        edges_ok(c),
    ensures
        trim(cmd_line(c)) == c,
{
    let l = cmd_line(c);
    assert(l.drop_first() =~= c);
    assert(l[0] == '\t');
    assert(trim_start(l) == trim_start(c));
    assert(trim_start(c) == c);
    assert(trim_end(c) == c);
}

/// What a command line looks like.
proof fn lemma_cmd_line_shape(c: Seq<char>)
    requires
        cmd_ok(c),
    ensures
        starts_tab(cmd_line(c)),
        lacks(cmd_line(c), '#'),
        lacks(cmd_line(c), '\n'),
        keep_line(cmd_line(c)),
        strip_cr(cmd_line(c)) == cmd_line(c),
        trim(cmd_line(c)) == c,
{
    let l = cmd_line(c);
    lemma_trim_cmd_line(c);
    assert forall|i: int| 0 <= i < l.len() implies l[i] != '#' && l[i] != '\n' by {
        if i > 0 {
            assert(l[i] == c[i - 1]);
        }
    }
    if c.len() > 0 {
        assert(l.last() == c.last());
        assert(c[0] == c[0]);
    }
}

/// A line of the text of a canonical model.
pub open spec fn good_line(l: Seq<char>) -> bool {
    lacks(l, '#') && lacks(l, '\n') && keep_line(l) && strip_cr(l) == l
}

proof fn lemma_all_lines_good(ts: Seq<TargetView>)
    requires
        canonical(ts),
    ensures
        forall|k: int| 0 <= k < all_lines(ts).len() ==> good_line(#[trigger] all_lines(ts)[k]),
    decreases ts.len(),
{
    if ts.len() > 0 {
        let rest = ts.drop_first();
        assert(canonical(rest)) by {
            assert forall|i: int| 0 <= i < rest.len() implies target_ok(#[trigger] rest[i]) by {
                assert(rest[i] == ts[i + 1]);
            }
        }
        lemma_all_lines_good(rest);
        let t = ts[0];
        assert(target_ok(t));
        let tl = target_lines(t);
        let l = all_lines(ts);
        assert(l == tl + all_lines(rest));
        lemma_header_shape(t);
        assert forall|k: int| 0 <= k < l.len() implies good_line(#[trigger] l[k]) by {
            if k == 0 {
                assert(l[k] == header_line(t));
            } else if k < tl.len() {
                assert(l[k] == cmd_line(t.commands[k - 1]));
                assert(cmd_ok(t.commands[k - 1]));
                lemma_cmd_line_shape(t.commands[k - 1]);
            } else {
                assert(l[k] == all_lines(rest)[k - tl.len()]);
            }
        }
    }
}

proof fn lemma_tab_run_shift(a: Seq<Seq<char>>, b: Seq<Seq<char>>, q: int)
    requires
        0 <= q,
    ensures
        tab_run(a + b, a.len() + q) == tab_run(b, q),
    decreases b.len() - q,
{
    if q < b.len() {
        assert((a + b)[a.len() + q] == b[q]);
        lemma_tab_run_shift(a, b, q + 1);
    }
}

proof fn lemma_targets_shift(a: Seq<Seq<char>>, b: Seq<Seq<char>>, q: int)
    requires
        0 <= q,
    ensures
        targets_from(a + b, a.len() + q) == targets_from(b, q),
    decreases b.len() - q,
{
    if q < b.len() {
        let ab = a + b;
        assert(ab[a.len() + q] == b[q]);
        lemma_tab_run_shift(a, b, q + 1);
        crate::parse::lemma_tab_run_bound(b, q + 1);
        let r = tab_run(b, q + 1);
        let k = q + 1 + r;
        lemma_targets_shift(a, b, k);
        assert(ab.subrange(a.len() + q + 1, a.len() + k) =~= b.subrange(q + 1, k));
    }
}

proof fn lemma_tab_run_exact(ls: Seq<Seq<char>>, j: int, e: int)
    requires
        0 <= j <= e <= ls.len(),
        forall|x: int| j <= x < e ==> starts_tab(#[trigger] ls[x]),
        e < ls.len() ==> !starts_tab(ls[e]),
    ensures
        tab_run(ls, j) == e - j,
    decreases e - j,
{
    if j < e {
        lemma_tab_run_exact(ls, j + 1, e);
    }
}

proof fn lemma_parse_lines(ts: Seq<TargetView>)
    requires
        canonical(ts),
    ensures
        targets_from(all_lines(ts), 0) == Some(ts),
    decreases ts.len(),
{
    if ts.len() == 0 {
        assert(all_lines(ts) == Seq::<Seq<char>>::empty());
    } else {
        let rest = ts.drop_first();
        assert(canonical(rest)) by {
            assert forall|i: int| 0 <= i < rest.len() implies target_ok(#[trigger] rest[i]) by {
                assert(rest[i] == ts[i + 1]);
            }
        }
        lemma_parse_lines(rest);
        let t = ts[0];
        assert(target_ok(t));
        let tl = target_lines(t);
        let r = all_lines(rest);
        let l = all_lines(ts);
        let n = t.commands.len() as int;
        assert(l == tl + r);
        lemma_header_shape(t);
        assert(l[0] == header_line(t));
        assert forall|x: int| 1 <= x < 1 + n implies starts_tab(#[trigger] l[x]) by {
            assert(l[x] == cmd_line(t.commands[x - 1]));
        }
        if 1 + n < l.len() {
            assert(rest.len() > 0);
            assert(r == target_lines(rest[0]) + all_lines(rest.drop_first()));
            assert(l[1 + n] == header_line(rest[0]));
            lemma_header_shape(rest[0]);
        }
        lemma_tab_run_exact(l, 1, 1 + n);
        let cmds = l.subrange(1, 1 + n);
        assert forall|x: int| 0 <= x < n implies trim(#[trigger] cmds[x]) == t.commands[x] by {
            assert(cmds[x] == cmd_line(t.commands[x]));
            assert(cmd_ok(t.commands[x]));
            lemma_trim_cmd_line(t.commands[x]);
        }
        assert(cmds.map_values(|c: Seq<char>| trim(c)) =~= t.commands);
        lemma_words_dep_text(t.dependencies);
        assert(trim_start(t.name) == t.name);
        assert(trim_end(t.name) == t.name);
        let tv = target_of(l[0], cmds);
        assert(tv.name == t.name);
        assert(tv.dependencies == t.dependencies);
        assert(tv == t);
        lemma_targets_shift(tl, r, 0);
        assert(tl.len() == 1 + n);
        assert(seq![t] + rest =~= ts);
    }
}

/// Text written from a canonical model parses back to that model.
proof fn lemma_render_parses(ts: Seq<TargetView>)
    requires
        canonical(ts),
    ensures
        parse(render(ts)) == Some(ts),
{
    let l = all_lines(ts);
    lemma_all_lines_good(ts);
    assert(all_lack(l, '\n')) by {
        assert forall|k: int| 0 <= k < l.len() implies lacks(#[trigger] l[k], '\n') by {
            assert(good_line(l[k]));
        }
    }
    assert forall|k: int| 0 <= k < l.len() implies strip_cr(#[trigger] l[k]) == l[k] by {
        assert(good_line(l[k]));
    }
    lemma_lines_of_join(l);
    assert forall|k: int| 0 <= k < l.len() implies keep_line(#[trigger] l[k]) && lacks(
        l[k],
        '#',
    ) by {
        assert(good_line(l[k]));
    }
    lemma_clean_same(l);
    lemma_parse_lines(ts);
}

proof fn lemma_pieces_lack_newline(s: Seq<char>)
    ensures
        all_lack(pieces(s), '\n'),
    decreases s.len(),
{
    if s.len() > 0 {
        lemma_pieces_lack_newline(s.drop_last());
        lemma_pieces_len(s.drop_last());
        let p = pieces(s.drop_last());
        let x = s.last();
        if x != '\n' {
            let q = p.update(p.len() - 1, p.last().push(x));
            assert forall|k: int| 0 <= k < q.len() implies lacks(#[trigger] q[k], '\n') by {
                if k < p.len() - 1 {
                    assert(q[k] == p[k]);
                } else {
                    assert(lacks(p[p.len() - 1], '\n'));
                    assert forall|i: int| 0 <= i < q[k].len() implies q[k][i] != '\n' by {
                        if i < p.last().len() {
                            assert(q[k][i] == p.last()[i]);
                        }
                    }
                }
            }
        } else {
            let q = p.push(seq![]);
            assert forall|k: int| 0 <= k < q.len() implies lacks(#[trigger] q[k], '\n') by {
                if k < p.len() {
                    assert(q[k] == p[k]);
                }
            }
        }
    }
}

proof fn lemma_lines_lack_newline(s: Seq<char>)
    ensures
        all_lack(lines_of(s), '\n'),
{
    lemma_pieces_lack_newline(s);
    lemma_pieces_len(s);
    let p = pieces(s);
    let l = lines_of(s);
    assert forall|k: int| 0 <= k < l.len() implies lacks(#[trigger] l[k], '\n') by {
        if k < p.len() - 1 {
            assert(l[k] == strip_cr(p[k]));
            assert(lacks(p[k], '\n'));
            assert forall|i: int| 0 <= i < l[k].len() implies l[k][i] != '\n' by {
                assert(l[k][i] == p[k][i]);
            }
        } else {
            assert(l[k] == p.last());
            assert(lacks(p[p.len() - 1], '\n'));
        }
    }
}

proof fn lemma_clean_lacks(ls: Seq<Seq<char>>, c: char)
    requires
        all_lack(ls, c),
    ensures
        all_lack(clean(ls), c),
    decreases ls.len(),
{
    if ls.len() > 0 {
        let p = ls.drop_last();
        assert forall|k: int| 0 <= k < p.len() implies lacks(#[trigger] p[k], c) by {
            assert(p[k] == ls[k]);
        }
        lemma_clean_lacks(p, c);
        let l = ls.last();
        assert(lacks(ls[ls.len() - 1], c));
        if keep_line(l) {
            let q = clean(p).push(strip_comment(l));
            assert forall|k: int| 0 <= k < q.len() implies lacks(#[trigger] q[k], c) by {
                if k < clean(p).len() {
                    assert(q[k] == clean(p)[k]);
                } else {
                    lemma_idx_bounds(l, '#');
                    assert forall|i: int| 0 <= i < q[k].len() implies q[k][i] != c by {
                        assert(q[k][i] == l[i]);
                    }
                }
            }
        }
    }
}

proof fn lemma_trim_start_shape(s: Seq<char>, c: char)
    ensures
        lacks(s, c) ==> lacks(trim_start(s), c),
        trim_start(s).len() == 0 || !is_space(trim_start(s)[0]),
    decreases s.len(),
{
    if s.len() > 0 && is_space(s[0]) {
        let t = s.drop_first();
        assert(lacks(s, c) ==> lacks(t, c)) by {
            if lacks(s, c) {
                assert forall|i: int| 0 <= i < t.len() implies t[i] != c by {
                    assert(t[i] == s[i + 1]);
                }
            }
        }
        lemma_trim_start_shape(t, c);
    }
}

proof fn lemma_trim_end_shape(s: Seq<char>, c: char)
    ensures
        lacks(s, c) ==> lacks(trim_end(s), c),
        trim_end(s).len() == 0 || !is_space(trim_end(s).last()),
        s.len() > 0 && !is_space(s[0]) ==> trim_end(s).len() > 0 && trim_end(s)[0] == s[0],
    decreases s.len(),
{
    if s.len() > 0 && is_space(s.last()) {
        let t = s.drop_last();
        assert(lacks(s, c) ==> lacks(t, c)) by {
            if lacks(s, c) {
                assert forall|i: int| 0 <= i < t.len() implies t[i] != c by {
                    assert(t[i] == s[i]);
                }
            }
        }
        lemma_trim_end_shape(t, c);
        if s.len() > 1 {
            assert(t[0] == s[0]);
        } else {
            assert(s.last() == s[0]);
        }
    }
}

proof fn lemma_trim_shape(s: Seq<char>, c: char)
    ensures
        lacks(s, c) ==> lacks(trim(s), c),
        edges_ok(trim(s)),
{
    lemma_trim_start_shape(s, c);
    lemma_trim_end_shape(trim_start(s), c);
}

proof fn lemma_words_ok(s: Seq<char>)
    requires
        lacks(s, '#'),
    ensures
        forall|k: int| 0 <= k < words(s).len() ==> word_ok(#[trigger] words(s)[k]),
    decreases s.len(),
{
    if s.len() > 0 {
        let t = s.drop_last();
        assert(lacks(t, '#')) by {
            assert forall|p: int| 0 <= p < t.len() implies t[p] != '#' by {
                assert(t[p] == s[p]);
            }
        }
        lemma_words_ok(t);
        let w = words(t);
        let x = s.last();
        assert(x == s[s.len() - 1]);
        if !is_space(x) && s.len() >= 2 && !is_space(s[s.len() - 2]) {
            crate::text::lemma_words_last_nonempty(t);
            assert(t.last() == s[s.len() - 2]);
            assert(word_ok(w[w.len() - 1]));
            let nw = w.update(w.len() - 1, w.last().push(x));
            assert(words(s) == nw);
            assert forall|k: int| 0 <= k < nw.len() implies word_ok(#[trigger] nw[k]) by {
                if k < w.len() - 1 {
                    assert(nw[k] == w[k]);
                } else {
                    assert forall|p: int| 0 <= p < nw[k].len() implies !is_space(
                        #[trigger] nw[k][p],
                    ) && nw[k][p] != '#' by {
                        if p < w.last().len() {
                            assert(nw[k][p] == w.last()[p]);
                        }
                    }
                }
            }
        } else if !is_space(x) {
            let nw = w.push(seq![x]);
            assert(words(s) == nw);
            assert forall|k: int| 0 <= k < nw.len() implies word_ok(#[trigger] nw[k]) by {
                if k < w.len() {
                    assert(nw[k] == w[k]);
                }
            }
        }
    }
}

proof fn lemma_targets_canonical(ls: Seq<Seq<char>>, i: int)
    requires
        all_lack(ls, '#'),
        all_lack(ls, '\n'),
    ensures
        targets_from(ls, i) matches Some(ts) ==> canonical(ts),
    decreases ls.len() - i,
{
    if 0 <= i < ls.len() && idx(ls[i], ':') != ls[i].len() {
        crate::parse::lemma_tab_run_bound(ls, i + 1);
        let k = i + 1 + tab_run(ls, i + 1);
        lemma_targets_canonical(ls, k);
        let h = ls[i];
        let colon = idx(h, ':');
        lemma_idx_bounds(h, ':');
        assert(lacks(h, '#'));
        assert(lacks(h, '\n'));
        let pre = h.take(colon);
        assert(lacks(pre, ':') && lacks(pre, '#') && lacks(pre, '\n')) by {
            assert forall|p: int| 0 <= p < pre.len() implies pre[p] != ':' && pre[p] != '#'
                && pre[p] != '\n' by {
                assert(pre[p] == h[p]);
            }
        }
        lemma_trim_shape(pre, ':');
        lemma_trim_shape(pre, '#');
        lemma_trim_shape(pre, '\n');
        let rest = h.skip(colon + 1);
        assert(lacks(rest, '#')) by {
            assert forall|p: int| 0 <= p < rest.len() implies rest[p] != '#' by {
                assert(rest[p] == h[p + colon + 1]);
            }
        }
        lemma_words_ok(rest);
        let cl = ls.subrange(i + 1, k);
        let t = target_of(h, cl);
        assert forall|x: int| 0 <= x < t.commands.len() implies cmd_ok(#[trigger] t.commands[x]) by {
            assert(cl[x] == ls[i + 1 + x]);
            assert(lacks(ls[i + 1 + x], '#'));
            assert(lacks(ls[i + 1 + x], '\n'));
            lemma_trim_shape(cl[x], '#');
            lemma_trim_shape(cl[x], '\n');
        }
        assert(target_ok(t));
        if let Some(ts) = targets_from(ls, i) {
            let tail = targets_from(ls, k)->0;
            assert forall|x: int| 0 <= x < ts.len() implies target_ok(#[trigger] ts[x]) by {
                if x > 0 {
                    assert(ts[x] == tail[x - 1]);
                }
            }
        }
    }
}

/// Parsing, writing the model back as text, and parsing that text gives
/// the same model: the same targets, dependencies and commands, in the
/// same order.
pub proof fn law_round_trip(text: Seq<char>)
    ensures
        parse(text) matches Some(ts) ==> parse(render(ts)) == Some(ts),
{
    let ls = clean(lines_of(text));
    crate::laws::lemma_clean_lacks_hash(lines_of(text));
    lemma_lines_lack_newline(text);
    lemma_clean_lacks(lines_of(text), '\n');
    lemma_targets_canonical(ls, 0);
    if let Some(ts) = parse(text) {
        lemma_render_parses(ts);
    }
}

} // verus!
