//! Properties that hold of the parser and the planner together.
use vstd::prelude::*;
use crate::parse::{clean, keep_line, parse, starts_tab, strip_comment, tab_run, targets_from, TargetView};
use crate::plan::{deps_plan, find, plan_of, run_result, runs, StepView};
use crate::text::{idx, is_space, lemma_idx_bounds, words};

verus! {

/// `s` holds no `c`.
pub open spec fn lacks(s: Seq<char>, c: char) -> bool {
    forall|p: int| 0 <= p < s.len() ==> s[p] != c
}

/// No element of `ls` holds `c`.
pub open spec fn all_lack(ls: Seq<Seq<char>>, c: char) -> bool {
    forall|k: int| 0 <= k < ls.len() ==> lacks(#[trigger] ls[k], c)
}

pub(crate) proof fn lemma_clean_lacks_hash(ls: Seq<Seq<char>>)
    ensures
        all_lack(clean(ls), '#'),
    decreases ls.len(),
{
    if ls.len() > 0 {
        lemma_clean_lacks_hash(ls.drop_last());
        let l = ls.last();
        if keep_line(l) {
            lemma_idx_bounds(l, '#');
            let c = clean(ls.drop_last());
            assert(clean(ls) == c.push(strip_comment(l)));
            assert forall|k: int| 0 <= k < clean(ls).len() implies lacks(
                #[trigger] clean(ls)[k],
                '#',
            ) by {
                if k < c.len() {
                    assert(lacks(c[k], '#'));
                }
            }
        }
    }
}

proof fn lemma_words_lack(s: Seq<char>, c: char)
    requires
        lacks(s, c),
    ensures
        all_lack(words(s), c),
    decreases s.len(),
{
    if s.len() > 0 {
        let t = s.drop_last();
        assert(lacks(t, c)) by {
            assert forall|p: int| 0 <= p < t.len() implies t[p] != c by {
                assert(t[p] == s[p]);
            }
        }
        lemma_words_lack(t, c);
        let w = words(t);
        let x = s.last();
        assert(x == s[s.len() - 1]);
        if !is_space(s.last()) && s.len() >= 2 && !is_space(s[s.len() - 2]) {
            crate::text::lemma_words_last_nonempty(t);
            assert(t.last() == s[s.len() - 2]);
            assert(lacks(w.last(), c)) by {
                assert(w.last() == w[w.len() - 1]);
            }
            let nw = w.update(w.len() - 1, w.last().push(x));
            assert(words(s) == nw);
            assert forall|k: int| 0 <= k < nw.len() implies lacks(#[trigger] nw[k], c) by {
                if k < w.len() - 1 {
                    assert(nw[k] == w[k]);
                } else {
                    assert forall|p: int| 0 <= p < nw[k].len() implies nw[k][p] != c by {
                        if p < w.last().len() {
                            assert(nw[k][p] == w.last()[p]);
                        }
                    }
                }
            }
        } else if !is_space(s.last()) {
            let nw = w.push(seq![x]);
            assert(words(s) == nw);
            assert forall|k: int| 0 <= k < nw.len() implies lacks(#[trigger] nw[k], c) by {
                if k < w.len() {
                    assert(nw[k] == w[k]);
                }
            }
        }
    }
}

proof fn lemma_targets_deps_lack_hash(ls: Seq<Seq<char>>, i: int)
    requires
        all_lack(ls, '#'),
    ensures
        targets_from(ls, i) matches Some(ts) ==> forall|t: int|
            0 <= t < ts.len() ==> all_lack(#[trigger] ts[t].dependencies, '#'),
    decreases ls.len() - i,
{
    if 0 <= i < ls.len() && idx(ls[i], ':') != ls[i].len() {
        crate::parse::lemma_tab_run_bound(ls, i + 1);
        let k = i + 1 + tab_run(ls, i + 1);
        lemma_targets_deps_lack_hash(ls, k);
        let h = ls[i];
        lemma_idx_bounds(h, ':');
        let rest = h.skip(idx(h, ':') + 1);
        assert(lacks(h, '#'));
        assert(lacks(rest, '#')) by {
            assert forall|p: int| 0 <= p < rest.len() implies rest[p] != '#' by {
                assert(rest[p] == h[p + idx(h, ':') + 1]);
            }
        }
        lemma_words_lack(rest, '#');
        if let Some(ts) = targets_from(ls, i) {
            let tail = targets_from(ls, k)->0;
            assert forall|t: int| 0 <= t < ts.len() implies all_lack(
                #[trigger] ts[t].dependencies,
                '#',
            ) by {
                if t > 0 {
                    assert(ts[t] == tail[t - 1]);
                }
            }
        }
    }
}

/// An inline comment never reaches a dependency list: no dependency of a
/// parsed target holds a `#`.
pub proof fn law_comments_stay_out_of_dependencies(text: Seq<char>)
    ensures
        parse(text) matches Some(ts) ==> forall|t: int, d: int|
            0 <= t < ts.len() && 0 <= d < ts[t].dependencies.len() ==> lacks(
                #[trigger] ts[t].dependencies[d],
                '#',
            ),
{
    let ls = clean(crate::text::lines_of(text));
    lemma_clean_lacks_hash(crate::text::lines_of(text));
    lemma_targets_deps_lack_hash(ls, 0);
    if let Some(ts) = parse(text) {
        assert forall|t: int, d: int|
            0 <= t < ts.len() && 0 <= d < ts[t].dependencies.len() implies lacks(
            #[trigger] ts[t].dependencies[d],
            '#',
        ) by {
            assert(all_lack(ts[t].dependencies, '#'));
        }
    }
}

/// A header line followed at once by another header line (or by nothing)
/// introduces a target without commands.
pub proof fn law_header_then_header_has_no_commands(ls: Seq<Seq<char>>, i: int)
    requires
        0 <= i < ls.len(),
        i + 1 < ls.len() ==> !starts_tab(ls[i + 1]),
    ensures
        targets_from(ls, i) matches Some(ts) ==> ts.len() > 0 && ts[0].commands.len() == 0,
{
    if idx(ls[i], ':') != ls[i].len() {
        assert(tab_run(ls, i + 1) == 0);
        if let Some(ts) = targets_from(ls, i) {
            assert(ts[0].commands == ls.subrange(i + 1, i + 1).map_values(
                |c: Seq<char>| crate::text::trim(c),
            ));
        }
    }
}

/// The steps that dependency `d` contributes to a build with `fuel` left:
/// the build of the target it names, or a check that the file exists.
pub open spec fn dep_steps(ts: Seq<TargetView>, d: Seq<char>, fuel: nat) -> Option<Seq<StepView>> {
    if find(ts, d) < ts.len() {
        plan_of(ts, find(ts, d), (fuel - 1) as nat)
    } else {
        Some(seq![StepView::RequireFile(d)])
    }
}

proof fn lemma_deps_plan_prefix(ts: Seq<TargetView>, i: int, k: nat, m: nat, fuel: nat)
    requires
        k <= m,
        deps_plan(ts, i, m, fuel) is Some,
    ensures
        deps_plan(ts, i, k, fuel) is Some,
        deps_plan(ts, i, k, fuel)->0.len() <= deps_plan(ts, i, m, fuel)->0.len(),
        deps_plan(ts, i, m, fuel)->0.take(deps_plan(ts, i, k, fuel)->0.len() as int)
            == deps_plan(ts, i, k, fuel)->0,
    decreases m,
{
    let pm = deps_plan(ts, i, m, fuel)->0;
    if k < m {
        lemma_deps_plan_prefix(ts, i, k, (m - 1) as nat, fuel);
        let pp = deps_plan(ts, i, (m - 1) as nat, fuel)->0;
        let pk = deps_plan(ts, i, k, fuel)->0;
        assert(pm.take(pp.len() as int) =~= pp);
        assert(pm.take(pk.len() as int) =~= pp.take(pk.len() as int));
    } else {
        assert(pm.take(pm.len() as int) =~= pm);
    }
}

/// The build of a target is a pre-order, depth-first, left-to-right walk:
/// the steps of its `k`-th dependency stand, whole and in one piece, after
/// those of the dependencies before it and before those after it, and the
/// target's own commands come last, in order.
pub proof fn law_build_order(ts: Seq<TargetView>, i: int, fuel: nat, k: int)
    requires
        plan_of(ts, i, fuel) is Some,
        0 <= k < ts[i].dependencies.len(),
    ensures
        ({
            let p = plan_of(ts, i, fuel)->0;
            let n = ts[i].commands.len();
            let a = deps_plan(ts, i, k as nat, fuel)->0.len();
            let b = deps_plan(ts, i, (k + 1) as nat, fuel)->0.len();
            &&& deps_plan(ts, i, k as nat, fuel) is Some
            &&& deps_plan(ts, i, (k + 1) as nat, fuel) is Some
            &&& dep_steps(ts, ts[i].dependencies[k], fuel) is Some
            &&& a <= b <= p.len() - n
            &&& p.subrange(a as int, b as int) == dep_steps(ts, ts[i].dependencies[k], fuel)->0
            &&& p.skip(p.len() - n) == runs(ts[i].commands)
        }),
{
    let p = plan_of(ts, i, fuel)->0;
    let len = ts[i].dependencies.len();
    let dp = deps_plan(ts, i, len, fuel)->0;
    assert(p == dp + runs(ts[i].commands));
    lemma_deps_plan_prefix(ts, i, (k + 1) as nat, len, fuel);
    let p0 = deps_plan(ts, i, k as nat, fuel)->0;
    let p1 = deps_plan(ts, i, (k + 1) as nat, fuel)->0;
    let d = ts[i].dependencies[k];
    let seg = dep_steps(ts, d, fuel)->0;
    assert(p1 == p0 + seg);
    assert(p.subrange(p0.len() as int, p1.len() as int) =~= seg) by {
        assert(dp.take(p1.len() as int) == p1);
        assert forall|x: int| 0 <= x < seg.len() implies p.subrange(
            p0.len() as int,
            p1.len() as int,
        )[x] == seg[x] by {
            assert(p[p0.len() + x] == dp[p0.len() + x]);
            assert(dp.take(p1.len() as int)[p0.len() + x] == p1[p0.len() + x]);
        }
    }
    assert(p.skip(p.len() - ts[i].commands.len()) =~= runs(ts[i].commands));
}

/// In steps performed in order, the first failed step decides the result.
pub proof fn law_first_failure_decides(steps: Seq<StepView>, ok: Seq<bool>, m: int)
    requires
        0 <= m < steps.len(),
        m < ok.len(),
        !ok[m],
        forall|n: int| 0 <= n < m ==> ok[n],
    ensures
        run_result(steps, ok) == Err::<(), crate::parse::MakeError>(
            crate::plan::failure_of(steps[m]),
        ),
    decreases m,
{
    if m > 0 {
        assert(ok[0]);
        law_first_failure_decides(steps.drop_first(), ok.drop_first(), m - 1);
    }
}

/// A dependency that names no target, at any position of a target's
/// dependency list, is a required file in the target's build: if that
/// check is the first step to fail, the build fails with
/// `DependencyDoesNotExist`. With `law_dependency_build_nested` this holds
/// at any depth.
pub proof fn law_missing_file_fails(ts: Seq<TargetView>, i: int, fuel: nat, k: int) -> (m: int)
    requires
        plan_of(ts, i, fuel) is Some,
        0 <= k < ts[i].dependencies.len(),
        find(ts, ts[i].dependencies[k]) == ts.len(),
    ensures
        0 <= m < plan_of(ts, i, fuel)->0.len(),
        plan_of(ts, i, fuel)->0[m] == StepView::RequireFile(ts[i].dependencies[k]),
        forall|ok: Seq<bool>|
            m < ok.len() && !ok[m] && (forall|n: int| 0 <= n < m ==> ok[n]) ==> run_result(
                plan_of(ts, i, fuel)->0,
                ok,
            ) == Err::<(), crate::parse::MakeError>(
                crate::parse::MakeError::DependencyDoesNotExist,
            ),
{
    law_build_order(ts, i, fuel, k);
    let p = plan_of(ts, i, fuel)->0;
    let a = deps_plan(ts, i, k as nat, fuel)->0.len();
    let d = ts[i].dependencies[k];
    assert(p.subrange(a as int, (a + 1) as int)[0] == p[a as int]);
    assert forall|ok: Seq<bool>|
        a < ok.len() && !ok[a as int] && (forall|n: int| 0 <= n < a ==> ok[n]) implies run_result(
        p,
        ok,
    ) == Err::<(), crate::parse::MakeError>(crate::parse::MakeError::DependencyDoesNotExist) by {
        law_first_failure_decides(p, ok, a as int);
    }
    a as int
}

/// A dependency that names a target brings that target's whole build into
/// the build of the target that depends on it, in one piece.
pub proof fn law_dependency_build_nested(ts: Seq<TargetView>, i: int, fuel: nat, k: int) -> (o: int)
    requires
        plan_of(ts, i, fuel) is Some,
        0 <= k < ts[i].dependencies.len(),
        find(ts, ts[i].dependencies[k]) < ts.len(),
    ensures
        ({
            let p = plan_of(ts, i, fuel)->0;
            let j = find(ts, ts[i].dependencies[k]);
            &&& plan_of(ts, j, (fuel - 1) as nat) is Some
            &&& 0 <= o
            &&& o + plan_of(ts, j, (fuel - 1) as nat)->0.len() <= p.len()
            &&& p.subrange(o, o + plan_of(ts, j, (fuel - 1) as nat)->0.len())
                == plan_of(ts, j, (fuel - 1) as nat)->0
        }),
{
    law_build_order(ts, i, fuel, k);
    deps_plan(ts, i, k as nat, fuel)->0.len() as int
}

/// A target without commands adds no step of its own: its build is that
/// of its dependencies, and with no dependencies either it is empty and
/// succeeds.
pub proof fn law_no_commands_no_steps(ts: Seq<TargetView>, i: int, fuel: nat)
    requires
        0 <= i < ts.len(),
        fuel > 0,
        ts[i].commands.len() == 0,
    ensures
        plan_of(ts, i, fuel) == deps_plan(ts, i, ts[i].dependencies.len(), fuel),
        ts[i].dependencies.len() == 0 ==> plan_of(ts, i, fuel) == Some(Seq::<StepView>::empty()),
        ts[i].dependencies.len() == 0 ==> forall|ok: Seq<bool>|
            run_result(plan_of(ts, i, fuel)->0, ok) == Ok::<(), crate::parse::MakeError>(()),
{
    if let Some(dp) = deps_plan(ts, i, ts[i].dependencies.len(), fuel) {
        assert(runs(ts[i].commands) =~= Seq::<StepView>::empty());
        assert(dp + runs(ts[i].commands) =~= dp);
    }
}

/// The depth bound only cuts a build short: a build planned within some
/// bound is planned the same under any larger one.
pub proof fn law_more_fuel_same_plan(ts: Seq<TargetView>, i: int, f: nat, g: nat)
    requires
        plan_of(ts, i, f) is Some,
        f <= g,
    ensures
        plan_of(ts, i, g) == plan_of(ts, i, f),
    decreases f, 1int, 0int,
{
    lemma_deps_more_fuel(ts, i, ts[i].dependencies.len(), f, g);
}

proof fn lemma_deps_more_fuel(ts: Seq<TargetView>, i: int, k: nat, f: nat, g: nat)
    requires
        deps_plan(ts, i, k, f) is Some,
        f <= g,
    ensures
        deps_plan(ts, i, k, g) == deps_plan(ts, i, k, f),
    decreases f, 0int, k,
{
    if k > 0 {
        lemma_deps_more_fuel(ts, i, (k - 1) as nat, f, g);
        let d = ts[i].dependencies[k - 1];
        let j = find(ts, d);
        if j < ts.len() {
            law_more_fuel_same_plan(ts, j, (f - 1) as nat, (g - 1) as nat);
        }
    }
}

/// Target `x` lists a dependency that names target `y`.
pub open spec fn depends(ts: Seq<TargetView>, x: int, y: int) -> bool {
    &&& 0 <= x < ts.len()
    &&& 0 <= y < ts.len()
    &&& exists|k: int|
        0 <= k < ts[x].dependencies.len() && find(ts, #[trigger] ts[x].dependencies[k]) == y
}

/// Each target of `p` lists a dependency that names the next one.
pub open spec fn is_path(ts: Seq<TargetView>, p: Seq<int>) -> bool {
    forall|m: int| 0 <= m < p.len() - 1 ==> depends(ts, #[trigger] p[m], p[m + 1])
}

proof fn lemma_plan_needs_fuel(ts: Seq<TargetView>, i: int)
    ensures
        plan_of(ts, i, 0) is None,
{
}

proof fn lemma_deps_none_edge(ts: Seq<TargetView>, i: int, k: nat, g: nat) -> (y: int)
    requires
        g > 0,
        0 <= i < ts.len(),
        k <= ts[i].dependencies.len(),
        deps_plan(ts, i, k, g) is None,
    ensures
        depends(ts, i, y),
        plan_of(ts, y, (g - 1) as nat) is None,
    decreases k,
{
    if deps_plan(ts, i, (k - 1) as nat, g) is None {
        lemma_deps_none_edge(ts, i, (k - 1) as nat, g)
    } else {
        let d = ts[i].dependencies[k - 1];
        crate::plan::lemma_find_from_bounds(ts, d, 0);
        let y = find(ts, d);
        assert(find(ts, ts[i].dependencies[k - 1]) == y);
        y
    }
}

proof fn lemma_cut_path(ts: Seq<TargetView>, i: int, g: nat) -> (p: Seq<int>)
    requires
        0 <= i < ts.len(),
        plan_of(ts, i, g) is None,
    ensures
        p.len() == g + 1,
        p[0] == i,
        forall|m: int| 0 <= m < p.len() ==> 0 <= #[trigger] p[m] < ts.len(),
        is_path(ts, p),
    decreases g,
{
    if g == 0 {
        seq![i]
    } else {
        let y = lemma_deps_none_edge(ts, i, ts[i].dependencies.len(), g);
        let q = lemma_cut_path(ts, y, (g - 1) as nat);
        let p = seq![i] + q;
        assert forall|m: int| 0 <= m < p.len() - 1 implies depends(ts, #[trigger] p[m], p[m + 1]) by {
            if m > 0 {
                assert(p[m] == q[m - 1]);
                assert(p[m + 1] == q[m]);
            }
        }
        assert forall|m: int| 0 <= m < p.len() implies 0 <= #[trigger] p[m] < ts.len() by {
            if m > 0 {
                assert(p[m] == q[m - 1]);
            }
        }
        p
    }
}

proof fn lemma_walk(ts: Seq<TargetView>, p: Seq<int>, m: int, g: nat)
    requires
        is_path(ts, p),
        0 <= m < p.len(),
        plan_of(ts, p[0], g) is Some,
    ensures
        m < g,
        plan_of(ts, p[m], (g - m) as nat) is Some,
    decreases m,
{
    if m > 0 {
        lemma_walk(ts, p, m - 1, g);
        let x = p[m - 1];
        assert(depends(ts, x, p[m]));
        let k = choose|k: int|
            0 <= k < ts[x].dependencies.len() && find(ts, #[trigger] ts[x].dependencies[k])
                == p[m];
        law_dependency_build_nested(ts, x, (g - (m - 1)) as nat, k);
        assert((g - (m - 1) - 1) as nat == (g - m) as nat);
        lemma_plan_needs_fuel(ts, p[m]);
    } else {
        lemma_plan_needs_fuel(ts, p[0]);
    }
}

proof fn lemma_cycle_never_planned(ts: Seq<TargetView>, c: Seq<int>, g: nat)
    requires
        c.len() >= 2,
        c[0] == c.last(),
        is_path(ts, c),
    ensures
        plan_of(ts, c[0], g) is None,
    decreases g,
{
    if plan_of(ts, c[0], g) is Some {
        let l = c.len() - 1;
        lemma_walk(ts, c, l, g);
        assert(c[l] == c.last());
        lemma_cycle_never_planned(ts, c, (g - l) as nat);
    }
}

proof fn lemma_pigeonhole(p: Seq<int>, n: int) -> (r: (int, int))
    requires
        0 <= n < p.len(),
        forall|m: int| 0 <= m < p.len() ==> 0 <= #[trigger] p[m] < n,
    ensures
        0 <= r.0 < r.1 < p.len(),
        p[r.0] == p[r.1],
    decreases n,
{
    if n == 0 {
        assert(0 <= p[0] < n);
        (0, 0)
    } else if exists|a: int, b: int| 0 <= a < b < p.len() && p[a] == n - 1 && p[b] == n - 1 {
        let (a, b) = choose|a: int, b: int|
            0 <= a < b < p.len() && p[a] == n - 1 && p[b] == n - 1;
        (a, b)
    } else if exists|a: int| 0 <= a < p.len() && p[a] == n - 1 {
        let a = choose|a: int| 0 <= a < p.len() && p[a] == n - 1;
        let q = p.remove(a);
        assert forall|m: int| 0 <= m < q.len() implies 0 <= #[trigger] q[m] < n - 1 by {
            if m < a {
                assert(q[m] == p[m]);
            } else {
                assert(q[m] == p[m + 1]);
                assert(!(p[a] == n - 1 && p[m + 1] == n - 1));
            }
        }
        let (x, y) = lemma_pigeonhole(q, n - 1);
        let x2 = if x < a { x } else { x + 1 };
        let y2 = if y < a { y } else { y + 1 };
        assert(p[x2] == q[x]);
        assert(p[y2] == q[y]);
        (x2, y2)
    } else {
        let q = p.drop_last();
        assert forall|m: int| 0 <= m < q.len() implies 0 <= #[trigger] q[m] < n - 1 by {
            assert(q[m] == p[m]);
            assert(p[m] != n - 1);
        }
        let (x, y) = lemma_pigeonhole(q, n - 1);
        assert(p[x] == q[x] && p[y] == q[y]);
        (x, y)
    }
}

/// A build cut short at a depth of as many targets as there are can never
/// be planned, whatever the bound: following the dependencies goes round a
/// cycle, and the unbounded walk would never end.
pub proof fn law_cut_build_never_ends(ts: Seq<TargetView>, i: int, f: nat)
    requires
        0 <= i < ts.len(),
        plan_of(ts, i, ts.len()) is None,
    ensures
        plan_of(ts, i, f) is None,
{
    if plan_of(ts, i, f) is Some {
        if f <= ts.len() {
            law_more_fuel_same_plan(ts, i, f, ts.len());
        } else {
            let p = lemma_cut_path(ts, i, ts.len());
            let (a, b) = lemma_pigeonhole(p, ts.len() as int);
            lemma_walk(ts, p, a, f);
            let c = p.subrange(a, b + 1);
            assert forall|m: int| 0 <= m < c.len() - 1 implies depends(
                ts,
                #[trigger] c[m],
                c[m + 1],
            ) by {
                assert(c[m] == p[m + a]);
                assert(c[m + 1] == p[m + a + 1]);
            }
            assert(c[0] == p[a]);
            assert(c.last() == p[b]);
            lemma_cycle_never_planned(ts, c, (f - a) as nat);
        }
    }
}

} // verus!
