//! The makefile model and its parser.
use vstd::prelude::*;
use crate::text::{
    chars_of, idx, index_of, lines_of, split_lines, split_words, string_from, trim, trim_range,
    views, words,
};

verus! {

/// What can go wrong when parsing a makefile or planning a build.
#[derive(Debug, Clone, Copy, PartialEq, Eq, Structural)]
pub enum MakeError {
    /// A dependency is neither a target nor an existing file.
    DependencyDoesNotExist,
    /// The default target was asked for, but the makefile defines none.
    NoTargets,
    /// A line that should introduce a target holds no `:`.
    LineIsNotATarget,
    /// A command wrote to its error stream.
    BuildError,
    /// The requested target is not defined.
    NoSuchTarget,
    /// Following dependencies from the requested target leads back to a
    /// target that is still being built, so the build would never end.
    CyclicDependency,
}

/// The abstract value of a target: its name, its dependency names and its
/// command lines, in order.
pub struct TargetView {
    pub name: Seq<char>,
    pub dependencies: Seq<Seq<char>>,
    pub commands: Seq<Seq<char>>,
}

/// A named unit of build work.
#[derive(Debug, Clone, PartialEq, Eq)]
pub struct Target {
    pub name: String,
    pub dependencies: Vec<String>,
    pub commands: Vec<String>,
}

/// A parsed makefile: its targets in the order they were written.
#[derive(Debug, Clone, PartialEq, Eq)]
pub struct Makefile {
    pub targets: Vec<Target>,
}

/// The views of a vector of strings.
pub open spec fn str_views(v: Seq<String>) -> Seq<Seq<char>> {
    v.map_values(|x: String| x@)
}

impl View for Target {
    type V = TargetView;

    open spec fn view(&self) -> TargetView {
        TargetView {
            name: self.name@,
            dependencies: str_views(self.dependencies@),
            commands: str_views(self.commands@),
        }
    }
}

/// The views of a vector of targets.
pub open spec fn target_views(v: Seq<Target>) -> Seq<TargetView> {
    v.map_values(|t: Target| t@)
}

impl View for Makefile {
    type V = Seq<TargetView>;

    open spec fn view(&self) -> Seq<TargetView> {
        target_views(self.targets@)
    }
}

/// A line is kept unless it is empty or its first non-blank character
/// opens a comment.
pub open spec fn keep_line(l: Seq<char>) -> bool {
    l.len() > 0 && !(trim(l).len() > 0 && trim(l)[0] == '#')
}

/// `l` cut at its first `#`.
pub open spec fn strip_comment(l: Seq<char>) -> Seq<char> {
    l.take(idx(l, '#'))
}

/// The kept lines, each without its comment.
pub open spec fn clean(ls: Seq<Seq<char>>) -> Seq<Seq<char>>
    decreases ls.len(),
{
    if ls.len() == 0 {
        seq![]
    } else {
        let c = clean(ls.drop_last());
        if keep_line(ls.last()) {
            c.push(strip_comment(ls.last()))
        } else {
            c
        }
    }
}

/// Whether `l` is a command line.
pub open spec fn starts_tab(l: Seq<char>) -> bool {
    l.len() > 0 && l[0] == '\t'
}

/// How many command lines follow from position `i` on.
pub open spec fn tab_run(ls: Seq<Seq<char>>, i: int) -> nat
    decreases ls.len() - i,
{
    if 0 <= i < ls.len() && starts_tab(ls[i]) {
        1 + tab_run(ls, i + 1)
    } else {
        0
    }
}

/// The target that header line `h` introduces, with command lines `cmds`.
pub open spec fn target_of(h: Seq<char>, cmds: Seq<Seq<char>>) -> TargetView {
    let colon = idx(h, ':');
    TargetView {
        name: trim(h.take(colon)),
        dependencies: words(h.skip(colon + 1)),
        commands: cmds.map_values(|c: Seq<char>| trim(c)),
    }
}

/// The targets that the cleaned lines `ls` describe from position `i` on,
/// or `None` where a header line holds no `:`.
pub open spec fn targets_from(ls: Seq<Seq<char>>, i: int) -> Option<Seq<TargetView>>
    decreases ls.len() - i,
    via targets_from_decreases
{
    if i < 0 || i >= ls.len() {
        Some(seq![])
    } else if idx(ls[i], ':') == ls[i].len() {
        None
    } else {
        let k = i + 1 + tab_run(ls, i + 1);
        let t = target_of(ls[i], ls.subrange(i + 1, k));
        match targets_from(ls, k) {
            Some(rest) => Some(seq![t] + rest),
            None => None,
        }
    }
}

#[via_fn]
proof fn targets_from_decreases(ls: Seq<Seq<char>>, i: int) {
    lemma_tab_run_bound(ls, i + 1);
}

pub proof fn lemma_tab_run_bound(ls: Seq<Seq<char>>, i: int)
    ensures
        0 <= i <= ls.len() ==> i + tab_run(ls, i) <= ls.len(),
        forall|j: int| i <= j < i + tab_run(ls, i) ==> starts_tab(#[trigger] ls[j]),
        0 <= i + tab_run(ls, i) < ls.len() ==> !starts_tab(ls[i + tab_run(ls, i)]),
    decreases ls.len() - i,
{
    if 0 <= i < ls.len() && starts_tab(ls[i]) {
        lemma_tab_run_bound(ls, i + 1);
    }
}

/// The model that `text` parses to, or `None` where a header line holds
/// no `:`.
pub open spec fn parse(text: Seq<char>) -> Option<Seq<TargetView>> {
    targets_from(clean(lines_of(text)), 0)
}

fn is_kept(l: &Vec<char>) -> (r: bool)
    ensures
        r == keep_line(l@),
{
    if l.len() == 0 {
        return false;
    }
    let t = trim_range(l, 0, l.len());
    assert(l@.subrange(0, l.len() as int) =~= l@);
    !(t.len() > 0 && t[0] == '#')
}

/// Drops empty and comment lines and cuts the others at their first `#`.
fn clean_lines(ls: &Vec<Vec<char>>) -> (r: Vec<Vec<char>>)
    ensures
        views(r@) == clean(views(ls@)),
{
    let mut out: Vec<Vec<char>> = Vec::new();
    let mut i: usize = 0;
    while i < ls.len()
        invariant
            0 <= i <= ls.len(),
            views(out@) == clean(views(ls@).take(i as int)),
        decreases ls.len() - i,
    {
        let ghost pre = views(ls@).take(i as int);
        let ghost nxt = views(ls@).take(i + 1);
        assert(nxt.drop_last() =~= pre);
        assert(nxt.last() == ls@[i as int]@);
        let l = &ls[i];
        if is_kept(l) {
            let cut = index_of(l, 0, '#');
            assert(l@.skip(0) =~= l@);
            let c = crate::text::copy_range(l, 0, cut);
            let ghost vo = views(out@);
            out.push(c);
            assert(views(out@) =~= vo.push(strip_comment(l@)));
        }
        i = i + 1;
    }
    assert(views(ls@).take(i as int) =~= views(ls@));
    out
}

/// Turns each character vector into a string.
fn to_strings(v: &Vec<Vec<char>>) -> (r: Vec<String>)
    ensures
        str_views(r@) == views(v@),
{
    let mut out: Vec<String> = Vec::new();
    let mut i: usize = 0;
    while i < v.len()
        invariant
            0 <= i <= v.len(),
            str_views(out@) == views(v@).take(i as int),
        decreases v.len() - i,
    {
        let ghost so = str_views(out@);
        out.push(string_from(&v[i]));
        assert(str_views(out@) =~= so.push(v@[i as int]@));
        assert(views(v@).take(i + 1) =~= views(v@).take(i as int).push(v@[i as int]@));
        i = i + 1;
    }
    assert(views(v@).take(i as int) =~= views(v@));
    out
}

/// `acc` followed by the targets of `r`, if it holds any.
pub open spec fn prepend(acc: Seq<TargetView>, r: Option<Seq<TargetView>>) -> Option<Seq<TargetView>> {
    match r {
        Some(x) => Some(acc + x),
        None => None,
    }
}

impl Makefile {
    /// Parses a makefile: the targets of `data` in order, or
    /// `LineIsNotATarget` where a line that should introduce a target holds
    /// no `:`.
    pub fn from_str(data: &str) -> (r: Result<Makefile, MakeError>)
        ensures
            match parse(data@) {
                Some(ts) => r matches Ok(m) && m@ == ts,
                None => r == Err::<Makefile, MakeError>(MakeError::LineIsNotATarget),
            },
    {
        let chars = chars_of(data);
        let lines = split_lines(&chars);
        let cl = clean_lines(&lines);
        let ghost ls = views(cl@);
        let mut targets: Vec<Target> = Vec::new();
        let mut i: usize = 0;
        while i < cl.len()
            invariant
                0 <= i <= cl.len(),
                ls == views(cl@),
                ls == clean(lines_of(data@)),
                targets_from(ls, 0) == prepend(target_views(targets@), targets_from(ls, i as int)),
            decreases cl.len() - i,
        {
            let line = &cl[i];
            assert(ls[i as int] == line@);
            let colon = index_of(line, 0, ':');
            assert(line@.skip(0) =~= line@);
            if colon == line.len() {
                return Err(MakeError::LineIsNotATarget);
            }
            let name = string_from(&trim_range(line, 0, colon));
            assert(line@.subrange(0, colon as int) =~= line@.take(colon as int));
            let dependencies = to_strings(&split_words(line, colon + 1));
            let mut commands: Vec<String> = Vec::new();
            let mut j: usize = i + 1;
            proof {
                lemma_tab_run_bound(ls, i + 1);
            }
            while j < cl.len() && cl[j].len() > 0 && cl[j][0] == '\t'
                invariant
                    i + 1 <= j <= cl.len(),
                    ls == views(cl@),
                    tab_run(ls, i + 1) == (j - (i + 1)) + tab_run(ls, j as int),
                    str_views(commands@) == ls.subrange(i + 1, j as int).map_values(
                        |c: Seq<char>| trim(c),
                    ),
                decreases cl.len() - j,
            {
                let ghost so = str_views(commands@);
                assert(ls[j as int] == cl@[j as int]@);
                let c = &cl[j];
                let t = trim_range(c, 0, c.len());
                assert(c@.subrange(0, c.len() as int) =~= c@);
                commands.push(string_from(&t));
                assert(str_views(commands@) =~= so.push(trim(ls[j as int])));
                assert(ls.subrange(i + 1, j + 1).map_values(|c: Seq<char>| trim(c))
                    =~= ls.subrange(i + 1, j as int).map_values(|c: Seq<char>| trim(c)).push(
                    trim(ls[j as int]),
                ));
                j = j + 1;
            }
            proof {
                if j < cl.len() {
                    assert(ls[j as int] == cl@[j as int]@);
                }
            }
            let t = Target { name, dependencies, commands };
            let ghost tv = target_of(ls[i as int], ls.subrange(i + 1, j as int));
            assert(t@ == tv);
            let ghost tvs = target_views(targets@);
            targets.push(t);
            assert(target_views(targets@) =~= tvs.push(tv));
            proof {
                match targets_from(ls, j as int) {
                    Some(rest) => {
                        assert(tvs + (seq![tv] + rest) =~= tvs.push(tv) + rest);
                    },
                    None => {},
                }
            }
            i = j;
        }
        Ok(Makefile { targets })
    }
}

} // verus!
