//! Writing a makefile model back as text: a header line per target
//! (`name: dep dep`), followed by its commands, each on a tab-indented line.
use vstd::prelude::*;
use crate::parse::{Makefile, TargetView};
use crate::text::{chars_of, string_from};

verus! {

/// Each dependency after a space.
pub open spec fn dep_text(ds: Seq<Seq<char>>) -> Seq<char>
    decreases ds.len(),
{
    if ds.len() == 0 {
        seq![]
    } else {
        dep_text(ds.drop_last()).push(' ') + ds.last()
    }
}

/// `name:` followed by each dependency after a space.
pub open spec fn header_line(t: TargetView) -> Seq<char> {
    t.name.push(':') + dep_text(t.dependencies)
}

/// A command line: a tab, then the command.
pub open spec fn cmd_line(c: Seq<char>) -> Seq<char> {
    seq!['\t'] + c
}

/// The lines of one target: its header, then its command lines.
pub open spec fn target_lines(t: TargetView) -> Seq<Seq<char>> {
    seq![header_line(t)] + t.commands.map_values(|c: Seq<char>| cmd_line(c))
}

/// The lines of all targets, in order.
pub open spec fn all_lines(ts: Seq<TargetView>) -> Seq<Seq<char>>
    decreases ts.len(),
{
    if ts.len() == 0 {
        seq![]
    } else {
        target_lines(ts[0]) + all_lines(ts.drop_first())
    }
}

/// The lines, each ended by a newline.
pub open spec fn join_lines(ls: Seq<Seq<char>>) -> Seq<char>
    decreases ls.len(),
{
    if ls.len() == 0 {
        seq![]
    } else {
        ls[0].push('\n') + join_lines(ls.drop_first())
    }
}

/// The text of a makefile model.
pub open spec fn render(ts: Seq<TargetView>) -> Seq<char> {
    join_lines(all_lines(ts))
}

pub proof fn lemma_all_lines_append(a: Seq<TargetView>, b: Seq<TargetView>)
    ensures
        all_lines(a + b) == all_lines(a) + all_lines(b),
    decreases a.len(),
{
    if a.len() == 0 {
        assert(a + b =~= b);
        assert(all_lines(a) + all_lines(b) =~= all_lines(b));
    } else {
        assert((a + b).drop_first() =~= a.drop_first() + b);
        lemma_all_lines_append(a.drop_first(), b);
        assert(all_lines(a) + all_lines(b) =~= target_lines(a[0]) + (all_lines(a.drop_first())
            + all_lines(b)));
    }
}

pub proof fn lemma_join_lines_append(a: Seq<Seq<char>>, b: Seq<Seq<char>>)
    ensures
        join_lines(a + b) == join_lines(a) + join_lines(b),
    decreases a.len(),
{
    if a.len() == 0 {
        assert(a + b =~= b);
        assert(join_lines(a) + join_lines(b) =~= join_lines(b));
    } else {
        assert((a + b).drop_first() =~= a.drop_first() + b);
        lemma_join_lines_append(a.drop_first(), b);
        assert(join_lines(a) + join_lines(b) =~= a[0].push('\n') + (join_lines(a.drop_first())
            + join_lines(b)));
    }
}

pub proof fn lemma_join_one(l: Seq<char>)
    ensures
        join_lines(seq![l]) == l.push('\n'),
{
    let e = Seq::<Seq<char>>::empty();
    assert(join_lines(e) == Seq::<char>::empty());
    assert(seq![l].drop_first() =~= e);
    assert(l.push('\n') + Seq::<char>::empty() =~= l.push('\n'));
}

pub proof fn lemma_all_lines_one(t: TargetView)
    ensures
        all_lines(seq![t]) == target_lines(t),
{
    let e = Seq::<TargetView>::empty();
    assert(all_lines(e) == Seq::<Seq<char>>::empty());
    assert(seq![t].drop_first() =~= e);
    assert(target_lines(t) + Seq::<Seq<char>>::empty() =~= target_lines(t));
}

fn push_all(buf: &mut Vec<char>, s: &String)
    ensures
        final(buf)@ == old(buf)@ + s@,
{
    let cs = chars_of(s.as_str());
    let ghost b0 = buf@;
    let mut i: usize = 0;
    while i < cs.len()
        invariant
            0 <= i <= cs.len(),
            cs@ == s@,
            buf@ == b0 + cs@.take(i as int),
        decreases cs.len() - i,
    {
        buf.push(cs[i]);
        i = i + 1;
        assert(buf@ =~= b0 + cs@.take(i as int));
    }
    assert(cs@.take(i as int) =~= cs@);
}

impl Makefile {
    /// The makefile written back as text: each target's header line, then
    /// its commands on tab-indented lines, every line ended by a newline.
    pub fn to_text(&self) -> (r: String)
        ensures
            r@ == render(self@),
    {
        let ghost ts = self@;
        let mut buf: Vec<char> = Vec::new();
        let mut i: usize = 0;
        while i < self.targets.len()
            invariant
                0 <= i <= self.targets.len(),
                ts == self@,
                buf@ == render(ts.take(i as int)),
            decreases self.targets.len() - i,
        {
            let t = &self.targets[i];
            let ghost tv = t@;
            assert(ts[i as int] == tv);
            let ghost b0 = buf@;
            push_all(&mut buf, &t.name);
            buf.push(':');
            let mut k: usize = 0;
            assert(dep_text(tv.dependencies.take(0)) =~= Seq::<char>::empty());
            assert(buf@ =~= b0 + tv.name.push(':') + dep_text(tv.dependencies.take(0)));
            while k < t.dependencies.len()
                invariant
                    0 <= k <= t.dependencies.len(),
                    tv == t@,
                    buf@ == b0 + tv.name.push(':') + dep_text(tv.dependencies.take(k as int)),
                decreases t.dependencies.len() - k,
            {
                let ghost pre = tv.dependencies.take(k as int);
                let ghost nxt = tv.dependencies.take(k + 1);
                assert(nxt.drop_last() =~= pre);
                assert(nxt.last() == tv.dependencies[k as int]);
                buf.push(' ');
                push_all(&mut buf, &t.dependencies[k]);
                assert(buf@ =~= b0 + tv.name.push(':') + dep_text(nxt));
                k = k + 1;
            }
            assert(tv.dependencies.take(k as int) =~= tv.dependencies);
            buf.push('\n');
            let ghost hl = header_line(tv);
            proof {
                lemma_join_one(hl);
            }
            assert(buf@ =~= b0 + join_lines(seq![hl]));
            let mut c: usize = 0;
            while c < t.commands.len()
                invariant
                    0 <= c <= t.commands.len(),
                    tv == t@,
                    hl == header_line(tv),
                    buf@ == b0 + join_lines(
                        seq![hl] + tv.commands.take(c as int).map_values(
                            |x: Seq<char>| cmd_line(x),
                        ),
                    ),
                decreases t.commands.len() - c,
            {
                let ghost before = seq![hl] + tv.commands.take(c as int).map_values(
                    |x: Seq<char>| cmd_line(x),
                );
                let ghost line = cmd_line(tv.commands[c as int]);
                buf.push('\t');
                push_all(&mut buf, &t.commands[c]);
                buf.push('\n');
                proof {
                    lemma_join_lines_append(before, seq![line]);
                    lemma_join_one(line);
                    assert(seq![hl] + tv.commands.take(c + 1).map_values(
                        |x: Seq<char>| cmd_line(x),
                    ) =~= before + seq![line]);
                }
                assert(buf@ =~= b0 + join_lines(before + seq![line]));
                c = c + 1;
            }
            assert(tv.commands.take(c as int) =~= tv.commands);
            proof {
                let pre = ts.take(i as int);
                lemma_all_lines_append(pre, seq![tv]);
                assert(ts.take(i + 1) =~= pre + seq![tv]);
                lemma_all_lines_one(tv);
                lemma_join_lines_append(all_lines(pre), target_lines(tv));
            }
            i = i + 1;
        }
        assert(ts.take(i as int) =~= ts);
        string_from(&buf)
    }
}

} // verus!
