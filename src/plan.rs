//! Planning a build: the ordered steps that building a target takes.
//!
//! Building a target first builds, left to right, each dependency that names
//! a target, and requires each other dependency to exist as a file; then it
//! runs the target's own commands in order. The plan lists these steps; the
//! caller performs them one after another and stops at the first that fails.
use vstd::prelude::*;
use crate::parse::{MakeError, Makefile, TargetView};

verus! {

/// One piece of outside work in a build.
#[derive(Debug, Clone, PartialEq, Eq)]
pub enum Step {
    /// The named file must exist.
    RequireFile(String),
    /// Run this shell command line; it fails if it writes to its error stream.
    Run(String),
}

/// The abstract value of a step.
pub enum StepView {
    RequireFile(Seq<char>),
    Run(Seq<char>),
}

impl View for Step {
    type V = StepView;

    open spec fn view(&self) -> StepView {
        match self {
            Step::RequireFile(f) => StepView::RequireFile(f@),
            Step::Run(c) => StepView::Run(c@),
        }
    }
}

/// The error that a failed step stands for.
pub open spec fn failure_of(s: StepView) -> MakeError {
    match s {
        StepView::RequireFile(_) => MakeError::DependencyDoesNotExist,
        StepView::Run(_) => MakeError::BuildError,
    }
}

/// The result of performing `steps` in order, where `ok[k]` tells whether
/// step `k` succeeded: the error of the first failed step, if any.
pub open spec fn run_result(steps: Seq<StepView>, ok: Seq<bool>) -> Result<(), MakeError>
    decreases steps.len(),
{
    if steps.len() == 0 || ok.len() == 0 {
        Ok(())
    } else if !ok[0] {
        Err(failure_of(steps[0]))
    } else {
        run_result(steps.drop_first(), ok.drop_first())
    }
}

impl Step {
    /// What the outcome of this step means for the build: nothing more to
    /// say if it succeeded, else the error that ends the build.
    pub fn verdict(&self, succeeded: bool) -> (r: Result<(), MakeError>)
        ensures
            succeeded ==> r == Ok::<(), MakeError>(()),
            !succeeded ==> r == Err::<(), MakeError>(failure_of(self@)),
    {
        if succeeded {
            Ok(())
        } else {
            match self {
                Step::RequireFile(_) => Err(MakeError::DependencyDoesNotExist),
                Step::Run(_) => Err(MakeError::BuildError),
            }
        }
    }
}

/// The views of a vector of steps.
pub open spec fn step_views(v: Seq<Step>) -> Seq<StepView> {
    v.map_values(|s: Step| s@)
}

/// The first position from `i` on of a target named `name`, or `ts.len()`.
pub open spec fn find_from(ts: Seq<TargetView>, name: Seq<char>, i: int) -> int
    decreases ts.len() - i,
{
    if i < 0 || i >= ts.len() {
        ts.len() as int
    } else if ts[i].name == name {
        i
    } else {
        find_from(ts, name, i + 1)
    }
}

/// The position of the first target named `name`, or `ts.len()` if there
/// is none.
pub open spec fn find(ts: Seq<TargetView>, name: Seq<char>) -> int {
    find_from(ts, name, 0)
}

/// The steps of running `cmds`.
pub open spec fn runs(cmds: Seq<Seq<char>>) -> Seq<StepView> {
    cmds.map_values(|c: Seq<char>| StepView::Run(c))
}

/// The steps of building target `i`: those of its dependencies, then its
/// own commands. `None` where following dependencies goes deeper than
/// `fuel` targets.
pub open spec fn plan_of(ts: Seq<TargetView>, i: int, fuel: nat) -> Option<Seq<StepView>>
    decreases fuel, 1int, 0int,
{
    if fuel == 0 || i < 0 || i >= ts.len() {
        None
    } else {
        match deps_plan(ts, i, ts[i].dependencies.len(), fuel) {
            Some(p) => Some(p + runs(ts[i].commands)),
            None => None,
        }
    }
}

/// The steps for the first `k` dependencies of target `i`.
pub open spec fn deps_plan(ts: Seq<TargetView>, i: int, k: nat, fuel: nat) -> Option<
    Seq<StepView>,
>
    decreases fuel, 0int, k,
{
    if fuel == 0 || i < 0 || i >= ts.len() || k > ts[i].dependencies.len() {
        None
    } else if k == 0 {
        Some(seq![])
    } else {
        match deps_plan(ts, i, (k - 1) as nat, fuel) {
            Some(p) => {
                let d = ts[i].dependencies[k - 1];
                let j = find(ts, d);
                if j < ts.len() {
                    match plan_of(ts, j, (fuel - 1) as nat) {
                        Some(q) => Some(p + q),
                        None => None,
                    }
                } else {
                    Some(p.push(StepView::RequireFile(d)))
                }
            },
            None => None,
        }
    }
}

pub proof fn lemma_find_from_bounds(ts: Seq<TargetView>, name: Seq<char>, i: int)
    ensures
        0 <= i <= ts.len() ==> i <= find_from(ts, name, i),
        0 <= find_from(ts, name, i) <= ts.len(),
        find_from(ts, name, i) < ts.len() ==> ts[find_from(ts, name, i)].name == name,
    decreases ts.len() - i,
{
    if 0 <= i < ts.len() && ts[i].name != name {
        lemma_find_from_bounds(ts, name, i + 1);
    }
}

pub proof fn lemma_deps_plan_none(ts: Seq<TargetView>, i: int, k: nat, m: nat, fuel: nat)
    requires
        k <= m,
        deps_plan(ts, i, k, fuel) is None,
    ensures
        deps_plan(ts, i, m, fuel) is None,
    decreases m,
{
    if k < m {
        lemma_deps_plan_none(ts, i, k, (m - 1) as nat, fuel);
    }
}

impl Makefile {
    /// The position of the first target named `name`, or the number of
    /// targets if none has that name.
    pub fn find_target(&self, name: &String) -> (r: usize)
        ensures
            r == find(self@, name@),
    {
        let mut i: usize = 0;
        proof {
            lemma_find_from_bounds(self@, name@, 0);
        }
        while i < self.targets.len()
            invariant
                0 <= i <= self.targets.len(),
                find(self@, name@) == find_from(self@, name@, i as int),
            decreases self.targets.len() - i,
        {
            assert(self@[i as int].name == self.targets@[i as int].name@);
            if self.targets[i].name == *name {
                return i;
            }
            i = i + 1;
        }
        i
    }

    /// The steps of building target `i`, following dependencies at most
    /// `fuel` targets deep.
    fn plan_target(&self, i: usize, fuel: usize) -> (r: Option<Vec<Step>>)
        requires
            i < self@.len(),
        ensures
            match plan_of(self@, i as int, fuel as nat) {
                Some(p) => r matches Some(v) && step_views(v@) == p,
                None => r is None,
            },
        decreases fuel,
    {
        if fuel == 0 {
            return None;
        }
        let ghost ts = self@;
        let t = &self.targets[i];
        assert(ts[i as int] == t@);
        let mut acc: Vec<Step> = Vec::new();
        let mut k: usize = 0;
        while k < t.dependencies.len()
            invariant
                0 <= k <= t.dependencies.len(),
                ts == self@,
                i < ts.len(),
                fuel > 0,
                ts[i as int] == t@,
                deps_plan(ts, i as int, k as nat, fuel as nat) == Some(step_views(acc@)),
            decreases t.dependencies.len() - k,
        {
            let d = &t.dependencies[k];
            assert(ts[i as int].dependencies[k as int] == d@);
            let j = self.find_target(d);
            proof {
                lemma_find_from_bounds(ts, d@, 0);
            }
            let ghost va = step_views(acc@);
            if j < self.targets.len() {
                match self.plan_target(j, fuel - 1) {
                    Some(mut v) => {
                        let ghost vv = step_views(v@);
                        acc.append(&mut v);
                        assert(step_views(acc@) =~= va + vv);
                    },
                    None => {
                        proof {
                            lemma_deps_plan_none(
                                ts,
                                i as int,
                                (k + 1) as nat,
                                t.dependencies.len() as nat,
                                fuel as nat,
                            );
                        }
                        return None;
                    },
                }
            } else {
                acc.push(Step::RequireFile(d.clone()));
                assert(step_views(acc@) =~= va.push(StepView::RequireFile(d@)));
            }
            k = k + 1;
        }
        let ghost vd = step_views(acc@);
        let mut c: usize = 0;
        while c < t.commands.len()
            invariant
                0 <= c <= t.commands.len(),
                step_views(acc@) == vd + runs(t@.commands.take(c as int)),
            decreases t.commands.len() - c,
        {
            let ghost va = step_views(acc@);
            acc.push(Step::Run(t.commands[c].clone()));
            assert(step_views(acc@) =~= va.push(StepView::Run(t@.commands[c as int])));
            assert(runs(t@.commands.take(c + 1)) =~= runs(t@.commands.take(c as int)).push(
                StepView::Run(t@.commands[c as int]),
            ));
            assert(vd + runs(t@.commands.take(c + 1)) =~= (vd + runs(
                t@.commands.take(c as int),
            )).push(StepView::Run(t@.commands[c as int])));
            c = c + 1;
        }
        assert(t@.commands.take(c as int) =~= t@.commands);
        Some(acc)
    }

    /// Plans the build of the first target named `target`: `NoSuchTarget`
    /// if there is none, `CyclicDependency` if following its dependencies
    /// comes back to a target on the way, and otherwise its steps in
    /// order.
    pub fn make(&self, target: &str) -> (r: Result<Vec<Step>, MakeError>)
        ensures
            find(self@, target@) == self@.len() ==> r == Err::<Vec<Step>, MakeError>(
                MakeError::NoSuchTarget,
            ),
            find(self@, target@) < self@.len() ==> match plan_of(
                self@,
                find(self@, target@),
                self@.len(),
            ) {
                Some(p) => r matches Ok(v) && step_views(v@) == p,
                None => r == Err::<Vec<Step>, MakeError>(MakeError::CyclicDependency),
            },
    {
        let name = target.to_owned();
        let j = self.find_target(&name);
        proof {
            lemma_find_from_bounds(self@, target@, 0);
        }
        if j == self.targets.len() {
            return Err(MakeError::NoSuchTarget);
        }
        match self.plan_target(j, self.targets.len()) {
            Some(v) => Ok(v),
            None => Err(MakeError::CyclicDependency),
        }
    }

    /// The name of the first target, built when no target is asked for;
    /// `NoTargets` if there is none.
    pub fn default_target(&self) -> (r: Result<String, MakeError>)
        ensures
            self@.len() == 0 ==> r == Err::<String, MakeError>(MakeError::NoTargets),
            self@.len() > 0 ==> (r matches Ok(n) && n@ == self@[0].name),
    {
        if self.targets.len() == 0 {
            Err(MakeError::NoTargets)
        } else {
            Ok(self.targets[0].name.clone())
        }
    }

    /// Plans the build of the first target: `NoTargets` if there is none,
    /// else as `make` does for its name.
    pub fn make_default(&self) -> (r: Result<Vec<Step>, MakeError>)
        ensures
            self@.len() == 0 ==> r == Err::<Vec<Step>, MakeError>(MakeError::NoTargets),
            self@.len() > 0 ==> match plan_of(self@, 0, self@.len()) {
                Some(p) => r matches Ok(v) && step_views(v@) == p,
                None => r == Err::<Vec<Step>, MakeError>(MakeError::CyclicDependency),
            },
    {
        if self.targets.len() == 0 {
            return Err(MakeError::NoTargets);
        }
        match self.plan_target(0, self.targets.len()) {
            Some(v) => Ok(v),
            None => Err(MakeError::CyclicDependency),
        }
    }
}

} // verus!
