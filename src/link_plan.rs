//! Planning a hierarchical link: which objects each link reads, level by level,
//! and which linker runs it.

use crate::partition::{batches_of, lemma_ceil_div_bounds, lemma_partition_exact, split_batches};
use crate::naming::{decimal, decimal_string};
use vstd::prelude::*;

verus! {

/// The two interchangeable linker backends.
#[derive(Clone, Copy, PartialEq, Eq, Structural, Debug)]
pub enum LinkerType {
    /// The conventional linker.
    Ld,
    /// The fast linker, which can run several threads of its own.
    Mold,
}

impl LinkerType {
    /// The program name of the backend.
    pub fn name(&self) -> (r: &'static str)
        ensures
            r@ == linker_name(*self)@,
    {
        match self {
            LinkerType::Ld => "ld",
            LinkerType::Mold => "mold",
        }
    }
}

/// The program name of a backend, as a spec value.
pub open spec fn linker_name(l: LinkerType) -> &'static str {
    match l {
        LinkerType::Ld => "ld",
        LinkerType::Mold => "mold",
    }
}

/// How a set of objects is linked.
#[derive(Clone, Copy, PartialEq, Eq, Structural, Debug)]
pub enum LinkMode {
    /// One link of every input.
    Sequential,
    /// A reduction in levels of parallel batch links.
    Parallel,
}

impl LinkMode {
    /// The name of the mode.
    pub fn name(&self) -> (r: &'static str)
        ensures
            r@ == mode_name(*self)@,
    {
        match self {
            LinkMode::Sequential => "sequential",
            LinkMode::Parallel => "parallel",
        }
    }
}

/// The name of a mode, as a spec value.
pub open spec fn mode_name(m: LinkMode) -> &'static str {
    match m {
        LinkMode::Sequential => "sequential",
        LinkMode::Parallel => "parallel",
    }
}

/// An object that a link reads: one of the caller's inputs, by position, or
/// the output of batch `batch` of level `level`.
#[derive(Clone, Copy, PartialEq, Eq, Structural, Debug)]
pub enum ObjectRef {
    Input(usize),
    Intermediate { level: usize, batch: usize },
}

/// The caller's `n` inputs, in order.
pub open spec fn input_refs(n: nat) -> Seq<ObjectRef> {
    Seq::new(n, |i: int| ObjectRef::Input(i as usize))
}

/// The outputs of the `k` batches of level `level`, in batch order.
pub open spec fn batch_refs(level: nat, k: nat) -> Seq<ObjectRef> {
    Seq::new(k, |b: int| ObjectRef::Intermediate { level: level as usize, batch: b as usize })
}

/// The levels that reduce the objects `refs`, the first of them numbered
/// `level`, and the objects that the final link then reads. A level splits its
/// objects into batches (see `batches_of`); the batch outputs are the objects
/// of the next level. Levels go on while more than `jobs` objects are left.
pub open spec fn reduction(refs: Seq<ObjectRef>, jobs: nat, level: nat) -> (Seq<Seq<Seq<ObjectRef>>>, Seq<ObjectRef>)
    decreases refs.len(),
    via reduction_decreases
{
    if jobs < 2 || refs.len() <= jobs {
        (Seq::empty(), refs)
    } else {
        let bs = batches_of(refs, jobs);
        let rest = reduction(batch_refs(level, bs.len()), jobs, level + 1);
        (seq![bs] + rest.0, rest.1)
    }
}

#[via_fn]
proof fn reduction_decreases(refs: Seq<ObjectRef>, jobs: nat, level: nat) {
    if !(jobs < 2 || refs.len() <= jobs) {
        lemma_ceil_div_bounds(refs.len(), jobs);
    }
}

/// Whether `n` inputs are linked by one link of all of them: in sequential
/// mode, when the budget allows a single job, and when there are at most
/// twice as many inputs as jobs.
pub open spec fn links_directly(n: nat, jobs: nat, mode: LinkMode) -> bool {
    mode == LinkMode::Sequential || jobs < 2 || n <= 2 * jobs
}

/// The levels of batch links that a link of `n` inputs runs, in order.
pub open spec fn plan_levels(n: nat, jobs: nat, mode: LinkMode) -> Seq<Seq<Seq<ObjectRef>>> {
    if links_directly(n, jobs, mode) {
        Seq::empty()
    } else {
        reduction(input_refs(n), jobs, 0).0
    }
}

/// What the final link of `n` inputs reads.
pub open spec fn plan_final_inputs(n: nat, jobs: nat, mode: LinkMode) -> Seq<ObjectRef> {
    if links_directly(n, jobs, mode) {
        input_refs(n)
    } else {
        reduction(input_refs(n), jobs, 0).1
    }
}

/// Thread budget given to each run of the linker while up to `jobs` of them
/// run side by side: an eighth of the budget, at least one, for the fast
/// backend; none for the conventional one, which has no such setting.
pub open spec fn link_threads(linker: LinkerType, jobs: nat) -> Option<usize> {
    if linker == LinkerType::Mold && jobs > 1 {
        Some(if jobs / 8 >= 1 { (jobs / 8) as usize } else { 1usize })
    } else {
        None
    }
}

/// The thread budget of each linker run; see `link_threads`.
pub fn threads_per_link(linker: LinkerType, jobs: usize) -> (r: Option<usize>)
    ensures
        r == link_threads(linker, jobs as nat),
{
    if linker == LinkerType::Mold && jobs > 1 {
        let t = jobs / 8;
        Some(if t >= 1 { t } else { 1 })
    } else {
        None
    }
}

/// The backend that actually runs, and whether it differs from the one asked for.
#[derive(Clone, Copy, PartialEq, Eq, Structural, Debug)]
pub struct LinkerChoice {
    pub linker: LinkerType,
    pub substituted: bool,
}

/// Picks the backend: the one asked for, unless it is the fast one and that
/// is not installed, in which case the conventional one runs and the
/// substitution is reported.
pub fn resolve_linker(requested: LinkerType, fast_available: bool) -> (r: LinkerChoice)
    ensures
        requested == LinkerType::Mold && !fast_available ==> r == (LinkerChoice {
            linker: LinkerType::Ld,
            substituted: true,
        }),
        !(requested == LinkerType::Mold && !fast_available) ==> r == (LinkerChoice {
            linker: requested,
            substituted: false,
        }),
{
    if requested == LinkerType::Mold && !fast_available {
        LinkerChoice { linker: LinkerType::Ld, substituted: true }
    } else {
        LinkerChoice { linker: requested, substituted: false }
    }
}

/// The links that combine a set of inputs into one object: `levels[t][b]`
/// is what batch `b` of level `t` reads, and its output is
/// `ObjectRef::Intermediate { level: t, batch: b }`. Every batch of a level
/// runs before any of the next; the final link reads `final_inputs` and writes
/// the output. Each linker run gets `threads` as its thread budget.
pub struct LinkPlan {
    pub levels: Vec<Vec<Vec<ObjectRef>>>,
    pub final_inputs: Vec<ObjectRef>,
    pub threads: Option<usize>,
}

/// The levels of a plan as a spec value.
pub open spec fn levels_view(v: Seq<Vec<Vec<ObjectRef>>>) -> Seq<Seq<Seq<ObjectRef>>> {
    v.map_values(|l: Vec<Vec<ObjectRef>>| l@.map_values(|b: Vec<ObjectRef>| b@))
}

fn input_refs_exec(n: usize) -> (r: Vec<ObjectRef>)
    ensures
        r@ == input_refs(n as nat),
{
    let mut r: Vec<ObjectRef> = Vec::new();
    let mut i: usize = 0;
    while i < n
        invariant
            i <= n,
            r@ == input_refs(i as nat),
        decreases n - i,
    {
        r.push(ObjectRef::Input(i));
        assert(r@ =~= input_refs((i + 1) as nat));
        i = i + 1;
    }
    r
}

fn batch_refs_exec(level: usize, k: usize) -> (r: Vec<ObjectRef>)
    ensures
        r@ == batch_refs(level as nat, k as nat),
{
    let mut r: Vec<ObjectRef> = Vec::new();
    let mut b: usize = 0;
    while b < k
        invariant
            b <= k,
            r@ == batch_refs(level as nat, b as nat),
        decreases k - b,
    {
        r.push(ObjectRef::Intermediate { level, batch: b });
        assert(r@ =~= batch_refs(level as nat, (b + 1) as nat));
        b = b + 1;
    }
    r
}

/// Whether `plan` is the plan for linking `n` inputs with a budget of `jobs`
/// parallel jobs: the levels and final inputs described by `plan_levels` and
/// `plan_final_inputs`, and the linker's thread budget only when levels run
/// side by side.
pub open spec fn is_plan_for(plan: LinkPlan, n: nat, jobs: nat, linker: LinkerType, mode: LinkMode) -> bool {
    &&& levels_view(plan.levels@) == plan_levels(n, jobs, mode)
    &&& plan.final_inputs@ == plan_final_inputs(n, jobs, mode)
    &&& plan.threads == if links_directly(n, jobs, mode) {
        None
    } else {
        link_threads(linker, jobs)
    }
}

/// Plans the link of `n` inputs with a budget of `jobs` parallel jobs.
pub fn plan_link(n: usize, jobs: usize, linker: LinkerType, mode: LinkMode) -> (plan: LinkPlan)
    requires
        jobs >= 1,
    ensures
        is_plan_for(plan, n as nat, jobs as nat, linker, mode),
{
    let mut levels: Vec<Vec<Vec<ObjectRef>>> = Vec::new();
    let inputs = input_refs_exec(n);
    if mode == LinkMode::Sequential || jobs < 2 || n / 2 < jobs || (n / 2 == jobs && n % 2 == 0) {
        assert(levels_view(levels@) =~= Seq::<Seq<Seq<ObjectRef>>>::empty());
        return LinkPlan { levels, final_inputs: inputs, threads: None };
    }
    let mut refs = inputs;
    let mut level: usize = 0;
    while refs.len() > jobs
        invariant
            jobs >= 2,
            level + refs@.len() <= n,
            levels_view(levels@) + reduction(refs@, jobs as nat, level as nat).0 == reduction(
                input_refs(n as nat),
                jobs as nat,
                0,
            ).0,
            reduction(refs@, jobs as nat, level as nat).1 == reduction(input_refs(n as nat), jobs as nat, 0).1,
            level > 0 ==> refs@ == batch_refs((level - 1) as nat, refs@.len()),
        decreases refs.len(),
    {
        let ghost old_refs = refs@;
        let bs = split_batches(&refs, jobs);
        let k = bs.len();
        proof {
            lemma_ceil_div_bounds(refs@.len(), jobs as nat);
        }
        let next = batch_refs_exec(level, k);
        proof {
            let bsv = batches_of(old_refs, jobs as nat);
            let rest = reduction(batch_refs(level as nat, bsv.len()), jobs as nat, (level + 1) as nat);
            assert(reduction(old_refs, jobs as nat, level as nat).0 == seq![bsv] + rest.0);
            assert(levels_view(levels@.push(bs)) =~= levels_view(levels@).push(bsv));
            assert(levels_view(levels@).push(bsv) + rest.0 =~= levels_view(levels@) + (seq![bsv] + rest.0));
        }
        levels.push(bs);
        refs = next;
        level = level + 1;
    }
    let threads = threads_per_link(linker, jobs);
    LinkPlan { levels, final_inputs: refs, threads }
}

/// The thread setting passed to the linker: only the fast backend takes one.
pub open spec fn thread_args(linker: LinkerType, threads: Option<usize>) -> Seq<Seq<char>> {
    if linker == LinkerType::Mold && threads is Some {
        seq!["--threads="@ + decimal(threads->0 as nat)]
    } else {
        Seq::empty()
    }
}

/// The arguments of one linker run: a relocatable link that tolerates symbols
/// defined more than once, writing `output` from `inputs`.
pub open spec fn link_args(
    linker: LinkerType,
    threads: Option<usize>,
    output: Seq<char>,
    inputs: Seq<Seq<char>>,
) -> Seq<Seq<char>> {
    seq!["-r"@, "--allow-multiple-definition"@] + thread_args(linker, threads) + seq!["-o"@, output] + inputs
}

/// Builds the argument list of one linker run; see `link_args`.
pub fn link_arguments(linker: LinkerType, threads: Option<usize>, output: &str, inputs: &Vec<String>) -> (args: Vec<
    String,
>)
    ensures
        args@.map_values(|a: String| a@) == link_args(linker, threads, output@, inputs@.map_values(|a: String| a@)),
{
    let mut args: Vec<String> = Vec::new();
    args.push(String::from_str("-r"));
    args.push(String::from_str("--allow-multiple-definition"));
    let ghost head = seq!["-r"@, "--allow-multiple-definition"@];
    assert(args@.map_values(|a: String| a@) =~= head);
    match threads {
        Some(t) => {
            if linker == LinkerType::Mold {
                let d = decimal_string(t);
                args.push(String::from_str("--threads=").concat(d.as_str()));
            }
        },
        None => {},
    }
    assert(args@.map_values(|a: String| a@) =~= head + thread_args(linker, threads));
    args.push(String::from_str("-o"));
    args.push(String::from_str(output));
    let ghost fixed = head + thread_args(linker, threads) + seq!["-o"@, output@];
    assert(args@.map_values(|a: String| a@) =~= fixed);
    let mut i: usize = 0;
    while i < inputs.len()
        invariant
            i <= inputs@.len(),
            args@.map_values(|a: String| a@) == fixed + inputs@.subrange(0, i as int).map_values(|a: String| a@),
        decreases inputs@.len() - i,
    {
        let a = inputs[i].clone();
        assert(a@ == inputs@[i as int]@);
        let ghost before = args@;
        args.push(a);
        assert(args@.map_values(|a: String| a@) =~= before.map_values(|a: String| a@).push(inputs@[i as int]@));
        assert(inputs@.subrange(0, i + 1).map_values(|a: String| a@) =~= inputs@.subrange(0, i as int).map_values(
            |a: String| a@,
        ).push(inputs@[i as int]@));
        assert(args@.map_values(|a: String| a@) =~= fixed + inputs@.subrange(0, i + 1).map_values(|a: String| a@));
        i = i + 1;
    }
    assert(inputs@.subrange(0, inputs@.len() as int) =~= inputs@);
    args
}

/// Where the run of a plan stands.
#[derive(Clone, Copy, PartialEq, Eq, Structural, Debug)]
pub enum LinkStep {
    /// Run every batch of this level.
    RunLevel(usize),
    /// Run the final link.
    RunFinal,
    /// The output was written.
    Succeeded,
    /// A link failed; nothing more runs and the output is not valid.
    Failed,
}

/// The run of a plan, one level after the other. A level starts only once
/// every batch of the level before it has produced its object; a level with a
/// missing object, or a failed final link, ends the run as failed.
pub struct LinkRun {
    batch_counts: Vec<usize>,
    step: LinkStep,
}

impl LinkRun {
    /// The number of batches of each level.
    pub closed spec fn counts(&self) -> Seq<usize> {
        self.batch_counts@
    }

    /// The current step.
    pub closed spec fn current(&self) -> LinkStep {
        self.step
    }

    /// Every level that the run points at exists.
    pub open spec fn wf(&self) -> bool {
        self.current() matches LinkStep::RunLevel(t) ==> t < self.counts().len()
    }

    /// Starts the run of `plan`: its first level, or its final link when it
    /// has no levels.
    pub fn new(plan: &LinkPlan) -> (r: LinkRun)
        ensures
            r.wf(),
            r.counts() == levels_view(plan.levels@).map_values(|l: Seq<Seq<ObjectRef>>| l.len() as usize),
            r.current() == if plan.levels@.len() > 0 {
                LinkStep::RunLevel(0)
            } else {
                LinkStep::RunFinal
            },
    {
        let mut counts: Vec<usize> = Vec::new();
        let mut t: usize = 0;
        while t < plan.levels.len()
            invariant
                t <= plan.levels@.len(),
                counts@ == levels_view(plan.levels@).subrange(0, t as int).map_values(
                    |l: Seq<Seq<ObjectRef>>| l.len() as usize,
                ),
            decreases plan.levels@.len() - t,
        {
            counts.push(plan.levels[t].len());
            assert(counts@ =~= levels_view(plan.levels@).subrange(0, t + 1).map_values(
                |l: Seq<Seq<ObjectRef>>| l.len() as usize,
            ));
            t = t + 1;
        }
        assert(levels_view(plan.levels@).subrange(0, t as int) =~= levels_view(plan.levels@));
        let step = if plan.levels.len() > 0 {
            LinkStep::RunLevel(0)
        } else {
            LinkStep::RunFinal
        };
        LinkRun { batch_counts: counts, step }
    }

    /// The current step.
    pub fn step(&self) -> (s: LinkStep)
        ensures
            s == self.current(),
    {
        self.step
    }

    /// Records that the current level ended with `produced` of its batch
    /// objects written. Fewer than the level's batches fail the run; otherwise
    /// the next level, or the final link, comes next.
    pub fn level_finished(&mut self, produced: usize)
        requires
            old(self).wf(),
            old(self).current() is RunLevel,
        ensures
            final(self).wf(),
            final(self).counts() == old(self).counts(),
            ({
                let t = old(self).current()->0;
                final(self).current() == if produced < old(self).counts()[t as int] {
                    LinkStep::Failed
                } else if t + 1 < old(self).counts().len() {
                    LinkStep::RunLevel((t + 1) as usize)
                } else {
                    LinkStep::RunFinal
                }
            }),
    {
        if let LinkStep::RunLevel(t) = self.step {
            if produced < self.batch_counts[t] {
                self.step = LinkStep::Failed;
            } else if t < self.batch_counts.len() - 1 {
                self.step = LinkStep::RunLevel(t + 1);
            } else {
                self.step = LinkStep::RunFinal;
            }
        }
    }

    /// Records how the final link went.
    pub fn final_finished(&mut self, ok: bool)
        requires
            old(self).current() == LinkStep::RunFinal,
        ensures
            final(self).wf(),
            final(self).counts() == old(self).counts(),
            final(self).current() == if ok {
                LinkStep::Succeeded
            } else {
                LinkStep::Failed
            },
    {
        self.step = if ok {
            LinkStep::Succeeded
        } else {
            LinkStep::Failed
        };
    }
}

/// The inputs that object `r` stands for under the batch links `levels`, in
/// order: an input stands for itself, the output of a batch for what the
/// objects it reads stand for. At most `depth` levels are followed down.
pub open spec fn inputs_behind(levels: Seq<Seq<Seq<ObjectRef>>>, r: ObjectRef, depth: nat) -> Seq<nat>
    decreases depth, 0nat,
{
    match r {
        ObjectRef::Input(i) => seq![i as nat],
        ObjectRef::Intermediate { level, batch } => {
            if depth > 0 && level < levels.len() && batch < levels[level as int].len() {
                inputs_behind_all(levels, levels[level as int][batch as int], (depth - 1) as nat)
            } else {
                Seq::empty()
            }
        },
    }
}

/// What the objects `rs` stand for, one after the other.
pub open spec fn inputs_behind_all(levels: Seq<Seq<Seq<ObjectRef>>>, rs: Seq<ObjectRef>, depth: nat) -> Seq<nat>
    decreases depth, rs.len(),
{
    if rs.len() == 0 {
        Seq::empty()
    } else {
        inputs_behind(levels, rs[0], depth) + inputs_behind_all(levels, rs.drop_first(), depth)
    }
}

proof fn lemma_behind_concat(levels: Seq<Seq<Seq<ObjectRef>>>, a: Seq<ObjectRef>, b: Seq<ObjectRef>, depth: nat)
    ensures
        inputs_behind_all(levels, a + b, depth) == inputs_behind_all(levels, a, depth) + inputs_behind_all(
            levels,
            b,
            depth,
        ),
    decreases a.len(),
{
    if a.len() == 0 {
        assert(a + b =~= b);
        assert(inputs_behind_all(levels, a, depth) + inputs_behind_all(levels, b, depth) =~= inputs_behind_all(
            levels,
            b,
            depth,
        ));
    } else {
        assert((a + b).drop_first() =~= a.drop_first() + b);
        assert((a + b)[0] == a[0]);
        lemma_behind_concat(levels, a.drop_first(), b, depth);
        assert(inputs_behind_all(levels, a + b, depth) =~= inputs_behind_all(levels, a, depth)
            + inputs_behind_all(levels, b, depth));
    }
}

proof fn lemma_behind_flatten(levels: Seq<Seq<Seq<ObjectRef>>>, bs: Seq<Seq<ObjectRef>>, depth: nat)
    ensures
        inputs_behind_all(levels, bs.flatten(), depth) == bs.map_values(
            |b: Seq<ObjectRef>| inputs_behind_all(levels, b, depth),
        ).flatten(),
    decreases bs.len(),
{
    let f = |b: Seq<ObjectRef>| inputs_behind_all(levels, b, depth);
    if bs.len() == 0 {
        assert(bs.map_values(f) =~= Seq::<Seq<nat>>::empty());
    } else {
        lemma_behind_flatten(levels, bs.drop_first(), depth);
        lemma_behind_concat(levels, bs.first(), bs.drop_first().flatten(), depth);
        assert(bs.map_values(f).drop_first() =~= bs.drop_first().map_values(f));
        assert(bs.map_values(f).first() == f(bs.first()));
    }
}

proof fn lemma_behind_batch_refs(levels: Seq<Seq<Seq<ObjectRef>>>, t: nat, k: nat)
    requires
        t < levels.len(),
        k <= levels[t as int].len(),
        t <= usize::MAX,
        k <= usize::MAX,
    ensures
        inputs_behind_all(levels, batch_refs(t, k), t + 1) == levels[t as int].take(k as int).map_values(
            |b: Seq<ObjectRef>| inputs_behind_all(levels, b, t),
        ).flatten(),
    decreases k,
{
    let f = |b: Seq<ObjectRef>| inputs_behind_all(levels, b, t);
    if k == 0 {
        assert(levels[t as int].take(0).map_values(f) =~= Seq::<Seq<nat>>::empty());
        assert(batch_refs(t, 0) =~= Seq::<ObjectRef>::empty());
    } else {
        let p = (k - 1) as nat;
        lemma_behind_batch_refs(levels, t, p);
        let last = ObjectRef::Intermediate { level: t as usize, batch: p as usize };
        assert(batch_refs(t, k) =~= batch_refs(t, p) + seq![last]);
        lemma_behind_concat(levels, batch_refs(t, p), seq![last], t + 1);
        assert(seq![last].drop_first() =~= Seq::<ObjectRef>::empty());
        assert(inputs_behind_all(levels, seq![last].drop_first(), t + 1) == Seq::<nat>::empty());
        assert(inputs_behind_all(levels, seq![last], t + 1) =~= inputs_behind(levels, last, t + 1));
        assert(levels[t as int].take(k as int).map_values(f) =~= levels[t as int].take(p as int).map_values(
            f,
        ).push(f(levels[t as int][p as int])));
        levels[t as int].take(p as int).map_values(f).lemma_flatten_push(f(levels[t as int][p as int]));
    }
}

proof fn lemma_behind_inputs(levels: Seq<Seq<Seq<ObjectRef>>>, n: nat, depth: nat)
    requires
        n <= usize::MAX,
    ensures
        inputs_behind_all(levels, input_refs(n), depth) == Seq::new(n, |i: int| i as nat),
    decreases n,
{
    if n == 0 {
        assert(input_refs(0) =~= Seq::<ObjectRef>::empty());
        assert(Seq::new(0, |i: int| i as nat) =~= Seq::<nat>::empty());
    } else {
        let p = (n - 1) as nat;
        lemma_behind_inputs(levels, p, depth);
        let last = ObjectRef::Input(p as usize);
        assert(input_refs(n) =~= input_refs(p) + seq![last]);
        lemma_behind_concat(levels, input_refs(p), seq![last], depth);
        assert(seq![last].drop_first() =~= Seq::<ObjectRef>::empty());
        assert(inputs_behind_all(levels, seq![last].drop_first(), depth) == Seq::<nat>::empty());
        assert(inputs_behind(levels, last, depth) == seq![p]);
        assert(inputs_behind_all(levels, seq![last], depth) =~= seq![p]);
        assert(Seq::new(n, |i: int| i as nat) =~= Seq::new(p, |i: int| i as nat) + seq![p]);
    }
}

proof fn lemma_reduction_behind(
    full: Seq<Seq<Seq<ObjectRef>>>,
    refs: Seq<ObjectRef>,
    jobs: nat,
    level: nat,
    x: Seq<nat>,
)
    requires
        jobs >= 1,
        level + refs.len() <= usize::MAX,
        full.len() == level + reduction(refs, jobs, level).0.len(),
        full.subrange(level as int, full.len() as int) == reduction(refs, jobs, level).0,
        inputs_behind_all(full, refs, level) == x,
    ensures
        inputs_behind_all(full, reduction(refs, jobs, level).1, full.len()) == x,
    decreases refs.len(),
{
    if jobs < 2 || refs.len() <= jobs {
    } else {
        lemma_ceil_div_bounds(refs.len(), jobs);
        lemma_partition_exact(refs, jobs);
        let bs = batches_of(refs, jobs);
        let k = bs.len();
        let rest = reduction(batch_refs(level, k), jobs, level + 1);
        assert(reduction(refs, jobs, level).0 == seq![bs] + rest.0);
        assert(full[level as int] == full.subrange(level as int, full.len() as int)[0]);
        assert(full[level as int] == bs);
        lemma_behind_batch_refs(full, level, k);
        assert(bs.take(k as int) =~= bs);
        lemma_behind_flatten(full, bs, level);
        let s0 = full.subrange(level as int, full.len() as int);
        assert(full.subrange((level + 1) as int, full.len() as int) =~= s0.subrange(1, s0.len() as int));
        assert((seq![bs] + rest.0).subrange(1, s0.len() as int) =~= rest.0);
        lemma_reduction_behind(full, batch_refs(level, k), jobs, level + 1, x);
    }
}

/// A hierarchical link reads every input exactly once, in order: laid end to
/// end, what the objects of its final link stand for is the whole input list,
/// which is also what a sequential link reads. Relocatable linking merges the
/// symbols of what it reads, so both produce an object with the same symbols.
pub proof fn lemma_plan_reads_each_input_once(n: nat, jobs: nat, mode: LinkMode)
    requires
        jobs >= 1,
        n <= usize::MAX,
    ensures
        inputs_behind_all(
            plan_levels(n, jobs, mode),
            plan_final_inputs(n, jobs, mode),
            plan_levels(n, jobs, mode).len(),
        ) == Seq::new(n, |i: int| i as nat),
        plan_levels(n, jobs, LinkMode::Sequential).len() == 0,
        inputs_behind_all(
            plan_levels(n, jobs, LinkMode::Sequential),
            plan_final_inputs(n, jobs, LinkMode::Sequential),
            0,
        ) == Seq::new(n, |i: int| i as nat),
{
    let full = plan_levels(n, jobs, mode);
    lemma_behind_inputs(full, n, 0);
    lemma_behind_inputs(Seq::empty(), n, 0);
    if !links_directly(n, jobs, mode) {
        assert(full.subrange(0, full.len() as int) =~= full);
        lemma_reduction_behind(full, input_refs(n), jobs, 0, Seq::new(n, |i: int| i as nat));
    }
}

/// Linking the same inputs twice runs the same links: two plans for the same
/// arguments have the same levels, final inputs and thread budget, so their
/// final links stand for the same inputs.
pub proof fn lemma_plan_is_repeatable(
    p1: LinkPlan,
    p2: LinkPlan,
    n: nat,
    jobs: nat,
    linker: LinkerType,
    mode: LinkMode,
)
    requires
        is_plan_for(p1, n, jobs, linker, mode),
        is_plan_for(p2, n, jobs, linker, mode),
    ensures
        levels_view(p1.levels@) == levels_view(p2.levels@),
        p1.final_inputs@ == p2.final_inputs@,
        p1.threads == p2.threads,
        inputs_behind_all(levels_view(p1.levels@), p1.final_inputs@, levels_view(p1.levels@).len())
            == inputs_behind_all(levels_view(p2.levels@), p2.final_inputs@, levels_view(p2.levels@).len()),
{
}

} // verus!
