use vstd::prelude::*;

verus! {

/// How a native environment array is given back to the allocator.
#[derive(Clone, Copy, Debug, PartialEq, Eq, Structural)]
pub enum ReleaseStrategy {
    /// The platform offers one routine that frees the strings and the array.
    Bulk,
    /// Each string is freed on its own, then the array.
    EachThenArray,
}

/// One call that releases native memory.
#[derive(Clone, Copy, Debug, PartialEq, Eq, Structural)]
pub enum ReleaseStep {
    /// Free the whole list, strings and array, with the platform routine.
    WholeList,
    /// Free the string at this position of the array.
    Element(usize),
    /// Free the array itself.
    Array,
}

/// The calls that release an array of `n` strings, in the order they are
/// made.
pub open spec fn release_plan_spec(strategy: ReleaseStrategy, n: nat) -> Seq<ReleaseStep> {
    match strategy {
        ReleaseStrategy::Bulk => seq![ReleaseStep::WholeList],
        ReleaseStrategy::EachThenArray => Seq::new(
            n + 1,
            |j: int|
                if j < n {
                    ReleaseStep::Element(j as usize)
                } else {
                    ReleaseStep::Array
                },
        ),
    }
}

/// The number of steps of `plan` that free the string at position `k`.
pub open spec fn element_releases(plan: Seq<ReleaseStep>, k: usize) -> nat {
    plan.filter(|s: ReleaseStep| s == ReleaseStep::Element(k)).len()
}

/// The number of steps of `plan` that free the array.
pub open spec fn array_releases(plan: Seq<ReleaseStep>) -> nat {
    plan.filter(|s: ReleaseStep| s == ReleaseStep::Array).len()
}

/// The calls that release a native array of `n` strings: with the bulk
/// routine one call; else each string in order, then the array.
pub fn release_plan(strategy: ReleaseStrategy, n: usize) -> (r: Vec<ReleaseStep>)
    requires
        n < usize::MAX,
    ensures
        r@ == release_plan_spec(strategy, n as nat),
{
    let mut plan: Vec<ReleaseStep> = Vec::new();
    match strategy {
        ReleaseStrategy::Bulk => {
            plan.push(ReleaseStep::WholeList);
        },
        ReleaseStrategy::EachThenArray => {
            let mut i: usize = 0;
            while i < n
                invariant
                    i <= n,
                    plan@ == Seq::new(i as nat, |j: int| ReleaseStep::Element(j as usize)),
                decreases n - i,
            {
                plan.push(ReleaseStep::Element(i));
                assert(plan@ =~= Seq::new((i + 1) as nat, |j: int| ReleaseStep::Element(j as usize)));
                i += 1;
            }
            plan.push(ReleaseStep::Array);
        },
    }
    assert(plan@ =~= release_plan_spec(strategy, n as nat));
    plan
}

/// Releasing an array string by string frees nothing twice: each of the `n`
/// strings once, then the array once, as the last call.
pub proof fn lemma_each_then_array_frees_once(n: usize)
    requires
        n < usize::MAX,
    ensures
        release_plan_spec(ReleaseStrategy::EachThenArray, n as nat).len() == n + 1,
        forall|k: usize| k < n ==> element_releases(
            release_plan_spec(ReleaseStrategy::EachThenArray, n as nat),
            k,
        ) == 1,
        forall|k: usize| k >= n ==> element_releases(
            release_plan_spec(ReleaseStrategy::EachThenArray, n as nat),
            k,
        ) == 0,
        array_releases(release_plan_spec(ReleaseStrategy::EachThenArray, n as nat)) == 1,
        release_plan_spec(ReleaseStrategy::EachThenArray, n as nat).last() == ReleaseStep::Array,
{
    let plan = release_plan_spec(ReleaseStrategy::EachThenArray, n as nat);
    assert forall|k: usize| k < n implies element_releases(plan, k) == 1 by {
        lemma_count_single(plan, ReleaseStep::Element(k), k as int);
    }
    assert forall|k: usize| k >= n implies element_releases(plan, k) == 0 by {
        lemma_count_absent(plan, ReleaseStep::Element(k));
    }
    lemma_count_single(plan, ReleaseStep::Array, n as int);
}

/// A step that stands at exactly one position is counted once.
proof fn lemma_count_single(plan: Seq<ReleaseStep>, step: ReleaseStep, at: int)
    requires
        0 <= at < plan.len(),
        plan[at] == step,
        forall|j: int| 0 <= j < plan.len() && j != at ==> plan[j] != step,
    ensures
        plan.filter(|s: ReleaseStep| s == step).len() == 1,
    decreases plan.len(),
{
    reveal(Seq::filter);
    let rest = plan.drop_last();
    if at == plan.len() - 1 {
        lemma_count_absent(rest, step);
    } else {
        lemma_count_single(rest, step, at);
    }
}

/// A step that stands nowhere is counted zero times.
proof fn lemma_count_absent(plan: Seq<ReleaseStep>, step: ReleaseStep)
    requires
        forall|j: int| 0 <= j < plan.len() ==> plan[j] != step,
    ensures
        plan.filter(|s: ReleaseStep| s == step).len() == 0,
    decreases plan.len(),
{
    reveal(Seq::filter);
    if plan.len() > 0 {
        lemma_count_absent(plan.drop_last(), step);
    }
}

} // verus!
