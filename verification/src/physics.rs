//! The fixed-step physics clock and the resolution of impulses into velocity
//! changes. Positions and velocities are floating point and stay with the
//! engine; these functions decide when a physics step happens and which
//! impulses are applied, in which order.
use std::collections::HashMap;
use std::collections::HashSet;
use vstd::prelude::*;
use vstd::std_specs::iter::IteratorSpec;

verus! {

broadcast use vstd::std_specs::hash::group_hash_axioms;

/// The length of a physics step, in milliseconds.
pub const PHYSICS_TICK_TIME: u128 = 33;

/// The milliseconds accumulated towards the next physics step.
pub struct PhysicsTimer(u128);

/// Sent once per physics step.
pub struct PhysicsTick;

/// Marker for a body that gravity pulls down at each physics step.
pub struct ApplyGravity;

impl PhysicsTimer {
    /// The milliseconds accumulated since the last physics step.
    pub closed spec fn spec_elapsed(&self) -> int {
        self.0 as int
    }

    /// The milliseconds accumulated since the last physics step.
    pub fn elapsed(&self) -> (r: u128)
        ensures
            r == self.spec_elapsed(),
    {
        self.0
    }
}

impl Default for PhysicsTimer {
    fn default() -> (r: Self)
        ensures
            r.spec_elapsed() == 0,
    {
        PhysicsTimer(0)
    }
}

/// What a frame of the physics clock does.
#[derive(Clone, Copy, PartialEq, Eq, Debug)]
pub enum ClockAction {
    /// A physics step happens: bodies move to the end of their step, and a
    /// `PhysicsTick` is sent.
    Tick,
    /// No step yet: bodies are drawn `elapsed` thirty-thirds of the way from
    /// the start to the end of the current step.
    Interpolate { elapsed: u128 },
}

/// Adds the milliseconds since the last frame to the clock. Once a step's
/// worth has accumulated, the clock restarts from zero and a step happens;
/// otherwise the frame interpolates.
pub fn physics_clock(clock: &mut PhysicsTimer, ms_since_last_call: u128) -> (r: ClockAction)
    requires
        old(clock).spec_elapsed() + ms_since_last_call <= u128::MAX,
    ensures
        old(clock).spec_elapsed() + ms_since_last_call >= PHYSICS_TICK_TIME ==> {
            &&& r == ClockAction::Tick
            &&& final(clock).spec_elapsed() == 0
        },
        old(clock).spec_elapsed() + ms_since_last_call < PHYSICS_TICK_TIME ==> {
            &&& r == ClockAction::Interpolate {
                elapsed: (old(clock).spec_elapsed() + ms_since_last_call) as u128,
            }
            &&& final(clock).spec_elapsed() == old(clock).spec_elapsed() + ms_since_last_call
        },
        final(clock).spec_elapsed() < PHYSICS_TICK_TIME,
{
    clock.0 = clock.0 + ms_since_last_call;
    if clock.0 >= PHYSICS_TICK_TIME {
        clock.0 = 0;
        ClockAction::Tick
    } else {
        ClockAction::Interpolate { elapsed: clock.0 }
    }
}

/// What the resolution of impulses reads of an impulse: the entity it pushes
/// (by its id), whether it sets the velocity outright, and its source.
#[derive(Clone, Copy, PartialEq, Eq, Debug)]
pub struct ImpulseKey {
    pub target: u64,
    pub absolute: bool,
    pub source: i32,
}

/// Impulse `i` is the last one sent from its source.
pub open spec fn last_of_source(imps: Seq<ImpulseKey>, i: int) -> bool {
    &&& 0 <= i < imps.len()
    &&& forall|j: int| i < j < imps.len() ==> (#[trigger] imps[j]).source != imps[i].source
}

/// `order` lists each impulse that is the last of its source exactly once,
/// and nothing else: a walk over the impulses deduplicated by source.
pub open spec fn is_source_walk(imps: Seq<ImpulseKey>, order: Seq<usize>) -> bool {
    &&& order.no_duplicates()
    &&& forall|j: int| 0 <= j < order.len() ==> last_of_source(imps, #[trigger] order[j] as int)
    &&& forall|i: int| last_of_source(imps, i) ==> #[trigger] order.contains(i as usize)
}

/// The targets that an absolute impulse has set among the first `n` impulses
/// of `order`.
pub open spec fn absolute_targets(
    imps: Seq<ImpulseKey>,
    has_velocity: Seq<bool>,
    order: Seq<usize>,
    n: nat,
) -> Set<u64>
    decreases n,
{
    if n == 0 {
        Set::empty()
    } else {
        let prev = absolute_targets(imps, has_velocity, order, (n - 1) as nat);
        let i = order[n - 1] as int;
        if has_velocity[i] && !prev.contains(imps[i].target) && imps[i].absolute {
            prev.insert(imps[i].target)
        } else {
            prev
        }
    }
}

/// The impulses applied, in order, when the first `n` impulses of `order`
/// are processed: one is skipped when its target has no velocity, or when an
/// absolute impulse has already set its target's velocity.
pub open spec fn applied_steps(
    imps: Seq<ImpulseKey>,
    has_velocity: Seq<bool>,
    order: Seq<usize>,
    n: nat,
) -> Seq<usize>
    decreases n,
{
    if n == 0 {
        Seq::empty()
    } else {
        let prev = applied_steps(imps, has_velocity, order, (n - 1) as nat);
        let i = order[n - 1] as int;
        if has_velocity[i] && !absolute_targets(imps, has_velocity, order, (n - 1) as nat).contains(
            imps[i].target,
        ) {
            prev.push(order[n - 1])
        } else {
            prev
        }
    }
}

/// The last impulse index of each source among the first `n` impulses.
pub open spec fn last_by_source(imps: Seq<ImpulseKey>, n: nat) -> Map<i32, usize>
    decreases n,
{
    if n == 0 {
        Map::empty()
    } else {
        last_by_source(imps, (n - 1) as nat).insert(imps[n - 1].source, (n - 1) as usize)
    }
}

proof fn lemma_last_by_source(imps: Seq<ImpulseKey>, n: nat)
    requires
        n <= imps.len(),
        n <= usize::MAX,
    ensures
        forall|s: i32| #[trigger]
            last_by_source(imps, n).contains_key(s) ==> {
                let v = last_by_source(imps, n)[s] as int;
                &&& 0 <= v < n
                &&& imps[v].source == s
                &&& forall|j: int| v < j < n ==> imps[j].source != s
            },
        forall|i: int| 0 <= i < n ==> #[trigger] last_by_source(imps, n).contains_key(imps[i].source),
    decreases n,
{
    if n > 0 {
        lemma_last_by_source(imps, (n - 1) as nat);
        let prev = last_by_source(imps, (n - 1) as nat);
        assert forall|s: i32| #[trigger] last_by_source(imps, n).contains_key(s) implies {
            let v = last_by_source(imps, n)[s] as int;
            &&& 0 <= v < n
            &&& imps[v].source == s
            &&& forall|j: int| v < j < n ==> imps[j].source != s
        } by {
            if s != imps[n - 1].source {
                assert(prev.contains_key(s));
                assert(last_by_source(imps, n)[s] == prev[s]);
                let v = prev[s] as int;
                assert forall|j: int| v < j < n implies imps[j].source != s by {
                    if j < n - 1 {
                        assert(imps[j].source != s);
                    }
                }
            } else {
                assert(last_by_source(imps, n)[s] == (n - 1) as usize);
            }
        }
        assert forall|i: int| 0 <= i < n implies #[trigger] last_by_source(imps, n).contains_key(
            imps[i].source,
        ) by {
            if i < n - 1 {
                assert(last_by_source(imps, (n - 1) as nat).contains_key(imps[i].source));
            }
        }
    }
}

/// Indexes the impulses by source, keeping the last of each, and lists the
/// kept impulses in the order in which the hash map walks its keys.
pub fn dedupe_by_source(impulses: &Vec<ImpulseKey>) -> (r: Vec<usize>)
    ensures
        is_source_walk(impulses@, r@),
{
    let n = impulses.len();
    let mut last_of: HashMap<i32, usize> = HashMap::new();
    let mut i: usize = 0;
    while i < n
        invariant
            n == impulses@.len(),
            0 <= i <= n,
            last_of@ == last_by_source(impulses@, i as nat),
        decreases n - i,
    {
        last_of.insert(impulses[i].source, i);
        i = i + 1;
    }
    proof {
        lemma_last_by_source(impulses@, n as nat);
    }
    let ghost m = last_of@;
    let ghost ks: Seq<i32> = last_of.keys().remaining().unref();
    let mut order: Vec<usize> = Vec::new();
    for key in it: last_of.keys()
        invariant
            m == last_of@,
            n == impulses@.len(),
            m == last_by_source(impulses@, n as nat),
            forall|s: i32| #[trigger]
                m.contains_key(s) ==> {
                    let v = m[s] as int;
                    &&& 0 <= v < n
                    &&& impulses@[v].source == s
                    &&& forall|j: int| v < j < n ==> impulses@[j].source != s
                },
            it.seq().unref() == ks,
            ks.no_duplicates(),
            ks.to_set() == m.dom(),
            order@.len() == it.index(),
            order@.no_duplicates(),
            forall|j: int|
                0 <= j < it.index() ==> m.contains_key(ks[j]) && #[trigger] order@[j] == m[ks[j]],
    {
        proof {
            assert(ks[it.index()] == *key);
            assert(ks.to_set().contains(*key));
        }
        let v = *last_of.get(key).unwrap();
        proof {
            assert forall|j: int| 0 <= j < order@.len() implies order@[j] != v by {
                let kj = ks[j];
                assert(m.contains_key(kj));
                assert(impulses@[m[kj] as int].source == kj);
            }
        }
        order.push(v);
    }
    proof {
        assert(order@.len() == ks.len());
        assert forall|i: int| last_of_source(impulses@, i) implies #[trigger] order@.contains(
            i as usize,
        ) by {
            let s = impulses@[i].source;
            assert(m.contains_key(s));
            let v = m[s] as int;
            if v < i {
                assert(impulses@[i].source != s);
            } else if v > i {
                assert(impulses@[v].source != impulses@[i].source);
            }
            assert(ks.to_set().contains(s));
            let j = choose|j: int| 0 <= j < ks.len() && ks[j] == s;
            assert(order@[j] == m[s]);
        }
        assert forall|j: int| 0 <= j < order@.len() implies last_of_source(
            impulses@,
            #[trigger] order@[j] as int,
        ) by {
            assert(m.contains_key(ks[j]));
        }
    }
    order
}

/// Processes the impulses listed in `order`: an impulse whose target has no
/// velocity is skipped; so is one whose target an absolute impulse has
/// already set. An absolute impulse sets its target's velocity (and marks the
/// target), any other adds to it. Returns the impulses applied, in order.
pub fn resolve_impulses(
    impulses: &Vec<ImpulseKey>,
    has_velocity: &Vec<bool>,
    order: &Vec<usize>,
) -> (r: Vec<usize>)
    requires
        has_velocity@.len() == impulses@.len(),
        forall|j: int| 0 <= j < order@.len() ==> #[trigger] order@[j] < impulses@.len(),
    ensures
        r@ == applied_steps(impulses@, has_velocity@, order@, order@.len()),
{
    let mut absolute: HashSet<u64> = HashSet::new();
    let mut steps: Vec<usize> = Vec::new();
    let mut k: usize = 0;
    while k < order.len()
        invariant
            has_velocity@.len() == impulses@.len(),
            forall|j: int| 0 <= j < order@.len() ==> #[trigger] order@[j] < impulses@.len(),
            0 <= k <= order@.len(),
            absolute@ == absolute_targets(impulses@, has_velocity@, order@, k as nat),
            steps@ == applied_steps(impulses@, has_velocity@, order@, k as nat),
        decreases order@.len() - k,
    {
        let i = order[k];
        let imp = impulses[i];
        if has_velocity[i] {
            if !absolute.contains(&imp.target) {
                if imp.absolute {
                    absolute.insert(imp.target);
                }
                steps.push(i);
            }
        }
        k = k + 1;
    }
    steps
}

/// Deduplicates the impulses by source (the last of each source wins), then
/// applies them in the order in which the deduplicating hash map walks its
/// sources (see `resolve_impulses`). `has_velocity[i]` tells whether the
/// target of impulse `i` has a velocity. Returns the impulses applied, in
/// order; whatever order the map walks, the result is that of some walk.
pub fn sum_impulses(impulses: &Vec<ImpulseKey>, has_velocity: &Vec<bool>) -> (r: Vec<usize>)
    requires
        has_velocity@.len() == impulses@.len(),
    ensures
        exists|order: Seq<usize>|
            is_source_walk(impulses@, order) && r@ == applied_steps(
                impulses@,
                has_velocity@,
                order,
                order.len(),
            ),
{
    let order = dedupe_by_source(impulses);
    assert forall|j: int| 0 <= j < order@.len() implies #[trigger] order@[j] < impulses@.len() by {
        assert(last_of_source(impulses@, order@[j] as int));
    }
    let r = resolve_impulses(impulses, has_velocity, &order);
    assert(is_source_walk(impulses@, order@));
    r
}

/// The impulses applied when `order` is processed: each is listed in `order`
/// and has a velocity; an absolute impulse that was applied is the last
/// applied to its target; and a target is marked absolute exactly when an
/// absolute impulse to it was applied.
pub proof fn applied_steps_laws(
    imps: Seq<ImpulseKey>,
    has_velocity: Seq<bool>,
    order: Seq<usize>,
    n: nat,
)
    requires
        n <= order.len(),
        has_velocity.len() == imps.len(),
        forall|j: int| 0 <= j < order.len() ==> #[trigger] order[j] < imps.len(),
    ensures
        forall|b: int|
            0 <= b < applied_steps(imps, has_velocity, order, n).len() ==> {
                let i = #[trigger] applied_steps(imps, has_velocity, order, n)[b];
                &&& order.take(n as int).contains(i)
                &&& has_velocity[i as int]
            },
        forall|a: int, b: int|
            0 <= a < b < applied_steps(imps, has_velocity, order, n).len() && imps[#[trigger] applied_steps(
                imps,
                has_velocity,
                order,
                n,
            )[a] as int].absolute ==> imps[applied_steps(imps, has_velocity, order, n)[a] as int].target
                != imps[#[trigger] applied_steps(imps, has_velocity, order, n)[b] as int].target,
        forall|t: u64|
            #[trigger] absolute_targets(imps, has_velocity, order, n).contains(t) <==> exists|a: int|
                0 <= a < applied_steps(imps, has_velocity, order, n).len() && imps[applied_steps(
                    imps,
                    has_velocity,
                    order,
                    n,
                )[a] as int].absolute && imps[#[trigger] applied_steps(
                    imps,
                    has_velocity,
                    order,
                    n,
                )[a] as int].target == t,
    decreases n,
{
    if n > 0 {
        let k = (n - 1) as nat;
        applied_steps_laws(imps, has_velocity, order, k);
        let prev = applied_steps(imps, has_velocity, order, k);
        let cur = applied_steps(imps, has_velocity, order, n);
        let pabs = absolute_targets(imps, has_velocity, order, k);
        let cabs = absolute_targets(imps, has_velocity, order, n);
        let i = order[k as int];
        assert(order.take(n as int) == order.take(k as int).push(i));
        assert forall|b: int| 0 <= b < cur.len() implies {
            let x = #[trigger] cur[b];
            &&& order.take(n as int).contains(x)
            &&& has_velocity[x as int]
        } by {
            if b < prev.len() {
                assert(cur[b] == prev[b]);
                let x = prev[b];
                assert(order.take(k as int).contains(x));
                let j = choose|j: int| 0 <= j < k && order.take(k as int)[j] == x;
                assert(order.take(n as int)[j] == x);
            } else {
                assert(order.take(n as int)[k as int] == i);
            }
        }
        assert forall|a: int, b: int|
            0 <= a < b < cur.len() && imps[#[trigger] cur[a] as int].absolute implies imps[cur[a] as int].target
            != imps[#[trigger] cur[b] as int].target by {
            if b < prev.len() {
                assert(cur[a] == prev[a] && cur[b] == prev[b]);
            } else {
                assert(cur[a] == prev[a]);
                assert(pabs.contains(imps[prev[a] as int].target));
            }
        }
        assert forall|t: u64| #[trigger] cabs.contains(t) <==> exists|a: int|
            0 <= a < cur.len() && imps[cur[a] as int].absolute && imps[#[trigger] cur[a] as int].target
                == t by {
            if cabs.contains(t) {
                if pabs.contains(t) {
                    let a = choose|a: int|
                        0 <= a < prev.len() && imps[prev[a] as int].absolute && imps[#[trigger] prev[a] as int].target
                            == t;
                    assert(cur[a] == prev[a]);
                } else {
                    assert(cur[prev.len() as int] == i);
                }
            }
            if exists|a: int|
                0 <= a < cur.len() && imps[cur[a] as int].absolute && imps[#[trigger] cur[a] as int].target
                    == t {
                let a = choose|a: int|
                    0 <= a < cur.len() && imps[cur[a] as int].absolute && imps[#[trigger] cur[a] as int].target
                        == t;
                if a < prev.len() {
                    assert(cur[a] == prev[a]);
                    assert(pabs.contains(t));
                }
            }
        }
    }
}

/// Without absolute impulses, every impulse of `order` whose target has a
/// velocity is applied, in order.
pub proof fn relative_impulses_all_apply(
    imps: Seq<ImpulseKey>,
    has_velocity: Seq<bool>,
    order: Seq<usize>,
    n: nat,
)
    requires
        n <= order.len(),
        forall|j: int| 0 <= j < order.len() ==> !imps[#[trigger] order[j] as int].absolute,
    ensures
        applied_steps(imps, has_velocity, order, n) == order.take(n as int).filter(
            |i: usize| has_velocity[i as int],
        ),
        absolute_targets(imps, has_velocity, order, n) == Set::<u64>::empty(),
    decreases n,
{
    reveal_with_fuel(Seq::filter, 1);
    if n > 0 {
        let k = (n - 1) as nat;
        relative_impulses_all_apply(imps, has_velocity, order, k);
        assert(order.take(n as int).drop_last() == order.take(k as int));
    }
}

/// The impulses applied when a walk over the impulses deduplicated by source
/// is processed come from distinct sources, and each is the last impulse its
/// source sent.
pub proof fn one_impulse_per_source(
    imps: Seq<ImpulseKey>,
    has_velocity: Seq<bool>,
    order: Seq<usize>,
)
    requires
        has_velocity.len() == imps.len(),
        is_source_walk(imps, order),
    ensures
        forall|b: int|
            0 <= b < applied_steps(imps, has_velocity, order, order.len()).len()
                ==> last_of_source(
                imps,
                #[trigger] applied_steps(imps, has_velocity, order, order.len())[b] as int,
            ),
        forall|a: int, b: int|
            0 <= a < b < applied_steps(imps, has_velocity, order, order.len()).len() ==> imps[#[trigger] applied_steps(
                imps,
                has_velocity,
                order,
                order.len(),
            )[a] as int].source != imps[#[trigger] applied_steps(
                imps,
                has_velocity,
                order,
                order.len(),
            )[b] as int].source,
{
    assert forall|j: int| 0 <= j < order.len() implies #[trigger] order[j] < imps.len() by {
        assert(last_of_source(imps, order[j] as int));
    }
    applied_steps_laws(imps, has_velocity, order, order.len());
    lemma_applied_no_duplicates(imps, has_velocity, order, order.len());
    let steps = applied_steps(imps, has_velocity, order, order.len());
    assert(order.take(order.len() as int) =~= order);
    assert forall|b: int| 0 <= b < steps.len() implies last_of_source(
        imps,
        #[trigger] steps[b] as int,
    ) by {
        let j = choose|j: int| 0 <= j < order.len() && order[j] == steps[b];
        assert(last_of_source(imps, order[j] as int));
    }
    assert forall|a: int, b: int| 0 <= a < b < steps.len() implies imps[#[trigger] steps[a] as int].source
        != imps[#[trigger] steps[b] as int].source by {
        let x = steps[a] as int;
        let y = steps[b] as int;
        assert(last_of_source(imps, x));
        assert(last_of_source(imps, y));
        assert(x != y);
        if x < y {
            assert(imps[y].source != imps[x].source);
        } else {
            assert(imps[x].source != imps[y].source);
        }
    }
}

proof fn lemma_applied_no_duplicates(
    imps: Seq<ImpulseKey>,
    has_velocity: Seq<bool>,
    order: Seq<usize>,
    n: nat,
)
    requires
        n <= order.len(),
        order.no_duplicates(),
        has_velocity.len() == imps.len(),
        forall|j: int| 0 <= j < order.len() ==> #[trigger] order[j] < imps.len(),
    ensures
        applied_steps(imps, has_velocity, order, n).no_duplicates(),
    decreases n,
{
    if n > 0 {
        let k = (n - 1) as nat;
        lemma_applied_no_duplicates(imps, has_velocity, order, k);
        applied_steps_laws(imps, has_velocity, order, k);
        let prev = applied_steps(imps, has_velocity, order, k);
        let x = order[k as int];
        assert forall|b: int| 0 <= b < prev.len() implies prev[b] != x by {
            let j = choose|j: int| 0 <= j < k && order.take(k as int)[j] == prev[b];
            assert(order[j] == prev[b]);
        }
    }
}

} // verus!
