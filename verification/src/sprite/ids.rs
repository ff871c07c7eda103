//! Which sequence a pose plays: its own, or the one it borrows.

use vstd::prelude::*;
use vstd::set_lib::*;
use vstd::string::*;

use crate::sprite::error::{SpriteError, SpriteFault};
use crate::sprite::pose::{POSE_COUNT, Pose, law_pose_index_injective, pose_index};

verus! {

/// A resolved sequence index, with borrowing already applied.
///
/// Opaque, and only obtainable from the sprite it indexes.
#[derive(Clone, Copy, Debug, PartialEq, Eq, Hash, Structural)]
pub struct StateId {
    seq: u8,
}

impl StateId {
    /// The sequence this id names.
    pub closed spec fn seq(self) -> nat {
        self.seq as nat
    }

    /// The dense sequence index.
    pub fn index(self) -> (i: usize)
        ensures
            i == self.seq(),
    {
        self.seq as usize
    }

    /// The id of a sequence.
    pub(crate) fn of(seq: u8) -> (id: StateId)
        ensures
            id.seq() == seq,
    {
        StateId { seq }
    }
}

/// Every pose there is.
pub open spec fn every_pose() -> Set<Pose> {
    set![
        Pose::Idle,
        Pose::Run,
        Pose::Skid,
        Pose::Jump,
        Pose::DoubleJump,
        Pose::Fall,
        Pose::Land,
        Pose::Dash,
        Pose::WallSlide,
        Pose::Swim,
        Pose::Punch,
        Pose::Hurt,
        Pose::Move,
        Pose::Air,
    ]
}

/// There are exactly as many poses as an id table is wide.
pub proof fn lemma_every_pose(p: Pose)
    ensures
        every_pose().contains(p),
        every_pose().finite(),
        every_pose().len() == POSE_COUNT,
{
}

/// The sequence each pose was authored with: `poses[i]` names sequence `i`.
pub open spec fn authored(poses: Seq<Pose>) -> Map<Pose, nat>
    decreases poses.len(),
{
    if poses.len() == 0 {
        Map::empty()
    } else {
        authored(poses.drop_last()).insert(poses.last(), (poses.len() - 1) as nat)
    }
}

/// The first pose, from place `i` on, that an earlier sequence already declared.
pub open spec fn duplicate_fault(poses: Seq<Pose>, who: Seq<char>, i: nat) -> Option<SpriteFault>
    decreases poses.len() - i,
{
    if i >= poses.len() {
        None
    } else if authored(poses.take(i as int)).contains_key(poses[i as int]) {
        Some(SpriteFault::DuplicatePose { who, pose: poses[i as int] })
    } else {
        duplicate_fault(poses, who, i + 1)
    }
}

/// The pose that `p` borrows from: the target of the first rule for it, from rule `i` on.
pub open spec fn borrows(rules: Seq<(Pose, Pose)>, p: Pose, i: nat) -> Option<Pose>
    decreases rules.len() - i,
{
    if i >= rules.len() {
        None
    } else if rules[i as int].0 == p {
        Some(rules[i as int].1)
    } else {
        borrows(rules, p, i + 1)
    }
}

/// How a chase along the borrowing rules ends.
pub enum Chase {
    /// On a pose that already has a sequence.
    Found(nat),
    /// On a pose it has been to before.
    Cycle,
    /// On a pose with neither a sequence nor a rule.
    Dangling,
}

/// Follows the rules from `step` until a pose has a sequence, having been to `seen`.
pub open spec fn chase(
    ids: Map<Pose, nat>,
    rules: Seq<(Pose, Pose)>,
    seen: Set<Pose>,
    step: Pose,
) -> Chase
    decreases every_pose().difference(seen).len(),
{
    if ids.contains_key(step) {
        Chase::Found(ids[step])
    } else if seen.contains(step) {
        Chase::Cycle
    } else {
        match borrows(rules, step, 0) {
            None => Chase::Dangling,
            Some(next) => {
                proof {
                    lemma_every_pose(step);
                    assert(every_pose().difference(seen.insert(step)) =~= every_pose().difference(
                        seen,
                    ).remove(step));
                }
                chase(ids, rules, seen.insert(step), next)
            },
        }
    }
}

/// The id table once the rules from `i` on have been applied in order, or what is wrong with
/// them. A rule for a pose that already has a sequence changes nothing.
pub open spec fn resolved(
    ids: Map<Pose, nat>,
    rules: Seq<(Pose, Pose)>,
    who: Seq<char>,
    i: nat,
) -> Result<Map<Pose, nat>, SpriteFault>
    decreases rules.len() - i,
{
    if i >= rules.len() {
        Ok(ids)
    } else {
        let (from, first) = rules[i as int];
        if ids.contains_key(from) {
            resolved(ids, rules, who, i + 1)
        } else {
            match chase(ids, rules, set![from], first) {
                Chase::Found(id) => resolved(ids.insert(from, id), rules, who, i + 1),
                Chase::Cycle => Err(SpriteFault::FallbackCycle { who, from }),
                Chase::Dangling => Err(SpriteFault::FallbackDangling { who, from, to: first }),
            }
        }
    }
}

/// The whole id table of a sprite, or what is wrong with its poses or its rules.
pub open spec fn id_table(poses: Seq<Pose>, rules: Seq<(Pose, Pose)>, who: Seq<char>) -> Result<
    Map<Pose, nat>,
    SpriteFault,
> {
    match duplicate_fault(poses, who, 0) {
        Some(fault) => Err(fault),
        None => resolved(authored(poses), rules, who, 0),
    }
}

/// What an id table in memory stands for.
pub open spec fn holds_table(ids: Seq<Option<StateId>>, table: Map<Pose, nat>) -> bool {
    &&& ids.len() == POSE_COUNT
    &&& forall|p: Pose|
        match #[trigger] ids[pose_index(p)] {
            Some(id) => table.contains_key(p) && table[p] == id.seq(),
            None => !table.contains_key(p),
        }
}

/// A set of poses in memory.
spec fn holds_set(seen: Seq<bool>, set: Set<Pose>) -> bool {
    &&& seen.len() == POSE_COUNT
    &&& forall|p: Pose| #[trigger] seen[pose_index(p)] == set.contains(p)
}

proof fn lemma_pose_slots()
    ensures
        forall|p: Pose| 0 <= #[trigger] pose_index(p) < POSE_COUNT,
        forall|p: Pose, q: Pose|
            #[trigger] pose_index(p) == #[trigger] pose_index(q) ==> p == q,
{
    assert forall|p: Pose, q: Pose|
        #[trigger] pose_index(p) == #[trigger] pose_index(q) implies p == q by {
        law_pose_index_injective(p, q);
    }
}

/// While no pose has come twice, each has a sequence of its own, so there are no more of them
/// than there are poses.
proof fn lemma_authored_count(poses: Seq<Pose>, n: nat)
    requires
        n <= poses.len(),
        forall|i: int| 0 <= i < n ==> !authored(poses.take(i)).contains_key(#[trigger] poses[i]),
    ensures
        authored(poses.take(n as int)).dom().finite(),
        authored(poses.take(n as int)).dom().len() == n,
        n <= POSE_COUNT,
    decreases n,
{
    let now = poses.take(n as int);
    if n > 0 {
        let before = poses.take(n - 1);
        assert(now.drop_last() =~= before);
        lemma_authored_count(poses, (n - 1) as nat);
        assert(!authored(before).contains_key(poses[n - 1]));
        assert(authored(now).dom() =~= authored(before).dom().insert(poses[n - 1]));
    } else {
        assert(authored(now).dom() =~= Set::empty());
    }
    lemma_every_pose(Pose::Idle);
    assert forall|p: Pose| authored(now).dom().contains(p) implies every_pose().contains(p) by {
        lemma_every_pose(p);
    }
    lemma_len_subset(authored(now).dom(), every_pose());
}

/// The pose the first rule for `p` borrows from.
fn target_of(rules: &Vec<(Pose, Pose)>, p: Pose) -> (to: Option<Pose>)
    ensures
        to == borrows(rules@, p, 0),
{
    let mut i: usize = 0;
    while i < rules.len()
        invariant
            i <= rules.len(),
            borrows(rules@, p, 0) == borrows(rules@, p, i as nat),
        decreases rules.len() - i,
    {
        if rules[i].0 == p {
            return Some(rules[i].1);
        }
        i = i + 1;
    }
    None
}

/// How a walk along the rules ended.
enum Walk {
    Found(StateId),
    Cycle,
    Dangling,
}

/// Follows the rules from `first` until a pose has a sequence. Bounded by the poses it has been
/// to, so rules that borrow from each other end instead of hanging.
fn walk(ids: &Vec<Option<StateId>>, rules: &Vec<(Pose, Pose)>, from: Pose, first: Pose, table: Ghost<
    Map<Pose, nat>,
>) -> (end: Walk)
    requires
        holds_table(ids@, table@),
    ensures
        match end {
            Walk::Found(id) => chase(table@, rules@, set![from], first) == Chase::Found(id.seq()),
            Walk::Cycle => chase(table@, rules@, set![from], first) == Chase::Cycle,
            Walk::Dangling => chase(table@, rules@, set![from], first) == Chase::Dangling,
        },
{
    let mut seen: Vec<bool> = Vec::new();
    while seen.len() < POSE_COUNT
        invariant
            seen.len() <= POSE_COUNT,
            forall|i: int| 0 <= i < seen@.len() ==> !seen@[i],
        decreases POSE_COUNT - seen.len(),
    {
        seen.push(false);
    }
    let ghost mut been = set![from];
    proof {
        lemma_pose_slots();
    }
    seen.set(from.index(), true);
    let mut step: Pose = first;
    loop
        invariant
            holds_table(ids@, table@),
            holds_set(seen@, been),
            chase(table@, rules@, set![from], first) == chase(table@, rules@, been, step),
        decreases every_pose().difference(been).len(),
    {
        proof {
            lemma_pose_slots();
            lemma_every_pose(step);
        }
        let slot: usize = step.index();
        if let Some(id) = ids[slot] {
            return Walk::Found(id);
        }
        if seen[slot] {
            return Walk::Cycle;
        }
        match target_of(rules, step) {
            None => {
                return Walk::Dangling;
            },
            Some(next) => {
                proof {
                    assert(every_pose().difference(been.insert(step)) =~= every_pose().difference(
                        been,
                    ).remove(step));
                    been = been.insert(step);
                }
                seen.set(slot, true);
                step = next;
            },
        }
    }
}

/// Build the pose table, resolving the borrowing rules once.
///
/// Authored poses always win: a rule for a pose that exists is ignored rather than shadowing it.
/// A rule that leads nowhere is an error, because the alternative is an invisible creature.
#[verifier::rlimit(60)]
#[verifier::spinoff_prover]
pub fn build_ids(poses: &Vec<Pose>, rules: &Vec<(Pose, Pose)>, who: &str) -> (out: Result<
    Vec<Option<StateId>>,
    SpriteError,
>)
    ensures
        match out {
            Ok(ids) => {
                &&& id_table(poses@, rules@, who@) is Ok
                &&& holds_table(ids@, id_table(poses@, rules@, who@)->Ok_0)
                &&& poses@.len() <= POSE_COUNT
            },
            Err(e) => id_table(poses@, rules@, who@) == Err::<Map<Pose, nat>, SpriteFault>(e@),
        },
{
    let mut ids: Vec<Option<StateId>> = Vec::new();
    while ids.len() < POSE_COUNT
        invariant
            ids.len() <= POSE_COUNT,
            forall|i: int| 0 <= i < ids@.len() ==> ids@[i] is None,
        decreases POSE_COUNT - ids.len(),
    {
        ids.push(None);
    }
    proof {
        lemma_pose_slots();
        assert(poses@.take(0) =~= Seq::empty());
    }
    let mut i: usize = 0;
    while i < poses.len()
        invariant
            i <= poses.len(),
            holds_table(ids@, authored(poses@.take(i as int))),
            duplicate_fault(poses@, who@, 0) == duplicate_fault(poses@, who@, i as nat),
            forall|j: int|
                0 <= j < i ==> !authored(poses@.take(j)).contains_key(#[trigger] poses@[j]),
        decreases poses.len() - i,
    {
        let pose: Pose = poses[i];
        let slot: usize = pose.index();
        proof {
            lemma_pose_slots();
            assert(ids@[pose_index(pose)] == ids@[slot as int]);
        }
        if ids[slot].is_some() {
            return Err(SpriteError::DuplicatePose { who: String::from_str(who), pose });
        }
        proof {
            lemma_authored_count(poses@, i as nat + 1);
            assert(poses@.take(i as int + 1).drop_last() =~= poses@.take(i as int));
        }
        ids.set(slot, Some(StateId { seq: i as u8 }));
        i = i + 1;
    }
    proof {
        lemma_authored_count(poses@, i as nat);
        assert(poses@.take(i as int) =~= poses@);
    }
    let ghost mut table = authored(poses@);
    let mut k: usize = 0;
    while k < rules.len()
        invariant
            k <= rules.len(),
            poses@.len() <= POSE_COUNT,
            holds_table(ids@, table),
            duplicate_fault(poses@, who@, 0) is None,
            resolved(authored(poses@), rules@, who@, 0) == resolved(table, rules@, who@, k as nat),
        decreases rules.len() - k,
    {
        let from: Pose = rules[k].0;
        let first: Pose = rules[k].1;
        let slot: usize = from.index();
        proof {
            lemma_pose_slots();
            assert(ids@[pose_index(from)] == ids@[slot as int]);
        }
        if ids[slot].is_none() {
            match walk(&ids, rules, from, first, Ghost(table)) {
                Walk::Found(id) => {
                    proof {
                        table = table.insert(from, id.seq());
                    }
                    ids.set(slot, Some(id));
                },
                Walk::Cycle => {
                    return Err(SpriteError::FallbackCycle { who: String::from_str(who), from });
                },
                Walk::Dangling => {
                    return Err(
                        SpriteError::FallbackDangling {
                            who: String::from_str(who),
                            from,
                            to: first,
                        },
                    );
                },
            }
        }
        k = k + 1;
    }
    Ok(ids)
}

/// Whether following the rules from `p` reaches the authored sequence `id` in at most `hops`
/// steps. A pose with a sequence of its own is already there.
pub open spec fn lands(
    own: Map<Pose, nat>,
    rules: Seq<(Pose, Pose)>,
    p: Pose,
    id: nat,
    hops: nat,
) -> bool
    decreases hops,
{
    if own.contains_key(p) {
        own[p] == id
    } else if hops == 0 {
        false
    } else {
        match borrows(rules, p, 0) {
            None => false,
            Some(next) => lands(own, rules, next, id, (hops - 1) as nat),
        }
    }
}

/// Every pose of a table has a sequence that its rules lead to, and the authored ones their own.
spec fn is_led_to(own: Map<Pose, nat>, rules: Seq<(Pose, Pose)>, table: Map<Pose, nat>) -> bool {
    &&& forall|p: Pose| #[trigger]
        own.contains_key(p) ==> table.contains_key(p) && table[p] == own[p]
    &&& forall|p: Pose| #[trigger]
        table.contains_key(p) ==> exists|hops: nat| lands(own, rules, p, table[p], hops)
    &&& forall|p: Pose| #[trigger]
        table.contains_key(p) ==> own.contains_key(p) || borrows(rules, p, 0) is Some
}

proof fn lemma_chase_lands(
    own: Map<Pose, nat>,
    ids: Map<Pose, nat>,
    rules: Seq<(Pose, Pose)>,
    seen: Set<Pose>,
    step: Pose,
)
    requires
        is_led_to(own, rules, ids),
        chase(ids, rules, seen, step) is Found,
    ensures
        exists|hops: nat| lands(own, rules, step, chase(ids, rules, seen, step)->Found_0, hops),
    decreases every_pose().difference(seen).len(),
{
    if !ids.contains_key(step) {
        let next = borrows(rules, step, 0)->0;
        lemma_every_pose(step);
        assert(every_pose().difference(seen.insert(step)) =~= every_pose().difference(seen).remove(
            step,
        ));
        lemma_chase_lands(own, ids, rules, seen.insert(step), next);
        let id = chase(ids, rules, seen, step)->Found_0;
        let hops = choose|hops: nat| lands(own, rules, next, id, hops);
        assert(lands(own, rules, step, id, hops + 1));
    } else {
        let hops = choose|hops: nat| lands(own, rules, step, ids[step], hops);
        assert(lands(own, rules, step, chase(ids, rules, seen, step)->Found_0, hops));
    }
}

proof fn lemma_first_rule(rules: Seq<(Pose, Pose)>, p: Pose, i: nat, k: nat)
    requires
        i <= k < rules.len(),
        rules[k as int].0 == p,
        forall|j: int| i <= j < k ==> (#[trigger] rules[j]).0 != p,
    ensures
        borrows(rules, p, i) == Some(rules[k as int].1),
    decreases k - i,
{
    if i < k {
        assert(rules[i as int].0 != p);
        lemma_first_rule(rules, p, i + 1, k);
    }
}

proof fn lemma_resolved_lands(
    own: Map<Pose, nat>,
    ids: Map<Pose, nat>,
    rules: Seq<(Pose, Pose)>,
    who: Seq<char>,
    i: nat,
)
    requires
        is_led_to(own, rules, ids),
        i <= rules.len(),
        forall|j: int| 0 <= j < i ==> ids.contains_key((#[trigger] rules[j]).0),
        resolved(ids, rules, who, i) is Ok,
    ensures
        is_led_to(own, rules, resolved(ids, rules, who, i)->Ok_0),
        forall|j: int|
            0 <= j < rules.len() ==> resolved(ids, rules, who, i)->Ok_0.contains_key(
                (#[trigger] rules[j]).0,
            ),
    decreases rules.len() - i,
{
    if i < rules.len() {
        let (from, first) = rules[i as int];
        if ids.contains_key(from) {
            lemma_resolved_lands(own, ids, rules, who, i + 1);
        } else {
            lemma_chase_lands(own, ids, rules, set![from], first);
            let id = chase(ids, rules, set![from], first)->Found_0;
            let hops = choose|hops: nat| lands(own, rules, first, id, hops);
            assert forall|j: int| 0 <= j < i implies (#[trigger] rules[j]).0 != from by {
                assert(ids.contains_key(rules[j].0));
            }
            lemma_first_rule(rules, from, 0, i);
            assert(lands(own, rules, from, id, hops + 1));
            let more = ids.insert(from, id);
            assert(is_led_to(own, rules, more)) by {
                assert forall|p: Pose| #[trigger] more.contains_key(p) implies exists|h: nat|
                    lands(own, rules, p, more[p], h) by {
                    if p == from {
                        assert(lands(own, rules, p, more[p], hops + 1));
                    } else {
                        assert(ids.contains_key(p));
                        let h = choose|h: nat| lands(own, rules, p, ids[p], h);
                        assert(lands(own, rules, p, more[p], h));
                    }
                }
                assert forall|p: Pose| #[trigger] more.contains_key(p) implies own.contains_key(p)
                    || borrows(rules, p, 0) is Some by {
                    if p != from {
                        assert(ids.contains_key(p));
                    }
                }
            }
            lemma_resolved_lands(own, more, rules, who, i + 1);
        }
    }
}

proof fn lemma_authored_in_range(poses: Seq<Pose>)
    ensures
        forall|p: Pose| #[trigger]
            authored(poses).contains_key(p) ==> authored(poses)[p] < poses.len()
                && poses[authored(poses)[p] as int] == p,
    decreases poses.len(),
{
    if poses.len() > 0 {
        lemma_authored_in_range(poses.drop_last());
        assert forall|p: Pose| #[trigger] authored(poses).contains_key(p) implies authored(poses)[p]
            < poses.len() && poses[authored(poses)[p] as int] == p by {
            if p != poses.last() {
                assert(authored(poses.drop_last()).contains_key(p));
            }
        }
    }
}

proof fn lemma_lands_in_range(poses: Seq<Pose>, rules: Seq<(Pose, Pose)>, p: Pose, id: nat, hops: nat)
    requires
        lands(authored(poses), rules, p, id, hops),
    ensures
        id < poses.len(),
    decreases hops,
{
    lemma_authored_in_range(poses);
    if !authored(poses).contains_key(p) {
        lemma_lands_in_range(poses, rules, borrows(rules, p, 0)->0, id, (hops - 1) as nat);
    }
}

/// A table that was built sends every authored pose to its own sequence, every pose with a rule
/// to the authored sequence its rules lead to, and no other pose anywhere.
pub proof fn law_ids_follow_the_rules(poses: Seq<Pose>, rules: Seq<(Pose, Pose)>, who: Seq<char>)
    requires
        id_table(poses, rules, who) is Ok,
    ensures
        ({
            let own = authored(poses);
            let table = id_table(poses, rules, who)->Ok_0;
            &&& forall|p: Pose| #[trigger]
                own.contains_key(p) ==> table.contains_key(p) && table[p] == own[p]
            &&& forall|p: Pose| #[trigger]
                table.contains_key(p) <==> own.contains_key(p) || borrows(rules, p, 0) is Some
            &&& forall|p: Pose| #[trigger]
                table.contains_key(p) ==> table[p] < poses.len() && exists|hops: nat|
                    lands(own, rules, p, table[p], hops)
        }),
{
    let own = authored(poses);
    assert(is_led_to(own, rules, own)) by {
        assert forall|p: Pose| #[trigger] own.contains_key(p) implies exists|hops: nat|
            lands(own, rules, p, own[p], hops) by {
            assert(lands(own, rules, p, own[p], 0));
        }
    }
    lemma_resolved_lands(own, own, rules, who, 0);
    let table = id_table(poses, rules, who)->Ok_0;
    assert forall|p: Pose| borrows(rules, p, 0) is Some implies #[trigger] table.contains_key(p) by {
        lemma_borrows_has_rule(rules, p, 0);
    }
    assert forall|p: Pose| #[trigger] table.contains_key(p) implies table[p] < poses.len() by {
        let hops = choose|hops: nat| lands(own, rules, p, table[p], hops);
        lemma_lands_in_range(poses, rules, p, table[p], hops);
    }
}

proof fn lemma_borrows_has_rule(rules: Seq<(Pose, Pose)>, p: Pose, i: nat)
    requires
        borrows(rules, p, i) is Some,
    ensures
        exists|j: int| i <= j < rules.len() && (#[trigger] rules[j]).0 == p,
    decreases rules.len() - i,
{
    if rules[i as int].0 != p {
        lemma_borrows_has_rule(rules, p, i + 1);
    }
}

/// Whether the rules lead from `p` to `q` in exactly `n` steps, past no authored pose.
spec fn leads(own: Map<Pose, nat>, rules: Seq<(Pose, Pose)>, p: Pose, q: Pose, n: nat) -> bool
    decreases n,
{
    if n == 0 {
        p == q
    } else {
        &&& !own.contains_key(p)
        &&& borrows(rules, p, 0) is Some
        &&& leads(own, rules, borrows(rules, p, 0)->0, q, (n - 1) as nat)
    }
}

proof fn lemma_leads_on(own: Map<Pose, nat>, rules: Seq<(Pose, Pose)>, p: Pose, q: Pose, n: nat)
    requires
        leads(own, rules, p, q, n),
        !own.contains_key(q),
        borrows(rules, q, 0) is Some,
    ensures
        leads(own, rules, p, borrows(rules, q, 0)->0, n + 1),
    decreases n,
{
    if n > 0 {
        lemma_leads_on(own, rules, borrows(rules, p, 0)->0, q, (n - 1) as nat);
    } else {
        assert(leads(own, rules, borrows(rules, q, 0)->0, borrows(rules, q, 0)->0, 0));
    }
}

proof fn lemma_lands_after(
    own: Map<Pose, nat>,
    rules: Seq<(Pose, Pose)>,
    p: Pose,
    q: Pose,
    n: nat,
    id: nat,
    hops: nat,
)
    requires
        leads(own, rules, p, q, n),
        lands(own, rules, p, id, hops),
    ensures
        n <= hops,
        lands(own, rules, q, id, (hops - n) as nat),
    decreases n,
{
    if n > 0 {
        lemma_lands_after(
            own,
            rules,
            borrows(rules, p, 0)->0,
            q,
            (n - 1) as nat,
            id,
            (hops - 1) as nat,
        );
    }
}

proof fn lemma_cycle_never_lands(
    own: Map<Pose, nat>,
    rules: Seq<(Pose, Pose)>,
    p: Pose,
    n: nat,
    id: nat,
    hops: nat,
)
    requires
        n > 0,
        leads(own, rules, p, p, n),
    ensures
        !lands(own, rules, p, id, hops),
    decreases hops,
{
    if lands(own, rules, p, id, hops) {
        lemma_lands_after(own, rules, p, p, n, id, hops);
        lemma_cycle_never_lands(own, rules, p, n, id, (hops - n) as nat);
    }
}

proof fn lemma_chase_lost(
    own: Map<Pose, nat>,
    ids: Map<Pose, nat>,
    rules: Seq<(Pose, Pose)>,
    seen: Set<Pose>,
    step: Pose,
)
    requires
        forall|p: Pose| #[trigger] own.contains_key(p) ==> ids.contains_key(p),
        forall|s: Pose| #[trigger]
            seen.contains(s) ==> exists|n: nat| n > 0 && leads(own, rules, s, step, n),
        !(chase(ids, rules, seen, step) is Found),
    ensures
        forall|id: nat, hops: nat| !lands(own, rules, step, id, hops),
    decreases every_pose().difference(seen).len(),
{
    if seen.contains(step) {
        let n = choose|n: nat| n > 0 && leads(own, rules, step, step, n);
        assert forall|id: nat, hops: nat| !lands(own, rules, step, id, hops) by {
            lemma_cycle_never_lands(own, rules, step, n, id, hops);
        }
    } else if let Some(next) = borrows(rules, step, 0) {
        lemma_every_pose(step);
        assert(every_pose().difference(seen.insert(step)) =~= every_pose().difference(seen).remove(
            step,
        ));
        assert forall|s: Pose| #[trigger] seen.insert(step).contains(s) implies exists|n: nat|
            n > 0 && leads(own, rules, s, next, n) by {
            if s == step {
                assert(leads(own, rules, step, step, 0));
                lemma_leads_on(own, rules, step, step, 0);
                assert(leads(own, rules, s, next, 1));
            } else {
                let n = choose|n: nat| n > 0 && leads(own, rules, s, step, n);
                lemma_leads_on(own, rules, s, step, n);
                assert(leads(own, rules, s, next, n + 1));
            }
        }
        lemma_chase_lost(own, ids, rules, seen.insert(step), next);
        assert forall|id: nat, hops: nat| !lands(own, rules, step, id, hops) by {
            if hops > 0 {
                assert(!lands(own, rules, next, id, (hops - 1) as nat));
            }
        }
    }
}

proof fn lemma_resolved_lost(
    own: Map<Pose, nat>,
    ids: Map<Pose, nat>,
    rules: Seq<(Pose, Pose)>,
    who: Seq<char>,
    i: nat,
)
    requires
        forall|p: Pose| #[trigger] own.contains_key(p) ==> ids.contains_key(p),
        i <= rules.len(),
        forall|j: int| 0 <= j < i ==> ids.contains_key((#[trigger] rules[j]).0),
        resolved(ids, rules, who, i) is Err,
    ensures
        exists|j: int|
            0 <= j < rules.len() && never_lands(own, rules, (#[trigger] rules[j]).0) && (resolved(
                ids,
                rules,
                who,
                i,
            )->Err_0 == (SpriteFault::FallbackCycle { who, from: rules[j].0 }) || resolved(
                ids,
                rules,
                who,
                i,
            )->Err_0 == (SpriteFault::FallbackDangling { who, from: rules[j].0, to: rules[j].1 })),
    decreases rules.len() - i,
{
    if i < rules.len() {
        let (from, first) = rules[i as int];
        if ids.contains_key(from) {
            lemma_resolved_lost(own, ids, rules, who, i + 1);
        } else {
            match chase(ids, rules, set![from], first) {
                Chase::Found(id) => {
                    lemma_resolved_lost(own, ids.insert(from, id), rules, who, i + 1);
                },
                _ => {
                    assert forall|j: int| 0 <= j < i implies (#[trigger] rules[j]).0 != from by {
                        assert(ids.contains_key(rules[j].0));
                    }
                    lemma_first_rule(rules, from, 0, i);
                    assert(leads(own, rules, from, from, 0));
                    lemma_leads_on(own, rules, from, from, 0);
                    assert(leads(own, rules, from, first, 1));
                    lemma_chase_lost(own, ids, rules, set![from], first);
                    assert forall|id: nat, hops: nat| !lands(own, rules, from, id, hops) by {
                        if hops > 0 {
                            assert(!lands(own, rules, first, id, (hops - 1) as nat));
                        }
                    }
                    assert(never_lands(own, rules, rules[i as int].0));
                },
            }
        }
    }
}

/// Following the rules from `p` reaches no authored sequence, however far they are followed.
pub open spec fn never_lands(own: Map<Pose, nat>, rules: Seq<(Pose, Pose)>, p: Pose) -> bool {
    forall|id: nat, hops: nat| !lands(own, rules, p, id, hops)
}

/// Rules are refused only for a pose that they lead nowhere: the pose the fault names has a rule,
/// and following the rules from it never reaches an authored sequence.
pub proof fn law_refused_rules_lead_nowhere(
    poses: Seq<Pose>,
    rules: Seq<(Pose, Pose)>,
    who: Seq<char>,
)
    requires
        duplicate_fault(poses, who, 0) is None,
        id_table(poses, rules, who) is Err,
    ensures
        exists|j: int|
            0 <= j < rules.len() && never_lands(authored(poses), rules, (#[trigger] rules[j]).0) && (
            id_table(poses, rules, who)->Err_0 == (SpriteFault::FallbackCycle {
                who,
                from: rules[j].0,
            }) || id_table(poses, rules, who)->Err_0 == (SpriteFault::FallbackDangling {
                who,
                from: rules[j].0,
                to: rules[j].1,
            })),
{
    lemma_resolved_lost(authored(poses), authored(poses), rules, who, 0);
}

/// A pose borrows from where its first rule says, and from nowhere just where it has none.
pub proof fn law_a_pose_borrows_by_its_first_rule(rules: Seq<(Pose, Pose)>, p: Pose, i: nat)
    ensures
        borrows(rules, p, i) matches Some(q) ==> exists|k: int|
            i <= k < rules.len() && #[trigger] rules[k] == (p, q) && forall|j: int|
                i <= j < k ==> (#[trigger] rules[j]).0 != p,
        borrows(rules, p, i) is None ==> forall|k: int|
            i <= k < rules.len() ==> (#[trigger] rules[k]).0 != p,
    decreases rules.len() - i,
{
    if i < rules.len() {
        if rules[i as int].0 == p {
            assert(rules[i as int] == (p, rules[i as int].1));
        } else {
            law_a_pose_borrows_by_its_first_rule(rules, p, i + 1);
            if borrows(rules, p, i) is Some {
                let q = borrows(rules, p, i)->0;
                let k = choose|k: int|
                    i + 1 <= k < rules.len() && #[trigger] rules[k] == (p, q) && forall|j: int|
                        i + 1 <= j < k ==> (#[trigger] rules[j]).0 != p;
                assert(rules[k] == (p, q));
                assert(forall|j: int| i <= j < k ==> (#[trigger] rules[j]).0 != p);
            }
        }
    }
}

/// A pose that is authored once plays the sequence at its own place, and one that is not authored
/// plays none of its own.
pub proof fn law_a_pose_plays_its_own_sequence(poses: Seq<Pose>, i: int, p: Pose)
    requires
        0 <= i < poses.len(),
        forall|j: int| i < j < poses.len() ==> #[trigger] poses[j] != poses[i],
    ensures
        authored(poses).contains_key(poses[i]),
        authored(poses)[poses[i]] == i,
        authored(poses).contains_key(p) ==> poses.contains(p),
    decreases poses.len(),
{
    let less = poses.drop_last();
    lemma_authored_are_poses(poses, p);
    if i < less.len() {
        assert forall|j: int| i < j < less.len() implies #[trigger] less[j] != less[i] by {
            assert(less[j] == poses[j]);
        }
        law_a_pose_plays_its_own_sequence(less, i, p);
        assert(poses.last() == poses[poses.len() - 1]);
        assert(less[i] == poses[i]);
    }
}

proof fn lemma_authored_are_poses(poses: Seq<Pose>, p: Pose)
    ensures
        authored(poses).contains_key(p) <==> poses.contains(p),
    decreases poses.len(),
{
    if poses.len() > 0 {
        let less = poses.drop_last();
        lemma_authored_are_poses(less, p);
        if poses.contains(p) {
            let k = choose|k: int| 0 <= k < poses.len() && poses[k] == p;
            if k < less.len() {
                assert(less[k] == p);
            }
        }
        if less.contains(p) {
            let k = choose|k: int| 0 <= k < less.len() && less[k] == p;
            assert(poses[k] == p);
        }
        if p == poses.last() {
            assert(poses[poses.len() - 1] == p);
        }
    }
}

/// A pose that is authored twice is refused, the first such by its name, and nothing else is refused
/// for it.
pub proof fn law_a_pose_is_authored_once(poses: Seq<Pose>, who: Seq<char>, i: nat)
    ensures
        duplicate_fault(poses, who, i) is None ==> forall|j: int, k: int|
            0 <= j < k < poses.len() && i <= k ==> #[trigger] poses[j] != #[trigger] poses[k],
        duplicate_fault(poses, who, i) matches Some(fault) ==> exists|j: int, k: int|
            0 <= j < k < poses.len() && i <= k && #[trigger] poses[j] == #[trigger] poses[k]
                && fault == (SpriteFault::DuplicatePose { who, pose: poses[k] }),
    decreases poses.len() - i,
{
    if i < poses.len() {
        let before = poses.take(i as int);
        let p = poses[i as int];
        lemma_authored_are_poses(before, p);
        if before.contains(p) {
            let j = choose|j: int| 0 <= j < before.len() && before[j] == p;
            assert(poses[j] == poses[i as int]);
        } else {
            law_a_pose_is_authored_once(poses, who, i + 1);
            assert forall|j: int, k: int|
                duplicate_fault(poses, who, i) is None && 0 <= j < k < poses.len() && i
                    <= k implies #[trigger] poses[j] != #[trigger] poses[k] by {
                if k == i {
                    assert(before[j] == poses[j]);
                }
            }
        }
    }
}

} // verus!
