//! Cause and effect: the puzzle steps of a level, and the check that they
//! can be carried out in order.

use crate::error::LevelError;
use crate::graph::{NodeId, SmartTerrain};
use std::collections::HashMap;
use vstd::prelude::*;

verus! {

broadcast use vstd::std_specs::hash::group_hash_axioms;

/// What the player's bucket holds.
#[derive(Debug, Clone, Copy, PartialEq, Eq, Hash, Structural)]
pub enum BucketContent {
    Empty,
    Water,
    Snow,
}

impl Default for BucketContent {
    fn default() -> (content: Self)
        ensures
            content == BucketContent::Empty,
    {
        BucketContent::Empty
    }
}

/// A state of the puzzle that play can bring about.
#[derive(Debug, Clone, Copy, PartialEq, Eq, Hash, Structural)]
pub enum Effect {
    /// The bucket holds water.
    WaterBucket,
    /// The bucket holds snow.
    SnowBucket,
    /// The bucket is empty.
    EmptyBucket,
    /// The goal container has received the fill with this index.
    ContainerFilled(usize),
    /// The fire on this platform is out.
    FireExtinguished(NodeId),
    /// The switch on this platform has been activated.
    SwitchActivated(NodeId),
    /// The way to this platform is open.
    PathAccessible(NodeId),
}

/// What must hold before an effect can be brought about.
#[derive(Debug, Clone, PartialEq)]
pub enum Cause {
    /// Nothing: the player can do this at any time.
    Player,
    /// The bucket holds `content` while the player stands on `location`.
    BucketAt { content: BucketContent, location: NodeId },
    /// At least one of these effects has been achieved.
    RequiresAny(Vec<Effect>),
    /// Every one of these effects has been achieved.
    RequiresAll(Vec<Effect>),
}

/// A cause as contracts see it.
pub enum CauseView {
    Player,
    BucketAt { content: BucketContent, location: NodeId },
    RequiresAny(Seq<Effect>),
    RequiresAll(Seq<Effect>),
}

impl View for Cause {
    type V = CauseView;

    open spec fn view(&self) -> CauseView {
        match self {
            Cause::Player => CauseView::Player,
            Cause::BucketAt { content, location } => CauseView::BucketAt {
                content: *content,
                location: *location,
            },
            Cause::RequiresAny(effects) => CauseView::RequiresAny(effects@),
            Cause::RequiresAll(effects) => CauseView::RequiresAll(effects@),
        }
    }
}

/// One step of the puzzle: an effect, what it takes, the terrain that makes
/// it possible, and where that terrain stands.
#[derive(Debug, Clone)]
pub struct CausalityNode {
    /// What this step achieves.
    pub effect: Effect,
    /// What this step needs.
    pub cause: Cause,
    /// The terrain that enables it.
    pub terrain: SmartTerrain,
    /// The platform on which the terrain is placed.
    pub location: NodeId,
}

/// A step as contracts see it.
pub struct StepView {
    pub effect: Effect,
    pub cause: CauseView,
    pub terrain: SmartTerrain,
    pub location: NodeId,
}

impl View for CausalityNode {
    type V = StepView;

    open spec fn view(&self) -> StepView {
        StepView {
            effect: self.effect,
            cause: self.cause@,
            terrain: self.terrain,
            location: self.location,
        }
    }
}

/// The steps that solve a level, stored from the goal back to the start.
#[derive(Debug, Clone)]
pub struct CausalityChain {
    /// The steps, the last one to be played first.
    pub nodes: Vec<CausalityNode>,
    /// What the whole chain achieves.
    pub goal: Effect,
}

/// A chain as contracts see it.
pub struct ChainView {
    pub nodes: Seq<StepView>,
    pub goal: Effect,
}

impl View for CausalityChain {
    type V = ChainView;

    open spec fn view(&self) -> ChainView {
        ChainView { nodes: self.nodes@.map_values(|node: CausalityNode| node@), goal: self.goal }
    }
}

/// The first effect of `needed` that `achieved` lacks, if there is one.
pub open spec fn first_missing(needed: Seq<Effect>, achieved: Set<Effect>) -> Option<Effect>
    decreases needed.len(),
{
    if needed.len() == 0 {
        None
    } else if !achieved.contains(needed.first()) {
        Some(needed.first())
    } else {
        first_missing(needed.drop_first(), achieved)
    }
}

/// At least one of `options` has been achieved.
pub open spec fn any_achieved(options: Seq<Effect>, achieved: Set<Effect>) -> bool {
    exists|i: int| 0 <= i < options.len() && achieved.contains(#[trigger] options[i])
}

/// Every one of `needed` has been achieved.
pub open spec fn all_achieved(needed: Seq<Effect>, achieved: Set<Effect>) -> bool {
    forall|i: int| 0 <= i < needed.len() ==> achieved.contains(#[trigger] needed[i])
}

/// Whether a cause is satisfied once `achieved` has been achieved. That
/// the bucket holds something somewhere is taken for granted: the bucket is
/// not followed through the chain.
pub open spec fn cause_met(cause: CauseView, achieved: Set<Effect>) -> bool {
    match cause {
        CauseView::Player => true,
        CauseView::BucketAt { .. } => true,
        CauseView::RequiresAny(options) => any_achieved(options, achieved),
        CauseView::RequiresAll(needed) => all_achieved(needed, achieved),
    }
}

/// Why a step cannot be played once `achieved` has been achieved, if it
/// cannot.
pub open spec fn step_failure(step: StepView, achieved: Set<Effect>) -> Option<LevelError> {
    match step.cause {
        CauseView::Player => None,
        CauseView::BucketAt { .. } => None,
        CauseView::RequiresAny(options) => if cause_met(step.cause, achieved) {
            None
        } else {
            Some(LevelError::NoneAchieved { effect: step.effect })
        },
        CauseView::RequiresAll(needed) => match first_missing(needed, achieved) {
            Some(missing) => Some(LevelError::NotAchieved { effect: step.effect, missing }),
            None => None,
        },
    }
}

impl ChainView {
    /// The chain with one more step stored at the end, which is played
    /// before all the others.
    pub open spec fn push(self, step: StepView) -> ChainView {
        ChainView { nodes: self.nodes.push(step), ..self }
    }

    /// The steps in the order of play.
    pub open spec fn forward(self) -> Seq<StepView> {
        self.nodes.reverse()
    }

    /// The effects that the first `played` steps of play achieve.
    pub open spec fn achieved(self, played: int) -> Set<Effect> {
        Set::new(|effect: Effect| exists|j: int| 0 <= j < played && self.effect_at(j) == effect)
    }

    /// The effect of step `j` of play.
    pub open spec fn effect_at(self, j: int) -> Effect {
        self.forward()[j].effect
    }

    /// Step `k` of play can be played after the steps before it.
    pub open spec fn step_ready(self, k: int) -> bool {
        cause_met(self.forward()[k].cause, self.achieved(k))
    }

    /// The chain can be played through: each step's cause is satisfied by
    /// what the steps before it achieve, and at the end the goal has been
    /// achieved.
    pub open spec fn is_valid(self) -> bool {
        &&& forall|k: int| 0 <= k < self.nodes.len() ==> #[trigger] self.step_ready(k)
        &&& self.achieved(self.nodes.len() as int).contains(self.goal)
    }

    /// What validation finds from step `k` of play on: the failure of the
    /// first step that cannot be played, or else of the goal if the chain
    /// does not achieve it.
    pub open spec fn verdict_from(self, k: int) -> Result<(), LevelError>
        decreases self.nodes.len() - k,
    {
        if k >= self.nodes.len() {
            if self.achieved(self.nodes.len() as int).contains(self.goal) {
                Ok(())
            } else {
                Err(LevelError::GoalNotAchieved { effect: self.goal })
            }
        } else {
            match step_failure(self.forward()[k], self.achieved(k)) {
                Some(error) => Err(error),
                None => self.verdict_from(k + 1),
            }
        }
    }

    /// What validation finds.
    pub open spec fn verdict(self) -> Result<(), LevelError> {
        self.verdict_from(0)
    }

    /// The terrain that the first `count` stored steps place on the
    /// platform with index `location`, in stored order.
    pub open spec fn terrain_upto(self, count: int, location: usize) -> Seq<SmartTerrain>
        decreases count,
    {
        if count <= 0 {
            Seq::empty()
        } else {
            let earlier = self.terrain_upto(count - 1, location);
            if self.nodes[count - 1].location.0 == location {
                earlier.push(self.nodes[count - 1].terrain)
            } else {
                earlier
            }
        }
    }

    /// The terrain that the chain places on the platform with index
    /// `location`, in stored order.
    pub open spec fn terrain_at(self, location: usize) -> Seq<SmartTerrain> {
        self.terrain_upto(self.nodes.len() as int, location)
    }

    /// One of the first `count` stored steps places terrain on the
    /// platform with index `location`.
    pub open spec fn uses_upto(self, count: int, location: usize) -> bool {
        exists|i: int| 0 <= i < count && (#[trigger] self.nodes[i]).location.0 == location
    }

    /// Some step places terrain on the platform with index `location`.
    pub open spec fn uses(self, location: usize) -> bool {
        self.uses_upto(self.nodes.len() as int, location)
    }
}

/// Nothing is missing exactly when everything needed has been achieved.
pub proof fn lemma_first_missing(needed: Seq<Effect>, achieved: Set<Effect>)
    ensures
        first_missing(needed, achieved) is None <==> all_achieved(needed, achieved),
        first_missing(needed, achieved) matches Some(missing) ==> !achieved.contains(missing)
            && needed.contains(missing),
    decreases needed.len(),
{
    if needed.len() > 0 {
        let rest = needed.drop_first();
        lemma_first_missing(rest, achieved);
        assert(needed[0] == needed.first());
        assert forall|i: int| 0 <= i < rest.len() implies #[trigger] rest[i] == needed[i + 1] by {}
        if achieved.contains(needed.first()) {
            if all_achieved(rest, achieved) {
                assert forall|i: int| 0 <= i < needed.len() implies achieved.contains(
                    #[trigger] needed[i],
                ) by {
                    if i > 0 {
                        assert(achieved.contains(rest[i - 1]));
                    }
                }
            }
            if all_achieved(needed, achieved) {
                assert forall|i: int| 0 <= i < rest.len() implies achieved.contains(
                    #[trigger] rest[i],
                ) by {
                    assert(achieved.contains(needed[i + 1]));
                }
            }
            if first_missing(rest, achieved) is Some {
                let missing = first_missing(rest, achieved)->0;
                let i = choose|i: int| 0 <= i < rest.len() && rest[i] == missing;
                assert(needed[i + 1] == missing);
            }
        }
    }
}

/// A step fails exactly when its cause is not satisfied.
pub proof fn lemma_step_failure(step: StepView, achieved: Set<Effect>)
    ensures
        step_failure(step, achieved) is None <==> cause_met(step.cause, achieved),
{
    match step.cause {
        CauseView::RequiresAll(needed) => {
            lemma_first_missing(needed, achieved);
        },
        _ => {},
    }
}

/// From step `k` on, validation succeeds exactly when every step from
/// there on can be played and the chain achieves its goal.
proof fn lemma_verdict_from(chain: ChainView, k: int)
    requires
        0 <= k <= chain.nodes.len(),
    ensures
        chain.verdict_from(k) is Ok <==> (forall|j: int|
            k <= j < chain.nodes.len() ==> #[trigger] chain.step_ready(j)) && chain.achieved(
            chain.nodes.len() as int,
        ).contains(chain.goal),
    decreases chain.nodes.len() - k,
{
    if k < chain.nodes.len() {
        lemma_step_failure(chain.forward()[k], chain.achieved(k));
        lemma_verdict_from(chain, k + 1);
        if chain.verdict_from(k) is Ok {
            assert forall|j: int| k <= j < chain.nodes.len() implies #[trigger] chain.step_ready(
                j,
            ) by {
                if j > k {
                    assert(chain.step_ready(j));
                }
            }
        } else if step_failure(chain.forward()[k], chain.achieved(k)) is Some {
            assert(!chain.step_ready(k));
        }
    }
}

/// Validation succeeds if and only if, in the order of play, every step's
/// cause is satisfied by the effects achieved before it and the goal is
/// among the effects achieved at the end.
pub proof fn lemma_verdict_ok_iff_valid(chain: ChainView)
    ensures
        chain.verdict() is Ok <==> chain.is_valid(),
{
    lemma_verdict_from(chain, 0);
}

/// Whether `effects` holds `wanted`.
fn holds_effect(effects: &Vec<Effect>, wanted: Effect) -> (found: bool)
    ensures
        found == effects@.contains(wanted),
{
    let mut i: usize = 0;
    while i < effects.len()
        invariant
            i <= effects.len(),
            forall|j: int| 0 <= j < i ==> effects@[j] != wanted,
        decreases effects.len() - i,
    {
        if effects[i] == wanted {
            return true;
        }
        i += 1;
    }
    false
}

impl CausalityChain {
    /// A chain without steps that is to achieve `goal`.
    pub fn new(goal: Effect) -> (chain: Self)
        ensures
            chain@ == (ChainView { nodes: Seq::empty(), goal }),
    {
        let chain = CausalityChain { nodes: Vec::new(), goal };
        assert(chain@.nodes =~= Seq::empty());
        chain
    }

    /// Stores one more step, which is played before all those stored so
    /// far.
    pub fn add_node(&mut self, node: CausalityNode)
        ensures
            final(self)@ == old(self)@.push(node@),
    {
        self.nodes.push(node);
        assert(self@.nodes =~= old(self)@.nodes.push(node@));
    }

    /// The steps in the order of play: the last one stored comes first.
    pub fn forward_order(&self) -> (steps: Vec<&CausalityNode>)
        ensures
            steps@.len() == self.nodes.len(),
            forall|k: int|
                0 <= k < steps@.len() ==> *(#[trigger] steps@[k]) == self.nodes@[self.nodes.len()
                    - 1 - k],
            steps@.map_values(|node: &CausalityNode| node@) == self@.forward(),
    {
        let mut steps: Vec<&CausalityNode> = Vec::new();
        let mut left: usize = self.nodes.len();
        while left > 0
            invariant
                left <= self.nodes.len(),
                steps@.len() == self.nodes.len() - left,
                forall|k: int|
                    0 <= k < steps@.len() ==> *(#[trigger] steps@[k]) == self.nodes@[
                        self.nodes.len() - 1 - k],
            decreases left,
        {
            left -= 1;
            steps.push(&self.nodes[left]);
        }
        assert(steps@.map_values(|node: &CausalityNode| node@) =~= self@.forward());
        steps
    }

    /// Plays the chain through from its first step: succeeds if every
    /// step's cause is satisfied by what the steps before it achieve and
    /// the goal is achieved at the end. Otherwise the error names the
    /// effect of the first step that cannot be played, or the goal that
    /// the chain does not achieve.
    pub fn validate(&self) -> (result: Result<(), LevelError>)
        ensures
            result == self@.verdict(),
            result is Ok <==> self@.is_valid(),
    {
        let count = self.nodes.len();
        let mut achieved: Vec<Effect> = Vec::new();
        let mut played: usize = 0;
        proof {
            lemma_verdict_ok_iff_valid(self@);
        }
        while played < count
            invariant
                count == self.nodes.len(),
                played <= count,
                achieved@.len() == played,
                forall|j: int| 0 <= j < played ==> achieved@[j] == self@.effect_at(j),
                self@.verdict_from(played as int) == self@.verdict(),
                self@.verdict() is Ok <==> self@.is_valid(),
            decreases count - played,
        {
            let node = &self.nodes[count - 1 - played];
            let ghost step = self@.forward()[played as int];
            let ghost so_far = self@.achieved(played as int);
            proof {
                assert(step == node@);
                assert forall|effect: Effect| achieved@.contains(effect) <==> so_far.contains(
                    effect,
                ) by {
                    if achieved@.contains(effect) {
                        let j = choose|j: int| 0 <= j < achieved@.len() && achieved@[j] == effect;
                        assert(self@.effect_at(j) == effect);
                    }
                    if so_far.contains(effect) {
                        let j = choose|j: int| 0 <= j < played && self@.effect_at(j) == effect;
                        assert(achieved@[j] == effect);
                    }
                }
            }
            match &node.cause {
                Cause::Player => {},
                Cause::BucketAt { .. } => {},
                Cause::RequiresAny(options) => {
                    let mut any: bool = false;
                    let mut i: usize = 0;
                    while i < options.len()
                        invariant
                            i <= options.len(),
                            forall|effect: Effect|
                                achieved@.contains(effect) <==> so_far.contains(effect),
                            any <==> any_achieved(options@.subrange(0, i as int), so_far),
                        decreases options.len() - i,
                    {
                        proof {
                            let sooner = options@.subrange(0, i as int);
                            let later = options@.subrange(0, i + 1);
                            assert(later[i as int] == options@[i as int]);
                            if any_achieved(sooner, so_far) {
                                let j = choose|j: int|
                                    0 <= j < sooner.len() && so_far.contains(#[trigger] sooner[j]);
                                assert(later[j] == sooner[j]);
                            }
                            if any_achieved(later, so_far) && !so_far.contains(options@[i as int]) {
                                let j = choose|j: int|
                                    0 <= j < later.len() && so_far.contains(#[trigger] later[j]);
                                assert(sooner[j] == later[j]);
                            }
                        }
                        if holds_effect(&achieved, options[i]) {
                            any = true;
                        }
                        i += 1;
                    }
                    assert(options@.subrange(0, i as int) =~= options@);
                    if !any {
                        return Err(LevelError::NoneAchieved { effect: node.effect });
                    }
                },
                Cause::RequiresAll(needed) => {
                    let mut i: usize = 0;
                    assert(needed@.skip(0) =~= needed@);
                    while i < needed.len()
                        invariant
                            i <= needed.len(),
                            self@.verdict() is Ok <==> self@.is_valid(),
                            forall|effect: Effect|
                                achieved@.contains(effect) <==> so_far.contains(effect),
                            first_missing(needed@.skip(i as int), so_far) == first_missing(
                                needed@,
                                so_far,
                            ),
                            self@.verdict_from(played as int) == self@.verdict(),
                            step == self@.forward()[played as int],
                            step.cause == CauseView::RequiresAll(needed@),
                            step.effect == node.effect,
                            so_far == self@.achieved(played as int),
                            played < self.nodes.len(),
                        decreases needed.len() - i,
                    {
                        proof {
                            assert(needed@.skip(i as int).first() == needed@[i as int]);
                            assert(needed@.skip(i as int).drop_first() =~= needed@.skip(i + 1));
                        }
                        if !holds_effect(&achieved, needed[i]) {
                            return Err(
                                LevelError::NotAchieved { effect: node.effect, missing: needed[i] },
                            );
                        }
                        i += 1;
                    }
                    proof {
                        assert(needed@.skip(i as int) =~= Seq::empty());
                    }
                },
            }
            achieved.push(node.effect);
            played += 1;
        }
        proof {
            let so_far = self@.achieved(count as int);
            assert forall|effect: Effect| achieved@.contains(effect) <==> so_far.contains(
                effect,
            ) by {
                if achieved@.contains(effect) {
                    let j = choose|j: int| 0 <= j < achieved@.len() && achieved@[j] == effect;
                    assert(self@.effect_at(j) == effect);
                }
                if so_far.contains(effect) {
                    let j = choose|j: int| 0 <= j < count && self@.effect_at(j) == effect;
                    assert(achieved@[j] == effect);
                }
            }
        }
        if !holds_effect(&achieved, self.goal) {
            return Err(LevelError::GoalNotAchieved { effect: self.goal });
        }
        Ok(())
    }

    /// The terrain that the chain places, grouped by the index of the
    /// platform it is placed on; within a group the terrain keeps the
    /// order in which the steps are stored.
    pub fn terrain_by_location(&self) -> (terrain_map: HashMap<usize, Vec<SmartTerrain>>)
        ensures
            forall|location: usize| #[trigger]
                terrain_map@.contains_key(location) <==> self@.uses(location),
            forall|location: usize| #[trigger]
                terrain_map@.contains_key(location) ==> terrain_map@[location]@
                    == self@.terrain_at(location),
    {
        let mut terrain_map: HashMap<usize, Vec<SmartTerrain>> = HashMap::new();
        let mut i: usize = 0;
        while i < self.nodes.len()
            invariant
                i <= self.nodes.len(),
                forall|location: usize| #[trigger]
                    terrain_map@.contains_key(location) <==> self@.uses_upto(i as int, location),
                forall|location: usize| #[trigger]
                    terrain_map@.contains_key(location) ==> terrain_map@[location]@
                        == self@.terrain_upto(i as int, location),
            decreases self.nodes.len() - i,
        {
            let node = &self.nodes[i];
            let ghost before = terrain_map@;
            let ghost key = node.location.0;
            assert(self@.nodes[i as int] == node@);
            let mut list: Vec<SmartTerrain> = match terrain_map.remove(&node.location.0) {
                Some(list) => list,
                None => Vec::new(),
            };
            list.push(node.terrain);
            terrain_map.insert(node.location.0, list);
            proof {
                assert forall|location: usize| #[trigger]
                    terrain_map@.contains_key(location) <==> self@.uses_upto(
                        i + 1,
                        location,
                    ) by {
                    if self@.uses_upto(i + 1, location) {
                        let j = choose|j: int|
                            0 <= j < i + 1 && (#[trigger] self@.nodes[j]).location.0 == location;
                        if j < i {
                            assert(self@.uses_upto(i as int, location));
                        }
                    }
                    if terrain_map@.contains_key(location) && location != key {
                        assert(before.contains_key(location));
                        let j = choose|j: int|
                            0 <= j < i && (#[trigger] self@.nodes[j]).location.0 == location;
                        assert(self@.nodes[j].location.0 == location);
                    }
                }
                assert forall|location: usize| #[trigger]
                    terrain_map@.contains_key(location) implies terrain_map@[location]@
                    == self@.terrain_upto(i + 1, location) by {
                    if location == key {
                        if !before.contains_key(key) {
                            lemma_unused_has_no_terrain(self@, i as int, key);
                        }
                    } else {
                        assert(before.contains_key(location));
                    }
                }
            }
            i += 1;
        }
        terrain_map
    }
}

/// A platform that none of the first `count` steps uses receives no
/// terrain from them.
pub proof fn lemma_unused_has_no_terrain(chain: ChainView, count: int, location: usize)
    requires
        0 <= count <= chain.nodes.len(),
        !chain.uses_upto(count, location),
    ensures
        chain.terrain_upto(count, location) == Seq::<SmartTerrain>::empty(),
    decreases count,
{
    if count > 0 {
        assert(chain.nodes[count - 1].location.0 != location);
        assert(!chain.uses_upto(count - 1, location)) by {
            if chain.uses_upto(count - 1, location) {
                let i = choose|i: int|
                    0 <= i < count - 1 && (#[trigger] chain.nodes[i]).location.0 == location;
                assert(chain.nodes[i].location.0 == location);
            }
        }
        lemma_unused_has_no_terrain(chain, count - 1, location);
    }
}

} // verus!
