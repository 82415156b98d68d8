use levelgen::{
    BucketContent, CausalityChain, CausalityNode, Cause, Effect, LevelError, NodeId, SmartTerrain,
};

fn step(effect: Effect, cause: Cause, location: usize) -> CausalityNode {
    CausalityNode { effect, cause, terrain: SmartTerrain::SnowSource, location: NodeId(location) }
}

#[test]
fn test_simple_chain() {
    let mut chain = CausalityChain::new(Effect::ContainerFilled(0));

    // Player gets water
    chain.add_node(CausalityNode {
        effect: Effect::WaterBucket,
        cause: Cause::Player,
        terrain: SmartTerrain::WaterSource,
        location: NodeId(0),
    });

    // Player fills container
    chain.add_node(CausalityNode {
        effect: Effect::ContainerFilled(0),
        cause: Cause::BucketAt { content: BucketContent::Water, location: NodeId(1) },
        terrain: SmartTerrain::GoalContainer { fill_count: 0, target: 2 },
        location: NodeId(1),
    });

    assert!(chain.validate().is_ok());
}

#[test]
fn test_chain_with_fire() {
    let mut chain = CausalityChain::new(Effect::ContainerFilled(0));

    // Player gets snow
    chain.add_node(CausalityNode {
        effect: Effect::SnowBucket,
        cause: Cause::Player,
        terrain: SmartTerrain::SnowSource,
        location: NodeId(0),
    });

    // Snow + Fire = Water (fire extinguished)
    chain.add_node(CausalityNode {
        effect: Effect::WaterBucket,
        cause: Cause::BucketAt { content: BucketContent::Snow, location: NodeId(1) },
        terrain: SmartTerrain::SnowMeltFire { extinguished: false },
        location: NodeId(1),
    });

    // Fill container with water
    chain.add_node(CausalityNode {
        effect: Effect::ContainerFilled(0),
        cause: Cause::BucketAt { content: BucketContent::Water, location: NodeId(2) },
        terrain: SmartTerrain::GoalContainer { fill_count: 0, target: 2 },
        location: NodeId(2),
    });

    assert!(chain.validate().is_ok());
}

#[test]
fn empty_chain_does_not_achieve_its_goal() {
    let chain = CausalityChain::new(Effect::WaterBucket);
    assert_eq!(
        chain.validate(),
        Err(LevelError::GoalNotAchieved { effect: Effect::WaterBucket })
    );
}

#[test]
fn chain_without_its_goal_fails() {
    let mut chain = CausalityChain::new(Effect::ContainerFilled(1));
    chain.add_node(step(Effect::ContainerFilled(0), Cause::Player, 0));
    assert_eq!(
        chain.validate(),
        Err(LevelError::GoalNotAchieved { effect: Effect::ContainerFilled(1) })
    );
}

#[test]
fn requires_all_is_checked_in_the_order_of_play() {
    // Stored from the goal back: the switch is played last.
    let needs_both = Cause::RequiresAll(vec![Effect::WaterBucket, Effect::SnowBucket]);
    let mut chain = CausalityChain::new(Effect::SwitchActivated(NodeId(3)));
    chain.add_node(step(Effect::SwitchActivated(NodeId(3)), needs_both.clone(), 3));
    chain.add_node(step(Effect::SnowBucket, Cause::Player, 1));
    chain.add_node(step(Effect::WaterBucket, Cause::Player, 0));
    assert!(chain.validate().is_ok());

    // Played first, the switch has nothing to build on.
    let mut early = CausalityChain::new(Effect::SwitchActivated(NodeId(3)));
    early.add_node(step(Effect::SnowBucket, Cause::Player, 1));
    early.add_node(step(Effect::WaterBucket, Cause::Player, 0));
    early.add_node(step(Effect::SwitchActivated(NodeId(3)), needs_both.clone(), 3));
    assert_eq!(
        early.validate(),
        Err(LevelError::NotAchieved {
            effect: Effect::SwitchActivated(NodeId(3)),
            missing: Effect::WaterBucket,
        })
    );

    // With the water but not the snow, the snow is what is named.
    let mut half = CausalityChain::new(Effect::SwitchActivated(NodeId(3)));
    half.add_node(step(Effect::SnowBucket, Cause::Player, 1));
    half.add_node(step(Effect::SwitchActivated(NodeId(3)), needs_both, 3));
    half.add_node(step(Effect::WaterBucket, Cause::Player, 0));
    assert_eq!(
        half.validate(),
        Err(LevelError::NotAchieved {
            effect: Effect::SwitchActivated(NodeId(3)),
            missing: Effect::SnowBucket,
        })
    );
}

#[test]
fn requires_any_needs_one_of_its_effects() {
    let either = Cause::RequiresAny(vec![Effect::WaterBucket, Effect::SnowBucket]);
    let mut chain = CausalityChain::new(Effect::PathAccessible(NodeId(2)));
    chain.add_node(step(Effect::PathAccessible(NodeId(2)), either.clone(), 2));
    chain.add_node(step(Effect::SnowBucket, Cause::Player, 1));
    assert!(chain.validate().is_ok());

    let mut none = CausalityChain::new(Effect::PathAccessible(NodeId(2)));
    none.add_node(step(Effect::PathAccessible(NodeId(2)), either, 2));
    none.add_node(step(Effect::EmptyBucket, Cause::Player, 1));
    assert_eq!(
        none.validate(),
        Err(LevelError::NoneAchieved { effect: Effect::PathAccessible(NodeId(2)) })
    );

    // Nothing satisfies a choice among nothing.
    let mut empty = CausalityChain::new(Effect::WaterBucket);
    empty.add_node(step(Effect::WaterBucket, Cause::RequiresAny(vec![]), 0));
    assert_eq!(
        empty.validate(),
        Err(LevelError::NoneAchieved { effect: Effect::WaterBucket })
    );

    // And everything of nothing is there.
    let mut all_of_nothing = CausalityChain::new(Effect::WaterBucket);
    all_of_nothing.add_node(step(Effect::WaterBucket, Cause::RequiresAll(vec![]), 0));
    assert!(all_of_nothing.validate().is_ok());
}

#[test]
fn a_step_cannot_build_on_its_own_effect() {
    let mut chain = CausalityChain::new(Effect::WaterBucket);
    chain.add_node(step(
        Effect::WaterBucket,
        Cause::RequiresAll(vec![Effect::WaterBucket]),
        0,
    ));
    assert_eq!(
        chain.validate(),
        Err(LevelError::NotAchieved {
            effect: Effect::WaterBucket,
            missing: Effect::WaterBucket,
        })
    );
}

#[test]
fn bucket_requirements_are_taken_for_granted() {
    // Nothing fetches the water, and the chain validates all the same.
    let mut chain = CausalityChain::new(Effect::ContainerFilled(0));
    chain.add_node(step(
        Effect::ContainerFilled(0),
        Cause::BucketAt { content: BucketContent::Water, location: NodeId(1) },
        1,
    ));
    assert!(chain.validate().is_ok());
}

#[test]
fn first_failure_in_the_order_of_play_is_reported() {
    let mut chain = CausalityChain::new(Effect::ContainerFilled(0));
    chain.add_node(step(
        Effect::ContainerFilled(0),
        Cause::RequiresAll(vec![Effect::SnowBucket]),
        0,
    ));
    chain.add_node(step(
        Effect::WaterBucket,
        Cause::RequiresAny(vec![Effect::EmptyBucket]),
        0,
    ));
    assert_eq!(
        chain.validate(),
        Err(LevelError::NoneAchieved { effect: Effect::WaterBucket })
    );
}

#[test]
fn forward_order_reverses_the_stored_steps() {
    let mut chain = CausalityChain::new(Effect::WaterBucket);
    chain.add_node(step(Effect::ContainerFilled(0), Cause::Player, 2));
    chain.add_node(step(Effect::WaterBucket, Cause::Player, 1));
    chain.add_node(step(Effect::SnowBucket, Cause::Player, 0));
    let forward = chain.forward_order();
    let effects: Vec<Effect> = forward.iter().map(|node| node.effect).collect();
    assert_eq!(
        effects,
        vec![Effect::SnowBucket, Effect::WaterBucket, Effect::ContainerFilled(0)]
    );
    assert!(CausalityChain::new(Effect::WaterBucket).forward_order().is_empty());
}

#[test]
fn terrain_is_grouped_by_location_in_stored_order() {
    let mut chain = CausalityChain::new(Effect::WaterBucket);
    let place = |effect: Effect, terrain: SmartTerrain, location: usize| CausalityNode {
        effect,
        cause: Cause::Player,
        terrain,
        location: NodeId(location),
    };
    chain.add_node(place(Effect::WaterBucket, SmartTerrain::WaterSource, 4));
    chain.add_node(place(Effect::SnowBucket, SmartTerrain::SnowSource, 1));
    chain.add_node(place(
        Effect::WaterBucket,
        SmartTerrain::SnowMeltFire { extinguished: false },
        4,
    ));
    chain.add_node(place(Effect::EmptyBucket, SmartTerrain::MovingPlatform { active: true }, 4));
    let map = chain.terrain_by_location();
    assert_eq!(map.len(), 2);
    assert_eq!(map[&1], vec![SmartTerrain::SnowSource]);
    assert_eq!(
        map[&4],
        vec![
            SmartTerrain::WaterSource,
            SmartTerrain::SnowMeltFire { extinguished: false },
            SmartTerrain::MovingPlatform { active: true },
        ]
    );
    assert!(CausalityChain::new(Effect::WaterBucket).terrain_by_location().is_empty());
}

#[test]
fn bucket_starts_empty() {
    assert_eq!(BucketContent::default(), BucketContent::Empty);
}
