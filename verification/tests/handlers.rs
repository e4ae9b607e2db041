use axiom_pumpkin::buf::Writer;
use axiom_pumpkin::handlers::{
    clamp_unit, direct_bits, placement_flags, same_dimension, server_state, set_fly_speed,
    set_gamemode, set_no_physical_trigger, set_world_time, teleport, tick_flags, GameMode,
    GameModeGrants, Placement, TimeChange,
};

const NO_GRANTS: GameModeGrants =
    GameModeGrants { survival: false, creative: false, adventure: false, spectator: false };

#[test]
fn the_minecraft_namespace_is_implicit() {
    assert!(same_dimension("minecraft:overworld", "overworld"));
    assert!(same_dimension("overworld", "minecraft:overworld"));
    assert!(same_dimension("custom:moon", "custom:moon"));
    assert!(!same_dimension("custom:overworld", "overworld"));
    // Only one namespace is implied.
    assert!(!same_dimension("minecraft:minecraft:end", "end"));
}

#[test]
fn the_global_palette_is_as_wide_as_the_registry() {
    for (count, bits) in [(0, 1), (2, 1), (3, 2), (4, 2), (5, 3), (28_000, 15), (32_769, 16)] {
        assert_eq!(direct_bits(count), bits, "{count} states");
    }
    assert_eq!(direct_bits(u32::MAX), 32);
    assert_eq!(server_state(99, 100), Some(99));
    assert_eq!(server_state(100, 100), None);
}

#[test]
fn placements_notify_as_asked() {
    let quiet = Placement {
        notify_neighbors: false,
        notify_listeners: true,
        moved: true,
        skip_block_added_callback: true,
        skip_block_entity_replaced_callback: true,
        force_state: false,
    };
    assert_eq!(placement_flags(false), quiet);
    let loud = Placement {
        notify_neighbors: true,
        notify_listeners: true,
        moved: false,
        skip_block_added_callback: false,
        skip_block_entity_replaced_callback: false,
        force_state: false,
    };
    assert_eq!(placement_flags(true), loud);
    assert_eq!(tick_flags(), Placement { force_state: true, ..loud });
}

#[test]
fn game_modes_are_granted_one_by_one() {
    let creative = GameModeGrants { creative: true, ..NO_GRANTS };
    assert_eq!(set_gamemode(&[1], &creative), Ok(Some(GameMode::Creative)));
    assert_eq!(set_gamemode(&[0], &creative), Ok(None));
    let all =
        GameModeGrants { survival: true, creative: true, adventure: true, spectator: true };
    assert_eq!(set_gamemode(&[0], &all), Ok(Some(GameMode::Survival)));
    assert_eq!(set_gamemode(&[2], &all), Ok(Some(GameMode::Adventure)));
    assert_eq!(set_gamemode(&[3], &all), Ok(Some(GameMode::Spectator)));
    assert_eq!(set_gamemode(&[4], &all), Err("unknown game mode: 4".to_owned()));
    assert_eq!(set_gamemode(&[], &all), Err("unexpected end of buffer".to_owned()));
}

#[test]
fn fly_speed_stays_between_minus_one_and_one() {
    for value in [
        0.0_f32,
        -0.0,
        0.5,
        1.0,
        -1.0,
        1.000_000_1,
        -7.5,
        f32::MAX,
        f32::MIN_POSITIVE,
        f32::INFINITY,
        f32::NEG_INFINITY,
    ] {
        let clamped = f32::from_bits(clamp_unit(value.to_bits()));
        assert_eq!(clamped.to_bits(), value.clamp(-1.0, 1.0).to_bits(), "{value}");
        let set = set_fly_speed(&value.to_be_bytes(), true);
        assert_eq!(set, Ok(Some(clamped.to_bits())));
    }
    assert!(f32::from_bits(clamp_unit(f32::NAN.to_bits())).is_nan());
    assert_eq!(set_fly_speed(&[0; 4], false), Ok(None));
    assert_eq!(set_fly_speed(&[0; 3], true), Err("unexpected end of buffer".to_owned()));
}

#[test]
fn a_teleport_finds_its_world() {
    let mut w = Writer::new();
    w.string("the_nether");
    for value in [1.5_f64, 64.0, -2.5] {
        w.f64_bits(value.to_bits());
    }
    w.f32_bits(90.0_f32.to_bits()).f32_bits((-45.0_f32).to_bits());
    let body = w.into_vec();
    let worlds = vec!["minecraft:overworld".to_owned(), "minecraft:the_nether".to_owned()];
    let target = teleport(&body, true, &worlds).unwrap().expect("known world");
    assert_eq!(target.world, 1);
    assert_eq!(f64::from_bits(target.x), 1.5);
    assert_eq!(f64::from_bits(target.y), 64.0);
    assert_eq!(f64::from_bits(target.z), -2.5);
    assert_eq!(f32::from_bits(target.yaw), 90.0);
    assert_eq!(f32::from_bits(target.pitch), -45.0);
    assert_eq!(teleport(&body, false, &worlds), Ok(None));
    assert_eq!(teleport(&body, true, &worlds[..1].to_vec()), Ok(None));
    assert!(teleport(&body[..body.len() - 1], true, &worlds).is_err());
}

#[test]
fn time_is_changed_as_far_as_asked() {
    let body = |time: Option<i32>, freeze: Option<bool>| {
        let mut w = Writer::new();
        w.string("overworld").bool(time.is_some());
        if let Some(time) = time {
            w.i32(time);
        }
        w.bool(freeze.is_some());
        if let Some(freeze) = freeze {
            w.bool(freeze);
        }
        w.into_vec()
    };
    let here = "minecraft:overworld";
    assert_eq!(
        set_world_time(&body(Some(-6000), Some(true)), true, here),
        Ok(Some(TimeChange { time_of_day: Some(6000), advance: Some(false) }))
    );
    assert_eq!(
        set_world_time(&body(Some(i32::MIN), None), true, here),
        Ok(Some(TimeChange { time_of_day: Some(1 << 31), advance: None }))
    );
    assert_eq!(
        set_world_time(&body(None, Some(false)), true, here),
        Ok(Some(TimeChange { time_of_day: None, advance: Some(true) }))
    );
    assert_eq!(set_world_time(&body(None, None), true, here), Ok(None));
    assert_eq!(set_world_time(&body(Some(1), None), false, here), Ok(None));
    assert_eq!(set_world_time(&body(Some(1), None), true, "minecraft:the_end"), Ok(None));
    assert!(set_world_time(&[0, 1, 0], true, here).is_err());
}

#[test]
fn pressure_plates_can_be_turned_off_by_who_may() {
    assert_eq!(set_no_physical_trigger(&[1], true), Ok(Some(true)));
    assert_eq!(set_no_physical_trigger(&[0], true), Ok(Some(false)));
    assert_eq!(set_no_physical_trigger(&[1], false), Ok(None));
    assert!(set_no_physical_trigger(&[], true).is_err());
}
