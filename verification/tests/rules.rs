use ferrum::combat::{attack, Health, Weapon};
use ferrum::crafting::{CraftingTable, Recipe};
use ferrum::inventory::{Inventory, INVENTORY_SIZE};
use ferrum::item_stack::ItemStack;
use ferrum::lod::{LodConfig, LodLevel, LodStats, LodTransition, DISTANCE_UNIT};
use ferrum::movement::MovementInput;
use ferrum::protocol::{ConnectionState, ConnectionStateError, ProtocolState};
use ferrum::server::{
    contains_bytes, is_done_line, startup_step, stop_step, StartupEvent, StartupStep, StopEvent,
    StopStep, SubprocessError, SERVER_TIMEOUT_SECS,
};
use ferrum::settings::{check_client, SettingsIssue, DEFAULT_RENDER_DISTANCE};
use ferrum::slot::Slot;

#[test]
fn a_farther_chunk_never_gets_a_finer_level() {
    let configs = [
        LodConfig::default(),
        LodConfig::new(100, 50, 300, 200),
        LodConfig::new(0, 0, 0, 0),
        LodConfig::new(5, 5, 5, 1000),
    ];
    for config in configs {
        let mut last = Some(LodLevel::Full);
        for distance in (0..20_000u32).step_by(7) {
            let level = config.select_lod(distance);
            match (last, level) {
                (Some(a), Some(b)) => assert!(a <= b),
                (None, Some(_)) => panic!("a chunk beyond the render distance came back"),
                _ => {}
            }
            last = level;
            assert_eq!(
                config.select_lod_with_blend(distance).map(|t| t.primary),
                level
            );
        }
    }
}

#[test]
fn the_blend_is_one_half_at_each_boundary() {
    for width in [1u32, 2, 255, 512, 1000] {
        let mut config = LodConfig::default();
        config.transition_width = width;
        for (boundary, level, next) in [
            (16, LodLevel::Full, Some(LodLevel::Reduced)),
            (32, LodLevel::Reduced, Some(LodLevel::Low)),
            (48, LodLevel::Low, Some(LodLevel::Minimal)),
            (64, LodLevel::Minimal, None),
        ] {
            let t = config.select_lod_with_blend(boundary * DISTANCE_UNIT).unwrap();
            assert_eq!((t.primary, t.next), (level, next));
            assert_eq!(2 * t.blend_num, t.blend_den);
        }
    }
}

#[test]
fn the_blend_grows_through_the_zone() {
    let config = LodConfig::default();
    let at = |distance: u32| {
        let t = config.select_lod_with_blend(distance).unwrap();
        (t.blend_num, t.blend_den)
    };
    assert_eq!(at(15 * 256), (0, 1024));
    assert_eq!(at(15 * 256 + 1), (2, 1024));
    assert_eq!(at(15 * 256 + 128), (256, 1024));
    assert_eq!(at(16 * 256), (512, 1024));
    // past the boundary the next level starts anew
    assert_eq!(at(16 * 256 + 1), (0, 1024));
    let mut sharp = LodConfig::default();
    sharp.transition_width = 0;
    let t = sharp.select_lod_with_blend(16 * 256).unwrap();
    assert_eq!((t.blend_num, t.blend_den), (0, 1));
    assert!(!t.is_blending());
    let last = LodTransition { primary: LodLevel::Minimal, next: None, blend_num: 1, blend_den: 4 };
    assert!(!last.is_blending());
}

#[test]
fn stats_of_nothing() {
    let stats = LodStats::new();
    assert_eq!(stats.total_chunks(), 0);
    assert_eq!(stats.total_quads(), 0);
    assert_eq!(stats.reduction_ratio(100), (1, 1));
    let mut some = LodStats::default();
    some.record(LodLevel::Low, 40);
    assert_eq!(some.reduction_ratio(0), (1, 1));
    assert_eq!(some.reduction_ratio(100), (40, 100));
    assert_eq!(some.quads_per_level, [0, 0, 40, 0]);
}

#[test]
fn health_rules() {
    let mut health = Health::new(20);
    health.take_damage(25);
    assert!(health.is_dead());
    attack(&Weapon::DiamondAxe, &mut health);
    assert_eq!(health.current(), 0);
    health.heal(7);
    assert_eq!(health.current(), 7);
    attack(&Weapon::StoneSword, &mut health);
    assert_eq!(health.current(), 2);
    attack(&Weapon::IronSword, &mut health);
    assert_eq!(health.current(), 0);
    health.heal(100);
    assert_eq!((health.current(), health.max()), (20, 20));
    health.respawn();
    assert_eq!(health.current(), 20);
}

#[test]
fn adding_fills_stacks_in_order_and_then_the_first_empty_slot() {
    let mut inventory = Inventory::new();
    inventory.get_slot_mut(3).unwrap().item = Some(ItemStack::new(1, 60, 64));
    inventory.get_slot_mut(5).unwrap().item = Some(ItemStack::new(1, 64, 64));
    inventory.get_slot_mut(7).unwrap().item = Some(ItemStack::new(1, 63, 64));
    inventory.get_slot_mut(0).unwrap().item = Some(ItemStack::new(2, 1, 64));
    inventory.get_slot_mut(9).unwrap().item = Some(ItemStack::new(1, 1, 16));
    assert!(inventory.add_item(ItemStack::new(1, 10, 64)));
    assert_eq!(inventory.get_slot(3).unwrap().item, Some(ItemStack::new(1, 64, 64)));
    assert_eq!(inventory.get_slot(5).unwrap().item, Some(ItemStack::new(1, 64, 64)));
    assert_eq!(inventory.get_slot(7).unwrap().item, Some(ItemStack::new(1, 64, 64)));
    assert_eq!(inventory.get_slot(9).unwrap().item, Some(ItemStack::new(1, 1, 16)));
    assert_eq!(inventory.get_slot(1).unwrap().item, Some(ItemStack::new(1, 5, 64)));
    assert_eq!(inventory.get_slot(0).unwrap().item, Some(ItemStack::new(2, 1, 64)));
    assert!(inventory.add_item(ItemStack::new(9, 0, 64)));
    assert_eq!(inventory.find_item(9), None);
    assert_eq!(inventory.find_item(1), Some(1));
    assert_eq!(inventory.find_item(2), Some(0));
}

#[test]
fn a_full_inventory_still_stacks_what_it_can() {
    let mut inventory = Inventory::default();
    for i in 0..INVENTORY_SIZE {
        inventory.get_slot_mut(i).unwrap().item = Some(ItemStack::new(1, 63, 64));
    }
    assert!(!inventory.add_item(ItemStack::new(1, 40, 64)));
    for i in 0..INVENTORY_SIZE {
        assert_eq!(inventory.get_slot(i).unwrap().item.unwrap().count, 64);
    }
    assert!(inventory.get_slot(36).is_none());
    assert!(inventory.get_slot_mut(36).is_none());
    assert_eq!(inventory.remove_item(36), None);
    assert_eq!(inventory.remove_item(2), Some(ItemStack::new(1, 64, 64)));
    assert_eq!(inventory.remove_item(2), None);
}

#[test]
fn moving_stacks() {
    let mut inventory = Inventory::new();
    inventory.get_slot_mut(0).unwrap().item = Some(ItemStack::new(1, 50, 64));
    inventory.get_slot_mut(1).unwrap().item = Some(ItemStack::new(1, 30, 64));
    assert!(inventory.move_item(0, 1));
    assert_eq!(inventory.get_slot(0).unwrap().item, Some(ItemStack::new(1, 16, 64)));
    assert_eq!(inventory.get_slot(1).unwrap().item, Some(ItemStack::new(1, 64, 64)));
    assert!(inventory.move_item(0, 1));
    assert_eq!(inventory.get_slot(0).unwrap().item, Some(ItemStack::new(1, 16, 64)));
    assert!(!inventory.move_item(2, 0));
    assert!(!inventory.move_item(0, 0));
    assert!(!inventory.move_item(0, 36));
    assert!(!inventory.move_item(36, 0));
    assert!(inventory.move_item(1, 2));
    assert!(inventory.get_slot(1).unwrap().is_empty());
    let mut slot = Slot::default();
    assert!(slot.is_empty());
    slot.item = Some(ItemStack::new(1, 1, 1));
    assert!(slot.item.unwrap().is_full());
    assert_eq!(ItemStack::new(1, 70, 64).remaining_space(), 0);
    slot.clear();
    assert_eq!(slot, Slot::new());
}

#[test]
fn crafting_takes_one_of_each() {
    let mut table = CraftingTable::default();
    table.set_ingredient(0, 0, Some(ItemStack::new(1, 3, 64)));
    table.set_ingredient(1, 0, Some(ItemStack::new(1, 1, 64)));
    table.set_ingredient(3, 0, Some(ItemStack::new(1, 1, 64)));
    assert_eq!(table.get_ingredient(3, 0), None);
    let out = ItemStack::new(2, 4, 64);
    let recipe = Recipe::shaped(
        [[Some(1), None, None], [Some(1), None, None], [None, None, None]],
        out,
    );
    assert!(recipe.matches(&table));
    assert_eq!(table.craft(&recipe), Some(out));
    assert_eq!(table.get_ingredient(0, 0), Some(ItemStack::new(1, 2, 64)));
    assert_eq!(table.get_ingredient(1, 0), None);
    assert!(!recipe.matches(&table));
    assert_eq!(table.craft(&recipe), None);
    assert_eq!(table.get_ingredient(0, 0), Some(ItemStack::new(1, 2, 64)));
    assert!(!table.is_empty());
    table.clear();
    assert!(table.is_empty());
}

#[test]
fn steps_of_the_protocol() {
    let all = [
        ProtocolState::Handshake,
        ProtocolState::Status,
        ProtocolState::Login,
        ProtocolState::Config,
        ProtocolState::Play,
    ];
    let reach = |state: ProtocolState| {
        let mut c = ConnectionState::default();
        match state {
            ProtocolState::Handshake => {}
            ProtocolState::Status => c.transition_to_status().unwrap(),
            ProtocolState::Login => c.transition_to_login().unwrap(),
            ProtocolState::Config => {
                c.transition_to_login().unwrap();
                c.transition_to_config().unwrap();
            }
            ProtocolState::Play => {
                c.transition_to_login().unwrap();
                c.transition_to_config().unwrap();
                c.transition_to_play().unwrap();
            }
        }
        c
    };
    for from in all {
        for to in [
            ProtocolState::Status,
            ProtocolState::Login,
            ProtocolState::Config,
            ProtocolState::Play,
        ] {
            let mut c = reach(from);
            assert_eq!(c.current(), from);
            let result = match to {
                ProtocolState::Status => c.transition_to_status(),
                ProtocolState::Login => c.transition_to_login(),
                ProtocolState::Config => c.transition_to_config(),
                _ => c.transition_to_play(),
            };
            let allowed = matches!(
                (from, to),
                (ProtocolState::Handshake, ProtocolState::Status)
                    | (ProtocolState::Handshake, ProtocolState::Login)
                    | (ProtocolState::Login, ProtocolState::Config)
                    | (ProtocolState::Config, ProtocolState::Play)
            );
            if allowed {
                assert_eq!(result, Ok(()));
                assert_eq!(c.current(), to);
            } else {
                assert_eq!(
                    result,
                    Err(ConnectionStateError::InvalidTransition { from, to })
                );
                assert_eq!(c.current(), from);
            }
        }
    }
}

#[test]
fn lines_of_a_starting_server() {
    assert!(is_done_line(b"[12:00:00] Done (1.532s)! For help, type \"help\""));
    assert!(is_done_line(b"s)! Done"));
    assert!(!is_done_line(b"Done"));
    assert!(!is_done_line(b"Loading (3s)!"));
    assert!(!is_done_line(b"done (1s)!"));
    assert!(!is_done_line(b""));
    assert!(contains_bytes(b"abcabd", b"abd"));
    assert!(contains_bytes(b"abc", b""));
    assert!(!contains_bytes(b"ab", b"abc"));
    assert!(!contains_bytes(b"aab", b"aba"));
    assert_eq!(
        startup_step(&StartupEvent::Line(b"Done (2s)!".to_vec())),
        StartupStep::Ready
    );
    assert_eq!(
        startup_step(&StartupEvent::Line(b"Preparing spawn area".to_vec())),
        StartupStep::KeepReading
    );
    assert_eq!(
        startup_step(&StartupEvent::Closed(Some(1))),
        StartupStep::GiveUp(SubprocessError::ProcessCrashed(Some(1)))
    );
    assert_eq!(
        startup_step(&StartupEvent::Closed(None)),
        StartupStep::GiveUp(SubprocessError::ProcessCrashed(None))
    );
    assert_eq!(
        startup_step(&StartupEvent::ReadFailed),
        StartupStep::GiveUp(SubprocessError::SpawnFailed)
    );
    assert_eq!(SERVER_TIMEOUT_SECS, 30);
    assert_eq!(
        startup_step(&StartupEvent::TimedOut),
        StartupStep::GiveUp(SubprocessError::StartupTimeout(30))
    );
    assert_ne!(SubprocessError::NotRunning, SubprocessError::StopCommandFailed);
}

#[test]
fn rules_of_the_settings() {
    assert_eq!(DEFAULT_RENDER_DISTANCE, 16);
    assert_eq!(check_client(16, true, None), Ok(()));
    assert_eq!(check_client(1, true, Some(60)), Ok(()));
    assert_eq!(check_client(0, false, Some(0)), Err(SettingsIssue::RenderDistanceZero));
    assert_eq!(check_client(16, false, Some(0)), Err(SettingsIssue::FovOutOfRange));
    assert_eq!(check_client(16, true, Some(0)), Err(SettingsIssue::FpsLimitZero));
}

#[test]
fn directions_of_the_keys() {
    let none = MovementInput::default();
    assert_eq!(none.direction(), (0, 0));
    assert!(!none.is_moving());
    let forward = MovementInput { forward: true, ..none };
    assert_eq!(forward.direction(), (0, -1));
    let back_left = MovementInput { backward: true, left: true, ..none };
    assert_eq!(back_left.direction(), (-1, 1));
    let right = MovementInput { right: true, sprint: true, ..none };
    assert_eq!(right.direction(), (1, 0));
    let torn = MovementInput { forward: true, backward: true, left: true, right: true, ..none };
    assert_eq!(torn.direction(), (0, 0));
    assert!(!torn.is_moving());
    assert!(back_left.is_moving());
}

#[test]
fn steps_of_a_stopping_server() {
    assert_eq!(
        stop_step(StopEvent::NoProcess),
        StopStep::GiveUp(SubprocessError::NotRunning)
    );
    assert_eq!(
        stop_step(StopEvent::CommandFailed),
        StopStep::GiveUp(SubprocessError::StopCommandFailed)
    );
    assert_eq!(stop_step(StopEvent::Exited), StopStep::Stopped);
    assert_eq!(
        stop_step(StopEvent::WaitFailed),
        StopStep::GiveUp(SubprocessError::SpawnFailed)
    );
    assert_eq!(stop_step(StopEvent::TimedOut), StopStep::Kill);
}
