use sulis::ability_state::{Ability, AbilityState, Duration, ROUND_TIME_MILLIS};
use sulis::ai::State;
use sulis::area_feedback_text::{ColorKind, DamageKind, IconKind};
use sulis::campaign::CampaignGroup;
use sulis::config::{DisplayConfig, IOAdapter, LoggingConfig};
use sulis::main_menu::{DisplayConfiguration, LoopUpdater, MainMenu, NextGameStep};
use sulis::quest_state::{EntryState, QuestState};
use sulis::resource::{all_resources, get_resource, insert_if_ok, Entity};
use sulis::text_area::TextArea;
use sulis::timer_image::{TimerImage, TimerImageBuilder};
use sulis::{ExtInt, Size};

fn cooldown_ability(cooldown: u32) -> Ability {
    Ability {
        ap: 3,
        duration: Duration::Rounds(2),
        cooldown,
        combat_only: true,
        group: "attack".to_string(),
    }
}

#[test]
fn ability_cooldown_cycle() {
    let mut st = AbilityState::new(cooldown_ability(2));
    assert!(!st.is_available(false), "combat-only abilities wait for combat");
    assert!(st.is_available(true));
    assert_eq!(st.activate_ap(), 3);

    st.activate();
    assert_eq!(st.remaining_duration(), ExtInt::Int(2 * ROUND_TIME_MILLIS));
    assert!(!st.is_available(true));
    assert_eq!(st.remaining_duration_rounds(), ExtInt::Int(2));

    let notify = st.update(ROUND_TIME_MILLIS);
    assert!(notify, "a full round elapsed");
    assert_eq!(st.remaining_duration(), ExtInt::Int(ROUND_TIME_MILLIS));
    assert_eq!(st.remaining_duration_rounds(), ExtInt::Int(1));
    let notify = st.update(1);
    assert!(!notify);
    assert_eq!(st.remaining_duration(), ExtInt::Int(ROUND_TIME_MILLIS - 1));
    assert_eq!(st.remaining_duration_rounds(), ExtInt::Int(1), "partial rounds round up");

    st.update(2 * ROUND_TIME_MILLIS);
    assert!(st.is_available(true), "the cooldown saturates at zero");
}

#[test]
fn ability_mode_cycle() {
    let mut st = AbilityState::new(Ability {
        ap: 1,
        duration: Duration::Mode,
        cooldown: 1,
        combat_only: false,
        group: "stance".to_string(),
    });
    st.activate();
    assert!(st.is_active_mode());
    assert_eq!(st.remaining_duration(), ExtInt::Infinity);
    st.update(10 * ROUND_TIME_MILLIS);
    assert!(st.is_active_mode(), "a mode does not time out");
    st.deactivate();
    assert_eq!(st.remaining_duration(), ExtInt::Int(ROUND_TIME_MILLIS));
    let before = st.remaining_duration();
    st.deactivate();
    assert_eq!(st.remaining_duration(), before, "deactivating a non-mode changes nothing");
}

#[test]
fn quest_entry_states() {
    let mut q = QuestState::new("ruins".to_string());
    assert_eq!(q.state(), EntryState::Hidden);
    assert_eq!(q.entry_state("find_the_key"), EntryState::Hidden);

    q.set_entry_state("find_the_key", EntryState::Active);
    assert_eq!(q.state(), EntryState::Visible, "recording a visible entry reveals the quest");
    assert_eq!(q.entry_state("find_the_key"), EntryState::Active);

    q.set_entry_state("find_the_key", EntryState::Complete);
    assert_eq!(q.entry_state("find_the_key"), EntryState::Complete);
    assert_eq!(q.iter().len(), 1, "updating an entry does not duplicate it");

    q.set_entry_state("open_the_gate", EntryState::Visible);
    assert_eq!(q.iter().len(), 2);
    assert_eq!(q.state(), EntryState::Visible);
}

#[test]
fn entry_state_parsing() {
    assert_eq!(EntryState::from_str("Hidden"), EntryState::Hidden);
    assert_eq!(EntryState::from_str("Visible"), EntryState::Visible);
    assert_eq!(EntryState::from_str("Active"), EntryState::Active);
    assert_eq!(EntryState::from_str("Complete"), EntryState::Complete);
    assert_eq!(EntryState::from_str("garbled"), EntryState::Hidden);
}

#[test]
fn timer_image_validation() {
    let images = vec![
        ("a".to_string(), Size { width: 4, height: 4 }),
        ("b".to_string(), Size { width: 4, height: 4 }),
        ("c".to_string(), Size { width: 8, height: 4 }),
    ];
    let ok = TimerImage::new(
        TimerImageBuilder {
            id: "spinner".to_string(),
            frames: vec!["a".to_string(), "b".to_string()],
            frame_time_millis: 100,
        },
        &images,
    );
    let img = ok.expect("two frames of one size");
    assert_eq!(img.get_size(), Size { width: 4, height: 4 });

    let empty = TimerImage::new(
        TimerImageBuilder { id: "x".to_string(), frames: vec![], frame_time_millis: 100 },
        &images,
    );
    assert!(empty.is_err(), "a timer image needs at least one frame");

    let missing = TimerImage::new(
        TimerImageBuilder {
            id: "x".to_string(),
            frames: vec!["nope".to_string()],
            frame_time_millis: 100,
        },
        &images,
    );
    assert!(missing.is_err());

    let mixed = TimerImage::new(
        TimerImageBuilder {
            id: "x".to_string(),
            frames: vec!["a".to_string(), "c".to_string()],
            frame_time_millis: 100,
        },
        &images,
    );
    assert!(mixed.is_err(), "all frames must share one size");
}

#[test]
fn timer_image_frame_clock() {
    let images = vec![
        ("a".to_string(), Size { width: 4, height: 4 }),
        ("b".to_string(), Size { width: 4, height: 4 }),
        ("c".to_string(), Size { width: 4, height: 4 }),
    ];
    let img = TimerImage::new(
        TimerImageBuilder {
            id: "spinner".to_string(),
            frames: vec!["a".to_string(), "b".to_string(), "c".to_string()],
            frame_time_millis: 100,
        },
        &images,
    )
    .unwrap();
    assert_eq!(img.get_cur_frame(0), 0);
    assert_eq!(img.get_cur_frame(99), 0);
    assert_eq!(img.get_cur_frame(100), 1);
    assert_eq!(img.get_cur_frame(250), 2);
    assert_eq!(img.get_cur_frame(300), 0, "the clock wraps around the cycle");
}

#[test]
fn resource_map_behaviour() {
    let mut map: Vec<(String, u32)> = Vec::new();
    insert_if_ok("sword".to_string(), Ok(7), &mut map);
    insert_if_ok("shield".to_string(), Err(sulis::area_state::AreaError::InvalidData), &mut map);
    insert_if_ok("sword".to_string(), Ok(9), &mut map);
    assert_eq!(get_resource("sword", &map), Some(&9), "a later insert overrides");
    assert_eq!(get_resource("shield", &map), None, "a failed build is not recorded");
    assert_eq!(all_resources(&map).len(), 2);
}

#[test]
fn entity_resource_identity() {
    let a = Entity { id: "goblin".to_string(), player: false, display: 'g', size: 1 };
    let b = Entity { id: "goblin".to_string(), player: true, display: 'G', size: 2 };
    let c = Entity { id: "troll".to_string(), player: false, display: 't', size: 2 };
    assert_eq!(a.owned_id(), "goblin".to_string());
    assert!(a == b, "entities are the same resource exactly when their ids match");
    assert!(!(a == c));
}

#[test]
fn main_menu_steps() {
    let configs = vec![DisplayConfiguration { index: 0, name: "primary".to_string() }];
    let mut menu = MainMenu::new(configs);
    assert!(!menu.is_exit());
    assert_eq!(menu.next_step(), None);
    menu.recreate_io();
    assert!(menu.is_exit());
    assert_eq!(menu.next_step(), Some(NextGameStep::RecreateIO));
    assert!(!menu.is_exit(), "taking the step consumes it");
    menu.reset();
    let updater = LoopUpdater::new(menu);
    assert!(!updater.is_exit());
}

#[test]
fn config_validation() {
    let logging = LoggingConfig { log_level: "debug".to_string(), use_timestamps: true };
    assert!(logging.level_valid());
    let bad = LoggingConfig { log_level: "chatty".to_string(), use_timestamps: true };
    assert!(!bad.level_valid());
    let display = DisplayConfig {
        adapter: IOAdapter::Pancurses,
        frame_rate: 30,
        animation_base_time_millis: 50,
        width: 80,
        height: 24,
        cursor_char: '_',
    };
    assert!(display.size_valid());
    let small = DisplayConfig { width: 79, height: 24, ..display };
    assert!(!small.size_valid());
}

#[test]
fn ext_int_saturating_arithmetic() {
    assert_eq!(ExtInt::Int(10).saturating_sub(3), ExtInt::Int(7));
    assert_eq!(ExtInt::Int(3).saturating_sub(10), ExtInt::Int(0));
    assert_eq!(ExtInt::Infinity.saturating_sub(1000), ExtInt::Infinity);
    assert!(ExtInt::Int(0).is_zero());
    assert!(!ExtInt::Infinity.is_zero());
    assert!(ExtInt::Infinity.is_infinite());
}

#[test]
fn text_area_construction() {
    let empty = TextArea::empty();
    assert!(empty.text.is_none());
    assert!(empty.limit_to_screen_edge);
    let with_text = TextArea::new("hello");
    assert_eq!(with_text.text.as_deref(), Some("hello"));
}

#[test]
fn ai_turn_budget() {
    assert_eq!(sulis::ai::pre_script_state(10, true), Some(State::End));
    assert_eq!(sulis::ai::pre_script_state(0, false), Some(State::End));
    assert_eq!(sulis::ai::pre_script_state(3, true), None);
    assert_eq!(State::Wait(4), State::Wait(4));
}

#[test]
fn feedback_enum_shapes() {
    let dmg = ColorKind::Damage { kind: DamageKind::Fire };
    assert!(matches!(dmg, ColorKind::Damage { kind: DamageKind::Fire }));
    assert!(!matches!(ColorKind::Miss, ColorKind::Info));
    assert!(matches!(IconKind::Backstab, IconKind::Backstab));
}

#[test]
fn campaign_groups_compare_by_id() {
    let a = CampaignGroup { id: "act_one".to_string(), name: "Act One".to_string(), position: 0 };
    let b = CampaignGroup { id: "act_one".to_string(), name: "Act 1".to_string(), position: 5 };
    let c = CampaignGroup { id: "act_two".to_string(), name: "Act Two".to_string(), position: 1 };
    assert!(a == b);
    assert!(!(a == c));
}
