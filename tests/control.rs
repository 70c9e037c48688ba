use zerolaunch::index::{IndexSnapshot, ProgramEntry, RebuildError, ScanOutcome, SourceKind};
use zerolaunch::control::{
    get_remote_config_path, handle_auto_start, handle_silent_start, update_app_setting, update_program_path,
    AppSettings, AutoStartAction, ImageLoad, ImageLoader, MenuEventId, RebuildAction, RebuildScheduler,
    WindowAction,
};

#[test]
fn triggers_coalesce_into_one_queued_rebuild() {
    let mut s = RebuildScheduler::new();
    assert_eq!(s.trigger(), RebuildAction::Start);
    assert_eq!(s.trigger(), RebuildAction::Idle);
    assert_eq!(s.trigger(), RebuildAction::Idle);
    assert_eq!(s.finished(), RebuildAction::Start);
    assert_eq!(s.finished(), RebuildAction::Idle);
    assert!(!s.running);
}

#[test]
fn silent_start_hides_window() {
    assert_eq!(handle_silent_start(true), WindowAction::Hide);
    assert_eq!(handle_silent_start(false), WindowAction::Show);
}

#[test]
fn auto_start_follows_setting() {
    assert_eq!(handle_auto_start(true, false), AutoStartAction::Enable);
    assert_eq!(handle_auto_start(false, true), AutoStartAction::Disable);
    assert_eq!(handle_auto_start(true, true), AutoStartAction::Keep);
    assert_eq!(handle_auto_start(false, false), AutoStartAction::Keep);
}

#[test]
fn app_setting_plan() {
    let mut s = RebuildScheduler::new();
    let plan = update_app_setting(&mut s, AppSettings { is_auto_start: true, is_silent_start: true }, false);
    assert_eq!(plan.rebuild, RebuildAction::Start);
    assert_eq!(plan.auto_start, AutoStartAction::Enable);
    assert_eq!(plan.window, WindowAction::Hide);
    let plan = update_app_setting(&mut s, AppSettings { is_auto_start: false, is_silent_start: false }, false);
    assert_eq!(plan.rebuild, RebuildAction::Idle);
    assert_eq!(plan.auto_start, AutoStartAction::Keep);
    assert_eq!(plan.window, WindowAction::Show);
}

#[test]
fn image_loader_falls_back_on_empty() {
    let loader = ImageLoader::new("default.png".to_string());
    match loader.load_image(vec![1, 2, 3]) {
        ImageLoad::Ready(b) => assert_eq!(b, vec![1, 2, 3]),
        ImageLoad::ReadFallback(_) => panic!("expected the bytes"),
    }
    match loader.load_image(vec![]) {
        ImageLoad::ReadFallback(p) => assert_eq!(p, "default.png"),
        ImageLoad::Ready(_) => panic!("expected the fallback"),
    }
}

#[test]
fn remote_config_path_joins_name() {
    let p = get_remote_config_path("/home/user/config");
    assert!(p.ends_with("remote_config.json"));
    assert_eq!(p, format!("/home/user/config{}remote_config.json", std::path::MAIN_SEPARATOR));
    assert_eq!(get_remote_config_path("/home/user/config/"), "/home/user/config/remote_config.json");
    assert_eq!(get_remote_config_path(""), "remote_config.json");
}

#[test]
fn menu_event_ids() {
    assert!(matches!(MenuEventId::from_id("show_setting_window"), MenuEventId::ShowSettingWindow));
    assert!(matches!(MenuEventId::from_id("exit_program"), MenuEventId::ExitProgram));
    assert!(matches!(MenuEventId::from_id("update_app_setting"), MenuEventId::UpdateAppSetting));
    match MenuEventId::from_id("other") {
        MenuEventId::Unknown(s) => assert_eq!(s, "other"),
        _ => panic!("expected an unknown id"),
    }
}

#[test]
fn overlay_takes_present_values_only() {
    let mut width: u32 = 1000;
    zerolaunch::patch::overlay(&mut width, None);
    assert_eq!(width, 1000);
    zerolaunch::patch::overlay(&mut width, Some(800));
    assert_eq!(width, 800);
}

#[test]
fn update_program_path_reindexes() {
    let index = IndexSnapshot::new();
    let entry = ProgramEntry {
        id: 0,
        display_name: "Editor".to_string(),
        aliases: vec![],
        launch_target: "editor".to_string(),
        icon_ref: String::new(),
        source_kind: SourceKind::Directory,
        stable_key: "editor".to_string(),
        weight: 1,
    };
    let next = update_program_path(&index, &vec![ScanOutcome::Found(vec![entry])]).unwrap();
    assert_eq!(next.version, 1);
    assert_eq!(next.entries.len(), 1);
    assert_eq!(
        update_program_path(&next, &vec![ScanOutcome::Unavailable]).err(),
        Some(RebuildError::AllSourcesFailed)
    );
}
