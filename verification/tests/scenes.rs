use yugen_render::scenes::{running, Paused, Scene};

#[test]
fn a_fresh_game_opens_on_the_menu() {
    assert_eq!(Scene::default(), Scene::Menu);
}

#[test]
fn a_game_starts_running_and_a_pause_stops_it() {
    assert!(running(Paused::default()));
    assert!(!running(Paused(true)));
}
