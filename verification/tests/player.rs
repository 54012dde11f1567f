use muse::player::{position, wrap_index, LoopMode, PlayState, HISTORY_CAP};

fn s(v: &[&str]) -> Vec<String> {
    v.iter().map(|x| x.to_string()).collect()
}

fn state() -> PlayState {
    PlayState::new(false, 42)
}

#[test]
fn loop_mode_cycle_and_names() {
    assert_eq!(LoopMode::Off.next(), LoopMode::All);
    assert_eq!(LoopMode::All.next(), LoopMode::One);
    assert_eq!(LoopMode::One.next(), LoopMode::Off);
    assert_eq!(LoopMode::Off.label(), "loop off");
    assert_eq!(LoopMode::All.label(), "loop all");
    assert_eq!(LoopMode::One.label(), "loop one");
    for m in [LoopMode::Off, LoopMode::All, LoopMode::One] {
        assert_eq!(LoopMode::from_str(m.as_str()), Some(m));
        assert_eq!(m.next().next().next(), m);
    }
    assert_eq!(LoopMode::from_str("ALL"), None);
    assert_eq!(LoopMode::from_str(""), None);
}

#[test]
fn new_state_is_idle() {
    let p = PlayState::new(true, 42);
    assert!(p.shuffle);
    assert_eq!(p.rng, 43);
    assert!(p.queue.is_empty() && p.now_playing.is_none());
    assert_eq!(PlayState::new(false, 8).rng, 9);
}

#[test]
fn positions_and_wrapping() {
    let v = s(&["a", "b", "a"]);
    assert_eq!(position(&v, &"a".to_string()), Some(0));
    assert_eq!(position(&v, &"b".to_string()), Some(1));
    assert_eq!(position(&v, &"z".to_string()), None);
    assert_eq!(wrap_index(2, 1, 3), 0);
    assert_eq!(wrap_index(0, -1, 3), 2);
    assert_eq!(wrap_index(1, -7, 3), 0);
    assert_eq!(wrap_index(5, 0, 3), 2);
}

#[test]
fn relative_wraps_and_starts_at_front() {
    let mut p = state();
    let list = s(&["1", "2", "3"]);
    assert_eq!(p.relative(&list, 1), Some("1".to_string()));
    p.now_playing = Some("3".to_string());
    assert_eq!(p.relative(&list, 1), Some("1".to_string()));
    assert_eq!(p.relative(&list, -1), Some("2".to_string()));
    assert_eq!(p.relative(&Vec::new(), 1), None);
}

#[test]
fn predict_follows_queue_then_list() {
    let mut p = state();
    let list = s(&["1", "2", "3"]);
    p.queue_append(s(&["q1", "q2"]));
    p.now_playing = Some("q1".to_string());
    assert_eq!(p.predict_auto_next(&list), Some("q2".to_string()));
    p.now_playing = Some("q2".to_string());
    assert_eq!(p.predict_auto_next(&list), None);
    p.loop_mode = LoopMode::All;
    assert_eq!(p.predict_auto_next(&list), Some("q1".to_string()));
    // Outside the queue: the list, honoring the loop mode.
    p.now_playing = Some("3".to_string());
    assert_eq!(p.predict_auto_next(&list), Some("1".to_string()));
    p.loop_mode = LoopMode::Off;
    assert_eq!(p.predict_auto_next(&list), None);
    p.now_playing = Some("2".to_string());
    assert_eq!(p.predict_auto_next(&list), Some("3".to_string()));
    p.loop_mode = LoopMode::One;
    assert_eq!(p.predict_auto_next(&list), Some("2".to_string()));
    p.now_playing = Some("x".to_string());
    p.loop_mode = LoopMode::All;
    assert_eq!(p.predict_auto_next(&list), None);
}

#[test]
fn next_and_prev_targets() {
    let mut p = state();
    let list = s(&["1", "2", "3"]);
    p.now_playing = Some("2".to_string());
    assert_eq!(p.next_target(&list), Some("3".to_string()));
    assert_eq!(p.prev_target(&list), Some("1".to_string()));
    p.queue_append(s(&["q1", "q2"]));
    // The queue starts when nothing in it plays.
    assert_eq!(p.next_target(&list), Some("q1".to_string()));
    assert_eq!(p.prev_target(&list), Some("1".to_string()));
    p.now_playing = Some("q2".to_string());
    assert_eq!(p.next_target(&list), Some("q1".to_string()));
    assert_eq!(p.prev_target(&list), Some("q1".to_string()));
    p.now_playing = Some("q1".to_string());
    assert_eq!(p.prev_target(&list), Some("q2".to_string()));
}

#[test]
fn play_next_inserts_after_now_playing() {
    let mut p = state();
    p.queue_append(s(&["a", "b", "c"]));
    p.now_playing = Some("b".to_string());
    p.queue_play_next(s(&["x", "y"]));
    assert_eq!(p.queue, s(&["a", "b", "x", "y", "c"]));
    p.now_playing = None;
    p.queue_play_next(s(&["z"]));
    assert_eq!(p.queue, s(&["z", "a", "b", "x", "y", "c"]));
    p.queue_play_next(Vec::new());
    assert_eq!(p.queue.len(), 6);
}

#[test]
fn queue_manager_ops() {
    let mut p = state();
    p.queue_append(s(&["a", "b", "c"]));
    p.queue_move_cursor(5);
    assert_eq!(p.queue_sel, 2);
    p.queue_move_cursor(-10);
    assert_eq!(p.queue_sel, 0);
    p.queue_reorder(1);
    assert_eq!(p.queue, s(&["b", "a", "c"]));
    assert_eq!(p.queue_sel, 1);
    p.queue_reorder(5);
    assert_eq!(p.queue, s(&["b", "a", "c"]));
    assert_eq!(p.queue_play_sel(), Some("a".to_string()));
    p.queue_move_cursor(1);
    p.queue_remove_sel();
    assert_eq!(p.queue, s(&["b", "a"]));
    assert_eq!(p.queue_sel, 1);
    p.toggle_queue();
    assert!(p.show_queue);
    p.queue_clear();
    assert!(p.queue.is_empty());
    assert_eq!(p.queue_sel, 0);
    assert_eq!(p.queue_play_sel(), None);
    p.queue_remove_sel();
    assert!(p.queue.is_empty());
}

#[test]
fn toggle_pulls_cursor_onto_queue() {
    let mut p = state();
    p.queue_append(s(&["a", "b", "c"]));
    p.queue_move_cursor(2);
    p.queue_sel = 2;
    p.queue_remove_sel();
    assert_eq!(p.queue_sel, 1);
    p.toggle_queue();
    assert_eq!(p.queue_sel, 1);
    p.toggle_queue();
    assert!(!p.show_queue);
}

#[test]
fn load_playlist_replaces_queue() {
    let mut p = state();
    p.queue_append(s(&["a"]));
    assert_eq!(p.load_playlist(Vec::new()), None);
    assert_eq!(p.queue, s(&["a"]));
    assert_eq!(p.load_playlist(s(&["x", "y"])), Some("x".to_string()));
    assert_eq!(p.queue, s(&["x", "y"]));
    assert_eq!(p.queue_sel, 0);
}

#[test]
fn xorshift_steps() {
    let mut p = PlayState::new(false, 0);
    assert_eq!(p.rng, 1);
    assert_eq!(p.next_rng(), 1082269761);
    assert_eq!(p.next_rng(), 1152992998833853505);
    assert_eq!(p.rng, 1152992998833853505);
}

#[test]
fn refill_is_a_permutation_without_now_playing() {
    let mut p = PlayState::new(true, 7);
    let list = s(&["1", "2", "3", "4", "5"]);
    p.now_playing = Some("3".to_string());
    p.refill_bag(&list);
    let mut bag = p.shuffle_bag.clone();
    assert!(!bag.contains(&"3".to_string()));
    bag.sort();
    assert_eq!(bag, s(&["1", "2", "4", "5"]));
}

#[test]
fn refill_matches_fisher_yates() {
    let mut p = PlayState::new(true, 0);
    let list = s(&["a", "b", "c"]);
    p.refill_bag(&list);
    // rng 1 -> 1082269761 (i = 2, j = 1082269761 % 3 = 0), then (i = 1, j = r % 2).
    let r2: u64 = 1152992998833853505;
    let mut expect = s(&["a", "b", "c"]);
    expect.swap(2, (1082269761u64 % 3) as usize);
    expect.swap(1, (r2 % 2) as usize);
    assert_eq!(p.shuffle_bag, expect);
    assert_eq!(p.rng, r2);
}

#[test]
fn shuffle_after_play_drops_and_refills() {
    let mut p = PlayState::new(true, 3);
    let list = s(&["1", "2", "3"]);
    p.shuffle_bag = s(&["2", "3"]);
    p.now_playing = Some("2".to_string());
    p.shuffle_after_play(&list);
    assert_eq!(p.shuffle_bag, s(&["3"]));
    p.now_playing = Some("3".to_string());
    p.shuffle_after_play(&list);
    let mut bag = p.shuffle_bag.clone();
    bag.sort();
    assert_eq!(bag, s(&["1", "2"]));
    // Shuffle off: nothing changes.
    let mut q = PlayState::new(false, 3);
    q.shuffle_bag = s(&["x"]);
    q.now_playing = Some("x".to_string());
    q.shuffle_after_play(&list);
    assert_eq!(q.shuffle_bag, s(&["x"]));
}

#[test]
fn history_is_capped() {
    let mut p = state();
    for i in 0..(HISTORY_CAP + 10) {
        p.push_history(format!("t{i}"));
    }
    assert_eq!(p.play_history.len(), HISTORY_CAP);
    assert_eq!(p.play_history[0], "t10");
    assert_eq!(p.play_history.last().unwrap(), &format!("t{}", HISTORY_CAP + 9));
    assert_eq!(p.shuffle_prev(), Some(format!("t{}", HISTORY_CAP + 9)));
    assert_eq!(p.play_history.len(), HISTORY_CAP - 1);
    let mut e = state();
    assert_eq!(e.shuffle_prev(), None);
}

#[test]
fn advance_shuffle_cycles_under_all() {
    let mut p = PlayState::new(true, 11);
    let list = s(&["1", "2"]);
    p.shuffle_bag = s(&["2"]);
    assert_eq!(p.advance_shuffle(&list), Some("2".to_string()));
    p.shuffle_bag = Vec::new();
    assert_eq!(p.advance_shuffle(&list), None);
    p.loop_mode = LoopMode::All;
    p.now_playing = Some("1".to_string());
    assert_eq!(p.advance_shuffle(&list), Some("2".to_string()));
}

#[test]
fn note_play_records_outgoing() {
    let mut p = state();
    let list = s(&["1", "2"]);
    assert_eq!(p.note_play("1".to_string(), true, &list), None);
    assert_eq!(p.note_play("1".to_string(), true, &list), None);
    assert_eq!(p.note_play("2".to_string(), true, &list), Some("1".to_string()));
    assert_eq!(p.play_history, s(&["1"]));
    assert_eq!(p.note_play("1".to_string(), false, &list), Some("2".to_string()));
    assert_eq!(p.play_history, s(&["1"]));
    assert_eq!(p.now_playing, Some("1".to_string()));
}

#[test]
fn end_of_track_and_preload() {
    let mut p = state();
    let list = s(&["1", "2"]);
    p.now_playing = Some("1".to_string());
    assert_eq!(p.end_of_track(&list), Some("2".to_string()));
    assert_eq!(p.preload_target(true, &list), Some("2".to_string()));
    assert_eq!(p.preload_target(false, &list), None);
    p.loop_mode = LoopMode::One;
    assert_eq!(p.end_of_track(&list), Some("1".to_string()));
    assert_eq!(p.preload_target(true, &list), Some("1".to_string()));
}
