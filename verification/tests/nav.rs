use muse::media::Registry;
use muse::model::{DirEntryInfo, TreeModel};
use muse::nav::{collapse_action, descend_row, enter_action, visible_media, visible_row, CollapseAction, EnterAction};

fn ent(path: &str, is_dir: bool, size: u64) -> DirEntryInfo {
    DirEntryInfo { path: path.to_string(), is_dir, size }
}

fn tree() -> (TreeModel, Registry) {
    let reg = Registry::new();
    let mut m = TreeModel::new(
        "/m",
        vec![ent("/m/d", true, 0), ent("/m/a.mp3", false, 3), ent("/m/l.m3u", false, 1)],
        vec![(1, 5), (0, 0), (0, 0)],
        &reg,
    );
    let d = m.visible[0];
    m.scan(d, vec![ent("/m/d/x.ogg", false, 5)], vec![(0, 0)], &reg);
    (m, reg)
}

#[test]
fn enter_decides_by_node_kind() {
    let (mut m, reg) = tree();
    let d = m.visible[0];
    assert!(matches!(enter_action(&m, d, &reg), EnterAction::Toggle { expand: true, close_archive: false }));
    m.nodes[d].expanded = true;
    m.rebuild_visible();
    assert!(matches!(enter_action(&m, d, &reg), EnterAction::Toggle { expand: false, close_archive: false }));
    match enter_action(&m, m.visible[2], &reg) {
        EnterAction::Play(p) => assert_eq!(p, "/m/a.mp3"),
        _ => panic!("expected play"),
    }
    match enter_action(&m, m.visible[3], &reg) {
        EnterAction::LoadPlaylist(p) => assert_eq!(p, "/m/l.m3u"),
        _ => panic!("expected playlist"),
    }
}

#[test]
fn collapse_then_parent() {
    let (mut m, _) = tree();
    let d = m.visible[0];
    m.nodes[d].expanded = true;
    m.rebuild_visible();
    assert_eq!(collapse_action(&m, d), CollapseAction::Collapse { close_archive: false });
    let x = m.visible[1];
    assert_eq!(collapse_action(&m, x), CollapseAction::SelectParent(0));
    // Top-level rows have the hidden root as parent: nothing happens.
    let a = m.visible[2];
    assert_eq!(collapse_action(&m, a), CollapseAction::Nothing);
    assert_eq!(descend_row(&m, d), Some(1));
    assert_eq!(descend_row(&m, a), None);
    assert_eq!(visible_row(&m, a), Some(2));
}

#[test]
fn media_rows_in_order() {
    let (mut m, _) = tree();
    assert_eq!(visible_media(&m), vec!["/m/a.mp3".to_string()]);
    let d = m.visible[0];
    m.nodes[d].expanded = true;
    m.rebuild_visible();
    assert_eq!(visible_media(&m), vec!["/m/d/x.ogg".to_string(), "/m/a.mp3".to_string()]);
}
