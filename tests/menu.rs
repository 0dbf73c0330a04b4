use sese::menu::MenuBuilder;
use sese::resource::{Control, Mode, Save};
use sese::tile::TileSize;

#[derive(Clone, Copy, Debug, PartialEq)]
enum Action {
    Play,
    Less,
    More,
    Quit,
}

#[test]
fn menu_moves_and_wraps() {
    let mut menu = MenuBuilder::new()
        .add_middle("Play".to_string(), Action::Play)
        .add_left_right("Players".to_string(), Action::Less, Action::More)
        .add_middle("Quit".to_string(), Action::Quit)
        .build();
    assert_eq!(menu.len(), 3);
    assert_eq!(menu.cursor(), 0);
    assert_eq!(menu.left(), Action::Play);
    menu.up();
    assert_eq!(menu.cursor(), 2);
    assert_eq!(menu.right(), Action::Quit);
    menu.down();
    assert_eq!(menu.cursor(), 0);
    menu.down();
    assert_eq!(menu.left(), Action::Less);
    assert_eq!(menu.right(), Action::More);
}

#[test]
fn menu_control_events() {
    let mut menu = MenuBuilder::new()
        .add_middle("Play".to_string(), Action::Play)
        .add_left_right("Players".to_string(), Action::Less, Action::More)
        .build();
    assert_eq!(menu.control_event(Control::Down), None);
    assert_eq!(menu.control_event(Control::Left), Some(Action::Less));
    assert_eq!(menu.control_event(Control::Right), Some(Action::More));
    assert_eq!(menu.control_event(Control::Boost), None);
    assert_eq!(menu.control_event(Control::Up), None);
    assert_eq!(menu.control_event(Control::Right), Some(Action::Play));
    assert_eq!(menu.control_event(Control::Menu), None);
    assert_eq!(menu.cursor(), 0);
}

#[test]
fn menu_reset_name() {
    let mut menu = MenuBuilder::new()
        .add_middle("a".to_string(), 1u8)
        .add_middle("b".to_string(), 2u8)
        .build();
    menu.reset_name(1, "c".to_string());
    assert_eq!(menu.names(), vec!["a".to_string(), "c".to_string()]);
}

#[test]
fn modes_step() {
    let mut m = Mode::Mode1Player;
    assert_eq!(m.number_of_player(), 1);
    m.reduce();
    assert_eq!(m.number_of_player(), 1);
    m.increase();
    assert_eq!(m.number_of_player(), 2);
    m.increase();
    m.increase();
    assert_eq!(m.number_of_player(), 3);
    m.reduce();
    assert_eq!(m.number_of_player(), 2);
}

#[test]
fn save_uuid_changes_once() {
    let mut save = Save::from_parts(None, true);
    assert!(save.fullscreen());
    assert_eq!(*save.vulkan_device_uuid(), None);
    let uuid = [7u8; 16];
    assert!(save.set_vulkan_device_uuid_lazy(&uuid));
    assert_eq!(*save.vulkan_device_uuid(), Some(uuid));
    assert!(!save.set_vulkan_device_uuid_lazy(&uuid));
    let mut other = uuid;
    other[15] = 8;
    assert!(save.set_vulkan_device_uuid_lazy(&other));
    assert_eq!(*save.vulkan_device_uuid(), Some(other));
}

#[test]
fn tile_sizes() {
    assert_eq!(TileSize::T2x3.size(), (2, 3));
    assert_eq!(TileSize::T3x2.width(), 3);
    assert_eq!(TileSize::T1x2.height(), 2);
    for &(w, h) in &[(1, 1), (1, 2), (2, 1), (2, 2), (2, 3), (3, 2), (3, 3)] {
        assert_eq!(TileSize::from_size(w, h).size(), (w, h));
    }
}
