use sandmp::client::{texture_patch, ClientEvent, ClientInput, TexturePatch, INPUT_INTERVAL_NANOS};
use sandmp::msg::Msg;
use sandmp::particle::Particle;

#[test]
fn client_starts_idle() {
    let c = ClientInput::new();
    assert_eq!(c.cursor(), (0, 0));
    assert!(!c.is_mouse_down());
    assert_eq!(c.input_sleep_nanos(), 0);
}

#[test]
fn events_update_the_state() {
    let mut c = ClientInput::new();
    assert!(c.handle_event(ClientEvent::CursorMoved { x: 5, y: 6 }));
    assert_eq!(c.cursor(), (5, 6));
    assert!(c.handle_event(ClientEvent::MouseDown));
    assert!(c.is_mouse_down());
    assert!(c.handle_event(ClientEvent::Other));
    assert!(c.is_mouse_down());
    assert!(c.handle_event(ClientEvent::MouseUp));
    assert!(!c.is_mouse_down());
    assert!(!c.handle_event(ClientEvent::Quit));
    assert_eq!(c.cursor(), (5, 6));
}

#[test]
fn request_is_sent_when_held_long_enough() {
    let mut c = ClientInput::new();
    c.handle_event(ClientEvent::CursorMoved { x: 10, y: 12 });
    c.handle_event(ClientEvent::MouseDown);
    c.add_frame_time(31_999_999);
    assert_eq!(c.take_request(), None);
    c.add_frame_time(1);
    assert_eq!(c.input_sleep_nanos(), INPUT_INTERVAL_NANOS);
    assert_eq!(c.take_request(), Some(Msg::SetParticle { x: 10, y: 12, particle: Particle::Sand }));
    assert_eq!(c.input_sleep_nanos(), 0);
    assert_eq!(c.take_request(), None);
}

#[test]
fn no_request_without_the_button() {
    let mut c = ClientInput::new();
    c.add_frame_time(1_000_000_000);
    assert_eq!(c.take_request(), None);
    assert_eq!(c.input_sleep_nanos(), 1_000_000_000);
}

#[test]
fn texture_update_becomes_a_patch() {
    let data: Vec<u8> = (0..192).map(|i| i as u8).collect();
    let p = texture_patch(Msg::TextureUpdate { x: 8, y: 16, data: data.clone() });
    assert_eq!(p, Some(TexturePatch { x: 8, y: 16, width: 8, height: 8, pitch: 24, data }));
    assert_eq!(texture_patch(Msg::SetParticle { x: 1, y: 2, particle: Particle::Sand }), None);
}
