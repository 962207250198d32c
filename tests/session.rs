use hex::color::{ColorError, Rgb};
use hex::roles::{role_name, GuildDirectory};
use hex::session::{ButtonAction, Event, Session, SessionState, Step};

fn click(user_id: u64, channel_id: u64, id: &str) -> Event {
    Event::Click { user_id, channel_id, action: ButtonAction::from_custom_id(id) }
}

#[test]
fn custom_ids_round_trip() {
    for a in [ButtonAction::Randomize, ButtonAction::Lighten, ButtonAction::Darken, ButtonAction::Submit] {
        assert_eq!(ButtonAction::from_custom_id(&a.custom_id()), Some(a));
    }
    assert_eq!(ButtonAction::from_custom_id("select"), None);
    assert_eq!(ButtonAction::from_custom_id(""), None);
}

#[test]
fn darken_then_submit_synchronizes_darker_color() {
    let mut s = Session::open(7, 9, Some("#ff0000"), Rgb::new(1, 2, 3)).unwrap();
    assert_eq!(s.color, Rgb::new(255, 0, 0));
    assert_eq!(s.handle(click(7, 9, "darken"), Rgb::new(1, 2, 3)), Step::Render);
    let darker = s.color;
    assert_eq!(darker, Rgb::new(204, 0, 0));
    let light = |c: Rgb| c.r.max(c.g).max(c.b) as u32 + c.r.min(c.g).min(c.b) as u32;
    assert!(light(darker) < light(Rgb::new(255, 0, 0)));
    assert_eq!(s.handle(click(7, 9, "submit"), Rgb::new(1, 2, 3)), Step::Finalized);
    assert_eq!(s.state, SessionState::Finalized);
    let color = s.finalized_color().unwrap();

    let mut guild = GuildDirectory::new(Vec::new(), 100);
    let mut member = Vec::new();
    let id = guild.synchronize(&mut member, 7, color, &Vec::new()).unwrap();
    assert_eq!(guild.roles.len(), 1);
    assert_eq!(guild.roles[0].name, role_name(7));
    assert_eq!(guild.roles[0].color, darker);
    assert_eq!(member, vec![id]);
    assert!(s.retracts_preview(true));
}

#[test]
fn timeout_abandons_without_color() {
    let mut s = Session::start(7, 9, Rgb::new(10, 20, 30));
    assert_eq!(s.handle(Event::TimedOut, Rgb::new(1, 2, 3)), Step::Abandoned);
    assert_eq!(s.state, SessionState::Abandoned);
    assert_eq!(s.finalized_color(), None);
    assert!(!s.retracts_preview(true));
    assert_eq!(s.handle(click(7, 9, "submit"), Rgb::new(1, 2, 3)), Step::Ignored);
    assert_eq!(s.state, SessionState::Abandoned);

    let mut guild = GuildDirectory::new(Vec::new(), 100);
    let mut member = Vec::new();
    assert_eq!(guild.conclude(&s, &mut member, &Vec::new()), Ok(None));
    assert!(guild.roles.is_empty());
    assert!(member.is_empty());
    assert_eq!(guild.next_id, 100);
}

#[test]
fn finalized_session_concludes_with_role() {
    let mut s = Session::start(7, 9, Rgb::new(10, 20, 30));
    assert_eq!(s.handle(click(7, 9, "submit"), Rgb::new(1, 2, 3)), Step::Finalized);
    let mut guild = GuildDirectory::new(Vec::new(), 100);
    let mut member = Vec::new();
    assert_eq!(guild.conclude(&s, &mut member, &Vec::new()), Ok(Some(100)));
    assert_eq!(guild.roles.len(), 1);
    assert_eq!(guild.roles[0].color, Rgb::new(10, 20, 30));
    assert_eq!(member, vec![100]);
}

#[test]
fn malformed_text_starts_no_session() {
    assert_eq!(Session::open(7, 9, Some("notacolor"), Rgb::new(1, 2, 3)), Err(ColorError::Malformed));
}

#[test]
fn no_text_starts_with_fresh_color() {
    let s = Session::open(7, 9, None, Rgb::new(1, 2, 3)).unwrap();
    assert_eq!(s.color, Rgb::new(1, 2, 3));
    assert_eq!(s.state, SessionState::Selecting);
}

#[test]
fn other_user_or_channel_is_ignored() {
    let mut s = Session::start(7, 9, Rgb::new(10, 20, 30));
    assert_eq!(s.handle(click(8, 9, "submit"), Rgb::new(1, 2, 3)), Step::Ignored);
    assert_eq!(s.handle(click(7, 10, "submit"), Rgb::new(1, 2, 3)), Step::Ignored);
    assert_eq!(s.state, SessionState::Selecting);
    assert!(s.accepts(7, 9));
    assert!(!s.accepts(8, 9));
}

#[test]
fn unknown_button_keeps_waiting() {
    let mut s = Session::start(7, 9, Rgb::new(10, 20, 30));
    assert_eq!(s.handle(click(7, 9, "help"), Rgb::new(1, 2, 3)), Step::Waiting);
    assert_eq!(s, Session::start(7, 9, Rgb::new(10, 20, 30)));
}

#[test]
fn randomize_takes_fresh_and_lighten_steps() {
    let mut s = Session::start(7, 9, Rgb::new(10, 20, 30));
    assert_eq!(s.handle(click(7, 9, "randomize"), Rgb::new(255, 0, 0)), Step::Render);
    assert_eq!(s.color, Rgb::new(255, 0, 0));
    assert_eq!(s.handle(click(7, 9, "lighten"), Rgb::new(1, 2, 3)), Step::Render);
    assert_eq!(s.color, Rgb::new(255, 51, 51));
    assert_eq!(s.state, SessionState::Selecting);
    assert_eq!(s.finalized_color(), None);
}
