use qurb::signal::message::{Endpoints, FromClient, FromServer, IpAddr, SocketAddr};
use qurb::signal::rate::RateLimit;
use qurb::signal::rendezvous::{GroupId, MemberId};
use qurb::signal::server::{
    malformed, take, Answer, Delivery, Directory, Incoming, Limits, Next, Session,
};
use qurb::signal::wake::{WakeToken, Waker};
use std::cell::RefCell;
use std::sync::Mutex;

#[derive(Default)]
struct Recorder {
    woken: Mutex<RefCell<Vec<String>>>,
}

impl Recorder {
    fn woken(&self) -> Vec<String> {
        self.woken.lock().unwrap().borrow().clone()
    }
}

impl Waker for Recorder {
    fn wake(&self, token: &WakeToken) {
        self.woken.lock().unwrap().borrow_mut().push(token.clone());
    }
}

fn group_and_members() -> (GroupId, MemberId, MemberId) {
    let key = [5u8; 32];
    (
        GroupId::derive(&key),
        MemberId::derive(&key, &[1u8; 32]),
        MemberId::derive(&key, &[2u8; 32]),
    )
}

fn nowhere() -> Endpoints {
    Endpoints { public: None, local: Vec::new() }
}

fn somewhere(n: u8) -> Endpoints {
    let at = SocketAddr { ip: IpAddr::V4([10, 0, 0, n]), port: 4500, flow: 0, scope: 0 };
    Endpoints { public: None, local: vec![at] }
}

/// The rule the whole feature turns on: a device is woken when somebody
/// has something for it and it is not here to be told.
#[test]
fn an_absent_device_with_a_token_is_woken() {
    let (group, one, two) = group_and_members();
    let mut directory = Directory::new();
    directory.set_wake_token(group, two, Some("token-for-two".into()), 16, 0);

    let delivered = directory.note_waiting(group, one, two);
    assert!(delivered.is_none(), "nobody was connected, so nothing could be delivered");

    let recorder = Recorder::default();
    if let Some(token) = directory.wake_token(&group, &two) {
        recorder.wake(&token);
    }
    assert_eq!(recorder.woken(), vec!["token-for-two".to_string()]);
}

/// And the rule that keeps it from being a battery drain: a device that is
/// already connected is told, not woken.
#[test]
fn a_connected_device_is_told_rather_than_woken() {
    let (group, one, two) = group_and_members();
    let mut directory = Directory::new();
    directory.set_wake_token(group, two, Some("token-for-two".into()), 16, 0);

    directory.announce(group, two, nowhere(), 1);

    let delivered = directory.note_waiting(group, one, two);
    assert!(delivered.is_some(), "a connected device should have been told directly");
    assert!(
        directory.wake_token(&group, &two).is_some(),
        "the token should survive being connected, for next time"
    );
}

/// A token has to outlive the connection that supplied it. It is only ever
/// useful for a device that is *not* here.
#[test]
fn a_token_survives_disconnection() {
    let (group, _one, two) = group_and_members();
    let mut directory = Directory::new();

    directory.announce(group, two, nowhere(), 1);
    directory.set_wake_token(group, two, Some("token-for-two".into()), 16, 0);
    directory.leave(&group, &two);

    assert_eq!(
        directory.wake_token(&group, &two),
        Some("token-for-two".to_string()),
        "the token was thrown away with the connection"
    );
}

/// Withdrawing one is honoured: a signed-out device must stop being poked.
#[test]
fn a_withdrawn_token_is_forgotten() {
    let (group, _one, two) = group_and_members();
    let mut directory = Directory::new();
    directory.set_wake_token(group, two, Some("token-for-two".into()), 16, 0);
    directory.set_wake_token(group, two, None, 16, 1);
    assert_eq!(directory.wake_token(&group, &two), None);
}

/// A token outlives the whole group emptying, and that is the case that
/// matters most: a laptop shut overnight beside a sleeping phone leaves
/// nobody connected, and the laptop must still be able to wake the phone
/// when it comes back.
#[test]
fn a_token_outlives_everybody_leaving() {
    let (group, _one, two) = group_and_members();
    let mut directory = Directory::new();

    directory.announce(group, two, nowhere(), 1);
    directory.set_wake_token(group, two, Some("token-for-two".into()), 16, 0);
    directory.leave(&group, &two);

    assert_eq!(directory.group_count(), 0, "setup: the group should be gone");
    assert_eq!(
        directory.wake_token(&group, &two),
        Some("token-for-two".to_string()),
        "the token went with the empty group, so nobody could ever be woken"
    );
}

/// Something has to bound them, since they outlive everything else.
#[test]
fn the_oldest_tokens_are_dropped_when_there_are_too_many() {
    let mut directory = Directory::new();
    let key = [5u8; 32];
    let group = GroupId::derive(&key);

    let members: Vec<MemberId> = (0u8..8).map(|n| MemberId::derive(&key, &[n; 32])).collect();
    for (n, member) in members.iter().enumerate() {
        directory.set_wake_token(group, *member, Some(format!("token-{n}")), 4, n as u64);
    }

    let held = members.iter().filter(|m| directory.wake_token(&group, m).is_some()).count();
    assert_eq!(held, 4, "the cap was not applied");
    assert_eq!(directory.wake_token(&group, &members[0]), None, "the oldest survived");
    assert_eq!(
        directory.wake_token(&group, &members[7]),
        Some("token-7".to_string()),
        "the newest was dropped"
    );
}

struct Service {
    directory: Directory,
    limits: Limits,
}

impl Service {
    fn new() -> Self {
        Service { directory: Directory::new(), limits: Limits::default() }
    }

    fn ask(&mut self, session: &mut Session, request: FromClient) -> Answer {
        self.directory.handle(session, request, &self.limits, 0)
    }

    fn join(&mut self, link: u64, group: GroupId, n: u8) -> (Session, MemberId, Answer) {
        let member = MemberId::from_bytes([n; 32]);
        let mut session = Session::new(link);
        let answer =
            self.ask(&mut session, FromClient::Announce { group, member, endpoints: somewhere(n) });
        (session, member, answer)
    }
}

fn to(answer: &Answer, link: u64) -> Vec<&FromServer> {
    let all: &Vec<Delivery> = &answer.sends;
    all.iter().filter(|d| d.link == link).map(|d| &d.message).collect()
}

#[test]
fn a_newcomer_sees_the_others_and_is_seen() {
    let mut s = Service::new();
    let group = GroupId::from_bytes([1; 32]);
    let (_, one, first) = s.join(10, group, 1);
    assert!(matches!(&to(&first, 10)[..], [FromServer::Peers { members }] if members.is_empty()));

    let (_, two, second) = s.join(20, group, 2);
    match &to(&second, 20)[..] {
        [FromServer::Peers { members }] => {
            assert_eq!(members.len(), 1);
            assert!(members[0].member == one);
            assert_eq!(members[0].endpoints, somewhere(1));
        }
        _ => panic!("the newcomer was not told of the other"),
    }
    match &to(&second, 10)[..] {
        [FromServer::Appeared { peer }] => assert!(peer.member == two),
        _ => panic!("the other was not told of the newcomer"),
    }
}

#[test]
fn both_are_told_to_punch() {
    let mut s = Service::new();
    let group = GroupId::from_bytes([1; 32]);
    let (mut a, one, _) = s.join(10, group, 1);
    let (mut b, two, _) = s.join(20, group, 2);

    let asked = s.ask(&mut a, FromClient::Connect { to: two });
    assert!(matches!(
        &to(&asked, 20)[..],
        [FromServer::ConnectRequest { from, endpoints }] if *from == one && *endpoints == somewhere(1)
    ));

    let agreed = s.ask(&mut b, FromClient::Accept { to: one, endpoints: somewhere(22) });
    assert!(matches!(
        &to(&agreed, 10)[..],
        [FromServer::Punch { peer, endpoints }] if *peer == two && *endpoints == somewhere(22)
    ));
    assert!(matches!(
        &to(&agreed, 20)[..],
        [FromServer::Punch { peer, endpoints }] if *peer == one && *endpoints == somewhere(1)
    ));
}

#[test]
fn another_group_is_out_of_reach() {
    let mut s = Service::new();
    let (mut a, _, _) = s.join(10, GroupId::from_bytes([1; 32]), 1);
    let (_, two, joined) = s.join(20, GroupId::from_bytes([2; 32]), 2);
    assert!(to(&joined, 10).is_empty(), "one group heard of another");

    let asked = s.ask(&mut a, FromClient::Connect { to: two });
    assert!(to(&asked, 20).is_empty());
    assert!(matches!(&to(&asked, 10)[..], [FromServer::Error { .. }]));
}

#[test]
fn whoever_has_not_announced_gets_nothing() {
    let mut s = Service::new();
    let (_, one, _) = s.join(10, GroupId::from_bytes([1; 32]), 1);
    for request in [
        FromClient::Connect { to: one },
        FromClient::Accept { to: one, endpoints: nowhere() },
        FromClient::Waiting { to: one },
        FromClient::Reachable { via: Some("t".to_string()) },
    ] {
        let mut stranger = Session::new(99);
        let answer = s.ask(&mut stranger, request);
        assert!(to(&answer, 10).is_empty());
        assert!(answer.wake.is_none());
    }
}

#[test]
fn whoever_left_is_offered_to_nobody() {
    let mut s = Service::new();
    let group = GroupId::from_bytes([1; 32]);
    let (a, one, _) = s.join(10, group, 1);
    assert!(s.directory.is_here(&group, &one));
    s.directory.disconnect(&a);
    assert!(!s.directory.is_here(&group, &one));
    assert_eq!(s.directory.group_count(), 0);
    let (_, _, second) = s.join(20, group, 2);
    assert!(matches!(&to(&second, 20)[..], [FromServer::Peers { members }] if members.is_empty()));
}

#[test]
fn an_announcement_replaces_the_address() {
    let mut s = Service::new();
    let group = GroupId::from_bytes([1; 32]);
    let (mut a, one, _) = s.join(10, group, 1);
    s.ask(&mut a, FromClient::Announce { group, member: one, endpoints: somewhere(77) });
    let (endpoints, link) = s.directory.look_up(&group, &one).unwrap();
    assert_eq!(endpoints, somewhere(77));
    assert_eq!(link, 10);
}

#[test]
fn a_full_group_takes_nobody_new_but_lets_its_own_move() {
    let mut s = Service::new();
    s.limits.max_members_per_group = 2;
    let group = GroupId::from_bytes([1; 32]);
    let (mut a, one, _) = s.join(10, group, 1);
    s.join(20, group, 2);
    let (_, three, refused) = s.join(30, group, 3);
    assert!(matches!(&to(&refused, 30)[..], [FromServer::Error { .. }]));
    assert!(!s.directory.is_here(&group, &three));
    let moved = s.ask(&mut a, FromClient::Announce { group, member: one, endpoints: somewhere(9) });
    assert!(matches!(&to(&moved, 10)[..], [FromServer::Peers { members }] if members.len() == 1));
}

#[test]
fn many_notes_are_heard_as_one() {
    let mut s = Service::new();
    let group = GroupId::from_bytes([1; 32]);
    let two = MemberId::from_bytes([2; 32]);
    let (mut a, one, _) = s.join(10, group, 1);
    for _ in 0..5 {
        s.ask(&mut a, FromClient::Waiting { to: two });
    }
    let (_, _, arrived) = s.join(20, group, 2);
    let notes: Vec<_> = to(&arrived, 20)
        .into_iter()
        .filter(|m| matches!(m, FromServer::Waiting { from } if *from == one))
        .collect();
    assert_eq!(notes.len(), 1);
}

#[test]
fn a_note_for_the_absent_wakes_them() {
    let mut s = Service::new();
    let group = GroupId::from_bytes([1; 32]);
    let (mut b, two, _) = s.join(20, group, 2);
    s.ask(&mut b, FromClient::Reachable { via: Some("push".to_string()) });
    let (mut a, _, _) = s.join(10, group, 1);

    let told = s.ask(&mut a, FromClient::Waiting { to: two });
    assert!(told.wake.is_none(), "a connected device was woken");
    assert_eq!(to(&told, 20).len(), 1);

    s.directory.disconnect(&b);
    let woken = s.ask(&mut a, FromClient::Waiting { to: two });
    assert_eq!(woken.wake.as_deref(), Some("push"));
}

#[test]
fn a_token_that_is_too_long_is_not_kept() {
    let mut s = Service::new();
    s.limits.max_wake_token = 4;
    let group = GroupId::from_bytes([1; 32]);
    let (mut a, one, _) = s.join(10, group, 1);
    s.ask(&mut a, FromClient::Reachable { via: Some("12345".to_string()) });
    assert_eq!(s.directory.wake_token(&group, &one), None);
    s.ask(&mut a, FromClient::Reachable { via: Some("1234".to_string()) });
    assert_eq!(s.directory.wake_token(&group, &one).as_deref(), Some("1234"));
}

#[test]
fn nonsense_is_answered_and_the_rest_goes_by_its_kind() {
    let session = Session::new(5);
    let said = malformed(&session, "why");
    assert_eq!(said.link, 5);
    assert!(said.message == FromServer::Error { detail: "malformed: why".to_string() });
    assert_eq!(take(Incoming::Text), Next::Read);
    assert_eq!(take(Incoming::Other), Next::Skip);
    assert_eq!(take(Incoming::Close), Next::Stop);
    assert_eq!(take(Incoming::Broken), Next::Stop);
}

#[test]
fn connections_are_bounded() {
    let limits = Limits::default();
    assert!(limits.admits(9_999));
    assert!(!limits.admits(10_000));
}

#[test]
fn a_flood_is_let_through_at_the_configured_rate() {
    const SECOND: u64 = 1_000_000_000;
    let limits = Limits { burst: 3, messages_per_second: 2, ..Limits::default() };
    let mut rate = RateLimit::new(&limits, 0);
    assert!(rate.allow(0) && rate.allow(0) && rate.allow(0), "a burst is normal");
    assert!(!rate.allow(0));
    assert!(!rate.allow(SECOND / 2 - 1));
    assert!(rate.allow(SECOND / 2), "half a second buys one message");
    assert!(!rate.allow(SECOND / 2));
    let later = 100 * SECOND;
    let through = (0..10).filter(|_| rate.allow(later)).count();
    assert_eq!(through, 3, "waiting buys no more than a burst");
}
