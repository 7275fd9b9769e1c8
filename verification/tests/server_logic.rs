use speed_daemon::client::{server_notice, Dialog, DialogOutput, Prompt, ServerNotice};
use bytes::BytesMut;
use speed_daemon::messages::{MessageDecoder, MessageEncoder, MessageType};
use speed_daemon::network::{Camera, Ticket};
use speed_daemon::session::{SessionAction, SessionEvent, SessionState};
use speed_daemon::speed::{ticket_between_exec, Observation, SpeedRecords};
use speed_daemon::tickets::TicketManager;

fn ticket(plate: &str, road: u16, t1: u32, t2: u32) -> Ticket {
    Ticket {
        plate: String::from(plate),
        road,
        mile1: 8,
        timestamp1: t1,
        mile2: 9,
        timestamp2: t2,
        speed: 8000,
    }
}

fn sends(actions: &[SessionAction]) -> Vec<&MessageType> {
    actions
        .iter()
        .filter_map(|a| match a {
            SessionAction::Send(m) => Some(m),
            _ => None,
        })
        .collect()
}

#[test]
fn unknown_client_gets_error_for_plate() {
    let mut s = SessionState::new();
    let actions = s.step(SessionEvent::Received(MessageType::Plate(String::from("A"), 1)));
    assert_eq!(s, SessionState::Unknown);
    assert_eq!(
        sends(&actions),
        vec![&MessageType::Error(String::from(
            "Type must be set before sending other messages"
        ))]
    );
}

#[test]
fn heartbeat_request_then_ticks() {
    let mut s = SessionState::new();
    let actions = s.step(SessionEvent::Received(MessageType::WantHeartbeat(10)));
    assert!(matches!(actions.as_slice(), [SessionAction::StartHeartbeat(1_000_000_000)]));
    let actions = s.step(SessionEvent::HeartbeatDue);
    assert_eq!(sends(&actions), vec![&MessageType::HeartBeat]);
    assert_eq!(s, SessionState::Unknown);
}

#[test]
fn camera_reports_plates_with_its_position() {
    let mut s = SessionState::new();
    let cam = Camera { road: 123, mile: 8, limit: 60 };
    let actions = s.step(SessionEvent::Received(MessageType::IAmCamera(cam)));
    assert!(matches!(actions.as_slice(), [SessionAction::AddCamera(123, 60)]));
    assert_eq!(s, SessionState::Camera(cam));
    let actions = s.step(SessionEvent::Received(MessageType::Plate(String::from("UN1X"), 0)));
    match actions.as_slice() {
        [SessionAction::ReportPlate(p, 123, 8, 0)] => assert_eq!(p, "UN1X"),
        _ => panic!("unexpected actions"),
    }
    let actions = s.step(SessionEvent::Received(MessageType::HeartBeat));
    assert_eq!(
        sends(&actions),
        vec![&MessageType::Error(String::from("Invalid message for Camera"))]
    );
    let actions = s.step(SessionEvent::Disconnected);
    assert!(matches!(
        actions.as_slice(),
        [SessionAction::CloseWriter, SessionAction::StopHeartbeat]
    ));
    assert!(s.is_closed());
}

#[test]
fn dispatcher_joins_receives_tickets_and_leaves() {
    let mut s = SessionState::new();
    let actions = s.step(SessionEvent::Received(MessageType::IAmDispatcher(vec![66])));
    match actions.as_slice() {
        [SessionAction::JoinDispatchers(r)] => assert_eq!(r, &vec![66]),
        _ => panic!("unexpected actions"),
    }
    assert_eq!(s, SessionState::Joining);
    assert!(s.step(SessionEvent::Joined(7)).is_empty());
    assert_eq!(s, SessionState::Dispatcher(7));
    let t = ticket("AB", 66, 0, 10);
    let actions = s.step(SessionEvent::TicketIssued(t.clone()));
    assert_eq!(sends(&actions), vec![&MessageType::Ticket(t)]);
    let actions = s.step(SessionEvent::Received(MessageType::IAmCamera(Camera {
        road: 1,
        mile: 1,
        limit: 1,
    })));
    assert_eq!(
        sends(&actions),
        vec![&MessageType::Error(String::from("Invalid message for Dispatcher"))]
    );
    assert!(s.step(SessionEvent::ReadFailed).is_empty());
    let actions = s.step(SessionEvent::Disconnected);
    assert!(matches!(
        actions.as_slice(),
        [SessionAction::LeaveDispatchers(7), SessionAction::StopHeartbeat]
    ));
}

#[test]
fn unknown_client_disconnect_only_stops_heartbeat() {
    let mut s = SessionState::new();
    let actions = s.step(SessionEvent::Disconnected);
    assert!(matches!(actions.as_slice(), [SessionAction::StopHeartbeat]));
    assert_eq!(s, SessionState::Closed);
}

#[test]
fn ticket_lists_earlier_observation_first() {
    let later_first = ticket_between_exec(
        String::from("X"),
        5,
        Observation { road: 5, mile: 10, timestamp: 100 },
        20,
        50,
        1234,
    );
    assert_eq!((later_first.mile1, later_first.timestamp1), (20, 50));
    assert_eq!((later_first.mile2, later_first.timestamp2), (10, 100));
    let in_order = ticket_between_exec(
        String::from("X"),
        5,
        Observation { road: 5, mile: 10, timestamp: 50 },
        20,
        100,
        1234,
    );
    assert_eq!((in_order.mile1, in_order.timestamp1), (10, 50));
    assert_eq!((in_order.mile2, in_order.timestamp2), (20, 100));
}

#[test]
fn speed_records_compare_same_car_same_road() {
    let mut r = SpeedRecords::new();
    r.add_camera(123, 60);
    assert_eq!(r.speed_limit(123), Some(60));
    assert_eq!(r.speed_limit(7), None);
    let plate = String::from("UN1X");
    assert!(r.earlier_sightings(&plate, 123).is_empty());
    assert!(r.record_plate(plate.clone(), 123, 8, 0, &vec![]).is_empty());
    r.record_plate(String::from("OTHER"), 123, 9, 10, &vec![]);
    r.record_plate(plate.clone(), 7, 9, 10, &vec![]);
    let earlier = r.earlier_sightings(&plate, 123);
    assert_eq!(earlier, vec![Observation { road: 123, mile: 8, timestamp: 0 }]);
    let tickets = r.record_plate(plate.clone(), 123, 9, 45, &vec![Some(8000)]);
    assert_eq!(
        tickets,
        vec![Ticket {
            plate: plate.clone(),
            road: 123,
            mile1: 8,
            timestamp1: 0,
            mile2: 9,
            timestamp2: 45,
            speed: 8000,
        }]
    );
    assert_eq!(r.earlier_sightings(&plate, 123).len(), 2);
    let none = r.record_plate(plate.clone(), 123, 10, 5000, &vec![None, None]);
    assert!(none.is_empty());
}

#[test]
fn ticket_goes_to_dispatcher_for_its_road() {
    let mut m = TicketManager::new();
    let (id0, waiting) = m.join(vec![1, 2]);
    assert_eq!(id0, 0);
    assert!(waiting.is_empty());
    let (id1, _) = m.join(vec![2, 3]);
    assert_eq!(id1, 1);
    let d = m.submit(ticket("AB", 2, 10, 20));
    assert_eq!(d.len(), 1);
    assert_eq!(d[0].dispatcher, Some(0));
    assert_eq!(d[0].ticket, ticket("AB", 2, 10, 20));
    let d = m.submit(ticket("CD", 3, 10, 20));
    assert_eq!(d.len(), 1);
    assert_eq!(d[0].dispatcher, Some(1));
}

#[test]
fn one_ticket_per_car_per_day() {
    let mut m = TicketManager::new();
    m.join(vec![2]);
    assert_eq!(m.submit(ticket("AB", 2, 10, 20)).len(), 1);
    // same day again, even on another road
    assert!(m.submit(ticket("AB", 2, 100, 200)).is_empty());
    assert!(m.submit(ticket("AB", 9, 100, 200)).is_empty());
    // another car the same day
    assert_eq!(m.submit(ticket("CD", 2, 10, 20)).len(), 1);
    // next day
    assert_eq!(m.submit(ticket("AB", 2, 86400, 86401)).len(), 1);
}

#[test]
fn ticket_spanning_two_new_days_is_sent_for_each() {
    let mut m = TicketManager::new();
    m.join(vec![2]);
    let d = m.submit(ticket("AB", 2, 86399, 86401));
    assert_eq!(d.len(), 2);
    // both days are now ticketed
    assert!(m.submit(ticket("AB", 2, 86400, 86400)).is_empty());
    assert!(m.submit(ticket("AB", 2, 0, 0)).is_empty());
}

#[test]
fn resubmitted_ticket_is_silent() {
    let mut m = TicketManager::new();
    m.join(vec![2]);
    let t = ticket("AB", 2, 0, 3 * 86400);
    assert_eq!(m.submit(t.clone()).len(), 4);
    assert!(m.submit(t).is_empty());
}

#[test]
fn queued_ticket_reaches_next_dispatcher_for_its_road() {
    let mut m = TicketManager::new();
    let d = m.submit(ticket("AB", 5, 10, 20));
    assert_eq!(d.len(), 1);
    assert_eq!(d[0].dispatcher, None);
    let d = m.submit(ticket("CD", 6, 10, 20));
    assert_eq!(d.len(), 1);
    assert_eq!(d[0].dispatcher, None);
    assert!(m.submit(ticket("CD", 6, 11, 21)).is_empty());
    let (_, got) = m.join(vec![7]);
    assert!(got.is_empty());
    let (_, got) = m.join(vec![6, 5, 6]);
    assert_eq!(got, vec![ticket("CD", 6, 10, 20), ticket("AB", 5, 10, 20)]);
    let (_, got) = m.join(vec![5]);
    assert!(got.is_empty());
}

#[test]
fn departed_dispatcher_gets_nothing() {
    let mut m = TicketManager::new();
    let (id, _) = m.join(vec![2]);
    m.leave(id);
    let d = m.submit(ticket("AB", 2, 10, 20));
    assert_eq!(d.len(), 1);
    assert_eq!(d[0].dispatcher, None);
    let (id2, got) = m.join(vec![2]);
    assert_eq!(id2, 1);
    assert_eq!(got, vec![ticket("AB", 2, 10, 20)]);
    m.leave(42);
}

#[test]
fn ticket_with_times_out_of_order_covers_no_day() {
    let mut m = TicketManager::new();
    m.join(vec![2]);
    assert!(m.submit(ticket("AB", 2, 86400 * 2, 10)).is_empty());
}


fn answer(d: &mut Dialog, line: &str) -> Vec<DialogOutput> {
    assert!(d.accepts(line));
    d.step(line)
}

#[test]
fn dialog_camera_sends_iamcamera() {
    let (mut d, out) = Dialog::start();
    assert!(matches!(out.as_slice(), [DialogOutput::ShowMenu]));
    assert!(matches!(answer(&mut d, "1\n").as_slice(), [DialogOutput::Ask(Prompt::Road)]));
    assert!(matches!(answer(&mut d, " 123\n").as_slice(), [DialogOutput::Ask(Prompt::Mile)]));
    assert!(matches!(answer(&mut d, "+8\n").as_slice(), [DialogOutput::Ask(Prompt::Limit)]));
    match answer(&mut d, "60\n").as_slice() {
        [DialogOutput::Send(m), DialogOutput::ShowMenu] => assert_eq!(
            m,
            &MessageType::IAmCamera(Camera { road: 123, mile: 8, limit: 60 })
        ),
        _ => panic!("unexpected outputs"),
    }
    assert!(matches!(d, Dialog::Menu));
}

#[test]
fn dialog_dispatcher_asks_each_road() {
    let (mut d, _) = Dialog::start();
    answer(&mut d, "2\n");
    assert!(matches!(answer(&mut d, "2\n").as_slice(), [DialogOutput::Ask(Prompt::RoadNumber(1))]));
    assert!(matches!(answer(&mut d, "66\n").as_slice(), [DialogOutput::Ask(Prompt::RoadNumber(2))]));
    match answer(&mut d, "368\n").as_slice() {
        [DialogOutput::Send(m), DialogOutput::ShowMenu] => {
            assert_eq!(m, &MessageType::IAmDispatcher(vec![66, 368]))
        }
        _ => panic!("unexpected outputs"),
    }
}

#[test]
fn dialog_dispatcher_with_no_roads() {
    let (mut d, _) = Dialog::start();
    answer(&mut d, "2\n");
    match answer(&mut d, "0\n").as_slice() {
        [DialogOutput::Send(m), DialogOutput::ShowMenu] => {
            assert_eq!(m, &MessageType::IAmDispatcher(vec![]))
        }
        _ => panic!("unexpected outputs"),
    }
}

#[test]
fn dialog_plate_and_heartbeat() {
    let (mut d, _) = Dialog::start();
    answer(&mut d, "3\n");
    assert!(matches!(answer(&mut d, "  UN1X \n").as_slice(), [DialogOutput::Ask(Prompt::Time)]));
    match answer(&mut d, "4294967295\n").as_slice() {
        [DialogOutput::Send(m), DialogOutput::ShowMenu] => assert_eq!(
            m,
            &MessageType::Plate(String::from("UN1X"), 4294967295)
        ),
        _ => panic!("unexpected outputs"),
    }
    answer(&mut d, "4\n");
    match answer(&mut d, "10\n").as_slice() {
        [DialogOutput::Send(m), DialogOutput::ShowMenu] => {
            assert_eq!(m, &MessageType::WantHeartbeat(10))
        }
        _ => panic!("unexpected outputs"),
    }
}

#[test]
fn dialog_rejects_bad_numbers_and_unknown_options() {
    let (mut d, _) = Dialog::start();
    match answer(&mut d, "7\n").as_slice() {
        [DialogOutput::UnknownOption(v), DialogOutput::ShowMenu] => assert_eq!(v, "7"),
        _ => panic!("unexpected outputs"),
    }
    answer(&mut d, "1\n");
    assert!(!d.accepts("road\n"));
    assert!(!d.accepts("65536\n"));
    assert!(!d.accepts("-1\n"));
    assert!(!d.accepts("+\n"));
    assert!(!d.accepts("\n"));
    assert!(d.accepts("65535\n"));
    let (mut q, _) = Dialog::start();
    assert!(matches!(answer(&mut q, "5\n").as_slice(), [DialogOutput::Quit]));
    assert!(!q.accepts("1\n"));
}

#[test]
fn server_notices() {
    assert!(matches!(server_notice(MessageType::HeartBeat), ServerNotice::Heartbeat));
    assert!(matches!(
        server_notice(MessageType::Error(String::from("x"))),
        ServerNotice::Error(e) if e == "x"
    ));
    assert!(matches!(
        server_notice(MessageType::WantHeartbeat(1)),
        ServerNotice::Unexpected
    ));
    assert!(matches!(
        server_notice(MessageType::Ticket(ticket("AB", 1, 2, 3))),
        ServerNotice::Ticket(_)
    ));
}

#[test]
fn dispatcher_heartbeat_request_scenario() {
    // IAmDispatcher for road 66, then a heartbeat request for every second
    let mut input = BytesMut::from(&[0x81u8, 0x01, 0x00, 0x42, 0x40, 0x00, 0x00, 0x00, 0x0a][..]);
    let mut decoder = MessageDecoder {};
    let mut session = SessionState::new();
    let first = decoder.decode(&mut input).unwrap().unwrap();
    let actions = session.step(SessionEvent::Received(first));
    assert!(matches!(actions.as_slice(), [SessionAction::JoinDispatchers(r)] if r == &vec![66]));
    session.step(SessionEvent::Joined(0));
    let second = decoder.decode(&mut input).unwrap().unwrap();
    let actions = session.step(SessionEvent::Received(second));
    assert!(matches!(actions.as_slice(), [SessionAction::StartHeartbeat(1_000_000_000)]));
    let mut out = BytesMut::new();
    let mut encoder = MessageEncoder {};
    for action in session.step(SessionEvent::HeartbeatDue) {
        if let SessionAction::Send(m) = action {
            encoder.encode(m, &mut out).unwrap();
        }
    }
    assert_eq!(&out[..], &[0x41]);
}

#[test]
fn ids_count_up_across_other_commands() {
    let mut m = TicketManager::new();
    assert_eq!(m.join(vec![1]).0, 0);
    m.submit(ticket("AB", 1, 10, 20));
    m.leave(0);
    assert_eq!(m.join(vec![1]).0, 1);
    m.leave(7);
    m.submit(ticket("CD", 4, 10, 20));
    assert_eq!(m.join(vec![4]).0, 2);
    assert_eq!(m.next_id(), 3);
}

#[test]
fn join_hands_over_a_queue_in_order_and_empties_it() {
    let mut m = TicketManager::new();
    m.submit(ticket("AA", 3, 10, 20));
    m.submit(ticket("BB", 3, 30, 40));
    m.submit(ticket("CC", 3, 50, 60));
    let (_, got) = m.join(vec![3]);
    assert_eq!(
        got,
        vec![ticket("AA", 3, 10, 20), ticket("BB", 3, 30, 40), ticket("CC", 3, 50, 60)]
    );
    let (_, again) = m.join(vec![3]);
    assert!(again.is_empty());
}

#[test]
fn departed_dispatcher_loses_its_road_to_another() {
    let mut m = TicketManager::new();
    let (first, _) = m.join(vec![2]);
    let (second, _) = m.join(vec![2]);
    m.leave(first);
    let d = m.submit(ticket("AB", 2, 10, 20));
    assert_eq!(d.len(), 1);
    assert_eq!(d[0].dispatcher, Some(second));
    let (third, _) = m.join(vec![2]);
    let d = m.submit(ticket("CD", 2, 10, 20));
    assert_eq!(d[0].dispatcher, Some(second));
    assert_ne!(d[0].dispatcher, Some(first));
    assert_eq!(third, 2);
}
