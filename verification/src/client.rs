//! The interactive client's decisions: the menu dialog that turns a user's
//! answers into messages, and what it tells the user about each message
//! from the server.
use crate::input::{parse_u16, parse_u32, trim, trimmed, unsigned_value};
use crate::messages::{MessageType, MessageView};
use crate::network::{Camera, Ticket, TicketView};
use vstd::prelude::*;

verus! {

/// The questions that the client asks.
#[derive(Debug, PartialEq, Eq, Clone, Copy)]
pub enum Prompt {
    Road,
    Mile,
    Limit,
    RoadCount,
    /// The road with this (1-based) number in the dispatcher's list.
    RoadNumber(u16),
    Plate,
    Time,
    Interval,
}

/// Where the dialog stands: at the menu, or waiting for an answer.
pub enum Dialog {
    Menu,
    CameraRoad,
    CameraMile(u16),
    CameraLimit(u16, u16),
    RoadCount,
    /// The number of roads to ask for, and the roads given so far.
    Roads(u16, Vec<u16>),
    PlateText,
    PlateTime(String),
    Interval,
    /// The user chose to quit.
    Quit,
}

/// What the client does after an answer.
pub enum DialogOutput {
    ShowMenu,
    Ask(Prompt),
    Send(MessageType),
    /// Tell the user that this menu choice does not exist.
    UnknownOption(String),
    Quit,
}

pub enum DialogView {
    Menu,
    CameraRoad,
    CameraMile(u16),
    CameraLimit(u16, u16),
    RoadCount,
    Roads(u16, Seq<u16>),
    PlateText,
    PlateTime(Seq<char>),
    Interval,
    Quit,
}

pub enum DialogOutputView {
    ShowMenu,
    Ask(Prompt),
    Send(MessageView),
    UnknownOption(Seq<char>),
    Quit,
}

impl View for Dialog {
    type V = DialogView;

    open spec fn view(&self) -> DialogView {
        match self {
            Dialog::Menu => DialogView::Menu,
            Dialog::CameraRoad => DialogView::CameraRoad,
            Dialog::CameraMile(r) => DialogView::CameraMile(*r),
            Dialog::CameraLimit(r, m) => DialogView::CameraLimit(*r, *m),
            Dialog::RoadCount => DialogView::RoadCount,
            Dialog::Roads(n, rs) => DialogView::Roads(*n, rs@),
            Dialog::PlateText => DialogView::PlateText,
            Dialog::PlateTime(p) => DialogView::PlateTime(p@),
            Dialog::Interval => DialogView::Interval,
            Dialog::Quit => DialogView::Quit,
        }
    }
}

impl View for DialogOutput {
    type V = DialogOutputView;

    open spec fn view(&self) -> DialogOutputView {
        match self {
            DialogOutput::ShowMenu => DialogOutputView::ShowMenu,
            DialogOutput::Ask(p) => DialogOutputView::Ask(*p),
            DialogOutput::Send(m) => DialogOutputView::Send(m@),
            DialogOutput::UnknownOption(s) => DialogOutputView::UnknownOption(s@),
            DialogOutput::Quit => DialogOutputView::Quit,
        }
    }
}

pub open spec fn outputs_view(o: Seq<DialogOutput>) -> Seq<DialogOutputView> {
    o.map_values(|x: DialogOutput| x@)
}

/// The number in an answer, when the answer (trimmed) is one that fits.
pub open spec fn answer_u16(line: Seq<char>) -> Option<int> {
    unsigned_value(trimmed(line), u16::MAX as int)
}

pub open spec fn answer_u32(line: Seq<char>) -> Option<int> {
    unsigned_value(trimmed(line), u32::MAX as int)
}

/// The answers the dialog takes in each state: a number where it asks for
/// one, anything elsewhere; nothing once the user has quit.
pub open spec fn answer_accepted(d: DialogView, line: Seq<char>) -> bool {
    match d {
        DialogView::Quit => false,
        DialogView::CameraRoad | DialogView::CameraMile(_) | DialogView::CameraLimit(_, _)
        | DialogView::RoadCount | DialogView::Roads(_, _) => answer_u16(line) is Some,
        DialogView::PlateTime(_) | DialogView::Interval => answer_u32(line) is Some,
        _ => true,
    }
}

/// Back at the menu after sending `m`.
pub open spec fn send_and_menu(m: MessageView) -> (DialogView, Seq<DialogOutputView>) {
    (DialogView::Menu, seq![DialogOutputView::Send(m), DialogOutputView::ShowMenu])
}

/// The dialog's next state and what the client does, for an answer `line`.
pub open spec fn spec_dialog_step(d: DialogView, line: Seq<char>) -> (
    DialogView,
    Seq<DialogOutputView>,
) {
    let t = trimmed(line);
    match d {
        DialogView::Menu => if t == "1"@ {
            (DialogView::CameraRoad, seq![DialogOutputView::Ask(Prompt::Road)])
        } else if t == "2"@ {
            (DialogView::RoadCount, seq![DialogOutputView::Ask(Prompt::RoadCount)])
        } else if t == "3"@ {
            (DialogView::PlateText, seq![DialogOutputView::Ask(Prompt::Plate)])
        } else if t == "4"@ {
            (DialogView::Interval, seq![DialogOutputView::Ask(Prompt::Interval)])
        } else if t == "5"@ {
            (DialogView::Quit, seq![DialogOutputView::Quit])
        } else {
            (DialogView::Menu, seq![DialogOutputView::UnknownOption(t), DialogOutputView::ShowMenu])
        },
        DialogView::CameraRoad => (
            DialogView::CameraMile(answer_u16(line)->0 as u16),
            seq![DialogOutputView::Ask(Prompt::Mile)],
        ),
        DialogView::CameraMile(road) => (
            DialogView::CameraLimit(road, answer_u16(line)->0 as u16),
            seq![DialogOutputView::Ask(Prompt::Limit)],
        ),
        DialogView::CameraLimit(road, mile) => send_and_menu(
            MessageView::IAmCamera(Camera { road, mile, limit: answer_u16(line)->0 as u16 }),
        ),
        DialogView::RoadCount => {
            let count = answer_u16(line)->0 as u16;
            if count == 0 {
                send_and_menu(MessageView::IAmDispatcher(seq![]))
            } else {
                (DialogView::Roads(count, seq![]), seq![DialogOutputView::Ask(Prompt::RoadNumber(1))])
            }
        },
        DialogView::Roads(count, roads) => {
            let rs = roads.push(answer_u16(line)->0 as u16);
            if rs.len() >= count {
                send_and_menu(MessageView::IAmDispatcher(rs))
            } else {
                (
                    DialogView::Roads(count, rs),
                    seq![DialogOutputView::Ask(Prompt::RoadNumber((rs.len() + 1) as u16))],
                )
            }
        },
        DialogView::PlateText => (
            DialogView::PlateTime(t),
            seq![DialogOutputView::Ask(Prompt::Time)],
        ),
        DialogView::PlateTime(plate) => send_and_menu(
            MessageView::Plate(plate, answer_u32(line)->0 as u32),
        ),
        DialogView::Interval => send_and_menu(
            MessageView::WantHeartbeat(answer_u32(line)->0 as u32),
        ),
        DialogView::Quit => (DialogView::Quit, seq![]),
    }
}

/// Whether `s` is the one-character text `c`.
fn is_choice(s: &str, c: char) -> (r: bool)
    ensures
        r == (s@ == seq![c]),
{
    if s.unicode_len() != 1 {
        return false;
    }
    let first = s.get_char(0);
    proof {
        if first == c {
            assert(s@ =~= seq![c]);
        }
    }
    first == c
}

impl Dialog {
    /// The dialog begins at the menu, which is shown first.
    pub fn start() -> (r: (Dialog, Vec<DialogOutput>))
        ensures
            r.0@ == DialogView::Menu,
            outputs_view(r.1@) == seq![DialogOutputView::ShowMenu],
    {
        let mut out: Vec<DialogOutput> = Vec::new();
        out.push(DialogOutput::ShowMenu);
        proof {
            assert(outputs_view(out@) =~= seq![DialogOutputView::ShowMenu]);
        }
        (Dialog::Menu, out)
    }

    /// Whether the dialog takes `line` as its next answer (a number where
    /// it asks for one; nothing once the user has quit).
    pub fn accepts(&self, line: &str) -> (r: bool)
        ensures
            r == answer_accepted(self@, line@),
    {
        match self {
            Dialog::Quit => false,
            Dialog::CameraRoad | Dialog::CameraMile(_) | Dialog::CameraLimit(_, _)
            | Dialog::RoadCount | Dialog::Roads(_, _) => parse_u16(trim(line)).is_some(),
            Dialog::PlateTime(_) | Dialog::Interval => parse_u32(trim(line)).is_some(),
            _ => true,
        }
    }

    /// Takes the user's answer `line` and says what to do next.
    pub fn step(&mut self, line: &str) -> (out: Vec<DialogOutput>)
        requires
            answer_accepted(old(self)@, line@),
        ensures
            final(self)@ == spec_dialog_step(old(self)@, line@).0,
            outputs_view(out@) == spec_dialog_step(old(self)@, line@).1,
    {
        let t = trim(line);
        let mut out: Vec<DialogOutput> = Vec::new();
        let mut state = Dialog::Menu;
        std::mem::swap(&mut state, self);
        let ghost before = state@;
        match state {
            Dialog::Menu => {
                proof {
                    reveal_strlit("1");
                    reveal_strlit("2");
                    reveal_strlit("3");
                    reveal_strlit("4");
                    reveal_strlit("5");
                    assert("1"@ =~= seq!['1']);
                    assert("2"@ =~= seq!['2']);
                    assert("3"@ =~= seq!['3']);
                    assert("4"@ =~= seq!['4']);
                    assert("5"@ =~= seq!['5']);
                }
                if is_choice(t, '1') {
                    *self = Dialog::CameraRoad;
                    out.push(DialogOutput::Ask(Prompt::Road));
                } else if is_choice(t, '2') {
                    *self = Dialog::RoadCount;
                    out.push(DialogOutput::Ask(Prompt::RoadCount));
                } else if is_choice(t, '3') {
                    *self = Dialog::PlateText;
                    out.push(DialogOutput::Ask(Prompt::Plate));
                } else if is_choice(t, '4') {
                    *self = Dialog::Interval;
                    out.push(DialogOutput::Ask(Prompt::Interval));
                } else if is_choice(t, '5') {
                    *self = Dialog::Quit;
                    out.push(DialogOutput::Quit);
                } else {
                    out.push(DialogOutput::UnknownOption(t.to_owned()));
                    out.push(DialogOutput::ShowMenu);
                }
            },
            Dialog::CameraRoad => {
                let road = parse_u16(t).unwrap();
                *self = Dialog::CameraMile(road);
                out.push(DialogOutput::Ask(Prompt::Mile));
            },
            Dialog::CameraMile(road) => {
                let mile = parse_u16(t).unwrap();
                *self = Dialog::CameraLimit(road, mile);
                out.push(DialogOutput::Ask(Prompt::Limit));
            },
            Dialog::CameraLimit(road, mile) => {
                let limit = parse_u16(t).unwrap();
                out.push(DialogOutput::Send(MessageType::IAmCamera(Camera { road, mile, limit })));
                out.push(DialogOutput::ShowMenu);
            },
            Dialog::RoadCount => {
                let count = parse_u16(t).unwrap();
                if count == 0 {
                    out.push(DialogOutput::Send(MessageType::IAmDispatcher(Vec::new())));
                    out.push(DialogOutput::ShowMenu);
                } else {
                    *self = Dialog::Roads(count, Vec::new());
                    out.push(DialogOutput::Ask(Prompt::RoadNumber(1)));
                }
            },
            Dialog::Roads(count, mut roads) => {
                let road = parse_u16(t).unwrap();
                roads.push(road);
                if roads.len() >= count as usize {
                    out.push(DialogOutput::Send(MessageType::IAmDispatcher(roads)));
                    out.push(DialogOutput::ShowMenu);
                } else {
                    let next = roads.len() as u16 + 1;
                    *self = Dialog::Roads(count, roads);
                    out.push(DialogOutput::Ask(Prompt::RoadNumber(next)));
                }
            },
            Dialog::PlateText => {
                *self = Dialog::PlateTime(t.to_owned());
                out.push(DialogOutput::Ask(Prompt::Time));
            },
            Dialog::PlateTime(plate) => {
                let timestamp = parse_u32(t).unwrap();
                out.push(DialogOutput::Send(MessageType::Plate(plate, timestamp)));
                out.push(DialogOutput::ShowMenu);
            },
            Dialog::Interval => {
                let interval = parse_u32(t).unwrap();
                out.push(DialogOutput::Send(MessageType::WantHeartbeat(interval)));
                out.push(DialogOutput::ShowMenu);
            },
            Dialog::Quit => {
                *self = Dialog::Quit;
            },
        }
        proof {
            assert(outputs_view(out@) =~= spec_dialog_step(before, line@).1);
        }
        out
    }
}

/// After every message the dialog sends, it is back at the menu and shows
/// it; a dispatcher's road list, once sent, holds as many roads as the user
/// said it would.
pub proof fn law_send_returns_to_menu(d: DialogView, line: Seq<char>)
    requires
        answer_accepted(d, line),
        d matches DialogView::Roads(count, rs) ==> rs.len() < count,
    ensures
        ({
            let (next, out) = spec_dialog_step(d, line);
            (exists|i: int| 0 <= i < out.len() && #[trigger] out[i] is Send) ==> {
                &&& next == DialogView::Menu
                &&& out.last() == DialogOutputView::ShowMenu
            }
        }),
        ({
            let (next, out) = spec_dialog_step(d, line);
            d matches DialogView::Roads(count, rs) ==> (out[0] matches DialogOutputView::Send(
                MessageView::IAmDispatcher(sent),
            ) ==> sent.len() == count)
        }),
{
}

/// What the client tells the user about a message from the server.
pub enum ServerNotice {
    /// "Received error: ..."
    Error(String),
    /// "Received ticket: ..."
    Ticket(Ticket),
    /// "Received heartbeat"
    Heartbeat,
    /// A message that a server does not send to clients.
    Unexpected,
}

pub enum ServerNoticeView {
    Error(Seq<char>),
    Ticket(TicketView),
    Heartbeat,
    Unexpected,
}

impl View for ServerNotice {
    type V = ServerNoticeView;

    open spec fn view(&self) -> ServerNoticeView {
        match self {
            ServerNotice::Error(s) => ServerNoticeView::Error(s@),
            ServerNotice::Ticket(t) => ServerNoticeView::Ticket(t@),
            ServerNotice::Heartbeat => ServerNoticeView::Heartbeat,
            ServerNotice::Unexpected => ServerNoticeView::Unexpected,
        }
    }
}

/// Errors, tickets and heartbeats are shown; anything else is unexpected.
pub fn server_notice(msg: MessageType) -> (n: ServerNotice)
    ensures
        n@ == match msg@ {
            MessageView::Error(e) => ServerNoticeView::Error(e),
            MessageView::Ticket(t) => ServerNoticeView::Ticket(t),
            MessageView::HeartBeat => ServerNoticeView::Heartbeat,
            _ => ServerNoticeView::Unexpected,
        },
{
    match msg {
        MessageType::Error(e) => ServerNotice::Error(e),
        MessageType::Ticket(t) => ServerNotice::Ticket(t),
        MessageType::HeartBeat => ServerNotice::Heartbeat,
        _ => ServerNotice::Unexpected,
    }
}


/// The dialog's state after the answers `lines`, one after another, and
/// everything the client did on the way.
pub open spec fn run_answers(d: DialogView, lines: Seq<Seq<char>>) -> (
    DialogView,
    Seq<DialogOutputView>,
)
    decreases lines.len(),
{
    if lines.len() == 0 {
        (d, seq![])
    } else {
        let (d1, o1) = spec_dialog_step(d, lines[0]);
        let (d2, o2) = run_answers(d1, lines.drop_first());
        (d2, o1 + o2)
    }
}

/// The numbers the user entered in `lines`.
pub open spec fn entered_numbers(lines: Seq<Seq<char>>) -> Seq<u16> {
    Seq::new(lines.len(), |i: int| answer_u16(lines[i])->0 as u16)
}

/// The questions for the roads numbered `first`, `first + 1`, ... (`n` of
/// them).
pub open spec fn road_questions(first: int, n: nat) -> Seq<DialogOutputView> {
    Seq::new(n, |i: int| DialogOutputView::Ask(Prompt::RoadNumber((first + i) as u16)))
}

proof fn lemma_roads_answers(count: u16, rs: Seq<u16>, lines: Seq<Seq<char>>)
    requires
        rs.len() < count,
        lines.len() == count - rs.len(),
        forall|i: int| 0 <= i < lines.len() ==> (#[trigger] answer_u16(lines[i])) is Some,
    ensures
        run_answers(DialogView::Roads(count, rs), lines) == (
            DialogView::Menu,
            road_questions(rs.len() as int + 2, (lines.len() - 1) as nat) + seq![
                DialogOutputView::Send(MessageView::IAmDispatcher(rs + entered_numbers(lines))),
                DialogOutputView::ShowMenu,
            ],
        ),
    decreases lines.len(),
{
    let rest = lines.drop_first();
    let rs1 = rs.push(answer_u16(lines[0])->0 as u16);
    assert(rs1 + entered_numbers(rest) =~= rs + entered_numbers(lines));
    if lines.len() == 1 {
        assert(run_answers(DialogView::Menu, rest) == (DialogView::Menu, Seq::<DialogOutputView>::empty()));
        assert(road_questions(rs.len() as int + 2, 0) =~= Seq::<DialogOutputView>::empty());
        assert(entered_numbers(rest) =~= Seq::<u16>::empty());
        assert(rs1 =~= rs1 + entered_numbers(rest));
    } else {
        assert forall|i: int| 0 <= i < rest.len() implies (#[trigger] answer_u16(rest[i])) is Some by {
            assert(rest[i] == lines[i + 1]);
        }
        lemma_roads_answers(count, rs1, rest);
        assert(seq![DialogOutputView::Ask(Prompt::RoadNumber((rs1.len() + 1) as u16))] + road_questions(
            rs1.len() as int + 2,
            (rest.len() - 1) as nat,
        ) =~= road_questions(rs.len() as int + 2, (lines.len() - 1) as nat));
    }
}

/// A dispatcher's dialog asks for as many roads as the user says, numbering
/// the questions from 1, and then sends exactly the roads entered, in
/// order, and returns to the menu; with no roads it sends an empty list at
/// once.
pub proof fn law_dispatcher_dialog_sends_entered_roads(count_line: Seq<char>, road_lines: Seq<Seq<char>>)
    requires
        answer_u16(count_line) is Some,
        road_lines.len() == answer_u16(count_line)->0,
        forall|i: int| 0 <= i < road_lines.len() ==> (#[trigger] answer_u16(road_lines[i])) is Some,
    ensures
        run_answers(DialogView::RoadCount, seq![count_line] + road_lines) == (
            DialogView::Menu,
            road_questions(1, road_lines.len()) + seq![
                DialogOutputView::Send(MessageView::IAmDispatcher(entered_numbers(road_lines))),
                DialogOutputView::ShowMenu,
            ],
        ),
        spec_dialog_step(DialogView::RoadCount, count_line) == (if road_lines.len() == 0 {
            (
                DialogView::Menu,
                seq![
                    DialogOutputView::Send(MessageView::IAmDispatcher(Seq::<u16>::empty())),
                    DialogOutputView::ShowMenu,
                ],
            )
        } else {
            (
                DialogView::Roads(road_lines.len() as u16, Seq::<u16>::empty()),
                seq![DialogOutputView::Ask(Prompt::RoadNumber(1))],
            )
        }),
{
    let lines = seq![count_line] + road_lines;
    assert(lines[0] == count_line);
    assert(lines.drop_first() =~= road_lines);
    let n = road_lines.len();
    if n == 0 {
        assert(run_answers(DialogView::Menu, road_lines) == (DialogView::Menu, Seq::<DialogOutputView>::empty()));
        assert(road_questions(1, 0) =~= Seq::<DialogOutputView>::empty());
        assert(entered_numbers(road_lines) =~= Seq::<u16>::empty());
        assert(seq![
            DialogOutputView::Send(MessageView::IAmDispatcher(Seq::<u16>::empty())),
            DialogOutputView::ShowMenu,
        ] + Seq::<DialogOutputView>::empty() =~= road_questions(1, 0) + seq![
            DialogOutputView::Send(MessageView::IAmDispatcher(entered_numbers(road_lines))),
            DialogOutputView::ShowMenu,
        ]);
    } else {
        lemma_roads_answers(n as u16, Seq::<u16>::empty(), road_lines);
        assert(Seq::<u16>::empty() + entered_numbers(road_lines) =~= entered_numbers(road_lines));
        assert(seq![DialogOutputView::Ask(Prompt::RoadNumber(1))] + road_questions(2, (n - 1) as nat)
            =~= road_questions(1, n));
    }
}

/// A camera's dialog asks for the mile and then the limit after the road,
/// and sends the camera with exactly the three numbers entered.
pub proof fn law_camera_dialog_sends_entered_numbers(road: Seq<char>, mile: Seq<char>, limit: Seq<char>)
    requires
        answer_u16(road) is Some,
        answer_u16(mile) is Some,
        answer_u16(limit) is Some,
    ensures
        run_answers(DialogView::CameraRoad, seq![road, mile, limit]) == (
            DialogView::Menu,
            seq![
                DialogOutputView::Ask(Prompt::Mile),
                DialogOutputView::Ask(Prompt::Limit),
                DialogOutputView::Send(
                    MessageView::IAmCamera(
                        Camera {
                            road: answer_u16(road)->0 as u16,
                            mile: answer_u16(mile)->0 as u16,
                            limit: answer_u16(limit)->0 as u16,
                        },
                    ),
                ),
                DialogOutputView::ShowMenu,
            ],
        ),
{
    let lines = seq![road, mile, limit];
    assert(lines.drop_first() =~= seq![mile, limit]);
    assert(lines.drop_first().drop_first() =~= seq![limit]);
    assert(lines.drop_first().drop_first().drop_first() =~= Seq::<Seq<char>>::empty());
    reveal_with_fuel(run_answers, 4);
    assert(run_answers(DialogView::CameraRoad, lines).1 =~= seq![
        DialogOutputView::Ask(Prompt::Mile),
        DialogOutputView::Ask(Prompt::Limit),
        DialogOutputView::Send(
            MessageView::IAmCamera(
                Camera {
                    road: answer_u16(road)->0 as u16,
                    mile: answer_u16(mile)->0 as u16,
                    limit: answer_u16(limit)->0 as u16,
                },
            ),
        ),
        DialogOutputView::ShowMenu,
    ]);
}

/// A plate report sends the plate as typed (without surrounding white
/// space) with the time entered; a heartbeat request sends the interval
/// entered; both return to the menu.
pub proof fn law_plate_and_heartbeat_dialogs(plate: Seq<char>, time: Seq<char>, interval: Seq<char>)
    requires
        answer_u32(time) is Some,
        answer_u32(interval) is Some,
    ensures
        run_answers(DialogView::PlateText, seq![plate, time]) == (
            DialogView::Menu,
            seq![
                DialogOutputView::Ask(Prompt::Time),
                DialogOutputView::Send(MessageView::Plate(trimmed(plate), answer_u32(time)->0 as u32)),
                DialogOutputView::ShowMenu,
            ],
        ),
        spec_dialog_step(DialogView::Interval, interval) == (
            DialogView::Menu,
            seq![
                DialogOutputView::Send(MessageView::WantHeartbeat(answer_u32(interval)->0 as u32)),
                DialogOutputView::ShowMenu,
            ],
        ),
{
    let lines = seq![plate, time];
    assert(lines.drop_first() =~= seq![time]);
    assert(lines.drop_first().drop_first() =~= Seq::<Seq<char>>::empty());
    reveal_with_fuel(run_answers, 3);
    assert(run_answers(DialogView::PlateText, lines).1 =~= seq![
        DialogOutputView::Ask(Prompt::Time),
        DialogOutputView::Send(MessageView::Plate(trimmed(plate), answer_u32(time)->0 as u32)),
        DialogOutputView::ShowMenu,
    ]);
}


/// The menu: choices 1 to 5 start the camera, dispatcher, plate and
/// heartbeat dialogs or quit, each with its first question; any other
/// answer is reported, as typed without surrounding white space, and the
/// menu is shown again.
pub proof fn law_menu_choices(line: Seq<char>)
    ensures
        ({
            let t = trimmed(line);
            let r = spec_dialog_step(DialogView::Menu, line);
            &&& t == seq!['1'] ==> r == (DialogView::CameraRoad, seq![DialogOutputView::Ask(Prompt::Road)])
            &&& t == seq!['2'] ==> r == (
                DialogView::RoadCount,
                seq![DialogOutputView::Ask(Prompt::RoadCount)],
            )
            &&& t == seq!['3'] ==> r == (DialogView::PlateText, seq![DialogOutputView::Ask(Prompt::Plate)])
            &&& t == seq!['4'] ==> r == (
                DialogView::Interval,
                seq![DialogOutputView::Ask(Prompt::Interval)],
            )
            &&& t == seq!['5'] ==> r == (DialogView::Quit, seq![DialogOutputView::Quit])
            &&& (t != seq!['1'] && t != seq!['2'] && t != seq!['3'] && t != seq!['4'] && t != seq![
                '5',
            ]) ==> r == (
                DialogView::Menu,
                seq![DialogOutputView::UnknownOption(t), DialogOutputView::ShowMenu],
            )
        }),
{
    reveal_strlit("1");
    reveal_strlit("2");
    reveal_strlit("3");
    reveal_strlit("4");
    reveal_strlit("5");
    assert("1"@ =~= seq!['1']);
    assert("2"@ =~= seq!['2']);
    assert("3"@ =~= seq!['3']);
    assert("4"@ =~= seq!['4']);
    assert("5"@ =~= seq!['5']);
}

} // verus!
