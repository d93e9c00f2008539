use robomodules::client::{ClientCommand, ClientMsg, CommandOutcome, Worker};
use robomodules::message::{write_message, Msg, MsgType};
use robomodules::registry::Subscriptions;

fn subscribe_frame_bytes(direction: u8, type_id: u8) -> Vec<u8> {
    write_message(Msg::Subscribe(vec![8, direction, 16, type_id]))
}

#[test]
fn subscribe_command_sends_directive() {
    let mut w = Worker::new();
    let (frames, closed) = w.process_commands(&vec![ClientCommand::Subscribe(
        MsgType::LightState,
    )]);
    assert!(!closed);
    assert_eq!(frames, vec![subscribe_frame_bytes(0, 0)]);
    assert!(w.is_subscribed(MsgType::LightState));
}

#[test]
fn unsubscribe_command_sends_directive_symmetrically() {
    let mut w = Worker::new();
    let (frames, closed) = w.process_commands(&vec![
        ClientCommand::Subscribe(MsgType::FullState),
        ClientCommand::Unsubscribe(MsgType::FullState),
    ]);
    assert!(!closed);
    assert_eq!(
        frames,
        vec![subscribe_frame_bytes(0, 2), subscribe_frame_bytes(1, 2)]
    );
    assert!(!w.is_subscribed(MsgType::FullState));
}

#[test]
fn subscribe_twice_sends_one_directive() {
    let mut w = Worker::new();
    let (frames, closed) = w.process_commands(&vec![
        ClientCommand::Subscribe(MsgType::PacmanLocation),
        ClientCommand::Subscribe(MsgType::PacmanLocation),
    ]);
    assert!(!closed);
    assert_eq!(frames.len(), 1);
    assert!(w.is_subscribed(MsgType::PacmanLocation));
}

#[test]
fn unsubscribe_without_subscription_sends_nothing() {
    let mut w = Worker::new();
    let (frames, closed) = w.process_commands(&vec![ClientCommand::Unsubscribe(
        MsgType::LightState,
    )]);
    assert!(!closed);
    assert_eq!(frames, Vec::<Vec<u8>>::new());
}

#[test]
fn activate_reports_change_once() {
    let mut subs = Subscriptions::new();
    assert!(subs.activate(MsgType::LightState));
    assert!(!subs.activate(MsgType::LightState));
    assert!(subs.is_active(MsgType::LightState));
    assert!(subs.deactivate(MsgType::LightState));
    assert!(!subs.deactivate(MsgType::LightState));
    assert!(!subs.is_active(MsgType::LightState));
}

#[test]
fn control_plane_type_never_activates() {
    let mut subs = Subscriptions::new();
    assert!(!subs.activate(MsgType::Subscribe));
    assert!(!subs.is_active(MsgType::Subscribe));
    assert!(!subs.deactivate(MsgType::Subscribe));
}

#[test]
fn gated_frames_are_delivered_only_while_active() {
    let mut w = Worker::new();
    let frame = write_message(Msg::LightState(vec![11, 22]));
    w.process_commands(&vec![ClientCommand::Subscribe(MsgType::LightState)]);
    let msgs = w.data_received(&frame);
    assert_eq!(msgs, vec![ClientMsg::LightState(vec![11, 22])]);
    w.process_commands(&vec![ClientCommand::Unsubscribe(MsgType::LightState)]);
    let msgs = w.data_received(&frame);
    assert_eq!(msgs, Vec::new());
    // Framing stayed synchronised: the next frame of an active type decodes.
    w.process_commands(&vec![ClientCommand::Subscribe(MsgType::LightState)]);
    let msgs = w.data_received(&frame);
    assert_eq!(msgs, vec![ClientMsg::LightState(vec![11, 22])]);
}

#[test]
fn unsubscribed_frame_bytes_are_still_consumed() {
    // Subscribe to LightState only; the peer sends a FullState frame and
    // then a LightState frame.  Only the LightState message comes out, and
    // the skipped FullState payload does not break the following frame.
    let mut w = Worker::new();
    w.process_commands(&vec![ClientCommand::Subscribe(MsgType::LightState)]);
    let mut stream = Vec::new();
    stream.extend_from_slice(&write_message(Msg::FullState(vec![1, 2, 3, 4, 5, 6])));
    stream.extend_from_slice(&write_message(Msg::LightState(vec![7])));
    let msgs = w.data_received(&stream);
    assert_eq!(msgs, vec![ClientMsg::LightState(vec![7])]);
}

#[test]
fn delivery_keeps_wire_order_across_partial_reads() {
    let mut w = Worker::new();
    w.process_commands(&vec![
        ClientCommand::Subscribe(MsgType::LightState),
        ClientCommand::Subscribe(MsgType::FullState),
    ]);
    let mut stream = Vec::new();
    stream.extend_from_slice(&write_message(Msg::FullState(vec![1])));
    stream.extend_from_slice(&write_message(Msg::LightState(vec![2])));
    let mut msgs = Vec::new();
    for b in &stream {
        msgs.extend(w.data_received(&[*b]));
    }
    assert_eq!(
        msgs,
        vec![
            ClientMsg::FullState(vec![1]),
            ClientMsg::LightState(vec![2]),
        ]
    );
}

#[test]
fn inbound_subscribe_directive_is_ignored() {
    let mut w = Worker::new();
    w.process_commands(&vec![ClientCommand::Subscribe(MsgType::LightState)]);
    let mut stream = Vec::new();
    stream.extend_from_slice(&write_message(Msg::Subscribe(vec![8, 0, 16, 0])));
    stream.extend_from_slice(&write_message(Msg::LightState(vec![9])));
    let msgs = w.data_received(&stream);
    assert_eq!(msgs, vec![ClientMsg::LightState(vec![9])]);
}

#[test]
fn close_terminates_after_inflight_subscribe() {
    // A Close queued behind a Subscribe still stops the batch within the
    // same drain, after the subscribe directive went out.
    let mut w = Worker::new();
    let (frames, closed) = w.process_commands(&vec![
        ClientCommand::Subscribe(MsgType::LightState),
        ClientCommand::Close,
    ]);
    assert!(closed);
    assert_eq!(frames, vec![subscribe_frame_bytes(0, 0)]);
    assert!(w.is_subscribed(MsgType::LightState));
}

#[test]
fn commands_after_close_are_not_applied() {
    let mut w = Worker::new();
    let (frames, closed) = w.process_commands(&vec![
        ClientCommand::Close,
        ClientCommand::Subscribe(MsgType::FullState),
    ]);
    assert!(closed);
    assert_eq!(frames, Vec::<Vec<u8>>::new());
    assert!(!w.is_subscribed(MsgType::FullState));
}

#[test]
fn handle_command_outcomes() {
    let mut w = Worker::new();
    let r = w.handle_command(ClientCommand::Subscribe(MsgType::FullState));
    assert_eq!(r, CommandOutcome::Send(subscribe_frame_bytes(0, 2)));
    let r = w.handle_command(ClientCommand::Subscribe(MsgType::FullState));
    assert_eq!(r, CommandOutcome::Nothing);
    let r = w.handle_command(ClientCommand::Close);
    assert_eq!(r, CommandOutcome::Terminate);
}

#[test]
fn worker_recovers_after_desync() {
    // Garbage between frames costs whatever shared the buffer with it, but
    // the connection keeps working: the next clean read decodes normally.
    let mut w = Worker::new();
    w.process_commands(&vec![ClientCommand::Subscribe(MsgType::LightState)]);
    let mut stream = Vec::new();
    stream.extend_from_slice(&write_message(Msg::LightState(vec![1])));
    stream.extend_from_slice(&[0xBA, 0xD1]);
    stream.extend_from_slice(&write_message(Msg::LightState(vec![2])));
    let msgs = w.data_received(&stream);
    assert_eq!(msgs, vec![ClientMsg::LightState(vec![1])]);
    let msgs = w.data_received(&write_message(Msg::LightState(vec![3])));
    assert_eq!(msgs, vec![ClientMsg::LightState(vec![3])]);
}

#[test]
fn empty_read_delivers_nothing() {
    let mut w = Worker::new();
    w.process_commands(&vec![ClientCommand::Subscribe(MsgType::LightState)]);
    assert_eq!(w.data_received(&[]), Vec::new());
}

#[test]
fn message_payload_accessor() {
    let m = ClientMsg::PacmanLocation(vec![1, 2]);
    assert_eq!(m.payload(), &vec![1, 2]);
}
