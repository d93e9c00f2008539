//! The per-connection worker state machine.
//!
//! A connection is driven by a loop that owns the socket exclusively.  Each
//! turn it drains the queued commands, reads whatever bytes the socket has,
//! and decodes.  Everything the loop decides lives here, on plain values:
//! [`Worker::process_commands`] turns a drained command batch into the
//! directive frames to write and the decision whether to stop, and
//! [`Worker::data_received`] turns received bytes into the accepted
//! messages, in wire order.  The caller performs the actual socket writes
//! and reads and moves messages across its channels.

use vstd::prelude::*;

use crate::codec::{decode_run, wire_one, DecModel, Decoder, FrameView};
use crate::directive::{encode_directive_payload, spec_directive_payload, Direction};
use crate::message::{write_message, Msg, MsgType};
use crate::registry::Subscriptions;
use crate::wire::{pow256, spec_frame};

verus! {

/// An instruction from the handle to the connection worker.
#[derive(Clone, Copy, Debug, PartialEq, Eq, Structural)]
pub enum ClientCommand {
    Close,
    Subscribe(MsgType),
    Unsubscribe(MsgType),
}

/// What one command asks the worker's loop to do next.
#[derive(Clone, Debug, PartialEq, Eq)]
pub enum CommandOutcome {
    /// No state change: nothing to write.
    Nothing,
    /// Write this frame to the peer.
    Send(Vec<u8>),
    /// Stop the loop; the connection closes.
    Terminate,
}

/// A message accepted for delivery: a data-carrying type and its payload
/// bytes, still opaque to this crate.
#[derive(Clone, Debug, PartialEq, Eq)]
pub enum ClientMsg {
    LightState(Vec<u8>),
    PacmanLocation(Vec<u8>),
    FullState(Vec<u8>),
}

impl View for ClientMsg {
    type V = FrameView;

    open spec fn view(&self) -> FrameView {
        match self {
            ClientMsg::LightState(b) => FrameView {
                type_id: MsgType::LightState.id_spec(),
                payload: b@,
            },
            ClientMsg::PacmanLocation(b) => FrameView {
                type_id: MsgType::PacmanLocation.id_spec(),
                payload: b@,
            },
            ClientMsg::FullState(b) => FrameView {
                type_id: MsgType::FullState.id_spec(),
                payload: b@,
            },
        }
    }
}

impl ClientMsg {
    /// Wraps a decoded frame of data-carrying type `t`.
    pub fn from_frame(t: MsgType, payload: Vec<u8>) -> (r: ClientMsg)
        requires
            t.is_data_spec(),
        ensures
            r@ == (FrameView { type_id: t.id_spec(), payload: payload@ }),
    {
        match t {
            MsgType::LightState => ClientMsg::LightState(payload),
            MsgType::PacmanLocation => ClientMsg::PacmanLocation(payload),
            MsgType::FullState => ClientMsg::FullState(payload),
            MsgType::Subscribe => ClientMsg::LightState(payload),  // unreachable: t is data-carrying
        }
    }

    /// The payload bytes, for the external payload codec.
    pub fn payload(&self) -> (r: &Vec<u8>)
        ensures
            r@ == self@.payload,
    {
        match self {
            ClientMsg::LightState(b) => b,
            ClientMsg::PacmanLocation(b) => b,
            ClientMsg::FullState(b) => b,
        }
    }
}

/// The directive frame announcing `dir` for the single type `t`.
pub open spec fn spec_directive_frame(dir: Direction, t: MsgType) -> Seq<u8> {
    spec_frame(MsgType::Subscribe.id_spec(), spec_directive_payload(dir, seq![t.id_spec()]))
}

/// Whether a decoded frame is accepted for delivery: its type identifier
/// names a known data-carrying type that is currently active.  Inbound
/// subscribe directives and unknown identifiers never are.
pub open spec fn accepts(subs: Set<MsgType>, f: FrameView) -> bool {
    match MsgType::spec_from_id(f.type_id) {
        Some(t) => t.is_data_spec() && subs.contains(t),
        None => false,
    }
}

/// The frames of `frames` that are accepted for delivery, in order.
pub open spec fn delivered(subs: Set<MsgType>, frames: Seq<FrameView>) -> Seq<FrameView>
    decreases frames.len(),
{
    if frames.len() == 0 {
        Seq::empty()
    } else {
        let rest = delivered(subs, frames.drop_first());
        if accepts(subs, frames.first()) {
            seq![frames.first()] + rest
        } else {
            rest
        }
    }
}

/// The outcome of draining one batch of commands, in order: the directive
/// frames written, the subscription set afterwards, and whether a `Close`
/// stopped the batch (commands after the first `Close` are not applied).
#[verifier::ext_equal]
pub ghost struct CommandPhase {
    pub sent: Seq<Seq<u8>>,
    pub subs: Set<MsgType>,
    pub closed: bool,
}

/// Applies a command batch to a subscription set: a `Subscribe` or
/// `Unsubscribe` whose activation state actually changes emits one
/// directive frame; redundant ones emit nothing; `Close` stops the batch.
pub open spec fn command_fold(subs: Set<MsgType>, cmds: Seq<ClientCommand>) -> CommandPhase
    decreases cmds.len(),
{
    if cmds.len() == 0 {
        CommandPhase { sent: Seq::empty(), subs, closed: false }
    } else {
        match cmds.first() {
            ClientCommand::Close => CommandPhase { sent: Seq::empty(), subs, closed: true },
            ClientCommand::Subscribe(t) => {
                let went = t.is_data_spec() && !subs.contains(t);
                let subs2 = if t.is_data_spec() {
                    subs.insert(t)
                } else {
                    subs
                };
                let rest = command_fold(subs2, cmds.drop_first());
                let head: Seq<Seq<u8>> = if went {
                    seq![spec_directive_frame(Direction::Subscribe, t)]
                } else {
                    Seq::empty()
                };
                CommandPhase { sent: head + rest.sent, subs: rest.subs, closed: rest.closed }
            },
            ClientCommand::Unsubscribe(t) => {
                let went = t.is_data_spec() && subs.contains(t);
                let subs2 = if t.is_data_spec() {
                    subs.remove(t)
                } else {
                    subs
                };
                let rest = command_fold(subs2, cmds.drop_first());
                let head: Seq<Seq<u8>> = if went {
                    seq![spec_directive_frame(Direction::Unsubscribe, t)]
                } else {
                    Seq::empty()
                };
                CommandPhase { sent: head + rest.sent, subs: rest.subs, closed: rest.closed }
            },
        }
    }
}

/// Per-connection state owned by the connection loop: the subscription set
/// and the frame decoder.
pub struct Worker {
    subs: Subscriptions,
    dec: Decoder,
}

impl Worker {
    /// The currently active data-carrying types.
    pub closed spec fn subs_view(self) -> Set<MsgType> {
        self.subs@
    }

    /// The decoder's state.
    pub closed spec fn dec_model(self) -> DecModel {
        self.dec.model()
    }

    pub closed spec fn wf(self) -> bool {
        self.dec.wf()
    }

    /// A worker with no subscriptions and an empty decode buffer.
    pub fn new() -> (w: Worker)
        ensures
            w.subs_view() == Set::<MsgType>::empty(),
            w.dec_model() == DecModel::empty(),
            w.wf(),
    {
        Worker { subs: Subscriptions::new(), dec: Decoder::new() }
    }

    /// Whether frames of type `t` are currently delivered.
    pub fn is_subscribed(&self, t: MsgType) -> (r: bool)
        ensures
            r == self.subs_view().contains(t),
    {
        self.subs.is_active(t)
    }

    /// Applies one command.
    ///
    /// `Close` asks the loop to stop.  `Subscribe` and `Unsubscribe` update
    /// the registry and, exactly when that changed its state, return the
    /// directive frame to write, so the peer's view follows the local one
    /// while redundant commands cause no wire traffic.
    pub fn handle_command(&mut self, cmd: ClientCommand) -> (r: CommandOutcome)
        requires
            old(self).wf(),
        ensures
            final(self).wf(),
            final(self).dec_model() == old(self).dec_model(),
            match cmd {
                ClientCommand::Close => {
                    &&& final(self).subs_view() == old(self).subs_view()
                    &&& r is Terminate
                },
                ClientCommand::Subscribe(t) => {
                    &&& final(self).subs_view() == if t.is_data_spec() {
                        old(self).subs_view().insert(t)
                    } else {
                        old(self).subs_view()
                    }
                    &&& if t.is_data_spec() && !old(self).subs_view().contains(t) {
                        r matches CommandOutcome::Send(frame) && frame@ == spec_directive_frame(
                            Direction::Subscribe,
                            t,
                        )
                    } else {
                        r is Nothing
                    }
                },
                ClientCommand::Unsubscribe(t) => {
                    &&& final(self).subs_view() == if t.is_data_spec() {
                        old(self).subs_view().remove(t)
                    } else {
                        old(self).subs_view()
                    }
                    &&& if t.is_data_spec() && old(self).subs_view().contains(t) {
                        r matches CommandOutcome::Send(frame) && frame@ == spec_directive_frame(
                            Direction::Unsubscribe,
                            t,
                        )
                    } else {
                        r is Nothing
                    }
                },
            },
    {
        match cmd {
            ClientCommand::Close => CommandOutcome::Terminate,
            ClientCommand::Subscribe(t) => {
                if self.subs.activate(t) {
                    let frame = self.directive_frame(Direction::Subscribe, t);
                    CommandOutcome::Send(frame)
                } else {
                    CommandOutcome::Nothing
                }
            },
            ClientCommand::Unsubscribe(t) => {
                if self.subs.deactivate(t) {
                    let frame = self.directive_frame(Direction::Unsubscribe, t);
                    CommandOutcome::Send(frame)
                } else {
                    CommandOutcome::Nothing
                }
            },
        }
    }

    /// Builds the directive frame announcing `dir` for `t`.
    fn directive_frame(&self, dir: Direction, t: MsgType) -> (r: Vec<u8>)
        ensures
            r@ == spec_directive_frame(dir, t),
    {
        let mut types: Vec<u16> = Vec::new();
        types.push(t.id());
        let payload = encode_directive_payload(dir, &types);
        proof {
            assert(types@ =~= seq![t.id_spec()]);
        }
        write_message(Msg::Subscribe(payload))
    }

    /// Drains one batch of queued commands, in order, stopping at the first
    /// `Close`.  Returns the directive frames to write, in order, and
    /// whether the loop must terminate; commands after a `Close` are left
    /// unapplied, matching [`command_fold`].
    pub fn process_commands(&mut self, cmds: &Vec<ClientCommand>) -> (r: (Vec<Vec<u8>>, bool))
        requires
            old(self).wf(),
        ensures
            final(self).wf(),
            final(self).dec_model() == old(self).dec_model(),
            final(self).subs_view() == command_fold(old(self).subs_view(), cmds@).subs,
            r.1 == command_fold(old(self).subs_view(), cmds@).closed,
            r.0@.map_values(|v: Vec<u8>| v@) == command_fold(old(self).subs_view(), cmds@).sent,
    {
        let ghost orig = self.subs_view();
        let ghost whole = command_fold(orig, cmds@);
        let mut sent: Vec<Vec<u8>> = Vec::new();
        let mut i: usize = 0;
        proof {
            assert(cmds@.skip(0) =~= cmds@);
            assert(sent@.map_values(|v: Vec<u8>| v@) + whole.sent =~= whole.sent);
        }
        while i < cmds.len()
            invariant
                old(self).wf(),
                self.wf(),
                i <= cmds@.len(),
                self.dec_model() == old(self).dec_model(),
                whole == command_fold(orig, cmds@),
                orig == old(self).subs_view(),
                whole.subs == command_fold(self.subs_view(), cmds@.skip(i as int)).subs,
                whole.closed == command_fold(self.subs_view(), cmds@.skip(i as int)).closed,
                whole.sent == sent@.map_values(|v: Vec<u8>| v@) + command_fold(
                    self.subs_view(),
                    cmds@.skip(i as int),
                ).sent,
            decreases cmds@.len() - i,
        {
            let cmd = cmds[i];
            let ghost before = self.subs_view();
            let ghost tail = cmds@.skip(i as int);
            proof {
                assert(tail.first() == cmds@[i as int]);
                assert(tail.drop_first() =~= cmds@.skip(i + 1));
            }
            match self.handle_command(cmd) {
                CommandOutcome::Terminate => {
                    proof {
                        assert(command_fold(before, tail) =~~= (CommandPhase {
                            sent: Seq::empty(),
                            subs: before,
                            closed: true,
                        }));
                        assert(sent@.map_values(|v: Vec<u8>| v@) + Seq::<Seq<u8>>::empty()
                            =~= sent@.map_values(|v: Vec<u8>| v@));
                    }
                    return (sent, true);
                },
                CommandOutcome::Send(frame) => {
                    let ghost fview = frame@;
                    let ghost snap = sent@;
                    sent.push(frame);
                    proof {
                        let vf = |v: Vec<u8>| v@;
                        assert(sent@.map_values(vf) =~= snap.map_values(vf).push(fview));
                        assert(command_fold(before, tail).sent =~= seq![fview] + command_fold(
                            self.subs_view(),
                            cmds@.skip(i + 1),
                        ).sent);
                        assert(whole.sent =~= sent@.map_values(vf) + command_fold(
                            self.subs_view(),
                            cmds@.skip(i + 1),
                        ).sent);
                    }
                },
                CommandOutcome::Nothing => {
                    proof {
                        assert(command_fold(before, tail).sent =~= Seq::<Seq<u8>>::empty()
                            + command_fold(self.subs_view(), cmds@.skip(i + 1)).sent);
                    }
                },
            }
            i = i + 1;
        }
        proof {
            assert(cmds@.skip(i as int) =~= Seq::<ClientCommand>::empty());
            assert(command_fold(self.subs_view(), cmds@.skip(i as int)) =~~= (CommandPhase {
                sent: Seq::empty(),
                subs: self.subs_view(),
                closed: false,
            }));
            assert(sent@.map_values(|v: Vec<u8>| v@) + Seq::<Seq<u8>>::empty() =~= sent@.map_values(
                |v: Vec<u8>| v@,
            ));
        }
        (sent, false)
    }

    /// Feeds received stream bytes to the decoder, drains every frame that
    /// completes, and returns the messages whose type is subscribed,
    /// in wire order.  Gated-out frames are still consumed, so framing
    /// stays synchronised whatever the subscription state.
    pub fn data_received(&mut self, data: &[u8]) -> (msgs: Vec<ClientMsg>)
        requires
            old(self).wf(),
        ensures
            final(self).wf(),
            final(self).subs_view() == old(self).subs_view(),
            final(self).dec_model() == decode_run(old(self).dec_model().feed(data@)).1,
            msgs@.map_values(|m: ClientMsg| m@) == delivered(
                old(self).subs_view(),
                decode_run(old(self).dec_model().feed(data@)).0,
            ),
    {
        self.dec.feed(data);
        let ghost subs0 = self.subs_view();
        let ghost fed = self.dec.model();
        let ghost full = decode_run(fed);
        let mut msgs: Vec<ClientMsg> = Vec::new();
        loop
            invariant
                self.wf(),
                self.subs_view() == subs0,
                full.1 == decode_run(self.dec.model()).1,
                delivered(subs0, full.0) == msgs@.map_values(|m: ClientMsg| m@) + delivered(
                    subs0,
                    decode_run(self.dec.model()).0,
                ),
            ensures
                self.wf(),
                self.subs_view() == subs0,
                self.dec.model() == full.1,
                delivered(subs0, full.0) == msgs@.map_values(|m: ClientMsg| m@),
            decreases decode_run(self.dec.model()).0.len(),
        {
            let ghost m0 = self.dec.model();
            let ghost pre = decode_run(m0);
            let next = self.dec.try_decode_one();
            match next {
                None => {
                    proof {
                        crate::codec::lemma_decode_run_fixpoint(m0);
                        assert(delivered(subs0, decode_run(self.dec.model()).0)
                            =~= Seq::<FrameView>::empty());
                        assert(msgs@.map_values(|m: ClientMsg| m@) + Seq::<FrameView>::empty()
                            =~= msgs@.map_values(|m: ClientMsg| m@));
                    }
                    break ;
                },
                Some(frame) => {
                    let ghost fview = frame@;
                    let ghost rest = decode_run(self.dec.model()).0;
                    proof {
                        lemma_delivered_cons(subs0, fview, rest);
                    }
                    match MsgType::from_id(frame.type_id) {
                        Some(t) => {
                            let deliverable = t.is_data() && self.subs.is_active(t);
                            if deliverable {
                                let m = ClientMsg::from_frame(t, frame.payload);
                                proof {
                                    assert(m@ =~~= fview);
                                }
                                let ghost snap = msgs@;
                                msgs.push(m);
                                proof {
                                    let vm = |m: ClientMsg| m@;
                                    assert(msgs@.map_values(vm) =~= snap.map_values(vm).push(
                                        fview,
                                    ));
                                    assert(delivered(subs0, pre.0) =~= seq![fview] + delivered(
                                        subs0,
                                        rest,
                                    ));
                                    assert(delivered(subs0, full.0) =~= msgs@.map_values(vm)
                                        + delivered(subs0, rest));
                                }
                            } else {
                                proof {
                                    assert(!accepts(subs0, fview));
                                }
                            }
                        },
                        None => {
                            proof {
                                assert(!accepts(subs0, fview));
                            }
                        },
                    }
                },
            }
        }
        msgs
    }
}

/// Delivery looks at frames one at a time: the filter either keeps or
/// drops the first frame and proceeds with the rest.
proof fn lemma_delivered_cons(subs: Set<MsgType>, f: FrameView, rest: Seq<FrameView>)
    ensures
        delivered(subs, seq![f] + rest) == if accepts(subs, f) {
            seq![f] + delivered(subs, rest)
        } else {
            delivered(subs, rest)
        },
{
    let whole = seq![f] + rest;
    assert(whole.first() == f);
    assert(whole.drop_first() =~= rest);
}

/// Round trip: the frame `write_message` produces decodes back to a single
/// frame carrying the message's type identifier and payload, leaving the
/// decoder clean.
pub proof fn lemma_message_round_trip(m: Msg)
    requires
        m.payload_spec().len() < pow256(8),
    ensures
        ({
            let f = FrameView { type_id: m.msg_type_spec().id_spec(), payload: m.payload_spec() };
            decode_run(
                DecModel::empty().feed(
                    spec_frame(m.msg_type_spec().id_spec(), m.payload_spec()),
                ),
            ) == (seq![f], DecModel::empty())
        }),
{
    let f = FrameView { type_id: m.msg_type_spec().id_spec(), payload: m.payload_spec() };
    crate::codec::lemma_frame_round_trip(f);
}

/// Subscription gating: a data-carrying frame's bytes always decode
/// cleanly, and the frame is delivered exactly when its type is active;
/// either way the decoder ends clean, ready for the next frame.
pub proof fn lemma_subscription_gating(subs: Set<MsgType>, t: MsgType, payload: Seq<u8>)
    requires
        t.is_data_spec(),
        payload.len() < pow256(8),
    ensures
        ({
            let f = FrameView { type_id: t.id_spec(), payload };
            let run = decode_run(DecModel::empty().feed(wire_one(f)));
            &&& run.1 == DecModel::empty()
            &&& delivered(subs, run.0) == if subs.contains(t) {
                seq![f]
            } else {
                Seq::<FrameView>::empty()
            }
        }),
{
    let f = FrameView { type_id: t.id_spec(), payload };
    crate::codec::lemma_frame_round_trip(f);
    lemma_delivered_cons(subs, f, Seq::<FrameView>::empty());
    assert(seq![f] + Seq::<FrameView>::empty() =~= seq![f]);
    assert(delivered(subs, Seq::<FrameView>::empty()) =~= Seq::<FrameView>::empty());
    assert(MsgType::spec_from_id(t.id_spec()) == Some(t));
}

/// Idempotence: two `Subscribe(t)` commands in a row send exactly one
/// directive frame when `t` was inactive and none when it was already
/// active — the second command never causes wire traffic — and leave `t`
/// active.
pub proof fn lemma_subscribe_idempotent(subs: Set<MsgType>, t: MsgType)
    requires
        t.is_data_spec(),
    ensures
        ({
            let ph = command_fold(
                subs,
                seq![ClientCommand::Subscribe(t), ClientCommand::Subscribe(t)],
            );
            &&& ph.sent == if subs.contains(t) {
                Seq::<Seq<u8>>::empty()
            } else {
                seq![spec_directive_frame(Direction::Subscribe, t)]
            }
            &&& ph.subs == subs.insert(t)
            &&& !ph.closed
        }),
{
    reveal_with_fuel(command_fold, 4);
    let cmds = seq![ClientCommand::Subscribe(t), ClientCommand::Subscribe(t)];
    let rest1 = cmds.drop_first();
    assert(rest1 =~= seq![ClientCommand::Subscribe(t)]);
    assert(rest1.drop_first() =~= Seq::<ClientCommand>::empty());
    assert(subs.insert(t).contains(t));
    assert(subs.insert(t).insert(t) =~= subs.insert(t));
    let ph = command_fold(subs, cmds);
    if subs.contains(t) {
        assert(subs.insert(t) =~= subs);
        assert(ph.sent =~= Seq::<Seq<u8>>::empty());
    } else {
        assert(ph.sent =~= seq![spec_directive_frame(Direction::Subscribe, t)]);
    }
}

/// Cooperative shutdown: a drained command batch terminates the worker
/// exactly when it contains a `Close`; the commands ahead of the first
/// `Close` are still applied in order, later ones are not.
pub proof fn lemma_close_terminates(subs: Set<MsgType>, cmds: Seq<ClientCommand>)
    ensures
        command_fold(subs, cmds).closed <==> exists|i: int|
            0 <= i < cmds.len() && cmds[i] == ClientCommand::Close,
    decreases cmds.len(),
{
    if cmds.len() == 0 {
    } else {
        let rest = cmds.drop_first();
        match cmds.first() {
            ClientCommand::Close => {
                assert(cmds[0] == ClientCommand::Close);
            },
            ClientCommand::Subscribe(t) => {
                let subs2 = if t.is_data_spec() {
                    subs.insert(t)
                } else {
                    subs
                };
                lemma_close_terminates(subs2, rest);
                lemma_close_shift(cmds, rest);
            },
            ClientCommand::Unsubscribe(t) => {
                let subs2 = if t.is_data_spec() {
                    subs.remove(t)
                } else {
                    subs
                };
                lemma_close_terminates(subs2, rest);
                lemma_close_shift(cmds, rest);
            },
        }
    }
}

/// When the first command is not a `Close`, the batch holds one exactly
/// when the rest of the batch does.
proof fn lemma_close_shift(cmds: Seq<ClientCommand>, rest: Seq<ClientCommand>)
    requires
        cmds.len() > 0,
        cmds.first() != ClientCommand::Close,
        rest == cmds.drop_first(),
    ensures
        (exists|i: int| 0 <= i < rest.len() && rest[i] == ClientCommand::Close) <==> (exists|
            i: int,
        |
            0 <= i < cmds.len() && cmds[i] == ClientCommand::Close),
{
    if exists|i: int| 0 <= i < rest.len() && rest[i] == ClientCommand::Close {
        let i = choose|i: int| 0 <= i < rest.len() && rest[i] == ClientCommand::Close;
        assert(cmds[i + 1] == ClientCommand::Close);
    }
    if exists|i: int| 0 <= i < cmds.len() && cmds[i] == ClientCommand::Close {
        let i = choose|i: int| 0 <= i < cmds.len() && cmds[i] == ClientCommand::Close;
        assert(i != 0);
        assert(rest[i - 1] == ClientCommand::Close);
    }
}

} // verus!
