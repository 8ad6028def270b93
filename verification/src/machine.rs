//! The session-layer state machine: one instance per connection.
//!
//! The machine owns the protocol decisions — sequencing, gap recovery,
//! handshake, liveness, and shutdown — and returns the actions the
//! driver must carry out in order: transmit a message, replay a range
//! from the store, or emit an event.  The driver does the I/O and
//! hands back decoded frames and timer ticks.

use vstd::prelude::*;
use crate::digits::{dec_digits, fmt_u32, fmt_u64};
use crate::fields::set_entry;
use crate::messages::{get_flag, get_u32, opt_u32_of, opt_flag_of, opt_val_of};
use crate::protocol::{
    FixMessage, FixMsgType, MessageModel, MsgTypeModel, fix44, build_logon, build_heartbeat,
    build_test_request, build_logout, build_resend_request, build_sequence_reset, logon_fields,
    heartbeat_fields, test_request_fields, logout_fields, resend_request_fields,
    sequence_reset_fields, decode, decode_spec, encode_frame, encode_spec,
};
use crate::session::DisconnectReason;

verus! {

/// Where a session stands in its life.
#[derive(Debug, Clone, Copy, PartialEq, Eq, Structural)]
pub enum Phase {
    /// The socket is being dialled; the machine starts past this.
    Connecting,
    /// The socket is up, Logon not yet exchanged.
    Handshaking,
    /// Logon exchanged; traffic flows.
    Active,
    /// A Logout went out; waiting to close.
    Closing,
    /// Terminal.
    Closed,
}

/// What the driver must do, in order.
#[derive(Debug, Clone)]
pub enum Action {
    /// Encode and write this stamped message, and journal it under
    /// `seq`.
    Transmit { msg: FixMessage, seq: u32 },
    /// Load outbound `begin_seq_no..=end_seq_no` from the store, pass
    /// it through `build_replay`, and write the result.
    Replay { begin_seq_no: u32, end_seq_no: u32 },
    /// Tell every subscriber the session is active.
    EmitSessionActive,
    /// Deliver the inbound frame to every subscriber.
    EmitInbound,
    /// Tell every subscriber the session ended, and close the socket.
    EmitDisconnected(DisconnectReason),
}

/// Mathematical image of an action.
#[verifier::ext_equal]
pub enum ActionModel {
    Transmit { msg: MessageModel, seq: int },
    Replay { begin_seq_no: int, end_seq_no: int },
    EmitSessionActive,
    EmitInbound,
    EmitDisconnected(DisconnectReason),
}

impl View for Action {
    type V = ActionModel;

    open spec fn view(&self) -> ActionModel {
        match self {
            Action::Transmit { msg, seq } => ActionModel::Transmit { msg: msg@, seq: *seq as int },
            Action::Replay { begin_seq_no, end_seq_no } => ActionModel::Replay {
                begin_seq_no: *begin_seq_no as int,
                end_seq_no: *end_seq_no as int,
            },
            Action::EmitSessionActive => ActionModel::EmitSessionActive,
            Action::EmitInbound => ActionModel::EmitInbound,
            Action::EmitDisconnected(r) => ActionModel::EmitDisconnected(*r),
        }
    }
}

/// The models of a run of actions, in order.
pub open spec fn acts_of(s: Seq<Action>) -> Seq<ActionModel> {
    Seq::new(s.len(), |i: int| s[i]@)
}

/// The run-time state of one session.
#[derive(Debug, Clone, PartialEq)]
pub struct SessionState {
    /// Where the session stands.
    pub phase: Phase,
    /// The next outbound MsgSeqNum, starting at one.
    pub out_seq: u32,
    /// The highest accepted inbound MsgSeqNum, starting at zero.
    pub in_seq: u32,
    /// The heartbeat interval, seconds.
    pub hb_interval_secs: u32,
    /// The TestReqID we sent and await, if any.
    pub test_req_outstanding: Option<Vec<u8>>,
    /// Our comp id, tag 49 outbound.
    pub sender_comp_id: Vec<u8>,
    /// The counterparty's comp id, tag 56 outbound.
    pub target_comp_id: Vec<u8>,
    /// Whether we dialled (and so send the first Logon).
    pub is_initiator: bool,
}

/// Mathematical image of the session state.
#[verifier::ext_equal]
pub struct StateModel {
    pub phase: Phase,
    pub out_seq: int,
    pub in_seq: int,
    pub hb_interval_secs: int,
    pub test_req_outstanding: Option<Seq<u8>>,
    pub sender_comp_id: Seq<u8>,
    pub target_comp_id: Seq<u8>,
    pub is_initiator: bool,
}

impl View for SessionState {
    type V = StateModel;

    open spec fn view(&self) -> StateModel {
        StateModel {
            phase: self.phase,
            out_seq: self.out_seq as int,
            in_seq: self.in_seq as int,
            hb_interval_secs: self.hb_interval_secs as int,
            test_req_outstanding: match &self.test_req_outstanding {
                Some(v) => Some(v@),
                None => None,
            },
            sender_comp_id: self.sender_comp_id@,
            target_comp_id: self.target_comp_id@,
            is_initiator: self.is_initiator,
        }
    }
}

/// A message as this engine stamps it for the wire: the fixed begin
/// string, the given fields plus MsgSeqNum.
pub open spec fn stamped(mt: MsgTypeModel, fields: Seq<(u32, Seq<u8>)>, seqno: int) -> MessageModel {
    MessageModel {
        begin_string: fix44(),
        body_length: 0,
        msg_type: mt,
        fields: set_entry(fields, 34, dec_digits(seqno)),
    }
}

/// The inbound MsgSeqNum, when tag 34 carries a decimal.
pub open spec fn seq_of_msg(m: MessageModel) -> Option<int> {
    match opt_u32_of(m.fields, 34) {
        Some(n) => Some(n as int),
        None => None,
    }
}

/// Whether the message is marked a possible duplicate (43=Y).
pub open spec fn poss_dup(m: MessageModel) -> bool {
    opt_flag_of(m.fields, 43) == Some(true)
}

/// The text this engine sends when it rejects a Logon.
pub open spec fn logon_rejected_text() -> Seq<u8> {
    seq![76u8, 111u8, 103u8, 111u8, 110u8, 32u8, 114u8, 101u8, 106u8, 101u8, 99u8, 116u8, 101u8,
        100u8]
}

/// The TestReqID this engine generates: `TR-` and the sequence number.
pub open spec fn test_req_id_of(n: int) -> Seq<u8> {
    seq![84u8, 82u8, 45u8] + dec_digits(n)
}

/// The handshake step on an inbound Logon.
pub open spec fn handshake_logon_spec(s: StateModel, m: MessageModel, auth_ok: bool) -> (
    StateModel,
    Seq<ActionModel>,
) {
    let rcv_in = match seq_of_msg(m) {
        Some(n) => n,
        None => s.in_seq,
    };
    if s.is_initiator {
        (
            StateModel { phase: Phase::Active, in_seq: rcv_in, ..s },
            seq![ActionModel::EmitSessionActive, ActionModel::EmitInbound],
        )
    } else {
        let new_sender = match opt_val_of(m.fields, 56) {
            Some(v) => v,
            None => s.sender_comp_id,
        };
        let new_target = match opt_val_of(m.fields, 49) {
            Some(v) => v,
            None => s.target_comp_id,
        };
        let new_hb = match opt_u32_of(m.fields, 108) {
            Some(h) => h as int,
            None => s.hb_interval_secs,
        };
        if !auth_ok {
            (
                StateModel {
                    phase: Phase::Closing,
                    out_seq: s.out_seq + 1,
                    in_seq: rcv_in,
                    hb_interval_secs: new_hb,
                    sender_comp_id: new_sender,
                    target_comp_id: new_target,
                    ..s
                },
                seq![
                    ActionModel::Transmit {
                        msg: stamped(
                            MsgTypeModel::Logout,
                            logout_fields(Some(logon_rejected_text()), new_sender, new_target),
                            s.out_seq,
                        ),
                        seq: s.out_seq,
                    },
                ],
            )
        } else {
            (
                StateModel {
                    phase: Phase::Active,
                    out_seq: s.out_seq + 1,
                    in_seq: rcv_in,
                    hb_interval_secs: new_hb,
                    sender_comp_id: new_sender,
                    target_comp_id: new_target,
                    ..s
                },
                seq![
                    ActionModel::Transmit {
                        msg: stamped(
                            MsgTypeModel::Logon,
                            logon_fields(new_hb, new_sender, new_target),
                            s.out_seq,
                        ),
                        seq: s.out_seq,
                    },
                    ActionModel::EmitSessionActive,
                    ActionModel::EmitInbound,
                ],
            )
        }
    }
}

/// The SequenceReset step: a gap-fill (123=Y) moves `in_seq` forward
/// only; a hard reset moves it anywhere but to zero; a missing or
/// non-numeric NewSeqNo, or a hard reset to zero, is a protocol error.
pub open spec fn seq_reset_spec(s: StateModel, m: MessageModel) -> (StateModel, Seq<ActionModel>) {
    match opt_u32_of(m.fields, 36) {
        None => (
            StateModel { phase: Phase::Closed, ..s },
            seq![ActionModel::EmitDisconnected(DisconnectReason::ProtocolError)],
        ),
        Some(ns) => if opt_flag_of(m.fields, 123) == Some(true) {
            if ns > s.in_seq {
                (StateModel { in_seq: ns - 1, ..s }, seq![ActionModel::EmitInbound])
            } else {
                (s, seq![ActionModel::EmitInbound])
            }
        } else {
            if ns >= 1 {
                (StateModel { in_seq: ns - 1, ..s }, seq![ActionModel::EmitInbound])
            } else {
                (
                    StateModel { phase: Phase::Closed, ..s },
                    seq![ActionModel::EmitDisconnected(DisconnectReason::ProtocolError)],
                )
            }
        },
    }
}

/// Handling of a message whose sequence number was accepted, with
/// `s2` already carrying the advanced `in_seq`.
pub open spec fn accept_spec(s2: StateModel, m: MessageModel) -> (StateModel, Seq<ActionModel>) {
    match m.msg_type {
        MsgTypeModel::Heartbeat => {
            let s3 = if s2.test_req_outstanding is Some && opt_val_of(m.fields, 112)
                == s2.test_req_outstanding {
                StateModel { test_req_outstanding: None, ..s2 }
            } else {
                s2
            };
            (s3, seq![ActionModel::EmitInbound])
        },
        MsgTypeModel::TestRequest => (
            StateModel { out_seq: s2.out_seq + 1, ..s2 },
            seq![
                ActionModel::Transmit {
                    msg: stamped(
                        MsgTypeModel::Heartbeat,
                        heartbeat_fields(
                            opt_val_of(m.fields, 112),
                            s2.sender_comp_id,
                            s2.target_comp_id,
                        ),
                        s2.out_seq,
                    ),
                    seq: s2.out_seq,
                },
                ActionModel::EmitInbound,
            ],
        ),
        MsgTypeModel::ResendRequest => {
            let b = match opt_u32_of(m.fields, 7) {
                Some(v) => v as int,
                None => 1,
            };
            let e = match opt_u32_of(m.fields, 16) {
                Some(v) => v as int,
                None => s2.in_seq,
            };
            (s2, seq![ActionModel::Replay { begin_seq_no: b, end_seq_no: e }, ActionModel::EmitInbound])
        },
        MsgTypeModel::Logout => (
            StateModel { phase: Phase::Closed, out_seq: s2.out_seq + 1, ..s2 },
            seq![
                ActionModel::Transmit {
                    msg: stamped(
                        MsgTypeModel::Logout,
                        logout_fields(None, s2.sender_comp_id, s2.target_comp_id),
                        s2.out_seq,
                    ),
                    seq: s2.out_seq,
                },
                ActionModel::EmitDisconnected(DisconnectReason::ApplicationRequested),
            ],
        ),
        _ => (s2, seq![ActionModel::EmitInbound]),
    }
}

/// The Active-phase step: SequenceReset first, then the MsgSeqNum
/// rule — a gap begets a ResendRequest for exactly the missing range
/// and drops the message; a low number is idempotently ignored under
/// 43=Y and fatal otherwise; the expected number is accepted.
pub open spec fn active_spec(s: StateModel, m: MessageModel) -> (StateModel, Seq<ActionModel>) {
    if m.msg_type == MsgTypeModel::SequenceReset {
        seq_reset_spec(s, m)
    } else {
        let expected = s.in_seq + 1;
        match seq_of_msg(m) {
            Some(n) => if n > expected {
                (
                    StateModel { out_seq: s.out_seq + 1, ..s },
                    seq![
                        ActionModel::Transmit {
                            msg: stamped(
                                MsgTypeModel::ResendRequest,
                                resend_request_fields(
                                    expected,
                                    n - 1,
                                    s.sender_comp_id,
                                    s.target_comp_id,
                                ),
                                s.out_seq,
                            ),
                            seq: s.out_seq,
                        },
                    ],
                )
            } else if n < expected {
                if poss_dup(m) {
                    (s, Seq::<ActionModel>::empty())
                } else {
                    (
                        StateModel { phase: Phase::Closed, out_seq: s.out_seq + 1, ..s },
                        seq![
                            ActionModel::Transmit {
                                msg: stamped(
                                    MsgTypeModel::Logout,
                                    logout_fields(None, s.sender_comp_id, s.target_comp_id),
                                    s.out_seq,
                                ),
                                seq: s.out_seq,
                            },
                            ActionModel::EmitDisconnected(DisconnectReason::ProtocolError),
                        ],
                    )
                }
            } else {
                accept_spec(StateModel { in_seq: n, ..s }, m)
            },
            None => accept_spec(s, m),
        }
    }
}

/// One step of the machine on a decoded inbound message.
pub open spec fn step_spec(s: StateModel, m: MessageModel, auth_ok: bool) -> (
    StateModel,
    Seq<ActionModel>,
) {
    if s.phase == Phase::Handshaking {
        if m.msg_type == MsgTypeModel::Logon {
            handshake_logon_spec(s, m, auth_ok)
        } else {
            (s, Seq::<ActionModel>::empty())
        }
    } else if s.phase == Phase::Active {
        active_spec(s, m)
    } else if s.phase == Phase::Closing {
        if m.msg_type == MsgTypeModel::Logout {
            (
                StateModel { phase: Phase::Closed, ..s },
                seq![ActionModel::EmitDisconnected(DisconnectReason::ApplicationRequested)],
            )
        } else {
            (s, Seq::<ActionModel>::empty())
        }
    } else {
        (s, Seq::<ActionModel>::empty())
    }
}

/// One step of the machine on a liveness tick, `idle_secs` seconds
/// after the last inbound byte: one interval begets a Heartbeat when
/// nothing else is outstanding, two a TestRequest (once), three the
/// end of the session.
pub open spec fn tick_spec(s: StateModel, idle_secs: int) -> (StateModel, Seq<ActionModel>) {
    if s.phase != Phase::Active {
        (s, Seq::<ActionModel>::empty())
    } else if idle_secs >= 3 * s.hb_interval_secs {
        (
            StateModel { phase: Phase::Closed, ..s },
            seq![ActionModel::EmitDisconnected(DisconnectReason::Timeout)],
        )
    } else if idle_secs >= 2 * s.hb_interval_secs {
        if s.test_req_outstanding is None {
            (
                StateModel {
                    out_seq: s.out_seq + 1,
                    test_req_outstanding: Some(test_req_id_of(s.out_seq)),
                    ..s
                },
                seq![
                    ActionModel::Transmit {
                        msg: stamped(
                            MsgTypeModel::TestRequest,
                            test_request_fields(
                                test_req_id_of(s.out_seq),
                                s.sender_comp_id,
                                s.target_comp_id,
                            ),
                            s.out_seq,
                        ),
                        seq: s.out_seq,
                    },
                ],
            )
        } else {
            (s, Seq::<ActionModel>::empty())
        }
    } else if idle_secs >= s.hb_interval_secs {
        if s.test_req_outstanding is None {
            (
                StateModel { out_seq: s.out_seq + 1, ..s },
                seq![
                    ActionModel::Transmit {
                        msg: stamped(
                            MsgTypeModel::Heartbeat,
                            heartbeat_fields(None, s.sender_comp_id, s.target_comp_id),
                            s.out_seq,
                        ),
                        seq: s.out_seq,
                    },
                ],
            )
        } else {
            (s, Seq::<ActionModel>::empty())
        }
    } else {
        (s, Seq::<ActionModel>::empty())
    }
}

impl SessionState {
    /// The machine's own bound: the outbound counter must have room.
    pub open spec fn can_send(self) -> bool {
        self.out_seq < u32::MAX
    }

    /// A fresh acceptor-side session: the socket was accepted, the
    /// peer's Logon is awaited.
    pub fn new_acceptor() -> (r: SessionState)
        ensures
            r@ == (StateModel {
                phase: Phase::Handshaking,
                out_seq: 1,
                in_seq: 0,
                hb_interval_secs: 30,
                test_req_outstanding: None::<Seq<u8>>,
                sender_comp_id: Seq::<u8>::empty(),
                target_comp_id: Seq::<u8>::empty(),
                is_initiator: false,
            }),
    {
        let r = SessionState {
            phase: Phase::Handshaking,
            out_seq: 1,
            in_seq: 0,
            hb_interval_secs: 30,
            test_req_outstanding: None,
            sender_comp_id: Vec::new(),
            target_comp_id: Vec::new(),
            is_initiator: false,
        };
        assert(r@ =~~= (StateModel {
            phase: Phase::Handshaking,
            out_seq: 1,
            in_seq: 0,
            hb_interval_secs: 30,
            test_req_outstanding: None::<Seq<u8>>,
            sender_comp_id: Seq::<u8>::empty(),
            target_comp_id: Seq::<u8>::empty(),
            is_initiator: false,
        }));
        r
    }

    /// A fresh initiator-side session, together with the opening
    /// Logon, already stamped with sequence number one.
    pub fn new_initiator(
        sender_comp_id: Vec<u8>,
        target_comp_id: Vec<u8>,
        heartbeat_interval_secs: u32,
    ) -> (r: (SessionState, FixMessage))
        ensures
            r.0@ == (StateModel {
                phase: Phase::Handshaking,
                out_seq: 2,
                in_seq: 0,
                hb_interval_secs: heartbeat_interval_secs as int,
                test_req_outstanding: None::<Seq<u8>>,
                sender_comp_id: sender_comp_id@,
                target_comp_id: target_comp_id@,
                is_initiator: true,
            }),
            r.1@ == stamped(
                MsgTypeModel::Logon,
                logon_fields(heartbeat_interval_secs as int, sender_comp_id@, target_comp_id@),
                1,
            ),
            r.1.wf(),
    {
        let mut logon = build_logon(
            heartbeat_interval_secs,
            sender_comp_id.as_slice(),
            target_comp_id.as_slice(),
        );
        logon.set_field(34, fmt_u32(1));
        let st = SessionState {
            phase: Phase::Handshaking,
            out_seq: 2,
            in_seq: 0,
            hb_interval_secs: heartbeat_interval_secs,
            test_req_outstanding: None,
            sender_comp_id,
            target_comp_id,
            is_initiator: true,
        };
        proof {
            assert(st@ =~~= (StateModel {
                phase: Phase::Handshaking,
                out_seq: 2,
                in_seq: 0,
                hb_interval_secs: heartbeat_interval_secs as int,
                test_req_outstanding: None::<Seq<u8>>,
                sender_comp_id: st.sender_comp_id@,
                target_comp_id: st.target_comp_id@,
                is_initiator: true,
            }));
        }
        (st, logon)
    }

    /// Stamps the next outbound sequence number into `msg` and takes
    /// that number.  For a caller outside the machine: build the
    /// message with this crate's constructors (which establish the
    /// requirements) and test `out_seq < u32::MAX` first.
    pub fn stamp(&mut self, msg: FixMessage) -> (r: (FixMessage, u32))
        requires
            old(self).can_send(),
            msg.wf(),
            msg@.begin_string == fix44(),
            msg@.body_length == 0,
        ensures
            r.0.wf(),
            r.0@ == stamped(msg@.msg_type, msg@.fields, old(self)@.out_seq),
            r.1 == old(self).out_seq,
            final(self)@ == (StateModel { out_seq: old(self)@.out_seq + 1, ..old(self)@ }),
    {
        let seqno = self.out_seq;
        let mut m = msg;
        m.set_field(34, fmt_u32(seqno));
        self.out_seq = self.out_seq + 1;
        proof {
            assert(m@ =~~= stamped(msg@.msg_type, msg@.fields, seqno as int));
            assert(self@ =~~= (StateModel { out_seq: old(self)@.out_seq + 1, ..old(self)@ }));
        }
        (m, seqno)
    }

    /// Feeds one decoded inbound frame to the machine.  `auth_ok` is
    /// the authentication hook's verdict on this peer, consulted only
    /// for an acceptor-side Logon.  The step taken is exactly
    /// `step_spec`.
    pub fn on_frame(&mut self, msg: &FixMessage, auth_ok: bool) -> (r: Vec<Action>)
        requires
            old(self).can_send(),
        ensures
            final(self)@ == step_spec(old(self)@, msg@, auth_ok).0,
            acts_of(r@) == step_spec(old(self)@, msg@, auth_ok).1,
    {
        let ghost s0 = self@;
        let ghost expect = step_spec(s0, msg@, auth_ok);
        let mut actions: Vec<Action> = Vec::new();
        match self.phase {
            Phase::Handshaking => {
                match &msg.msg_type {
                    FixMsgType::Logon => {
                        let rcv = get_msg_seq(msg);
                        match rcv {
                            Some(n) => {
                                self.in_seq = n;
                            },
                            None => {},
                        }
                        if self.is_initiator {
                            self.phase = Phase::Active;
                            actions.push(Action::EmitSessionActive);
                            actions.push(Action::EmitInbound);
                            proof {
                                assert(self@ =~~= expect.0);
                                assert(acts_of(actions@) =~~= expect.1);
                            }
                        } else {
                            match msg.fields.get(56) {
                                Some(v) => {
                                    self.sender_comp_id = vstd::slice::slice_to_vec(v.as_slice());
                                },
                                None => {},
                            }
                            match msg.fields.get(49) {
                                Some(v) => {
                                    self.target_comp_id = vstd::slice::slice_to_vec(v.as_slice());
                                },
                                None => {},
                            }
                            match get_u32(msg, 108) {
                                Some(h) => {
                                    self.hb_interval_secs = h;
                                },
                                None => {},
                            }
                            if !auth_ok {
                                let lo = build_logout(
                                    Some(logon_rejected_bytes().as_slice()),
                                    self.sender_comp_id.as_slice(),
                                    self.target_comp_id.as_slice(),
                                );
                                let (lo, seqno) = self.stamp(lo);
                                self.phase = Phase::Closing;
                                actions.push(Action::Transmit { msg: lo, seq: seqno });
                                proof {
                                    assert(self@ =~~= expect.0);
                                    assert(acts_of(actions@) =~~= expect.1);
                                }
                            } else {
                                let lg = build_logon(
                                    self.hb_interval_secs,
                                    self.sender_comp_id.as_slice(),
                                    self.target_comp_id.as_slice(),
                                );
                                let (lg, seqno) = self.stamp(lg);
                                self.phase = Phase::Active;
                                actions.push(Action::Transmit { msg: lg, seq: seqno });
                                actions.push(Action::EmitSessionActive);
                                actions.push(Action::EmitInbound);
                                proof {
                                    assert(self@ =~~= expect.0);
                                    assert(acts_of(actions@) =~~= expect.1);
                                }
                            }
                        }
                    },
                    _ => {
                        proof {
                            assert(self@ =~~= expect.0);
                            assert(acts_of(actions@) =~~= expect.1);
                        }
                    },
                }
            },
            Phase::Active => {
                actions = self.on_active_frame(msg);
                proof {
                    assert(self@ =~~= expect.0);
                    assert(acts_of(actions@) =~~= expect.1);
                }
            },
            Phase::Closing => {
                match &msg.msg_type {
                    FixMsgType::Logout => {
                        self.phase = Phase::Closed;
                        actions.push(
                            Action::EmitDisconnected(DisconnectReason::ApplicationRequested),
                        );
                        proof {
                            assert(self@ =~~= expect.0);
                            assert(acts_of(actions@) =~~= expect.1);
                        }
                    },
                    _ => {
                        proof {
                            assert(self@ =~~= expect.0);
                            assert(acts_of(actions@) =~~= expect.1);
                        }
                    },
                }
            },
            _ => {
                proof {
                    assert(self@ =~~= expect.0);
                    assert(acts_of(actions@) =~~= expect.1);
                }
            },
        }
        actions
    }

    /// The Active-phase handling behind `on_frame`.
    fn on_active_frame(&mut self, msg: &FixMessage) -> (r: Vec<Action>)
        requires
            old(self).can_send(),
            old(self)@.phase == Phase::Active,
        ensures
            final(self)@ == active_spec(old(self)@, msg@).0,
            acts_of(r@) == active_spec(old(self)@, msg@).1,
    {
        let ghost s0 = self@;
        let ghost expect = active_spec(s0, msg@);
        let mut actions: Vec<Action> = Vec::new();
        if let FixMsgType::SequenceReset = &msg.msg_type {
            match get_u32(msg, 36) {
                None => {
                    self.phase = Phase::Closed;
                    actions.push(Action::EmitDisconnected(DisconnectReason::ProtocolError));
                    proof {
                        assert(self@ =~~= expect.0);
                        assert(acts_of(actions@) =~~= expect.1);
                    }
                },
                Some(ns) => {
                    let gap_fill = match get_flag(msg, 123) {
                        Some(true) => true,
                        _ => false,
                    };
                    if gap_fill {
                        if ns > self.in_seq {
                            self.in_seq = ns - 1;
                        }
                        actions.push(Action::EmitInbound);
                        proof {
                            assert(self@ =~~= expect.0);
                            assert(acts_of(actions@) =~~= expect.1);
                        }
                    } else {
                        if ns >= 1 {
                            self.in_seq = ns - 1;
                            actions.push(Action::EmitInbound);
                            proof {
                                assert(self@ =~~= expect.0);
                                assert(acts_of(actions@) =~~= expect.1);
                            }
                        } else {
                            self.phase = Phase::Closed;
                            actions.push(
                                Action::EmitDisconnected(DisconnectReason::ProtocolError),
                            );
                            proof {
                                assert(self@ =~~= expect.0);
                                assert(acts_of(actions@) =~~= expect.1);
                            }
                        }
                    }
                },
            }
            return actions;
        }
        let rcv = get_msg_seq(msg);
        match rcv {
            Some(n) => {
                if n > self.in_seq && n - self.in_seq > 1 {
                    // a gap: ask for the missing range, drop this frame
                    let rr = build_resend_request(
                        self.in_seq + 1,
                        n - 1,
                        self.sender_comp_id.as_slice(),
                        self.target_comp_id.as_slice(),
                    );
                    let (rr, seqno) = self.stamp(rr);
                    actions.push(Action::Transmit { msg: rr, seq: seqno });
                    proof {
                        assert(self@ =~~= expect.0);
                        assert(acts_of(actions@) =~~= expect.1);
                    }
                } else if n <= self.in_seq {
                    let pd = match get_flag(msg, 43) {
                        Some(true) => true,
                        _ => false,
                    };
                    if pd {
                        proof {
                            assert(self@ =~~= expect.0);
                            assert(acts_of(actions@) =~~= expect.1);
                        }
                    } else {
                        let lo = build_logout(
                            None,
                            self.sender_comp_id.as_slice(),
                            self.target_comp_id.as_slice(),
                        );
                        let (lo, seqno) = self.stamp(lo);
                        self.phase = Phase::Closed;
                        actions.push(Action::Transmit { msg: lo, seq: seqno });
                        actions.push(Action::EmitDisconnected(DisconnectReason::ProtocolError));
                        proof {
                            assert(self@ =~~= expect.0);
                            assert(acts_of(actions@) =~~= expect.1);
                        }
                    }
                } else {
                    self.in_seq = n;
                    actions = self.on_accepted(msg);
                    proof {
                        assert(self@ =~~= expect.0);
                        assert(acts_of(actions@) =~~= expect.1);
                    }
                }
            },
            None => {
                actions = self.on_accepted(msg);
                proof {
                    assert(self@ =~~= expect.0);
                    assert(acts_of(actions@) =~~= expect.1);
                }
            },
        }
        actions
    }

    /// Handling of an accepted message, after `in_seq` advanced.
    fn on_accepted(&mut self, msg: &FixMessage) -> (r: Vec<Action>)
        requires
            old(self).can_send(),
            !(msg@.msg_type is SequenceReset),
        ensures
            final(self)@ == accept_spec(old(self)@, msg@).0,
            acts_of(r@) == accept_spec(old(self)@, msg@).1,
    {
        let ghost s0 = self@;
        let ghost expect = accept_spec(s0, msg@);
        let mut actions: Vec<Action> = Vec::new();
        match &msg.msg_type {
            FixMsgType::Heartbeat => {
                let clear: bool = match (&self.test_req_outstanding, msg.fields.get(112)) {
                    (Some(tro), Some(id)) => {
                        let same = vecs_equal(tro, id);
                        proof {
                            if same {
                                assert(opt_val_of(msg@.fields, 112) == s0.test_req_outstanding);
                            } else {
                                assert(opt_val_of(msg@.fields, 112) != s0.test_req_outstanding);
                            }
                        }
                        same
                    },
                    _ => false,
                };
                if clear {
                    self.test_req_outstanding = None;
                }
                actions.push(Action::EmitInbound);
                proof {
                    assert(self@ =~~= expect.0);
                    assert(acts_of(actions@) =~~= expect.1);
                }
            },
            FixMsgType::TestRequest => {
                let hb = match msg.fields.get(112) {
                    Some(id) => build_heartbeat(
                        Some(id.as_slice()),
                        self.sender_comp_id.as_slice(),
                        self.target_comp_id.as_slice(),
                    ),
                    None => build_heartbeat(
                        None,
                        self.sender_comp_id.as_slice(),
                        self.target_comp_id.as_slice(),
                    ),
                };
                let (hb, seqno) = self.stamp(hb);
                actions.push(Action::Transmit { msg: hb, seq: seqno });
                actions.push(Action::EmitInbound);
                proof {
                    assert(self@ =~~= expect.0);
                    assert(acts_of(actions@) =~~= expect.1);
                }
            },
            FixMsgType::ResendRequest => {
                let b: u32 = match get_u32(msg, 7) {
                    Some(v) => v,
                    None => 1,
                };
                let e: u32 = match get_u32(msg, 16) {
                    Some(v) => v,
                    None => self.in_seq,
                };
                actions.push(Action::Replay { begin_seq_no: b, end_seq_no: e });
                actions.push(Action::EmitInbound);
                proof {
                    assert(self@ =~~= expect.0);
                    assert(acts_of(actions@) =~~= expect.1);
                }
            },
            FixMsgType::Logout => {
                let lo = build_logout(
                    None,
                    self.sender_comp_id.as_slice(),
                    self.target_comp_id.as_slice(),
                );
                let (lo, seqno) = self.stamp(lo);
                self.phase = Phase::Closed;
                actions.push(Action::Transmit { msg: lo, seq: seqno });
                actions.push(Action::EmitDisconnected(DisconnectReason::ApplicationRequested));
                proof {
                    assert(self@ =~~= expect.0);
                    assert(acts_of(actions@) =~~= expect.1);
                }
            },
            _ => {
                actions.push(Action::EmitInbound);
                proof {
                    assert(self@ =~~= expect.0);
                    assert(acts_of(actions@) =~~= expect.1);
                }
            },
        }
        actions
    }

    /// Feeds a liveness tick to the machine, `idle_secs` seconds after
    /// the last inbound byte.  The step taken is exactly `tick_spec`.
    pub fn on_tick(&mut self, idle_secs: u64) -> (r: Vec<Action>)
        requires
            old(self).can_send(),
        ensures
            final(self)@ == tick_spec(old(self)@, idle_secs as int).0,
            acts_of(r@) == tick_spec(old(self)@, idle_secs as int).1,
    {
        let ghost s0 = self@;
        let ghost expect = tick_spec(s0, idle_secs as int);
        let mut actions: Vec<Action> = Vec::new();
        let is_active = match self.phase {
            Phase::Active => true,
            _ => false,
        };
        if !is_active {
            proof {
                assert(self@ =~~= expect.0);
                assert(acts_of(actions@) =~~= expect.1);
            }
            return actions;
        }
        let hb = self.hb_interval_secs as u64;
        if idle_secs >= 3 * hb {
            self.phase = Phase::Closed;
            actions.push(Action::EmitDisconnected(DisconnectReason::Timeout));
            proof {
                assert(self@ =~~= expect.0);
                assert(acts_of(actions@) =~~= expect.1);
            }
        } else if idle_secs >= 2 * hb {
            let outstanding = match &self.test_req_outstanding {
                Some(_) => true,
                None => false,
            };
            if !outstanding {
                let mut id: Vec<u8> = Vec::new();
                id.push(84);
                id.push(82);
                id.push(45);
                let mut digits = fmt_u32(self.out_seq);
                id.append(&mut digits);
                proof {
                    assert(id@ =~= test_req_id_of(s0.out_seq));
                }
                let tr = build_test_request(
                    id.as_slice(),
                    self.sender_comp_id.as_slice(),
                    self.target_comp_id.as_slice(),
                );
                let (tr, seqno) = self.stamp(tr);
                self.test_req_outstanding = Some(id);
                actions.push(Action::Transmit { msg: tr, seq: seqno });
                proof {
                    assert(self@ =~~= expect.0);
                    assert(acts_of(actions@) =~~= expect.1);
                }
            } else {
                proof {
                    assert(self@ =~~= expect.0);
                    assert(acts_of(actions@) =~~= expect.1);
                }
            }
        } else if idle_secs >= hb {
            let outstanding = match &self.test_req_outstanding {
                Some(_) => true,
                None => false,
            };
            if !outstanding {
                let hbm = build_heartbeat(
                    None,
                    self.sender_comp_id.as_slice(),
                    self.target_comp_id.as_slice(),
                );
                let (hbm, seqno) = self.stamp(hbm);
                actions.push(Action::Transmit { msg: hbm, seq: seqno });
                proof {
                    assert(self@ =~~= expect.0);
                    assert(acts_of(actions@) =~~= expect.1);
                }
            } else {
                proof {
                    assert(self@ =~~= expect.0);
                    assert(acts_of(actions@) =~~= expect.1);
                }
            }
        } else {
            proof {
                assert(self@ =~~= expect.0);
                assert(acts_of(actions@) =~~= expect.1);
            }
        }
        actions
    }

    /// The peer closed the socket cleanly.
    pub fn on_peer_closed(&mut self) -> (r: Vec<Action>)
        ensures
            final(self)@ == (StateModel { phase: Phase::Closed, ..old(self)@ }),
            acts_of(r@) =~= seq![ActionModel::EmitDisconnected(DisconnectReason::PeerClosed)],
    {
        self.phase = Phase::Closed;
        let mut actions: Vec<Action> = Vec::new();
        actions.push(Action::EmitDisconnected(DisconnectReason::PeerClosed));
        proof {
            assert(self@ =~~= (StateModel { phase: Phase::Closed, ..old(self)@ }));
        }
        actions
    }

    /// A frame failed to decode: the session dies as a protocol error.
    pub fn on_decode_error(&mut self) -> (r: Vec<Action>)
        ensures
            final(self)@ == (StateModel { phase: Phase::Closed, ..old(self)@ }),
            acts_of(r@) =~= seq![ActionModel::EmitDisconnected(DisconnectReason::ProtocolError)],
    {
        self.phase = Phase::Closed;
        let mut actions: Vec<Action> = Vec::new();
        actions.push(Action::EmitDisconnected(DisconnectReason::ProtocolError));
        proof {
            assert(self@ =~~= (StateModel { phase: Phase::Closed, ..old(self)@ }));
        }
        actions
    }

    /// The socket failed to read or write.
    pub fn on_io_error(&mut self) -> (r: Vec<Action>)
        ensures
            final(self)@ == (StateModel { phase: Phase::Closed, ..old(self)@ }),
            acts_of(r@) =~= seq![ActionModel::EmitDisconnected(DisconnectReason::Unknown)],
    {
        self.phase = Phase::Closed;
        let mut actions: Vec<Action> = Vec::new();
        actions.push(Action::EmitDisconnected(DisconnectReason::Unknown));
        proof {
            assert(self@ =~~= (StateModel { phase: Phase::Closed, ..old(self)@ }));
        }
        actions
    }

    /// The gateway is shutting the session down.
    pub fn on_shutdown(&mut self) -> (r: Vec<Action>)
        ensures
            final(self)@ == (StateModel { phase: Phase::Closed, ..old(self)@ }),
            acts_of(r@) =~= seq![
                ActionModel::EmitDisconnected(DisconnectReason::ApplicationRequested),
            ],
    {
        self.phase = Phase::Closed;
        let mut actions: Vec<Action> = Vec::new();
        actions.push(Action::EmitDisconnected(DisconnectReason::ApplicationRequested));
        proof {
            assert(self@ =~~= (StateModel { phase: Phase::Closed, ..old(self)@ }));
        }
        actions
    }
}

/// A gap in the inbound sequence is answered by a ResendRequest for
/// exactly the missing numbers: with `in_seq == k` and an inbound
/// non-SequenceReset message numbered `k + g`, `g >= 2`, the one
/// action is a ResendRequest whose BeginSeqNo is `k + 1` and whose
/// EndSeqNo is `k + g - 1`, and `in_seq` does not move.
pub proof fn lemma_gap_begets_resend_request(s: StateModel, m: MessageModel, g: int)
    requires
        s.phase == Phase::Active,
        !(m.msg_type is SequenceReset),
        g >= 2,
        seq_of_msg(m) == Some(s.in_seq + g),
    ensures
        step_spec(s, m, true).1 =~~= seq![
            ActionModel::Transmit {
                msg: stamped(
                    MsgTypeModel::ResendRequest,
                    resend_request_fields(
                        s.in_seq + 1,
                        s.in_seq + g - 1,
                        s.sender_comp_id,
                        s.target_comp_id,
                    ),
                    s.out_seq,
                ),
                seq: s.out_seq,
            },
        ],
        step_spec(s, m, true).0.in_seq == s.in_seq,
        step_spec(s, m, true).0.phase == Phase::Active,
{
}

/// Reads tag 34 as the inbound sequence number.
fn get_msg_seq(msg: &FixMessage) -> (r: Option<u32>)
    ensures
        match r {
            Some(n) => seq_of_msg(msg@) == Some(n as int),
            None => seq_of_msg(msg@) is None,
        },
{
    get_u32(msg, 34)
}

/// The bytes of the Logon-rejection text.
fn logon_rejected_bytes() -> (r: Vec<u8>)
    ensures
        r@ == logon_rejected_text(),
{
    let mut v: Vec<u8> = Vec::new();
    v.push(76);
    v.push(111);
    v.push(103);
    v.push(111);
    v.push(110);
    v.push(32);
    v.push(114);
    v.push(101);
    v.push(106);
    v.push(101);
    v.push(99);
    v.push(116);
    v.push(101);
    v.push(100);
    assert(v@ =~= logon_rejected_text());
    v
}

/// Whether two byte vectors hold the same bytes.
fn vecs_equal(a: &Vec<u8>, b: &Vec<u8>) -> (r: bool)
    ensures
        r <==> a@ == b@,
{
    if a.len() != b.len() {
        proof {
            assert(a@.len() != b@.len());
        }
        return false;
    }
    let mut i: usize = 0;
    while i < a.len()
        invariant
            0 <= i <= a@.len(),
            a@.len() == b@.len(),
            forall|j: int| 0 <= j < i ==> a@[j] == b@[j],
        decreases a@.len() - i,
    {
        if a[i] != b[i] {
            return false;
        }
        i = i + 1;
    }
    proof {
        assert(a@ =~= b@);
    }
    true
}

/// Whether a message type is session-layer administration; such a
/// message is never retransmitted, a gap-fill covers it.
pub open spec fn is_admin_type(mt: MsgTypeModel) -> bool {
    !(mt is Unknown)
}

/// A stored message as it goes out again: marked a possible duplicate
/// and carrying the original sending time.
pub open spec fn resend_model(m: MessageModel, now: int) -> MessageModel {
    MessageModel {
        fields: set_entry(set_entry(m.fields, 43, seq![89u8]), 122, dec_digits(now)),
        ..m
    }
}

/// The gap-fill frame covering everything up to but not including
/// `upto`: a SequenceReset with 123=Y and 36=`upto`, stamped with the
/// first sequence number it replaces.
pub open spec fn gap_fill_frame(upto: int, replaces: int, snd: Seq<u8>, tgt: Seq<u8>) -> Seq<u8> {
    encode_spec(
        stamped(MsgTypeModel::SequenceReset, sequence_reset_fields(upto, true, snd, tgt), replaces),
    )
}

/// The frames a ResendRequest for `next..=end` is answered with, given
/// the stored outbound frames in ascending sequence order: every
/// stored application message in the range goes out again marked
/// 43=Y with 122 set to `now`; admin messages, undecodable records,
/// and holes are covered by SequenceReset gap-fills.
pub open spec fn replay_from(
    frames: Seq<Seq<u8>>,
    next: int,
    end: int,
    now: int,
    snd: Seq<u8>,
    tgt: Seq<u8>,
) -> Seq<Seq<u8>>
    decreases frames.len(),
{
    if frames.len() == 0 {
        if next <= end {
            seq![gap_fill_frame(end + 1, next, snd, tgt)]
        } else {
            Seq::<Seq<u8>>::empty()
        }
    } else {
        let rest = frames.skip(1);
        match decode_spec(frames[0]) {
            Err(_) => replay_from(rest, next, end, now, snd, tgt),
            Ok(m) => match seq_of_msg(m) {
                None => replay_from(rest, next, end, now, snd, tgt),
                Some(n) => if n < next || n > end || is_admin_type(m.msg_type) {
                    replay_from(rest, next, end, now, snd, tgt)
                } else {
                    let tail = replay_from(rest, n + 1, end, now, snd, tgt);
                    if n > next {
                        seq![gap_fill_frame(n, next, snd, tgt), encode_spec(resend_model(m, now))]
                            + tail
                    } else {
                        seq![encode_spec(resend_model(m, now))] + tail
                    }
                },
            },
        }
    }
}

/// Builds the wire answer to a ResendRequest for `begin..=end` out of
/// the stored outbound frames, exactly as `replay_from` states.
#[verifier::loop_isolation(false)]
#[verifier::rlimit(100)]
#[verifier::spinoff_prover]
pub fn build_replay(
    frames: &Vec<Vec<u8>>,
    begin: u32,
    end: u32,
    now_ms: u64,
    sender_comp_id: &[u8],
    target_comp_id: &[u8],
) -> (r: Vec<Vec<u8>>)
    requires
        end < u32::MAX,
    ensures
        r.deep_view() == replay_from(
            frames.deep_view(),
            begin as int,
            end as int,
            now_ms as int,
            sender_comp_id@,
            target_comp_id@,
        ),
{
    let ghost fdv = frames.deep_view();
    let ghost snd = sender_comp_id@;
    let ghost tgt = target_comp_id@;
    proof {
        assert(fdv.len() == frames@.len());
        assert(forall|k: int| 0 <= k < frames@.len() ==> (#[trigger] frames@[k])@ =~= fdv[k]) by {
            assert(forall|k: int|
                0 <= k < frames@.len() ==> #[trigger] fdv[k] =~= frames@[k].deep_view()
                    && frames@[k].deep_view() =~= frames@[k]@);
        }
    }
    let mut out: Vec<Vec<u8>> = Vec::new();
    let mut next: u32 = begin;
    let mut i: usize = 0;
    proof {
        assert(fdv.skip(0) =~~= fdv);
        assert(out.deep_view() =~~= Seq::<Seq<u8>>::empty());
        assert(out.deep_view() + replay_from(
            fdv.skip(0),
            begin as int,
            end as int,
            now_ms as int,
            snd,
            tgt,
        ) =~~= replay_from(fdv, begin as int, end as int, now_ms as int, snd, tgt));
    }
    while i < frames.len()
        invariant
            0 <= i <= frames@.len(),
            replay_from(fdv, begin as int, end as int, now_ms as int, snd, tgt) == out.deep_view()
                + replay_from(
                fdv.skip(i as int),
                next as int,
                end as int,
                now_ms as int,
                snd,
                tgt,
            ),
        decreases frames@.len() - i,
    {
        let ghost pre_out = out.deep_view();
        let ghost here = fdv.skip(i as int);
        proof {
            assert(here[0] =~= fdv[i as int]);
            assert(here.skip(1) =~~= fdv.skip(i as int + 1));
        }
        let f = &frames[i];
        match decode(f.as_slice()) {
            Err(_) => {},
            Ok(mut m) => {
                match get_msg_seq(&m) {
                    None => {},
                    Some(n) => {
                        let admin = match &m.msg_type {
                            FixMsgType::Unknown(_) => false,
                            _ => true,
                        };
                        if n < next || n > end || admin {
                        } else {
                            if n > next {
                                let mut sr = build_sequence_reset(
                                    n,
                                    true,
                                    sender_comp_id,
                                    target_comp_id,
                                );
                                sr.set_field(34, fmt_u32(next));
                                let gf = encode_frame(&sr);
                                proof {
                                    assert(sr@ =~~= stamped(
                                        MsgTypeModel::SequenceReset,
                                        sequence_reset_fields(n as int, true, snd, tgt),
                                        next as int,
                                    ));
                                    assert(gf@ =~= gap_fill_frame(
                                        n as int,
                                        next as int,
                                        snd,
                                        tgt,
                                    ));
                                }
                                out.push(gf);
                            }
                            let ghost m0 = m@;
                            let mut yv: Vec<u8> = Vec::new();
                            yv.push(89);
                            proof {
                                assert(yv@ =~= seq![89u8]);
                            }
                            m.set_field(43, yv);
                            m.set_field(122, fmt_u64(now_ms));
                            let rf = encode_frame(&m);
                            proof {
                                assert(m@ =~~= resend_model(m0, now_ms as int));
                                assert(rf@ =~= encode_spec(resend_model(m0, now_ms as int)));
                            }
                            out.push(rf);
                            next = n + 1;
                        }
                    },
                }
            },
        }
        proof {
            let post_tail = replay_from(
                fdv.skip(i as int + 1),
                next as int,
                end as int,
                now_ms as int,
                snd,
                tgt,
            );
            assert(replay_from(fdv, begin as int, end as int, now_ms as int, snd, tgt)
                =~~= out.deep_view() + post_tail);
        }
        i = i + 1;
    }
    proof {
        assert(fdv.skip(i as int) =~~= Seq::<Seq<u8>>::empty());
    }
    if next <= end {
        let mut sr = build_sequence_reset(end + 1, true, sender_comp_id, target_comp_id);
        sr.set_field(34, fmt_u32(next));
        let gf = encode_frame(&sr);
        proof {
            assert(sr@ =~~= stamped(
                MsgTypeModel::SequenceReset,
                sequence_reset_fields(end as int + 1, true, snd, tgt),
                next as int,
            ));
            assert(gf@ =~= gap_fill_frame(end as int + 1, next as int, snd, tgt));
        }
        out.push(gf);
        proof {
            assert(replay_from(
                fdv.skip(i as int),
                next as int,
                end as int,
                now_ms as int,
                snd,
                tgt,
            ) =~~= seq![gap_fill_frame(end as int + 1, next as int, snd, tgt)]);
            assert(out.deep_view() =~~= replay_from(
                fdv,
                begin as int,
                end as int,
                now_ms as int,
                snd,
                tgt,
            ));
        }
    } else {
        proof {
            assert(replay_from(
                fdv.skip(i as int),
                next as int,
                end as int,
                now_ms as int,
                snd,
                tgt,
            ) =~~= Seq::<Seq<u8>>::empty());
            assert(out.deep_view() + Seq::<Seq<u8>>::empty() =~~= out.deep_view());
        }
    }
    out
}

} // verus!
