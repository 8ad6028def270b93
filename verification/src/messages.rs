//! Typed admin messages of the session layer, with conversions to and
//! from the generic tag-value form.

use vstd::prelude::*;
use crate::digits::{is_digits, dec_val, dec_digits, fmt_u32, parse_u32_dec};
use crate::fields::{has_tag, tag_val};
use crate::protocol::{FixMessage, FixMsgType, MsgTypeModel, only_tags};

verus! {

/// A typed Logon message surface; the session layer synthesises its
/// fields itself, so this carries nothing yet.
#[derive(Debug, Clone, PartialEq, Eq, Structural)]
pub struct Logon;

/// How an order was executed.
#[derive(Debug, Clone, Copy, PartialEq, Eq, Structural)]
pub enum ExecType {
    /// The order was filled in full.
    Fill,
}

/// Where an order stands.
#[derive(Debug, Clone, Copy, PartialEq, Eq, Structural)]
pub enum OrdStatus {
    /// The order is completely filled.
    Filled,
}

/// A session-layer administrative message, by kind.
#[derive(Debug, Clone, PartialEq)]
pub enum AdminMessage {
    /// Logon (35=A).
    Logon {
        heart_bt_int_secs: Option<u32>,
        sender_comp_id: Option<Vec<u8>>,
        target_comp_id: Option<Vec<u8>>,
        encrypt_method: Option<u32>,
        reset_seq_num_flag: Option<bool>,
    },
    /// Heartbeat (35=0).
    Heartbeat { test_req_id: Option<Vec<u8>> },
    /// TestRequest (35=1).
    TestRequest { test_req_id: Vec<u8> },
    /// Logout (35=5).
    Logout { text: Option<Vec<u8>>, session_status: Option<u32> },
    /// ResendRequest (35=2).
    ResendRequest { begin_seq_no: u32, end_seq_no: u32 },
    /// SequenceReset (35=4).
    SequenceReset { gap_fill_flag: Option<bool>, new_seq_no: u32 },
}

/// The tag-`t` value of `fields` read as a decimal, when it is one.
pub open spec fn opt_u32_of(fields: Seq<(u32, Seq<u8>)>, t: u32) -> Option<u32> {
    if has_tag(fields, t) {
        let v = tag_val(fields, t);
        if v.len() > 0 && is_digits(v) && dec_val(v) <= u32::MAX {
            Some(dec_val(v) as u32)
        } else {
            None
        }
    } else {
        None
    }
}

/// The tag-`t` value of `fields` read as a `Y`/`N` flag, when present
/// and recognised.
pub open spec fn opt_flag_of(fields: Seq<(u32, Seq<u8>)>, t: u32) -> Option<bool> {
    if has_tag(fields, t) {
        let v = tag_val(fields, t);
        if v == seq![89u8] {
            Some(true)
        } else if v == seq![78u8] {
            Some(false)
        } else {
            None
        }
    } else {
        None
    }
}

/// The tag-`t` value of `fields`, when present.
pub open spec fn opt_val_of(fields: Seq<(u32, Seq<u8>)>, t: u32) -> Option<Seq<u8>> {
    if has_tag(fields, t) {
        Some(tag_val(fields, t))
    } else {
        None
    }
}

/// Reads the tag-`t` value as a decimal, `None` when absent or not one.
pub(crate) fn get_u32(msg: &FixMessage, t: u32) -> (r: Option<u32>)
    ensures
        r == opt_u32_of(msg@.fields, t),
{
    match msg.fields.get(t) {
        Some(v) => match parse_u32_dec(v.as_slice()) {
            Some(n) => Some(n),
            None => {
                proof {
                    if tag_val(msg@.fields, t).len() > 0 && is_digits(tag_val(msg@.fields, t)) {
                        crate::digits::lemma_dec_val_nonneg(tag_val(msg@.fields, t));
                    }
                }
                None
            },
        },
        None => None,
    }
}

/// Reads the tag-`t` value as a `Y`/`N` flag.
pub(crate) fn get_flag(msg: &FixMessage, t: u32) -> (r: Option<bool>)
    ensures
        r == opt_flag_of(msg@.fields, t),
{
    match msg.fields.get(t) {
        Some(v) => {
            proof {
                assert(v@ =~= tag_val(msg@.fields, t));
            }
            if v.len() == 1 {
                let b: u8 = v[0];
                proof {
                    assert(v@ =~= seq![v@[0]]);
                }
                if b == 89 {
                    assert(v@ == seq![89u8]);
                    Some(true)
                } else if b == 78 {
                    assert(v@ == seq![78u8]);
                    proof {
                        assert(v@ != seq![89u8]) by {
                            assert(v@[0] == 78);
                        }
                    }
                    Some(false)
                } else {
                    proof {
                        assert(v@ != seq![89u8] && v@ != seq![78u8]) by {
                            assert(v@[0] != 89 && v@[0] != 78);
                        }
                    }
                    None
                }
            } else {
                proof {
                    assert(v@ != seq![89u8] && v@ != seq![78u8]) by {
                        assert(v@.len() != 1);
                    }
                }
                None
            }
        },
        None => None,
    }
}

/// Reads the tag-`t` value as owned bytes.
fn get_bytes(msg: &FixMessage, t: u32) -> (r: Option<Vec<u8>>)
    ensures
        match r {
            Some(v) => opt_val_of(msg@.fields, t) == Some(v@),
            None => opt_val_of(msg@.fields, t) is None,
        },
{
    match msg.fields.get(t) {
        Some(v) => Some(vstd::slice::slice_to_vec(v.as_slice())),
        None => None,
    }
}

impl AdminMessage {
    /// The tag-35 type this admin message travels as.
    pub fn msg_type(&self) -> (r: FixMsgType)
        ensures
            (self is Logon) ==> r@ == MsgTypeModel::Logon,
            (self is Heartbeat) ==> r@ == MsgTypeModel::Heartbeat,
            (self is TestRequest) ==> r@ == MsgTypeModel::TestRequest,
            (self is Logout) ==> r@ == MsgTypeModel::Logout,
            (self is ResendRequest) ==> r@ == MsgTypeModel::ResendRequest,
            (self is SequenceReset) ==> r@ == MsgTypeModel::SequenceReset,
    {
        match self {
            AdminMessage::Logon { .. } => FixMsgType::Logon,
            AdminMessage::Heartbeat { .. } => FixMsgType::Heartbeat,
            AdminMessage::TestRequest { .. } => FixMsgType::TestRequest,
            AdminMessage::Logout { .. } => FixMsgType::Logout,
            AdminMessage::ResendRequest { .. } => FixMsgType::ResendRequest,
            AdminMessage::SequenceReset { .. } => FixMsgType::SequenceReset,
        }
    }

    /// Reads the typed admin content out of a parsed message; an
    /// unrecognised tag 35 is refused, as are TestRequest without 112,
    /// ResendRequest without numeric 7 and 16, and SequenceReset
    /// without a numeric 36.
    pub fn try_from(msg: &FixMessage) -> (r: Result<AdminMessage, String>)
        ensures
            match r {
                Ok(a) => match a {
                    AdminMessage::Logon {
                        heart_bt_int_secs,
                        sender_comp_id,
                        target_comp_id,
                        encrypt_method,
                        reset_seq_num_flag,
                    } => {
                        &&& msg@.msg_type == MsgTypeModel::Logon
                        &&& heart_bt_int_secs == opt_u32_of(msg@.fields, 108)
                        &&& (match sender_comp_id {
                            Some(v) => opt_val_of(msg@.fields, 49) == Some(v@),
                            None => opt_val_of(msg@.fields, 49) is None,
                        })
                        &&& (match target_comp_id {
                            Some(v) => opt_val_of(msg@.fields, 56) == Some(v@),
                            None => opt_val_of(msg@.fields, 56) is None,
                        })
                        &&& encrypt_method == opt_u32_of(msg@.fields, 98)
                        &&& reset_seq_num_flag == opt_flag_of(msg@.fields, 141)
                    },
                    AdminMessage::Heartbeat { test_req_id } => {
                        &&& msg@.msg_type == MsgTypeModel::Heartbeat
                        &&& (match test_req_id {
                            Some(v) => opt_val_of(msg@.fields, 112) == Some(v@),
                            None => opt_val_of(msg@.fields, 112) is None,
                        })
                    },
                    AdminMessage::TestRequest { test_req_id } => {
                        &&& msg@.msg_type == MsgTypeModel::TestRequest
                        &&& opt_val_of(msg@.fields, 112) == Some(test_req_id@)
                    },
                    AdminMessage::Logout { text, session_status } => {
                        &&& msg@.msg_type == MsgTypeModel::Logout
                        &&& (match text {
                            Some(v) => opt_val_of(msg@.fields, 58) == Some(v@),
                            None => opt_val_of(msg@.fields, 58) is None,
                        })
                        &&& session_status == opt_u32_of(msg@.fields, 1409)
                    },
                    AdminMessage::ResendRequest { begin_seq_no, end_seq_no } => {
                        &&& msg@.msg_type == MsgTypeModel::ResendRequest
                        &&& opt_u32_of(msg@.fields, 7) == Some(begin_seq_no)
                        &&& opt_u32_of(msg@.fields, 16) == Some(end_seq_no)
                    },
                    AdminMessage::SequenceReset { gap_fill_flag, new_seq_no } => {
                        &&& msg@.msg_type == MsgTypeModel::SequenceReset
                        &&& gap_fill_flag == opt_flag_of(msg@.fields, 123)
                        &&& opt_u32_of(msg@.fields, 36) == Some(new_seq_no)
                    },
                },
                Err(_) => {
                    ||| msg@.msg_type is Unknown
                    ||| (msg@.msg_type == MsgTypeModel::TestRequest && opt_val_of(
                        msg@.fields,
                        112,
                    ) is None)
                    ||| (msg@.msg_type == MsgTypeModel::ResendRequest && (opt_u32_of(
                        msg@.fields,
                        7,
                    ) is None || opt_u32_of(msg@.fields, 16) is None))
                    ||| (msg@.msg_type == MsgTypeModel::SequenceReset && opt_u32_of(
                        msg@.fields,
                        36,
                    ) is None)
                },
            },
            (r is Ok) <==> match msg@.msg_type {
                MsgTypeModel::Unknown(_) => false,
                MsgTypeModel::TestRequest => opt_val_of(msg@.fields, 112) is Some,
                MsgTypeModel::ResendRequest => opt_u32_of(msg@.fields, 7) is Some && opt_u32_of(
                    msg@.fields,
                    16,
                ) is Some,
                MsgTypeModel::SequenceReset => opt_u32_of(msg@.fields, 36) is Some,
                _ => true,
            },
    {
        match &msg.msg_type {
            FixMsgType::Logon => Ok(
                AdminMessage::Logon {
                    heart_bt_int_secs: get_u32(msg, 108),
                    sender_comp_id: get_bytes(msg, 49),
                    target_comp_id: get_bytes(msg, 56),
                    encrypt_method: get_u32(msg, 98),
                    reset_seq_num_flag: get_flag(msg, 141),
                },
            ),
            FixMsgType::Heartbeat => Ok(AdminMessage::Heartbeat { test_req_id: get_bytes(msg, 112) }),
            FixMsgType::TestRequest => match get_bytes(msg, 112) {
                Some(id) => Ok(AdminMessage::TestRequest { test_req_id: id }),
                None => Err("TestRequest missing required TestReqID(112)".to_owned()),
            },
            FixMsgType::Logout => Ok(
                AdminMessage::Logout {
                    text: get_bytes(msg, 58),
                    session_status: get_u32(msg, 1409),
                },
            ),
            FixMsgType::ResendRequest => match (get_u32(msg, 7), get_u32(msg, 16)) {
                (Some(b), Some(e)) => Ok(
                    AdminMessage::ResendRequest { begin_seq_no: b, end_seq_no: e },
                ),
                _ => Err("ResendRequest missing numeric BeginSeqNo(7) or EndSeqNo(16)".to_owned()),
            },
            FixMsgType::SequenceReset => match get_u32(msg, 36) {
                Some(n) => Ok(
                    AdminMessage::SequenceReset { gap_fill_flag: get_flag(msg, 123), new_seq_no: n },
                ),
                None => Err("SequenceReset missing numeric NewSeqNo(36)".to_owned()),
            },
            FixMsgType::Unknown(_) => Err("Unknown message type".to_owned()),
        }
    }

    /// Builds the generic tag-value message this admin content stands
    /// for, stamped with the given comp ids.
    pub fn into_fix(self, sender_comp_id: &[u8], target_comp_id: &[u8]) -> (r: FixMessage)
        ensures
            r.wf(),
            r@.begin_string == crate::protocol::fix44(),
            has_tag(r@.fields, 49) && tag_val(r@.fields, 49) == sender_comp_id@,
            has_tag(r@.fields, 56) && tag_val(r@.fields, 56) == target_comp_id@,
            (self is Logon) ==> r@.msg_type == MsgTypeModel::Logon,
            (self is Heartbeat) ==> r@.msg_type == MsgTypeModel::Heartbeat,
            (self is TestRequest) ==> r@.msg_type == MsgTypeModel::TestRequest,
            (self is Logout) ==> r@.msg_type == MsgTypeModel::Logout,
            (self is ResendRequest) ==> r@.msg_type == MsgTypeModel::ResendRequest,
            (self is SequenceReset) ==> r@.msg_type == MsgTypeModel::SequenceReset,
            match self {
                AdminMessage::Logon {
                    heart_bt_int_secs,
                    encrypt_method,
                    reset_seq_num_flag,
                    ..
                } => {
                    &&& (match heart_bt_int_secs {
                        Some(hb) => has_tag(r@.fields, 108) && tag_val(r@.fields, 108)
                            == dec_digits(hb as int),
                        None => !has_tag(r@.fields, 108),
                    })
                    &&& (match encrypt_method {
                        Some(em) => has_tag(r@.fields, 98) && tag_val(r@.fields, 98) == dec_digits(
                            em as int,
                        ),
                        None => !has_tag(r@.fields, 98),
                    })
                    &&& (match reset_seq_num_flag {
                        Some(flag) => has_tag(r@.fields, 141) && tag_val(r@.fields, 141) == (
                        if flag {
                            seq![89u8]
                        } else {
                            seq![78u8]
                        }),
                        None => !has_tag(r@.fields, 141),
                    })
                    &&& only_tags(r@.fields, set![49u32, 56u32, 98u32, 108u32, 141u32])
                },
                AdminMessage::Heartbeat { test_req_id } => {
                    &&& (match test_req_id {
                        Some(id) => has_tag(r@.fields, 112) && tag_val(r@.fields, 112) == id@,
                        None => !has_tag(r@.fields, 112),
                    })
                    &&& only_tags(r@.fields, set![49u32, 56u32, 112u32])
                },
                AdminMessage::TestRequest { test_req_id } => {
                    &&& has_tag(r@.fields, 112) && tag_val(r@.fields, 112) == test_req_id@
                    &&& only_tags(r@.fields, set![49u32, 56u32, 112u32])
                },
                AdminMessage::Logout { text, session_status } => {
                    &&& (match text {
                        Some(tx) => has_tag(r@.fields, 58) && tag_val(r@.fields, 58) == tx@,
                        None => !has_tag(r@.fields, 58),
                    })
                    &&& (match session_status {
                        Some(st) => has_tag(r@.fields, 1409) && tag_val(r@.fields, 1409)
                            == dec_digits(st as int),
                        None => !has_tag(r@.fields, 1409),
                    })
                    &&& only_tags(r@.fields, set![49u32, 56u32, 58u32, 1409u32])
                },
                AdminMessage::ResendRequest { begin_seq_no, end_seq_no } => {
                    &&& has_tag(r@.fields, 7) && tag_val(r@.fields, 7) == dec_digits(
                        begin_seq_no as int,
                    )
                    &&& has_tag(r@.fields, 16) && tag_val(r@.fields, 16) == dec_digits(
                        end_seq_no as int,
                    )
                    &&& only_tags(r@.fields, set![7u32, 16u32, 49u32, 56u32])
                },
                AdminMessage::SequenceReset { gap_fill_flag, new_seq_no } => {
                    &&& has_tag(r@.fields, 36) && tag_val(r@.fields, 36) == dec_digits(
                        new_seq_no as int,
                    )
                    &&& (match gap_fill_flag {
                        Some(g) => has_tag(r@.fields, 123) && tag_val(r@.fields, 123) == (if g {
                            seq![89u8]
                        } else {
                            seq![78u8]
                        }),
                        None => !has_tag(r@.fields, 123),
                    })
                    &&& only_tags(r@.fields, set![36u32, 49u32, 56u32, 123u32])
                },
            },
    {
        let mut msg: FixMessage = match self {
            AdminMessage::Logon { heart_bt_int_secs, encrypt_method, reset_seq_num_flag, .. } => {
                let mut m = FixMessage::new(FixMsgType::Logon);
                match heart_bt_int_secs {
                    Some(hb) => {
                        m.set_field(108, fmt_u32(hb));
                    },
                    None => {},
                }
                match encrypt_method {
                    Some(em) => {
                        m.set_field(98, fmt_u32(em));
                    },
                    None => {},
                }
                match reset_seq_num_flag {
                    Some(flag) => {
                        m.set_field(141, flag_bytes(flag));
                    },
                    None => {},
                }
                m
            },
            AdminMessage::Heartbeat { test_req_id } => {
                let mut m = FixMessage::new(FixMsgType::Heartbeat);
                match test_req_id {
                    Some(id) => {
                        m.set_field(112, id);
                    },
                    None => {},
                }
                m
            },
            AdminMessage::TestRequest { test_req_id } => {
                let mut m = FixMessage::new(FixMsgType::TestRequest);
                m.set_field(112, test_req_id);
                m
            },
            AdminMessage::Logout { text, session_status } => {
                let mut m = FixMessage::new(FixMsgType::Logout);
                match text {
                    Some(tx) => {
                        m.set_field(58, tx);
                    },
                    None => {},
                }
                match session_status {
                    Some(st) => {
                        m.set_field(1409, fmt_u32(st));
                    },
                    None => {},
                }
                m
            },
            AdminMessage::ResendRequest { begin_seq_no, end_seq_no } => {
                let mut m = FixMessage::new(FixMsgType::ResendRequest);
                m.set_field(7, fmt_u32(begin_seq_no));
                m.set_field(16, fmt_u32(end_seq_no));
                m
            },
            AdminMessage::SequenceReset { gap_fill_flag, new_seq_no } => {
                let mut m = FixMessage::new(FixMsgType::SequenceReset);
                match gap_fill_flag {
                    Some(g) => {
                        m.set_field(123, flag_bytes(g));
                    },
                    None => {},
                }
                m.set_field(36, fmt_u32(new_seq_no));
                m
            },
        };
        msg.set_field(49, vstd::slice::slice_to_vec(sender_comp_id));
        msg.set_field(56, vstd::slice::slice_to_vec(target_comp_id));
        msg
    }
}

/// The wire form of a `Y`/`N` flag.
fn flag_bytes(b: bool) -> (r: Vec<u8>)
    ensures
        b ==> r@ == seq![89u8],
        !b ==> r@ == seq![78u8],
{
    let mut v: Vec<u8> = Vec::new();
    if b {
        v.push(89);
        assert(v@ =~= seq![89u8]);
    } else {
        v.push(78);
        assert(v@ =~= seq![78u8]);
    }
    v
}

} // verus!
