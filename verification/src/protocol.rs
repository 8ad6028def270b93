//! The FIX 4.4 wire codec: message types, checksum, encoding, decoding,
//! and frame extraction, with the round-trip laws relating them.

use vstd::prelude::*;
use crate::digits::{
    is_digit, is_digits, dec_val, dec_digits, pad3, fmt_u32, fmt_u64, fmt_pad3, parse_u32_dec,
    parse_usize_dec, lemma_dec_digits_are_digits, lemma_dec_val_of_digits, lemma_dec_val_nonneg,
    lemma_pad3,
};
use crate::fields::{FieldMap, has_tag, tag_val, tags_sorted, set_entry, ins_ix};
use crate::scan::{
    find_ix, find2_ix, split_at_sep, join_with_sep, segs_clean, split_on, find_byte_from,
    find_pat2_from, lemma_find2_ix,
    lemma_find_ix, lemma_split_shape, lemma_split_join, lemma_join_push, lemma_join_concat,
    lemma_join_split, lemma_seg_in_join,
};

verus! {

/// The FIX field delimiter, byte 0x01.
pub const SOH: u8 = 1;

/// FIX message types, the values of tag 35.
#[derive(Debug, Clone, PartialEq, Eq)]
pub enum FixMsgType {
    /// Logon (35=A): opens a session.
    Logon,
    /// Heartbeat (35=0): keeps the session alive.
    Heartbeat,
    /// TestRequest (35=1): demands a heartbeat in reply.
    TestRequest,
    /// Logout (35=5): closes the session.
    Logout,
    /// ResendRequest (35=2): asks for retransmission of a range.
    ResendRequest,
    /// SequenceReset (35=4): moves the expected sequence number.
    SequenceReset,
    /// Any other value of tag 35, kept verbatim.
    Unknown(Vec<u8>),
}

/// Mathematical image of a message type.
pub enum MsgTypeModel {
    Logon,
    Heartbeat,
    TestRequest,
    Logout,
    ResendRequest,
    SequenceReset,
    Unknown(Seq<u8>),
}

impl View for FixMsgType {
    type V = MsgTypeModel;

    open spec fn view(&self) -> MsgTypeModel {
        match self {
            FixMsgType::Logon => MsgTypeModel::Logon,
            FixMsgType::Heartbeat => MsgTypeModel::Heartbeat,
            FixMsgType::TestRequest => MsgTypeModel::TestRequest,
            FixMsgType::Logout => MsgTypeModel::Logout,
            FixMsgType::ResendRequest => MsgTypeModel::ResendRequest,
            FixMsgType::SequenceReset => MsgTypeModel::SequenceReset,
            FixMsgType::Unknown(s) => MsgTypeModel::Unknown(s@),
        }
    }
}

/// The bytes that stand for `mt` in tag 35.
pub open spec fn code_of(mt: MsgTypeModel) -> Seq<u8> {
    match mt {
        MsgTypeModel::Logon => seq![65u8],
        MsgTypeModel::Heartbeat => seq![48u8],
        MsgTypeModel::TestRequest => seq![49u8],
        MsgTypeModel::Logout => seq![53u8],
        MsgTypeModel::ResendRequest => seq![50u8],
        MsgTypeModel::SequenceReset => seq![52u8],
        MsgTypeModel::Unknown(s) => s,
    }
}

/// The message type a tag-35 value stands for.
pub open spec fn type_of_code(c: Seq<u8>) -> MsgTypeModel {
    if c == seq![65u8] {
        MsgTypeModel::Logon
    } else if c == seq![48u8] {
        MsgTypeModel::Heartbeat
    } else if c == seq![49u8] {
        MsgTypeModel::TestRequest
    } else if c == seq![53u8] {
        MsgTypeModel::Logout
    } else if c == seq![50u8] {
        MsgTypeModel::ResendRequest
    } else if c == seq![52u8] {
        MsgTypeModel::SequenceReset
    } else {
        MsgTypeModel::Unknown(c)
    }
}

/// The bytes of "FIX.4.4".
pub open spec fn fix44() -> Seq<u8> {
    seq![70u8, 73u8, 88u8, 46u8, 52u8, 46u8, 52u8]
}

/// A parsed FIX message: standard header data plus the remaining fields
/// (tags 8, 9, 10 and 35 are held apart, never in `fields`).
#[derive(Debug, Clone, PartialEq)]
pub struct FixMessage {
    /// The protocol identifier of tag 8.
    pub begin_string: Vec<u8>,
    /// The byte count of tag 9, as computed or validated.
    pub body_length: usize,
    /// The message type of tag 35.
    pub msg_type: FixMsgType,
    /// Every remaining field, keyed by tag.
    pub fields: FieldMap,
}

/// Mathematical image of a parsed message.
pub struct MessageModel {
    pub begin_string: Seq<u8>,
    pub body_length: int,
    pub msg_type: MsgTypeModel,
    pub fields: Seq<(u32, Seq<u8>)>,
}

impl View for FixMessage {
    type V = MessageModel;

    open spec fn view(&self) -> MessageModel {
        MessageModel {
            begin_string: self.begin_string@,
            body_length: self.body_length as int,
            msg_type: self.msg_type@,
            fields: self.fields@,
        }
    }
}

impl FixMessage {
    /// The representation invariant: fields sorted by tag.
    pub open spec fn wf(self) -> bool {
        tags_sorted(self@.fields)
    }

    /// A message of the given type with no fields yet.
    pub fn new(msg_type: FixMsgType) -> (r: FixMessage)
        ensures
            r@.begin_string == fix44(),
            r@.body_length == 0,
            r@.msg_type == msg_type@,
            r@.fields =~= Seq::<(u32, Seq<u8>)>::empty(),
            r.wf(),
    {
        let mut bs: Vec<u8> = Vec::new();
        bs.push(70);
        bs.push(73);
        bs.push(88);
        bs.push(46);
        bs.push(52);
        bs.push(46);
        bs.push(52);
        assert(bs@ =~= fix44());
        FixMessage { begin_string: bs, body_length: 0, msg_type, fields: FieldMap::new() }
    }

    /// Stores `value` under `tag`, replacing any previous value.
    pub fn set_field(&mut self, tag: u32, value: Vec<u8>)
        requires
            old(self).wf(),
        ensures
            final(self).wf(),
            final(self)@.fields =~= set_entry(old(self)@.fields, tag, value@),
            final(self)@.begin_string == old(self)@.begin_string,
            final(self)@.body_length == old(self)@.body_length,
            final(self)@.msg_type == old(self)@.msg_type,
            has_tag(final(self)@.fields, tag),
            tag_val(final(self)@.fields, tag) == value@,
            forall|t: u32|
                t != tag ==> (has_tag(final(self)@.fields, t) <==> has_tag(old(self)@.fields, t)),
            forall|t: u32|
                t != tag && has_tag(old(self)@.fields, t) ==> tag_val(final(self)@.fields, t)
                    == tag_val(old(self)@.fields, t),
    {
        self.fields.set(tag, value);
    }
}

/// The short code of a message type, `"?"` for an unrecognised one.
pub fn msg_type_as_str(mt: &FixMsgType) -> (r: &'static str)
    ensures
        r@ == match mt@ {
            MsgTypeModel::Logon => "A"@,
            MsgTypeModel::Heartbeat => "0"@,
            MsgTypeModel::TestRequest => "1"@,
            MsgTypeModel::Logout => "5"@,
            MsgTypeModel::ResendRequest => "2"@,
            MsgTypeModel::SequenceReset => "4"@,
            MsgTypeModel::Unknown(_) => "?"@,
        },
{
    match mt {
        FixMsgType::Logon => "A",
        FixMsgType::Heartbeat => "0",
        FixMsgType::TestRequest => "1",
        FixMsgType::Logout => "5",
        FixMsgType::ResendRequest => "2",
        FixMsgType::SequenceReset => "4",
        FixMsgType::Unknown(_) => "?",
    }
}

/// The tag-35 bytes of a message type.
pub fn msg_type_code(mt: &FixMsgType) -> (r: Vec<u8>)
    ensures
        r@ == code_of(mt@),
{
    match mt {
        FixMsgType::Logon => {
            let mut v: Vec<u8> = Vec::new();
            v.push(65);
            assert(v@ =~= code_of(mt@));
            v
        },
        FixMsgType::Heartbeat => {
            let mut v: Vec<u8> = Vec::new();
            v.push(48);
            assert(v@ =~= code_of(mt@));
            v
        },
        FixMsgType::TestRequest => {
            let mut v: Vec<u8> = Vec::new();
            v.push(49);
            assert(v@ =~= code_of(mt@));
            v
        },
        FixMsgType::Logout => {
            let mut v: Vec<u8> = Vec::new();
            v.push(53);
            assert(v@ =~= code_of(mt@));
            v
        },
        FixMsgType::ResendRequest => {
            let mut v: Vec<u8> = Vec::new();
            v.push(50);
            assert(v@ =~= code_of(mt@));
            v
        },
        FixMsgType::SequenceReset => {
            let mut v: Vec<u8> = Vec::new();
            v.push(52);
            assert(v@ =~= code_of(mt@));
            v
        },
        FixMsgType::Unknown(s) => vstd::slice::slice_to_vec(s.as_slice()),
    }
}

/// Reads a tag-35 value into a message type.
pub fn parse_msg_type(s: &[u8]) -> (r: FixMsgType)
    ensures
        r@ == type_of_code(s@),
{
    if s.len() == 1 {
        let b: u8 = s[0];
        proof {
            assert(s@ =~= seq![s@[0]]);
        }
        if b == 65 {
            assert(s@ == seq![65u8]);
            return FixMsgType::Logon;
        } else if b == 48 {
            assert(s@ == seq![48u8]);
            return FixMsgType::Heartbeat;
        } else if b == 49 {
            assert(s@ == seq![49u8]);
            return FixMsgType::TestRequest;
        } else if b == 53 {
            assert(s@ == seq![53u8]);
            return FixMsgType::Logout;
        } else if b == 50 {
            assert(s@ == seq![50u8]);
            return FixMsgType::ResendRequest;
        } else if b == 52 {
            assert(s@ == seq![52u8]);
            return FixMsgType::SequenceReset;
        } else {
            proof {
                assert(s@ != seq![65u8] && s@ != seq![48u8] && s@ != seq![49u8] && s@
                    != seq![53u8] && s@ != seq![50u8] && s@ != seq![52u8]) by {
                    assert(s@[0] != 65 && s@[0] != 48 && s@[0] != 49 && s@[0] != 53 && s@[0] != 50
                        && s@[0] != 52);
                }
            }
            return FixMsgType::Unknown(vstd::slice::slice_to_vec(s));
        }
    }
    proof {
        assert(s@.len() != 1);
        assert(s@ != seq![65u8] && s@ != seq![48u8] && s@ != seq![49u8] && s@ != seq![53u8] && s@
            != seq![50u8] && s@ != seq![52u8]);
    }
    FixMsgType::Unknown(vstd::slice::slice_to_vec(s))
}

/// Sum of the bytes of `s`.
pub open spec fn byte_sum(s: Seq<u8>) -> int
    decreases s.len(),
{
    if s.len() == 0 {
        0
    } else {
        byte_sum(s.drop_last()) + s.last()
    }
}

pub proof fn lemma_byte_sum_nonneg(s: Seq<u8>)
    ensures
        byte_sum(s) >= 0,
    decreases s.len(),
{
    if s.len() > 0 {
        lemma_byte_sum_nonneg(s.drop_last());
    }
}

/// The byte at position `i` extends the sum of the first `i` bytes.
proof fn lemma_byte_sum_step(s: Seq<u8>, i: int)
    requires
        0 <= i < s.len(),
    ensures
        byte_sum(s.take(i + 1)) == byte_sum(s.take(i)) + s[i],
{
    assert(s.take(i + 1).drop_last() =~= s.take(i));
    assert(s.take(i + 1).last() == s[i]);
}

/// The FIX checksum: the byte sum modulo 256.
pub fn compute_checksum(bytes: &[u8]) -> (r: u8)
    ensures
        r as int == byte_sum(bytes@) % 256,
{
    let mut acc: u32 = 0;
    let mut i: usize = 0;
    proof {
        assert(bytes@.take(0) =~= Seq::<u8>::empty());
    }
    while i < bytes.len()
        invariant
            0 <= i <= bytes@.len(),
            acc < 256,
            acc as int == byte_sum(bytes@.take(i as int)) % 256,
        decreases bytes@.len() - i,
    {
        let b: u8 = bytes[i];
        proof {
            lemma_byte_sum_step(bytes@, i as int);
            lemma_byte_sum_nonneg(bytes@.take(i as int));
            vstd::arithmetic::div_mod::lemma_add_mod_noop(
                byte_sum(bytes@.take(i as int)),
                b as int,
                256,
            );
            assert((b as int) % 256 == b as int);
        }
        acc = (acc + b as u32) % 256;
        i = i + 1;
    }
    proof {
        assert(bytes@.take(i as int) =~= bytes@);
    }
    acc as u8
}

/// The wire bytes of one field: `tag=value`.
pub open spec fn field_seg(e: (u32, Seq<u8>)) -> Seq<u8> {
    dec_digits(e.0 as int) + seq![61u8] + e.1
}

/// The wire bytes of each field, in entry order.
pub open spec fn field_segs_of(entries: Seq<(u32, Seq<u8>)>) -> Seq<Seq<u8>> {
    entries.map_values(|e: (u32, Seq<u8>)| field_seg(e))
}

/// The wire segments of the message body: the tag-35 field, then every
/// other field in entry order.
pub open spec fn body_segs(m: MessageModel) -> Seq<Seq<u8>> {
    seq![seq![51u8, 53u8, 61u8] + code_of(m.msg_type)] + field_segs_of(m.fields)
}

/// Bytes taken on the wire by these segments, one delimiter each.
pub open spec fn segs_wire_len(segs: Seq<Seq<u8>>) -> int
    decreases segs.len(),
{
    if segs.len() == 0 {
        0
    } else {
        segs_wire_len(segs.drop_last()) + segs.last().len() + 1
    }
}

/// The declared value of tag 9: the byte count of the body.
pub open spec fn body_len_spec(m: MessageModel) -> int {
    segs_wire_len(body_segs(m))
}

/// The wire segments before the trailer: tag 8, tag 9, then the body.
pub open spec fn pre_segs(m: MessageModel) -> Seq<Seq<u8>> {
    seq![seq![56u8, 61u8] + fix44(), seq![57u8, 61u8] + dec_digits(body_len_spec(m))] + body_segs(
        m,
    )
}

/// Every byte up to and including the delimiter before the trailer.
pub open spec fn pre_bytes(m: MessageModel) -> Seq<u8> {
    join_with_sep(pre_segs(m), SOH) + seq![SOH]
}

/// The checksum this message carries in tag 10.
pub open spec fn checksum_spec(m: MessageModel) -> int {
    byte_sum(pre_bytes(m)) % 256
}

/// The complete wire image of a message.
pub open spec fn encode_spec(m: MessageModel) -> Seq<u8> {
    pre_bytes(m) + (seq![49u8, 48u8, 61u8] + pad3(checksum_spec(m))) + seq![SOH]
}

/// Appends the wire image of `msg` to `out`.
pub fn encode_to_writer(msg: &FixMessage, out: &mut Vec<u8>)
    requires
        msg.wf(),
    ensures
        final(out)@ == old(out)@ + encode_spec(msg@),
{
    let mut frame = encode_frame(msg);
    let ghost pre = out@;
    out.append(&mut frame);
    assert(out@ == pre + encode_spec(msg@));
}

/// The wire image of `msg` as a fresh vector.
pub fn encode_frame(msg: &FixMessage) -> (r: Vec<u8>)
    requires
        msg.wf(),
    ensures
        r@ == encode_spec(msg@),
{
    let ghost m = msg@;
    let ghost bsegs = body_segs(m);

    // body: the tag-35 field, then each field, each ending in SOH
    let mut body: Vec<u8> = Vec::new();
    body.push(51);
    body.push(53);
    body.push(61);
    let mut code = msg_type_code(&msg.msg_type);
    body.append(&mut code);
    body.push(SOH);
    proof {
        assert(bsegs[0] =~= seq![51u8, 53u8, 61u8] + code_of(m.msg_type));
        assert(bsegs.take(1) =~~= seq![bsegs[0]]);
        assert(join_with_sep(bsegs.take(1), SOH) =~= bsegs[0]);
        assert(body@ =~= join_with_sep(bsegs.take(1), SOH) + seq![SOH]);
        assert(bsegs.take(1).drop_last() =~~= Seq::<Seq<u8>>::empty());
        assert(segs_wire_len(Seq::<Seq<u8>>::empty()) == 0);
        assert(bsegs.take(1).last() == bsegs[0]);
        assert(segs_wire_len(bsegs.take(1)) == bsegs[0].len() + 1);
        assert(body@.len() == segs_wire_len(bsegs.take(1)));
    }
    let n = msg.fields.len();
    let mut k: usize = 0;
    while k < n
        invariant
            msg.wf(),
            m == msg@,
            bsegs == body_segs(m),
            n == m.fields.len(),
            0 <= k <= n,
            bsegs.len() == n + 1,
            body@ == join_with_sep(bsegs.take(k + 1), SOH) + seq![SOH],
            body@.len() == segs_wire_len(bsegs.take(k + 1)),
        decreases n - k,
    {
        let ghost pre_body = body@;
        let e = msg.fields.entry_at(k);
        let mut tagtxt = fmt_u32(e.0);
        body.append(&mut tagtxt);
        body.push(61);
        let mut valcopy = vstd::slice::slice_to_vec(e.1.as_slice());
        body.append(&mut valcopy);
        body.push(SOH);
        proof {
            let j = k as int + 1;
            assert(bsegs[j] =~= field_seg(m.fields[k as int]));
            assert(bsegs.take(j + 1) =~~= bsegs.take(j).push(bsegs[j]));
            lemma_join_push(bsegs.take(j), bsegs[j], SOH);
            assert(body@ =~= pre_body + dec_digits(m.fields[k as int].0 as int) + seq![61u8]
                + m.fields[k as int].1 + seq![SOH]);
            assert(join_with_sep(bsegs.take(j + 1), SOH) =~= join_with_sep(bsegs.take(j), SOH)
                + seq![SOH] + bsegs[j]);
            assert(body@ =~= join_with_sep(bsegs.take(j + 1), SOH) + seq![SOH]);
            assert(bsegs.take(j + 1).drop_last() =~~= bsegs.take(j));
            assert(segs_wire_len(bsegs.take(j + 1)) == segs_wire_len(bsegs.take(j))
                + bsegs[j].len() + 1);
        }
        k = k + 1;
    }
    proof {
        assert(bsegs.take(n as int + 1) =~~= bsegs);
        assert(body@ == join_with_sep(bsegs, SOH) + seq![SOH]);
        assert(body@.len() == body_len_spec(m));
    }
    let bl = body.len();

    // header: tag 8 and tag 9
    let mut out: Vec<u8> = Vec::new();
    out.push(56);
    out.push(61);
    out.push(70);
    out.push(73);
    out.push(88);
    out.push(46);
    out.push(52);
    out.push(46);
    out.push(52);
    out.push(SOH);
    out.push(57);
    out.push(61);
    let mut bltxt = fmt_u64(bl as u64);
    out.append(&mut bltxt);
    out.push(SOH);
    let ghost seg8 = seq![56u8, 61u8] + fix44();
    let ghost seg9 = seq![57u8, 61u8] + dec_digits(body_len_spec(m));
    proof {
        assert(out@ =~= seg8 + seq![SOH] + seg9 + seq![SOH]);
    }
    let ghost pre_head = out@;
    out.append(&mut body);

    proof {
        let hsegs = seq![seg8, seg9];
        lemma_join_concat(hsegs, bsegs, SOH);
        assert(hsegs.skip(1) =~~= seq![seg9]);
        assert(join_with_sep(hsegs.skip(1), SOH) =~= seg9);
        assert(join_with_sep(hsegs, SOH) =~= seg8 + seq![SOH] + seg9);
        assert(pre_segs(m) =~~= hsegs + bsegs);
        assert(out@ =~= join_with_sep(hsegs, SOH) + seq![SOH] + join_with_sep(bsegs, SOH)
            + seq![SOH]);
        assert(join_with_sep(hsegs + bsegs, SOH) =~= join_with_sep(hsegs, SOH) + seq![SOH]
            + join_with_sep(bsegs, SOH));
        assert(out@ =~= join_with_sep(pre_segs(m), SOH) + seq![SOH]);
        assert(out@ == pre_bytes(m));
    }
    // trailer: tag 10 carries the checksum over everything so far
    let cs = compute_checksum(out.as_slice());
    proof {
        lemma_byte_sum_nonneg(out@);
        assert(cs as int == checksum_spec(m));
    }
    out.push(49);
    out.push(48);
    out.push(61);
    let mut cstxt = fmt_pad3(cs);
    out.append(&mut cstxt);
    out.push(SOH);
    proof {
        assert(out@ =~= pre_bytes(m) + (seq![49u8, 48u8, 61u8] + pad3(checksum_spec(m)))
            + seq![SOH]);
    }
    out
}

/// Why a byte string is not a FIX message.
#[derive(Debug, Clone, Copy, PartialEq, Eq, Structural)]
pub enum DecodeError {
    /// The input does not end in the delimiter.
    NotSohTerminated,
    /// The final field does not carry tag 10.
    MissingTrailer,
    /// The tag-10 value is not a decimal in 0 to 255.
    BadChecksumFormat,
    /// The declared and computed checksums differ.
    ChecksumMismatch { expected: u8, actual: u8 },
    /// Tag 8, 9 or 35 is absent or out of place.
    MissingHeader { tag: u32 },
    /// The tag-9 value is not a decimal the machine can hold.
    BadBodyLengthFormat,
    /// The declared and computed body lengths differ.
    BodyLengthMismatch { declared: usize, computed: usize },
    /// A field has no `=` between tag and value.
    MalformedField,
    /// A field's tag is not a decimal that fits a tag.
    NonNumericTag,
    /// Two fields carry one tag, or a field repeats a header tag.
    DuplicateTag,
}

/// Reading one `tag=value` field.
pub open spec fn parse_field_spec(seg: Seq<u8>) -> Result<(u32, Seq<u8>), DecodeError> {
    let e = find_ix(seg, 61);
    if e == seg.len() {
        Err(DecodeError::MalformedField)
    } else {
        let tagtxt = seg.take(e);
        if tagtxt.len() > 0 && is_digits(tagtxt) && dec_val(tagtxt) <= u32::MAX {
            Ok((dec_val(tagtxt) as u32, seg.skip(e + 1)))
        } else {
            Err(DecodeError::NonNumericTag)
        }
    }
}

/// Reading a run of fields left to right into a sorted entry sequence,
/// rejecting any tag seen twice or reserved for the header or trailer.
pub open spec fn parse_fields_spec(segs: Seq<Seq<u8>>) -> Result<
    Seq<(u32, Seq<u8>)>,
    DecodeError,
>
    decreases segs.len(),
{
    if segs.len() == 0 {
        Ok(Seq::<(u32, Seq<u8>)>::empty())
    } else {
        match parse_fields_spec(segs.drop_last()) {
            Err(e) => Err(e),
            Ok(entries) => match parse_field_spec(segs.last()) {
                Err(e) => Err(e),
                Ok(tv) => if tv.0 == 8 || tv.0 == 9 || tv.0 == 10 || tv.0 == 35 || has_tag(
                    entries,
                    tv.0,
                ) {
                    Err(DecodeError::DuplicateTag)
                } else {
                    Ok(set_entry(entries, tv.0, tv.1))
                },
            },
        }
    }
}

/// An error while reading some prefix of the fields is the error of the
/// whole run.
pub proof fn lemma_parse_fields_prefix_err(segs: Seq<Seq<u8>>, j: int, e: DecodeError)
    requires
        0 <= j <= segs.len(),
        parse_fields_spec(segs.take(j)) == Err::<Seq<(u32, Seq<u8>)>, DecodeError>(e),
    ensures
        parse_fields_spec(segs) == Err::<Seq<(u32, Seq<u8>)>, DecodeError>(e),
    decreases segs.len() - j,
{
    if j == segs.len() {
        assert(segs.take(j) =~~= segs);
    } else {
        assert(segs.take(j + 1).drop_last() =~~= segs.take(j));
        lemma_parse_fields_prefix_err(segs, j + 1, e);
    }
}

/// What a FIX byte string means: the parsed message, or the first
/// reason it is rejected.  The checks run in this order: delimiter,
/// trailer shape, checksum format, checksum value, the three header
/// fields in position, body-length format and value, then every
/// remaining field.
pub open spec fn decode_spec(b: Seq<u8>) -> Result<MessageModel, DecodeError> {
    if b.len() == 0 || b.last() != SOH {
        Err(DecodeError::NotSohTerminated)
    } else {
        let segs = split_at_sep(b.drop_last(), SOH);
        let trailer = segs.last();
        if !(trailer.len() >= 3 && trailer[0] == 49 && trailer[1] == 48 && trailer[2] == 61) {
            Err(DecodeError::MissingTrailer)
        } else {
            let csd = trailer.skip(3);
            if !(csd.len() > 0 && is_digits(csd) && dec_val(csd) <= 255) {
                Err(DecodeError::BadChecksumFormat)
            } else {
                let expected = dec_val(csd);
                let actual = byte_sum(b.take(b.len() - trailer.len() - 1)) % 256;
                if actual != expected {
                    Err(DecodeError::ChecksumMismatch {
                        expected: expected as u8,
                        actual: actual as u8,
                    })
                } else {
                    let fsegs = segs.drop_last();
                    if !(fsegs.len() >= 1 && fsegs[0].len() >= 2 && fsegs[0][0] == 56
                        && fsegs[0][1] == 61) {
                        Err(DecodeError::MissingHeader { tag: 8 })
                    } else if !(fsegs.len() >= 2 && fsegs[1].len() >= 2 && fsegs[1][0] == 57
                        && fsegs[1][1] == 61) {
                        Err(DecodeError::MissingHeader { tag: 9 })
                    } else if !(fsegs.len() >= 3 && fsegs[2].len() >= 3 && fsegs[2][0] == 51
                        && fsegs[2][1] == 53 && fsegs[2][2] == 61) {
                        Err(DecodeError::MissingHeader { tag: 35 })
                    } else {
                        let blv = fsegs[1].skip(2);
                        if !(blv.len() > 0 && is_digits(blv) && dec_val(blv) <= usize::MAX) {
                            Err(DecodeError::BadBodyLengthFormat)
                        } else {
                            let declared = dec_val(blv);
                            let computed = segs_wire_len(fsegs.skip(2));
                            if computed != declared {
                                Err(DecodeError::BodyLengthMismatch {
                                    declared: declared as usize,
                                    computed: computed as usize,
                                })
                            } else {
                                match parse_fields_spec(fsegs.skip(3)) {
                                    Err(e) => Err(e),
                                    Ok(entries) => Ok(
                                        (MessageModel {
                                            begin_string: fsegs[0].skip(2),
                                            body_length: declared,
                                            msg_type: type_of_code(fsegs[2].skip(3)),
                                            fields: entries,
                                        }),
                                    ),
                                }
                            }
                        }
                    }
                }
            }
        }
    }
}

pub proof fn lemma_wire_len_nonneg(segs: Seq<Seq<u8>>)
    ensures
        segs_wire_len(segs) >= segs.len(),
    decreases segs.len(),
{
    if segs.len() > 0 {
        lemma_wire_len_nonneg(segs.drop_last());
    }
}

/// Wire length splits over concatenation.
pub proof fn lemma_wire_len_concat(a: Seq<Seq<u8>>, b: Seq<Seq<u8>>)
    ensures
        segs_wire_len(a + b) == segs_wire_len(a) + segs_wire_len(b),
    decreases b.len(),
{
    if b.len() == 0 {
        assert(a + b =~~= a);
    } else {
        assert((a + b).drop_last() =~~= a + b.drop_last());
        assert((a + b).last() == b.last());
        lemma_wire_len_concat(a, b.drop_last());
    }
}

/// The wire length of a non-empty run is one more than the length of
/// its join.
pub proof fn lemma_wire_len_join(segs: Seq<Seq<u8>>, sep: u8)
    requires
        segs.len() >= 1,
    ensures
        segs_wire_len(segs) == join_with_sep(segs, sep).len() + 1,
    decreases segs.len(),
{
    if segs.len() == 1 {
        assert(segs.drop_last() =~~= Seq::<Seq<u8>>::empty());
        assert(segs_wire_len(Seq::<Seq<u8>>::empty()) == 0);
        assert(join_with_sep(segs, sep) == segs[0]);
    } else {
        let dl = segs.drop_last();
        lemma_wire_len_join(dl, sep);
        assert(segs =~~= dl.push(segs.last()));
        lemma_join_push(dl, segs.last(), sep);
        assert(join_with_sep(segs, sep) =~= join_with_sep(dl, sep) + seq![sep] + segs.last());
    }
}

/// Reads a complete FIX message, validating delimiter, checksum,
/// header order, body length, and field syntax, exactly as
/// `decode_spec` states.
#[verifier::loop_isolation(false)]
pub fn decode(buf: &[u8]) -> (r: Result<FixMessage, DecodeError>)
    ensures
        match r {
            Ok(m) => decode_spec(buf@) == Ok::<MessageModel, DecodeError>(m@) && m.wf(),
            Err(e) => decode_spec(buf@) == Err::<MessageModel, DecodeError>(e),
        },
{
    let ghost b = buf@;
    if buf.len() == 0 {
        return Err(DecodeError::NotSohTerminated);
    }
    let last: u8 = buf[buf.len() - 1];
    if last != SOH {
        return Err(DecodeError::NotSohTerminated);
    }
    let stripped = vstd::slice::slice_subrange(buf, 0, buf.len() - 1);
    proof {
        assert(stripped@ =~= b.drop_last());
    }
    let segs: Vec<Vec<u8>> = split_on(stripped, SOH);
    let ghost gsegs = split_at_sep(b.drop_last(), SOH);
    proof {
        lemma_split_shape(b.drop_last(), SOH);
        assert(segs.deep_view() =~~= gsegs);
        assert(segs@.len() == gsegs.len());
        assert forall|k: int| 0 <= k < segs@.len() implies (#[trigger] segs@[k])@ =~= gsegs[k] by {
            assert(segs.deep_view()[k] =~~= segs@[k].deep_view());
            assert(segs@[k].deep_view() =~~= segs@[k]@);
        }
    }
    let ti = segs.len() - 1;
    let ghost trailer = gsegs.last();
    let tlen = segs[ti].len();
    if !(tlen >= 3 && segs[ti][0] == 49 && segs[ti][1] == 48 && segs[ti][2] == 61) {
        return Err(DecodeError::MissingTrailer);
    }
    let csd = vstd::slice::slice_subrange(segs[ti].as_slice(), 3, tlen);
    proof {
        assert(csd@ =~= trailer.skip(3));
    }
    let expected: u8 = match parse_u32_dec(csd) {
        Some(v) => if v <= 255 {
            v as u8
        } else {
            return Err(DecodeError::BadChecksumFormat);
        },
        None => {
            proof {
                if csd@.len() > 0 && is_digits(csd@) {
                    lemma_dec_val_nonneg(csd@);
                }
            }
            return Err(DecodeError::BadChecksumFormat);
        },
    };
    proof {
        lemma_join_split(b.drop_last(), SOH);
        lemma_seg_in_join(gsegs, SOH, gsegs.len() - 1);
        assert(trailer.len() <= b.len() - 1);
    }
    let region = vstd::slice::slice_subrange(buf, 0, buf.len() - 1 - tlen);
    proof {
        assert(region@ =~= b.take(b.len() - trailer.len() - 1));
    }
    let actual = compute_checksum(region);
    if actual != expected {
        return Err(DecodeError::ChecksumMismatch { expected, actual });
    }
    let ghost fsegs = gsegs.drop_last();
    proof {
        assert(forall|k: int| 0 <= k < fsegs.len() ==> #[trigger] fsegs[k] == gsegs[k]);
    }
    let nf = ti;
    if !(nf >= 1 && segs[0].len() >= 2 && segs[0][0] == 56 && segs[0][1] == 61) {
        return Err(DecodeError::MissingHeader { tag: 8 });
    }
    if !(nf >= 2 && segs[1].len() >= 2 && segs[1][0] == 57 && segs[1][1] == 61) {
        return Err(DecodeError::MissingHeader { tag: 9 });
    }
    if !(nf >= 3 && segs[2].len() >= 3 && segs[2][0] == 51 && segs[2][1] == 53 && segs[2][2]
        == 61) {
        return Err(DecodeError::MissingHeader { tag: 35 });
    }
    let blslice = vstd::slice::slice_subrange(segs[1].as_slice(), 2, segs[1].len());
    proof {
        assert(blslice@ =~= fsegs[1].skip(2));
    }
    let declared: usize = match parse_usize_dec(blslice) {
        Some(v) => v,
        None => {
            return Err(DecodeError::BadBodyLengthFormat);
        },
    };
    // recompute the body length from the fields after tag 9
    proof {
        lemma_wire_len_join(gsegs, SOH);
        assert(segs_wire_len(gsegs) == b.len() as int);
    }
    let mut computed: usize = 0;
    let mut k: usize = 2;
    proof {
        assert(fsegs.subrange(2, 2) =~~= Seq::<Seq<u8>>::empty());
    }
    while k < nf
        invariant
            2 <= k <= nf,
            nf == gsegs.len() - 1,
            nf < segs@.len(),
            segs@.len() == gsegs.len(),
            fsegs == gsegs.drop_last(),
            segs_wire_len(gsegs) == b.len() as int,
            b.len() <= usize::MAX,
            forall|j: int| 0 <= j < segs@.len() ==> (#[trigger] segs@[j])@ =~= gsegs[j],
            computed as int == segs_wire_len(fsegs.subrange(2, k as int)),
        decreases nf - k,
    {
        proof {
            let sub = fsegs.subrange(2, k as int);
            let sub2 = fsegs.subrange(2, k as int + 1);
            assert(sub2.drop_last() =~~= sub);
            assert(sub2.last() == fsegs[k as int]);
            lemma_wire_len_nonneg(sub);
            lemma_wire_len_nonneg(gsegs.subrange(0, 2));
            lemma_wire_len_nonneg(gsegs.subrange(k as int + 1, gsegs.len() as int));
            lemma_wire_len_concat(gsegs.subrange(0, 2), gsegs.subrange(2, k as int + 1));
            lemma_wire_len_concat(
                gsegs.subrange(0, 2) + gsegs.subrange(2, k as int + 1),
                gsegs.subrange(k as int + 1, gsegs.len() as int),
            );
            assert(gsegs.subrange(0, 2) + gsegs.subrange(2, k as int + 1) + gsegs.subrange(
                k as int + 1,
                gsegs.len() as int,
            ) =~~= gsegs);
            assert(fsegs.subrange(2, k as int + 1) =~~= gsegs.subrange(2, k as int + 1));
            assert(segs_wire_len(sub2) <= segs_wire_len(gsegs));
        }
        let sl = segs[k].len();
        computed = computed + sl + 1;
        k = k + 1;
    }
    proof {
        assert(fsegs.subrange(2, nf as int) =~~= fsegs.skip(2));
    }
    if computed != declared {
        return Err(DecodeError::BodyLengthMismatch { declared, computed });
    }
    // the fields after tag 35
    let mut fm = FieldMap::new();
    let mut k2: usize = 3;
    proof {
        assert(fsegs.subrange(3, 3) =~~= Seq::<Seq<u8>>::empty());
        assert(parse_fields_spec(fsegs.subrange(3, 3)) == Ok::<Seq<(u32, Seq<u8>)>, DecodeError>(
            Seq::<(u32, Seq<u8>)>::empty(),
        ));
    }
    while k2 < nf
        invariant
            3 <= k2 <= nf,
            nf == gsegs.len() - 1,
            nf < segs@.len(),
            segs@.len() == gsegs.len(),
            fsegs == gsegs.drop_last(),
            forall|j: int| 0 <= j < segs@.len() ==> (#[trigger] segs@[j])@ =~= gsegs[j],
            fm.wf(),
            parse_fields_spec(fsegs.subrange(3, k2 as int)) == Ok::<
                Seq<(u32, Seq<u8>)>,
                DecodeError,
            >(fm@),
        decreases nf - k2,
    {
        let ghost sub = fsegs.subrange(3, k2 as int);
        let ghost sub2 = fsegs.subrange(3, k2 as int + 1);
        let ghost gseg = fsegs[k2 as int];
        proof {
            assert(sub2.drop_last() =~~= sub);
            assert(sub2.last() == gseg);
            assert(fsegs.skip(3).take(k2 as int + 1 - 3) =~~= sub2);
        }
        let seg = &segs[k2];
        let e: usize = match find_byte_from(seg.as_slice(), 0, 61) {
            Some(i) => {
                proof {
                    lemma_find_ix(gseg, 61);
                    let f = find_ix(gseg, 61);
                    if f < i as int {
                        assert(gseg[f] != 61);
                    }
                    if f > i as int {
                        assert(gseg[i as int] != 61);
                    }
                    assert(f == i as int);
                }
                i
            },
            None => {
                proof {
                    lemma_find_ix(gseg, 61);
                    let f = find_ix(gseg, 61);
                    if f < gseg.len() {
                        assert(gseg[f] != 61);
                    }
                    assert(parse_field_spec(gseg) == Err::<(u32, Seq<u8>), DecodeError>(
                        DecodeError::MalformedField,
                    ));
                    assert(parse_fields_spec(sub2) == Err::<Seq<(u32, Seq<u8>)>, DecodeError>(
                        DecodeError::MalformedField,
                    ));
                    lemma_parse_fields_prefix_err(
                        fsegs.skip(3),
                        k2 as int + 1 - 3,
                        DecodeError::MalformedField,
                    );
                    assert(parse_fields_spec(fsegs.skip(3)) == Err::<
                        Seq<(u32, Seq<u8>)>,
                        DecodeError,
                    >(DecodeError::MalformedField));
                    assert(decode_spec(b) == Err::<MessageModel, DecodeError>(
                        DecodeError::MalformedField,
                    ));
                }
                return Err(DecodeError::MalformedField);
            },
        };
        let tagslice = vstd::slice::slice_subrange(seg.as_slice(), 0, e);
        proof {
            assert(tagslice@ =~= gseg.take(e as int));
        }
        let tag: u32 = match parse_u32_dec(tagslice) {
            Some(v) => v,
            None => {
                proof {
                    if tagslice@.len() > 0 && is_digits(tagslice@) {
                        lemma_dec_val_nonneg(tagslice@);
                    }
                    assert(parse_field_spec(gseg) == Err::<(u32, Seq<u8>), DecodeError>(
                        DecodeError::NonNumericTag,
                    ));
                    assert(parse_fields_spec(sub2) == Err::<Seq<(u32, Seq<u8>)>, DecodeError>(
                        DecodeError::NonNumericTag,
                    ));
                    lemma_parse_fields_prefix_err(
                        fsegs.skip(3),
                        k2 as int + 1 - 3,
                        DecodeError::NonNumericTag,
                    );
                    assert(decode_spec(b) == Err::<MessageModel, DecodeError>(
                        DecodeError::NonNumericTag,
                    ));
                }
                return Err(DecodeError::NonNumericTag);
            },
        };
        if tag == 8 || tag == 9 || tag == 10 || tag == 35 || fm.contains(tag) {
            proof {
                assert(parse_fields_spec(sub2) == Err::<Seq<(u32, Seq<u8>)>, DecodeError>(
                    DecodeError::DuplicateTag,
                ));
                lemma_parse_fields_prefix_err(
                    fsegs.skip(3),
                    k2 as int + 1 - 3,
                    DecodeError::DuplicateTag,
                );
                assert(decode_spec(b) == Err::<MessageModel, DecodeError>(
                    DecodeError::DuplicateTag,
                ));
            }
            return Err(DecodeError::DuplicateTag);
        }
        let seglen = seg.len();
        let valslice = vstd::slice::slice_subrange(seg.as_slice(), e + 1, seglen);
        proof {
            assert(valslice@ =~= gseg.skip(e as int + 1));
        }
        let val = vstd::slice::slice_to_vec(valslice);
        proof {
            assert(parse_field_spec(gseg) == Ok::<(u32, Seq<u8>), DecodeError>(
                (tag, gseg.skip(e as int + 1)),
            ));
        }
        fm.set(tag, val);
        proof {
            assert(parse_fields_spec(sub2) == Ok::<Seq<(u32, Seq<u8>)>, DecodeError>(fm@));
        }
        k2 = k2 + 1;
    }
    proof {
        assert(fsegs.subrange(3, nf as int) =~~= fsegs.skip(3));
    }
    // assemble the message
    let bsslice = vstd::slice::slice_subrange(segs[0].as_slice(), 2, segs[0].len());
    let mtslice = vstd::slice::slice_subrange(segs[2].as_slice(), 3, segs[2].len());
    proof {
        assert(bsslice@ =~= fsegs[0].skip(2));
        assert(mtslice@ =~= fsegs[2].skip(3));
    }
    let begin_string = vstd::slice::slice_to_vec(bsslice);
    let msg_type = parse_msg_type(mtslice);
    let m = FixMessage { begin_string, body_length: declared, msg_type, fields: fm };
    proof {
        let d = decode_spec(b);
        assert(d is Ok);
        assert(d.unwrap().begin_string == m@.begin_string);
        assert(d.unwrap().body_length == m@.body_length);
        assert(d.unwrap().msg_type == m@.msg_type);
        assert(d.unwrap().fields == m@.fields);
        assert(d == Ok::<MessageModel, DecodeError>(m@));
    }
    Ok(m)
}

/// Whether `s` is free of the field delimiter.
pub open spec fn no_soh(s: Seq<u8>) -> bool {
    forall|j: int| 0 <= j < s.len() ==> s[j] != SOH
}

/// A field the codec can carry faithfully: a tag outside the standard
/// header and trailer, and a value free of the delimiter.
pub open spec fn field_entry_wf(e: (u32, Seq<u8>)) -> bool {
    &&& e.0 != 8 && e.0 != 9 && e.0 != 10 && e.0 != 35
    &&& no_soh(e.1)
}

/// A message type the codec can carry faithfully: an unknown code must
/// be free of the delimiter and must not collide with a known code.
pub open spec fn type_wf(mt: MsgTypeModel) -> bool {
    match mt {
        MsgTypeModel::Unknown(s) => no_soh(s) && (type_of_code(s) is Unknown),
        _ => true,
    }
}

/// Well-formed content: the fixed begin string, a body length that
/// matches the fields, sorted fields with carryable tags and values,
/// and a body that fits the machine.
pub open spec fn msg_wf(m: MessageModel) -> bool {
    &&& m.begin_string == fix44()
    &&& m.body_length == body_len_spec(m)
    &&& tags_sorted(m.fields)
    &&& (forall|i: int| 0 <= i < m.fields.len() ==> field_entry_wf(#[trigger] m.fields[i]))
    &&& type_wf(m.msg_type)
    &&& body_len_spec(m) <= usize::MAX
}

proof fn lemma_digits_benign(s: Seq<u8>)
    requires
        is_digits(s),
    ensures
        no_soh(s),
        forall|j: int| 0 <= j < s.len() ==> s[j] != 61,
{
    assert forall|j: int| 0 <= j < s.len() implies s[j] != SOH && s[j] != 61 by {
        assert(is_digit(s[j]));
    }
}

/// Every wire segment of a well-formed message is free of the delimiter.
proof fn lemma_segs_clean(m: MessageModel)
    requires
        msg_wf(m),
    ensures
        segs_clean(pre_segs(m), SOH),
        no_soh(seq![49u8, 48u8, 61u8] + pad3(checksum_spec(m))),
{
    let psegs = pre_segs(m);
    let bsegs = body_segs(m);
    let fsegs = field_segs_of(m.fields);
    lemma_byte_sum_nonneg(pre_bytes(m));
    lemma_pad3(checksum_spec(m));
    lemma_digits_benign(pad3(checksum_spec(m)));
    assert(no_soh(seq![49u8, 48u8, 61u8] + pad3(checksum_spec(m)))) by {
        let tr = seq![49u8, 48u8, 61u8] + pad3(checksum_spec(m));
        assert forall|j: int| 0 <= j < tr.len() implies tr[j] != SOH by {
            if j >= 3 {
                assert(tr[j] == pad3(checksum_spec(m))[j - 3]);
            }
        }
    }
    assert(no_soh(psegs[0])) by {
        let s = psegs[0];
        assert(s =~= seq![56u8, 61u8] + fix44());
        assert forall|j: int| 0 <= j < s.len() implies s[j] != SOH by {
            if j == 0 {
            } else if j == 1 {
            } else {
                assert(s[j] == fix44()[j - 2]);
                assert(fix44()[0] == 70 && fix44()[1] == 73 && fix44()[2] == 88 && fix44()[3]
                    == 46 && fix44()[4] == 52 && fix44()[5] == 46 && fix44()[6] == 52);
            }
        }
    }
    assert(no_soh(psegs[1])) by {
        let s = psegs[1];
        lemma_wire_len_nonneg(bsegs);
        lemma_dec_digits_are_digits(body_len_spec(m));
        lemma_digits_benign(dec_digits(body_len_spec(m)));
        assert(s =~= seq![57u8, 61u8] + dec_digits(body_len_spec(m)));
        assert forall|j: int| 0 <= j < s.len() implies s[j] != SOH by {
            if j >= 2 {
                assert(s[j] == dec_digits(body_len_spec(m))[j - 2]);
            }
        }
    }
    assert(no_soh(psegs[2])) by {
        let s = psegs[2];
        assert(s == bsegs[0]);
        assert(s =~= seq![51u8, 53u8, 61u8] + code_of(m.msg_type));
        assert(no_soh(code_of(m.msg_type))) by {
            match m.msg_type {
                MsgTypeModel::Unknown(u) => {
                }
                _ => {
                }
            }
        }
        assert forall|j: int| 0 <= j < s.len() implies s[j] != SOH by {
            if j >= 3 {
                assert(s[j] == code_of(m.msg_type)[j - 3]);
            }
        }
    }
    assert forall|k: int, j: int|
        0 <= k < psegs.len() && 0 <= j < psegs[k].len() implies #[trigger] psegs[k][j]
        != SOH by {
        if k >= 3 {
            let e = m.fields[k - 3];
            assert(field_entry_wf(e));
            assert(psegs[k] == fsegs[k - 3]);
            assert(fsegs[k - 3] == field_seg(e));
            lemma_dec_digits_are_digits(e.0 as int);
            lemma_digits_benign(dec_digits(e.0 as int));
            let s = field_seg(e);
            let d = dec_digits(e.0 as int);
            if j < d.len() {
                assert(s[j] == d[j]);
            } else if j == d.len() {
                assert(s[j] == 61);
            } else {
                assert(s[j] == e.1[j - d.len() - 1]);
            }
        } else {
            if k == 0 {
                assert(no_soh(psegs[0]));
            } else if k == 1 {
                assert(no_soh(psegs[1]));
            } else {
                assert(no_soh(psegs[2]));
            }
        }
    }
}

/// Reading back the printed fields of a well-formed message gives the
/// fields.
proof fn lemma_parse_field_segs(entries: Seq<(u32, Seq<u8>)>)
    requires
        tags_sorted(entries),
        forall|i: int| 0 <= i < entries.len() ==> field_entry_wf(#[trigger] entries[i]),
    ensures
        parse_fields_spec(field_segs_of(entries)) == Ok::<Seq<(u32, Seq<u8>)>, DecodeError>(
            entries,
        ),
    decreases entries.len(),
{
    let segs = field_segs_of(entries);
    if entries.len() == 0 {
        assert(segs.len() == 0);
        assert(entries =~= Seq::<(u32, Seq<u8>)>::empty());
    } else {
        let dl = entries.drop_last();
        let last = entries.last();
        assert(tags_sorted(dl));
        assert(forall|i: int| 0 <= i < dl.len() ==> #[trigger] dl[i] == entries[i]);
        lemma_parse_field_segs(dl);
        let dsegs = field_segs_of(dl);
        assert(segs.drop_last() =~~= dsegs);
        assert(segs.last() == field_seg(last));
        // one field prints and reads back
        let tagd = dec_digits(last.0 as int);
        lemma_dec_digits_are_digits(last.0 as int);
        lemma_digits_benign(tagd);
        crate::scan::lemma_find_ix_concat(tagd, last.1, 61);
        assert(tagd + seq![61u8] + last.1 =~= field_seg(last));
        let e = find_ix(field_seg(last), 61);
        assert(e == tagd.len());
        assert(e < field_seg(last).len());
        assert(field_seg(last).take(e) =~= tagd);
        lemma_dec_val_of_digits(last.0 as int);
        assert(field_seg(last).skip(e + 1) =~= last.1);
        assert(parse_field_spec(field_seg(last)) == Ok::<(u32, Seq<u8>), DecodeError>(
            (last.0, last.1),
        ));
        // the tag is fresh: every earlier tag is smaller
        assert(!has_tag(dl, last.0)) by {
            if has_tag(dl, last.0) {
                let i = choose|i: int| 0 <= i < dl.len() && (#[trigger] dl[i]).0 == last.0;
                assert(entries[i].0 < entries[entries.len() - 1].0);
            }
        }
        assert(field_entry_wf(last));
        // inserting a larger tag appends
        crate::fields::lemma_ins_ix(dl, last.0);
        assert(ins_ix(dl, last.0) == dl.len()) by {
            if ins_ix(dl, last.0) < dl.len() {
                assert(dl[ins_ix(dl, last.0)].0 >= last.0);
                assert(entries[ins_ix(dl, last.0)].0 < last.0);
            }
        }
        assert(set_entry(dl, last.0, last.1) =~= dl.push((last.0, last.1)));
        assert(dl.push((last.0, last.1)) =~= entries);
        assert(parse_fields_spec(segs) == Ok::<Seq<(u32, Seq<u8>)>, DecodeError>(entries));
    }
}

/// The six known type codes are pairwise distinct single bytes.
proof fn lemma_known_codes_distinct()
    ensures
        seq![65u8] != seq![48u8] && seq![65u8] != seq![49u8] && seq![65u8] != seq![53u8]
            && seq![65u8] != seq![50u8] && seq![65u8] != seq![52u8],
        seq![48u8] != seq![49u8] && seq![48u8] != seq![53u8] && seq![48u8] != seq![50u8]
            && seq![48u8] != seq![52u8],
        seq![49u8] != seq![53u8] && seq![49u8] != seq![50u8] && seq![49u8] != seq![52u8],
        seq![53u8] != seq![50u8] && seq![53u8] != seq![52u8],
        seq![50u8] != seq![52u8],
{
    assert(seq![65u8][0] == 65 && seq![48u8][0] == 48 && seq![49u8][0] == 49 && seq![53u8][0]
        == 53 && seq![50u8][0] == 50 && seq![52u8][0] == 52);
}

/// Encoding a well-formed message and decoding the result gives the
/// message back: every field, the type, the begin string, and the body
/// length survive the trip.
pub proof fn lemma_decode_encode(m: MessageModel)
    requires
        msg_wf(m),
    ensures
        decode_spec(encode_spec(m)) == Ok::<MessageModel, DecodeError>(m),
{
    let a = encode_spec(m);
    let psegs = pre_segs(m);
    let bsegs = body_segs(m);
    let pre = pre_bytes(m);
    let cs = checksum_spec(m);
    let tseg = seq![49u8, 48u8, 61u8] + pad3(cs);
    lemma_byte_sum_nonneg(pre);
    lemma_pad3(cs);
    lemma_segs_clean(m);
    assert(a == pre + tseg + seq![SOH]);
    assert(a.len() == pre.len() + tseg.len() + 1);
    assert(a.last() == SOH);
    assert(a.len() > 0);
    // the split recovers the segments
    let all_segs = psegs.push(tseg);
    lemma_join_push(psegs, tseg, SOH);
    assert(a.drop_last() =~= join_with_sep(all_segs, SOH));
    assert(segs_clean(all_segs, SOH)) by {
        assert forall|k: int, j: int|
            0 <= k < all_segs.len() && 0 <= j < all_segs[k].len() implies #[trigger] all_segs[k][j]
            != SOH by {
            if k < psegs.len() {
                assert(all_segs[k] == psegs[k]);
                assert(psegs[k][j] != SOH);
            } else {
                assert(all_segs[k] == tseg);
            }
        }
    }
    lemma_split_join(all_segs, SOH);
    let segs = split_at_sep(a.drop_last(), SOH);
    assert(segs =~~= all_segs);
    // the trailer carries the checksum, three digits
    let trailer = segs.last();
    assert(trailer == tseg);
    assert(trailer.len() == 6);
    assert(trailer[0] == 49 && trailer[1] == 48 && trailer[2] == 61);
    let csd = trailer.skip(3);
    assert(csd =~= pad3(cs));
    assert(csd.len() == 3 && is_digits(csd) && dec_val(csd) == cs);
    assert(0 <= cs <= 255);
    // the checksum region is exactly the bytes the encoder summed
    assert(a.take(a.len() - trailer.len() - 1) =~= pre);
    assert(byte_sum(a.take(a.len() - trailer.len() - 1)) % 256 == cs);
    // headers sit in their places
    let fsegs = segs.drop_last();
    assert(fsegs =~~= psegs);
    assert(psegs[0] =~= seq![56u8, 61u8] + fix44());
    assert(psegs[0].len() == 9 && psegs[0][0] == 56 && psegs[0][1] == 61);
    assert(psegs[1] =~= seq![57u8, 61u8] + dec_digits(body_len_spec(m)));
    lemma_wire_len_nonneg(bsegs);
    lemma_dec_digits_are_digits(body_len_spec(m));
    assert(psegs[1].len() >= 3 && psegs[1][0] == 57 && psegs[1][1] == 61);
    assert(psegs[2] == bsegs[0]);
    assert(psegs[2] =~= seq![51u8, 53u8, 61u8] + code_of(m.msg_type));
    assert(psegs[2].len() >= 3 && psegs[2][0] == 51 && psegs[2][1] == 53 && psegs[2][2] == 61);
    // the body length reads back and matches
    let blv = psegs[1].skip(2);
    assert(blv =~= dec_digits(body_len_spec(m)));
    lemma_dec_val_of_digits(body_len_spec(m));
    assert(blv.len() > 0 && is_digits(blv) && dec_val(blv) == body_len_spec(m));
    assert(fsegs.skip(2) =~~= bsegs);
    assert(segs_wire_len(fsegs.skip(2)) == body_len_spec(m));
    // the fields read back
    assert(fsegs.skip(3) =~~= field_segs_of(m.fields));
    lemma_parse_field_segs(m.fields);
    // the type code reads back
    assert(psegs[2].skip(3) =~= code_of(m.msg_type));
    assert(type_of_code(code_of(m.msg_type)) == m.msg_type) by {
        lemma_known_codes_distinct();
        match m.msg_type {
            MsgTypeModel::Unknown(u) => {
                assert(type_of_code(u) is Unknown);
            },
            _ => {
            },
        }
    }
    // assemble
    assert(psegs[0].skip(2) =~= fix44());
    let d = decode_spec(a);
    assert(d is Ok);
    assert(d.unwrap() =~~= m);
}

/// Where one complete frame sits in a read buffer, if any: the offset
/// of the first `8=` and the total frame length from there, found the
/// way `try_extract_one` looks: first `8=`, then the next `9=`, its
/// decimal value, and the fixed seven-byte trailer.
pub open spec fn extract_spec(b: Seq<u8>) -> Option<(int, int)> {
    let start = find2_ix(b, 56, 61);
    if start + 2 > b.len() {
        None
    } else {
        let nrel = find2_ix(b.skip(start), 57, 61);
        if nrel + 2 > b.len() - start {
            None
        } else {
            let nine_pos = start + nrel;
            let soh_rel = find_ix(b.skip(nine_pos), SOH);
            if soh_rel == b.len() - nine_pos {
                None
            } else {
                let nine_end = nine_pos + soh_rel;
                let blv = b.subrange(nine_pos + 2, nine_end);
                if !(blv.len() > 0 && is_digits(blv) && dec_val(blv) <= usize::MAX) {
                    None
                } else {
                    let total = nine_end + 1 + dec_val(blv) + 7 - start;
                    if start + total > b.len() {
                        None
                    } else {
                        Some((start, total))
                    }
                }
            }
        }
    }
}

/// Takes one complete frame off the front of the read buffer, if one
/// is there, and advances the buffer past it; otherwise leaves the
/// buffer untouched.
#[verifier::loop_isolation(false)]
pub fn try_extract_one(buffer: &mut bytes::BytesMut) -> (r: Option<bytes::Bytes>)
    ensures
        match extract_spec(crate::buffers::bytes_mut_view(*old(buffer))) {
            Some(st) => r matches Some(frame) && crate::buffers::bytes_view(frame)
                == crate::buffers::bytes_mut_view(*old(buffer)).subrange(st.0, st.0 + st.1)
                && crate::buffers::bytes_mut_view(*final(buffer)) == crate::buffers::bytes_mut_view(
                *old(buffer),
            ).skip(st.0 + st.1),
            None => r is None && crate::buffers::bytes_mut_view(*final(buffer))
                == crate::buffers::bytes_mut_view(*old(buffer)),
        },
{
    let ghost ov = crate::buffers::bytes_mut_view(*buffer);
    let data: &[u8] = crate::buffers::bytes_mut_as_slice(&*buffer);
    let dlen = data.len();
    let start: usize = match find_pat2_from(data, 0, 56, 61) {
        Some(s) => s,
        None => {
            proof {
                lemma_find2_ix(ov, 56, 61);
                let f = find2_ix(ov, 56, 61);
                if f + 2 <= ov.len() {
                    assert(!(ov[f] == 56 && ov[f + 1] == 61));
                }
            }
            return None;
        },
    };
    proof {
        lemma_find2_ix(ov, 56, 61);
        let f = find2_ix(ov, 56, 61);
        if f < start as int {
            assert(!(ov[f] == 56 && ov[f + 1] == 61));
        }
        if f > start as int {
            assert(!(ov[start as int] == 56 && ov[start as int + 1] == 61));
        }
        assert(f == start as int);
    }
    let nine_pos: usize = match find_pat2_from(data, start, 57, 61) {
        Some(i) => i,
        None => {
            proof {
                let sub = ov.skip(start as int);
                lemma_find2_ix(sub, 57, 61);
                let f = find2_ix(sub, 57, 61);
                assert(forall|j: int| 0 <= j < sub.len() ==> #[trigger] sub[j] == ov[start + j]);
                if f + 2 <= sub.len() {
                    assert(!(ov[start + f] == 57 && ov[start + f + 1] == 61));
                }
            }
            return None;
        },
    };
    proof {
        let sub = ov.skip(start as int);
        lemma_find2_ix(sub, 57, 61);
        let f = find2_ix(sub, 57, 61);
        assert(forall|j: int| 0 <= j < sub.len() ==> #[trigger] sub[j] == ov[start + j]);
        if f < nine_pos - start {
            assert(!(sub[f] == 57 && sub[f + 1] == 61));
        }
        if f > nine_pos - start {
            assert(!(sub[nine_pos - start] == 57 && sub[nine_pos - start + 1] == 61));
        }
        assert(f == nine_pos - start);
    }
    let nine_end: usize = match find_byte_from(data, nine_pos, SOH) {
        Some(i) => i,
        None => {
            proof {
                let sub = ov.skip(nine_pos as int);
                crate::scan::lemma_find_ix(sub, SOH);
                let f = find_ix(sub, SOH);
                assert(forall|j: int|
                    0 <= j < sub.len() ==> #[trigger] sub[j] == ov[nine_pos + j]);
                if f < sub.len() {
                    assert(sub[f] != SOH);
                }
            }
            return None;
        },
    };
    proof {
        let sub = ov.skip(nine_pos as int);
        crate::scan::lemma_find_ix(sub, SOH);
        let f = find_ix(sub, SOH);
        assert(forall|j: int| 0 <= j < sub.len() ==> #[trigger] sub[j] == ov[nine_pos + j]);
        if f < nine_end - nine_pos {
            assert(sub[f] != SOH);
        }
        if f > nine_end - nine_pos {
            assert(sub[nine_end - nine_pos] != SOH);
        }
        assert(f == nine_end - nine_pos);
        assert(ov[nine_pos as int] == 57 && ov[nine_pos as int + 1] == 61);
        assert(nine_end - nine_pos >= 2) by {
            if nine_end == nine_pos {
                assert(ov[nine_pos as int] == SOH);
            }
            if nine_end == nine_pos + 1 {
                assert(ov[nine_pos as int + 1] == SOH);
            }
        }
    }
    let blslice = vstd::slice::slice_subrange(data, nine_pos + 2, nine_end);
    proof {
        assert(blslice@ =~= ov.subrange(nine_pos as int + 2, nine_end as int));
    }
    let body_len: usize = match parse_usize_dec(blslice) {
        Some(v) => v,
        None => {
            return None;
        },
    };
    let t1: usize = match (nine_end + 1).checked_add(body_len) {
        Some(x) => x,
        None => {
            return None;
        },
    };
    let end: usize = match t1.checked_add(7) {
        Some(x) => x,
        None => {
            return None;
        },
    };
    if end > dlen {
        return None;
    }
    proof {
        assert(extract_spec(ov) == Some((start as int, end - start as int)));
    }
    let frame = crate::buffers::bytes_copy_range(data, start, end);
    crate::buffers::bytes_mut_advance(buffer, end);
    Some(frame)
}

/// A complete well-formed frame at the front of the buffer is found at
/// offset zero with its exact length, whatever follows it.
#[verifier::rlimit(100)]
pub proof fn lemma_extract_frame(m: MessageModel, rest: Seq<u8>)
    requires
        msg_wf(m),
    ensures
        extract_spec(encode_spec(m) + rest) == Some((0int, encode_spec(m).len() as int)),
        (encode_spec(m) + rest).subrange(0, encode_spec(m).len() as int) == encode_spec(m),
        (encode_spec(m) + rest).skip(encode_spec(m).len() as int) == rest,
{
    let f = encode_spec(m);
    let b = f + rest;
    let psegs = pre_segs(m);
    let bsegs = body_segs(m);
    let pre = pre_bytes(m);
    let cs = checksum_spec(m);
    let tseg = seq![49u8, 48u8, 61u8] + pad3(cs);
    let lseg = psegs[1];
    let ld = dec_digits(body_len_spec(m));
    lemma_byte_sum_nonneg(pre);
    lemma_pad3(cs);
    lemma_segs_clean(m);
    lemma_wire_len_nonneg(bsegs);
    lemma_dec_digits_are_digits(body_len_spec(m));
    lemma_dec_val_of_digits(body_len_spec(m));
    // the layout of the first twelve bytes and the length field
    let tail2 = join_with_sep(psegs.skip(2), SOH) + seq![SOH] + tseg + seq![SOH] + rest;
    assert(psegs.len() >= 3);
    assert(psegs[0] =~= seq![56u8, 61u8] + fix44());
    assert(lseg =~= seq![57u8, 61u8] + ld);
    assert(join_with_sep(psegs, SOH) =~= psegs[0] + seq![SOH] + join_with_sep(
        psegs.skip(1),
        SOH,
    ));
    assert(psegs.skip(1).len() >= 2);
    assert(psegs.skip(1)[0] == lseg);
    assert(join_with_sep(psegs.skip(1), SOH) =~= lseg + seq![SOH] + join_with_sep(
        psegs.skip(1).skip(1),
        SOH,
    ));
    assert(psegs.skip(1).skip(1) =~~= psegs.skip(2));
    assert(b =~= psegs[0] + seq![SOH] + lseg + seq![SOH] + tail2);
    assert(b.len() == 10 + lseg.len() + 1 + tail2.len());
    // byte values up to the body-length field
    assert(b[0] == 56 && b[1] == 61);
    assert(b[2] == 70 && b[3] == 73 && b[4] == 88 && b[5] == 46 && b[6] == 52 && b[7] == 46
        && b[8] == 52) by {
        assert(fix44()[0] == 70 && fix44()[1] == 73 && fix44()[2] == 88 && fix44()[3] == 46
            && fix44()[4] == 52 && fix44()[5] == 46 && fix44()[6] == 52);
        assert(b[2] == psegs[0][2] && b[3] == psegs[0][3] && b[4] == psegs[0][4] && b[5]
            == psegs[0][5] && b[6] == psegs[0][6] && b[7] == psegs[0][7] && b[8] == psegs[0][8]);
    }
    assert(b[9] == SOH);
    assert(forall|k: int| 0 <= k < lseg.len() ==> b[10 + k] == #[trigger] lseg[k]);
    assert(b[10] == 57 && b[11] == 61);
    // the first `8=` is at zero
    lemma_find2_ix(b, 56, 61);
    assert(find2_ix(b, 56, 61) == 0) by {
        if find2_ix(b, 56, 61) > 0 {
            assert(!(b[0] == 56 && b[1] == 61));
        }
    }
    // the first `9=` from zero is at ten
    let s0 = b.skip(0);
    assert(s0 =~= b);
    lemma_find2_ix(b, 57, 61);
    let n9 = find2_ix(b, 57, 61);
    assert(n9 == 10) by {
        assert(b[10] == 57 && b[11] == 61);
        if n9 < 10 {
            assert(!(b[n9] == 57 && b[n9 + 1] == 61));
            assert(b[n9] == psegs[0][n9] || n9 == 9);
            assert(psegs[0][0] == 56 && psegs[0][1] == 61 && psegs[0][2] == 70 && psegs[0][3]
                == 73 && psegs[0][4] == 88 && psegs[0][5] == 46 && psegs[0][6] == 52 && psegs[0][7]
                == 46 && psegs[0][8] == 52);
            assert(b[n9] != 57);
        }
        if n9 > 10 {
            assert(!(b[10] == 57 && b[11] == 61));
        }
    }
    // the delimiter after the length digits
    let s10 = b.skip(10);
    assert(s10 =~= lseg + seq![SOH] + tail2);
    assert(forall|j: int| 0 <= j < lseg.len() ==> lseg[j] != SOH);
    crate::scan::lemma_find_ix_concat(lseg, tail2, SOH);
    assert(find_ix(s10, SOH) == lseg.len());
    let nine_end = 10 + lseg.len();
    // the digits parse back to the body length
    assert(b.subrange(12, nine_end as int) =~= ld);
    lemma_digits_benign(ld);
    // the total length equals the frame length
    lemma_wire_len_join(psegs, SOH);
    lemma_wire_len_concat(seq![psegs[0], lseg], bsegs);
    assert(seq![psegs[0], lseg] + bsegs =~~= psegs);
    assert(segs_wire_len(seq![psegs[0], lseg]) == 10 + lseg.len() + 1) by {
        let h2 = seq![psegs[0], lseg];
        assert(h2.drop_last() =~~= seq![psegs[0]]);
        assert(seq![psegs[0]].drop_last() =~~= Seq::<Seq<u8>>::empty());
        assert(segs_wire_len(Seq::<Seq<u8>>::empty()) == 0);
        assert(seq![psegs[0]].last() == psegs[0]);
        assert(psegs[0].len() == 9);
        assert(segs_wire_len(seq![psegs[0]]) == psegs[0].len() + 1);
        assert(h2.last() == lseg);
        assert(segs_wire_len(h2) == segs_wire_len(seq![psegs[0]]) + lseg.len() + 1);
    }
    assert(pre.len() == join_with_sep(psegs, SOH).len() + 1);
    assert(pre.len() == 11 + lseg.len() + body_len_spec(m));
    assert(f.len() == pre.len() + 7);
    assert(nine_end + 1 + body_len_spec(m) + 7 - 0 == f.len());
    assert(f.len() <= b.len());
    assert(extract_spec(b) == Some((0int, f.len() as int)));
    assert(b.subrange(0, f.len() as int) =~= f);
    assert(b.skip(f.len() as int) =~= rest);
}

/// The byte stream of a run of frames, first frame first.
pub open spec fn concat_frames(ms: Seq<MessageModel>) -> Seq<u8>
    decreases ms.len(),
{
    if ms.len() == 0 {
        Seq::<u8>::empty()
    } else {
        encode_spec(ms[0]) + concat_frames(ms.skip(1))
    }
}

/// Over the concatenation of well-formed frames, extraction finds
/// exactly the first frame and leaves exactly the rest; on the empty
/// buffer it finds nothing.  Step by step this walks a whole stream of
/// frames off a buffer, in order, down to emptiness.
pub proof fn lemma_extract_stream(ms: Seq<MessageModel>)
    requires
        forall|i: int| 0 <= i < ms.len() ==> msg_wf(#[trigger] ms[i]),
    ensures
        ms.len() == 0 ==> extract_spec(concat_frames(ms)) is None,
        ms.len() > 0 ==> extract_spec(concat_frames(ms)) == Some(
            (0int, encode_spec(ms[0]).len() as int),
        ),
        ms.len() > 0 ==> concat_frames(ms).subrange(0, encode_spec(ms[0]).len() as int)
            == encode_spec(ms[0]),
        ms.len() > 0 ==> concat_frames(ms).skip(encode_spec(ms[0]).len() as int) == concat_frames(
            ms.skip(1),
        ),
{
    if ms.len() == 0 {
        assert(concat_frames(ms).len() == 0);
    } else {
        lemma_extract_frame(ms[0], concat_frames(ms.skip(1)));
    }
}

/// Whether every tag present in `fields` is one of `tags`.
pub open spec fn only_tags(fields: Seq<(u32, Seq<u8>)>, tags: Set<u32>) -> bool {
    forall|t: u32| has_tag(fields, t) ==> tags.contains(t)
}

/// Encodes a message into a frozen byte buffer.
pub fn encode(msg: &FixMessage) -> (r: Result<bytes::Bytes, String>)
    requires
        msg.wf(),
    ensures
        r matches Ok(b) && crate::buffers::bytes_view(b) == encode_spec(msg@),
{
    let frame = encode_frame(msg);
    Ok(crate::buffers::bytes_from_vec(frame))
}


/// The fields shared by every admin message this engine builds:
/// our comp id and the counterparty's.
pub open spec fn base_fields(s: Seq<u8>, t: Seq<u8>) -> Seq<(u32, Seq<u8>)> {
    set_entry(set_entry(Seq::<(u32, Seq<u8>)>::empty(), 49, s), 56, t)
}

/// The fields of a Logon this engine builds.
pub open spec fn logon_fields(hb: int, s: Seq<u8>, t: Seq<u8>) -> Seq<(u32, Seq<u8>)> {
    set_entry(base_fields(s, t), 108, dec_digits(hb))
}

/// The fields of a Heartbeat this engine builds.
pub open spec fn heartbeat_fields(tr: Option<Seq<u8>>, s: Seq<u8>, t: Seq<u8>) -> Seq<
    (u32, Seq<u8>),
> {
    match tr {
        Some(id) => set_entry(base_fields(s, t), 112, id),
        None => base_fields(s, t),
    }
}

/// The fields of a TestRequest this engine builds.
pub open spec fn test_request_fields(id: Seq<u8>, s: Seq<u8>, t: Seq<u8>) -> Seq<(u32, Seq<u8>)> {
    set_entry(base_fields(s, t), 112, id)
}

/// The fields of a Logout this engine builds.
pub open spec fn logout_fields(text: Option<Seq<u8>>, s: Seq<u8>, t: Seq<u8>) -> Seq<
    (u32, Seq<u8>),
> {
    match text {
        Some(tx) => set_entry(base_fields(s, t), 58, tx),
        None => base_fields(s, t),
    }
}

/// The fields of a ResendRequest this engine builds.
pub open spec fn resend_request_fields(b: int, e: int, s: Seq<u8>, t: Seq<u8>) -> Seq<
    (u32, Seq<u8>),
> {
    set_entry(set_entry(base_fields(s, t), 7, dec_digits(b)), 16, dec_digits(e))
}

/// The fields of a SequenceReset this engine builds.
pub open spec fn sequence_reset_fields(new_seq: int, gap_fill: bool, s: Seq<u8>, t: Seq<u8>) -> Seq<
    (u32, Seq<u8>),
> {
    if gap_fill {
        set_entry(set_entry(base_fields(s, t), 36, dec_digits(new_seq)), 123, seq![89u8])
    } else {
        set_entry(base_fields(s, t), 36, dec_digits(new_seq))
    }
}

/// A Logon carrying the comp ids and the heartbeat interval.
pub fn build_logon(
    heart_bt_int_secs: u32,
    sender_comp_id: &[u8],
    target_comp_id: &[u8],
) -> (r: FixMessage)
    ensures
        r.wf(),
        r@.msg_type == MsgTypeModel::Logon,
        r@.begin_string == fix44(),
        r@.body_length == 0,
        has_tag(r@.fields, 49) && tag_val(r@.fields, 49) == sender_comp_id@,
        has_tag(r@.fields, 56) && tag_val(r@.fields, 56) == target_comp_id@,
        has_tag(r@.fields, 108) && tag_val(r@.fields, 108) == dec_digits(
            heart_bt_int_secs as int,
        ),
        only_tags(r@.fields, set![49u32, 56u32, 108u32]),
        r@.fields == logon_fields(heart_bt_int_secs as int, sender_comp_id@, target_comp_id@),
{
    let mut msg = FixMessage::new(FixMsgType::Logon);
    msg.set_field(49, vstd::slice::slice_to_vec(sender_comp_id));
    msg.set_field(56, vstd::slice::slice_to_vec(target_comp_id));
    msg.set_field(108, fmt_u32(heart_bt_int_secs));
    msg
}

/// A Heartbeat, echoing a TestReqID when one is given.
pub fn build_heartbeat(
    test_req_id: Option<&[u8]>,
    sender_comp_id: &[u8],
    target_comp_id: &[u8],
) -> (r: FixMessage)
    ensures
        r.wf(),
        r@.msg_type == MsgTypeModel::Heartbeat,
        r@.begin_string == fix44(),
        r@.body_length == 0,
        has_tag(r@.fields, 49) && tag_val(r@.fields, 49) == sender_comp_id@,
        has_tag(r@.fields, 56) && tag_val(r@.fields, 56) == target_comp_id@,
        match test_req_id {
            Some(id) => has_tag(r@.fields, 112) && tag_val(r@.fields, 112) == id@,
            None => !has_tag(r@.fields, 112),
        },
        only_tags(r@.fields, set![49u32, 56u32, 112u32]),
        r@.fields == heartbeat_fields(
            match test_req_id {
                Some(id) => Some(id@),
                None => None,
            },
            sender_comp_id@,
            target_comp_id@,
        ),
{
    let mut msg = FixMessage::new(FixMsgType::Heartbeat);
    msg.set_field(49, vstd::slice::slice_to_vec(sender_comp_id));
    msg.set_field(56, vstd::slice::slice_to_vec(target_comp_id));
    match test_req_id {
        Some(id) => {
            msg.set_field(112, vstd::slice::slice_to_vec(id));
        },
        None => {},
    }
    msg
}

/// A TestRequest carrying the given TestReqID.
pub fn build_test_request(
    id: &[u8],
    sender_comp_id: &[u8],
    target_comp_id: &[u8],
) -> (r: FixMessage)
    ensures
        r.wf(),
        r@.msg_type == MsgTypeModel::TestRequest,
        r@.begin_string == fix44(),
        r@.body_length == 0,
        has_tag(r@.fields, 49) && tag_val(r@.fields, 49) == sender_comp_id@,
        has_tag(r@.fields, 56) && tag_val(r@.fields, 56) == target_comp_id@,
        has_tag(r@.fields, 112) && tag_val(r@.fields, 112) == id@,
        only_tags(r@.fields, set![49u32, 56u32, 112u32]),
        r@.fields == test_request_fields(id@, sender_comp_id@, target_comp_id@),
{
    let mut msg = FixMessage::new(FixMsgType::TestRequest);
    msg.set_field(49, vstd::slice::slice_to_vec(sender_comp_id));
    msg.set_field(56, vstd::slice::slice_to_vec(target_comp_id));
    msg.set_field(112, vstd::slice::slice_to_vec(id));
    msg
}

/// A Logout, with free text when given.
pub fn build_logout(
    text: Option<&[u8]>,
    sender_comp_id: &[u8],
    target_comp_id: &[u8],
) -> (r: FixMessage)
    ensures
        r.wf(),
        r@.msg_type == MsgTypeModel::Logout,
        r@.begin_string == fix44(),
        r@.body_length == 0,
        has_tag(r@.fields, 49) && tag_val(r@.fields, 49) == sender_comp_id@,
        has_tag(r@.fields, 56) && tag_val(r@.fields, 56) == target_comp_id@,
        match text {
            Some(tx) => has_tag(r@.fields, 58) && tag_val(r@.fields, 58) == tx@,
            None => !has_tag(r@.fields, 58),
        },
        only_tags(r@.fields, set![49u32, 56u32, 58u32]),
        r@.fields == logout_fields(
            match text {
                Some(tx) => Some(tx@),
                None => None,
            },
            sender_comp_id@,
            target_comp_id@,
        ),
{
    let mut msg = FixMessage::new(FixMsgType::Logout);
    msg.set_field(49, vstd::slice::slice_to_vec(sender_comp_id));
    msg.set_field(56, vstd::slice::slice_to_vec(target_comp_id));
    match text {
        Some(tx) => {
            msg.set_field(58, vstd::slice::slice_to_vec(tx));
        },
        None => {},
    }
    msg
}

/// A ResendRequest for the inclusive range `begin_seq_no..=end_seq_no`.
pub fn build_resend_request(
    begin_seq_no: u32,
    end_seq_no: u32,
    sender_comp_id: &[u8],
    target_comp_id: &[u8],
) -> (r: FixMessage)
    ensures
        r.wf(),
        r@.msg_type == MsgTypeModel::ResendRequest,
        r@.begin_string == fix44(),
        r@.body_length == 0,
        has_tag(r@.fields, 49) && tag_val(r@.fields, 49) == sender_comp_id@,
        has_tag(r@.fields, 56) && tag_val(r@.fields, 56) == target_comp_id@,
        has_tag(r@.fields, 7) && tag_val(r@.fields, 7) == dec_digits(begin_seq_no as int),
        has_tag(r@.fields, 16) && tag_val(r@.fields, 16) == dec_digits(end_seq_no as int),
        only_tags(r@.fields, set![7u32, 16u32, 49u32, 56u32]),
        r@.fields == resend_request_fields(
            begin_seq_no as int,
            end_seq_no as int,
            sender_comp_id@,
            target_comp_id@,
        ),
{
    let mut msg = FixMessage::new(FixMsgType::ResendRequest);
    msg.set_field(49, vstd::slice::slice_to_vec(sender_comp_id));
    msg.set_field(56, vstd::slice::slice_to_vec(target_comp_id));
    msg.set_field(7, fmt_u32(begin_seq_no));
    msg.set_field(16, fmt_u32(end_seq_no));
    msg
}

/// A SequenceReset to `new_seq_no`, marked gap-fill when asked.
pub fn build_sequence_reset(
    new_seq_no: u32,
    gap_fill: bool,
    sender_comp_id: &[u8],
    target_comp_id: &[u8],
) -> (r: FixMessage)
    ensures
        r.wf(),
        r@.msg_type == MsgTypeModel::SequenceReset,
        r@.begin_string == fix44(),
        r@.body_length == 0,
        has_tag(r@.fields, 49) && tag_val(r@.fields, 49) == sender_comp_id@,
        has_tag(r@.fields, 56) && tag_val(r@.fields, 56) == target_comp_id@,
        has_tag(r@.fields, 36) && tag_val(r@.fields, 36) == dec_digits(new_seq_no as int),
        gap_fill ==> has_tag(r@.fields, 123) && tag_val(r@.fields, 123) == seq![89u8],
        !gap_fill ==> !has_tag(r@.fields, 123),
        only_tags(r@.fields, set![36u32, 49u32, 56u32, 123u32]),
        r@.fields == sequence_reset_fields(
            new_seq_no as int,
            gap_fill,
            sender_comp_id@,
            target_comp_id@,
        ),
{
    let mut msg = FixMessage::new(FixMsgType::SequenceReset);
    msg.set_field(49, vstd::slice::slice_to_vec(sender_comp_id));
    msg.set_field(56, vstd::slice::slice_to_vec(target_comp_id));
    msg.set_field(36, fmt_u32(new_seq_no));
    if gap_fill {
        let mut y: Vec<u8> = Vec::new();
        y.push(89);
        proof {
            assert(y@ =~= seq![89u8]);
        }
        msg.set_field(123, y);
    }
    msg
}

/// A message's canonical form: the content (type and fields) under
/// the fixed begin string and the recomputed body length — what the
/// encoder actually emits for it.
pub open spec fn normalize(m: MessageModel) -> MessageModel {
    let m1 = MessageModel {
        begin_string: fix44(),
        body_length: 0,
        msg_type: m.msg_type,
        fields: m.fields,
    };
    MessageModel { body_length: body_len_spec(m1), ..m1 }
}

/// Fields read from clean segments come out sorted, with carryable
/// tags and values.
proof fn lemma_parse_fields_wf(segs: Seq<Seq<u8>>)
    requires
        forall|k: int, j: int|
            0 <= k < segs.len() && 0 <= j < segs[k].len() ==> #[trigger] segs[k][j] != SOH,
    ensures
        match parse_fields_spec(segs) {
            Ok(entries) => tags_sorted(entries) && (forall|i: int|
                0 <= i < entries.len() ==> field_entry_wf(#[trigger] entries[i])),
            Err(_) => true,
        },
    decreases segs.len(),
{
    if segs.len() > 0 {
        let dl = segs.drop_last();
        assert(forall|k: int| 0 <= k < dl.len() ==> #[trigger] dl[k] == segs[k]);
        assert(forall|k: int, j: int|
            0 <= k < dl.len() && 0 <= j < dl[k].len() ==> #[trigger] dl[k][j] != SOH);
        lemma_parse_fields_wf(dl);
        match parse_fields_spec(segs) {
            Ok(entries) => {
                let prev = parse_fields_spec(dl).unwrap();
                let seg = segs.last();
                let tv = parse_field_spec(seg).unwrap();
                let e = find_ix(seg, 61);
                lemma_find_ix(seg, 61);
                assert(forall|j: int|
                    0 <= j < tv.1.len() ==> #[trigger] tv.1[j] == seg[e + 1 + j] && seg[e + 1
                        + j] != SOH);
                assert(field_entry_wf((tv.0, tv.1)));
                assert(!has_tag(prev, tv.0));
                crate::fields::lemma_ins_ix(prev, tv.0);
                let w = ins_ix(prev, tv.0);
                if w < prev.len() {
                    assert(prev[w].0 >= tv.0);
                    assert(prev[w].0 != tv.0);
                }
                let post = prev.insert(w, (tv.0, tv.1));
                assert(entries == post);
                crate::fields::lemma_set_insert_props(prev, post, w, tv.0, tv.1);
                assert forall|i: int| 0 <= i < entries.len() implies field_entry_wf(
                    #[trigger] entries[i],
                ) by {
                    if i < w {
                        assert(entries[i] == prev[i]);
                    } else if i == w {
                        assert(entries[i] == (tv.0, tv.1));
                    } else {
                        assert(entries[i] == prev[i - 1]);
                    }
                }
            },
            Err(_) => {},
        }
    }
}

/// What decode accepts is well-formed content: sorted fields with
/// carryable tags and values, and a carryable message type.
pub proof fn lemma_decode_gives_wf(b: Seq<u8>)
    requires
        decode_spec(b) is Ok,
    ensures
        ({
            let m = decode_spec(b).unwrap();
            &&& tags_sorted(m.fields)
            &&& forall|i: int| 0 <= i < m.fields.len() ==> field_entry_wf(#[trigger] m.fields[i])
            &&& type_wf(m.msg_type)
        }),
{
    let m = decode_spec(b).unwrap();
    let segs = split_at_sep(b.drop_last(), SOH);
    lemma_split_shape(b.drop_last(), SOH);
    let fsegs = segs.drop_last();
    assert(forall|k: int| 0 <= k < fsegs.len() ==> #[trigger] fsegs[k] == segs[k]);
    let body = fsegs.skip(3);
    assert(forall|k: int| 0 <= k < body.len() ==> #[trigger] body[k] == fsegs[k + 3]);
    assert(forall|k: int, j: int|
        0 <= k < body.len() && 0 <= j < body[k].len() ==> #[trigger] body[k][j] != SOH);
    lemma_parse_fields_wf(body);
    assert(m.fields == parse_fields_spec(body).unwrap());
    let c = fsegs[2].skip(3);
    assert(forall|j: int| 0 <= j < c.len() ==> #[trigger] c[j] == fsegs[2][j + 3]);
    assert(no_soh(c));
    assert(m.msg_type == type_of_code(c));
    match m.msg_type {
        MsgTypeModel::Unknown(u) => {
            assert(u == c);
            assert(type_of_code(u) is Unknown);
        },
        _ => {},
    }
}

/// Whatever decode accepts re-encodes faithfully: the canonical form
/// of the decoded message is well-formed, its frame carries exactly
/// the same fields and type, and that frame decodes back to it.  The
/// input and the canonical frame can differ only in the order of the
/// non-header fields, in numeral formatting, and in the header values
/// the encoder itself fixes.
pub proof fn lemma_reencode_after_decode(b: Seq<u8>)
    requires
        decode_spec(b) is Ok,
        body_len_spec(normalize(decode_spec(b).unwrap())) <= usize::MAX,
    ensures
        ({
            let m = decode_spec(b).unwrap();
            let n = normalize(m);
            &&& n.fields == m.fields
            &&& n.msg_type == m.msg_type
            &&& msg_wf(n)
            &&& decode_spec(encode_spec(n)) == Ok::<MessageModel, DecodeError>(n)
        }),
{
    let m = decode_spec(b).unwrap();
    let n = normalize(m);
    lemma_decode_gives_wf(b);
    assert(body_segs(n) =~~= body_segs(
        MessageModel {
            begin_string: fix44(),
            body_length: 0,
            msg_type: m.msg_type,
            fields: m.fields,
        },
    ));
    assert(msg_wf(n));
    lemma_decode_encode(n);
}

/// The `(tag, value)` this field segment carries.
pub open spec fn pair_of(seg: Seq<u8>) -> (u32, Seq<u8>) {
    let e = find_ix(seg, 61);
    ((dec_val(seg.take(e)) as u32, seg.skip(e + 1)))
}

/// The pairs of a run of field segments, in order.
pub open spec fn pairs_of(segs: Seq<Seq<u8>>) -> Seq<(u32, Seq<u8>)>
    decreases segs.len(),
{
    if segs.len() == 0 {
        Seq::<(u32, Seq<u8>)>::empty()
    } else {
        pairs_of(segs.drop_last()).push(pair_of(segs.last()))
    }
}

/// When the field segments carry ascending tags, reading them builds
/// exactly their pairs in order: each sorted insertion is an append.
proof fn lemma_parse_fields_sorted_inputs(segs: Seq<Seq<u8>>)
    requires
        parse_fields_spec(segs) is Ok,
        forall|k: int, k2: int|
            0 <= k < k2 < segs.len() ==> pair_of(#[trigger] segs[k]).0 < pair_of(
                #[trigger] segs[k2],
            ).0,
    ensures
        parse_fields_spec(segs) == Ok::<Seq<(u32, Seq<u8>)>, DecodeError>(pairs_of(segs)),
        pairs_of(segs).len() == segs.len(),
        forall|k: int| 0 <= k < segs.len() ==> pairs_of(segs)[k] == pair_of(#[trigger] segs[k]),
        forall|k: int| 0 <= k < segs.len() ==> parse_field_spec(#[trigger] segs[k]) is Ok,
    decreases segs.len(),
{
    if segs.len() > 0 {
        let dl = segs.drop_last();
        assert(forall|k: int| 0 <= k < dl.len() ==> #[trigger] dl[k] == segs[k]);
        lemma_parse_fields_sorted_inputs(dl);
        let prev = pairs_of(dl);
        let tv = parse_field_spec(segs.last()).unwrap();
        assert(tv == pair_of(segs.last()));
        assert forall|i: int|
            0 <= i < prev.len() implies (#[trigger] prev[i]).0 == pair_of(segs[i]).0 && prev[i].0
            < tv.0 by {
            assert(dl[i] == segs[i]);
            assert(prev[i] == pair_of(dl[i]));
            assert(pair_of(segs[i]).0 < pair_of(segs[segs.len() - 1]).0);
        }
        assert(!has_tag(prev, tv.0)) by {
            if has_tag(prev, tv.0) {
                let i = choose|i: int| 0 <= i < prev.len() && (#[trigger] prev[i]).0 == tv.0;
                assert(prev[i].0 < tv.0);
            }
        }
        crate::fields::lemma_ins_ix(prev, tv.0);
        assert(ins_ix(prev, tv.0) == prev.len()) by {
            if ins_ix(prev, tv.0) < prev.len() {
                assert(prev[ins_ix(prev, tv.0)].0 >= tv.0);
            }
        }
        assert(set_entry(prev, tv.0, tv.1) =~= prev.push((tv.0, tv.1)));
        assert(pairs_of(segs) =~= prev.push(pair_of(segs.last())));
        assert forall|k: int| 0 <= k < segs.len() implies pairs_of(segs)[k] == pair_of(
            #[trigger] segs[k],
        ) && parse_field_spec(segs[k]) is Ok by {
            if k < segs.len() - 1 {
                assert(dl[k] == segs[k]);
                assert(pairs_of(segs)[k] == prev[k]);
                assert(prev[k] == pair_of(dl[k]));
                assert(parse_field_spec(dl[k]) is Ok);
            } else {
                assert(pairs_of(segs)[k] == pair_of(segs.last()));
            }
        }
    }
}

/// Whether `b` is in the encoder's own shape: the fixed begin field,
/// canonical numerals for the body length, the tags and the checksum,
/// and the non-header fields in ascending tag order.
pub open spec fn canonical_frame(b: Seq<u8>) -> bool {
    &&& decode_spec(b) is Ok
    &&& ({
        let segs = split_at_sep(b.drop_last(), SOH);
        let fsegs = segs.drop_last();
        let blv = fsegs[1].skip(2);
        let csd = segs.last().skip(3);
        &&& fsegs[0] == seq![56u8, 61u8] + fix44()
        &&& blv == dec_digits(dec_val(blv))
        &&& csd == pad3(dec_val(csd))
        &&& forall|k: int|
            3 <= k < fsegs.len() ==> ({
                let seg = #[trigger] fsegs[k];
                seg.take(find_ix(seg, 61)) == dec_digits(pair_of(seg).0 as int)
            })
        &&& forall|k: int, k2: int|
            3 <= k < k2 < fsegs.len() ==> pair_of(#[trigger] fsegs[k]).0 < pair_of(
                #[trigger] fsegs[k2],
            ).0
    })
}

/// A known or unknown type code survives the trip through its reading.
proof fn lemma_code_of_type_of(c: Seq<u8>)
    ensures
        code_of(type_of_code(c)) == c,
{
    lemma_known_codes_distinct();
}

/// A frame in the encoder's own shape is reproduced byte for byte:
/// re-encoding what it decodes to gives the frame back.  Together with
/// the re-encoding law this pins down how far any accepted frame can
/// sit from its canonical form: only the order of the non-header
/// fields and the formatting of numerals can differ.
#[verifier::rlimit(100)]
#[verifier::spinoff_prover]
pub proof fn lemma_canonical_frame_reencodes(b: Seq<u8>)
    requires
        canonical_frame(b),
    ensures
        ({
            let n = normalize(decode_spec(b).unwrap());
            &&& msg_wf(n)
            &&& encode_spec(n) == b
        }),
{
    let m = decode_spec(b).unwrap();
    let n = normalize(m);
    let segs = split_at_sep(b.drop_last(), SOH);
    let fsegs = segs.drop_last();
    let trailer = segs.last();
    let blv = fsegs[1].skip(2);
    let csd = trailer.skip(3);
    lemma_split_shape(b.drop_last(), SOH);
    lemma_join_split(b.drop_last(), SOH);
    lemma_decode_gives_wf(b);
    assert(forall|k: int| 0 <= k < fsegs.len() ==> #[trigger] fsegs[k] == segs[k]);

    // the fields are exactly the parsed pairs, in order
    let body = fsegs.skip(3);
    assert(forall|k: int| 0 <= k < body.len() ==> #[trigger] body[k] == fsegs[k + 3]);
    assert(parse_fields_spec(body) is Ok);
    assert(forall|k: int, k2: int|
        0 <= k < k2 < body.len() ==> pair_of(#[trigger] body[k]).0 < pair_of(
            #[trigger] body[k2],
        ).0);
    lemma_parse_fields_sorted_inputs(body);
    assert(m.fields == pairs_of(body));

    // each field segment is its own canonical print
    assert forall|k: int| 0 <= k < body.len() implies field_seg(m.fields[k]) == #[trigger] body[k] by {
        let seg = body[k];
        let e = find_ix(seg, 61);
        lemma_find_ix(seg, 61);
        assert(parse_field_spec(seg) is Ok) by {
            assert(body[k] == body[k]);
        }
        assert(e < seg.len());
        assert(m.fields[k] == pair_of(seg));
        assert(seg.take(e) == dec_digits(pair_of(seg).0 as int));
        assert(seg[e] == 61);
        assert(field_seg(m.fields[k]) =~= seg.take(e) + seq![61u8] + seg.skip(e + 1));
        assert(seg.take(e) + seq![61u8] + seg.skip(e + 1) =~= seg);
    }
    assert(field_segs_of(n.fields) =~~= body);

    // the three header segments match the encoder's
    let declared = dec_val(blv);
    lemma_dec_val_nonneg(blv);
    assert(body_segs(n) =~~= fsegs.skip(2)) by {
        assert(body_segs(n).len() == body.len() + 1);
        assert(fsegs.skip(2).len() == body.len() + 1);
        assert(fsegs.skip(2)[0] == fsegs[2]);
        lemma_code_of_type_of(fsegs[2].skip(3));
        assert(n.msg_type == type_of_code(fsegs[2].skip(3)));
        assert(body_segs(n)[0] =~= seq![51u8, 53u8, 61u8] + fsegs[2].skip(3));
        assert(fsegs[2].len() >= 3 && fsegs[2][0] == 51 && fsegs[2][1] == 53 && fsegs[2][2]
            == 61);
        assert(seq![51u8, 53u8, 61u8] + fsegs[2].skip(3) =~= fsegs[2]);
        assert(forall|k: int|
            1 <= k < fsegs.skip(2).len() ==> #[trigger] fsegs.skip(2)[k] == body[k - 1]);
        assert(forall|k: int|
            1 <= k < body_segs(n).len() ==> #[trigger] body_segs(n)[k] == field_segs_of(
                n.fields,
            )[k - 1]);
    }
    assert(body_len_spec(n) == segs_wire_len(fsegs.skip(2)));
    assert(body_len_spec(n) == declared);
    assert(n.body_length == declared);
    let psegs = pre_segs(n);
    assert(psegs =~~= fsegs) by {
        assert(psegs[0] =~= seq![56u8, 61u8] + fix44());
        assert(psegs[1] =~= seq![57u8, 61u8] + dec_digits(declared));
        assert(blv == dec_digits(declared));
        assert(fsegs[1].len() >= 2 && fsegs[1][0] == 57 && fsegs[1][1] == 61);
        assert(seq![57u8, 61u8] + fsegs[1].skip(2) =~= fsegs[1]);
        assert(psegs[1] =~= fsegs[1]);
        assert(forall|k: int| 2 <= k < psegs.len() ==> #[trigger] psegs[k] == body_segs(n)[k - 2]);
        assert(forall|k: int|
            2 <= k < fsegs.len() ==> #[trigger] fsegs[k] == fsegs.skip(2)[k - 2]);
    }

    // the bytes before the trailer agree, so the checksums agree
    assert(segs =~~= fsegs.push(trailer));
    lemma_join_push(fsegs, trailer, SOH);
    assert(b.drop_last() =~= join_with_sep(fsegs, SOH) + seq![SOH] + trailer);
    assert(b =~= join_with_sep(fsegs, SOH) + seq![SOH] + trailer + seq![SOH]) by {
        assert(b.len() > 0 && b.last() == SOH);
        assert(b =~= b.drop_last().push(SOH));
    }
    assert(pre_bytes(n) =~= join_with_sep(fsegs, SOH) + seq![SOH]);
    assert(b.take(b.len() - trailer.len() - 1) =~= pre_bytes(n));
    let actual = byte_sum(b.take(b.len() - trailer.len() - 1)) % 256;
    assert(checksum_spec(n) == actual);
    assert(actual == dec_val(csd));
    assert(trailer =~= seq![49u8, 48u8, 61u8] + pad3(checksum_spec(n))) by {
        assert(trailer.len() >= 3 && trailer[0] == 49 && trailer[1] == 48 && trailer[2] == 61);
        assert(csd == pad3(dec_val(csd)));
        assert(seq![49u8, 48u8, 61u8] + trailer.skip(3) =~= trailer);
    }

    // msg_wf holds, and the whole frame is the encoder's output
    assert(msg_wf(n)) by {
        lemma_wire_len_nonneg(body_segs(n));
        match n.msg_type {
            MsgTypeModel::Unknown(u) => {
                assert(type_wf(n.msg_type));
            },
            _ => {},
        }
    }
    assert(encode_spec(n) =~= b);
}

} // verus!
