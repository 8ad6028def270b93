//! The message store's logic: session keys and file stems, journal
//! records, the in-memory journal with its replay and sequencing
//! facts, and the index-file arithmetic the file layer leans on.

use vstd::prelude::*;
use crate::digits::{is_digits, dec_val, parse_u32_dec, parse_u64_dec};
use crate::scan::find_ix;

verus! {

/// The identity of a logical session.
#[derive(Debug, Clone, PartialEq, Eq)]
pub struct SessionKey {
    /// Our comp id.
    pub sender_comp_id: String,
    /// The counterparty's comp id.
    pub target_comp_id: String,
}

/// Whether a byte is an ASCII letter or digit.
pub open spec fn is_alnum_byte(b: u8) -> bool {
    (48 <= b <= 57) || (65 <= b <= 90) || (97 <= b <= 122)
}

/// `s` with every byte that is not a letter or digit turned into `_`.
pub open spec fn sanitize_bytes(s: Seq<u8>) -> Seq<u8> {
    Seq::new(s.len(), |i: int| if is_alnum_byte(s[i]) { s[i] } else { 95u8 })
}

/// The characters of an ASCII string, as bytes.
pub open spec fn chars_as_bytes(s: Seq<char>) -> Seq<u8> {
    Seq::new(s.len(), |i: int| s[i] as u8)
}

/// Relies on String::from_utf8: ASCII bytes are valid UTF-8 and read
/// back as themselves, one character per byte.
#[verifier::external_body]
fn ascii_string_from_bytes(v: Vec<u8>) -> (r: String)
    requires
        forall|i: int| 0 <= i < v@.len() ==> v@[i] < 128,
    ensures
        r@.len() == v@.len(),
        forall|i: int| 0 <= i < r@.len() ==> r@[i] as u8 == v@[i] && (r@[i] as u32) < 128,
{
    String::from_utf8(v).unwrap_or_default()
}

/// Maps every byte that is not a letter or digit to an underscore.
#[verifier::loop_isolation(false)]
fn sanitize(s: &str) -> (r: String)
    requires
        s.is_ascii(),
    ensures
        chars_as_bytes(r@) == sanitize_bytes(chars_as_bytes(s@)),
        r@.len() == s@.len(),
{
    broadcast use vstd::string::is_ascii_spec_bytes;

    let bytes = s.as_bytes();
    proof {
        assert(bytes@ =~= chars_as_bytes(s@));
    }
    let mut out: Vec<u8> = Vec::new();
    let mut i: usize = 0;
    while i < bytes.len()
        invariant
            0 <= i <= bytes@.len(),
            out@.len() == i,
            forall|j: int|
                0 <= j < i ==> #[trigger] out@[j] == sanitize_bytes(bytes@)[j] && out@[j] < 128,
        decreases bytes@.len() - i,
    {
        let b: u8 = bytes[i];
        let keep = (48 <= b && b <= 57) || (65 <= b && b <= 90) || (97 <= b && b <= 122);
        if keep {
            out.push(b);
        } else {
            out.push(95);
        }
        i = i + 1;
    }
    let ghost outv = out@;
    let r = ascii_string_from_bytes(out);
    proof {
        assert forall|j: int|
            0 <= j < r@.len() implies chars_as_bytes(r@)[j] == sanitize_bytes(
            chars_as_bytes(s@),
        )[j] by {
            assert(r@[j] as u8 == outv[j]);
            assert(outv[j] == sanitize_bytes(bytes@)[j]);
        }
        assert(chars_as_bytes(r@) =~= sanitize_bytes(chars_as_bytes(s@)));
    }
    r
}

impl SessionKey {
    /// The filesystem-safe stem of this session: each comp id with
    /// non-alphanumerics mapped to `_`, joined by a double underscore.
    pub fn file_stem(&self) -> (r: String)
        requires
            self.sender_comp_id.is_ascii(),
            self.target_comp_id.is_ascii(),
        ensures
            chars_as_bytes(r@) == sanitize_bytes(chars_as_bytes(self.sender_comp_id@)) + seq![
                95u8,
                95u8,
            ] + sanitize_bytes(chars_as_bytes(self.target_comp_id@)),
    {
        broadcast use vstd::string::is_ascii_spec_bytes;

        let mut r = sanitize(self.sender_comp_id.as_str());
        let sep = "__";
        proof {
            reveal_strlit("__");
        }
        vstd::string::StringExecFns::append(&mut r, sep);
        let t = sanitize(self.target_comp_id.as_str());
        vstd::string::StringExecFns::append(&mut r, t.as_str());
        proof {
            assert(chars_as_bytes(sep@) =~= seq![95u8, 95u8]);
            assert(chars_as_bytes(r@) =~= sanitize_bytes(chars_as_bytes(self.sender_comp_id@))
                + seq![95u8, 95u8] + sanitize_bytes(chars_as_bytes(self.target_comp_id@)));
        }
        r
    }
}

/// Which way a journalled message travelled.
#[derive(Debug, Clone, Copy, PartialEq, Eq, Structural)]
pub enum Direction {
    /// Received from the counterparty.
    Inbound,
    /// Sent to the counterparty.
    Outbound,
}

/// One line of the journal as the file layer writes it.
#[derive(Debug, Clone, PartialEq)]
pub struct StoredMessageRecord {
    /// The session the message belongs to.
    pub session: SessionKey,
    /// Which way it travelled.
    pub direction: Direction,
    /// Its MsgSeqNum, when it carried one.
    pub seq: Option<u32>,
    /// When it was handled, milliseconds since the epoch.
    pub ts_millis: u64,
    /// The raw frame, base64 text.
    pub payload_b64: String,
}

/// When the file layer syncs what it wrote.
#[derive(Debug, Clone, PartialEq)]
pub enum DurabilityPolicy {
    /// After every batch.
    Always,
    /// When this many milliseconds passed since the last sync.
    IntervalMs(u64),
    /// Never explicitly.
    Disabled,
}

/// The file layer's tuning knobs.
#[derive(Debug, Clone, PartialEq)]
pub struct StorageConfig {
    /// Where the journal files live.
    pub base_dir: String,
    /// How many records the inbound channel buffers.
    pub channel_capacity: usize,
    /// How many records a batch holds at most.
    pub batch_max: usize,
    /// How often pending writes flush, milliseconds.
    pub flush_interval_ms: u64,
    /// When writes are synced.
    pub durability: DurabilityPolicy,
}

impl Default for StorageConfig {
    /// The stock settings: the journal under `data/journal`, a large
    /// buffer, and a half-second sync interval.
    fn default() -> (r: StorageConfig)
        ensures
            r.channel_capacity == 8192,
            r.batch_max == 1024,
            r.flush_interval_ms == 50,
            r.durability == DurabilityPolicy::IntervalMs(500),
    {
        StorageConfig {
            base_dir: "data/journal".to_owned(),
            channel_capacity: 8192,
            batch_max: 1024,
            flush_interval_ms: 50,
            durability: DurabilityPolicy::IntervalMs(500),
        }
    }
}

/// The base64 text of a byte string; what the outside encoder returns
/// is a function of the bytes alone.
pub uninterp spec fn base64_of(b: Seq<u8>) -> Seq<char>;

/// Relies on base64's general-purpose STANDARD engine `encode`: the
/// text depends on the input bytes alone, and empty input gives the
/// empty string.
#[verifier::external_body]
pub fn b64_encode(data: &[u8]) -> (r: String)
    ensures
        r@ == base64_of(data@),
        data@.len() == 0 ==> r@.len() == 0,
{
    base64::Engine::encode(&base64::engine::general_purpose::STANDARD, data)
}

/// One journalled message, bytes in hand.
#[derive(Debug, Clone, PartialEq)]
pub struct JournalEntry {
    /// Which way it travelled.
    pub direction: Direction,
    /// Its MsgSeqNum, when it carried one.
    pub seq: Option<u32>,
    /// When it was handled, milliseconds since the epoch.
    pub ts_millis: u64,
    /// The raw frame.
    pub payload: Vec<u8>,
}

/// Mathematical image of a journal entry.
#[verifier::ext_equal]
pub struct EntryModel {
    pub direction: Direction,
    pub seq: Option<u32>,
    pub ts_millis: int,
    pub payload: Seq<u8>,
}

impl View for JournalEntry {
    type V = EntryModel;

    open spec fn view(&self) -> EntryModel {
        EntryModel {
            direction: self.direction,
            seq: self.seq,
            ts_millis: self.ts_millis as int,
            payload: self.payload@,
        }
    }
}

/// Whether this entry answers a replay of `begin..=end`.
pub open spec fn entry_in_range(e: EntryModel, begin: int, end: int) -> bool {
    e.direction == Direction::Outbound && match e.seq {
        Some(s) => begin <= s <= end,
        None => false,
    }
}

/// The `(seq, payload)` pairs of the outbound entries in
/// `begin..=end`, in journal order.
pub open spec fn range_pairs(entries: Seq<EntryModel>, begin: int, end: int) -> Seq<
    (u32, Seq<u8>),
>
    decreases entries.len(),
{
    if entries.len() == 0 {
        Seq::<(u32, Seq<u8>)>::empty()
    } else {
        let rest = range_pairs(entries.drop_last(), begin, end);
        if entry_in_range(entries.last(), begin, end) {
            rest.push((entries.last().seq.unwrap(), entries.last().payload))
        } else {
            rest
        }
    }
}

/// The payloads of the outbound entries in `begin..=end`, in journal
/// order.
pub open spec fn range_payloads(entries: Seq<EntryModel>, begin: int, end: int) -> Seq<Seq<u8>> {
    range_pairs(entries, begin, end).map_values(|p: (u32, Seq<u8>)| p.1)
}

/// The payloads of the outbound entries in `begin..=end`, sorted by
/// sequence number — what a replay sends.
pub open spec fn sorted_range_payloads(entries: Seq<EntryModel>, begin: int, end: int) -> Seq<
    Seq<u8>,
> {
    sort_keyed(range_pairs(entries, begin, end)).map_values(|p: (u32, Seq<u8>)| p.1)
}

/// The models of a run of owned pairs.
pub open spec fn pair_views(s: Seq<(u32, Vec<u8>)>) -> Seq<(u32, Seq<u8>)> {
    Seq::new(s.len(), |i: int| (s[i].0, s[i].1@))
}


/// Whether keys never decrease left to right.
pub open spec fn key_sorted<V>(s: Seq<(u32, V)>) -> bool {
    forall|i: int, j: int| 0 <= i < j < s.len() ==> (#[trigger] s[i]).0 <= (#[trigger] s[j]).0
}

/// `p` placed before the first strictly greater key: a stable insert.
pub open spec fn insert_keyed<V>(s: Seq<(u32, V)>, p: (u32, V)) -> Seq<(u32, V)>
    decreases s.len(),
{
    if s.len() == 0 {
        seq![p]
    } else if p.0 < s[0].0 {
        seq![p] + s
    } else {
        seq![s[0]] + insert_keyed(s.skip(1), p)
    }
}

/// The pairs in ascending key order, stably.
pub open spec fn sort_keyed<V>(s: Seq<(u32, V)>) -> Seq<(u32, V)>
    decreases s.len(),
{
    if s.len() == 0 {
        Seq::<(u32, V)>::empty()
    } else {
        insert_keyed(sort_keyed(s.drop_last()), s.last())
    }
}

/// First index whose key strictly exceeds `key`, or the length.
pub open spec fn keyed_gt_ix<V>(s: Seq<(u32, V)>, key: u32) -> int
    decreases s.len(),
{
    if s.len() == 0 {
        0
    } else if s[0].0 > key {
        0
    } else {
        1 + keyed_gt_ix(s.skip(1), key)
    }
}

/// The stable insert is an insertion at the first strictly greater key.
pub proof fn lemma_insert_keyed_at<V>(s: Seq<(u32, V)>, p: (u32, V))
    ensures
        0 <= keyed_gt_ix(s, p.0) <= s.len(),
        keyed_gt_ix(s, p.0) < s.len() ==> s[keyed_gt_ix(s, p.0)].0 > p.0,
        forall|j: int| 0 <= j < keyed_gt_ix(s, p.0) ==> (#[trigger] s[j]).0 <= p.0,
        insert_keyed(s, p) =~= s.insert(keyed_gt_ix(s, p.0), p),
    decreases s.len(),
{
    if s.len() > 0 && !(p.0 < s[0].0) {
        lemma_insert_keyed_at(s.skip(1), p);
        let g = keyed_gt_ix(s, p.0);
        assert forall|j: int| 0 <= j < g implies (#[trigger] s[j]).0 <= p.0 by {
            if j > 0 {
                assert(s.skip(1)[j - 1] == s[j]);
            }
        }
        if g < s.len() {
            assert(s.skip(1)[g - 1] == s[g]);
        }
        let gr = keyed_gt_ix(s.skip(1), p.0);
        assert forall|k: int|
            0 <= k < insert_keyed(s, p).len() implies #[trigger] insert_keyed(s, p)[k] == s.insert(
            g,
            p,
        )[k] by {
            if k == 0 {
            } else {
                assert(insert_keyed(s, p)[k] == insert_keyed(s.skip(1), p)[k - 1]);
                assert(insert_keyed(s.skip(1), p)[k - 1] == s.skip(1).insert(gr, p)[k - 1]);
                if k - 1 < gr {
                    assert(s.skip(1).insert(gr, p)[k - 1] == s.skip(1)[k - 1]);
                    assert(s.skip(1)[k - 1] == s[k]);
                    assert(s.insert(g, p)[k] == s[k]);
                } else if k - 1 == gr {
                    assert(s.skip(1).insert(gr, p)[k - 1] == p);
                    assert(s.insert(g, p)[k] == p);
                } else {
                    assert(s.skip(1).insert(gr, p)[k - 1] == s.skip(1)[k - 2]);
                    assert(s.skip(1)[k - 2] == s[k - 1]);
                    assert(s.insert(g, p)[k] == s[k - 1]);
                }
            }
        }
    }
}

/// Inserting into a sorted run keeps it sorted.
pub proof fn lemma_insert_keyed_sorted<V>(s: Seq<(u32, V)>, p: (u32, V))
    requires
        key_sorted(s),
    ensures
        key_sorted(insert_keyed(s, p)),
{
    lemma_insert_keyed_at(s, p);
    let g = keyed_gt_ix(s, p.0);
    let post = insert_keyed(s, p);
    assert forall|i: int, j: int|
        0 <= i < j < post.len() implies (#[trigger] post[i]).0 <= (#[trigger] post[j]).0 by {
        if i < g && j < g {
        } else if i < g && j == g {
            assert(post[i] == s[i]);
        } else if i < g && j > g {
            assert(post[i] == s[i] && post[j] == s[j - 1]);
            if j - 1 == g {
            } else {
                assert(s[i].0 <= s[j - 1].0);
            }
        } else if i == g {
            if j > g {
                assert(post[j] == s[j - 1]);
                if j - 1 == g {
                } else {
                    assert(s[g].0 <= s[j - 1].0);
                }
            }
        } else {
            assert(post[i] == s[i - 1] && post[j] == s[j - 1]);
        }
    }
}

/// The sort is sorted and rearranges without loss: the multiset of
/// pairs is unchanged.
pub proof fn lemma_sort_keyed_props<V>(s: Seq<(u32, V)>)
    ensures
        key_sorted(sort_keyed(s)),
        sort_keyed(s).to_multiset() == s.to_multiset(),
        sort_keyed(s).len() == s.len(),
    decreases s.len(),
{
    broadcast use vstd::seq_lib::group_to_multiset_ensures;

    if s.len() > 0 {
        let dl = s.drop_last();
        lemma_sort_keyed_props(dl);
        lemma_insert_keyed_sorted(sort_keyed(dl), s.last());
        lemma_insert_keyed_at(sort_keyed(dl), s.last());
        let g = keyed_gt_ix(sort_keyed(dl), s.last().0);
        let post = sort_keyed(dl).insert(g, s.last());
        assert(post.remove(g) =~= sort_keyed(dl));
        assert(post[g] == s.last());
        assert(sort_keyed(dl).to_multiset() =~= post.to_multiset().remove(s.last()));
        assert(post.contains(s.last()));
        assert(post.to_multiset().count(s.last()) > 0);
        assert(post.to_multiset() =~= sort_keyed(dl).to_multiset().insert(s.last()));
        assert(s =~= dl.push(s.last()));
        assert(s.to_multiset() =~= dl.to_multiset().insert(s.last()));
    }
}

/// Sorting an already sorted run changes nothing.
pub proof fn lemma_sort_keyed_of_sorted<V>(s: Seq<(u32, V)>)
    requires
        key_sorted(s),
    ensures
        sort_keyed(s) =~= s,
    decreases s.len(),
{
    if s.len() > 0 {
        let dl = s.drop_last();
        assert(key_sorted(dl)) by {
            assert(forall|i: int| 0 <= i < dl.len() ==> #[trigger] dl[i] == s[i]);
        }
        lemma_sort_keyed_of_sorted(dl);
        lemma_insert_keyed_at(dl, s.last());
        let g = keyed_gt_ix(dl, s.last().0);
        assert(g == dl.len()) by {
            if g < dl.len() {
                assert(dl[g] == s[g]);
                assert(s[g].0 <= s[s.len() - 1].0);
            }
        }
        assert(dl.insert(dl.len() as int, s.last()) =~= s);
    }
}

/// The greatest outbound sequence number journalled, if any.
pub open spec fn last_out_seq(entries: Seq<EntryModel>) -> Option<int>
    decreases entries.len(),
{
    if entries.len() == 0 {
        None
    } else {
        let rest = last_out_seq(entries.drop_last());
        let e = entries.last();
        if e.direction == Direction::Outbound && e.seq is Some {
            match rest {
                Some(m) => if e.seq.unwrap() as int > m {
                    Some(e.seq.unwrap() as int)
                } else {
                    Some(m)
                },
                None => Some(e.seq.unwrap() as int),
            }
        } else {
            rest
        }
    }
}

/// Whether outbound sequence numbers appear strictly ascending in
/// journal order — what a correctly driven session writes.
pub open spec fn well_sequenced(entries: Seq<EntryModel>) -> bool {
    forall|i: int, j: int|
        0 <= i < j < entries.len() && (#[trigger] entries[i]).direction == Direction::Outbound
            && (#[trigger] entries[j]).direction == Direction::Outbound && entries[i].seq is Some
            && entries[j].seq is Some ==> entries[i].seq.unwrap() < entries[j].seq.unwrap()
}

/// One session's journal, append-only and in order: the verified model
/// that the file layer mirrors line by line.
#[derive(Debug, Clone, PartialEq)]
pub struct Journal {
    entries: Vec<JournalEntry>,
}

impl View for Journal {
    type V = Seq<EntryModel>;

    closed spec fn view(&self) -> Seq<EntryModel> {
        Seq::new(self.entries@.len(), |i: int| self.entries@[i]@)
    }
}

impl Journal {
    /// An empty journal.
    pub fn new() -> (r: Journal)
        ensures
            r@ =~= Seq::<EntryModel>::empty(),
    {
        Journal { entries: Vec::new() }
    }

    /// How many records are journalled.
    pub fn len(&self) -> (r: usize)
        ensures
            r == self@.len(),
    {
        self.entries.len()
    }

    /// The record at position `i`.
    pub fn entry_at(&self, i: usize) -> (r: &JournalEntry)
        requires
            i < self@.len(),
        ensures
            r@ == self@[i as int],
    {
        &self.entries[i]
    }

    /// Appends one message.
    pub fn append_bytes(
        &mut self,
        direction: Direction,
        seq: Option<u32>,
        ts_millis: u64,
        payload: &[u8],
    )
        ensures
            final(self)@ =~= old(self)@.push(
                EntryModel {
                    direction,
                    seq,
                    ts_millis: ts_millis as int,
                    payload: payload@,
                },
            ),
    {
        self.entries.push(
            JournalEntry { direction, seq, ts_millis, payload: vstd::slice::slice_to_vec(payload) },
        );
    }

    /// The outbound payloads with sequence numbers in `begin..=end`,
    /// sorted ascending by sequence number, byte-identical to what
    /// was appended.
    #[verifier::loop_isolation(false)]
    pub fn load_outbound_range(&self, begin: u32, end: u32) -> (r: Vec<Vec<u8>>)
        ensures
            r.deep_view() == sorted_range_payloads(self@, begin as int, end as int),
    {
        let ghost entries = self@;
        let mut pairs: Vec<(u32, Vec<u8>)> = Vec::new();
        let mut i: usize = 0;
        proof {
            assert(entries.take(0) =~= Seq::<EntryModel>::empty());
            assert(pair_views(pairs@) =~~= sort_keyed(
                range_pairs(entries.take(0), begin as int, end as int),
            ));
        }
        while i < self.entries.len()
            invariant
                0 <= i <= self@.len(),
                entries == self@,
                pair_views(pairs@) =~~= sort_keyed(
                    range_pairs(entries.take(i as int), begin as int, end as int),
                ),
            decreases self@.len() - i,
        {
            let ghost pre = pair_views(pairs@);
            let e = &self.entries[i];
            proof {
                assert(entries.take(i as int + 1).drop_last() =~= entries.take(i as int));
                assert(entries.take(i as int + 1).last() == entries[i as int]);
                assert(e@ == entries[i as int]);
            }
            let matching: Option<u32> = match (e.direction, e.seq) {
                (Direction::Outbound, Some(s)) => if begin <= s && s <= end {
                    Some(s)
                } else {
                    None
                },
                _ => None,
            };
            match matching {
                Some(s) => {
                    let ghost newpair = (entries[i as int].seq.unwrap(), entries[i as int].payload);
                    // the stable position: before the first strictly greater key
                    let mut idx: usize = 0;
                    while idx < pairs.len() && pairs[idx].0 <= s
                        invariant
                            0 <= idx <= pairs@.len(),
                            forall|j: int| 0 <= j < idx ==> (#[trigger] pair_views(pairs@)[j]).0 <= s,
                        decreases pairs@.len() - idx,
                    {
                        idx = idx + 1;
                    }
                    proof {
                        lemma_insert_keyed_at(pre, newpair);
                        let g = keyed_gt_ix(pre, s);
                        if g < idx as int {
                            assert(pre[g].0 <= s);
                        }
                        if g > idx as int && idx < pairs@.len() {
                            assert(pre[idx as int].0 > s);
                        }
                        assert(g == idx as int);
                    }
                    pairs.insert(idx, (s, vstd::slice::slice_to_vec(e.payload.as_slice())));
                    proof {
                        let rp1 = range_pairs(entries.take(i as int + 1), begin as int, end as int);
                        let rp0 = range_pairs(entries.take(i as int), begin as int, end as int);
                        assert(rp1 =~~= rp0.push(newpair));
                        assert(sort_keyed(rp1) == insert_keyed(sort_keyed(rp0), newpair)) by {
                            assert(rp1.drop_last() =~~= rp0);
                            assert(rp1.last() == newpair);
                        }
                        assert(pair_views(pairs@) =~~= pre.insert(idx as int, newpair));
                        assert(pair_views(pairs@) =~~= sort_keyed(rp1));
                    }
                },
                None => {
                    proof {
                        assert(!entry_in_range(entries[i as int], begin as int, end as int));
                        assert(pair_views(pairs@) =~~= sort_keyed(
                            range_pairs(entries.take(i as int + 1), begin as int, end as int),
                        ));
                    }
                },
            }
            i = i + 1;
        }
        proof {
            assert(entries.take(i as int) =~= entries);
        }
        // hand out the payloads, in the sorted order
        let mut out: Vec<Vec<u8>> = Vec::new();
        let mut k: usize = 0;
        while k < pairs.len()
            invariant
                0 <= k <= pairs@.len(),
                out@.len() == k,
                forall|j: int| 0 <= j < k ==> (#[trigger] out@[j])@ == pair_views(pairs@)[j].1,
            decreases pairs@.len() - k,
        {
            out.push(vstd::slice::slice_to_vec(pairs[k].1.as_slice()));
            k = k + 1;
        }
        proof {
            assert forall|j: int|
                0 <= j < out@.len() implies #[trigger] out.deep_view()[j] == sorted_range_payloads(
                self@,
                begin as int,
                end as int,
            )[j] by {
                assert(out.deep_view()[j] =~= out@[j].deep_view());
                assert(out@[j].deep_view() =~= out@[j]@);
            }
            assert(out.deep_view() =~~= sorted_range_payloads(self@, begin as int, end as int));
        }
        out
    }

    /// The greatest outbound sequence number journalled, if any.
    #[verifier::loop_isolation(false)]
pub fn last_outbound_seq(&self) -> (r: Option<u32>)
        ensures
            match r {
                Some(v) => last_out_seq(self@) == Some(v as int),
                None => last_out_seq(self@) is None,
            },
    {
        let ghost entries = self@;
        let mut best: Option<u32> = None;
        let mut i: usize = 0;
        proof {
            assert(entries.take(0) =~= Seq::<EntryModel>::empty());
        }
        while i < self.entries.len()
            invariant
                0 <= i <= self@.len(),
                entries == self@,
                match best {
                    Some(v) => last_out_seq(entries.take(i as int)) == Some(v as int),
                    None => last_out_seq(entries.take(i as int)) is None,
                },
            decreases self@.len() - i,
        {
            let e = &self.entries[i];
            proof {
                assert(entries.take(i as int + 1).drop_last() =~= entries.take(i as int));
                assert(entries.take(i as int + 1).last() == entries[i as int]);
                assert(e@ == entries[i as int]);
            }
            match (e.direction, e.seq) {
                (Direction::Outbound, Some(s)) => {
                    match best {
                        Some(v) => if s > v {
                            best = Some(s);
                        },
                        None => {
                            best = Some(s);
                        },
                    }
                },
                _ => {},
            }
            i = i + 1;
        }
        proof {
            assert(entries.take(i as int) =~= entries);
        }
        best
    }

    /// The file-layer record for the entry at `i`, base64 payload and
    /// all.
    pub fn record_at(&self, session: &SessionKey, i: usize) -> (r: StoredMessageRecord)
        requires
            i < self@.len(),
        ensures
            r.session.sender_comp_id@ == session.sender_comp_id@,
            r.session.target_comp_id@ == session.target_comp_id@,
            r.direction == self@[i as int].direction,
            r.seq == self@[i as int].seq,
            r.ts_millis as int == self@[i as int].ts_millis,
            r.payload_b64@ == base64_of(self@[i as int].payload),
    {
        let e = &self.entries[i];
        StoredMessageRecord {
            session: SessionKey {
                sender_comp_id: session.sender_comp_id.clone(),
                target_comp_id: session.target_comp_id.clone(),
            },
            direction: e.direction,
            seq: e.seq,
            ts_millis: e.ts_millis,
            payload_b64: b64_encode(e.payload.as_slice()),
        }
    }
}

/// Whether `p` is the `(seq, payload)` pair of some journalled
/// outbound entry of the range.
pub open spec fn pair_witnessed(
    entries: Seq<EntryModel>,
    begin: int,
    end: int,
    p: (u32, Seq<u8>),
) -> bool {
    exists|k: int|
        0 <= k < entries.len() && entry_in_range(#[trigger] entries[k], begin, end) && p == ((
        entries[k].seq.unwrap(),
        entries[k].payload,
    ))
}

/// Replay returns exactly the outbound records of the range: in a
/// well-sequenced journal the pairs are strictly ascending by
/// sequence number, each journalled in-range outbound record appears,
/// every pair returned is witnessed by a journalled record, and the
/// sort the loader applies is then the identity, so what it hands out
/// is exactly this pair run in journal order.
pub proof fn lemma_journal_replay(entries: Seq<EntryModel>, begin: int, end: int)
    requires
        well_sequenced(entries),
    ensures
        range_payloads(entries, begin, end) == range_pairs(entries, begin, end).map_values(
            |p: (u32, Seq<u8>)| p.1,
        ),
        sort_keyed(range_pairs(entries, begin, end)) == range_pairs(entries, begin, end),
        sorted_range_payloads(entries, begin, end) == range_payloads(entries, begin, end),
        forall|i: int, j: int|
            0 <= i < j < range_pairs(entries, begin, end).len() ==> (#[trigger] range_pairs(
                entries,
                begin,
                end,
            )[i]).0 < (#[trigger] range_pairs(entries, begin, end)[j]).0,
        forall|k: int|
            0 <= k < entries.len() && entry_in_range(#[trigger] entries[k], begin, end)
                ==> range_pairs(entries, begin, end).contains(
                ((entries[k].seq.unwrap(), entries[k].payload)),
            ),
        forall|i: int|
            0 <= i < range_pairs(entries, begin, end).len() ==> pair_witnessed(
                entries,
                begin,
                end,
                #[trigger] range_pairs(entries, begin, end)[i],
            ),
{
    lemma_range_pairs_props(entries, begin, end);
    assert(key_sorted(range_pairs(entries, begin, end)));
    lemma_sort_keyed_of_sorted(range_pairs(entries, begin, end));
}

/// The inductive heart of the replay facts.
proof fn lemma_range_pairs_props(entries: Seq<EntryModel>, begin: int, end: int)
    requires
        well_sequenced(entries),
    ensures
        forall|i: int, j: int|
            0 <= i < j < range_pairs(entries, begin, end).len() ==> (#[trigger] range_pairs(
                entries,
                begin,
                end,
            )[i]).0 < (#[trigger] range_pairs(entries, begin, end)[j]).0,
        forall|k: int|
            0 <= k < entries.len() && entry_in_range(#[trigger] entries[k], begin, end)
                ==> range_pairs(entries, begin, end).contains(
                ((entries[k].seq.unwrap(), entries[k].payload)),
            ),
        forall|i: int|
            0 <= i < range_pairs(entries, begin, end).len() ==> pair_witnessed(
                entries,
                begin,
                end,
                #[trigger] range_pairs(entries, begin, end)[i],
            ),
    decreases entries.len(),
{
    if entries.len() > 0 {
        let dl = entries.drop_last();
        assert(well_sequenced(dl)) by {
            assert(forall|i: int| 0 <= i < dl.len() ==> #[trigger] dl[i] == entries[i]);
        }
        lemma_range_pairs_props(dl, begin, end);
        let rp = range_pairs(entries, begin, end);
        let rdl = range_pairs(dl, begin, end);
        assert(forall|i: int| 0 <= i < dl.len() ==> #[trigger] dl[i] == entries[i]);
        // each pair of the shorter run is witnessed in the longer journal too
        assert forall|i: int| 0 <= i < rdl.len() implies pair_witnessed(
            entries,
            begin,
            end,
            #[trigger] rdl[i],
        ) by {
            assert(pair_witnessed(dl, begin, end, rdl[i]));
            let k = choose|k: int|
                0 <= k < dl.len() && entry_in_range(#[trigger] dl[k], begin, end) && rdl[i] == ((
                dl[k].seq.unwrap(),
                dl[k].payload,
            ));
            assert(entries[k] == dl[k]);
            assert(entry_in_range(entries[k], begin, end));
        }
        if entry_in_range(entries.last(), begin, end) {
            let lastpair = ((entries.last().seq.unwrap(), entries.last().payload));
            assert(rp =~~= rdl.push(lastpair));
            // the new last pair dominates every earlier one
            assert forall|i: int| 0 <= i < rdl.len() implies (#[trigger] rdl[i]).0
                < lastpair.0 by {
                assert(pair_witnessed(dl, begin, end, rdl[i]));
                let k = choose|k: int|
                    0 <= k < dl.len() && entry_in_range(#[trigger] dl[k], begin, end) && rdl[i]
                        == ((dl[k].seq.unwrap(), dl[k].payload));
                assert(entries[k].seq.unwrap() < entries.last().seq.unwrap());
            }
            assert forall|k: int|
                0 <= k < entries.len() && entry_in_range(
                    #[trigger] entries[k],
                    begin,
                    end,
                ) implies rp.contains(
                ((entries[k].seq.unwrap(), entries[k].payload)),
            ) by {
                if k < entries.len() - 1 {
                    assert(rdl.contains(((dl[k].seq.unwrap(), dl[k].payload))));
                    let i = choose|i: int|
                        0 <= i < rdl.len() && rdl[i] == ((dl[k].seq.unwrap(), dl[k].payload));
                    assert(rp[i] == rdl[i]);
                } else {
                    assert(rp[rp.len() - 1] == lastpair);
                }
            }
            assert forall|i: int| 0 <= i < rp.len() implies pair_witnessed(
                entries,
                begin,
                end,
                #[trigger] rp[i],
            ) by {
                if i < rdl.len() {
                    assert(rp[i] == rdl[i]);
                } else {
                    let k = entries.len() - 1;
                    assert(rp[i] == lastpair);
                    assert(entry_in_range(entries[k], begin, end));
                    assert(pair_witnessed(entries, begin, end, rp[i]));
                }
            }
        } else {
            assert(rp =~~= rdl);
            assert forall|k: int|
                0 <= k < entries.len() && entry_in_range(
                    #[trigger] entries[k],
                    begin,
                    end,
                ) implies rp.contains(
                ((entries[k].seq.unwrap(), entries[k].payload)),
            ) by {
                assert(k < entries.len() - 1);
                assert(rdl.contains(((dl[k].seq.unwrap(), dl[k].payload))));
            }
            assert forall|i: int| 0 <= i < rp.len() implies pair_witnessed(
                entries,
                begin,
                end,
                #[trigger] rp[i],
            ) by {
                assert(rp[i] == rdl[i]);
            }
        }
    }
}

/// In a well-sequenced journal the greatest outbound sequence number
/// is the one journalled last; after a session sent messages one
/// through N, it is N.
pub proof fn lemma_last_outbound_is_last(entries: Seq<EntryModel>, k: int)
    requires
        well_sequenced(entries),
        0 <= k < entries.len(),
        entries[k].direction == Direction::Outbound,
        entries[k].seq is Some,
        forall|j: int|
            k < j < entries.len() ==> !((#[trigger] entries[j]).direction == Direction::Outbound
                && entries[j].seq is Some),
    ensures
        last_out_seq(entries) == Some(entries[k].seq.unwrap() as int),
    decreases entries.len(),
{
    if k == entries.len() - 1 {
        lemma_last_out_seq_bound(entries.drop_last());
        let rest = last_out_seq(entries.drop_last());
        match rest {
            Some(m) => {
                let dl = entries.drop_last();
                assert(forall|i: int| 0 <= i < dl.len() ==> #[trigger] dl[i] == entries[i]);
                let w = choose|w: int|
                    0 <= w < dl.len() && dl[w].direction == Direction::Outbound && dl[w].seq
                        is Some && dl[w].seq.unwrap() as int == m;
                assert(entries[w].seq.unwrap() < entries[k].seq.unwrap());
            },
            None => {},
        }
    } else {
        let dl = entries.drop_last();
        assert(forall|i: int| 0 <= i < dl.len() ==> #[trigger] dl[i] == entries[i]);
        assert(well_sequenced(dl));
        lemma_last_outbound_is_last(dl, k);
        assert(!(entries.last().direction == Direction::Outbound && entries.last().seq is Some));
    }
}

/// Any maximum the fold reports is witnessed by some entry.
proof fn lemma_last_out_seq_bound(entries: Seq<EntryModel>)
    ensures
        match last_out_seq(entries) {
            Some(m) => exists|w: int|
                0 <= w < entries.len() && (#[trigger] entries[w]).direction == Direction::Outbound
                    && entries[w].seq is Some && entries[w].seq.unwrap() as int == m,
            None => forall|w: int|
                0 <= w < entries.len() ==> !((#[trigger] entries[w]).direction
                    == Direction::Outbound && entries[w].seq is Some),
        },
    decreases entries.len(),
{
    if entries.len() > 0 {
        lemma_last_out_seq_bound(entries.drop_last());
        let dl = entries.drop_last();
        assert(forall|i: int| 0 <= i < dl.len() ==> #[trigger] dl[i] == entries[i]);
        match last_out_seq(entries) {
            Some(m) => {
                let e = entries.last();
                if e.direction == Direction::Outbound && e.seq is Some {
                    match last_out_seq(dl) {
                        Some(m0) => {
                            if e.seq.unwrap() as int > m0 {
                                assert(entries[entries.len() - 1].seq.unwrap() as int == m);
                            } else {
                                let w = choose|w: int|
                                    0 <= w < dl.len() && (#[trigger] dl[w]).direction
                                        == Direction::Outbound && dl[w].seq is Some
                                        && dl[w].seq.unwrap() as int == m0;
                                assert(entries[w].seq.unwrap() as int == m);
                            }
                        },
                        None => {
                            assert(entries[entries.len() - 1].seq.unwrap() as int == m);
                        },
                    }
                } else {
                    let w = choose|w: int|
                        0 <= w < dl.len() && (#[trigger] dl[w]).direction == Direction::Outbound
                            && dl[w].seq is Some && dl[w].seq.unwrap() as int == m;
                    assert(entries[w].seq.unwrap() as int == m);
                }
            },
            None => {
                assert forall|w: int| 0 <= w < entries.len() implies !((
                #[trigger] entries[w]).direction == Direction::Outbound && entries[w].seq
                    is Some) by {
                    if w < entries.len() - 1 {
                        assert(dl[w] == entries[w]);
                    }
                }
            },
        }
    }
}

/// Reads one `<seq> <offset>` index line: the digits before the first
/// space and the digits after it, refused exactly when there is no
/// space or either side is not a decimal its type can hold.
pub fn parse_index_line(line: &[u8]) -> (r: Option<(u32, u64)>)
    ensures
        match r {
            Some(p) => ({
                let sp = find_ix(line@, 32);
                &&& 0 < sp < line@.len()
                &&& is_digits(line@.take(sp)) && line@.take(sp).len() > 0 && dec_val(
                    line@.take(sp),
                ) == p.0 as int
                &&& is_digits(line@.skip(sp + 1)) && line@.skip(sp + 1).len() > 0 && dec_val(
                    line@.skip(sp + 1),
                ) == p.1 as int
            }),
            None => ({
                let sp = find_ix(line@, 32);
                ||| sp >= line@.len()
                ||| !(line@.take(sp).len() > 0 && is_digits(line@.take(sp)) && dec_val(
                    line@.take(sp),
                ) <= u32::MAX)
                ||| !(line@.skip(sp + 1).len() > 0 && is_digits(line@.skip(sp + 1)) && dec_val(
                    line@.skip(sp + 1),
                ) <= u64::MAX)
            }),
        },
{
    let sp: usize = match crate::scan::find_byte_from(line, 0, 32) {
        Some(i) => i,
        None => {
            proof {
                crate::scan::lemma_find_ix(line@, 32);
                let f = find_ix(line@, 32);
                if f < line@.len() {
                    assert(line@[f] != 32);
                }
            }
            return None;
        },
    };
    proof {
        crate::scan::lemma_find_ix(line@, 32);
        let f = find_ix(line@, 32);
        if f < sp as int {
            assert(line@[f] != 32);
        }
        if f > sp as int {
            assert(line@[sp as int] != 32);
        }
        assert(f == sp as int);
    }
    let n = line.len();
    let seq_txt = vstd::slice::slice_subrange(line, 0, sp);
    let off_txt = vstd::slice::slice_subrange(line, sp + 1, n);
    proof {
        assert(seq_txt@ =~= line@.take(sp as int));
        assert(off_txt@ =~= line@.skip(sp as int + 1));
    }
    let s = match parse_u32_dec(seq_txt) {
        Some(v) => v,
        None => {
            return None;
        },
    };
    let o = match parse_u64_dec(off_txt) {
        Some(v) => v,
        None => {
            return None;
        },
    };
    Some((s, o))
}

/// The index entries with sequence numbers in `begin..=end`, sorted
/// ascending by sequence number.
#[verifier::loop_isolation(false)]
pub fn index_filter_range(entries: &Vec<(u32, u64)>, begin: u32, end: u32) -> (r: Vec<(u32, u64)>)
    ensures
        r@ == sort_keyed(entries@.filter(|p: (u32, u64)| begin <= p.0 <= end)),
{
    let mut out: Vec<(u32, u64)> = Vec::new();
    let mut i: usize = 0;
    proof {
        assert(entries@.take(0) =~= Seq::<(u32, u64)>::empty());
        assert(out@ =~= sort_keyed(entries@.take(0).filter(|p: (u32, u64)| begin <= p.0 <= end)));
    }
    while i < entries.len()
        invariant
            0 <= i <= entries@.len(),
            out@ =~= sort_keyed(entries@.take(i as int).filter(|p: (u32, u64)| begin <= p.0 <= end)),
        decreases entries@.len() - i,
    {
        let ghost pre = out@;
        let e = entries[i];
        proof {
            assert(entries@.take(i as int + 1).drop_last() =~= entries@.take(i as int));
            assert(entries@.take(i as int + 1).last() == entries@[i as int]);
            reveal_with_fuel(Seq::filter, 2);
        }
        if begin <= e.0 && e.0 <= end {
            // the stable position: before the first strictly greater key
            let mut idx: usize = 0;
            while idx < out.len() && out[idx].0 <= e.0
                invariant
                    0 <= idx <= out@.len(),
                    out@ == pre,
                    forall|j: int| 0 <= j < idx ==> (#[trigger] out@[j]).0 <= e.0,
                decreases out@.len() - idx,
            {
                idx = idx + 1;
            }
            proof {
                lemma_insert_keyed_at(pre, e);
                let g = keyed_gt_ix(pre, e.0);
                if g < idx as int {
                    assert(pre[g].0 <= e.0);
                }
                if g > idx as int && idx < pre.len() {
                    assert(pre[idx as int].0 > e.0);
                }
                assert(g == idx as int);
            }
            out.insert(idx, e);
            proof {
                let f0 = entries@.take(i as int).filter(|p: (u32, u64)| begin <= p.0 <= end);
                let f1 = entries@.take(i as int + 1).filter(|p: (u32, u64)| begin <= p.0 <= end);
                assert(f1 =~= f0.push(entries@[i as int]));
                assert(sort_keyed(f1) == insert_keyed(sort_keyed(f0), entries@[i as int])) by {
                    assert(f1.drop_last() =~= f0);
                    assert(f1.last() == entries@[i as int]);
                }
                assert(out@ =~= pre.insert(idx as int, e));
                assert(out@ =~= sort_keyed(f1));
            }
        } else {
            proof {
                assert(out@ =~= sort_keyed(
                    entries@.take(i as int + 1).filter(|p: (u32, u64)| begin <= p.0 <= end),
                ));
            }
        }
        i = i + 1;
    }
    proof {
        assert(entries@.take(i as int) =~= entries@);
    }
    out
}

/// The greatest sequence number in an index, if any.
#[verifier::loop_isolation(false)]
pub fn index_max_seq(entries: &Vec<(u32, u64)>) -> (r: Option<u32>)
    ensures
        match r {
            Some(m) => (exists|i: int|
                0 <= i < entries@.len() && (#[trigger] entries@[i]).0 == m) && forall|i: int|
                0 <= i < entries@.len() ==> (#[trigger] entries@[i]).0 <= m,
            None => entries@.len() == 0,
        },
{
    let mut best: Option<u32> = None;
    let mut i: usize = 0;
    while i < entries.len()
        invariant
            0 <= i <= entries@.len(),
            match best {
                Some(m) => (exists|j: int|
                    0 <= j < i && (#[trigger] entries@[j]).0 == m) && forall|j: int|
                    0 <= j < i ==> (#[trigger] entries@[j]).0 <= m,
                None => i == 0,
            },
        decreases entries@.len() - i,
    {
        let e = entries[i];
        match best {
            Some(m) => if e.0 > m {
                best = Some(e.0);
            },
            None => {
                best = Some(e.0);
            },
        }
        i = i + 1;
    }
    best
}

} // verus!
