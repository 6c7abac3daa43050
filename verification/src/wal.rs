//! The write-ahead log: its record framing, the buffer of records not yet durable, and the
//! payloads that describe an insert or a delete.
use crate::buffer::{BufferError, LogManager};
use crate::storage::StorageError;
use vstd::bytes::*;
use vstd::prelude::*;
use vstd::string::*;

verus! {

broadcast use vstd::seq_lib::group_seq_properties;

/// How one record is framed in the log file: its sequence number (8 bytes), the payload length
/// (4 bytes), then the payload; all little-endian.
pub open spec fn frame(lsn: u64, payload: Seq<u8>) -> Seq<u8> {
    spec_u64_to_le_bytes(lsn) + spec_u32_to_le_bytes(payload.len() as u32) + payload
}

/// The log bytes of a sequence of records.
pub open spec fn frames(records: Seq<(u64, Seq<u8>)>) -> Seq<u8>
    decreases records.len(),
{
    if records.len() == 0 {
        Seq::empty()
    } else {
        frames(records.drop_last()) + frame(records.last().0, records.last().1)
    }
}

/// The payloads read back from log bytes: records are read while a whole header and a whole
/// payload remain; anything shorter at the end is ignored.
pub open spec fn parse_frames(b: Seq<u8>) -> Seq<Seq<u8>>
    decreases b.len(),
{
    if b.len() < 12 {
        Seq::empty()
    } else {
        let len = spec_u32_from_le_bytes(b.subrange(8, 12)) as int;
        if b.len() < 12 + len {
            Seq::empty()
        } else {
            seq![b.subrange(12, 12 + len)] + parse_frames(b.subrange(12 + len, b.len() as int))
        }
    }
}

/// The payloads of records.
pub open spec fn payloads(records: Seq<(u64, Seq<u8>)>) -> Seq<Seq<u8>> {
    records.map_values(|r: (u64, Seq<u8>)| r.1)
}

/// Every payload's length fits the 32-bit length field.
pub open spec fn lengths_fit(records: Seq<(u64, Seq<u8>)>) -> bool {
    forall|i: int| 0 <= i < records.len() ==> (#[trigger] records[i]).1.len() <= u32::MAX
}

/// The framing as written, read from the front.
proof fn lemma_frames_front(records: Seq<(u64, Seq<u8>)>)
    requires
        records.len() > 0,
    ensures
        frames(records) == frame(records[0].0, records[0].1) + frames(records.drop_first()),
    decreases records.len(),
{
    if records.len() == 1 {
        assert(records.drop_first().len() == 0);
        assert(records.drop_last().len() == 0);
        assert(frames(records) =~= frame(records[0].0, records[0].1) + frames(records.drop_first()));
    } else {
        let init = records.drop_last();
        lemma_frames_front(init);
        assert(init.drop_first() =~= records.drop_first().drop_last());
        assert(records.drop_first().last() == records.last());
        assert(frames(records) =~= frame(records[0].0, records[0].1) + frames(records.drop_first()));
    }
}

/// Reading back the bytes of records gives their payloads.
pub proof fn lemma_log_round_trip(records: Seq<(u64, Seq<u8>)>)
    requires
        lengths_fit(records),
    ensures
        parse_frames(frames(records)) == payloads(records),
    decreases records.len(),
{
    if records.len() == 0 {
        assert(payloads(records) =~= Seq::<Seq<u8>>::empty());
    } else {
        lemma_frames_front(records);
        let (lsn, p) = records[0];
        let rest = records.drop_first();
        assert(lengths_fit(rest)) by {
            assert forall|i: int| 0 <= i < rest.len() implies (#[trigger] rest[i]).1.len() <= u32::MAX by {
                assert(rest[i] == records[i + 1]);
            }
        }
        lemma_log_round_trip(rest);
        let b = frames(records);
        lemma_auto_spec_u64_to_from_le_bytes();
        lemma_auto_spec_u32_to_from_le_bytes();
        let h8 = spec_u64_to_le_bytes(lsn);
        let h4 = spec_u32_to_le_bytes(p.len() as u32);
        assert(h8.len() == 8 && h4.len() == 4);
        assert(b.subrange(8, 12) =~= h4);
        assert(spec_u32_from_le_bytes(h4) == p.len() as u32);
        assert(b.subrange(12, 12 + p.len() as int) =~= p);
        assert(b.subrange(12 + p.len() as int, b.len() as int) =~= frames(rest));
        assert(payloads(records) =~= seq![p] + payloads(rest));
    }
}

/// Appends one framed record to `out`; the length field keeps the low 32 bits of the payload's
/// length.
pub fn push_frame(out: &mut Vec<u8>, lsn: u64, payload: &[u8])
    ensures
        final(out)@ == old(out)@ + frame(lsn, payload@),
{
    let a = u64_to_le_bytes(lsn);
    let mut i: usize = 0;
    while i < 8
        invariant
            i <= 8,
            a@ == spec_u64_to_le_bytes(lsn),
            a@.len() == 8,
            out@ == old(out)@ + a@.subrange(0, i as int),
        decreases 8 - i,
    {
        out.push(a[i]);
        i += 1;
        proof {
            assert(out@ =~= old(out)@ + a@.subrange(0, i as int));
        }
    }
    let ghost after_lsn = out@;
    let b = u32_to_le_bytes(payload.len() as u32);
    let mut j: usize = 0;
    while j < 4
        invariant
            j <= 4,
            b@ == spec_u32_to_le_bytes(payload@.len() as u32),
            b@.len() == 4,
            out@ == after_lsn + b@.subrange(0, j as int),
        decreases 4 - j,
    {
        out.push(b[j]);
        j += 1;
        proof {
            assert(out@ =~= after_lsn + b@.subrange(0, j as int));
        }
    }
    let ghost after_len = out@;
    let mut k: usize = 0;
    while k < payload.len()
        invariant
            k <= payload@.len(),
            out@ == after_len + payload@.subrange(0, k as int),
        decreases payload@.len() - k,
    {
        out.push(payload[k]);
        k += 1;
        proof {
            assert(out@ =~= after_len + payload@.subrange(0, k as int));
        }
    }
    proof {
        assert(a@.subrange(0, 8) =~= a@);
        assert(b@.subrange(0, 4) =~= b@);
        assert(payload@.subrange(0, payload@.len() as int) =~= payload@);
        assert(out@ =~= old(out)@ + frame(lsn, payload@));
    }
}

/// Reads the payloads out of log bytes, as the recovery pass does.
pub fn parse_log(bytes: &Vec<u8>) -> (r: Vec<Vec<u8>>)
    ensures
        r@.map_values(|v: Vec<u8>| v@) == parse_frames(bytes@),
{
    let mut out: Vec<Vec<u8>> = Vec::new();
    let mut pos: usize = 0;
    let n = bytes.len();
    proof {
        assert(bytes@.subrange(0, n as int) =~= bytes@);
        assert(out@.map_values(|v: Vec<u8>| v@) =~= Seq::<Seq<u8>>::empty());
        assert(Seq::<Seq<u8>>::empty() + parse_frames(bytes@) =~= parse_frames(bytes@));
    }
    while pos <= n
        invariant
            n == bytes@.len(),
            pos <= n,
            out@.map_values(|v: Vec<u8>| v@) + parse_frames(bytes@.subrange(pos as int, n as int)) == parse_frames(bytes@),
        decreases n - pos,
    {
        let ghost rest = bytes@.subrange(pos as int, n as int);
        if n - pos < 12 {
            proof {
                assert(parse_frames(rest) =~= Seq::<Seq<u8>>::empty());
                assert(out@.map_values(|v: Vec<u8>| v@) =~= parse_frames(bytes@));
            }
            return out;
        }
        let len = u32_from_le_bytes(&bytes.as_slice()[pos + 8..pos + 12]) as usize;
        proof {
            assert(bytes@.subrange(pos + 8, pos + 12) =~= rest.subrange(8, 12));
        }
        if n - pos - 12 < len {
            proof {
                assert(parse_frames(rest) =~= Seq::<Seq<u8>>::empty());
                assert(out@.map_values(|v: Vec<u8>| v@) =~= parse_frames(bytes@));
            }
            return out;
        }
        let start = pos + 12;
        let end = start + len;
        let mut payload: Vec<u8> = Vec::new();
        let mut k = start;
        while k < end
            invariant
                start <= k <= end <= n,
                n == bytes@.len(),
                payload@ == bytes@.subrange(start as int, k as int),
            decreases end - k,
        {
            payload.push(bytes[k]);
            k += 1;
            proof {
                assert(payload@ =~= bytes@.subrange(start as int, k as int));
            }
        }
        let ghost before = out@;
        out.push(payload);
        proof {
            assert(rest.subrange(12, 12 + len) =~= bytes@.subrange(start as int, end as int));
            assert(rest.subrange(12 + len, rest.len() as int) =~= bytes@.subrange(end as int, n as int));
            assert(out@.map_values(|v: Vec<u8>| v@) =~= before.map_values(|v: Vec<u8>| v@).push(bytes@.subrange(start as int, end as int)));
            assert(parse_frames(rest) =~= seq![bytes@.subrange(start as int, end as int)] + parse_frames(bytes@.subrange(end as int, n as int)));
        }
        pos = end;
    }
    out
}

/// The log records not yet durable, and the sequence numbers handed out and made durable.
#[derive(Debug)]
pub struct WalBuffer {
    /// The highest sequence number known durable.
    pub flushed_lsn: u64,
    /// The sequence number the next record gets.
    pub next_lsn: u64,
    /// The buffered records, in append order.
    pub records: Vec<(u64, Vec<u8>)>,
}

/// The log's size in bytes, counted in 64 bits with wrap-around: `disk` plus, per buffered
/// record, its payload's length and 12 header bytes.
pub open spec fn log_total(disk: u64, records: Seq<(u64, Seq<u8>)>) -> u64
    decreases records.len(),
{
    if records.len() == 0 {
        disk
    } else {
        log_total(disk, records.drop_last()).wrapping_add((records.last().1.len() as u64).wrapping_add(12))
    }
}

impl WalBuffer {
    /// The buffered records, in append order.
    pub closed spec fn buffered(&self) -> Seq<(u64, Seq<u8>)> {
        self.records@.map_values(|r: (u64, Vec<u8>)| (r.0, r.1@))
    }

    /// An empty log: nothing durable, the first record gets sequence number 1.
    pub fn new() -> (r: Self)
        ensures
            r.flushed_lsn == 0,
            r.next_lsn == 1,
            r.buffered() == Seq::<(u64, Seq<u8>)>::empty(),
    {
        let r = WalBuffer { flushed_lsn: 0, next_lsn: 1, records: Vec::new() };
        proof {
            assert(r.buffered() =~= Seq::<(u64, Seq<u8>)>::empty());
        }
        r
    }

    /// Buffers a record under the next sequence number and returns that number.
    pub fn append_record(&mut self, payload: &[u8]) -> (r: u64)
        ensures
            r == old(self).next_lsn,
            final(self).next_lsn == old(self).next_lsn.wrapping_add(1),
            final(self).flushed_lsn == old(self).flushed_lsn,
            final(self).buffered() == old(self).buffered().push((r, payload@)),
    {
        let lsn = self.next_lsn;
        self.next_lsn = self.next_lsn.wrapping_add(1);
        let mut copy: Vec<u8> = Vec::new();
        let mut i: usize = 0;
        while i < payload.len()
            invariant
                i <= payload@.len(),
                copy@ == payload@.subrange(0, i as int),
            decreases payload@.len() - i,
        {
            copy.push(payload[i]);
            i += 1;
            proof {
                assert(copy@ =~= payload@.subrange(0, i as int));
            }
        }
        proof {
            assert(copy@ =~= payload@);
        }
        let ghost before = self.buffered();
        self.records.push((lsn, copy));
        proof {
            assert(self.buffered() =~= before.push((lsn, payload@)));
        }
        lsn
    }

    /// Takes out the buffered records with sequence numbers up to `lsn`, in order, framed for
    /// the log file, with the highest sequence number they reach; the others stay buffered.
    /// Nothing happens when `lsn` is already durable.
    pub fn take_up_to(&mut self, lsn: u64) -> (r: (Vec<u8>, u64))
        ensures
            final(self).flushed_lsn == old(self).flushed_lsn,
            final(self).next_lsn == old(self).next_lsn,
            lsn <= old(self).flushed_lsn ==> r.0@.len() == 0 && r.1 == old(self).flushed_lsn && final(self).buffered()
                == old(self).buffered(),
            lsn > old(self).flushed_lsn ==> {
                &&& r.0@ == frames(old(self).buffered().filter(|x: (u64, Seq<u8>)| x.0 <= lsn))
                &&& final(self).buffered() == old(self).buffered().filter(|x: (u64, Seq<u8>)| !(x.0 <= lsn))
                &&& r.1 >= old(self).flushed_lsn
                &&& forall|i: int|
                    0 <= i < old(self).buffered().len() && (#[trigger] old(self).buffered()[i]).0 <= lsn ==> old(
                        self,
                    ).buffered()[i].0 <= r.1
                &&& r.1 == old(self).flushed_lsn || exists|i: int|
                    0 <= i < old(self).buffered().len() && (#[trigger] old(self).buffered()[i]).0 <= lsn
                        && old(self).buffered()[i].0 == r.1
            },
    {
        let mut bytes: Vec<u8> = Vec::new();
        if lsn <= self.flushed_lsn {
            return (bytes, self.flushed_lsn);
        }
        let ghost all = self.buffered();
        let mut new_flushed = self.flushed_lsn;
        let mut retained: Vec<(u64, Vec<u8>)> = Vec::new();
        let mut i: usize = 0;
        while i < self.records.len()
            invariant
                all == self.buffered(),
                i <= self.records@.len(),
                bytes@ == frames(all.subrange(0, i as int).filter(|x: (u64, Seq<u8>)| x.0 <= lsn)),
                retained@.map_values(|r: (u64, Vec<u8>)| (r.0, r.1@)) == all.subrange(0, i as int).filter(
                    |x: (u64, Seq<u8>)| !(x.0 <= lsn),
                ),
                new_flushed >= old(self).flushed_lsn,
                forall|k: int| 0 <= k < i && (#[trigger] all[k]).0 <= lsn ==> all[k].0 <= new_flushed,
                new_flushed == old(self).flushed_lsn || exists|k: int|
                    0 <= k < i && (#[trigger] all[k]).0 <= lsn && all[k].0 == new_flushed,
            decreases self.records@.len() - i,
        {
            let rec_lsn = self.records[i].0;
            let ghost sub = all.subrange(0, i as int);
            proof {
                assert(all.subrange(0, i + 1) =~= sub.push(all[i as int]));
                sub.lemma_filter_push(all[i as int], |x: (u64, Seq<u8>)| x.0 <= lsn);
                sub.lemma_filter_push(all[i as int], |x: (u64, Seq<u8>)| !(x.0 <= lsn));
                assert(all[i as int] == (rec_lsn, self.records@[i as int].1@));
            }
            if rec_lsn <= lsn {
                push_frame(&mut bytes, rec_lsn, self.records[i].1.as_slice());
                if rec_lsn > new_flushed {
                    new_flushed = rec_lsn;
                }
                proof {
                    let f = sub.filter(|x: (u64, Seq<u8>)| x.0 <= lsn);
                    assert(f.push(all[i as int]).drop_last() =~= f);
                }
            } else {
                let copy = (rec_lsn, self.records[i].1.clone());
                proof {
                    assert(copy.1@ =~= self.records@[i as int].1@);
                }
                let ghost before = retained@;
                retained.push(copy);
                proof {
                    assert(retained@.map_values(|r: (u64, Vec<u8>)| (r.0, r.1@)) =~= before.map_values(
                        |r: (u64, Vec<u8>)| (r.0, r.1@),
                    ).push(all[i as int]));
                }
            }
            i += 1;
        }
        proof {
            assert(all.subrange(0, all.len() as int) =~= all);
        }
        self.records = retained;
        (bytes, new_flushed)
    }

    /// Bytes the log takes: what is on disk plus, per buffered record, its payload and 12
    /// header bytes.
    pub fn log_size(&self, disk_size: u64) -> (r: u64)
        ensures
            r == log_total(disk_size, self.buffered()),
    {
        let mut total = disk_size;
        let mut i: usize = 0;
        while i < self.records.len()
            invariant
                i <= self.records@.len(),
                total == log_total(disk_size, self.buffered().take(i as int)),
            decreases self.records@.len() - i,
        {
            proof {
                let b = self.buffered();
                assert(b.take(i + 1).drop_last() =~= b.take(i as int));
                assert(b.take(i + 1).last() == b[i as int]);
                assert(b[i as int].1 == self.records@[i as int].1@);
            }
            total = total.wrapping_add((self.records[i].1.len() as u64).wrapping_add(12));
            i += 1;
        }
        assert(self.buffered().take(i as int) =~= self.buffered());
        total
    }
}

// ---------------------------------------------------------------------------
// Insert and delete payloads
// ---------------------------------------------------------------------------

/// The payload logged for a change: the operation byte (0 for an insert, 1 for a delete),
/// the table name's length (2 bytes, little-endian), the name, then the tuple's bytes.
pub open spec fn change_payload(op: u8, table: Seq<u8>, tuple: Seq<u8>) -> Seq<u8> {
    seq![op] + spec_u16_to_le_bytes(table.len() as u16) + table + tuple
}

/// What the recovery pass reads from a payload: the operation, the table name's bytes and
/// the tuple's bytes, when the payload is longer than 3 bytes, names a table, and holds the
/// whole name.
pub open spec fn read_change(rec: Seq<u8>) -> Option<(u8, Seq<u8>, Seq<u8>)> {
    if rec.len() <= 3 {
        None
    } else {
        let n = spec_u16_from_le_bytes(rec.subrange(1, 3)) as int;
        if n > 0 && rec.len() >= 3 + n {
            Some((rec[0], rec.subrange(3, 3 + n), rec.subrange(3 + n, rec.len() as int)))
        } else {
            None
        }
    }
}

/// Builds the payload for a change.
pub fn encode_change(op: u8, table: &[u8], tuple: &[u8]) -> (r: Vec<u8>)
    requires
        table@.len() <= u16::MAX,
    ensures
        r@ == change_payload(op, table@, tuple@),
{
    let mut out: Vec<u8> = Vec::new();
    out.push(op);
    let l = u16_to_le_bytes(table.len() as u16);
    out.push(l[0]);
    out.push(l[1]);
    let mut i: usize = 0;
    let ghost start = out@;
    while i < table.len()
        invariant
            i <= table@.len(),
            out@ == start + table@.subrange(0, i as int),
        decreases table@.len() - i,
    {
        out.push(table[i]);
        i += 1;
        proof {
            assert(out@ =~= start + table@.subrange(0, i as int));
        }
    }
    let ghost mid = out@;
    let mut j: usize = 0;
    while j < tuple.len()
        invariant
            j <= tuple@.len(),
            out@ == mid + tuple@.subrange(0, j as int),
        decreases tuple@.len() - j,
    {
        out.push(tuple[j]);
        j += 1;
        proof {
            assert(out@ =~= mid + tuple@.subrange(0, j as int));
        }
    }
    proof {
        lemma_auto_spec_u16_to_from_le_bytes();
        assert(l@.len() == 2);
        assert(table@.subrange(0, table@.len() as int) =~= table@);
        assert(tuple@.subrange(0, tuple@.len() as int) =~= tuple@);
        assert(out@ =~= change_payload(op, table@, tuple@));
    }
    out
}

/// Reads a change payload back.
pub fn decode_change(rec: &Vec<u8>) -> (r: Option<(u8, Vec<u8>, Vec<u8>)>)
    ensures
        match r {
            Some((op, name, tuple)) => read_change(rec@) == Some((op, name@, tuple@)),
            None => read_change(rec@) is None,
        },
{
    let n = rec.len();
    if n <= 3 {
        return None;
    }
    let tn_len = u16_from_le_bytes(&rec.as_slice()[1..3]) as usize;
    proof {
        assert(rec@.subrange(1, 3) =~= rec@.subrange(1, 3));
    }
    if tn_len > 0 && n >= 3 + tn_len {
        let mut name: Vec<u8> = Vec::new();
        let mut i: usize = 3;
        while i < 3 + tn_len
            invariant
                3 <= i <= 3 + tn_len <= n,
                n == rec@.len(),
                name@ == rec@.subrange(3, i as int),
            decreases 3 + tn_len - i,
        {
            name.push(rec[i]);
            i += 1;
            proof {
                assert(name@ =~= rec@.subrange(3, i as int));
            }
        }
        let mut tuple: Vec<u8> = Vec::new();
        let mut j: usize = 3 + tn_len;
        while j < n
            invariant
                3 + tn_len <= j <= n,
                n == rec@.len(),
                tuple@ == rec@.subrange(3 + tn_len, j as int),
            decreases n - j,
        {
            tuple.push(rec[j]);
            j += 1;
            proof {
                assert(tuple@ =~= rec@.subrange(3 + tn_len, j as int));
            }
        }
        Some((rec[0], name, tuple))
    } else {
        None
    }
}

/// Reading a change payload gives back the operation, the table name and the tuple, for a
/// non-empty name of at most 65535 bytes.
pub proof fn lemma_change_round_trip(op: u8, table: Seq<u8>, tuple: Seq<u8>)
    requires
        0 < table.len() <= u16::MAX,
    ensures
        read_change(change_payload(op, table, tuple)) == Some((op, table, tuple)),
{
    let p = change_payload(op, table, tuple);
    lemma_auto_spec_u16_to_from_le_bytes();
    let l = spec_u16_to_le_bytes(table.len() as u16);
    assert(l.len() == 2);
    assert(p.subrange(1, 3) =~= l);
    assert(p.subrange(3, 3 + table.len() as int) =~= table);
    assert(p.subrange(3 + table.len() as int, p.len() as int) =~= tuple);
}

/// `s` with `b` after it.
fn concat_bytes(a: &Vec<u8>, b: &Vec<u8>) -> (r: Vec<u8>)
    ensures
        r@ == a@ + b@,
{
    let mut out: Vec<u8> = Vec::new();
    let mut i: usize = 0;
    while i < a.len()
        invariant
            i <= a@.len(),
            out@ == a@.subrange(0, i as int),
        decreases a@.len() - i,
    {
        out.push(a[i]);
        i += 1;
        proof {
            assert(out@ =~= a@.subrange(0, i as int));
        }
    }
    let mut j: usize = 0;
    while j < b.len()
        invariant
            j <= b@.len(),
            out@ == a@ + b@.subrange(0, j as int),
        decreases b@.len() - j,
    {
        out.push(b[j]);
        j += 1;
        proof {
            assert(out@ =~= a@ + b@.subrange(0, j as int));
        }
    }
    proof {
        assert(a@.subrange(0, a@.len() as int) =~= a@);
        assert(b@.subrange(0, b@.len() as int) =~= b@);
    }
    out
}

/// Records whose sequence numbers all lie above `lsn`: none is taken up to `lsn`, all stay.
proof fn lemma_all_above(s: Seq<(u64, Seq<u8>)>, lsn: u64)
    requires
        forall|i: int| 0 <= i < s.len() ==> (#[trigger] s[i]).0 > lsn,
    ensures
        s.filter(|x: (u64, Seq<u8>)| !(x.0 <= lsn)) == s,
        s.filter(|x: (u64, Seq<u8>)| x.0 <= lsn) == Seq::<(u64, Seq<u8>)>::empty(),
    decreases s.len(),
{
    reveal(Seq::filter);
    if s.len() > 0 {
        let init = s.drop_last();
        assert forall|i: int| 0 <= i < init.len() implies (#[trigger] init[i]).0 > lsn by {
            assert(init[i] == s[i]);
        }
        lemma_all_above(init, lsn);
        assert(init.push(s.last()) =~= s);
        init.lemma_filter_push(s.last(), |x: (u64, Seq<u8>)| !(x.0 <= lsn));
        init.lemma_filter_push(s.last(), |x: (u64, Seq<u8>)| x.0 <= lsn);
    } else {
        assert(s.filter(|x: (u64, Seq<u8>)| !(x.0 <= lsn)) =~= s);
        assert(s.filter(|x: (u64, Seq<u8>)| x.0 <= lsn) =~= Seq::<(u64, Seq<u8>)>::empty());
    }
}

/// A write-ahead log kept in memory: records wait in a [`WalBuffer`] and, once flushed, are
/// kept as framed bytes. Sequence numbers only grow: once the last one is handed out, further
/// records are refused.
pub struct MemoryLogManager {
    buffer: WalBuffer,
    durable: Vec<u8>,
}

/// Every buffered record's sequence number lies above the durable mark and below the next one
/// to hand out.
pub open spec fn lsns_ordered(b: WalBuffer) -> bool {
    &&& b.flushed_lsn < b.next_lsn
    &&& forall|i: int| 0 <= i < b.buffered().len() ==> b.flushed_lsn < (#[trigger] b.buffered()[i]).0 < b.next_lsn
}

impl MemoryLogManager {
    #[verifier::type_invariant]
    spec fn ordered(&self) -> bool {
        lsns_ordered(self.buffer)
    }

    /// The records not yet durable, in append order.
    pub closed spec fn pending(&self) -> Seq<(u64, Seq<u8>)> {
        self.buffer.buffered()
    }

    /// The durable log bytes.
    pub closed spec fn durable_bytes(&self) -> Seq<u8> {
        self.durable@
    }

    /// An empty log.
    pub fn new() -> (r: Self)
        ensures
            r.pending() == Seq::<(u64, Seq<u8>)>::empty(),
            r.durable_bytes() == Seq::<u8>::empty(),
    {
        MemoryLogManager { buffer: WalBuffer::new(), durable: Vec::new() }
    }

    /// A copy of the durable log bytes.
    pub fn durable_log(&self) -> (r: Vec<u8>)
        ensures
            r@ == self.durable_bytes(),
    {
        let none: Vec<u8> = Vec::new();
        let r = concat_bytes(&self.durable, &none);
        assert(r@ =~= self.durable@);
        r
    }
}

impl LogManager for MemoryLogManager {
    open spec fn models_log(&self) -> bool {
        true
    }

    open spec fn reliable(&self) -> bool {
        true
    }

    closed spec fn durable_through(&self, lsn: u64) -> bool {
        forall|i: int| 0 <= i < self.buffer.buffered().len() ==> (#[trigger] self.buffer.buffered()[i]).0 > lsn
    }

    closed spec fn waiting(&self) -> Seq<(u64, Seq<u8>)> {
        self.buffer.buffered()
    }

    closed spec fn saved(&self) -> Seq<u8> {
        self.durable@
    }

    /// Frames the buffered records up to `lsn`, in order, onto the durable bytes.
    fn flush_up_to(&mut self, lsn: u64) -> (r: Result<(), BufferError>)
        ensures
            r is Ok,
            final(self).pending() == old(self).pending().filter(|x: (u64, Seq<u8>)| !(x.0 <= lsn)),
            final(self).durable_bytes() == old(self).durable_bytes() + frames(
                old(self).pending().filter(|x: (u64, Seq<u8>)| x.0 <= lsn),
            ),
    {
        proof {
            use_type_invariant(&*self);
        }
        let ghost before = self.buffer.buffered();
        if lsn <= self.buffer.flushed_lsn {
            proof {
                lemma_all_above(before, lsn);
                assert(self.durable@ =~= self.durable@ + frames(Seq::<(u64, Seq<u8>)>::empty()));
            }
            return Ok(());
        }
        let mut buf = WalBuffer::new();
        std::mem::swap(&mut buf, &mut self.buffer);
        let ghost old_flushed = buf.flushed_lsn;
        let ghost next = buf.next_lsn;
        let (bytes, new_flushed) = buf.take_up_to(lsn);
        buf.flushed_lsn = new_flushed;
        proof {
            let p = |x: (u64, Seq<u8>)| !(x.0 <= lsn);
            let after = buf.buffered();
            assert(after == before.filter(p));
            before.filter_lemma(p);
            assert forall|i: int| 0 <= i < after.len() implies new_flushed < (#[trigger] after[i]).0 < next && after[i].0 > lsn by {
                assert(p(after[i]));
                before.lemma_filter_contains_rev(p, after[i]);
                let j = choose|j: int| 0 <= j < before.len() && before[j] == after[i];
                assert(old_flushed < before[j].0 < next);
            }
            assert(lsns_ordered(buf));
        }
        self.buffer = buf;
        self.durable = concat_bytes(&self.durable, &bytes);
        Ok(())
    }

    /// Buffers a record under the next sequence number; refused once sequence numbers run out.
    fn append_record(&mut self, payload: &[u8]) -> (r: Result<u64, BufferError>)
        ensures
            r matches Ok(n) ==> final(self).pending() == old(self).pending().push((n, payload@)),
            r is Err ==> final(self).pending() == old(self).pending(),
            final(self).durable_bytes() == old(self).durable_bytes(),
    {
        proof {
            use_type_invariant(&*self);
        }
        if self.buffer.next_lsn == u64::MAX {
            return Err(BufferError::StorageError(StorageError::IoError(String::from_str("log sequence numbers exhausted"))));
        }
        let mut buf = WalBuffer::new();
        std::mem::swap(&mut buf, &mut self.buffer);
        let ghost before = buf;
        let n = buf.append_record(payload);
        proof {
            assert forall|i: int| 0 <= i < buf.buffered().len() implies buf.flushed_lsn < (#[trigger] buf.buffered()[i]).0
                < buf.next_lsn by {
                if i < before.buffered().len() {
                    assert(buf.buffered()[i] == before.buffered()[i]);
                }
            }
        }
        self.buffer = buf;
        proof {
            assert forall|lsn: u64| #[trigger] self.durable_through(lsn) implies old(self).durable_through(lsn) by {
                assert forall|i: int| 0 <= i < old(self).buffer.buffered().len() implies (#[trigger] old(
                    self,
                ).buffer.buffered()[i]).0 > lsn by {
                    assert(self.buffer.buffered()[i] == old(self).buffer.buffered()[i]);
                }
            }
        }
        Ok(n)
    }

    /// Empties the durable log; records still buffered stay.
    fn checkpoint(&mut self) -> (r: Result<(), BufferError>)
        ensures
            r is Ok,
            final(self).durable_bytes() == Seq::<u8>::empty(),
            final(self).pending() == old(self).pending(),
    {
        proof {
            use_type_invariant(&*self);
        }
        self.durable = Vec::new();
        Ok(())
    }

    fn log_size(&self) -> u64 {
        self.buffer.log_size(self.durable.len() as u64)
    }
}

} // verus!
