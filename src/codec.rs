use vstd::prelude::*;
use crate::identity::Identity;
use crate::ledger::{keys_unique, LedgerError, LedgerRecord, MAX_ENTRIES};

verus! {

/// The eight little-endian bytes of `x`.
pub open spec fn le_bytes_u64(x: u64) -> Seq<u8> {
    seq![
        x as u8,
        (x >> 8u64) as u8,
        (x >> 16u64) as u8,
        (x >> 24u64) as u8,
        (x >> 32u64) as u8,
        (x >> 40u64) as u8,
        (x >> 48u64) as u8,
        (x >> 56u64) as u8,
    ]
}

/// The four little-endian bytes of `x`.
pub open spec fn le_bytes_u32(x: u32) -> Seq<u8> {
    seq![x as u8, (x >> 8u32) as u8, (x >> 16u32) as u8, (x >> 24u32) as u8]
}

/// Relies on borsh::to_vec for `u64`: the value's little-endian bytes; writing into a
/// `Vec` cannot fail.
#[verifier::external_body]
fn u64_to_bytes(x: u64) -> (r: Vec<u8>)
    ensures
        r@ == le_bytes_u64(x),
{
    borsh::to_vec(&x).unwrap_or_default()
}

/// Relies on borsh::from_slice for `u64`: succeeds exactly on eight bytes, read little-endian.
#[verifier::external_body]
fn u64_from_bytes(b: &[u8]) -> (r: Option<u64>)
    ensures
        match r {
            Some(x) => le_bytes_u64(x) == b@,
            None => b@.len() != 8,
        },
{
    borsh::from_slice::<u64>(b).ok()
}

/// Relies on borsh::to_vec for `u32`: the value's little-endian bytes; writing into a
/// `Vec` cannot fail.
#[verifier::external_body]
fn u32_to_bytes(x: u32) -> (r: Vec<u8>)
    ensures
        r@ == le_bytes_u32(x),
{
    borsh::to_vec(&x).unwrap_or_default()
}

/// Relies on borsh::from_slice for `u32`: succeeds exactly on four bytes, read little-endian.
#[verifier::external_body]
fn u32_from_bytes(b: &[u8]) -> (r: Option<u32>)
    ensures
        match r {
            Some(x) => le_bytes_u32(x) == b@,
            None => b@.len() != 4,
        },
{
    borsh::from_slice::<u32>(b).ok()
}

proof fn lemma_le_u64_injective(x: u64, y: u64)
    requires
        le_bytes_u64(x) == le_bytes_u64(y),
    ensures
        x == y,
{
    let a = le_bytes_u64(x);
    let b = le_bytes_u64(y);
    assert(a[0] == b[0] && a[1] == b[1] && a[2] == b[2] && a[3] == b[3]);
    assert(a[4] == b[4] && a[5] == b[5] && a[6] == b[6] && a[7] == b[7]);
    assert(x == y) by (bit_vector)
        requires
            x as u8 == y as u8,
            (x >> 8u64) as u8 == (y >> 8u64) as u8,
            (x >> 16u64) as u8 == (y >> 16u64) as u8,
            (x >> 24u64) as u8 == (y >> 24u64) as u8,
            (x >> 32u64) as u8 == (y >> 32u64) as u8,
            (x >> 40u64) as u8 == (y >> 40u64) as u8,
            (x >> 48u64) as u8 == (y >> 48u64) as u8,
            (x >> 56u64) as u8 == (y >> 56u64) as u8,
    ;
}

proof fn lemma_le_u32_injective(x: u32, y: u32)
    requires
        le_bytes_u32(x) == le_bytes_u32(y),
    ensures
        x == y,
{
    let a = le_bytes_u32(x);
    let b = le_bytes_u32(y);
    assert(a[0] == b[0] && a[1] == b[1] && a[2] == b[2] && a[3] == b[3]);
    assert(x == y) by (bit_vector)
        requires
            x as u8 == y as u8,
            (x >> 8u32) as u8 == (y >> 8u32) as u8,
            (x >> 16u32) as u8 == (y >> 16u32) as u8,
            (x >> 24u32) as u8 == (y >> 24u32) as u8,
    ;
}

/// One table entry: the identity's 32 bytes, then the amount.
pub open spec fn entry_bytes(e: (Identity, u64)) -> Seq<u8> {
    e.0.bytes@ + le_bytes_u64(e.1)
}

/// The entries of a table, one after another.
pub open spec fn entries_bytes(s: Seq<(Identity, u64)>) -> Seq<u8>
    decreases s.len(),
{
    if s.len() == 0 {
        Seq::empty()
    } else {
        entries_bytes(s.drop_last()) + entry_bytes(s.last())
    }
}

/// A table: its number of entries as a `u32`, then the entries.
pub open spec fn table_bytes(s: Seq<(Identity, u64)>) -> Seq<u8> {
    le_bytes_u32(s.len() as u32) + entries_bytes(s)
}

impl LedgerRecord {
    /// The stored form: owner, balances, plan, pool total.
    pub open spec fn encoding(&self) -> Seq<u8> {
        self.owner.bytes@ + table_bytes(self.balances@) + table_bytes(self.plan@) + le_bytes_u64(
            self.pool_total,
        )
    }
}

/// `bytes` is the stored form of the well-formed record `r`.
pub open spec fn decodes_to(bytes: Seq<u8>, r: LedgerRecord) -> bool {
    r.wf() && r.encoding() == bytes
}

proof fn lemma_entries_len(s: Seq<(Identity, u64)>)
    ensures
        entries_bytes(s).len() == 40 * s.len(),
    decreases s.len(),
{
    if s.len() > 0 {
        lemma_entries_len(s.drop_last());
    }
}

proof fn lemma_entries_injective(s: Seq<(Identity, u64)>, t: Seq<(Identity, u64)>)
    requires
        s.len() == t.len(),
        entries_bytes(s) == entries_bytes(t),
    ensures
        s == t,
    decreases s.len(),
{
    if s.len() > 0 {
        let (s0, t0) = (s.drop_last(), t.drop_last());
        lemma_entries_len(s0);
        lemma_entries_len(t0);
        let n: int = 40 * s0.len() as int;
        let (bs, bt) = (entries_bytes(s), entries_bytes(t));
        assert(bs.subrange(0, n) =~= entries_bytes(s0));
        assert(bt.subrange(0, n) =~= entries_bytes(t0));
        lemma_entries_injective(s0, t0);
        let (es, et) = (entry_bytes(s.last()), entry_bytes(t.last()));
        assert(bs.subrange(n, n + 40) =~= es);
        assert(bt.subrange(n, n + 40) =~= et);
        assert(es.subrange(0, 32) =~= s.last().0.bytes@);
        assert(et.subrange(0, 32) =~= t.last().0.bytes@);
        assert(s.last().0.bytes =~= t.last().0.bytes);
        assert(es.subrange(32, 40) =~= le_bytes_u64(s.last().1));
        assert(et.subrange(32, 40) =~= le_bytes_u64(t.last().1));
        lemma_le_u64_injective(s.last().1, t.last().1);
        assert(s.last().0 == t.last().0);
        assert(s.last() == t.last());
        assert forall|i: int| 0 <= i < s.len() implies s[i] == t[i] by {
            if i < s0.len() {
                assert(s[i] == s0[i] && t[i] == t0[i]);
            }
        }
        assert(s =~= t);
    }
}

/// Where two tables each begin a byte string, they are the same table.
proof fn lemma_table_prefix(s: Seq<(Identity, u64)>, rs: Seq<u8>, t: Seq<(Identity, u64)>, rt: Seq<u8>)
    requires
        s.len() <= MAX_ENTRIES,
        t.len() <= MAX_ENTRIES,
        table_bytes(s) + rs == table_bytes(t) + rt,
    ensures
        s == t,
        rs == rt,
{
    let (x, y) = (table_bytes(s) + rs, table_bytes(t) + rt);
    assert(x.subrange(0, 4) =~= le_bytes_u32(s.len() as u32));
    assert(y.subrange(0, 4) =~= le_bytes_u32(t.len() as u32));
    lemma_le_u32_injective(s.len() as u32, t.len() as u32);
    lemma_entries_len(s);
    lemma_entries_len(t);
    let n: int = 4 + 40 * s.len() as int;
    assert(x.subrange(4, n) =~= entries_bytes(s));
    assert(y.subrange(4, n) =~= entries_bytes(t));
    lemma_entries_injective(s, t);
    assert(x.subrange(n, x.len() as int) =~= rs);
    assert(y.subrange(n, y.len() as int) =~= rt);
}

fn append_bytes(out: &mut Vec<u8>, b: &Vec<u8>)
    ensures
        final(out)@ == old(out)@ + b@,
{
    let mut i: usize = 0;
    while i < b.len()
        invariant
            0 <= i <= b@.len(),
            out@ == old(out)@ + b@.subrange(0, i as int),
        decreases b@.len() - i,
    {
        out.push(b[i]);
        i = i + 1;
        assert(b@.subrange(0, i as int) =~= b@.subrange(0, i - 1) .push(b@[i - 1]));
    }
    assert(b@.subrange(0, i as int) =~= b@);
}

fn append_identity(out: &mut Vec<u8>, id: &Identity)
    ensures
        final(out)@ == old(out)@ + id.bytes@,
{
    let mut i: usize = 0;
    while i < 32
        invariant
            0 <= i <= 32,
            out@ == old(out)@ + id.bytes@.subrange(0, i as int),
        decreases 32 - i,
    {
        out.push(id.bytes[i]);
        i = i + 1;
        assert(id.bytes@.subrange(0, i as int) =~= id.bytes@.subrange(0, i - 1).push(id.bytes@[i - 1]));
    }
    assert(id.bytes@.subrange(0, 32) =~= id.bytes@);
}

fn read_identity(bytes: &[u8], p: usize) -> (r: Identity)
    requires
        p + 32 <= bytes@.len(),
    ensures
        r.bytes@ == bytes@.subrange(p as int, p + 32),
{
    let len = bytes.len();
    let mut a: [u8; 32] = [0u8; 32];
    let mut i: usize = 0;
    while i < 32
        invariant
            0 <= i <= 32,
            len == bytes@.len(),
            p + 32 <= bytes@.len(),
            forall|j: int| 0 <= j < i ==> a@[j] == bytes@[p + j],
        decreases 32 - i,
    {
        a[i] = bytes[p + i];
        i = i + 1;
    }
    assert(a@ =~= bytes@.subrange(p as int, p + 32));
    Identity { bytes: a }
}

fn write_table(out: &mut Vec<u8>, t: &Vec<(Identity, u64)>)
    requires
        t@.len() <= MAX_ENTRIES,
    ensures
        final(out)@ == old(out)@ + table_bytes(t@),
{
    let len = u32_to_bytes(t.len() as u32);
    append_bytes(out, &len);
    let mut i: usize = 0;
    while i < t.len()
        invariant
            0 <= i <= t@.len(),
            out@ == old(out)@ + le_bytes_u32(t@.len() as u32) + entries_bytes(t@.subrange(0, i as int)),
        decreases t@.len() - i,
    {
        let ghost before = out@;
        append_identity(out, &t[i].0);
        let amount = u64_to_bytes(t[i].1);
        append_bytes(out, &amount);
        proof {
            let s = t@.subrange(0, i + 1);
            assert(s.drop_last() =~= t@.subrange(0, i as int));
            assert(s.last() == t@[i as int]);
            assert(out@ =~= before + entry_bytes(t@[i as int]));
        }
        i = i + 1;
    }
    assert(t@.subrange(0, i as int) =~= t@);
}

/// Reads a table that begins at `pos`, and where it ends.
fn read_table(bytes: &[u8], pos: usize) -> (r: Option<(Vec<(Identity, u64)>, usize)>)
    requires
        pos <= bytes@.len(),
    ensures
        match r {
            Some((v, end)) => pos <= end <= bytes@.len() && v@.len() <= MAX_ENTRIES && bytes@.subrange(
                pos as int,
                end as int,
            ) == table_bytes(v@),
            None => forall|s: Seq<(Identity, u64)>, rest: Seq<u8>|
                s.len() <= MAX_ENTRIES ==> #[trigger] (table_bytes(s) + rest) != bytes@.subrange(
                    pos as int,
                    bytes@.len() as int,
                ),
        },
{
    let ghost tail = bytes@.subrange(pos as int, bytes@.len() as int);
    if bytes.len() - pos < 4 {
        proof {
            assert forall|s: Seq<(Identity, u64)>, rest: Seq<u8>|
                s.len() <= MAX_ENTRIES implies #[trigger] (table_bytes(s) + rest) != tail by {
                assert((table_bytes(s) + rest).len() >= 4);
            }
        }
        return None;
    }
    let count: u32 = match u32_from_bytes(vstd::slice::slice_subrange(bytes, pos, pos + 4)) {
        Some(c) => c,
        None => {
            return None;
        },
    };
    let n = count as usize;
    let room = bytes.len() - pos - 4;
    if n > room / 40 {
        proof {
            assert(40 * n > room) by (nonlinear_arith)
                requires
                    n > room / 40,
            ;
            assert forall|s: Seq<(Identity, u64)>, rest: Seq<u8>|
                s.len() <= MAX_ENTRIES implies #[trigger] (table_bytes(s) + rest) != tail by {
                if table_bytes(s) + rest == tail {
                    assert(tail.subrange(0, 4) =~= le_bytes_u32(s.len() as u32));
                    assert(tail.subrange(0, 4) =~= bytes@.subrange(pos as int, pos + 4));
                    lemma_le_u32_injective(s.len() as u32, count);
                    assert(n == s.len());
                    lemma_entries_len(s);
                    assert(tail.len() == room + 4);
                    assert((table_bytes(s) + rest).len() == 4 + 40 * s.len() + rest.len());
                }
            }
        }
        return None;
    }
    proof {
        assert(40 * n <= room) by (nonlinear_arith)
            requires
                n <= room / 40,
        ;
    }
    let start = pos + 4;
    let mut v: Vec<(Identity, u64)> = Vec::new();
    let mut i: usize = 0;
    let mut p: usize = start;
    while i < n
        invariant
            bytes@.len() <= usize::MAX,
            n <= MAX_ENTRIES,
            start == pos + 4,
            start + 40 * n <= bytes@.len(),
            0 <= i <= n,
            p == start + 40 * i,
            v@.len() == i,
            entries_bytes(v@) == bytes@.subrange(start as int, p as int),
        decreases n - i,
    {
        let id = read_identity(bytes, p);
        let amount: u64 = match u64_from_bytes(vstd::slice::slice_subrange(bytes, p + 32, p + 40)) {
            Some(x) => x,
            None => {
                return None;
            },
        };
        let ghost before = v@;
        v.push((id, amount));
        proof {
            assert(v@.drop_last() =~= before);
            assert(bytes@.subrange(start as int, p + 40) =~= bytes@.subrange(start as int, p as int)
                + bytes@.subrange(p as int, p + 32) + bytes@.subrange(p + 32, p + 40));
            assert(entry_bytes((id, amount)) =~= bytes@.subrange(p as int, p + 32) + bytes@.subrange(
                p + 32,
                p + 40,
            ));
        }
        i = i + 1;
        p = p + 40;
    }
    assert(bytes@.subrange(pos as int, p as int) =~= bytes@.subrange(pos as int, pos + 4) + bytes@.subrange(
        start as int,
        p as int,
    ));
    Some((v, p))
}

fn table_keys_unique(v: &Vec<(Identity, u64)>) -> (r: bool)
    ensures
        r == keys_unique(v@),
{
    let mut i: usize = 0;
    while i < v.len()
        invariant
            0 <= i <= v@.len(),
            forall|a: int, b: int| 0 <= a < i && 0 <= b < v@.len() && a != b ==> v@[a].0 != v@[b].0,
        decreases v@.len() - i,
    {
        let mut j: usize = 0;
        while j < v.len()
            invariant
                0 <= i < v@.len(),
                0 <= j <= v@.len(),
                forall|a: int, b: int| 0 <= a < i && 0 <= b < v@.len() && a != b ==> v@[a].0 != v@[b].0,
                forall|b: int| 0 <= b < j && b != i ==> v@[i as int].0 != v@[b].0,
            decreases v@.len() - j,
        {
            if j != i && v[i].0.same_as(&v[j].0) {
                return false;
            }
            j = j + 1;
        }
        i = i + 1;
    }
    true
}

proof fn lemma_encoding_split(bytes: Seq<u8>, q: LedgerRecord)
    requires
        decodes_to(bytes, q),
    ensures
        bytes.len() >= 32,
        bytes.subrange(0, 32) == q.owner.bytes@,
        bytes.subrange(32, bytes.len() as int) == table_bytes(q.balances@) + (table_bytes(q.plan@)
            + le_bytes_u64(q.pool_total)),
{
    assert(bytes.subrange(0, 32) =~= q.owner.bytes@);
    assert(bytes.subrange(32, bytes.len() as int) =~= table_bytes(q.balances@) + (table_bytes(q.plan@)
        + le_bytes_u64(q.pool_total)));
}

impl LedgerRecord {
    /// The stored form of the record.
    pub fn encode(&self) -> (r: Vec<u8>)
        requires
            self.wf(),
        ensures
            r@ == self.encoding(),
    {
        let mut out: Vec<u8> = Vec::new();
        append_identity(&mut out, &self.owner);
        write_table(&mut out, &self.balances);
        write_table(&mut out, &self.plan);
        let pool = u64_to_bytes(self.pool_total);
        append_bytes(&mut out, &pool);
        assert(out@ =~= self.encoding());
        out
    }

    /// The well-formed record whose stored form is `bytes`, or `DecodeError` where there is none.
    pub fn decode(bytes: &[u8]) -> (r: Result<LedgerRecord, LedgerError>)
        ensures
            match r {
                Ok(rec) => decodes_to(bytes@, rec),
                Err(e) => e == LedgerError::DecodeError && forall|q: LedgerRecord| !decodes_to(bytes@, q),
            },
    {
        let len = bytes.len();
        if len < 32 {
            proof {
                assert forall|q: LedgerRecord| !decodes_to(bytes@, q) by {
                    if decodes_to(bytes@, q) {
                        lemma_encoding_split(bytes@, q);
                    }
                }
            }
            return Err(LedgerError::DecodeError);
        }
        let owner = read_identity(bytes, 0);
        let (balances, balances_end) = match read_table(bytes, 32) {
            Some(x) => x,
            None => {
                proof {
                    assert forall|q: LedgerRecord| !decodes_to(bytes@, q) by {
                        if decodes_to(bytes@, q) {
                            lemma_encoding_split(bytes@, q);
                            let rest = table_bytes(q.plan@) + le_bytes_u64(q.pool_total);
                            assert(table_bytes(q.balances@) + rest == bytes@.subrange(32, len as int));
                        }
                    }
                }
                return Err(LedgerError::DecodeError);
            },
        };
        proof {
            assert(bytes@.subrange(32, len as int) =~= table_bytes(balances@) + bytes@.subrange(
                balances_end as int,
                len as int,
            ));
        }
        let (plan, plan_end) = match read_table(bytes, balances_end) {
            Some(x) => x,
            None => {
                proof {
                    assert forall|q: LedgerRecord| !decodes_to(bytes@, q) by {
                        if decodes_to(bytes@, q) {
                            lemma_encoding_split(bytes@, q);
                            let rest = table_bytes(q.plan@) + le_bytes_u64(q.pool_total);
                            lemma_table_prefix(
                                balances@,
                                bytes@.subrange(balances_end as int, len as int),
                                q.balances@,
                                rest,
                            );
                            assert(table_bytes(q.plan@) + le_bytes_u64(q.pool_total) == bytes@.subrange(
                                balances_end as int,
                                len as int,
                            ));
                        }
                    }
                }
                return Err(LedgerError::DecodeError);
            },
        };
        proof {
            assert(bytes@.subrange(balances_end as int, len as int) =~= table_bytes(plan@) + bytes@.subrange(
                plan_end as int,
                len as int,
            ));
        }
        let pool_total: u64 = match u64_from_bytes(vstd::slice::slice_subrange(bytes, plan_end, len)) {
            Some(x) => x,
            None => {
                proof {
                    assert forall|q: LedgerRecord| !decodes_to(bytes@, q) by {
                        if decodes_to(bytes@, q) {
                            lemma_encoding_split(bytes@, q);
                            let rest = table_bytes(q.plan@) + le_bytes_u64(q.pool_total);
                            lemma_table_prefix(
                                balances@,
                                bytes@.subrange(balances_end as int, len as int),
                                q.balances@,
                                rest,
                            );
                            lemma_table_prefix(
                                plan@,
                                bytes@.subrange(plan_end as int, len as int),
                                q.plan@,
                                le_bytes_u64(q.pool_total),
                            );
                        }
                    }
                }
                return Err(LedgerError::DecodeError);
            },
        };
        let rec = LedgerRecord { owner, balances, plan, pool_total };
        proof {
            assert(bytes@ =~= rec.encoding());
        }
        if !table_keys_unique(&rec.balances) || !table_keys_unique(&rec.plan) {
            proof {
                assert forall|q: LedgerRecord| !decodes_to(bytes@, q) by {
                    if decodes_to(bytes@, q) {
                        lemma_encoding_split(bytes@, q);
                        let rest = table_bytes(q.plan@) + le_bytes_u64(q.pool_total);
                        lemma_table_prefix(
                            rec.balances@,
                            bytes@.subrange(balances_end as int, len as int),
                            q.balances@,
                            rest,
                        );
                        lemma_table_prefix(
                            rec.plan@,
                            bytes@.subrange(plan_end as int, len as int),
                            q.plan@,
                            le_bytes_u64(q.pool_total),
                        );
                    }
                }
            }
            return Err(LedgerError::DecodeError);
        }
        Ok(rec)
    }
}

/// A byte string is the stored form of at most one record content: two well-formed
/// records it decodes to agree in every field.
pub proof fn lemma_decoding_unique(bytes: Seq<u8>, a: LedgerRecord, b: LedgerRecord)
    requires
        decodes_to(bytes, a),
        decodes_to(bytes, b),
    ensures
        a.owner == b.owner,
        a.balances@ == b.balances@,
        a.plan@ == b.plan@,
        a.pool_total == b.pool_total,
        a@ == b@,
{
    lemma_encoding_split(bytes, a);
    lemma_encoding_split(bytes, b);
    assert(a.owner.bytes =~= b.owner.bytes);
    lemma_table_prefix(
        a.balances@,
        table_bytes(a.plan@) + le_bytes_u64(a.pool_total),
        b.balances@,
        table_bytes(b.plan@) + le_bytes_u64(b.pool_total),
    );
    lemma_table_prefix(a.plan@, le_bytes_u64(a.pool_total), b.plan@, le_bytes_u64(b.pool_total));
    lemma_le_u64_injective(a.pool_total, b.pool_total);
}

/// Round trip: the stored form of a well-formed record `r` decodes, and every record it
/// decodes to equals `r` field by field.
pub proof fn lemma_round_trip(r: LedgerRecord, q: LedgerRecord)
    requires
        r.wf(),
    ensures
        decodes_to(r.encoding(), r),
        decodes_to(r.encoding(), q) ==> q.owner == r.owner && q.balances@ == r.balances@ && q.plan@
            == r.plan@ && q.pool_total == r.pool_total,
{
    if decodes_to(r.encoding(), q) {
        lemma_decoding_unique(r.encoding(), q, r);
    }
}

} // verus!
