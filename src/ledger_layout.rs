//! The layout of the sales ledger as a function of its bytes, and the facts
//! about it that the ledger's operations rest on.
use vstd::prelude::*;
use crate::codec::{
    le64, lemma_le_lengths, lemma_read_u64, lemma_sale_bytes_len, lemma_sale_round_trip,
    lemma_split, sale_bytes, sale_fits, sale_record, u64_at,
};
use crate::model::VendaView;

verus! {

/// One ledger record: the length of the sale's encoding, then the encoding.
pub open spec fn record_bytes(v: VendaView) -> Seq<u8> {
    le64(sale_bytes(v).len() as u64) + sale_bytes(v)
}

pub open spec fn records_bytes(vs: Seq<VendaView>) -> Seq<u8>
    decreases vs.len(),
{
    if vs.len() == 0 {
        Seq::empty()
    } else {
        record_bytes(vs[0]) + records_bytes(vs.drop_first())
    }
}

/// Reads the records that make up `body`, front to back.
pub open spec fn parse_records(body: Seq<u8>) -> Option<Seq<VendaView>>
    decreases body.len(),
{
    if body.len() == 0 {
        Some(Seq::empty())
    } else if body.len() < 8 {
        None
    } else {
        let n = u64_at(body, 0) as int;
        if 8 + n > body.len() {
            None
        } else {
            match sale_record(body.subrange(8, 8 + n)) {
                None => None,
                Some(v) => match parse_records(body.subrange(8 + n, body.len() as int)) {
                    None => None,
                    Some(rest) => Some(seq![v] + rest),
                },
            }
        }
    }
}

/// The ledger without its counter.
pub open spec fn ledger_body(b: Seq<u8>) -> Seq<u8> {
    if b.len() >= 8 {
        b.subrange(0, b.len() - 8)
    } else {
        b
    }
}

/// The sales that the ledger holds, in the order they were written.
pub open spec fn sales_of(b: Seq<u8>) -> Seq<VendaView> {
    parse_records(ledger_body(b)).unwrap()
}

pub open spec fn ledger_counter(b: Seq<u8>) -> Option<u64> {
    if b.len() >= 8 {
        Some(u64_at(b, b.len() - 8))
    } else {
        None
    }
}

/// The code that the next sale will get.
pub open spec fn next_code(b: Seq<u8>) -> u64 {
    match ledger_counter(b) {
        Some(c) => (c + 1) as u64,
        None => 1,
    }
}

/// Where record `k` starts: the bytes of all records before it.
pub open spec fn offset_of(vs: Seq<VendaView>, k: int) -> int {
    records_bytes(vs.take(k)).len() as int
}

pub open spec fn codes_ascending(vs: Seq<VendaView>) -> bool {
    forall|i: int, j: int| 0 <= i < j < vs.len() ==> #[trigger] vs[i].codigo < #[trigger] vs[j].codigo
}

pub open spec fn has_code(vs: Seq<VendaView>, code: u64) -> bool {
    exists|i: int| 0 <= i < vs.len() && #[trigger] vs[i].codigo == code
}

/// The layout of a ledger: empty, or records followed by the counter, each
/// record the exact encoding of a sale, codes strictly ascending and none
/// above the counter.
#[verifier::opaque]
pub open spec fn wf_ledger(b: Seq<u8>) -> bool {
    b.len() == 0 || {
        &&& b.len() >= 8
        &&& parse_records(ledger_body(b)) is Some
        &&& records_bytes(sales_of(b)) == ledger_body(b)
        &&& forall|i: int| 0 <= i < sales_of(b).len() ==> sale_fits(#[trigger] sales_of(b)[i])
        &&& codes_ascending(sales_of(b))
        &&& forall|i: int| 0 <= i < sales_of(b).len() ==> #[trigger] sales_of(b)[i].codigo <= u64_at(b, b.len() - 8)
    }
}

pub open spec fn all_fit(vs: Seq<VendaView>) -> bool {
    forall|i: int| 0 <= i < vs.len() ==> sale_fits(#[trigger] vs[i])
}

/// What a well-formed ledger's layout gives: its body is the records of its
/// sales, and each of them can be written.
pub proof fn lemma_ledger_facts(b: Seq<u8>)
    requires
        wf_ledger(b),
    ensures
        records_bytes(sales_of(b)) == ledger_body(b),
        all_fit(sales_of(b)),
        codes_ascending(sales_of(b)),
        b.len() == 0 || b.len() >= 8,
        b.len() >= 8 ==> forall|i: int| 0 <= i < sales_of(b).len() ==> #[trigger] sales_of(b)[i].codigo <= u64_at(b, b.len() - 8),
{
    reveal(wf_ledger);
    if b.len() == 0 {
        assert(ledger_body(b) =~= Seq::<u8>::empty());
        assert(sales_of(b) =~= Seq::<VendaView>::empty());
    }
}

// ---------------------------------------------------------------------------
// Lemmas on the record sequence
/// The records of two runs of sales, one after the other.
pub proof fn lemma_records_concat(a: Seq<VendaView>, b: Seq<VendaView>)
    ensures
        records_bytes(a + b) == records_bytes(a) + records_bytes(b),
    decreases a.len(),
{
    if a.len() == 0 {
        assert(a + b =~= b);
        assert(records_bytes(a) + records_bytes(b) =~= records_bytes(b));
    } else {
        assert((a + b).drop_first() =~= a.drop_first() + b);
        assert((a + b)[0] == a[0]);
        lemma_records_concat(a.drop_first(), b);
        assert(records_bytes(a + b) =~= records_bytes(a) + records_bytes(b));
    }
}

/// The records of a single sale are its record.
pub proof fn lemma_records_single(v: VendaView)
    ensures
        records_bytes(seq![v]) == record_bytes(v),
{
    let one = seq![v];
    assert(one.len() == 1);
    assert(one[0] == v);
    assert(one.drop_first() =~= Seq::<VendaView>::empty());
    assert(records_bytes(one.drop_first()) == Seq::<u8>::empty());
    assert(records_bytes(one) =~= record_bytes(v));
}

/// A record is eight bytes longer than the sale's encoding, whose length
/// fits a 64-bit count.
pub proof fn lemma_record_len(v: VendaView)
    requires
        sale_fits(v),
    ensures
        record_bytes(v).len() == 8 + sale_bytes(v).len(),
        sale_bytes(v).len() <= u64::MAX,
{
    lemma_le_lengths();
    lemma_sale_bytes_len(v);
}

/// Reading the records back from their bytes gives the same sales.
#[verifier::rlimit(60)]
pub proof fn lemma_parse_round_trip(vs: Seq<VendaView>)
    requires
        all_fit(vs),
    ensures
        parse_records(records_bytes(vs)) == Some(vs),
    decreases vs.len(),
{
    if vs.len() == 0 {
        assert(vs =~= Seq::<VendaView>::empty());
    } else {
        let v = vs[0];
        let tail = vs.drop_first();
        assert(all_fit(tail)) by {
            assert forall|i: int| 0 <= i < tail.len() implies sale_fits(#[trigger] tail[i]) by {
                assert(tail[i] == vs[i + 1]);
            }
        }
        lemma_parse_round_trip(tail);
        lemma_record_len(v);
        let body = records_bytes(vs);
        let n = sale_bytes(v).len() as int;
        let r = records_bytes(tail);
        assert(body == le64(n as u64) + sale_bytes(v) + r);
        assert(body.subrange(0, body.len() as int) =~= body);
        lemma_split(body, 0, le64(n as u64) + sale_bytes(v), r);
        lemma_split(body, 0, le64(n as u64), sale_bytes(v));
        assert(body.subrange(0, 8) == le64(n as u64));
        lemma_read_u64(body, 0, n as u64);
        lemma_sale_round_trip(v);
        assert(body.subrange(8 + n, body.len() as int) == r);
        assert(seq![v] + tail =~= vs);
    }
}

/// Where records `k` and `k + 1` start, and what lies between.
pub proof fn lemma_record_at(vs: Seq<VendaView>, k: int)
    requires
        all_fit(vs),
        0 <= k < vs.len(),
    ensures
        ({
            let body = records_bytes(vs);
            let off = offset_of(vs, k);
            let n = sale_bytes(vs[k]).len() as int;
            &&& off + 8 + n <= body.len()
            &&& offset_of(vs, k + 1) == off + 8 + n
            &&& body.subrange(off, off + 8) == le64(n as u64)
            &&& body.subrange(off + 8, off + 8 + n) == sale_bytes(vs[k])
            &&& n <= u64::MAX
            &&& body == records_bytes(vs.take(k)) + record_bytes(vs[k]) + records_bytes(vs.skip(k + 1))
        }),
{
    let v = vs[k];
    lemma_record_len(v);
    assert(vs =~= vs.take(k) + (seq![v] + vs.skip(k + 1)));
    assert(vs.take(k + 1) =~= vs.take(k) + seq![v]);
    lemma_records_concat(vs.take(k), seq![v] + vs.skip(k + 1));
    lemma_records_concat(seq![v], vs.skip(k + 1));
    lemma_records_concat(vs.take(k), seq![v]);
    lemma_records_single(v);
    let body = records_bytes(vs);
    let a = records_bytes(vs.take(k));
    let n = sale_bytes(v).len() as int;
    let rest = records_bytes(vs.skip(k + 1));
    assert(body == a + le64(n as u64) + sale_bytes(v) + rest) by {
        assert(body =~= a + le64(n as u64) + sale_bytes(v) + rest);
    }
    assert(body.subrange(0, body.len() as int) =~= body);
    lemma_split(body, 0, a + le64(n as u64) + sale_bytes(v), rest);
    lemma_split(body, 0, a + le64(n as u64), sale_bytes(v));
    lemma_split(body, 0, a, le64(n as u64));
}

/// Replacing a sale by one that can be written keeps every sale writable.
pub proof fn lemma_all_fit_update(vs: Seq<VendaView>, k: int, v: VendaView)
    requires
        all_fit(vs),
        sale_fits(v),
        0 <= k < vs.len(),
    ensures
        all_fit(vs.update(k, v)),
{
    assert forall|i: int| 0 <= i < vs.len() implies sale_fits(#[trigger] vs.update(k, v)[i]) by {
        if i != k {
            assert(vs.update(k, v)[i] == vs[i]);
        }
    }
}


/// A ledger whose body is the records of `vs`, with a counter at or above
/// every code, is well formed and holds `vs`.
pub proof fn lemma_rebuild(nb: Seq<u8>, vs: Seq<VendaView>)
    requires
        nb.len() >= 8,
        ledger_body(nb) == records_bytes(vs),
        all_fit(vs),
        codes_ascending(vs),
        forall|i: int| 0 <= i < vs.len() ==> #[trigger] vs[i].codigo <= u64_at(nb, nb.len() - 8),
    ensures
        wf_ledger(nb),
        sales_of(nb) == vs,
{
    lemma_parse_round_trip(vs);
    reveal(wf_ledger);
}

/// Eight bytes that read as `n` are the little-endian bytes of `n`.
pub proof fn lemma_le64_of_read(n: u64, s: Seq<u8>)
    requires
        s.len() == 8,
        n == vstd::bytes::spec_u64_from_le_bytes(s),
    ensures
        s == le64(n),
{
    vstd::bytes::lemma_auto_spec_u64_to_from_le_bytes();
}

/// In a well-formed ledger, the record that starts at the offset of sale `k`
/// (before the end of the body) is that sale's length and encoding.
pub proof fn lemma_next_record(b: Seq<u8>, k: int, pos: int)
    requires
        wf_ledger(b),
        b.len() >= 8,
        0 <= k <= sales_of(b).len(),
        pos == offset_of(sales_of(b), k),
        pos < b.len() - 8,
    ensures
        k < sales_of(b).len(),
        sale_fits(sales_of(b)[k]),
        pos + 8 + sale_bytes(sales_of(b)[k]).len() <= b.len() - 8,
        u64_at(b, pos) == sale_bytes(sales_of(b)[k]).len(),
        b.subrange(pos + 8, pos + 8 + sale_bytes(sales_of(b)[k]).len()) == sale_bytes(sales_of(b)[k]),
        sales_of(b)[k].codigo <= u64_at(b, b.len() - 8),
        k > 0 ==> sales_of(b)[k - 1].codigo < sales_of(b)[k].codigo,
{
    let vs = sales_of(b);
    let body = ledger_body(b);
    lemma_ledger_facts(b);
    if k == vs.len() {
        assert(vs.take(k) =~= vs);
        assert(false);
    }
    lemma_record_at(vs, k);
    let n = sale_bytes(vs[k]).len() as int;
    assert(b.subrange(pos, pos + 8) =~= body.subrange(pos, pos + 8));
    assert(b.subrange(pos + 8, pos + 8 + n) =~= body.subrange(pos + 8, pos + 8 + n));
    lemma_read_u64(b, pos, n as u64);
}

/// A record read right after the records of `vs` extends them.
pub proof fn lemma_extend_prefix(b: Seq<u8>, vs: Seq<VendaView>, pos: int, n: u64, w: VendaView)
    requires
        b.len() >= 8,
        0 <= pos,
        pos + 8 + n <= b.len() - 8,
        records_bytes(vs) == ledger_body(b).subrange(0, pos),
        n == u64_at(b, pos),
        sale_fits(w),
        b.subrange(pos + 8, pos + 8 + n) == sale_bytes(w),
    ensures
        records_bytes(vs.push(w)) == ledger_body(b).subrange(0, pos + 8 + n),
{
    let body = ledger_body(b);
    let end = pos + 8 + n;
    lemma_record_len(w);
    assert(body.subrange(pos, pos + 8) =~= b.subrange(pos, pos + 8));
    lemma_le64_of_read(n, body.subrange(pos, pos + 8));
    assert(body.subrange(pos + 8, end) =~= b.subrange(pos + 8, end));
    assert(body.subrange(pos, end) =~= body.subrange(pos, pos + 8) + body.subrange(pos + 8, end));
    lemma_records_concat(vs, seq![w]);
    lemma_records_single(w);
    assert(vs + seq![w] =~= vs.push(w));
    assert(body.subrange(0, end) =~= body.subrange(0, pos) + body.subrange(pos, end));
}

/// Keeping every sale is keeping the sequence.
pub proof fn lemma_filter_all(vs: Seq<VendaView>, pred: spec_fn(VendaView) -> bool)
    requires
        forall|v: VendaView| #[trigger] pred(v),
    ensures
        vs.filter(pred) == vs,
    decreases vs.len(),
{
    if vs.len() > 0 {
        let init = vs.drop_last();
        lemma_filter_all(init, pred);
        assert(init.push(vs.last()) =~= vs);
        init.lemma_filter_push(vs.last(), pred);
    } else {
        assert(vs.filter(pred) =~= vs);
    }
}

/// Rewriting the payload of record `k` with an encoding of the same length
/// and the same code replaces that sale and keeps the layout.
#[verifier::rlimit(40)]
pub proof fn lemma_replace_record(b: Seq<u8>, nb: Seq<u8>, k: int, w: VendaView)
    requires
        wf_ledger(b),
        0 <= k < sales_of(b).len(),
        sale_fits(w),
        w.codigo == sales_of(b)[k].codigo,
        sale_bytes(w).len() == sale_bytes(sales_of(b)[k]).len(),
        nb == b.subrange(0, offset_of(sales_of(b), k) + 8) + sale_bytes(w) + b.subrange(
            offset_of(sales_of(b), k) + 8 + sale_bytes(w).len(),
            b.len() as int,
        ),
    ensures
        wf_ledger(nb),
        sales_of(nb) == sales_of(b).update(k, w),
        nb.len() == b.len(),
        ledger_counter(nb) == ledger_counter(b),
{
    let vs = sales_of(b);
    lemma_ledger_facts(b);
    lemma_record_at(vs, k);
    if b.len() == 0 {
        assert(ledger_body(b) =~= Seq::<u8>::empty());
    }
    let ws = vs.update(k, w);
    let body = ledger_body(b);
    let off = offset_of(vs, k);
    let n = sale_bytes(vs[k]).len() as int;
    let a = records_bytes(vs.take(k));
    let l = le64(n as u64);
    let c = records_bytes(vs.skip(k + 1));
    let tail = b.subrange(b.len() - 8, b.len() as int);
    lemma_le_lengths();
    assert(body =~= a + l + sale_bytes(vs[k]) + c);
    assert(b.subrange(0, off + 8) =~= a + l) by {
        assert forall|i: int| 0 <= i < off + 8 implies b.subrange(0, off + 8)[i] == (a + l)[i] by {
            assert(body[i] == b[i]);
        }
    }
    assert(b.subrange(off + 8 + n, b.len() as int) =~= c + tail) by {
        assert forall|i: int| 0 <= i < c.len() implies b.subrange(off + 8 + n, b.len() as int)[i]
            == c[i] by {
            assert(body[off + 8 + n + i] == b[off + 8 + n + i]);
        }
    }
    assert(ledger_body(nb) =~= a + record_bytes(w) + c);
    assert(ws =~= vs.take(k) + (seq![w] + vs.skip(k + 1)));
    lemma_records_concat(vs.take(k), seq![w] + vs.skip(k + 1));
    lemma_records_concat(seq![w], vs.skip(k + 1));
    lemma_records_single(w);
    assert(records_bytes(ws) =~= records_bytes(vs.take(k)) + record_bytes(w) + records_bytes(
        vs.skip(k + 1),
    ));
    lemma_all_fit_update(vs, k, w);
    assert(nb.subrange(nb.len() - 8, nb.len() as int) =~= b.subrange(b.len() - 8, b.len() as int));
    assert forall|i: int, j: int| 0 <= i < j < ws.len() implies #[trigger] ws[i].codigo
        < #[trigger] ws[j].codigo by {
        assert(vs[i].codigo < vs[j].codigo);
    }
    assert forall|i: int| 0 <= i < ws.len() implies #[trigger] ws[i].codigo <= u64_at(
        nb,
        nb.len() - 8,
    ) by {
        assert(vs[i].codigo <= u64_at(b, b.len() - 8));
    }
    lemma_rebuild(nb, ws);
}

/// Cutting record `k` out removes that sale and keeps the layout.
#[verifier::rlimit(40)]
pub proof fn lemma_cut_record(b: Seq<u8>, nb: Seq<u8>, k: int)
    requires
        wf_ledger(b),
        0 <= k < sales_of(b).len(),
        nb == b.subrange(0, offset_of(sales_of(b), k)) + b.subrange(
            offset_of(sales_of(b), k) + record_bytes(sales_of(b)[k]).len(),
            b.len() as int,
        ),
    ensures
        wf_ledger(nb),
        sales_of(nb) == sales_of(b).remove(k),
        nb.len() == b.len() - record_bytes(sales_of(b)[k]).len(),
        ledger_counter(nb) == ledger_counter(b),
{
    let vs = sales_of(b);
    lemma_ledger_facts(b);
    lemma_record_at(vs, k);
    lemma_record_len(vs[k]);
    if b.len() == 0 {
        assert(ledger_body(b) =~= Seq::<u8>::empty());
    }
    let ws = vs.remove(k);
    let body = ledger_body(b);
    let off = offset_of(vs, k);
    let n = sale_bytes(vs[k]).len() as int;
    let a = records_bytes(vs.take(k));
    let c = records_bytes(vs.skip(k + 1));
    let tail = b.subrange(b.len() - 8, b.len() as int);
    lemma_le_lengths();
    assert(body =~= a + record_bytes(vs[k]) + c);
    assert(b.subrange(0, off) =~= a) by {
        assert forall|i: int| 0 <= i < off implies b.subrange(0, off)[i] == a[i] by {
            assert(body[i] == b[i]);
        }
    }
    assert(b.subrange(off + 8 + n, b.len() as int) =~= c + tail) by {
        assert forall|i: int| 0 <= i < c.len() implies b.subrange(off + 8 + n, b.len() as int)[i]
            == c[i] by {
            assert(body[off + 8 + n + i] == b[off + 8 + n + i]);
        }
    }
    assert(ledger_body(nb) =~= a + c);
    assert(ws =~= vs.take(k) + vs.skip(k + 1));
    lemma_records_concat(vs.take(k), vs.skip(k + 1));
    assert(nb.subrange(nb.len() - 8, nb.len() as int) =~= b.subrange(b.len() - 8, b.len() as int));
    assert(all_fit(ws)) by {
        assert forall|i: int| 0 <= i < ws.len() implies sale_fits(#[trigger] ws[i]) by {
            if i < k {
                assert(ws[i] == vs[i]);
            } else {
                assert(ws[i] == vs[i + 1]);
            }
        }
    }
    assert forall|i: int, j: int| 0 <= i < j < ws.len() implies #[trigger] ws[i].codigo
        < #[trigger] ws[j].codigo by {
        let i2 = if i < k { i } else { i + 1 };
        let j2 = if j < k { j } else { j + 1 };
        assert(vs[i2].codigo < vs[j2].codigo);
    }
    assert forall|i: int| 0 <= i < ws.len() implies #[trigger] ws[i].codigo <= u64_at(
        nb,
        nb.len() - 8,
    ) by {
        let i2 = if i < k { i } else { i + 1 };
        assert(vs[i2].codigo <= u64_at(b, b.len() - 8));
    }
    lemma_rebuild(nb, ws);
}

} // verus!
