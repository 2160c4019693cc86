//! The sales ledger: records in the order they were written, each an 8-byte
//! length followed by the encoding of a sale, then the 8-byte counter with
//! the last code handed out. An empty ledger has no counter.
use vstd::prelude::*;
use vstd::slice::*;
use crate::codec::{
    date_is_valid, decode_sale, encode_sale, get_u64, le64, lemma_le_lengths, lemma_read_u64,
    lemma_sale_bytes_len, lemma_sale_round_trip, push_u64, sale_bytes, sale_fits, u64_at,
};
use crate::date::Data;
use crate::errors::CustomErrors;
use crate::ledger_layout::{
    all_fit, codes_ascending, has_code, ledger_body, ledger_counter,
    lemma_cut_record, lemma_extend_prefix, lemma_filter_all, lemma_ledger_facts, lemma_next_record,
    lemma_parse_round_trip, lemma_rebuild,
    lemma_record_at, lemma_record_len, lemma_records_concat, lemma_records_single,
    lemma_replace_record, next_code, offset_of, record_bytes, records_bytes, sales_of, wf_ledger,
};
use crate::model::{MetodoPagamento, ProdutoView, Venda, VendaView};
use crate::product_store::{decrement_stock, has_id, stock_short, with_stock_taken, ProductFile};

verus! {

broadcast use vstd::slice::group_slice_axioms;

/// Which sales a scan keeps.
enum Selector {
    All,
    OnDate(Data),
    WithProduct(u64),
}

spec fn selector_filter(sel: Selector) -> spec_fn(VendaView) -> bool {
    match sel {
        Selector::All => |v: VendaView| true,
        Selector::OnDate(d) => |v: VendaView| v.data == d,
        Selector::WithProduct(id) => |v: VendaView| v.produtos.contains(id),
    }
}

/// The test that keeps the sales made on `d`.
pub open spec fn date_filter(d: Data) -> spec_fn(VendaView) -> bool {
    |v: VendaView| v.data == d
}

/// The test that keeps the sales that include product `id`.
pub open spec fn product_filter(id: u64) -> spec_fn(VendaView) -> bool {
    |v: VendaView| v.produtos.contains(id)
}

pub open spec fn sale_views(vs: Seq<Venda>) -> Seq<VendaView> {
    vs.map_values(|v: Venda| v@)
}

fn contains_id(ids: &Vec<u64>, id: u64) -> (r: bool)
    ensures
        r == ids@.contains(id),
{
    let mut k: usize = 0;
    while k < ids.len()
        invariant
            k <= ids@.len(),
            forall|j: int| 0 <= j < k ==> ids@[j] != id,
        decreases ids@.len() - k,
    {
        if ids[k] == id {
            assert(ids@[k as int] == id);
            return true;
        }
        k = k + 1;
    }
    false
}

fn same_bytes(a: &[u8], b: &Vec<u8>) -> (r: bool)
    ensures
        r == (a@ == b@),
{
    if a.len() != b.len() {
        return false;
    }
    let mut k: usize = 0;
    while k < a.len()
        invariant
            a@.len() == b@.len(),
            k <= a@.len(),
            forall|j: int| 0 <= j < k ==> a@[j] == b@[j],
        decreases a@.len() - k,
    {
        if a[k] != b[k] {
            return false;
        }
        k = k + 1;
    }
    assert(a@ =~= b@);
    true
}

/// The byte image of a sales ledger.
pub struct SaleFile {
    bytes: Vec<u8>,
}

impl View for SaleFile {
    type V = Seq<u8>;

    closed spec fn view(&self) -> Seq<u8> {
        self.bytes@
    }
}

impl SaleFile {
    pub open spec fn wf(&self) -> bool {
        wf_ledger(self@)
    }

    pub open spec fn items(&self) -> Seq<VendaView> {
        sales_of(self@)
    }

    pub open spec fn counter(&self) -> Option<u64> {
        ledger_counter(self@)
    }

    /// An empty ledger.
    pub fn new() -> (r: SaleFile)
        ensures
            r.wf(),
            r@ == Seq::<u8>::empty(),
            r.items() == Seq::<VendaView>::empty(),
    {
        let r = SaleFile { bytes: Vec::new() };
        proof {
            reveal(wf_ledger);
            assert(ledger_body(r@) =~= Seq::<u8>::empty());
            assert(r.items() =~= Seq::<VendaView>::empty());
        }
        r
    }

    /// The bytes of the ledger.
    pub fn as_bytes(&self) -> (r: &Vec<u8>)
        ensures
            r@ == self@,
    {
        &self.bytes
    }

    /// Takes the bytes of a ledger, checking that every record holds the
    /// exact encoding of a sale, that codes ascend and that none is above the
    /// counter.
    #[verifier::rlimit(40)]
    pub fn from_bytes(bytes: Vec<u8>) -> (r: Result<SaleFile, CustomErrors>)
        ensures
            r is Ok <==> wf_ledger(bytes@),
            match r {
                Ok(f) => f@ == bytes@,
                Err(e) => e == CustomErrors::MalformedRecord,
            },
    {
        let len = bytes.len();
        if len == 0 {
            proof {
                reveal(wf_ledger);
            }
            return Ok(SaleFile { bytes });
        }
        if len < 8 {
            proof {
                reveal(wf_ledger);
            }
            return Err(CustomErrors::MalformedRecord);
        }
        let blen = len - 8;
        let c = get_u64(bytes.as_slice(), blen);
        let ghost b = bytes@;
        let ghost ok = wf_ledger(b);
        let ghost body = ledger_body(b);
        let ghost mut vs: Seq<VendaView> = Seq::empty();
        let mut prev: u64 = 0;
        let mut seen = false;
        let mut pos: usize = 0;
        while pos < blen
            invariant
                b == bytes@,
                len == b.len(),
                blen == len - 8,
                body == ledger_body(b),
                pos <= blen,
                c == u64_at(b, blen as int),
                records_bytes(vs) == body.subrange(0, pos as int),
                all_fit(vs),
                codes_ascending(vs),
                forall|i: int| 0 <= i < vs.len() ==> #[trigger] vs[i].codigo <= c,
                seen == (vs.len() > 0),
                vs.len() > 0 ==> prev == vs.last().codigo,
                ok == wf_ledger(b),
                ok ==> vs.len() <= sales_of(b).len() && vs == sales_of(b).take(vs.len() as int),
            decreases blen - pos,
        {
            let ghost k = vs.len() as int;
            proof {
                if ok {
                    lemma_next_record(b, k, pos as int);
                }
            }
            if blen - pos < 8 {
                return Err(CustomErrors::MalformedRecord);
            }
            let n = get_u64(bytes.as_slice(), pos);
            if n > (blen - pos - 8) as u64 {
                return Err(CustomErrors::MalformedRecord);
            }
            let end = pos + 8 + n as usize;
            let payload = slice_subrange(bytes.as_slice(), pos + 8, end);
            proof {
                if ok {
                    lemma_sale_round_trip(sales_of(b)[k]);
                }
            }
            let v = match decode_sale(payload) {
                Some(v) => v,
                None => return Err(CustomErrors::MalformedRecord),
            };
            let enc = match encode_sale(&v) {
                Ok(enc) => enc,
                Err(_) => return Err(CustomErrors::MalformedRecord),
            };
            if !same_bytes(payload, &enc) {
                return Err(CustomErrors::MalformedRecord);
            }
            if (seen && v.codigo <= prev) || v.codigo > c {
                proof {
                    if ok && seen {
                        assert(vs[k - 1] == sales_of(b)[k - 1]);
                    }
                }
                return Err(CustomErrors::MalformedRecord);
            }
            proof {
                if ok {
                    assert(sales_of(b).take(k + 1) =~= vs.push(v@));
                }
                let w = v@;
                lemma_extend_prefix(b, vs, pos as int, n, w);
                assert forall|i: int, j: int| 0 <= i < j < vs.push(w).len() implies #[trigger] vs.push(w)[i].codigo
                    < #[trigger] vs.push(w)[j].codigo by {
                    if j == vs.len() && i < vs.len() - 1 {
                        assert(vs[i].codigo < vs[vs.len() - 1].codigo);
                    }
                }
                vs = vs.push(w);
            }
            prev = v.codigo;
            seen = true;
            pos = end;
        }
        proof {
            assert(body.subrange(0, blen as int) =~= body);
            lemma_parse_round_trip(vs);
            reveal(wf_ledger);
        }
        Ok(SaleFile { bytes })
    }

    fn body_len(&self) -> (r: usize)
        requires
            self.wf(),
        ensures
            r == ledger_body(self@).len(),
            r == records_bytes(self.items()).len(),
            self@.len() == 0 ==> r == 0,
            self@.len() > 0 ==> r == self@.len() - 8,
    {
        let len = self.bytes.len();
        proof {
            lemma_ledger_facts(self@);
        }
        if len == 0 {
            proof {
                assert(ledger_body(self@) =~= Seq::<u8>::empty());
            }
            0
        } else {
            len - 8
        }
    }

    /// Reads record `k`, which starts at `pos`; gives it and where the next
    /// record starts.
    #[verifier::rlimit(40)]
    fn read_at(&self, Ghost(k): Ghost<int>, pos: usize) -> (r: (Venda, usize))
        requires
            self.wf(),
            0 <= k < self.items().len(),
            pos == offset_of(self.items(), k),
        ensures
            r.0@ == self.items()[k],
            r.1 == offset_of(self.items(), k + 1),
    {
        let ghost vs = self.items();
        let ghost b = self@;
        let ghost body = ledger_body(b);
        let len = self.bytes.len();
        proof {
            lemma_ledger_facts(b);
            if b.len() == 0 {
                assert(ledger_body(b) =~= Seq::<u8>::empty());
            }
            lemma_record_at(vs, k);
            assert(body.subrange(pos as int, pos + 8) =~= b.subrange(pos as int, pos + 8));
        }
        let n = get_u64(self.bytes.as_slice(), pos);
        proof {
            let sl = sale_bytes(vs[k]).len() as int;
            lemma_read_u64(body, pos as int, sl as u64);
            assert(n == sl);
        }
        let end = pos + 8 + n as usize;
        let payload = slice_subrange(self.bytes.as_slice(), pos + 8, end);
        proof {
            assert(payload@ =~= body.subrange(pos + 8, end as int));
            lemma_sale_round_trip(vs[k]);
        }
        match decode_sale(payload) {
            Some(v) => (v, end),
            None => {
                assert(false);
                (Venda::new(String::new(), 0, 0, Data { dia: 1, mes: 1, ano: 1970 }, MetodoPagamento::Pix), end)
            },
        }
    }

    /// Finds the sale with code `code`: the sale, where its record starts,
    /// and its index.
    fn find(&self, code: u64) -> (r: Option<(Venda, usize, usize)>)
        requires
            self.wf(),
        ensures
            match r {
                Some((v, pos, k)) => {
                    &&& 0 <= k < self.items().len()
                    &&& self.items()[k as int] == v@
                    &&& v.codigo == code
                    &&& pos == offset_of(self.items(), k as int)
                },
                None => !has_code(self.items(), code),
            },
    {
        let ghost vs = self.items();
        let blen = self.body_len();
        let mut pos: usize = 0;
        let mut k: usize = 0;
        proof {
            lemma_ledger_facts(self@);
            assert(vs.take(0) =~= Seq::<VendaView>::empty());
            assert(vs.take(vs.len() as int) =~= vs);
        }
        while pos < blen
            invariant
                self.wf(),
                vs == self.items(),
                all_fit(vs),
                blen == records_bytes(vs).len(),
                k <= vs.len(),
                pos == offset_of(vs, k as int),
                k <= pos,
                k == vs.len() ==> pos == blen,
                forall|j: int| 0 <= j < k ==> #[trigger] vs[j].codigo != code,
            decreases blen - pos,
        {
            let (v, next) = self.read_at(Ghost(k as int), pos);
            proof {
                lemma_record_at(vs, k as int);
            }
            if v.codigo == code {
                return Some((v, pos, k));
            }
            pos = next;
            k = k + 1;
        }
        proof {
            if k < vs.len() {
                lemma_record_at(vs, k as int);
            }
        }
        None
    }

    fn scan(&self, sel: Selector) -> (r: Vec<Venda>)
        requires
            self.wf(),
        ensures
            sale_views(r@) == self.items().filter(selector_filter(sel)),
    {
        let ghost vs = self.items();
        let ghost pred = selector_filter(sel);
        let blen = self.body_len();
        let mut out: Vec<Venda> = Vec::new();
        let mut pos: usize = 0;
        let mut k: usize = 0;
        proof {
            lemma_ledger_facts(self@);
            assert(vs.take(0) =~= Seq::<VendaView>::empty());
            assert(vs.take(vs.len() as int) =~= vs);
        }
        while pos < blen
            invariant
                self.wf(),
                vs == self.items(),
                pred == selector_filter(sel),
                all_fit(vs),
                blen == records_bytes(vs).len(),
                k <= vs.len(),
                pos == offset_of(vs, k as int),
                k <= pos,
                k == vs.len() ==> pos == blen,
                sale_views(out@) == vs.take(k as int).filter(pred),
            decreases blen - pos,
        {
            let (v, next) = self.read_at(Ghost(k as int), pos);
            proof {
                lemma_record_at(vs, k as int);
                assert(vs.take(k + 1) =~= vs.take(k as int).push(vs[k as int]));
                vs.take(k as int).lemma_filter_push(vs[k as int], pred);
            }
            let keep = match sel {
                Selector::All => true,
                Selector::OnDate(d) => v.data == d,
                Selector::WithProduct(id) => contains_id(&v.produtos, id),
            };
            let ghost before = out@;
            if keep {
                out.push(v);
                assert(sale_views(out@) =~= sale_views(before).push(vs[k as int]));
            }
            pos = next;
            k = k + 1;
        }
        proof {
            if k < vs.len() {
                lemma_record_at(vs, k as int);
            }
        }
        out
    }

    /// Overwrites the bytes from `at` on with `src`.
    fn overwrite(&mut self, at: usize, src: &Vec<u8>)
        requires
            at + src@.len() <= old(self)@.len(),
        ensures
            final(self)@ == old(self)@.subrange(0, at as int) + src@ + old(self)@.subrange(
                at + src@.len(),
                old(self)@.len() as int,
            ),
    {
        let ghost b = self.bytes@;
        let _len = self.bytes.len();
        let n = src.len();
        let mut k: usize = 0;
        while k < n
            invariant
                _len == b.len(),
                n == src@.len(),
                at + n <= b.len(),
                k <= n,
                self.bytes@.len() == b.len(),
                forall|j: int| 0 <= j < at ==> self.bytes@[j] == b[j],
                forall|j: int| at + n <= j < b.len() ==> self.bytes@[j] == b[j],
                forall|j: int| at <= j < at + k ==> self.bytes@[j] == src@[j - at],
                forall|j: int| at + k <= j < at + n ==> self.bytes@[j] == b[j],
            decreases n - k,
        {
            self.bytes[at + k] = src[k];
            k = k + 1;
        }
        assert(self.bytes@ =~= b.subrange(0, at as int) + src@ + b.subrange(at + n, b.len() as int));
    }

    /// Moves every byte after `at + width` back by `width` and shortens the
    /// ledger by `width`.
    fn cut(&mut self, at: usize, width: usize)
        requires
            at + width <= old(self)@.len(),
        ensures
            final(self)@ == old(self)@.subrange(0, at as int) + old(self)@.subrange(
                at + width,
                old(self)@.len() as int,
            ),
    {
        let ghost b = self.bytes@;
        let len = self.bytes.len();
        let end = len - width;
        let mut k: usize = at;
        while k < end
            invariant
                at <= k <= end,
                end == len - width,
                len == b.len(),
                self.bytes@.len() == len,
                forall|j: int| 0 <= j < at ==> self.bytes@[j] == b[j],
                forall|j: int| at <= j < k ==> self.bytes@[j] == b[j + width],
                forall|j: int| k <= j < len ==> self.bytes@[j] == b[j],
            decreases end - k,
        {
            let x = self.bytes[k + width];
            self.bytes[k] = x;
            k = k + 1;
        }
        self.bytes.truncate(end);
        assert(self.bytes@ =~= b.subrange(0, at as int) + b.subrange(at + width, b.len() as int));
    }
}

/// The sales as they stand after a sale of the lines `lines`, applied one
/// after the other; the first line that names a missing product or asks for
/// more than its stock decides the error.
pub open spec fn apply_lines(ps: Seq<ProdutoView>, lines: Seq<(u64, u64)>) -> Result<Seq<ProdutoView>, CustomErrors>
    decreases lines.len(),
{
    if lines.len() == 0 {
        Ok(ps)
    } else {
        match apply_lines(ps, lines.drop_last()) {
            Err(e) => Err(e),
            Ok(cur) => {
                let (id, amount) = lines.last();
                if !has_id(cur, id) {
                    Err(CustomErrors::ProductNotFound)
                } else if stock_short(cur, id, amount) {
                    Err(CustomErrors::LowStock)
                } else {
                    Ok(with_stock_taken(cur, id, amount))
                }
            },
        }
    }
}

/// The product ids of the lines, each once, in order of first appearance.
pub open spec fn distinct_ids(lines: Seq<(u64, u64)>) -> Seq<u64>
    decreases lines.len(),
{
    if lines.len() == 0 {
        Seq::empty()
    } else {
        let prev = distinct_ids(lines.drop_last());
        if prev.contains(lines.last().0) {
            prev
        } else {
            prev.push(lines.last().0)
        }
    }
}

/// What appending sale `v` to the ledger `before` makes of it: `v` carries
/// the next code and stands last, and the counter holds its code.
pub open spec fn sale_appended(before: Seq<u8>, v: VendaView, after: Seq<u8>) -> bool {
    &&& ledger_counter(before) != Some(u64::MAX)
    &&& v.codigo == next_code(before)
    &&& wf_ledger(after)
    &&& sales_of(after) == sales_of(before).push(v)
    &&& ledger_counter(after) == Some(v.codigo)
}

/// Once a prefix of the lines fails, the whole sale fails the same way.
pub proof fn lemma_apply_lines_err(ps: Seq<ProdutoView>, lines: Seq<(u64, u64)>, j: int)
    requires
        0 <= j <= lines.len(),
        apply_lines(ps, lines.take(j)) is Err,
    ensures
        apply_lines(ps, lines) == apply_lines(ps, lines.take(j)),
    decreases lines.len() - j,
{
    if j == lines.len() {
        assert(lines.take(j) =~= lines);
    } else {
        assert(lines.take(j + 1).drop_last() =~= lines.take(j));
        lemma_apply_lines_err(ps, lines, j + 1);
    }
}

impl SaleFile {
    /// The code the next sale gets, unless the counter is exhausted.
    fn next_code_value(&self) -> (r: Option<u64>)
        requires
            self.wf(),
        ensures
            r is Some <==> self.counter() != Some(u64::MAX),
            r matches Some(c) ==> c == next_code(self@),
    {
        let len = self.bytes.len();
        if len == 0 {
            Some(1)
        } else {
            proof {
                lemma_ledger_facts(self@);
            }
            let c = get_u64(self.bytes.as_slice(), len - 8);
            if c < u64::MAX {
                Some(c + 1)
            } else {
                None
            }
        }
    }

    /// Appends the record of a sale already encoded as `enc`, and the new counter.
    fn append_record(&mut self, enc: Vec<u8>, Ghost(v): Ghost<VendaView>, code: u64)
        requires
            old(self).wf(),
            sale_fits(v),
            enc@ == sale_bytes(v),
            v.codigo == code,
            code == next_code(old(self)@),
            old(self).counter() != Some(u64::MAX),
        ensures
            final(self).wf(),
            final(self).items() == old(self).items().push(v),
            final(self).counter() == Some(code),
    {
        let ghost b = self.bytes@;
        let ghost vs = self.items();
        proof {
            lemma_ledger_facts(b);
            lemma_record_len(v);
        }
        let len = self.bytes.len();
        if len > 0 {
            self.bytes.truncate(len - 8);
        }
        let ghost head = self.bytes@;
        let mut enc = enc;
        let n = enc.len();
        push_u64(&mut self.bytes, n as u64);
        self.bytes.append(&mut enc);
        push_u64(&mut self.bytes, code);
        proof {
            let nb = self.bytes@;
            lemma_le_lengths();
            if len == 0 {
                assert(ledger_body(b) =~= Seq::<u8>::empty());
            }
            assert(head == ledger_body(b));
            assert(ledger_body(nb) =~= head + record_bytes(v));
            lemma_records_concat(vs, seq![v]);
            lemma_records_single(v);
            assert(vs + seq![v] =~= vs.push(v));
            assert(nb.subrange(nb.len() - 8, nb.len() as int) =~= le64(code));
            lemma_read_u64(nb, nb.len() - 8, code);
            let ws = vs.push(v);
            assert(all_fit(ws)) by {
                assert forall|i: int| 0 <= i < ws.len() implies sale_fits(#[trigger] ws[i]) by {
                    if i < vs.len() {
                        assert(ws[i] == vs[i]);
                    }
                }
            }
            assert forall|i: int, j: int| 0 <= i < j < ws.len() implies #[trigger] ws[i].codigo
                < #[trigger] ws[j].codigo by {
                if j == vs.len() {
                    assert(vs[i].codigo <= u64_at(b, b.len() - 8));
                }
            }
            assert forall|i: int| 0 <= i < ws.len() implies #[trigger] ws[i].codigo <= u64_at(
                nb,
                nb.len() - 8,
            ) by {
                if i < vs.len() {
                    assert(vs[i].codigo <= u64_at(b, b.len() - 8));
                }
            }
            lemma_rebuild(nb, ws);
        }
    }
}

/// Looks up the sale with code `code`, scanning from the start; gives it
/// and the offset of its record, which is the length of all records before it.
pub fn search_sale_code(file: &SaleFile, code: u64) -> (r: Result<(Venda, u64), CustomErrors>)
    requires
        file.wf(),
    ensures
        r is Ok <==> has_code(file.items(), code),
        match r {
            Ok((v, off)) => exists|k: int|
                0 <= k < file.items().len() && #[trigger] file.items()[k] == v@ && v.codigo == code
                    && off == offset_of(file.items(), k),
            Err(e) => e == CustomErrors::SaleNotFound,
        },
{
    match file.find(code) {
        Some((v, pos, k)) => {
            assert(file.items()[k as int].codigo == code);
            Ok((v, pos as u64))
        },
        None => Err(CustomErrors::SaleNotFound),
    }
}

/// All sales, in the order they were written.
pub fn list_sales(file: &SaleFile) -> (r: Vec<Venda>)
    requires
        file.wf(),
    ensures
        sale_views(r@) == file.items(),
{
    let r = file.scan(Selector::All);
    proof {
        lemma_filter_all(file.items(), selector_filter(Selector::All));
    }
    r
}

/// The sales made on date `date`, in the order they were written.
pub fn search_sales_by_date(file: &SaleFile, date: Data) -> (r: Vec<Venda>)
    requires
        file.wf(),
    ensures
        sale_views(r@) == file.items().filter(date_filter(date)),
{
    let r = file.scan(Selector::OnDate(date));
    assert(selector_filter(Selector::OnDate(date)) == date_filter(date));
    r
}

/// The sales that include product `id`, in the order they were written.
pub fn search_product_sales(file: &SaleFile, id: u64) -> (r: Vec<Venda>)
    requires
        file.wf(),
    ensures
        sale_views(r@) == file.items().filter(product_filter(id)),
{
    let r = file.scan(Selector::WithProduct(id));
    assert(selector_filter(Selector::WithProduct(id)) == product_filter(id));
    r
}

/// Changes the date and the payment method of sale `code`. Its record keeps
/// its length, since a date always takes ten characters, so it is rewritten
/// in place.
pub fn update_sale(file: &mut SaleFile, code: u64, data: Data, metodo_pagamento: MetodoPagamento) -> (r: Result<(), CustomErrors>)
    requires
        old(file).wf(),
    ensures
        final(file).wf(),
        final(file)@.len() == old(file)@.len(),
        final(file).counter() == old(file).counter(),
        r is Ok <==> has_code(old(file).items(), code) && data.wf(),
        match r {
            Ok(_) => exists|k: int|
                0 <= k < old(file).items().len() && #[trigger] old(file).items()[k].codigo == code
                    && final(file).items() == old(file).items().update(
                    k,
                    VendaView { data, metodo_pagamento, ..old(file).items()[k] },
                ),
            Err(e) => {
                &&& final(file)@ == old(file)@
                &&& e == if !has_code(old(file).items(), code) {
                    CustomErrors::SaleNotFound
                } else {
                    CustomErrors::InvalidDate
                }
            },
        },
{
    let (mut v, pos, k) = match file.find(code) {
        Some(x) => x,
        None => return Err(CustomErrors::SaleNotFound),
    };
    let ghost vs = file.items();
    let ghost b = file@;
    assert(vs[k as int].codigo == code);
    if !date_is_valid(&data) {
        return Err(CustomErrors::InvalidDate);
    }
    v.data = data;
    v.metodo_pagamento = metodo_pagamento;
    let ghost w = v@;
    let enc = match encode_sale(&v) {
        Ok(enc) => enc,
        Err(_) => return Err(CustomErrors::InvalidDate),
    };
    proof {
        lemma_ledger_facts(b);
        lemma_record_at(vs, k as int);
        lemma_sale_bytes_len(vs[k as int]);
        lemma_sale_bytes_len(w);
        if b.len() == 0 {
            assert(ledger_body(b) =~= Seq::<u8>::empty());
        }
    }
    let _len = file.as_bytes().len();
    file.overwrite(pos + 8, &enc);
    proof {
        lemma_replace_record(b, file@, k as int, w);
    }
    Ok(())
}

/// Removes sale `code`: every byte after its record, the counter included,
/// moves back by the record's length, and the ledger shrinks by it.
pub fn remove_sale(file: &mut SaleFile, code: u64) -> (r: Result<(), CustomErrors>)
    requires
        old(file).wf(),
    ensures
        final(file).wf(),
        final(file).counter() == old(file).counter(),
        r is Ok <==> has_code(old(file).items(), code),
        match r {
            Ok(_) => exists|k: int|
                0 <= k < old(file).items().len() && #[trigger] old(file).items()[k].codigo == code
                    && final(file).items() == old(file).items().remove(k)
                    && final(file)@.len() == old(file)@.len() - record_bytes(old(file).items()[k]).len(),
            Err(e) => final(file)@ == old(file)@ && e == CustomErrors::SaleNotFound,
        },
{
    let (_, pos, k) = match file.find(code) {
        Some(x) => x,
        None => return Err(CustomErrors::SaleNotFound),
    };
    let ghost vs = file.items();
    let ghost b = file@;
    assert(vs[k as int].codigo == code);
    proof {
        lemma_ledger_facts(b);
        lemma_record_at(vs, k as int);
        lemma_record_len(vs[k as int]);
        if b.len() == 0 {
            assert(ledger_body(b) =~= Seq::<u8>::empty());
        }
        assert(b.subrange(pos as int, pos + 8) =~= ledger_body(b).subrange(pos as int, pos + 8));
        lemma_read_u64(b, pos as int, sale_bytes(vs[k as int]).len() as u64);
    }
    let _len = file.as_bytes().len();
    let n = get_u64(file.as_bytes().as_slice(), pos);
    file.cut(pos, 8 + n as usize);
    proof {
        lemma_cut_record(b, file@, k as int);
    }
    Ok(())
}

/// Registers a sale by `vendedor` of the `lines` (product id, quantity), in
/// that order: each line takes its quantity out of the product's stock, and
/// the sale is appended to the ledger with the code after the counter (1 in
/// an empty ledger), listing each product id once. `valor` is the total the
/// caller computed, as the bits of an IEEE 754 double. Nothing is written
/// unless every line can be served.
pub fn register_sale(
    products: &mut ProductFile,
    sales: &mut SaleFile,
    vendedor: String,
    lines: &Vec<(u64, u64)>,
    metodo_pagamento: MetodoPagamento,
    data: Data,
    valor: u64,
) -> (r: Result<u64, CustomErrors>)
    requires
        old(products).wf(),
        old(sales).wf(),
    ensures
        final(products).wf(),
        final(sales).wf(),
        r is Ok <==> data.wf() && apply_lines(old(products).items(), lines@) is Ok
            && old(sales).counter() != Some(u64::MAX),
        match r {
            Ok(code) => {
                &&& code == next_code(old(sales)@)
                &&& apply_lines(old(products).items(), lines@) == Ok::<Seq<ProdutoView>, CustomErrors>(
                    final(products).items(),
                )
                &&& final(products)@.len() == old(products)@.len()
                &&& final(products).counter() == old(products).counter()
                &&& final(sales).items() == old(sales).items().push(
                    VendaView {
                        vendedor: vendedor@,
                        produtos: distinct_ids(lines@),
                        codigo: code,
                        valor,
                        metodo_pagamento,
                        data,
                    },
                )
                &&& final(sales).counter() == Some(code)
                &&& sale_appended(
                    old(sales)@,
                    VendaView {
                        vendedor: vendedor@,
                        produtos: distinct_ids(lines@),
                        codigo: code,
                        valor,
                        metodo_pagamento,
                        data,
                    },
                    final(sales)@,
                )
            },
            Err(e) => {
                &&& final(products)@ == old(products)@
                &&& final(sales)@ == old(sales)@
                &&& e == if !data.wf() {
                    CustomErrors::InvalidDate
                } else {
                    match apply_lines(old(products).items(), lines@) {
                        Err(e0) => e0,
                        Ok(_) => CustomErrors::CounterExhausted,
                    }
                }
            },
        },
{
    if !date_is_valid(&data) {
        return Err(CustomErrors::InvalidDate);
    }
    let ghost start = products.items();
    let mut work = products.duplicate();
    let mut ids: Vec<u64> = Vec::new();
    let n = lines.len();
    let mut k: usize = 0;
    proof {
        assert(lines@.take(0) =~= Seq::<(u64, u64)>::empty());
    }
    while k < n
        invariant
            products.wf(),
            products@ == old(products)@,
            sales.wf(),
            sales@ == old(sales)@,
            data.wf(),
            start == products.items(),
            work.wf(),
            k <= n,
            n == lines@.len(),
            apply_lines(start, lines@.take(k as int)) == Ok::<Seq<ProdutoView>, CustomErrors>(
                work.items(),
            ),
            work@.len() == products@.len(),
            work.counter() == products.counter(),
            ids@ == distinct_ids(lines@.take(k as int)),
        decreases n - k,
    {
        let (id, amount) = lines[k];
        proof {
            assert(lines@.take(k + 1).drop_last() =~= lines@.take(k as int));
            assert(lines@.take(k + 1).last() == lines@[k as int]);
        }
        match decrement_stock(&mut work, id, amount) {
            Ok(()) => {},
            Err(e) => {
                proof {
                    lemma_apply_lines_err(start, lines@, k + 1);
                }
                return Err(e);
            },
        }
        if !contains_id(&ids, id) {
            ids.push(id);
        }
        k = k + 1;
    }
    proof {
        assert(lines@.take(n as int) =~= lines@);
    }
    let code = match sales.next_code_value() {
        Some(c) => c,
        None => return Err(CustomErrors::CounterExhausted),
    };
    let venda = Venda { vendedor, produtos: ids, codigo: code, valor, metodo_pagamento, data };
    let enc = match encode_sale(&venda) {
        Ok(enc) => enc,
        Err(e) => return Err(e),
    };
    *products = work;
    sales.append_record(enc, Ghost(venda@), code);
    Ok(code)
}

} // verus!
