//! The product file: records of `PRODUCT_LENGTH` bytes sorted by id, then
//! the 8-byte counter with the last id handed out. An empty file has no
//! counter.
use vstd::prelude::*;
use vstd::slice::*;
use crate::codec::{
    decode_product, encode_product, fit_error, get_u64, le64, lemma_product_round_trip,
    lemma_read_u64, lemma_record_fits, product_fits, product_record, product_slot, push_u64,
    u64_at,
};
use crate::errors::CustomErrors;
use crate::model::{Produto, ProdutoView};

verus! {

broadcast use vstd::slice::group_slice_axioms;

pub open spec fn record_count(b: Seq<u8>) -> int {
    if b.len() < 8 {
        0
    } else {
        (b.len() - 8) / 102
    }
}

/// The bytes of record `i`.
pub open spec fn slot(b: Seq<u8>, i: int) -> Seq<u8> {
    b.subrange(102 * i, 102 * i + 102)
}

/// The products that the file holds, in file order.
pub open spec fn products_of(b: Seq<u8>) -> Seq<ProdutoView> {
    Seq::new(record_count(b) as nat, |i: int| product_record(slot(b, i)).unwrap())
}

/// The counter: the last id handed out, where the file is not empty.
pub open spec fn counter_of(b: Seq<u8>) -> Option<u64> {
    if b.len() >= 8 {
        Some(u64_at(b, b.len() - 8))
    } else {
        None
    }
}

pub open spec fn ids_ascending(ps: Seq<ProdutoView>) -> bool {
    forall|i: int, j: int| 0 <= i < j < ps.len() ==> #[trigger] ps[i].id < #[trigger] ps[j].id
}

pub open spec fn has_id(ps: Seq<ProdutoView>, id: u64) -> bool {
    exists|i: int| 0 <= i < ps.len() && #[trigger] ps[i].id == id
}

/// The id that the next product added will get.
pub open spec fn next_id(b: Seq<u8>) -> u64 {
    match counter_of(b) {
        Some(c) => (c + 1) as u64,
        None => 1,
    }
}

/// Record `i` of a file ends before the counter.
pub proof fn lemma_slot_bounds(b: Seq<u8>, i: int)
    requires
        b.len() >= 8,
        0 <= i < record_count(b),
    ensures
        102 * i + 102 <= b.len() - 8,
{
    let n = record_count(b);
    assert(102 * n <= b.len() - 8);
    assert(102 * i + 102 <= 102 * n);
}

/// What adding `p` to the file `before` makes of it: the product with the
/// next id at the end, and the counter at that id.
pub open spec fn product_added(before: Seq<u8>, p: ProdutoView, after: Seq<u8>) -> bool {
    &&& counter_of(before) != Some(u64::MAX)
    &&& wf_product_file(after)
    &&& products_of(after) == products_of(before).push(with_id(p, next_id(before)))
    &&& counter_of(after) == Some(next_id(before))
}

/// What removing product `id` from the file `before` makes of it.
pub open spec fn product_removed(before: Seq<u8>, id: u64, after: Seq<u8>) -> bool {
    &&& wf_product_file(after)
    &&& after.len() == before.len() - 102
    &&& exists|i: int|
        0 <= i < products_of(before).len() && #[trigger] products_of(before)[i].id == id
            && products_of(after) == products_of(before).remove(i)
}

/// A product with its id replaced.
pub open spec fn with_id(p: ProdutoView, id: u64) -> ProdutoView {
    ProdutoView { id, ..p }
}

/// The products after `amount` units of product `id` left the stock.
pub open spec fn with_stock_taken(ps: Seq<ProdutoView>, id: u64, amount: u64) -> Seq<ProdutoView> {
    Seq::new(
        ps.len(),
        |i: int|
            if ps[i].id == id {
                ProdutoView { quantidade_estoque: (ps[i].quantidade_estoque - amount) as u64, ..ps[i] }
            } else {
                ps[i]
            },
    )
}

/// The product `id` has fewer than `amount` units in stock.
pub open spec fn stock_short(ps: Seq<ProdutoView>, id: u64, amount: u64) -> bool {
    exists|i: int| 0 <= i < ps.len() && #[trigger] ps[i].id == id && ps[i].quantidade_estoque < amount
}

/// The test that selects the products due for restocking.
pub open spec fn restock_filter() -> spec_fn(ProdutoView) -> bool {
    |p: ProdutoView| p.needs_restock()
}

pub open spec fn views(ps: Seq<Produto>) -> Seq<ProdutoView> {
    ps.map_values(|p: Produto| p@)
}

proof fn lemma_count(b: Seq<u8>, n: int)
    requires
        0 <= n,
        b.len() == 8 + 102 * n,
    ensures
        record_count(b) == n,
        (b.len() - 8) % 102 == 0,
{
}

/// Replacing record `i` by `s` replaces that product and keeps the others and
/// the counter.
proof fn lemma_replace_slot(b: Seq<u8>, nb: Seq<u8>, i: int, s: Seq<u8>)
    requires
        wf_product_file(b),
        0 <= i < record_count(b),
        s.len() == 102,
        product_record(s) is Some,
        nb == b.subrange(0, 102 * i) + s + b.subrange(102 * i + 102, b.len() as int),
    ensures
        nb.len() == b.len(),
        record_count(nb) == record_count(b),
        counter_of(nb) == counter_of(b),
        products_of(nb) == products_of(b).update(i, product_record(s).unwrap()),
        forall|j: int| 0 <= j < record_count(nb) ==> (#[trigger] product_record(slot(nb, j))) is Some,
{
    lemma_slot_bounds(b, i);
    let n = record_count(b);
    assert forall|j: int| 0 <= j < n && j != i implies #[trigger] slot(nb, j) == slot(b, j) by {
        lemma_slot_bounds(b, j);
        assert(slot(nb, j) =~= slot(b, j));
    }
    assert(slot(nb, i) =~= s);
    assert(nb.subrange(nb.len() - 8, nb.len() as int) =~= b.subrange(b.len() - 8, b.len() as int));
    assert(products_of(nb) =~= products_of(b).update(i, product_record(s).unwrap()));
    assert forall|j: int| 0 <= j < record_count(nb) implies (#[trigger] product_record(
        slot(nb, j),
    )) is Some by {
        if j != i {
            assert(slot(nb, j) == slot(b, j));
        }
    }
}

/// Cutting record `i` out removes that product and keeps the counter.
proof fn lemma_remove_slot(b: Seq<u8>, nb: Seq<u8>, i: int)
    requires
        wf_product_file(b),
        0 <= i < record_count(b),
        nb == b.subrange(0, 102 * i) + b.subrange(102 * i + 102, b.len() as int),
    ensures
        nb.len() == b.len() - 102,
        wf_product_file(nb),
        counter_of(nb) == counter_of(b),
        products_of(nb) == products_of(b).remove(i),
{
    lemma_slot_bounds(b, i);
    let n = record_count(b);
    lemma_count(b, n);
    lemma_count(nb, n - 1);
    assert forall|j: int| 0 <= j < n - 1 implies #[trigger] slot(nb, j) == if j < i {
        slot(b, j)
    } else {
        slot(b, j + 1)
    } by {
        lemma_slot_bounds(b, j);
        lemma_slot_bounds(b, j + 1);
        if j < i {
            assert(slot(nb, j) =~= slot(b, j));
        } else {
            assert(slot(nb, j) =~= slot(b, j + 1));
        }
    }
    assert(nb.subrange(nb.len() - 8, nb.len() as int) =~= b.subrange(b.len() - 8, b.len() as int));
    assert(products_of(nb) =~= products_of(b).remove(i));
    assert forall|j: int| 0 <= j < record_count(nb) implies (#[trigger] product_record(
        slot(nb, j),
    )) is Some by {
        if j >= i {
            assert(product_record(slot(b, j + 1)) is Some);
        }
    }
    let ps = products_of(b);
    let qs = products_of(nb);
    assert forall|x: int, y: int| 0 <= x < y < qs.len() implies #[trigger] qs[x].id
        < #[trigger] qs[y].id by {
        let x2 = if x < i { x } else { x + 1 };
        let y2 = if y < i { y } else { y + 1 };
        assert(ps[x2].id < ps[y2].id);
    }
    assert forall|j: int| 0 <= j < record_count(nb) implies #[trigger] products_of(nb)[j].id
        <= u64_at(nb, nb.len() - 8) by {
        let j2 = if j < i { j } else { j + 1 };
        assert(ps[j2].id <= u64_at(b, b.len() - 8));
    }
}

/// The layout of a product file: empty, or whole records followed by the
/// counter, every record holding a product, ids strictly ascending and none
/// above the counter.
pub open spec fn wf_product_file(b: Seq<u8>) -> bool {
    b.len() == 0 || {
        &&& b.len() >= 8
        &&& (b.len() - 8) % 102 == 0
        &&& forall|i: int| 0 <= i < record_count(b) ==> (#[trigger] product_record(slot(b, i))) is Some
        &&& ids_ascending(products_of(b))
        &&& forall|i: int| 0 <= i < record_count(b) ==> #[trigger] products_of(b)[i].id <= u64_at(b, b.len() - 8)
    }
}

/// The byte image of a product file.
pub struct ProductFile {
    bytes: Vec<u8>,
}

impl View for ProductFile {
    type V = Seq<u8>;

    closed spec fn view(&self) -> Seq<u8> {
        self.bytes@
    }
}

impl ProductFile {
    pub open spec fn wf(&self) -> bool {
        wf_product_file(self@)
    }

    pub open spec fn items(&self) -> Seq<ProdutoView> {
        products_of(self@)
    }

    pub open spec fn counter(&self) -> Option<u64> {
        counter_of(self@)
    }

    /// An empty product file.
    pub fn new() -> (r: ProductFile)
        ensures
            r.wf(),
            r@ == Seq::<u8>::empty(),
            r.items() == Seq::<ProdutoView>::empty(),
    {
        let r = ProductFile { bytes: Vec::new() };
        assert(r.items() =~= Seq::<ProdutoView>::empty());
        r
    }

    /// A copy of the file.
    pub fn duplicate(&self) -> (r: ProductFile)
        ensures
            r@ == self@,
    {
        ProductFile { bytes: slice_to_vec(self.bytes.as_slice()) }
    }

    /// The bytes of the file.
    pub fn as_bytes(&self) -> (r: &Vec<u8>)
        ensures
            r@ == self@,
    {
        &self.bytes
    }

    /// Takes the bytes of a product file, checking their layout.
    pub fn from_bytes(bytes: Vec<u8>) -> (r: Result<ProductFile, CustomErrors>)
        ensures
            match r {
                Ok(f) => wf_product_file(bytes@) && f@ == bytes@,
                Err(e) => !wf_product_file(bytes@) && e == CustomErrors::MalformedRecord,
            },
    {
        let len = bytes.len();
        if len == 0 {
            return Ok(ProductFile { bytes });
        }
        if len < 8 || (len - 8) % 102 != 0 {
            return Err(CustomErrors::MalformedRecord);
        }
        let n = (len - 8) / 102;
        let c = get_u64(bytes.as_slice(), len - 8);
        let ghost b = bytes@;
        assert(record_count(b) == n);
        let mut prev: u64 = 0;
        let mut k: usize = 0;
        while k < n
            invariant
                b == bytes@,
                len == b.len(),
                len == 8 + 102 * n,
                record_count(b) == n,
                c == u64_at(b, b.len() - 8),
                k <= n,
                forall|i: int| 0 <= i < k ==> (#[trigger] product_record(slot(b, i))) is Some,
                forall|i: int, j: int|
                    0 <= i < j < k ==> #[trigger] products_of(b)[i].id < #[trigger] products_of(b)[j].id,
                forall|i: int| 0 <= i < k ==> #[trigger] products_of(b)[i].id <= c,
                k > 0 ==> prev == products_of(b)[k - 1].id,
            decreases n - k,
        {
            let s = slice_subrange(bytes.as_slice(), 102 * k, 102 * k + 102);
            assert(s@ == slot(b, k as int));
            match decode_product(s) {
                None => {
                    return Err(CustomErrors::MalformedRecord);
                },
                Some(p) => {
                    assert(products_of(b)[k as int] == p@);
                    if (k > 0 && p.id <= prev) || p.id > c {
                        proof {
                            if k > 0 && p.id <= prev {
                                assert(!(products_of(b)[k - 1].id < products_of(b)[k as int].id));
                                assert(!ids_ascending(products_of(b)));
                            } else {
                                assert(!(products_of(b)[k as int].id <= u64_at(b, b.len() - 8)));
                            }
                        }
                        return Err(CustomErrors::MalformedRecord);
                    }
                    prev = p.id;
                },
            }
            k = k + 1;
        }
        Ok(ProductFile { bytes })
    }

    /// Overwrites record `i` with `s`.
    fn write_record(&mut self, i: usize, s: &Vec<u8>)
        requires
            old(self).wf(),
            0 <= i < record_count(old(self)@),
            s@.len() == 102,
        ensures
            final(self)@ == old(self)@.subrange(0, 102 * i) + s@ + old(self)@.subrange(
                102 * i + 102,
                old(self)@.len() as int,
            ),
    {
        let ghost b = self.bytes@;
        let _len = self.bytes.len();
        proof {
            lemma_slot_bounds(b, i as int);
        }
        let base = 102 * i;
        let mut k: usize = 0;
        while k < 102
            invariant
                k <= 102,
                base == 102 * i,
                base + 102 <= b.len(),
                _len == b.len(),
                s@.len() == 102,
                self.bytes@.len() == b.len(),
                forall|j: int| 0 <= j < base ==> self.bytes@[j] == b[j],
                forall|j: int| base + 102 <= j < b.len() ==> self.bytes@[j] == b[j],
                forall|j: int| base <= j < base + k ==> self.bytes@[j] == s@[j - base],
                forall|j: int| base + k <= j < base + 102 ==> self.bytes@[j] == b[j],
            decreases 102 - k,
        {
            self.bytes[base + k] = s[k];
            k = k + 1;
        }
        assert(self.bytes@ =~= b.subrange(0, 102 * i) + s@ + b.subrange(102 * i + 102, b.len() as int));
    }

    fn read_record(&self, i: usize) -> (r: Produto)
        requires
            self.wf(),
            0 <= i < record_count(self@),
        ensures
            r@ == self.items()[i as int],
    {
        let len = self.bytes.len();
        assert(102 * i + 102 <= len);
        let s = slice_subrange(self.bytes.as_slice(), 102 * i, 102 * i + 102);
        assert(s@ == slot(self@, i as int));
        match decode_product(s) {
            Some(p) => p,
            None => {
                assert(false);
                Produto::new(
                    String::new(),
                    0,
                    0,
                    0,
                    0,
                    crate::date::Data { dia: 1, mes: 1, ano: 1970 },
                    crate::model::Categoria::Geral,
                )
            },
        }
    }

    /// The index of the record with id `id`, by binary search over the
    /// sorted records.
    fn find(&self, id: u64) -> (r: Option<(Produto, usize)>)
        requires
            self.wf(),
        ensures
            match r {
                Some((p, i)) => 0 <= i < self.items().len() && self.items()[i as int] == p@
                    && p.id == id,
                None => !has_id(self.items(), id),
            },
    {
        let len = self.bytes.len();
        if len == 0 {
            return None;
        }
        let n = (len - 8) / 102;
        let ghost items = self.items();
        assert(items.len() == n);
        assert(ids_ascending(items));
        let mut lo: usize = 0;
        let mut hi: usize = n;
        while lo < hi
            invariant
                self.wf(),
                items == self.items(),
                len == self@.len(),
                len >= 8,
                n == items.len(),
                n == record_count(self@),
                ids_ascending(items),
                lo <= hi <= n,
                forall|i: int| 0 <= i < lo ==> #[trigger] items[i].id < id,
                forall|i: int| hi <= i < n ==> #[trigger] items[i].id > id,
            decreases hi - lo,
        {
            let mid = lo + (hi - lo) / 2;
            let p = self.read_record(mid);
            if p.id < id {
                assert forall|i: int| 0 <= i <= mid implies #[trigger] items[i].id < id by {
                    if i < mid {
                        assert(items[i].id < items[mid as int].id);
                    }
                }
                lo = mid + 1;
            } else if p.id > id {
                assert forall|i: int| mid <= i < n implies #[trigger] items[i].id > id by {
                    if i > mid {
                        assert(items[mid as int].id < items[i].id);
                    }
                }
                hi = mid;
            } else {
                return Some((p, mid));
            }
        }
        None
    }
}

/// Looks up the product with id `id`, giving it and the offset of its record,
/// which is the record width times its rank among the ids.
pub fn search_product_id(file: &ProductFile, id: u64) -> (r: Result<(Produto, u64), CustomErrors>)
    requires
        file.wf(),
    ensures
        r is Ok <==> has_id(file.items(), id),
        match r {
            Ok((p, off)) => exists|i: int|
                0 <= i < file.items().len() && #[trigger] file.items()[i] == p@ && p.id == id && off
                    == 102 * i,
            Err(e) => e == CustomErrors::ProductNotFound,
        },
{
    match file.find(id) {
        Some((p, i)) => {
            assert(file.items()[i as int].id == id);
            let len = file.as_bytes().len();
            proof {
                lemma_slot_bounds(file@, i as int);
            }
            Ok((p, (102 * i) as u64))
        },
        None => Err(CustomErrors::ProductNotFound),
    }
}

/// Where the records and the counter stand after appending a record.
#[verifier::rlimit(50)]
proof fn lemma_append_slots(b: Seq<u8>, head: Seq<u8>, nb: Seq<u8>, q: ProdutoView, id: u64)
    requires
        b.len() == 0 || (b.len() >= 8 && (b.len() - 8) % 102 == 0),
        product_fits(q),
        head == if b.len() == 0 { b } else { b.subrange(0, b.len() - 8) },
        nb == head + product_slot(q) + le64(id),
    ensures
        record_count(nb) == record_count(b) + 1,
        nb.len() == 8 + 102 * (record_count(b) + 1),
        (nb.len() - 8) % 102 == 0,
        forall|j: int| 0 <= j < record_count(b) ==> #[trigger] slot(nb, j) == slot(b, j),
        slot(nb, record_count(b)) == product_slot(q),
        u64_at(nb, nb.len() - 8) == id,
{
    let n = record_count(b);
    if b.len() > 0 {
        lemma_count(b, n);
    }
    lemma_product_round_trip(q);
    vstd::bytes::lemma_auto_spec_u64_to_from_le_bytes();
    assert(le64(id).len() == 8);
    assert(head.len() == 102 * n);
    lemma_count(nb, n + 1);
    assert forall|j: int| 0 <= j < n implies #[trigger] slot(nb, j) == slot(b, j) by {
        lemma_slot_bounds(b, j);
        assert(slot(nb, j) =~= slot(b, j));
    }
    assert(slot(nb, n) =~= product_slot(q));
    assert(nb.subrange(nb.len() - 8, nb.len() as int) =~= le64(id));
    lemma_read_u64(nb, nb.len() - 8, id);
}

/// The products after appending a record.
#[verifier::rlimit(100)]
proof fn lemma_append_items(b: Seq<u8>, head: Seq<u8>, nb: Seq<u8>, q: ProdutoView, id: u64)
    requires
        wf_product_file(b),
        product_fits(q),
        head == if b.len() == 0 { b } else { b.subrange(0, b.len() - 8) },
        nb == head + product_slot(q) + le64(id),
    ensures
        record_count(nb) == record_count(b) + 1,
        products_of(nb) == products_of(b).push(q),
        forall|j: int| 0 <= j < record_count(nb) ==> (#[trigger] product_record(slot(nb, j))) is Some,
        u64_at(nb, nb.len() - 8) == id,
        nb.len() >= 8,
        (nb.len() - 8) % 102 == 0,
{
    let n = record_count(b);
    lemma_append_slots(b, head, nb, q, id);
    lemma_product_round_trip(q);
    let ps = products_of(b);
    assert forall|j: int| 0 <= j < n + 1 implies #[trigger] products_of(nb)[j] == ps.push(q)[j] by {
        if j < n {
            assert(slot(nb, j) == slot(b, j));
        }
    }
    assert(products_of(nb) =~= ps.push(q));
    assert forall|j: int| 0 <= j < record_count(nb) implies (#[trigger] product_record(
        slot(nb, j),
    )) is Some by {
        if j < n {
            assert(slot(nb, j) == slot(b, j));
        }
    }
}

/// Appending a record and a new counter above every id keeps the layout.
#[verifier::rlimit(100)]
proof fn lemma_append_record(b: Seq<u8>, head: Seq<u8>, nb: Seq<u8>, q: ProdutoView, id: u64)
    requires
        wf_product_file(b),
        product_fits(q),
        q.id == id,
        id == next_id(b),
        b.len() > 0 ==> u64_at(b, b.len() - 8) < u64::MAX,
        head == if b.len() == 0 { b } else { b.subrange(0, b.len() - 8) },
        nb == head + product_slot(q) + le64(id),
    ensures
        wf_product_file(nb),
        products_of(nb) == products_of(b).push(q),
        counter_of(nb) == Some(id),
        nb.len() == if b.len() == 0 { 102 + 8 } else { b.len() + 102 },
{
    let n = record_count(b);
    if b.len() > 0 {
        lemma_count(b, n);
    }
    lemma_append_slots(b, head, nb, q, id);
    lemma_append_items(b, head, nb, q, id);
    let ps = products_of(b);
    let qs = products_of(nb);
    if b.len() > 0 {
        assert forall|j: int| 0 <= j < n implies ps[j].id < id by {
            assert(ps[j].id <= u64_at(b, b.len() - 8));
        }
    }
    assert forall|x: int, y: int| 0 <= x < y < qs.len() implies #[trigger] qs[x].id
        < #[trigger] qs[y].id by {
        if y < n {
            assert(ps[x].id < ps[y].id);
        } else {
            assert(qs[x] == ps[x]);
        }
    }
    assert forall|j: int| 0 <= j < record_count(nb) implies #[trigger] products_of(nb)[j].id
        <= u64_at(nb, nb.len() - 8) by {
        if j < n {
            assert(qs[j] == ps[j]);
        }
    }
}

/// Adds a product, giving it the id after the counter (1 in an empty file);
/// its record takes the counter's place and the counter follows it. Gives the
/// new id.
pub fn add_product(file: &mut ProductFile, product: Produto) -> (r: Result<u64, CustomErrors>)
    requires
        old(file).wf(),
    ensures
        final(file).wf(),
        r is Ok <==> product_fits(product@) && old(file).counter() != Some(u64::MAX),
        match r {
            Ok(id) => {
                &&& id == next_id(old(file)@)
                &&& product_added(old(file)@, product@, final(file)@)
                &&& final(file).items() == old(file).items().push(with_id(product@, id))
                &&& final(file).counter() == Some(id)
                &&& final(file)@.len() == if old(file)@.len() == 0 {
                    102 + 8
                } else {
                    old(file)@.len() + 102
                }
            },
            Err(e) => {
                &&& final(file)@ == old(file)@
                &&& e == if !product_fits(product@) {
                    fit_error(product@)
                } else {
                    CustomErrors::CounterExhausted
                }
            },
        },
{
    let len = file.bytes.len();
    let next: Option<u64> = if len == 0 {
        Some(1)
    } else {
        let c = get_u64(file.bytes.as_slice(), len - 8);
        if c < u64::MAX {
            Some(c + 1)
        } else {
            None
        }
    };
    let mut p = product;
    p.id = match next {
        Some(i) => i,
        None => 0,
    };
    let mut rec = match encode_product(&p) {
        Ok(rec) => rec,
        Err(e) => return Err(e),
    };
    let id = match next {
        Some(i) => i,
        None => return Err(CustomErrors::CounterExhausted),
    };
    let ghost b = file.bytes@;
    let ghost n = record_count(b);
    proof {
        if len > 0 {
            lemma_count(b, n);
        }
    }
    if len > 0 {
        file.bytes.truncate(len - 8);
    }
    let ghost head = file.bytes@;
    file.bytes.append(&mut rec);
    push_u64(&mut file.bytes, id);
    proof {
        let q = with_id(product@, id);
        assert(p@ == q);
        lemma_append_record(b, head, file.bytes@, q, id);
    }
    Ok(id)
}

/// Replaces the fields of product `id`, keeping its id and its place; the
/// id given in `product` is not used.
pub fn update_product(file: &mut ProductFile, id: u64, product: Produto) -> (r: Result<(), CustomErrors>)
    requires
        old(file).wf(),
    ensures
        final(file).wf(),
        final(file)@.len() == old(file)@.len(),
        final(file).counter() == old(file).counter(),
        r is Ok <==> has_id(old(file).items(), id) && product_fits(product@),
        match r {
            Ok(_) => exists|i: int|
                0 <= i < old(file).items().len() && #[trigger] old(file).items()[i].id == id
                    && final(file).items() == old(file).items().update(i, with_id(product@, id)),
            Err(e) => {
                &&& final(file)@ == old(file)@
                &&& e == if !has_id(old(file).items(), id) {
                    CustomErrors::ProductNotFound
                } else {
                    fit_error(product@)
                }
            },
        },
{
    let (_, i) = match file.find(id) {
        Some(x) => x,
        None => return Err(CustomErrors::ProductNotFound),
    };
    assert(old(file).items()[i as int].id == id);
    let mut p = product;
    p.id = id;
    let rec = match encode_product(&p) {
        Ok(rec) => rec,
        Err(e) => return Err(e),
    };
    let ghost b = file.bytes@;
    proof {
        lemma_product_round_trip(p@);
    }
    file.write_record(i, &rec);
    proof {
        lemma_replace_slot(b, file.bytes@, i as int, rec@);
        let ps = products_of(b);
        let qs = products_of(file.bytes@);
        assert forall|x: int, y: int| 0 <= x < y < qs.len() implies #[trigger] qs[x].id
            < #[trigger] qs[y].id by {
            assert(ps[x].id < ps[y].id);
        }
        assert forall|j: int| 0 <= j < record_count(file.bytes@) implies #[trigger] products_of(
            file.bytes@,
        )[j].id <= u64_at(file.bytes@, file.bytes@.len() - 8) by {
            assert(ps[j].id <= u64_at(b, b.len() - 8));
        }
    }
    Ok(())
}

/// Takes `amount` units of product `id` out of its stock, rewriting its
/// record in place.
#[verifier::rlimit(40)]
pub fn decrement_stock(file: &mut ProductFile, id: u64, amount: u64) -> (r: Result<(), CustomErrors>)
    requires
        old(file).wf(),
    ensures
        final(file).wf(),
        final(file)@.len() == old(file)@.len(),
        final(file).counter() == old(file).counter(),
        r is Ok <==> has_id(old(file).items(), id) && !stock_short(old(file).items(), id, amount),
        match r {
            Ok(_) => final(file).items() == with_stock_taken(old(file).items(), id, amount),
            Err(e) => {
                &&& final(file)@ == old(file)@
                &&& e == if !has_id(old(file).items(), id) {
                    CustomErrors::ProductNotFound
                } else {
                    CustomErrors::LowStock
                }
            },
        },
{
    let ghost b = file.bytes@;
    let ghost ps = products_of(b);
    let (mut p, i) = match file.find(id) {
        Some(x) => x,
        None => {
            assert(!stock_short(ps, id, amount));
            return Err(CustomErrors::ProductNotFound);
        },
    };
    assert(ids_ascending(ps));
    assert(ps[i as int].id == id);
    if amount > p.quantidade_estoque {
        return Err(CustomErrors::LowStock);
    }
    assert forall|j: int| 0 <= j < ps.len() && #[trigger] ps[j].id == id implies j == i by {
        if j < i {
            assert(ps[j].id < ps[i as int].id);
        } else if j > i {
            assert(ps[i as int].id < ps[j].id);
        }
    }
    p.quantidade_estoque = p.quantidade_estoque - amount;
    proof {
        lemma_slot_bounds(b, i as int);
        lemma_record_fits(slot(b, i as int));
    }
    let rec = match encode_product(&p) {
        Ok(rec) => rec,
        Err(e) => {
            assert(false);
            return Err(e);
        },
    };
    proof {
        lemma_product_round_trip(p@);
    }
    file.write_record(i, &rec);
    proof {
        lemma_replace_slot(b, file.bytes@, i as int, rec@);
        let qs = products_of(file.bytes@);
        assert(qs =~= with_stock_taken(ps, id, amount));
        assert forall|x: int, y: int| 0 <= x < y < qs.len() implies #[trigger] qs[x].id
            < #[trigger] qs[y].id by {
            assert(ps[x].id < ps[y].id);
        }
        assert forall|j: int| 0 <= j < record_count(file.bytes@) implies #[trigger] products_of(
            file.bytes@,
        )[j].id <= u64_at(file.bytes@, file.bytes@.len() - 8) by {
            assert(ps[j].id <= u64_at(b, b.len() - 8));
        }
        assert(!stock_short(ps, id, amount));
    }
    Ok(())
}

/// Removes product `id`: every byte after its record, the counter included,
/// moves one record width towards the start, and the file shrinks by that
/// width.
pub fn remove_product(file: &mut ProductFile, id: u64) -> (r: Result<(), CustomErrors>)
    requires
        old(file).wf(),
    ensures
        final(file).wf(),
        final(file).counter() == old(file).counter(),
        r is Ok <==> has_id(old(file).items(), id),
        match r {
            Ok(_) => {
                &&& product_removed(old(file)@, id, final(file)@)
                &&& final(file)@.len() == old(file)@.len() - 102
                &&& exists|i: int|
                    0 <= i < old(file).items().len() && #[trigger] old(file).items()[i].id == id
                        && final(file).items() == old(file).items().remove(i)
            },
            Err(e) => final(file)@ == old(file)@ && e == CustomErrors::ProductNotFound,
        },
{
    let (_, i) = match file.find(id) {
        Some(x) => x,
        None => return Err(CustomErrors::ProductNotFound),
    };
    assert(old(file).items()[i as int].id == id);
    let ghost b = file.bytes@;
    let len = file.bytes.len();
    proof {
        lemma_slot_bounds(b, i as int);
    }
    let start = 102 * i;
    let end = len - 102;
    let mut k: usize = start;
    while k < end
        invariant
            start <= k <= end,
            start == 102 * i,
            end == len - 102,
            len == b.len(),
            file.bytes@.len() == len,
            forall|j: int| 0 <= j < start ==> file.bytes@[j] == b[j],
            forall|j: int| start <= j < k ==> file.bytes@[j] == b[j + 102],
            forall|j: int| k <= j < len ==> file.bytes@[j] == b[j],
        decreases end - k,
    {
        let x = file.bytes[k + 102];
        file.bytes[k] = x;
        k = k + 1;
    }
    file.bytes.truncate(end);
    proof {
        let nb = file.bytes@;
        assert(nb =~= b.subrange(0, 102 * i) + b.subrange(102 * i + 102, b.len() as int));
        lemma_remove_slot(b, nb, i as int);
    }
    Ok(())
}

/// All products, in id order.
pub fn list_products(file: &ProductFile) -> (r: Vec<Produto>)
    requires
        file.wf(),
    ensures
        views(r@) == file.items(),
{
    let len = file.bytes.len();
    let n: usize = if len == 0 {
        0
    } else {
        (len - 8) / 102
    };
    let mut out: Vec<Produto> = Vec::new();
    let mut k: usize = 0;
    while k < n
        invariant
            file.wf(),
            k <= n,
            n == file.items().len(),
            n == record_count(file@),
            views(out@) == file.items().take(k as int),
        decreases n - k,
    {
        let p = file.read_record(k);
        let ghost before = out@;
        out.push(p);
        assert(views(out@) =~= views(before).push(p@));
        assert(file.items().take(k + 1) =~= file.items().take(k as int).push(file.items()[k as int]));
        k = k + 1;
    }
    assert(file.items().take(n as int) =~= file.items());
    out
}

/// The products whose stock is at or below their restock threshold, in id order.
pub fn products_needing_restock(file: &ProductFile) -> (r: Vec<Produto>)
    requires
        file.wf(),
    ensures
        views(r@) == file.items().filter(restock_filter()),
{
    let ghost pred = restock_filter();
    let len = file.bytes.len();
    let n: usize = if len == 0 {
        0
    } else {
        (len - 8) / 102
    };
    let mut out: Vec<Produto> = Vec::new();
    let mut k: usize = 0;
    while k < n
        invariant
            file.wf(),
            k <= n,
            n == file.items().len(),
            n == record_count(file@),
            pred == restock_filter(),
            views(out@) == file.items().take(k as int).filter(pred),
        decreases n - k,
    {
        let p = file.read_record(k);
        let ghost items = file.items();
        let ghost x = items[k as int];
        proof {
            assert(items.take(k + 1) =~= items.take(k as int).push(x));
            items.take(k as int).lemma_filter_push(x, pred);
            assert(pred(x) == (p.quantidade_estoque <= p.quantidade_restoque));
        }
        let ghost before = out@;
        if p.quantidade_estoque <= p.quantidade_restoque {
            out.push(p);
            assert(views(out@) =~= views(before).push(p@));
            assert(items.take(k + 1).filter(pred) == items.take(k as int).filter(pred).push(x));
        } else {
            assert(items.take(k + 1).filter(pred) == items.take(k as int).filter(pred));
        }
        k = k + 1;
    }
    assert(file.items().take(n as int) =~= file.items());
    out
}

} // verus!
