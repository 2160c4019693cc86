//! Properties that relate several operations of the store.
use vstd::prelude::*;
use crate::codec::sale_bytes;
use crate::ledger_layout::{
    lemma_records_concat, lemma_records_single, next_code, offset_of, sales_of,
};
use crate::model::{ProdutoView, VendaView};
use crate::product_store::{
    has_id, ids_ascending, next_id, product_added, product_removed, products_of,
    with_id, wf_product_file,
};
use crate::sale_ledger::sale_appended;

verus! {

/// Adding products one after another to an empty product file hands out the
/// ids 1, 2, 3, ... in the order of the additions, and the file then holds,
/// under each id, the fields that product was added with.
pub proof fn law_ids_follow_insertion_order(files: Seq<Seq<u8>>, ps: Seq<ProdutoView>)
    requires
        files.len() == ps.len() + 1,
        files[0].len() == 0,
        forall|k: int| 0 <= k < ps.len() ==> #[trigger] product_added(files[k], ps[k], files[k + 1]),
    ensures
        products_of(files[ps.len() as int]).len() == ps.len(),
        forall|k: int|
            0 <= k < ps.len() ==> #[trigger] products_of(files[ps.len() as int])[k] == with_id(
                ps[k],
                (k + 1) as u64,
            ),
        forall|k: int| 0 <= k < ps.len() ==> has_id(products_of(files[ps.len() as int]), #[trigger] ((k + 1) as u64)),
{
    lemma_inserted_prefix(files, ps, ps.len() as int);
    let last = products_of(files[ps.len() as int]);
    assert forall|k: int| 0 <= k < ps.len() implies has_id(last, #[trigger] ((k + 1) as u64)) by {
        assert(last[k].id == (k + 1) as u64);
    }
}

proof fn lemma_inserted_prefix(files: Seq<Seq<u8>>, ps: Seq<ProdutoView>, m: int)
    requires
        0 <= m <= ps.len(),
        files.len() == ps.len() + 1,
        files[0].len() == 0,
        forall|k: int| 0 <= k < ps.len() ==> #[trigger] product_added(files[k], ps[k], files[k + 1]),
    ensures
        products_of(files[m]) == Seq::new(m as nat, |k: int| with_id(ps[k], (k + 1) as u64)),
        m < ps.len() ==> next_id(files[m]) == m + 1,
    decreases m,
{
    if m == 0 {
        assert(products_of(files[0]) =~= Seq::<ProdutoView>::empty());
    } else {
        lemma_inserted_prefix(files, ps, m - 1);
        assert(product_added(files[m - 1], ps[m - 1], files[m]));
        if m < ps.len() {
            assert(product_added(files[m], ps[m], files[m + 1]));
        }
        assert(products_of(files[m]) =~= Seq::new(m as nat, |k: int| with_id(ps[k], (k + 1) as u64)));
    }
}

proof fn lemma_filter_keep_all(s: Seq<ProdutoView>, pred: spec_fn(ProdutoView) -> bool)
    requires
        forall|i: int| 0 <= i < s.len() ==> pred(#[trigger] s[i]),
    ensures
        s.filter(pred) == s,
    decreases s.len(),
{
    if s.len() > 0 {
        let init = s.drop_last();
        lemma_filter_keep_all(init, pred);
        assert(init.push(s.last()) =~= s);
        init.lemma_filter_push(s.last(), pred);
    } else {
        assert(s.filter(pred) =~= s);
    }
}

/// Removing product `id` and then listing the file gives exactly the products
/// that were there before except `id`, still in ascending id order, and the
/// file is one record width shorter.
pub proof fn law_remove_then_list(before: Seq<u8>, id: u64, after: Seq<u8>)
    requires
        wf_product_file(before),
        product_removed(before, id, after),
    ensures
        products_of(after) == products_of(before).filter(|p: ProdutoView| p.id != id),
        ids_ascending(products_of(after)),
        after.len() == before.len() - 102,
{
    let ps = products_of(before);
    let i = choose|i: int|
        0 <= i < ps.len() && #[trigger] ps[i].id == id && products_of(after) == ps.remove(i);
    let pred = |p: ProdutoView| p.id != id;
    assert(ids_ascending(ps));
    let a = ps.take(i);
    let c = ps.skip(i + 1);
    assert(ps =~= a + seq![ps[i]] + c);
    assert(ps.remove(i) =~= a + c);
    assert forall|j: int| 0 <= j < a.len() implies pred(#[trigger] a[j]) by {
        assert(ps[j].id < ps[i].id);
    }
    assert forall|j: int| 0 <= j < c.len() implies pred(#[trigger] c[j]) by {
        assert(ps[i].id < ps[i + 1 + j].id);
    }
    lemma_filter_keep_all(a, pred);
    lemma_filter_keep_all(c, pred);
    Seq::filter_distributes_over_add(a + seq![ps[i]], c, pred);
    Seq::filter_distributes_over_add(a, seq![ps[i]], pred);
    Seq::<ProdutoView>::empty().lemma_filter_push(ps[i], pred);
    assert(seq![ps[i]] =~= Seq::<ProdutoView>::empty().push(ps[i]));
    assert(Seq::<ProdutoView>::empty().filter(pred) =~= Seq::<ProdutoView>::empty());
    assert(a + Seq::<ProdutoView>::empty() =~= a);
}

/// The bytes taken by the first `k` records of a ledger: each record is its
/// 8-byte length and its payload.
pub open spec fn cumulative_len(vs: Seq<VendaView>, k: int) -> int
    decreases k,
{
    if k <= 0 {
        0
    } else {
        cumulative_len(vs, k - 1) + 8 + sale_bytes(vs[k - 1]).len()
    }
}

proof fn lemma_offset_is_cumulative(vs: Seq<VendaView>, k: int)
    requires
        0 <= k <= vs.len(),
    ensures
        offset_of(vs, k) == cumulative_len(vs, k),
    decreases k,
{
    if k == 0 {
        assert(vs.take(0) =~= Seq::<VendaView>::empty());
    } else {
        lemma_offset_is_cumulative(vs, k - 1);
        assert(vs.take(k) =~= vs.take(k - 1) + seq![vs[k - 1]]);
        lemma_records_concat(vs.take(k - 1), seq![vs[k - 1]]);
        lemma_records_single(vs[k - 1]);
        crate::codec::lemma_le_lengths();
    }
}

/// Registering sales one after another in an empty ledger gives them the
/// codes 1, 2, 3, ... in order; the record of the sale with code `k + 1`
/// starts where the first `k` records end, at the sum of their lengths.
pub proof fn law_codes_and_offsets(files: Seq<Seq<u8>>, vs: Seq<VendaView>)
    requires
        files.len() == vs.len() + 1,
        files[0].len() == 0,
        forall|k: int| 0 <= k < vs.len() ==> #[trigger] sale_appended(files[k], vs[k], files[k + 1]),
    ensures
        sales_of(files[vs.len() as int]) == vs,
        forall|k: int| 0 <= k < vs.len() ==> (#[trigger] vs[k]).codigo == k + 1,
        forall|k: int| 0 <= k <= vs.len() ==> #[trigger] offset_of(vs, k) == cumulative_len(vs, k),
{
    lemma_appended_prefix(files, vs, vs.len() as int);
    assert(vs.take(vs.len() as int) =~= vs);
    assert forall|k: int| 0 <= k <= vs.len() implies #[trigger] offset_of(vs, k) == cumulative_len(vs, k) by {
        lemma_offset_is_cumulative(vs, k);
    }
}

proof fn lemma_appended_prefix(files: Seq<Seq<u8>>, vs: Seq<VendaView>, m: int)
    requires
        0 <= m <= vs.len(),
        files.len() == vs.len() + 1,
        files[0].len() == 0,
        forall|k: int| 0 <= k < vs.len() ==> #[trigger] sale_appended(files[k], vs[k], files[k + 1]),
    ensures
        sales_of(files[m]) == vs.take(m),
        m < vs.len() ==> next_code(files[m]) == m + 1,
        forall|k: int| 0 <= k < m ==> (#[trigger] vs[k]).codigo == k + 1,
    decreases m,
{
    if m == 0 {
        reveal_with_fuel(crate::ledger_layout::parse_records, 1);
        assert(sales_of(files[0]) =~= vs.take(0));
    } else {
        lemma_appended_prefix(files, vs, m - 1);
        assert(sale_appended(files[m - 1], vs[m - 1], files[m]));
        if m < vs.len() {
            assert(sale_appended(files[m], vs[m], files[m + 1]));
        }
        assert(vs.take(m) =~= vs.take(m - 1).push(vs[m - 1]));
    }
}

} // verus!
