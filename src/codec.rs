//! The byte layout of the records: little-endian integers, texts as a
//! 64-bit byte count followed by their UTF-8 bytes, enumerations as a 32-bit
//! index, dates as the ten-character text `dd/mm/YYYY`, fields in
//! declaration order.
use vstd::prelude::*;
use vstd::bytes::*;
use vstd::slice::*;
use vstd::string::*;
use vstd::utf8::*;
use crate::date::{
    date_text, deserialize, lemma_date_text_round_trip, lemma_text_date_wf, serialize, text_date, Data,
};
use crate::errors::CustomErrors;
use crate::model::{Categoria, MetodoPagamento, Produto, ProdutoView, Venda, VendaView};

verus! {

broadcast use vstd::utf8::encode_utf8_valid_utf8, vstd::utf8::encode_utf8_decode_utf8, vstd::slice::group_slice_axioms;

/// Width of one product record in the product file.
pub const PRODUCT_LENGTH: usize = 102;

/// Largest number of UTF-8 bytes in a product name that still fits a record.
pub const MAX_NAME_BYTES: usize = 40;

pub open spec fn le64(x: u64) -> Seq<u8> {
    spec_u64_to_le_bytes(x)
}

pub open spec fn le32(x: u32) -> Seq<u8> {
    spec_u32_to_le_bytes(x)
}

pub open spec fn u64_at(s: Seq<u8>, pos: int) -> u64 {
    spec_u64_from_le_bytes(s.subrange(pos, pos + 8))
}

pub open spec fn u32_at(s: Seq<u8>, pos: int) -> u32 {
    spec_u32_from_le_bytes(s.subrange(pos, pos + 4))
}

pub open spec fn text_bytes(t: Seq<char>) -> Seq<u8> {
    le64(encode_utf8(t).len() as u64) + encode_utf8(t)
}

pub open spec fn date_bytes(d: Data) -> Seq<u8> {
    le64(10) + date_text(d)
}

pub open spec fn category_index(c: Categoria) -> u32 {
    match c {
        Categoria::Eletronico => 0,
        Categoria::Roupa => 1,
        Categoria::Alimento => 2,
        Categoria::Geral => 3,
    }
}

pub open spec fn category_of(i: u32) -> Option<Categoria> {
    if i == 0 {
        Some(Categoria::Eletronico)
    } else if i == 1 {
        Some(Categoria::Roupa)
    } else if i == 2 {
        Some(Categoria::Alimento)
    } else if i == 3 {
        Some(Categoria::Geral)
    } else {
        None
    }
}

pub open spec fn payment_index(m: MetodoPagamento) -> u32 {
    match m {
        MetodoPagamento::Credito => 0,
        MetodoPagamento::Debito => 1,
        MetodoPagamento::Pix => 2,
        MetodoPagamento::Dinheiro => 3,
    }
}

pub open spec fn payment_of(i: u32) -> Option<MetodoPagamento> {
    if i == 0 {
        Some(MetodoPagamento::Credito)
    } else if i == 1 {
        Some(MetodoPagamento::Debito)
    } else if i == 2 {
        Some(MetodoPagamento::Pix)
    } else if i == 3 {
        Some(MetodoPagamento::Dinheiro)
    } else {
        None
    }
}

/// The encoding of a product, before padding.
pub open spec fn product_bytes(p: ProdutoView) -> Seq<u8> {
    text_bytes(p.nome) + le64(p.id) + le64(p.quantidade_estoque) + le64(p.valor) + le64(
        p.quantidade_restoque,
    ) + le32(category_index(p.categoria)) + date_bytes(p.data_restoque)
}

/// A product can be written as a record: its name fits and its date is valid.
pub open spec fn product_fits(p: ProdutoView) -> bool {
    encode_utf8(p.nome).len() <= MAX_NAME_BYTES && p.data_restoque.wf()
}

/// The error for a product that does not fit a record.
pub open spec fn fit_error(p: ProdutoView) -> CustomErrors {
    if encode_utf8(p.nome).len() > MAX_NAME_BYTES {
        CustomErrors::NameTooLong
    } else {
        CustomErrors::InvalidDate
    }
}

/// The record of a product: its encoding, then zeros up to the record width.
pub open spec fn product_slot(p: ProdutoView) -> Seq<u8> {
    product_bytes(p) + Seq::new((PRODUCT_LENGTH - product_bytes(p).len()) as nat, |i: int| 0u8)
}

pub open spec fn ids_bytes(ids: Seq<u64>) -> Seq<u8>
    decreases ids.len(),
{
    if ids.len() == 0 {
        Seq::empty()
    } else {
        ids_bytes(ids.drop_last()) + le64(ids.last())
    }
}

/// The encoding of a sale.
pub open spec fn sale_bytes(v: VendaView) -> Seq<u8> {
    text_bytes(v.vendedor) + le64(v.produtos.len() as u64) + ids_bytes(v.produtos) + le64(v.codigo)
        + le64(v.valor) + le32(payment_index(v.metodo_pagamento)) + date_bytes(v.data)
}

/// A sale can be written: its date is valid and its encoding's length fits
/// a 64-bit count.
pub open spec fn sale_fits(v: VendaView) -> bool {
    &&& v.data.wf()
    &&& 54 + encode_utf8(v.vendedor).len() + 8 * v.produtos.len() <= u64::MAX
}

pub open spec fn read_text(s: Seq<u8>, pos: int) -> Option<(Seq<char>, int)> {
    if 0 <= pos && pos + 8 <= s.len() {
        let end = pos + 8 + u64_at(s, pos);
        if end <= s.len() && valid_utf8(s.subrange(pos + 8, end)) {
            Some((decode_utf8(s.subrange(pos + 8, end)), end))
        } else {
            None
        }
    } else {
        None
    }
}

pub open spec fn read_date(s: Seq<u8>, pos: int) -> Option<(Data, int)> {
    if 0 <= pos && pos + 18 <= s.len() && u64_at(s, pos) == 10 {
        match text_date(s.subrange(pos + 8, pos + 18)) {
            Some(d) => Some((d, pos + 18)),
            None => None,
        }
    } else {
        None
    }
}

/// Decodes a product at `pos`, giving it and the position after it.
pub open spec fn read_product(s: Seq<u8>, pos: int) -> Option<(ProdutoView, int)> {
    match read_text(s, pos) {
        Some((nome, p)) => if p + 36 <= s.len() {
            match (category_of(u32_at(s, p + 32)), read_date(s, p + 36)) {
                (Some(c), Some((d, e))) => Some(
                    (
                        ProdutoView {
                            nome,
                            id: u64_at(s, p),
                            quantidade_estoque: u64_at(s, p + 8),
                            valor: u64_at(s, p + 16),
                            quantidade_restoque: u64_at(s, p + 24),
                            categoria: c,
                            data_restoque: d,
                        },
                        e,
                    ),
                ),
                _ => None,
            }
        } else {
            None
        },
        None => None,
    }
}

/// The product that a record holds; the padding after it is not read.
pub open spec fn product_record(s: Seq<u8>) -> Option<ProdutoView> {
    match read_product(s, 0) {
        Some((p, _)) => Some(p),
        None => None,
    }
}

pub open spec fn read_ids(s: Seq<u8>, pos: int, n: int) -> Seq<u64> {
    Seq::new(n as nat, |k: int| u64_at(s, pos + 8 * k))
}

/// Decodes a sale at `pos`, giving it and the position after it.
pub open spec fn read_sale(s: Seq<u8>, pos: int) -> Option<(VendaView, int)> {
    match read_text(s, pos) {
        Some((vendedor, p)) => if p + 8 <= s.len() {
            let q = p + 8 + 8 * u64_at(s, p);
            if q + 20 <= s.len() {
                match (payment_of(u32_at(s, q + 16)), read_date(s, q + 20)) {
                    (Some(m), Some((d, e))) => Some(
                        (
                            VendaView {
                                vendedor,
                                produtos: read_ids(s, p + 8, u64_at(s, p) as int),
                                codigo: u64_at(s, q),
                                valor: u64_at(s, q + 8),
                                metodo_pagamento: m,
                                data: d,
                            },
                            e,
                        ),
                    ),
                    _ => None,
                }
            } else {
                None
            }
        } else {
            None
        },
        None => None,
    }
}

/// The sale that a payload holds, where the payload is exactly its encoding.
pub open spec fn sale_record(s: Seq<u8>) -> Option<VendaView> {
    match read_sale(s, 0) {
        Some((v, e)) => if e == s.len() {
            Some(v)
        } else {
            None
        },
        None => None,
    }
}

// ---------------------------------------------------------------------------
// Lemmas
/// Where `s` holds `a + b` at `pos`, it holds `a` there and `b` right after.
pub proof fn lemma_split(s: Seq<u8>, pos: int, a: Seq<u8>, b: Seq<u8>)
    requires
        0 <= pos,
        pos + a.len() + b.len() <= s.len(),
        s.subrange(pos, pos + a.len() + b.len()) == a + b,
    ensures
        s.subrange(pos, pos + a.len()) == a,
        s.subrange(pos + a.len(), pos + a.len() + b.len()) == b,
{
    let w = s.subrange(pos, pos + a.len() + b.len());
    assert forall|i: int| 0 <= i < a.len() implies s.subrange(pos, pos + a.len())[i] == a[i] by {
        assert(w[i] == (a + b)[i]);
    }
    assert forall|i: int| 0 <= i < b.len() implies s.subrange(
        pos + a.len(),
        pos + a.len() + b.len(),
    )[i] == b[i] by {
        assert(w[a.len() + i] == (a + b)[a.len() + i]);
    }
    assert(s.subrange(pos, pos + a.len()) =~= a);
    assert(s.subrange(pos + a.len(), pos + a.len() + b.len()) =~= b);
}

/// Little-endian encodings take eight and four bytes.
pub proof fn lemma_le_lengths()
    ensures
        forall|x: u64| #[trigger] le64(x).len() == 8,
        forall|x: u32| #[trigger] le32(x).len() == 4,
{
    lemma_auto_spec_u64_to_from_le_bytes();
    lemma_auto_spec_u32_to_from_le_bytes();
}

/// Reading back the bytes of `x` gives `x`.
pub proof fn lemma_read_u64(s: Seq<u8>, pos: int, x: u64)
    requires
        0 <= pos,
        pos + 8 <= s.len(),
        s.subrange(pos, pos + 8) == le64(x),
    ensures
        u64_at(s, pos) == x,
{
    lemma_auto_spec_u64_to_from_le_bytes();
}

proof fn lemma_read_u32(s: Seq<u8>, pos: int, x: u32)
    requires
        0 <= pos,
        pos + 4 <= s.len(),
        s.subrange(pos, pos + 4) == le32(x),
    ensures
        u32_at(s, pos) == x,
{
    lemma_auto_spec_u32_to_from_le_bytes();
    assert(spec_u32_to_le_bytes(x).len() == 4);
    assert(spec_u32_from_le_bytes(spec_u32_to_le_bytes(x)) == x);
}

proof fn lemma_read_text(s: Seq<u8>, pos: int, t: Seq<char>)
    requires
        0 <= pos,
        encode_utf8(t).len() <= u64::MAX,
        pos + text_bytes(t).len() <= s.len(),
        s.subrange(pos, pos + text_bytes(t).len()) == text_bytes(t),
    ensures
        text_bytes(t).len() == 8 + encode_utf8(t).len(),
        read_text(s, pos) == Some((t, pos + text_bytes(t).len())),
{
    lemma_le_lengths();
    let n = encode_utf8(t).len() as u64;
    lemma_split(s, pos, le64(n), encode_utf8(t));
    lemma_read_u64(s, pos, n);
}

proof fn lemma_read_date(s: Seq<u8>, pos: int, d: Data)
    requires
        0 <= pos,
        d.wf(),
        pos + 18 <= s.len(),
        s.subrange(pos, pos + 18) == date_bytes(d),
    ensures
        date_bytes(d).len() == 18,
        read_date(s, pos) == Some((d, pos + 18)),
{
    lemma_le_lengths();
    lemma_date_text_round_trip(d);
    lemma_split(s, pos, le64(10), date_text(d));
    lemma_read_u64(s, pos, 10);
}

/// The length of a product's encoding: 62 bytes plus its name.
pub proof fn lemma_product_bytes_len(p: ProdutoView)
    ensures
        product_bytes(p).len() == 62 + encode_utf8(p.nome).len(),
{
    lemma_le_lengths();
    lemma_date_text_round_trip_len(p.data_restoque);
}

proof fn lemma_date_text_round_trip_len(d: Data)
    ensures
        date_text(d).len() == 10,
        date_bytes(d).len() == 18,
{
    lemma_le_lengths();
}

proof fn lemma_read_product(s: Seq<u8>, pos: int, p: ProdutoView)
    requires
        0 <= pos,
        product_fits(p),
        pos + product_bytes(p).len() <= s.len(),
        s.subrange(pos, pos + product_bytes(p).len()) == product_bytes(p),
    ensures
        read_product(s, pos) == Some((p, pos + product_bytes(p).len())),
{
    lemma_le_lengths();
    lemma_date_text_round_trip_len(p.data_restoque);
    let t = text_bytes(p.nome);
    let a1 = t + le64(p.id);
    let a2 = a1 + le64(p.quantidade_estoque);
    let a3 = a2 + le64(p.valor);
    let a4 = a3 + le64(p.quantidade_restoque);
    let a5 = a4 + le32(category_index(p.categoria));
    lemma_split(s, pos, a5, date_bytes(p.data_restoque));
    lemma_split(s, pos, a4, le32(category_index(p.categoria)));
    lemma_split(s, pos, a3, le64(p.quantidade_restoque));
    lemma_split(s, pos, a2, le64(p.valor));
    lemma_split(s, pos, a1, le64(p.quantidade_estoque));
    lemma_split(s, pos, t, le64(p.id));
    lemma_read_text(s, pos, p.nome);
    let q = pos + t.len();
    lemma_read_u64(s, q, p.id);
    lemma_read_u64(s, q + 8, p.quantidade_estoque);
    lemma_read_u64(s, q + 16, p.valor);
    lemma_read_u64(s, q + 24, p.quantidade_restoque);
    lemma_read_u32(s, q + 32, category_index(p.categoria));
    lemma_read_date(s, q + 36, p.data_restoque);
}

/// Decoding the record of a product gives the product back, and the record
/// is exactly one record width long.
pub proof fn lemma_product_round_trip(p: ProdutoView)
    requires
        product_fits(p),
    ensures
        product_slot(p).len() == PRODUCT_LENGTH,
        product_record(product_slot(p)) == Some(p),
{
    lemma_product_bytes_len(p);
    let s = product_slot(p);
    let n = product_bytes(p).len();
    assert(s.subrange(0, n as int) =~= product_bytes(p));
    lemma_read_product(s, 0, p);
}

proof fn lemma_read_ids(s: Seq<u8>, pos: int, ids: Seq<u64>)
    requires
        0 <= pos,
        pos + ids_bytes(ids).len() <= s.len(),
        s.subrange(pos, pos + ids_bytes(ids).len()) == ids_bytes(ids),
    ensures
        ids_bytes(ids).len() == 8 * ids.len(),
        read_ids(s, pos, ids.len() as int) == ids,
    decreases ids.len(),
{
    lemma_le_lengths();
    if ids.len() > 0 {
        let init = ids.drop_last();
        lemma_ids_bytes_len(init);
        lemma_split(s, pos, ids_bytes(init), le64(ids.last()));
        lemma_read_ids(s, pos, init);
        lemma_read_u64(s, pos + 8 * init.len(), ids.last());
        assert forall|k: int| 0 <= k < ids.len() implies read_ids(s, pos, ids.len() as int)[k]
            == ids[k] by {
            if k < init.len() {
                assert(read_ids(s, pos, init.len() as int)[k] == init[k]);
            }
        }
        assert(read_ids(s, pos, ids.len() as int) =~= ids);
    } else {
        assert(read_ids(s, pos, 0) =~= ids);
    }
}

proof fn lemma_ids_bytes_len(ids: Seq<u64>)
    ensures
        ids_bytes(ids).len() == 8 * ids.len(),
    decreases ids.len(),
{
    lemma_le_lengths();
    if ids.len() > 0 {
        lemma_ids_bytes_len(ids.drop_last());
    }
}

/// The length of a sale's encoding: 54 bytes plus its seller's name and
/// eight bytes per product id.
pub proof fn lemma_sale_bytes_len(v: VendaView)
    ensures
        sale_bytes(v).len() == 54 + encode_utf8(v.vendedor).len() + 8 * v.produtos.len(),
{
    lemma_le_lengths();
    lemma_ids_bytes_len(v.produtos);
    lemma_date_text_round_trip_len(v.data);
}

proof fn lemma_read_sale(s: Seq<u8>, pos: int, v: VendaView)
    requires
        0 <= pos,
        sale_fits(v),
        pos + sale_bytes(v).len() <= s.len(),
        s.subrange(pos, pos + sale_bytes(v).len()) == sale_bytes(v),
    ensures
        read_sale(s, pos) == Some((v, pos + sale_bytes(v).len())),
{
    lemma_le_lengths();
    lemma_date_text_round_trip_len(v.data);
    lemma_ids_bytes_len(v.produtos);
    let t = text_bytes(v.vendedor);
    let n = v.produtos.len() as u64;
    let a1 = t + le64(n);
    let a2 = a1 + ids_bytes(v.produtos);
    let a3 = a2 + le64(v.codigo);
    let a4 = a3 + le64(v.valor);
    let a5 = a4 + le32(payment_index(v.metodo_pagamento));
    lemma_split(s, pos, a5, date_bytes(v.data));
    lemma_split(s, pos, a4, le32(payment_index(v.metodo_pagamento)));
    lemma_split(s, pos, a3, le64(v.valor));
    lemma_split(s, pos, a2, le64(v.codigo));
    lemma_split(s, pos, a1, ids_bytes(v.produtos));
    lemma_split(s, pos, t, le64(n));
    lemma_read_text(s, pos, v.vendedor);
    let p = pos + t.len();
    lemma_read_u64(s, p, n);
    lemma_read_ids(s, p + 8, v.produtos);
    let q = p + 8 + 8 * n;
    lemma_read_u64(s, q, v.codigo);
    lemma_read_u64(s, q + 8, v.valor);
    lemma_read_u32(s, q + 16, payment_index(v.metodo_pagamento));
    lemma_read_date(s, q + 20, v.data);
}

/// Decoding the encoding of a sale gives the sale back.
pub proof fn lemma_sale_round_trip(v: VendaView)
    requires
        sale_fits(v),
    ensures
        sale_record(sale_bytes(v)) == Some(v),
{
    let s = sale_bytes(v);
    assert(s.subrange(0, s.len() as int) =~= s);
    lemma_read_sale(s, 0, v);
}

/// A product read from a record fits a record again.
pub proof fn lemma_record_fits(s: Seq<u8>)
    requires
        s.len() == PRODUCT_LENGTH,
        product_record(s) is Some,
    ensures
        product_fits(product_record(s).unwrap()),
{
    let n = u64_at(s, 0) as int;
    let b = s.subrange(8, 8 + n);
    decode_utf8_encode_utf8(b);
    let (nome, p) = read_text(s, 0).unwrap();
    lemma_text_date_wf(s.subrange(p + 44, p + 54));
}

// ---------------------------------------------------------------------------
// Writing
pub(crate) fn push_u64(out: &mut Vec<u8>, x: u64)
    ensures
        final(out)@ == old(out)@ + le64(x),
{
    let mut b = u64_to_le_bytes(x);
    out.append(&mut b);
}

fn push_u32(out: &mut Vec<u8>, x: u32)
    ensures
        final(out)@ == old(out)@ + le32(x),
{
    let mut b = u32_to_le_bytes(x);
    out.append(&mut b);
}

fn push_text(out: &mut Vec<u8>, t: &String)
    ensures
        final(out)@ == old(out)@ + text_bytes(t@),
        encode_utf8(t@).len() <= usize::MAX,
{
    let bytes = t.as_str().as_bytes();
    let n = bytes.len();
    push_u64(out, n as u64);
    let mut v = slice_to_vec(bytes);
    out.append(&mut v);
}

fn category_code(c: Categoria) -> (r: u32)
    ensures
        r == category_index(c),
{
    match c {
        Categoria::Eletronico => 0,
        Categoria::Roupa => 1,
        Categoria::Alimento => 2,
        Categoria::Geral => 3,
    }
}

fn payment_code(m: MetodoPagamento) -> (r: u32)
    ensures
        r == payment_index(m),
{
    match m {
        MetodoPagamento::Credito => 0,
        MetodoPagamento::Debito => 1,
        MetodoPagamento::Pix => 2,
        MetodoPagamento::Dinheiro => 3,
    }
}

/// Whether a date is a valid date of the store.
pub fn date_is_valid(d: &Data) -> (r: bool)
    ensures
        r == d.wf(),
{
    Data::new(d.dia, d.mes, d.ano).is_some()
}

/// The record of a product: its encoding padded with zeros to the record
/// width. Fails where the name takes more than 40 bytes or the date is not
/// valid.
pub fn encode_product(p: &Produto) -> (r: Result<Vec<u8>, CustomErrors>)
    ensures
        match r {
            Ok(b) => product_fits(p@) && b@ == product_slot(p@),
            Err(e) => !product_fits(p@) && e == fit_error(p@),
        },
{
    if p.nome.as_str().as_bytes().len() > MAX_NAME_BYTES {
        return Err(CustomErrors::NameTooLong);
    }
    if !date_is_valid(&p.data_restoque) {
        return Err(CustomErrors::InvalidDate);
    }
    let mut out: Vec<u8> = Vec::new();
    push_text(&mut out, &p.nome);
    push_u64(&mut out, p.id);
    push_u64(&mut out, p.quantidade_estoque);
    push_u64(&mut out, p.valor);
    push_u64(&mut out, p.quantidade_restoque);
    push_u32(&mut out, category_code(p.categoria));
    let mut d = serialize(&p.data_restoque);
    out.append(&mut d);
    proof {
        lemma_product_bytes_len(p@);
        assert(out@ =~= product_bytes(p@));
    }
    let ghost body = out@;
    while out.len() < PRODUCT_LENGTH
        invariant
            body.len() <= out@.len() <= PRODUCT_LENGTH,
            out@.subrange(0, body.len() as int) == body,
            forall|i: int| body.len() <= i < out@.len() ==> out@[i] == 0u8,
        decreases PRODUCT_LENGTH - out@.len(),
    {
        out.push(0u8);
    }
    assert(out@ =~= product_slot(p@));
    Ok(out)
}

/// The encoding of a sale. Fails where its date is not valid.
pub fn encode_sale(v: &Venda) -> (r: Result<Vec<u8>, CustomErrors>)
    ensures
        match r {
            Ok(b) => sale_fits(v@) && b@ == sale_bytes(v@),
            Err(e) => !v.data.wf() && e == CustomErrors::InvalidDate,
        },
{
    if !date_is_valid(&v.data) {
        return Err(CustomErrors::InvalidDate);
    }
    let mut out: Vec<u8> = Vec::new();
    push_text(&mut out, &v.vendedor);
    let n = v.produtos.len();
    push_u64(&mut out, n as u64);
    let ghost head = out@;
    let mut k: usize = 0;
    while k < n
        invariant
            k <= n,
            n == v.produtos@.len(),
            out@ == head + ids_bytes(v.produtos@.subrange(0, k as int)),
        decreases n - k,
    {
        push_u64(&mut out, v.produtos[k]);
        proof {
            let next = v.produtos@.subrange(0, k + 1);
            assert(next.drop_last() =~= v.produtos@.subrange(0, k as int));
        }
        k = k + 1;
    }
    assert(v.produtos@.subrange(0, n as int) =~= v.produtos@);
    push_u64(&mut out, v.codigo);
    push_u64(&mut out, v.valor);
    push_u32(&mut out, payment_code(v.metodo_pagamento));
    let mut d = serialize(&v.data);
    out.append(&mut d);
    assert(out@ =~= sale_bytes(v@));
    let _total = out.len();
    proof {
        lemma_sale_bytes_len(v@);
    }
    Ok(out)
}

// ---------------------------------------------------------------------------
// Reading
pub(crate) fn get_u64(s: &[u8], pos: usize) -> (r: u64)
    requires
        pos + 8 <= s@.len(),
    ensures
        r == u64_at(s@, pos as int),
{
    let _len = s.len();
    u64_from_le_bytes(slice_subrange(s, pos, pos + 8))
}

fn get_u32(s: &[u8], pos: usize) -> (r: u32)
    requires
        pos + 4 <= s@.len(),
    ensures
        r == u32_at(s@, pos as int),
{
    let _len = s.len();
    u32_from_le_bytes(slice_subrange(s, pos, pos + 4))
}

/// Relies on std's `String::from_utf8`: it accepts exactly the valid UTF-8
/// byte sequences, and the string it returns holds the characters they encode.
#[verifier::external_body]
fn string_from_utf8(bytes: Vec<u8>) -> (r: Option<String>)
    ensures
        r is Some <==> valid_utf8(bytes@),
        r matches Some(t) ==> t@ == decode_utf8(bytes@),
{
    String::from_utf8(bytes).ok()
}

fn parse_text(s: &[u8], pos: usize) -> (r: Option<(String, usize)>)
    ensures
        match r {
            Some((t, e)) => read_text(s@, pos as int) == Some((t@, e as int)),
            None => read_text(s@, pos as int) is None,
        },
{
    let len = s.len();
    if pos > len || len - pos < 8 {
        return None;
    }
    let n = get_u64(s, pos);
    if n > (len - pos - 8) as u64 {
        return None;
    }
    let end = pos + 8 + n as usize;
    let v = slice_to_vec(slice_subrange(s, pos + 8, end));
    match string_from_utf8(v) {
        Some(t) => Some((t, end)),
        None => None,
    }
}

fn category_from_code(i: u32) -> (r: Option<Categoria>)
    ensures
        r == category_of(i),
{
    if i == 0 {
        Some(Categoria::Eletronico)
    } else if i == 1 {
        Some(Categoria::Roupa)
    } else if i == 2 {
        Some(Categoria::Alimento)
    } else if i == 3 {
        Some(Categoria::Geral)
    } else {
        None
    }
}

fn payment_from_code(i: u32) -> (r: Option<MetodoPagamento>)
    ensures
        r == payment_of(i),
{
    if i == 0 {
        Some(MetodoPagamento::Credito)
    } else if i == 1 {
        Some(MetodoPagamento::Debito)
    } else if i == 2 {
        Some(MetodoPagamento::Pix)
    } else if i == 3 {
        Some(MetodoPagamento::Dinheiro)
    } else {
        None
    }
}

/// Reads the product that a record holds; `None` where the bytes are not the
/// encoding of a product followed by anything.
pub fn decode_product(s: &[u8]) -> (r: Option<Produto>)
    ensures
        r is Some <==> product_record(s@) is Some,
        r matches Some(p) ==> product_record(s@) == Some(p@),
{
    let len = s.len();
    let (nome, p) = match parse_text(s, 0) {
        Some(x) => x,
        None => return None,
    };
    if p > len || len - p < 36 {
        return None;
    }
    let categoria = match category_from_code(get_u32(s, p + 32)) {
        Some(c) => c,
        None => return None,
    };
    let (data_restoque, _) = match deserialize(s, p + 36) {
        Some(x) => x,
        None => return None,
    };
    Some(
        Produto {
            nome,
            id: get_u64(s, p),
            quantidade_estoque: get_u64(s, p + 8),
            valor: get_u64(s, p + 16),
            quantidade_restoque: get_u64(s, p + 24),
            categoria,
            data_restoque,
        },
    )
}

/// Reads the sale that a payload holds; `None` where the bytes are not
/// exactly the encoding of a sale.
pub fn decode_sale(s: &[u8]) -> (r: Option<Venda>)
    ensures
        r is Some <==> sale_record(s@) is Some,
        r matches Some(v) ==> sale_record(s@) == Some(v@),
{
    let len = s.len();
    let (vendedor, p) = match parse_text(s, 0) {
        Some(x) => x,
        None => return None,
    };
    if p > len || len - p < 8 {
        return None;
    }
    let n = get_u64(s, p);
    if n > ((len - p - 8) / 8) as u64 {
        return None;
    }
    let q = p + 8 + 8 * (n as usize);
    if len - q < 20 {
        return None;
    }
    let mut produtos: Vec<u64> = Vec::new();
    let mut k: usize = 0;
    while k < n as usize
        invariant
            k <= n,
            p + 8 + 8 * n <= len,
            len == s@.len(),
            produtos@ == read_ids(s@, p + 8, k as int),
        decreases n - k,
    {
        produtos.push(get_u64(s, p + 8 + 8 * k));
        assert(produtos@ =~= read_ids(s@, p + 8, k + 1));
        k = k + 1;
    }
    let metodo_pagamento = match payment_from_code(get_u32(s, q + 16)) {
        Some(m) => m,
        None => return None,
    };
    let (data, e) = match deserialize(s, q + 20) {
        Some(x) => x,
        None => return None,
    };
    if e != len {
        return None;
    }
    Some(
        Venda {
            vendedor,
            produtos,
            codigo: get_u64(s, q),
            valor: get_u64(s, q + 8),
            metodo_pagamento,
            data,
        },
    )
}

} // verus!
