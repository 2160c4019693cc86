use vstd::prelude::*;
use crate::date::Data;

verus! {

/// The category of a product.
#[derive(Debug, Clone, Copy, PartialEq, Eq, Structural)]
pub enum Categoria {
    Eletronico,
    Roupa,
    Alimento,
    Geral,
}

impl Categoria {
    /// The category's name as shown to the user.
    pub fn to_string(&self) -> (r: String)
        ensures
            r@ == self.name(),
    {
        match self {
            Categoria::Alimento => "Alimento".to_string(),
            Categoria::Eletronico => "Eletrônico".to_string(),
            Categoria::Roupa => "Roupa".to_string(),
            Categoria::Geral => "Geral".to_string(),
        }
    }

    pub open spec fn name(&self) -> Seq<char> {
        match self {
            Categoria::Alimento => "Alimento"@,
            Categoria::Eletronico => "Eletrônico"@,
            Categoria::Roupa => "Roupa"@,
            Categoria::Geral => "Geral"@,
        }
    }
}

/// How a sale was paid.
#[derive(Debug, Clone, Copy, PartialEq, Eq, Structural)]
pub enum MetodoPagamento {
    Credito,
    Debito,
    Pix,
    Dinheiro,
}

impl MetodoPagamento {
    /// The payment method's name as shown to the user.
    pub fn to_string(&self) -> (r: String)
        ensures
            r@ == self.name(),
    {
        match self {
            MetodoPagamento::Credito => "Cartão de crédito".to_string(),
            MetodoPagamento::Debito => "Cartão de débito".to_string(),
            MetodoPagamento::Dinheiro => "Dinheiro".to_string(),
            MetodoPagamento::Pix => "PIX".to_string(),
        }
    }

    pub open spec fn name(&self) -> Seq<char> {
        match self {
            MetodoPagamento::Credito => "Cartão de crédito"@,
            MetodoPagamento::Debito => "Cartão de débito"@,
            MetodoPagamento::Dinheiro => "Dinheiro"@,
            MetodoPagamento::Pix => "PIX"@,
        }
    }
}

/// A product of the inventory. `valor` holds the bits of the unit price, an
/// IEEE 754 double (`f64::to_bits`).
pub struct Produto {
    pub nome: String,
    pub id: u64,
    pub quantidade_estoque: u64,
    pub valor: u64,
    pub quantidade_restoque: u64,
    pub categoria: Categoria,
    pub data_restoque: Data,
}

pub struct ProdutoView {
    pub nome: Seq<char>,
    pub id: u64,
    pub quantidade_estoque: u64,
    pub valor: u64,
    pub quantidade_restoque: u64,
    pub categoria: Categoria,
    pub data_restoque: Data,
}

impl View for Produto {
    type V = ProdutoView;

    open spec fn view(&self) -> ProdutoView {
        ProdutoView {
            nome: self.nome@,
            id: self.id,
            quantidade_estoque: self.quantidade_estoque,
            valor: self.valor,
            quantidade_restoque: self.quantidade_restoque,
            categoria: self.categoria,
            data_restoque: self.data_restoque,
        }
    }
}

impl ProdutoView {
    /// The product is due for restocking: its stock is at or below its threshold.
    pub open spec fn needs_restock(self) -> bool {
        self.quantidade_estoque <= self.quantidade_restoque
    }
}

impl Produto {
    pub fn new(
        nome: String,
        id: u64,
        quantidade_estoque: u64,
        valor: u64,
        quantidade_restoque: u64,
        data_restoque: Data,
        categoria: Categoria,
    ) -> (r: Self)
        ensures
            r@ == (ProdutoView {
                nome: nome@,
                id,
                quantidade_estoque,
                valor,
                quantidade_restoque,
                categoria,
                data_restoque,
            }),
    {
        Produto { nome, id, quantidade_estoque, valor, quantidade_restoque, categoria, data_restoque }
    }
}

/// A sale of the ledger. `valor` holds the bits of the total, an IEEE 754
/// double (`f64::to_bits`); `produtos` lists the ids of the products sold.
pub struct Venda {
    pub vendedor: String,
    pub produtos: Vec<u64>,
    pub codigo: u64,
    pub valor: u64,
    pub metodo_pagamento: MetodoPagamento,
    pub data: Data,
}

pub struct VendaView {
    pub vendedor: Seq<char>,
    pub produtos: Seq<u64>,
    pub codigo: u64,
    pub valor: u64,
    pub metodo_pagamento: MetodoPagamento,
    pub data: Data,
}

impl View for Venda {
    type V = VendaView;

    open spec fn view(&self) -> VendaView {
        VendaView {
            vendedor: self.vendedor@,
            produtos: self.produtos@,
            codigo: self.codigo,
            valor: self.valor,
            metodo_pagamento: self.metodo_pagamento,
            data: self.data,
        }
    }
}

impl Venda {
    /// A sale with no products yet.
    pub fn new(vendedor: String, codigo: u64, valor: u64, data: Data, metodo_pagamento: MetodoPagamento) -> (r: Self)
        ensures
            r@ == (VendaView {
                vendedor: vendedor@,
                produtos: Seq::empty(),
                codigo,
                valor,
                metodo_pagamento,
                data,
            }),
    {
        Venda { vendedor, produtos: Vec::new(), codigo, valor, metodo_pagamento, data }
    }
}

} // verus!
