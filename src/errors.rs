use vstd::prelude::*;

verus! {

/// The ways an operation of the store can fail.
#[derive(Debug, Clone, Copy, PartialEq, Eq, Structural)]
pub enum CustomErrors {
    LowStock,
    NameTooLong,
    NoCategory,
    OperationCanceled,
    ProductNotFound,
    SaleNotFound,
    TooManyArguments,
    /// A text that should hold a non-negative integer does not.
    InvalidNumber,
    /// A text that should hold a day/month/year date does not.
    InvalidDate,
    /// A file's bytes do not have the layout of a product file or a ledger.
    MalformedRecord,
    /// The counter already holds the largest id or code there is.
    CounterExhausted,
}

impl CustomErrors {
    /// The message shown to the user for this error.
    pub fn to_string(&self) -> (r: String)
        ensures
            r@ == self.message(),
    {
        match self {
            CustomErrors::LowStock => "O estoque do produto não é suficiente para esta compra.".to_string(),
            CustomErrors::NameTooLong => "O nome do produto deve ter, no máximo, 40 caracteres.".to_string(),
            CustomErrors::NoCategory => "A categoria especificada não existe.".to_string(),
            CustomErrors::OperationCanceled => "Operação cancelada.".to_string(),
            CustomErrors::ProductNotFound => "O produto não foi encontrado.".to_string(),
            CustomErrors::SaleNotFound => "Nenhuma venda encontrada.".to_string(),
            CustomErrors::TooManyArguments => "Foram fornecidos mais argumentos que o máximo.".to_string(),
            CustomErrors::InvalidNumber => "O valor informado não é um número inteiro válido.".to_string(),
            CustomErrors::InvalidDate => "A data informada não segue o formato dd/mm/YYYY.".to_string(),
            CustomErrors::MalformedRecord => "O arquivo contém um registro corrompido.".to_string(),
            CustomErrors::CounterExhausted => "Não há mais códigos disponíveis.".to_string(),
        }
    }

    pub open spec fn message(&self) -> Seq<char> {
        match self {
            CustomErrors::LowStock => "O estoque do produto não é suficiente para esta compra."@,
            CustomErrors::NameTooLong => "O nome do produto deve ter, no máximo, 40 caracteres."@,
            CustomErrors::NoCategory => "A categoria especificada não existe."@,
            CustomErrors::OperationCanceled => "Operação cancelada."@,
            CustomErrors::ProductNotFound => "O produto não foi encontrado."@,
            CustomErrors::SaleNotFound => "Nenhuma venda encontrada."@,
            CustomErrors::TooManyArguments => "Foram fornecidos mais argumentos que o máximo."@,
            CustomErrors::InvalidNumber => "O valor informado não é um número inteiro válido."@,
            CustomErrors::InvalidDate => "A data informada não segue o formato dd/mm/YYYY."@,
            CustomErrors::MalformedRecord => "O arquivo contém um registro corrompido."@,
            CustomErrors::CounterExhausted => "Não há mais códigos disponíveis."@,
        }
    }
}

} // verus!
