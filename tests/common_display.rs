use store::errors::CustomErrors;
use store::model::{Categoria, MetodoPagamento};

#[test]
fn test_custom_errors_display() {
    assert_eq!(CustomErrors::LowStock.to_string(), "O estoque do produto não é suficiente para esta compra.");
    assert_eq!(CustomErrors::NameTooLong.to_string(), "O nome do produto deve ter, no máximo, 40 caracteres.");
    assert_eq!(CustomErrors::NoCategory.to_string(), "A categoria especificada não existe.");
    assert_eq!(CustomErrors::OperationCanceled.to_string(), "Operação cancelada.");
    assert_eq!(CustomErrors::ProductNotFound.to_string(), "O produto não foi encontrado.");
    assert_eq!(CustomErrors::SaleNotFound.to_string(), "Nenhuma venda encontrada.");
    assert_eq!(CustomErrors::TooManyArguments.to_string(), "Foram fornecidos mais argumentos que o máximo.");
}

#[test]
fn test_categories_display() {
    assert_eq!(Categoria::Alimento.to_string(), "Alimento");
    assert_eq!(Categoria::Eletronico.to_string(), "Eletrônico");
    assert_eq!(Categoria::Geral.to_string(), "Geral");
    assert_eq!(Categoria::Roupa.to_string(), "Roupa");
}

#[test]
fn test_payment_methods_display() {
    assert_eq!(MetodoPagamento::Credito.to_string(), "Cartão de crédito");
    assert_eq!(MetodoPagamento::Debito.to_string(), "Cartão de débito");
    assert_eq!(MetodoPagamento::Dinheiro.to_string(), "Dinheiro");
    assert_eq!(MetodoPagamento::Pix.to_string(), "PIX");
}

#[test]
fn extra_error_messages() {
    assert_eq!(CustomErrors::MalformedRecord.to_string(), "O arquivo contém um registro corrompido.");
    assert_eq!(CustomErrors::InvalidNumber.to_string(), "O valor informado não é um número inteiro válido.");
}
