use store::date::{validate_date, Data};
use store::errors::CustomErrors;
use store::model::{Categoria, MetodoPagamento};
use store::validation::{
    trim, validate_category, validate_int, validate_payment_method, validate_product, validate_sale,
};

#[test]
fn integers_parse_as_u64_does() {
    assert_eq!(validate_int("42"), Ok(42));
    assert_eq!(validate_int("+7"), Ok(7));
    assert_eq!(validate_int("18446744073709551615"), Ok(u64::MAX));
    assert_eq!(validate_int("18446744073709551616"), Err(CustomErrors::InvalidNumber));
    assert_eq!(validate_int(""), Err(CustomErrors::InvalidNumber));
    assert_eq!(validate_int("+"), Err(CustomErrors::InvalidNumber));
    assert_eq!(validate_int("-1"), Err(CustomErrors::InvalidNumber));
    assert_eq!(validate_int("1a"), Err(CustomErrors::InvalidNumber));
    assert_eq!(validate_int(" 1"), Err(CustomErrors::InvalidNumber));
}

#[test]
fn sale_lines() {
    assert_eq!(validate_sale("2 10"), Ok((2, 10)));
    assert_eq!(validate_sale("  5 "), Ok((5, 1)));
    assert_eq!(validate_sale("1"), Ok((1, 1)));
    assert_eq!(validate_sale("1\t3"), Ok((1, 3)));
    assert_eq!(validate_sale("1 2 3"), Err(CustomErrors::TooManyArguments));
    assert_eq!(validate_sale(""), Err(CustomErrors::TooManyArguments));
    assert_eq!(validate_sale("x 2"), Err(CustomErrors::InvalidNumber));
    assert_eq!(validate_sale("2 x"), Err(CustomErrors::InvalidNumber));
}

#[test]
fn dates_typed_by_the_user() {
    assert_eq!(validate_date("10/8/2023"), Ok(Data { dia: 10, mes: 8, ano: 2023 }));
    assert_eq!(validate_date("01/08/2023"), Ok(Data { dia: 1, mes: 8, ano: 2023 }));
    assert_eq!(validate_date("31/2/2023"), Err(CustomErrors::InvalidDate));
    assert_eq!(validate_date("ontem"), Err(CustomErrors::InvalidDate));
}

#[test]
fn payment_methods_by_name() {
    assert_eq!(validate_payment_method("debito"), Ok(MetodoPagamento::Debito));
    assert_eq!(validate_payment_method("  PIX \n"), Ok(MetodoPagamento::Pix));
    assert_eq!(validate_payment_method("Credito"), Ok(MetodoPagamento::Credito));
    assert_eq!(validate_payment_method("DINHEIRO"), Ok(MetodoPagamento::Dinheiro));
    assert_eq!(validate_payment_method("cartão"), Err(CustomErrors::NoCategory));
    assert_eq!(validate_payment_method(""), Err(CustomErrors::NoCategory));
}

#[test]
fn categories_by_name() {
    assert_eq!(validate_category("Geral"), Ok(Categoria::Geral));
    assert_eq!(validate_category("ELETRONICO"), Ok(Categoria::Eletronico));
    assert_eq!(validate_category("roupa"), Ok(Categoria::Roupa));
    assert_eq!(validate_category("Alimento"), Ok(Categoria::Alimento));
    assert_eq!(validate_category("móveis"), Err(CustomErrors::NoCategory));
}

#[test]
fn trimming_whitespace() {
    assert_eq!(trim("  a b \t\n"), "a b");
    assert_eq!(trim("\u{3000}x\u{a0}"), "x");
    assert_eq!(trim("   "), "");
    assert_eq!(trim(""), "");
}

#[test]
fn product_fields_typed_by_the_user() {
    let price = Some(50.0f64.to_bits());
    let p = validate_product("Camisa", "10", price, "5", "10/8/2023", "Geral").unwrap();
    assert_eq!(p.nome, "Camisa");
    assert_eq!(p.id, 0);
    assert_eq!(p.quantidade_estoque, 10);
    assert_eq!(f64::from_bits(p.valor), 50.0);
    assert_eq!(p.quantidade_restoque, 5);
    assert_eq!(p.data_restoque, Data { dia: 10, mes: 8, ano: 2023 });
    assert_eq!(p.categoria, Categoria::Geral);
    assert_eq!(validate_product(&"x".repeat(41), "10", price, "5", "10/8/2023", "Geral").err(), Some(CustomErrors::NameTooLong));
    assert_eq!(validate_product("Camisa", "dez", price, "5", "10/8/2023", "Geral").err(), Some(CustomErrors::InvalidNumber));
    assert_eq!(validate_product("Camisa", "10", None, "5", "10/8/2023", "Geral").err(), Some(CustomErrors::InvalidNumber));
    assert_eq!(validate_product("Camisa", "10", price, "5", "32/8/2023", "Geral").err(), Some(CustomErrors::InvalidDate));
    assert_eq!(validate_product("Camisa", "10", price, "5", "10/8/2023", "Moveis").err(), Some(CustomErrors::NoCategory));
}
