use store::codec::{decode_product, decode_sale, encode_product, encode_sale, PRODUCT_LENGTH};
use store::date::{deserialize, read_date_text, serialize, Data};
use store::errors::CustomErrors;
use store::model::{Categoria, MetodoPagamento, Produto, Venda};

fn same_product(a: &Produto, b: &Produto) -> bool {
    a.nome == b.nome
        && a.id == b.id
        && a.quantidade_estoque == b.quantidade_estoque
        && a.valor == b.valor
        && a.quantidade_restoque == b.quantidade_restoque
        && a.categoria == b.categoria
        && a.data_restoque == b.data_restoque
}

fn same_sale(a: &Venda, b: &Venda) -> bool {
    a.vendedor == b.vendedor
        && a.produtos == b.produtos
        && a.codigo == b.codigo
        && a.valor == b.valor
        && a.metodo_pagamento == b.metodo_pagamento
        && a.data == b.data
}

#[test]
fn test_serialize_deserialize_date() {
    let product = Produto::new("Data".to_string(), 1, 0, 0, 0, Data::default(), Categoria::Geral);
    let bytes = encode_product(&product).unwrap();
    let back = decode_product(&bytes).unwrap();
    assert_eq!(back.data_restoque, Data::default());
    let text = Data::default().text_bytes();
    assert_eq!(text, b"01/01/1970".to_vec());
    assert_eq!(read_date_text(&text, 0), Some(Data::default()));
}

#[test]
fn test_serialize_deserialize_error() {
    let invalid_bytes = vec![0x00, 0xFF, 0x00];
    assert!(decode_product(&invalid_bytes).is_none());
    assert!(decode_sale(&invalid_bytes).is_none());
}

#[test]
fn product_record_matches_bincode_layout() {
    let product = Produto::new("Teste1".to_string(), 1, 10, 50.0f64.to_bits(), 5, Data::default(), Categoria::Geral);
    let mut expected = bincode::serialize(&("Teste1".to_string(), 1u64, 10u64, 50.0f64, 5u64, 3u32, "01/01/1970".to_string())).unwrap();
    expected.resize(102, 0);
    assert_eq!(encode_product(&product).unwrap(), expected);
}

#[test]
fn sale_record_matches_bincode_layout() {
    let mut sale = Venda::new("Venda3".to_string(), 3, 90.0f64.to_bits(), Data::default(), MetodoPagamento::Pix);
    sale.produtos.push(1);
    let expected = bincode::serialize(&("Venda3".to_string(), vec![1u64], 3u64, 90.0f64, 2u32, "01/01/1970".to_string())).unwrap();
    assert_eq!(encode_sale(&sale).unwrap(), expected);
}

#[test]
fn product_round_trip_all_categories_and_name_lengths() {
    let cats = [Categoria::Eletronico, Categoria::Roupa, Categoria::Alimento, Categoria::Geral];
    for (i, cat) in cats.iter().enumerate() {
        for name in ["", "a", "ção", &"x".repeat(40)] {
            let p = Produto::new(name.to_string(), i as u64 + 7, u64::MAX, 12.5f64.to_bits(), 0, Data { dia: 31, mes: 12, ano: 9999 }, *cat);
            let bytes = encode_product(&p).unwrap();
            assert_eq!(bytes.len(), PRODUCT_LENGTH);
            assert!(same_product(&decode_product(&bytes).unwrap(), &p));
        }
    }
}

#[test]
fn product_name_over_forty_bytes_is_refused() {
    let p = Produto::new("x".repeat(41), 1, 1, 0, 1, Data::default(), Categoria::Geral);
    assert_eq!(encode_product(&p).err(), Some(CustomErrors::NameTooLong));
    let p = Produto::new("ç".repeat(21), 1, 1, 0, 1, Data::default(), Categoria::Geral);
    assert_eq!(encode_product(&p).err(), Some(CustomErrors::NameTooLong));
    let p = Produto::new("ok".to_string(), 1, 1, 0, 1, Data { dia: 30, mes: 2, ano: 2020 }, Categoria::Geral);
    assert_eq!(encode_product(&p).err(), Some(CustomErrors::InvalidDate));
}

#[test]
fn sale_round_trip_all_payment_methods() {
    let methods = [MetodoPagamento::Credito, MetodoPagamento::Debito, MetodoPagamento::Pix, MetodoPagamento::Dinheiro];
    for (i, m) in methods.iter().enumerate() {
        let mut v = Venda::new("Vendedor Ünïcode".to_string(), i as u64, 1.25f64.to_bits(), Data { dia: 29, mes: 2, ano: 2024 }, *m);
        for k in 0..i {
            v.produtos.push(k as u64 * 3);
        }
        let bytes = encode_sale(&v).unwrap();
        assert!(same_sale(&decode_sale(&bytes).unwrap(), &v));
    }
}

#[test]
fn sale_decode_needs_exact_length() {
    let v = Venda::new("A".to_string(), 1, 0, Data::default(), MetodoPagamento::Pix);
    let mut bytes = encode_sale(&v).unwrap();
    bytes.push(0);
    assert!(decode_sale(&bytes).is_none());
}

#[test]
fn date_field_round_trip() {
    let d = Data { dia: 7, mes: 9, ano: 812 };
    let bytes = serialize(&d);
    assert_eq!(bytes, bincode::serialize(&"07/09/0812".to_string()).unwrap());
    assert_eq!(deserialize(&bytes, 0), Some((d, 18)));
    let mut bad = bytes.clone();
    bad[10] = b'3';
    bad[11] = b'2';
    assert_eq!(deserialize(&bad, 0), None);
}
