use store::date::Data;
use store::model::{Categoria, MetodoPagamento, Produto, Venda};

#[test]
fn test_create_product() {
    let product = Produto::new("Smartphone".to_string(), 1, 100, 1500.0f64.to_bits(), 50, Data::default(), Categoria::Eletronico);

    assert_eq!(product.nome, "Smartphone");
    assert_eq!(product.id, 1);
    assert_eq!(product.quantidade_estoque, 100);
    assert_eq!(f64::from_bits(product.valor), 1500.0);
    assert_eq!(product.quantidade_restoque, 50);
    assert_eq!(product.data_restoque, Data::default());
}

#[test]
fn test_create_sale() {
    let venda = Venda::new("Lucas".to_string(), 2, 8.75f64.to_bits(), Data::default(), MetodoPagamento::Pix);

    assert_eq!(venda.vendedor, "Lucas");
    assert_eq!(venda.codigo, 2);
    assert_eq!(f64::from_bits(venda.valor), 8.75);
    assert_eq!(venda.data, Data::default());
    assert!(venda.produtos.is_empty());
}

#[test]
fn default_date_is_first_of_january_1970() {
    assert_eq!(Data::default(), Data { dia: 1, mes: 1, ano: 1970 });
}

#[test]
fn date_new_checks_the_calendar() {
    assert_eq!(Data::new(29, 2, 2024), Some(Data { dia: 29, mes: 2, ano: 2024 }));
    assert_eq!(Data::new(29, 2, 2023), None);
    assert_eq!(Data::new(29, 2, 1900), None);
    assert_eq!(Data::new(29, 2, 2000), Some(Data { dia: 29, mes: 2, ano: 2000 }));
    assert_eq!(Data::new(31, 4, 2023), None);
    assert_eq!(Data::new(31, 12, 9999), Some(Data { dia: 31, mes: 12, ano: 9999 }));
    assert_eq!(Data::new(1, 1, 10000), None);
    assert_eq!(Data::new(0, 1, 2000), None);
    assert_eq!(Data::new(1, 13, 2000), None);
}
