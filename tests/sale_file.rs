use store::date::Data;
use store::errors::CustomErrors;
use store::model::{Categoria, MetodoPagamento};
use store::product_store::{list_products, search_product_id, ProductFile};
use store::sale_ledger::{
    list_sales, register_sale, remove_sale, search_product_sales, search_sale_code,
    search_sales_by_date, update_sale, SaleFile,
};

fn product_record(name: &str, id: u64, stock: u64, price: f64, restock: u64, category: u32) -> Vec<u8> {
    let mut b = bincode::serialize(&(name.to_string(), id, stock, price, restock, category, "01/01/1970".to_string())).unwrap();
    b.resize(102, 0);
    b
}

fn set_products() -> ProductFile {
    let mut bytes = Vec::new();
    bytes.extend(product_record("Teste1", 1, 10, 50.0, 5, 3));
    bytes.extend(product_record("Teste2", 2, 15, 40.0, 25, 2));
    bytes.extend(product_record("Teste3", 3, 20, 60.0, 10, 0));
    bytes.extend(bincode::serialize(&3u64).unwrap());
    ProductFile::from_bytes(bytes).expect("Erro no arquivo de produtos.")
}

fn sale_record(seller: &str, ids: Vec<u64>, code: u64, value: f64, method: u32) -> Vec<u8> {
    let payload = bincode::serialize(&(seller.to_string(), ids, code, value, method, "01/01/1970".to_string())).unwrap();
    let mut b = bincode::serialize(&(payload.len() as u64)).unwrap();
    b.extend(payload);
    b
}

fn set_sales() -> SaleFile {
    let mut bytes = Vec::new();
    bytes.extend(sale_record("Venda1", vec![], 1, 50.0, 0));
    bytes.extend(sale_record("Venda2", vec![], 2, 70.0, 3));
    bytes.extend(sale_record("Venda3", vec![1], 3, 90.0, 2));
    bytes.extend(bincode::serialize(&3u64).unwrap());
    SaleFile::from_bytes(bytes).expect("Erro no arquivo de vendas.")
}

#[test]
fn test_register_sale() {
    let mut products_file = set_products();
    let mut sales_file = SaleFile::new();

    let products_size = products_file.as_bytes().len();
    let sales_size = sales_file.as_bytes().len();

    let result = register_sale(&mut products_file, &mut sales_file, "Teste".to_string(), &vec![(1, 1)], MetodoPagamento::Debito, Data::default(), 50.0f64.to_bits());

    assert!(result.is_ok());

    assert_eq!(products_size, products_file.as_bytes().len());
    assert!(sales_size < sales_file.as_bytes().len());
}

#[test]
fn test_search_sale_code() {
    let file = set_sales();

    let result = search_sale_code(&file, 1);

    assert!(result.is_ok());

    let sale = result.unwrap();

    assert_eq!(sale.1, 0);
    assert_eq!(sale.0.codigo, 1);
    assert_eq!(sale.0.vendedor, "Venda1");
    assert_eq!(f64::from_bits(sale.0.valor), 50.0);
}

#[test]
fn test_search_sales_by_date() {
    let file = set_sales();
    let found = search_sales_by_date(&file, Data::default());
    assert_eq!(found.len(), 3);
    assert!(search_sales_by_date(&file, Data::new(2, 1, 1970).unwrap()).is_empty());
}

#[test]
fn test_search_product_sales() {
    let file = set_sales();
    let found = search_product_sales(&file, 1);
    let codes: Vec<u64> = found.iter().map(|v| v.codigo).collect();
    assert_eq!(codes, vec![3]);
    assert!(search_product_sales(&file, 2).is_empty());
}

#[test]
fn test_list_sales() {
    let file = set_sales();
    let codes: Vec<u64> = list_sales(&file).iter().map(|v| v.codigo).collect();
    assert_eq!(codes, vec![1, 2, 3]);
}

#[test]
fn test_update_sale() {
    let mut file = set_sales();
    let size = file.as_bytes().len();

    let result = update_sale(&mut file, 2, Data::new(1, 8, 2023).unwrap(), MetodoPagamento::Pix);

    assert!(result.is_ok());
    assert_eq!(size, file.as_bytes().len());

    let (v, _) = search_sale_code(&file, 2).unwrap();
    assert_eq!(v.data, Data::new(1, 8, 2023).unwrap());
    assert_eq!(v.metodo_pagamento, MetodoPagamento::Pix);
    assert_eq!(v.vendedor, "Venda2");
    assert_eq!(search_sale_code(&file, 3).unwrap().0.vendedor, "Venda3");
}

#[test]
fn test_remove_sale() {
    let mut file = set_sales();
    let size = file.as_bytes().len();

    let result = remove_sale(&mut file, 1);

    assert!(result.is_ok());
    assert!(size > file.as_bytes().len());
}

#[test]
fn ledger_offsets_are_cumulative_record_lengths() {
    let mut products = set_products();
    let mut sales = SaleFile::new();
    let sellers = ["A", "Bruno", "Carla Souza"];
    let mut expected_offset: u64 = 0;
    let mut offsets = Vec::new();
    for (k, s) in sellers.iter().enumerate() {
        let code = register_sale(&mut products, &mut sales, s.to_string(), &vec![(2, 1)], MetodoPagamento::Dinheiro, Data::default(), 1.0f64.to_bits());
        assert_eq!(code, Ok(k as u64 + 1));
        offsets.push(expected_offset);
        expected_offset += 8 + (8 + s.len() as u64) + 8 + 8 + 8 + 8 + 4 + 18;
    }
    for (k, off) in offsets.iter().enumerate() {
        let (v, at) = search_sale_code(&sales, k as u64 + 1).unwrap();
        assert_eq!(v.vendedor, sellers[k]);
        assert_eq!(at, *off);
    }
    assert_eq!(search_sale_code(&sales, 4).err(), Some(CustomErrors::SaleNotFound));
}

#[test]
fn sale_with_exact_stock_succeeds_and_one_more_fails() {
    let mut products = ProductFile::new();
    let p = store::model::Produto::new("Lapis".to_string(), 0, 5, 2.0f64.to_bits(), 1, Data::default(), Categoria::Geral);
    store::product_store::add_product(&mut products, p).unwrap();
    let mut sales = SaleFile::new();

    let before = products.as_bytes().clone();
    let r = register_sale(&mut products, &mut sales, "V".to_string(), &vec![(1, 6)], MetodoPagamento::Pix, Data::default(), 0);
    assert_eq!(r, Err(CustomErrors::LowStock));
    assert_eq!(products.as_bytes(), &before);
    assert!(sales.as_bytes().is_empty());

    let r = register_sale(&mut products, &mut sales, "V".to_string(), &vec![(1, 5)], MetodoPagamento::Pix, Data::default(), 0);
    assert_eq!(r, Ok(1));
    assert_eq!(search_product_id(&products, 1).unwrap().0.quantidade_estoque, 0);
}

#[test]
fn failing_line_leaves_earlier_lines_unwritten() {
    let mut products = set_products();
    let mut sales = SaleFile::new();
    let before = products.as_bytes().clone();
    let r = register_sale(&mut products, &mut sales, "V".to_string(), &vec![(1, 3), (2, 16)], MetodoPagamento::Pix, Data::default(), 0);
    assert_eq!(r, Err(CustomErrors::LowStock));
    assert_eq!(products.as_bytes(), &before);
    let r = register_sale(&mut products, &mut sales, "V".to_string(), &vec![(1, 3), (9, 1)], MetodoPagamento::Pix, Data::default(), 0);
    assert_eq!(r, Err(CustomErrors::ProductNotFound));
    let r = register_sale(&mut products, &mut sales, "V".to_string(), &vec![(1, 6), (1, 5)], MetodoPagamento::Pix, Data::default(), 0);
    assert_eq!(r, Err(CustomErrors::LowStock));
    assert_eq!(products.as_bytes(), &before);
}

#[test]
fn example_scenario_three_products_one_sale() {
    let mut products = set_products();
    let mut sales = SaleFile::new();
    let size = products.as_bytes().len();
    let code = register_sale(&mut products, &mut sales, "Teste".to_string(), &vec![(1, 1)], MetodoPagamento::Debito, Data::default(), 50.0f64.to_bits());
    assert_eq!(code, Ok(1));
    assert_eq!(products.as_bytes().len(), size);
    let stock: Vec<u64> = list_products(&products).iter().map(|p| p.quantidade_estoque).collect();
    assert_eq!(stock, vec![9, 15, 20]);
    let (v, off) = search_sale_code(&sales, 1).unwrap();
    assert_eq!(off, 0);
    assert_eq!(v.produtos, vec![1]);
    assert_eq!(v.metodo_pagamento, MetodoPagamento::Debito);
}

#[test]
fn repeated_product_is_listed_once() {
    let mut products = set_products();
    let mut sales = SaleFile::new();
    register_sale(&mut products, &mut sales, "V".to_string(), &vec![(3, 1), (1, 2), (3, 4)], MetodoPagamento::Pix, Data::default(), 0).unwrap();
    let v = search_sale_code(&sales, 1).unwrap().0;
    assert_eq!(v.produtos, vec![3, 1]);
    assert_eq!(search_product_id(&products, 3).unwrap().0.quantidade_estoque, 15);
}

#[test]
fn removing_a_sale_keeps_the_others_and_the_counter() {
    let mut file = set_sales();
    remove_sale(&mut file, 2).unwrap();
    let codes: Vec<u64> = list_sales(&file).iter().map(|v| v.codigo).collect();
    assert_eq!(codes, vec![1, 3]);
    assert_eq!(remove_sale(&mut file, 2), Err(CustomErrors::SaleNotFound));
    let mut products = set_products();
    assert_eq!(register_sale(&mut products, &mut file, "N".to_string(), &vec![(1, 1)], MetodoPagamento::Pix, Data::default(), 0), Ok(4));
    assert_eq!(update_sale(&mut file, 9, Data::default(), MetodoPagamento::Pix), Err(CustomErrors::SaleNotFound));
}
