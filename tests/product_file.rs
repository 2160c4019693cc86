use store::date::Data;
use store::errors::CustomErrors;
use store::model::{Categoria, Produto};
use store::product_store::{
    add_product, list_products, products_needing_restock, remove_product, search_product_id,
    update_product, ProductFile,
};

fn record(name: &str, id: u64, stock: u64, price: f64, restock: u64, category: u32) -> Vec<u8> {
    let mut b = bincode::serialize(&(name.to_string(), id, stock, price, restock, category, "01/01/1970".to_string())).unwrap();
    b.resize(102, 0);
    b
}

fn set_products() -> ProductFile {
    let mut bytes = Vec::new();
    bytes.extend(record("Teste1", 1, 10, 50.0, 5, 3));
    bytes.extend(record("Teste2", 2, 15, 40.0, 25, 2));
    bytes.extend(record("Teste3", 3, 20, 60.0, 10, 0));
    bytes.extend(bincode::serialize(&3u64).unwrap());
    ProductFile::from_bytes(bytes).expect("Erro no arquivo.")
}

fn camisa() -> Produto {
    Produto::new("Camisa".to_string(), 0, 10, 50.0f64.to_bits(), 5, Data::new(10, 8, 2023).unwrap(), Categoria::Geral)
}

#[test]
fn test_add_product() {
    let mut file = ProductFile::new();
    assert_eq!(add_product(&mut file, camisa()), Ok(1));
    assert_eq!(file.as_bytes().len(), 102 + 8);
}

#[test]
fn test_search_product_id() {
    let file = set_products();

    let (found_product1, position1) = search_product_id(&file, 1).expect("Erro na busca pelo produto.");
    let (found_product2, position2) = search_product_id(&file, 2).expect("Erro na busca pelo produto.");
    let (found_product3, position3) = search_product_id(&file, 3).expect("Erro na busca pelo produto.");

    assert_eq!(found_product1.id, 1);
    assert_eq!(found_product2.id, 2);
    assert_eq!(found_product3.id, 3);

    assert_eq!(position1, 0);
    assert_eq!(position2, 102);
    assert_eq!(position3, 204);
}

#[test]
fn test_list_products() {
    let file = set_products();
    let all = list_products(&file);
    let ids: Vec<u64> = all.iter().map(|p| p.id).collect();
    assert_eq!(ids, vec![1, 2, 3]);
    assert_eq!(all[1].nome, "Teste2");
}

#[test]
fn test_products_needing_restock() {
    let file = set_products();
    let due = products_needing_restock(&file);
    let ids: Vec<u64> = due.iter().map(|p| p.id).collect();
    assert_eq!(ids, vec![2]);
}

#[test]
fn test_update_product() {
    let mut file = set_products();
    let size = file.as_bytes().len();

    assert_eq!(update_product(&mut file, 1, camisa()), Ok(()));
    assert_eq!(size, file.as_bytes().len());

    let (p, off) = search_product_id(&file, 1).unwrap();
    assert_eq!(p.nome, "Camisa");
    assert_eq!(off, 0);
    assert_eq!(search_product_id(&file, 2).unwrap().0.nome, "Teste2");
}

#[test]
fn test_remove_product() {
    let mut file = set_products();
    let size = file.as_bytes().len();

    assert_eq!(remove_product(&mut file, 1), Ok(()));
    assert_eq!(size - 102, file.as_bytes().len());
}

#[test]
fn inserts_get_ids_one_to_n_and_are_found_again() {
    let mut file = ProductFile::new();
    for k in 1..=5u64 {
        let p = Produto::new(format!("P{k}"), 99, k * 2, (k as f64).to_bits(), k, Data::default(), Categoria::Roupa);
        assert_eq!(add_product(&mut file, p), Ok(k));
    }
    for k in 1..=5u64 {
        let (p, off) = search_product_id(&file, k).unwrap();
        assert_eq!(p.nome, format!("P{k}"));
        assert_eq!(p.quantidade_estoque, k * 2);
        assert_eq!(off, 102 * (k - 1));
    }
    assert_eq!(search_product_id(&file, 6).err(), Some(CustomErrors::ProductNotFound));
    assert_eq!(search_product_id(&file, 0).err(), Some(CustomErrors::ProductNotFound));
}

#[test]
fn lookup_with_gaps_gives_rank_offsets() {
    let mut file = set_products();
    remove_product(&mut file, 2).unwrap();
    assert_eq!(search_product_id(&file, 3).unwrap().1, 102);
    assert_eq!(search_product_id(&file, 2).err(), Some(CustomErrors::ProductNotFound));
    assert_eq!(add_product(&mut file, camisa()), Ok(4));
    assert_eq!(search_product_id(&file, 4).unwrap().1, 204);
}

#[test]
fn single_record_lookup() {
    let mut file = ProductFile::new();
    add_product(&mut file, camisa()).unwrap();
    assert_eq!(search_product_id(&file, 1).unwrap().1, 0);
    assert!(search_product_id(&file, 2).is_err());
    assert!(search_product_id(&ProductFile::new(), 1).is_err());
}

#[test]
fn delete_keeps_the_rest_sorted_and_the_counter() {
    let mut file = set_products();
    remove_product(&mut file, 2).unwrap();
    let ids: Vec<u64> = list_products(&file).iter().map(|p| p.id).collect();
    assert_eq!(ids, vec![1, 3]);
    assert_eq!(file.as_bytes().len(), 2 * 102 + 8);
    assert_eq!(remove_product(&mut file, 2), Err(CustomErrors::ProductNotFound));
    remove_product(&mut file, 1).unwrap();
    remove_product(&mut file, 3).unwrap();
    assert_eq!(file.as_bytes().len(), 8);
    assert_eq!(add_product(&mut file, camisa()), Ok(4));
}

#[test]
fn update_keeps_id_and_other_records() {
    let mut file = set_products();
    let before = file.as_bytes().clone();
    let mut p = camisa();
    p.id = 77;
    update_product(&mut file, 2, p).unwrap();
    let after = file.as_bytes();
    assert_eq!(after.len(), before.len());
    assert_eq!(&after[..102], &before[..102]);
    assert_eq!(&after[204..], &before[204..]);
    let (q, _) = search_product_id(&file, 2).unwrap();
    assert_eq!(q.id, 2);
    assert_eq!(q.nome, "Camisa");
    assert!(search_product_id(&file, 77).is_err());
    assert_eq!(update_product(&mut file, 9, camisa()), Err(CustomErrors::ProductNotFound));
    let long = Produto::new("x".repeat(41), 0, 1, 0, 1, Data::default(), Categoria::Geral);
    assert_eq!(update_product(&mut file, 1, long), Err(CustomErrors::NameTooLong));
}

#[test]
fn malformed_files_are_refused() {
    assert!(ProductFile::from_bytes(vec![1, 2, 3]).is_err());
    let mut bytes = record("B", 2, 1, 1.0, 1, 0);
    bytes.extend(record("A", 1, 1, 1.0, 1, 0));
    bytes.extend(bincode::serialize(&2u64).unwrap());
    assert_eq!(ProductFile::from_bytes(bytes).err(), Some(CustomErrors::MalformedRecord));
    let mut bytes = record("A", 5, 1, 1.0, 1, 0);
    bytes.extend(bincode::serialize(&2u64).unwrap());
    assert_eq!(ProductFile::from_bytes(bytes).err(), Some(CustomErrors::MalformedRecord));
    assert!(ProductFile::from_bytes(Vec::new()).is_ok());
}
