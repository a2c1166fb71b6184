use home_listings::engine::ListingsContainer;
use home_listings::listing::ExtractionError;
use home_listings::listing::{Fragment, HomeListing};
use home_listings::store::{Dataset, FeatureRow, PriceHistory, StoreError};

fn frag(price: &str, address: &str) -> Fragment {
    Fragment {
        price_text: price.to_string(),
        stats: vec!["3 beds".to_string(), "2 baths".to_string(), "1,500 sq ft".to_string()],
        address_text: address.to_string(),
    }
}

fn listing(price: &str, address: &str) -> HomeListing {
    HomeListing::new_from_redfin(&frag(price, address)).unwrap()
}

const A: &str = "123 Main Street, Springfield, IL 62701";
const B: &str = "77 Lakeview Dr, Springfield, IL 62702";
const C: &str = "5 Orchard Lane, Apt 2, Dayton, OH 45402";

#[test]
fn contains_key_is_membership() {
    let mut d = Dataset::new();
    assert!(!d.contains_key(&A.to_string()));
    d.append_features(&vec![listing("$1", A)]).unwrap();
    assert!(d.contains_key(&A.to_string()));
    assert!(!d.contains_key(&B.to_string()));
    assert!(!d.contains_key(&String::new()));
}

#[test]
fn append_features_rows() {
    let mut d = Dataset::new();
    d.append_features(&vec![listing("$350,000", A), listing("$2,000", C)]).unwrap();
    let f = d.features();
    assert_eq!(f.len(), 2);
    assert_eq!(f[0].addr_str, A);
    assert_eq!(f[0].apt, -1);
    assert_eq!(f[0].sqft, 1500);
    assert_eq!(f[1].addr_str, "5 Orchard Lane, 2, Dayton, OH 45402");
    assert_eq!(f[1].apt, 2);
    assert_eq!(f[1].street, "5 Orchard Lane");
    assert_eq!(d.history().len(), 0);
}

#[test]
fn append_features_rejects_known_key() {
    let mut d = Dataset::new();
    d.append_features(&vec![listing("$1", A)]).unwrap();
    match d.append_features(&vec![listing("$2", B), listing("$3", A)]) {
        Err(StoreError::DuplicateKey(k)) => assert_eq!(k, A),
        other => panic!("unexpected {:?}", other),
    }
    assert_eq!(d.features().len(), 1);
    assert_eq!(d.history().len(), 0);
}

#[test]
fn append_features_rejects_repeat_in_batch() {
    let mut d = Dataset::new();
    let r = d.append_features(&vec![listing("$1", B), listing("$2", B)]);
    assert!(matches!(r, Err(StoreError::DuplicateKey(_))));
    assert_eq!(d.features().len(), 0);
    assert_eq!(d.history().len(), 0);
}

#[test]
fn append_history_keeps_same_day_repeats() {
    let mut d = Dataset::new();
    d.append_features(&vec![listing("$1", A)]).unwrap();
    d.append_history(PriceHistory::new(A.to_string(), 9, 5));
    d.append_history(PriceHistory::new(A.to_string(), 9, 5));
    assert_eq!(d.history().len(), 2);
    assert_eq!(d.features().len(), 1);
}

fn tables() -> (Vec<FeatureRow>, Vec<PriceHistory>) {
    let mut d = Dataset::new();
    d.append_features(&vec![listing("$1", A), listing("$2", B)]).unwrap();
    d.append_history(PriceHistory::new(A.to_string(), 1, 5));
    d.append_history(PriceHistory::new(B.to_string(), 2, 5));
    d.append_history(PriceHistory::new(B.to_string(), 3, 6));
    (d.features().clone(), d.history().clone())
}

#[test]
fn reload_reproduces_tables() {
    let (f, h) = tables();
    let d = Dataset::load(false, Some((f.clone(), h.clone())));
    assert_eq!(d.features().len(), 2);
    assert_eq!(d.history().len(), 3);
    for (x, y) in d.features().iter().zip(f.iter()) {
        assert_eq!(x.addr_str, y.addr_str);
        assert_eq!(x.beds, y.beds);
        assert_eq!(x.zip, y.zip);
    }
    for (x, y) in d.history().iter().zip(h.iter()) {
        assert_eq!(x.addr_str, y.addr_str);
        assert_eq!(x.date, y.date);
        assert_eq!(x.price, y.price);
    }
}

#[test]
fn force_refresh_ignores_loaded() {
    let (f, h) = tables();
    let d = Dataset::load(true, Some((f, h)));
    assert_eq!(d.features().len(), 0);
    assert_eq!(d.history().len(), 0);
    let mut c = ListingsContainer::new(true, false);
    c.initialize_datasets(Some(tables()));
    assert_eq!(c.dataset().features().len(), 0);
    assert_eq!(c.dataset().history().len(), 0);
}

#[test]
fn load_without_files() {
    let d = Dataset::load(false, None);
    assert_eq!(d.features().len(), 0);
    assert_eq!(d.history().len(), 0);
}

#[test]
fn load_drops_only_inconsistent_rows() {
    let (f, h) = tables();
    let mut dup = f.clone();
    dup.push(f[0].clone());
    let d = Dataset::load(false, Some((dup, h.clone())));
    assert_eq!(d.features().len(), 2);
    assert_eq!(d.history().len(), 3);
    let mut orphaned = h.clone();
    orphaned.insert(1, PriceHistory::new("nowhere".to_string(), 1, 1));
    let d = Dataset::load(false, Some((f, orphaned)));
    assert_eq!(d.features().len(), 2);
    assert_eq!(d.history().len(), 3);
    assert!(d.history().iter().all(|r| r.addr_str != "nowhere"));
}

#[test]
fn same_card_in_two_runs() {
    let mut c = ListingsContainer::new(false, false);
    c.ingest_page(&vec![frag("$350,000", A)], 100);
    let (f, h) = (c.dataset().features().clone(), c.dataset().history().clone());
    let mut c2 = ListingsContainer::new(false, false);
    c2.initialize_datasets(Some((f, h)));
    c2.ingest_page(&vec![frag("$340,000", A)], 200);
    let rows = c2.dataset().features().iter().filter(|r| r.addr_str == A).count();
    let obs: Vec<&PriceHistory> = c2.dataset().history().iter().filter(|r| r.addr_str == A).collect();
    assert_eq!(rows, 1);
    assert_eq!(obs.len(), 2);
    assert_eq!(obs[0].price, 350000);
    assert_eq!(obs[1].price, 340000);
    assert_eq!(obs[1].date, 200);
}

#[test]
fn page_with_two_new_and_one_known() {
    let mut c = ListingsContainer::new(false, false);
    c.ingest_page(&vec![frag("$100", A)], 1);
    assert_eq!(c.dataset().features().len(), 1);
    assert_eq!(c.dataset().history().len(), 1);
    let page = vec![frag("$200", B), frag("$90", A), frag("$300", C)];
    c.parse_redfin_page(&page, 2);
    assert_eq!(c.queue().len(), 2);
    assert_eq!(c.dataset().history().len(), 2);
    assert_eq!(c.dataset().history()[1].price, 90);
    assert_eq!(c.dataset().features().len(), 1);
    let refused = c.handle_queue(2);
    assert!(refused.is_empty());
    assert_eq!(c.queue().len(), 0);
    assert_eq!(c.dataset().features().len(), 3);
    assert_eq!(c.dataset().history().len(), 4);
}

#[test]
fn force_refresh_queues_known_addresses() {
    let mut c = ListingsContainer::new(true, false);
    c.ingest_page(&vec![frag("$100", A)], 1);
    c.parse_redfin_page(&vec![frag("$90", A)], 2);
    assert_eq!(c.queue().len(), 1);
    let refused = c.handle_queue(2);
    assert_eq!(refused, vec![A.to_string()]);
    assert_eq!(c.dataset().features().len(), 1);
    assert_eq!(c.dataset().history().len(), 2);
    assert_eq!(c.dataset().history()[1].price, 90);
    assert_eq!(c.queue().len(), 0);
}

#[test]
fn bad_cards_skipped() {
    let mut c = ListingsContainer::new(false, false);
    let page = vec![frag("Sold", A), frag("$5", "nowhere"), frag("$7", B)];
    let out = c.ingest_page(&page, 3);
    assert_eq!(c.dataset().features().len(), 1);
    assert_eq!(c.dataset().features()[0].addr_str, B);
    assert_eq!(out.skipped.len(), 2);
    assert!(matches!(&out.skipped[0], ExtractionError::Price(t) if t == "Sold"));
    assert!(matches!(&out.skipped[1], ExtractionError::Address(t) if t == "nowhere"));
    let mut known = ListingsContainer::new(false, false);
    known.ingest_page(&vec![frag("$7", B)], 3);
    let out = known.ingest_page(&vec![frag("call us", B)], 4);
    assert!(matches!(&out.skipped[0], ExtractionError::Price(t) if t == "call us"));
    assert_eq!(known.dataset().history().len(), 1);
}

#[test]
fn repeated_new_address_on_page_kept_once() {
    let mut c = ListingsContainer::new(false, false);
    let out = c.ingest_page(&vec![frag("$1", B), frag("$2", B)], 3);
    assert_eq!(c.dataset().features().len(), 1);
    assert_eq!(c.dataset().history().len(), 2);
    assert_eq!(c.dataset().history()[0].price, 1);
    assert_eq!(c.dataset().history()[1].price, 2);
    assert_eq!(out.not_added, vec![B.to_string()]);
    assert!(out.skipped.is_empty());
}

#[test]
fn enqueue_moves_listings() {
    let mut c = ListingsContainer::new(false, false);
    let mut v = vec![listing("$1", A), listing("$2", B)];
    c.enqueue(&mut v);
    assert!(v.is_empty());
    assert_eq!(c.queue().len(), 2);
    c.handle_queue(9);
    assert_eq!(c.dataset().features().len(), 2);
    assert!(c.house_exists_in_dataset(&B.to_string()));
    c.update_existing_redfin(B.to_string(), 4, 10);
    assert_eq!(c.dataset().history().len(), 3);
}

#[test]
fn flush_queue_empties() {
    let mut c = ListingsContainer::default();
    assert!(!c.force_refresh());
    assert!(!c.first_page_only());
    let mut v = vec![listing("$1", A), listing("$2", B)];
    c.enqueue(&mut v);
    let batch = c.flush_queue();
    assert_eq!(batch.len(), 2);
    assert_eq!(batch[0].current_price, 1);
    assert_eq!(batch[1].current_price, 2);
    assert_eq!(c.queue().len(), 0);
    assert_eq!(c.dataset().features().len(), 0);
}
