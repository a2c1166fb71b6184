use home_listings::page::{
    fragment_from_card, get_redfin_page_count, next_page, page_count_from_text, page_fragments,
    url_builder,
};

fn card(price: &str, address: &str) -> String {
    format!(
        "<div class=\"stats\">3 beds</div><div class=\"stats\">2 baths</div>\
         <span class=\"homecardV2Price\">{}</span>\
         <span class=\"collapsedAddress primaryLine\">{}</span>",
        price, address
    )
}

#[test]
fn card_fields_found() {
    let f = fragment_from_card(&card("$350,000", "123 Main St, Springfield, IL 62701")).unwrap();
    assert_eq!(f.price_text, "$350,000");
    assert_eq!(f.stats, vec!["3 beds".to_string(), "2 baths".to_string()]);
    assert_eq!(f.address_text, "123 Main St, Springfield, IL 62701");
    assert!(fragment_from_card("<div class=\"stats\">3 beds</div>").is_none());
}

#[test]
fn page_cards_in_order() {
    let page = format!(
        "<html><body>\
         <div class=\"HomeCardContainer defaultSplitMapListView\">{}</div>\
         <div class=\"HomeCardContainer selectedHomeCard defaultSplitMapListView\">{}</div>\
         <div class=\"HomeCardContainer defaultSplitMapListView\">{}</div>\
         <span class=\"pageText\">Viewing page 1 of 17</span>\
         </body></html>",
        card("$1", "1 First Street, Hull, TX 77564"),
        card("$2", "2 Second Street, Hull, TX 77564"),
        card("$3", "3 Third Street, Hull, TX 77564"),
    );
    let f = page_fragments(&page);
    assert_eq!(f.len(), 3);
    assert_eq!(f[0].price_text, "$2");
    assert_eq!(f[1].price_text, "$1");
    assert_eq!(f[2].price_text, "$3");
    assert_eq!(get_redfin_page_count(&page), Some(17));
    assert_eq!(get_redfin_page_count("<p>none</p>"), None);
}

#[test]
fn page_count_text() {
    assert_eq!(page_count_from_text("Viewing page 1 of 5"), Some(5));
    assert_eq!(page_count_from_text("Viewing page 1 of 12"), Some(12));
    assert_eq!(page_count_from_text("255"), Some(255));
    assert_eq!(page_count_from_text("of 256"), None);
    assert_eq!(page_count_from_text("Viewing page 1 of"), None);
    assert_eq!(page_count_from_text(""), None);
}

#[test]
fn urls() {
    assert_eq!(url_builder(77532, None), "https://www.redfin.com/zipcode/77532");
    assert_eq!(url_builder(77532, Some(3)), "https://www.redfin.com/zipcode/77532/page-3");
    assert_eq!(url_builder(0, Some(10)), "https://www.redfin.com/zipcode/0/page-10");
}

#[test]
fn crawl_pages() {
    assert_eq!(next_page(1, 3, false), Some(2));
    assert_eq!(next_page(3, 3, false), None);
    assert_eq!(next_page(1, 3, true), None);
}
