//! Results pages: finding the cards in their HTML, the page count, and page addresses.

use vstd::prelude::*;

use crate::engine::{
    error_views, fragment_views, ingest_spec, page_errors, page_listings, refused_keys,
    ListingsContainer, PageOutcome,
};
use crate::listing::{Fragment, FragmentView};
use crate::text::{
    chars_of, decimal, digits_value, is_digit, is_digit_char, is_digits, parse_digits,
    push_decimal, string_from_chars, string_views,
};

verus! {

/// The inner HTML of each element of `document` that `selector` matches, in the order in which
/// the parser created the elements (nothing when the selector does not parse).
pub uninterp spec fn selected_inner_html(document: Seq<char>, selector: Seq<char>) -> Seq<Seq<char>>;

/// Relies on scraper's `Selector::parse`, `Html::parse_document`, `Html::select` and
/// `ElementRef::inner_html`. With scraper's `deterministic` feature, attributes keep their source
/// order when serialised, so the result depends on the two texts alone.
#[verifier::external_body]
fn select_inner_html(document: &str, selector: &str) -> (r: Vec<String>)
    ensures
        r@.map_values(|s: String| s@) == selected_inner_html(document@, selector@),
{
    match scraper::Selector::parse(selector) {
        Ok(sel) => scraper::Html::parse_document(document).select(&sel).map(|e| e.inner_html()).collect(),
        Err(_) => Vec::new(),
    }
}

pub open spec fn price_selector() -> Seq<char> {
    "span[class=\"homecardV2Price\"]"@
}

pub open spec fn stats_selector() -> Seq<char> {
    "div[class=\"stats\"]"@
}

pub open spec fn address_selector() -> Seq<char> {
    "span[class=\"collapsedAddress primaryLine\"]"@
}

pub open spec fn focused_card_selector() -> Seq<char> {
    "div[class=\"HomeCardContainer selectedHomeCard defaultSplitMapListView\"]"@
}

pub open spec fn card_selector() -> Seq<char> {
    "div[class=\"HomeCardContainer defaultSplitMapListView\"]"@
}

pub open spec fn page_count_selector() -> Seq<char> {
    "span[class=\"pageText\"]"@
}

/// The texts of a card, given the price, stats and address elements found in it: the first
/// price and the first address are used; `None` when either is missing.
pub open spec fn card_spec(
    prices: Seq<Seq<char>>,
    stats: Seq<Seq<char>>,
    addresses: Seq<Seq<char>>,
) -> Option<FragmentView> {
    if prices.len() == 0 || addresses.len() == 0 {
        None
    } else {
        Some(FragmentView { price: prices[0], stats, address: addresses[0] })
    }
}

pub open spec fn card_fragment(card: Seq<char>) -> Option<FragmentView> {
    card_spec(
        selected_inner_html(card, price_selector()),
        selected_inner_html(card, stats_selector()),
        selected_inner_html(card, address_selector()),
    )
}

/// The cards of a page that have a price and an address, the selected card first.
pub open spec fn page_fragments_spec(cards: Seq<Seq<char>>) -> Seq<FragmentView>
    decreases cards.len(),
{
    if cards.len() == 0 {
        Seq::empty()
    } else {
        let init = page_fragments_spec(cards.drop_last());
        match card_fragment(cards.last()) {
            Some(f) => init.push(f),
            None => init,
        }
    }
}

pub open spec fn page_cards(page: Seq<char>) -> Seq<Seq<char>> {
    selected_inner_html(page, focused_card_selector()) + selected_inner_html(page, card_selector())
}


/// Assembles a card from the price, stats and address elements found in it.
pub fn card_from_parts(prices: Vec<String>, stats: Vec<String>, addresses: Vec<String>) -> (r:
    Option<Fragment>)
    ensures
        match card_spec(string_views(prices@), string_views(stats@), string_views(addresses@)) {
            Some(f) => r is Some && r->Some_0@ == f,
            None => r is None,
        },
{
    if prices.len() == 0 || addresses.len() == 0 {
        return None;
    }
    let price_text = prices[0].clone();
    let address_text = addresses[0].clone();
    let r = Fragment { price_text, stats, address_text };
    assert(r@.stats == string_views(stats@));
    Some(r)
}

/// The texts of one listing card, from its HTML.
pub fn fragment_from_card(card_html: &str) -> (r: Option<Fragment>)
    ensures
        match card_fragment(card_html@) {
            Some(f) => r is Some && r->Some_0@ == f,
            None => r is None,
        },
{
    let prices = select_inner_html(card_html, "span[class=\"homecardV2Price\"]");
    let stats = select_inner_html(card_html, "div[class=\"stats\"]");
    let addresses = select_inner_html(card_html, "span[class=\"collapsedAddress primaryLine\"]");
    card_from_parts(prices, stats, addresses)
}

/// The listing cards of a results page, from its HTML.
pub fn page_fragments(page_html: &str) -> (r: Vec<Fragment>)
    ensures
        fragment_views(r@) == page_fragments_spec(page_cards(page_html@)),
{
    let mut cards = select_inner_html(
        page_html,
        "div[class=\"HomeCardContainer selectedHomeCard defaultSplitMapListView\"]",
    );
    let mut rest = select_inner_html(page_html, "div[class=\"HomeCardContainer defaultSplitMapListView\"]");
    let ghost cv = string_views(cards@);
    let ghost rv = string_views(rest@);
    cards.append(&mut rest);
    let ghost all = string_views(cards@);
    assert(all =~= cv + rv);
    assert(all == page_cards(page_html@));
    let mut r: Vec<Fragment> = Vec::new();
    let mut i: usize = 0;
    assert(all.subrange(0, 0) =~= Seq::<Seq<char>>::empty());
    assert(fragment_views(r@) =~= Seq::<FragmentView>::empty());
    while i < cards.len()
        invariant
            i <= cards@.len(),
            all == string_views(cards@),
            fragment_views(r@) == page_fragments_spec(all.subrange(0, i as int)),
        decreases cards@.len() - i,
    {
        let ghost pre = all.subrange(0, (i + 1) as int);
        assert(pre.drop_last() =~= all.subrange(0, i as int));
        assert(pre.last() == cards@[i as int]@);
        match fragment_from_card(cards[i].as_str()) {
            Some(f) => {
                let ghost fv = f@;
                let ghost old_r = r@;
                r.push(f);
                assert(fragment_views(r@) =~= fragment_views(old_r).push(fv));
            },
            None => {},
        }
        i = i + 1;
    }
    assert(all.subrange(0, i as int) =~= all);
    r
}

/// The run of digits that `t` ends with (empty when it ends otherwise).
pub open spec fn trailing_digits(t: Seq<char>) -> Seq<char>
    decreases t.len(),
{
    if t.len() > 0 && is_digit(t.last()) {
        trailing_digits(t.drop_last()).push(t.last())
    } else {
        Seq::empty()
    }
}

/// The number of result pages that a page-count text such as `Viewing page 1 of 12` gives: the
/// number it ends with, when there is one and it is at most 255.
pub open spec fn page_count_spec(text: Seq<char>) -> Option<u8> {
    let d = trailing_digits(text);
    if d.len() > 0 && digits_value(d) <= 255 {
        Some(digits_value(d) as u8)
    } else {
        None
    }
}

/// Reads the page count from the page-count text.
pub fn page_count_from_text(text: &str) -> (r: Option<u8>)
    ensures
        r == page_count_spec(text@),
{
    let v = chars_of(text);
    let n = v.len();
    let mut start: usize = n;
    assert(v@.subrange(0, n as int) =~= v@);
    assert(v@.subrange(n as int, n as int) =~= Seq::<char>::empty());
    while start > 0 && is_digit_char(v[start - 1])
        invariant
            start <= n,
            n == v@.len(),
            trailing_digits(v@) == trailing_digits(v@.subrange(0, start as int)) + v@.subrange(
                start as int,
                n as int,
            ),
            forall|t: int| start <= t < n ==> is_digit(#[trigger] v@[t]),
        decreases start,
    {
        let ghost pre = v@.subrange(0, start as int);
        assert(pre.drop_last() =~= v@.subrange(0, start - 1));
        assert(pre.last() == v@[start - 1]);
        assert(trailing_digits(pre) == trailing_digits(pre.drop_last()).push(pre.last()));
        assert(trailing_digits(pre.drop_last()).push(pre.last()) + v@.subrange(start as int, n as int)
            =~= trailing_digits(pre.drop_last()) + v@.subrange(start - 1, n as int));
        start = start - 1;
    }
    assert(trailing_digits(v@.subrange(0, start as int)) =~= Seq::<char>::empty()) by {
        if start > 0 {
            assert(v@.subrange(0, start as int).last() == v@[start - 1]);
        }
    }
    assert(trailing_digits(v@) =~= v@.subrange(start as int, n as int));
    let ghost d = v@.subrange(start as int, n as int);
    assert(d.len() > 0 ==> is_digits(d)) by {
        assert forall|t: int| 0 <= t < d.len() implies is_digit(#[trigger] d[t]) by {
            assert(d[t] == v@[start + t]);
        }
    }
    match parse_digits(&v, start, n, 255) {
        Some(x) => Some(x as u8),
        None => None,
    }
}

/// The page count that a results page shows; `None` when it shows none.
pub fn get_redfin_page_count(page_html: &str) -> (r: Option<u8>)
    ensures
        ({
            let found = selected_inner_html(page_html@, page_count_selector());
            r == if found.len() > 0 { page_count_spec(found[0]) } else { None }
        }),
{
    let found = select_inner_html(page_html, "span[class=\"pageText\"]");
    if found.len() == 0 {
        return None;
    }
    page_count_from_text(found[0].as_str())
}

pub open spec fn zip_search_prefix() -> Seq<char> {
    "https://www.redfin.com/zipcode/"@
}

pub open spec fn page_suffix() -> Seq<char> {
    "/page-"@
}

/// The address of the results page for a postal code, with the page number after the first.
pub open spec fn url_spec(zip: u32, page_num: Option<u8>) -> Seq<char> {
    let base = zip_search_prefix() + decimal(zip as nat);
    match page_num {
        None => base,
        Some(n) => base + page_suffix() + decimal(n as nat),
    }
}

/// Builds the address of a results page for a postal code.
pub fn url_builder(zip: u32, page_num: Option<u8>) -> (r: String)
    ensures
        r@ == url_spec(zip, page_num),
{
    let mut out = chars_of("https://www.redfin.com/zipcode/");
    push_decimal(&mut out, zip as u64);
    match page_num {
        None => {},
        Some(n) => {
            let suffix = chars_of("/page-");
            let mut i: usize = 0;
            let ghost start = out@;
            while i < suffix.len()
                invariant
                    i <= suffix@.len(),
                    suffix@ == page_suffix(),
                    out@ == start + suffix@.subrange(0, i as int),
                decreases suffix@.len() - i,
            {
                out.push(suffix[i]);
                i = i + 1;
                assert(out@ =~= start + suffix@.subrange(0, i as int));
            }
            assert(suffix@.subrange(0, i as int) =~= suffix@);
            push_decimal(&mut out, n as u64);
        },
    }
    string_from_chars(&out)
}

/// The page to fetch after `current`, or `None` when the crawl is over.
pub fn next_page(current: u8, page_count: u8, first_page_only: bool) -> (r: Option<u8>)
    ensures
        r == if first_page_only || current >= page_count {
            None::<u8>
        } else {
            Some((current + 1) as u8)
        },
{
    if first_page_only || current >= page_count {
        None
    } else {
        Some(current + 1)
    }
}

impl ListingsContainer {
    /// Ingests one results page from its HTML, and reports the cards it skipped and the queued
    /// listings that added no features row.
    pub fn ingest_page_html(&mut self, page_html: &str, now: u32) -> (r: PageOutcome)
        requires
            old(self).wf(),
        ensures
            final(self).wf(),
            final(self).queue_view().len() == 0,
            final(self).data() == ingest_spec(
                old(self).data(),
                old(self).queue_view(),
                old(self).force_refresh_spec(),
                page_fragments_spec(page_cards(page_html@)),
                now,
            ),
            error_views(r.skipped@) == page_errors(
                old(self).data().features,
                old(self).force_refresh_spec(),
                page_fragments_spec(page_cards(page_html@)),
            ),
            string_views(r.not_added@) == refused_keys(
                old(self).data().features,
                old(self).queue_view() + page_listings(
                    old(self).data().features,
                    old(self).force_refresh_spec(),
                    page_fragments_spec(page_cards(page_html@)),
                ),
            ),
            final(self).force_refresh_spec() == old(self).force_refresh_spec(),
            final(self).first_page_only_spec() == old(self).first_page_only_spec(),
    {
        let frags = page_fragments(page_html);
        self.ingest_page(&frags, now)
    }
}

} // verus!
