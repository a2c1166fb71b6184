//! Prices, listing cards, and the extraction of a listing from a card.

use vstd::prelude::*;

use crate::address::{parse_address, parse_address_spec, AddressView, HomeAddress};
use crate::stats::{
    acres_line, acres_spec, acres_to_sqft, classify_stat, lemma_acreage_monotonic, lemma_acres_line,
    lemma_acres_lines_monotonic, pow10, stats_spec, StatToken, Stats,
};
use crate::text::{chars_of, digits_value, is_digits, parse_digits, remove_char, without_char};

verus! {

/// Why a listing fragment could not be turned into a listing; each carries the offending text.
#[derive(Debug, Clone)]
pub enum ExtractionError {
    /// The price text is not a currency symbol followed by a number.
    Price(String),
    /// The address text does not have the expected shape.
    Address(String),
    /// The stats contradict what every listing has (beds and baths given, house area not equal to
    /// lot area); carries the address text of the fragment.
    Invariant(String),
}

/// The mathematical value of an `ExtractionError`.
pub enum ErrorView {
    Price(Seq<char>),
    Address(Seq<char>),
    Invariant(Seq<char>),
}

impl View for ExtractionError {
    type V = ErrorView;

    open spec fn view(&self) -> ErrorView {
        match self {
            ExtractionError::Price(s) => ErrorView::Price(s@),
            ExtractionError::Address(s) => ErrorView::Address(s@),
            ExtractionError::Invariant(s) => ErrorView::Invariant(s@),
        }
    }
}

/// The price that price text denotes: a currency symbol, then digits with optional thousands
/// separators; `None` when the rest is not a number that fits 32 bits.
pub open spec fn price_spec(t: Seq<char>) -> Option<u32> {
    if t.len() == 0 {
        None
    } else {
        let d = remove_char(t.drop_first(), ',');
        if is_digits(d) && digits_value(d) <= u32::MAX {
            Some(digits_value(d) as u32)
        } else {
            None
        }
    }
}

/// Parses listing price text such as `$350,000`.
pub fn parse_price(text: &str) -> (r: Result<u32, ExtractionError>)
    ensures
        match price_spec(text@) {
            Some(p) => r == Ok::<u32, ExtractionError>(p),
            None => r is Err && r->Err_0@ == ErrorView::Price(text@),
        },
{
    let v = chars_of(text);
    let n = v.len();
    if n == 0 {
        return Err(ExtractionError::Price(String::from_str(text)));
    }
    assert(v@.subrange(1, n as int) =~= v@.drop_first());
    let d = without_char(&v, 1, n, ',');
    assert(d@.subrange(0, d@.len() as int) =~= d@);
    match parse_digits(&d, 0, d.len(), 0xffff_ffff) {
        Some(p) => Ok(p as u32),
        None => Err(ExtractionError::Price(String::from_str(text))),
    }
}

/// The text of one listing card, as the page shows it.
#[derive(Debug, Clone)]
pub struct Fragment {
    pub price_text: String,
    /// The stat lines (beds, baths, house area, lot area), in page order.
    pub stats: Vec<String>,
    pub address_text: String,
}

pub struct FragmentView {
    pub price: Seq<char>,
    pub stats: Seq<Seq<char>>,
    pub address: Seq<char>,
}

impl View for Fragment {
    type V = FragmentView;

    open spec fn view(&self) -> FragmentView {
        FragmentView {
            price: self.price_text@,
            stats: self.stats@.map_values(|t: String| t@),
            address: self.address_text@,
        }
    }
}

/// One listing as extracted from a card.
#[derive(Debug, Clone)]
pub struct HomeListing {
    pub current_price: u32,
    /// -1 when the count could not be read.
    pub beds: i32,
    /// -1 when the count could not be read.
    pub baths: i32,
    /// 0 when the card gives no house area (a lot without a house).
    pub sqft: u32,
    /// -1 when the card gives no lot area.
    pub lot_size: i32,
    pub address: HomeAddress,
}

pub struct ListingView {
    pub current_price: u32,
    pub beds: i32,
    pub baths: i32,
    pub sqft: u32,
    pub lot_size: i32,
    pub address: AddressView,
}

impl View for HomeListing {
    type V = ListingView;

    open spec fn view(&self) -> ListingView {
        ListingView {
            current_price: self.current_price,
            beds: self.beds,
            baths: self.baths,
            sqft: self.sqft,
            lot_size: self.lot_size,
            address: self.address@,
        }
    }
}

/// The listing that a card denotes. A bad price fails first, then a bad address; a card whose
/// stats lack beds or baths, or give a house area equal to the lot area, fails as an invariant
/// violation.
pub open spec fn extract_spec(f: FragmentView) -> Result<ListingView, ErrorView> {
    match price_spec(f.price) {
        None => Err(ErrorView::Price(f.price)),
        Some(price) => match parse_address_spec(f.address) {
            None => Err(ErrorView::Address(f.address)),
            Some(address) => {
                let st = stats_spec(f.stats);
                let sqft: u32 = match st.sqft {
                    Some(n) => n,
                    None => 0,
                };
                if st.beds is None || st.baths is None || sqft as int == st.lot_size as int {
                    Err(ErrorView::Invariant(f.address))
                } else {
                    Ok(
                        ListingView {
                            current_price: price,
                            beds: st.beds->Some_0,
                            baths: st.baths->Some_0,
                            sqft,
                            lot_size: st.lot_size,
                            address,
                        },
                    )
                }
            },
        },
    }
}

/// Reads the stat lines of a card in order.
pub fn read_stats(stats: &Vec<String>) -> (r: Stats)
    ensures
        r == stats_spec(stats@.map_values(|t: String| t@)),
{
    let ghost ts = stats@.map_values(|t: String| t@);
    let mut acc = Stats { beds: None, baths: None, sqft: None, lot_size: -1 };
    let mut i: usize = 0;
    assert(ts.subrange(0, 0) =~= Seq::<Seq<char>>::empty());
    while i < stats.len()
        invariant
            i <= stats@.len(),
            ts == stats@.map_values(|t: String| t@),
            acc == stats_spec(ts.subrange(0, i as int)),
        decreases stats@.len() - i,
    {
        let t = classify_stat(stats[i].as_str());
        assert(ts.subrange(0, (i + 1) as int).drop_last() =~= ts.subrange(0, i as int));
        acc = match t {
            StatToken::Beds(n) => Stats { beds: Some(n), ..acc },
            StatToken::Baths(n) => Stats { baths: Some(n), ..acc },
            StatToken::LotArea(n) => Stats { lot_size: n, ..acc },
            StatToken::LotAcres(n) => Stats { lot_size: n, ..acc },
            StatToken::HouseArea(n) => Stats { sqft: Some(n), ..acc },
            StatToken::Unrecognized => acc,
        };
        i = i + 1;
    }
    assert(ts.subrange(0, i as int) =~= ts);
    acc
}

impl HomeListing {
    /// Extracts a listing from the text of one card.
    pub fn new_from_redfin(frag: &Fragment) -> (r: Result<HomeListing, ExtractionError>)
        ensures
            match extract_spec(frag@) {
                Ok(l) => r is Ok && r->Ok_0@ == l,
                Err(e) => r is Err && r->Err_0@ == e,
            },
    {
        let current_price = match parse_price(frag.price_text.as_str()) {
            Ok(p) => p,
            Err(e) => {
                return Err(e);
            },
        };
        let address = match parse_address(frag.address_text.as_str()) {
            Ok(a) => a,
            Err(e) => {
                return Err(e);
            },
        };
        let st = read_stats(&frag.stats);
        let sqft: u32 = match st.sqft {
            Some(n) => n,
            None => 0,
        };
        match (st.beds, st.baths) {
            (Some(beds), Some(baths)) => {
                if sqft as i64 == st.lot_size as i64 {
                    Err(ExtractionError::Invariant(frag.address_text.clone()))
                } else {
                    Ok(HomeListing { current_price, beds, baths, sqft, lot_size: st.lot_size, address })
                }
            },
            _ => Err(ExtractionError::Invariant(frag.address_text.clone())),
        }
    }
}

/// Two cards that differ only in a last stat line giving the lot in acres: the one with more
/// acres has at least as large a lot, each the rounded area of its figure.
pub proof fn lemma_card_lot_monotonic(
    price: Seq<char>,
    address: Seq<char>,
    stats: Seq<Seq<char>>,
    w1: Seq<char>,
    w2: Seq<char>,
)
    requires
        acres_spec(w1) is Some,
        acres_spec(w2) is Some,
        acres_spec(w1)->Some_0.0 * pow10(acres_spec(w2)->Some_0.1) <= acres_spec(w2)->Some_0.0 * pow10(
            acres_spec(w1)->Some_0.1,
        ),
        acres_to_sqft(acres_spec(w2)->Some_0.0, acres_spec(w2)->Some_0.1) <= i32::MAX,
        extract_spec(FragmentView { price, stats: stats.push(acres_line(w1)), address }) is Ok,
        extract_spec(FragmentView { price, stats: stats.push(acres_line(w2)), address }) is Ok,
    ensures
        ({
            let l1 = extract_spec(FragmentView { price, stats: stats.push(acres_line(w1)), address })->Ok_0;
            let l2 = extract_spec(FragmentView { price, stats: stats.push(acres_line(w2)), address })->Ok_0;
            &&& l1.lot_size <= l2.lot_size
            &&& l1.lot_size == acres_to_sqft(acres_spec(w1)->Some_0.0, acres_spec(w1)->Some_0.1)
            &&& l2.lot_size == acres_to_sqft(acres_spec(w2)->Some_0.0, acres_spec(w2)->Some_0.1)
        }),
{
    lemma_acres_lines_monotonic(w1, w2);
    lemma_acres_line(w2);
    let (n1, s1) = acres_spec(w1)->Some_0;
    let (n2, s2) = acres_spec(w2)->Some_0;
    lemma_acreage_monotonic(n1, s1, n2, s2);
    lemma_acres_line(w1);
    assert(stats.push(acres_line(w1)).drop_last() =~= stats);
    assert(stats.push(acres_line(w2)).drop_last() =~= stats);
}

} // verus!
