//! Routing the cards of a page into the dataset, through the queue of new listings.

use vstd::prelude::*;

use crate::address::{address_key, parse_address, parse_address_spec};
use crate::listing::{
    extract_spec, parse_price, price_spec, ErrorView, ExtractionError, Fragment, FragmentView,
    HomeListing, ListingView,
};
use crate::text::string_views;
use crate::store::{
    batch_conflicts, conflicts_at, feature_row, first_observation, has_key, listing_views,
    load_spec, loaded_views, Dataset, DatasetView, FeatureRow, FeatureRowView, HistoryView,
    string_in, history_views, PriceHistory,
};

verus! {

/// The key of a card whose address is already in the features table, when deduplication is on.
pub open spec fn known_key(fs: Seq<FeatureRowView>, force_refresh: bool, f: FragmentView) -> Option<
    Seq<char>,
> {
    if force_refresh {
        None
    } else {
        match parse_address_spec(f.address) {
            Some(a) => if has_key(fs, address_key(a)) {
                Some(address_key(a))
            } else {
                None
            },
            None => None,
        }
    }
}

/// The price observation that a card of a known address adds, if its price reads.
pub open spec fn routed_observation(
    fs: Seq<FeatureRowView>,
    force_refresh: bool,
    f: FragmentView,
    now: u32,
) -> Option<HistoryView> {
    match known_key(fs, force_refresh, f) {
        Some(k) => match price_spec(f.price) {
            Some(p) => Some(HistoryView { addr_str: k, date: now, price: p }),
            None => None,
        },
        None => None,
    }
}

/// The listing that a card of an unknown address queues, if it extracts.
pub open spec fn routed_listing(fs: Seq<FeatureRowView>, force_refresh: bool, f: FragmentView) -> Option<
    ListingView,
> {
    match known_key(fs, force_refresh, f) {
        Some(_) => None,
        None => match extract_spec(f) {
            Ok(l) => Some(l),
            Err(_) => None,
        },
    }
}

/// Why a card is skipped: a known address whose price does not read, or an unknown address whose
/// card does not extract.
pub open spec fn routed_error(fs: Seq<FeatureRowView>, force_refresh: bool, f: FragmentView) -> Option<
    ErrorView,
> {
    match known_key(fs, force_refresh, f) {
        Some(_) => match price_spec(f.price) {
            Some(_) => None,
            None => Some(ErrorView::Price(f.price)),
        },
        None => match extract_spec(f) {
            Ok(_) => None,
            Err(e) => Some(e),
        },
    }
}

/// Why the skipped cards of a page were skipped, in page order.
pub open spec fn page_errors(fs: Seq<FeatureRowView>, force_refresh: bool, frags: Seq<FragmentView>) -> Seq<
    ErrorView,
>
    decreases frags.len(),
{
    if frags.len() == 0 {
        Seq::empty()
    } else {
        let init = page_errors(fs, force_refresh, frags.drop_last());
        match routed_error(fs, force_refresh, frags.last()) {
            Some(e) => init.push(e),
            None => init,
        }
    }
}

pub open spec fn error_views(v: Seq<ExtractionError>) -> Seq<ErrorView> {
    v.map_values(|e: ExtractionError| e@)
}

/// The observations that the cards of a page add, in page order.
pub open spec fn page_observations(
    fs: Seq<FeatureRowView>,
    force_refresh: bool,
    frags: Seq<FragmentView>,
    now: u32,
) -> Seq<HistoryView>
    decreases frags.len(),
{
    if frags.len() == 0 {
        Seq::empty()
    } else {
        let init = page_observations(fs, force_refresh, frags.drop_last(), now);
        match routed_observation(fs, force_refresh, frags.last(), now) {
            Some(o) => init.push(o),
            None => init,
        }
    }
}

/// The listings that the cards of a page queue, in page order.
pub open spec fn page_listings(
    fs: Seq<FeatureRowView>,
    force_refresh: bool,
    frags: Seq<FragmentView>,
) -> Seq<ListingView>
    decreases frags.len(),
{
    if frags.len() == 0 {
        Seq::empty()
    } else {
        let init = page_listings(fs, force_refresh, frags.drop_last());
        match routed_listing(fs, force_refresh, frags.last()) {
            Some(l) => init.push(l),
            None => init,
        }
    }
}

/// The listings of a batch that may become feature rows: those whose key is not in the features
/// table, each key kept at its first listing.
pub open spec fn new_listings(fs: Seq<FeatureRowView>, ls: Seq<ListingView>) -> Seq<ListingView>
    decreases ls.len(),
{
    if ls.len() == 0 {
        Seq::empty()
    } else {
        let d = new_listings(fs, ls.drop_last());
        let k = address_key(ls.last().address);
        if has_key(fs, k) || exists|j: int| 0 <= j < d.len() && address_key((#[trigger] d[j]).address) == k {
            d
        } else {
            d.push(ls.last())
        }
    }
}

/// No listing kept by `new_listings` conflicts with the table or with another kept listing.
pub proof fn lemma_new_listings_conflict_free(fs: Seq<FeatureRowView>, ls: Seq<ListingView>)
    ensures
        !batch_conflicts(fs, new_listings(fs, ls)),
    decreases ls.len(),
{
    if ls.len() > 0 {
        let d = new_listings(fs, ls.drop_last());
        lemma_new_listings_conflict_free(fs, ls.drop_last());
        let n = new_listings(fs, ls);
        if n != d {
            assert forall|i: int| 0 <= i < n.len() implies !(#[trigger] conflicts_at(fs, n, i)) by {
                if i < d.len() {
                    assert(!conflicts_at(fs, d, i));
                    assert(n[i] == d[i]);
                    assert forall|j: int| 0 <= j < i implies address_key((#[trigger] n[j]).address) != address_key(n[i].address) by {
                        assert(n[j] == d[j]);
                    }
                } else {
                    assert forall|j: int| 0 <= j < i implies address_key((#[trigger] n[j]).address) != address_key(n[i].address) by {
                        assert(n[j] == d[j]);
                    }
                }
            }
        }
    }
}

/// The keys of the queued listings that `new_listings` leaves out, in queue order.
pub open spec fn refused_keys(fs: Seq<FeatureRowView>, ls: Seq<ListingView>) -> Seq<Seq<char>>
    decreases ls.len(),
{
    if ls.len() == 0 {
        Seq::empty()
    } else {
        let d = new_listings(fs, ls.drop_last());
        let k = address_key(ls.last().address);
        if has_key(fs, k) || exists|j: int| 0 <= j < d.len() && address_key((#[trigger] d[j]).address) == k {
            refused_keys(fs, ls.drop_last()).push(k)
        } else {
            refused_keys(fs, ls.drop_last())
        }
    }
}

/// One price observation at `now` for every queued listing, in queue order.
pub open spec fn queue_observations(ls: Seq<ListingView>, now: u32) -> Seq<HistoryView> {
    ls.map_values(|l: ListingView| first_observation(l, now))
}

/// After the kept listings are added as rows, every queued listing's key has a row.
pub proof fn lemma_new_listings_cover(fs: Seq<FeatureRowView>, ls: Seq<ListingView>)
    ensures
        forall|i: int|
            0 <= i < ls.len() ==> has_key(
                fs + new_listings(fs, ls).map_values(|l: ListingView| feature_row(l)),
                address_key((#[trigger] ls[i]).address),
            ),
    decreases ls.len(),
{
    if ls.len() > 0 {
        let init = ls.drop_last();
        lemma_new_listings_cover(fs, init);
        let d = new_listings(fs, init);
        let n = new_listings(fs, ls);
        let dd = fs + d.map_values(|l: ListingView| feature_row(l));
        let nn = fs + n.map_values(|l: ListingView| feature_row(l));
        assert forall|w: int| 0 <= w < dd.len() implies nn[w] == dd[w] by {
            if w >= fs.len() {
                assert(n[w - fs.len()] == d[w - fs.len()]);
            }
        }
        assert forall|i: int| 0 <= i < ls.len() implies has_key(nn, address_key((#[trigger] ls[i]).address)) by {
            let k = address_key(ls[i].address);
            if i < init.len() {
                assert(ls[i] == init[i]);
                assert(has_key(dd, address_key(init[i].address)));
                let w = choose|w: int| 0 <= w < dd.len() && (#[trigger] dd[w]).addr_str == k;
                assert(nn[w] == dd[w]);
            } else {
                assert(ls[i] == ls.last());
                if has_key(fs, k) {
                    let w = choose|w: int| 0 <= w < fs.len() && (#[trigger] fs[w]).addr_str == k;
                    assert(nn[w] == fs[w]);
                } else if exists|j: int| 0 <= j < d.len() && address_key((#[trigger] d[j]).address) == k {
                    let j = choose|j: int| 0 <= j < d.len() && address_key((#[trigger] d[j]).address) == k;
                    assert(nn[fs.len() + j] == feature_row(d[j]));
                } else {
                    assert(n == d.push(ls.last()));
                    assert(nn[(fs.len() + d.len()) as int] == feature_row(ls.last()));
                }
            }
        }
    }
}

/// What ingesting a page reports: why each skipped card was skipped, and the keys of queued
/// listings that added no features row because the table, or an earlier listing, had the key.
pub struct PageOutcome {
    pub skipped: Vec<ExtractionError>,
    pub not_added: Vec<String>,
}

/// The dataset after one page, with `pending` already queued: the new listings become feature
/// rows; the history gains the page's observations of known addresses, then one observation for
/// every queued listing.
pub open spec fn ingest_spec(
    d: DatasetView,
    pending: Seq<ListingView>,
    force_refresh: bool,
    frags: Seq<FragmentView>,
    now: u32,
) -> DatasetView {
    let batch = new_listings(d.features, pending + page_listings(d.features, force_refresh, frags));
    DatasetView {
        features: d.features + batch.map_values(|l: ListingView| feature_row(l)),
        history: d.history + page_observations(d.features, force_refresh, frags, now)
            + queue_observations(pending + page_listings(d.features, force_refresh, frags), now),
    }
}

pub open spec fn fragment_views(frags: Seq<Fragment>) -> Seq<FragmentView> {
    frags.map_values(|f: Fragment| f@)
}

/// The crawl state: the dataset, the listings waiting to become feature rows, and the run's
/// configuration.
pub struct ListingsContainer {
    queue: Vec<HomeListing>,
    dataset: Dataset,
    force_refresh: bool,
    first_page_only: bool,
}

impl Default for ListingsContainer {
    /// A container with empty tables, deduplication on, and every page crawled.
    fn default() -> (r: ListingsContainer)
        ensures
            r.wf(),
            r.queue_view().len() == 0,
            r.data().features.len() == 0,
            r.data().history.len() == 0,
            !r.force_refresh_spec(),
            !r.first_page_only_spec(),
    {
        ListingsContainer::new(false, false)
    }
}

impl ListingsContainer {
    pub closed spec fn queue_view(&self) -> Seq<ListingView> {
        listing_views(self.queue@)
    }

    pub closed spec fn data(&self) -> DatasetView {
        self.dataset@
    }

    pub closed spec fn force_refresh_spec(&self) -> bool {
        self.force_refresh
    }

    pub closed spec fn first_page_only_spec(&self) -> bool {
        self.first_page_only
    }

    pub open spec fn wf(&self) -> bool {
        self.data().wf()
    }

    /// A container with empty tables and an empty queue.
    pub fn new(force_refresh: bool, first_page_only: bool) -> (r: ListingsContainer)
        ensures
            r.wf(),
            r.queue_view().len() == 0,
            r.data().features.len() == 0,
            r.data().history.len() == 0,
            r.force_refresh_spec() == force_refresh,
            r.first_page_only_spec() == first_page_only,
    {
        let r = ListingsContainer {
            queue: Vec::new(),
            dataset: Dataset::new(),
            force_refresh,
            first_page_only,
        };
        assert(r.queue_view() =~= Seq::<ListingView>::empty());
        r
    }

    pub fn force_refresh(&self) -> (r: bool)
        ensures
            r == self.force_refresh_spec(),
    {
        self.force_refresh
    }

    pub fn first_page_only(&self) -> (r: bool)
        ensures
            r == self.first_page_only_spec(),
    {
        self.first_page_only
    }

    pub fn dataset(&self) -> (r: &Dataset)
        ensures
            r@ == self.data(),
    {
        &self.dataset
    }

    pub fn queue(&self) -> (r: &Vec<HomeListing>)
        ensures
            listing_views(r@) == self.queue_view(),
    {
        &self.queue
    }

    /// Replaces the tables with those read from disk, or with empty ones (see `Dataset::load`).
    pub fn initialize_datasets(&mut self, loaded: Option<(Vec<FeatureRow>, Vec<PriceHistory>)>)
        ensures
            final(self).wf(),
            final(self).data() == load_spec(old(self).force_refresh_spec(), loaded_views(loaded)),
            final(self).queue_view() == old(self).queue_view(),
            final(self).force_refresh_spec() == old(self).force_refresh_spec(),
            final(self).first_page_only_spec() == old(self).first_page_only_spec(),
    {
        self.dataset = Dataset::load(self.force_refresh, loaded);
    }

    /// Moves `new_listings` to the end of the queue.
    pub fn enqueue(&mut self, new_listings: &mut Vec<HomeListing>)
        ensures
            final(self).queue_view() == old(self).queue_view() + listing_views(old(new_listings)@),
            final(new_listings)@.len() == 0,
            final(self).data() == old(self).data(),
            final(self).force_refresh_spec() == old(self).force_refresh_spec(),
            final(self).first_page_only_spec() == old(self).first_page_only_spec(),
    {
        self.queue.append(new_listings);
        assert(listing_views(self.queue@) =~= listing_views(old(self).queue@) + listing_views(
            old(new_listings)@,
        ));
    }

    /// Hands out every queued listing, in queue order, and leaves the queue empty.
    pub fn flush_queue(&mut self) -> (r: Vec<HomeListing>)
        ensures
            listing_views(r@) == old(self).queue_view(),
            final(self).queue_view().len() == 0,
            final(self).data() == old(self).data(),
            final(self).force_refresh_spec() == old(self).force_refresh_spec(),
            final(self).first_page_only_spec() == old(self).first_page_only_spec(),
    {
        let mut q: Vec<HomeListing> = Vec::new();
        std::mem::swap(&mut q, &mut self.queue);
        q
    }

    /// Whether the features table has a row with address key `key`.
    pub fn house_exists_in_dataset(&self, key: &String) -> (r: bool)
        ensures
            r == has_key(self.data().features, key@),
    {
        self.dataset.contains_key(key)
    }
}

pub open spec fn opt_seq<T>(o: Option<T>) -> Seq<T> {
    match o {
        Some(x) => seq![x],
        None => Seq::empty(),
    }
}

impl ListingsContainer {
    /// Records a new price observation for an address that has a features row.
    pub fn update_existing_redfin(&mut self, key: String, price: u32, now: u32)
        requires
            old(self).wf(),
            has_key(old(self).data().features, key@),
        ensures
            final(self).wf(),
            final(self).data().features == old(self).data().features,
            final(self).data().history == old(self).data().history.push(
                HistoryView { addr_str: key@, date: now, price },
            ),
            final(self).queue_view() == old(self).queue_view(),
            final(self).force_refresh_spec() == old(self).force_refresh_spec(),
            final(self).first_page_only_spec() == old(self).first_page_only_spec(),
    {
        self.dataset.append_history(PriceHistory::new(key, price, now));
    }

    /// Routes one card: a known address gets a price observation, an unknown one a queued
    /// listing; a card that yields neither is skipped, and the reason is returned.
    pub fn route_fragment(&mut self, frag: &Fragment, now: u32) -> (r: Option<ExtractionError>)
        requires
            old(self).wf(),
        ensures
            final(self).wf(),
            match r {
                Some(e) => routed_error(old(self).data().features, old(self).force_refresh_spec(), frag@)
                    == Some(e@),
                None => routed_error(
                    old(self).data().features,
                    old(self).force_refresh_spec(),
                    frag@,
                ) is None,
            },
            final(self).data().features == old(self).data().features,
            final(self).data().history == old(self).data().history + opt_seq(
                routed_observation(old(self).data().features, old(self).force_refresh_spec(), frag@, now),
            ),
            final(self).queue_view() == old(self).queue_view() + opt_seq(
                routed_listing(old(self).data().features, old(self).force_refresh_spec(), frag@),
            ),
            final(self).force_refresh_spec() == old(self).force_refresh_spec(),
            final(self).first_page_only_spec() == old(self).first_page_only_spec(),
    {
        if !self.force_refresh {
            match parse_address(frag.address_text.as_str()) {
                Ok(a) => {
                    let k = a.to_key();
                    if self.dataset.contains_key(&k) {
                        assert(self.queue_view() =~= old(self).queue_view() + opt_seq(
                            routed_listing(old(self).data().features, false, frag@),
                        ));
                        match parse_price(frag.price_text.as_str()) {
                            Ok(p) => {
                                self.update_existing_redfin(k, p, now);
                                assert(self.data().history =~= old(self).data().history + opt_seq(
                                    routed_observation(old(self).data().features, false, frag@, now),
                                ));
                                return None;
                            },
                            Err(e) => {
                                assert(self.data().history =~= old(self).data().history + opt_seq(
                                    routed_observation(old(self).data().features, false, frag@, now),
                                ));
                                return Some(e);
                            },
                        }
                    }
                },
                Err(_) => {},
            }
        }
        assert(self.data().history =~= old(self).data().history + opt_seq(
            routed_observation(old(self).data().features, self.force_refresh, frag@, now),
        ));
        match HomeListing::new_from_redfin(frag) {
            Ok(l) => {
                self.queue.push(l);
                assert(listing_views(self.queue@) =~= listing_views(old(self).queue@).push(l@));
                assert(self.queue_view() =~= old(self).queue_view() + opt_seq(
                    routed_listing(old(self).data().features, self.force_refresh, frag@),
                ));
                None
            },
            Err(e) => {
                assert(self.queue_view() =~= old(self).queue_view() + opt_seq(
                    routed_listing(old(self).data().features, self.force_refresh, frag@),
                ));
                Some(e)
            },
        }
    }

    /// Routes every card of a page, in order, and returns why each skipped card was skipped.
    pub fn parse_redfin_page(&mut self, frags: &Vec<Fragment>, now: u32) -> (r: Vec<
        ExtractionError,
    >)
        requires
            old(self).wf(),
        ensures
            final(self).wf(),
            final(self).data().features == old(self).data().features,
            final(self).data().history == old(self).data().history + page_observations(
                old(self).data().features,
                old(self).force_refresh_spec(),
                fragment_views(frags@),
                now,
            ),
            final(self).queue_view() == old(self).queue_view() + page_listings(
                old(self).data().features,
                old(self).force_refresh_spec(),
                fragment_views(frags@),
            ),
            error_views(r@) == page_errors(
                old(self).data().features,
                old(self).force_refresh_spec(),
                fragment_views(frags@),
            ),
            final(self).force_refresh_spec() == old(self).force_refresh_spec(),
            final(self).first_page_only_spec() == old(self).first_page_only_spec(),
    {
        let ghost fs = self.data().features;
        let ghost force = self.force_refresh;
        let ghost fv = fragment_views(frags@);
        let mut errors: Vec<ExtractionError> = Vec::new();
        let mut i: usize = 0;
        assert(fv.subrange(0, 0) =~= Seq::<FragmentView>::empty());
        assert(self.data().history =~= old(self).data().history + page_observations(fs, force, fv.subrange(0, 0), now));
        assert(self.queue_view() =~= old(self).queue_view() + page_listings(fs, force, fv.subrange(0, 0)));
        assert(error_views(errors@) =~= page_errors(fs, force, fv.subrange(0, 0)));
        while i < frags.len()
            invariant
                i <= frags@.len(),
                self.wf(),
                fv == fragment_views(frags@),
                fs == old(self).data().features,
                force == old(self).force_refresh_spec(),
                self.data().features == fs,
                self.force_refresh_spec() == force,
                self.first_page_only_spec() == old(self).first_page_only_spec(),
                self.data().history == old(self).data().history + page_observations(
                    fs,
                    force,
                    fv.subrange(0, i as int),
                    now,
                ),
                self.queue_view() == old(self).queue_view() + page_listings(
                    fs,
                    force,
                    fv.subrange(0, i as int),
                ),
                error_views(errors@) == page_errors(fs, force, fv.subrange(0, i as int)),
            decreases frags@.len() - i,
        {
            let ghost pre = fv.subrange(0, (i + 1) as int);
            assert(pre.drop_last() =~= fv.subrange(0, i as int));
            assert(pre.last() == frags@[i as int]@);
            let ghost e0 = errors@;
            match self.route_fragment(&frags[i], now) {
                Some(e) => {
                    errors.push(e);
                    assert(error_views(errors@) =~= error_views(e0).push(e@));
                },
                None => {},
            }
            i = i + 1;
            assert(self.data().history =~= old(self).data().history + page_observations(fs, force, pre, now));
            assert(self.queue_view() =~= old(self).queue_view() + page_listings(fs, force, pre));
        }
        assert(fv.subrange(0, i as int) =~= fv);
        errors
    }

    /// Turns the queued listings into feature rows and empties the queue. Every queued listing
    /// gets a price observation at `now`; a listing whose key is already in the table, or repeats
    /// an earlier queued one, adds no row, and its key is returned.
    pub fn handle_queue(&mut self, now: u32) -> (r: Vec<String>)
        requires
            old(self).wf(),
        ensures
            final(self).wf(),
            final(self).queue_view().len() == 0,
            final(self).data().features == old(self).data().features + new_listings(
                old(self).data().features,
                old(self).queue_view(),
            ).map_values(|l: ListingView| feature_row(l)),
            final(self).data().history == old(self).data().history + queue_observations(
                old(self).queue_view(),
                now,
            ),
            string_views(r@) == refused_keys(old(self).data().features, old(self).queue_view()),
            final(self).force_refresh_spec() == old(self).force_refresh_spec(),
            final(self).first_page_only_spec() == old(self).first_page_only_spec(),
    {
        let ghost fs = self.data().features;
        let ghost oh = self.data().history;
        let ghost orig = self.queue_view();
        let mut q = self.flush_queue();
        let mut batch: Vec<HomeListing> = Vec::new();
        let mut keys: Vec<String> = Vec::new();
        let mut refused: Vec<String> = Vec::new();
        let mut obs: Vec<PriceHistory> = Vec::new();
        let ghost mut i: int = 0;
        assert(orig.subrange(0, 0) =~= Seq::<ListingView>::empty());
        assert(listing_views(q@) =~= orig.subrange(0, orig.len() as int));
        assert(history_views(obs@) =~= queue_observations(orig.subrange(0, 0), now));
        assert(string_views(refused@) =~= refused_keys(fs, orig.subrange(0, 0)));
        while q.len() > 0
            invariant
                0 <= i <= orig.len(),
                self.wf(),
                self.data() == old(self).data(),
                self.force_refresh_spec() == old(self).force_refresh_spec(),
                self.first_page_only_spec() == old(self).first_page_only_spec(),
                self.queue@.len() == 0,
                fs == old(self).data().features,
                oh == old(self).data().history,
                orig == old(self).queue_view(),
                listing_views(q@) == orig.subrange(i, orig.len() as int),
                listing_views(batch@) == new_listings(fs, orig.subrange(0, i)),
                string_views(refused@) == refused_keys(fs, orig.subrange(0, i)),
                history_views(obs@) == queue_observations(orig.subrange(0, i), now),
                keys@.len() == batch@.len(),
                forall|j: int| 0 <= j < keys@.len() ==> (#[trigger] keys@[j])@ == address_key(batch@[j]@.address),
            decreases q@.len(),
        {
            let ghost qv = listing_views(q@);
            assert(qv.len() == q@.len());
            assert(qv[0] == orig[i]);
            let ghost old_q = q@;
            let l = q.remove(0);
            let ghost pre = orig.subrange(0, i + 1);
            assert(pre.drop_last() =~= orig.subrange(0, i));
            assert(l@ == orig[i]);
            assert forall|t: int| 0 <= t < q@.len() implies listing_views(q@)[t] == orig.subrange(
                i + 1,
                orig.len() as int,
            )[t] by {
                assert(q@[t] == old_q[t + 1]);
                assert(qv[t + 1] == orig[i + 1 + t]);
            }
            assert(listing_views(q@) =~= orig.subrange(i + 1, orig.len() as int));
            let ghost d = listing_views(batch@);
            let ghost r0 = refused@;
            let ghost o0 = obs@;
            let k = l.address.to_key();
            let o = PriceHistory::new(k.clone(), l.current_price, now);
            obs.push(o);
            assert(history_views(obs@) =~= history_views(o0).push(first_observation(pre.last(), now)));
            assert(queue_observations(pre, now) =~= queue_observations(orig.subrange(0, i), now).push(
                first_observation(pre.last(), now),
            ));
            let seen = self.dataset.contains_key(&k) || string_in(&keys, &k);
            assert(seen == (has_key(fs, k@) || exists|j: int| 0 <= j < d.len() && address_key((#[trigger] d[j]).address) == k@)) by {
                if exists|j: int| 0 <= j < d.len() && address_key((#[trigger] d[j]).address) == k@ {
                    let j = choose|j: int| 0 <= j < d.len() && address_key((#[trigger] d[j]).address) == k@;
                    assert(keys@[j]@ == k@);
                }
                if exists|j: int| 0 <= j < keys@.len() && (#[trigger] keys@[j])@ == k@ {
                    let j = choose|j: int| 0 <= j < keys@.len() && (#[trigger] keys@[j])@ == k@;
                    assert(address_key(d[j].address) == k@);
                }
            }
            if !seen {
                batch.push(l);
                keys.push(k);
                assert(listing_views(batch@) =~= d.push(pre.last()));
            } else {
                refused.push(k);
                assert(string_views(refused@) =~= string_views(r0).push(k@));
            }
            proof {
                i = i + 1;
            }
        }
        assert(orig.subrange(0, i) =~= orig);
        proof {
            lemma_new_listings_conflict_free(fs, orig);
            lemma_new_listings_cover(fs, orig);
        }
        let _ = self.dataset.append_features(&batch);
        let ghost f1 = self.data().features;
        let ghost hv = queue_observations(orig, now);
        let ghost mut j: int = 0;
        assert(hv.subrange(0, 0) =~= Seq::<HistoryView>::empty());
        assert(self.data().history =~= oh + hv.subrange(0, 0));
        assert(history_views(obs@) =~= hv.subrange(0, hv.len() as int));
        while obs.len() > 0
            invariant
                0 <= j <= hv.len(),
                hv == queue_observations(orig, now),
                hv.len() == orig.len(),
                self.wf(),
                self.data().features == f1,
                f1 == fs + new_listings(fs, orig).map_values(|l: ListingView| feature_row(l)),
                forall|t: int| 0 <= t < orig.len() ==> has_key(f1, address_key((#[trigger] orig[t]).address)),
                self.data().history == oh + hv.subrange(0, j),
                history_views(obs@) == hv.subrange(j, hv.len() as int),
                self.queue@.len() == 0,
                self.force_refresh_spec() == old(self).force_refresh_spec(),
                self.first_page_only_spec() == old(self).first_page_only_spec(),
            decreases obs@.len(),
        {
            let ghost ov = history_views(obs@);
            assert(ov.len() == obs@.len());
            assert(ov[0] == hv[j]);
            let ghost old_obs = obs@;
            let o = obs.remove(0);
            assert(o@ == hv[j]);
            assert(hv[j].addr_str == address_key(orig[j].address));
            self.dataset.append_history(o);
            assert forall|t: int| 0 <= t < obs@.len() implies history_views(obs@)[t] == hv.subrange(
                j + 1,
                hv.len() as int,
            )[t] by {
                assert(obs@[t] == old_obs[t + 1]);
                assert(ov[t + 1] == hv[j + 1 + t]);
            }
            assert(history_views(obs@) =~= hv.subrange(j + 1, hv.len() as int));
            assert(oh + hv.subrange(0, j + 1) =~= (oh + hv.subrange(0, j)).push(hv[j]));
            proof {
                j = j + 1;
            }
        }
        assert(hv.subrange(0, j) =~= hv);
        assert(self.queue_view() =~= Seq::<ListingView>::empty());
        refused
    }

    /// Routes every card of a page, then turns the queued listings into feature rows.
    pub fn ingest_page(&mut self, frags: &Vec<Fragment>, now: u32) -> (r: PageOutcome)
        requires
            old(self).wf(),
        ensures
            final(self).wf(),
            final(self).queue_view().len() == 0,
            final(self).data() == ingest_spec(
                old(self).data(),
                old(self).queue_view(),
                old(self).force_refresh_spec(),
                fragment_views(frags@),
                now,
            ),
            error_views(r.skipped@) == page_errors(
                old(self).data().features,
                old(self).force_refresh_spec(),
                fragment_views(frags@),
            ),
            string_views(r.not_added@) == refused_keys(
                old(self).data().features,
                old(self).queue_view() + page_listings(
                    old(self).data().features,
                    old(self).force_refresh_spec(),
                    fragment_views(frags@),
                ),
            ),
            final(self).force_refresh_spec() == old(self).force_refresh_spec(),
            final(self).first_page_only_spec() == old(self).first_page_only_spec(),
    {
        let skipped = self.parse_redfin_page(frags, now);
        let not_added = self.handle_queue(now);
        let ghost d = old(self).data();
        let ghost fv = fragment_views(frags@);
        let ghost force = old(self).force_refresh_spec();
        assert(self.data().history =~= ingest_spec(d, old(self).queue_view(), force, fv, now).history);
        assert(self.data().features =~= ingest_spec(d, old(self).queue_view(), force, fv, now).features);
        PageOutcome { skipped, not_added }
    }
}

/// The number of features rows with key `k`.
pub open spec fn feature_count(fs: Seq<FeatureRowView>, k: Seq<char>) -> nat
    decreases fs.len(),
{
    if fs.len() == 0 {
        0
    } else {
        feature_count(fs.drop_last(), k) + if fs.last().addr_str == k { 1nat } else { 0nat }
    }
}

/// The number of price observations with key `k`.
pub open spec fn history_count(hs: Seq<HistoryView>, k: Seq<char>) -> nat
    decreases hs.len(),
{
    if hs.len() == 0 {
        0
    } else {
        history_count(hs.drop_last(), k) + if hs.last().addr_str == k { 1nat } else { 0nat }
    }
}

proof fn lemma_feature_count_unique(fs: Seq<FeatureRowView>, k: Seq<char>)
    requires
        forall|i: int, j: int|
            0 <= i < j < fs.len() ==> (#[trigger] fs[i]).addr_str != (#[trigger] fs[j]).addr_str,
    ensures
        feature_count(fs, k) == if has_key(fs, k) { 1nat } else { 0nat },
    decreases fs.len(),
{
    if fs.len() > 0 {
        let init = fs.drop_last();
        assert forall|i: int, j: int| 0 <= i < j < init.len() implies (#[trigger] init[i]).addr_str != (
        #[trigger] init[j]).addr_str by {
            assert(init[i] == fs[i] && init[j] == fs[j]);
        }
        lemma_feature_count_unique(init, k);
        if has_key(init, k) {
            let w = choose|w: int| 0 <= w < init.len() && (#[trigger] init[w]).addr_str == k;
            assert(fs[w] == init[w]);
            assert(fs.last().addr_str != k);
        } else if has_key(fs, k) {
            let w = choose|w: int| 0 <= w < fs.len() && (#[trigger] fs[w]).addr_str == k;
            if w < init.len() {
                assert(init[w] == fs[w]);
            }
        } else {
            assert(fs[fs.len() - 1].addr_str != k);
        }
    }
}

proof fn lemma_history_count_zero(fs: Seq<FeatureRowView>, hs: Seq<HistoryView>, k: Seq<char>)
    requires
        forall|i: int| 0 <= i < hs.len() ==> has_key(fs, (#[trigger] hs[i]).addr_str),
        !has_key(fs, k),
    ensures
        history_count(hs, k) == 0,
    decreases hs.len(),
{
    if hs.len() > 0 {
        let init = hs.drop_last();
        assert forall|i: int| 0 <= i < init.len() implies has_key(fs, (#[trigger] init[i]).addr_str) by {
            assert(init[i] == hs[i]);
        }
        lemma_history_count_zero(fs, init, k);
        assert(has_key(fs, hs[hs.len() - 1].addr_str));
    }
}

/// Ingesting the same card in two runs, without force refresh, leaves exactly one features row
/// for its address and adds exactly two price observations of it.
pub proof fn lemma_ingest_twice(d: DatasetView, f: FragmentView, t1: u32, t2: u32)
    requires
        d.wf(),
        extract_spec(f) is Ok,
    ensures
        ({
            let k = address_key(extract_spec(f)->Ok_0.address);
            let d1 = ingest_spec(d, Seq::empty(), false, seq![f], t1);
            let d2 = ingest_spec(d1, Seq::empty(), false, seq![f], t2);
            &&& feature_count(d2.features, k) == 1
            &&& history_count(d2.history, k) == history_count(d.history, k) + 2
        }),
{
    let l = extract_spec(f)->Ok_0;
    let k = address_key(l.address);
    let fs = d.features;
    let one = seq![f];
    assert(one.drop_last() =~= Seq::<FragmentView>::empty());
    assert(one.last() == f);
    let e = Seq::<ListingView>::empty();
    assert(parse_address_spec(f.address) == Some(l.address));
    assert(price_spec(f.price) == Some(l.current_price));
    let d1 = ingest_spec(d, e, false, one, t1);
    lemma_feature_count_unique(fs, k);
    if has_key(fs, k) {
        assert(known_key(fs, false, f) == Some(k));
        let o = HistoryView { addr_str: k, date: t1, price: l.current_price };
        assert(routed_observation(fs, false, f, t1) == Some(o));
        assert(routed_listing(fs, false, f) is None);
        assert(page_observations(fs, false, one.drop_last(), t1) =~= Seq::<HistoryView>::empty());
        assert(page_listings(fs, false, one.drop_last()) =~= e);
        assert(page_observations(fs, false, one, t1) =~= seq![o]);
        assert(page_listings(fs, false, one) =~= e);
        assert(e + e =~= e);
        assert(new_listings(fs, e) == e);
        assert(d1.features =~= fs);
        assert(d1.history =~= d.history.push(o));
    } else {
        assert(known_key(fs, false, f) is None);
        assert(routed_observation(fs, false, f, t1) is None);
        assert(routed_listing(fs, false, f) == Some(l));
        assert(page_observations(fs, false, one.drop_last(), t1) =~= Seq::<HistoryView>::empty());
        assert(page_listings(fs, false, one.drop_last()) =~= e);
        assert(page_observations(fs, false, one, t1) =~= Seq::<HistoryView>::empty());
        assert(page_listings(fs, false, one) =~= seq![l]);
        assert(e + seq![l] =~= seq![l]);
        let nl = new_listings(fs, seq![l]);
        assert(seq![l].drop_last() =~= e);
        assert(seq![l].last() == l);
        assert(new_listings(fs, e) =~= e);
        assert(nl =~= seq![l]);
        let row = feature_row(l);
        let o = first_observation(l, t1);
        assert(d1.features =~= fs.push(row));
        assert(d1.history =~= d.history.push(o));
        assert(d1.features[fs.len() as int].addr_str == k);
        lemma_history_count_zero(fs, d.history, k);
    }
    assert(d1.features.drop_last() =~= fs || d1.features =~= fs);
    // the second run finds the key
    let f1 = d1.features;
    assert(has_key(f1, k)) by {
        if has_key(fs, k) {
            let w = choose|w: int| 0 <= w < fs.len() && (#[trigger] fs[w]).addr_str == k;
            assert(f1[w] == fs[w]);
        } else {
            assert(f1[fs.len() as int].addr_str == k);
        }
    }
    assert(known_key(f1, false, f) == Some(k));
    let o2 = HistoryView { addr_str: k, date: t2, price: l.current_price };
    assert(routed_observation(f1, false, f, t2) == Some(o2));
    assert(routed_listing(f1, false, f) is None);
    assert(page_observations(f1, false, one.drop_last(), t2) =~= Seq::<HistoryView>::empty());
    assert(page_listings(f1, false, one.drop_last()) =~= e);
    assert(page_observations(f1, false, one, t2) =~= seq![o2]);
    assert(page_listings(f1, false, one) =~= e);
    assert(e + e =~= e);
    assert(new_listings(f1, e) == e);
    let d2 = ingest_spec(d1, e, false, one, t2);
    assert(d2.features =~= f1);
    assert(d2.history =~= d1.history.push(o2));
    assert(d2.history.drop_last() =~= d1.history);
    assert(d2.history.last().addr_str == k);
    assert(d1.history.drop_last() =~= d.history);
    assert(d1.history.last().addr_str == k);
    assert(history_count(d2.history, k) == history_count(d1.history, k) + 1);
    assert(history_count(d1.history, k) == history_count(d.history, k) + 1);
    if !has_key(fs, k) {
        assert(f1.drop_last() =~= fs);
        assert(f1.last().addr_str == k);
        assert(feature_count(f1, k) == feature_count(fs, k) + 1);
    }
    assert(feature_count(d2.features, k) == feature_count(f1, k));
}

proof fn lemma_page_push(fs: Seq<FeatureRowView>, s: Seq<FragmentView>, f: FragmentView, now: u32)
    ensures
        page_listings(fs, false, s.push(f)) == page_listings(fs, false, s) + opt_seq(
            routed_listing(fs, false, f),
        ),
        page_observations(fs, false, s.push(f), now) == page_observations(fs, false, s, now)
            + opt_seq(routed_observation(fs, false, f, now)),
{
    assert(s.push(f).drop_last() =~= s);
    assert(s.push(f).last() == f);
    assert(page_listings(fs, false, s) + opt_seq(routed_listing(fs, false, f)) =~= match routed_listing(
        fs,
        false,
        f,
    ) {
        Some(l) => page_listings(fs, false, s).push(l),
        None => page_listings(fs, false, s),
    });
    assert(page_observations(fs, false, s, now) + opt_seq(routed_observation(fs, false, f, now))
        =~= match routed_observation(fs, false, f, now) {
        Some(o) => page_observations(fs, false, s, now).push(o),
        None => page_observations(fs, false, s, now),
    });
}

/// A card of an address that is not in the table, and that extracts.
pub open spec fn is_new_card(fs: Seq<FeatureRowView>, f: FragmentView) -> bool {
    extract_spec(f) is Ok && !has_key(fs, address_key(extract_spec(f)->Ok_0.address))
}

/// A card of an address that is in the table, with a price that reads.
pub open spec fn is_known_card(fs: Seq<FeatureRowView>, f: FragmentView) -> bool {
    parse_address_spec(f.address) is Some && has_key(
        fs,
        address_key(parse_address_spec(f.address)->Some_0),
    ) && price_spec(f.price) is Some
}

/// A page of three cards, two of new and distinct addresses and one of a known address (in any
/// position), queues exactly the two new listings in page order and records one observation of the
/// known address; ingesting it adds exactly two feature rows, and three observations: that one and
/// the first observation of each new listing.
pub proof fn lemma_page_two_new_one_known(d: DatasetView, frags: Seq<FragmentView>, known: int, now: u32)
    requires
        d.wf(),
        frags.len() == 3,
        0 <= known < 3,
        is_known_card(d.features, frags[known]),
        forall|i: int| 0 <= i < 3 && i != known ==> is_new_card(d.features, #[trigger] frags[i]),
        forall|i: int, j: int|
            0 <= i < j < 3 && i != known && j != known ==> address_key(
                extract_spec(#[trigger] frags[i])->Ok_0.address,
            ) != address_key(extract_spec(#[trigger] frags[j])->Ok_0.address),
    ensures
        ({
            let fs = d.features;
            let a = if known == 0 { 1int } else { 0int };
            let b = if known == 2 { 1int } else { 2int };
            let la = extract_spec(frags[a])->Ok_0;
            let lb = extract_spec(frags[b])->Ok_0;
            let k = address_key(parse_address_spec(frags[known].address)->Some_0);
            let o = HistoryView { addr_str: k, date: now, price: price_spec(frags[known].price)->Some_0 };
            let d2 = ingest_spec(d, Seq::empty(), false, frags, now);
            &&& page_listings(fs, false, frags) == seq![la, lb]
            &&& page_observations(fs, false, frags, now) == seq![o]
            &&& d2.features == fs + seq![feature_row(la), feature_row(lb)]
            &&& d2.history == d.history + seq![o, first_observation(la, now), first_observation(lb, now)]
        }),
{
    let fs = d.features;
    let e = Seq::<FragmentView>::empty();
    assert(frags =~= e.push(frags[0]).push(frags[1]).push(frags[2]));
    assert(page_listings(fs, false, e) =~= Seq::<ListingView>::empty());
    assert(page_observations(fs, false, e, now) =~= Seq::<HistoryView>::empty());
    lemma_page_push(fs, e, frags[0], now);
    lemma_page_push(fs, e.push(frags[0]), frags[1], now);
    lemma_page_push(fs, e.push(frags[0]).push(frags[1]), frags[2], now);
    let a = if known == 0 { 1int } else { 0int };
    let b = if known == 2 { 1int } else { 2int };
    let la = extract_spec(frags[a])->Ok_0;
    let lb = extract_spec(frags[b])->Ok_0;
    let k = address_key(parse_address_spec(frags[known].address)->Some_0);
    let o = HistoryView { addr_str: k, date: now, price: price_spec(frags[known].price)->Some_0 };
    assert forall|i: int| 0 <= i < 3 && i != known implies routed_listing(fs, false, #[trigger] frags[i])
        == Some(extract_spec(frags[i])->Ok_0) && routed_observation(fs, false, frags[i], now) is None by {
        assert(is_new_card(fs, frags[i]));
        assert(parse_address_spec(frags[i].address) == Some(extract_spec(frags[i])->Ok_0.address));
    }
    assert(routed_listing(fs, false, frags[known]) is None);
    assert(routed_observation(fs, false, frags[known], now) == Some(o));
    assert(frags[a] == frags[a] && a != known && b != known);
    let pl = page_listings(fs, false, frags);
    let po = page_observations(fs, false, frags, now);
    if known == 0 {
        assert(pl =~= seq![la, lb]);
        assert(po =~= seq![o]);
    } else if known == 1 {
        assert(pl =~= seq![la, lb]);
        assert(po =~= seq![o]);
    } else {
        assert(pl =~= seq![la, lb]);
        assert(po =~= seq![o]);
    }
    // both new listings are kept
    let el = Seq::<ListingView>::empty();
    assert(el + pl =~= pl);
    assert(is_new_card(fs, frags[a]) && is_new_card(fs, frags[b]));
    assert(address_key(la.address) != address_key(lb.address)) by {
        if a < b {
            assert(address_key(extract_spec(frags[a])->Ok_0.address) != address_key(
                extract_spec(frags[b])->Ok_0.address,
            ));
        }
    }
    let one = seq![la];
    assert(one.drop_last() =~= el);
    assert(new_listings(fs, el) =~= el);
    assert(new_listings(fs, one) =~= one);
    assert(pl.drop_last() =~= one);
    assert(new_listings(fs, pl) =~= pl);
    assert(pl.map_values(|l: ListingView| feature_row(l)) =~= seq![feature_row(la), feature_row(lb)]);
    assert(queue_observations(el + pl, now) =~= seq![first_observation(la, now), first_observation(lb, now)]);
    let d2 = ingest_spec(d, el, false, frags, now);
    assert(d2.features =~= fs + seq![feature_row(la), feature_row(lb)]);
    assert(d2.history =~= d.history + seq![o, first_observation(la, now), first_observation(lb, now)]);
}

} // verus!
