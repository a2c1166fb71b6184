//! The dataset: a features table with one row per address, and a history of price observations.

use vstd::prelude::*;

use crate::address::address_key;
use crate::listing::{HomeListing, ListingView};

verus! {

/// One row of the features table: the latest known attributes of one address.
#[derive(Debug, Clone)]
pub struct FeatureRow {
    pub beds: i32,
    pub baths: i32,
    pub sqft: u32,
    pub lot_size: i32,
    pub street: String,
    /// -1 when the address has no unit.
    pub apt: i32,
    pub city: String,
    pub state: String,
    pub zip: u32,
    /// The address key of the row.
    pub addr_str: String,
}

pub struct FeatureRowView {
    pub beds: i32,
    pub baths: i32,
    pub sqft: u32,
    pub lot_size: i32,
    pub street: Seq<char>,
    pub apt: i32,
    pub city: Seq<char>,
    pub state: Seq<char>,
    pub zip: u32,
    pub addr_str: Seq<char>,
}

impl View for FeatureRow {
    type V = FeatureRowView;

    open spec fn view(&self) -> FeatureRowView {
        FeatureRowView {
            beds: self.beds,
            baths: self.baths,
            sqft: self.sqft,
            lot_size: self.lot_size,
            street: self.street@,
            apt: self.apt,
            city: self.city@,
            state: self.state@,
            zip: self.zip,
            addr_str: self.addr_str@,
        }
    }
}

/// One price observation: the price an address was listed at, and when (unix seconds).
#[derive(Debug, Clone)]
pub struct PriceHistory {
    pub addr_str: String,
    pub date: u32,
    pub price: u32,
}

pub struct HistoryView {
    pub addr_str: Seq<char>,
    pub date: u32,
    pub price: u32,
}

impl View for PriceHistory {
    type V = HistoryView;

    open spec fn view(&self) -> HistoryView {
        HistoryView { addr_str: self.addr_str@, date: self.date, price: self.price }
    }
}

impl PriceHistory {
    pub fn new(addr_str: String, price: u32, date: u32) -> (r: PriceHistory)
        ensures
            r@ == (HistoryView { addr_str: addr_str@, date, price }),
    {
        PriceHistory { addr_str, date, price }
    }
}

pub open spec fn feature_views(fs: Seq<FeatureRow>) -> Seq<FeatureRowView> {
    fs.map_values(|r: FeatureRow| r@)
}

pub open spec fn history_views(hs: Seq<PriceHistory>) -> Seq<HistoryView> {
    hs.map_values(|h: PriceHistory| h@)
}

pub open spec fn listing_views(ls: Seq<HomeListing>) -> Seq<ListingView> {
    ls.map_values(|l: HomeListing| l@)
}

/// True when some features row has address key `k`.
pub open spec fn has_key(fs: Seq<FeatureRowView>, k: Seq<char>) -> bool {
    exists|i: int| 0 <= i < fs.len() && (#[trigger] fs[i]).addr_str == k
}

/// The two tables are consistent: feature rows are unique by key, and every history row is about
/// an address that has a feature row.
pub open spec fn tables_wf(fs: Seq<FeatureRowView>, hs: Seq<HistoryView>) -> bool {
    &&& forall|i: int, j: int|
        0 <= i < j < fs.len() ==> (#[trigger] fs[i]).addr_str != (#[trigger] fs[j]).addr_str
    &&& forall|i: int| 0 <= i < hs.len() ==> has_key(fs, (#[trigger] hs[i]).addr_str)
}

/// The features row of a listing.
pub open spec fn feature_row(l: ListingView) -> FeatureRowView {
    FeatureRowView {
        beds: l.beds,
        baths: l.baths,
        sqft: l.sqft,
        lot_size: l.lot_size,
        street: l.address.street,
        apt: match l.address.apt {
            Some(n) => n as i32,
            None => -1i32,
        },
        city: l.address.city,
        state: l.address.state,
        zip: l.address.zip,
        addr_str: address_key(l.address),
    }
}

/// The price observation at `date` of a queued listing.
pub open spec fn first_observation(l: ListingView, date: u32) -> HistoryView {
    HistoryView { addr_str: address_key(l.address), date, price: l.current_price }
}

/// True when the key of listing `i` of the batch is already a features key, or is the key of an
/// earlier listing of the batch.
pub open spec fn conflicts_at(fs: Seq<FeatureRowView>, ls: Seq<ListingView>, i: int) -> bool {
    has_key(fs, address_key(ls[i].address)) || exists|j: int|
        0 <= j < i && address_key((#[trigger] ls[j]).address) == address_key(ls[i].address)
}

pub open spec fn batch_conflicts(fs: Seq<FeatureRowView>, ls: Seq<ListingView>) -> bool {
    exists|i: int| 0 <= i < ls.len() && #[trigger] conflicts_at(fs, ls, i)
}

/// Why a batch of listings was refused.
#[derive(Debug, Clone)]
pub enum StoreError {
    /// A listing of the batch has a key that the features table, or an earlier listing of the
    /// batch, already has.
    DuplicateKey(String),
}

/// The persisted tables: one features row per address, and every price observation.
pub struct Dataset {
    features: Vec<FeatureRow>,
    history: Vec<PriceHistory>,
}

pub struct DatasetView {
    pub features: Seq<FeatureRowView>,
    pub history: Seq<HistoryView>,
}

impl View for Dataset {
    type V = DatasetView;

    closed spec fn view(&self) -> DatasetView {
        DatasetView { features: feature_views(self.features@), history: history_views(self.history@) }
    }
}

impl DatasetView {
    pub open spec fn wf(self) -> bool {
        tables_wf(self.features, self.history)
    }
}

/// Whether a features row with key `k` is among `fs`.
fn key_in(fs: &Vec<FeatureRow>, k: &String) -> (r: bool)
    ensures
        r == has_key(feature_views(fs@), k@),
{
    let ghost v = feature_views(fs@);
    let mut i: usize = 0;
    while i < fs.len()
        invariant
            i <= fs@.len(),
            v == feature_views(fs@),
            forall|j: int| 0 <= j < i ==> (#[trigger] v[j]).addr_str != k@,
        decreases fs@.len() - i,
    {
        if fs[i].addr_str == *k {
            assert(v[i as int].addr_str == k@);
            return true;
        }
        i = i + 1;
    }
    false
}

/// Whether `k` is among `keys`.
pub fn string_in(keys: &Vec<String>, k: &String) -> (r: bool)
    ensures
        r == exists|j: int| 0 <= j < keys@.len() && (#[trigger] keys@[j])@ == k@,
{
    let mut i: usize = 0;
    while i < keys.len()
        invariant
            i <= keys@.len(),
            forall|j: int| 0 <= j < i ==> (#[trigger] keys@[j])@ != k@,
        decreases keys@.len() - i,
    {
        if keys[i] == *k {
            return true;
        }
        i = i + 1;
    }
    false
}

/// The features row of a listing.
pub fn to_feature_row(l: &HomeListing) -> (r: FeatureRow)
    ensures
        r@ == feature_row(l@),
{
    FeatureRow {
        beds: l.beds,
        baths: l.baths,
        sqft: l.sqft,
        lot_size: l.lot_size,
        street: l.address.street.clone(),
        apt: match l.address.apt {
            Some(n) => n as i32,
            None => -1,
        },
        city: l.address.city.clone(),
        state: l.address.state.clone(),
        zip: l.address.zip,
        addr_str: l.address.to_key(),
    }
}

impl Dataset {
    /// Empty tables.
    pub fn new() -> (r: Dataset)
        ensures
            r@.features.len() == 0,
            r@.history.len() == 0,
            r@.wf(),
    {
        Dataset { features: Vec::new(), history: Vec::new() }
    }

    pub fn features(&self) -> (r: &Vec<FeatureRow>)
        ensures
            feature_views(r@) == self@.features,
    {
        &self.features
    }

    pub fn history(&self) -> (r: &Vec<PriceHistory>)
        ensures
            history_views(r@) == self@.history,
    {
        &self.history
    }

    /// Whether the features table has a row with address key `key`.
    pub fn contains_key(&self, key: &String) -> (r: bool)
        ensures
            r == has_key(self@.features, key@),
    {
        key_in(&self.features, key)
    }

    /// Appends one price observation. Observations are never merged, even on the same day.
    pub fn append_history(&mut self, obs: PriceHistory)
        requires
            old(self)@.wf(),
            has_key(old(self)@.features, obs@.addr_str),
        ensures
            final(self)@.wf(),
            final(self)@.features == old(self)@.features,
            final(self)@.history == old(self)@.history.push(obs@),
    {
        let ghost fs = self@.features;
        self.history.push(obs);
        assert(history_views(self.history@) =~= history_views(old(self).history@).push(obs@));
        assert(feature_views(self.features@) == fs);
    }
}

/// Adding a row with a new key keeps the tables consistent.
proof fn lemma_push_wf(fs: Seq<FeatureRowView>, hs: Seq<HistoryView>, row: FeatureRowView)
    requires
        tables_wf(fs, hs),
        !has_key(fs, row.addr_str),
    ensures
        tables_wf(fs.push(row), hs),
{
    let nf = fs.push(row);
    assert forall|i: int, j: int| 0 <= i < j < nf.len() implies (#[trigger] nf[i]).addr_str != (
    #[trigger] nf[j]).addr_str by {
        if j == fs.len() {
            assert(fs[i] == nf[i]);
        } else {
            assert(fs[i] == nf[i] && fs[j] == nf[j]);
        }
    }
    assert forall|i: int| 0 <= i < hs.len() implies has_key(nf, (#[trigger] hs[i]).addr_str) by {
        assert(has_key(fs, hs[i].addr_str));
        let w = choose|w: int| 0 <= w < fs.len() && (#[trigger] fs[w]).addr_str == hs[i].addr_str;
        assert(nf[w] == fs[w]);
    }
}

impl Dataset {
    /// Appends a features row for each listing of a batch. Refuses the whole batch, changing
    /// nothing, when a listing's key is already in the features table or repeats an earlier
    /// listing of the batch.
    pub fn append_features(&mut self, batch: &Vec<HomeListing>) -> (r: Result<
        (),
        StoreError,
    >)
        requires
            old(self)@.wf(),
        ensures
            final(self)@.wf(),
            r is Err <==> batch_conflicts(old(self)@.features, listing_views(batch@)),
            r is Err ==> final(self)@ == old(self)@,
            r is Ok ==> final(self)@.features == old(self)@.features + listing_views(
                batch@,
            ).map_values(|l: ListingView| feature_row(l)),
            final(self)@.history == old(self)@.history,
    {
        let ghost lv = listing_views(batch@);
        let ghost of = self@.features;
        let ghost oh = self@.history;
        let mut keys: Vec<String> = Vec::new();
        let mut i: usize = 0;
        while i < batch.len()
            invariant
                i <= batch@.len(),
                lv == listing_views(batch@),
                of == self@.features,
                self@ == old(self)@,
                self@.wf(),
                keys@.len() == i,
                forall|j: int| 0 <= j < i ==> (#[trigger] keys@[j])@ == address_key(lv[j].address),
                forall|j: int| 0 <= j < i ==> !(#[trigger] conflicts_at(of, lv, j)),
            decreases batch@.len() - i,
        {
            let k = batch[i].address.to_key();
            if key_in(&self.features, &k) || string_in(&keys, &k) {
                assert(conflicts_at(of, lv, i as int)) by {
                    if !has_key(of, k@) {
                        let j = choose|j: int| 0 <= j < keys@.len() && (#[trigger] keys@[j])@ == k@;
                        assert(address_key(lv[j].address) == address_key(lv[i as int].address));
                    }
                }
                return Err(StoreError::DuplicateKey(k));
            }
            assert(!conflicts_at(of, lv, i as int)) by {
                if exists|j: int| 0 <= j < i && address_key((#[trigger] lv[j]).address) == address_key(
                    lv[i as int].address,
                ) {
                    let j = choose|j: int|
                        0 <= j < i && address_key((#[trigger] lv[j]).address) == address_key(
                            lv[i as int].address,
                        );
                    assert(keys@[j]@ == k@);
                }
            }
            keys.push(k);
            i = i + 1;
        }
        assert(!batch_conflicts(of, lv));
        let ghost fmap = lv.map_values(|l: ListingView| feature_row(l));
        let mut i: usize = 0;
        while i < batch.len()
            invariant
                i <= batch@.len(),
                lv == listing_views(batch@),
                fmap == lv.map_values(|l: ListingView| feature_row(l)),
                forall|j: int| 0 <= j < lv.len() ==> !(#[trigger] conflicts_at(of, lv, j)),
                self@.features == of + fmap.subrange(0, i as int),
                self@.history == oh,
                self@.wf(),
            decreases batch@.len() - i,
        {
            let row = to_feature_row(&batch[i]);
            proof {
                let cur = self@.features;
                assert(!conflicts_at(of, lv, i as int));
                assert(!has_key(cur, row@.addr_str)) by {
                    if has_key(cur, row@.addr_str) {
                        let w = choose|w: int| 0 <= w < cur.len() && (#[trigger] cur[w]).addr_str == row@.addr_str;
                        if w < of.len() {
                            assert(cur[w] == of[w]);
                        } else {
                            assert(cur[w] == fmap[w - of.len()]);
                            assert(address_key(lv[w - of.len()].address) == address_key(lv[i as int].address));
                        }
                    }
                }
                lemma_push_wf(self@.features, self@.history, row@);
            }
            let ghost pf = self.features@;
            let ghost rv = row@;
            self.features.push(row);
            assert(feature_views(self.features@) =~= feature_views(pf).push(rv));
            assert(fmap.subrange(0, i + 1) =~= fmap.subrange(0, i as int).push(rv));
            i = i + 1;
            assert(self@.features =~= of + fmap.subrange(0, i as int));
        }
        assert(fmap.subrange(0, i as int) =~= fmap);
        Ok(())
    }
}

/// The first row of each key of `fs`, in order; later rows with a key seen before are dropped.
pub open spec fn first_rows(fs: Seq<FeatureRowView>) -> Seq<FeatureRowView>
    decreases fs.len(),
{
    if fs.len() == 0 {
        Seq::empty()
    } else {
        let d = first_rows(fs.drop_last());
        if has_key(d, fs.last().addr_str) {
            d
        } else {
            d.push(fs.last())
        }
    }
}

/// The observations of `hs` whose address has a row in `fs`, in order.
pub open spec fn known_history(fs: Seq<FeatureRowView>, hs: Seq<HistoryView>) -> Seq<HistoryView>
    decreases hs.len(),
{
    if hs.len() == 0 {
        Seq::empty()
    } else {
        let d = known_history(fs, hs.drop_last());
        if has_key(fs, hs.last().addr_str) {
            d.push(hs.last())
        } else {
            d
        }
    }
}

/// The tables that loading yields: empty when `force_refresh` is set or nothing could be read;
/// otherwise what was read, less the rows that break consistency (a features row whose key an
/// earlier row has, and an observation of an address without a features row).
pub open spec fn load_spec(
    force_refresh: bool,
    loaded: Option<(Seq<FeatureRowView>, Seq<HistoryView>)>,
) -> DatasetView {
    match loaded {
        Some((fs, hs)) => if !force_refresh {
            DatasetView { features: first_rows(fs), history: known_history(first_rows(fs), hs) }
        } else {
            DatasetView { features: Seq::empty(), history: Seq::empty() }
        },
        None => DatasetView { features: Seq::empty(), history: Seq::empty() },
    }
}

pub open spec fn loaded_views(loaded: Option<(Vec<FeatureRow>, Vec<PriceHistory>)>) -> Option<
    (Seq<FeatureRowView>, Seq<HistoryView>),
> {
    match loaded {
        Some((fs, hs)) => Some((feature_views(fs@), history_views(hs@))),
        None => None,
    }
}

pub open spec fn unique_keys(fs: Seq<FeatureRowView>) -> bool {
    forall|i: int, j: int|
        0 <= i < j < fs.len() ==> (#[trigger] fs[i]).addr_str != (#[trigger] fs[j]).addr_str
}

proof fn lemma_first_rows_unique(fs: Seq<FeatureRowView>)
    ensures
        unique_keys(first_rows(fs)),
    decreases fs.len(),
{
    if fs.len() > 0 {
        let d = first_rows(fs.drop_last());
        lemma_first_rows_unique(fs.drop_last());
        if !has_key(d, fs.last().addr_str) {
            let n = d.push(fs.last());
            assert forall|i: int, j: int| 0 <= i < j < n.len() implies (#[trigger] n[i]).addr_str != (
            #[trigger] n[j]).addr_str by {
                assert(n[i] == d[i]);
                if j < d.len() {
                    assert(n[j] == d[j]);
                }
            }
        }
    }
}

proof fn lemma_known_history_known(fs: Seq<FeatureRowView>, hs: Seq<HistoryView>)
    ensures
        forall|i: int|
            0 <= i < known_history(fs, hs).len() ==> has_key(
                fs,
                (#[trigger] known_history(fs, hs)[i]).addr_str,
            ),
    decreases hs.len(),
{
    if hs.len() > 0 {
        lemma_known_history_known(fs, hs.drop_last());
        let d = known_history(fs, hs.drop_last());
        let n = known_history(fs, hs);
        assert forall|i: int| 0 <= i < n.len() implies has_key(fs, (#[trigger] n[i]).addr_str) by {
            if i < d.len() {
                assert(n[i] == d[i]);
            }
        }
    }
}

proof fn lemma_first_rows_of_unique(fs: Seq<FeatureRowView>)
    requires
        unique_keys(fs),
    ensures
        first_rows(fs) == fs,
    decreases fs.len(),
{
    if fs.len() > 0 {
        let init = fs.drop_last();
        assert(unique_keys(init)) by {
            assert forall|i: int, j: int| 0 <= i < j < init.len() implies (#[trigger] init[i]).addr_str
                != (#[trigger] init[j]).addr_str by {
                assert(init[i] == fs[i] && init[j] == fs[j]);
            }
        }
        lemma_first_rows_of_unique(init);
        assert(!has_key(init, fs.last().addr_str)) by {
            if has_key(init, fs.last().addr_str) {
                let w = choose|w: int| 0 <= w < init.len() && (#[trigger] init[w]).addr_str == fs.last().addr_str;
                assert(init[w] == fs[w]);
            }
        }
        assert(init.push(fs.last()) =~= fs);
    } else {
        assert(fs =~= Seq::<FeatureRowView>::empty());
    }
}

proof fn lemma_known_history_of_known(fs: Seq<FeatureRowView>, hs: Seq<HistoryView>)
    requires
        forall|i: int| 0 <= i < hs.len() ==> has_key(fs, (#[trigger] hs[i]).addr_str),
    ensures
        known_history(fs, hs) == hs,
    decreases hs.len(),
{
    if hs.len() > 0 {
        let init = hs.drop_last();
        assert forall|i: int| 0 <= i < init.len() implies has_key(fs, (#[trigger] init[i]).addr_str) by {
            assert(init[i] == hs[i]);
        }
        lemma_known_history_of_known(fs, init);
        assert(has_key(fs, hs[hs.len() - 1].addr_str));
        assert(init.push(hs.last()) =~= hs);
    } else {
        assert(hs =~= Seq::<HistoryView>::empty());
    }
}

/// What loading keeps is consistent.
pub proof fn lemma_load_wf(
    force_refresh: bool,
    loaded: Option<(Seq<FeatureRowView>, Seq<HistoryView>)>,
)
    ensures
        load_spec(force_refresh, loaded).wf(),
{
    match loaded {
        Some((fs, hs)) => {
            lemma_first_rows_unique(fs);
            lemma_known_history_known(first_rows(fs), hs);
        },
        None => {},
    }
}

impl Dataset {
    /// The dataset to start a run with, from the tables read from disk (`None` when there were
    /// none, or their header did not match the schema).
    pub fn load(force_refresh: bool, loaded: Option<(Vec<FeatureRow>, Vec<PriceHistory>)>) -> (r:
        Dataset)
        ensures
            r@ == load_spec(force_refresh, loaded_views(loaded)),
            r@.wf(),
    {
        proof {
            lemma_load_wf(force_refresh, loaded_views(loaded));
        }
        match loaded {
            Some((fs, hs)) => {
                if force_refresh {
                    let r = Dataset::new();
                    assert(r@.features =~= Seq::<FeatureRowView>::empty());
                    assert(r@.history =~= Seq::<HistoryView>::empty());
                    return r;
                }
                let mut fs = fs;
                let mut hs = hs;
                let ghost fo = feature_views(fs@);
                let ghost ho = history_views(hs@);
                let mut features: Vec<FeatureRow> = Vec::new();
                let ghost mut i: int = 0;
                assert(fo.subrange(0, 0) =~= Seq::<FeatureRowView>::empty());
                assert(feature_views(fs@) =~= fo.subrange(0, fo.len() as int));
                assert(feature_views(features@) =~= first_rows(fo.subrange(0, 0)));
                while fs.len() > 0
                    invariant
                        0 <= i <= fo.len(),
                        feature_views(fs@) == fo.subrange(i, fo.len() as int),
                        feature_views(features@) == first_rows(fo.subrange(0, i)),
                    decreases fs@.len(),
                {
                    let ghost v = feature_views(fs@);
                    let ghost old_fs = fs@;
                    assert(v.len() == fs@.len());
                    assert(v[0] == fo[i]);
                    let row = fs.remove(0);
                    assert forall|t: int| 0 <= t < fs@.len() implies feature_views(fs@)[t]
                        == fo.subrange(i + 1, fo.len() as int)[t] by {
                        assert(fs@[t] == old_fs[t + 1]);
                        assert(v[t + 1] == fo[i + 1 + t]);
                    }
                    assert(feature_views(fs@) =~= fo.subrange(i + 1, fo.len() as int));
                    let ghost pre = fo.subrange(0, i + 1);
                    assert(pre.drop_last() =~= fo.subrange(0, i));
                    assert(pre.last() == row@);
                    let ghost f0 = features@;
                    if !key_in(&features, &row.addr_str) {
                        features.push(row);
                        assert(feature_views(features@) =~= feature_views(f0).push(pre.last()));
                    }
                    proof {
                        i = i + 1;
                    }
                }
                assert(fo.subrange(0, i) =~= fo);
                let ghost kept = feature_views(features@);
                let mut history: Vec<PriceHistory> = Vec::new();
                let ghost mut j: int = 0;
                assert(ho.subrange(0, 0) =~= Seq::<HistoryView>::empty());
                assert(history_views(hs@) =~= ho.subrange(0, ho.len() as int));
                assert(history_views(history@) =~= known_history(kept, ho.subrange(0, 0)));
                while hs.len() > 0
                    invariant
                        0 <= j <= ho.len(),
                        kept == feature_views(features@),
                        history_views(hs@) == ho.subrange(j, ho.len() as int),
                        history_views(history@) == known_history(kept, ho.subrange(0, j)),
                    decreases hs@.len(),
                {
                    let ghost v = history_views(hs@);
                    let ghost old_hs = hs@;
                    assert(v.len() == hs@.len());
                    assert(v[0] == ho[j]);
                    let h = hs.remove(0);
                    assert forall|t: int| 0 <= t < hs@.len() implies history_views(hs@)[t]
                        == ho.subrange(j + 1, ho.len() as int)[t] by {
                        assert(hs@[t] == old_hs[t + 1]);
                        assert(v[t + 1] == ho[j + 1 + t]);
                    }
                    assert(history_views(hs@) =~= ho.subrange(j + 1, ho.len() as int));
                    let ghost pre = ho.subrange(0, j + 1);
                    assert(pre.drop_last() =~= ho.subrange(0, j));
                    assert(pre.last() == h@);
                    let ghost h0 = history@;
                    if key_in(&features, &h.addr_str) {
                        history.push(h);
                        assert(history_views(history@) =~= history_views(h0).push(pre.last()));
                    }
                    proof {
                        j = j + 1;
                    }
                }
                assert(ho.subrange(0, j) =~= ho);
                Dataset { features, history }
            },
            None => {
                let r = Dataset::new();
                assert(r@.features =~= Seq::<FeatureRowView>::empty());
                assert(r@.history =~= Seq::<HistoryView>::empty());
                r
            },
        }
    }
}

/// Loading consistent tables that were just written gives them back unchanged.
pub proof fn lemma_reload_identity(d: DatasetView)
    requires
        d.wf(),
    ensures
        load_spec(false, Some((d.features, d.history))) == d,
{
    lemma_first_rows_of_unique(d.features);
    lemma_known_history_of_known(d.features, d.history);
}

/// With `force_refresh` set, loading yields empty tables whatever was read.
pub proof fn lemma_force_refresh_empty(loaded: Option<(Seq<FeatureRowView>, Seq<HistoryView>)>)
    ensures
        load_spec(true, loaded).features.len() == 0,
        load_spec(true, loaded).history.len() == 0,
{
}

} // verus!
