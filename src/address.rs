//! Postal addresses: reading them from listing text, and the key that identifies an address.

use vstd::prelude::*;

use crate::listing::{ErrorView, ExtractionError};
use crate::text::{
    chars_of, decimal, digits_value, is_digits, is_trimmed, lacks,
    lemma_decimal_digits, lemma_digits_lack, lemma_split_concat, lemma_split_nonempty,
    lemma_split_single, lemma_trim_trimmed, parse_digits, push_decimal, split, split_ranges,
    string_from_chars, trim, trim_range,
};

verus! {

/// A postal address as it appears on a listing.
#[derive(Debug, Clone)]
pub struct HomeAddress {
    pub street: String,
    /// The unit number, when the address names one.
    pub apt: Option<u32>,
    pub city: String,
    pub state: String,
    pub zip: u32,
}

pub struct AddressView {
    pub street: Seq<char>,
    pub apt: Option<u32>,
    pub city: Seq<char>,
    pub state: Seq<char>,
    pub zip: u32,
}

impl View for HomeAddress {
    type V = AddressView;

    open spec fn view(&self) -> AddressView {
        AddressView {
            street: self.street@,
            apt: self.apt,
            city: self.city@,
            state: self.state@,
            zip: self.zip,
        }
    }
}

/// The largest unit number kept; the persisted table stores units as signed 32-bit values.
pub const MAX_APT: u64 = 0x7fff_ffff;

/// The comma-separated parts of an address, trimmed.
pub open spec fn address_parts(s: Seq<char>) -> Seq<Seq<char>> {
    split(s, ',').map_values(|p: Seq<char>| trim(p))
}

/// The parts of an address with its last part ("state zip") split at spaces.
pub open spec fn address_components(s: Seq<char>) -> Seq<Seq<char>> {
    let parts = address_parts(s);
    parts.drop_last() + split(parts.last(), ' ')
}

/// The digits of a unit designator: its last word, without a leading `#`.
pub open spec fn apt_digits(t: Seq<char>) -> Seq<char> {
    let w = split(t, ' ').last();
    if w.len() > 0 && w[0] == '#' {
        w.drop_first()
    } else {
        w
    }
}

pub open spec fn is_letter(c: char) -> bool {
    ('a' <= c && c <= 'z') || ('A' <= c && c <= 'Z')
}

/// A state code: exactly two letters.
pub open spec fn is_state_code(s: Seq<char>) -> bool {
    s.len() == 2 && is_letter(s[0]) && is_letter(s[1])
}

/// The address that `street, city, state zip` or `street, unit, city, state zip` denotes, or
/// `None` when the text has another shape, a field does not parse, the state is not two letters,
/// or the street is shorter than the city.
pub open spec fn parse_address_spec(s: Seq<char>) -> Option<AddressView> {
    let c = address_components(s);
    if c.len() != 4 && c.len() != 5 {
        None
    } else {
        let f = if c.len() == 5 { c.remove(1) } else { c };
        let apt_ok = c.len() == 4 || (is_digits(apt_digits(c[1])) && digits_value(apt_digits(c[1])) <= MAX_APT);
        let zip_ok = is_digits(f[3]) && digits_value(f[3]) <= u32::MAX;
        if apt_ok && zip_ok && is_state_code(f[2]) && f[0].len() >= f[1].len() {
            Some(
                AddressView {
                    street: f[0],
                    apt: if c.len() == 5 { Some(digits_value(apt_digits(c[1])) as u32) } else { None },
                    city: f[1],
                    state: f[2],
                    zip: digits_value(f[3]) as u32,
                },
            )
        } else {
            None
        }
    }
}

/// The dedup key of an address: `street, city, state zip`, with `unit, ` after the street when
/// there is a unit.
pub open spec fn address_key(a: AddressView) -> Seq<char> {
    let tail = a.city + seq![',', ' '] + a.state + seq![' '] + decimal(a.zip as nat);
    match a.apt {
        None => a.street + seq![',', ' '] + tail,
        Some(n) => a.street + seq![',', ' '] + decimal(n as nat) + seq![',', ' '] + tail,
    }
}

/// The characters `s[lo..hi]` as a string.
pub fn text_of(s: &Vec<char>, lo: usize, hi: usize) -> (r: String)
    requires
        lo <= hi <= s@.len(),
    ensures
        r@ == s@.subrange(lo as int, hi as int),
{
    let mut v: Vec<char> = Vec::new();
    let mut i: usize = lo;
    while i < hi
        invariant
            lo <= i <= hi <= s@.len(),
            v@ == s@.subrange(lo as int, i as int),
        decreases hi - i,
    {
        v.push(s[i]);
        i = i + 1;
        assert(v@ =~= s@.subrange(lo as int, i as int));
    }
    string_from_chars(&v)
}

fn is_letter_char(c: char) -> (r: bool)
    ensures
        r == is_letter(c),
{
    ('a' <= c && c <= 'z') || ('A' <= c && c <= 'Z')
}

/// The ranges of the address components of `v`.
fn component_ranges(v: &Vec<char>) -> (r: Vec<(usize, usize)>)
    ensures
        r@.len() == address_components(v@).len(),
        forall|k: int|
            0 <= k < r@.len() ==> (#[trigger] r@[k]).0 <= r@[k].1 <= v@.len() && v@.subrange(
                r@[k].0 as int,
                r@[k].1 as int,
            ) == address_components(v@)[k],
{
    let n = v.len();
    assert(v@.subrange(0, n as int) =~= v@);
    let parts = split_ranges(v, 0, n, ',');
    proof {
        lemma_split_nonempty(v@, ',');
    }
    let ghost ap = address_parts(v@);
    let ghost comps = address_components(v@);
    let mut r: Vec<(usize, usize)> = Vec::new();
    let mut k: usize = 0;
    while k < parts.len() - 1
        invariant
            parts@.len() == ap.len() >= 1,
            k + 1 <= parts@.len(),
            n == v@.len(),
            ap == address_parts(v@),
            comps == address_components(v@),
            forall|j: int|
                0 <= j < parts@.len() ==> (#[trigger] parts@[j]).0 <= parts@[j].1 <= n
                    && v@.subrange(parts@[j].0 as int, parts@[j].1 as int) == split(v@, ',')[j],
            r@.len() == k,
            forall|j: int|
                0 <= j < k ==> (#[trigger] r@[j]).0 <= r@[j].1 <= n && v@.subrange(
                    r@[j].0 as int,
                    r@[j].1 as int,
                ) == comps[j],
        decreases parts@.len() - k,
    {
        let (a, b) = parts[k];
        let t = trim_range(v, a, b);
        r.push(t);
        assert(comps[k as int] == ap[k as int]);
        k = k + 1;
    }
    let (a, b) = parts[k];
    let (la, lb) = trim_range(v, a, b);
    assert(v@.subrange(la as int, lb as int) == ap.last());
    let words = split_ranges(v, la, lb, ' ');
    let mut w: usize = 0;
    while w < words.len()
        invariant
            k + 1 == parts@.len() == ap.len(),
            n == v@.len(),
            la <= lb <= n,
            v@.subrange(la as int, lb as int) == ap.last(),
            ap == address_parts(v@),
            comps == address_components(v@),
            comps == ap.drop_last() + split(ap.last(), ' '),
            words@.len() == split(ap.last(), ' ').len(),
            forall|j: int|
                0 <= j < words@.len() ==> la <= (#[trigger] words@[j]).0 <= words@[j].1 <= lb
                    && v@.subrange(words@[j].0 as int, words@[j].1 as int) == split(
                    ap.last(),
                    ' ',
                )[j],
            w <= words@.len(),
            r@.len() == k + w,
            forall|j: int|
                0 <= j < k + w ==> (#[trigger] r@[j]).0 <= r@[j].1 <= n && v@.subrange(
                    r@[j].0 as int,
                    r@[j].1 as int,
                ) == comps[j],
        decreases words@.len() - w,
    {
        r.push(words[w]);
        assert(comps[k + w] == split(ap.last(), ' ')[w as int]);
        w = w + 1;
    }
    r
}

/// Parses address text of the form `street, city, state zip` or `street, unit, city, state zip`.
pub fn parse_address(text: &str) -> (r: Result<HomeAddress, ExtractionError>)
    ensures
        match parse_address_spec(text@) {
            Some(a) => r is Ok && r->Ok_0@ == a,
            None => r is Err && r->Err_0@ == ErrorView::Address(text@),
        },
{
    let v = chars_of(text);
    let c = component_ranges(&v);
    let ghost cs = address_components(v@);
    let fail = ExtractionError::Address(String::from_str(text));
    if c.len() != 4 && c.len() != 5 {
        return Err(fail);
    }
    let mut apt: Option<u32> = None;
    let mut f: Vec<(usize, usize)> = Vec::new();
    f.push(c[0]);
    if c.len() == 5 {
        let (a, b) = c[1];
        let words = split_ranges(&v, a, b, ' ');
        proof {
            lemma_split_nonempty(cs[1], ' ');
        }
        let (mut wa, wb) = words[words.len() - 1];
        let ghost last = v@.subrange(wa as int, wb as int);
        if wa < wb && v[wa] == '#' {
            assert(last.drop_first() =~= v@.subrange(wa + 1, wb as int));
            wa = wa + 1;
        }
        assert(v@.subrange(wa as int, wb as int) == apt_digits(cs[1]));
        match parse_digits(&v, wa, wb, MAX_APT) {
            Some(n) => {
                apt = Some(n as u32);
            },
            None => {
                return Err(fail);
            },
        }
        f.push(c[2]);
        f.push(c[3]);
        f.push(c[4]);
    } else {
        f.push(c[1]);
        f.push(c[2]);
        f.push(c[3]);
    }
    let ghost fs = if cs.len() == 5 { cs.remove(1) } else { cs };
    assert(forall|j: int| 0 <= j < 4 ==> v@.subrange(#[trigger] f@[j].0 as int, f@[j].1 as int) == fs[j]);
    let (za, zb) = f[3];
    let zip = match parse_digits(&v, za, zb, 0xffff_ffff) {
        Some(z) => z as u32,
        None => {
            return Err(fail);
        },
    };
    let (sa, sb) = f[2];
    if !(sb - sa == 2 && is_letter_char(v[sa]) && is_letter_char(v[sa + 1])) {
        return Err(fail);
    }
    let (ta, tb) = f[0];
    let (ca, cb) = f[1];
    if tb - ta < cb - ca {
        return Err(fail);
    }
    Ok(
        HomeAddress {
            street: text_of(&v, ta, tb),
            apt,
            city: text_of(&v, ca, cb),
            state: text_of(&v, sa, sb),
            zip,
        },
    )
}

fn push_all(out: &mut Vec<char>, s: &String)
    ensures
        final(out)@ == old(out)@ + s@,
{
    let v = chars_of(s.as_str());
    let mut i: usize = 0;
    while i < v.len()
        invariant
            i <= v@.len(),
            v@ == s@,
            out@ == old(out)@ + v@.subrange(0, i as int),
        decreases v@.len() - i,
    {
        out.push(v[i]);
        i = i + 1;
        assert(out@ =~= old(out)@ + v@.subrange(0, i as int));
    }
    assert(v@.subrange(0, i as int) =~= v@);
}

fn push_sep(out: &mut Vec<char>)
    ensures
        final(out)@ == old(out)@ + seq![',', ' '],
{
    out.push(',');
    out.push(' ');
    assert(out@ =~= old(out)@ + seq![',', ' ']);
}

impl HomeAddress {
    /// The dedup key of this address; two addresses share a key only when they are spelled alike.
    pub fn to_key(&self) -> (r: String)
        ensures
            r@ == address_key(self@),
    {
        let mut out: Vec<char> = Vec::new();
        push_all(&mut out, &self.street);
        push_sep(&mut out);
        match self.apt {
            Some(n) => {
                push_decimal(&mut out, n as u64);
                push_sep(&mut out);
            },
            None => {},
        }
        push_all(&mut out, &self.city);
        push_sep(&mut out);
        push_all(&mut out, &self.state);
        out.push(' ');
        push_decimal(&mut out, self.zip as u64);
        let ghost a = self@;
        let ghost tail = a.city + seq![',', ' '] + a.state + seq![' '] + decimal(a.zip as nat);
        proof {
            match a.apt {
                Some(n) => {
                    assert(out@ =~= a.street + seq![',', ' '] + decimal(n as nat) + seq![',', ' ']
                        + tail);
                },
                None => {
                    assert(out@ =~= a.street + seq![',', ' '] + tail);
                },
            }
        }
        string_from_chars(&out)
    }
}

/// An address that its key spells unambiguously: street and city without commas or surrounding
/// whitespace, a two-letter state, a street at least as long as the city, and a unit number in range.
pub open spec fn address_wf(a: AddressView) -> bool {
    &&& lacks(a.street, ',') && is_trimmed(a.street)
    &&& lacks(a.city, ',') && is_trimmed(a.city)
    &&& is_state_code(a.state)
    &&& a.street.len() >= a.city.len()
    &&& match a.apt {
        Some(n) => n <= MAX_APT,
        None => true,
    }
}

/// The text `" " + x`.
pub open spec fn spaced(x: Seq<char>) -> Seq<char> {
    seq![' '] + x
}

/// The last part of a key: the state, a space, and the postal code.
pub open spec fn state_zip(a: AddressView) -> Seq<char> {
    a.state + seq![' '] + decimal(a.zip as nat)
}

proof fn lemma_spaced_lacks(x: Seq<char>, c: char)
    requires
        lacks(x, c),
        c != ' ',
    ensures
        lacks(spaced(x), c),
{
    assert forall|i: int| 0 <= i < spaced(x).len() implies spaced(x)[i] != c by {
        if i > 0 {
            assert(spaced(x)[i] == x[i - 1]);
        }
    }
}

/// What the key holds after the street (and unit) reads back as the city, the state and the code.
proof fn lemma_key_tail(a: AddressView)
    requires
        address_wf(a),
    ensures
        split(spaced(a.city) + seq![','] + spaced(state_zip(a)), ',') == seq![
            spaced(a.city),
            spaced(state_zip(a)),
        ],
        trim(spaced(a.city)) == a.city,
        trim(spaced(state_zip(a))) == state_zip(a),
        split(state_zip(a), ' ') == seq![a.state, decimal(a.zip as nat)],
        is_digits(decimal(a.zip as nat)),
        digits_value(decimal(a.zip as nat)) == a.zip,
{
    let dz = decimal(a.zip as nat);
    lemma_decimal_digits(a.zip as nat);
    lemma_digits_lack(dz, ',');
    lemma_digits_lack(dz, ' ');
    let st = a.state;
    assert(lacks(st, ',') && lacks(st, ' ')) by {
        assert(st[0] != ',' && st[1] != ',' && st[0] != ' ' && st[1] != ' ');
    }
    let t = state_zip(a);
    assert(is_trimmed(t)) by {
        assert(t[0] == st[0]);
        assert(t.last() == dz.last());
    }
    assert(lacks(t, ',')) by {
        assert forall|i: int| 0 <= i < t.len() implies t[i] != ',' by {
            if i < 2 {
                assert(t[i] == st[i]);
            } else if i > 2 {
                assert(t[i] == dz[i - 3]);
            }
        }
    }
    lemma_spaced_lacks(t, ',');
    lemma_spaced_lacks(a.city, ',');
    lemma_split_single(spaced(t), ',');
    lemma_split_single(spaced(a.city), ',');
    lemma_split_concat(spaced(a.city), spaced(t), ',');
    assert(split(spaced(a.city), ',') + split(spaced(t), ',') =~= seq![spaced(a.city), spaced(t)]);
    lemma_trim_trimmed(t);
    lemma_trim_trimmed(a.city);
    lemma_split_concat(st, dz, ' ');
    lemma_split_single(st, ' ');
    lemma_split_single(dz, ' ');
    assert(split(st, ' ') + split(dz, ' ') =~= seq![st, dz]);
}

#[verifier::rlimit(80)]
proof fn lemma_key_round_trip_plain(a: AddressView)
    requires
        address_wf(a),
        a.apt is None,
    ensures
        parse_address_spec(address_key(a)) == Some(a),
{
    lemma_key_tail(a);
    lemma_trim_trimmed(a.street);
    lemma_split_single(a.street, ',');
    let xc = spaced(a.city);
    let y = spaced(state_zip(a));
    let after = xc + seq![','] + y;
    let k = address_key(a);
    assert(k =~= a.street + seq![','] + after);
    lemma_split_concat(a.street, after, ',');
    assert(split(k, ',') =~= seq![a.street, xc, y]);
    assert(address_parts(k) =~= seq![a.street, a.city, state_zip(a)]);
    let c = address_components(k);
    assert(c =~= seq![a.street, a.city, a.state, decimal(a.zip as nat)]);
    assert(c.len() == 4 && c[0] == a.street && c[1] == a.city && c[2] == a.state);
}

#[verifier::rlimit(80)]
proof fn lemma_key_round_trip_unit(a: AddressView)
    requires
        address_wf(a),
        a.apt is Some,
    ensures
        parse_address_spec(address_key(a)) == Some(a),
{
    lemma_key_tail(a);
    lemma_trim_trimmed(a.street);
    lemma_split_single(a.street, ',');
    let xc = spaced(a.city);
    let y = spaced(state_zip(a));
    let after = xc + seq![','] + y;
    let k = address_key(a);
    let n = a.apt->Some_0;
    let dn = decimal(n as nat);
    lemma_decimal_digits(n as nat);
    lemma_digits_lack(dn, ',');
    lemma_digits_lack(dn, ' ');
    lemma_spaced_lacks(dn, ',');
    let w = spaced(dn);
    lemma_trim_trimmed(dn);
    lemma_split_single(w, ',');
    lemma_split_single(dn, ' ');
    assert(k =~= a.street + seq![','] + (w + seq![','] + after));
    lemma_split_concat(a.street, w + seq![','] + after, ',');
    lemma_split_concat(w, after, ',');
    assert(split(k, ',') =~= seq![a.street, w, xc, y]);
    assert(address_parts(k) =~= seq![a.street, dn, a.city, state_zip(a)]);
    let c = address_components(k);
    assert(c =~= seq![a.street, dn, a.city, a.state, decimal(a.zip as nat)]);
    assert(apt_digits(dn) == dn);
    assert(is_digits(dn) && digits_value(dn) == n);
    let f = c.remove(1);
    assert(f =~= seq![a.street, a.city, a.state, decimal(a.zip as nat)]);
    assert(f.len() == 4 && f[0] == a.street && f[1] == a.city && f[2] == a.state);
}

/// Reading a key as address text gives back the address.
pub proof fn lemma_key_round_trip(a: AddressView)
    requires
        address_wf(a),
    ensures
        parse_address_spec(address_key(a)) == Some(a),
{
    if a.apt is None {
        lemma_key_round_trip_plain(a);
    } else {
        lemma_key_round_trip_unit(a);
    }
}

/// Two well-formed addresses with the same key are the same address.
pub proof fn lemma_key_injective(a: AddressView, b: AddressView)
    requires
        address_wf(a),
        address_wf(b),
        address_key(a) == address_key(b),
    ensures
        a == b,
{
    lemma_key_round_trip(a);
    lemma_key_round_trip(b);
}

} // verus!
