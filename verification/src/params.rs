//! Options and parameters for the verify request, and the credential model
//! that owns canonical signing.
use vstd::prelude::*;
use vstd::seq_lib::lemma_sorted_unique;
use vstd::string::StringSliceAdditionalSpecFns;
use vstd::utf8::encode_utf8;

use crate::util::{
    all_digits, kv_view, lemma_filter_to_multiset_commute, lemma_pair_le_total_ordering,
    pair_le_fn, sort_pairs, spec_dec, u32_to_dec,
};
use crate::Error;

verus! {

/// HMAC-SHA1 of a message under a key; a fixed function of its arguments.
pub uninterp spec fn hmac_sha1_of(key: Seq<u8>, msg: Seq<u8>) -> Seq<u8>;

/// The standard base64 encoding of a byte sequence, as UTF-8 bytes; a fixed
/// function of its argument.
pub uninterp spec fn base64_of(b: Seq<u8>) -> Seq<u8>;

/// The standard base64 decoding of a byte sequence: `Some` exactly on valid
/// base64 input; a fixed function of its argument.
pub uninterp spec fn base64_decoded(s: Seq<u8>) -> Option<Seq<u8>>;

/// Relies on `hmac::Hmac<sha1::Sha1>` via `Mac::new_from_slice` (which
/// accepts keys of any length), `Mac::update` and `Mac::finalize`: the raw
/// HMAC-SHA1 of the message under the key, 20 bytes, a function of key and
/// message alone.
#[verifier::external_body]
fn hmac_sha1(key: &[u8], msg: &[u8]) -> (r: Vec<u8>)
    ensures
        r@ == hmac_sha1_of(key@, msg@),
        r@.len() == 20,
{
    let mut mac = <hmac::Hmac<sha1::Sha1> as hmac::Mac>::new_from_slice(key).unwrap();
    hmac::Mac::update(&mut mac, msg);
    hmac::Mac::finalize(mac).into_bytes().to_vec()
}

/// Relies on `base64::Engine::encode` with the standard engine: the base64
/// text of the input, a function of the input alone; the padded output has
/// four bytes for every started group of three input bytes.
#[verifier::external_body]
fn base64_encode(b: &[u8]) -> (r: String)
    ensures
        encode_utf8(r@) == base64_of(b@),
        encode_utf8(r@).len() == 4 * ((b@.len() + 2) / 3),
{
    base64::Engine::encode(&base64::engine::general_purpose::STANDARD, b)
}

/// Relies on `base64::Engine::decode` with the standard engine: decoding
/// succeeds or fails as a function of the input alone.
#[verifier::external_body]
fn base64_decode(s: &str) -> (r: Result<Vec<u8>, Error>)
    ensures
        match r {
            Ok(b) => base64_decoded(s.spec_bytes()) == Some(b@),
            Err(e) => base64_decoded(s.spec_bytes()) is None && e == Error::DecodeFailure,
        },
{
    match base64::Engine::decode(&base64::engine::general_purpose::STANDARD, s) {
        Ok(b) => Ok(b),
        Err(_) => Err(Error::DecodeFailure),
    }
}

/// Relies on `String::from_utf8`: ASCII digit bytes are valid UTF-8 and
/// decode to a string with exactly those bytes.
#[verifier::external_body]
fn digits_to_string(d: &Vec<u8>) -> (r: String)
    requires
        all_digits(d@),
    ensures
        encode_utf8(r@) == d@,
{
    String::from_utf8(d.clone()).unwrap()
}

/// Requested consistency/latency tradeoff for the authority's replicated
/// backends.
pub enum SyncLevel {
    Percentage(u8),
    Fast,
    Secure,
}

impl SyncLevel {
    /// The wire value of the sync level.
    pub open spec fn spec_wire(self) -> Seq<u8> {
        match self {
            SyncLevel::Percentage(p) => spec_dec(p as int),
            SyncLevel::Fast => "fast".spec_bytes(),
            SyncLevel::Secure => "secure".spec_bytes(),
        }
    }

    /// Render the sync level as its wire value.
    pub fn wire_value(&self) -> (r: String)
        ensures
            encode_utf8(r@) == self.spec_wire(),
    {
        match self {
            SyncLevel::Percentage(p) => {
                let d = u32_to_dec(*p as u32);
                proof {
                    crate::util::lemma_digits_of_dec(*p as int);
                }
                digits_to_string(&d)
            },
            SyncLevel::Fast => "fast".to_owned(),
            SyncLevel::Secure => "secure".to_owned(),
        }
    }
}

/// The view of a list of string pairs as byte-string pairs.
pub open spec fn kv_str_view(kv: Seq<(String, String)>) -> Seq<(Seq<u8>, Seq<u8>)> {
    Seq::new(kv.len(), |i: int| (encode_utf8(kv[i].0@), encode_utf8(kv[i].1@)))
}

/// Options and parameters for the verify request.
pub struct ValidationOption {
    pub timestamp: bool,
    pub sl: Option<SyncLevel>,
    pub timeout: Option<u32>,
    pub endpoint: String,
}

impl Default for ValidationOption {
    /// No timestamp, no sync level, no timeout, the public endpoint.
    fn default() -> (r: Self)
        ensures
            r.timestamp == false,
            r.sl is None,
            r.timeout is None,
            r.endpoint@ == "https://api.yubico.com/wsapi/2.0/verify"@,
    {
        ValidationOption {
            timestamp: false,
            sl: None,
            timeout: None,
            endpoint: "https://api.yubico.com/wsapi/2.0/verify".to_owned(),
        }
    }
}

impl ValidationOption {
    /// Request server timestamp information.
    pub fn enable_timestamp(self) -> (r: Self)
        ensures
            r.timestamp == true,
            r.sl == self.sl,
            r.timeout == self.timeout,
            r.endpoint == self.endpoint,
    {
        ValidationOption { timestamp: true, ..self }
    }

    /// Request a sync level.
    pub fn set_sync_level(self, sl: SyncLevel) -> (r: Self)
        ensures
            r.timestamp == self.timestamp,
            r.sl == Some(sl),
            r.timeout == self.timeout,
            r.endpoint == self.endpoint,
    {
        ValidationOption { sl: Some(sl), ..self }
    }

    /// Request a timeout hint, in seconds.
    pub fn set_timeout(self, timeout: u32) -> (r: Self)
        ensures
            r.timestamp == self.timestamp,
            r.sl == self.sl,
            r.timeout == Some(timeout),
            r.endpoint == self.endpoint,
    {
        ValidationOption { timeout: Some(timeout), ..self }
    }

    /// Use another validation endpoint.
    pub fn set_endpoint(self, endpoint: String) -> (r: Self)
        ensures
            r.timestamp == self.timestamp,
            r.sl == self.sl,
            r.timeout == self.timeout,
            r.endpoint == endpoint,
    {
        ValidationOption { endpoint, ..self }
    }

    /// The optional query pairs the options contribute, in order.
    pub open spec fn spec_query_pairs(self) -> Seq<(Seq<u8>, Seq<u8>)> {
        (if self.timestamp {
            seq![("timestamp".spec_bytes(), "1".spec_bytes())]
        } else {
            Seq::empty()
        }) + (match self.sl {
            Some(sl) => seq![("sl".spec_bytes(), sl.spec_wire())],
            None => Seq::empty(),
        }) + (match self.timeout {
            Some(t) => seq![("timeout".spec_bytes(), spec_dec(t as int))],
            None => Seq::empty(),
        })
    }

    /// The optional query pairs as strings, ready to be appended to a URL.
    pub fn to_query_pairs(&self) -> (r: Vec<(String, String)>)
        ensures
            kv_str_view(r@) == self.spec_query_pairs(),
    {
        let mut r: Vec<(String, String)> = Vec::new();
        if self.timestamp {
            r.push(("timestamp".to_owned(), "1".to_owned()));
        }
        match &self.sl {
            Some(sl) => {
                r.push(("sl".to_owned(), sl.wire_value()));
            },
            None => {},
        }
        match self.timeout {
            Some(t) => {
                let d = u32_to_dec(t);
                proof {
                    crate::util::lemma_digits_of_dec(t as int);
                }
                r.push(("timeout".to_owned(), digits_to_string(&d)));
            },
            None => {},
        }
        proof {
            assert(kv_str_view(r@) =~= self.spec_query_pairs());
        }
        r
    }
}

/// Whether a pair's key is not the signature key `h`.
pub open spec fn non_sig_fn() -> spec_fn((Seq<u8>, Seq<u8>)) -> bool {
    |p: (Seq<u8>, Seq<u8>)| p.0 != "h".spec_bytes()
}

/// The canonical byte string of a pair sequence: `key=value` joined by `&`,
/// with no leading or trailing separator. 61 is `=` and 38 is `&`.
pub open spec fn spec_join_pairs(ps: Seq<(Seq<u8>, Seq<u8>)>) -> Seq<u8>
    decreases ps.len(),
{
    if ps.len() == 0 {
        Seq::empty()
    } else if ps.len() == 1 {
        ps[0].0 + seq![61u8] + ps[0].1
    } else {
        spec_join_pairs(ps.drop_last()) + seq![38u8] + ps.last().0 + seq![61u8] + ps.last().1
    }
}

/// The canonical form of a key/value set: the `h` pairs removed, the rest
/// sorted, then joined.
pub open spec fn spec_canonical(ps: Seq<(Seq<u8>, Seq<u8>)>) -> Seq<u8> {
    spec_join_pairs(ps.filter(non_sig_fn()).sort_by(pair_le_fn()))
}

/// The signature string of a key/value set under a secret: base64 of the
/// HMAC-SHA1 of the canonical form.
pub open spec fn spec_signature(secret: Seq<u8>, ps: Seq<(Seq<u8>, Seq<u8>)>) -> Seq<u8> {
    base64_of(hmac_sha1_of(secret, spec_canonical(ps)))
}

/// API credentials for OTP verification.
pub struct ApiCredentials {
    /// Client ID.
    pub client_id: String,
    /// Client secret, raw bytes.
    pub client_secret: Vec<u8>,
}

impl ApiCredentials {
    /// Create new API credentials from a client ID and a base64-encoded
    /// secret: fails exactly when the secret is not valid base64.
    pub fn from_base64_secret(client_id: String, client_secret: &str) -> (r: Result<
        ApiCredentials,
        Error,
    >)
        ensures
            match r {
                Ok(c) => {
                    &&& base64_decoded(client_secret.spec_bytes()) == Some(c.client_secret@)
                    &&& c.client_id == client_id
                },
                Err(e) => {
                    &&& base64_decoded(client_secret.spec_bytes()) is None
                    &&& e == Error::DecodeFailure
                },
            },
    {
        match base64_decode(client_secret) {
            Ok(b) => Ok(ApiCredentials { client_id, client_secret: b }),
            Err(e) => Err(e),
        }
    }

    /// The canonical HMAC signature of a key/value set under these
    /// credentials: the base64 text of a 20-byte MAC, so exactly 28 bytes.
    pub fn calc_kv_hmac(&self, kv: &Vec<(Vec<u8>, Vec<u8>)>) -> (r: String)
        ensures
            encode_utf8(r@) == spec_signature(self.client_secret@, kv_view(kv@)),
            encode_utf8(r@).len() == 28,
    {
        broadcast use vstd::seq_lib::group_filter_ensures;

        // drop every pair whose key is the signature field itself
        let mut filtered: Vec<(Vec<u8>, Vec<u8>)> = Vec::new();
        let mut i: usize = 0;
        proof {
            reveal(Seq::filter);
            assert(kv_view(kv@).take(0) =~= Seq::<(Seq<u8>, Seq<u8>)>::empty());
            assert(kv_view(filtered@) =~= kv_view(kv@).take(0).filter(non_sig_fn()));
        }
        while i < kv.len()
            invariant
                i <= kv@.len(),
                kv_view(filtered@) == kv_view(kv@).take(i as int).filter(non_sig_fn()),
            decreases kv@.len() - i,
        {
            let keep = !crate::util::bytes_eq_str(kv[i].0.as_slice(), "h");
            let ghost pre = kv_view(filtered@);
            if keep {
                filtered.push((kv[i].0.clone(), kv[i].1.clone()));
            }
            proof {
                let pv = kv_view(kv@)[i as int];
                assert(kv_view(kv@).take(i as int + 1).drop_last() =~= kv_view(kv@).take(i as int));
                assert(kv_view(kv@).take(i as int + 1).last() == pv);
                reveal(Seq::filter);
                if keep {
                    assert(kv_view(filtered@) =~= pre.push(pv));
                }
                assert(kv_view(filtered@) =~= kv_view(kv@).take(i as int + 1).filter(non_sig_fn()));
            }
            i = i + 1;
        }
        proof {
            assert(kv_view(kv@).take(kv@.len() as int) =~= kv_view(kv@));
        }
        // sort into canonical order
        let sorted = sort_pairs(filtered);
        // join into the canonical byte string
        let msg = join_pairs(&sorted);
        // sign
        let mac = hmac_sha1(self.client_secret.as_slice(), msg.as_slice());
        base64_encode(mac.as_slice())
    }
}

/// Join sorted pairs into the canonical byte string.
fn join_pairs(ps: &Vec<(Vec<u8>, Vec<u8>)>) -> (r: Vec<u8>)
    ensures
        r@ == spec_join_pairs(kv_view(ps@)),
{
    let mut r: Vec<u8> = Vec::new();
    let mut i: usize = 0;
    proof {
        assert(kv_view(ps@).take(0) =~= Seq::<(Seq<u8>, Seq<u8>)>::empty());
        assert(r@ =~= spec_join_pairs(kv_view(ps@).take(0)));
    }
    while i < ps.len()
        invariant
            i <= ps@.len(),
            r@ == spec_join_pairs(kv_view(ps@).take(i as int)),
        decreases ps@.len() - i,
    {
        let ghost pre = r@;
        if i > 0 {
            r.push(38u8);
        }
        extend_bytes(&mut r, &ps[i].0);
        r.push(61u8);
        extend_bytes(&mut r, &ps[i].1);
        proof {
            let pv = kv_view(ps@)[i as int];
            assert(kv_view(ps@).take(i as int + 1).drop_last() =~= kv_view(ps@).take(i as int));
            assert(kv_view(ps@).take(i as int + 1).last() == pv);
            if i == 0 {
                assert(r@ =~= pv.0 + seq![61u8] + pv.1);
            } else {
                assert(r@ =~= spec_join_pairs(kv_view(ps@).take(i as int)) + seq![38u8] + pv.0
                    + seq![61u8] + pv.1);
            }
            assert(r@ =~= spec_join_pairs(kv_view(ps@).take(i as int + 1)));
        }
        i = i + 1;
    }
    proof {
        assert(kv_view(ps@).take(ps@.len() as int) =~= kv_view(ps@));
    }
    r
}

/// Append the bytes of `src` to `dst`.
fn extend_bytes(dst: &mut Vec<u8>, src: &Vec<u8>)
    ensures
        final(dst)@ == old(dst)@ + src@,
{
    let mut k: usize = 0;
    proof {
        assert(old(dst)@ + src@.take(0) =~= old(dst)@);
    }
    while k < src.len()
        invariant
            k <= src@.len(),
            dst@ == old(dst)@ + src@.take(k as int),
        decreases src@.len() - k,
    {
        dst.push(src[k]);
        proof {
            assert(src@.take(k as int + 1) =~= src@.take(k as int).push(src@[k as int]));
            assert(dst@ =~= old(dst)@ + src@.take(k as int + 1));
        }
        k = k + 1;
    }
    proof {
        assert(src@.take(src@.len() as int) =~= src@);
    }
}

/// Canonicalization is order-independent: two key/value sets that are
/// permutations of one another (equal as multisets) yield the same
/// signature under any secret.
pub proof fn lemma_signature_order_independent(
    secret: Seq<u8>,
    a: Seq<(Seq<u8>, Seq<u8>)>,
    b: Seq<(Seq<u8>, Seq<u8>)>,
)
    requires
        a.to_multiset() == b.to_multiset(),
    ensures
        spec_signature(secret, a) == spec_signature(secret, b),
{
    let pred = non_sig_fn();
    lemma_filter_to_multiset_commute(a, pred);
    lemma_filter_to_multiset_commute(b, pred);
    lemma_pair_le_total_ordering();
    a.filter(pred).lemma_sort_by_ensures(pair_le_fn());
    b.filter(pred).lemma_sort_by_ensures(pair_le_fn());
    lemma_sorted_unique(
        a.filter(pred).sort_by(pair_le_fn()),
        b.filter(pred).sort_by(pair_le_fn()),
        pair_le_fn(),
    );
}

/// Canonicalization excludes `h`: adding a pair whose key is `h`, with any
/// value, never changes the signature.
pub proof fn lemma_signature_excludes_sig_field(
    secret: Seq<u8>,
    ps: Seq<(Seq<u8>, Seq<u8>)>,
    v: Seq<u8>,
)
    ensures
        spec_signature(secret, ps.push(("h".spec_bytes(), v))) == spec_signature(secret, ps),
{
    let pred = non_sig_fn();
    let x = ("h".spec_bytes(), v);
    reveal(Seq::filter);
    assert(ps.push(x).drop_last() =~= ps);
    assert(ps.push(x).filter(pred) == ps.filter(pred));
}

} // verus!
