//! The validation protocol engine: build a canonically-signed request URL,
//! and authenticate a response body before trusting its stated outcome.
use vstd::prelude::*;
use vstd::string::StringSliceAdditionalSpecFns;
use vstd::utf8::encode_utf8;

use crate::params::{spec_signature, ApiCredentials, ValidationOption};
use crate::response::{
    spec_response_of, spec_status_of, ValidationResponse, ValidationStatus,
};
use crate::util::{bytes_eq, kv_view};
use crate::Error;

verus! {

/// The index of the first occurrence of a byte, if any.
pub open spec fn find_byte(s: Seq<u8>, b: u8) -> Option<int>
    decreases s.len(),
{
    if s.len() == 0 {
        None
    } else if s[0] == b {
        Some(0int)
    } else {
        match find_byte(s.skip(1), b) {
            Some(i) => Some(i + 1),
            None => None,
        }
    }
}

/// What `find_byte` finds: the first occurrence, within bounds.
pub proof fn lemma_find_byte_props(s: Seq<u8>, b: u8)
    ensures
        match find_byte(s, b) {
            Some(i) => 0 <= i < s.len() && s[i] == b && forall|j: int| 0 <= j < i ==> s[j] != b,
            None => forall|j: int| 0 <= j < s.len() ==> s[j] != b,
        },
    decreases s.len(),
{
    if s.len() > 0 && s[0] != b {
        lemma_find_byte_props(s.skip(1), b);
        assert forall|j: int| 0 <= j < s.len() implies (find_byte(s, b) is None ==> s[j] != b) by {
            if j > 0 {
                assert(s.skip(1)[j - 1] == s[j]);
            }
        }
        if find_byte(s.skip(1), b) is Some {
            let i = find_byte(s.skip(1), b)->0;
            assert(s.skip(1)[i] == s[i + 1]);
            assert forall|j: int| 0 <= j < i + 1 implies s[j] != b by {
                if j > 0 {
                    assert(s.skip(1)[j - 1] == s[j]);
                }
            }
        }
    }
}

/// The first occurrence of a byte at a known position.
pub proof fn lemma_find_byte_at(s: Seq<u8>, b: u8, k: int)
    requires
        0 <= k < s.len(),
        s[k] == b,
        forall|j: int| 0 <= j < k ==> s[j] != b,
    ensures
        find_byte(s, b) == Some(k),
{
    lemma_find_byte_props(s, b);
    match find_byte(s, b) {
        Some(i) => {
            if i < k {
                assert(s[i] != b);
            }
            if k < i {
                assert(s[k] != b);
            }
        },
        None => {
            assert(s[k] != b);
        },
    }
}

/// Split at every occurrence of a byte; the separators are not kept, and a
/// trailing separator yields a final empty segment.
pub open spec fn spec_split(s: Seq<u8>, b: u8) -> Seq<Seq<u8>>
    decreases s.len(),
    via spec_split_decreases
{
    match find_byte(s, b) {
        None => seq![s],
        Some(i) => seq![s.take(i)] + spec_split(s.skip(i + 1), b),
    }
}

#[via_fn]
proof fn spec_split_decreases(s: Seq<u8>, b: u8) {
    lemma_find_byte_props(s, b);
}

/// A line with one trailing carriage return removed. 13 is `\r`.
pub open spec fn strip_cr(l: Seq<u8>) -> Seq<u8> {
    if l.len() > 0 && l.last() == 13 {
        l.drop_last()
    } else {
        l
    }
}

/// The lines of a response body: split at newlines (10 is `\n`); every
/// segment that a newline terminated has one trailing carriage return
/// removed, as the transport sends `\r\n` line endings.
pub open spec fn spec_body_lines(s: Seq<u8>) -> Seq<Seq<u8>> {
    let segs = spec_split(s, 10);
    Seq::new(segs.len(), |i: int| if i < segs.len() - 1 {
        strip_cr(segs[i])
    } else {
        segs[i]
    })
}

/// A nonempty line.
pub open spec fn nonempty_fn() -> spec_fn(Seq<u8>) -> bool {
    |l: Seq<u8>| l.len() > 0
}

/// A line as a key/value pair: the first `=` (61) separates key from value;
/// with no `=` the whole line is the key and the value is empty.
pub open spec fn spec_line_pair(l: Seq<u8>) -> (Seq<u8>, Seq<u8>) {
    match find_byte(l, 61) {
        None => (l, Seq::empty()),
        Some(i) => (l.take(i), l.skip(i + 1)),
    }
}

pub open spec fn line_pair_fn() -> spec_fn(Seq<u8>) -> (Seq<u8>, Seq<u8>) {
    |l: Seq<u8>| spec_line_pair(l)
}

/// The key/value set of a response body: one pair per nonempty line.
pub open spec fn spec_body_kv(s: Seq<u8>) -> Seq<(Seq<u8>, Seq<u8>)> {
    spec_body_lines(s).filter(nonempty_fn()).map_values(line_pair_fn())
}

/// The value of the first pair with the given key, if any.
pub open spec fn spec_first_value(kv: Seq<(Seq<u8>, Seq<u8>)>, key: Seq<u8>) -> Option<Seq<u8>>
    decreases kv.len(),
{
    if kv.len() == 0 {
        None
    } else if kv[0].0 == key {
        Some(kv[0].1)
    } else {
        spec_first_value(kv.skip(1), key)
    }
}

/// A found value, or the empty sentinel: a response missing a required
/// field compares as a mismatch, never as a distinct error.
pub open spec fn or_empty(o: Option<Seq<u8>>) -> Seq<u8> {
    match o {
        Some(v) => v,
        None => Seq::empty(),
    }
}

/// The authenticity gate: the recomputed signature matches the `h` field,
/// and the `nonce` and `otp` fields echo what this client sent.
pub open spec fn spec_gate_ok(secret: Seq<u8>, nonce: Seq<u8>, otp: Seq<u8>, body: Seq<u8>) -> bool {
    let kv = spec_body_kv(body);
    &&& or_empty(spec_first_value(kv, "h".spec_bytes())) == spec_signature(secret, kv)
    &&& or_empty(spec_first_value(kv, "nonce".spec_bytes())) == nonce
    &&& or_empty(spec_first_value(kv, "otp".spec_bytes())) == otp
}

/// What verifying a response body yields: `InvalidSignature` unless the
/// gate passes, then `InvalidResponseFormat` unless the status is
/// recognized and every numeric field parses, then the typed result.
pub open spec fn spec_verify(secret: Seq<u8>, nonce: Seq<u8>, otp: Seq<u8>, body: Seq<u8>) -> Result<
    (ValidationStatus, ValidationResponse),
    Error,
> {
    let kv = spec_body_kv(body);
    if !spec_gate_ok(secret, nonce, otp, body) {
        Err(Error::InvalidSignature)
    } else {
        match spec_status_of(or_empty(spec_first_value(kv, "status".spec_bytes()))) {
            None => Err(Error::InvalidResponseFormat),
            Some(st) => match spec_response_of(kv) {
                None => Err(Error::InvalidResponseFormat),
                Some(resp) => Ok((st, resp)),
            },
        }
    }
}

/// An absolute URL of the `url` crate; opaque here but for its query
/// pairs.
#[verifier::external_type_specification]
#[verifier::external_body]
pub struct ExUrl(url::Url);

/// The query pairs of a URL, percent-decoded, as `Url::query_pairs` yields
/// them, keys and values as UTF-8 bytes.
pub uninterp spec fn url_query_of(u: url::Url) -> Seq<(Seq<u8>, Seq<u8>)>;

/// The decoded query pairs of the URL a string parses to.
pub uninterp spec fn parsed_query_of(s: Seq<u8>) -> Seq<(Seq<u8>, Seq<u8>)>;

/// The serialization of everything of a URL but its query: scheme,
/// authority, path and fragment.
pub uninterp spec fn url_base_of(u: url::Url) -> Seq<u8>;

/// The non-query parts of the URL a string parses to.
pub uninterp spec fn parsed_base_of(s: Seq<u8>) -> Seq<u8>;

/// Whether `url::Url::parse` accepts a string as a well-formed absolute
/// URL; a function of the string alone.
pub uninterp spec fn url_parse_ok(s: Seq<u8>) -> bool;

/// Relies on `url::Url::parse`: whether a string parses, and the query
/// pairs and non-query parts of the parsed URL, are functions of the
/// string alone; parsing returns, never panics.
#[verifier::external_body]
fn url_parse(s: &str) -> (r: Result<url::Url, Error>)
    ensures
        r is Ok <==> url_parse_ok(s.spec_bytes()),
        match r {
            Ok(u) => url_query_of(u) == parsed_query_of(s.spec_bytes()) && url_base_of(u)
                == parsed_base_of(s.spec_bytes()),
            Err(e) => e == Error::UrlError,
        },
{
    match url::Url::parse(s) {
        Ok(u) => Ok(u),
        Err(_) => Err(Error::UrlError),
    }
}

/// Relies on `url::Url::query_pairs_mut` and
/// `form_urlencoded::Serializer::append_pair`: the pair is percent-encoded
/// into the query, so decoding the query afterwards yields the old pairs
/// followed by exactly this pair; only the query component is written, so
/// scheme, authority, path and fragment stay as they were.
#[verifier::external_body]
fn url_append_pair(u: &mut url::Url, k: &str, v: &str)
    ensures
        url_query_of(*final(u)) == url_query_of(*old(u)).push((k.spec_bytes(), v.spec_bytes())),
        url_base_of(*final(u)) == url_base_of(*old(u)),
{
    u.query_pairs_mut().append_pair(k, v);
}

/// Relies on `url::Url::query_pairs`: yields the percent-decoded pairs of
/// the query, in order.
#[verifier::external_body]
fn url_query_pairs(u: &url::Url) -> (r: Vec<(Vec<u8>, Vec<u8>)>)
    ensures
        kv_view(r@) == url_query_of(*u),
{
    u.query_pairs().map(|(k, v)| (k.into_owned().into_bytes(), v.into_owned().into_bytes())).collect()
}

/// An ASCII letter or digit.
pub open spec fn is_alnum(b: u8) -> bool {
    (48 <= b && b <= 57) || (65 <= b && b <= 90) || (97 <= b && b <= 122)
}

/// Relies on `rand::distributions::Alphanumeric`: every sampled byte is an
/// ASCII letter or digit. Nothing more is assumed of the randomness: two
/// calls may return different strings.
#[verifier::external_body]
fn random_nonce() -> (r: String)
    ensures
        r@.len() == 32,
        encode_utf8(r@).len() == 32,
        forall|i: int| 0 <= i < 32 ==> is_alnum(#[trigger] encode_utf8(r@)[i]),
{
    let rng = rand::thread_rng();
    rand::Rng::sample_iter(rng, &rand::distributions::Alphanumeric).take(32).map(
        char::from,
    ).collect()
}

impl ApiCredentials {
    /// The canonical HMAC signature over a URL's decoded query pairs.
    pub fn calc_url_hmac(&self, url: &url::Url) -> (r: String)
        ensures
            encode_utf8(r@) == spec_signature(self.client_secret@, url_query_of(*url)),
    {
        let pairs = url_query_pairs(url);
        self.calc_kv_hmac(&pairs)
    }

    /// Sign a URL: append the query parameter `h` holding the canonical
    /// signature of the query pairs; everything but the query is unchanged.
    pub fn sign_url(&self, url: &mut url::Url)
        ensures
            url_query_of(*final(url)) == url_query_of(*old(url)).push(
                ("h".spec_bytes(), spec_signature(self.client_secret@, url_query_of(*old(url)))),
            ),
            url_base_of(*final(url)) == url_base_of(*old(url)),
    {
        let sig = self.calc_url_hmac(url);
        url_append_pair(url, "h", sig.as_str());
    }
}

/// The query pairs of one validation request, before signing: the parsed
/// endpoint's own pairs, then `id`, `otp` and `nonce`, then the optional
/// pairs of the options.
pub open spec fn spec_request_pairs(
    creds: ApiCredentials,
    otp: Seq<u8>,
    nonce: Seq<u8>,
    opt: ValidationOption,
) -> Seq<(Seq<u8>, Seq<u8>)> {
    parsed_query_of(encode_utf8(opt.endpoint@)) + seq![
        ("id".spec_bytes(), encode_utf8(creds.client_id@)),
        ("otp".spec_bytes(), otp),
        ("nonce".spec_bytes(), nonce),
    ] + opt.spec_query_pairs()
}

/// Build one signed validation request: generate a fresh 32-character
/// alphanumeric nonce, assemble the query, and sign it. Succeeds exactly
/// when the endpoint parses as a URL, and touches nothing of it but the
/// query.
pub fn build_signed_request(
    creds: &ApiCredentials,
    otp: &str,
    opt: &ValidationOption,
) -> (r: Result<(url::Url, String), Error>)
    ensures
        r is Ok <==> url_parse_ok(encode_utf8(opt.endpoint@)),
        match r {
            Ok((u, nonce)) => {
                &&& nonce@.len() == 32
                &&& encode_utf8(nonce@).len() == 32
                &&& forall|i: int| 0 <= i < 32 ==> is_alnum(#[trigger] encode_utf8(nonce@)[i])
                &&& url_base_of(u) == parsed_base_of(encode_utf8(opt.endpoint@))
                &&& ({
                    let base = spec_request_pairs(*creds, otp.spec_bytes(), encode_utf8(nonce@), *opt);
                    url_query_of(u) == base.push(
                        ("h".spec_bytes(), spec_signature(creds.client_secret@, base)),
                    )
                })
            },
            Err(e) => e == Error::UrlError,
        },
{
    let nonce = random_nonce();
    let mut url = match url_parse(opt.endpoint.as_str()) {
        Ok(u) => u,
        Err(e) => {
            return Err(e);
        },
    };
    url_append_pair(&mut url, "id", creds.client_id.as_str());
    url_append_pair(&mut url, "otp", otp);
    url_append_pair(&mut url, "nonce", nonce.as_str());
    let pairs = opt.to_query_pairs();
    let ghost base = spec_request_pairs(*creds, otp.spec_bytes(), encode_utf8(nonce@), *opt);
    proof {
        assert(url_query_of(url) =~= parsed_query_of(encode_utf8(opt.endpoint@)) + seq![
            ("id".spec_bytes(), encode_utf8(creds.client_id@)),
            ("otp".spec_bytes(), otp.spec_bytes()),
            ("nonce".spec_bytes(), encode_utf8(nonce@)),
        ] + crate::params::kv_str_view(pairs@).take(0));
    }
    let mut i: usize = 0;
    while i < pairs.len()
        invariant
            i <= pairs@.len(),
            crate::params::kv_str_view(pairs@) == opt.spec_query_pairs(),
            url_base_of(url) == parsed_base_of(encode_utf8(opt.endpoint@)),
            url_query_of(url) == parsed_query_of(encode_utf8(opt.endpoint@)) + seq![
                ("id".spec_bytes(), encode_utf8(creds.client_id@)),
                ("otp".spec_bytes(), otp.spec_bytes()),
                ("nonce".spec_bytes(), encode_utf8(nonce@)),
            ] + crate::params::kv_str_view(pairs@).take(i as int),
        decreases pairs@.len() - i,
    {
        url_append_pair(&mut url, pairs[i].0.as_str(), pairs[i].1.as_str());
        proof {
            let kvs = crate::params::kv_str_view(pairs@);
            assert(kvs.take(i as int + 1) =~= kvs.take(i as int).push(kvs[i as int]));
            assert(url_query_of(url) =~= parsed_query_of(encode_utf8(opt.endpoint@)) + seq![
                ("id".spec_bytes(), encode_utf8(creds.client_id@)),
                ("otp".spec_bytes(), otp.spec_bytes()),
                ("nonce".spec_bytes(), encode_utf8(nonce@)),
            ] + kvs.take(i as int + 1));
        }
        i = i + 1;
    }
    proof {
        let kvs = crate::params::kv_str_view(pairs@);
        assert(kvs.take(kvs.len() as int) =~= kvs);
        assert(url_query_of(url) =~= base);
    }
    creds.sign_url(&mut url);
    Ok((url, nonce))
}

/// Copy a range of a slice.
fn bytes_range(s: &[u8], a: usize, b: usize) -> (r: Vec<u8>)
    requires
        a <= b <= s@.len(),
    ensures
        r@ == s@.subrange(a as int, b as int),
{
    let mut r: Vec<u8> = Vec::new();
    let mut i: usize = a;
    while i < b
        invariant
            a <= i <= b <= s@.len(),
            r@ == s@.subrange(a as int, i as int),
        decreases b - i,
    {
        r.push(s[i]);
        proof {
            assert(r@ =~= s@.subrange(a as int, i as int + 1));
        }
        i = i + 1;
    }
    proof {
        assert(r@ =~= s@.subrange(a as int, b as int));
    }
    r
}

/// The view of a list of byte strings.
pub open spec fn lines_view(v: Seq<Vec<u8>>) -> Seq<Seq<u8>> {
    Seq::new(v.len(), |i: int| v[i]@)
}

/// Split a byte slice at every occurrence of a byte.
fn split_bytes(s: &[u8], sep: u8) -> (r: Vec<Vec<u8>>)
    ensures
        lines_view(r@) == spec_split(s@, sep),
{
    let n = s.len();
    let mut r: Vec<Vec<u8>> = Vec::new();
    let mut start: usize = 0;
    let mut i: usize = 0;
    proof {
        assert(s@.skip(0) =~= s@);
        assert(lines_view(r@) + spec_split(s@, sep) =~= spec_split(s@, sep));
    }
    loop
        invariant
            start <= i <= n,
            n == s@.len(),
            forall|j: int| start <= j < i ==> s@[j] != sep,
            spec_split(s@, sep) == lines_view(r@) + spec_split(s@.skip(start as int), sep),
        decreases n - i,
    {
        if i == n {
            let seg = bytes_range(s, start, n);
            proof {
                let rest = s@.skip(start as int);
                assert forall|j: int| 0 <= j < rest.len() implies rest[j] != sep by {
                    assert(rest[j] == s@[start + j]);
                }
                lemma_find_byte_props(rest, sep);
                assert(find_byte(rest, sep) is None);
                assert(spec_split(rest, sep) == seq![rest]);
                assert(seg@ =~= rest);
            }
            r.push(seg);
            proof {
                assert(lines_view(r@) =~= spec_split(s@, sep));
            }
            return r;
        }
        if s[i] == sep {
            let seg = bytes_range(s, start, i);
            let ghost pre = lines_view(r@);
            r.push(seg);
            proof {
                let rest = s@.skip(start as int);
                let k = i - start;
                assert(rest[k] == s@[i as int]);
                assert forall|j: int| 0 <= j < k implies rest[j] != sep by {
                    assert(rest[j] == s@[start + j]);
                }
                lemma_find_byte_at(rest, sep, k);
                assert(spec_split(rest, sep) == seq![rest.take(k)] + spec_split(
                    rest.skip(k + 1),
                    sep,
                ));
                assert(rest.take(k) =~= s@.subrange(start as int, i as int));
                assert(rest.skip(k + 1) =~= s@.skip(i as int + 1));
                assert(lines_view(r@) =~= pre.push(seg@));
                assert(pre.push(seg@) + spec_split(s@.skip(i as int + 1), sep) =~= pre + (seq![
                    seg@,
                ] + spec_split(s@.skip(i as int + 1), sep)));
                assert(spec_split(s@, sep) == lines_view(r@) + spec_split(
                    s@.skip(i as int + 1),
                    sep,
                ));
            }
            start = i + 1;
            i = i + 1;
        } else {
            i = i + 1;
        }
    }
}

/// Parse a response body into its key/value set.
pub fn parse_body_kv(body: &[u8]) -> (r: Vec<(Vec<u8>, Vec<u8>)>)
    ensures
        kv_view(r@) == spec_body_kv(body@),
{
    broadcast use vstd::seq_lib::group_filter_ensures;

    let segs = split_bytes(body, 10);
    let ghost lines = spec_body_lines(body@);
    proof {
        assert(lines.len() == segs@.len());
    }
    let mut r: Vec<(Vec<u8>, Vec<u8>)> = Vec::new();
    let mut i: usize = 0;
    proof {
        reveal(Seq::filter);
        assert(lines.take(0) =~= Seq::<Seq<u8>>::empty());
        assert(kv_view(r@) =~= lines.take(0).filter(nonempty_fn()).map_values(line_pair_fn()));
    }
    while i < segs.len()
        invariant
            i <= segs@.len(),
            lines == spec_body_lines(body@),
            lines.len() == segs@.len(),
            lines_view(segs@) == spec_split(body@, 10),
            kv_view(r@) == lines.take(i as int).filter(nonempty_fn()).map_values(line_pair_fn()),
        decreases segs@.len() - i,
    {
        let mut line: Vec<u8> = vstd::slice::slice_to_vec(segs[i].as_slice());
        if i + 1 < segs.len() {
            if line.len() > 0 && line[line.len() - 1] == 13 {
                let _ = line.pop();
            }
        }
        proof {
            assert(lines[i as int] == if (i as int) < lines.len() - 1 {
                strip_cr(segs@[i as int]@)
            } else {
                segs@[i as int]@
            });
            assert(line@ == lines[i as int]);
        }
        let ghost pre = kv_view(r@);
        if line.len() > 0 {
            // split the line at its first `=`
            let m = line.len();
            let mut j: usize = 0;
            loop
                invariant
                    j <= m,
                    m == line@.len(),
                    forall|t: int| 0 <= t < j ==> line@[t] != 61,
                ensures
                    j <= m,
                    forall|t: int| 0 <= t < j ==> line@[t] != 61,
                    j < m ==> line@[j as int] == 61,
                decreases m - j,
            {
                if j == m {
                    break;
                }
                if line[j] == 61 {
                    break;
                }
                j = j + 1;
            }
            let pair = if j == m {
                proof {
                    lemma_find_byte_props(line@, 61);
                    if find_byte(line@, 61) is Some {
                        let t = find_byte(line@, 61)->0;
                        assert(line@[t] != 61);
                    }
                    assert(spec_line_pair(line@) == (line@, Seq::<u8>::empty()));
                }
                let empty: Vec<u8> = Vec::new();
                (line, empty)
            } else {
                proof {
                    lemma_find_byte_at(line@, 61, j as int);
                    assert(spec_line_pair(line@) == (line@.take(j as int), line@.skip(j as int + 1)));
                    assert(line@.subrange(0, j as int) =~= line@.take(j as int));
                    assert(line@.subrange(j as int + 1, line@.len() as int) =~= line@.skip(
                        j as int + 1,
                    ));
                }
                let k = bytes_range(line.as_slice(), 0, j);
                let v = bytes_range(line.as_slice(), j + 1, m);
                (k, v)
            };
            r.push(pair);
            proof {
                reveal(Seq::filter);
                let lv = lines[i as int];
                assert(lines.take(i as int + 1).drop_last() =~= lines.take(i as int));
                assert(lines.take(i as int + 1).last() == lv);
                let f = lines.take(i as int).filter(nonempty_fn());
                assert(lines.take(i as int + 1).filter(nonempty_fn()) == f.push(lv));
                assert(f.push(lv).map_values(line_pair_fn()) =~= f.map_values(
                    line_pair_fn(),
                ).push(spec_line_pair(lv)));
                assert(kv_view(r@) =~= pre.push(spec_line_pair(lv)));
                assert(kv_view(r@) =~= lines.take(i as int + 1).filter(nonempty_fn()).map_values(
                    line_pair_fn(),
                ));
            }
        } else {
            proof {
                reveal(Seq::filter);
                let lv = lines[i as int];
                assert(lines.take(i as int + 1).drop_last() =~= lines.take(i as int));
                assert(lines.take(i as int + 1).last() == lv);
                assert(lines.take(i as int + 1).filter(nonempty_fn()) == lines.take(
                    i as int,
                ).filter(nonempty_fn()));
            }
        }
        i = i + 1;
    }
    proof {
        assert(lines.take(lines.len() as int) =~= lines);
    }
    r
}

/// The value of the first pair with the given key.
fn first_value(kv: &Vec<(Vec<u8>, Vec<u8>)>, key: &str) -> (r: Option<Vec<u8>>)
    ensures
        match r {
            Some(v) => spec_first_value(kv_view(kv@), key.spec_bytes()) == Some(v@),
            None => spec_first_value(kv_view(kv@), key.spec_bytes()) is None,
        },
{
    let mut i: usize = 0;
    proof {
        assert(kv_view(kv@).skip(0) =~= kv_view(kv@));
    }
    while i < kv.len()
        invariant
            i <= kv@.len(),
            spec_first_value(kv_view(kv@), key.spec_bytes()) == spec_first_value(
                kv_view(kv@).skip(i as int),
                key.spec_bytes(),
            ),
        decreases kv@.len() - i,
    {
        proof {
            assert(kv_view(kv@).skip(i as int)[0] == kv_view(kv@)[i as int]);
            assert(kv_view(kv@).skip(i as int).skip(1) =~= kv_view(kv@).skip(i as int + 1));
        }
        if crate::util::bytes_eq_str(kv[i].0.as_slice(), key) {
            return Some(vstd::slice::slice_to_vec(kv[i].1.as_slice()));
        }
        i = i + 1;
    }
    proof {
        assert(kv_view(kv@).skip(kv@.len() as int) =~= Seq::<(Seq<u8>, Seq<u8>)>::empty());
    }
    None
}

/// Authenticate and type a response body: the result is exactly what
/// `spec_verify` prescribes for the sent nonce and OTP.
pub fn verify_response(
    creds: &ApiCredentials,
    nonce: &[u8],
    otp: &[u8],
    body: &[u8],
) -> (r: Result<(ValidationStatus, ValidationResponse), Error>)
    ensures
        r == spec_verify(creds.client_secret@, nonce@, otp@, body@),
{
    let kv = parse_body_kv(body);
    let sig = creds.calc_kv_hmac(&kv);
    let h = match first_value(&kv, "h") {
        Some(v) => v,
        None => Vec::new(),
    };
    let n = match first_value(&kv, "nonce") {
        Some(v) => v,
        None => Vec::new(),
    };
    let o = match first_value(&kv, "otp") {
        Some(v) => v,
        None => Vec::new(),
    };
    let sig_ok = bytes_eq(h.as_slice(), sig.as_str().as_bytes());
    let nonce_ok = bytes_eq(n.as_slice(), nonce);
    let otp_ok = bytes_eq(o.as_slice(), otp);
    if !sig_ok || !nonce_ok || !otp_ok {
        return Err(Error::InvalidSignature);
    }
    let status_v = match first_value(&kv, "status") {
        Some(v) => v,
        None => Vec::new(),
    };
    let status = match ValidationStatus::try_from(status_v.as_slice()) {
        Some(st) => st,
        None => {
            return Err(Error::InvalidResponseFormat);
        },
    };
    match ValidationResponse::parse_from_kv(&kv) {
        Ok(resp) => Ok((status, resp)),
        Err(e) => Err(e),
    }
}

/// A response whose `nonce` field does not echo the nonce this client
/// generated for the request is rejected as `InvalidSignature`, whatever
/// its signature says.
pub proof fn lemma_verify_rejects_wrong_nonce(
    secret: Seq<u8>,
    nonce: Seq<u8>,
    otp: Seq<u8>,
    body: Seq<u8>,
)
    requires
        or_empty(spec_first_value(spec_body_kv(body), "nonce".spec_bytes())) != nonce,
    ensures
        spec_verify(secret, nonce, otp, body) is Err,
        spec_verify(secret, nonce, otp, body)->Err_0 == Error::InvalidSignature,
{
}

/// A response whose `h` field differs from the signature recomputed over
/// its own key/value set is rejected as `InvalidSignature`: tampering with
/// any field that changes the recomputed signature is caught here.
pub proof fn lemma_verify_rejects_bad_signature(
    secret: Seq<u8>,
    nonce: Seq<u8>,
    otp: Seq<u8>,
    body: Seq<u8>,
)
    requires
        or_empty(spec_first_value(spec_body_kv(body), "h".spec_bytes())) != spec_signature(
            secret,
            spec_body_kv(body),
        ),
    ensures
        spec_verify(secret, nonce, otp, body) is Err,
        spec_verify(secret, nonce, otp, body)->Err_0 == Error::InvalidSignature,
{
}

/// A `status` outside the ten recognized strings never yields a default
/// status: the result is an error, and `InvalidResponseFormat` whenever
/// the authenticity gate passed.
pub proof fn lemma_verify_rejects_unknown_status(
    secret: Seq<u8>,
    nonce: Seq<u8>,
    otp: Seq<u8>,
    body: Seq<u8>,
)
    requires
        spec_status_of(
            or_empty(spec_first_value(spec_body_kv(body), "status".spec_bytes())),
        ) is None,
    ensures
        spec_verify(secret, nonce, otp, body) is Err,
        spec_gate_ok(secret, nonce, otp, body) ==> spec_verify(secret, nonce, otp, body)->Err_0
            == Error::InvalidResponseFormat,
{
}

} // verus!
