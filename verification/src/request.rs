//! Translation of the platform's proxy event into a standard request value:
//! validation of the envelope's required fields, query-string parsing into a
//! multimap, header accumulation, and body decoding.

use vstd::prelude::*;
use vstd::string::{StrSliceExecFns, StringExecFns};
use vstd::utf8::encode_utf8;
use crate::body::Body;
use crate::error::NowError;
use crate::strmap::{StrMap, MapModel, spec_insert};
use crate::base64;

verus! {

/// The views of a sequence of string pairs.
pub open spec fn pairs_views(s: Seq<(String, String)>) -> Seq<(Seq<char>, Seq<char>)> {
    Seq::new(s.len(), |i: int| (s[i].0@, s[i].1@))
}

/// The map obtained by inserting the pairs into `es`, left to right.
pub open spec fn accumulate_onto(es: MapModel, ps: Seq<(Seq<char>, Seq<char>)>) -> MapModel
    decreases ps.len(),
{
    if ps.len() == 0 {
        es
    } else {
        accumulate_onto(spec_insert(es, ps[0].0, ps[0].1), ps.drop_first())
    }
}

/// Inserting a single leading pair first, then the rest.
proof fn lemma_accumulate_cons(es: MapModel, p: (Seq<char>, Seq<char>), ps: Seq<
    (Seq<char>, Seq<char>),
>)
    ensures
        accumulate_onto(es, seq![p] + ps) == accumulate_onto(spec_insert(es, p.0, p.1), ps),
{
    let whole = seq![p] + ps;
    assert(whole[0] == p);
    assert(whole.drop_first() =~= ps);
}

/// Appending one pair at the end inserts it last.
pub(crate) proof fn lemma_accumulate_snoc(es: MapModel, ps: Seq<(Seq<char>, Seq<char>)>, p: (
    Seq<char>,
    Seq<char>,
))
    ensures
        accumulate_onto(es, ps.push(p)) == spec_insert(
            accumulate_onto(es, ps),
            p.0,
            p.1,
        ),
    decreases ps.len(),
{
    let whole = ps.push(p);
    assert(whole.len() == ps.len() + 1);
    if ps.len() == 0 {
        assert(whole[0] == p);
        assert(whole.drop_first() =~= Seq::<(Seq<char>, Seq<char>)>::empty());
        assert(accumulate_onto(es, whole) == accumulate_onto(
            spec_insert(es, whole[0].0, whole[0].1),
            whole.drop_first(),
        ));
        assert(accumulate_onto(spec_insert(es, p.0, p.1), whole.drop_first()) == spec_insert(
            es,
            p.0,
            p.1,
        ));
    } else {
        assert(whole[0] == ps[0]);
        assert(whole.drop_first() =~= ps.drop_first().push(p));
        lemma_accumulate_snoc(spec_insert(es, ps[0].0, ps[0].1), ps.drop_first(), p);
        assert(accumulate_onto(es, whole) == accumulate_onto(
            spec_insert(es, whole[0].0, whole[0].1),
            whole.drop_first(),
        ));
        assert(accumulate_onto(es, ps) == accumulate_onto(
            spec_insert(es, ps[0].0, ps[0].1),
            ps.drop_first(),
        ));
    }
}

/// The index of the first occurrence of `c`, or -1 when absent.
pub open spec fn find_char(s: Seq<char>, c: char) -> int
    decreases s.len(),
{
    if s.len() == 0 {
        -1
    } else if s[0] == c {
        0
    } else {
        let r = find_char(s.drop_first(), c);
        if r < 0 {
            -1
        } else {
            r + 1
        }
    }
}

/// `find_char` returns the first occurrence, and -1 exactly when `c` is
/// absent.
pub proof fn lemma_find_char(s: Seq<char>, c: char)
    ensures
        find_char(s, c) < 0 ==> forall|i: int| 0 <= i < s.len() ==> s[i] != c,
        find_char(s, c) >= 0 ==> 0 <= find_char(s, c) < s.len() && s[find_char(s, c)] == c
            && forall|i: int| 0 <= i < find_char(s, c) ==> s[i] != c,
    decreases s.len(),
{
    if s.len() == 0 {
    } else if s[0] == c {
    } else {
        let t = s.drop_first();
        lemma_find_char(t, c);
        let f = find_char(s, c);
        if find_char(t, c) < 0 {
            assert forall|i: int| 0 <= i < s.len() implies s[i] != c by {
                if i > 0 {
                    assert(s[i] == t[i - 1]);
                }
            }
        } else {
            assert(s[f] == t[f - 1]);
            assert forall|i: int| 0 <= i < f implies s[i] != c by {
                if i > 0 {
                    assert(s[i] == t[i - 1]);
                }
            }
        }
    }
}

/// One `key=value` segment of a query string: the part before the first
/// `=` is the key, the part after it the value; a segment without `=` is a
/// key with an empty value.
pub open spec fn split_pair(s: Seq<char>) -> (Seq<char>, Seq<char>) {
    let eq = find_char(s, '=');
    if eq < 0 {
        (s, Seq::empty())
    } else {
        (s.take(eq), s.skip(eq + 1))
    }
}

/// The key/value pairs of a query string: segments separated by `&`, empty
/// segments skipped.
pub open spec fn query_pairs(q: Seq<char>) -> Seq<(Seq<char>, Seq<char>)>
    decreases q.len(),
{
    if q.len() == 0 {
        Seq::empty()
    } else {
        let amp = find_char(q, '&');
        if amp == 0 {
            query_pairs(q.skip(1))
        } else if 0 < amp < q.len() {
            seq![split_pair(q.take(amp))] + query_pairs(q.skip(amp + 1))
        } else {
            seq![split_pair(q)]
        }
    }
}

/// The multimap a query string or header list denotes.
pub open spec fn spec_accumulate(ps: Seq<(Seq<char>, Seq<char>)>) -> MapModel {
    accumulate_onto(Seq::empty(), ps)
}

/// The first occurrence of `c` in a string, by character index.
fn find_char_exec(s: &str, c: char) -> (r: Option<usize>)
    ensures
        match r {
            Some(i) => find_char(s@, c) == i as int && i < s@.len(),
            None => find_char(s@, c) < 0,
        },
{
    let n = s.unicode_len();
    let mut i: usize = 0;
    while i < n
        invariant
            n == s@.len(),
            i <= n,
            forall|j: int| 0 <= j < i ==> s@[j] != c,
        decreases n - i,
    {
        if s.get_char(i) == c {
            proof {
                lemma_find_char(s@, c);
                let f = find_char(s@, c);
                if f < 0 {
                    assert(s@[i as int] != c);
                }
                if f > i as int {
                    assert(s@[i as int] != c);
                }
            }
            return Some(i);
        }
        i += 1;
    }
    proof {
        lemma_find_char(s@, c);
        let f = find_char(s@, c);
        if f >= 0 {
            assert(s@[f] != c);
        }
    }
    None
}

/// Insert one `key=value` segment into the map.
fn insert_pair(seg: &str, m: &mut StrMap)
    requires
        old(m).wf(),
    ensures
        final(m)@ == spec_insert(old(m)@, split_pair(seg@).0, split_pair(seg@).1),
        final(m).wf(),
{
    let n = seg.unicode_len();
    match find_char_exec(seg, '=') {
        None => {
            m.insert(seg.to_owned(), String::new());
            proof {
                assert(split_pair(seg@).1 =~= Seq::<char>::empty());
            }
        },
        Some(eq) => {
            let k = seg.substring_char(0, eq);
            let v = seg.substring_char(eq + 1, n);
            m.insert(k.to_owned(), v.to_owned());
            proof {
                assert(k@ =~= seg@.take(eq as int));
                assert(v@ =~= seg@.skip(eq as int + 1));
            }
        },
    }
}

/// Parse a query string onto an existing map, accumulating repeated keys.
fn parse_query_into(q: &str, m: &mut StrMap)
    requires
        old(m).wf(),
    ensures
        final(m)@ == accumulate_onto(old(m)@, query_pairs(q@)),
        final(m).wf(),
    decreases q@.len(),
{
    let n = q.unicode_len();
    if n == 0 {
        return ;
    }
    match find_char_exec(q, '&') {
        None => {
            insert_pair(q, m);
            proof {
                let p = split_pair(q@);
                assert(query_pairs(q@) == seq![p]);
                assert(seq![p][0] == p);
                assert(seq![p].drop_first() =~= Seq::<(Seq<char>, Seq<char>)>::empty());
                assert(accumulate_onto(old(m)@, seq![p]) == accumulate_onto(
                    spec_insert(old(m)@, p.0, p.1),
                    seq![p].drop_first(),
                ));
                assert(accumulate_onto(spec_insert(old(m)@, p.0, p.1), seq![p].drop_first())
                    == spec_insert(old(m)@, p.0, p.1));
            }
        },
        Some(amp) => {
            if amp > 0 {
                let seg = q.substring_char(0, amp);
                let ghost es0 = m@;
                insert_pair(seg, m);
                let rest = q.substring_char(amp + 1, n);
                parse_query_into(rest, m);
                proof {
                    assert(seg@ =~= q@.take(amp as int));
                    assert(rest@ =~= q@.skip(amp as int + 1));
                    let p = split_pair(q@.take(amp as int));
                    lemma_accumulate_cons(es0, p, query_pairs(q@.skip(amp as int + 1)));
                    assert(seq![p] + query_pairs(q@.skip(amp as int + 1)) == query_pairs(q@));
                }
            } else {
                let rest = q.substring_char(1, n);
                parse_query_into(rest, m);
                proof {
                    assert(rest@ =~= q@.skip(1));
                }
            }
        },
    }
}

/// Parse a query string into a fresh multimap.
pub fn parse_query(q: &str) -> (r: StrMap)
    ensures
        r@ == spec_accumulate(query_pairs(q@)),
        r.wf(),
{
    let mut m = StrMap::new();
    parse_query_into(q, &mut m);
    m
}

/// The platform's proxy event, already validated: every field present, with
/// the documented defaults filled in.
pub struct NowEvent {
    /// The HTTP method.
    pub method: String,
    /// The request path.
    pub path: String,
    /// The header pairs, in the order the platform delivered them.
    pub headers: Vec<(String, String)>,
    /// The raw, URL-encoded query string; empty when absent.
    pub query: String,
    /// The body string; empty when absent.
    pub body: String,
    /// Whether the body string is base64-encoded binary.
    pub is_base64_encoded: bool,
}

impl NowEvent {
    /// Validate a raw envelope.  The method and the path are required;
    /// everything else defaults: no headers, empty query, empty body, not
    /// base64.  A missing required field is a recoverable error, not an
    /// abort.
    pub fn from_parts(
        method: Option<String>,
        path: Option<String>,
        headers: Vec<(String, String)>,
        query: Option<String>,
        body: Option<String>,
        is_base64_encoded: Option<bool>,
    ) -> (r: Result<NowEvent, NowError>)
        ensures
            match r {
                Ok(ev) => {
                    &&& method matches Some(m) && ev.method == m
                    &&& path matches Some(p) && ev.path == p
                    &&& ev.headers@ == headers@
                    &&& match query {
                        Some(q) => ev.query == q,
                        None => ev.query@ == Seq::<char>::empty(),
                    }
                    &&& match body {
                        Some(b) => ev.body == b,
                        None => ev.body@ == Seq::<char>::empty(),
                    }
                    &&& match is_base64_encoded {
                        Some(f) => ev.is_base64_encoded == f,
                        None => !ev.is_base64_encoded,
                    }
                },
                Err(e) => e == NowError::MalformedEvent && (method is None || path is None),
            },
    {
        let method = match method {
            Some(m) => m,
            None => {
                return Err(NowError::MalformedEvent);
            },
        };
        let path = match path {
            Some(p) => p,
            None => {
                return Err(NowError::MalformedEvent);
            },
        };
        let query = match query {
            Some(q) => q,
            None => String::new(),
        };
        let body = match body {
            Some(b) => b,
            None => String::new(),
        };
        let is_base64_encoded = match is_base64_encoded {
            Some(f) => f,
            None => false,
        };
        Ok(NowEvent { method, path, headers, query, body, is_base64_encoded })
    }
}

/// A standard HTTP request value handed to the handler.
pub struct Request {
    /// The HTTP method.
    pub method: String,
    /// The request path, without the query string.
    pub path: String,
    /// The raw query string, kept for rebuilding the request target.
    pub raw_query: String,
    /// The parsed query parameters.
    pub query: StrMap,
    /// The headers, repeated keys accumulated.
    pub headers: StrMap,
    /// The decoded body.
    pub body: Body,
}

impl Request {
    /// The request target: the path, joined with the query string by `?`
    /// when one is present.
    pub fn uri(&self) -> (r: String)
        ensures
            self.raw_query@.len() == 0 ==> r@ == self.path@,
            self.raw_query@.len() != 0 ==> r@ == self.path@ + seq!['?'] + self.raw_query@,
    {
        let mut u = self.path.as_str().to_owned();
        if !self.raw_query.as_str().is_empty() {
            u.append("?");
            u.append(self.raw_query.as_str());
            proof {
                reveal_strlit("?");
                assert("?"@ =~= seq!['?']);
            }
        }
        u
    }
}

/// Build the request a validated event denotes: decode
/// the body, parse the query string, accumulate the headers.  The only
/// failure is a body flagged base64 that is not canonical base64.
pub fn translate_request(ev: NowEvent) -> (r: Result<Request, NowError>)
    ensures
        match r {
            Ok(req) => {
                &&& req.method == ev.method
                &&& req.path == ev.path
                &&& req.raw_query == ev.query
                &&& req.query@ == spec_accumulate(query_pairs(ev.query@))
                &&& req.query.wf()
                &&& req.headers@ == spec_accumulate(pairs_views(ev.headers@))
                &&& req.headers.wf()
                &&& req.body.wf()
                &&& !ev.is_base64_encoded ==> req.body@ == encode_utf8(ev.body@)
                &&& ev.is_base64_encoded ==> base64::spec_b64_decode(encode_utf8(ev.body@))
                    == Some(req.body@)
            },
            Err(e) => {
                &&& e == NowError::InvalidBodyEncoding
                &&& ev.is_base64_encoded
                &&& base64::spec_b64_decode(encode_utf8(ev.body@)) == None::<Seq<u8>>
            },
        },
{
    let NowEvent { method, path, headers: header_pairs, query: raw_query, body: body_str, is_base64_encoded } = ev;
    let body = if is_base64_encoded {
        let raw = body_str.as_str().as_bytes_vec();
        match base64::decode(&raw) {
            Some(bytes) => Body::from_bytes(bytes),
            None => {
                return Err(NowError::InvalidBodyEncoding);
            },
        }
    } else {
        Body::from_text(body_str)
    };
    let query = parse_query(raw_query.as_str());
    let mut headers = StrMap::new();
    let n = header_pairs.len();
    let mut i: usize = 0;
    proof {
        assert(pairs_views(header_pairs@.take(0)) =~= Seq::<(Seq<char>, Seq<char>)>::empty());
    }
    while i < n
        invariant
            n == header_pairs@.len(),
            i <= n,
            headers@ == spec_accumulate(pairs_views(header_pairs@.take(i as int))),
            headers.wf(),
        decreases n - i,
    {
        let k = header_pairs[i].0.clone();
        let v = header_pairs[i].1.clone();
        headers.insert(k, v);
        proof {
            lemma_accumulate_snoc(
                Seq::empty(),
                pairs_views(header_pairs@.take(i as int)),
                (header_pairs@[i as int].0@, header_pairs@[i as int].1@),
            );
            assert(pairs_views(header_pairs@.take(i as int + 1)) =~= pairs_views(
                header_pairs@.take(i as int),
            ).push((header_pairs@[i as int].0@, header_pairs@[i as int].1@)));
        }
        i += 1;
    }
    proof {
        assert(header_pairs@.take(n as int) =~= header_pairs@);
    }
    Ok(Request { method, path, raw_query, query, headers, body })
}

} // verus!
