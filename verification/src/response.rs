//! Translation of the handler's response into the platform's proxy-response
//! envelope: status, flattened headers, and a body string that is the text
//! itself or, for binary payloads, its base64 encoding with a flag set.

use vstd::prelude::*;
use vstd::string::StringExecFns;
use vstd::utf8::encode_utf8;
use crate::base64;
use crate::body::{Body, string_from_utf8};
use crate::error::NowError;
use crate::request::{pairs_views, spec_accumulate, lemma_accumulate_snoc};
use crate::strmap::{StrMap, MapModel, seq_views};

verus! {

/// The flat pairs one entry contributes: its key repeated before each value.
pub open spec fn flatten_entry(e: (Seq<char>, Seq<Seq<char>>)) -> Seq<(Seq<char>, Seq<char>)> {
    Seq::new(e.1.len(), |i: int| (e.0, e.1[i]))
}

/// A header map flattened to key/value pairs, entries in insertion order and
/// each entry's values in insertion order.
pub open spec fn flatten_headers(es: MapModel) -> Seq<(Seq<char>, Seq<char>)>
    decreases es.len(),
{
    if es.len() == 0 {
        Seq::empty()
    } else {
        flatten_entry(es[0]) + flatten_headers(es.drop_first())
    }
}

/// Flattening one more entry at the end appends its pairs.
proof fn lemma_flatten_snoc(es: MapModel, e: (Seq<char>, Seq<Seq<char>>))
    ensures
        flatten_headers(es.push(e)) == flatten_headers(es) + flatten_entry(e),
    decreases es.len(),
{
    let whole = es.push(e);
    if es.len() == 0 {
        assert(whole[0] == e);
        assert(whole.drop_first() =~= Seq::<(Seq<char>, Seq<Seq<char>>)>::empty());
        assert(flatten_headers(whole) == flatten_entry(e) + flatten_headers(whole.drop_first()));
        assert(flatten_entry(e) + Seq::<(Seq<char>, Seq<char>)>::empty() =~= flatten_entry(e));
        assert(Seq::<(Seq<char>, Seq<char>)>::empty() + flatten_entry(e) =~= flatten_entry(e));
    } else {
        assert(whole[0] == es[0]);
        assert(whole.drop_first() =~= es.drop_first().push(e));
        lemma_flatten_snoc(es.drop_first(), e);
        assert(flatten_headers(whole) == flatten_entry(es[0]) + (flatten_headers(es.drop_first())
            + flatten_entry(e)));
        assert(flatten_headers(es) == flatten_entry(es[0]) + flatten_headers(es.drop_first()));
        assert(flatten_entry(es[0]) + (flatten_headers(es.drop_first()) + flatten_entry(e)) =~= (
        flatten_entry(es[0]) + flatten_headers(es.drop_first())) + flatten_entry(e));
    }
}

/// A standard HTTP response value as returned by a handler.
pub struct Response {
    /// The status code, between 100 and 599.
    pub status: u16,
    /// The response headers.
    pub headers: StrMap,
    /// The response body.
    pub body: Body,
}

impl Response {
    /// A response is well formed when its status code is in range and its
    /// parts are.
    pub open spec fn wf(&self) -> bool {
        &&& 100 <= self.status < 600
        &&& self.headers.wf()
        &&& self.body.wf()
    }

    /// Build a response; an out-of-range status code is a recoverable
    /// error, reported, never dropped.
    pub fn new(status: u16, headers: StrMap, body: Body) -> (r: Result<Response, NowError>)
        ensures
            match r {
                Ok(resp) => 100 <= status < 600 && resp == (Response { status, headers, body })
                    && (headers.wf() && body.wf() ==> resp.wf()),
                Err(e) => e == NowError::InvalidResponse && !(100 <= status < 600),
            },
    {
        if 100 <= status && status < 600 {
            Ok(Response { status, headers, body })
        } else {
            Err(NowError::InvalidResponse)
        }
    }

    /// A `200 OK` response around a body.
    pub fn ok(body: Body) -> (r: Response)
        ensures
            r.status == 200,
            r.headers@ == Seq::<(Seq<char>, Seq<Seq<char>>)>::empty(),
            r.body == body,
            body.wf() ==> r.wf(),
    {
        Response { status: 200, headers: StrMap::new(), body }
    }
}

/// A value a handler may return; the adapter turns it into a `Response`.
pub trait IntoResponse {
    /// The response this value stands for.
    fn into_response(self) -> Response;
}

impl IntoResponse for Response {
    fn into_response(self) -> Response {
        self
    }
}

impl IntoResponse for String {
    /// A bare string is a `200 OK` text response.
    fn into_response(self) -> Response {
        Response { status: 200, headers: StrMap::new(), body: Body::from_text(self) }
    }
}

/// The platform's proxy-response envelope, ready for serialization.
pub struct NowResponse {
    /// The status code.
    pub status_code: u16,
    /// The headers as flat pairs, repeated keys repeated, in order.
    pub headers: Vec<(String, String)>,
    /// The body string: text itself, or the base64 encoding of binary.
    pub body: String,
    /// Whether `body` is the base64 encoding of binary bytes.
    pub is_base64_encoded: bool,
}

/// The views of a sequence of string pairs.
pub open spec fn out_pairs_views(s: Seq<(String, String)>) -> Seq<(Seq<char>, Seq<char>)> {
    Seq::new(s.len(), |i: int| (s[i].0@, s[i].1@))
}

/// Build the envelope a response denotes: an `Empty`
/// body gives an empty string, a `Text` body the text itself, a `Binary`
/// body its base64 encoding with the flag set.  The mapping never fails.
pub fn translate_response(resp: Response) -> (r: NowResponse)
    ensures
        r.status_code == resp.status,
        out_pairs_views(r.headers@) == flatten_headers(resp.headers@),
        resp.body is Empty ==> r.body@ == Seq::<char>::empty() && !r.is_base64_encoded,
        resp.body matches Body::Text(s) ==> r.body@ == s@ && !r.is_base64_encoded,
        resp.body matches Body::Binary(b) ==> encode_utf8(r.body@) == base64::spec_b64_encode(b@)
            && r.is_base64_encoded,
{
    let Response { status, headers, body } = resp;
    let (body_str, is_base64_encoded): (String, bool) = match body {
        Body::Empty => (String::new(), false),
        Body::Text(s) => (s, false),
        Body::Binary(b) => {
            let enc = base64::encode(&b);
            proof {
                base64::lemma_b64_encode_valid_utf8(b@);
            }
            match string_from_utf8(enc) {
                Ok(s) => (s, true),
                Err(_) => {
                    proof {
                        assert(false);
                    }
                    vstd::pervasive::unreached()
                },
            }
        },
    };
    let mut out: Vec<(String, String)> = Vec::new();
    let n = headers.len();
    let mut i: usize = 0;
    proof {
        assert(headers@.take(0) =~= Seq::<(Seq<char>, Seq<Seq<char>>)>::empty());
        assert(out_pairs_views(out@) =~= flatten_headers(headers@.take(0)));
    }
    while i < n
        invariant
            n == headers@.len(),
            i <= n,
            out_pairs_views(out@) == flatten_headers(headers@.take(i as int)),
        decreases n - i,
    {
        let key = headers.key_at(i);
        let vals = headers.values_at(i);
        let ghost entry = headers@[i as int];
        let m = vals.len();
        let mut j: usize = 0;
        proof {
            assert(out_pairs_views(out@) + flatten_entry(entry).take(0) =~= out_pairs_views(out@));
        }
        let ghost out0 = out@;
        while j < m
            invariant
                m == entry.1.len(),
                m == vals@.len(),
                j <= m,
                i < n == headers@.len(),
                entry == headers@[i as int],
                crate::strmap::seq_views(vals@) == entry.1,
                key@ == entry.0,
                out_pairs_views(out0) == flatten_headers(headers@.take(i as int)),
                out_pairs_views(out@) == out_pairs_views(out0) + flatten_entry(entry).take(
                    j as int,
                ),
            decreases m - j,
        {
            let ghost before = out@;
            out.push((key.clone(), vals[j].clone()));
            proof {
                assert(crate::strmap::seq_views(vals@)[j as int] == vals@[j as int]@);
                assert(out@.len() == before.len() + 1);
                assert(forall|k: int| 0 <= k < before.len() ==> out@[k] == before[k]);
                assert(out@[before.len() as int].0@ == entry.0);
                assert(out@[before.len() as int].1@ == entry.1[j as int]);
                assert(flatten_entry(entry).take(j as int + 1) =~= flatten_entry(entry).take(
                    j as int,
                ).push((entry.0, entry.1[j as int])));
                let rhs = out_pairs_views(out0) + flatten_entry(entry).take(j as int + 1);
                assert(flatten_entry(entry).len() == m);
                assert(out_pairs_views(before).len() == before.len());
                assert(out_pairs_views(out0).len() == out0.len());
                assert(out_pairs_views(out@).len() == rhs.len());
                assert forall|k: int| 0 <= k < out@.len() implies out_pairs_views(out@)[k]
                    == rhs[k] by {
                    assert(out_pairs_views(out@)[k] == (out@[k].0@, out@[k].1@));
                    if k < before.len() {
                        assert(out@[k] == before[k]);
                        assert(out_pairs_views(before)[k] == (before[k].0@, before[k].1@));
                        assert(rhs[k] == (out_pairs_views(out0) + flatten_entry(entry).take(
                            j as int,
                        ))[k]);
                    } else {
                        assert(rhs[k] == flatten_entry(entry).take(j as int + 1)[j as int]);
                        assert(flatten_entry(entry).take(j as int + 1)[j as int] == flatten_entry(
                            entry,
                        )[j as int]);
                        assert(flatten_entry(entry)[j as int] == (entry.0, entry.1[j as int]));
                    }
                }
                assert(out_pairs_views(out@) =~= rhs);
            }
            j += 1;
        }
        proof {
            assert(flatten_entry(entry).take(m as int) =~= flatten_entry(entry));
            lemma_flatten_snoc(headers@.take(i as int), entry);
            assert(headers@.take(i as int + 1) =~= headers@.take(i as int).push(entry));
            assert(out_pairs_views(out@) =~= flatten_headers(headers@.take(i as int + 1)));
        }
        i += 1;
    }
    proof {
        assert(headers@.take(n as int) =~= headers@);
    }
    NowResponse { status_code: status, headers: out, body: body_str, is_base64_encoded }
}

} // verus!

verus! {

/// A list of header values joined into one value with `", "` between them.
pub open spec fn join_values(vs: Seq<Seq<char>>) -> Seq<char>
    decreases vs.len(),
{
    if vs.len() == 0 {
        Seq::empty()
    } else if vs.len() == 1 {
        vs[0]
    } else {
        vs[0] + seq![',', ' '] + join_values(vs.drop_first())
    }
}

/// Joining one more value at the end appends `", "` and the value.
proof fn lemma_join_snoc(vs: Seq<Seq<char>>, v: Seq<char>)
    ensures
        vs.len() == 0 ==> join_values(vs.push(v)) == v,
        vs.len() > 0 ==> join_values(vs.push(v)) == join_values(vs) + seq![',', ' '] + v,
    decreases vs.len(),
{
    let whole = vs.push(v);
    assert(whole.len() == vs.len() + 1);
    if vs.len() == 0 {
        assert(whole[0] == v);
    } else if vs.len() == 1 {
        assert(whole[0] == vs[0]);
        assert(whole.drop_first().len() == 1);
        assert(whole.drop_first()[0] == v);
        assert(join_values(whole.drop_first()) == v);
    } else {
        assert(whole[0] == vs[0]);
        assert(whole.drop_first() =~= vs.drop_first().push(v));
        lemma_join_snoc(vs.drop_first(), v);
        assert(join_values(whole) == vs[0] + seq![',', ' '] + (join_values(vs.drop_first())
            + seq![',', ' '] + v));
        assert(join_values(vs) == vs[0] + seq![',', ' '] + join_values(vs.drop_first()));
        assert(vs[0] + seq![',', ' '] + (join_values(vs.drop_first()) + seq![',', ' '] + v) =~= (
        vs[0] + seq![',', ' '] + join_values(vs.drop_first())) + seq![',', ' '] + v);
    }
}

/// A header map reduced to one flat pair per entry, the entry's values
/// joined: the form a JSON header object, which cannot repeat a key, needs.
pub open spec fn spec_join_headers(es: MapModel) -> Seq<(Seq<char>, Seq<char>)> {
    Seq::new(es.len(), |i: int| (es[i].0, join_values(es[i].1)))
}

/// Join a list of header values with `", "`.
fn join_values_exec(vals: &Vec<String>) -> (r: String)
    ensures
        r@ == join_values(seq_views(vals@)),
{
    let mut s = String::new();
    let n = vals.len();
    let mut j: usize = 0;
    proof {
        assert(seq_views(vals@).take(0) =~= Seq::<Seq<char>>::empty());
    }
    while j < n
        invariant
            n == vals@.len(),
            j <= n,
            s@ == join_values(seq_views(vals@).take(j as int)),
        decreases n - j,
    {
        if j > 0 {
            s.append(", ");
        }
        s.append(vals[j].as_str());
        proof {
            reveal_strlit(", ");
            assert(", "@ =~= seq![',', ' ']);
            let vv = seq_views(vals@);
            assert(vv[j as int] == vals@[j as int]@);
            lemma_join_snoc(vv.take(j as int), vv[j as int]);
            assert(vv.take(j as int + 1) =~= vv.take(j as int).push(vv[j as int]));
            if j == 0 {
                assert(s@ =~= join_values(vv.take(1)));
            } else {
                assert(s@ =~= join_values(vv.take(j as int)) + seq![',', ' '] + vv[j as int]);
            }
        }
        j += 1;
    }
    proof {
        assert(seq_views(vals@).take(n as int) =~= seq_views(vals@));
    }
    s
}

/// Reduce flat header pairs to one pair per distinct key (ASCII
/// case-insensitively, first-seen spelling kept), repeated values joined
/// with `", "`, in first-insertion order.
pub fn join_repeated_headers(pairs: &Vec<(String, String)>) -> (r: Vec<(String, String)>)
    ensures
        out_pairs_views(r@) == spec_join_headers(spec_accumulate(pairs_views(pairs@))),
{
    let mut m = StrMap::new();
    let n = pairs.len();
    let mut i: usize = 0;
    proof {
        assert(pairs_views(pairs@.take(0)) =~= Seq::<(Seq<char>, Seq<char>)>::empty());
    }
    while i < n
        invariant
            n == pairs@.len(),
            i <= n,
            m@ == spec_accumulate(pairs_views(pairs@.take(i as int))),
            m.wf(),
        decreases n - i,
    {
        let k = pairs[i].0.clone();
        let v = pairs[i].1.clone();
        m.insert(k, v);
        proof {
            lemma_accumulate_snoc(
                Seq::empty(),
                pairs_views(pairs@.take(i as int)),
                (pairs@[i as int].0@, pairs@[i as int].1@),
            );
            assert(pairs_views(pairs@.take(i as int + 1)) =~= pairs_views(
                pairs@.take(i as int),
            ).push((pairs@[i as int].0@, pairs@[i as int].1@)));
        }
        i += 1;
    }
    proof {
        assert(pairs@.take(n as int) =~= pairs@);
    }
    let ghost es = m@;
    let mut out: Vec<(String, String)> = Vec::new();
    let k = m.len();
    let mut idx: usize = 0;
    proof {
        assert(out_pairs_views(out@) =~= spec_join_headers(es).take(0));
    }
    while idx < k
        invariant
            k == es.len(),
            idx <= k,
            m@ == es,
            es == spec_accumulate(pairs_views(pairs@)),
            out_pairs_views(out@) == spec_join_headers(es).take(idx as int),
        decreases k - idx,
    {
        let key = m.key_at(idx).clone();
        let joined = join_values_exec(m.values_at(idx));
        let ghost before = out@;
        out.push((key, joined));
        proof {
            let target = spec_join_headers(es).take(idx as int + 1);
            assert(spec_join_headers(es).len() == es.len());
            assert(out_pairs_views(before).len() == before.len());
            assert(out@.len() == before.len() + 1);
            assert(out@[before.len() as int].0@ == es[idx as int].0);
            assert(out@[before.len() as int].1@ == join_values(es[idx as int].1));
            assert(out_pairs_views(out@).len() == target.len());
            assert forall|p: int| 0 <= p < out@.len() implies out_pairs_views(out@)[p]
                == target[p] by {
                assert(out_pairs_views(out@)[p] == (out@[p].0@, out@[p].1@));
                if p < before.len() {
                    assert(out@[p] == before[p]);
                    assert(out_pairs_views(before)[p] == (before[p].0@, before[p].1@));
                    assert(target[p] == spec_join_headers(es).take(idx as int)[p]);
                } else {
                    assert(target[p] == spec_join_headers(es)[idx as int]);
                    assert(spec_join_headers(es)[idx as int] == (
                        es[idx as int].0,
                        join_values(es[idx as int].1),
                    ));
                }
            }
            assert(out_pairs_views(out@) =~= target);
        }
        idx += 1;
    }
    proof {
        assert(spec_join_headers(es).take(k as int) =~= spec_join_headers(es));
    }
    out
}

} // verus!
