//! Raw bytes from a socket, turned into a structured request: the request
//! line split into exactly three tokens, then header lines split on the
//! first `": "`, stopping at the first blank line.

use vstd::prelude::*;
use vstd::utf8::valid_utf8;
use crate::split::{
    split_by, find_from, match_at, split_bytes, find_pat, copy_range, lemma_split_by_nonempty,
    lemma_find_from_some, lemma_find_from_exact, lemma_vec_u8_deep_view,
};
use crate::ServerError;

verus! {

/// The byte pair `"\r\n"` that ends a line.
pub open spec fn crlf() -> Seq<u8> {
    seq![13u8, 10u8]
}

/// The single byte `" "` that separates the request-line tokens.
pub open spec fn sp() -> Seq<u8> {
    seq![32u8]
}

/// The byte pair `": "` that separates a header name from its value.
pub open spec fn colon_sp() -> Seq<u8> {
    seq![58u8, 32u8]
}

/// The line-ending bytes as a vector.
pub fn crlf_bytes() -> (r: Vec<u8>)
    ensures
        r@ == crlf(),
{
    let mut r: Vec<u8> = Vec::new();
    r.push(13);
    r.push(10);
    proof {
        assert(r@ =~= crlf());
    }
    r
}

/// The token-separator byte as a vector.
pub fn sp_bytes() -> (r: Vec<u8>)
    ensures
        r@ == sp(),
{
    let mut r: Vec<u8> = Vec::new();
    r.push(32);
    proof {
        assert(r@ =~= sp());
    }
    r
}

/// The header-separator bytes as a vector.
pub fn colon_sp_bytes() -> (r: Vec<u8>)
    ensures
        r@ == colon_sp(),
{
    let mut r: Vec<u8> = Vec::new();
    r.push(58);
    r.push(32);
    proof {
        assert(r@ =~= colon_sp());
    }
    r
}

/// The leading lines up to, and not holding, the first blank one.
pub open spec fn take_until_blank(ls: Seq<Seq<u8>>) -> Seq<Seq<u8>>
    decreases ls.len(),
{
    if ls.len() == 0 {
        Seq::empty()
    } else if ls[0].len() == 0 {
        Seq::empty()
    } else {
        seq![ls[0]] + take_until_blank(ls.drop_first())
    }
}

/// The lines of the head of a request: everything before the blank line
/// that separates the headers from any body bytes, which are ignored.
pub open spec fn request_lines(b: Seq<u8>) -> Seq<Seq<u8>> {
    take_until_blank(split_by(b, crlf()))
}

/// A header line split on the first `": "` into name and value, if it has
/// that delimiter at all.
pub open spec fn parse_header_line(line: Seq<u8>) -> Option<(Seq<u8>, Seq<u8>)> {
    match find_from(line, colon_sp(), 0) {
        Some(i) => Some((line.subrange(0, i), line.subrange(i + 2, line.len() as int))),
        None => None,
    }
}

/// The mathematical shape of a parsed request.
pub ghost struct RequestView {
    pub method: Seq<u8>,
    pub path: Seq<u8>,
    pub version: Seq<u8>,
    pub headers: Seq<(Seq<u8>, Seq<u8>)>,
}

/// What parsing a byte stream yields: `None` is a malformed request.
/// The stream must be valid text, its first line must split into exactly
/// three tokens, and every following line before the blank one must carry
/// the `": "` delimiter.
pub open spec fn spec_parse_request(b: Seq<u8>) -> Option<RequestView> {
    let ls = request_lines(b);
    if !valid_utf8(b) {
        None
    } else if ls.len() == 0 {
        None
    } else {
        let toks = split_by(ls[0], sp());
        if toks.len() != 3 {
            None
        } else if exists|i: int| 1 <= i < ls.len() && parse_header_line(ls[i]) is None {
            None
        } else {
            Some(
                RequestView {
                    method: toks[0],
                    path: toks[1],
                    version: toks[2],
                    headers: Seq::new(
                        (ls.len() - 1) as nat,
                        |i: int| parse_header_line(ls[i + 1])->Some_0,
                    ),
                },
            )
        }
    }
}

/// A request as received: the three request-line tokens and the header
/// pairs in the order they stood on the wire.
#[derive(Debug, PartialEq, Eq)]
pub struct HttpRequest {
    pub method: Vec<u8>,
    pub path: Vec<u8>,
    pub http_version: Vec<u8>,
    pub headers: Vec<(Vec<u8>, Vec<u8>)>,
}

impl View for HttpRequest {
    type V = RequestView;

    open spec fn view(&self) -> RequestView {
        RequestView {
            method: self.method@,
            path: self.path@,
            version: self.http_version@,
            headers: self.headers.deep_view(),
        }
    }
}

/// The mapping that a header list denotes: on a duplicate name, the later
/// line wins.
pub open spec fn header_map(hs: Seq<(Seq<u8>, Seq<u8>)>) -> Map<Seq<u8>, Seq<u8>>
    decreases hs.len(),
{
    if hs.len() == 0 {
        Map::empty()
    } else {
        header_map(hs.drop_last()).insert(hs.last().0, hs.last().1)
    }
}

/// A name under which no header stands is not in the mapping.
pub proof fn lemma_header_map_absent(hs: Seq<(Seq<u8>, Seq<u8>)>, k: Seq<u8>)
    requires
        forall|i: int| 0 <= i < hs.len() ==> hs[i].0 != k,
    ensures
        !header_map(hs).contains_key(k),
    decreases hs.len(),
{
    if hs.len() > 0 {
        assert forall|i: int| 0 <= i < hs.drop_last().len() implies hs.drop_last()[i].0 != k by {
            assert(hs.drop_last()[i] == hs[i]);
        }
        lemma_header_map_absent(hs.drop_last(), k);
    }
}

/// The mapping holds, under each name, the value of the last header line
/// that carries it.
pub proof fn lemma_header_map_last(hs: Seq<(Seq<u8>, Seq<u8>)>, j: int)
    requires
        0 <= j < hs.len(),
        forall|i: int| j < i < hs.len() ==> hs[i].0 != hs[j].0,
    ensures
        header_map(hs).contains_key(hs[j].0),
        header_map(hs)[hs[j].0] == hs[j].1,
    decreases hs.len(),
{
    if j < hs.len() - 1 {
        assert forall|i: int| j < i < hs.drop_last().len() implies hs.drop_last()[i].0 != hs
            .drop_last()[j].0 by {
            assert(hs.drop_last()[i] == hs[i]);
        }
        lemma_header_map_last(hs.drop_last(), j);
        assert(hs.last().0 != hs[j].0);
    }
}

/// Whether two byte strings hold the same bytes.
pub fn bytes_eq(a: &[u8], b: &[u8]) -> (r: bool)
    ensures
        r == (a@ == b@),
{
    if a.len() != b.len() {
        return false;
    }
    let r = crate::split::match_range(a, b, 0);
    proof {
        assert(a@.subrange(0, b@.len() as int) =~= a@);
    }
    r
}

impl HttpRequest {
    /// The value of the last header line named `name`, if one stands in
    /// the request: on a duplicate name the later line wins.
    pub fn header_value(&self, name: &[u8]) -> (r: Option<&Vec<u8>>)
        ensures
            match r {
                Some(vv) => header_map(self@.headers).contains_key(name@) && header_map(
                    self@.headers,
                )[name@] == vv@,
                None => !header_map(self@.headers).contains_key(name@),
            },
    {
        let n: usize = self.headers.len();
        let ghost hs = self@.headers;
        proof {
            assert forall|t: int| 0 <= t < n implies hs[t] == (
                self.headers@[t].0@,
                self.headers@[t].1@,
            ) by {
                lemma_vec_u8_deep_view(self.headers@[t].0);
                lemma_vec_u8_deep_view(self.headers@[t].1);
            }
        }
        let mut i: usize = n;
        while i > 0
            invariant
                i <= n,
                n == self.headers@.len(),
                hs == self@.headers,
                hs.len() == n,
                forall|t: int| 0 <= t < n ==> hs[t] == (self.headers@[t].0@, self.headers@[t].1@),
                forall|t: int| i <= t < n ==> hs[t].0 != name@,
            decreases i,
        {
            i -= 1;
            if bytes_eq(self.headers[i].0.as_slice(), name) {
                proof {
                    lemma_header_map_last(hs, i as int);
                }
                return Some(&self.headers[i].1);
            }
        }
        proof {
            lemma_header_map_absent(hs, name@);
        }
        None
    }
}

/// Relies on core::str::from_utf8: it returns `Ok` exactly when the bytes
/// are valid UTF-8, the condition vstd's `valid_utf8` states.
#[verifier::external_body]
fn utf8_valid(b: &[u8]) -> (r: bool)
    ensures
        r == valid_utf8(b@),
{
    core::str::from_utf8(b).is_ok()
}

/// Parse the bytes of one connection into a request, or reject them.
pub fn parse_request(raw: &[u8]) -> (r: Result<HttpRequest, ServerError>)
    ensures
        match r {
            Ok(req) => spec_parse_request(raw@) == Some(req@),
            Err(e) => e == ServerError::MalformedRequest && spec_parse_request(raw@) is None,
        },
{
    if !utf8_valid(raw) {
        return Err(ServerError::MalformedRequest);
    }
    let crlf_v = crlf_bytes();
    let lines = split_bytes(raw, crlf_v.as_slice());
    let ghost ls_all = split_by(raw@, crlf());
    let ghost ls = request_lines(raw@);
    proof {
        lemma_split_by_nonempty(raw@, crlf());
    }
    if lines[0].len() == 0 {
        proof {
            lemma_vec_u8_deep_view(lines@[0]);
            assert(ls_all[0] == lines@[0]@);
        }
        return Err(ServerError::MalformedRequest);
    }
    proof {
        lemma_vec_u8_deep_view(lines@[0]);
        assert(ls_all[0] == lines@[0]@);
        assert(ls[0] == ls_all[0]);
        assert(ls.len() >= 1);
    }
    let sp_v = sp_bytes();
    let toks_vec = split_bytes(lines[0].as_slice(), sp_v.as_slice());
    let ghost toks = split_by(ls_all[0], sp());
    if toks_vec.len() != 3 {
        return Err(ServerError::MalformedRequest);
    }
    let ghost tv = toks_vec@;
    proof {
        lemma_vec_u8_deep_view(tv[0]);
        lemma_vec_u8_deep_view(tv[1]);
        lemma_vec_u8_deep_view(tv[2]);
        assert(toks[0] == tv[0]@ && toks[1] == tv[1]@ && toks[2] == tv[2]@);
    }
    let mut toks_vec = toks_vec;
    let method = toks_vec.remove(0);
    proof {
        assert(toks_vec@ =~= tv.drop_first());
    }
    let path = toks_vec.remove(0);
    proof {
        assert(toks_vec@ =~= tv.drop_first().drop_first());
    }
    let version = toks_vec.remove(0);
    proof {
        assert(method@ == toks[0] && path@ == toks[1] && version@ == toks[2]);
    }

    let colon_v = colon_sp_bytes();
    let mut headers: Vec<(Vec<u8>, Vec<u8>)> = Vec::new();
    let nlines: usize = lines.len();
    let mut idx: usize = 1;
    loop
        invariant
            1 <= idx <= nlines,
            nlines == lines@.len(),
            lines.deep_view() == ls_all,
            ls_all == split_by(raw@, crlf()),
            ls == request_lines(raw@),
            colon_v@ == colon_sp(),
            valid_utf8(raw@),
            toks == split_by(ls_all[0], sp()),
            toks.len() == 3,
            method@ == toks[0] && path@ == toks[1] && version@ == toks[2],
            forall|i: int| 0 <= i < idx ==> ls_all[i].len() > 0,
            headers@.len() == idx - 1,
            forall|i: int|
                1 <= i < idx ==> parse_header_line(ls_all[i]) is Some
                    && headers.deep_view()[i - 1] == parse_header_line(ls_all[i])->Some_0,
        decreases nlines - idx,
    {
        if idx == nlines || lines[idx].len() == 0 {
            proof {
                if idx < nlines {
                    lemma_vec_u8_deep_view(lines@[idx as int]);
                    assert(ls_all[idx as int] == lines@[idx as int]@);
                }
                lemma_take_until_blank_prefix(ls_all, idx as int);
                assert(ls == ls_all.subrange(0, idx as int));
                assert(ls[0] == ls_all[0]);
                assert forall|i: int| 1 <= i < ls.len() implies parse_header_line(ls[i])
                    is Some by {
                    assert(ls[i] == ls_all[i]);
                }
            }
            let req = HttpRequest { method, path, http_version: version, headers };
            proof {
                let expect = spec_parse_request(raw@)->Some_0;
                assert(req@.headers =~= expect.headers);
            }
            return Ok(req);
        }
        let ghost prev = headers.deep_view();
        let line = &lines[idx];
        proof {
            lemma_vec_u8_deep_view(lines@[idx as int]);
            assert(ls_all[idx as int] == line@);
            assert(ls_all[idx as int].len() > 0);
        }
        match find_pat(line.as_slice(), colon_v.as_slice(), 0) {
            None => {
                proof {
                    lemma_take_until_blank_through(ls_all, idx as int);
                    assert(ls[idx as int] == ls_all[idx as int]);
                    assert(parse_header_line(ls[idx as int]) is None);
                    assert(ls[0] == ls_all[0]);
                    assert(1 <= idx && (idx as int) < ls.len());
                }
                return Err(ServerError::MalformedRequest);
            },
            Some(j) => {
                proof {
                    lemma_find_from_some(line@, colon_sp(), 0);
                }
                let key = copy_range(line.as_slice(), 0, j);
                let val = copy_range(line.as_slice(), j + 2, line.len());
                headers.push((key, val));
                proof {
                    assert(headers.deep_view() =~~= prev + seq![(key@, val@)]);
                    assert(parse_header_line(ls_all[idx as int]) == Some((key@, val@)));
                }
                idx += 1;
            },
        }
    }
}

/// Whether `t` can stand as a request-line token: no line break and no
/// space inside it.
pub open spec fn token_ok(t: Seq<u8>) -> bool {
    forall|i: int| 0 <= i < t.len() ==> t[i] != 13 && t[i] != 10 && t[i] != 32
}

/// Whether `l` holds no line break.
pub open spec fn line_ok(l: Seq<u8>) -> bool {
    forall|i: int| 0 <= i < l.len() ==> l[i] != 13 && l[i] != 10
}

/// Whether `k` can stand as a header name: no line break and no `": "`
/// inside it.
pub open spec fn header_name_ok(k: Seq<u8>) -> bool {
    &&& line_ok(k)
    &&& forall|i: int| 0 <= i && i + 1 < k.len() ==> !(#[trigger] k[i] == 58 && k[i + 1] == 32)
}

/// A header pair as it stands on its line, before the line ending.
pub open spec fn header_line_of(h: (Seq<u8>, Seq<u8>)) -> Seq<u8> {
    h.0 + colon_sp() + h.1
}

/// The wire form of a header list: each pair on its own line.
pub open spec fn render_headers(hs: Seq<(Seq<u8>, Seq<u8>)>) -> Seq<u8>
    decreases hs.len(),
{
    if hs.len() == 0 {
        Seq::empty()
    } else {
        header_line_of(hs[0]) + crlf() + render_headers(hs.drop_first())
    }
}

/// The wire form of a whole request head: the request line, the header
/// lines, and the terminating blank line.
pub open spec fn render_request(
    m: Seq<u8>,
    p: Seq<u8>,
    v: Seq<u8>,
    hs: Seq<(Seq<u8>, Seq<u8>)>,
) -> Seq<u8> {
    m + sp() + p + sp() + v + crlf() + render_headers(hs) + crlf()
}

/// Splitting at the first line ending takes off one clean line.
pub proof fn lemma_split_first_line(l: Seq<u8>, rest: Seq<u8>)
    requires
        line_ok(l),
    ensures
        split_by(l + crlf() + rest, crlf()) == seq![l] + split_by(rest, crlf()),
{
    let b = l + crlf() + rest;
    assert(b.subrange(l.len() as int, l.len() as int + 2) =~= crlf());
    assert(match_at(b, crlf(), l.len() as int));
    assert forall|j: int| 0 <= j < l.len() implies !match_at(b, crlf(), j) by {
        if match_at(b, crlf(), j) {
            assert(b.subrange(j, j + 2)[0] == crlf()[0]);
            assert(b[j] == 13);
            assert(b[j] == l[j]);
        }
    }
    lemma_find_from_exact(b, crlf(), 0, l.len() as int);
    assert(b.subrange(0, l.len() as int) =~= l);
    assert(b.skip(l.len() as int + 2) =~= rest);
}

/// Splitting at the first space takes off one clean token.
pub proof fn lemma_split_first_token(t: Seq<u8>, rest: Seq<u8>)
    requires
        forall|i: int| 0 <= i < t.len() ==> t[i] != 32,
    ensures
        split_by(t + sp() + rest, sp()) == seq![t] + split_by(rest, sp()),
{
    let b = t + sp() + rest;
    assert(b.subrange(t.len() as int, t.len() as int + 1) =~= sp());
    assert(match_at(b, sp(), t.len() as int));
    assert forall|j: int| 0 <= j < t.len() implies !match_at(b, sp(), j) by {
        if match_at(b, sp(), j) {
            assert(b.subrange(j, j + 1)[0] == sp()[0]);
            assert(b[j] == 32);
            assert(b[j] == t[j]);
        }
    }
    lemma_find_from_exact(b, sp(), 0, t.len() as int);
    assert(b.subrange(0, t.len() as int) =~= t);
    assert(b.skip(t.len() as int + 1) =~= rest);
}

/// A byte string free of spaces splits into itself alone.
pub proof fn lemma_split_token_whole(t: Seq<u8>)
    requires
        forall|i: int| 0 <= i < t.len() ==> t[i] != 32,
    ensures
        split_by(t, sp()) == seq![t],
{
    if find_from(t, sp(), 0) is Some {
        lemma_find_from_some(t, sp(), 0);
        let i = find_from(t, sp(), 0)->Some_0;
        assert(t.subrange(i, i + 1)[0] == sp()[0]);
        assert(t[i] == 32);
    }
}

/// A rendered request line splits on spaces into its three tokens.
pub proof fn lemma_split_request_line(m: Seq<u8>, p: Seq<u8>, v: Seq<u8>)
    requires
        token_ok(m),
        token_ok(p),
        token_ok(v),
    ensures
        split_by(m + sp() + p + sp() + v, sp()) == seq![m, p, v],
{
    lemma_split_first_token(m, p + sp() + v);
    lemma_split_first_token(p, v);
    lemma_split_token_whole(v);
    assert(m + sp() + p + sp() + v =~= m + sp() + (p + sp() + v));
    assert(seq![m] + (seq![p] + seq![v]) =~= seq![m, p, v]);
}

/// A rendered header line parses back to exactly its name and value.
pub proof fn lemma_parse_header_line_exact(k: Seq<u8>, v: Seq<u8>)
    requires
        header_name_ok(k),
    ensures
        parse_header_line(header_line_of((k, v))) == Some((k, v)),
{
    let line = k + colon_sp() + v;
    assert(line.subrange(k.len() as int, k.len() as int + 2) =~= colon_sp());
    assert(match_at(line, colon_sp(), k.len() as int));
    assert forall|j: int| 0 <= j < k.len() implies !match_at(line, colon_sp(), j) by {
        if match_at(line, colon_sp(), j) {
            assert(line.subrange(j, j + 2)[0] == colon_sp()[0]);
            assert(line.subrange(j, j + 2)[1] == colon_sp()[1]);
            assert(line[j] == 58 && line[j + 1] == 32);
            assert(line[j] == k[j]);
            if j + 1 < k.len() {
                assert(line[j + 1] == k[j + 1]);
            } else {
                assert(line[j + 1] == colon_sp()[0]);
            }
        }
    }
    lemma_find_from_exact(line, colon_sp(), 0, k.len() as int);
    assert(line.subrange(0, k.len() as int) =~= k);
    assert(line.subrange(k.len() as int + 2, line.len() as int) =~= v);
}

/// The wire form of a header list, closed by the blank line, splits into
/// its header lines, the blank line, and the empty remainder after the
/// final line ending.
pub proof fn lemma_split_rendered_headers(hs: Seq<(Seq<u8>, Seq<u8>)>)
    requires
        forall|i: int|
            0 <= i < hs.len() ==> header_name_ok(#[trigger] hs[i].0) && line_ok(hs[i].1),
    ensures
        split_by(render_headers(hs) + crlf(), crlf()) == hs.map_values(
            |h: (Seq<u8>, Seq<u8>)| header_line_of(h),
        ) + seq![Seq::<u8>::empty(), Seq::<u8>::empty()],
    decreases hs.len(),
{
    let f = (|h: (Seq<u8>, Seq<u8>)| header_line_of(h));
    if hs.len() == 0 {
        let e = Seq::<u8>::empty();
        assert(render_headers(hs) + crlf() =~= e + crlf() + e);
        lemma_split_first_line(e, e);
        assert(split_by(e, crlf()) == seq![e]);
        assert(hs.map_values(f) + seq![e, e] =~= seq![e] + split_by(e, crlf()));
    } else {
        let h = hs[0];
        assert(header_name_ok(h.0) && line_ok(h.1));
        let line = header_line_of(h);
        assert forall|i: int| 0 <= i < line.len() implies line[i] != 13 && line[i] != 10 by {
            if i < h.0.len() {
                assert(line[i] == h.0[i]);
            } else if i < h.0.len() + 2 {
                assert(line[i] == colon_sp()[i - h.0.len()]);
            } else {
                assert(line[i] == h.1[i - h.0.len() - 2]);
            }
        }
        let rest = hs.drop_first();
        assert(render_headers(hs) + crlf() =~= line + crlf() + (render_headers(rest) + crlf()));
        lemma_split_first_line(line, render_headers(rest) + crlf());
        assert forall|i: int|
            0 <= i < rest.len() implies header_name_ok(#[trigger] rest[i].0) && line_ok(
            rest[i].1,
        ) by {
            assert(rest[i] == hs[i + 1]);
        }
        lemma_split_rendered_headers(rest);
        let e = Seq::<u8>::empty();
        assert(hs.map_values(f) =~= seq![line] + rest.map_values(f));
        assert(seq![line] + (rest.map_values(f) + seq![e, e]) =~= hs.map_values(f) + seq![
            e,
            e,
        ]);
    }
}

/// Parsing inverts rendering: a request head written as
/// `"<METHOD> <PATH> <VERSION>\r\n"`, zero or more `"K: V\r\n"` lines
/// and a terminating blank line parses back to exactly those three
/// tokens and exactly those header pairs, in wire order — and with
/// them, through `header_map`, to a mapping holding every name, the
/// last occurrence of a duplicate winning.
pub proof fn lemma_parse_inverts_render(
    m: Seq<u8>,
    p: Seq<u8>,
    v: Seq<u8>,
    hs: Seq<(Seq<u8>, Seq<u8>)>,
)
    requires
        token_ok(m),
        token_ok(p),
        token_ok(v),
        forall|i: int|
            0 <= i < hs.len() ==> header_name_ok(#[trigger] hs[i].0) && line_ok(hs[i].1),
        valid_utf8(render_request(m, p, v, hs)),
    ensures
        spec_parse_request(render_request(m, p, v, hs)) == Some(
            RequestView { method: m, path: p, version: v, headers: hs },
        ),
{
    let b = render_request(m, p, v, hs);
    let line0 = m + sp() + p + sp() + v;
    assert forall|i: int| 0 <= i < line0.len() implies line0[i] != 13 && line0[i] != 10 by {
        if i < m.len() {
            assert(line0[i] == m[i]);
        } else if i < m.len() + 1 {
            assert(line0[i] == 32);
        } else if i < m.len() + 1 + p.len() {
            assert(line0[i] == p[i - m.len() - 1]);
        } else if i < m.len() + 2 + p.len() {
            assert(line0[i] == 32);
        } else {
            assert(line0[i] == v[i - m.len() - p.len() - 2]);
        }
    }
    assert(b =~= line0 + crlf() + (render_headers(hs) + crlf()));
    lemma_split_first_line(line0, render_headers(hs) + crlf());
    lemma_split_rendered_headers(hs);
    let f = (|h: (Seq<u8>, Seq<u8>)| header_line_of(h));
    let e = Seq::<u8>::empty();
    let ls_all = split_by(b, crlf());
    assert(ls_all == seq![line0] + (hs.map_values(f) + seq![e, e]));
    assert(ls_all.len() == hs.len() + 3);
    assert forall|i: int| 0 <= i < hs.len() + 1 implies ls_all[i].len() > 0 by {
        if i == 0 {
            assert(ls_all[0] == line0);
        } else {
            assert(ls_all[i] == hs.map_values(f)[i - 1]);
            assert(hs.map_values(f)[i - 1] == header_line_of(hs[i - 1]));
        }
    }
    assert(ls_all[hs.len() as int + 1] == e);
    lemma_take_until_blank_prefix(ls_all, hs.len() as int + 1);
    let ls = request_lines(b);
    assert(ls == ls_all.subrange(0, hs.len() as int + 1));
    assert(ls.len() == hs.len() + 1);
    assert(ls[0] == line0);
    lemma_split_request_line(m, p, v);
    assert(split_by(ls[0], sp()) == seq![m, p, v]);
    assert forall|i: int|
        1 <= i < ls.len() implies #[trigger] parse_header_line(ls[i]) == Some(
        (hs[i - 1].0, hs[i - 1].1),
    ) by {
        assert(ls[i] == ls_all[i]);
        assert(ls_all[i] == hs.map_values(f)[i - 1]);
        assert(hs.map_values(f)[i - 1] == header_line_of(hs[i - 1]));
        assert(header_name_ok(hs[i - 1].0));
        lemma_parse_header_line_exact(hs[i - 1].0, hs[i - 1].1);
        assert(header_line_of((hs[i - 1].0, hs[i - 1].1)) == header_line_of(hs[i - 1]));
    }
    assert(!(exists|i: int| 1 <= i < ls.len() && parse_header_line(ls[i]) is None));
    let got = spec_parse_request(b)->Some_0;
    assert(got.headers =~= hs) by {
        assert forall|i: int| 0 <= i < hs.len() implies got.headers[i] == hs[i] by {
            assert(parse_header_line(ls[i + 1]) == Some((hs[i].0, hs[i].1)));
            assert((hs[i].0, hs[i].1) == hs[i]);
        }
    }
    assert(spec_parse_request(b) == Some(
        RequestView { method: m, path: p, version: v, headers: hs },
    ));
}

/// The prefix of the lines before the first blank one, named exactly.
pub proof fn lemma_take_until_blank_prefix(ls: Seq<Seq<u8>>, k: int)
    requires
        0 <= k <= ls.len(),
        forall|i: int| 0 <= i < k ==> ls[i].len() > 0,
        k == ls.len() || ls[k].len() == 0,
    ensures
        take_until_blank(ls) == ls.subrange(0, k),
    decreases k,
{
    if k == 0 {
        assert(take_until_blank(ls) =~= ls.subrange(0, 0));
    } else {
        lemma_take_until_blank_prefix(ls.drop_first(), k - 1);
        assert(take_until_blank(ls) =~= ls.subrange(0, k));
    }
}

/// Lines up to and holding index `k` survive the cut at the blank line.
pub proof fn lemma_take_until_blank_through(ls: Seq<Seq<u8>>, k: int)
    requires
        0 <= k < ls.len(),
        forall|i: int| 0 <= i <= k ==> ls[i].len() > 0,
    ensures
        take_until_blank(ls).len() > k,
        forall|i: int| 0 <= i <= k ==> take_until_blank(ls)[i] == ls[i],
    decreases k,
{
    if k > 0 {
        assert forall|i: int| 0 <= i <= k - 1 implies ls.drop_first()[i].len() > 0 by {
            assert(ls.drop_first()[i] == ls[i + 1]);
        }
        lemma_take_until_blank_through(ls.drop_first(), k - 1);
        assert forall|i: int| 0 <= i <= k implies take_until_blank(ls)[i] == ls[i] by {
            if i > 0 {
                assert(take_until_blank(ls)[i] == take_until_blank(ls.drop_first())[i - 1]);
                assert(ls.drop_first()[i - 1] == ls[i]);
            }
        }
    }
}

} // verus!
