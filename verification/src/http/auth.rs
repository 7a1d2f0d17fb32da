//! Who may ask.
//!
//! There is one token. A client shows it in the `Authorization` header, in a cookie, or
//! in the query of the address: whatever it is able to send.

use crate::text::edit::{find, find_char, lemma_find, lemma_parts_one, parts, split_at_char};
use crate::text::laws::law_a_separator_separates_parts;
use crate::text::{
    begins_with, chars_of, is_whitespace, lemma_trim_same, rows, same_chars, string_of, trim,
    trimmed,
};
use vstd::prelude::*;
use vstd::utf8::encode_utf8_decode_utf8;

verus! {

/// The name of the cookie that holds the token.
pub const COOKIE: &'static str = "reader_token";

/// What a client is told whose token is missing or wrong.
pub const REFUSAL: &'static str = "token inválido";

/// Whether two texts have the same bytes. How long it takes does not depend on where
/// they differ.
pub fn ct_eq(a: &str, b: &str) -> (r: bool)
    ensures
        r == (a@ == b@),
{
    let x: &[u8] = a.as_bytes();
    let y: &[u8] = b.as_bytes();
    proof {
        encode_utf8_decode_utf8(a@);
        encode_utf8_decode_utf8(b@);
    }
    if x.len() != y.len() {
        return false;
    }
    let mut acc: u8 = 0;
    let mut i: usize = 0;
    while i < x.len()
        invariant
            0 <= i <= x@.len(),
            x@.len() == y@.len(),
            acc == 0 <==> x@.take(i as int) =~= y@.take(i as int),
        decreases x@.len() - i,
    {
        let p: u8 = x[i];
        let q: u8 = y[i];
        let next: u8 = acc | (p ^ q);
        assert(next == 0 <==> acc == 0 && p == q) by (bit_vector)
            requires
                next == acc | (p ^ q),
        ;
        proof {
            let s = x@.take(i + 1);
            let t = y@.take(i + 1);
            assert(s.take(i as int) =~= x@.take(i as int));
            assert(t.take(i as int) =~= y@.take(i as int));
            assert(s[i as int] == p && t[i as int] == q);
            assert(s =~= x@.take(i as int).push(p));
            assert(t =~= y@.take(i as int).push(q));
        }
        acc = next;
        i = i + 1;
    }
    assert(x@.take(i as int) =~= x@);
    assert(y@.take(i as int) =~= y@);
    acc == 0
}

/// What a pair has before its first `=`, and what it has behind it, if it has one.
pub open spec fn split_pair(s: Seq<char>) -> Option<(Seq<char>, Seq<char>)> {
    let i = find(s, '=', 0);
    if i < s.len() {
        Some((s.take(i), s.skip(i + 1)))
    } else {
        None
    }
}

/// Whether the header `v` shows the token.
pub open spec fn bearer_shows(v: Seq<char>, token: Seq<char>) -> bool {
    "Bearer "@.is_prefix_of(v) && trim(v.skip(7)) == token
}

/// Whether a cookie shows the token.
pub open spec fn cookie_shows(c: Seq<char>, token: Seq<char>) -> bool {
    split_pair(trim(c)) matches Some((name, value)) && name == COOKIE@ && trim(value) == token
}

/// Whether a pair of the query shows the token.
pub open spec fn pair_shows(p: Seq<char>, token: Seq<char>) -> bool {
    split_pair(p) matches Some((name, value)) && name == "token"@ && value == token
}

/// Whether one of the cookies shows the token.
pub open spec fn cookies_show(cookies: Seq<char>, token: Seq<char>) -> bool {
    exists|i: int|
        0 <= i < parts(cookies, ';').len() && cookie_shows(#[trigger] parts(cookies, ';')[i], token)
}

/// Whether one of the pairs of the query shows the token.
pub open spec fn query_shows(query: Seq<char>, token: Seq<char>) -> bool {
    exists|i: int|
        0 <= i < parts(query, '&').len() && pair_shows(#[trigger] parts(query, '&')[i], token)
}

/// Whether a request shows the token.
pub open spec fn shows_token(
    token: Seq<char>,
    authorization: Option<Seq<char>>,
    cookies: Option<Seq<char>>,
    query: Option<Seq<char>>,
) -> bool {
    ||| authorization matches Some(v) && bearer_shows(v, token)
    ||| cookies matches Some(c) && cookies_show(c, token)
    ||| query matches Some(q) && query_shows(q, token)
}

/// The contents of an optional text.
pub open spec fn opt_view(s: Option<&str>) -> Option<Seq<char>> {
    match s {
        Some(t) => Some(t@),
        None => None,
    }
}

/// Whether these characters are the token.
fn is_token(cs: &[char], expected: &str) -> (r: bool)
    ensures
        r == (cs@ == expected@),
{
    ct_eq(string_of(cs).as_str(), expected)
}

/// Whether the header shows the token.
fn check_bearer(v: &str, expected: &str) -> (r: bool)
    ensures
        r == bearer_shows(v@, expected@),
{
    let cs: Vec<char> = chars_of(v);
    proof {
        reveal_strlit("Bearer ");
    }
    if begins_with(cs.as_slice(), chars_of("Bearer ").as_slice()) {
        assert(cs@.subrange(7, cs@.len() as int) =~= cs@.skip(7));
        is_token(trimmed(&cs.as_slice()[7..cs.len()]), expected)
    } else {
        false
    }
}

/// Whether one of the cookies shows the token.
fn check_cookies(cookies: &str, expected: &str) -> (r: bool)
    ensures
        r == cookies_show(cookies@, expected@),
{
    let list: Vec<Vec<char>> = split_at_char(chars_of(cookies).as_slice(), ';');
    let ghost all = parts(cookies@, ';');
    let mut i: usize = 0;
    while i < list.len()
        invariant
            0 <= i <= list@.len(),
            rows(list@) == all,
            all == parts(cookies@, ';'),
            forall|k: int| 0 <= k < i ==> !cookie_shows(#[trigger] all[k], expected@),
        decreases list@.len() - i,
    {
        assert(all[i as int] == list@[i as int]@);
        let c: &[char] = trimmed(list[i].as_slice());
        let e: usize = find_char(c, '=', 0);
        if e < c.len() {
            assert(c@.subrange(0, e as int) =~= c@.take(e as int));
            assert(c@.subrange(e + 1, c@.len() as int) =~= c@.skip(e + 1));
            if same_chars(&c[0..e], chars_of(COOKIE).as_slice()) && is_token(
                trimmed(&c[e + 1..c.len()]),
                expected,
            ) {
                assert(cookie_shows(all[i as int], expected@));
                return true;
            }
        }
        i = i + 1;
    }
    assert(rows(list@).len() == list@.len());
    false
}

/// Whether one of the pairs of the query shows the token.
fn check_query(query: &str, expected: &str) -> (r: bool)
    ensures
        r == query_shows(query@, expected@),
{
    let list: Vec<Vec<char>> = split_at_char(chars_of(query).as_slice(), '&');
    let ghost all = parts(query@, '&');
    let mut i: usize = 0;
    while i < list.len()
        invariant
            0 <= i <= list@.len(),
            rows(list@) == all,
            all == parts(query@, '&'),
            forall|k: int| 0 <= k < i ==> !pair_shows(#[trigger] all[k], expected@),
        decreases list@.len() - i,
    {
        assert(all[i as int] == list@[i as int]@);
        let p: &[char] = list[i].as_slice();
        let e: usize = find_char(p, '=', 0);
        if e < p.len() {
            assert(p@.subrange(0, e as int) =~= p@.take(e as int));
            assert(p@.subrange(e + 1, p@.len() as int) =~= p@.skip(e + 1));
            if same_chars(&p[0..e], chars_of("token").as_slice()) && is_token(
                &p[e + 1..p.len()],
                expected,
            ) {
                assert(pair_shows(all[i as int], expected@));
                return true;
            }
        }
        i = i + 1;
    }
    assert(rows(list@).len() == list@.len());
    false
}

/// Whether a request with this `Authorization` header, these cookies and this query
/// shows the token. One of the three is enough.
pub fn token_ok(
    expected: &str,
    authorization: Option<&str>,
    cookies: Option<&str>,
    query: Option<&str>,
) -> (r: bool)
    ensures
        r == shows_token(
            expected@,
            opt_view(authorization),
            opt_view(cookies),
            opt_view(query),
        ),
{
    if let Some(v) = authorization {
        if check_bearer(v, expected) {
            return true;
        }
    }
    if let Some(c) = cookies {
        if check_cookies(c, expected) {
            return true;
        }
    }
    if let Some(q) = query {
        if check_query(q, expected) {
            return true;
        }
    }
    false
}

/// A request that shows nothing is refused, whatever the token is.
pub proof fn law_nothing_shown_is_refused(token: Seq<char>)
    ensures
        !shows_token(token, None, None, None),
{
}

/// Each of the three places is enough: a request that shows the token in the header, in
/// the cookie or in the query is let in. The token does not begin or end with white
/// space, and holds no sign that separates cookies or the pairs of a query.
pub proof fn law_each_place_is_enough(token: Seq<char>)
    requires
        token.len() > 0,
        !is_whitespace(token[0]),
        !is_whitespace(token.last()),
        !token.contains(';'),
        !token.contains('&'),
    ensures
        shows_token(token, Some("Bearer "@ + token), None, None),
        shows_token(token, None, Some(COOKIE@ + "="@ + token), None),
        shows_token(token, None, None, Some("token="@ + token)),
{
    reveal_strlit("Bearer ");
    reveal_strlit("reader_token");
    reveal_strlit("=");
    reveal_strlit("token=");
    reveal_strlit("token");
    lemma_trim_same(token);
    let v = "Bearer "@ + token;
    assert(v.skip(7) =~= token);
    assert("Bearer "@ =~= v.subrange(0, 7));
    let c = COOKIE@ + "="@ + token;
    assert(c.last() == token.last());
    lemma_trim_same(c);
    lemma_find(c, '=', 0);
    assert(c[12] == '=');
    assert(c.take(12) =~= COOKIE@);
    assert(c.skip(13) =~= token);
    assert(!c.contains(';')) by {
        if c.contains(';') {
            let k = choose|k: int| 0 <= k < c.len() && c[k] == ';';
            assert(token[k - 13] == ';');
        }
    }
    lemma_parts_one(c, ';');
    assert(cookie_shows(parts(c, ';')[0], token));
    let q = "token="@ + token;
    lemma_find(q, '=', 0);
    assert(q[5] == '=');
    assert(q.take(5) =~= "token"@);
    assert(q.skip(6) =~= token);
    assert(!q.contains('&')) by {
        if q.contains('&') {
            let k = choose|k: int| 0 <= k < q.len() && q[k] == '&';
            assert(token[k - 6] == '&');
        }
    }
    lemma_parts_one(q, '&');
    assert(pair_shows(parts(q, '&')[0], token));
}

/// What stands before the first `=`.
proof fn lemma_pair(p: Seq<char>, name: Seq<char>)
    requires
        !name.contains('='),
    ensures
        (split_pair(p) matches Some((n, v)) && n == name) <==> (name + seq!['=']).is_prefix_of(p),
        (name + seq!['=']).is_prefix_of(p) ==> split_pair(p) == Some(
            (name, p.skip(name.len() + 1int)),
        ),
{
    lemma_find(p, '=', 0);
    let i = find(p, '=', 0);
    let head = name + seq!['='];
    if head.is_prefix_of(p) {
        assert(p.subrange(0, head.len() as int) =~= head);
        assert(p[name.len() as int] == '=') by {
            assert(p.subrange(0, head.len() as int)[name.len() as int] == head[name.len() as int]);
        }
        assert forall|k: int| 0 <= k < name.len() implies #[trigger] p[k] != '=' by {
            assert(p.subrange(0, head.len() as int)[k] == head[k]);
            assert(name[k] != '=') by {
                assert(name.contains(name[k]));
            }
        }
        assert(i == name.len());
        assert(p.take(i) =~= name);
    }
    if let Some((n, v)) = split_pair(p) {
        if n == name {
            assert(p.subrange(0, head.len() as int) =~= head) by {
                assert forall|k: int| 0 <= k < name.len() implies p[k] == name[k] by {
                    assert(p.take(i)[k] == p[k]);
                }
            }
        }
    }
}

/// A client is let in by what it shows in one of the three places, each by itself.
pub proof fn law_places_count_each_by_itself(
    token: Seq<char>,
    authorization: Option<Seq<char>>,
    cookies: Option<Seq<char>>,
    query: Option<Seq<char>>,
)
    ensures
        shows_token(token, authorization, cookies, query) <==> shows_token(
            token,
            authorization,
            None,
            None,
        ) || shows_token(token, None, cookies, None) || shows_token(token, None, None, query),
{
}

/// In the header nothing but the token lets a client in: behind `Bearer ` stands the token
/// and white space at most.
pub proof fn law_the_header_has_to_be_the_token(token: Seq<char>, v: Seq<char>)
    ensures
        shows_token(token, Some("Bearer "@ + v), None, None) <==> trim(v) == token,
        !"Bearer "@.is_prefix_of(v) ==> !shows_token(token, Some(v), None, None),
{
    reveal_strlit("Bearer ");
    let w = "Bearer "@ + v;
    assert(w.skip(7) =~= v);
    assert("Bearer "@ =~= w.subrange(0, 7));
}

/// In the query nothing but the token lets a client in: of the pairs, which `&` separates,
/// one is the name `token`, a sign of equality and the token, and nothing more.
pub proof fn law_one_pair_has_to_be_the_token(token: Seq<char>, p: Seq<char>, q: Seq<char>)
    ensures
        !p.contains('&') ==> (shows_token(token, None, None, Some(p)) <==> p == "token="@ + token),
        shows_token(token, None, None, Some(p + seq!['&'] + q)) <==> shows_token(
            token,
            None,
            None,
            Some(p),
        ) || shows_token(token, None, None, Some(q)),
{
    reveal_strlit("token=");
    reveal_strlit("token");
    if !p.contains('&') {
        lemma_parts_one(p, '&');
        assert(!"token"@.contains('='));
        lemma_pair(p, "token"@);
        assert("token"@ + seq!['='] =~= "token="@);
        if pair_shows(p, token) {
            assert(p.subrange(0, 6) == "token="@);
            assert(p =~= "token="@ + token) by {
                assert(p =~= p.subrange(0, 6) + p.skip(6));
            }
        }
        if p == "token="@ + token {
            assert("token="@ =~= p.subrange(0, 6));
            assert(p.skip(6) =~= token);
        }
        assert(parts(p, '&')[0] == p);
    }
    law_a_separator_separates_parts(p, '&', q);
    let all = parts(p + seq!['&'] + q, '&');
    let a = parts(p, '&');
    let b = parts(q, '&');
    if query_shows(p + seq!['&'] + q, token) {
        let i = choose|i: int| 0 <= i < all.len() && pair_shows(#[trigger] all[i], token);
        if i < a.len() {
            assert(a[i] == all[i]);
        } else {
            assert(b[i - a.len()] == all[i]);
        }
    }
    if query_shows(p, token) {
        let i = choose|i: int| 0 <= i < a.len() && pair_shows(#[trigger] a[i], token);
        assert(all[i] == a[i]);
    }
    if query_shows(q, token) {
        let i = choose|i: int| 0 <= i < b.len() && pair_shows(#[trigger] b[i], token);
        assert(all[a.len() + i] == b[i]);
    }
}

/// In the cookies nothing but the token lets a client in: of the cookies, which `;`
/// separates, one is the name `reader_token`, a sign of equality and the token, with white
/// space around them and before the token at most.
pub proof fn law_one_cookie_has_to_be_the_token(token: Seq<char>, c: Seq<char>, d: Seq<char>)
    ensures
        !c.contains(';') ==> (shows_token(token, None, Some(c), None) <==> {
            &&& "reader_token="@.is_prefix_of(trim(c))
            &&& trim(trim(c).skip(13)) == token
        }),
        shows_token(token, None, Some(c + seq![';'] + d), None) <==> shows_token(
            token,
            None,
            Some(c),
            None,
        ) || shows_token(token, None, Some(d), None),
{
    reveal_strlit("reader_token=");
    reveal_strlit("reader_token");
    if !c.contains(';') {
        lemma_parts_one(c, ';');
        assert(!COOKIE@.contains('='));
        lemma_pair(trim(c), COOKIE@);
        assert(COOKIE@ + seq!['='] =~= "reader_token="@);
        assert(parts(c, ';')[0] == c);
    }
    law_a_separator_separates_parts(c, ';', d);
    let all = parts(c + seq![';'] + d, ';');
    let a = parts(c, ';');
    let b = parts(d, ';');
    if cookies_show(c + seq![';'] + d, token) {
        let i = choose|i: int| 0 <= i < all.len() && cookie_shows(#[trigger] all[i], token);
        if i < a.len() {
            assert(a[i] == all[i]);
        } else {
            assert(b[i - a.len()] == all[i]);
        }
    }
    if cookies_show(c, token) {
        let i = choose|i: int| 0 <= i < a.len() && cookie_shows(#[trigger] a[i], token);
        assert(all[i] == a[i]);
    }
    if cookies_show(d, token) {
        let i = choose|i: int| 0 <= i < b.len() && cookie_shows(#[trigger] b[i], token);
        assert(all[a.len() + i] == b[i]);
    }
}

} // verus!
