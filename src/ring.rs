//! The polygon text of alert areas: whitespace-separated `lat,lon` pairs
//! forming one closed ring.

use vstd::prelude::*;

use crate::decimal::{
    decimal_text, decimal_value, digits_of, fixed_digits, index_of, is_digit,
    lemma_decimal_bound, lemma_decimal_round_trip, lemma_digits_of, lemma_fixed_digits,
    lemma_index_of_prefix, parse_decimal, exact_key, same_number, push_decimal, find_char, abs,
    SCALE,
};
use crate::geometry::{
    coord_in_range, is_closed, ring_closed, ring_in_range, Coord, Polygon, PolygonError,
};
use crate::text::{chars_of, string_of_range};

verus! {

/// The characters that Unicode marks `White_Space`.
pub open spec fn is_space(c: char) -> bool {
    ('\t' <= c && c <= '\r') || c == ' ' || c == '\u{85}' || c == '\u{a0}' || c == '\u{1680}' || (
    '\u{2000}' <= c && c <= '\u{200a}') || c == '\u{2028}' || c == '\u{2029}' || c == '\u{202f}'
        || c == '\u{205f}' || c == '\u{3000}'
}

/// Whether `c` is white space.
pub fn is_space_char(c: char) -> (r: bool)
    ensures
        r == is_space(c),
{
    ('\t' <= c && c <= '\r') || c == ' ' || c == '\u{85}' || c == '\u{a0}' || c == '\u{1680}' || (
    '\u{2000}' <= c && c <= '\u{200a}') || c == '\u{2028}' || c == '\u{2029}' || c == '\u{202f}'
        || c == '\u{205f}' || c == '\u{3000}'
}

/// The maximal runs of non-space characters of `s`, after the run `cur` already begun.
pub open spec fn tokens_from(s: Seq<char>, cur: Seq<char>) -> Seq<Seq<char>>
    decreases s.len(),
{
    if s.len() == 0 {
        if cur.len() > 0 {
            seq![cur]
        } else {
            seq![]
        }
    } else if is_space(s[0]) {
        let rest = tokens_from(s.drop_first(), seq![]);
        if cur.len() > 0 {
            seq![cur] + rest
        } else {
            rest
        }
    } else {
        tokens_from(s.drop_first(), cur.push(s[0]))
    }
}

/// The whitespace-separated words of `s`.
pub open spec fn tokens(s: Seq<char>) -> Seq<Seq<char>> {
    tokens_from(s, seq![])
}

/// A `lat,lon` pair, split at its first comma.
pub open spec fn coord_of_token(t: Seq<char>) -> Option<Coord> {
    let k = index_of(t, ',');
    if k >= t.len() {
        None
    } else {
        match (decimal_value(t.take(k)), decimal_value(t.skip(k + 1))) {
            (Some(y), Some(x)) => Some(Coord { x: x as i64, y: y as i64 }),
            _ => None,
        }
    }
}

/// The coordinates of all words, or `None` when one of them is malformed.
pub open spec fn coords_of(ts: Seq<Seq<char>>) -> Option<Seq<Coord>>
    decreases ts.len(),
{
    if ts.len() == 0 {
        Some(seq![])
    } else {
        match (coords_of(ts.drop_last()), coord_of_token(ts.last())) {
            (Some(r), Some(p)) => Some(r.push(p)),
            _ => None,
        }
    }
}

/// What fixes the exact point a `lat,lon` word writes: the exact numbers on
/// either side of its first comma.
pub open spec fn token_key(t: Seq<char>) -> (Option<(int, Seq<char>, bool)>, Option<(int, Seq<char>, bool)>) {
    let k = index_of(t, ',');
    (exact_key(t.take(k)), exact_key(t.skip(k + 1)))
}

/// The first and last words write exactly the same point, digits past the
/// seventh fraction digit included.
pub open spec fn text_closed(ts: Seq<Seq<char>>) -> bool {
    ts.len() == 0 || token_key(ts[0]) == token_key(ts[ts.len() - 1])
}

/// The ring that a polygon text denotes, when the text is well formed and the
/// ring closed as written.
pub open spec fn ring_of_text(s: Seq<char>) -> Option<Seq<Coord>> {
    match coords_of(tokens(s)) {
        Some(r) => if is_closed(r) && text_closed(tokens(s)) {
            Some(r)
        } else {
            None
        },
        None => None,
    }
}

/// The text of one coordinate: latitude, a comma, longitude.
pub open spec fn token_text(p: Coord) -> Seq<char> {
    decimal_text(p.y as int) + seq![','] + decimal_text(p.x as int)
}

/// Each word followed by one space.
pub open spec fn spaced(ts: Seq<Seq<char>>) -> Seq<char>
    decreases ts.len(),
{
    if ts.len() == 0 {
        seq![]
    } else {
        spaced(ts.drop_last()) + ts.last() + seq![' ']
    }
}

/// The text of a ring: its coordinates separated by single spaces.
pub open spec fn ring_text(r: Seq<Coord>) -> Seq<char> {
    let sp = spaced(r.map_values(|p: Coord| token_text(p)));
    if sp.len() == 0 {
        sp
    } else {
        sp.drop_last()
    }
}

pub open spec fn span_texts(s: Seq<char>, sp: Seq<(usize, usize)>) -> Seq<Seq<char>> {
    sp.map_values(|p: (usize, usize)| s.subrange(p.0 as int, p.1 as int))
}

/// The start and end of every word of `cs`.
fn token_spans(cs: &Vec<char>) -> (r: Vec<(usize, usize)>)
    ensures
        span_texts(cs@, r@) == tokens(cs@),
        forall|j: int| 0 <= j < r@.len() ==> (#[trigger] r@[j]).0 <= r@[j].1 <= cs@.len(),
{
    let n = cs.len();
    let mut spans: Vec<(usize, usize)> = Vec::new();
    let mut start: usize = 0;
    let mut i: usize = 0;
    assert(cs@.skip(0) =~= cs@);
    assert(cs@.subrange(0, 0) =~= Seq::<char>::empty());
    assert(span_texts(cs@, spans@) =~= Seq::<Seq<char>>::empty());
    while i < n
        invariant
            n == cs@.len(),
            start <= i <= n,
            forall|j: int| 0 <= j < spans@.len() ==> (#[trigger] spans@[j]).0 <= spans@[j].1 <= n,
            tokens(cs@) == span_texts(cs@, spans@) + tokens_from(
                cs@.skip(i as int),
                cs@.subrange(start as int, i as int),
            ),
        decreases n - i,
    {
        let ghost s = cs@.skip(i as int);
        let ghost cur = cs@.subrange(start as int, i as int);
        let ghost before = span_texts(cs@, spans@);
        assert(s.drop_first() =~= cs@.skip(i + 1));
        assert(s[0] == cs@[i as int]);
        if is_space_char(cs[i]) {
            if start < i {
                spans.push((start, i));
                assert(span_texts(cs@, spans@) =~= before.push(cur));
                assert(before + tokens_from(s, cur) =~= span_texts(cs@, spans@) + tokens_from(
                    cs@.skip(i + 1),
                    seq![],
                ));
            }
            start = i + 1;
            assert(cs@.subrange(start as int, i + 1) =~= Seq::<char>::empty());
        } else {
            assert(cur.push(cs@[i as int]) =~= cs@.subrange(start as int, i + 1));
        }
        i += 1;
    }
    let ghost cur = cs@.subrange(start as int, n as int);
    let ghost before = span_texts(cs@, spans@);
    assert(cs@.skip(n as int) =~= Seq::<char>::empty());
    if start < n {
        spans.push((start, n));
        assert(span_texts(cs@, spans@) =~= before.push(cur));
        assert(before + seq![cur] =~= before.push(cur));
    } else {
        assert(before + Seq::<Seq<char>>::empty() =~= before);
    }
    spans
}

/// The coordinate written as `cs[a..b]`.
fn coord_at(cs: &Vec<char>, a: usize, b: usize) -> (r: Option<Coord>)
    requires
        a <= b <= cs@.len(),
    ensures
        r == coord_of_token(cs@.subrange(a as int, b as int)),
{
    let ghost t = cs@.subrange(a as int, b as int);
    let k = find_char(cs, a, b, ',');
    if k == b - a {
        return None;
    }
    assert(t.take(k as int) =~= cs@.subrange(a as int, a + k));
    assert(t.skip(k + 1) =~= cs@.subrange(a + k + 1, b as int));
    let y = parse_decimal(cs, a, a + k);
    let x = parse_decimal(cs, a + k + 1, b);
    match (y, x) {
        (Some(y), Some(x)) => Some(Coord { x, y }),
        _ => None,
    }
}

proof fn lemma_coords_prefix_none(ts: Seq<Seq<char>>, m: int)
    requires
        0 <= m <= ts.len(),
        coords_of(ts.take(m)) is None,
    ensures
        coords_of(ts) is None,
    decreases ts.len() - m,
{
    if m < ts.len() {
        assert(ts.take(m + 1).drop_last() =~= ts.take(m));
        lemma_coords_prefix_none(ts, m + 1);
    } else {
        assert(ts.take(m) =~= ts);
    }
}

/// Reads the ring written in `cs`.
fn ring_from_chars(cs: &Vec<char>) -> (r: Result<Vec<Coord>, PolygonError>)
    ensures
        match r {
            Ok(ring) => ring_of_text(cs@) == Some(ring@),
            Err(PolygonError::NotClosed) => coords_of(tokens(cs@)) matches Some(c) && !(is_closed(
                c,
            ) && text_closed(tokens(cs@))),
            Err(PolygonError::Malformed) => coords_of(tokens(cs@)) is None,
        },
{
    let spans = token_spans(cs);
    let ghost ts = tokens(cs@);
    let mut coords: Vec<Coord> = Vec::new();
    let mut j: usize = 0;
    assert(ts.take(0) =~= Seq::<Seq<char>>::empty());
    while j < spans.len()
        invariant
            span_texts(cs@, spans@) == ts,
            ts == tokens(cs@),
            forall|k: int| 0 <= k < spans@.len() ==> (#[trigger] spans@[k]).0 <= spans@[k].1 <= cs@.len(),
            j <= spans@.len(),
            coords_of(ts.take(j as int)) == Some(coords@),
        decreases spans@.len() - j,
    {
        let (a, b) = spans[j];
        assert(ts[j as int] == cs@.subrange(a as int, b as int));
        assert(ts.take(j + 1).drop_last() =~= ts.take(j as int));
        assert(ts.take(j + 1).last() == ts[j as int]);
        match coord_at(cs, a, b) {
            Some(c) => {
                coords.push(c);
            },
            None => {
                proof {
                    assert(coord_of_token(ts.take(j + 1).last()) is None);
                    assert(coords_of(ts.take(j + 1)) is None);
                    lemma_coords_prefix_none(ts, j + 1);
                }
                return Err(PolygonError::Malformed);
            },
        }
        j += 1;
    }
    assert(ts.take(spans@.len() as int) =~= ts);
    if !ring_closed(&coords) {
        return Err(PolygonError::NotClosed);
    }
    if spans.len() > 0 {
        let (a1, b1) = spans[0];
        let (a2, b2) = spans[spans.len() - 1];
        proof {
            lemma_coords_have_commas(ts);
            assert(ts[0] == cs@.subrange(a1 as int, b1 as int));
            assert(ts[ts.len() - 1] == cs@.subrange(a2 as int, b2 as int));
        }
        if !same_token(cs, a1, b1, a2, b2) {
            return Err(PolygonError::NotClosed);
        }
    }
    Ok(coords)
}

/// Every word of a well-formed text has a comma.
proof fn lemma_coords_have_commas(ts: Seq<Seq<char>>)
    requires
        coords_of(ts) is Some,
    ensures
        forall|i: int| 0 <= i < ts.len() ==> index_of(#[trigger] ts[i], ',') < ts[i].len(),
    decreases ts.len(),
{
    if ts.len() > 0 {
        lemma_coords_have_commas(ts.drop_last());
        assert forall|i: int| 0 <= i < ts.len() implies index_of(#[trigger] ts[i], ',') < ts[i].len() by {
            if i < ts.len() - 1 {
                assert(ts[i] == ts.drop_last()[i]);
            }
        }
    }
}

/// Whether the words `cs[a1..b1]` and `cs[a2..b2]`, each with a comma, write
/// exactly the same point.
fn same_token(cs: &Vec<char>, a1: usize, b1: usize, a2: usize, b2: usize) -> (r: bool)
    requires
        a1 <= b1 <= cs@.len(),
        a2 <= b2 <= cs@.len(),
        index_of(cs@.subrange(a1 as int, b1 as int), ',') < b1 - a1,
        index_of(cs@.subrange(a2 as int, b2 as int), ',') < b2 - a2,
    ensures
        r == (token_key(cs@.subrange(a1 as int, b1 as int)) == token_key(
            cs@.subrange(a2 as int, b2 as int),
        )),
{
    let ghost t1 = cs@.subrange(a1 as int, b1 as int);
    let ghost t2 = cs@.subrange(a2 as int, b2 as int);
    let k1 = find_char(cs, a1, b1, ',');
    let k2 = find_char(cs, a2, b2, ',');
    assert(t1.take(k1 as int) =~= cs@.subrange(a1 as int, a1 + k1));
    assert(t1.skip(k1 + 1) =~= cs@.subrange(a1 + k1 + 1, b1 as int));
    assert(t2.take(k2 as int) =~= cs@.subrange(a2 as int, a2 + k2));
    assert(t2.skip(k2 + 1) =~= cs@.subrange(a2 + k2 + 1, b2 as int));
    let ys = same_number(cs, a1, a1 + k1, a2, a2 + k2);
    let xs = same_number(cs, a1 + k1 + 1, b1, a2 + k2 + 1, b2);
    ys && xs
}

/// Reads an alert-area polygon text: whitespace-separated `lat,lon` pairs whose
/// first and last pairs write exactly the same point, digits past the seventh
/// fraction digit included; otherwise the ring is not closed. The result has
/// no holes, and its coordinates keep seven fraction digits.
pub fn polygon_from_text(text: &str) -> (r: Result<Polygon, PolygonError>)
    ensures
        match r {
            Ok(p) => ring_of_text(text@) == Some(p.exterior@) && p.interiors@.len() == 0 && p.wf(),
            Err(PolygonError::NotClosed) => coords_of(tokens(text@)) matches Some(c) && !(is_closed(
                c,
            ) && text_closed(tokens(text@))),
            Err(PolygonError::Malformed) => coords_of(tokens(text@)) is None,
        },
{
    let cs = chars_of(text);
    match ring_from_chars(&cs) {
        Ok(ring) => {
            proof {
                lemma_coords_in_range(tokens(cs@));
            }
            let p = Polygon { exterior: ring, interiors: Vec::new() };
            Ok(p)
        },
        Err(e) => Err(e),
    }
}

/// Every coordinate that a well-formed text gives is in range.
pub proof fn lemma_coords_in_range(ts: Seq<Seq<char>>)
    ensures
        coords_of(ts) matches Some(r) ==> ring_in_range(r),
    decreases ts.len(),
{
    if ts.len() > 0 {
        lemma_coords_in_range(ts.drop_last());
        let t = ts.last();
        let k = index_of(t, ',');
        if k < t.len() {
            lemma_decimal_bound(t.take(k));
            lemma_decimal_bound(t.skip(k + 1));
        }
        if coords_of(ts) is Some {
            let r = coords_of(ts)->0;
            let r0 = coords_of(ts.drop_last())->0;
            assert forall|i: int| 0 <= i < r.len() implies coord_in_range(#[trigger] r[i]) by {
                if i < r0.len() {
                    assert(r[i] == r0[i]);
                }
            }
        }
    }
}

/// Writes the text of a polygon's outer ring.
pub fn polygon_to_text(p: &Polygon) -> (r: String)
    requires
        p.wf(),
    ensures
        r@ == ring_text(p.exterior@),
{
    let ring = &p.exterior;
    let mut out: Vec<char> = Vec::new();
    let mut i: usize = 0;
    let ghost ts = ring@.map_values(|c: Coord| token_text(c));
    assert(ts.take(0) =~= Seq::<Seq<char>>::empty());
    while i < ring.len()
        invariant
            i <= ring@.len(),
            ring_in_range(ring@),
            ts == ring@.map_values(|c: Coord| token_text(c)),
            out@ == spaced(ts.take(i as int)),
        decreases ring@.len() - i,
    {
        let c = ring[i];
        assert(coord_in_range(ring@[i as int]));
        push_decimal(&mut out, c.y);
        out.push(',');
        push_decimal(&mut out, c.x);
        out.push(' ');
        assert(ts.take(i + 1).drop_last() =~= ts.take(i as int));
        assert(ts.take(i + 1).last() == token_text(c));
        assert(out@ =~= spaced(ts.take(i + 1)));
        i += 1;
    }
    assert(ts.take(ring@.len() as int) =~= ts);
    if out.len() == 0 {
        string_of_range(&out, 0, 0)
    } else {
        let r = string_of_range(&out, 0, out.len() - 1);
        assert(out@.subrange(0, out@.len() - 1) =~= out@.drop_last());
        r
    }
}

// Lemmas for the round trip.

proof fn lemma_tokens_trailing_space(x: Seq<char>, cur: Seq<char>)
    ensures
        tokens_from(x.push(' '), cur) == tokens_from(x, cur),
    decreases x.len(),
{
    if x.len() == 0 {
        let s = x.push(' ');
        assert(s.drop_first() =~= Seq::<char>::empty());
        assert(s[0] == ' ');
        assert(is_space(' '));
        let e = Seq::<Seq<char>>::empty();
        assert(tokens_from(Seq::<char>::empty(), seq![]) == e);
        if cur.len() > 0 {
            assert(seq![cur] + e =~= seq![cur]);
        }
    } else {
        assert(x.push(' ').drop_first() =~= x.drop_first().push(' '));
        assert(x.push(' ')[0] == x[0]);
        lemma_tokens_trailing_space(x.drop_first(), seq![]);
        lemma_tokens_trailing_space(x.drop_first(), cur.push(x[0]));
    }
}

pub open spec fn no_space(t: Seq<char>) -> bool {
    forall|i: int| 0 <= i < t.len() ==> !is_space(#[trigger] t[i])
}

proof fn lemma_tokens_word(a: Seq<char>, rest: Seq<char>, cur: Seq<char>)
    requires
        no_space(a),
    ensures
        tokens_from(a + rest, cur) == tokens_from(rest, cur + a),
    decreases a.len(),
{
    if a.len() == 0 {
        assert(a + rest =~= rest);
        assert(cur + a =~= cur);
    } else {
        assert((a + rest).drop_first() =~= a.drop_first() + rest);
        assert((a + rest)[0] == a[0]);
        assert(!is_space(a[0]));
        assert(cur.push(a[0]) + a.drop_first() =~= cur + a);
        lemma_tokens_word(a.drop_first(), rest, cur.push(a[0]));
    }
}

proof fn lemma_tokens_spaced(ts: Seq<Seq<char>>, rest: Seq<char>)
    requires
        forall|i: int| 0 <= i < ts.len() ==> (#[trigger] ts[i]).len() > 0 && no_space(ts[i]),
    ensures
        tokens_from(spaced(ts) + rest, seq![]) == ts + tokens_from(rest, seq![]),
    decreases ts.len(),
{
    if ts.len() == 0 {
        assert(spaced(ts) + rest =~= rest);
        assert(ts + tokens_from(rest, seq![]) =~= tokens_from(rest, seq![]));
    } else {
        let init = ts.drop_last();
        let w = ts.last();
        assert(ts[ts.len() - 1] == w);
        let rest2 = w + (seq![' '] + rest);
        assert(spaced(ts) + rest =~= spaced(init) + rest2);
        lemma_tokens_spaced(init, rest2);
        lemma_tokens_word(w, seq![' '] + rest, seq![]);
        assert(Seq::<char>::empty() + w =~= w);
        let sp = seq![' '] + rest;
        assert(sp.drop_first() =~= rest);
        assert(sp[0] == ' ');
        assert(tokens_from(sp, w) == seq![w] + tokens_from(rest, seq![]));
        assert(init + (seq![w] + tokens_from(rest, seq![])) =~= ts + tokens_from(rest, seq![]));
    }
}

proof fn lemma_decimal_text_chars(v: int)
    ensures
        decimal_text(v).len() > 0,
        forall|i: int|
            0 <= i < decimal_text(v).len() ==> is_digit(#[trigger] decimal_text(v)[i])
                || decimal_text(v)[i] == '.' || decimal_text(v)[i] == '-',
{
    let a = abs(v);
    let sc = SCALE as nat;
    let ip = digits_of(a / sc);
    let fp = fixed_digits(a % sc, 7);
    lemma_digits_of(a / sc);
    lemma_fixed_digits(a % sc, 7);
    let body = ip + seq!['.'] + fp;
    assert forall|i: int| 0 <= i < body.len() implies is_digit(#[trigger] body[i]) || body[i]
        == '.' by {
        if i < ip.len() {
            assert(body[i] == ip[i]);
        } else if i > ip.len() {
            assert(body[i] == fp[i - ip.len() - 1]);
        }
    }
    if v < 0 {
        let t = seq!['-'] + body;
        assert forall|i: int| 0 <= i < t.len() implies is_digit(#[trigger] t[i]) || t[i] == '.'
            || t[i] == '-' by {
            if i > 0 {
                assert(t[i] == body[i - 1]);
            }
        }
    }
}

proof fn lemma_token_text(p: Coord)
    requires
        coord_in_range(p),
    ensures
        coord_of_token(token_text(p)) == Some(p),
        token_text(p).len() > 0,
        no_space(token_text(p)),
{
    let ty = decimal_text(p.y as int);
    let tx = decimal_text(p.x as int);
    let t = token_text(p);
    lemma_decimal_text_chars(p.y as int);
    lemma_decimal_text_chars(p.x as int);
    assert forall|i: int| 0 <= i < ty.len() implies ty[i] != ',' by {
        assert(is_digit(ty[i]) || ty[i] == '.' || ty[i] == '-');
    }
    lemma_index_of_prefix(ty, seq![','] + tx, ',');
    assert(t =~= ty + (seq![','] + tx));
    assert(index_of(seq![','] + tx, ',') == 0);
    assert(t.take(ty.len() as int) =~= ty);
    assert(t.skip(ty.len() as int + 1) =~= tx);
    lemma_decimal_round_trip(p.y as int);
    lemma_decimal_round_trip(p.x as int);
    assert forall|i: int| 0 <= i < t.len() implies !is_space(#[trigger] t[i]) by {
        if i < ty.len() {
            assert(t[i] == ty[i]);
            assert(is_digit(ty[i]) || ty[i] == '.' || ty[i] == '-');
        } else if i > ty.len() {
            assert(t[i] == tx[i - ty.len() - 1]);
            assert(is_digit(tx[i - ty.len() - 1]) || tx[i - ty.len() - 1] == '.' || tx[i - ty.len() - 1] == '-');
        }
    }
}

proof fn lemma_coords_of_texts(r: Seq<Coord>)
    requires
        ring_in_range(r),
    ensures
        coords_of(r.map_values(|p: Coord| token_text(p))) == Some(r),
    decreases r.len(),
{
    let ts = r.map_values(|p: Coord| token_text(p));
    if r.len() > 0 {
        let init = r.drop_last();
        assert(ring_in_range(init)) by {
            assert forall|i: int| 0 <= i < init.len() implies coord_in_range(#[trigger] init[i]) by {
                assert(init[i] == r[i]);
            }
        }
        lemma_coords_of_texts(init);
        assert(ts.drop_last() =~= init.map_values(|p: Coord| token_text(p)));
        assert(coord_in_range(r[r.len() - 1]));
        lemma_token_text(r[r.len() - 1]);
        assert(init.push(r[r.len() - 1]) =~= r);
    } else {
        assert(ts =~= Seq::<Seq<char>>::empty());
    }
}

/// Reading the text of a ring gives that ring back.
pub proof fn lemma_ring_text_reads_back(r: Seq<Coord>)
    requires
        ring_in_range(r),
        is_closed(r),
    ensures
        ring_of_text(ring_text(r)) == Some(r),
{
    let ts = r.map_values(|p: Coord| token_text(p));
    assert forall|i: int| 0 <= i < ts.len() implies (#[trigger] ts[i]).len() > 0 && no_space(
        ts[i],
    ) by {
        assert(coord_in_range(r[i]));
        lemma_token_text(r[i]);
    }
    lemma_tokens_spaced(ts, seq![]);
    let sp = spaced(ts);
    assert(sp + Seq::<char>::empty() =~= sp);
    assert(ts + tokens_from(Seq::<char>::empty(), seq![]) =~= ts);
    if sp.len() > 0 {
        if ts.len() == 0 {
            assert(false);
        }
        assert(sp.last() == ' ');
        assert(sp.drop_last().push(' ') =~= sp);
        lemma_tokens_trailing_space(sp.drop_last(), seq![]);
    }
    lemma_coords_of_texts(r);
    if r.len() > 0 {
        assert(ts[0] == token_text(r[0]));
        assert(ts[ts.len() - 1] == token_text(r[r.len() - 1]));
    }
    assert(tokens(ring_text(r)) == ts);
}

/// Parsing a polygon text, writing it back and parsing again gives the same ring.
pub proof fn lemma_polygon_text_round_trip(s: Seq<char>)
    requires
        ring_of_text(s) is Some,
    ensures
        ring_of_text(ring_text(ring_of_text(s)->0)) == ring_of_text(s),
{
    lemma_coords_in_range(tokens(s));
    lemma_ring_text_reads_back(ring_of_text(s)->0);
}

/// A text whose first and last words write different points is never read as
/// a ring, even when the points agree to seven fraction digits.
pub proof fn lemma_open_written_ring_rejected(s: Seq<char>)
    requires
        tokens(s).len() > 0,
        token_key(tokens(s)[0]) != token_key(tokens(s)[tokens(s).len() - 1]),
    ensures
        ring_of_text(s) is None,
{
}

/// A text whose coordinates are well formed but whose first and last
/// coordinates differ is never read as a ring.
pub proof fn lemma_open_ring_text_rejected(s: Seq<char>)
    requires
        coords_of(tokens(s)) matches Some(c) && c.len() > 0 && c[0] != c[c.len() - 1],
    ensures
        ring_of_text(s) is None,
{
}

} // verus!
