//! Reading back what the pretty printer writes: the indented text of a
//! value parses to the same value as its compact text does.

use vstd::prelude::*;

use crate::emit::{indent, quoted, spec_pretty, spec_pretty_items, spec_pretty_pairs};
use crate::model::SVal;
use crate::parser::{
    is_ws, skip_ws, spec_items, spec_members, spec_parse_document, spec_string, spec_value, ParseError, MAX_DEPTH,
};
use crate::roundtrip::{
    holds, lemma_emit_first, lemma_holds_at, lemma_holds_split, lemma_quoted_read, lemma_skip_none,
    lemma_step_scalar, reads_back, stops_number,
};

verus! {

/// A line break and the indentation of nesting level `d`.
pub open spec fn line(d: nat) -> Seq<u8> {
    seq![0x0Au8] + indent(d)
}

/// The indented text of items `j..` of an array at level `d`, each on a
/// line of its own after a comma but the first of all.
pub open spec fn pretty_items_from(items: Seq<SVal>, j: int, d: nat, ft: spec_fn(u64) -> Seq<u8>) -> Seq<u8>
    decreases items.len() - j,
{
    if j < 0 || j >= items.len() {
        Seq::empty()
    } else {
        (if j > 0 {
            seq![0x2Cu8]
        } else {
            Seq::empty()
        }) + line(d + 1) + spec_pretty(items[j], d + 1, ft) + pretty_items_from(items, j + 1, d, ft)
    }
}

/// The indented text of members `j..` of an object at level `d`.
pub open spec fn pretty_pairs_from(
    pairs: Seq<(Seq<u8>, SVal)>,
    j: int,
    d: nat,
    ft: spec_fn(u64) -> Seq<u8>,
) -> Seq<u8>
    decreases pairs.len() - j,
{
    if j < 0 || j >= pairs.len() {
        Seq::empty()
    } else {
        (if j > 0 {
            seq![0x2Cu8]
        } else {
            Seq::empty()
        }) + line(d + 1) + quoted(pairs[j].0) + seq![0x3Au8, 0x20u8] + spec_pretty(pairs[j].1, d + 1, ft)
            + pretty_pairs_from(pairs, j + 1, d, ft)
    }
}

proof fn lemma_pretty_items_from(items: Seq<SVal>, j: int, d: nat, ft: spec_fn(u64) -> Seq<u8>)
    requires
        0 <= j <= items.len(),
    ensures
        spec_pretty_items(items.take(j), d, ft) + pretty_items_from(items, j, d, ft) == spec_pretty_items(
            items,
            d,
            ft,
        ),
    decreases items.len() - j,
{
    if j == items.len() {
        assert(items.take(j) =~= items);
        assert(spec_pretty_items(items, d, ft) + Seq::<u8>::empty() =~= spec_pretty_items(items, d, ft));
    } else {
        lemma_pretty_items_from(items, j + 1, d, ft);
        assert(items.take(j + 1).drop_last() =~= items.take(j));
        assert(items.take(j + 1).last() == items[j]);
        assert(spec_pretty_items(items.take(j), d, ft) + pretty_items_from(items, j, d, ft) =~= spec_pretty_items(
            items.take(j + 1),
            d,
            ft,
        ) + pretty_items_from(items, j + 1, d, ft));
    }
}

proof fn lemma_pretty_pairs_from(pairs: Seq<(Seq<u8>, SVal)>, j: int, d: nat, ft: spec_fn(u64) -> Seq<u8>)
    requires
        0 <= j <= pairs.len(),
    ensures
        spec_pretty_pairs(pairs.take(j), d, ft) + pretty_pairs_from(pairs, j, d, ft) == spec_pretty_pairs(
            pairs,
            d,
            ft,
        ),
    decreases pairs.len() - j,
{
    if j == pairs.len() {
        assert(pairs.take(j) =~= pairs);
        assert(spec_pretty_pairs(pairs, d, ft) + Seq::<u8>::empty() =~= spec_pretty_pairs(pairs, d, ft));
    } else {
        lemma_pretty_pairs_from(pairs, j + 1, d, ft);
        assert(pairs.take(j + 1).drop_last() =~= pairs.take(j));
        assert(pairs.take(j + 1).last() == pairs[j]);
        assert(spec_pretty_pairs(pairs.take(j), d, ft) + pretty_pairs_from(pairs, j, d, ft) =~= spec_pretty_pairs(
            pairs.take(j + 1),
            d,
            ft,
        ) + pretty_pairs_from(pairs, j + 1, d, ft));
    }
}

/// A run of `n` whitespace bytes at `p` before one that is not whitespace
/// is skipped in one go.
proof fn lemma_skip_run(b: Seq<u8>, p: int, n: int)
    requires
        0 <= p,
        0 <= n,
        p + n < b.len(),
        forall|k: int| p <= k < p + n ==> is_ws(b[k]),
        !is_ws(b[p + n]),
    ensures
        skip_ws(b, p) == p + n,
    decreases n,
{
    if n > 0 {
        lemma_skip_run(b, p + 1, n - 1);
    }
}

/// A line break and indentation before a byte that is not whitespace is
/// skipped in one go.
proof fn lemma_skip_line(b: Seq<u8>, p: int, d: nat)
    requires
        holds(b, p, line(d)),
        p + line(d).len() < b.len(),
        !is_ws(b[p + line(d).len()]),
    ensures
        skip_ws(b, p) == p + line(d).len(),
{
    assert forall|k: int| p <= k < p + line(d).len() implies is_ws(b[k]) by {
        lemma_holds_at(b, p, line(d), k - p);
        if k > p {
            assert(line(d)[k - p] == indent(d)[k - p - 1]);
        }
    }
    lemma_skip_run(b, p, line(d).len() as int);
}

/// The indented text of a value that reads back is not empty and does not
/// start with whitespace, a `]` or a `}`.
proof fn lemma_pretty_first(
    m: SVal,
    d: nat,
    fl: spec_fn(Seq<u8>) -> Option<u64>,
    ft: spec_fn(u64) -> Seq<u8>,
)
    requires
        reads_back(m, d as int, fl, ft),
    ensures
        spec_pretty(m, d, ft).len() > 0,
        !is_ws(spec_pretty(m, d, ft)[0]),
        spec_pretty(m, d, ft)[0] != 0x5D,
        spec_pretty(m, d, ft)[0] != 0x7D,
{
    match m {
        SVal::Arr(items) => {},
        SVal::Obj(pairs) => {},
        _ => {
            lemma_emit_first(m, d as int, fl, ft);
        },
    }
}

/// Whitespace before a value changes nothing of how it is read.
proof fn lemma_value_after_ws(b: Seq<u8>, p: int, n: int, depth: int, fl: spec_fn(Seq<u8>) -> Option<u64>)
    requires
        0 <= p,
        0 <= n,
        p + n < b.len(),
        forall|k: int| p <= k < p + n ==> is_ws(b[k]),
        !is_ws(b[p + n]),
        depth <= MAX_DEPTH as int,
    ensures
        spec_value(b, p, depth, fl) == spec_value(b, p + n, depth, fl),
{
    lemma_skip_run(b, p, n);
    lemma_skip_none(b, p + n);
}

// One step of the grammar at a time.

proof fn lemma_step_items_more(
    b: Seq<u8>,
    q: int,
    r: int,
    s: int,
    depth: int,
    fl: spec_fn(Seq<u8>) -> Option<u64>,
    acc: Seq<SVal>,
    v: SVal,
    res: (SVal, int),
)
    requires
        spec_value(b, q, depth + 1, fl) == Ok::<(SVal, int), ParseError>((v, r)),
        0 <= q < r < b.len(),
        b[r] == 0x2C,
        skip_ws(b, r + 1) == s,
        spec_items(b, s, depth, fl, acc.push(v)) == Ok::<(SVal, int), ParseError>(res),
    ensures
        spec_items(b, q, depth, fl, acc) == Ok::<(SVal, int), ParseError>(res),
{
    lemma_skip_none(b, r);
}

proof fn lemma_step_items_last(
    b: Seq<u8>,
    q: int,
    r: int,
    s: int,
    depth: int,
    fl: spec_fn(Seq<u8>) -> Option<u64>,
    acc: Seq<SVal>,
    v: SVal,
)
    requires
        spec_value(b, q, depth + 1, fl) == Ok::<(SVal, int), ParseError>((v, r)),
        0 <= q < r <= s < b.len(),
        skip_ws(b, r) == s,
        b[s] == 0x5D,
    ensures
        spec_items(b, q, depth, fl, acc) == Ok::<(SVal, int), ParseError>((SVal::Arr(acc.push(v)), s + 1)),
{
}

proof fn lemma_step_members_more(
    b: Seq<u8>,
    q: int,
    c: int,
    r: int,
    s: int,
    depth: int,
    fl: spec_fn(Seq<u8>) -> Option<u64>,
    acc: Seq<(Seq<u8>, SVal)>,
    k: Seq<u8>,
    v: SVal,
    res: (SVal, int),
)
    requires
        0 <= q < c,
        c + 1 < r < b.len(),
        b[q] == 0x22,
        spec_string(b, q) == Ok::<(Seq<u8>, int), ParseError>((k, c)),
        b[c] == 0x3A,
        spec_value(b, c + 1, depth + 1, fl) == Ok::<(SVal, int), ParseError>((v, r)),
        b[r] == 0x2C,
        skip_ws(b, r + 1) == s,
        spec_members(b, s, depth, fl, acc.push((k, v))) == Ok::<(SVal, int), ParseError>(res),
    ensures
        spec_members(b, q, depth, fl, acc) == Ok::<(SVal, int), ParseError>(res),
{
    lemma_skip_none(b, c);
    lemma_skip_none(b, r);
}

proof fn lemma_step_members_last(
    b: Seq<u8>,
    q: int,
    c: int,
    r: int,
    s: int,
    depth: int,
    fl: spec_fn(Seq<u8>) -> Option<u64>,
    acc: Seq<(Seq<u8>, SVal)>,
    k: Seq<u8>,
    v: SVal,
)
    requires
        0 <= q < c,
        c + 1 < r <= s < b.len(),
        b[q] == 0x22,
        spec_string(b, q) == Ok::<(Seq<u8>, int), ParseError>((k, c)),
        b[c] == 0x3A,
        spec_value(b, c + 1, depth + 1, fl) == Ok::<(SVal, int), ParseError>((v, r)),
        skip_ws(b, r) == s,
        b[s] == 0x7D,
    ensures
        spec_members(b, q, depth, fl, acc) == Ok::<(SVal, int), ParseError>((SVal::Obj(acc.push((k, v))), s + 1)),
{
    lemma_skip_none(b, c);
}

proof fn lemma_step_array(
    b: Seq<u8>,
    p: int,
    s: int,
    depth: int,
    fl: spec_fn(Seq<u8>) -> Option<u64>,
    res: Result<(SVal, int), ParseError>,
)
    requires
        0 <= depth <= MAX_DEPTH as int,
        0 <= p < s < b.len(),
        b[p] == 0x5B,
        skip_ws(b, p + 1) == s,
        b[s] != 0x5D,
        spec_items(b, s, depth, fl, Seq::empty()) == res,
    ensures
        spec_value(b, p, depth, fl) == res,
{
    lemma_skip_none(b, p);
}

proof fn lemma_step_object(
    b: Seq<u8>,
    p: int,
    s: int,
    depth: int,
    fl: spec_fn(Seq<u8>) -> Option<u64>,
    res: Result<(SVal, int), ParseError>,
)
    requires
        0 <= depth <= MAX_DEPTH as int,
        0 <= p < s < b.len(),
        b[p] == 0x7B,
        skip_ws(b, p + 1) == s,
        b[s] != 0x7D,
        spec_members(b, s, depth, fl, Seq::empty()) == res,
    ensures
        spec_value(b, p, depth, fl) == res,
{
    lemma_skip_none(b, p);
}

proof fn lemma_step_empty(b: Seq<u8>, p: int, depth: int, fl: spec_fn(Seq<u8>) -> Option<u64>)
    requires
        0 <= depth <= MAX_DEPTH as int,
        0 <= p,
        p + 1 < b.len(),
        (b[p] == 0x5B && b[p + 1] == 0x5D) || (b[p] == 0x7B && b[p + 1] == 0x7D),
    ensures
        b[p] == 0x5B ==> spec_value(b, p, depth, fl) == Ok::<(SVal, int), ParseError>(
            (SVal::Arr(Seq::empty()), p + 2),
        ),
        b[p] == 0x7B ==> spec_value(b, p, depth, fl) == Ok::<(SVal, int), ParseError>(
            (SVal::Obj(Seq::empty()), p + 2),
        ),
{
    lemma_skip_none(b, p);
    lemma_skip_none(b, p + 1);
}

/// The indented text of a value that [`reads_back`] reads back as that
/// value, wherever it stands and whatever follows it that cannot continue
/// a number.
proof fn lemma_pretty_value_read(
    m: SVal,
    d: nat,
    b: Seq<u8>,
    p: int,
    fl: spec_fn(Seq<u8>) -> Option<u64>,
    ft: spec_fn(u64) -> Seq<u8>,
)
    requires
        reads_back(m, d as int, fl, ft),
        holds(b, p, spec_pretty(m, d, ft)),
        stops_number(b, p + spec_pretty(m, d, ft).len()),
    ensures
        spec_value(b, p, d as int, fl) == Ok::<(SVal, int), ParseError>((m, p + spec_pretty(m, d, ft).len())),
    decreases m, 1int,
{
    match m {
        SVal::Arr(items) => lemma_pretty_array_read(m, d, b, p, fl, ft),
        SVal::Obj(pairs) => lemma_pretty_object_read(m, d, b, p, fl, ft),
        _ => lemma_step_scalar(m, d as int, b, p, fl, ft),
    }
}

/// The indented text of an array reads back as that array.
#[verifier::rlimit(40)]
#[verifier::spinoff_prover]
proof fn lemma_pretty_array_read(
    m: SVal,
    d: nat,
    b: Seq<u8>,
    p: int,
    fl: spec_fn(Seq<u8>) -> Option<u64>,
    ft: spec_fn(u64) -> Seq<u8>,
)
    requires
        m is Arr,
        reads_back(m, d as int, fl, ft),
        holds(b, p, spec_pretty(m, d, ft)),
    ensures
        spec_value(b, p, d as int, fl) == Ok::<(SVal, int), ParseError>((m, p + spec_pretty(m, d, ft).len())),
    decreases m, 0int,
{
    let items = m->Arr_0;
    let e = spec_pretty(m, d, ft);
    lemma_holds_at(b, p, e, 0);
    if items.len() == 0 {
        lemma_holds_at(b, p, e, 1);
        lemma_step_empty(b, p, d as int, fl);
        assert(items =~= Seq::<SVal>::empty());
    } else {
        lemma_pretty_items_from(items, 0, d, ft);
        assert(items.take(0) =~= Seq::<SVal>::empty());
        assert(spec_pretty_items(Seq::<SVal>::empty(), d, ft) =~= Seq::<u8>::empty());
        let body = spec_pretty(items[0], d + 1, ft) + pretty_items_from(items, 1, d, ft);
        let tail = body + line(d) + seq![0x5Du8];
        assert(pretty_items_from(items, 0, d, ft) =~= line(d + 1) + body);
        assert(e =~= seq![0x5Bu8] + (line(d + 1) + tail));
        lemma_holds_split(b, p, seq![0x5Bu8], line(d + 1) + tail);
        lemma_holds_split(b, p + 1, line(d + 1), tail);
        assert(decreases_to!(m => m->Arr_0));
        assert(reads_back(items[0], (d + 1) as int, fl, ft));
        lemma_pretty_first(items[0], d + 1, fl, ft);
        let s = p + 1 + line(d + 1).len();
        lemma_holds_at(b, s, tail, 0);
        lemma_skip_line(b, p + 1, d + 1);
        lemma_pretty_items_read(items, 0, d, b, s, fl, ft);
        assert(s + body.len() + line(d).len() + 1 == p + e.len());
        lemma_step_array(b, p, s, d as int, fl, Ok((m, p + e.len())));
    }
}

/// The indented text of an object reads back as that object.
#[verifier::rlimit(40)]
#[verifier::spinoff_prover]
proof fn lemma_pretty_object_read(
    m: SVal,
    d: nat,
    b: Seq<u8>,
    p: int,
    fl: spec_fn(Seq<u8>) -> Option<u64>,
    ft: spec_fn(u64) -> Seq<u8>,
)
    requires
        m is Obj,
        reads_back(m, d as int, fl, ft),
        holds(b, p, spec_pretty(m, d, ft)),
    ensures
        spec_value(b, p, d as int, fl) == Ok::<(SVal, int), ParseError>((m, p + spec_pretty(m, d, ft).len())),
    decreases m, 0int,
{
    let pairs = m->Obj_0;
    let e = spec_pretty(m, d, ft);
    lemma_holds_at(b, p, e, 0);
    if pairs.len() == 0 {
        lemma_holds_at(b, p, e, 1);
        lemma_step_empty(b, p, d as int, fl);
        assert(pairs =~= Seq::<(Seq<u8>, SVal)>::empty());
    } else {
        lemma_pretty_pairs_from(pairs, 0, d, ft);
        assert(pairs.take(0) =~= Seq::<(Seq<u8>, SVal)>::empty());
        assert(spec_pretty_pairs(Seq::<(Seq<u8>, SVal)>::empty(), d, ft) =~= Seq::<u8>::empty());
        let body = quoted(pairs[0].0) + seq![0x3Au8, 0x20u8] + spec_pretty(pairs[0].1, d + 1, ft)
            + pretty_pairs_from(pairs, 1, d, ft);
        let tail = body + line(d) + seq![0x7Du8];
        assert(pretty_pairs_from(pairs, 0, d, ft) =~= line(d + 1) + body);
        assert(e =~= seq![0x7Bu8] + (line(d + 1) + tail));
        lemma_holds_split(b, p, seq![0x7Bu8], line(d + 1) + tail);
        lemma_holds_split(b, p + 1, line(d + 1), tail);
        assert(decreases_to!(m => m->Obj_0));
        let s = p + 1 + line(d + 1).len();
        lemma_holds_at(b, s, tail, 0);
        lemma_skip_line(b, p + 1, d + 1);
        lemma_pretty_pairs_read(pairs, 0, d, b, s, fl, ft);
        assert(s + body.len() + line(d).len() + 1 == p + e.len());
        lemma_step_object(b, p, s, d as int, fl, Ok((m, p + e.len())));
    }
}

/// Items `k..` of an array read back, from the start of item `k` through
/// the closing `]`.
#[verifier::rlimit(100)]
#[verifier::spinoff_prover]
proof fn lemma_pretty_items_read(
    items: Seq<SVal>,
    k: int,
    d: nat,
    b: Seq<u8>,
    q: int,
    fl: spec_fn(Seq<u8>) -> Option<u64>,
    ft: spec_fn(u64) -> Seq<u8>,
)
    requires
        0 <= k < items.len(),
        forall|j: int| 0 <= j < items.len() ==> reads_back(#[trigger] items[j], (d + 1) as int, fl, ft),
        holds(
            b,
            q,
            spec_pretty(items[k], d + 1, ft) + pretty_items_from(items, k + 1, d, ft) + line(d) + seq![0x5Du8],
        ),
    ensures
        spec_items(b, q, d as int, fl, items.take(k)) == Ok::<(SVal, int), ParseError>(
            (
                SVal::Arr(items),
                q + (spec_pretty(items[k], d + 1, ft) + pretty_items_from(items, k + 1, d, ft)).len() + line(
                    d,
                ).len() + 1,
            ),
        ),
    decreases items, items.len() - k,
{
    let e = spec_pretty(items[k], d + 1, ft);
    let rest = pretty_items_from(items, k + 1, d, ft);
    let close = line(d) + seq![0x5Du8];
    assert(e + rest + line(d) + seq![0x5Du8] =~= e + (rest + close));
    lemma_holds_split(b, q, e, rest + close);
    lemma_holds_at(b, q + e.len(), rest + close, 0);
    let r = q + e.len();
    assert(reads_back(items[k], (d + 1) as int, fl, ft));
    assert(decreases_to!(items => items[k]));
    lemma_pretty_value_read(items[k], d + 1, b, q, fl, ft);
    lemma_pretty_first(items[k], d + 1, fl, ft);
    assert(items.take(k).push(items[k]) =~= items.take(k + 1));
    if k + 1 < items.len() {
        let e2 = spec_pretty(items[k + 1], d + 1, ft);
        let rest2 = pretty_items_from(items, k + 2, d, ft);
        let tail2 = e2 + rest2 + close;
        assert(rest =~= seq![0x2Cu8] + line(d + 1) + e2 + rest2);
        assert(rest + close =~= seq![0x2Cu8] + (line(d + 1) + tail2));
        lemma_holds_split(b, r, seq![0x2Cu8], line(d + 1) + tail2);
        lemma_holds_split(b, r + 1, line(d + 1), tail2);
        assert(reads_back(items[k + 1], (d + 1) as int, fl, ft));
        lemma_pretty_first(items[k + 1], d + 1, fl, ft);
        let s = r + 1 + line(d + 1).len();
        lemma_holds_at(b, s, tail2, 0);
        lemma_skip_line(b, r + 1, d + 1);
        assert(e2 + rest2 + line(d) + seq![0x5Du8] =~= tail2);
        lemma_pretty_items_read(items, k + 1, d, b, s, fl, ft);
        lemma_step_items_more(
            b,
            q,
            r,
            s,
            d as int,
            fl,
            items.take(k),
            items[k],
            (SVal::Arr(items), s + (e2 + rest2).len() + line(d).len() + 1),
        );
    } else {
        assert(rest =~= Seq::<u8>::empty());
        assert(items.take(k + 1) =~= items);
        lemma_holds_split(b, r, line(d), seq![0x5Du8]);
        lemma_holds_at(b, r + line(d).len(), seq![0x5Du8], 0);
        lemma_skip_line(b, r, d);
        lemma_step_items_last(b, q, r, r + line(d).len(), d as int, fl, items.take(k), items[k]);
    }
}

/// Members `k..` of an object read back, from the `"` of member `k`'s key
/// through the closing `}`.
#[verifier::rlimit(100)]
#[verifier::spinoff_prover]
proof fn lemma_pretty_pairs_read(
    pairs: Seq<(Seq<u8>, SVal)>,
    k: int,
    d: nat,
    b: Seq<u8>,
    q: int,
    fl: spec_fn(Seq<u8>) -> Option<u64>,
    ft: spec_fn(u64) -> Seq<u8>,
)
    requires
        0 <= k < pairs.len(),
        forall|j: int| 0 <= j < pairs.len() ==> reads_back((#[trigger] pairs[j]).1, (d + 1) as int, fl, ft),
        holds(
            b,
            q,
            quoted(pairs[k].0) + seq![0x3Au8, 0x20u8] + spec_pretty(pairs[k].1, d + 1, ft) + pretty_pairs_from(
                pairs,
                k + 1,
                d,
                ft,
            ) + line(d) + seq![0x7Du8],
        ),
    ensures
        spec_members(b, q, d as int, fl, pairs.take(k)) == Ok::<(SVal, int), ParseError>(
            (
                SVal::Obj(pairs),
                q + (quoted(pairs[k].0) + seq![0x3Au8, 0x20u8] + spec_pretty(pairs[k].1, d + 1, ft)
                    + pretty_pairs_from(pairs, k + 1, d, ft)).len() + line(d).len() + 1,
            ),
        ),
    decreases pairs, pairs.len() - k,
{
    let key = quoted(pairs[k].0);
    let e = spec_pretty(pairs[k].1, d + 1, ft);
    let rest = pretty_pairs_from(pairs, k + 1, d, ft);
    let close = line(d) + seq![0x7Du8];
    assert(key + seq![0x3Au8, 0x20u8] + e + rest + line(d) + seq![0x7Du8] =~= key + (seq![0x3Au8] + (seq![
        0x20u8,
    ] + (e + (rest + close)))));
    lemma_holds_split(b, q, key, seq![0x3Au8] + (seq![0x20u8] + (e + (rest + close))));
    lemma_holds_at(b, q, key, 0);
    lemma_quoted_read(b, q, pairs[k].0);
    let c = q + key.len();
    lemma_holds_split(b, c, seq![0x3Au8], seq![0x20u8] + (e + (rest + close)));
    lemma_holds_at(b, c, seq![0x3Au8], 0);
    lemma_holds_split(b, c + 1, seq![0x20u8], e + (rest + close));
    lemma_holds_at(b, c + 1, seq![0x20u8], 0);
    lemma_holds_split(b, c + 2, e, rest + close);
    let r = c + 2 + e.len();
    lemma_holds_at(b, r, rest + close, 0);
    assert(reads_back(pairs[k].1, (d + 1) as int, fl, ft));
    lemma_pretty_first(pairs[k].1, d + 1, fl, ft);
    lemma_holds_at(b, c + 2, e, 0);
    assert(decreases_to!(pairs => pairs[k]));
    assert(decreases_to!(pairs[k] => pairs[k].1));
    lemma_pretty_value_read(pairs[k].1, d + 1, b, c + 2, fl, ft);
    lemma_value_after_ws(b, c + 1, 1, (d + 1) as int, fl);
    assert(pairs.take(k).push((pairs[k].0, pairs[k].1)) =~= pairs.take(k + 1));
    if k + 1 < pairs.len() {
        let key2 = quoted(pairs[k + 1].0);
        let tail2 = key2 + seq![0x3Au8, 0x20u8] + spec_pretty(pairs[k + 1].1, d + 1, ft) + pretty_pairs_from(
            pairs,
            k + 2,
            d,
            ft,
        ) + close;
        assert(rest + close =~= seq![0x2Cu8] + (line(d + 1) + tail2));
        lemma_holds_split(b, r, seq![0x2Cu8], line(d + 1) + tail2);
        lemma_holds_split(b, r + 1, line(d + 1), tail2);
        let s = r + 1 + line(d + 1).len();
        lemma_holds_at(b, s, tail2, 0);
        lemma_skip_line(b, r + 1, d + 1);
        assert(tail2 =~= key2 + seq![0x3Au8, 0x20u8] + spec_pretty(pairs[k + 1].1, d + 1, ft) + pretty_pairs_from(
            pairs,
            k + 2,
            d,
            ft,
        ) + line(d) + seq![0x7Du8]);
        lemma_pretty_pairs_read(pairs, k + 1, d, b, s, fl, ft);
        lemma_step_members_more(
            b,
            q,
            c,
            r,
            s,
            d as int,
            fl,
            pairs.take(k),
            pairs[k].0,
            pairs[k].1,
            (
                SVal::Obj(pairs),
                s + (key2 + seq![0x3Au8, 0x20u8] + spec_pretty(pairs[k + 1].1, d + 1, ft) + pretty_pairs_from(
                    pairs,
                    k + 2,
                    d,
                    ft,
                )).len() + line(d).len() + 1,
            ),
        );
    } else {
        assert(rest =~= Seq::<u8>::empty());
        assert(pairs.take(k + 1) =~= pairs);
        lemma_holds_split(b, r, line(d), seq![0x7Du8]);
        lemma_holds_at(b, r + line(d).len(), seq![0x7Du8], 0);
        lemma_skip_line(b, r, d);
        lemma_step_members_last(
            b,
            q,
            c,
            r,
            r + line(d).len(),
            d as int,
            fl,
            pairs.take(k),
            pairs[k].0,
            pairs[k].1,
        );
    }
}

/// Writing a value as indented JSON and parsing the text back gives the
/// value again, under the same conditions as for the compact text: floats
/// finite and written by `ft` as literals that `fl` reads back as the same
/// floats, nesting at most `MAX_DEPTH` levels deep.
pub proof fn law_pretty_then_parse(m: SVal, fl: spec_fn(Seq<u8>) -> Option<u64>, ft: spec_fn(u64) -> Seq<u8>)
    requires
        reads_back(m, 0, fl, ft),
    ensures
        spec_parse_document(spec_pretty(m, 0, ft), fl) == Ok::<SVal, ParseError>(m),
{
    let e = spec_pretty(m, 0, ft);
    lemma_pretty_first(m, 0, fl, ft);
    assert(e.subrange(0, e.len() as int) =~= e);
    lemma_skip_none(e, 0);
    lemma_pretty_value_read(m, 0, e, 0, fl, ft);
}

} // verus!
