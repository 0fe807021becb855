use vstd::prelude::*;

use crate::encoding::encode_of;
use crate::encoding::percent_encode;
use crate::index_path::IndexPath;
use crate::indexer::Indexer;
use crate::indexer::Seg;
use crate::value::view_entries;
use crate::value::view_items;
use crate::value::Val;
use crate::value::Value;

verus! {

broadcast use vstd::seq::Seq::lemma_flatten_push;

/// One flattened pair: a path, or none at a bare leaf, and the
/// percent-encoded scalar, or none where the leaf holds no value.
pub open spec fn pair_view(p: (Option<IndexPath>, Option<String>)) -> (
    Option<Seq<Seg>>,
    Option<Seq<char>>,
) {
    (
        match p.0 {
            Some(q) => Some(q@),
            None => None,
        },
        match p.1 {
            Some(s) => Some(s@),
            None => None,
        },
    )
}

/// The model of a vector of flattened pairs.
pub open spec fn pairs_view(v: Seq<(Option<IndexPath>, Option<String>)>) -> Seq<
    (Option<Seq<Seg>>, Option<Seq<char>>),
> {
    Seq::new(v.len(), |i: int| pair_view(v[i]))
}

/// Prepends one segment to every pair of a flattened subtree: a pair
/// without a path gains the one-segment path.
pub open spec fn prepend_seg(
    g: Seg,
    pairs: Seq<(Option<Seq<Seg>>, Option<Seq<char>>)>,
) -> Seq<(Option<Seq<Seg>>, Option<Seq<char>>)> {
    Seq::new(
        pairs.len(),
        |i: int|
            (
                match pairs[i].0 {
                    Some(q) => Some(seq![g] + q),
                    None => Some(seq![g]),
                },
                pairs[i].1,
            ),
    )
}

/// The flattened blocks of a list's elements, one per element, each
/// under the append marker.
pub open spec fn flatten_blocks_list(l: Seq<Val>) -> Seq<
    Seq<(Option<Seq<Seg>>, Option<Seq<char>>)>,
>
    decreases l,
{
    Seq::new(
        l.len(),
        |i: int|
            if 0 <= i < l.len() {
                prepend_seg(Seg::Append, spec_flatten(l[i]))
            } else {
                Seq::empty()
            },
    )
}

/// The flattened blocks of a map's entries, one per entry, each under
/// its key.
pub open spec fn flatten_blocks_map(m: Seq<(Seq<char>, Val)>) -> Seq<
    Seq<(Option<Seq<Seg>>, Option<Seq<char>>)>,
>
    decreases m,
{
    Seq::new(
        m.len(),
        |i: int|
            if 0 <= i < m.len() {
                prepend_seg(Seg::Key(m[i].0), spec_flatten(m[i].1))
            } else {
                Seq::empty()
            },
    )
}

/// The structural inverse of append: maps flatten each child under its
/// key, in stored (sorted) order; lists flatten each element under the
/// append marker; a string is one encoded scalar; Empty is one pair
/// with no path and no value.
pub open spec fn spec_flatten(v: Val) -> Seq<(Option<Seq<Seg>>, Option<Seq<char>>)>
    decreases v,
{
    match v {
        Val::Empty => seq![
            (Option::<Seq<Seg>>::None, Option::<Seq<char>>::None),
        ],
        Val::Str(s) => seq![(Option::<Seq<Seg>>::None, Some(encode_of(s)))],
        Val::List(l) => flatten_blocks_list(l).flatten(),
        Val::Mapping(m) => flatten_blocks_map(m).flatten(),
    }
}

pub open spec fn digit_char(d: int) -> char {
    if d == 0 {
        '0'
    } else if d == 1 {
        '1'
    } else if d == 2 {
        '2'
    } else if d == 3 {
        '3'
    } else if d == 4 {
        '4'
    } else if d == 5 {
        '5'
    } else if d == 6 {
        '6'
    } else if d == 7 {
        '7'
    } else if d == 8 {
        '8'
    } else {
        '9'
    }
}

/// The decimal digits of `n`, most significant first.
pub open spec fn dec_digits(n: int) -> Seq<char>
    decreases n,
{
    if n < 0 {
        Seq::empty()
    } else if n <= 9 {
        seq![digit_char(n)]
    } else {
        dec_digits(n / 10) + seq![digit_char(n % 10)]
    }
}

/// How one segment prints: an index in decimal, a key percent-encoded,
/// the append marker as nothing (its brackets stay empty).
pub open spec fn render_seg(g: Seg) -> Seq<char> {
    match g {
        Seg::Num(n) => dec_digits(n),
        Seg::Key(k) => encode_of(k),
        Seg::Append => Seq::empty(),
    }
}

pub open spec fn render_tail(p: Seq<Seg>) -> Seq<char>
    decreases p.len(),
{
    if p.len() == 0 {
        Seq::empty()
    } else {
        seq!['['] + render_seg(p[0]) + seq![']'] + render_tail(p.skip(1))
    }
}

/// A path prints as its first segment bare and every later segment in
/// brackets.
pub open spec fn render_path(p: Seq<Seg>) -> Seq<char> {
    if p.len() == 0 {
        Seq::empty()
    } else {
        render_seg(p[0]) + render_tail(p.skip(1))
    }
}

/// A pair prints as its path, then `=` and the value where one exists.
pub open spec fn render_pair(p: (Option<Seq<Seg>>, Option<Seq<char>>)) -> Seq<char> {
    match p {
        (Some(q), Some(v)) => render_path(q) + seq!['='] + v,
        (Some(q), None) => render_path(q),
        (None, Some(v)) => v,
        (None, None) => Seq::empty(),
    }
}

/// Pairs joined by `&`.
pub open spec fn render_pairs(ps: Seq<(Option<Seq<Seg>>, Option<Seq<char>>)>) -> Seq<char>
    decreases ps.len(),
{
    if ps.len() == 0 {
        Seq::empty()
    } else if ps.len() == 1 {
        render_pair(ps[0])
    } else {
        render_pair(ps[0]) + seq!['&'] + render_pairs(ps.skip(1))
    }
}

/// The canonical serialization of a value tree.
pub open spec fn spec_to_string(v: Val) -> Seq<char> {
    render_pairs(spec_flatten(v))
}

pub proof fn lemma_render_tail_push(p: Seq<Seg>, g: Seg)
    ensures
        render_tail(p.push(g)) == render_tail(p) + (seq!['['] + render_seg(g) + seq![']']),
    decreases p.len(),
{
    if p.len() == 0 {
        assert(p.push(g)[0] == g);
        assert(p.push(g).skip(1) =~= Seq::<Seg>::empty());
        assert(render_tail(Seq::<Seg>::empty()) =~= Seq::<char>::empty());
        assert(render_tail(p.push(g)) =~= render_tail(p) + (seq!['['] + render_seg(g)
            + seq![']']));
    } else {
        assert(p.push(g)[0] == p[0]);
        assert(p.push(g).skip(1) =~= p.skip(1).push(g));
        lemma_render_tail_push(p.skip(1), g);
        let a = seq!['['] + render_seg(p[0]) + seq![']'];
        let b = render_tail(p.skip(1));
        let c = seq!['['] + render_seg(g) + seq![']'];
        assert(render_tail(p.push(g)) == a + (b + c));
        assert(a + (b + c) =~= (a + b) + c);
        assert(render_tail(p) == a + b);
    }
}

pub proof fn lemma_render_path_push(p: Seq<Seg>, g: Seg)
    ensures
        render_path(p.push(g)) == (if p.len() == 0 {
            render_seg(g)
        } else {
            render_path(p) + (seq!['['] + render_seg(g) + seq![']'])
        }),
{
    if p.len() == 0 {
        assert(p.push(g)[0] == g);
        assert(p.push(g).skip(1) =~= Seq::<Seg>::empty());
        assert(render_tail(Seq::<Seg>::empty()) =~= Seq::<char>::empty());
        assert(render_path(p.push(g)) =~= render_seg(g));
    } else {
        assert(p.push(g)[0] == p[0]);
        assert(p.push(g).skip(1) =~= p.skip(1).push(g));
        lemma_render_tail_push(p.skip(1), g);
        let a = render_seg(p[0]);
        let b = render_tail(p.skip(1));
        let c = seq!['['] + render_seg(g) + seq![']'];
        assert(render_path(p.push(g)) == a + (b + c));
        assert(a + (b + c) =~= (a + b) + c);
        assert(render_path(p) == a + b);
    }
}

pub proof fn lemma_render_pairs_push(
    ps: Seq<(Option<Seq<Seg>>, Option<Seq<char>>)>,
    p: (Option<Seq<Seg>>, Option<Seq<char>>),
)
    ensures
        render_pairs(ps.push(p)) == (if ps.len() == 0 {
            render_pair(p)
        } else {
            render_pairs(ps) + seq!['&'] + render_pair(p)
        }),
    decreases ps.len(),
{
    if ps.len() == 0 {
        assert(ps.push(p)[0] == p);
    } else {
        assert(ps.push(p)[0] == ps[0]);
        assert(ps.push(p).skip(1) =~= ps.skip(1).push(p));
        lemma_render_pairs_push(ps.skip(1), p);
        let a = render_pair(ps[0]);
        let sep = seq!['&'];
        let c = render_pair(p);
        if ps.len() == 1 {
            assert(ps.skip(1).len() == 0);
            assert(render_pairs(ps.push(p)) == a + sep + render_pairs(ps.skip(1).push(p)));
            assert(render_pairs(ps.skip(1).push(p)) == c);
            assert(render_pairs(ps) == a);
            assert(a + sep + c =~= render_pairs(ps) + sep + c);
        } else {
            let b = render_pairs(ps.skip(1));
            assert(render_pairs(ps.push(p)) == a + sep + (b + sep + c));
            assert(render_pairs(ps) == a + sep + b);
            assert(a + sep + (b + sep + c) =~= (a + sep + b) + sep + c);
        }
    }
}

/// Every pair flattened out of a map carries a path.
pub proof fn lemma_blocks_flatten_some(blocks: Seq<Seq<(Option<Seq<Seg>>, Option<Seq<char>>)>>)
    requires
        forall|i: int, j: int|
            0 <= i < blocks.len() && 0 <= j < (#[trigger] blocks[i]).len() ==> (#[trigger] blocks[i][j]).0 is Some,
    ensures
        forall|t: int|
            0 <= t < blocks.flatten().len() ==> (#[trigger] blocks.flatten()[t]).0 is Some,
    decreases blocks.len(),
{
    if blocks.len() > 0 {
        let rest = blocks.drop_first();
        assert(blocks.flatten() == blocks.first() + rest.flatten());
        assert(forall|i: int| 0 <= i < rest.len() ==> rest[i] == blocks[i + 1]);
        lemma_blocks_flatten_some(rest);
        assert forall|t: int|
            0 <= t < blocks.flatten().len() implies (#[trigger] blocks.flatten()[t]).0 is Some by {
            if t < blocks.first().len() {
                assert(blocks.flatten()[t] == blocks[0][t]);
            } else {
                assert(blocks.flatten()[t] == rest.flatten()[t - blocks.first().len()]);
            }
        }
    }
}

pub proof fn lemma_mapping_flatten_some(m: Seq<(Seq<char>, Val)>)
    ensures
        forall|t: int|
            0 <= t < spec_flatten(Val::Mapping(m)).len() ==> (#[trigger] spec_flatten(
                Val::Mapping(m),
            )[t]).0 is Some,
{
    let blocks = flatten_blocks_map(m);
    assert forall|i: int, j: int|
        0 <= i < blocks.len() && 0 <= j < (#[trigger] blocks[i]).len() implies (
    #[trigger] blocks[i][j]).0 is Some by {
        assert(blocks[i] == prepend_seg(Seg::Key(m[i].0), spec_flatten(m[i].1)));
    }
    lemma_blocks_flatten_some(blocks);
}

/// Relies on String::push: appends exactly one character.
#[verifier::external_body]
pub(crate) fn push_char(s: &mut String, c: char)
    ensures
        final (s)@ == old(s)@ + seq![c],
{
    s.push(c);
}

fn digit_of(d: usize) -> (c: char)
    requires
        d <= 9,
    ensures
        c == digit_char(d as int),
{
    if d == 0 {
        '0'
    } else if d == 1 {
        '1'
    } else if d == 2 {
        '2'
    } else if d == 3 {
        '3'
    } else if d == 4 {
        '4'
    } else if d == 5 {
        '5'
    } else if d == 6 {
        '6'
    } else if d == 7 {
        '7'
    } else if d == 8 {
        '8'
    } else {
        '9'
    }
}

/// Writes `n` in decimal.
fn push_num(out: &mut String, n: usize)
    ensures
        final (out)@ == old(out)@ + dec_digits(n as int),
    decreases n,
{
    if n >= 10 {
        push_num(out, n / 10);
        let d = digit_of(n % 10);
        push_char(out, d);
        proof {
            assert(final (out)@ =~= old(out)@ + dec_digits(n as int));
        }
    } else {
        let d = digit_of(n);
        push_char(out, d);
    }
}

/// Writes one segment, as `render_seg` says.
fn push_seg(out: &mut String, ix: &Indexer)
    ensures
        final (out)@ == old(out)@ + render_seg(ix@),
{
    match ix {
        Indexer::Number(n) => push_num(out, *n),
        Indexer::String(k) => {
            let e = percent_encode(k.as_str());
            out.append(e.as_str());
        },
        Indexer::Empty => {
            proof {
                assert(out@ =~= out@ + Seq::<char>::empty());
            }
        },
    }
}

/// Writes a path, as `render_path` says.
#[verifier::loop_isolation(false)]
fn push_path(out: &mut String, p: &IndexPath)
    ensures
        final (out)@ == old(out)@ + render_path(p@),
{
    let ghost base = out@;
    let mut j: usize = 0;
    proof {
        assert(p@.take(0) =~= Seq::<Seg>::empty());
        assert(out@ =~= base + render_path(p@.take(0)));
    }
    while j < p.len()
        invariant
            j <= p@.len(),
            out@ == base + render_path(p@.take(j as int)),
        decreases p@.len() - j,
    {
        proof {
            lemma_render_path_push(p@.take(j as int), p@[j as int]);
            assert(p@.take(j as int).push(p@[j as int]) =~= p@.take(j as int + 1));
        }
        if j == 0 {
            push_seg(out, p.seg(j));
            proof {
                assert(out@ =~= base + render_path(p@.take(1)));
            }
        } else {
            push_char(out, '[');
            push_seg(out, p.seg(j));
            push_char(out, ']');
            proof {
                assert(out@ =~= base + render_path(p@.take(j as int + 1)));
            }
        }
        j += 1;
    }
    proof {
        assert(p@.take(p@.len() as int) =~= p@);
    }
}

/// Writes flattened pairs joined by `&`, as `render_pairs` says; every
/// pair must carry a path.
#[verifier::loop_isolation(false)]
pub(crate) fn render_into(out: &mut String, pairs: &Vec<(Option<IndexPath>, Option<String>)>)
    requires
        forall|t: int|
            0 <= t < pairs@.len() ==> (#[trigger] pairs_view(pairs@)[t]).0 is Some,
    ensures
        final (out)@ == old(out)@ + render_pairs(pairs_view(pairs@)),
{
    let ghost base = out@;
    let ghost pv = pairs_view(pairs@);
    let mut i: usize = 0;
    proof {
        assert(pv.take(0) =~= Seq::<(Option<Seq<Seg>>, Option<Seq<char>>)>::empty());
        assert(out@ =~= base + render_pairs(pv.take(0)));
    }
    while i < pairs.len()
        invariant
            i <= pairs@.len(),
            out@ == base + render_pairs(pv.take(i as int)),
        decreases pairs@.len() - i,
    {
        proof {
            lemma_render_pairs_push(pv.take(i as int), pv[i as int]);
            assert(pv.take(i as int).push(pv[i as int]) =~= pv.take(i as int + 1));
        }
        if i > 0 {
            push_char(out, '&');
        }
        let ghost mid = out@;
        let pair = &pairs[i];
        match (&pair.0, &pair.1) {
            (Some(q), Some(v)) => {
                push_path(out, q);
                push_char(out, '=');
                out.append(v.as_str());
                proof {
                    assert(out@ =~= mid + render_pair(pv[i as int]));
                }
            },
            (Some(q), None) => {
                push_path(out, q);
                proof {
                    assert(out@ =~= mid + render_pair(pv[i as int]));
                }
            },
            _ => {
                proof {
                    assert(pv[i as int].0 is Some);
                    assert(false);
                }
            },
        }
        proof {
            assert(out@ =~= base + render_pairs(pv.take(i as int + 1)));
        }
        i += 1;
    }
    proof {
        assert(pv.take(pairs@.len() as int) =~= pv);
    }
}

impl IndexPath {
    /// Renders the path in bracket notation, as `render_path` says:
    /// first segment bare, later segments bracketed, keys
    /// percent-encoded, the append marker as empty brackets.
    pub fn to_string(&self) -> (r: String)
        ensures
            r@ == render_path(self@),
    {
        let mut out = String::new();
        push_path(&mut out, self);
        proof {
            assert(out@ =~= render_path(self@));
        }
        out
    }
}

impl Value {
    /// Flattens the tree into `(path, encoded value)` pairs, as
    /// `spec_flatten` says.
    #[verifier::loop_isolation(false)]
    pub fn flatten_pairs(&self) -> (r: Vec<(Option<IndexPath>, Option<String>)>)
        ensures
            pairs_view(r@) == spec_flatten(self@),
        decreases self,
    {
        match self {
            Value::Empty => {
                let mut out: Vec<(Option<IndexPath>, Option<String>)> = Vec::new();
                out.push((None, None));
                proof {
                    assert(pairs_view(out@) =~= spec_flatten(self@));
                }
                out
            },
            Value::String(s) => {
                let mut out: Vec<(Option<IndexPath>, Option<String>)> = Vec::new();
                let enc = percent_encode(s.as_str());
                out.push((None, Some(enc)));
                proof {
                    assert(pairs_view(out@) =~= spec_flatten(self@));
                }
                out
            },
            Value::List(l) => {
                let ghost items = view_items(l@);
                let ghost blocks = flatten_blocks_list(items);
                let mut out: Vec<(Option<IndexPath>, Option<String>)> = Vec::new();
                let mut i: usize = 0;
                proof {
                    assert(blocks.take(0) =~= Seq::<
                        Seq<(Option<Seq<Seg>>, Option<Seq<char>>)>,
                    >::empty());
                    assert(pairs_view(out@) =~= blocks.take(0).flatten());
                }
                while i < l.len()
                    invariant
                        i <= l@.len(),
                        pairs_view(out@) == blocks.take(i as int).flatten(),
                    decreases l@.len() - i,
                {
                    proof {
                        assert(decreases_to!(*self => *l));
                        assert(decreases_to!(*l => l@));
                        assert(decreases_to!(l@ => l@[i as int]));
                    }
                    let mut sub = l[i].flatten_pairs();
                    let ghost subv = pairs_view(sub@);
                    let ghost block = prepend_seg(Seg::Append, spec_flatten(l@[i as int]@));
                    let ghost out0 = pairs_view(out@);
                    let mut j: usize = 0;
                    proof {
                        assert(block.take(0) =~= Seq::<
                            (Option<Seq<Seg>>, Option<Seq<char>>),
                        >::empty());
                        assert(pairs_view(out@) =~= out0 + block.take(0));
                    }
                    while j < sub.len()
                        invariant
                            j <= sub@.len(),
                            sub@.len() == subv.len(),
                            subv == spec_flatten(l@[i as int]@),
                            forall|t: int|
                                j <= t < sub@.len() ==> pair_view(#[trigger] sub@[t]) == subv[t],
                            pairs_view(out@) == out0 + block.take(j as int),
                        decreases sub@.len() - j,
                    {
                        let mut pair: (Option<IndexPath>, Option<String>) = (None, None);
                        core::mem::swap(&mut sub[j], &mut pair);
                        proof {
                            assert(subv[j as int] == pair_view(pair));
                        }
                        let ghost pv = pair_view(pair);
                        let (p0, p1) = pair;
                        let newpath = match p0 {
                            Some(mut q) => {
                                proof {
                                    assert(pv.0 == Some(q@));
                                }
                                q.push_front(Indexer::Empty);
                                Some(q)
                            },
                            None => Some(IndexPath::single(Indexer::Empty)),
                        };
                        proof {
                            assert(match newpath {
                                Some(qq) => Some(qq@),
                                None => None,
                            } == block[j as int].0);
                        }
                        out.push((newpath, p1));
                        proof {
                            assert(out@.last() == (newpath, p1));
                            assert(pair_view((newpath, p1)) == block[j as int]);
                            assert(block.take(j as int + 1) =~= block.take(j as int).push(
                                block[j as int],
                            ));
                            assert(pairs_view(out@) =~= (out0 + block.take(j as int)).push(
                                pair_view((newpath, p1)),
                            ));
                            assert((out0 + block.take(j as int)).push(block[j as int]) =~= out0
                                + block.take(j as int).push(block[j as int]));
                            assert(pairs_view(out@) =~= out0 + block.take(j as int + 1));
                        }
                        j += 1;
                    }
                    proof {
                        assert(block.take(sub@.len() as int) =~= block);
                        assert(blocks.take(i as int + 1) =~= blocks.take(i as int).push(
                            blocks[i as int],
                        ));
                        assert(blocks[i as int] == block);
                        assert(pairs_view(out@) =~= blocks.take(i as int + 1).flatten());
                    }
                    i += 1;
                }
                proof {
                    assert(blocks.take(l@.len() as int) =~= blocks);
                }
                out
            },
            Value::Mapping(m) => {
                let ghost entries = view_entries(m@);
                let ghost blocks = flatten_blocks_map(entries);
                let mut out: Vec<(Option<IndexPath>, Option<String>)> = Vec::new();
                let mut i: usize = 0;
                proof {
                    assert(blocks.take(0) =~= Seq::<
                        Seq<(Option<Seq<Seg>>, Option<Seq<char>>)>,
                    >::empty());
                    assert(pairs_view(out@) =~= blocks.take(0).flatten());
                }
                while i < m.len()
                    invariant
                        i <= m@.len(),
                        pairs_view(out@) == blocks.take(i as int).flatten(),
                    decreases m@.len() - i,
                {
                    proof {
                        assert(decreases_to!(*self => *m));
                        assert(decreases_to!(*m => m@));
                        assert(decreases_to!(m@ => m@[i as int]));
                        assert(decreases_to!(m@[i as int] => m@[i as int].1));
                    }
                    let key = &m[i].0;
                    let mut sub = m[i].1.flatten_pairs();
                    let ghost subv = pairs_view(sub@);
                    let ghost block = prepend_seg(Seg::Key(key@), spec_flatten(m@[i as int].1@));
                    let ghost out0 = pairs_view(out@);
                    let mut j: usize = 0;
                    proof {
                        assert(block.take(0) =~= Seq::<
                            (Option<Seq<Seg>>, Option<Seq<char>>),
                        >::empty());
                        assert(pairs_view(out@) =~= out0 + block.take(0));
                    }
                    while j < sub.len()
                        invariant
                            j <= sub@.len(),
                            sub@.len() == subv.len(),
                            subv == spec_flatten(m@[i as int].1@),
                            forall|t: int|
                                j <= t < sub@.len() ==> pair_view(#[trigger] sub@[t]) == subv[t],
                            pairs_view(out@) == out0 + block.take(j as int),
                        decreases sub@.len() - j,
                    {
                        let mut pair: (Option<IndexPath>, Option<String>) = (None, None);
                        core::mem::swap(&mut sub[j], &mut pair);
                        proof {
                            assert(subv[j as int] == pair_view(pair));
                        }
                        let ghost pv = pair_view(pair);
                        let (p0, p1) = pair;
                        let newpath = match p0 {
                            Some(mut q) => {
                                proof {
                                    assert(pv.0 == Some(q@));
                                }
                                q.push_front(Indexer::String(key.clone()));
                                Some(q)
                            },
                            None => Some(IndexPath::single(Indexer::String(key.clone()))),
                        };
                        proof {
                            assert(match newpath {
                                Some(qq) => Some(qq@),
                                None => None,
                            } == block[j as int].0);
                        }
                        out.push((newpath, p1));
                        proof {
                            assert(out@.last() == (newpath, p1));
                            assert(pair_view((newpath, p1)) == block[j as int]);
                            assert(block.take(j as int + 1) =~= block.take(j as int).push(
                                block[j as int],
                            ));
                            assert(pairs_view(out@) =~= (out0 + block.take(j as int)).push(
                                pair_view((newpath, p1)),
                            ));
                            assert((out0 + block.take(j as int)).push(block[j as int]) =~= out0
                                + block.take(j as int).push(block[j as int]));
                            assert(pairs_view(out@) =~= out0 + block.take(j as int + 1));
                        }
                        j += 1;
                    }
                    proof {
                        assert(block.take(sub@.len() as int) =~= block);
                        assert(blocks.take(i as int + 1) =~= blocks.take(i as int).push(
                            blocks[i as int],
                        ));
                        assert(blocks[i as int] == block);
                        assert(pairs_view(out@) =~= blocks.take(i as int + 1).flatten());
                    }
                    i += 1;
                }
                proof {
                    assert(blocks.take(m@.len() as int) =~= blocks);
                }
                out
            },
        }
    }
}

} // verus!
