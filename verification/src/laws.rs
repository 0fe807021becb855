use vstd::prelude::*;

use crate::apply_part;
use crate::char_pos;
use crate::encoding::decode_of;
use crate::encoding::encode_of;
use crate::encoding::is_encoded_char;
use crate::error::ErrVal;
use crate::index_path::classify_seg;
use crate::index_path::digits_part;
use crate::index_path::is_digits;
use crate::index_path::lemma_divider_pos;
use crate::index_path::spec_parse_path;
use crate::index_path::IndexPathState;
use crate::indexer::Seg;
use crate::lemma_char_pos;
use crate::ser::render_pair;
use crate::ser::render_pairs;
use crate::ser::spec_to_string;
use crate::spec_parse_query;
use crate::ser::flatten_blocks_map;
use crate::ser::prepend_seg;
use crate::ser::spec_flatten;
use crate::value::keys_sorted;
use crate::value::lemma_map_find_at;
use crate::value::lemma_map_insert_at;
use crate::value::lemma_str_lt_irrefl;
use crate::value::map_get;
use crate::value::map_has;
use crate::value::seg_at;
use crate::value::spec_append;
use crate::value::str_lt;
use crate::value::Val;

verus! {

/// Appending the Empty value is a no-op wherever the merge rules create
/// no structure: at a map under no segment, an append marker or a list
/// index, and at an untyped node under no segment or a list index. (A
/// key segment can create structure even for an Empty value: a bare
/// flag.)
pub proof fn lemma_append_empty_noop(node: Val, path: Seq<Seg>, pos: int)
    requires
        (node is Mapping && !(seg_at(path, pos) matches Some(Seg::Key(k)))) || (node is Empty && (
        seg_at(path, pos) is None || seg_at(path, pos) matches Some(Seg::Num(n)))),
    ensures
        spec_append(node, path, pos, Val::Empty) == Ok::<Val, ErrVal>(node),
{
}

/// A repeated bare flag is idempotent: appending Empty under a key that
/// is already bound to Empty, with nothing after the key, leaves the
/// map exactly as it was.
pub proof fn lemma_duplicate_flag_noop(m: Seq<(Seq<char>, Val)>, path: Seq<Seg>, pos: int)
    requires
        keys_sorted(m),
        seg_at(path, pos) matches Some(Seg::Key(k)) && map_has(m, k) && map_get(m, k)
            == Val::Empty,
        pos + 1 >= path.len(),
    ensures
        spec_append(Val::Mapping(m), path, pos, Val::Empty) == Ok::<Val, ErrVal>(Val::Mapping(m)),
{
    let k = path[pos]->Key_0;
    let i = choose|i: int| 0 <= i < m.len() && #[trigger] m[i].0 == k;
    assert forall|j: int| 0 <= j < i implies str_lt(#[trigger] m[j].0, k) by {
        assert(str_lt(m[j].0, m[i].0));
    }
    assert(!str_lt(m[i].0, k)) by {
        lemma_str_lt_irrefl(k);
    }
    lemma_map_find_at(m, k, i);
    assert(m[i].1 == Val::Empty);
    assert(seg_at(path, pos + 1) is None);
    assert(spec_append(Val::Empty, path, pos + 1, Val::Empty) == Ok::<Val, ErrVal>(Val::Empty));
    lemma_map_insert_at(m, k, Val::Empty, i);
    assert(m.update(i, (k, Val::Empty)) =~= m);
}

/// The leading segment of one flattened pair, where it has one.
pub open spec fn pair_lead(p: (Option<Seq<Seg>>, Option<Seq<char>>)) -> Option<Seg> {
    match p.0 {
        Some(q) => if q.len() > 0 {
            Some(q[0])
        } else {
            None
        },
        None => None,
    }
}

/// Flattening a map splits into the first entry's block and the
/// flattening of the rest.
proof fn lemma_flatten_map_unfold(m: Seq<(Seq<char>, Val)>)
    requires
        m.len() > 0,
    ensures
        spec_flatten(Val::Mapping(m)) == prepend_seg(Seg::Key(m[0].0), spec_flatten(m[0].1))
            + spec_flatten(Val::Mapping(m.skip(1))),
{
    let blocks = flatten_blocks_map(m);
    assert(blocks.first() == prepend_seg(Seg::Key(m[0].0), spec_flatten(m[0].1)));
    assert(blocks.drop_first() =~= flatten_blocks_map(m.skip(1))) by {
        assert(forall|i: int| 0 <= i < m.skip(1).len() ==> m.skip(1)[i] == m[i + 1]);
        assert forall|i: int|
            0 <= i < blocks.drop_first().len() implies blocks.drop_first()[i]
            == flatten_blocks_map(m.skip(1))[i] by {
            assert(blocks.drop_first()[i] == blocks[i + 1]);
        }
    }
    assert(blocks.flatten() == blocks.first() + blocks.drop_first().flatten());
}

/// Every pair flattened out of a map leads with the key of one of the
/// map's entries.
pub proof fn lemma_flatten_lead_key(m: Seq<(Seq<char>, Val)>, t: int)
    requires
        0 <= t < spec_flatten(Val::Mapping(m)).len(),
    ensures
        exists|i: int|
            0 <= i < m.len() && pair_lead(spec_flatten(Val::Mapping(m))[t]) == Some(
                Seg::Key(#[trigger] m[i].0),
            ),
    decreases m.len(),
{
    let f = spec_flatten(Val::Mapping(m));
    if m.len() == 0 {
        assert(flatten_blocks_map(m) =~= Seq::<
            Seq<(Option<Seq<Seg>>, Option<Seq<char>>)>,
        >::empty());
        assert(f.len() == 0);
    } else {
        lemma_flatten_map_unfold(m);
        let block = prepend_seg(Seg::Key(m[0].0), spec_flatten(m[0].1));
        let rest = spec_flatten(Val::Mapping(m.skip(1)));
        if t < block.len() {
            assert(f[t] == block[t]);
            assert(pair_lead(block[t]) == Some(Seg::Key(m[0].0)));
        } else {
            assert(f[t] == rest[t - block.len()]);
            lemma_flatten_lead_key(m.skip(1), t - block.len());
            let i = choose|i: int|
                0 <= i < m.skip(1).len() && pair_lead(rest[t - block.len()]) == Some(
                    Seg::Key(#[trigger] m.skip(1)[i].0),
                );
            assert(m.skip(1)[i] == m[i + 1]);
            assert(pair_lead(f[t]) == Some(Seg::Key(m[i + 1].0)));
        }
    }
}

/// Serialization order is deterministic: in the flattening of a map
/// with sorted keys, the pairs stand grouped by key, and the key
/// leading an earlier pair never sorts after the key leading a later
/// one — whatever order the appends that built the map arrived in.
pub proof fn lemma_flatten_keys_sorted(m: Seq<(Seq<char>, Val)>, t1: int, t2: int)
    requires
        keys_sorted(m),
        0 <= t1 <= t2 < spec_flatten(Val::Mapping(m)).len(),
    ensures
        match (pair_lead(spec_flatten(Val::Mapping(m))[t1]), pair_lead(
            spec_flatten(Val::Mapping(m))[t2],
        )) {
            (Some(Seg::Key(k1)), Some(Seg::Key(k2))) => k1 == k2 || str_lt(k1, k2),
            _ => false,
        },
    decreases m.len(),
{
    let f = spec_flatten(Val::Mapping(m));
    if m.len() == 0 {
        assert(flatten_blocks_map(m) =~= Seq::<
            Seq<(Option<Seq<Seg>>, Option<Seq<char>>)>,
        >::empty());
        assert(f.len() == 0);
    } else {
        lemma_flatten_map_unfold(m);
        let block = prepend_seg(Seg::Key(m[0].0), spec_flatten(m[0].1));
        let rest = spec_flatten(Val::Mapping(m.skip(1)));
        let ms = m.skip(1);
        assert(keys_sorted(ms)) by {
            assert(forall|i: int| 0 <= i < ms.len() ==> ms[i] == m[i + 1]);
        }
        if t2 < block.len() {
            assert(f[t1] == block[t1]);
            assert(f[t2] == block[t2]);
            assert(pair_lead(block[t1]) == Some(Seg::Key(m[0].0)));
            assert(pair_lead(block[t2]) == Some(Seg::Key(m[0].0)));
        } else if t1 < block.len() {
            assert(f[t1] == block[t1]);
            assert(pair_lead(block[t1]) == Some(Seg::Key(m[0].0)));
            assert(f[t2] == rest[t2 - block.len()]);
            lemma_flatten_lead_key(ms, t2 - block.len());
            let i = choose|i: int|
                0 <= i < ms.len() && pair_lead(rest[t2 - block.len()]) == Some(
                    Seg::Key(#[trigger] ms[i].0),
                );
            assert(ms[i] == m[i + 1]);
            assert(str_lt(m[0].0, m[i + 1].0));
        } else {
            assert(f[t1] == rest[t1 - block.len()]);
            assert(f[t2] == rest[t2 - block.len()]);
            lemma_flatten_keys_sorted(ms, t1 - block.len(), t2 - block.len());
        }
    }
}

/// A key whose encoded form reads back as itself: decoding undoes the
/// encoding, the encoding is nonempty and holds only characters the
/// encoder emits, and it is not all digits — digits would read back as
/// a list index. These are the percent-encoder's guarantees plus the
/// digits exclusion; a key such as `"12"` breaks the round trip.
pub open spec fn flat_key_ok(k: Seq<char>) -> bool {
    decode_of(encode_of(k)) == k && (forall|i: int|
        0 <= i < encode_of(k).len() ==> is_encoded_char(#[trigger] encode_of(k)[i]))
        && encode_of(k).len() > 0 && !is_digits(encode_of(k))
}

/// A top-level record: a round-tripping key bound to a string scalar
/// whose encoding decodes back, or to a bare flag.
pub open spec fn flat_entry_ok(e: (Seq<char>, Val)) -> bool {
    flat_key_ok(e.0) && match e.1 {
        Val::Str(v) => decode_of(encode_of(v)) == v && (forall|i: int|
            0 <= i < encode_of(v).len() ==> is_encoded_char(#[trigger] encode_of(v)[i])),
        Val::Empty => true,
        _ => false,
    }
}

/// A flat document: every record is a scalar or a flag under a
/// round-tripping key.
pub open spec fn flat_doc_ok(m: Seq<(Seq<char>, Val)>) -> bool {
    forall|i: int| 0 <= i < m.len() ==> flat_entry_ok(#[trigger] m[i])
}

/// The one flattened pair a flat record produces.
pub open spec fn flat_pair(e: (Seq<char>, Val)) -> (Option<Seq<Seg>>, Option<Seq<char>>) {
    (
        Some(seq![Seg::Key(e.0)]),
        match e.1 {
            Val::Str(v) => Some(encode_of(v)),
            _ => None,
        },
    )
}

/// One rendered record, applied as a query-string part to the first `i`
/// records, extends the document by exactly that record; the rendered
/// text is nonempty and free of `&`.
proof fn lemma_apply_flat_entry(m: Seq<(Seq<char>, Val)>, i: int)
    requires
        keys_sorted(m),
        flat_doc_ok(m),
        0 <= i < m.len(),
    ensures
        render_pair(flat_pair(m[i])).len() > 0,
        forall|t: int|
            0 <= t < render_pair(flat_pair(m[i])).len() ==> (#[trigger] render_pair(
                flat_pair(m[i]),
            )[t]) != '&',
        apply_part(render_pair(flat_pair(m[i])), Val::Mapping(m.take(i))) == Ok::<Val, ErrVal>(
            Val::Mapping(m.take(i + 1)),
        ),
{
    let k = m[i].0;
    let ek = encode_of(k);
    assert(flat_entry_ok(m[i]));
    assert(crate::ser::render_path(seq![Seg::Key(k)]) =~= ek) by {
        assert(seq![Seg::Key(k)].skip(1) =~= Seq::<Seg>::empty());
        assert(crate::ser::render_tail(Seq::<Seg>::empty()) =~= Seq::<char>::empty());
    }
    let a = render_pair(flat_pair(m[i]));

    // the rendered text, and where its first '=' lies
    let eqpos: int = match m[i].1 {
        Val::Str(v) => {
            assert(a =~= ek + seq!['='] + encode_of(v));
            assert forall|j: int| 0 <= j < ek.len() implies (#[trigger] a[j]) != '=' by {
                assert(a[j] == ek[j]);
                assert(is_encoded_char(ek[j]));
            }
            assert(a[ek.len() as int] == '=');
            lemma_char_pos(a, '=', ek.len() as int);
            assert(a.take(ek.len() as int) =~= ek);
            assert(a.skip(ek.len() as int + 1) =~= encode_of(v));
            ek.len() as int
        },
        _ => {
            assert(a =~= ek);
            assert forall|j: int| 0 <= j < a.len() implies (#[trigger] a[j]) != '=' by {
                assert(is_encoded_char(ek[j]));
            }
            lemma_char_pos(a, '=', a.len() as int);
            a.len() as int
        },
    };

    // no '&' anywhere in the rendered record
    assert forall|t: int| 0 <= t < a.len() implies (#[trigger] a[t]) != '&' by {
        match m[i].1 {
            Val::Str(v) => {
                if t < ek.len() {
                    assert(a[t] == ek[t]);
                    assert(is_encoded_char(ek[t]));
                } else if t == ek.len() {
                    assert(a[t] == '=');
                } else {
                    assert(a[t] == encode_of(v)[t - ek.len() - 1]);
                    assert(is_encoded_char(encode_of(v)[t - ek.len() - 1]));
                }
            },
            _ => {
                assert(a[t] == ek[t]);
                assert(is_encoded_char(ek[t]));
            },
        }
    }

    // the key text is one segment, classified back to the key
    assert forall|j: int| 0 <= j < ek.len() implies !((#[trigger] ek[j]) == '[' || ek[j]
        == ']') by {
        assert(is_encoded_char(ek[j]));
    }
    lemma_divider_pos(ek, ek.len() as int);
    assert(spec_parse_path(ek, IndexPathState::Start, Seq::<Seg>::empty(), ek) == Ok::<
        Seq<Seg>,
        ErrVal,
    >(seq![classify_seg(ek)])) by {
        assert(Seq::<Seg>::empty().push(classify_seg(ek)) =~= seq![classify_seg(ek)]);
    }
    assert(ek[0] != '+') by {
        assert(is_encoded_char(ek[0]));
    }
    assert(digits_part(ek) == ek);
    assert(classify_seg(ek) == Seg::Key(k));

    // the merge appends the record at the end of the accumulated map
    let segs = seq![classify_seg(ek)];
    let acc = m.take(i);
    let value: Val = match m[i].1 {
        Val::Str(v) => Val::Str(decode_of(encode_of(v))),
        _ => Val::Empty,
    };
    assert(value == m[i].1);
    assert(seg_at(segs, 0) == Some(Seg::Key(k)));
    assert(seg_at(segs, 1) is None);
    assert forall|j: int| 0 <= j < acc.len() implies (#[trigger] acc[j]).0 != k by {
        assert(acc[j] == m[j]);
        assert(str_lt(m[j].0, m[i].0));
        lemma_str_lt_irrefl(k);
    }
    assert(!map_has(acc, k));
    assert(spec_append(Val::Empty, segs, 1, value) == Ok::<Val, ErrVal>(value));
    assert(keys_sorted(acc)) by {
        assert(forall|j: int| 0 <= j < acc.len() ==> acc[j] == m[j]);
    }
    assert forall|j: int| 0 <= j < i implies str_lt(#[trigger] acc[j].0, k) by {
        assert(acc[j] == m[j]);
    }
    lemma_map_insert_at(acc, k, value, i);
    assert(crate::value::map_insert(acc, k, value) =~= acc.insert(i, (k, value)));
    assert(acc.insert(i, (k, value)) =~= m.take(i + 1));
    assert(spec_append(Val::Mapping(acc), segs, 0, value) == Ok::<Val, ErrVal>(
        Val::Mapping(crate::value::map_insert(acc, k, value)),
    ));
    assert(Val::Mapping(crate::value::map_insert(acc, k, value)) == Val::Mapping(m.take(i + 1)));

    // assembling apply_part on the rendered text
    assert(a.len() > 0);
    match m[i].1 {
        Val::Str(v) => {
            assert(char_pos(a, '=') == Some(ek.len() as int));
            assert(apply_part(a, Val::Mapping(acc)) == Ok::<Val, ErrVal>(
                Val::Mapping(m.take(i + 1)),
            ));
        },
        _ => {
            assert(char_pos(a, '=') is None);
            assert(apply_part(a, Val::Mapping(acc)) == Ok::<Val, ErrVal>(
                Val::Mapping(m.take(i + 1)),
            ));
        },
    }
}

/// The flattening of a flat record is exactly its one pair.
proof fn lemma_flat_block(e: (Seq<char>, Val))
    requires
        e.1 is Str || e.1 is Empty,
    ensures
        prepend_seg(Seg::Key(e.0), spec_flatten(e.1)) =~= seq![flat_pair(e)],
{
    match e.1 {
        Val::Str(v) => {
            assert(spec_flatten(e.1)[0] == (Option::<Seq<Seg>>::None, Some(encode_of(v))));
        },
        _ => {
            assert(spec_flatten(e.1)[0] == (
                Option::<Seq<Seg>>::None,
                Option::<Seq<char>>::None,
            ));
        },
    }
    assert(prepend_seg(Seg::Key(e.0), spec_flatten(e.1))[0] == flat_pair(e)) by {
        assert(seq![Seg::Key(e.0)] =~= seq![Seg::Key(e.0)]);
    }
}

/// Reparsing the serialization of the records from `i` on, into the
/// document already holding the first `i` records, rebuilds the whole
/// document.
proof fn lemma_rt_flat_rec(m: Seq<(Seq<char>, Val)>, i: int)
    requires
        keys_sorted(m),
        flat_doc_ok(m),
        0 <= i <= m.len(),
    ensures
        crate::spec_parse_query_rec(
            spec_to_string(Val::Mapping(m.skip(i))),
            Val::Mapping(m.take(i)),
        ) == Ok::<Val, ErrVal>(Val::Mapping(m)),
    decreases m.len() - i,
{
    let sfx = m.skip(i);
    let acc = Val::Mapping(m.take(i));
    if i == m.len() {
        assert(sfx =~= Seq::<(Seq<char>, Val)>::empty());
        assert(flatten_blocks_map(sfx) =~= Seq::<
            Seq<(Option<Seq<Seg>>, Option<Seq<char>>)>,
        >::empty());
        assert(spec_flatten(Val::Mapping(sfx)) =~= Seq::<
            (Option<Seq<Seg>>, Option<Seq<char>>),
        >::empty());
        let s = spec_to_string(Val::Mapping(sfx));
        assert(s.len() == 0);
        assert(char_pos(s, '&') is None);
        assert(apply_part(s, acc) == Ok::<Val, ErrVal>(acc));
        assert(m.take(i) =~= m);
    } else {
        assert(flat_entry_ok(m[i]));
        assert(sfx[0] == m[i]);
        lemma_flatten_map_unfold(sfx);
        lemma_flat_block(m[i]);
        let block = prepend_seg(Seg::Key(m[i].0), spec_flatten(m[i].1));
        assert(sfx.skip(1) =~= m.skip(i + 1));
        let rest = spec_flatten(Val::Mapping(m.skip(i + 1)));
        let pairs = spec_flatten(Val::Mapping(sfx));
        assert(pairs == block + rest);
        assert(pairs =~= seq![flat_pair(m[i])] + rest);
        lemma_apply_flat_entry(m, i);
        let a = render_pair(flat_pair(m[i]));
        let s = spec_to_string(Val::Mapping(sfx));
        lemma_rt_flat_rec(m, i + 1);
        if i + 1 == m.len() {
            assert(m.skip(i + 1) =~= Seq::<(Seq<char>, Val)>::empty());
            assert(flatten_blocks_map(m.skip(i + 1)) =~= Seq::<
                Seq<(Option<Seq<Seg>>, Option<Seq<char>>)>,
            >::empty());
            assert(rest =~= Seq::<(Option<Seq<Seg>>, Option<Seq<char>>)>::empty());
            assert(pairs =~= seq![flat_pair(m[i])]);
            assert(pairs.len() == 1);
            assert(s == render_pair(pairs[0]));
            assert(s == a);
            lemma_char_pos(s, '&', s.len() as int);
            assert(crate::spec_parse_query_rec(s, acc) == apply_part(s, acc));
            assert(apply_part(s, acc) == Ok::<Val, ErrVal>(Val::Mapping(m.take(i + 1))));
            assert(m.take(i + 1) =~= m);
        } else {
            // the rest is nonempty: its first record flattens to a pair
            lemma_flatten_map_unfold(m.skip(i + 1));
            lemma_flat_block(m[i + 1]);
            assert(m.skip(i + 1)[0] == m[i + 1]);
            assert(rest.len() >= 1) by {
                assert(rest == prepend_seg(Seg::Key(m[i + 1].0), spec_flatten(m[i + 1].1))
                    + spec_flatten(Val::Mapping(m.skip(i + 1).skip(1))));
                assert(prepend_seg(Seg::Key(m[i + 1].0), spec_flatten(m[i + 1].1)).len() == 1);
            }
            assert(pairs.len() >= 2);
            assert(pairs[0] == flat_pair(m[i]));
            assert(pairs.skip(1) =~= rest);
            let b = render_pairs(rest);
            assert(s == a + seq!['&'] + b);
            // the first '&' ends the first rendered record
            assert forall|j: int| 0 <= j < a.len() implies (#[trigger] s[j]) != '&' by {
                assert(s[j] == a[j]);
            }
            assert(s[a.len() as int] == '&');
            lemma_char_pos(s, '&', a.len() as int);
            assert(s.take(a.len() as int) =~= a);
            assert(s.skip(a.len() as int + 1) =~= b);
            assert(apply_part(s.take(a.len() as int), acc) == Ok::<Val, ErrVal>(
                Val::Mapping(m.take(i + 1)),
            ));
            assert(b == spec_to_string(Val::Mapping(m.skip(i + 1))));
            assert(crate::spec_parse_query_rec(s, acc) == crate::spec_parse_query_rec(
                b,
                Val::Mapping(m.take(i + 1)),
            ));
        }
    }
}

/// Any flat document round-trips: a top-level map of string scalars and
/// bare flags, each under a key whose encoding reads back as itself,
/// reparses from its own serialization to exactly itself, whatever its
/// size. (A key that encodes to a digit run is excluded: it would
/// serialize to digits and reparse as a list index.)
pub proof fn lemma_round_trip_flat(m: Seq<(Seq<char>, Val)>)
    requires
        keys_sorted(m),
        flat_doc_ok(m),
    ensures
        spec_parse_query(spec_to_string(Val::Mapping(m))) == Ok::<Val, ErrVal>(Val::Mapping(m)),
{
    lemma_rt_flat_rec(m, 0);
    assert(m.skip(0) =~= m);
    assert(m.take(0) =~= Seq::<(Seq<char>, Val)>::empty());
}

} // verus!
