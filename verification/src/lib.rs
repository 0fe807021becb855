#![allow(unused_imports)]

use vstd::prelude::*;

mod debug;
mod encoding;
mod error;
mod index_path;
mod indexer;
mod laws;
mod ser;
mod value;

pub use debug::spec_debug;
pub use encoding::decode_of;
pub use encoding::encode_of;
pub use encoding::is_encoded_char;
pub use error::ErrVal;
pub use error::Error;
pub use index_path::classify_seg;
pub use index_path::spec_parse_path;
pub use index_path::IndexPath;
pub use index_path::IndexPathState;
pub use indexer::path_ok;
pub use indexer::seg_ok;
pub use indexer::Indexer;
pub use indexer::Seg;
pub use debug::debug_entries;
pub use debug::debug_items;
pub use debug::escape;
pub use laws::lemma_append_empty_noop;
pub use laws::lemma_duplicate_flag_noop;
pub use laws::lemma_flatten_keys_sorted;
pub use laws::flat_doc_ok;
pub use laws::lemma_round_trip_flat;
pub use laws::flat_entry_ok;
pub use laws::flat_key_ok;
pub use laws::flat_pair;
pub use laws::lemma_flatten_lead_key;
pub use laws::pair_lead;
pub use ser::pair_view;
pub use ser::pairs_view;
pub use ser::prepend_seg;
pub use ser::render_pair;
pub use ser::render_pairs;
pub use ser::render_path;
pub use ser::render_seg;
pub use ser::spec_flatten;
pub use ser::spec_to_string;
pub use value::keys_sorted;
pub use value::map_get;
pub use value::map_has;
pub use value::map_insert;
pub use value::seg_at;
pub use value::spec_append;
pub use value::spec_get;
pub use value::str_lt;
pub use value::view_entries;
pub use value::view_items;
pub use value::wf;
pub use value::Val;
pub use value::Value;

verus! {

/// The position of the first occurrence of `c`, if any.
pub open spec fn char_pos(s: Seq<char>, c: char) -> Option<int>
    decreases s.len(),
{
    if s.len() == 0 {
        None
    } else if s[0] == c {
        Some(0)
    } else {
        match char_pos(s.skip(1), c) {
            None => None,
            Some(i) => Some(i + 1),
        }
    }
}

/// A scan that saw no `c` before `d` pins `char_pos` down.
pub proof fn lemma_char_pos(s: Seq<char>, c: char, d: int)
    requires
        0 <= d <= s.len(),
        forall|j: int| 0 <= j < d ==> (#[trigger] s[j]) != c,
        d < s.len() ==> s[d] == c,
    ensures
        d < s.len() ==> char_pos(s, c) == Some(d),
        d == s.len() ==> char_pos(s, c) is None,
    decreases d,
{
    if d == 0 {
    } else {
        assert(forall|j: int| 0 <= j < s.skip(1).len() ==> s.skip(1)[j] == s[j + 1]);
        lemma_char_pos(s.skip(1), c, d - 1);
    }
}

pub proof fn lemma_char_pos_range(s: Seq<char>, c: char)
    ensures
        char_pos(s, c) matches Some(d) ==> 0 <= d < s.len(),
    decreases s.len(),
{
    if s.len() > 0 && s[0] != c {
        lemma_char_pos_range(s.skip(1), c);
    }
}

/// One `key[=value]` part of a query string: the key is everything
/// before the first `=`; without `=` the part is a bare flag whose
/// value is Empty; with `=` the value is the decoded remainder.
pub open spec fn apply_part(part: Seq<char>, acc: Val) -> Result<Val, ErrVal> {
    if part.len() == 0 {
        Ok(acc)
    } else {
        let kv = match char_pos(part, '=') {
            None => (part, Option::<Seq<char>>::None),
            Some(e) => (part.take(e), Some(part.skip(e + 1))),
        };
        match spec_parse_path(kv.0, IndexPathState::Start, Seq::<Seg>::empty(), kv.0) {
            Err(e) => Err(e),
            Ok(segs) => {
                let value = match kv.1 {
                    None => Val::Empty,
                    Some(vs) => Val::Str(decode_of(vs)),
                };
                spec_append(acc, segs, 0, value)
            },
        }
    }
}

/// Splits on `&` and merges each part in order, aborting on the first
/// malformed key or refused merge.
pub open spec fn spec_parse_query_rec(s: Seq<char>, acc: Val) -> Result<Val, ErrVal>
    decreases s.len()
        via spec_parse_query_rec_dec
{
    match char_pos(s, '&') {
        None => apply_part(s, acc),
        Some(a) => match apply_part(s.take(a), acc) {
            Ok(acc2) => spec_parse_query_rec(s.skip(a + 1), acc2),
            Err(e) => Err(e),
        },
    }
}

#[via_fn]
proof fn spec_parse_query_rec_dec(s: Seq<char>, acc: Val) {
    lemma_char_pos_range(s, '&');
}

/// What parsing a whole query string yields, starting from an empty
/// top-level map.
pub open spec fn spec_parse_query(s: Seq<char>) -> Result<Val, ErrVal> {
    spec_parse_query_rec(s, Val::Mapping(Seq::<(Seq<char>, Val)>::empty()))
}

/// The first occurrence of `c` in `s` at or after `from`, or the length
/// of `s` when there is none.
fn find_from(s: &str, from: usize, c: char) -> (d: usize)
    requires
        from <= s@.len(),
    ensures
        from <= d <= s@.len(),
        forall|j: int| from <= j < d ==> (#[trigger] s@[j]) != c,
        d < s@.len() ==> s@[d as int] == c,
{
    let n = s.unicode_len();
    let mut d: usize = from;
    while d < n && s.get_char(d) != c
        invariant
            from <= d <= n,
            n == s@.len(),
            forall|j: int| from <= j < d ==> (#[trigger] s@[j]) != c,
        decreases n - d,
    {
        d = d + 1;
    }
    d
}

/// A query-string document: one root value that is always a map.
#[derive(Debug, PartialEq, Eq)]
pub struct QueryStrong(Value);

impl View for QueryStrong {
    type V = Val;

    closed spec fn view(&self) -> Val {
        self.0@
    }
}

impl QueryStrong {
    /// The root is a map and every map in the tree is ordered by key.
    pub closed spec fn inv(&self) -> bool {
        wf(self@) && self@ is Mapping
    }

    /// An empty document whose top level is a map.
    pub fn new() -> (r: Self)
        ensures
            r.inv(),
            r@ == Val::Mapping(Seq::<(Seq<char>, Val)>::empty()),
    {
        QueryStrong(Value::new_map())
    }

    /// Builds a document from a query string, as `spec_parse_query`
    /// says: parts split on `&`, empty parts skipped, each key read as
    /// a bracket path and merged; the first malformed key or refused
    /// merge is returned as the error.
    #[verifier::loop_isolation(false)]
    #[verifier::rlimit(100)]
    #[verifier::spinoff_prover]
    pub fn parse(s: &str) -> (r: Result<Self, Error>)
        ensures
            match spec_parse_query(s@) {
                Ok(v) => r matches Ok(q) && q@ == v && q.inv(),
                Err(e2) => r matches Err(e) && e@ == e2,
            },
    {
        let n = s.unicode_len();
        let mut from: usize = 0;
        let mut root = Value::new_map();
        proof {
            assert(s@.skip(0) =~= s@);
        }
        loop
            invariant
                from <= n,
                n == s@.len(),
                wf(root@),
                root@ is Mapping,
                spec_parse_query_rec(s@.skip(from as int), root@) == spec_parse_query(s@),
            decreases n - from,
        {
            let ghost suffix = s@.skip(from as int);
            let amp = find_from(s, from, '&');
            proof {
                assert(forall|j: int| 0 <= j < suffix.len() ==> suffix[j] == s@[from + j]);
                lemma_char_pos(suffix, '&', amp - from as int);
            }
            let ghost part = suffix.take(amp - from as int);
            if amp > from {
                let eq = find_from(s, from, '=');
                proof {
                    assert(forall|j: int| 0 <= j < part.len() ==> part[j] == s@[from + j]);
                }
                let (key, value) = if eq < amp {
                    proof {
                        lemma_char_pos(part, '=', eq - from as int);
                        assert(part.take(eq - from as int) =~= s@.subrange(
                            from as int,
                            eq as int,
                        ));
                        assert(part.skip(eq - from as int + 1) =~= s@.subrange(
                            eq as int + 1,
                            amp as int,
                        ));
                    }
                    let k = s.substring_char(from, eq);
                    let v = s.substring_char(eq + 1, amp);
                    (k, Some(v))
                } else {
                    proof {
                        lemma_char_pos(part, '=', part.len() as int);
                        assert(part =~= s@.subrange(from as int, amp as int));
                    }
                    let k = s.substring_char(from, amp);
                    (k, None)
                };
                let ghost kv0: Seq<char> = match char_pos(part, '=') {
                    None => part,
                    Some(e) => part.take(e),
                };
                proof {
                    assert(kv0 == key@);
                    assert(spec_parse_query(s@) == spec_parse_query_rec(suffix, root@));
                    if amp < n {
                        assert(char_pos(suffix, '&') == Some(amp - from as int));
                    } else {
                        assert(char_pos(suffix, '&') is None);
                        assert(suffix =~= part);
                    }
                }
                match IndexPath::parse(key) {
                    Err(e) => {
                        proof {
                            assert(apply_part(part, root@) == Err::<Val, ErrVal>(e@));
                        }
                        return Err(e);
                    },
                    Ok(path) => {
                        let val = match value {
                            None => Value::Empty,
                            Some(vs) => Value::String(crate::encoding::percent_decode(vs)),
                        };
                        proof {
                            path.lemma_path_ok();
                            value::lemma_append_preserves_wf(root@, path@, 0, val@);
                            assert(spec_append(root@, path@, 0, val@) matches Ok(v2) ==> v2
                                is Mapping);
                        }
                        proof {
                            assert(val@ == (match char_pos(part, '=') {
                                None => Val::Empty,
                                Some(e) => Val::Str(decode_of(part.skip(e + 1))),
                            }));
                        }
                        match root.append(&path, val) {
                            Err(e) => {
                                proof {
                                    assert(apply_part(part, root@) == Err::<Val, ErrVal>(e@));
                                }
                                return Err(e);
                            },
                            Ok(u) => {},
                        }
                    },
                }
            }
            if amp >= n {
                proof {
                    assert(char_pos(suffix, '&') is None);
                    assert(suffix =~= part);
                }
                return Ok(QueryStrong(root));
            }
            proof {
                assert(s@.skip(amp as int + 1) =~= suffix.skip(amp - from as int + 1));
            }
            from = amp + 1;
        }
    }

    /// Merges `value` at `path`; on failure the document is unchanged
    /// and the error is returned, as for `Value::append`.
    pub fn append(&mut self, path: &IndexPath, value: Value) -> (r: Result<(), Error>)
        requires
            old(self).inv(),
            wf(value@),
        ensures
            final (self).inv(),
            match spec_append(old(self)@, path@, 0, value@) {
                Ok(v2) => r matches Ok(u) && final (self)@ == v2,
                Err(e2) => r matches Err(e) && e@ == e2 && final (self)@ == old(self)@,
            },
    {
        proof {
            path.lemma_path_ok();
            value::lemma_append_preserves_wf(self@, path@, 0, value@);
            assert(spec_append(self@, path@, 0, value@) matches Ok(v2) ==> v2 is Mapping);
        }
        self.0.append(path, value)
    }

    /// Reads `key` as a bracket path and merges the percent-decoded
    /// `value` there.
    pub fn append_str(&mut self, key: &str, value: &str) -> (r: Result<(), Error>)
        requires
            old(self).inv(),
        ensures
            final (self).inv(),
            match spec_parse_path(key@, IndexPathState::Start, Seq::<Seg>::empty(), key@) {
                Err(e2) => r matches Err(e) && e@ == e2 && final (self)@ == old(self)@,
                Ok(segs) => match spec_append(old(self)@, segs, 0, Val::Str(decode_of(value@))) {
                    Ok(v2) => r matches Ok(u) && final (self)@ == v2,
                    Err(e2) => r matches Err(e) && e@ == e2 && final (self)@ == old(self)@,
                },
            },
    {
        match IndexPath::parse(key) {
            Err(e) => Err(e),
            Ok(path) => self.append(&path, Value::from_encoded(value)),
        }
    }

    /// Looks a key string up, reading it as a bracket path; a malformed
    /// path finds nothing.
    pub fn get(&self, key: &str) -> (r: Option<&Value>)
        requires
            self.inv(),
        ensures
            match spec_parse_path(key@, IndexPathState::Start, Seq::<Seg>::empty(), key@) {
                Err(_) => r is None,
                Ok(segs) => match spec_get(self@, segs, 0) {
                    Some(v) => r matches Some(out) && out@ == v,
                    None => r is None,
                },
            },
    {
        match IndexPath::parse(key) {
            Err(e) => None,
            Ok(path) => self.0.get(&path),
        }
    }

    /// Looks an already-built path up.
    pub fn get_path(&self, path: &IndexPath) -> (r: Option<&Value>)
        requires
            self.inv(),
        ensures
            match spec_get(self@, path@, 0) {
                Some(v) => r matches Some(out) && out@ == v,
                None => r is None,
            },
    {
        self.0.get(path)
    }

    /// The scalar string at `key`, if that path leads to one.
    pub fn get_str(&self, key: &str) -> (r: Option<&str>)
        requires
            self.inv(),
        ensures
            match spec_parse_path(key@, IndexPathState::Start, Seq::<Seg>::empty(), key@) {
                Err(_) => r is None,
                Ok(segs) => match spec_get(self@, segs, 0) {
                    Some(Val::Str(t)) => r matches Some(out) && out@ == t,
                    _ => r is None,
                },
            },
    {
        match self.get(key) {
            Some(v) => v.as_str(),
            None => None,
        }
    }

    /// The list at `key`, if that path leads to one.
    pub fn get_slice(&self, key: &str) -> (r: Option<&[Value]>)
        requires
            self.inv(),
        ensures
            match spec_parse_path(key@, IndexPathState::Start, Seq::<Seg>::empty(), key@) {
                Err(_) => r is None,
                Ok(segs) => match spec_get(self@, segs, 0) {
                    Some(Val::List(items)) => r matches Some(out) && view_items(out@) == items,
                    _ => r is None,
                },
            },
    {
        match self.get(key) {
            Some(v) => v.as_slice(),
            None => None,
        }
    }

    /// The map at `key`, if that path leads to one.
    pub fn get_map(&self, key: &str) -> (r: Option<&Vec<(String, Value)>>)
        requires
            self.inv(),
        ensures
            match spec_parse_path(key@, IndexPathState::Start, Seq::<Seg>::empty(), key@) {
                Err(_) => r is None,
                Ok(segs) => match spec_get(self@, segs, 0) {
                    Some(Val::Mapping(m)) => r matches Some(out) && view_entries(out@) == m,
                    _ => r is None,
                },
            },
    {
        match self.get(key) {
            Some(v) => v.as_map(),
            None => None,
        }
    }

    /// The diagnostic form of the document.
    pub fn debug_string(&self) -> (r: String)
        ensures
            r@ == spec_debug(self@),
    {
        self.0.debug_string()
    }

    /// The root value.
    pub fn root(&self) -> (r: &Value)
        ensures
            r@ == self@,
    {
        &self.0
    }

    /// Whether the root is a map; by construction it always is.
    pub fn is_map(&self) -> (r: bool)
        ensures
            r == (self@ is Mapping),
    {
        self.0.is_map()
    }

    /// Serializes the document canonically: map keys in sorted order,
    /// pairs joined by `&`, keys and values percent-encoded, `=` only
    /// where a value exists.
    pub fn to_string(&self) -> (r: String)
        requires
            self.inv(),
        ensures
            r@ == spec_to_string(self@),
    {
        let pairs = self.0.flatten_pairs();
        proof {
            match self@ {
                Val::Mapping(m) => {
                    ser::lemma_mapping_flatten_some(m);
                },
                _ => {},
            }
        }
        let mut out = String::new();
        ser::render_into(&mut out, &pairs);
        proof {
            assert(out@ =~= spec_to_string(self@));
        }
        out
    }
}

impl Default for QueryStrong {
    /// An empty document whose top level is a map.
    fn default() -> (r: Self)
        ensures
            r.inv(),
            r@ == Val::Mapping(Seq::<(Seq<char>, Val)>::empty()),
    {
        QueryStrong::new()
    }
}

impl Value {
    /// A scalar built from raw query-string text: percent-decoded once,
    /// at construction.
    pub fn from_encoded(s: &str) -> (r: Value)
        ensures
            r@ == Val::Str(decode_of(s@)),
    {
        Value::String(crate::encoding::percent_decode(s))
    }
}

} // verus!
