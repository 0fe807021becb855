use vstd::prelude::*;

use crate::encoding::decode_of;
use crate::error::Error;
use crate::error::ErrVal;
use crate::indexer::path_ok;
use crate::indexer::seg_ok;
use crate::indexer::Indexer;
use crate::indexer::Seg;

verus! {

/// Nonempty text made of ASCII digits only.
pub open spec fn is_digits(s: Seq<char>) -> bool {
    s.len() > 0 && forall|i: int| 0 <= i < s.len() ==> 48 <= (#[trigger] s[i]) as int <= 57
}

/// The number the digits denote, most significant first.
pub open spec fn digits_val(s: Seq<char>) -> int
    decreases s.len(),
{
    if s.len() == 0 {
        0
    } else {
        digits_val(s.take(s.len() - 1)) * 10 + (s[s.len() - 1] as int - 48)
    }
}

/// The digits of a segment's text, behind one optional leading `+`.
pub open spec fn digits_part(text: Seq<char>) -> Seq<char> {
    if text.len() > 0 && text[0] == '+' {
        text.skip(1)
    } else {
        text
    }
}

/// How one segment's raw text is read: empty text is the append marker,
/// digits (behind one optional `+` sign, as unsigned-integer parsing
/// allows) that fit in usize are a list index, and anything else is a
/// key, percent-decoded.
pub open spec fn classify_seg(text: Seq<char>) -> Seg {
    if text.len() == 0 {
        Seg::Append
    } else if is_digits(digits_part(text)) && digits_val(digits_part(text)) <= usize::MAX {
        Seg::Num(digits_val(digits_part(text)))
    } else {
        Seg::Key(decode_of(text))
    }
}

/// The position of the first `[` or `]`, if any.
pub open spec fn divider_pos(s: Seq<char>) -> Option<int>
    decreases s.len(),
{
    if s.len() == 0 {
        None
    } else if s[0] == '[' || s[0] == ']' {
        Some(0)
    } else {
        match divider_pos(s.skip(1)) {
            None => None,
            Some(i) => Some(i + 1),
        }
    }
}

/// The bracket scanner. One segment stands before the first `[`, then
/// bracket-delimited segments alternate `][`; an unmatched bracket, a
/// stray `]`, input ending inside a bracket, or text after a closing
/// bracket without a new `[` is a parse failure that carries the
/// offending character (none at end of input), the state, and the whole
/// original string.
pub open spec fn spec_parse_path(
    s: Seq<char>,
    state: IndexPathState,
    acc: Seq<Seg>,
    orig: Seq<char>,
) -> Result<Seq<Seg>, ErrVal>
    decreases s.len()
        via spec_parse_path_dec
{
    if s.len() == 0 {
        if state == IndexPathState::BracketOpen {
            Err(ErrVal::CouldNotParseIndexer(None, state, orig))
        } else {
            Ok(acc)
        }
    } else {
        match divider_pos(s) {
            None => {
                if state == IndexPathState::Start {
                    Ok(acc.push(classify_seg(s)))
                } else {
                    Err(ErrVal::CouldNotParseIndexer(None, state, orig))
                }
            },
            Some(d) => {
                let c = s[d];
                let before = s.take(d);
                let rest = s.skip(d + 1);
                if state == IndexPathState::Start && c == '[' {
                    spec_parse_path(
                        rest,
                        IndexPathState::BracketOpen,
                        acc.push(classify_seg(before)),
                        orig,
                    )
                } else if state == IndexPathState::BracketOpen && c == ']' {
                    spec_parse_path(
                        rest,
                        IndexPathState::BracketClose,
                        acc.push(classify_seg(before)),
                        orig,
                    )
                } else if state == IndexPathState::BracketClose && c == '[' {
                    spec_parse_path(rest, IndexPathState::BracketOpen, acc, orig)
                } else {
                    Err(ErrVal::CouldNotParseIndexer(Some(c), state, orig))
                }
            },
        }
    }
}

/// A divider that is found lies inside the string.
pub proof fn lemma_divider_pos_range(s: Seq<char>)
    ensures
        divider_pos(s) matches Some(d) ==> 0 <= d < s.len(),
    decreases s.len(),
{
    if s.len() > 0 && !(s[0] == '[' || s[0] == ']') {
        lemma_divider_pos_range(s.skip(1));
    }
}

#[via_fn]
proof fn spec_parse_path_dec(s: Seq<char>, state: IndexPathState, acc: Seq<Seg>, orig: Seq<char>) {
    lemma_divider_pos_range(s);
}

/// Whether the character at `i` is a structural bracket.
fn char_at_is_bracket(s: &str, i: usize) -> (r: bool)
    requires
        i < s@.len(),
    ensures
        r == (s@[i as int] == '[' || s@[i as int] == ']'),
{
    let c = s.get_char(i);
    c == '[' || c == ']'
}

/// Reads one segment's raw text, as `classify_seg` says.
#[verifier::loop_isolation(false)]
fn classify_segment(text: &str) -> (r: Indexer)
    ensures
        r@ == classify_seg(text@),
{
    let n = text.unicode_len();
    if n == 0 {
        return Indexer::Empty;
    }
    let first = text.get_char(0);
    let start: usize = if first == '+' {
        1
    } else {
        0
    };
    let ghost dpart = digits_part(text@);
    proof {
        assert(dpart =~= text@.skip(start as int));
    }
    if start >= n {
        // a lone sign has no digits behind it
        proof {
            assert(!is_digits(dpart));
        }
        return Indexer::key(text);
    }
    let mut i: usize = start;
    let mut val: usize = 0;
    let mut fits = true;
    while i < n
        invariant
            start <= i <= n,
            n == text@.len(),
            dpart == text@.skip(start as int),
            forall|j: int| start <= j < i ==> 48 <= (#[trigger] text@[j]) as int <= 57,
            fits ==> val == digits_val(dpart.take(i - start as int)),
            !fits ==> digits_val(dpart.take(i - start as int)) > usize::MAX,
        decreases n - i,
    {
        let c = text.get_char(i);
        let cu = c as u32;
        if cu < 48 || cu > 57 {
            proof {
                assert(dpart[i - start as int] == text@[i as int]);
                assert(!is_digits(dpart));
            }
            return Indexer::key(text);
        }
        let d = (cu - 48) as usize;
        proof {
            let t = dpart.take(i - start as int + 1);
            assert(t.take(t.len() - 1) =~= dpart.take(i - start as int));
            assert(t[t.len() - 1] == text@[i as int]);
            assert(digits_val(t) == digits_val(dpart.take(i - start as int)) * 10 + (
            text@[i as int] as int - 48));
        }
        if !fits {
            proof {
                assert(forall|j: int|
                    0 <= j < dpart.take(i - start as int).len() ==> 48 <= (#[trigger] dpart.take(
                        i - start as int,
                    )[j]) as int <= 57);
                lemma_digits_val_nonneg(dpart.take(i - start as int));
            }
        }
        if fits {
            if val > (usize::MAX - d) / 10 {
                fits = false;
                proof {
                    assert(digits_val(dpart.take(i - start as int + 1)) > usize::MAX)
                        by (nonlinear_arith)
                        requires
                            digits_val(dpart.take(i - start as int + 1)) == val * 10 + d,
                            val > (usize::MAX - d) / 10,
                            0 <= d <= 9,
                            val >= 0,
                    ;
                }
            } else {
                proof {
                    assert(val * 10 + d <= usize::MAX) by (nonlinear_arith)
                        requires
                            val <= (usize::MAX - d) / 10,
                            0 <= d <= 9,
                            val >= 0,
                    ;
                }
                val = val * 10 + d;
            }
        }
        i = i + 1;
    }
    proof {
        assert(dpart.take(n - start as int) =~= dpart);
        assert(is_digits(dpart));
    }
    if fits {
        Indexer::Number(val)
    } else {
        proof {
            assert(forall|j: int|
                0 <= j < dpart.len() ==> 48 <= (#[trigger] dpart[j]) as int <= 57);
            lemma_digits_val_nonneg(dpart);
        }
        Indexer::key(text)
    }
}

/// A scan that saw no bracket before `d` pins `divider_pos` down.
pub proof fn lemma_divider_pos(s: Seq<char>, d: int)
    requires
        0 <= d <= s.len(),
        forall|j: int| 0 <= j < d ==> !((#[trigger] s[j]) == '[' || s[j] == ']'),
        d < s.len() ==> (s[d] == '[' || s[d] == ']'),
    ensures
        d < s.len() ==> divider_pos(s) == Some(d),
        d == s.len() ==> divider_pos(s) is None,
    decreases d,
{
    if d == 0 {
        if 0 == s.len() {
        } else {
            assert(s[0] == '[' || s[0] == ']');
        }
    } else {
        assert(!(s[0] == '[' || s[0] == ']'));
        assert(forall|j: int| 0 <= j < s.skip(1).len() ==> s.skip(1)[j] == s[j + 1]);
        lemma_divider_pos(s.skip(1), d - 1);
    }
}

pub proof fn lemma_digits_val_nonneg(s: Seq<char>)
    requires
        forall|i: int| 0 <= i < s.len() ==> 48 <= (#[trigger] s[i]) as int <= 57,
    ensures
        digits_val(s) >= 0,
    decreases s.len(),
{
    if s.len() > 0 {
        assert(forall|i: int|
            0 <= i < s.take(s.len() - 1).len() ==> 48 <= (#[trigger] s.take(s.len() - 1)[i]) as int
                <= 57);
        lemma_digits_val_nonneg(s.take(s.len() - 1));
    }
}


/// The four states of the bracket-notation scanner.
#[derive(Clone, Copy, PartialEq, Eq, Structural, Debug)]
pub enum IndexPathState {
    Start,
    BracketOpen,
    BracketClose,
    End,
}

/// An ordered sequence of segments, outermost first; the empty path
/// denotes the value itself.
#[derive(Debug, PartialEq, Eq)]
pub struct IndexPath(Vec<Indexer>);

impl View for IndexPath {
    type V = Seq<Seg>;

    closed spec fn view(&self) -> Seq<Seg> {
        Seq::new(self.0@.len(), |i: int| self.0@[i]@)
    }
}

impl IndexPath {
    /// The empty path.
    pub fn empty() -> (r: Self)
        ensures
            r@ == Seq::<Seg>::empty(),
    {
        let v: Vec<Indexer> = Vec::new();
        proof {
            assert(IndexPath(v)@ =~= Seq::<Seg>::empty());
        }
        IndexPath(v)
    }

    /// A path of one segment.
    pub fn single(ix: Indexer) -> (r: Self)
        ensures
            r@ == seq![ix@],
    {
        let mut v: Vec<Indexer> = Vec::new();
        v.push(ix);
        proof {
            assert(IndexPath(v)@ =~= seq![v@[0]@]);
        }
        IndexPath(v)
    }

    pub fn len(&self) -> (n: usize)
        ensures
            n == self@.len(),
    {
        self.0.len()
    }

    /// The segment at position `i`, outermost first.
    pub fn seg(&self, i: usize) -> (r: &Indexer)
        requires
            i < self@.len(),
        ensures
            r@ == self@[i as int],
    {
        &self.0[i]
    }

    /// Appends an innermost segment.
    pub fn push(&mut self, ix: Indexer)
        ensures
            final(self)@ == old(self)@.push(ix@),
    {
        self.0.push(ix);
        proof {
            assert(self@ =~= old(self)@.push(self.0@[old(self)@.len() as int]@));
        }
    }

    /// Prepends an outermost segment.
    pub fn push_front(&mut self, ix: Indexer)
        ensures
            final(self)@ == seq![ix@] + old(self)@,
    {
        self.0.insert(0, ix);
        proof {
            assert(self@ =~= seq![self.0@[0]@] + old(self)@);
        }
    }

    /// Reads a bracket-notation string into a path, as
    /// `spec_parse_path` says, starting in the Start state.
    #[verifier::loop_isolation(false)]
    pub fn parse(s: &str) -> (r: Result<IndexPath, Error>)
        ensures
            match spec_parse_path(s@, IndexPathState::Start, Seq::<Seg>::empty(), s@) {
                Ok(segs) => r matches Ok(p) && p@ == segs,
                Err(e2) => r matches Err(e) && e@ == e2,
            },
    {
        let n = s.unicode_len();
        let mut from: usize = 0;
        let mut state = IndexPathState::Start;
        let mut out = IndexPath::empty();
        proof {
            assert(s@.skip(0) =~= s@);
        }
        loop
            invariant
                from <= n,
                n == s@.len(),
                !(state is End),
                spec_parse_path(s@.skip(from as int), state, out@, s@) == spec_parse_path(
                    s@,
                    IndexPathState::Start,
                    Seq::<Seg>::empty(),
                    s@,
                ),
            decreases n - from,
        {
            if from >= n {
                if matches!(state, IndexPathState::BracketOpen) {
                    return Err(Error::CouldNotParseIndexer(None, state, s.to_owned()));
                }
                return Ok(out);
            }
            let mut d: usize = from;
            while d < n && !char_at_is_bracket(s, d)
                invariant
                    from <= d <= n,
                    forall|j: int| from <= j < d ==> !((#[trigger] s@[j]) == '[' || s@[j] == ']'),
                decreases n - d,
            {
                d = d + 1;
            }
            let ghost suffix = s@.skip(from as int);
            proof {
                assert(forall|j: int| 0 <= j < suffix.len() ==> suffix[j] == s@[from + j]);
                lemma_divider_pos(suffix, d - from as int);
            }
            if d >= n {
                if matches!(state, IndexPathState::Start) {
                    let text = s.substring_char(from, n);
                    proof {
                        assert(text@ =~= suffix);
                    }
                    let seg = classify_segment(text);
                    out.push(seg);
                    return Ok(out);
                }
                return Err(Error::CouldNotParseIndexer(None, state, s.to_owned()));
            }
            let c = s.get_char(d);
            let text = s.substring_char(from, d);
            proof {
                assert(text@ =~= suffix.take(d - from as int));
                assert(s@.skip(d + 1 as int) =~= suffix.skip(d - from as int + 1));
            }
            match state {
                IndexPathState::Start => {
                    if c == '[' {
                        let seg = classify_segment(text);
                        out.push(seg);
                        state = IndexPathState::BracketOpen;
                        from = d + 1;
                    } else {
                        return Err(Error::CouldNotParseIndexer(Some(c), state, s.to_owned()));
                    }
                },
                IndexPathState::BracketOpen => {
                    if c == ']' {
                        let seg = classify_segment(text);
                        out.push(seg);
                        state = IndexPathState::BracketClose;
                        from = d + 1;
                    } else {
                        return Err(Error::CouldNotParseIndexer(Some(c), state, s.to_owned()));
                    }
                },
                IndexPathState::BracketClose => {
                    if c == '[' {
                        state = IndexPathState::BracketOpen;
                        from = d + 1;
                    } else {
                        return Err(Error::CouldNotParseIndexer(Some(c), state, s.to_owned()));
                    }
                },
                IndexPathState::End => {
                    proof {
                        assert(false);
                    }
                    return Err(Error::CouldNotParseIndexer(Some(c), state, s.to_owned()));
                },
            }
        }
    }

    /// Every path this type can hold satisfies `path_ok`.
    pub proof fn lemma_path_ok(&self)
        ensures
            path_ok(self@),
    {
        assert forall|i: int| 0 <= i < self@.len() implies seg_ok(#[trigger] self@[i]) by {
            assert(self@[i] == self.0@[i]@);
        }
    }

    /// The underlying segments.
    pub fn indexers(&self) -> (r: &Vec<Indexer>)
        ensures
            r@.len() == self@.len(),
            forall|i: int| 0 <= i < r@.len() ==> #[trigger] r@[i]@ == self@[i],
    {
        &self.0
    }
}

} // verus!
