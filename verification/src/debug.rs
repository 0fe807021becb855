use vstd::prelude::*;

use crate::ser::push_char;
use crate::value::view_entries;
use crate::value::view_items;
use crate::value::Val;
use crate::value::Value;

verus! {

/// A quote or backslash is written behind a backslash; every other
/// character stands for itself.
pub open spec fn esc_char(c: char) -> Seq<char> {
    if c == '"' || c == '\\' {
        seq!['\\', c]
    } else {
        seq![c]
    }
}

pub open spec fn escape(s: Seq<char>) -> Seq<char>
    decreases s.len(),
{
    if s.len() == 0 {
        Seq::empty()
    } else {
        esc_char(s[0]) + escape(s.skip(1))
    }
}

/// List elements joined by a comma and a space.
pub open spec fn debug_items(l: Seq<Val>) -> Seq<char>
    decreases l, 1int,
{
    if l.len() == 0 {
        Seq::empty()
    } else if l.len() == 1 {
        spec_debug(l[0])
    } else {
        spec_debug(l[0]) + seq![',', ' '] + debug_items(l.skip(1))
    }
}

/// Map entries as quoted key, colon, space, child, joined by a comma
/// and a space.
pub open spec fn debug_entry(e: (Seq<char>, Val)) -> Seq<char>
    decreases e, 0int,
{
    seq!['"'] + escape(e.0) + seq!['"', ':', ' '] + spec_debug(e.1)
}

pub open spec fn debug_entries(m: Seq<(Seq<char>, Val)>) -> Seq<char>
    decreases m, 1int,
{
    if m.len() == 0 {
        Seq::empty()
    } else if m.len() == 1 {
        debug_entry(m[0])
    } else {
        debug_entry(m[0]) + seq![',', ' '] + debug_entries(m.skip(1))
    }
}

/// The diagnostic form of a tree: maps in braces, lists in square
/// brackets, strings quoted with escapes, Empty as `()`.
pub open spec fn spec_debug(v: Val) -> Seq<char>
    decreases v, 0int,
{
    match v {
        Val::Empty => seq!['(', ')'],
        Val::Str(s) => seq!['"'] + escape(s) + seq!['"'],
        Val::List(l) => seq!['['] + debug_items(l) + seq![']'],
        Val::Mapping(m) => seq!['{'] + debug_entries(m) + seq!['}'],
    }
}

pub proof fn lemma_escape_push(s: Seq<char>, c: char)
    ensures
        escape(s.push(c)) == escape(s) + esc_char(c),
    decreases s.len(),
{
    if s.len() == 0 {
        assert(s.push(c)[0] == c);
        assert(s.push(c).skip(1) =~= Seq::<char>::empty());
        assert(escape(Seq::<char>::empty()) =~= Seq::<char>::empty());
        assert(escape(s.push(c)) =~= escape(s) + esc_char(c));
    } else {
        assert(s.push(c)[0] == s[0]);
        assert(s.push(c).skip(1) =~= s.skip(1).push(c));
        lemma_escape_push(s.skip(1), c);
        let a = esc_char(s[0]);
        let b = escape(s.skip(1));
        let cc = esc_char(c);
        assert(escape(s.push(c)) == a + (b + cc));
        assert(a + (b + cc) =~= (a + b) + cc);
    }
}

pub proof fn lemma_debug_items_push(l: Seq<Val>, v: Val)
    ensures
        debug_items(l.push(v)) == (if l.len() == 0 {
            spec_debug(v)
        } else {
            debug_items(l) + seq![',', ' '] + spec_debug(v)
        }),
    decreases l.len(),
{
    if l.len() == 0 {
        assert(l.push(v)[0] == v);
    } else {
        assert(l.push(v)[0] == l[0]);
        assert(l.push(v).skip(1) =~= l.skip(1).push(v));
        lemma_debug_items_push(l.skip(1), v);
        let a = spec_debug(l[0]);
        let sep = seq![',', ' '];
        let c = spec_debug(v);
        if l.len() == 1 {
            assert(debug_items(l.push(v)) == a + sep + debug_items(l.skip(1).push(v)));
            assert(debug_items(l.skip(1).push(v)) == c);
            assert(a + sep + c =~= debug_items(l) + sep + c);
        } else {
            let b = debug_items(l.skip(1));
            assert(debug_items(l.push(v)) == a + sep + (b + sep + c));
            assert(a + sep + (b + sep + c) =~= (a + sep + b) + sep + c);
        }
    }
}

pub proof fn lemma_debug_entries_push(m: Seq<(Seq<char>, Val)>, e: (Seq<char>, Val))
    ensures
        debug_entries(m.push(e)) == (if m.len() == 0 {
            debug_entry(e)
        } else {
            debug_entries(m) + seq![',', ' '] + debug_entry(e)
        }),
    decreases m.len(),
{
    if m.len() == 0 {
        assert(m.push(e)[0] == e);
    } else {
        assert(m.push(e)[0] == m[0]);
        assert(m.push(e).skip(1) =~= m.skip(1).push(e));
        lemma_debug_entries_push(m.skip(1), e);
        let a = debug_entry(m[0]);
        let sep = seq![',', ' '];
        let c = debug_entry(e);
        if m.len() == 1 {
            assert(debug_entries(m.push(e)) == a + sep + debug_entries(m.skip(1).push(e)));
            assert(debug_entries(m.skip(1).push(e)) == c);
            assert(a + sep + c =~= debug_entries(m) + sep + c);
        } else {
            let b = debug_entries(m.skip(1));
            assert(debug_entries(m.push(e)) == a + sep + (b + sep + c));
            assert(a + sep + (b + sep + c) =~= (a + sep + b) + sep + c);
        }
    }
}

/// Writes `s` with quote and backslash escaped.
#[verifier::loop_isolation(false)]
fn push_escaped(out: &mut String, s: &str)
    ensures
        final (out)@ == old(out)@ + escape(s@),
{
    let ghost base = out@;
    let n = s.unicode_len();
    let mut i: usize = 0;
    proof {
        assert(s@.take(0) =~= Seq::<char>::empty());
        assert(out@ =~= base + escape(s@.take(0)));
    }
    while i < n
        invariant
            i <= n,
            n == s@.len(),
            out@ == base + escape(s@.take(i as int)),
        decreases n - i,
    {
        let c = s.get_char(i);
        proof {
            lemma_escape_push(s@.take(i as int), c);
            assert(s@.take(i as int).push(c) =~= s@.take(i as int + 1));
        }
        if c == '"' || c == '\\' {
            push_char(out, '\\');
            push_char(out, c);
        } else {
            push_char(out, c);
        }
        proof {
            assert(out@ =~= base + escape(s@.take(i as int + 1)));
        }
        i += 1;
    }
    proof {
        assert(s@.take(n as int) =~= s@);
    }
}

impl Value {
    /// Writes this value's diagnostic form, as `spec_debug` says.
    #[verifier::loop_isolation(false)]
    pub fn debug_into(&self, out: &mut String)
        ensures
            final (out)@ == old(out)@ + spec_debug(self@),
        decreases self,
    {
        let ghost base = out@;
        match self {
            Value::Empty => {
                push_char(out, '(');
                push_char(out, ')');
                proof {
                    assert(out@ =~= base + spec_debug(self@));
                }
            },
            Value::String(s) => {
                push_char(out, '"');
                push_escaped(out, s.as_str());
                push_char(out, '"');
                proof {
                    assert(out@ =~= base + spec_debug(self@));
                }
            },
            Value::List(l) => {
                let ghost items = view_items(l@);
                push_char(out, '[');
                let mut i: usize = 0;
                proof {
                    assert(items.take(0) =~= Seq::<Val>::empty());
                    assert(out@ =~= base + seq!['['] + debug_items(items.take(0)));
                }
                while i < l.len()
                    invariant
                        i <= l@.len(),
                        out@ == base + seq!['['] + debug_items(items.take(i as int)),
                    decreases l@.len() - i,
                {
                    proof {
                        assert(decreases_to!(*self => *l));
                        assert(decreases_to!(*l => l@));
                        assert(decreases_to!(l@ => l@[i as int]));
                        lemma_debug_items_push(items.take(i as int), items[i as int]);
                        assert(items.take(i as int).push(items[i as int]) =~= items.take(
                            i as int + 1,
                        ));
                    }
                    if i > 0 {
                        push_char(out, ',');
                        push_char(out, ' ');
                    }
                    l[i].debug_into(out);
                    proof {
                        assert(out@ =~= base + seq!['['] + debug_items(items.take(i as int + 1)));
                    }
                    i += 1;
                }
                push_char(out, ']');
                proof {
                    assert(items.take(l@.len() as int) =~= items);
                    assert(out@ =~= base + spec_debug(self@));
                }
            },
            Value::Mapping(m) => {
                let ghost entries = view_entries(m@);
                push_char(out, '{');
                let mut i: usize = 0;
                proof {
                    assert(entries.take(0) =~= Seq::<(Seq<char>, Val)>::empty());
                    assert(out@ =~= base + seq!['{'] + debug_entries(entries.take(0)));
                }
                while i < m.len()
                    invariant
                        i <= m@.len(),
                        out@ == base + seq!['{'] + debug_entries(entries.take(i as int)),
                    decreases m@.len() - i,
                {
                    proof {
                        assert(decreases_to!(*self => *m));
                        assert(decreases_to!(*m => m@));
                        assert(decreases_to!(m@ => m@[i as int]));
                        assert(decreases_to!(m@[i as int] => m@[i as int].1));
                        lemma_debug_entries_push(entries.take(i as int), entries[i as int]);
                        assert(entries.take(i as int).push(entries[i as int]) =~= entries.take(
                            i as int + 1,
                        ));
                    }
                    if i > 0 {
                        push_char(out, ',');
                        push_char(out, ' ');
                    }
                    push_char(out, '"');
                    push_escaped(out, m[i].0.as_str());
                    push_char(out, '"');
                    push_char(out, ':');
                    push_char(out, ' ');
                    m[i].1.debug_into(out);
                    proof {
                        assert(out@ =~= base + seq!['{'] + debug_entries(
                            entries.take(i as int + 1),
                        ));
                    }
                    i += 1;
                }
                push_char(out, '}');
                proof {
                    assert(entries.take(m@.len() as int) =~= entries);
                    assert(out@ =~= base + spec_debug(self@));
                }
            },
        }
    }

    /// The diagnostic form of this value as a string.
    pub fn debug_string(&self) -> (r: String)
        ensures
            r@ == spec_debug(self@),
    {
        let mut out = String::new();
        self.debug_into(&mut out);
        proof {
            assert(out@ =~= spec_debug(self@));
        }
        out
    }
}

} // verus!
