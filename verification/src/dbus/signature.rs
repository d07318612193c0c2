//! Signatures as a grammar: which byte strings name one complete type, and
//! why the type scanner finds exactly where such a type ends, whatever
//! follows it.

use vstd::prelude::*;
use crate::dbus::value::{bracket_end, type_len};

verus! {

/// The codes of the types that are not containers: `y b n q i u x t d s o g
/// h v`.
pub open spec fn basic_code(c: u8) -> bool {
    c == 0x79 || c == 0x62 || c == 0x6E || c == 0x71 || c == 0x69 || c == 0x75 || c == 0x78 || c
        == 0x74 || c == 0x64 || c == 0x73 || c == 0x6F || c == 0x67 || c == 0x68 || c == 0x76
}

/// Whether `s` names exactly one complete type: a basic code; `a` and a
/// complete type; `(`, complete types one after another, `)`; or `{`,
/// exactly two complete types, `}`. The empty structure `()`, which the
/// specification forbids but the scanner reads, counts as complete.
pub open spec fn complete_type(s: Seq<u8>) -> bool
    decreases s.len(), 0int,
{
    if s.len() == 0 {
        false
    } else if basic_code(s[0]) {
        s.len() == 1
    } else if s[0] == 0x61 {
        complete_type(s.skip(1))
    } else if s[0] == 0x28 {
        s.len() >= 2 && s.last() == 0x29 && complete_list(s.subrange(1, s.len() - 1))
    } else if s[0] == 0x7B {
        s.len() >= 4 && s.last() == 0x7D && complete_pair(s.subrange(1, s.len() - 1))
    } else {
        false
    }
}

/// Whether `s` is complete types one after another, as the scanner cuts it.
pub open spec fn complete_list(s: Seq<u8>) -> bool
    decreases s.len(), 1int,
{
    if s.len() == 0 {
        true
    } else {
        match type_len(s) {
            Some(n) => 0 < n <= s.len() && complete_type(s.take(n as int)) && complete_list(
                s.skip(n as int),
            ),
            None => false,
        }
    }
}

/// Whether `s` is exactly two complete types, as the scanner cuts it.
pub open spec fn complete_pair(s: Seq<u8>) -> bool
    decreases s.len(), 1int,
{
    match type_len(s) {
        Some(n) => 0 < n < s.len() && complete_type(s.take(n as int)) && complete_type(
            s.skip(n as int),
        ),
        None => false,
    }
}

/// Opening brackets less closing ones, of one kind.
pub open spec fn depth(s: Seq<u8>, open: u8, close: u8) -> int
    decreases s.len(),
{
    if s.len() == 0 {
        0
    } else {
        depth(s.drop_last(), open, close) + if s.last() == open {
            1int
        } else if s.last() == close {
            -1int
        } else {
            0int
        }
    }
}

/// Every prefix opens at least as many brackets of the kind as it closes,
/// and the whole closes them all.
pub open spec fn balanced(s: Seq<u8>, open: u8, close: u8) -> bool {
    &&& depth(s, open, close) == 0
    &&& forall|k: int| 0 <= k <= s.len() ==> depth(#[trigger] s.take(k), open, close) >= 0
}

pub proof fn lemma_depth_concat(a: Seq<u8>, b: Seq<u8>, open: u8, close: u8)
    ensures
        depth(a + b, open, close) == depth(a, open, close) + depth(b, open, close),
    decreases b.len(),
{
    if b.len() == 0 {
        assert(a + b =~= a);
    } else {
        assert((a + b).drop_last() =~= a + b.drop_last());
        lemma_depth_concat(a, b.drop_last(), open, close);
    }
}

/// Two balanced strings one after the other are balanced.
pub proof fn lemma_balanced_concat(a: Seq<u8>, b: Seq<u8>, open: u8, close: u8)
    requires
        balanced(a, open, close),
        balanced(b, open, close),
    ensures
        balanced(a + b, open, close),
{
    lemma_depth_concat(a, b, open, close);
    assert forall|k: int| 0 <= k <= (a + b).len() implies depth(#[trigger] (a + b).take(k), open, close)
        >= 0 by {
        if k <= a.len() {
            assert((a + b).take(k) =~= a.take(k));
        } else {
            assert((a + b).take(k) =~= a + b.take(k - a.len()));
            lemma_depth_concat(a, b.take(k - a.len()), open, close);
            assert(a.take(a.len() as int) =~= a);
        }
    }
}

/// The brackets of one kind around a string balanced in them: balanced.
/// Other characters around it leave it balanced in their kind.
pub proof fn lemma_balanced_wrap(s: Seq<u8>, first: u8, last: u8, open: u8, close: u8)
    requires
        open != close,
        balanced(s, open, close),
        (first == open && last == close) || (first != open && first != close && last != open
            && last != close),
    ensures
        balanced(seq![first] + s + seq![last], open, close),
{
    let w = seq![first] + s + seq![last];
    let f = seq![first];
    let l = seq![last];
    assert(f.drop_last() =~= Seq::<u8>::empty());
    assert(l.drop_last() =~= Seq::<u8>::empty());
    assert(depth(Seq::<u8>::empty(), open, close) == 0);
    let df: int = if first == open {
        1
    } else {
        0
    };
    let dl: int = if last == close {
        -1
    } else {
        0
    };
    assert(depth(f, open, close) == df);
    assert(depth(l, open, close) == dl);
    lemma_depth_concat(f, s, open, close);
    lemma_depth_concat(f + s, l, open, close);
    assert(s.take(s.len() as int) =~= s);
    assert forall|k: int| 0 <= k <= w.len() implies depth(#[trigger] w.take(k), open, close) >= 0 by {
        if k == 0 {
            assert(w.take(0) =~= Seq::<u8>::empty());
        } else if k <= s.len() + 1 {
            assert(w.take(k) =~= f + s.take(k - 1));
            lemma_depth_concat(f, s.take(k - 1), open, close);
            assert(depth(s.take(k - 1), open, close) >= 0);
        } else {
            assert(w.take(k) =~= w);
        }
    }
}

pub proof fn lemma_single_balanced(c: u8, open: u8, close: u8)
    requires
        c != open,
        c != close,
    ensures
        balanced(seq![c], open, close),
{
    assert(seq![c].drop_last() =~= Seq::<u8>::empty());
    assert(depth(Seq::<u8>::empty(), open, close) == 0);
    assert(depth(seq![c], open, close) == 0);
    assert forall|k: int| 0 <= k <= 1 implies depth(#[trigger] seq![c].take(k), open, close) >= 0 by {
        if k == 0 {
            assert(seq![c].take(0) =~= Seq::<u8>::empty());
        } else {
            assert(seq![c].take(1) =~= seq![c]);
        }
    }
}

/// Scanning through a stretch that never brings the count of open brackets
/// below one carries on past it with the count it adds.
pub proof fn lemma_bracket_walk(x: Seq<u8>, open: u8, close: u8, i: int, d: int, inner: Seq<u8>)
    requires
        0 <= i,
        i + inner.len() <= x.len(),
        x.subrange(i, i + inner.len()) == inner,
        forall|k: int| 0 <= k <= inner.len() ==> d + depth(#[trigger] inner.take(k), open, close) >= 1,
    ensures
        bracket_end(x, open, close, i, d) == bracket_end(
            x,
            open,
            close,
            i + inner.len(),
            d + depth(inner, open, close),
        ),
    decreases inner.len(),
{
    assert(inner.take(0) =~= Seq::<u8>::empty());
    if inner.len() == 0 {
        assert(inner =~= inner.take(0));
    } else {
        let c = inner[0];
        let rest = inner.drop_first();
        assert(x[i] == c);
        let step = if c == open {
            1int
        } else if c == close {
            -1int
        } else {
            0int
        };
        assert(inner.take(1) =~= seq![c]);
        assert(seq![c].drop_last() =~= Seq::<u8>::empty());
        assert(depth(seq![c], open, close) == step);
        assert(d + step >= 1);
        assert forall|k: int| 0 <= k <= rest.len() implies (d + step) + depth(
            #[trigger] rest.take(k),
            open,
            close,
        ) >= 1 by {
            assert(inner.take(k + 1) =~= seq![c] + rest.take(k));
            lemma_depth_concat(seq![c], rest.take(k), open, close);
        }
        assert(x.subrange(i + 1, i + 1 + rest.len()) =~= rest);
        lemma_bracket_walk(x, open, close, i + 1, d + step, rest);
        assert(inner =~= seq![c] + rest);
        lemma_depth_concat(seq![c], rest, open, close);
        if c == close && c != open {
            assert(depth(inner.take(1), open, close) == -1);
            assert(d - 1 != 0);
        }
    }
}

/// What the grammar promises: a complete type is balanced in both kinds of
/// bracket, and the scanner finds its end however the string goes on.
pub proof fn lemma_complete_type(s: Seq<u8>)
    requires
        complete_type(s),
    ensures
        balanced(s, 0x28, 0x29),
        balanced(s, 0x7B, 0x7D),
        forall|rest: Seq<u8>| #[trigger] type_len(s + rest) == Some(s.len()),
    decreases s.len(), 0int,
{
    if basic_code(s[0]) {
        lemma_single_balanced(s[0], 0x28, 0x29);
        lemma_single_balanced(s[0], 0x7B, 0x7D);
        assert(s =~= seq![s[0]]);
        assert forall|rest: Seq<u8>| #[trigger] type_len(s + rest) == Some(s.len()) by {
            assert((s + rest)[0] == s[0]);
        }
    } else if s[0] == 0x61 {
        let t = s.skip(1);
        lemma_complete_type(t);
        assert(s =~= seq![0x61u8] + t);
        lemma_single_balanced(0x61, 0x28, 0x29);
        lemma_single_balanced(0x61, 0x7B, 0x7D);
        lemma_balanced_concat(seq![0x61u8], t, 0x28, 0x29);
        lemma_balanced_concat(seq![0x61u8], t, 0x7B, 0x7D);
        assert forall|rest: Seq<u8>| #[trigger] type_len(s + rest) == Some(s.len()) by {
            assert((s + rest).drop_first() =~= t + rest);
            assert(type_len(t + rest) == Some(t.len()));
        }
    } else {
        let open = s[0];
        let close: u8 = if open == 0x28 {
            0x29
        } else {
            0x7D
        };
        let other_open: u8 = if open == 0x28 {
            0x7B
        } else {
            0x28
        };
        let other_close: u8 = if open == 0x28 {
            0x7D
        } else {
            0x29
        };
        let inner = s.subrange(1, s.len() - 1);
        if open == 0x28 {
            lemma_complete_list(inner);
        } else {
            lemma_complete_pair(inner);
        }
        assert(s =~= seq![open] + inner + seq![close]);
        lemma_balanced_wrap(inner, open, close, open, close);
        lemma_balanced_wrap(inner, open, close, other_open, other_close);
        assert forall|rest: Seq<u8>| #[trigger] type_len(s + rest) == Some(s.len()) by {
            let x = s + rest;
            assert(x[0] == open);
            assert(x.subrange(1, 1 + inner.len() as int) =~= inner);
            assert forall|k: int| 0 <= k <= inner.len() implies 1 + depth(
                #[trigger] inner.take(k),
                open,
                close,
            ) >= 1 by {
            }
            lemma_bracket_walk(x, open, close, 1, 1, inner);
            assert(x[1 + inner.len() as int] == close);
        }
    }
}

/// Complete types one after another are balanced in both kinds.
pub proof fn lemma_complete_list(s: Seq<u8>)
    requires
        complete_list(s),
    ensures
        balanced(s, 0x28, 0x29),
        balanced(s, 0x7B, 0x7D),
    decreases s.len(), 1int,
{
    if s.len() == 0 {
        assert forall|k: int| 0 <= k <= s.len() implies depth(#[trigger] s.take(k), 0x28, 0x29)
            >= 0 by {
            assert(s.take(k) =~= s);
        }
        assert forall|k: int| 0 <= k <= s.len() implies depth(#[trigger] s.take(k), 0x7B, 0x7D)
            >= 0 by {
            assert(s.take(k) =~= s);
        }
    } else {
        let n = type_len(s).unwrap() as int;
        lemma_complete_type(s.take(n));
        lemma_complete_list(s.skip(n));
        assert(s =~= s.take(n) + s.skip(n));
        lemma_balanced_concat(s.take(n), s.skip(n), 0x28, 0x29);
        lemma_balanced_concat(s.take(n), s.skip(n), 0x7B, 0x7D);
    }
}

/// Two complete types one after the other are balanced in both kinds.
pub proof fn lemma_complete_pair(s: Seq<u8>)
    requires
        complete_pair(s),
    ensures
        balanced(s, 0x28, 0x29),
        balanced(s, 0x7B, 0x7D),
    decreases s.len(), 1int,
{
    let n = type_len(s).unwrap() as int;
    lemma_complete_type(s.take(n));
    lemma_complete_type(s.skip(n));
    assert(s =~= s.take(n) + s.skip(n));
    lemma_balanced_concat(s.take(n), s.skip(n), 0x28, 0x29);
    lemma_balanced_concat(s.take(n), s.skip(n), 0x7B, 0x7D);
}

} // verus!
