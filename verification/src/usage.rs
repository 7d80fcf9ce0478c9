//! Cell usage statistics: how many instances each gate has, most used first.
use vstd::prelude::*;
use safety_net::Identifier;
use crate::netlist::{copy_identifier, identifier_text, identifier_to_string, same_identifier};
use crate::text::{decimal, push_decimal, push_text, text_of};

verus! {

/// `h` after counting one more `x`: the entry of `x` goes up by one, or a new
/// entry `(x, 1)` comes last.
pub open spec fn bump(h: Seq<(Identifier, nat)>, x: Identifier) -> Seq<(Identifier, nat)>
    decreases h.len(),
{
    if h.len() == 0 {
        seq![(x, 1nat)]
    } else if h[0].0 == x {
        h.update(0, (x, h[0].1 + 1))
    } else {
        seq![h[0]] + bump(h.drop_first(), x)
    }
}

/// The distinct elements of `s` in order of first appearance, each with the
/// number of times it occurs.
pub open spec fn tally(s: Seq<Identifier>) -> Seq<(Identifier, nat)>
    decreases s.len(),
{
    if s.len() == 0 {
        Seq::empty()
    } else {
        bump(tally(s.drop_last()), s.last())
    }
}

/// The entries of `h` whose count is `c`, in order.
pub open spec fn with_count(h: Seq<(Identifier, nat)>, c: nat) -> Seq<(Identifier, nat)>
    decreases h.len(),
{
    if h.len() == 0 {
        Seq::empty()
    } else {
        let rest = with_count(h.drop_last(), c);
        if h.last().1 == c {
            rest.push(h.last())
        } else {
            rest
        }
    }
}

/// The entries of `h` with a count in `lo + 1 ..= hi`, highest count first;
/// entries with equal counts keep their order in `h`.
pub open spec fn levels(h: Seq<(Identifier, nat)>, hi: nat, lo: nat) -> Seq<(Identifier, nat)>
    decreases hi,
{
    if hi <= lo {
        Seq::empty()
    } else {
        with_count(h, hi) + levels(h, (hi - 1) as nat, lo)
    }
}

/// The usage table of a list of cell kinds: each kind once with its number of
/// instances, most used first.
pub open spec fn usage_table(kinds: Seq<Identifier>) -> Seq<(Identifier, nat)> {
    levels(tally(kinds), kinds.len(), 0)
}

/// One line of the usage report.
pub open spec fn usage_line(e: (Identifier, nat)) -> Seq<char> {
    seq!['\t'] + identifier_text(e.0) + seq![':', '\t'] + decimal(e.1) + seq!['\n']
}

/// The lines of the usage report for a table.
pub open spec fn usage_lines(t: Seq<(Identifier, nat)>) -> Seq<char>
    decreases t.len(),
{
    if t.len() == 0 {
        Seq::empty()
    } else {
        usage_lines(t.drop_last()) + usage_line(t.last())
    }
}

/// The sum of the counts of a table.
pub open spec fn total_count(t: Seq<(Identifier, nat)>) -> nat
    decreases t.len(),
{
    if t.len() == 0 {
        0
    } else {
        total_count(t.drop_last()) + t.last().1
    }
}

/// The text `Cell Usage:`, then a line per cell kind, then the total.
pub open spec fn usage_report(kinds: Seq<Identifier>) -> Seq<char> {
    "Cell Usage:\n"@ + usage_lines(usage_table(kinds)) + "\n\tTotal:\t"@ + decimal(kinds.len())
        + "\n"@
}

// ---------------------------------------------------------------------------
// Lemmas about counting.
proof fn lemma_bump_found(h: Seq<(Identifier, nat)>, x: Identifier, j: int)
    requires
        0 <= j < h.len(),
        h[j].0 == x,
        forall|k: int| 0 <= k < j ==> h[k].0 != x,
    ensures
        bump(h, x) == h.update(j, (x, h[j].1 + 1)),
    decreases h.len(),
{
    if j > 0 {
        lemma_bump_found(h.drop_first(), x, j - 1);
        assert(bump(h, x) =~= h.update(j, (x, h[j].1 + 1)));
    }
}

proof fn lemma_bump_absent(h: Seq<(Identifier, nat)>, x: Identifier)
    requires
        forall|k: int| 0 <= k < h.len() ==> h[k].0 != x,
    ensures
        bump(h, x) == h.push((x, 1nat)),
    decreases h.len(),
{
    if h.len() > 0 {
        lemma_bump_absent(h.drop_first(), x);
        assert(bump(h, x) =~= h.push((x, 1nat)));
    }
}

proof fn lemma_total_push(t: Seq<(Identifier, nat)>, e: (Identifier, nat))
    ensures
        total_count(t.push(e)) == total_count(t) + e.1,
{
    assert(t.push(e).drop_last() =~= t);
}

proof fn lemma_total_prepend(e: (Identifier, nat), t: Seq<(Identifier, nat)>)
    ensures
        total_count(seq![e] + t) == e.1 + total_count(t),
    decreases t.len(),
{
    let empty = Seq::<(Identifier, nat)>::empty();
    assert(total_count(empty) == 0);
    if t.len() == 0 {
        assert(seq![e] + t =~= seq![e]);
        assert(seq![e].drop_last() =~= empty);
    } else {
        lemma_total_prepend(e, t.drop_last());
        assert((seq![e] + t).drop_last() =~= seq![e] + t.drop_last());
        assert((seq![e] + t).last() == t.last());
    }
}

proof fn lemma_total_append(a: Seq<(Identifier, nat)>, b: Seq<(Identifier, nat)>)
    ensures
        total_count(a + b) == total_count(a) + total_count(b),
    decreases b.len(),
{
    if b.len() == 0 {
        assert(a + b =~= a);
    } else {
        lemma_total_append(a, b.drop_last());
        assert((a + b).drop_last() =~= a + b.drop_last());
    }
}

proof fn lemma_total_bump(h: Seq<(Identifier, nat)>, x: Identifier)
    ensures
        total_count(bump(h, x)) == total_count(h) + 1,
    decreases h.len(),
{
    let empty = Seq::<(Identifier, nat)>::empty();
    assert(total_count(empty) == 0);
    if h.len() == 0 {
        assert(seq![(x, 1nat)].drop_last() =~= empty);
        assert(total_count(h) == 0);
    } else if h[0].0 == x {
        assert(h =~= seq![h[0]] + h.drop_first());
        assert(h.update(0, (x, h[0].1 + 1)) =~= seq![(x, h[0].1 + 1)] + h.drop_first());
        lemma_total_prepend(h[0], h.drop_first());
        lemma_total_prepend((x, h[0].1 + 1), h.drop_first());
    } else {
        lemma_total_bump(h.drop_first(), x);
        assert(h =~= seq![h[0]] + h.drop_first());
        lemma_total_prepend(h[0], h.drop_first());
        lemma_total_prepend(h[0], bump(h.drop_first(), x));
    }
}

/// The counts of a tally add up to the length of the list.
proof fn lemma_total_tally(s: Seq<Identifier>)
    ensures
        total_count(tally(s)) == s.len(),
    decreases s.len(),
{
    if s.len() > 0 {
        lemma_total_tally(s.drop_last());
        lemma_total_bump(tally(s.drop_last()), s.last());
    }
}

proof fn lemma_counts_bounded_total(t: Seq<(Identifier, nat)>, k: int)
    requires
        0 <= k < t.len(),
    ensures
        t[k].1 <= total_count(t),
    decreases t.len(),
{
    if k < t.len() - 1 {
        lemma_counts_bounded_total(t.drop_last(), k);
    }
}

proof fn lemma_bump_positive(h: Seq<(Identifier, nat)>, x: Identifier)
    requires
        forall|k: int| 0 <= k < h.len() ==> h[k].1 >= 1,
    ensures
        forall|k: int| 0 <= k < bump(h, x).len() ==> bump(h, x)[k].1 >= 1,
    decreases h.len(),
{
    if h.len() > 0 && h[0].0 != x {
        lemma_bump_positive(h.drop_first(), x);
        let b = bump(h, x);
        assert forall|k: int| 0 <= k < b.len() implies b[k].1 >= 1 by {
            if k > 0 {
                assert(b[k] == bump(h.drop_first(), x)[k - 1]);
            }
        }
    }
}

/// Every count of a tally is at least one and at most the length of the list.
proof fn lemma_tally_counts(s: Seq<Identifier>)
    ensures
        forall|k: int|
            0 <= k < tally(s).len() ==> 1 <= #[trigger] tally(s)[k].1 <= s.len(),
    decreases s.len(),
{
    if s.len() > 0 {
        lemma_tally_counts(s.drop_last());
        lemma_bump_positive(tally(s.drop_last()), s.last());
    }
    lemma_total_tally(s);
    assert forall|k: int| 0 <= k < tally(s).len() implies 1 <= #[trigger] tally(s)[k].1 <= s.len() by {
        lemma_counts_bounded_total(tally(s), k);
    }
}

proof fn lemma_levels_step(h: Seq<(Identifier, nat)>, hi: nat, lo: nat)
    requires
        1 <= lo <= hi,
    ensures
        levels(h, hi, (lo - 1) as nat) == levels(h, hi, lo) + with_count(h, lo),
    decreases hi,
{
    if hi == lo {
        assert(levels(h, (lo - 1) as nat, (lo - 1) as nat) =~= Seq::<(Identifier, nat)>::empty());
        assert(levels(h, lo, lo) =~= Seq::<(Identifier, nat)>::empty());
        assert(levels(h, hi, (lo - 1) as nat) =~= levels(h, hi, lo) + with_count(h, lo));
    } else {
        lemma_levels_step(h, (hi - 1) as nat, lo);
        assert(levels(h, hi, (lo - 1) as nat) =~= levels(h, hi, lo) + with_count(h, lo));
    }
}

proof fn lemma_with_count_push(h: Seq<(Identifier, nat)>, c: nat, k: int)
    requires
        0 <= k < h.len(),
    ensures
        with_count(h.take(k + 1), c) == if h[k].1 == c {
            with_count(h.take(k), c).push(h[k])
        } else {
            with_count(h.take(k), c)
        },
{
    assert(h.take(k + 1).drop_last() =~= h.take(k));
}

// ---------------------------------------------------------------------------
// Laws of the usage table.
/// The counts of the usage table add up to the number of instances.
pub proof fn lemma_usage_total(kinds: Seq<Identifier>)
    ensures
        total_count(usage_table(kinds)) == kinds.len(),
{
    lemma_tally_counts(kinds);
    lemma_total_tally(kinds);
    lemma_total_levels(tally(kinds), kinds.len());
}

proof fn lemma_total_with_count_push(h: Seq<(Identifier, nat)>, e: (Identifier, nat), c: nat)
    ensures
        total_count(with_count(h.push(e), c)) == total_count(with_count(h, c)) + if e.1 == c {
            e.1
        } else {
            0
        },
{
    assert(h.push(e).drop_last() =~= h);
    if e.1 == c {
        lemma_total_push(with_count(h, c), e);
    }
}

proof fn lemma_total_levels_push(h: Seq<(Identifier, nat)>, e: (Identifier, nat), hi: nat, lo: nat)
    ensures
        total_count(levels(h.push(e), hi, lo)) == total_count(levels(h, hi, lo)) + if lo < e.1
            <= hi {
            e.1
        } else {
            0
        },
    decreases hi,
{
    if hi > lo {
        lemma_total_levels_push(h, e, (hi - 1) as nat, lo);
        lemma_total_with_count_push(h, e, hi);
        lemma_total_append(with_count(h.push(e), hi), levels(h.push(e), (hi - 1) as nat, lo));
        lemma_total_append(with_count(h, hi), levels(h, (hi - 1) as nat, lo));
    }
}

proof fn lemma_total_levels(h: Seq<(Identifier, nat)>, hi: nat)
    requires
        forall|k: int| 0 <= k < h.len() ==> 1 <= #[trigger] h[k].1 <= hi,
    ensures
        total_count(levels(h, hi, 0)) == total_count(h),
    decreases h.len(),
{
    if h.len() == 0 {
        lemma_levels_empty(h, hi, 0);
    } else {
        let p = h.drop_last();
        assert(p.push(h.last()) =~= h);
        lemma_total_levels(p, hi);
        lemma_total_levels_push(p, h.last(), hi, 0);
    }
}

proof fn lemma_with_count_empty(h: Seq<(Identifier, nat)>, c: nat)
    requires
        h.len() == 0,
    ensures
        with_count(h, c) == Seq::<(Identifier, nat)>::empty(),
{
}

proof fn lemma_levels_empty(h: Seq<(Identifier, nat)>, hi: nat, lo: nat)
    requires
        h.len() == 0,
    ensures
        total_count(levels(h, hi, lo)) == 0,
    decreases hi,
{
    if hi > lo {
        lemma_levels_empty(h, (hi - 1) as nat, lo);
        lemma_with_count_empty(h, hi);
        lemma_total_append(with_count(h, hi), levels(h, (hi - 1) as nat, lo));
    }
}

/// The number of times `x` occurs in `s`.
pub open spec fn occurrences(s: Seq<Identifier>, x: Identifier) -> nat
    decreases s.len(),
{
    if s.len() == 0 {
        0
    } else {
        occurrences(s.drop_last(), x) + if s.last() == x {
            1nat
        } else {
            0
        }
    }
}

/// Whether `e` is an entry of `t`.
pub open spec fn has_entry(t: Seq<(Identifier, nat)>, e: (Identifier, nat)) -> bool {
    exists|k: int| 0 <= k < t.len() && t[k] == e
}

/// Whether some entry of `t` has key `x`.
pub open spec fn has_key(t: Seq<(Identifier, nat)>, x: Identifier) -> bool {
    exists|k: int| 0 <= k < t.len() && t[k].0 == x
}

proof fn lemma_bump_entries(h: Seq<(Identifier, nat)>, x: Identifier, e: (Identifier, nat))
    ensures
        has_entry(bump(h, x), e) ==> (e.0 == x || has_entry(h, e)),
        has_key(bump(h, x), x),
        forall|y: Identifier| y != x && has_key(h, y) ==> has_key(bump(h, x), y),
        forall|y: Identifier| #[trigger] has_key(bump(h, x), y) ==> y == x || has_key(h, y),
    decreases h.len(),
{
    let b = bump(h, x);
    if h.len() == 0 {
        assert(b[0] == (x, 1nat));
    } else if h[0].0 == x {
        assert(b[0].0 == x);
        assert forall|y: Identifier| y != x && has_key(h, y) implies has_key(b, y) by {
            let k = choose|k: int| 0 <= k < h.len() && h[k].0 == y;
            assert(b[k].0 == y);
        }
        assert forall|y: Identifier| #[trigger] has_key(b, y) implies y == x || has_key(h, y) by {
            let k = choose|k: int| 0 <= k < b.len() && b[k].0 == y;
            if k != 0 {
                assert(h[k].0 == y);
            }
        }
        if has_entry(b, e) && e.0 != x {
            let k = choose|k: int| 0 <= k < b.len() && b[k] == e;
            assert(h[k] == e);
        }
    } else {
        let t = h.drop_first();
        lemma_bump_entries(t, x, e);
        let bt = bump(t, x);
        assert(b =~= seq![h[0]] + bt);
        let kx = choose|k: int| 0 <= k < bt.len() && bt[k].0 == x;
        assert(b[kx + 1].0 == x);
        assert forall|y: Identifier| y != x && has_key(h, y) implies has_key(b, y) by {
            let k = choose|k: int| 0 <= k < h.len() && h[k].0 == y;
            if k == 0 {
                assert(b[0].0 == y);
            } else {
                assert(t[k - 1].0 == y);
                assert(has_key(t, y));
                let j = choose|j: int| 0 <= j < bt.len() && bt[j].0 == y;
                assert(b[j + 1].0 == y);
            }
        }
        assert forall|y: Identifier| #[trigger] has_key(b, y) implies y == x || has_key(h, y) by {
            let k = choose|k: int| 0 <= k < b.len() && b[k].0 == y;
            if k == 0 {
                assert(h[0].0 == y);
            } else {
                assert(bt[k - 1].0 == y);
                assert(has_key(bt, y));
                if y != x {
                    let j = choose|j: int| 0 <= j < t.len() && t[j].0 == y;
                    assert(h[j + 1].0 == y);
                }
            }
        }
        if has_entry(b, e) && e.0 != x {
            let k = choose|k: int| 0 <= k < b.len() && b[k] == e;
            if k == 0 {
                assert(h[0] == e);
            } else {
                assert(bt[k - 1] == e);
                assert(has_entry(bt, e));
                let j = choose|j: int| 0 <= j < t.len() && t[j] == e;
                assert(h[j + 1] == e);
            }
        }
    }
}

/// Every entry of a tally counts its key in the list; every element of the
/// list has an entry.
proof fn lemma_tally_entries(s: Seq<Identifier>)
    ensures
        forall|e: (Identifier, nat)| #[trigger] has_entry(tally(s), e) ==> e.1 == occurrences(s, e.0),
        forall|k: int| 0 <= k < s.len() ==> has_key(tally(s), #[trigger] s[k]),
    decreases s.len(),
{
    if s.len() > 0 {
        let p = s.drop_last();
        let x = s.last();
        let h = tally(p);
        lemma_tally_entries(p);
        lemma_tally_distinct(p);
        assert forall|e: (Identifier, nat)| #[trigger] has_entry(tally(s), e) implies e.1 == occurrences(s, e.0) by {
            lemma_bump_entries(h, x, e);
            let k = choose|k: int| 0 <= k < tally(s).len() && tally(s)[k] == e;
            if e.0 == x {
                if has_key(h, x) {
                    let j = choose|j: int| 0 <= j < h.len() && h[j].0 == x;
                    let j0 = first_key_index(h, x);
                    lemma_first_key_index(h, x);
                    lemma_bump_found(h, x, j0);
                    assert(has_entry(h, h[j0]));
                    assert(tally(s)[j0] == (x, h[j0].1 + 1));
                    if k != j0 {
                        assert(tally(s)[k] == h[k]);
                        assert(h[k].0 == h[j0].0);
                    }
                } else {
                    lemma_bump_absent(h, x);
                    assert(occurrences(p, x) == 0) by {
                        lemma_occurrences_absent(p, x);
                    }
                    if k < h.len() {
                        assert(h[k].0 == x);
                    }
                }
            } else {
                assert(has_entry(h, e));
            }
        }
        assert forall|k: int| 0 <= k < s.len() implies has_key(tally(s), #[trigger] s[k]) by {
            let e = (x, 0nat);
            lemma_bump_entries(h, x, e);
            if k < s.len() - 1 {
                assert(p[k] == s[k]);
                assert(has_key(h, p[k]));
            }
        }
    }
}

/// The first position of key `x` in `h`.
spec fn first_key_index(h: Seq<(Identifier, nat)>, x: Identifier) -> int
    decreases h.len(),
{
    if h.len() == 0 {
        0
    } else if h[0].0 == x {
        0
    } else {
        1 + first_key_index(h.drop_first(), x)
    }
}

proof fn lemma_first_key_index(h: Seq<(Identifier, nat)>, x: Identifier)
    requires
        has_key(h, x),
    ensures
        0 <= first_key_index(h, x) < h.len(),
        h[first_key_index(h, x)].0 == x,
        forall|k: int| 0 <= k < first_key_index(h, x) ==> h[k].0 != x,
    decreases h.len(),
{
    if h[0].0 != x {
        let k = choose|k: int| 0 <= k < h.len() && h[k].0 == x;
        assert(h.drop_first()[k - 1].0 == x);
        lemma_first_key_index(h.drop_first(), x);
        assert forall|k: int| 0 <= k < first_key_index(h, x) implies h[k].0 != x by {
            if k > 0 {
                assert(h[k] == h.drop_first()[k - 1]);
            }
        }
    }
}

proof fn lemma_occurrences_absent(s: Seq<Identifier>, x: Identifier)
    requires
        forall|k: int| 0 <= k < s.len() ==> s[k] != x,
    ensures
        occurrences(s, x) == 0,
    decreases s.len(),
{
    if s.len() > 0 {
        lemma_occurrences_absent(s.drop_last(), x);
    }
}

/// No key comes twice in a tally.
proof fn lemma_tally_distinct(s: Seq<Identifier>)
    ensures
        forall|k: int, l: int|
            0 <= k < l < tally(s).len() ==> (#[trigger] tally(s)[k]).0 != (#[trigger] tally(s)[l]).0,
    decreases s.len(),
{
    if s.len() > 0 {
        let p = s.drop_last();
        let x = s.last();
        let h = tally(p);
        lemma_tally_distinct(p);
        if has_key(h, x) {
            let j0 = first_key_index(h, x);
            lemma_first_key_index(h, x);
            lemma_bump_found(h, x, j0);
        } else {
            lemma_bump_absent(h, x);
        }
    }
}

proof fn lemma_with_count_entries(h: Seq<(Identifier, nat)>, c: nat)
    ensures
        forall|e: (Identifier, nat)| #[trigger] has_entry(with_count(h, c), e) <==> (has_entry(h, e) && e.1 == c),
        forall|k: int| 0 <= k < with_count(h, c).len() ==> (#[trigger] with_count(h, c)[k]).1 == c,
    decreases h.len(),
{
    if h.len() > 0 {
        let p = h.drop_last();
        lemma_with_count_entries(p, c);
        let w = with_count(h, c);
        let wp = with_count(p, c);
        assert forall|e: (Identifier, nat)| #[trigger] has_entry(w, e) <==> (has_entry(h, e) && e.1 == c) by {
            if has_entry(w, e) {
                let k = choose|k: int| 0 <= k < w.len() && w[k] == e;
                if k < wp.len() {
                    assert(has_entry(wp, e));
                    let j = choose|j: int| 0 <= j < p.len() && p[j] == e;
                    assert(h[j] == e);
                } else {
                    assert(h[h.len() - 1] == e);
                }
            }
            if has_entry(h, e) && e.1 == c {
                let j = choose|j: int| 0 <= j < h.len() && h[j] == e;
                if j < p.len() {
                    assert(p[j] == e);
                    assert(has_entry(wp, e));
                    let k = choose|k: int| 0 <= k < wp.len() && wp[k] == e;
                    assert(w[k] == e);
                } else {
                    assert(w[w.len() - 1] == e);
                }
            }
        }
    }
}

proof fn lemma_levels_entries(h: Seq<(Identifier, nat)>, hi: nat, lo: nat)
    ensures
        forall|e: (Identifier, nat)| #[trigger] has_entry(levels(h, hi, lo), e) <==> (has_entry(h, e) && lo < e.1 <= hi),
        forall|a: int, b: int|
            0 <= a < b < levels(h, hi, lo).len() ==> (#[trigger] levels(h, hi, lo)[a]).1 >= (
            #[trigger] levels(h, hi, lo)[b]).1,
        forall|a: int| 0 <= a < levels(h, hi, lo).len() ==> lo < (#[trigger] levels(h, hi, lo)[a]).1 <= hi,
    decreases hi,
{
    if hi > lo {
        let w = with_count(h, hi);
        let r = levels(h, (hi - 1) as nat, lo);
        let l = levels(h, hi, lo);
        lemma_with_count_entries(h, hi);
        lemma_levels_entries(h, (hi - 1) as nat, lo);
        assert(l == w + r);
        assert forall|e: (Identifier, nat)| #[trigger] has_entry(l, e) <==> (has_entry(h, e) && lo < e.1 <= hi) by {
            if has_entry(l, e) {
                let k = choose|k: int| 0 <= k < l.len() && l[k] == e;
                if k < w.len() {
                    assert(w[k] == e);
                    assert(has_entry(w, e));
                } else {
                    assert(r[k - w.len()] == e);
                    assert(has_entry(r, e));
                }
            }
            if has_entry(h, e) && lo < e.1 <= hi {
                if e.1 == hi {
                    assert(has_entry(w, e));
                    let k = choose|k: int| 0 <= k < w.len() && w[k] == e;
                    assert(l[k] == e);
                } else {
                    assert(has_entry(r, e));
                    let k = choose|k: int| 0 <= k < r.len() && r[k] == e;
                    assert(l[k + w.len()] == e);
                }
            }
        }
        assert forall|a: int| 0 <= a < l.len() implies lo < (#[trigger] l[a]).1 <= hi by {
            if a < w.len() {
                assert(l[a] == w[a]);
            } else {
                assert(l[a] == r[a - w.len()]);
            }
        }
        assert forall|a: int, b: int| 0 <= a < b < l.len() implies (#[trigger] l[a]).1 >= (#[trigger] l[b]).1 by {
            if a < w.len() {
                assert(l[a] == w[a]);
                if b < w.len() {
                    assert(l[b] == w[b]);
                } else {
                    assert(l[b] == r[b - w.len()]);
                }
            } else {
                assert(l[a] == r[a - w.len()]);
                assert(l[b] == r[b - w.len()]);
            }
        }
    } else {
        assert forall|e: (Identifier, nat)| #[trigger] has_entry(levels(h, hi, lo), e) <==> (has_entry(h, e) && lo < e.1 <= hi) by {
            assert(levels(h, hi, lo).len() == 0);
        }
    }
}

proof fn lemma_with_count_unique(h: Seq<(Identifier, nat)>, c: nat)
    requires
        h.no_duplicates(),
    ensures
        with_count(h, c).no_duplicates(),
    decreases h.len(),
{
    if h.len() > 0 {
        let p = h.drop_last();
        assert(p.no_duplicates()) by {
            assert forall|i: int, j: int| 0 <= i < p.len() && 0 <= j < p.len() && i != j implies p[i] != p[j] by {
                assert(p[i] == h[i] && p[j] == h[j]);
            }
        }
        lemma_with_count_unique(p, c);
        lemma_with_count_entries(p, c);
        let wp = with_count(p, c);
        if h.last().1 == c {
            assert(!has_entry(p, h.last())) by {
                if has_entry(p, h.last()) {
                    let j = choose|j: int| 0 <= j < p.len() && p[j] == h.last();
                    assert(h[j] == h[h.len() - 1]);
                }
            }
            assert(!has_entry(wp, h.last()));
            let w = wp.push(h.last());
            assert forall|i: int, j: int| 0 <= i < w.len() && 0 <= j < w.len() && i != j implies w[i] != w[j] by {
                if i < wp.len() && j < wp.len() {
                } else if i < wp.len() {
                    assert(w[i] == wp[i]);
                } else {
                    assert(w[j] == wp[j]);
                }
            }
        }
    }
}

proof fn lemma_levels_unique(h: Seq<(Identifier, nat)>, hi: nat, lo: nat)
    requires
        h.no_duplicates(),
    ensures
        levels(h, hi, lo).no_duplicates(),
    decreases hi,
{
    if hi > lo {
        let w = with_count(h, hi);
        let r = levels(h, (hi - 1) as nat, lo);
        lemma_with_count_unique(h, hi);
        lemma_with_count_entries(h, hi);
        lemma_levels_unique(h, (hi - 1) as nat, lo);
        lemma_levels_entries(h, (hi - 1) as nat, lo);
        let l = w + r;
        assert forall|i: int, j: int| 0 <= i < l.len() && 0 <= j < l.len() && i != j implies l[i] != l[j] by {
            if i < w.len() && j >= w.len() {
                assert(l[i].1 == hi);
                assert(l[j] == r[j - w.len()]);
            } else if j < w.len() && i >= w.len() {
                assert(l[j].1 == hi);
                assert(l[i] == r[i - w.len()]);
            } else if i >= w.len() {
                assert(l[i] == r[i - w.len()] && l[j] == r[j - w.len()]);
            }
        }
        assert(levels(h, hi, lo) == l);
    }
}

/// No cell kind has two lines in the usage table.
pub proof fn lemma_usage_distinct(kinds: Seq<Identifier>)
    ensures
        forall|a: int, b: int|
            0 <= a < b < usage_table(kinds).len() ==> (#[trigger] usage_table(kinds)[a]).0 != (
            #[trigger] usage_table(kinds)[b]).0,
{
    let h = tally(kinds);
    let t = usage_table(kinds);
    lemma_tally_distinct(kinds);
    assert(h.no_duplicates()) by {
        assert forall|i: int, j: int| 0 <= i < h.len() && 0 <= j < h.len() && i != j implies h[i] != h[j] by {
            if i < j {
                assert(h[i].0 != h[j].0);
            } else {
                assert(h[j].0 != h[i].0);
            }
        }
    }
    lemma_levels_unique(h, kinds.len(), 0);
    lemma_levels_entries(h, kinds.len(), 0);
    assert forall|a: int, b: int| 0 <= a < b < t.len() implies (#[trigger] t[a]).0 != (#[trigger] t[b]).0 by {
        if t[a].0 == t[b].0 {
            assert(has_entry(t, t[a]) && has_entry(t, t[b]));
            let i = choose|i: int| 0 <= i < h.len() && h[i] == t[a];
            let j = choose|j: int| 0 <= j < h.len() && h[j] == t[b];
            if i != j {
                if i < j {
                    assert(h[i].0 != h[j].0);
                } else {
                    assert(h[j].0 != h[i].0);
                }
            }
            assert(t[a] == t[b]);
        }
    }
}

/// The usage table lists its cell kinds from the most used to the least used.
pub proof fn lemma_usage_sorted(kinds: Seq<Identifier>)
    ensures
        forall|a: int, b: int|
            0 <= a < b < usage_table(kinds).len() ==> (#[trigger] usage_table(kinds)[a]).1 >= (
            #[trigger] usage_table(kinds)[b]).1,
{
    lemma_levels_entries(tally(kinds), kinds.len(), 0);
}

/// Every line of the usage table gives a cell kind with the number of its
/// instances, at least one; every cell kind of the netlist has a line.
pub proof fn lemma_usage_counts(kinds: Seq<Identifier>)
    ensures
        forall|a: int|
            0 <= a < usage_table(kinds).len() ==> (#[trigger] usage_table(kinds)[a]).1 == occurrences(
                kinds,
                usage_table(kinds)[a].0,
            ) && usage_table(kinds)[a].1 >= 1,
        forall|k: int| 0 <= k < kinds.len() ==> has_key(usage_table(kinds), #[trigger] kinds[k]),
{
    let h = tally(kinds);
    let t = usage_table(kinds);
    lemma_levels_entries(h, kinds.len(), 0);
    lemma_tally_entries(kinds);
    lemma_tally_counts(kinds);
    assert forall|a: int| 0 <= a < t.len() implies (#[trigger] t[a]).1 == occurrences(kinds, t[a].0) && t[a].1 >= 1 by {
        assert(has_entry(t, t[a]));
        assert(has_entry(h, t[a]));
    }
    assert forall|k: int| 0 <= k < kinds.len() implies has_key(t, #[trigger] kinds[k]) by {
        assert(has_key(h, kinds[k]));
        let j = choose|j: int| 0 <= j < h.len() && h[j].0 == kinds[k];
        assert(1 <= h[j].1 <= kinds.len());
        assert(has_entry(h, h[j]));
        assert(has_entry(t, h[j]));
        let a = choose|a: int| 0 <= a < t.len() && t[a] == h[j];
        assert(t[a].0 == kinds[k]);
    }
}

// ---------------------------------------------------------------------------
// Executable counting, ranking and rendering.
/// The distinct kinds in order of first appearance, each with its count.
fn count_kinds(kinds: &Vec<Identifier>) -> (h: Vec<(Identifier, usize)>)
    ensures
        h@.map_values(|e: (Identifier, usize)| (e.0, e.1 as nat)) == tally(kinds@),
{
    let mut h: Vec<(Identifier, usize)> = Vec::new();
    let mut i: usize = 0;
    while i < kinds.len()
        invariant
            i <= kinds.len(),
            h@.map_values(|e: (Identifier, usize)| (e.0, e.1 as nat)) == tally(kinds@.take(i as int)),
        decreases kinds.len() - i,
    {
        let ghost before = h@.map_values(|e: (Identifier, usize)| (e.0, e.1 as nat));
        proof {
            lemma_tally_counts(kinds@.take(i as int));
            assert(kinds@.take(i as int + 1).drop_last() =~= kinds@.take(i as int));
        }
        let x = &kinds[i];
        let mut j: usize = 0;
        let mut found = false;
        while j < h.len()
            invariant
                j <= h.len(),
                h@.map_values(|e: (Identifier, usize)| (e.0, e.1 as nat)) == before,
                forall|k: int| 0 <= k < j ==> before[k].0 != *x,
            ensures
                j < h.len() ==> before[j as int].0 == *x,
            decreases h.len() - j,
        {
            if same_identifier(&h[j].0, x) {
                break;
            }
            j = j + 1;
        }
        if j < h.len() {
            assert(before[j as int].1 <= i);
            let entry = &h[j];
            let bumped = (copy_identifier(&entry.0), entry.1 + 1);
            h.set(j, bumped);
            proof {
                lemma_bump_found(before, *x, j as int);
                assert(h@.map_values(|e: (Identifier, usize)| (e.0, e.1 as nat)) =~= before.update(
                    j as int,
                    (*x, before[j as int].1 + 1),
                ));
            }
        } else {
            h.push((copy_identifier(x), 1));
            proof {
                lemma_bump_absent(before, *x);
                assert(h@.map_values(|e: (Identifier, usize)| (e.0, e.1 as nat)) =~= before.push(
                    (*x, 1nat),
                ));
            }
        }
        i = i + 1;
    }
    assert(kinds@.take(kinds.len() as int) =~= kinds@);
    h
}

/// The usage table of a list of cell kinds (see [`usage_table`]).
pub fn rank_kinds(kinds: &Vec<Identifier>) -> (t: Vec<(Identifier, usize)>)
    ensures
        t@.map_values(|e: (Identifier, usize)| (e.0, e.1 as nat)) == usage_table(kinds@),
{
    let h = count_kinds(kinds);
    let ghost hv = h@.map_values(|e: (Identifier, usize)| (e.0, e.1 as nat));
    let mut t: Vec<(Identifier, usize)> = Vec::new();
    let n = kinds.len();
    let mut level: usize = n;
    assert(t@.map_values(|e: (Identifier, usize)| (e.0, e.1 as nat)) =~= levels(hv, n as nat, n as nat));
    while level > 0
        invariant
            level <= n,
            n == kinds.len(),
            hv == h@.map_values(|e: (Identifier, usize)| (e.0, e.1 as nat)),
            hv == tally(kinds@),
            t@.map_values(|e: (Identifier, usize)| (e.0, e.1 as nat)) == levels(hv, n as nat, level as nat),
        decreases level,
    {
        let ghost start = t@.map_values(|e: (Identifier, usize)| (e.0, e.1 as nat));
        let mut k: usize = 0;
        while k < h.len()
            invariant
                k <= h.len(),
                hv == h@.map_values(|e: (Identifier, usize)| (e.0, e.1 as nat)),
                t@.map_values(|e: (Identifier, usize)| (e.0, e.1 as nat)) == start + with_count(
                    hv.take(k as int),
                    level as nat,
                ),
            decreases h.len() - k,
        {
            proof {
                lemma_with_count_push(hv, level as nat, k as int);
            }
            if h[k].1 == level {
                let e = (copy_identifier(&h[k].0), h[k].1);
                let ghost tv_old = t@.map_values(|e: (Identifier, usize)| (e.0, e.1 as nat));
                t.push(e);
                assert(t@.map_values(|e: (Identifier, usize)| (e.0, e.1 as nat)) =~= tv_old.push(hv[k as int]));
                assert(t@.map_values(|e: (Identifier, usize)| (e.0, e.1 as nat)) =~= start + with_count(
                    hv.take(k as int + 1),
                    level as nat,
                ));
            }
            k = k + 1;
        }
        assert(hv.take(h.len() as int) =~= hv);
        proof {
            lemma_levels_step(hv, n as nat, level as nat);
        }
        level = level - 1;
    }
    t
}

/// The usage report of a list of cell kinds (see [`usage_report`]).
pub fn usage_text(kinds: &Vec<Identifier>) -> (s: String)
    ensures
        s@ == usage_report(kinds@),
{
    let t = rank_kinds(kinds);
    let ghost tv = t@.map_values(|e: (Identifier, usize)| (e.0, e.1 as nat));
    proof {
        lemma_usage_total(kinds@);
    }
    let mut res = String::new();
    let mut total: usize = 0;
    let mut k: usize = 0;
    while k < t.len()
        invariant
            k <= t.len(),
            tv == t@.map_values(|e: (Identifier, usize)| (e.0, e.1 as nat)),
            total_count(tv) == kinds.len(),
            total == total_count(tv.take(k as int)),
            res@ == usage_lines(tv.take(k as int)),
        decreases t.len() - k,
    {
        proof {
            assert(tv.take(k as int + 1).drop_last() =~= tv.take(k as int));
            assert(tv =~= tv.take(k as int + 1) + tv.skip(k as int + 1));
            lemma_total_append(tv.take(k as int + 1), tv.skip(k as int + 1));
        }
        push_text(&mut res, "\t");
        let name = identifier_to_string(&t[k].0);
        push_text(&mut res, name.as_str());
        push_text(&mut res, ":\t");
        push_decimal(&mut res, t[k].1);
        push_text(&mut res, "\n");
        total = total + t[k].1;
        proof {
            reveal_strlit("\t");
            reveal_strlit(":\t");
            reveal_strlit("\n");
            assert(res@ =~= usage_lines(tv.take(k as int + 1)));
        }
        k = k + 1;
    }
    assert(tv.take(t.len() as int) =~= tv);
    push_text(&mut res, "\n\tTotal:\t");
    push_decimal(&mut res, total);
    push_text(&mut res, "\n");
    let mut out = text_of("Cell Usage:\n");
    push_text(&mut out, res.as_str());
    assert(out@ =~= usage_report(kinds@));
    out
}

} // verus!
