//! What it means for the brackets of a program to be balanced, and for two
//! of them to belong to each other.

use vstd::prelude::*;

verus! {

/// The eight characters that stand for an operation; every other character
/// is a comment.
pub open spec fn is_command(c: char) -> bool {
    c == '>' || c == '<' || c == '+' || c == '-' || c == '[' || c == ']' || c == '.' || c == ','
}

/// The source with its comments removed.
pub open spec fn commands(source: Seq<char>) -> Seq<char> {
    source.filter(|c: char| is_command(c))
}

/// What one character adds to the nesting depth.
pub open spec fn bracket_value(c: char) -> int {
    if c == '[' {
        1
    } else if c == ']' {
        -1
    } else {
        0
    }
}

/// Opening brackets minus closing brackets.
pub open spec fn depth(cmds: Seq<char>) -> int
    decreases cmds.len(),
{
    if cmds.len() == 0 {
        0
    } else {
        depth(cmds.drop_last()) + bracket_value(cmds.last())
    }
}

/// No prefix closes more brackets than it has opened, and the whole text
/// closes all of them.
pub open spec fn balanced(cmds: Seq<char>) -> bool {
    &&& depth(cmds) == 0
    &&& forall|k: int| 0 <= k <= cmds.len() ==> depth(#[trigger] cmds.take(k)) >= 0
}

/// The `[` at `open` and the `]` at `close` enclose a balanced text, which
/// makes them partners.
pub open spec fn matched(cmds: Seq<char>, open: int, close: int) -> bool {
    &&& 0 <= open < close < cmds.len()
    &&& cmds[open] == '['
    &&& cmds[close] == ']'
    &&& balanced(cmds.subrange(open + 1, close))
}

/// One more character changes the depth by the value of that character.
pub proof fn lemma_depth_push(cmds: Seq<char>, c: char)
    ensures
        depth(cmds.push(c)) == depth(cmds) + bracket_value(c),
{
    assert(cmds.push(c).drop_last() =~= cmds);
}

/// The depth of two texts, one after the other, is the sum of their depths.
pub proof fn lemma_depth_concat(a: Seq<char>, b: Seq<char>)
    ensures
        depth(a + b) == depth(a) + depth(b),
    decreases b.len(),
{
    if b.len() == 0 {
        assert(a + b =~= a);
    } else {
        lemma_depth_concat(a, b.drop_last());
        assert((a + b).drop_last() =~= a + b.drop_last());
    }
}

/// The empty text is balanced.
pub proof fn lemma_balanced_empty()
    ensures
        balanced(Seq::<char>::empty()),
{
    let e = Seq::<char>::empty();
    assert forall|k: int| 0 <= k <= e.len() implies depth(#[trigger] e.take(k)) >= 0 by {
        assert(e.take(k) =~= e);
    }
}

/// A character that is no bracket leaves a balanced text balanced.
pub proof fn lemma_balanced_push_plain(cmds: Seq<char>, c: char)
    requires
        balanced(cmds),
        bracket_value(c) == 0,
    ensures
        balanced(cmds.push(c)),
{
    let s = cmds.push(c);
    lemma_depth_push(cmds, c);
    assert forall|k: int| 0 <= k <= s.len() implies depth(#[trigger] s.take(k)) >= 0 by {
        if k <= cmds.len() {
            assert(s.take(k) =~= cmds.take(k));
        } else {
            assert(s.take(k) =~= s);
        }
    }
}

/// Two balanced texts, one after the other, are balanced.
pub proof fn lemma_balanced_concat(a: Seq<char>, b: Seq<char>)
    requires
        balanced(a),
        balanced(b),
    ensures
        balanced(a + b),
{
    let s = a + b;
    lemma_depth_concat(a, b);
    assert forall|k: int| 0 <= k <= s.len() implies depth(#[trigger] s.take(k)) >= 0 by {
        if k <= a.len() {
            assert(s.take(k) =~= a.take(k));
        } else {
            assert(s.take(k) =~= a + b.take(k - a.len()));
            lemma_depth_concat(a, b.take(k - a.len()));
        }
    }
}

/// A balanced text inside a pair of brackets is balanced.
pub proof fn lemma_balanced_enclosed(inner: Seq<char>)
    requires
        balanced(inner),
    ensures
        balanced(seq!['['] + inner + seq![']']),
{
    let open = seq!['['];
    let s = open + inner + seq![']'];
    assert(open =~= Seq::<char>::empty().push('['));
    lemma_depth_push(Seq::<char>::empty(), '[');
    lemma_depth_concat(open, inner);
    assert(s =~= (open + inner).push(']'));
    lemma_depth_push(open + inner, ']');
    assert forall|k: int| 0 <= k <= s.len() implies depth(#[trigger] s.take(k)) >= 0 by {
        if k == 0 {
            assert(s.take(k) =~= Seq::<char>::empty());
        } else if k <= inner.len() + 1 {
            assert(s.take(k) =~= open + inner.take(k - 1));
            lemma_depth_concat(open, inner.take(k - 1));
        } else {
            assert(s.take(k) =~= s);
        }
    }
}

/// A balanced stretch followed by a matched pair is balanced up to and
/// including the closing bracket.
pub proof fn lemma_balanced_through_pair(cmds: Seq<char>, from: int, open: int, close: int)
    requires
        0 <= from <= open,
        matched(cmds, open, close),
        balanced(cmds.subrange(from, open)),
    ensures
        balanced(cmds.subrange(from, close + 1)),
{
    let inner = cmds.subrange(open + 1, close);
    lemma_balanced_enclosed(inner);
    lemma_balanced_concat(cmds.subrange(from, open), seq!['['] + inner + seq![']']);
    assert(cmds.subrange(from, close + 1) =~= cmds.subrange(from, open) + (seq!['['] + inner
        + seq![']']));
}

/// An opening bracket has at most one partner.
pub proof fn lemma_partner_of_open_is_unique(cmds: Seq<char>, open: int, a: int, b: int)
    requires
        matched(cmds, open, a),
        matched(cmds, open, b),
    ensures
        a == b,
{
    lemma_partner_of_open_not_later(cmds, open, a, b);
    lemma_partner_of_open_not_later(cmds, open, b, a);
}

proof fn lemma_partner_of_open_not_later(cmds: Seq<char>, open: int, a: int, b: int)
    requires
        matched(cmds, open, a),
        matched(cmds, open, b),
    ensures
        b <= a,
{
    if a < b {
        let short = cmds.subrange(open + 1, a);
        let long = cmds.subrange(open + 1, b);
        lemma_depth_push(short, ']');
        assert(long.take(a - open) =~= short.push(']'));
    }
}

/// A closing bracket has at most one partner.
pub proof fn lemma_partner_of_close_is_unique(cmds: Seq<char>, a: int, b: int, close: int)
    requires
        matched(cmds, a, close),
        matched(cmds, b, close),
    ensures
        a == b,
{
    lemma_partner_of_close_not_later(cmds, a, b, close);
    lemma_partner_of_close_not_later(cmds, b, a, close);
}

proof fn lemma_partner_of_close_not_later(cmds: Seq<char>, a: int, b: int, close: int)
    requires
        matched(cmds, a, close),
        matched(cmds, b, close),
    ensures
        b <= a,
{
    if a < b {
        let long = cmds.subrange(a + 1, close);
        let short = cmds.subrange(b + 1, close);
        let head = cmds.subrange(a + 1, b);
        assert(long.take(b - a - 1) =~= head);
        lemma_depth_push(head, '[');
        lemma_depth_concat(head.push('['), short);
        assert(long =~= head.push('[') + short);
    }
}

/// The depth of a stretch is what the depth grows by over it.
pub proof fn lemma_depth_of_stretch(cmds: Seq<char>, from: int, to: int)
    requires
        0 <= from <= to <= cmds.len(),
    ensures
        depth(cmds.subrange(from, to)) == depth(cmds.take(to)) - depth(cmds.take(from)),
{
    lemma_depth_concat(cmds.take(from), cmds.subrange(from, to));
    assert(cmds.take(to) =~= cmds.take(from) + cmds.subrange(from, to));
}

/// Two matched pairs do not cross: a pair that opens inside another one
/// closes inside it too.
pub proof fn lemma_pairs_do_not_cross(cmds: Seq<char>, a: int, c: int, b: int, d: int)
    requires
        matched(cmds, a, c),
        matched(cmds, b, d),
        a < b < c,
    ensures
        d < c,
{
    if d == c {
        lemma_partner_of_close_is_unique(cmds, a, b, c);
    } else if d > c {
        let outer = cmds.subrange(a + 1, c);
        let inner = cmds.subrange(b + 1, d);
        let head = cmds.subrange(a + 1, b);
        let tail = cmds.subrange(b + 1, c);
        assert(inner.take(c - b) =~= tail.push(']'));
        lemma_depth_push(tail, ']');
        assert(outer.take(b - a - 1) =~= head);
        lemma_depth_push(head, '[');
        lemma_depth_concat(head.push('['), tail);
        assert(outer =~= head.push('[') + tail);
    }
}

/// The bracket at `k` has a partner.
pub open spec fn has_partner(cmds: Seq<char>, k: int) -> bool {
    if cmds[k] == '[' {
        exists|close: int| matched(cmds, k, close)
    } else {
        exists|open: int| matched(cmds, open, k)
    }
}

/// No bracket of the text is without a partner.
pub open spec fn all_brackets_paired(cmds: Seq<char>) -> bool {
    forall|k: int|
        0 <= k < cmds.len() && bracket_value(cmds[k]) != 0 ==> #[trigger] has_partner(cmds, k)
}

proof fn lemma_find_close(cmds: Seq<char>, open: int, upto: int) -> (close: int)
    requires
        balanced(cmds),
        0 <= open < upto <= cmds.len(),
        cmds[open] == '[',
        forall|p: int| open < p <= upto ==> depth(#[trigger] cmds.take(p)) > depth(cmds.take(open)),
    ensures
        matched(cmds, open, close),
    decreases cmds.len() - upto,
{
    let base = depth(cmds.take(open));
    assert(cmds.take(cmds.len() as int) =~= cmds);
    assert(depth(cmds.take(upto)) > base);
    assert(upto < cmds.len());
    assert(cmds.take(upto + 1) =~= cmds.take(upto).push(cmds[upto]));
    lemma_depth_push(cmds.take(upto), cmds[upto]);
    if depth(cmds.take(upto + 1)) > base {
        lemma_find_close(cmds, open, upto + 1)
    } else {
        let inner = cmds.subrange(open + 1, upto);
        assert(cmds.take(open + 1) =~= cmds.take(open).push(cmds[open]));
        lemma_depth_push(cmds.take(open), cmds[open]);
        lemma_depth_of_stretch(cmds, open + 1, upto);
        assert forall|k: int| 0 <= k <= inner.len() implies depth(#[trigger] inner.take(k))
            >= 0 by {
            assert(inner.take(k) =~= cmds.subrange(open + 1, open + 1 + k));
            lemma_depth_of_stretch(cmds, open + 1, open + 1 + k);
            assert(depth(cmds.take(open + 1 + k)) > base);
        }
        upto
    }
}

proof fn lemma_find_open(cmds: Seq<char>, close: int, from: int) -> (open: int)
    requires
        balanced(cmds),
        0 <= from <= close < cmds.len(),
        cmds[close] == ']',
        forall|p: int|
            from <= p <= close ==> depth(#[trigger] cmds.take(p)) > depth(cmds.take(close + 1)),
    ensures
        matched(cmds, open, close),
    decreases from,
{
    let base = depth(cmds.take(close + 1));
    assert(base >= 0);
    assert(cmds.take(0) =~= Seq::<char>::empty());
    assert(depth(cmds.take(from)) > base);
    assert(from > 0);
    let before = from - 1;
    assert(cmds.take(from) =~= cmds.take(before).push(cmds[before]));
    lemma_depth_push(cmds.take(before), cmds[before]);
    if depth(cmds.take(before)) > base {
        lemma_find_open(cmds, close, before)
    } else {
        let inner = cmds.subrange(from, close);
        assert(cmds.take(close + 1) =~= cmds.take(close).push(cmds[close]));
        lemma_depth_push(cmds.take(close), cmds[close]);
        lemma_depth_of_stretch(cmds, from, close);
        assert forall|k: int| 0 <= k <= inner.len() implies depth(#[trigger] inner.take(k))
            >= 0 by {
            assert(inner.take(k) =~= cmds.subrange(from, from + k));
            lemma_depth_of_stretch(cmds, from, from + k);
            assert(depth(cmds.take(from + k)) > base);
        }
        before
    }
}

/// In a balanced text every bracket has a partner.
pub proof fn lemma_balanced_is_paired(cmds: Seq<char>)
    requires
        balanced(cmds),
    ensures
        all_brackets_paired(cmds),
{
    assert forall|k: int|
        0 <= k < cmds.len() && bracket_value(cmds[k]) != 0 implies #[trigger] has_partner(
        cmds,
        k,
    ) by {
        assert(cmds.take(k + 1) =~= cmds.take(k).push(cmds[k]));
        lemma_depth_push(cmds.take(k), cmds[k]);
        if cmds[k] == '[' {
            let close = lemma_find_close(cmds, k, k + 1);
            assert(matched(cmds, k, close));
        } else {
            let open = lemma_find_open(cmds, k, k);
            assert(matched(cmds, open, k));
        }
    }
}

/// A pair of the text that closes before `n` is a pair of the first `n`
/// commands too.
proof fn lemma_pair_of_prefix(cmds: Seq<char>, n: int, open: int, close: int)
    requires
        matched(cmds, open, close),
        close < n <= cmds.len(),
    ensures
        matched(cmds.take(n), open, close),
{
    assert(cmds.take(n).subrange(open + 1, close) =~= cmds.subrange(open + 1, close));
}

/// Where every bracket has a partner and the last command is no bracket,
/// every bracket before it has its partner before it.
proof fn lemma_paired_without_plain_end(cmds: Seq<char>)
    requires
        all_brackets_paired(cmds),
        cmds.len() > 0,
        bracket_value(cmds.last()) == 0,
    ensures
        all_brackets_paired(cmds.drop_last()),
{
    let n = cmds.len() - 1;
    let init = cmds.drop_last();
    assert(cmds.take(n) =~= init);
    assert forall|k: int|
        0 <= k < init.len() && bracket_value(init[k]) != 0 implies #[trigger] has_partner(
        init,
        k,
    ) by {
        assert(bracket_value(cmds[k]) != 0);
        assert(has_partner(cmds, k));
        if cmds[k] == '[' {
            let close = choose|close: int| matched(cmds, k, close);
            lemma_pair_of_prefix(cmds, n, k, close);
        } else {
            let partner = choose|partner: int| matched(cmds, partner, k);
            lemma_pair_of_prefix(cmds, n, partner, k);
        }
    }
}

/// Where every bracket has a partner, every bracket before a matched pair
/// that ends the text has its partner before that pair.
proof fn lemma_paired_before_last_pair(cmds: Seq<char>, open: int)
    requires
        all_brackets_paired(cmds),
        matched(cmds, open, cmds.len() - 1),
    ensures
        all_brackets_paired(cmds.take(open)),
{
    let n = cmds.len() - 1;
    let head = cmds.take(open);
    assert forall|k: int|
        0 <= k < head.len() && bracket_value(head[k]) != 0 implies #[trigger] has_partner(
        head,
        k,
    ) by {
        assert(bracket_value(cmds[k]) != 0);
        assert(has_partner(cmds, k));
        if cmds[k] == '[' {
            let close = choose|close: int| matched(cmds, k, close);
            if close == n {
                lemma_partner_of_close_is_unique(cmds, k, open, n);
            } else if close > open {
                lemma_pairs_do_not_cross(cmds, k, close, open, n);
            }
            lemma_pair_of_prefix(cmds, open, k, close);
        } else {
            let partner = choose|partner: int| matched(cmds, partner, k);
            lemma_pair_of_prefix(cmds, open, partner, k);
        }
    }
}

/// A text in which every bracket has a partner is balanced.
pub proof fn lemma_paired_is_balanced(cmds: Seq<char>)
    requires
        all_brackets_paired(cmds),
    ensures
        balanced(cmds),
    decreases cmds.len(),
{
    if cmds.len() == 0 {
        lemma_balanced_empty();
        assert(cmds =~= Seq::<char>::empty());
    } else {
        let n = cmds.len() - 1;
        let last = cmds[n];
        if last == '[' {
            assert(has_partner(cmds, n));
        } else if last == ']' {
            assert(has_partner(cmds, n));
            let open = choose|open: int| matched(cmds, open, n);
            lemma_paired_before_last_pair(cmds, open);
            lemma_paired_is_balanced(cmds.take(open));
            lemma_balanced_through_pair(cmds, 0, open, n);
            assert(cmds.subrange(0, n + 1) =~= cmds);
        } else {
            let init = cmds.drop_last();
            lemma_paired_without_plain_end(cmds);
            lemma_paired_is_balanced(init);
            lemma_balanced_push_plain(init, last);
            assert(init.push(last) =~= cmds);
        }
    }
}

/// The brackets of a text are balanced exactly when each of them has a
/// partner: a text with a `]` that closes nothing, or with a `[` that is
/// never closed, is not balanced, and a text that is not balanced has such
/// a bracket.
pub proof fn lemma_balanced_means_paired(cmds: Seq<char>)
    ensures
        balanced(cmds) <==> all_brackets_paired(cmds),
{
    if balanced(cmds) {
        lemma_balanced_is_paired(cmds);
    }
    if all_brackets_paired(cmds) {
        lemma_paired_is_balanced(cmds);
    }
}

/// The commands of a prefix of the source are a prefix of the commands of
/// the whole source.
pub proof fn lemma_commands_of_prefix(source: Seq<char>, i: int)
    requires
        0 <= i <= source.len(),
    ensures
        commands(source.take(i)).len() <= commands(source).len(),
        commands(source).take(commands(source.take(i)).len() as int) == commands(source.take(i)),
{
    let p = |c: char| is_command(c);
    Seq::filter_distributes_over_add(source.take(i), source.skip(i), p);
    assert(source.take(i) + source.skip(i) =~= source);
    assert((commands(source.take(i)) + commands(source.skip(i))).take(
        commands(source.take(i)).len() as int,
    ) =~= commands(source.take(i)));
}

/// Reading one more character of the source adds it to the commands exactly
/// when it is one.
pub proof fn lemma_commands_step(source: Seq<char>, i: int)
    requires
        0 <= i < source.len(),
    ensures
        commands(source.take(i + 1)) == if is_command(source[i]) {
            commands(source.take(i)).push(source[i])
        } else {
            commands(source.take(i))
        },
{
    reveal(Seq::filter);
    assert(source.take(i + 1).drop_last() =~= source.take(i));
}

} // verus!
