//! The edit buffer: a text that lists the items one directive per line, for
//! the user to reorder or drop lines in an editor, and its reading back.
use vstd::prelude::*;

use crate::store::{items_wf, TodoItem, TodoList};
use crate::text::{
    append_decimal, chars_of, dec_digits, find_ws, find_ws_in, is_ws, lemma_dec_round_trip,
    lemma_find_ws_at, lemma_skip_ws_at, ordinal_in, parse_ordinal, range_is, skip_ws, skip_ws_in,
    trim_bounds, trim_left, trim_right, trimmed, unsigned_value,
};

verus! {

/// The lines of `s`: the pieces between newline characters (one more than there
/// are newlines).
pub open spec fn split_lines(s: Seq<char>) -> Seq<Seq<char>>
    decreases s.len(),
{
    if s.len() == 0 {
        seq![Seq::empty()]
    } else {
        let p = split_lines(s.drop_last());
        if s.last() == '\n' {
            p.push(Seq::empty())
        } else {
            p.update(p.len() - 1, p.last().push(s.last()))
        }
    }
}

/// A drop verb: `drop` or `d`.
pub open spec fn is_drop_verb(v: Seq<char>) -> bool {
    v == seq!['d', 'r', 'o', 'p'] || v == seq!['d']
}

/// Applying lines keeps the kept positions distinct and below `n`.
pub proof fn lemma_apply_lines_distinct(kept: Seq<nat>, lines: Seq<Seq<char>>, n: nat)
    requires
        kept.no_duplicates(),
        forall|i: int| 0 <= i < kept.len() ==> #[trigger] kept[i] < n,
    ensures
        apply_lines(kept, lines, n).no_duplicates(),
        forall|i: int|
            0 <= i < apply_lines(kept, lines, n).len() ==> #[trigger] apply_lines(kept, lines, n)[i]
                < n,
    decreases lines.len(),
{
    if lines.len() > 0 {
        lemma_apply_lines_distinct(kept, lines.drop_last(), n);
        let prev = apply_lines(kept, lines.drop_last(), n);
        match directive(lines.last(), n) {
            Some((true, k)) => {
                if !prev.contains(k) {
                    let next = prev.push(k);
                    assert forall|a: int, b: int|
                        0 <= a < next.len() && 0 <= b < next.len() && a != b implies next[a]
                        != next[b] by {
                        if a == prev.len() as int {
                            assert(!prev.contains(k));
                            assert(next[b] == prev[b]);
                        } else if b == prev.len() as int {
                            assert(next[a] == prev[a]);
                        }
                    }
                }
            },
            _ => {},
        }
    }
}

/// Reading an edit buffer back keeps unique hashes and descriptions.
pub proof fn lemma_edit_result_wf(content: Seq<char>, items: Seq<TodoItem>)
    requires
        items_wf(items),
    ensures
        items_wf(edit_result(content, items)),
{
    let picks = edit_picks(content, items.len());
    lemma_apply_lines_distinct(Seq::empty(), split_lines(content), items.len());
    let r = edit_result(content, items);
    assert forall|i: int, j: int|
        0 <= i < r.len() && 0 <= j < r.len() && i != j implies #[trigger] r[i].hash@
        != #[trigger] r[j].hash@ by {
        assert(picks[i] != picks[j]);
        assert(r[i] == items[picks[i] as int]);
        assert(r[j] == items[picks[j] as int]);
    }
    assert forall|i: int| 0 <= i < r.len() implies #[trigger] r[i].desc@.len() > 0 by {
        assert(r[i] == items[picks[i] as int]);
    }
}

/// What one line of the buffer says, among `n` items: whether to keep the item,
/// and its position counted from zero. The trimmed line is read as fields
/// separated by runs of white space: a verb, a position, then anything. Blank
/// lines, comment lines, lines with fewer than two fields and lines whose second
/// field is not a position in `1..=n` say nothing.
pub open spec fn directive(line: Seq<char>, n: nat) -> Option<(bool, nat)> {
    let t = trimmed(line);
    if t.len() == 0 || t[0] == '#' {
        None
    } else {
        let p = find_ws(t);
        if p >= t.len() {
            None
        } else {
            let rest = t.skip(p as int);
            let field = rest.skip(skip_ws(rest) as int);
            match ordinal_in(field.take(find_ws(field) as int), n) {
                Some(k) => Some((!is_drop_verb(t.take(p as int)), k)),
                None => None,
            }
        }
    }
}

/// The positions kept after one more line: a kept position is added once only.
pub open spec fn apply_line(kept: Seq<nat>, line: Seq<char>, n: nat) -> Seq<nat> {
    match directive(line, n) {
        Some((true, k)) => if kept.contains(k) {
            kept
        } else {
            kept.push(k)
        },
        _ => kept,
    }
}

/// The positions kept after `lines`, in order, starting from `kept`.
pub open spec fn apply_lines(kept: Seq<nat>, lines: Seq<Seq<char>>, n: nat) -> Seq<nat>
    decreases lines.len(),
{
    if lines.len() == 0 {
        kept
    } else {
        apply_line(apply_lines(kept, lines.drop_last(), n), lines.last(), n)
    }
}

/// The positions, in order, that the buffer `content` keeps among `n` items.
pub open spec fn edit_picks(content: Seq<char>, n: nat) -> Seq<nat> {
    apply_lines(Seq::empty(), split_lines(content), n)
}

/// The items that the buffer `content` keeps, in the order of its lines.
pub open spec fn edit_result(content: Seq<char>, items: Seq<TodoItem>) -> Seq<TodoItem> {
    edit_picks(content, items.len()).map_values(|k: nat| items[k as int])
}

/// `split_lines` gives at least one line.
pub proof fn lemma_split_lines_len(s: Seq<char>)
    ensures
        split_lines(s).len() >= 1,
    decreases s.len(),
{
    if s.len() > 0 {
        lemma_split_lines_len(s.drop_last());
    }
}

/// What the line `v[a..b]` says among `n` items.
fn line_directive(v: &Vec<char>, a: usize, b: usize, n: usize) -> (r: Option<(bool, usize)>)
    requires
        a <= b <= v.len(),
    ensures
        r matches Some(d) ==> directive(v@.subrange(a as int, b as int), n as nat) == Some(
            (d.0, d.1 as nat),
        ),
        r is None ==> directive(v@.subrange(a as int, b as int), n as nat) is None,
{
    let ghost line = v@.subrange(a as int, b as int);
    let (lo, hi) = trim_bounds(v, a, b);
    let ghost t = v@.subrange(lo as int, hi as int);
    assert(t == trimmed(line));
    if lo == hi || v[lo] == '#' {
        return None;
    }
    let p = find_ws_in(v, lo, hi);
    if p >= hi {
        return None;
    }
    let q = skip_ws_in(v, p, hi);
    let e = find_ws_in(v, q, hi);
    let ghost rest = t.skip(p - lo);
    assert(rest =~= v@.subrange(p as int, hi as int));
    let ghost field = rest.skip(q - p);
    assert(field =~= v@.subrange(q as int, hi as int));
    assert(field.take(e - q) =~= v@.subrange(q as int, e as int));
    assert(t.take(p - lo) =~= v@.subrange(lo as int, p as int));
    match parse_ordinal(v, q, e, n) {
        Some(k) => {
            proof {
                reveal_strlit("drop");
                reveal_strlit("d");
                assert("drop"@ =~= seq!['d', 'r', 'o', 'p']);
                assert("d"@ =~= seq!['d']);
            }
            let drop = range_is(v, lo, p, "drop") || range_is(v, lo, p, "d");
            Some((!drop, k))
        },
        None => None,
    }
}

/// Replaces the items of `list` by those that the edited buffer `content` keeps.
pub fn apply_edit(list: &mut TodoList, content: &str)
    requires
        old(list).wf(),
    ensures
        final(list).wf(),
        final(list)@ == edit_result(content@, old(list)@),
{
    let items = parse_edit_commands(content, list.items().as_slice());
    proof {
        lemma_edit_result_wf(content@, list@);
    }
    list.replace_items(items);
}

/// Tells whether `k` is among `kept`.
fn holds(kept: &Vec<usize>, k: usize) -> (r: bool)
    ensures
        r == kept@.map_values(|x: usize| x as nat).contains(k as nat),
{
    let ghost kv = kept@.map_values(|x: usize| x as nat);
    let mut i: usize = 0;
    while i < kept.len()
        invariant
            i <= kept.len(),
            kv == kept@.map_values(|x: usize| x as nat),
            forall|m: int| 0 <= m < i ==> kv[m] != k as nat,
        decreases kept.len() - i,
    {
        if kept[i] == k {
            assert(kv[i as int] == k as nat);
            return true;
        }
        i = i + 1;
    }
    false
}

/// Applies the line `v[a..b]` to the kept positions.
fn apply_one(kept: &mut Vec<usize>, v: &Vec<char>, a: usize, b: usize, n: usize)
    requires
        a <= b <= v.len(),
        forall|m: int| 0 <= m < old(kept)@.len() ==> #[trigger] old(kept)@[m] < n,
    ensures
        final(kept)@.map_values(|x: usize| x as nat) == apply_line(
            old(kept)@.map_values(|x: usize| x as nat),
            v@.subrange(a as int, b as int),
            n as nat,
        ),
        forall|m: int| 0 <= m < final(kept)@.len() ==> #[trigger] final(kept)@[m] < n,
{
    match line_directive(v, a, b, n) {
        Some((true, k)) => {
            if !holds(kept, k) {
                let ghost before = kept@;
                kept.push(k);
                assert(kept@.map_values(|x: usize| x as nat) =~= before.map_values(
                    |x: usize| x as nat,
                ).push(k as nat));
            }
        },
        _ => {},
    }
}

/// The items that the edited buffer `content` keeps, in the order of its lines:
/// `pick N` (or `p N`, or any verb but `drop` and `d`; the fields of a line are
/// separated by runs of white space) keeps the `N`-th of
/// `original_items`, `drop N` (or `d N`) leaves it out. Lines that say nothing
/// are skipped, and a position named again after it was kept is kept once.
pub fn parse_edit_commands(content: &str, original_items: &[TodoItem]) -> (r: Vec<TodoItem>)
    ensures
        r@ == edit_result(content@, original_items@),
{
    let v = chars_of(content);
    let n = original_items.len();
    let mut kept: Vec<usize> = Vec::new();
    let ghost mut done: Seq<Seq<char>> = Seq::empty();
    let mut start: usize = 0;
    let mut i: usize = 0;
    assert(v@.take(0) =~= Seq::<char>::empty());
    assert(kept@.map_values(|x: usize| x as nat) =~= Seq::<nat>::empty());
    while i < v.len()
        invariant
            start <= i <= v.len(),
            v@ == content@,
            n == original_items@.len(),
            split_lines(v@.take(i as int)) == done.push(v@.subrange(start as int, i as int)),
            kept@.map_values(|x: usize| x as nat) == apply_lines(Seq::empty(), done, n as nat),
            forall|m: int| 0 <= m < kept@.len() ==> #[trigger] kept@[m] < n,
        decreases v.len() - i,
    {
        assert(v@.take(i + 1).drop_last() =~= v@.take(i as int));
        if v[i] == '\n' {
            apply_one(&mut kept, &v, start, i, n);
            proof {
                let line = v@.subrange(start as int, i as int);
                assert(done.push(line).drop_last() =~= done);
                done = done.push(line);
                assert(v@.subrange(i + 1, i + 1) =~= Seq::<char>::empty());
            }
            start = i + 1;
        } else {
            assert(v@.subrange(start as int, i + 1) =~= v@.subrange(start as int, i as int).push(v@[i as int]));
        }
        i = i + 1;
    }
    assert(v@.take(v.len() as int) =~= v@);
    apply_one(&mut kept, &v, start, v.len(), n);
    proof {
        let line = v@.subrange(start as int, v.len() as int);
        assert(done.push(line).drop_last() =~= done);
    }
    let mut r: Vec<TodoItem> = Vec::new();
    let mut k: usize = 0;
    let ghost kv = kept@.map_values(|x: usize| x as nat);
    while k < kept.len()
        invariant
            k <= kept.len(),
            n == original_items@.len(),
            kv == kept@.map_values(|x: usize| x as nat),
            forall|m: int| 0 <= m < kept@.len() ==> #[trigger] kept@[m] < n,
            r@ == kv.take(k as int).map_values(|x: nat| original_items@[x as int]),
        decreases kept.len() - k,
    {
        let ghost before = r@;
        r.push(original_items[kept[k]].clone());
        assert(kv.take(k + 1) =~= kv.take(k as int).push(kv[k as int]));
        assert(r@ =~= kv.take(k + 1).map_values(|x: nat| original_items@[x as int]));
        k = k + 1;
    }
    assert(kv.take(kept.len() as int) =~= kv);
    r
}

/// The help line `# Interactive todo editing`.
pub open spec fn help_title() -> Seq<char> {
    seq!['#', ' ', 'I', 'n', 't', 'e', 'r', 'a', 'c', 't', 'i', 'v', 'e', ' ', 't', 'o', 'd', 'o', ' ', 'e', 'd', 'i', 't', 'i', 'n', 'g']
}

/// The help line `# Commands:`.
pub open spec fn help_commands() -> Seq<char> {
    seq!['#', ' ', 'C', 'o', 'm', 'm', 'a', 'n', 'd', 's', ':']
}

/// The help line `#   pick, p <todo> = keep the todo`.
pub open spec fn help_pick() -> Seq<char> {
    seq!['#', ' ', ' ', ' ', 'p', 'i', 'c', 'k', ',', ' ', 'p', ' ', '<', 't', 'o', 'd', 'o', '>', ' ', '=', ' ', 'k', 'e', 'e', 'p', ' ', 't', 'h', 'e', ' ', 't', 'o', 'd', 'o']
}

/// The help line `#   drop, d <todo> = remove the todo`.
pub open spec fn help_drop() -> Seq<char> {
    seq!['#', ' ', ' ', ' ', 'd', 'r', 'o', 'p', ',', ' ', 'd', ' ', '<', 't', 'o', 'd', 'o', '>', ' ', '=', ' ', 'r', 'e', 'm', 'o', 'v', 'e', ' ', 't', 'h', 'e', ' ', 't', 'o', 'd', 'o']
}

/// The help line `# Lines starting with # are ignored`.
pub open spec fn help_comments() -> Seq<char> {
    seq!['#', ' ', 'L', 'i', 'n', 'e', 's', ' ', 's', 't', 'a', 'r', 't', 'i', 'n', 'g', ' ', 'w', 'i', 't', 'h', ' ', '#', ' ', 'a', 'r', 'e', ' ', 'i', 'g', 'n', 'o', 'r', 'e', 'd']
}

/// The verb that keeps an item.
pub open spec fn pick_verb() -> Seq<char> {
    seq!['p', 'i', 'c', 'k']
}

/// The verb that leaves an item out.
pub open spec fn drop_verb() -> Seq<char> {
    seq!['d', 'r', 'o', 'p']
}

/// The directive line that keeps (or drops) the item at position `k`, written
/// one-based, with description `desc`.
pub open spec fn verb_line(keep: bool, k: nat, desc: Seq<char>) -> Seq<char> {
    (if keep {
        pick_verb()
    } else {
        drop_verb()
    }) + seq![' '] + dec_digits(k + 1) + seq![' '] + desc
}

/// The lines `ls`, each ended by a newline.
pub open spec fn join_lines(ls: Seq<Seq<char>>) -> Seq<char>
    decreases ls.len(),
{
    if ls.len() == 0 {
        Seq::empty()
    } else {
        join_lines(ls.drop_last()) + ls.last().push('\n')
    }
}

/// The directive lines for the first `n` items, keeping those that `keep` marks.
pub open spec fn block_lines(items: Seq<TodoItem>, keep: Seq<bool>, n: int) -> Seq<Seq<char>>
    decreases n,
{
    if n <= 0 {
        Seq::empty()
    } else {
        block_lines(items, keep, n - 1).push(verb_line(keep[n - 1], (n - 1) as nat, items[n - 1].desc@))
    }
}

/// Every one of `n` items kept.
pub open spec fn all_picked(n: nat) -> Seq<bool> {
    Seq::new(n, |i: int| true)
}

/// The help that follows the directives: a blank line, then comment lines.
pub open spec fn edit_help() -> Seq<char> {
    seq!['\n'] + help_title().push('\n') + help_commands().push('\n') + help_pick().push('\n')
        + help_drop().push('\n') + help_comments().push('\n')
}

/// The buffer that lists `items` for editing.
pub open spec fn edit_buffer(items: Seq<TodoItem>) -> Seq<char> {
    join_lines(block_lines(items, all_picked(items.len()), items.len() as int)) + edit_help()
}

/// Writes the buffer that lists `items` for editing: `pick N description` for
/// each, then a blank line and comment lines that explain the verbs.
pub fn render_edit_buffer(items: &[TodoItem]) -> (r: String)
    ensures
        r@ == edit_buffer(items@),
{
    let mut out = String::new();
    let mut k: usize = 0;
    assert(out@ =~= join_lines(Seq::empty()));
    proof {
        reveal_strlit("pick ");
        reveal_strlit(" ");
        reveal_strlit("\n");
    }
    while k < items.len()
        invariant
            k <= items.len(),
            out@ == join_lines(block_lines(items@, all_picked(items@.len()), k as int)),
            "pick "@ == seq!['p', 'i', 'c', 'k', ' '],
            " "@ == seq![' '],
            "\n"@ == seq!['\n'],
        decreases items.len() - k,
    {
        let ghost before = out@;
        out.append("pick ");
        append_decimal(&mut out, k + 1);
        out.append(" ");
        out.append(items[k].desc.as_str());
        out.append("\n");
        let ghost bl = block_lines(items@, all_picked(items@.len()), k + 1);
        assert(bl.drop_last() == block_lines(items@, all_picked(items@.len()), k as int));
        assert(out@ =~= join_lines(bl));
        k = k + 1;
    }
    let ghost before = out@;
    out.append("\n");
    assert(out@ =~= before + seq!['\n']);
    proof {
        reveal_strlit("# Interactive todo editing\n");
    }
    let ghost before = out@;
    out.append("# Interactive todo editing\n");
    assert("# Interactive todo editing\n"@ =~= help_title().push('\n'));
    assert(out@ =~= before + help_title().push('\n'));
    proof {
        reveal_strlit("# Commands:\n");
    }
    let ghost before = out@;
    out.append("# Commands:\n");
    assert("# Commands:\n"@ =~= help_commands().push('\n'));
    assert(out@ =~= before + help_commands().push('\n'));
    proof {
        reveal_strlit("#   pick, p <todo> = keep the todo\n");
    }
    let ghost before = out@;
    out.append("#   pick, p <todo> = keep the todo\n");
    assert("#   pick, p <todo> = keep the todo\n"@ =~= help_pick().push('\n'));
    assert(out@ =~= before + help_pick().push('\n'));
    proof {
        reveal_strlit("#   drop, d <todo> = remove the todo\n");
    }
    let ghost before = out@;
    out.append("#   drop, d <todo> = remove the todo\n");
    assert("#   drop, d <todo> = remove the todo\n"@ =~= help_drop().push('\n'));
    assert(out@ =~= before + help_drop().push('\n'));
    proof {
        reveal_strlit("# Lines starting with # are ignored\n");
    }
    let ghost before = out@;
    out.append("# Lines starting with # are ignored\n");
    assert("# Lines starting with # are ignored\n"@ =~= help_comments().push('\n'));
    assert(out@ =~= before + help_comments().push('\n'));
    assert(out@ =~= edit_buffer(items@));
    out
}

/// The help lines: a blank line, then the comment lines.
pub open spec fn help_lines() -> Seq<Seq<char>> {
    seq![Seq::empty(), help_title(), help_commands(), help_pick(), help_drop(), help_comments()]
}

/// `s` holds no newline.
pub open spec fn no_newline(s: Seq<char>) -> bool {
    forall|i: int| 0 <= i < s.len() ==> #[trigger] s[i] != '\n'
}

/// The positions among the first `n` that `keep` marks, in order.
pub open spec fn kept_positions(keep: Seq<bool>, n: int) -> Seq<nat>
    decreases n,
{
    if n <= 0 {
        Seq::empty()
    } else if keep[n - 1] {
        kept_positions(keep, n - 1).push((n - 1) as nat)
    } else {
        kept_positions(keep, n - 1)
    }
}

/// The items among the first `n` that `keep` marks, in order.
pub open spec fn kept_items(items: Seq<TodoItem>, keep: Seq<bool>, n: int) -> Seq<TodoItem>
    decreases n,
{
    if n <= 0 {
        Seq::empty()
    } else if keep[n - 1] {
        kept_items(items, keep, n - 1).push(items[n - 1])
    } else {
        kept_items(items, keep, n - 1)
    }
}

proof fn lemma_split_after_newline(p: Seq<char>, q: Seq<char>)
    requires
        p.len() > 0,
        p.last() == '\n',
    ensures
        split_lines(p + q) == split_lines(p).drop_last() + split_lines(q),
    decreases q.len(),
{
    lemma_split_lines_len(p);
    if q.len() == 0 {
        assert(p + q =~= p);
        assert(p.drop_last() + Seq::<char>::empty() =~= p.drop_last());
        assert(split_lines(p).drop_last() + split_lines(q) =~= split_lines(p));
    } else {
        let q2 = q.drop_last();
        lemma_split_after_newline(p, q2);
        lemma_split_lines_len(q2);
        assert((p + q).drop_last() =~= p + q2);
        let d = split_lines(p).drop_last();
        let sq = split_lines(q2);
        if q.last() == '\n' {
            assert(split_lines(p + q) =~= d + sq.push(Seq::empty()));
        } else {
            let whole = d + sq;
            assert(whole.last() == sq.last());
            assert(whole.update(whole.len() - 1, whole.last().push(q.last())) =~= d + sq.update(
                sq.len() - 1,
                sq.last().push(q.last()),
            ));
        }
    }
}

proof fn lemma_split_single(x: Seq<char>)
    requires
        no_newline(x),
    ensures
        split_lines(x) == seq![x],
    decreases x.len(),
{
    if x.len() > 0 {
        let y = x.drop_last();
        assert(no_newline(y)) by {
            assert forall|i: int| 0 <= i < y.len() implies #[trigger] y[i] != '\n' by {
                assert(y[i] == x[i]);
            }
        }
        lemma_split_single(y);
        assert(x.last() != '\n');
        assert(y.push(x.last()) =~= x);
        assert(seq![y].update(0, y.push(x.last())) =~= seq![x]);
    } else {
        assert(x =~= Seq::<char>::empty());
    }
}

proof fn lemma_split_joined(ls: Seq<Seq<char>>, rest: Seq<char>)
    requires
        forall|i: int| 0 <= i < ls.len() ==> no_newline(#[trigger] ls[i]),
    ensures
        split_lines(join_lines(ls) + rest) == ls + split_lines(rest),
    decreases ls.len(),
{
    if ls.len() == 0 {
        assert(join_lines(ls) + rest =~= rest);
        assert(ls + split_lines(rest) =~= split_lines(rest));
    } else {
        let init = ls.drop_last();
        let l = ls.last();
        let p = l.push('\n');
        assert(no_newline(l));
        lemma_split_after_newline(p, rest);
        lemma_split_single(l);
        assert(split_lines(p) =~= seq![l].push(Seq::empty())) by {
            assert(p.drop_last() =~= l);
        }
        assert(split_lines(p).drop_last() =~= seq![l]);
        lemma_split_joined(init, p + rest);
        assert(join_lines(ls) + rest =~= join_lines(init) + (p + rest));
        assert(init + (seq![l] + split_lines(rest)) =~= ls + split_lines(rest));
    }
}

proof fn lemma_apply_concat(kept: Seq<nat>, a: Seq<Seq<char>>, b: Seq<Seq<char>>, n: nat)
    ensures
        apply_lines(kept, a + b, n) == apply_lines(apply_lines(kept, a, n), b, n),
    decreases b.len(),
{
    if b.len() == 0 {
        assert(a + b =~= a);
    } else {
        lemma_apply_concat(kept, a, b.drop_last(), n);
        assert((a + b).drop_last() =~= a + b.drop_last());
    }
}

proof fn lemma_apply_silent(kept: Seq<nat>, ls: Seq<Seq<char>>, n: nat)
    requires
        forall|i: int| 0 <= i < ls.len() ==> #[trigger] directive(ls[i], n) is None,
    ensures
        apply_lines(kept, ls, n) == kept,
    decreases ls.len(),
{
    if ls.len() > 0 {
        lemma_apply_silent(kept, ls.drop_last(), n);
        assert(directive(ls[ls.len() - 1], n) is None);
    }
}

/// Trailing white space goes, and never past a character that is not white space.
proof fn lemma_trim_right_keeps(s: Seq<char>, m: int)
    requires
        0 < m <= s.len(),
        !is_ws(s[m - 1]),
    ensures
        m <= trim_right(s).len() <= s.len(),
        trim_right(s) == s.take(trim_right(s).len() as int),
    decreases s.len(),
{
    if is_ws(s.last()) {
        let y = s.drop_last();
        assert(y[m - 1] == s[m - 1]);
        lemma_trim_right_keeps(y, m);
        assert(y.take(trim_right(y).len() as int) =~= s.take(trim_right(y).len() as int));
    } else {
        assert(s.take(s.len() as int) =~= s);
    }
}

/// A line that starts with `#`, and a blank line, say nothing.
proof fn lemma_comment_silent(h: Seq<char>, n: nat)
    requires
        h.len() == 0 || h[0] == '#',
    ensures
        directive(h, n) is None,
{
    if h.len() > 0 {
        assert(!is_ws('#'));
        assert(trim_left(h) == h);
        lemma_trim_right_keeps(h, 1);
        assert(trimmed(h)[0] == '#');
    } else {
        assert(trim_left(h) == h);
        assert(trim_right(h) == h);
    }
}

/// A directive line says what it was written to say.
proof fn lemma_verb_line_directive(keep: bool, k: nat, desc: Seq<char>, n: nat)
    requires
        k < n,
    ensures
        directive(verb_line(keep, k, desc), n) == Some((keep, k)),
{
    let verb = if keep {
        pick_verb()
    } else {
        drop_verb()
    };
    let digits = dec_digits(k + 1);
    lemma_dec_round_trip(k + 1);
    let s = verb_line(keep, k, desc);
    let vl = verb.len() as int;
    let dl = digits.len() as int;
    assert(s =~= verb + seq![' '] + digits + seq![' '] + desc);
    assert(s[0] == verb[0]);
    assert(!is_ws(s[0]));
    assert(trim_left(s) == s);
    assert(s[vl + dl] == digits[dl - 1]);
    assert(!is_ws(digits[dl - 1]));
    lemma_trim_right_keeps(s, vl + 1 + dl);
    let t = trimmed(s);
    assert(t == s.take(t.len() as int));
    assert forall|i: int| 0 <= i < vl implies !is_ws(#[trigger] t[i]) by {
        assert(t[i] == verb[i]);
    }
    assert(t[vl] == ' ');
    lemma_find_ws_at(t, vl);
    let rest = t.skip(vl);
    assert(rest[0] == ' ');
    assert(rest[1] == digits[0]);
    lemma_skip_ws_at(rest, 1);
    let field = rest.skip(1);
    assert forall|i: int| 0 <= i < dl implies !is_ws(#[trigger] field[i]) by {
        assert(field[i] == digits[i]);
    }
    if field.len() > dl {
        assert(field[dl] == ' ');
    }
    lemma_find_ws_at(field, dl);
    assert(field.take(dl) =~= digits);
    assert(t.take(vl) =~= verb);
    assert(digits[0] != '+');
    assert(unsigned_value(digits) == Some((k + 1) as nat));
    assert(is_drop_verb(verb) == !keep);
}

/// The directive lines of a block say nothing but what they were written to say.
proof fn lemma_apply_block(items: Seq<TodoItem>, keep: Seq<bool>, m: int, n: nat)
    requires
        0 <= m <= keep.len(),
        m <= n,
        m <= items.len(),
    ensures
        apply_lines(Seq::empty(), block_lines(items, keep, m), n) == kept_positions(keep, m),
        forall|i: int|
            0 <= i < kept_positions(keep, m).len() ==> #[trigger] kept_positions(keep, m)[i] < m,
    decreases m,
{
    if m > 0 {
        lemma_apply_block(items, keep, m - 1, n);
        let bl = block_lines(items, keep, m);
        assert(bl.drop_last() =~= block_lines(items, keep, m - 1));
        lemma_verb_line_directive(keep[m - 1], (m - 1) as nat, items[m - 1].desc@, n);
        let prev = kept_positions(keep, m - 1);
        if keep[m - 1] {
            assert(!prev.contains((m - 1) as nat));
        }
    }
}

proof fn lemma_kept_map(items: Seq<TodoItem>, keep: Seq<bool>, m: int)
    requires
        0 <= m <= keep.len(),
        m <= items.len(),
    ensures
        kept_positions(keep, m).map_values(|k: nat| items[k as int]) == kept_items(items, keep, m),
    decreases m,
{
    if m > 0 {
        lemma_kept_map(items, keep, m - 1);
        let p = kept_positions(keep, m - 1);
        if keep[m - 1] {
            assert(p.push((m - 1) as nat).map_values(|k: nat| items[k as int]) =~= p.map_values(
                |k: nat| items[k as int],
            ).push(items[m - 1]));
        }
    }
}

proof fn lemma_help_lines()
    ensures
        edit_help() == join_lines(help_lines()),
        forall|i: int| 0 <= i < help_lines().len() ==> no_newline(#[trigger] help_lines()[i]),
        forall|i: int|
            0 <= i < help_lines().len() ==> #[trigger] help_lines()[i].len() == 0
                || help_lines()[i][0] == '#',
{
    reveal_with_fuel(join_lines, 7);
    let h = help_lines();
    assert(h.take(1).drop_last() =~= Seq::<Seq<char>>::empty());
    assert(h.take(2).drop_last() =~= h.take(1));
    assert(h.take(3).drop_last() =~= h.take(2));
    assert(h.take(4).drop_last() =~= h.take(3));
    assert(h.take(5).drop_last() =~= h.take(4));
    assert(h.drop_last() =~= h.take(5));
    assert(edit_help() =~= join_lines(h));
    assert(no_newline(help_title()));
    assert(no_newline(help_commands()));
    assert(no_newline(help_pick()));
    assert(no_newline(help_drop()));
    assert(no_newline(help_comments()));
    assert(no_newline(Seq::<char>::empty()));
}

/// A directive line holds no newline when its description holds none.
proof fn lemma_verb_line_no_newline(keep: bool, k: nat, desc: Seq<char>)
    requires
        no_newline(desc),
    ensures
        no_newline(verb_line(keep, k, desc)),
{
    let l = verb_line(keep, k, desc);
    lemma_dec_round_trip(k + 1);
    let verb = if keep {
        pick_verb()
    } else {
        drop_verb()
    };
    let digits = dec_digits(k + 1);
    assert(l =~= verb + seq![' '] + digits + seq![' '] + desc);
    assert forall|i: int| 0 <= i < l.len() implies #[trigger] l[i] != '\n' by {
        let vl = verb.len() as int;
        let dl = digits.len() as int;
        if i < vl {
            assert(l[i] == verb[i]);
        } else if i == vl {
        } else if i < vl + 1 + dl {
            assert(l[i] == digits[i - vl - 1]);
        } else if i == vl + 1 + dl {
        } else {
            assert(l[i] == desc[i - vl - 2 - dl]);
        }
    }
}

/// Each line of a block of directive lines holds no newline when no description does.
proof fn lemma_block_no_newline(items: Seq<TodoItem>, keep: Seq<bool>, m: int)
    requires
        0 <= m <= keep.len(),
        m <= items.len(),
        forall|i: int| 0 <= i < items.len() ==> no_newline(#[trigger] items[i].desc@),
    ensures
        forall|i: int| 0 <= i < block_lines(items, keep, m).len() ==> no_newline(
            #[trigger] block_lines(items, keep, m)[i],
        ),
        block_lines(items, keep, m).len() == m,
    decreases m,
{
    if m > 0 {
        lemma_block_no_newline(items, keep, m - 1);
        assert(no_newline(items[m - 1].desc@));
        lemma_verb_line_no_newline(keep[m - 1], (m - 1) as nat, items[m - 1].desc@);
        let bl = block_lines(items, keep, m);
        assert forall|i: int| 0 <= i < bl.len() implies no_newline(#[trigger] bl[i]) by {
            if i < m - 1 {
                assert(bl[i] == block_lines(items, keep, m - 1)[i]);
            }
        }
    }
}

/// Reading back a buffer whose directive lines, in item order, keep or drop each
/// item gives the kept items in their order, every field unchanged; this holds
/// when no description spans several lines.
pub proof fn law_edit_keep_drop(items: Seq<TodoItem>, keep: Seq<bool>)
    requires
        keep.len() == items.len(),
        forall|i: int| 0 <= i < items.len() ==> no_newline(#[trigger] items[i].desc@),
    ensures
        edit_result(
            join_lines(block_lines(items, keep, items.len() as int)) + edit_help(),
            items,
        ) == kept_items(items, keep, items.len() as int),
{
    let n = items.len();
    let block = block_lines(items, keep, n as int);
    lemma_help_lines();
    lemma_block_no_newline(items, keep, n as int);
    let help = help_lines();
    lemma_split_joined(help, Seq::empty());
    assert(join_lines(help) + Seq::<char>::empty() =~= join_lines(help));
    lemma_split_joined(block, join_lines(help));
    let tail = help + split_lines(Seq::empty());
    assert(split_lines(Seq::<char>::empty()) == seq![Seq::<char>::empty()]);
    assert forall|i: int| 0 <= i < tail.len() implies #[trigger] directive(tail[i], n) is None by {
        if i < help.len() {
            lemma_comment_silent(help[i], n);
        } else {
            lemma_comment_silent(Seq::empty(), n);
        }
    }
    lemma_apply_concat(Seq::empty(), block, tail, n);
    lemma_apply_silent(apply_lines(Seq::empty(), block, n), tail, n);
    lemma_apply_block(items, keep, n as int, n);
    lemma_kept_map(items, keep, n as int);
}

/// Reading back the unedited buffer gives the items back in their order, every
/// field (the hash included) unchanged; this holds when no description spans
/// several lines.
pub proof fn law_edit_round_trip(items: Seq<TodoItem>)
    requires
        forall|i: int| 0 <= i < items.len() ==> no_newline(#[trigger] items[i].desc@),
    ensures
        edit_result(edit_buffer(items), items) == items,
{
    let keep = all_picked(items.len());
    law_edit_keep_drop(items, keep);
    lemma_kept_all(items, items.len() as int);
}

proof fn lemma_kept_all(items: Seq<TodoItem>, m: int)
    requires
        0 <= m <= items.len(),
    ensures
        kept_items(items, all_picked(items.len()), m) == items.take(m),
    decreases m,
{
    if m > 0 {
        lemma_kept_all(items, m - 1);
        assert(items.take(m - 1).push(items[m - 1]) =~= items.take(m));
    } else {
        assert(items.take(0) =~= Seq::<TodoItem>::empty());
    }
}

proof fn lemma_kept_but_second(items: Seq<TodoItem>, m: int)
    requires
        2 <= m <= items.len(),
    ensures
        kept_items(items, all_picked(items.len()).update(1, false), m) == items.take(m).remove(1),
    decreases m,
{
    let keep = all_picked(items.len()).update(1, false);
    if m == 2 {
        assert(kept_items(items, keep, 0) == Seq::<TodoItem>::empty());
        assert(kept_items(items, keep, 1) =~= seq![items[0]]);
        assert(items.take(2).remove(1) =~= seq![items[0]]);
    } else {
        lemma_kept_but_second(items, m - 1);
        assert(items.take(m - 1).remove(1).push(items[m - 1]) =~= items.take(m).remove(1));
    }
}

/// Reading back the buffer with the second line's verb turned to `drop` (the
/// others still `pick`) gives every item but the second, in their order; this
/// holds when no description spans several lines.
pub proof fn law_edit_drop_second(items: Seq<TodoItem>)
    requires
        items.len() >= 2,
        forall|i: int| 0 <= i < items.len() ==> no_newline(#[trigger] items[i].desc@),
    ensures
        edit_result(
            join_lines(
                block_lines(items, all_picked(items.len()).update(1, false), items.len() as int),
            ) + edit_help(),
            items,
        ) == items.remove(1),
{
    let keep = all_picked(items.len()).update(1, false);
    law_edit_keep_drop(items, keep);
    lemma_kept_but_second(items, items.len() as int);
    assert(items.take(items.len() as int) =~= items);
}

/// The directive lines that a plan writes: for each `(keep, k)`, a line that keeps
/// (or drops) the item at position `k`, with its description.
pub open spec fn plan_lines(items: Seq<TodoItem>, plan: Seq<(bool, nat)>) -> Seq<Seq<char>> {
    plan.map_values(|d: (bool, nat)| verb_line(d.0, d.1, items[d.1 as int].desc@))
}

/// The positions that a plan keeps, in its order.
pub open spec fn plan_picks(plan: Seq<(bool, nat)>) -> Seq<nat>
    decreases plan.len(),
{
    if plan.len() == 0 {
        Seq::empty()
    } else if plan.last().0 {
        plan_picks(plan.drop_last()).push(plan.last().1)
    } else {
        plan_picks(plan.drop_last())
    }
}

proof fn lemma_apply_plan(items: Seq<TodoItem>, plan: Seq<(bool, nat)>)
    requires
        forall|i: int| 0 <= i < plan.len() ==> #[trigger] plan[i].1 < items.len(),
        forall|i: int, j: int|
            0 <= i < plan.len() && 0 <= j < plan.len() && i != j ==> #[trigger] plan[i].1
                != #[trigger] plan[j].1,
    ensures
        apply_lines(Seq::empty(), plan_lines(items, plan), items.len()) == plan_picks(plan),
        forall|a: int|
            0 <= a < plan_picks(plan).len() ==> exists|j: int|
                0 <= j < plan.len() && #[trigger] plan_picks(plan)[a] == plan[j].1,
    decreases plan.len(),
{
    if plan.len() > 0 {
        let init = plan.drop_last();
        lemma_apply_plan(items, init);
        let ls = plan_lines(items, plan);
        assert(ls.drop_last() =~= plan_lines(items, init));
        let d = plan.last();
        assert(d == plan[plan.len() - 1]);
        lemma_verb_line_directive(d.0, d.1, items[d.1 as int].desc@, items.len());
        let prev = plan_picks(init);
        if d.0 {
            assert(!prev.contains(d.1)) by {
                if prev.contains(d.1) {
                    let a = choose|a: int| 0 <= a < prev.len() && prev[a] == d.1;
                    let j = choose|j: int| 0 <= j < init.len() && #[trigger] prev[a] == init[j].1;
                    assert(plan[j].1 == d.1);
                }
            }
            assert forall|a: int| 0 <= a < plan_picks(plan).len() implies exists|j: int|
                0 <= j < plan.len() && #[trigger] plan_picks(plan)[a] == plan[j].1 by {
                if a < prev.len() {
                    let j = choose|j: int| 0 <= j < init.len() && #[trigger] prev[a] == init[j].1;
                    assert(plan[j] == init[j]);
                } else {
                    assert(plan_picks(plan)[a] == plan[plan.len() - 1].1);
                }
            }
        } else {
            assert forall|a: int| 0 <= a < plan_picks(plan).len() implies exists|j: int|
                0 <= j < plan.len() && #[trigger] plan_picks(plan)[a] == plan[j].1 by {
                let j = choose|j: int| 0 <= j < init.len() && #[trigger] prev[a] == init[j].1;
                assert(plan[j] == init[j]);
            }
        }
    }
}

/// Reading back a buffer of directive lines in any order, each naming a different
/// item and keeping or dropping it, gives the kept items in the order of their
/// lines, every field unchanged; this holds when no description spans several
/// lines. (Dropping the second item while picking the others in some order is
/// one such buffer.)
pub proof fn law_edit_plan(items: Seq<TodoItem>, plan: Seq<(bool, nat)>)
    requires
        forall|i: int| 0 <= i < plan.len() ==> #[trigger] plan[i].1 < items.len(),
        forall|i: int, j: int|
            0 <= i < plan.len() && 0 <= j < plan.len() && i != j ==> #[trigger] plan[i].1
                != #[trigger] plan[j].1,
        forall|i: int| 0 <= i < items.len() ==> no_newline(#[trigger] items[i].desc@),
    ensures
        edit_result(join_lines(plan_lines(items, plan)) + edit_help(), items) == plan_picks(
            plan,
        ).map_values(|k: nat| items[k as int]),
{
    let n = items.len();
    let lines = plan_lines(items, plan);
    assert forall|i: int| 0 <= i < lines.len() implies no_newline(#[trigger] lines[i]) by {
        assert(plan[i].1 < items.len());
        assert(no_newline(items[plan[i].1 as int].desc@));
        lemma_verb_line_no_newline(plan[i].0, plan[i].1, items[plan[i].1 as int].desc@);
    }
    lemma_help_lines();
    let help = help_lines();
    lemma_split_joined(help, Seq::empty());
    assert(join_lines(help) + Seq::<char>::empty() =~= join_lines(help));
    lemma_split_joined(lines, join_lines(help));
    let tail = help + split_lines(Seq::empty());
    assert(split_lines(Seq::<char>::empty()) == seq![Seq::<char>::empty()]);
    assert forall|i: int| 0 <= i < tail.len() implies #[trigger] directive(tail[i], n) is None by {
        if i < help.len() {
            lemma_comment_silent(help[i], n);
        } else {
            lemma_comment_silent(Seq::empty(), n);
        }
    }
    lemma_apply_concat(Seq::empty(), lines, tail, n);
    lemma_apply_silent(apply_lines(Seq::empty(), lines, n), tail, n);
    lemma_apply_plan(items, plan);
}

} // verus!
