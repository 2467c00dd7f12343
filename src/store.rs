//! The store: items identified by short hashes, found by hash prefix.
use vstd::prelude::*;

use std::hash::{Hash, Hasher};

use crate::text::{append_hex, blank, chars_of, hex_alphabet, hex_digits, is_blank};

verus! {

/// One todo.
#[derive(Debug, PartialEq)]
pub struct TodoItem {
    pub hash: String,
    pub desc: String,
    pub is_completed: bool,
    pub tag: Option<String>,
}

impl Clone for TodoItem {
    fn clone(&self) -> (r: Self)
        ensures
            r == *self,
    {
        let tag = match &self.tag {
            Some(t) => Some(t.clone()),
            None => None,
        };
        TodoItem { hash: self.hash.clone(), desc: self.desc.clone(), is_completed: self.is_completed, tag }
    }
}

/// No two items share a hash.
pub open spec fn hashes_unique(items: Seq<TodoItem>) -> bool {
    forall|i: int, j: int|
        0 <= i < items.len() && 0 <= j < items.len() && i != j ==> #[trigger] items[i].hash@
            != #[trigger] items[j].hash@
}

/// Every item has a description.
pub open spec fn descs_present(items: Seq<TodoItem>) -> bool {
    forall|i: int| 0 <= i < items.len() ==> #[trigger] items[i].desc@.len() > 0
}

/// What every list of todos keeps: unique hashes and non-empty descriptions.
pub open spec fn items_wf(items: Seq<TodoItem>) -> bool {
    hashes_unique(items) && descs_present(items)
}

/// `h` starts with `p`.
pub open spec fn has_prefix(h: Seq<char>, p: Seq<char>) -> bool {
    p.len() <= h.len() && h.take(p.len() as int) == p
}

/// The positions, in order, among the first `n` items, of those whose hash starts with `p`.
pub open spec fn matches_upto(items: Seq<TodoItem>, p: Seq<char>, n: int) -> Seq<int>
    decreases n,
{
    if n <= 0 {
        Seq::empty()
    } else if has_prefix(items[n - 1].hash@, p) {
        matches_upto(items, p, n - 1).push(n - 1)
    } else {
        matches_upto(items, p, n - 1)
    }
}

/// The positions, in order, of the items whose hash starts with `p`.
pub open spec fn match_indices(items: Seq<TodoItem>, p: Seq<char>) -> Seq<int> {
    matches_upto(items, p, items.len() as int)
}

/// The positions that `matches_upto` gives are increasing, in range, and are
/// exactly those whose hash starts with `p`.
pub proof fn lemma_matches_upto(items: Seq<TodoItem>, p: Seq<char>, n: int)
    requires
        0 <= n <= items.len(),
    ensures
        forall|a: int, b: int|
            0 <= a < b < matches_upto(items, p, n).len() ==> matches_upto(items, p, n)[a]
                < matches_upto(items, p, n)[b],
        forall|a: int|
            0 <= a < matches_upto(items, p, n).len() ==> 0 <= #[trigger] matches_upto(
                items,
                p,
                n,
            )[a] < n && has_prefix(items[matches_upto(items, p, n)[a]].hash@, p),
        forall|k: int|
            0 <= k < n && has_prefix(#[trigger] items[k].hash@, p) ==> matches_upto(
                items,
                p,
                n,
            ).contains(k),
    decreases n,
{
    if n > 0 {
        lemma_matches_upto(items, p, n - 1);
        let m = matches_upto(items, p, n - 1);
        if has_prefix(items[n - 1].hash@, p) {
            assert forall|k: int|
                0 <= k < n && has_prefix(#[trigger] items[k].hash@, p) implies matches_upto(
                items,
                p,
                n,
            ).contains(k) by {
                if k < n - 1 {
                    let a = choose|a: int| 0 <= a < m.len() && m[a] == k;
                    assert(matches_upto(items, p, n)[a] == k);
                } else {
                    assert(matches_upto(items, p, n)[m.len() as int] == k);
                }
            }
        }
    }
}

/// Tells whether `h` starts with `p`.
pub fn starts_with(h: &str, p: &str) -> (r: bool)
    ensures
        r == has_prefix(h@, p@),
{
    let hv = chars_of(h);
    let pv = chars_of(p);
    if pv.len() > hv.len() {
        return false;
    }
    let mut i: usize = 0;
    while i < pv.len()
        invariant
            pv.len() <= hv.len(),
            i <= pv.len(),
            hv@ == h@,
            pv@ == p@,
            forall|k: int| 0 <= k < i ==> hv@[k] == pv@[k],
        decreases pv.len() - i,
    {
        if hv[i] != pv[i] {
            assert(h@.take(p@.len() as int)[i as int] != p@[i as int]);
            return false;
        }
        i = i + 1;
    }
    assert(h@.take(p@.len() as int) =~= p@);
    true
}

/// The positions of the items whose hash starts with `p`.
fn matching(items: &Vec<TodoItem>, p: &str) -> (r: Vec<usize>)
    ensures
        r@.map_values(|k: usize| k as int) == match_indices(items@, p@),
{
    let mut r: Vec<usize> = Vec::new();
    let mut k: usize = 0;
    while k < items.len()
        invariant
            k <= items.len(),
            r@.map_values(|x: usize| x as int) == matches_upto(items@, p@, k as int),
        decreases items.len() - k,
    {
        if starts_with(items[k].hash.as_str(), p) {
            let ghost before = r@;
            r.push(k);
            assert(r@.map_values(|x: usize| x as int) =~= before.map_values(|x: usize| x as int).push(
                k as int,
            ));
        }
        k = k + 1;
    }
    r
}

/// A hash as the store writes it: seven lower-case hexadecimal digits.
pub open spec fn is_short_hash(h: Seq<char>) -> bool {
    h.len() == 7 && forall|i: int| 0 <= i < 7 ==> hex_alphabet().contains(#[trigger] h[i])
}

/// The first seven hexadecimal digits of `h`, padded on the left with zeros when
/// `h` has fewer.
pub open spec fn short_hex(h: nat) -> Seq<char> {
    let d = hex_digits(h);
    if d.len() >= 7 {
        d.take(7)
    } else {
        Seq::new((7 - d.len()) as nat, |i: int| '0') + d
    }
}

/// The short hash that a 64-bit digest gives.
pub fn short_hash(h: u64) -> (r: String)
    ensures
        r@ == short_hex(h as nat),
        is_short_hash(r@),
{
    let mut full = String::new();
    append_hex(&mut full, h);
    assert(full@ =~= hex_digits(h as nat));
    proof {
        crate::text::lemma_digits_in_alphabet(h as nat);
    }
    let n = full.as_str().unicode_len();
    let r = if n >= 7 {
        full.as_str().substring_char(0, 7).to_owned()
    } else {
        let zeros = "0000000";
        proof {
            reveal_strlit("0000000");
        }
        let mut padded = zeros.substring_char(0, 7 - n).to_owned();
        padded.append(full.as_str());
        assert(zeros@.subrange(0, 7 - n) =~= Seq::new((7 - n) as nat, |i: int| '0'));
        padded
    };
    assert(r@ =~= short_hex(h as nat));
    assert forall|i: int| 0 <= i < 7 implies hex_alphabet().contains(#[trigger] r@[i]) by {
        if n >= 7 {
            assert(r@[i] == full@[i]);
        } else if i < 7 - n {
            assert(r@[i] == '0');
            assert(hex_alphabet()[0] == '0');
        } else {
            assert(r@[i] == full@[i - (7 - n)]);
        }
    }
    r
}

/// Relies on `SystemTime::now`: the time elapsed since the Unix epoch, in
/// nanoseconds (zero for a clock set before it). Nothing is known of the value.
#[verifier::external_body]
fn clock_nanos() -> u128 {
    match std::time::SystemTime::now().duration_since(std::time::UNIX_EPOCH) {
        Ok(d) => d.as_nanos(),
        Err(_) => 0,
    }
}

/// Relies on `DefaultHasher`: a 64-bit digest of a description, a tag and a time.
/// Nothing is known of the value.
#[verifier::external_body]
fn digest(desc: &str, tag: &Option<String>, nanos: u128) -> u64 {
    let mut hasher = std::collections::hash_map::DefaultHasher::new();
    desc.hash(&mut hasher);
    tag.hash(&mut hasher);
    nanos.hash(&mut hasher);
    hasher.finish()
}

/// A fresh short hash for an item, from its description, its tag and the time now.
pub fn generate_short_hash(desc: &str, tag: &Option<String>) -> (r: String)
    ensures
        is_short_hash(r@),
{
    let nanos = clock_nanos();
    short_hash(digest(desc, tag, nanos))
}

/// `it` marked completed, all else kept.
pub open spec fn completed(it: TodoItem) -> TodoItem {
    TodoItem { hash: it.hash, desc: it.desc, is_completed: true, tag: it.tag }
}

/// The items after marking done by the prefix `p`: the one item whose hash starts
/// with `p`, when it is the only one and is not completed yet, becomes completed.
pub open spec fn done_step(items: Seq<TodoItem>, p: Seq<char>) -> Seq<TodoItem> {
    let m = match_indices(items, p);
    if m.len() == 1 && !items[m[0]].is_completed {
        items.update(m[0], completed(items[m[0]]))
    } else {
        items
    }
}

/// What marking done by the prefix `p` gives: one item marked; or
/// no match, the one match already completed, or every match with its description.
pub open spec fn mark_done_outcome(items: Seq<TodoItem>, p: Seq<char>, r: Result<usize, MarkDoneError>) -> bool {
    let m = match_indices(items, p);
    &&& m.len() == 0 ==> (r matches Err(MarkDoneError::NotFound(q)) && q@ == p)
    &&& m.len() == 1 && items[m[0]].is_completed ==> (r matches Err(MarkDoneError::AlreadyCompleted(h))
        && h@ == items[m[0]].hash@)
    &&& m.len() == 1 && !items[m[0]].is_completed ==> r == Ok::<usize, MarkDoneError>(1)
    &&& m.len() > 1 ==> (r matches Err(MarkDoneError::MultipleMatches(q, pairs)) && q@ == p
        && pair_views(pairs@) == hash_desc_pairs(items, m))
}

/// The items after removing by the prefix `p`: the one item whose hash starts with
/// `p` goes, when it is the only one.
pub open spec fn rm_step(items: Seq<TodoItem>, p: Seq<char>) -> Seq<TodoItem> {
    let m = match_indices(items, p);
    if m.len() == 1 {
        items.remove(m[0])
    } else {
        items
    }
}

/// The item that removing by the prefix `p` takes out, if any.
pub open spec fn rm_outcome(items: Seq<TodoItem>, p: Seq<char>) -> Option<TodoItem> {
    let m = match_indices(items, p);
    if m.len() == 1 {
        Some(items[m[0]])
    } else {
        None
    }
}

/// Why an item could not be marked done.
#[derive(Debug, PartialEq)]
pub enum MarkDoneError {
    /// No hash starts with the prefix (the prefix).
    NotFound(String),
    /// The one item found was already completed (its hash).
    AlreadyCompleted(String),
    /// Several hashes start with the prefix: the prefix, then each match's hash and description.
    MultipleMatches(String, Vec<(String, String)>),
    /// The prefix is blank (never given by `mark_done`, which matches any prefix).
    EmptyPrefix,
}

/// The hash and description of each item at the positions `m`.
pub open spec fn hash_desc_pairs(items: Seq<TodoItem>, m: Seq<int>) -> Seq<(Seq<char>, Seq<char>)> {
    m.map_values(|k: int| (items[k].hash@, items[k].desc@))
}

/// The views of a list of hash and description pairs.
pub open spec fn pair_views(v: Seq<(String, String)>) -> Seq<(Seq<char>, Seq<char>)> {
    v.map_values(|p: (String, String)| (p.0@, p.1@))
}

/// The tag that a new item gets: the one given, else `default`.
pub open spec fn tag_or_default(tag: Option<Seq<char>>) -> Seq<char> {
    match tag {
        Some(t) => t,
        None => seq!['d', 'e', 'f', 'a', 'u', 'l', 't'],
    }
}

/// Some item has the hash `h`.
pub open spec fn hash_taken(items: Seq<TodoItem>, h: Seq<char>) -> bool {
    exists|k: int| 0 <= k < items.len() && #[trigger] items[k].hash@ == h
}

/// Why an item could not be added.
#[derive(Debug, PartialEq)]
pub enum AddError {
    /// The description is empty or white space only.
    EmptyDescription,
    /// Another item already has this hash.
    DuplicateHash(String),
}

/// Why a list of items cannot be a todo list.
#[derive(Debug, PartialEq)]
pub enum StoreError {
    /// The item at this position has an empty description.
    EmptyDescription(usize),
    /// Two items share this hash.
    DuplicateHash(String),
}

/// The first `n` items that carry the tag `tag` (when given) and, when
/// `only_completed`, are completed; in order.
pub open spec fn listed_upto(items: Seq<TodoItem>, tag: Option<Seq<char>>, only_completed: bool, n: int) -> Seq<TodoItem>
    decreases n,
{
    if n <= 0 {
        Seq::empty()
    } else {
        let it = items[n - 1];
        let keep = (match tag {
            Some(t) => it.tag is Some && it.tag->0@ == t,
            None => true,
        }) && (!only_completed || it.is_completed);
        if keep {
            listed_upto(items, tag, only_completed, n - 1).push(it)
        } else {
            listed_upto(items, tag, only_completed, n - 1)
        }
    }
}

/// The items that a listing shows.
pub open spec fn listed(items: Seq<TodoItem>, tag: Option<Seq<char>>, only_completed: bool) -> Seq<TodoItem> {
    listed_upto(items, tag, only_completed, items.len() as int)
}

/// The view of an optional string.
pub open spec fn opt_view(o: Option<String>) -> Option<Seq<char>> {
    match o {
        Some(s) => Some(s@),
        None => None,
    }
}

/// The list that a document's items make, if they make one.
pub open spec fn load_items(items: Seq<TodoItem>) -> Option<Seq<TodoItem>> {
    if items_wf(items) {
        Some(items)
    } else {
        None
    }
}

/// A document whose items have unique hashes and non-empty descriptions loads as
/// exactly those items, in their order (so an unchanged list is saved with the
/// items it was loaded with).
pub proof fn law_valid_document_loads_unchanged(items: Seq<TodoItem>)
    requires
        items_wf(items),
    ensures
        load_items(items) == Some(items),
{
}

proof fn lemma_matches_same_hashes(a: Seq<TodoItem>, b: Seq<TodoItem>, p: Seq<char>, n: int)
    requires
        a.len() == b.len(),
        0 <= n <= a.len(),
        forall|k: int| 0 <= k < a.len() ==> #[trigger] a[k].hash@ == b[k].hash@,
    ensures
        matches_upto(a, p, n) == matches_upto(b, p, n),
    decreases n,
{
    if n > 0 {
        lemma_matches_same_hashes(a, b, p, n - 1);
        assert(a[n - 1].hash@ == b[n - 1].hash@);
    }
}

/// Marking done twice: once the one item that `p` matches has been marked (or
/// was already completed), marking by `p` again is refused as already completed
/// and leaves the items as they are.
pub proof fn law_mark_done_twice(items: Seq<TodoItem>, p: Seq<char>, r: Result<usize, MarkDoneError>)
    requires
        items_wf(items),
        match_indices(items, p).len() == 1,
        mark_done_outcome(done_step(items, p), p, r),
    ensures
        r matches Err(MarkDoneError::AlreadyCompleted(h)) && h@ == items[match_indices(items, p)[0]].hash@,
        done_step(done_step(items, p), p) == done_step(items, p),
{
    let m = match_indices(items, p);
    lemma_matches_upto(items, p, items.len() as int);
    let after = done_step(items, p);
    assert forall|k: int| 0 <= k < items.len() implies #[trigger] items[k].hash@ == after[k].hash@ by {}
    lemma_matches_same_hashes(items, after, p, items.len() as int);
    assert(match_indices(after, p) == m);
    assert(after[m[0]].is_completed);
}

/// Two items whose hashes both start with `p` both match it; marking done by `p`
/// then reports every match, those two among them, and removing by `p` removes
/// nothing; neither changes the items.
pub proof fn law_shared_prefix(items: Seq<TodoItem>, p: Seq<char>, i: int, j: int, r: Result<usize, MarkDoneError>)
    requires
        0 <= i < items.len(),
        0 <= j < items.len(),
        i != j,
        has_prefix(items[i].hash@, p),
        has_prefix(items[j].hash@, p),
        mark_done_outcome(items, p, r),
    ensures
        match_indices(items, p).contains(i),
        match_indices(items, p).contains(j),
        r matches Err(MarkDoneError::MultipleMatches(q, pairs)) && q@ == p && pair_views(pairs@).contains(
            (items[i].hash@, items[i].desc@),
        ) && pair_views(pairs@).contains((items[j].hash@, items[j].desc@)),
        done_step(items, p) == items,
        rm_step(items, p) == items,
        rm_outcome(items, p) is None,
{
    let m = match_indices(items, p);
    lemma_matches_upto(items, p, items.len() as int);
    let a = choose|a: int| 0 <= a < m.len() && m[a] == i;
    let b = choose|b: int| 0 <= b < m.len() && m[b] == j;
    assert(a != b);
    assert(m.len() > 1);
    let hp = hash_desc_pairs(items, m);
    assert(hp[a] == (items[i].hash@, items[i].desc@));
    assert(hp[b] == (items[j].hash@, items[j].desc@));
}

/// The todo list: items in insertion order.
#[derive(Debug)]
pub struct TodoList {
    items: Vec<TodoItem>,
}

impl View for TodoList {
    type V = Seq<TodoItem>;

    closed spec fn view(&self) -> Seq<TodoItem> {
        self.items@
    }
}

impl TodoList {
    /// Unique hashes and non-empty descriptions.
    pub open spec fn wf(&self) -> bool {
        items_wf(self@)
    }

    /// An empty list.
    pub fn new() -> (r: TodoList)
        ensures
            r@ == Seq::<TodoItem>::empty(),
            r.wf(),
    {
        TodoList { items: Vec::new() }
    }

    /// The list of `items`, when they have unique hashes and non-empty descriptions.
    pub fn from_items(items: Vec<TodoItem>) -> (r: Result<TodoList, StoreError>)
        ensures
            r matches Ok(l) ==> load_items(items@) == Some(l@) && l.wf(),
            r is Err ==> load_items(items@) is None,
            r matches Err(StoreError::EmptyDescription(i)) ==> i < items@.len()
                && items@[i as int].desc@.len() == 0,
            r matches Err(StoreError::DuplicateHash(h)) ==> exists|a: int, b: int|
                0 <= a < items@.len() && 0 <= b < items@.len() && a != b && #[trigger] items@[a].hash@
                    == h@ && #[trigger] items@[b].hash@ == h@,
    {
        let mut i: usize = 0;
        while i < items.len()
            invariant
                i <= items.len(),
                forall|a: int| 0 <= a < i ==> #[trigger] items@[a].desc@.len() > 0,
                forall|a: int, b: int|
                    0 <= a < i && 0 <= b < items.len() && a != b ==> #[trigger] items@[a].hash@
                        != #[trigger] items@[b].hash@,
            decreases items.len() - i,
        {
            if items[i].desc.as_str().unicode_len() == 0 {
                return Err(StoreError::EmptyDescription(i));
            }
            let mut j: usize = 0;
            while j < items.len()
                invariant
                    i < items.len(),
                    j <= items.len(),
                    forall|b: int|
                        0 <= b < j && b != i ==> items@[i as int].hash@ != #[trigger] items@[b].hash@,
                decreases items.len() - j,
            {
                if j != i && items[i].hash == items[j].hash {
                    let h = items[i].hash.clone();
                    assert(items@[i as int].hash@ == h@ && items@[j as int].hash@ == h@);
                    return Err(StoreError::DuplicateHash(h));
                }
                j = j + 1;
            }
            i = i + 1;
        }
        Ok(TodoList { items })
    }

    /// Puts `items` in place of the list's items.
    pub fn replace_items(&mut self, items: Vec<TodoItem>)
        requires
            items_wf(items@),
        ensures
            final(self)@ == items@,
            final(self).wf(),
    {
        self.items = items;
    }

    /// The items, in order.
    pub fn items(&self) -> (r: &Vec<TodoItem>)
        ensures
            r@ == self@,
    {
        &self.items
    }

    /// The items, in order, taking the list apart.
    pub fn into_items(self) -> (r: Vec<TodoItem>)
        ensures
            r@ == self@,
    {
        self.items
    }

    /// Marks done the one item whose hash starts with `hash`; gives the number of
    /// items marked, one.
    pub fn mark_done(&mut self, hash: &str) -> (r: Result<usize, MarkDoneError>)
        requires
            old(self).wf(),
        ensures
            final(self).wf(),
            final(self)@ == done_step(old(self)@, hash@),
            mark_done_outcome(old(self)@, hash@, r),
    {
        let m = matching(&self.items, hash);
        proof {
            lemma_matches_upto(self@, hash@, self@.len() as int);
        }
        let ghost mi = match_indices(self@, hash@);
        assert(m@.len() == mi.len());
        if m.len() == 0 {
            return Err(MarkDoneError::NotFound(hash.to_owned()));
        }
        if m.len() == 1 {
            let index = m[0];
            assert(mi[0] == index as int);
            if self.items[index].is_completed {
                return Err(MarkDoneError::AlreadyCompleted(self.items[index].hash.clone()));
            }
            let mut it = self.items[index].clone();
            it.is_completed = true;
            let ghost before = self@;
            self.items.set(index, it);
            proof {
                assert(self@ == before.update(index as int, completed(before[index as int])));
                assert forall|a: int| 0 <= a < self@.len() implies #[trigger] self@[a].hash@ == before[a].hash@
                    && self@[a].desc@ == before[a].desc@ by {}
            }
            return Ok(1);
        }
        let mut pairs: Vec<(String, String)> = Vec::new();
        let mut k: usize = 0;
        while k < m.len()
            invariant
                k <= m.len(),
                m@.map_values(|x: usize| x as int) == mi,
                mi == match_indices(self@, hash@),
                forall|a: int| 0 <= a < mi.len() ==> 0 <= #[trigger] mi[a] < self@.len(),
                pair_views(pairs@) == hash_desc_pairs(self@, mi.take(k as int)),
            decreases m.len() - k,
        {
            let index = m[k];
            assert(mi[k as int] == index as int);
            let ghost before = pairs@;
            let pair = (self.items[index].hash.clone(), self.items[index].desc.clone());
            pairs.push(pair);
            assert(pairs@ == before.push(pair));
            assert(pair_views(pairs@) =~= pair_views(before).push((pair.0@, pair.1@)));
            assert(mi.take(k + 1) =~= mi.take(k as int).push(index as int));
            assert(pair_views(pairs@) =~= hash_desc_pairs(self@, mi.take(k + 1)));
            k = k + 1;
        }
        assert(mi.take(m.len() as int) =~= mi);
        Err(MarkDoneError::MultipleMatches(hash.to_owned(), pairs))
    }

    /// Removes the one item whose hash starts with `hash` and gives it back; when
    /// none or several match, nothing changes.
    pub fn rm_item(&mut self, hash: &str) -> (r: Option<TodoItem>)
        requires
            old(self).wf(),
        ensures
            final(self).wf(),
            final(self)@ == rm_step(old(self)@, hash@),
            r == rm_outcome(old(self)@, hash@),
    {
        let m = matching(&self.items, hash);
        proof {
            lemma_matches_upto(self@, hash@, self@.len() as int);
        }
        let ghost mi = match_indices(self@, hash@);
        assert(m@.len() == mi.len());
        if m.len() == 1 {
            let index = m[0];
            assert(mi[0] == index as int);
            let ghost before = self@;
            let it = self.items.remove(index);
            proof {
                assert forall|a: int| 0 <= a < self@.len() implies #[trigger] self@[a] == before[if a
                    < index {
                    a
                } else {
                    a + 1
                }] by {}
                assert forall|a: int, b: int|
                    0 <= a < self@.len() && 0 <= b < self@.len() && a != b implies #[trigger] self@[a].hash@
                        != #[trigger] self@[b].hash@ by {
                    let a2 = if a < index { a } else { a + 1 };
                    let b2 = if b < index { b } else { b + 1 };
                    assert(before[a2].hash@ != before[b2].hash@);
                }
            }
            return Some(it);
        }
        None
    }

    /// Appends a new item with the hash `hash`, not completed, tagged `tag` or
    /// `default`; refuses a blank description and a hash already present.
    pub fn add_item_with_hash(&mut self, desc: String, tag: &Option<String>, hash: String) -> (r: Result<
        TodoItem,
        AddError,
    >)
        requires
            old(self).wf(),
        ensures
            final(self).wf(),
            is_blank(desc@) ==> r == Err::<TodoItem, AddError>(AddError::EmptyDescription),
            !is_blank(desc@) && hash_taken(old(self)@, hash@) ==> (r matches Err(
                AddError::DuplicateHash(h),
            ) && h@ == hash@),
            !is_blank(desc@) && !hash_taken(old(self)@, hash@) ==> r is Ok,
            r is Err ==> final(self)@ == old(self)@,
            r matches Ok(it) ==> final(self)@ == old(self)@.push(it) && it.hash@ == hash@ && it.desc@
                == desc@ && !it.is_completed && it.tag is Some && it.tag->0@ == tag_or_default(opt_view(*tag)),
    {
        if blank(desc.as_str()) {
            return Err(AddError::EmptyDescription);
        }
        let mut k: usize = 0;
        while k < self.items.len()
            invariant
                k <= self.items.len(),
                self@ == old(self)@,
                old(self).wf(),
                !is_blank(desc@),
                forall|a: int| 0 <= a < k ==> #[trigger] self.items@[a].hash@ != hash@,
            decreases self.items.len() - k,
        {
            if self.items[k].hash == hash {
                return Err(AddError::DuplicateHash(hash));
            }
            k = k + 1;
        }
        let t = match tag {
            Some(t) => t.clone(),
            None => {
                proof {
                    reveal_strlit("default");
                }
                let d = "default".to_owned();
                assert(d@ =~= seq!['d', 'e', 'f', 'a', 'u', 'l', 't']);
                d
            },
        };
        assert(desc@.len() > 0) by {
            if desc@.len() == 0 {
                assert(is_blank(desc@));
            }
        }
        let it = TodoItem { hash, desc, is_completed: false, tag: Some(t) };
        let r = it.clone();
        self.items.push(it);
        Ok(r)
    }

    /// Appends a new item for `desc`, not completed, tagged `tag` or `default`,
    /// under a fresh short hash; refuses a blank description. A hash that is
    /// already present is drawn again, a few times at most.
    pub fn add_item(&mut self, desc: String, tag: &Option<String>) -> (r: Result<TodoItem, AddError>)
        requires
            old(self).wf(),
        ensures
            final(self).wf(),
            is_blank(desc@) <==> r == Err::<TodoItem, AddError>(AddError::EmptyDescription),
            r matches Err(AddError::DuplicateHash(h)) ==> hash_taken(old(self)@, h@),
            old(self)@.len() == 0 && !is_blank(desc@) ==> r is Ok,
            r is Err ==> final(self)@ == old(self)@,
            r matches Ok(it) ==> final(self)@ == old(self)@.push(it) && is_short_hash(it.hash@)
                && it.desc@ == desc@ && !it.is_completed && it.tag is Some && it.tag->0@
                == tag_or_default(opt_view(*tag)),
    {
        let mut attempt: usize = 0;
        loop
            invariant
                attempt <= 8,
                self.wf(),
                self@ == old(self)@,
                !is_blank(desc@) || attempt == 0,
            decreases 8 - attempt,
        {
            let hash = generate_short_hash(desc.as_str(), tag);
            let ghost h = hash@;
            match self.add_item_with_hash(desc.clone(), tag, hash) {
                Err(AddError::DuplicateHash(h)) => {
                    if attempt >= 7 {
                        return Err(AddError::DuplicateHash(h));
                    }
                },
                r => {
                    return r;
                },
            }
            attempt = attempt + 1;
        }
    }

    /// The items tagged `tag` (when given) and, when `only_completed`, completed; in order.
    pub fn list_items(&self, tag: &Option<String>, only_completed: bool) -> (r: Vec<TodoItem>)
        ensures
            r@ == listed(self@, opt_view(*tag), only_completed),
    {
        let mut r: Vec<TodoItem> = Vec::new();
        let mut k: usize = 0;
        while k < self.items.len()
            invariant
                k <= self.items.len(),
                r@ == listed_upto(self@, opt_view(*tag), only_completed, k as int),
            decreases self.items.len() - k,
        {
            let it = &self.items[k];
            let tag_ok = match tag {
                Some(t) => match &it.tag {
                    Some(x) => *x == *t,
                    None => false,
                },
                None => true,
            };
            if tag_ok && (!only_completed || it.is_completed) {
                r.push(it.clone());
            }
            k = k + 1;
        }
        r
    }
}

} // verus!
