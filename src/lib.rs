//! A small todo-list manager: a per-subcommand argument parser, a store of
//! hash-identified items with prefix lookup, and an edit-buffer format for
//! reordering and dropping items.
//!
//! The library decides; its caller loads and saves the list, runs the editor
//! and prints. `run` takes a parsed command line and the loaded list, changes
//! the list as the subcommand asks, and says what happened.
use vstd::prelude::*;

pub mod cli;
pub mod edit;
pub mod store;
pub mod text;

use crate::cli::{arg_views, has_flag, option_value, string_views, Arg, ArgView, CommandLine, Subcommand};
use crate::edit::{edit_buffer, render_edit_buffer};
use crate::store::{
    done_step, hash_taken, is_short_hash, listed, mark_done_outcome, opt_view, rm_outcome, rm_step,
    tag_or_default, AddError, MarkDoneError, TodoItem, TodoList,
};
use crate::text::{blank, is_blank};

verus! {

/// Why a command failed.
#[derive(Debug, PartialEq)]
pub enum CommandError {
    /// `add` was given no description.
    NoEntries,
    /// `add` refused every description; what happened to each.
    NothingAdded(AddReport),
    /// `rm` or `done` was given no hash prefix.
    NoHashes,
    /// `done` marked no item; what happened to each prefix.
    NothingMarked(DoneReport),
    /// `rm` on an empty list.
    NothingToRemove,
    /// `edit` on an empty list.
    NothingToEdit,
}

/// The plain values among `args`, in order.
pub open spec fn values(args: Seq<ArgView>) -> Seq<Seq<char>>
    decreases args.len(),
{
    if args.len() == 0 {
        Seq::empty()
    } else {
        let p = values(args.drop_last());
        match args.last() {
            ArgView::Value(v) => p.push(v),
            _ => p,
        }
    }
}

/// The name of the tag option.
pub open spec fn tag_key() -> Seq<char> {
    seq!['t', 'a', 'g']
}

/// The name of the completed-only flag.
pub open spec fn done_key() -> Seq<char> {
    seq!['d', 'o', 'n', 'e']
}

fn tag_name() -> (r: String)
    ensures
        r@ == tag_key(),
{
    proof {
        reveal_strlit("tag");
    }
    let r = "tag".to_owned();
    assert(r@ =~= tag_key());
    r
}

fn done_name() -> (r: String)
    ensures
        r@ == done_key(),
{
    proof {
        reveal_strlit("done");
    }
    let r = "done".to_owned();
    assert(r@ =~= done_key());
    r
}

/// The plain values among `args`, in order.
fn value_args(args: &Vec<Arg>) -> (r: Vec<String>)
    ensures
        string_views(r@) == values(arg_views(args@)),
{
    let ghost av = arg_views(args@);
    let mut r: Vec<String> = Vec::new();
    let mut k: usize = 0;
    assert(av.take(0) =~= Seq::<ArgView>::empty());
    while k < args.len()
        invariant
            k <= args.len(),
            av == arg_views(args@),
            string_views(r@) == values(av.take(k as int)),
        decreases args.len() - k,
    {
        assert(av.take(k + 1).drop_last() =~= av.take(k as int));
        assert(av.take(k + 1).last() == args@[k as int]@);
        match &args[k] {
            Arg::Value(v) => {
                let ghost before = r@;
                r.push(v.clone());
                assert(string_views(r@) =~= string_views(before).push(v@));
            },
            _ => {},
        }
        k = k + 1;
    }
    assert(av.take(args.len() as int) =~= av);
    r
}

/// What `add` did with each description, and how many items it added.
#[derive(Debug, PartialEq)]
pub struct AddReport {
    pub outcomes: Vec<Result<TodoItem, AddError>>,
    pub added: usize,
}

/// The items added, in order.
pub open spec fn oks(outcomes: Seq<Result<TodoItem, AddError>>) -> Seq<TodoItem>
    decreases outcomes.len(),
{
    if outcomes.len() == 0 {
        Seq::empty()
    } else {
        let p = oks(outcomes.drop_last());
        match outcomes.last() {
            Ok(it) => p.push(it),
            Err(_) => p,
        }
    }
}

/// What adding the description `v` with the tag `tag` to the items `before` may
/// give: a blank description is refused, any other gives a new item for it, or is
/// refused because the hash drawn for it was already taken.
pub open spec fn add_entry_ok(before: Seq<TodoItem>, v: Seq<char>, tag: Option<Seq<char>>, o: Result<TodoItem, AddError>) -> bool {
    &&& is_blank(v) <==> o == Err::<TodoItem, AddError>(AddError::EmptyDescription)
    &&& o matches Ok(it) ==> it.desc@ == v && !it.is_completed && it.tag is Some && it.tag->0@
        == tag_or_default(tag) && is_short_hash(it.hash@)
    &&& o matches Err(AddError::DuplicateHash(h)) ==> hash_taken(before, h@)
}

/// `rep` says what adding each of `vals` in turn to `old` gave, and `new` holds
/// the items added after those of `old`.
pub open spec fn add_report_ok(old: Seq<TodoItem>, new: Seq<TodoItem>, vals: Seq<Seq<char>>, tag: Option<Seq<char>>, rep: AddReport) -> bool {
    &&& rep.outcomes@.len() == vals.len()
    &&& forall|i: int|
        0 <= i < vals.len() ==> add_entry_ok(
            old + oks(rep.outcomes@.take(i)),
            vals[i],
            tag,
            #[trigger] rep.outcomes@[i],
        )
    &&& new == old + oks(rep.outcomes@)
    &&& rep.added == oks(rep.outcomes@).len()
}

/// `add` with the arguments `av` took the items from `old` to `new` and reported
/// `r`: it fails when there is no description or none was added.
pub open spec fn add_post(old: Seq<TodoItem>, new: Seq<TodoItem>, av: Seq<ArgView>, r: Result<AddReport, CommandError>) -> bool {
    let vals = values(av);
    let tag = option_value(av, tag_key());
    if vals.len() == 0 {
        r == Err::<AddReport, CommandError>(CommandError::NoEntries) && new == old
    } else {
        match r {
            Ok(rep) => rep.added > 0 && add_report_ok(old, new, vals, tag, rep),
            Err(CommandError::NothingAdded(rep)) => rep.added == 0 && add_report_ok(
                old,
                new,
                vals,
                tag,
                rep,
            ),
            _ => false,
        }
    }
}

/// Adds one item for each plain value of `args`, tagged by the `tag` option (or
/// `default`); a blank description is refused and the others still added.
pub fn add(list: &mut TodoList, args: &Vec<Arg>) -> (r: Result<AddReport, CommandError>)
    requires
        old(list).wf(),
    ensures
        final(list).wf(),
        add_post(old(list)@, final(list)@, arg_views(args@), r),
{
    let vals = value_args(args);
    if vals.len() == 0 {
        return Err(CommandError::NoEntries);
    }
    let tag = Arg::get_option(args.as_slice(), &tag_name());
    let ghost tv = option_value(arg_views(args@), tag_key());
    assert(opt_view(tag) == tv);
    let mut outcomes: Vec<Result<TodoItem, AddError>> = Vec::new();
    let mut added: usize = 0;
    let mut i: usize = 0;
    assert(old(list)@ + oks(outcomes@) =~= old(list)@);
    while i < vals.len()
        invariant
            i <= vals.len(),
            list.wf(),
            opt_view(tag) == tv,
            outcomes@.len() == i,
            added == oks(outcomes@).len(),
            added <= i,
            list@ == old(list)@ + oks(outcomes@),
            forall|j: int|
                0 <= j < i ==> add_entry_ok(
                    old(list)@ + oks(outcomes@.take(j)),
                    vals@[j]@,
                    tv,
                    #[trigger] outcomes@[j],
                ),
        decreases vals.len() - i,
    {
        let ghost before_list = list@;
        let ghost before = outcomes@;
        let r = list.add_item(vals[i].clone(), &tag);
        if r.is_ok() {
            added = added + 1;
        }
        let ghost rg = r;
        outcomes.push(r);
        assert(outcomes@.drop_last() =~= before);
        assert(outcomes@.take(i as int) =~= before);
        assert forall|j: int| 0 <= j < i implies outcomes@.take(j) == before.take(j) by {
            assert(outcomes@.take(j) =~= before.take(j));
        }
        proof {
            if rg is Ok {
                assert(list@ =~= old(list)@ + oks(outcomes@));
            }
        }
        i = i + 1;
    }
    assert(string_views(vals@).len() == vals@.len());
    assert forall|j: int| 0 <= j < vals@.len() implies add_entry_ok(
        old(list)@ + oks(outcomes@.take(j)),
        values(arg_views(args@))[j],
        tv,
        #[trigger] outcomes@[j],
    ) by {
        assert(values(arg_views(args@))[j] == vals@[j]@);
    }
    let rep = AddReport { outcomes, added };
    if added == 0 {
        return Err(CommandError::NothingAdded(rep));
    }
    Ok(rep)
}

/// The items that `log` shows for the arguments `args`: by the `tag` option when
/// given, completed ones only under the `done` flag.
pub fn log(list: &TodoList, args: &Vec<Arg>) -> (r: Vec<TodoItem>)
    ensures
        r@ == listed(
            list@,
            option_value(arg_views(args@), tag_key()),
            has_flag(arg_views(args@), done_key()),
        ),
{
    let tag = Arg::get_option(args.as_slice(), &tag_name());
    let only_completed = Arg::get_flag(args.as_slice(), &done_name());
    list.list_items(&tag, only_completed)
}

/// The items after removing by each prefix of `ps` in turn; blank prefixes are skipped.
pub open spec fn rm_fold(items: Seq<TodoItem>, ps: Seq<Seq<char>>) -> Seq<TodoItem>
    decreases ps.len(),
{
    if ps.len() == 0 {
        items
    } else {
        let prev = rm_fold(items, ps.drop_last());
        if is_blank(ps.last()) {
            prev
        } else {
            rm_step(prev, ps.last())
        }
    }
}

/// What removing by `p` from `items` takes out; nothing for a blank prefix.
pub open spec fn rm_entry(items: Seq<TodoItem>, p: Seq<char>) -> Option<TodoItem> {
    if is_blank(p) {
        None
    } else {
        rm_outcome(items, p)
    }
}

/// `rm` with the arguments `av` took the items from `old` to `new` and reported `r`.
pub open spec fn rm_post(old: Seq<TodoItem>, new: Seq<TodoItem>, av: Seq<ArgView>, r: Result<Vec<Option<TodoItem>>, CommandError>) -> bool {
    let vals = values(av);
    if vals.len() == 0 {
        r == Err::<Vec<Option<TodoItem>>, CommandError>(CommandError::NoHashes) && new == old
    } else if old.len() == 0 {
        r == Err::<Vec<Option<TodoItem>>, CommandError>(CommandError::NothingToRemove) && new == old
    } else {
        r matches Ok(outs) && outs@.len() == vals.len() && (forall|i: int|
            0 <= i < vals.len() ==> #[trigger] outs@[i] == rm_entry(rm_fold(old, vals.take(i)), vals[i]))
            && new == rm_fold(old, vals)
    }
}

/// Removes, for each plain value of `args` taken as a hash prefix, the one item
/// it matches; a prefix that matches none or several removes nothing.
pub fn rm(list: &mut TodoList, args: &Vec<Arg>) -> (r: Result<Vec<Option<TodoItem>>, CommandError>)
    requires
        old(list).wf(),
    ensures
        final(list).wf(),
        rm_post(old(list)@, final(list)@, arg_views(args@), r),
{
    let hashes = value_args(args);
    let ghost vals = values(arg_views(args@));
    if hashes.len() == 0 {
        return Err(CommandError::NoHashes);
    }
    if list.items().len() == 0 {
        return Err(CommandError::NothingToRemove);
    }
    let mut outs: Vec<Option<TodoItem>> = Vec::new();
    let mut i: usize = 0;
    assert(vals.take(0) =~= Seq::<Seq<char>>::empty());
    while i < hashes.len()
        invariant
            i <= hashes.len(),
            string_views(hashes@) == vals,
            list.wf(),
            outs@.len() == i,
            list@ == rm_fold(old(list)@, vals.take(i as int)),
            forall|j: int|
                0 <= j < i ==> #[trigger] outs@[j] == rm_entry(rm_fold(old(list)@, vals.take(j)), vals[j]),
        decreases hashes.len() - i,
    {
        assert(vals.take(i + 1).drop_last() =~= vals.take(i as int));
        assert(vals[i as int] == hashes@[i as int]@);
        let prefix = &hashes[i];
        if blank(prefix.as_str()) {
            outs.push(None);
        } else {
            let r = list.rm_item(prefix.as_str());
            outs.push(r);
        }
        i = i + 1;
    }
    assert(vals.take(hashes.len() as int) =~= vals);
    Ok(outs)
}

/// What `done` did with each prefix, and how many items it marked.
#[derive(Debug, PartialEq)]
pub struct DoneReport {
    pub outcomes: Vec<Result<usize, MarkDoneError>>,
    pub marked: usize,
}

/// The number of successes among `outcomes`.
pub open spec fn count_ok(outcomes: Seq<Result<usize, MarkDoneError>>) -> nat
    decreases outcomes.len(),
{
    if outcomes.len() == 0 {
        0
    } else {
        count_ok(outcomes.drop_last()) + if outcomes.last() is Ok {
            1nat
        } else {
            0nat
        }
    }
}

/// The items after marking done by each prefix of `ps` in turn; blank prefixes are skipped.
pub open spec fn done_fold(items: Seq<TodoItem>, ps: Seq<Seq<char>>) -> Seq<TodoItem>
    decreases ps.len(),
{
    if ps.len() == 0 {
        items
    } else {
        let prev = done_fold(items, ps.drop_last());
        if is_blank(ps.last()) {
            prev
        } else {
            done_step(prev, ps.last())
        }
    }
}

/// What marking done by `p` in `items` may report; a blank prefix is refused.
pub open spec fn done_entry_ok(items: Seq<TodoItem>, p: Seq<char>, o: Result<usize, MarkDoneError>) -> bool {
    if is_blank(p) {
        o == Err::<usize, MarkDoneError>(MarkDoneError::EmptyPrefix)
    } else {
        mark_done_outcome(items, p, o)
    }
}

/// `rep` says what marking done by each of `vals` in turn gave, starting from
/// `old`, and `new` is what that left.
pub open spec fn done_report_ok(old: Seq<TodoItem>, new: Seq<TodoItem>, vals: Seq<Seq<char>>, rep: DoneReport) -> bool {
    &&& rep.outcomes@.len() == vals.len()
    &&& forall|i: int|
        0 <= i < vals.len() ==> done_entry_ok(
            done_fold(old, vals.take(i)),
            vals[i],
            #[trigger] rep.outcomes@[i],
        )
    &&& new == done_fold(old, vals)
    &&& rep.marked == count_ok(rep.outcomes@)
}

/// `done` with the arguments `av` took the items from `old` to `new` and reported
/// `r`: it fails when there is no prefix or no item was marked.
pub open spec fn done_post(old: Seq<TodoItem>, new: Seq<TodoItem>, av: Seq<ArgView>, r: Result<DoneReport, CommandError>) -> bool {
    let vals = values(av);
    if vals.len() == 0 {
        r == Err::<DoneReport, CommandError>(CommandError::NoHashes) && new == old
    } else {
        match r {
            Ok(rep) => rep.marked > 0 && done_report_ok(old, new, vals, rep),
            Err(CommandError::NothingMarked(rep)) => rep.marked == 0 && done_report_ok(
                old,
                new,
                vals,
                rep,
            ),
            _ => false,
        }
    }
}

/// Marks done, for each plain value of `args` taken as a hash prefix, the one
/// item it matches; each prefix that cannot be used is reported on its own.
pub fn done(list: &mut TodoList, args: &Vec<Arg>) -> (r: Result<DoneReport, CommandError>)
    requires
        old(list).wf(),
    ensures
        final(list).wf(),
        done_post(old(list)@, final(list)@, arg_views(args@), r),
{
    let hashes = value_args(args);
    let ghost vals = values(arg_views(args@));
    if hashes.len() == 0 {
        return Err(CommandError::NoHashes);
    }
    let mut outcomes: Vec<Result<usize, MarkDoneError>> = Vec::new();
    let mut marked: usize = 0;
    let mut i: usize = 0;
    assert(vals.take(0) =~= Seq::<Seq<char>>::empty());
    while i < hashes.len()
        invariant
            i <= hashes.len(),
            string_views(hashes@) == vals,
            list.wf(),
            outcomes@.len() == i,
            marked == count_ok(outcomes@),
            marked <= i,
            list@ == done_fold(old(list)@, vals.take(i as int)),
            forall|j: int|
                0 <= j < i ==> done_entry_ok(
                    done_fold(old(list)@, vals.take(j)),
                    vals[j],
                    #[trigger] outcomes@[j],
                ),
        decreases hashes.len() - i,
    {
        assert(vals.take(i + 1).drop_last() =~= vals.take(i as int));
        assert(vals[i as int] == hashes@[i as int]@);
        let ghost before = outcomes@;
        let prefix = &hashes[i];
        let r = if blank(prefix.as_str()) {
            Err(MarkDoneError::EmptyPrefix)
        } else {
            list.mark_done(prefix.as_str())
        };
        if r.is_ok() {
            marked = marked + 1;
        }
        outcomes.push(r);
        assert(outcomes@.drop_last() =~= before);
        i = i + 1;
    }
    assert(vals.take(hashes.len() as int) =~= vals);
    let rep = DoneReport { outcomes, marked };
    if marked == 0 {
        return Err(CommandError::NothingMarked(rep));
    }
    Ok(rep)
}

/// The buffer that lists the items for editing; refused on an empty list.
pub fn edit(list: &TodoList) -> (r: Result<String, CommandError>)
    ensures
        list@.len() == 0 ==> r == Err::<String, CommandError>(CommandError::NothingToEdit),
        list@.len() > 0 ==> (r matches Ok(b) && b@ == edit_buffer(list@)),
{
    if list.items().len() == 0 {
        return Err(CommandError::NothingToEdit);
    }
    Ok(render_edit_buffer(list.items().as_slice()))
}

/// The refusals that come before the list is read: `add` with no description and
/// `rm` with no hash prefix.
pub fn check_before_load(cmd_line: &CommandLine) -> (r: Result<(), CommandError>)
    ensures
        cmd_line.subcommand == Subcommand::Add && values(arg_views(cmd_line.args@)).len() == 0 ==> r
            == Err::<(), CommandError>(CommandError::NoEntries),
        cmd_line.subcommand == Subcommand::Remove && values(arg_views(cmd_line.args@)).len() == 0
            ==> r == Err::<(), CommandError>(CommandError::NoHashes),
        !((cmd_line.subcommand == Subcommand::Add || cmd_line.subcommand == Subcommand::Remove)
            && values(arg_views(cmd_line.args@)).len() == 0) ==> r is Ok,
{
    let vals = value_args(&cmd_line.args);
    if vals.len() == 0 {
        match cmd_line.subcommand {
            Subcommand::Add => {
                return Err(CommandError::NoEntries);
            },
            Subcommand::Remove => {
                return Err(CommandError::NoHashes);
            },
            _ => {},
        }
    }
    Ok(())
}

/// What a subcommand did.
#[derive(Debug)]
pub enum Outcome {
    /// Show the usage.
    Help,
    /// Show the version.
    Version,
    /// Items were added (or refused).
    Added(AddReport),
    /// The items to show.
    Listed(Vec<TodoItem>),
    /// What each prefix removed.
    Removed(Vec<Option<TodoItem>>),
    /// Items were marked done (or could not be).
    Marked(DoneReport),
    /// The buffer to hand to the editor; its edited text goes to `edit::apply_edit`.
    EditBuffer(String),
}

/// `run` on the subcommand `cmd` with the arguments `av` took the items from `old`
/// to `new` and reported `r`.
pub open spec fn run_post(cmd: Subcommand, av: Seq<ArgView>, old: Seq<TodoItem>, new: Seq<TodoItem>, r: Result<Outcome, CommandError>) -> bool {
    match cmd {
        Subcommand::Help => r matches Ok(Outcome::Help) && new == old,
        Subcommand::Version => r matches Ok(Outcome::Version) && new == old,
        Subcommand::Add => match r {
            Ok(Outcome::Added(rep)) => add_post(old, new, av, Ok(rep)),
            Err(e) => add_post(old, new, av, Err(e)),
            _ => false,
        },
        Subcommand::Log => r matches Ok(Outcome::Listed(v)) && v@ == listed(
            old,
            option_value(av, tag_key()),
            has_flag(av, done_key()),
        ) && new == old,
        Subcommand::Remove => match r {
            Ok(Outcome::Removed(outs)) => rm_post(old, new, av, Ok(outs)),
            Err(e) => rm_post(old, new, av, Err(e)),
            _ => false,
        },
        Subcommand::Done => match r {
            Ok(Outcome::Marked(rep)) => done_post(old, new, av, Ok(rep)),
            Err(e) => done_post(old, new, av, Err(e)),
            _ => false,
        },
        Subcommand::Edit => new == old && (old.len() == 0 ==> r == Err::<Outcome, CommandError>(
            CommandError::NothingToEdit,
        )) && (old.len() > 0 ==> (r matches Ok(Outcome::EditBuffer(b)) && b@ == edit_buffer(old))),
    }
}

/// Carries out the subcommand of `cmd_line` on `list`.
pub fn run(cmd_line: &CommandLine, list: &mut TodoList) -> (r: Result<Outcome, CommandError>)
    requires
        old(list).wf(),
    ensures
        final(list).wf(),
        run_post(cmd_line.subcommand, arg_views(cmd_line.args@), old(list)@, final(list)@, r),
{
    match cmd_line.subcommand {
        Subcommand::Help => Ok(Outcome::Help),
        Subcommand::Version => Ok(Outcome::Version),
        Subcommand::Add => match crate::add(list, &cmd_line.args) {
            Ok(rep) => Ok(Outcome::Added(rep)),
            Err(e) => Err(e),
        },
        Subcommand::Log => Ok(Outcome::Listed(log(list, &cmd_line.args))),
        Subcommand::Remove => match rm(list, &cmd_line.args) {
            Ok(outs) => Ok(Outcome::Removed(outs)),
            Err(e) => Err(e),
        },
        Subcommand::Done => match done(list, &cmd_line.args) {
            Ok(rep) => Ok(Outcome::Marked(rep)),
            Err(e) => Err(e),
        },
        Subcommand::Edit => match edit(list) {
            Ok(b) => Ok(Outcome::EditBuffer(b)),
            Err(e) => Err(e),
        },
    }
}

} // verus!
