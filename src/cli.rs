//! The command line: subcommands, the per-subcommand table of flags and
//! options, and the parser that classifies tokens against that table.
use vstd::prelude::*;

use crate::text::{chars_of, range_is, trim, trimmed};

verus! {

/// What the user asks the tool to do.
#[derive(Debug, Clone, Copy, PartialEq, Eq, Hash, Structural)]
pub enum Subcommand {
    Add,
    Log,
    Remove,
    Edit,
    Help,
    Done,
    Version,
}

/// Whether a switch stands alone or takes the next token as its value.
#[derive(Debug, Clone, Copy, PartialEq, Eq, Structural)]
pub enum ArgKind {
    Flag,
    Option,
}

/// One switch that a subcommand accepts.
#[derive(Debug)]
pub struct ArgSpec {
    pub name: String,
    pub short: char,
    pub long: String,
    pub kind: ArgKind,
}

/// A switch as plain values.
pub ghost struct SpecEntry {
    pub name: Seq<char>,
    pub short: char,
    pub long: Seq<char>,
    pub kind: ArgKind,
}

impl View for ArgSpec {
    type V = SpecEntry;

    open spec fn view(&self) -> SpecEntry {
        SpecEntry { name: self.name@, short: self.short, long: self.long@, kind: self.kind }
    }
}

/// An argument is a flag or an option for the subcommand, or a plain value.
#[derive(Debug, PartialEq)]
pub enum Arg {
    Option { name: String, value: String },
    Flag(String),
    Value(String),
}

/// An argument as plain values.
pub ghost enum ArgView {
    Option { name: Seq<char>, value: Seq<char> },
    Flag(Seq<char>),
    Value(Seq<char>),
}

impl View for Arg {
    type V = ArgView;

    open spec fn view(&self) -> ArgView {
        match self {
            Arg::Option { name, value } => ArgView::Option { name: name@, value: value@ },
            Arg::Flag(n) => ArgView::Flag(n@),
            Arg::Value(v) => ArgView::Value(v@),
        }
    }
}

/// Why a token sequence was refused: the switch, without its dashes.
#[derive(Debug, PartialEq)]
pub enum ParseError {
    UnknownArg(String),
    Missing(String),
}

/// A parse error as plain values.
pub ghost enum ParseFault {
    UnknownArg(Seq<char>),
    Missing(Seq<char>),
}

impl View for ParseError {
    type V = ParseFault;

    open spec fn view(&self) -> ParseFault {
        match self {
            ParseError::UnknownArg(a) => ParseFault::UnknownArg(a@),
            ParseError::Missing(a) => ParseFault::Missing(a@),
        }
    }
}

/// The views of a sequence of strings.
pub open spec fn string_views(v: Seq<String>) -> Seq<Seq<char>> {
    v.map_values(|t: String| t@)
}

/// The views of a sequence of arguments.
pub open spec fn arg_views(v: Seq<Arg>) -> Seq<ArgView> {
    v.map_values(|a: Arg| a@)
}

/// The views of a sequence of switches.
pub open spec fn spec_views(v: Seq<ArgSpec>) -> Seq<SpecEntry> {
    v.map_values(|s: ArgSpec| s@)
}

/// A parse outcome as plain values.
pub open spec fn outcome_view(r: Result<Vec<Arg>, ParseError>) -> Result<Seq<ArgView>, ParseFault> {
    match r {
        Ok(v) => Ok(arg_views(v@)),
        Err(e) => Err(e@),
    }
}

/// `e` is named `key`: by its long alias when `long`, else by its one-character short alias.
pub open spec fn entry_has_key(e: SpecEntry, key: Seq<char>, long: bool) -> bool {
    if long {
        e.long == key
    } else {
        key.len() == 1 && e.short == key[0]
    }
}

/// The first switch of `kind` at or after position `k` that is named `key`.
pub open spec fn first_with(specs: Seq<SpecEntry>, kind: ArgKind, key: Seq<char>, long: bool, k: int) -> Option<int>
    decreases specs.len() - k,
{
    if k < 0 || k >= specs.len() {
        None
    } else if specs[k].kind == kind && entry_has_key(specs[k], key, long) {
        Some(k)
    } else {
        first_with(specs, kind, key, long, k + 1)
    }
}

/// The switch named `key`: flags are looked at before options.
pub open spec fn lookup(specs: Seq<SpecEntry>, key: Seq<char>, long: bool) -> Option<int> {
    match first_with(specs, ArgKind::Flag, key, long, 0) {
        Some(k) => Some(k),
        None => first_with(specs, ArgKind::Option, key, long, 0),
    }
}

/// `a` placed before the arguments of `r`; an error stays as it is.
pub open spec fn prepend(a: ArgView, r: Result<Seq<ArgView>, ParseFault>) -> Result<Seq<ArgView>, ParseFault> {
    match r {
        Ok(s) => Ok(seq![a] + s),
        Err(e) => Err(e),
    }
}

/// The arguments `p` placed before those of `r`; an error stays as it is.
pub open spec fn after(p: Seq<ArgView>, r: Result<Seq<ArgView>, ParseFault>) -> Result<Seq<ArgView>, ParseFault> {
    match r {
        Ok(s) => Ok(p + s),
        Err(e) => Err(e),
    }
}

/// `t` starts with `--`.
pub open spec fn is_long(t: Seq<char>) -> bool {
    t.len() >= 2 && t[0] == '-' && t[1] == '-'
}

/// `t` starts with `-` but not with `--`.
pub open spec fn is_cluster(t: Seq<char>) -> bool {
    t.len() >= 1 && t[0] == '-' && !is_long(t)
}

/// The parse of `toks` from position `i` on, against the switches `specs`.
pub open spec fn parse_from(toks: Seq<Seq<char>>, specs: Seq<SpecEntry>, i: int) -> Result<Seq<ArgView>, ParseFault>
    decreases toks.len() - i, 1int, 0int,
{
    if i < 0 || i >= toks.len() {
        Ok(Seq::empty())
    } else {
        let t = toks[i];
        if is_long(t) {
            let key = t.skip(2);
            match lookup(specs, key, true) {
                None => Err(ParseFault::UnknownArg(key)),
                Some(k) => if specs[k].kind == ArgKind::Flag {
                    prepend(ArgView::Flag(specs[k].name), parse_from(toks, specs, i + 1))
                } else if i + 1 < toks.len() {
                    prepend(
                        ArgView::Option { name: specs[k].name, value: toks[i + 1] },
                        parse_from(toks, specs, i + 2),
                    )
                } else {
                    Err(ParseFault::Missing(key))
                },
            }
        } else if is_cluster(t) {
            parse_cluster(toks, specs, t.skip(1), 0, i)
        } else {
            prepend(ArgView::Value(t), parse_from(toks, specs, i + 1))
        }
    }
}

/// The parse from character `j` of the short-switch cluster `cs`, where `k` is the
/// position of the last token taken so far; then the parse of the tokens after it.
pub open spec fn parse_cluster(toks: Seq<Seq<char>>, specs: Seq<SpecEntry>, cs: Seq<char>, j: int, k: int) -> Result<Seq<ArgView>, ParseFault>
    decreases toks.len() - k, 0int, cs.len() - j,
{
    if j < 0 || k < 0 || k >= toks.len() {
        Ok(Seq::empty())
    } else if j >= cs.len() {
        parse_from(toks, specs, k + 1)
    } else {
        let key = seq![cs[j]];
        match lookup(specs, key, false) {
            None => Err(ParseFault::UnknownArg(key)),
            Some(m) => if specs[m].kind == ArgKind::Flag {
                prepend(ArgView::Flag(specs[m].name), parse_cluster(toks, specs, cs, j + 1, k))
            } else if k + 1 < toks.len() {
                prepend(
                    ArgView::Option { name: specs[m].name, value: toks[k + 1] },
                    parse_cluster(toks, specs, cs, j + 1, k + 1),
                )
            } else {
                Err(ParseFault::Missing(key))
            },
        }
    }
}

/// The whole parse of `toks` against `specs`.
pub open spec fn parse_tokens(toks: Seq<Seq<char>>, specs: Seq<SpecEntry>) -> Result<Seq<ArgView>, ParseFault> {
    parse_from(toks, specs, 0)
}

proof fn lemma_after_prepend(p: Seq<ArgView>, a: ArgView, r: Result<Seq<ArgView>, ParseFault>)
    ensures
        after(p, prepend(a, r)) == after(p.push(a), r),
{
    if let Ok(s) = r {
        assert(p + (seq![a] + s) =~= p.push(a) + s);
    }
}

/// The first switch of `kind` whose long alias is `name`.
fn first_long(specs: &Vec<ArgSpec>, kind: ArgKind, name: &String) -> (r: Option<usize>)
    ensures
        r matches Some(k) ==> first_with(spec_views(specs@), kind, name@, true, 0) == Some(k as int),
        r is None ==> first_with(spec_views(specs@), kind, name@, true, 0) is None,
{
    let ghost sv = spec_views(specs@);
    let mut k: usize = 0;
    while k < specs.len()
        invariant
            k <= specs.len(),
            sv == spec_views(specs@),
            first_with(sv, kind, name@, true, 0) == first_with(sv, kind, name@, true, k as int),
        decreases specs.len() - k,
    {
        assert(sv[k as int] == specs@[k as int]@);
        if specs[k].kind == kind && specs[k].long == *name {
            return Some(k);
        }
        k = k + 1;
    }
    None
}

/// The first switch of `kind` whose short alias is `c`.
fn first_short(specs: &Vec<ArgSpec>, kind: ArgKind, c: char) -> (r: Option<usize>)
    ensures
        r matches Some(k) ==> first_with(spec_views(specs@), kind, seq![c], false, 0) == Some(k as int),
        r is None ==> first_with(spec_views(specs@), kind, seq![c], false, 0) is None,
{
    let ghost sv = spec_views(specs@);
    let mut k: usize = 0;
    while k < specs.len()
        invariant
            k <= specs.len(),
            sv == spec_views(specs@),
            first_with(sv, kind, seq![c], false, 0) == first_with(sv, kind, seq![c], false, k as int),
        decreases specs.len() - k,
    {
        assert(sv[k as int] == specs@[k as int]@);
        if specs[k].kind == kind && specs[k].short == c {
            return Some(k);
        }
        k = k + 1;
    }
    None
}

/// The switch whose long alias is `name`, flags first.
fn find_long(specs: &Vec<ArgSpec>, name: &String) -> (r: Option<usize>)
    ensures
        r matches Some(k) ==> k < specs.len() && lookup(spec_views(specs@), name@, true) == Some(k as int),
        r is None ==> lookup(spec_views(specs@), name@, true) is None,
{
    match first_long(specs, ArgKind::Flag, name) {
        Some(k) => {
            proof { lemma_first_with_bound(spec_views(specs@), ArgKind::Flag, name@, true, 0); }
            Some(k)
        },
        None => {
            let r = first_long(specs, ArgKind::Option, name);
            proof { lemma_first_with_bound(spec_views(specs@), ArgKind::Option, name@, true, 0); }
            r
        },
    }
}

/// The switch whose short alias is `c`, flags first.
fn find_short(specs: &Vec<ArgSpec>, c: char) -> (r: Option<usize>)
    ensures
        r matches Some(k) ==> k < specs.len() && lookup(spec_views(specs@), seq![c], false) == Some(k as int),
        r is None ==> lookup(spec_views(specs@), seq![c], false) is None,
{
    match first_short(specs, ArgKind::Flag, c) {
        Some(k) => {
            proof { lemma_first_with_bound(spec_views(specs@), ArgKind::Flag, seq![c], false, 0); }
            Some(k)
        },
        None => {
            let r = first_short(specs, ArgKind::Option, c);
            proof { lemma_first_with_bound(spec_views(specs@), ArgKind::Option, seq![c], false, 0); }
            r
        },
    }
}

proof fn lemma_first_with_bound(specs: Seq<SpecEntry>, kind: ArgKind, key: Seq<char>, long: bool, k: int)
    ensures
        first_with(specs, kind, key, long, k) matches Some(m) ==> 0 <= m < specs.len(),
    decreases specs.len() - k,
{
    if 0 <= k < specs.len() {
        lemma_first_with_bound(specs, kind, key, long, k + 1);
    }
}

proof fn lemma_push_view(old_args: Seq<Arg>, a: Arg)
    ensures
        arg_views(old_args.push(a)) == arg_views(old_args).push(a@),
{
    assert(arg_views(old_args.push(a)) =~= arg_views(old_args).push(a@));
}

impl CommandLine {
    /// Classifies `tokens` against the switches `arg_spec` in one left-to-right pass:
    /// `--name` is a long switch, `-abc` a cluster of short switches, anything else a
    /// value; an option takes the next token not yet taken as its value.
    pub fn parse_args(tokens: Vec<String>, arg_spec: &Vec<ArgSpec>) -> (r: Result<Vec<Arg>, ParseError>)
        ensures
            outcome_view(r) == parse_tokens(string_views(tokens@), spec_views(arg_spec@)),
    {
        let ghost toks = string_views(tokens@);
        let ghost sv = spec_views(arg_spec@);
        let mut args: Vec<Arg> = Vec::new();
        let mut i: usize = 0;
        assert(arg_views(args@) + parse_from(toks, sv, 0)->Ok_0 =~= parse_from(toks, sv, 0)->Ok_0);
        while i < tokens.len()
            invariant
                i <= tokens.len(),
                toks == string_views(tokens@),
                sv == spec_views(arg_spec@),
                parse_from(toks, sv, 0) == after(arg_views(args@), parse_from(toks, sv, i as int)),
            decreases tokens.len() - i,
        {
            let token = &tokens[i];
            let tc = chars_of(token.as_str());
            assert(toks[i as int] == tc@);
            let ghost before = args@;
            if tc.len() >= 2 && tc[0] == '-' && tc[1] == '-' {
                let name = token.as_str().substring_char(2, tc.len()).to_owned();
                assert(name@ =~= toks[i as int].skip(2));
                match find_long(arg_spec, &name) {
                    Some(k) => {
                        assert(sv[k as int] == arg_spec@[k as int]@);
                        if arg_spec[k].kind == ArgKind::Flag {
                            let a = Arg::Flag(arg_spec[k].name.clone());
                            proof {
                                lemma_after_prepend(arg_views(args@), a@, parse_from(toks, sv, i + 1));
                                lemma_push_view(before, a);
                            }
                            args.push(a);
                        } else if i + 1 < tokens.len() {
                            let a = Arg::Option { name: arg_spec[k].name.clone(), value: tokens[i + 1].clone() };
                            proof {
                                lemma_after_prepend(arg_views(args@), a@, parse_from(toks, sv, i + 2));
                                lemma_push_view(before, a);
                            }
                            args.push(a);
                            i = i + 1;
                        } else {
                            return Err(ParseError::Missing(name));
                        }
                    },
                    None => {
                        return Err(ParseError::UnknownArg(name));
                    },
                }
            } else if tc.len() >= 1 && tc[0] == '-' {
                let ghost cs = toks[i as int].skip(1);
                let ghost at = i;
                let mut j: usize = 1;
                while j < tc.len()
                    invariant
                        1 <= j <= tc.len(),
                        at <= i < tokens.len(),
                        toks == string_views(tokens@),
                        sv == spec_views(arg_spec@),
                        tc@ == toks[at as int],
                        cs == tc@.skip(1),
                        token@ == tc@,
                        parse_from(toks, sv, 0) == after(
                            arg_views(args@),
                            parse_cluster(toks, sv, cs, j - 1, i as int),
                        ),
                    decreases tc.len() - j,
                {
                    let c = tc[j];
                    let key = token.as_str().substring_char(j, j + 1).to_owned();
                    assert(key@ =~= seq![cs[j - 1]]);
                    let ghost before_c = args@;
                    match find_short(arg_spec, c) {
                        Some(k) => {
                            assert(sv[k as int] == arg_spec@[k as int]@);
                            if arg_spec[k].kind == ArgKind::Flag {
                                let a = Arg::Flag(arg_spec[k].name.clone());
                                proof {
                                    lemma_after_prepend(
                                        arg_views(args@),
                                        a@,
                                        parse_cluster(toks, sv, cs, j as int, i as int),
                                    );
                                    lemma_push_view(before_c, a);
                                }
                                args.push(a);
                            } else if i + 1 < tokens.len() {
                                let a = Arg::Option {
                                    name: arg_spec[k].name.clone(),
                                    value: tokens[i + 1].clone(),
                                };
                                proof {
                                    lemma_after_prepend(
                                        arg_views(args@),
                                        a@,
                                        parse_cluster(toks, sv, cs, j as int, i + 1),
                                    );
                                    lemma_push_view(before_c, a);
                                }
                                args.push(a);
                                i = i + 1;
                            } else {
                                return Err(ParseError::Missing(key));
                            }
                        },
                        None => {
                            return Err(ParseError::UnknownArg(key));
                        },
                    }
                    j = j + 1;
                }
            } else {
                let a = Arg::Value(token.clone());
                proof {
                    lemma_after_prepend(arg_views(args@), a@, parse_from(toks, sv, i + 1));
                    lemma_push_view(before, a);
                }
                args.push(a);
            }
            i = i + 1;
        }
        assert(arg_views(args@) + Seq::<ArgView>::empty() =~= arg_views(args@));
        Ok(args)
    }
}

/// The `help` flag, which every subcommand accepts.
pub open spec fn help_entry() -> SpecEntry {
    SpecEntry { name: seq!['h', 'e', 'l', 'p'], short: 'h', long: seq!['h', 'e', 'l', 'p'], kind: ArgKind::Flag }
}

/// The `tag` option, `-t` / `--tag`.
pub open spec fn tag_entry() -> SpecEntry {
    SpecEntry { name: seq!['t', 'a', 'g'], short: 't', long: seq!['t', 'a', 'g'], kind: ArgKind::Option }
}

/// The `done` flag, `-d` / `--done`.
pub open spec fn done_entry() -> SpecEntry {
    SpecEntry { name: seq!['d', 'o', 'n', 'e'], short: 'd', long: seq!['d', 'o', 'n', 'e'], kind: ArgKind::Flag }
}

/// The `undone` flag, `-u` / `--undone`.
pub open spec fn undone_entry() -> SpecEntry {
    SpecEntry {
        name: seq!['u', 'n', 'd', 'o', 'n', 'e'],
        short: 'u',
        long: seq!['u', 'n', 'd', 'o', 'n', 'e'],
        kind: ArgKind::Flag,
    }
}

/// The switches that each subcommand accepts.
pub open spec fn arg_table(cmd: Subcommand) -> Seq<SpecEntry> {
    match cmd {
        Subcommand::Add => seq![tag_entry(), help_entry()],
        Subcommand::Log => seq![tag_entry(), done_entry(), undone_entry(), help_entry()],
        Subcommand::Remove => seq![done_entry(), help_entry()],
        _ => seq![help_entry()],
    }
}

fn switch(name: &str, short: char, long: &str, kind: ArgKind) -> (r: ArgSpec)
    ensures
        r@ == (SpecEntry { name: name@, short: short, long: long@, kind: kind }),
{
    ArgSpec { name: name.to_owned(), short, long: long.to_owned(), kind }
}

fn help_switch() -> (r: ArgSpec)
    ensures
        r@ == help_entry(),
{
    proof {
        reveal_strlit("help");
    }
    let r = switch("help", 'h', "help", ArgKind::Flag);
    assert(r@.name =~= help_entry().name);
    r
}

fn tag_switch() -> (r: ArgSpec)
    ensures
        r@ == tag_entry(),
{
    proof {
        reveal_strlit("tag");
    }
    let r = switch("tag", 't', "tag", ArgKind::Option);
    assert(r@.name =~= tag_entry().name);
    r
}

fn done_switch() -> (r: ArgSpec)
    ensures
        r@ == done_entry(),
{
    proof {
        reveal_strlit("done");
    }
    let r = switch("done", 'd', "done", ArgKind::Flag);
    assert(r@.name =~= done_entry().name);
    r
}

fn undone_switch() -> (r: ArgSpec)
    ensures
        r@ == undone_entry(),
{
    proof {
        reveal_strlit("undone");
    }
    let r = switch("undone", 'u', "undone", ArgKind::Flag);
    assert(r@.name =~= undone_entry().name);
    r
}

/// The switches that `cmd` accepts.
pub fn get_arg_specs_for(cmd: Subcommand) -> (r: Vec<ArgSpec>)
    ensures
        spec_views(r@) == arg_table(cmd),
{
    let mut r: Vec<ArgSpec> = Vec::new();
    match cmd {
        Subcommand::Add => {
            r.push(tag_switch());
        },
        Subcommand::Log => {
            r.push(tag_switch());
            r.push(done_switch());
            r.push(undone_switch());
        },
        Subcommand::Remove => {
            r.push(done_switch());
        },
        _ => {},
    }
    r.push(help_switch());
    assert(spec_views(r@) =~= arg_table(cmd));
    r
}

/// The subcommand that a lower-case name stands for.
pub open spec fn subcommand_named(s: Seq<char>) -> Option<Subcommand> {
    if s == seq!['a', 'd', 'd'] {
        Some(Subcommand::Add)
    } else if s == seq!['r', 'm'] {
        Some(Subcommand::Remove)
    } else if s == seq!['l', 'o', 'g'] {
        Some(Subcommand::Log)
    } else if s == seq!['e', 'd', 'i', 't'] {
        Some(Subcommand::Edit)
    } else if s == seq!['d', 'o', 'n', 'e'] {
        Some(Subcommand::Done)
    } else if s == seq!['-', '-', 'h', 'e', 'l', 'p'] || s == seq!['h', 'e', 'l', 'p'] || s == seq![
        '-',
        'h',
    ] {
        Some(Subcommand::Help)
    } else if s == seq!['-', '-', 'v', 'e', 'r', 's', 'i', 'o', 'n'] || s == seq![
        'v',
        'e',
        'r',
        's',
        'i',
        'o',
        'n',
    ] {
        Some(Subcommand::Version)
    } else {
        None
    }
}

/// The Unicode lower-case mapping of a string, as `str::to_lowercase` computes it.
pub uninterp spec fn lower_of(s: Seq<char>) -> Seq<char>;

/// Relies on `str::to_lowercase`: the lower-case mapping of the characters, which
/// depends on them alone.
#[verifier::external_body]
fn lowercase(s: &str) -> (r: String)
    ensures
        r@ == lower_of(s@),
{
    s.to_lowercase()
}

fn chars_are(v: &Vec<char>, lit: &str) -> (r: bool)
    ensures
        r == (v@ == lit@),
{
    let r = range_is(v, 0, v.len(), lit);
    assert(v@.subrange(0, v@.len() as int) =~= v@);
    r
}

impl Subcommand {
    /// The subcommand that an already lower-cased name stands for.
    pub fn from_lowercase(name: &str) -> (r: Option<Subcommand>)
        ensures
            r == subcommand_named(name@),
    {
        let v = chars_of(name);
        proof {
            reveal_strlit("add");
            reveal_strlit("rm");
            reveal_strlit("log");
            reveal_strlit("edit");
            reveal_strlit("done");
            reveal_strlit("--help");
            reveal_strlit("help");
            reveal_strlit("-h");
            reveal_strlit("--version");
            reveal_strlit("version");
            assert("add"@ =~= seq!['a', 'd', 'd']);
            assert("rm"@ =~= seq!['r', 'm']);
            assert("log"@ =~= seq!['l', 'o', 'g']);
            assert("edit"@ =~= seq!['e', 'd', 'i', 't']);
            assert("done"@ =~= seq!['d', 'o', 'n', 'e']);
            assert("--help"@ =~= seq!['-', '-', 'h', 'e', 'l', 'p']);
            assert("help"@ =~= seq!['h', 'e', 'l', 'p']);
            assert("-h"@ =~= seq!['-', 'h']);
            assert("--version"@ =~= seq!['-', '-', 'v', 'e', 'r', 's', 'i', 'o', 'n']);
            assert("version"@ =~= seq!['v', 'e', 'r', 's', 'i', 'o', 'n']);
        }
        if chars_are(&v, "add") {
            Some(Subcommand::Add)
        } else if chars_are(&v, "rm") {
            Some(Subcommand::Remove)
        } else if chars_are(&v, "log") {
            Some(Subcommand::Log)
        } else if chars_are(&v, "edit") {
            Some(Subcommand::Edit)
        } else if chars_are(&v, "done") {
            Some(Subcommand::Done)
        } else if chars_are(&v, "--help")
            || chars_are(&v, "help")
            || chars_are(&v, "-h") {
            Some(Subcommand::Help)
        } else if chars_are(&v, "--version")
            || chars_are(&v, "version") {
            Some(Subcommand::Version)
        } else {
            None
        }
    }

    /// The subcommand that `s` names, compared without regard to case.
    pub fn from_str(s: &str) -> (r: Option<Subcommand>)
        ensures
            r == subcommand_named(lower_of(s@)),
    {
        let lowered = lowercase(s);
        Subcommand::from_lowercase(lowered.as_str())
    }
}

/// The position of the first option named `name` at or after `k`.
pub open spec fn first_option(args: Seq<ArgView>, name: Seq<char>, k: int) -> Option<int>
    decreases args.len() - k,
{
    if k < 0 || k >= args.len() {
        None
    } else if args[k] is Option && args[k]->Option_name == name {
        Some(k)
    } else {
        first_option(args, name, k + 1)
    }
}

/// The value of the first option named `name`.
pub open spec fn option_value(args: Seq<ArgView>, name: Seq<char>) -> Option<Seq<char>> {
    match first_option(args, name, 0) {
        Some(k) => Some(args[k]->Option_value),
        None => None,
    }
}

/// Some argument is the flag `name`.
pub open spec fn has_flag(args: Seq<ArgView>, name: Seq<char>) -> bool {
    exists|k: int| 0 <= k < args.len() && args[k] == ArgView::Flag(name)
}

impl Arg {
    /// The value of the first option named `option_name`, if there is one.
    pub fn get_option(args: &[Arg], option_name: &String) -> (r: Option<String>)
        ensures
            r matches Some(v) ==> option_value(arg_views(args@), option_name@) == Some(v@),
            r is None ==> option_value(arg_views(args@), option_name@) is None,
    {
        let ghost av = arg_views(args@);
        let mut k: usize = 0;
        while k < args.len()
            invariant
                k <= args.len(),
                av == arg_views(args@),
                first_option(av, option_name@, 0) == first_option(av, option_name@, k as int),
            decreases args.len() - k,
        {
            assert(av[k as int] == args@[k as int]@);
            match &args[k] {
                Arg::Option { name, value } => {
                    if *name == *option_name {
                        return Some(value.clone());
                    }
                },
                _ => {},
            }
            k = k + 1;
        }
        None
    }

    /// Tells whether one of `args` is the flag `flag_name`.
    pub fn get_flag(args: &[Arg], flag_name: &String) -> (r: bool)
        ensures
            r == has_flag(arg_views(args@), flag_name@),
    {
        let ghost av = arg_views(args@);
        let mut k: usize = 0;
        while k < args.len()
            invariant
                k <= args.len(),
                av == arg_views(args@),
                forall|m: int| 0 <= m < k ==> av[m] != ArgView::Flag(flag_name@),
            decreases args.len() - k,
        {
            assert(av[k as int] == args@[k as int]@);
            match &args[k] {
                Arg::Flag(name) => {
                    if *name == *flag_name {
                        return true;
                    }
                },
                _ => {},
            }
            k = k + 1;
        }
        false
    }
}

/// A parsed invocation: the subcommand and its classified arguments.
#[derive(Debug, PartialEq)]
pub struct CommandLine {
    pub subcommand: Subcommand,
    pub args: Vec<Arg>,
}

/// Why a command line was refused.
#[derive(Debug, PartialEq)]
pub enum CliError {
    /// Only the program name was given.
    InvalidUse,
    /// No token at all was given.
    CommandNotFound,
    /// The subcommand token names no subcommand.
    UnknownSubcommand(String),
    /// A switch that the subcommand does not accept.
    UnknownArgument { arg: String, subcommand: Subcommand },
    /// An option with no token after it.
    MissingValue(String),
}

/// A command-line error as plain values.
pub ghost enum CliFault {
    InvalidUse,
    CommandNotFound,
    UnknownSubcommand(Seq<char>),
    UnknownArgument(Seq<char>, Subcommand),
    MissingValue(Seq<char>),
}

impl View for CliError {
    type V = CliFault;

    open spec fn view(&self) -> CliFault {
        match self {
            CliError::InvalidUse => CliFault::InvalidUse,
            CliError::CommandNotFound => CliFault::CommandNotFound,
            CliError::UnknownSubcommand(s) => CliFault::UnknownSubcommand(s@),
            CliError::UnknownArgument { arg, subcommand } => CliFault::UnknownArgument(arg@, *subcommand),
            CliError::MissingValue(s) => CliFault::MissingValue(s@),
        }
    }
}

/// What a command line (program name first) stands for.
pub open spec fn command_line_of(toks: Seq<Seq<char>>) -> Result<(Subcommand, Seq<ArgView>), CliFault> {
    if toks.len() == 0 {
        Err(CliFault::CommandNotFound)
    } else if toks.len() == 1 {
        Err(CliFault::InvalidUse)
    } else {
        match subcommand_named(lower_of(toks[1])) {
            None => Err(CliFault::UnknownSubcommand(toks[1])),
            Some(cmd) => match parse_tokens(toks.skip(2), arg_table(cmd)) {
                Ok(a) => Ok((cmd, a)),
                Err(ParseFault::UnknownArg(x)) => Err(CliFault::UnknownArgument(x, cmd)),
                Err(ParseFault::Missing(x)) => Err(CliFault::MissingValue(x)),
            },
        }
    }
}

/// A command-line outcome as plain values.
pub open spec fn cli_view(r: Result<CommandLine, CliError>) -> Result<(Subcommand, Seq<ArgView>), CliFault> {
    match r {
        Ok(c) => Ok((c.subcommand, arg_views(c.args@))),
        Err(e) => Err(e@),
    }
}

/// The parse from position `i` reads only the tokens from `i` on: two token
/// sequences that agree from `m` on, the second shifted by `d`, parse alike there.
proof fn lemma_parse_shift(t1: Seq<Seq<char>>, t2: Seq<Seq<char>>, specs: Seq<SpecEntry>, m: int, d: int, i: int)
    requires
        0 <= m <= i,
        m + d >= 0,
        t1.len() + d == t2.len(),
        forall|k: int| m <= k < t1.len() ==> #[trigger] t1[k] == t2[k + d],
    ensures
        parse_from(t1, specs, i) == parse_from(t2, specs, i + d),
    decreases t1.len() - i, 1int, 0int,
{
    if i < t1.len() {
        let t = t1[i];
        assert(t2[i + d] == t);
        if is_long(t) {
            lemma_parse_shift(t1, t2, specs, m, d, i + 1);
            if i + 1 < t1.len() {
                assert(t2[i + 1 + d] == t1[i + 1]);
                lemma_parse_shift(t1, t2, specs, m, d, i + 2);
            }
        } else if is_cluster(t) {
            lemma_cluster_shift(t1, t2, specs, t.skip(1), 0, i, m, d);
        } else {
            lemma_parse_shift(t1, t2, specs, m, d, i + 1);
        }
    }
}

proof fn lemma_cluster_shift(
    t1: Seq<Seq<char>>,
    t2: Seq<Seq<char>>,
    specs: Seq<SpecEntry>,
    cs: Seq<char>,
    j: int,
    k: int,
    m: int,
    d: int,
)
    requires
        0 <= m <= k,
        0 <= j,
        m + d >= 0,
        t1.len() + d == t2.len(),
        forall|x: int| m <= x < t1.len() ==> #[trigger] t1[x] == t2[x + d],
    ensures
        parse_cluster(t1, specs, cs, j, k) == parse_cluster(t2, specs, cs, j, k + d),
    decreases t1.len() - k, 0int, cs.len() - j,
{
    if k < t1.len() {
        if j >= cs.len() {
            lemma_parse_shift(t1, t2, specs, m, d, k + 1);
        } else {
            lemma_cluster_shift(t1, t2, specs, cs, j + 1, k, m, d);
            if k + 1 < t1.len() {
                assert(t2[k + 1 + d] == t1[k + 1]);
                lemma_cluster_shift(t1, t2, specs, cs, j + 1, k + 1, m, d);
            }
        }
    }
}

/// A parse of `t` that succeeds from `i` is unchanged by tokens appended after
/// `t`: the parse of `t + u` from `i` is its arguments, then the parse of `u`.
proof fn lemma_parse_extend(t: Seq<Seq<char>>, u: Seq<Seq<char>>, specs: Seq<SpecEntry>, i: int)
    requires
        0 <= i <= t.len(),
        parse_from(t, specs, i) is Ok,
    ensures
        parse_from(t + u, specs, i) == after(parse_from(t, specs, i)->Ok_0, parse_from(t + u, specs, t.len() as int)),
    decreases t.len() - i, 1int, 0int,
{
    let tu = t + u;
    if i == t.len() {
        let r = parse_from(tu, specs, i);
        if let Ok(a) = r {
            assert(Seq::<ArgView>::empty() + a =~= a);
        }
    } else {
        let tok = t[i];
        assert(tu[i] == tok);
        if is_long(tok) {
            let key = tok.skip(2);
            let k = lookup(specs, key, true)->0;
            if specs[k].kind == ArgKind::Flag {
                lemma_parse_extend(t, u, specs, i + 1);
                lemma_after_assoc(seq![ArgView::Flag(specs[k].name)], parse_from(t, specs, i + 1)->Ok_0, parse_from(tu, specs, t.len() as int));
            } else {
                assert(tu[i + 1] == t[i + 1]);
                lemma_parse_extend(t, u, specs, i + 2);
                lemma_after_assoc(
                    seq![ArgView::Option { name: specs[k].name, value: t[i + 1] }],
                    parse_from(t, specs, i + 2)->Ok_0,
                    parse_from(tu, specs, t.len() as int),
                );
            }
        } else if is_cluster(tok) {
            lemma_cluster_extend(t, u, specs, tok.skip(1), 0, i);
        } else {
            lemma_parse_extend(t, u, specs, i + 1);
            lemma_after_assoc(seq![ArgView::Value(tok)], parse_from(t, specs, i + 1)->Ok_0, parse_from(tu, specs, t.len() as int));
        }
    }
}

proof fn lemma_cluster_extend(t: Seq<Seq<char>>, u: Seq<Seq<char>>, specs: Seq<SpecEntry>, cs: Seq<char>, j: int, k: int)
    requires
        0 <= k < t.len(),
        0 <= j,
        parse_cluster(t, specs, cs, j, k) is Ok,
    ensures
        parse_cluster(t + u, specs, cs, j, k) == after(parse_cluster(t, specs, cs, j, k)->Ok_0, parse_from(t + u, specs, t.len() as int)),
    decreases t.len() - k, 0int, cs.len() - j,
{
    let tu = t + u;
    if j >= cs.len() {
        lemma_parse_extend(t, u, specs, k + 1);
    } else {
        let key = seq![cs[j]];
        let m = lookup(specs, key, false)->0;
        if specs[m].kind == ArgKind::Flag {
            lemma_cluster_extend(t, u, specs, cs, j + 1, k);
            lemma_after_assoc(seq![ArgView::Flag(specs[m].name)], parse_cluster(t, specs, cs, j + 1, k)->Ok_0, parse_from(tu, specs, t.len() as int));
        } else {
            assert(tu[k + 1] == t[k + 1]);
            lemma_cluster_extend(t, u, specs, cs, j + 1, k + 1);
            lemma_after_assoc(
                seq![ArgView::Option { name: specs[m].name, value: t[k + 1] }],
                parse_cluster(t, specs, cs, j + 1, k + 1)->Ok_0,
                parse_from(tu, specs, t.len() as int),
            );
        }
    }
}

proof fn lemma_after_assoc(a: Seq<ArgView>, b: Seq<ArgView>, r: Result<Seq<ArgView>, ParseFault>)
    ensures
        after(a, after(b, r)) == after(a + b, r),
{
    if let Ok(s) = r {
        assert(a + (b + s) =~= (a + b) + s);
    }
}

/// The long and the short form of the `tag` option parse alike: on the switches
/// of `add` or `log`, `--tag v` followed by any tokens parses as `-t v` followed
/// by the same tokens, and a parse that succeeds starts with the option `tag`
/// holding `v`.
pub proof fn law_tag_long_short(cmd: Subcommand, v: Seq<char>, rest: Seq<Seq<char>>)
    requires
        cmd == Subcommand::Add || cmd == Subcommand::Log,
    ensures
        parse_tokens(seq![seq!['-', '-', 't', 'a', 'g'], v] + rest, arg_table(cmd)) == parse_tokens(
            seq![seq!['-', 't'], v] + rest,
            arg_table(cmd),
        ),
        parse_tokens(seq![seq!['-', '-', 't', 'a', 'g'], v] + rest, arg_table(cmd)) matches Ok(a)
            ==> a[0] == (ArgView::Option { name: seq!['t', 'a', 'g'], value: v }),
{
    let table = arg_table(cmd);
    let t1 = seq![seq!['-', '-', 't', 'a', 'g'], v] + rest;
    let t2 = seq![seq!['-', 't'], v] + rest;
    reveal_with_fuel(first_with, 6);
    assert(t1[0] == seq!['-', '-', 't', 'a', 'g']);
    assert(t2[0] == seq!['-', 't']);
    assert(t1[1] == v && t2[1] == v);
    assert(t1[0].skip(2) =~= seq!['t', 'a', 'g']);
    assert(t2[0].skip(1) =~= seq!['t']);
    assert(lookup(table, seq!['t', 'a', 'g'], true) == Some(0int));
    assert(lookup(table, seq!['t'], false) == Some(0int));
    assert forall|k: int| 1 <= k < t1.len() implies #[trigger] t1[k] == t2[k + 0] by {}
    lemma_parse_shift(t1, t2, table, 1, 0, 2);
    let opt = ArgView::Option { name: seq!['t', 'a', 'g'], value: v };
    assert(table[0].name == seq!['t', 'a', 'g']);
    assert(table[0].kind == ArgKind::Option);
    assert(is_long(t1[0]));
    assert(parse_from(t1, table, 0) == prepend(opt, parse_from(t1, table, 2)));
    assert(!is_long(t2[0]) && is_cluster(t2[0]));
    assert(seq![seq!['t'][0]] =~= seq!['t']);
    assert(parse_cluster(t2, table, seq!['t'], 1, 1) == parse_from(t2, table, 2));
    assert(parse_cluster(t2, table, seq!['t'], 0, 0) == prepend(
        opt,
        parse_cluster(t2, table, seq!['t'], 1, 1),
    ));
    assert(parse_from(t2, table, 0) == parse_cluster(t2, table, seq!['t'], 0, 0));
}

proof fn lemma_cluster_from(cs: Seq<char>, rest: Seq<Seq<char>>, specs: Seq<SpecEntry>, j: int)
    requires
        0 <= j <= cs.len(),
        cs.len() >= 1,
        forall|i: int|
            0 <= i < cs.len() ==> #[trigger] cs[i] != '-' && (lookup(specs, seq![cs[i]], false) matches Some(
                k,
            ) && specs[k].kind == ArgKind::Flag),
    ensures
        parse_cluster(seq![seq!['-'] + cs] + rest, specs, cs, j, 0) == parse_from(
            cs.map_values(|c: char| seq!['-', c]) + rest,
            specs,
            j,
        ),
    decreases cs.len() - j,
{
    let t1 = seq![seq!['-'] + cs] + rest;
    let t2 = cs.map_values(|c: char| seq!['-', c]) + rest;
    let n = cs.len() as int;
    if j == n {
        assert forall|x: int| 1 <= x < t1.len() implies #[trigger] t1[x] == t2[x + (n - 1)] by {
            assert(t1[x] == rest[x - 1]);
            assert(t2[x + (n - 1)] == rest[x - 1]);
        }
        lemma_parse_shift(t1, t2, specs, 1, n - 1, 1);
    } else {
        lemma_cluster_from(cs, rest, specs, j + 1);
        let c = cs[j];
        assert(c != '-');
        let k = lookup(specs, seq![c], false)->0;
        let fl = ArgView::Flag(specs[k].name);
        assert(t2[j] == seq!['-', c]);
        assert(seq!['-', c].skip(1) =~= seq![c]);
        assert(seq![seq![c][0]] =~= seq![c]);
        assert(!is_long(t2[j]) && is_cluster(t2[j]));
        assert(parse_cluster(t2, specs, seq![c], 1, j) == parse_from(t2, specs, j + 1));
        assert(parse_cluster(t2, specs, seq![c], 0, j) == prepend(fl, parse_cluster(t2, specs, seq![c], 1, j)));
        assert(parse_from(t2, specs, j) == parse_cluster(t2, specs, seq![c], 0, j));
        assert(parse_cluster(t1, specs, cs, j, 0) == prepend(fl, parse_cluster(t1, specs, cs, j + 1, 0)));
    }
}

/// A cluster of short flags parses as those flags written one by one:
/// `-c1c2...ck` followed by any tokens gives what `-c1 -c2 ... -ck` followed by
/// the same tokens gives, when each character names a flag and is not a dash.
pub proof fn law_cluster_as_separate_flags(cs: Seq<char>, rest: Seq<Seq<char>>, specs: Seq<SpecEntry>)
    requires
        cs.len() >= 1,
        forall|i: int|
            0 <= i < cs.len() ==> #[trigger] cs[i] != '-' && (lookup(specs, seq![cs[i]], false) matches Some(
                k,
            ) && specs[k].kind == ArgKind::Flag),
    ensures
        parse_tokens(seq![seq!['-'] + cs] + rest, specs) == parse_tokens(
            cs.map_values(|c: char| seq!['-', c]) + rest,
            specs,
        ),
{
    let t1 = seq![seq!['-'] + cs] + rest;
    assert(t1[0] == seq!['-'] + cs);
    assert(t1[0][1] == cs[0]);
    assert(t1[0].skip(1) =~= cs);
    lemma_cluster_from(cs, rest, specs, 0);
}

/// An option with nothing after it is refused, whatever parsed before it: when
/// `toks` parses, `toks` followed by `--key`, the long alias of an option that no
/// flag shares, fails because `key` lacks its value.
pub proof fn law_missing_value(toks: Seq<Seq<char>>, specs: Seq<SpecEntry>, key: Seq<char>)
    requires
        parse_tokens(toks, specs) is Ok,
        lookup(specs, key, true) matches Some(k) && specs[k].kind == ArgKind::Option,
    ensures
        parse_tokens(toks.push(seq!['-', '-'] + key), specs) == Err::<Seq<ArgView>, ParseFault>(
            ParseFault::Missing(key),
        ),
{
    let x = seq!['-', '-'] + key;
    let tu = toks + seq![x];
    assert(toks.push(x) =~= tu);
    lemma_parse_extend(toks, seq![x], specs, 0);
    assert(tu[toks.len() as int] == x);
    assert(x.skip(2) =~= key);
}

/// The same for a short alias: when `toks` parses, `toks` followed by `-c`, the
/// short alias of an option that no flag shares, fails because `c` lacks its value.
pub proof fn law_missing_value_short(toks: Seq<Seq<char>>, specs: Seq<SpecEntry>, c: char)
    requires
        parse_tokens(toks, specs) is Ok,
        c != '-',
        lookup(specs, seq![c], false) matches Some(k) && specs[k].kind == ArgKind::Option,
    ensures
        parse_tokens(toks.push(seq!['-', c]), specs) == Err::<Seq<ArgView>, ParseFault>(
            ParseFault::Missing(seq![c]),
        ),
{
    let x = seq!['-', c];
    let tu = toks + seq![x];
    assert(toks.push(x) =~= tu);
    lemma_parse_extend(toks, seq![x], specs, 0);
    assert(tu[toks.len() as int] == x);
    assert(x.skip(1) =~= seq![c]);
    assert(seq![seq![c][0]] =~= seq![c]);
    assert(!is_long(x) && is_cluster(x));
    let len = toks.len() as int;
    assert(parse_cluster(tu, specs, seq![c], 0, len) == Err::<Seq<ArgView>, ParseFault>(
        ParseFault::Missing(seq![c]),
    ));
    assert(parse_from(tu, specs, len) == parse_cluster(tu, specs, seq![c], 0, len));
}

/// The lines of piped input as extra tokens: each trimmed, the empty ones left out.
pub open spec fn piped_tokens(lines: Seq<Seq<char>>) -> Seq<Seq<char>>
    decreases lines.len(),
{
    if lines.len() == 0 {
        Seq::empty()
    } else {
        let p = piped_tokens(lines.drop_last());
        let t = trimmed(lines.last());
        if t.len() == 0 {
            p
        } else {
            p.push(t)
        }
    }
}

/// Turns lines of piped input into extra tokens: each trimmed, the empty ones left out.
pub fn tokens_from_lines(lines: &Vec<String>) -> (r: Vec<String>)
    ensures
        string_views(r@) == piped_tokens(string_views(lines@)),
{
    let ghost lv = string_views(lines@);
    let mut r: Vec<String> = Vec::new();
    let mut k: usize = 0;
    assert(lv.take(0) =~= Seq::<Seq<char>>::empty());
    while k < lines.len()
        invariant
            k <= lines.len(),
            lv == string_views(lines@),
            string_views(r@) == piped_tokens(lv.take(k as int)),
        decreases lines.len() - k,
    {
        assert(lv.take(k + 1).drop_last() =~= lv.take(k as int));
        assert(lv.take(k + 1).last() == lines@[k as int]@);
        let t = trim(lines[k].as_str());
        if t.as_str().unicode_len() > 0 {
            let ghost before = r@;
            r.push(t);
            assert(string_views(r@) =~= string_views(before).push(t@));
        }
        k = k + 1;
    }
    assert(lv.take(lines.len() as int) =~= lv);
    r
}

/// Parsing is deterministic: any two outcomes that meet the contract of
/// `CommandLine::new` on the same tokens are the same subcommand and the same
/// arguments, or the same error.
pub proof fn law_parse_deterministic(
    t1: Seq<String>,
    t2: Seq<String>,
    r1: Result<CommandLine, CliError>,
    r2: Result<CommandLine, CliError>,
)
    requires
        string_views(t1) == string_views(t2),
        cli_view(r1) == command_line_of(string_views(t1)),
        cli_view(r2) == command_line_of(string_views(t2)),
    ensures
        cli_view(r1) == cli_view(r2),
{
}

impl CommandLine {
    /// Reads a command line: the program name, the subcommand, then its arguments.
    pub fn new(tokens: Vec<String>) -> (r: Result<CommandLine, CliError>)
        ensures
            cli_view(r) == command_line_of(string_views(tokens@)),
    {
        if tokens.len() == 0 {
            return Err(CliError::CommandNotFound);
        }
        if tokens.len() == 1 {
            return Err(CliError::InvalidUse);
        }
        let subcommand = match Subcommand::from_str(tokens[1].as_str()) {
            Some(cmd) => cmd,
            None => {
                return Err(CliError::UnknownSubcommand(tokens[1].clone()));
            },
        };
        let mut rest: Vec<String> = Vec::new();
        let mut k: usize = 2;
        while k < tokens.len()
            invariant
                2 <= k <= tokens.len(),
                string_views(rest@) == string_views(tokens@).subrange(2, k as int),
            decreases tokens.len() - k,
        {
            let ghost before = rest@;
            let t = tokens[k].clone();
            rest.push(t);
            assert(rest@ == before.push(tokens@[k as int]));
            assert(string_views(rest@) =~= string_views(before).push(tokens@[k as int]@));
            assert(string_views(rest@) =~= string_views(tokens@).subrange(2, k + 1));
            k = k + 1;
        }
        assert(string_views(tokens@).subrange(2, tokens.len() as int) =~= string_views(tokens@).skip(2));
        let arg_spec = get_arg_specs_for(subcommand);
        match CommandLine::parse_args(rest, &arg_spec) {
            Ok(args) => Ok(CommandLine { subcommand, args }),
            Err(ParseError::Missing(arg)) => Err(CliError::MissingValue(arg)),
            Err(ParseError::UnknownArg(arg)) => Err(CliError::UnknownArgument { arg, subcommand }),
        }
    }
}

} // verus!
