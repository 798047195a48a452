//! A command line read the way Go's flag package reads one, since the scripts
//! drive the client and the Go servers with the same flags: `-name=value`,
//! `-name value`, `--name=value`, and a bare `-name` for a boolean. A flag has no
//! more than two dashes, and "--" ends the flags. The last value of a repeated
//! flag wins, which the scripts rely on to let a flag given on the command line
//! override one they put in front of it.

use std::time::Duration;
use vstd::prelude::*;

use crate::clock;
use crate::clock::duration_of;
pub use crate::duration::parse_duration;
use crate::order::{place_chars, Place};
use crate::text::{
    chars_of, debug_string, i64_text, index_from, lead, parse_i64, same, string_of,
};

verus! {

/// What a flag's value is.
#[derive(Clone, Copy, PartialEq, Eq, Structural)]
pub enum Kind {
    Bool,
    Int,
    Str,
    Duration,
}

struct Flag {
    kind: Kind,
    default: String,
    usage: String,
    value: Option<String>,
}

/// A flag, by its texts.
pub struct FlagView {
    pub kind: Kind,
    pub default: Seq<char>,
    pub usage: Seq<char>,
    pub value: Option<Seq<char>>,
}

impl FlagView {
    /// The text a flag's value is read from: the one it was given, or its
    /// default.
    pub open spec fn raw(self) -> Seq<char> {
        match self.value {
            Some(v) => v,
            None => self.default,
        }
    }

    pub open spec fn with_value(self, v: Seq<char>) -> FlagView {
        FlagView { value: Some(v), ..self }
    }
}

impl View for Flag {
    type V = FlagView;

    closed spec fn view(&self) -> FlagView {
        FlagView {
            kind: self.kind,
            default: self.default@,
            usage: self.usage@,
            value: match self.value {
                Some(v) => Some(v@),
                None => None,
            },
        }
    }
}

struct Entry {
    name: Vec<char>,
    flag: Flag,
}

/// The flags a program takes, in the order of their names.
pub struct FlagSet {
    entries: Vec<Entry>,
}

/// The flags by their names.
pub type FlagMap = Map<Seq<char>, FlagView>;

/// An integer flag that was given no value.
pub open spec fn int_flag(default: int, usage: Seq<char>) -> FlagView {
    FlagView { kind: Kind::Int, default: crate::text::signed_decimal(default), usage, value: None }
}

/// A boolean one.
pub open spec fn bool_flag(default: bool, usage: Seq<char>) -> FlagView {
    FlagView {
        kind: Kind::Bool,
        default: if default {
            "true"@
        } else {
            "false"@
        },
        usage,
        value: None,
    }
}

/// One that is any text.
pub open spec fn text_flag(default: Seq<char>, usage: Seq<char>) -> FlagView {
    FlagView { kind: Kind::Str, default, usage, value: None }
}

/// A duration.
pub open spec fn duration_flag(default: Seq<char>, usage: Seq<char>) -> FlagView {
    FlagView { kind: Kind::Duration, default, usage, value: None }
}

impl View for FlagSet {
    type V = FlagMap;

    closed spec fn view(&self) -> FlagMap {
        Map::new(
            |n: Seq<char>| exists|i: int| self.names(n, i),
            |n: Seq<char>| self.entries@[choose|i: int| self.names(n, i)].flag@,
        )
    }
}

// ---------------------------------------------------------------------------
// What a value may be.

pub open spec fn bool_value(s: Seq<char>) -> Option<bool> {
    if s == "1"@ || s == "t"@ || s == "T"@ || s == "true"@ || s == "TRUE"@ || s == "True"@ {
        Some(true)
    } else if s == "0"@ || s == "f"@ || s == "F"@ || s == "false"@ || s == "FALSE"@ || s == "False"@ {
        Some(false)
    } else {
        None
    }
}

pub open spec fn int_value(s: Seq<char>) -> Option<int> {
    crate::text::signed_number(s, i64::MIN as int, i64::MAX as int)
}

/// What a whole-number flag is set to.
pub open spec fn int_of(flags: FlagMap, name: Seq<char>) -> int {
    match int_value(flags[name].raw()) {
        Some(n) => n,
        None => 0,
    }
}

/// Whether a boolean flag is set.
pub open spec fn bool_of(flags: FlagMap, name: Seq<char>) -> bool {
    bool_value(flags[name].raw()) == Some(true)
}

/// How many nanoseconds a duration flag is set to.
pub open spec fn nanos_of(flags: FlagMap, name: Seq<char>) -> nat {
    match crate::duration::duration_value(flags[name].raw()) {
        Some(n) => n,
        None => 0,
    }
}

/// A number as a size: no less than the least, and no more than a size can be.
pub open spec fn size_of(n: int, least: int) -> usize {
    let m = if n < least {
        least
    } else {
        n
    };
    if m > usize::MAX {
        usize::MAX
    } else {
        m as usize
    }
}

pub fn size(n: i64, least: i64) -> (r: usize)
    requires
        least >= 0,
    ensures
        r == size_of(n as int, least as int),
{
    let m: i64 = if n < least {
        least
    } else {
        n
    };
    if m as u64 > usize::MAX as u64 {
        usize::MAX
    } else {
        m as usize
    }
}

/// Whether a text is a value of a kind of flag.
pub open spec fn fits(kind: Kind, s: Seq<char>) -> bool {
    match kind {
        Kind::Bool => bool_value(s) is Some,
        Kind::Int => int_value(s) is Some,
        Kind::Str => true,
        Kind::Duration => crate::duration::duration_value(s) is Some,
    }
}

pub fn parse_bool(v: &str) -> (r: Option<bool>)
    ensures
        r == bool_value(v@),
{
    if same(v, "1") || same(v, "t") || same(v, "T") || same(v, "true") || same(v, "TRUE") || same(
        v,
        "True",
    ) {
        Some(true)
    } else if same(v, "0") || same(v, "f") || same(v, "F") || same(v, "false") || same(v, "FALSE")
        || same(v, "False") {
        Some(false)
    } else {
        None
    }
}

// ---------------------------------------------------------------------------
// What a command line means.

pub enum ArgStep {
    /// The message to print before the usage.
    Fail(Seq<char>),
    /// "--", which ends the flags.
    End,
    /// A flag given a value, by the first `used` arguments.
    Give { name: Seq<char>, value: Seq<char>, used: nat },
}

pub open spec fn unexpected(arg: Seq<char>) -> ArgStep {
    ArgStep::Fail("unexpected argument "@ + crate::text::debug_text(arg))
}

pub open spec fn bad_value(name: Seq<char>, value: Seq<char>) -> Seq<char> {
    "invalid value "@ + crate::text::debug_text(value) + " for flag -"@ + name
}

/// What stands before the first '=' of a flag, without its dashes.
pub open spec fn arg_name(body: Seq<char>) -> Seq<char> {
    body.take(crate::text::first_index(body, '=') as int)
}

/// What stands after it, where there is one.
pub open spec fn arg_value(body: Seq<char>) -> Option<Seq<char>> {
    let k = crate::text::first_index(body, '=') as int;
    if k < body.len() {
        Some(body.skip(k + 1))
    } else {
        None
    }
}

/// Sets a flag to a value it takes.
pub open spec fn set_arg(flag: FlagView, name: Seq<char>, value: Seq<char>, used: nat) -> ArgStep {
    if fits(flag.kind, value) {
        ArgStep::Give { name, value, used }
    } else {
        ArgStep::Fail(bad_value(name, value))
    }
}

/// What the first of some arguments asks for.
pub open spec fn read_arg(flags: FlagMap, args: Seq<Seq<char>>) -> ArgStep {
    let arg = args[0];
    let body = crate::text::trim_lead(arg, '-');
    let name = arg_name(body);
    if arg.len() == 0 || arg[0] != '-' || arg == "-"@ {
        unexpected(arg)
    } else if crate::text::lead_len(arg, '-') > 2 {
        ArgStep::Fail("bad flag syntax: "@ + arg)
    } else if body.len() == 0 {
        if args.len() > 1 {
            unexpected(args[1])
        } else {
            ArgStep::End
        }
    } else if name == "h"@ || name == "help"@ {
        ArgStep::Fail(Seq::empty())
    } else if !flags.contains_key(name) {
        ArgStep::Fail("flag provided but not defined: -"@ + name)
    } else {
        match arg_value(body) {
            Some(v) => set_arg(flags[name], name, v, 1),
            None => if flags[name].kind == Kind::Bool {
                set_arg(flags[name], name, "true"@, 1)
            } else if args.len() > 1 {
                set_arg(flags[name], name, args[1], 2)
            } else {
                ArgStep::Fail("flag needs an argument: -"@ + name)
            },
        }
    }
}

/// How a command line ends.
pub enum ParseEnd {
    /// With its last flag.
    Done,
    /// With "--".
    Ended,
    /// With an argument it cannot take, for which this is the message.
    Failed(Seq<char>),
}

/// The flags after some arguments, and how those end. The flags set before
/// one that fails stay set.
pub open spec fn parse_args(flags: FlagMap, args: Seq<Seq<char>>) -> (FlagMap, ParseEnd)
    decreases args.len(),
{
    if args.len() == 0 {
        (flags, ParseEnd::Done)
    } else {
        match read_arg(flags, args) {
            ArgStep::Fail(e) => (flags, ParseEnd::Failed(e)),
            ArgStep::End => (flags, ParseEnd::Ended),
            ArgStep::Give { name, value, used } => parse_args(
                flags.insert(name, flags[name].with_value(value)),
                args.skip(used as int),
            ),
        }
    }
}

/// The error of a parse, if it failed.
pub open spec fn parse_error(end: ParseEnd) -> Option<Seq<char>> {
    match end {
        ParseEnd::Failed(e) => Some(e),
        _ => None,
    }
}

// ---------------------------------------------------------------------------
// The usage text.

pub open spec fn kind_word(kind: Kind) -> Seq<char> {
    match kind {
        Kind::Bool => ""@,
        Kind::Int => " int"@,
        Kind::Str => " string"@,
        Kind::Duration => " duration"@,
    }
}

pub open spec fn usage_line(name: Seq<char>, flag: FlagView) -> Seq<char> {
    "  -"@ + name + kind_word(flag.kind) + "\n    \t"@ + flag.usage + " (default "@
        + crate::text::debug_text(flag.default) + ")\n"@
}

/// The usage lines of the flags of these names.
pub open spec fn usage_lines(names: Seq<Seq<char>>, flags: FlagMap) -> Seq<char>
    decreases names.len(),
{
    if names.len() == 0 {
        Seq::empty()
    } else {
        usage_lines(names.drop_last(), flags) + usage_line(names.last(), flags[names.last()])
    }
}

/// Names in dictionary order, each once, that are all the flags' names.
pub open spec fn lists(names: Seq<Seq<char>>, flags: FlagMap) -> bool {
    &&& forall|i: int, j: int|
        0 <= i < j < names.len() ==> crate::order::precedes(
            crate::order::codes(#[trigger] names[i]),
            crate::order::codes(#[trigger] names[j]),
        )
    &&& forall|n: Seq<char>| #[trigger] flags.contains_key(n) <==> names.contains(n)
}

impl FlagSet {
    spec fn names(&self, n: Seq<char>, i: int) -> bool {
        0 <= i < self.entries@.len() && self.entries@[i].name@ == n
    }

    /// Whether the flags stand in the order of their names.
    pub closed spec fn wf(&self) -> bool {
        forall|i: int, j: int|
            0 <= i < j < self.entries@.len() ==> crate::order::precedes(
                crate::order::codes(#[trigger] self.entries@[i].name@),
                crate::order::codes(#[trigger] self.entries@[j].name@),
            )
    }

    proof fn lemma_at(&self, i: int)
        requires
            self.wf(),
            0 <= i < self.entries@.len(),
        ensures
            self@.contains_key(self.entries@[i].name@),
            self@[self.entries@[i].name@] == self.entries@[i].flag@,
    {
        let n = self.entries@[i].name@;
        assert(self.names(n, i));
        let j = choose|j: int| self.names(n, j);
        crate::order::precedes_is_irreflexive(crate::order::codes(n));
        assert(i == j);
    }

    pub fn new() -> (f: Self)
        ensures
            f.wf(),
            f@ == FlagMap::empty(),
    {
        let f = FlagSet { entries: Vec::new() };
        assert(f@ =~= FlagMap::empty());
        f
    }

    /// Where a flag stands, or where it would.
    fn find(&self, name: &Vec<char>) -> (r: Result<usize, usize>)
        requires
            self.wf(),
        ensures
            match r {
                Ok(i) => self.names(name@, i as int),
                Err(i) => {
                    &&& i <= self.entries@.len()
                    &&& !self@.contains_key(name@)
                    &&& forall|k: int|
                        0 <= k < i ==> crate::order::precedes(
                            crate::order::codes(#[trigger] self.entries@[k].name@),
                            crate::order::codes(name@),
                        )
                    &&& forall|k: int|
                        i <= k < self.entries@.len() ==> crate::order::precedes(
                            crate::order::codes(name@),
                            crate::order::codes(#[trigger] self.entries@[k].name@),
                        )
                },
            },
    {
        let mut i: usize = 0;
        while i < self.entries.len()
            invariant
                self.wf(),
                i <= self.entries@.len(),
                forall|k: int|
                    0 <= k < i ==> crate::order::precedes(
                        crate::order::codes(#[trigger] self.entries@[k].name@),
                        crate::order::codes(name@),
                    ),
            decreases self.entries@.len() - i,
        {
            match place_chars(&self.entries[i].name, name) {
                Place::Same => {
                    return Ok(i);
                },
                Place::Before => {
                    i += 1;
                },
                Place::After => {
                    proof {
                        let c = crate::order::codes(name@);
                        assert forall|k: int| i <= k < self.entries@.len() implies crate::order::precedes(
                            c,
                            crate::order::codes(#[trigger] self.entries@[k].name@),
                        ) by {
                            if k > i {
                                crate::order::precedes_is_transitive(
                                    c,
                                    crate::order::codes(self.entries@[i as int].name@),
                                    crate::order::codes(self.entries@[k].name@),
                                );
                            }
                        }
                        crate::order::precedes_is_irreflexive(c);
                        assert(forall|k: int| !self.names(name@, k));
                    }
                    return Err(i);
                },
            }
        }
        proof {
            crate::order::precedes_is_irreflexive(crate::order::codes(name@));
            assert(forall|k: int| !self.names(name@, k));
        }
        Err(i)
    }

    fn add(&mut self, name: &str, kind: Kind, default: String, usage: &str)
        requires
            old(self).wf(),
        ensures
            final(self).wf(),
            final(self)@ == old(self)@.insert(
                name@,
                (FlagView { kind, default: default@, usage: usage@, value: None }),
            ),
    {
        let letters = chars_of(name);
        let ghost text = default@;
        let flag = Flag { kind, default, usage: usage.to_owned(), value: None };
        let ghost fv = flag@;
        let ghost before = *self;
        match self.find(&letters) {
            Ok(i) => {
                self.entries.set(i, Entry { name: letters, flag });
                proof {
                    assert(forall|k: int|
                        0 <= k < self.entries@.len() ==> self.entries@[k].name@
                            == before.entries@[k].name@);
                    assert(self.wf());
                    assert forall|n: Seq<char>| self@.contains_key(n) <==> before@.insert(
                        name@,
                        fv,
                    ).contains_key(n) by {
                        assert(self.names(name@, i as int));
                        if self@.contains_key(n) {
                            let k = choose|k: int| self.names(n, k);
                            assert(before.names(n, k));
                        }
                        if before@.contains_key(n) {
                            let k = choose|k: int| before.names(n, k);
                            assert(self.names(n, k));
                        }
                    }
                    assert forall|n: Seq<char>| self@.contains_key(n) implies self@[n]
                        == before@.insert(name@, fv)[n] by {
                        let k = choose|k: int| self.names(n, k);
                        self.lemma_at(k);
                        if k == i {
                        } else {
                            before.lemma_at(k);
                            before.lemma_at(i as int);
                            crate::order::precedes_is_irreflexive(crate::order::codes(n));
                        }
                    }
                    assert(self@ =~= before@.insert(name@, fv));
                }
            },
            Err(i) => {
                self.entries.insert(i, Entry { name: letters, flag });
                proof {
                    assert forall|a: int, b: int|
                        0 <= a < b < self.entries@.len() implies crate::order::precedes(
                        crate::order::codes(#[trigger] self.entries@[a].name@),
                        crate::order::codes(#[trigger] self.entries@[b].name@),
                    ) by {
                        let x = if a < i {
                            a
                        } else {
                            a - 1
                        };
                        let y = if b < i {
                            b
                        } else {
                            b - 1
                        };
                        if a != i {
                            assert(self.entries@[a] == before.entries@[x]);
                        }
                        if b != i {
                            assert(self.entries@[b] == before.entries@[y]);
                        }
                    }
                    assert(self.wf());
                    assert forall|n: Seq<char>| self@.contains_key(n) <==> before@.insert(
                        name@,
                        fv,
                    ).contains_key(n) by {
                        assert(self.names(name@, i as int));
                        if self@.contains_key(n) {
                            let k = choose|k: int| self.names(n, k);
                            if k < i {
                                assert(before.names(n, k));
                            } else if k > i {
                                assert(before.names(n, k - 1));
                            }
                        }
                        if before@.contains_key(n) {
                            let k = choose|k: int| before.names(n, k);
                            if k < i {
                                assert(self.names(n, k));
                            } else {
                                assert(self.names(n, k + 1));
                            }
                        }
                    }
                    assert forall|n: Seq<char>| self@.contains_key(n) implies self@[n]
                        == before@.insert(name@, fv)[n] by {
                        let k = choose|k: int| self.names(n, k);
                        self.lemma_at(k);
                        if k < i {
                            before.lemma_at(k);
                            assert(n != name@);
                        } else if k > i {
                            before.lemma_at(k - 1);
                            assert(n != name@);
                        }
                    }
                    assert(self@ =~= before@.insert(name@, fv));
                }
            },
        }
    }

    pub fn bool(&mut self, name: &str, default: bool, usage: &str)
        requires
            old(self).wf(),
        ensures
            final(self).wf(),
            final(self)@ == old(self)@.insert(
                name@,
                (FlagView {
                    kind: Kind::Bool,
                    default: if default {
                        "true"@
                    } else {
                        "false"@
                    },
                    usage: usage@,
                    value: None,
                }),
            ),
    {
        let text = if default {
            "true".to_owned()
        } else {
            "false".to_owned()
        };
        self.add(name, Kind::Bool, text, usage);
    }

    pub fn integer(&mut self, name: &str, default: i64, usage: &str)
        requires
            old(self).wf(),
        ensures
            final(self).wf(),
            final(self)@ == old(self)@.insert(
                name@,
                (FlagView {
                    kind: Kind::Int,
                    default: crate::text::signed_decimal(default as int),
                    usage: usage@,
                    value: None,
                }),
            ),
    {
        self.add(name, Kind::Int, i64_text(default), usage);
    }

    pub fn string(&mut self, name: &str, default: &str, usage: &str)
        requires
            old(self).wf(),
        ensures
            final(self).wf(),
            final(self)@ == old(self)@.insert(
                name@,
                (FlagView { kind: Kind::Str, default: default@, usage: usage@, value: None }),
            ),
    {
        self.add(name, Kind::Str, default.to_owned(), usage);
    }

    pub fn duration(&mut self, name: &str, default: &str, usage: &str)
        requires
            old(self).wf(),
        ensures
            final(self).wf(),
            final(self)@ == old(self)@.insert(
                name@,
                (FlagView { kind: Kind::Duration, default: default@, usage: usage@, value: None }),
            ),
    {
        self.add(name, Kind::Duration, default.to_owned(), usage);
    }

    /// Parses args, which do not hold the program name. An error is the
    /// message to print before the usage.
    pub fn parse(&mut self, args: &[String]) -> (r: Result<(), String>)
        requires
            old(self).wf(),
        ensures
            final(self).wf(),
            final(self)@ == parse_args(old(self)@, crate::text::texts(args@)).0,
            match r {
                Ok(_) => parse_error(parse_args(old(self)@, crate::text::texts(args@)).1) is None,
                Err(e) => parse_error(parse_args(old(self)@, crate::text::texts(args@)).1) == Some(e@),
            },
    {
        let ghost all = crate::text::texts(args@);
        let mut i: usize = 0;
        assert(all.skip(0) =~= all);
        while i < args.len()
            invariant
                self.wf(),
                i <= args@.len(),
                all == crate::text::texts(args@),
                parse_args(old(self)@, all) == parse_args(self@, all.skip(i as int)),
            decreases args@.len() - i,
        {
            let ghost rest = all.skip(i as int);
            assert(rest[0] == args@[i as int]@);
            let arg = chars_of(args[i].as_str());
            i += 1;
            assert(args@.len() > i ==> rest[1] == args@[i as int]@);
            if arg.len() == 0 || arg[0] != '-' || same(args[i - 1].as_str(), "-") {
                let mut e = "unexpected argument ".to_owned();
                e.append(debug_string(args[i - 1].as_str()).as_str());
                return Err(e);
            }
            let d: usize = lead(&arg, '-');
            if d > 2 {
                let mut e = "bad flag syntax: ".to_owned();
                e.append(args[i - 1].as_str());
                return Err(e);
            }
            if d == arg.len() {
                if i < args.len() {
                    let mut e = "unexpected argument ".to_owned();
                    e.append(debug_string(args[i].as_str()).as_str());
                    return Err(e);
                }
                return Ok(());
            }
            let ghost body = crate::text::trim_lead(arg@, '-');
            let k: usize = index_from(&arg, d, '=');
            let name = string_of(&arg, d, k);
            assert(name@ =~= arg_name(body));
            if same(name.as_str(), "h") || same(name.as_str(), "help") {
                return Err(String::new());
            }
            let letters = chars_of(name.as_str());
            let at: usize = match self.find(&letters) {
                Ok(at) => at,
                Err(_) => {
                    let mut e = "flag provided but not defined: -".to_owned();
                    e.append(name.as_str());
                    return Err(e);
                },
            };
            proof {
                self.lemma_at(at as int);
            }
            let kind = self.entries[at].flag.kind;
            let value: String = if k < arg.len() {
                let v = string_of(&arg, k + 1, arg.len());
                assert(v@ =~= body.skip(k - d + 1));
                v
            } else if kind == Kind::Bool {
                "true".to_owned()
            } else {
                if i >= args.len() {
                    let mut e = "flag needs an argument: -".to_owned();
                    e.append(name.as_str());
                    return Err(e);
                }
                i += 1;
                args[i - 1].clone()
            };
            match check(name.as_str(), kind, value.as_str()) {
                Ok(_) => {},
                Err(e) => {
                    return Err(e);
                },
            }
            proof {
                assert(rest.skip(1) =~= all.skip(i as int) || rest.skip(2) =~= all.skip(i as int));
            }
            self.give(at, value);
        }
        assert(all.skip(i as int) =~= Seq::<Seq<char>>::empty());
        Ok(())
    }

    /// Gives the flag at `at` a value.
    fn give(&mut self, at: usize, value: String)
        requires
            old(self).wf(),
            at < old(self).entries@.len(),
        ensures
            final(self).wf(),
            final(self)@ == old(self)@.insert(
                old(self).entries@[at as int].name@,
                old(self).entries@[at as int].flag@.with_value(value@),
            ),
    {
        let ghost before = *self;
        let ghost name = self.entries@[at as int].name@;
        let ghost fv = self.entries@[at as int].flag@.with_value(value@);
        let mut e = self.entries.remove(at);
        e.flag.value = Some(value);
        let ghost ge = e;
        self.entries.insert(at, e);
        proof {
            assert(self.entries@ =~= before.entries@.update(at as int, ge));
            assert(forall|k: int|
                0 <= k < self.entries@.len() ==> self.entries@[k].name@ == before.entries@[k].name@);
            assert(self.wf());
            assert forall|n: Seq<char>| self@.contains_key(n) <==> before@.insert(
                name,
                fv,
            ).contains_key(n) by {
                assert(self.names(name, at as int));
                if self@.contains_key(n) {
                    let k = choose|k: int| self.names(n, k);
                    assert(before.names(n, k));
                }
                if before@.contains_key(n) {
                    let k = choose|k: int| before.names(n, k);
                    assert(self.names(n, k));
                }
            }
            assert forall|n: Seq<char>| self@.contains_key(n) implies self@[n] == before@.insert(
                name,
                fv,
            )[n] by {
                let k = choose|k: int| self.names(n, k);
                self.lemma_at(k);
                if k != at {
                    before.lemma_at(k);
                    before.lemma_at(at as int);
                    crate::order::precedes_is_irreflexive(crate::order::codes(n));
                }
            }
            assert(self@ =~= before@.insert(name, fv));
        }
    }

    fn raw(&self, name: &str) -> (r: &str)
        requires
            self.wf(),
            self@.contains_key(name@),
        ensures
            r@ == self@[name@].raw(),
    {
        let letters = chars_of(name);
        match self.find(&letters) {
            Ok(at) => {
                proof {
                    self.lemma_at(at as int);
                }
                match &self.entries[at].flag.value {
                    Some(v) => v.as_str(),
                    None => self.entries[at].flag.default.as_str(),
                }
            },
            Err(_) => "",
        }
    }

    pub fn get_bool(&self, name: &str) -> (r: bool)
        requires
            self.wf(),
            self@.contains_key(name@),
        ensures
            r == bool_of(self@, name@),
    {
        match parse_bool(self.raw(name)) {
            Some(b) => b,
            None => false,
        }
    }

    pub fn get_int(&self, name: &str) -> (r: i64)
        requires
            self.wf(),
            self@.contains_key(name@),
        ensures
            r == int_of(self@, name@),
    {
        match parse_i64(self.raw(name)) {
            Some(n) => n,
            None => 0,
        }
    }

    pub fn get_str(&self, name: &str) -> (r: String)
        requires
            self.wf(),
            self@.contains_key(name@),
        ensures
            r@ == self@[name@].raw(),
    {
        self.raw(name).to_owned()
    }

    pub fn get_duration(&self, name: &str) -> (r: Duration)
        requires
            self.wf(),
            self@.contains_key(name@),
        ensures
            clock::duration_nanos(r) == nanos_of(self@, name@),
    {
        match parse_duration(self.raw(name)) {
            Some(d) => d,
            None => duration_of(0),
        }
    }

    /// The names of the flags, in order.
    pub closed spec fn order(&self) -> Seq<Seq<char>> {
        Seq::new(self.entries@.len(), |i: int| self.entries@[i].name@)
    }

    /// The usage text: a line for the program, and two for each of its flags,
    /// in the order of their names.
    pub fn usage(&self, program: &str) -> (r: String)
        requires
            self.wf(),
        ensures
            lists(self.order(), self@),
            r@ == "Usage of "@ + program@ + ":\n"@ + usage_lines(self.order(), self@),
    {
        let mut out = "Usage of ".to_owned();
        out.append(program);
        out.append(":\n");
        let ghost head = out@;
        let ghost names = self.order();
        proof {
            assert forall|n: Seq<char>| #[trigger] self@.contains_key(n) <==> names.contains(n) by {
                if self@.contains_key(n) {
                    let k = choose|k: int| self.names(n, k);
                    assert(names[k] == n);
                }
                if names.contains(n) {
                    let k = choose|k: int| 0 <= k < names.len() && names[k] == n;
                    assert(self.names(n, k));
                }
            }
            assert forall|i: int, j: int| 0 <= i < j < names.len() implies crate::order::precedes(
                crate::order::codes(#[trigger] names[i]),
                crate::order::codes(#[trigger] names[j]),
            ) by {
                assert(names[i] == self.entries@[i].name@ && names[j] == self.entries@[j].name@);
            }
            assert(names.take(0) =~= Seq::<Seq<char>>::empty());
            assert(out@ =~= head + usage_lines(names.take(0), self@));
        }
        let mut i: usize = 0;
        while i < self.entries.len()
            invariant
                self.wf(),
                i <= self.entries@.len(),
                names == self.order(),
                out@ == head + usage_lines(names.take(i as int), self@),
            decreases self.entries@.len() - i,
        {
            let ghost was = out@;
            let flag = &self.entries[i].flag;
            let kind = match flag.kind {
                Kind::Bool => "",
                Kind::Int => " int",
                Kind::Str => " string",
                Kind::Duration => " duration",
            };
            let name = string_of(&self.entries[i].name, 0, self.entries[i].name.len());
            out.append("  -");
            out.append(name.as_str());
            out.append(kind);
            out.append("\n    \t");
            out.append(flag.usage.as_str());
            out.append(" (default ");
            out.append(debug_string(flag.default.as_str()).as_str());
            out.append(")\n");
            proof {
                self.lemma_at(i as int);
                let n = names[i as int];
                assert(name@ =~= n);
                assert(out@ =~= was + usage_line(n, self@[n]));
                assert(names.take(i + 1).drop_last() =~= names.take(i as int));
                assert(names.take(i + 1).last() == n);
                assert(out@ =~= head + usage_lines(names.take(i + 1), self@));
            }
            i += 1;
        }
        assert(names.take(i as int) =~= names);
        out
    }
}

/// Whether a value is one its flag takes, or the message to print.
fn check(name: &str, kind: Kind, value: &str) -> (r: Result<(), String>)
    ensures
        match r {
            Ok(_) => fits(kind, value@),
            Err(e) => !fits(kind, value@) && e@ == bad_value(name@, value@),
        },
{
    let ok: bool = match kind {
        Kind::Bool => parse_bool(value).is_some(),
        Kind::Int => parse_i64(value).is_some(),
        Kind::Str => true,
        Kind::Duration => parse_duration(value).is_some(),
    };
    if ok {
        Ok(())
    } else {
        let mut e = "invalid value ".to_owned();
        e.append(debug_string(value).as_str());
        e.append(" for flag -");
        e.append(name);
        Err(e)
    }
}

// ---------------------------------------------------------------------------
// Laws.

/// A name a command line can give: not empty, not the help flag's, with no
/// dash in front and no '=' in it.
pub open spec fn giveable(name: Seq<char>) -> bool {
    &&& name.len() > 0
    &&& name[0] != '-'
    &&& forall|i: int| 0 <= i < name.len() ==> name[i] != '='
    &&& name != "h"@
    &&& name != "help"@
}

/// A command line goes on where it left off: arguments after ones that were
/// all taken mean what they mean to the flags those set.
pub proof fn parsing_goes_on(flags: FlagMap, args: Seq<Seq<char>>, more: Seq<Seq<char>>)
    requires
        parse_args(flags, args).1 == ParseEnd::Done,
    ensures
        parse_args(flags, args + more) == parse_args(parse_args(flags, args).0, more),
    decreases args.len(),
{
    if args.len() == 0 {
        assert(args + more =~= more);
    } else {
        let all = args + more;
        assert(all[0] == args[0]);
        if args.len() > 1 {
            assert(all[1] == args[1]);
        }
        match read_arg(flags, args) {
            ArgStep::Give { name, value, used } => {
                assert(read_arg(flags, all) == read_arg(flags, args));
                assert(all.skip(used as int) =~= args.skip(used as int) + more);
                parsing_goes_on(
                    flags.insert(name, flags[name].with_value(value)),
                    args.skip(used as int),
                    more,
                );
            },
            _ => {},
        }
    }
}

proof fn lemma_inline(name: Seq<char>, value: Seq<char>, arg: Seq<char>, dashes: int)
    requires
        giveable(name),
        1 <= dashes <= 2,
        arg == Seq::new(dashes as nat, |i: int| '-') + name + seq!['='] + value,
    ensures
        crate::text::trim_lead(arg, '-') == name + seq!['='] + value,
        arg_name(crate::text::trim_lead(arg, '-')) == name,
        arg_value(crate::text::trim_lead(arg, '-')) == Some(value),
        crate::text::lead_len(arg, '-') <= 2,
        arg != "-"@,
        arg[0] == '-',
{
    crate::text::lemma_lead_len_is(arg, '-', dashes);
    let body = name + seq!['='] + value;
    assert(arg.skip(dashes) =~= body);
    crate::text::lemma_first_index_is(body, '=', name.len() as int);
    assert(body.take(name.len() as int) =~= name);
    assert(body.skip(name.len() as int + 1) =~= value);
    reveal_strlit("-");
}

proof fn lemma_bare(name: Seq<char>, arg: Seq<char>)
    requires
        giveable(name),
        arg == seq!['-'] + name,
    ensures
        crate::text::trim_lead(arg, '-') == name,
        arg_name(name) == name,
        arg_value(name) is None,
        crate::text::lead_len(arg, '-') <= 2,
        arg != "-"@,
        arg[0] == '-',
{
    crate::text::lemma_lead_len_is(arg, '-', 1);
    assert(arg.skip(1) =~= name);
    crate::text::lemma_first_index_is(name, '=', name.len() as int);
    assert(name.take(name.len() as int) =~= name);
    reveal_strlit("-");
}

/// The last value of a repeated flag wins: whatever the arguments before it
/// set, `-name=value` at the end leaves the flag with that value and the
/// others as they were.
pub proof fn last_value_wins(flags: FlagMap, args: Seq<Seq<char>>, name: Seq<char>, value: Seq<char>)
    requires
        parse_args(flags, args).1 == ParseEnd::Done,
        flags.contains_key(name),
        giveable(name),
        fits(flags[name].kind, value),
    ensures
        ({
            let before = parse_args(flags, args).0;
            parse_args(flags, args.push(seq!['-'] + name + seq!['='] + value)) == (
                before.insert(name, before[name].with_value(value)),
                ParseEnd::Done,
            )
        }),
{
    let arg = seq!['-'] + name + seq!['='] + value;
    parsing_keeps_the_flags(flags, args);
    parsing_goes_on(flags, args, seq![arg]);
    assert(args + seq![arg] =~= args.push(arg));
    assert(seq!['-'] =~= Seq::new(1, |i: int| '-'));
    lemma_inline(name, value, arg, 1);
    reveal_with_fuel(parse_args, 2);
    assert(seq![arg].skip(1) =~= Seq::<Seq<char>>::empty());
}

/// Parsing defines no flag and drops none, and leaves each with its kind, its
/// default and its usage.
pub proof fn parsing_keeps_the_flags(flags: FlagMap, args: Seq<Seq<char>>)
    ensures
        parse_args(flags, args).0.dom() == flags.dom(),
        forall|n: Seq<char>| #[trigger]
            flags.contains_key(n) ==> {
                let f = parse_args(flags, args).0[n];
                f.kind == flags[n].kind && f.default == flags[n].default && f.usage == flags[n].usage
            },
    decreases args.len(),
{
    if args.len() > 0 {
        match read_arg(flags, args) {
            ArgStep::Give { name, value, used } => {
                let next = flags.insert(name, flags[name].with_value(value));
                parsing_keeps_the_flags(next, args.skip(used as int));
                assert(next.dom() =~= flags.dom());
                assert forall|n: Seq<char>| #[trigger] flags.contains_key(n) implies {
                    let f = parse_args(flags, args).0[n];
                    f.kind == flags[n].kind && f.default == flags[n].default && f.usage
                        == flags[n].usage
                } by {
                    assert(next.contains_key(n));
                }
            },
            _ => {},
        }
    }
}

/// Whether every flag that was given a value was given one of its kind.
pub open spec fn values_fit(flags: FlagMap) -> bool {
    forall|n: Seq<char>| #[trigger]
        flags.contains_key(n) ==> (flags[n].value matches Some(v) ==> fits(flags[n].kind, v))
}

/// No command line leaves a flag with a value that is not of its kind.
pub proof fn parsed_values_fit(flags: FlagMap, args: Seq<Seq<char>>)
    requires
        values_fit(flags),
    ensures
        values_fit(parse_args(flags, args).0),
    decreases args.len(),
{
    if args.len() > 0 {
        match read_arg(flags, args) {
            ArgStep::Give { name, value, used } => {
                parsed_values_fit(
                    flags.insert(name, flags[name].with_value(value)),
                    args.skip(used as int),
                );
            },
            _ => {},
        }
    }
}

/// `-name=value`, `--name=value` and, for a flag that is not a boolean,
/// `-name value` mean the same.
pub proof fn the_forms_agree(flags: FlagMap, name: Seq<char>, value: Seq<char>, rest: Seq<Seq<char>>)
    requires
        flags.contains_key(name),
        giveable(name),
    ensures
        ({
            let inline = parse_args(flags, seq![seq!['-'] + name + seq!['='] + value] + rest);
            &&& parse_args(flags, seq![seq!['-', '-'] + name + seq!['='] + value] + rest) == inline
            &&& flags[name].kind != Kind::Bool ==> parse_args(
                flags,
                seq![seq!['-'] + name, value] + rest,
            ) == inline
        }),
{
    let one = seq!['-'] + name + seq!['='] + value;
    let two = seq!['-', '-'] + name + seq!['='] + value;
    let bare = seq!['-'] + name;
    let a = seq![one] + rest;
    let b = seq![two] + rest;
    let c = seq![bare, value] + rest;
    assert(seq!['-'] =~= Seq::new(1, |i: int| '-'));
    assert(seq!['-', '-'] =~= Seq::new(2, |i: int| '-'));
    lemma_inline(name, value, one, 1);
    lemma_inline(name, value, two, 2);
    lemma_bare(name, bare);
    assert(a.skip(1) =~= rest);
    assert(b.skip(1) =~= rest);
    assert(c.skip(2) =~= rest);
    assert(a[0] == one && b[0] == two && c[0] == bare && c[1] == value);
}

/// An argument with more than two dashes in front is refused, and leaves the
/// flags as they were.
pub proof fn no_more_than_two_dashes(flags: FlagMap, arg: Seq<char>, rest: Seq<Seq<char>>)
    requires
        arg.len() > 2,
        arg[0] == '-',
        arg[1] == '-',
        arg[2] == '-',
    ensures
        parse_args(flags, seq![arg] + rest) == (
            flags,
            ParseEnd::Failed("bad flag syntax: "@ + arg),
        ),
{
    reveal_strlit("-");
    reveal_with_fuel(crate::text::lead_len, 4);
    assert((seq![arg] + rest)[0] == arg);
}

/// A bare `-name` gives a boolean flag the value true.
pub proof fn a_bare_boolean_is_true(flags: FlagMap, name: Seq<char>, rest: Seq<Seq<char>>)
    requires
        flags.contains_key(name),
        giveable(name),
        flags[name].kind == Kind::Bool,
    ensures
        parse_args(flags, seq![seq!['-'] + name] + rest) == parse_args(
            flags.insert(name, flags[name].with_value("true"@)),
            rest,
        ),
        bool_value("true"@) == Some(true),
{
    let bare = seq!['-'] + name;
    let a = seq![bare] + rest;
    lemma_bare(name, bare);
    assert(a.skip(1) =~= rest);
    assert(a[0] == bare);
}

/// An integer flag that is given no value reads as the default it was defined
/// with.
pub proof fn an_int_default_reads_back(default: i64)
    ensures
        int_value(crate::text::signed_decimal(default as int)) == Some(default as int),
{
    crate::text::signed_decimal_reads_back(default as int, i64::MIN as int, i64::MAX as int);
}

/// What a boolean flag takes is what Go's flag package does, and nothing else: each
/// spelling of true and of false.
pub proof fn the_spellings_of_true_and_false(s: Seq<char>)
    ensures
        bool_value(s) == Some(true) <==> (s == seq!['1'] || s == seq!['t'] || s == seq!['T'] || s
            == seq!['t', 'r', 'u', 'e'] || s == seq!['T', 'R', 'U', 'E'] || s == seq![
            'T',
            'r',
            'u',
            'e',
        ]),
        bool_value(s) == Some(false) <==> (s == seq!['0'] || s == seq!['f'] || s == seq!['F'] || s
            == seq!['f', 'a', 'l', 's', 'e'] || s == seq!['F', 'A', 'L', 'S', 'E'] || s == seq![
            'F',
            'a',
            'l',
            's',
            'e',
        ]),
{
    reveal_strlit("1");
    reveal_strlit("t");
    reveal_strlit("T");
    reveal_strlit("true");
    reveal_strlit("TRUE");
    reveal_strlit("True");
    reveal_strlit("0");
    reveal_strlit("f");
    reveal_strlit("F");
    reveal_strlit("false");
    reveal_strlit("FALSE");
    reveal_strlit("False");
    assert("1"@ =~= seq!['1'] && "t"@ =~= seq!['t'] && "T"@ =~= seq!['T']);
    assert("true"@ =~= seq!['t', 'r', 'u', 'e']);
    assert("TRUE"@ =~= seq!['T', 'R', 'U', 'E']);
    assert("True"@ =~= seq!['T', 'r', 'u', 'e']);
    assert("0"@ =~= seq!['0'] && "f"@ =~= seq!['f'] && "F"@ =~= seq!['F']);
    assert("false"@ =~= seq!['f', 'a', 'l', 's', 'e']);
    assert("FALSE"@ =~= seq!['F', 'A', 'L', 'S', 'E']);
    assert("False"@ =~= seq!['F', 'a', 'l', 's', 'e']);
    let zero = seq!['0'];
    let f = seq!['f'];
    let g = seq!['F'];
    let a = seq!['f', 'a', 'l', 's', 'e'];
    let b = seq!['F', 'A', 'L', 'S', 'E'];
    let c = seq!['F', 'a', 'l', 's', 'e'];
    assert(zero[0] == '0' && f[0] == 'f' && g[0] == 'F');
    assert(a.len() == 5 && b.len() == 5 && c.len() == 5);
    assert(seq!['1'][0] == '1' && seq!['t'][0] == 't' && seq!['T'][0] == 'T');
    assert(seq!['t', 'r', 'u', 'e'].len() == 4 && seq!['T', 'R', 'U', 'E'].len() == 4 && seq![
        'T',
        'r',
        'u',
        'e',
    ].len() == 4);
}

/// A flag reads as the value that it was given last, and as its default until it is
/// given one: a number given in decimal as that number, a spelling of true as true, a
/// duration as that duration; and the other flags as before.
pub proof fn a_flag_reads_what_it_was_given(
    flags: FlagMap,
    args: Seq<Seq<char>>,
    name: Seq<char>,
    n: i64,
    other: Seq<char>,
)
    requires
        parse_args(flags, args).1 == ParseEnd::Done,
        flags.contains_key(name),
        flags[name].kind == Kind::Int,
        giveable(name),
        other != name,
        flags.contains_key(other),
    ensures
        ({
            let given = args.push(
                seq!['-'] + name + seq!['='] + crate::text::signed_decimal(n as int),
            );
            let before = parse_args(flags, args).0;
            let (after, end) = parse_args(flags, given);
            &&& end == ParseEnd::Done
            &&& int_of(after, name) == n
            &&& after[other] == before[other]
        }),
        flags[name].value is None ==> flags[name].raw() == flags[name].default,
{
    an_int_default_reads_back(n);
    parsing_keeps_the_flags(flags, args);
    last_value_wins(flags, args, name, crate::text::signed_decimal(n as int));
}

/// What a command line cannot take is refused, says why, and leaves the flags as they
/// were: a flag that there is not, a value that is not of the flag's kind, a flag
/// without the value it needs, and an argument that is no flag. "-h" asks for the
/// usage alone, and "--" ends the flags.
pub proof fn what_cannot_be_taken_is_refused(
    flags: FlagMap,
    name: Seq<char>,
    value: Seq<char>,
    rest: Seq<Seq<char>>,
)
    requires
        giveable(name),
    ensures
        !flags.contains_key(name) ==> parse_args(
            flags,
            seq![seq!['-'] + name + seq!['='] + value] + rest,
        ) == (flags, ParseEnd::Failed("flag provided but not defined: -"@ + name)),
        flags.contains_key(name) && !fits(flags[name].kind, value) ==> parse_args(
            flags,
            seq![seq!['-'] + name + seq!['='] + value] + rest,
        ) == (
            flags,
            ParseEnd::Failed(
                "invalid value "@ + crate::text::debug_text(value) + " for flag -"@ + name,
            ),
        ),
        flags.contains_key(name) && flags[name].kind != Kind::Bool ==> parse_args(
            flags,
            seq![seq!['-'] + name],
        ) == (flags, ParseEnd::Failed("flag needs an argument: -"@ + name)),
        parse_args(flags, seq![name] + rest) == (
            flags,
            ParseEnd::Failed("unexpected argument "@ + crate::text::debug_text(name)),
        ),
        parse_args(flags, seq![seq!['-', 'h']] + rest) == (flags, ParseEnd::Failed(Seq::empty())),
        parse_args(flags, seq![seq!['-', '-']]) == (flags, ParseEnd::Ended),
        parse_args(flags, Seq::empty()) == (flags, ParseEnd::Done),
{
    let arg = seq!['-'] + name + seq!['='] + value;
    let bare = seq!['-'] + name;
    assert(seq!['-'] =~= Seq::new(1, |i: int| '-'));
    lemma_inline(name, value, arg, 1);
    lemma_bare(name, bare);
    assert((seq![arg] + rest)[0] == arg);
    assert((seq![name] + rest)[0] == name);
    let help = seq!['-', 'h'];
    let end = seq!['-', '-'];
    assert((seq![help] + rest)[0] == help);
    reveal_strlit("-");
    reveal_strlit("h");
    crate::text::lemma_lead_len_is(help, '-', 1);
    assert(crate::text::trim_lead(help, '-') =~= seq!['h']);
    crate::text::lemma_first_index_is(seq!['h'], '=', 1);
    assert(arg_name(seq!['h']) =~= "h"@);
    crate::text::lemma_lead_len_is(end, '-', 2);
    assert(crate::text::trim_lead(end, '-').len() == 0);
    assert(help != "-"@) by {
        assert(help.len() != "-"@.len());
    }
    assert(end != "-"@) by {
        assert(end.len() != "-"@.len());
    }
}

/// A number becomes a size as it is, or the least or the most where it is below or
/// above.
pub proof fn a_size_is_kept_in_bounds(n: int, least: int)
    requires
        0 <= least <= usize::MAX,
    ensures
        least <= n <= usize::MAX ==> size_of(n, least) == n,
        n < least ==> size_of(n, least) == least,
        n > usize::MAX ==> size_of(n, least) == usize::MAX,
{
}

/// A flag that is defined reads as its default: a whole number, true or false, or a
/// text.
pub proof fn a_defined_flag_has_its_default(
    flags: FlagMap,
    name: Seq<char>,
    n: i64,
    b: bool,
    text: Seq<char>,
    usage: Seq<char>,
)
    ensures
        int_of(flags.insert(name, int_flag(n as int, usage)), name) == n,
        bool_of(flags.insert(name, bool_flag(b, usage)), name) == b,
        flags.insert(name, text_flag(text, usage))[name].raw() == text,
        flags.insert(name, duration_flag(text, usage))[name].raw() == text,
        int_flag(n as int, usage).kind == Kind::Int,
        bool_flag(b, usage).kind == Kind::Bool,
        text_flag(text, usage).kind == Kind::Str,
        duration_flag(text, usage).kind == Kind::Duration,
        fits(Kind::Str, text),
{
    an_int_default_reads_back(n);
    the_spellings_of_true_and_false("true"@);
    the_spellings_of_true_and_false("false"@);
    reveal_strlit("true");
    reveal_strlit("false");
    assert("true"@ =~= seq!['t', 'r', 'u', 'e']);
    assert("false"@ =~= seq!['f', 'a', 'l', 's', 'e']);
}

/// The usage tells of each flag by its name, what it takes, what it is for and its
/// default, one after the other.
pub proof fn the_usage_tells_of_each_flag(names: Seq<Seq<char>>, name: Seq<char>, flags: FlagMap)
    ensures
        usage_lines(Seq::empty(), flags) == Seq::<char>::empty(),
        usage_lines(names.push(name), flags) == usage_lines(names, flags) + "  -"@ + name + (
        match flags[name].kind {
            Kind::Bool => Seq::<char>::empty(),
            Kind::Int => " int"@,
            Kind::Str => " string"@,
            Kind::Duration => " duration"@,
        }) + "\n    \t"@ + flags[name].usage + " (default "@ + crate::text::debug_text(
            flags[name].default,
        ) + ")\n"@,
{
    reveal_strlit("");
    assert(names.push(name).drop_last() =~= names);
    assert(""@ =~= Seq::<char>::empty());
    assert(usage_lines(names.push(name), flags) =~= usage_lines(names, flags) + "  -"@ + name + (
    match flags[name].kind {
        Kind::Bool => Seq::<char>::empty(),
        Kind::Int => " int"@,
        Kind::Str => " string"@,
        Kind::Duration => " duration"@,
    }) + "\n    \t"@ + flags[name].usage + " (default "@ + crate::text::debug_text(
        flags[name].default,
    ) + ")\n"@);
}

/// Whether an argument names a flag: behind one dash or two, alone or with a value
/// behind an equals sign.
pub open spec fn names_flag(arg: Seq<char>, name: Seq<char>) -> bool {
    ||| arg == seq!['-'] + name
    ||| arg == seq!['-', '-'] + name
    ||| (seq!['-'] + name + seq!['=']).is_prefix_of(arg)
    ||| (seq!['-', '-'] + name + seq!['=']).is_prefix_of(arg)
}

/// Whether no argument names a flag.
pub open spec fn nowhere_named(args: Seq<Seq<char>>, name: Seq<char>) -> bool {
    forall|i: int| 0 <= i < args.len() ==> !names_flag(#[trigger] args[i], name)
}

/// A flag that no argument names stays as it was, whatever else is given.
pub proof fn what_is_not_named_stays(flags: FlagMap, args: Seq<Seq<char>>, name: Seq<char>)
    requires
        nowhere_named(args, name),
    ensures
        parse_args(flags, args).0.contains_key(name) == flags.contains_key(name),
        parse_args(flags, args).0[name] == flags[name],
    decreases args.len(),
{
    if args.len() > 0 {
        match read_arg(flags, args) {
            ArgStep::Give { name: given, value, used } => {
                let arg = args[0];
                assert(!names_flag(arg, name));
                let dashes = crate::text::lead_len(arg, '-') as int;
                let body = crate::text::trim_lead(arg, '-');
                crate::text::lemma_lead_len(arg, '-');
                crate::text::lemma_first_index(body, '=');
                let k = crate::text::first_index(body, '=') as int;
                assert(dashes == 1 || dashes == 2);
                if given == name {
                    if dashes == 1 {
                        assert(arg =~= seq!['-'] + body);
                    } else {
                        assert(arg =~= seq!['-', '-'] + body);
                    }
                    if k < body.len() {
                        assert(body =~= name + seq!['='] + body.skip(k + 1));
                        if dashes == 1 {
                            assert((seq!['-'] + name + seq!['=']).is_prefix_of(arg));
                        } else {
                            assert((seq!['-', '-'] + name + seq!['=']).is_prefix_of(arg));
                        }
                    } else {
                        assert(body =~= name);
                    }
                }
                let rest = args.skip(used as int);
                assert forall|i: int| 0 <= i < rest.len() implies !names_flag(
                    #[trigger] rest[i],
                    name,
                ) by {
                    assert(rest[i] == args[i + used]);
                }
                what_is_not_named_stays(
                    flags.insert(given, flags[given].with_value(value)),
                    rest,
                    name,
                );
            },
            _ => {},
        }
    }
}

} // verus!
