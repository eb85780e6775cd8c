//! Parsing of command-line arguments of the form `--flag value` and
//! `--flag`.
use vstd::prelude::*;
use crate::text::{chars_of, substring};

verus! {

#[derive(Debug)]
pub enum FlagParserError {
    DuplicateFlag(String),
    UnkownFlag(String),
}

impl FlagParserError {
    /// The message text: `Duplicate flag <flag>` or `Unknown flag <flag>`.
    pub fn message(&self) -> (s: String)
        ensures
            match self {
                FlagParserError::DuplicateFlag(f) => s@ == "Duplicate flag "@ + f@,
                FlagParserError::UnkownFlag(f) => s@ == "Unknown flag "@ + f@,
            },
    {
        match self {
            FlagParserError::DuplicateFlag(f) => {
                let mut s = "Duplicate flag ".to_owned();
                s.append(f.as_str());
                s
            },
            FlagParserError::UnkownFlag(f) => {
                let mut s = "Unknown flag ".to_owned();
                s.append(f.as_str());
                s
            },
        }
    }
}

/// A parsed flag and the value that followed it, if any.
pub type FlagEntry = (Seq<char>, Option<Seq<char>>);

/// Whether an argument starts with `--`.
pub open spec fn is_flag_arg(a: Seq<char>) -> bool {
    a.len() >= 2 && a[0] == '-' && a[1] == '-'
}

/// The flag name of an argument that starts with `--`.
pub open spec fn flag_name(a: Seq<char>) -> Seq<char> {
    a.skip(2)
}

/// The position of the entry for `flag` in `acc`, if any.
pub open spec fn has_entry(acc: Seq<FlagEntry>, flag: Seq<char>) -> bool {
    exists|j: int| 0 <= j < acc.len() && (#[trigger] acc[j]).0 == flag
}

/// Scans `args` from position `i` on, with the flags found so far in `acc`:
/// a `--name` argument records `name`, with the next argument as its value
/// unless that one starts with `--` too; other arguments are skipped. A flag
/// met twice is the error, holding its name.
pub open spec fn parse_from(args: Seq<Seq<char>>, i: int, acc: Seq<FlagEntry>) -> Result<
    Seq<FlagEntry>,
    Seq<char>,
>
    decreases args.len() - i,
{
    if i < 0 || i >= args.len() {
        Ok(acc)
    } else if is_flag_arg(args[i]) {
        let f = flag_name(args[i]);
        if has_entry(acc, f) {
            Err(f)
        } else if i + 1 < args.len() && !is_flag_arg(args[i + 1]) {
            parse_from(args, i + 2, acc.push((f, Some(args[i + 1]))))
        } else {
            parse_from(args, i + 1, acc.push((f, None)))
        }
    } else {
        parse_from(args, i + 1, acc)
    }
}

/// The flags of `args` in the order they appear, or the first repeated one.
pub open spec fn parse_flags(args: Seq<Seq<char>>) -> Result<Seq<FlagEntry>, Seq<char>> {
    parse_from(args, 0, Seq::<FlagEntry>::empty())
}

/// The position of the first entry whose flag `allowed` does not hold, or -1.
pub open spec fn first_unknown(acc: Seq<FlagEntry>, allowed: Seq<Seq<char>>) -> int
    decreases acc.len(),
{
    if acc.len() == 0 {
        -1
    } else {
        let k = first_unknown(acc.drop_last(), allowed);
        if k >= 0 {
            k
        } else if !allowed.contains(acc.last().0) {
            acc.len() - 1
        } else {
            -1
        }
    }
}

pub open spec fn opt_string_view(o: Option<String>) -> Option<Seq<char>> {
    match o {
        Some(s) => Some(s@),
        None => None,
    }
}

pub open spec fn entries_distinct(acc: Seq<FlagEntry>) -> bool {
    forall|a: int, b: int|
        0 <= a < acc.len() && 0 <= b < acc.len() && a != b ==> (#[trigger] acc[a]).0 != (
        #[trigger] acc[b]).0
}

/// What `FlagParser::new` gives for `args` and `allowed`: the first repeated
/// flag, else (with a list of allowed flags) the first flag not on it, else
/// the flags found.
pub open spec fn flag_parse_result(args: Seq<Seq<char>>, allowed: Option<Seq<Seq<char>>>) -> Result<
    Seq<FlagEntry>,
    FlagError,
> {
    match parse_flags(args) {
        Err(f) => Err(FlagError::Duplicate(f)),
        Ok(acc) => match allowed {
            None => Ok(acc),
            Some(al) => {
                let k = first_unknown(acc, al);
                if k >= 0 {
                    Err(FlagError::Unknown(acc[k].0))
                } else {
                    Ok(acc)
                }
            },
        },
    }
}

/// The two ways parsing fails, by flag name.
pub ghost enum FlagError {
    Duplicate(Seq<char>),
    Unknown(Seq<char>),
}

#[derive(Debug)]
pub struct FlagParser {
    flags: Vec<(String, Option<String>)>,
}

impl FlagParser {
    #[verifier::type_invariant]
    closed spec fn inv(self) -> bool {
        entries_distinct(self.entries())
    }

    /// The parsed flags, in the order they appeared.
    pub closed spec fn entries(self) -> Seq<FlagEntry> {
        self.flags@.map_values(|e: (String, Option<String>)| (e.0@, opt_string_view(e.1)))
    }

    /// Whether `a` starts with `--`.
    fn starts_with_dashes(a: &String) -> (b: bool)
        ensures
            b == is_flag_arg(a@),
    {
        let cs = chars_of(a.as_str());
        cs.len() >= 2 && cs[0] == '-' && cs[1] == '-'
    }

    /// Whether `flags` already holds an entry for `name`.
    fn find_flag(flags: &Vec<(String, Option<String>)>, name: &String) -> (r: Option<usize>)
        ensures
            match r {
                Some(j) => j < flags@.len() && flags@[j as int].0@ == name@,
                None => forall|j: int| 0 <= j < flags@.len() ==> (#[trigger] flags@[j]).0@ != name@,
            },
    {
        let mut j: usize = 0;
        while j < flags.len()
            invariant
                j <= flags@.len(),
                forall|k: int| 0 <= k < j ==> (#[trigger] flags@[k]).0@ != name@,
            decreases flags@.len() - j,
        {
            if flags[j].0 == *name {
                return Some(j);
            }
            j = j + 1;
        }
        None
    }

    /// Whether `allowed` holds `name`.
    fn is_allowed(allowed: &Vec<String>, name: &String) -> (b: bool)
        ensures
            b == allowed@.map_values(|s: String| s@).contains(name@),
    {
        let ghost al = allowed@.map_values(|s: String| s@);
        let mut j: usize = 0;
        while j < allowed.len()
            invariant
                al == allowed@.map_values(|s: String| s@),
                j <= allowed@.len(),
                forall|k: int| 0 <= k < j ==> #[trigger] al[k] != name@,
            decreases allowed@.len() - j,
        {
            if allowed[j] == *name {
                assert(al[j as int] == name@);
                return true;
            }
            j = j + 1;
        }
        false
    }

    /// Parses `args`; with `allowed_flags`, every flag found must be on
    /// that list.
    pub fn new(args: Vec<String>, allowed_flags: Option<Vec<String>>) -> (r: Result<
        Self,
        FlagParserError,
    >)
        ensures
            match flag_parse_result(
                args@.map_values(|s: String| s@),
                match allowed_flags {
                    Some(al) => Some(al@.map_values(|s: String| s@)),
                    None => None,
                },
            ) {
                Ok(acc) => r matches Ok(p) && p.entries() == acc,
                Err(FlagError::Duplicate(f)) => r matches Err(FlagParserError::DuplicateFlag(s))
                    && s@ == f,
                Err(FlagError::Unknown(f)) => r matches Err(FlagParserError::UnkownFlag(s)) && s@
                    == f,
            },
            r matches Ok(p) ==> (allowed_flags matches Some(al) ==> forall|i: int|
                0 <= i < p.entries().len() ==> al@.map_values(|s: String| s@).contains(#[trigger] p.entries()[i].0)),
            r matches Err(FlagParserError::UnkownFlag(f)) ==> allowed_flags matches Some(al) && !al@.map_values(
                |s: String| s@,
            ).contains(f@),
    {
        let ghost av = args@.map_values(|s: String| s@);
        let mut flags: Vec<(String, Option<String>)> = Vec::new();
        let n = args.len();
        let mut i: usize = 0;
        assert(flags@.map_values(|e: (String, Option<String>)| (e.0@, opt_string_view(e.1))) =~= Seq::<
            FlagEntry,
        >::empty());
        while i < n
            invariant
                n == args@.len(),
                av == args@.map_values(|s: String| s@),
                i <= n,
                entries_distinct(
                    flags@.map_values(|e: (String, Option<String>)| (e.0@, opt_string_view(e.1))),
                ),
                parse_flags(av) == parse_from(
                    av,
                    i as int,
                    flags@.map_values(|e: (String, Option<String>)| (e.0@, opt_string_view(e.1))),
                ),
            decreases n - i,
        {
            let ghost acc = flags@.map_values(|e: (String, Option<String>)| (e.0@, opt_string_view(e.1)));
            assert(av[i as int] == args@[i as int]@);
            if Self::starts_with_dashes(&args[i]) {
                let len = chars_of(args[i].as_str()).len();
                let flag = substring(args[i].as_str(), 2, len);
                assert(flag@ == flag_name(av[i as int]));
                match Self::find_flag(&flags, &flag) {
                    Some(j) => {
                        assert(acc[j as int].0 == flag@);
                        assert(has_entry(acc, flag@));
                        return Err(FlagParserError::DuplicateFlag(flag));
                    },
                    None => {
                        assert(!has_entry(acc, flag@)) by {
                            if has_entry(acc, flag@) {
                                let j = choose|j: int| 0 <= j < acc.len() && (#[trigger] acc[j]).0 == flag@;
                                assert(flags@[j].0@ == flag@);
                            }
                        }
                    },
                }
                if i + 1 < n && !Self::starts_with_dashes(&args[i + 1]) {
                    assert(av[i + 1] == args@[i + 1]@);
                    let value = args[i + 1].clone();
                    flags.push((flag, Some(value)));
                    assert(flags@.map_values(|e: (String, Option<String>)| (e.0@, opt_string_view(e.1)))
                        =~= acc.push((flag_name(av[i as int]), Some(av[i + 1]))));
                    i = i + 2;
                } else {
                    flags.push((flag, None));
                    assert(flags@.map_values(|e: (String, Option<String>)| (e.0@, opt_string_view(e.1)))
                        =~= acc.push((flag_name(av[i as int]), None)));
                    i = i + 1;
                }
            } else {
                i = i + 1;
            }
        }
        let ghost acc = flags@.map_values(|e: (String, Option<String>)| (e.0@, opt_string_view(e.1)));
        assert(parse_flags(av) == Ok::<Seq<FlagEntry>, Seq<char>>(acc));
        if let Some(allowed) = &allowed_flags {
            let ghost al = allowed@.map_values(|s: String| s@);
            let mut k: usize = 0;
            while k < flags.len()
                invariant
                    acc == flags@.map_values(|e: (String, Option<String>)| (e.0@, opt_string_view(e.1))),
                    al == allowed@.map_values(|s: String| s@),
                    parse_flags(av) == Ok::<Seq<FlagEntry>, Seq<char>>(acc),
                    allowed_flags == Some(*allowed),
                    av == args@.map_values(|s: String| s@),
                    k <= flags@.len(),
                    first_unknown(acc.take(k as int), al) == -1,
                decreases flags@.len() - k,
            {
                assert(acc.take(k + 1).drop_last() =~= acc.take(k as int));
                if !Self::is_allowed(allowed, &flags[k].0) {
                    let name = flags[k].0.clone();
                    assert(acc[k as int].0 == flags@[k as int].0@);
                    proof {
                        lemma_first_unknown_prefix(acc, al, k as int);
                        assert(first_unknown(acc, al) == k);
                        assert(flag_parse_result(av, Some(al)) == Err::<Seq<FlagEntry>, FlagError>(FlagError::Unknown(acc[k as int].0)));
                    }
                    return Err(FlagParserError::UnkownFlag(name));
                }
                k = k + 1;
            }
            assert(acc.take(flags@.len() as int) =~= acc);
        }
        proof {
            let al_opt = match allowed_flags {
                Some(al) => Some(al@.map_values(|s: String| s@)),
                None => None,
            };
            law_parsed_flags_are_allowed(av, al_opt);
        }
        Ok(FlagParser { flags })
    }

    /// The value recorded for `flag`: `None` when the flag was not given,
    /// `Some(None)` when it was given without a value, `Some(Some(v))` when
    /// `v` followed it.
    pub fn get(&self, flag: &str) -> (r: Option<&Option<String>>)
        ensures
            match r {
                Some(v) => exists|j: int|
                    0 <= j < self.entries().len() && #[trigger] self.entries()[j] == (
                        flag@,
                        opt_string_view(*v),
                    ),
                None => forall|j: int|
                    0 <= j < self.entries().len() ==> (#[trigger] self.entries()[j]).0 != flag@,
            },
    {
        let name = flag.to_owned();
        match Self::find_flag(&self.flags, &name) {
            Some(j) => {
                let v = &self.flags[j].1;
                assert(self.entries()[j as int] == (flag@, opt_string_view(*v)));
                Some(v)
            },
            None => {
                assert forall|j: int| 0 <= j < self.entries().len() implies (#[trigger] self.entries()[j]).0
                    != flag@ by {
                    assert(self.flags@[j].0@ != name@);
                }
                None
            },
        }
    }
}

/// Once the first `k` entries are all allowed and entry `k` is not, entry
/// `k` is the first unknown one.
proof fn lemma_first_unknown_prefix(acc: Seq<FlagEntry>, al: Seq<Seq<char>>, k: int)
    requires
        0 <= k < acc.len(),
        first_unknown(acc.take(k), al) == -1,
        !al.contains(acc[k].0),
    ensures
        first_unknown(acc, al) == k,
    decreases acc.len() - k,
{
    if acc.len() == k + 1 {
        assert(acc.drop_last() =~= acc.take(k));
    } else {
        let shorter = acc.drop_last();
        assert(shorter.take(k) =~= acc.take(k));
        lemma_first_unknown_prefix(shorter, al, k);
    }
}

/// The first entry whose flag `allowed` lacks is at `first_unknown`, and
/// every entry before it is allowed; -1 means every entry is allowed.
proof fn lemma_first_unknown_finds(acc: Seq<FlagEntry>, al: Seq<Seq<char>>)
    ensures
        first_unknown(acc, al) == -1 <==> forall|i: int| 0 <= i < acc.len() ==> al.contains(#[trigger] acc[i].0),
        first_unknown(acc, al) >= 0 ==> first_unknown(acc, al) < acc.len() && !al.contains(
            acc[first_unknown(acc, al)].0,
        ) && forall|j: int| 0 <= j < first_unknown(acc, al) ==> al.contains(#[trigger] acc[j].0),
        first_unknown(acc, al) >= -1,
    decreases acc.len(),
{
    if acc.len() > 0 {
        let d = acc.drop_last();
        lemma_first_unknown_finds(d, al);
        assert forall|i: int| 0 <= i < d.len() implies d[i] == acc[i] by {}
        if first_unknown(d, al) == -1 && al.contains(acc.last().0) {
            assert forall|i: int| 0 <= i < acc.len() implies al.contains(#[trigger] acc[i].0) by {
                if i < d.len() {
                    assert(al.contains(d[i].0));
                }
            }
        }
    }
}

/// Law: with a list of allowed flags, parsing succeeds only when every flag
/// given is on it, and fails on a flag that is not: the first such flag in
/// the order the arguments give them.
pub proof fn law_parsed_flags_are_allowed(args: Seq<Seq<char>>, allowed: Option<Seq<Seq<char>>>)
    ensures
        flag_parse_result(args, allowed) matches Ok(acc) ==> (allowed matches Some(al) ==> forall|i: int|
            0 <= i < acc.len() ==> al.contains(#[trigger] acc[i].0)),
        flag_parse_result(args, allowed) matches Err(FlagError::Unknown(f)) ==> match (allowed, parse_flags(args)) {
            (Some(al), Ok(acc)) => !al.contains(f) && exists|k: int|
                0 <= k < acc.len() && acc[k].0 == f && forall|j: int| 0 <= j < k ==> al.contains(#[trigger] acc[j].0),
            _ => false,
        },
        parse_flags(args) matches Ok(acc) ==> (allowed matches Some(al) ==> ((exists|i: int|
            0 <= i < acc.len() && !al.contains(#[trigger] acc[i].0)) ==> flag_parse_result(args, allowed) is Err)),
{
    if let Ok(acc) = parse_flags(args) {
        if let Some(al) = allowed {
            lemma_first_unknown_finds(acc, al);
        }
    }
}

} // verus!
