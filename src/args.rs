use vstd::prelude::*;
use vstd::string::StringSliceAdditionalSpecFns;
use vstd::utf8::valid_utf8;
use crate::paths::same_bytes;

verus! {

/// The byte `-`.
pub const DASH: u8 = 45;

/// Relies on `std::str::from_utf8`, which succeeds exactly on valid UTF-8.
#[verifier::external_body]
fn is_text(b: &[u8]) -> (r: bool)
    ensures
        r == valid_utf8(b@),
{
    std::str::from_utf8(b).is_ok()
}

/// How many of the following arguments each editor flag takes as values.
#[verifier::opaque]
pub open spec fn param_size_spec(a: Seq<u8>) -> Option<nat> {
    if a == "--add-mcp".spec_bytes() || a == "--add".spec_bytes() || a == "--category".spec_bytes()
        || a == "--disable-extension".spec_bytes() || a == "--enable-proposed-api".spec_bytes()
        || a == "--extensions-dir".spec_bytes() || a == "--goto".spec_bytes()
        || a == "--inspect-brk-extensions".spec_bytes() || a == "--inspect-extensions".spec_bytes()
        || a == "--install-extension".spec_bytes() || a == "--locale".spec_bytes()
        || a == "--locate-shell-integration-path".spec_bytes() || a == "--log".spec_bytes()
        || a == "--profile".spec_bytes() || a == "--remove".spec_bytes() || a
        == "--sync".spec_bytes() || a == "--uninstall-extension".spec_bytes() || a
        == "--user-data-dir".spec_bytes() || a == "-a".spec_bytes() || a == "-g".spec_bytes() {
        Some(1)
    } else if a == "--diff".spec_bytes() || a == "-d".spec_bytes() {
        Some(2)
    } else if a == "--merge".spec_bytes() || a == "-m".spec_bytes() {
        Some(4)
    } else {
        None
    }
}

/// The arguments after which nothing is read as a path.
pub open spec fn is_terminal_spec(a: Seq<u8>) -> bool {
    a == "--".spec_bytes() || a == "chat".spec_bytes() || a == "serve-web".spec_bytes() || a
        == "tunnel".spec_bytes()
}

fn is_any(a: &[u8], words: &Vec<&str>) -> (r: bool)
    ensures
        r == exists|i: int| 0 <= i < words@.len() && a@ == (#[trigger] words@[i]).spec_bytes(),
{
    let mut i: usize = 0;
    while i < words.len()
        invariant
            i <= words@.len(),
            forall|j: int| 0 <= j < i ==> a@ != (#[trigger] words@[j]).spec_bytes(),
        decreases words@.len() - i,
    {
        if same_bytes(a, words[i].as_bytes()) {
            return true;
        }
        i = i + 1;
    }
    false
}

/// The number of values that the flag `a` takes, if it is a flag of the table.
pub fn param_size(a: &[u8]) -> (r: Option<usize>)
    ensures
        r matches Some(n) ==> param_size_spec(a@) == Some(n as nat),
        r is None ==> param_size_spec(a@) is None,
{
    reveal(param_size_spec);
    let one = vec![
        "--add-mcp",
        "--add",
        "--category",
        "--disable-extension",
        "--enable-proposed-api",
        "--extensions-dir",
        "--goto",
        "--inspect-brk-extensions",
        "--inspect-extensions",
        "--install-extension",
        "--locale",
        "--locate-shell-integration-path",
        "--log",
        "--profile",
        "--remove",
        "--sync",
        "--uninstall-extension",
        "--user-data-dir",
        "-a",
        "-g",
    ];
    let two = vec!["--diff", "-d"];
    let four = vec!["--merge", "-m"];
    let in_one = is_any(a, &one);
    let in_two = is_any(a, &two);
    let in_four = is_any(a, &four);
    proof {
        // Spell out each table's membership on its words.
        if in_one {
            let i = choose|i: int| 0 <= i < one@.len() && a@ == (#[trigger] one@[i]).spec_bytes();
            assert(0 <= i < 20);
        } else {
            assert(a@ != one@[0].spec_bytes() && a@ != one@[1].spec_bytes() && a@ != one@[2].spec_bytes()
                && a@ != one@[3].spec_bytes() && a@ != one@[4].spec_bytes() && a@ != one@[5].spec_bytes()
                && a@ != one@[6].spec_bytes() && a@ != one@[7].spec_bytes() && a@ != one@[8].spec_bytes()
                && a@ != one@[9].spec_bytes() && a@ != one@[10].spec_bytes() && a@ != one@[11].spec_bytes()
                && a@ != one@[12].spec_bytes() && a@ != one@[13].spec_bytes() && a@ != one@[14].spec_bytes()
                && a@ != one@[15].spec_bytes() && a@ != one@[16].spec_bytes() && a@ != one@[17].spec_bytes()
                && a@ != one@[18].spec_bytes() && a@ != one@[19].spec_bytes());
        }
        if in_two {
            let i = choose|i: int| 0 <= i < two@.len() && a@ == (#[trigger] two@[i]).spec_bytes();
            assert(0 <= i < 2);
        } else {
            assert(a@ != two@[0].spec_bytes() && a@ != two@[1].spec_bytes());
        }
        if in_four {
            let i = choose|i: int| 0 <= i < four@.len() && a@ == (#[trigger] four@[i]).spec_bytes();
            assert(0 <= i < 2);
        } else {
            assert(a@ != four@[0].spec_bytes() && a@ != four@[1].spec_bytes());
        }
    }
    if in_one {
        Some(1)
    } else if in_two {
        Some(2)
    } else if in_four {
        Some(4)
    } else {
        None
    }
}

/// Whether `a` ends the part of the arguments that may hold paths.
pub fn is_terminal(a: &[u8]) -> (r: bool)
    ensures
        r == is_terminal_spec(a@),
{
    let words = vec!["--", "chat", "serve-web", "tunnel"];
    let r = is_any(a, &words);
    proof {
        if r {
            let i = choose|i: int| 0 <= i < words@.len() && a@ == (#[trigger] words@[i]).spec_bytes();
            assert(0 <= i < 4);
        } else {
            assert(a@ != words@[0].spec_bytes() && a@ != words@[1].spec_bytes() && a@
                != words@[2].spec_bytes() && a@ != words@[3].spec_bytes());
        }
    }
    r
}

/// What the classifier does with one argument.
#[derive(PartialEq, Eq, Structural, Clone, Copy, Debug)]
pub enum ArgRole {
    /// Passed on as it is.
    Verbatim,
    /// A cluster of single-letter flags, passed on as it is; one of its
    /// letters may want values, which is not handled, so a warning is due.
    ShortFlags,
    /// A path to resolve and perhaps rewrite.
    Path,
}

/// Where the classifier stands between two arguments.
#[derive(PartialEq, Eq, Structural, Clone, Copy, Debug)]
pub enum ArgState {
    Normal,
    /// This many more arguments are values of the last flag.
    FollowOn(usize),
    /// A terminal argument was seen: all that follows passes through.
    AfterTerminal,
}

pub open spec fn has_byte(a: Seq<u8>, b: u8) -> bool {
    exists|i: int| 0 <= i < a.len() && a[i] == b
}

/// A single-dash cluster longer than one flag that holds a letter of a flag
/// with values (`a`, `d`, `g`, `m`).
pub open spec fn is_coalesced_spec(a: Seq<u8>) -> bool {
    a.len() > 2 && (has_byte(a, 97) || has_byte(a, 100) || has_byte(a, 103) || has_byte(a, 109))
}

/// One step of the classifier on the argument `a`. Text that is not UTF-8
/// is never a flag.
#[verifier::opaque]
pub open spec fn step(st: ArgState, a: Seq<u8>) -> (ArgState, ArgRole) {
    match st {
        ArgState::FollowOn(n) => (
            if n > 1 {
                ArgState::FollowOn((n - 1) as usize)
            } else {
                ArgState::Normal
            },
            ArgRole::Verbatim,
        ),
        ArgState::AfterTerminal => (ArgState::AfterTerminal, ArgRole::Verbatim),
        ArgState::Normal => if !valid_utf8(a) {
            (ArgState::Normal, ArgRole::Path)
        } else if param_size_spec(a) is Some {
            let n = param_size_spec(a)->0;
            (
                if n > 0 {
                    ArgState::FollowOn(n as usize)
                } else {
                    ArgState::Normal
                },
                ArgRole::Verbatim,
            )
        } else if is_terminal_spec(a) {
            (ArgState::AfterTerminal, ArgRole::Verbatim)
        } else if a.len() >= 2 && a[0] == DASH && a[1] == DASH {
            (ArgState::Normal, ArgRole::Verbatim)
        } else if a.len() >= 1 && a[0] == DASH {
            (
                ArgState::Normal,
                if is_coalesced_spec(a) {
                    ArgRole::ShortFlags
                } else {
                    ArgRole::Verbatim
                },
            )
        } else {
            (ArgState::Normal, ArgRole::Path)
        },
    }
}

/// The classifier run over `args` from the `Normal` state: the state at the
/// end and one role per argument.
pub open spec fn classify_spec(args: Seq<Seq<u8>>) -> (ArgState, Seq<ArgRole>)
    decreases args.len(),
{
    if args.len() == 0 {
        (ArgState::Normal, Seq::empty())
    } else {
        let prev = classify_spec(args.drop_last());
        let next = step(prev.0, args.last());
        (next.0, prev.1.push(next.1))
    }
}

/// The classifier gives one role per argument.
pub proof fn lemma_one_role_each(args: Seq<Seq<u8>>)
    ensures
        classify_spec(args).1.len() == args.len(),
    decreases args.len(),
{
    if args.len() > 0 {
        lemma_one_role_each(args.drop_last());
    }
}

fn has_byte_exec(a: &[u8], b: u8) -> (r: bool)
    ensures
        r == has_byte(a@, b),
{
    let mut i: usize = 0;
    while i < a.len()
        invariant
            i <= a@.len(),
            forall|j: int| 0 <= j < i ==> a@[j] != b,
        decreases a@.len() - i,
    {
        if a[i] == b {
            return true;
        }
        i = i + 1;
    }
    false
}

/// One step of the classifier (see `step`).
pub fn classify_one(st: ArgState, a: &[u8]) -> (r: (ArgState, ArgRole))
    ensures
        r == step(st, a@),
{
    reveal(step);
    match st {
        ArgState::FollowOn(n) => (
            if n > 1 {
                ArgState::FollowOn(n - 1)
            } else {
                ArgState::Normal
            },
            ArgRole::Verbatim,
        ),
        ArgState::AfterTerminal => (ArgState::AfterTerminal, ArgRole::Verbatim),
        ArgState::Normal => {
            if !is_text(a) {
                return (ArgState::Normal, ArgRole::Path);
            }
            match param_size(a) {
                Some(n) => {
                    return (
                        if n > 0 {
                            ArgState::FollowOn(n)
                        } else {
                            ArgState::Normal
                        },
                        ArgRole::Verbatim,
                    );
                },
                None => {},
            }
            if is_terminal(a) {
                (ArgState::AfterTerminal, ArgRole::Verbatim)
            } else if a.len() >= 2 && a[0] == DASH && a[1] == DASH {
                (ArgState::Normal, ArgRole::Verbatim)
            } else if a.len() >= 1 && a[0] == DASH {
                let c = a.len() > 2 && (has_byte_exec(a, 97) || has_byte_exec(a, 100)
                    || has_byte_exec(a, 103) || has_byte_exec(a, 109));
                (
                    ArgState::Normal,
                    if c {
                        ArgRole::ShortFlags
                    } else {
                        ArgRole::Verbatim
                    },
                )
            } else {
                (ArgState::Normal, ArgRole::Path)
            }
        },
    }
}

/// The classification of a whole argument list: one role per argument, and
/// the state at the end (`FollowOn` there means a flag lacked its values).
pub struct ArgPlan {
    pub roles: Vec<ArgRole>,
    pub end: ArgState,
}

/// Classifies `args` left to right, each argument exactly once.
pub fn classify_args(args: &Vec<Vec<u8>>) -> (r: ArgPlan)
    ensures
        r.roles@.len() == args@.len(),
        (r.end, r.roles@) == classify_spec(crate::paths::views(args@)),
{
    let mut roles: Vec<ArgRole> = Vec::new();
    let mut st = ArgState::Normal;
    let mut i: usize = 0;
    assert(crate::paths::views(args@).subrange(0, 0) =~= Seq::<Seq<u8>>::empty());
    while i < args.len()
        invariant
            i <= args@.len(),
            (st, roles@) == classify_spec(crate::paths::views(args@).subrange(0, i as int)),
        decreases args@.len() - i,
    {
        let (next, role) = classify_one(st, args[i].as_slice());
        roles.push(role);
        st = next;
        assert(crate::paths::views(args@).subrange(0, i + 1).drop_last() =~= crate::paths::views(
            args@,
        ).subrange(0, i as int));
        i = i + 1;
    }
    assert(crate::paths::views(args@).subrange(0, args@.len() as int) =~= crate::paths::views(args@));
    proof {
        lemma_one_role_each(crate::paths::views(args@));
    }
    ArgPlan { roles, end: st }
}

proof fn lemma_follow_steps(base: Seq<Seq<u8>>, values: Seq<Seq<u8>>, n: nat, k: nat)
    requires
        0 < n < 5,
        classify_spec(base).0 == ArgState::FollowOn(n as usize),
        k <= values.len() <= n,
    ensures
        classify_spec(base + values.subrange(0, k as int)).0 == (if k < n {
            ArgState::FollowOn((n - k) as usize)
        } else {
            ArgState::Normal
        }),
        classify_spec(base + values.subrange(0, k as int)).1.subrange(0, base.len() as int)
            == classify_spec(base).1,
        forall|j: int|
            base.len() <= j < base.len() + k ==> #[trigger] classify_spec(
                base + values.subrange(0, k as int),
            ).1[j] == ArgRole::Verbatim,
    decreases k,
{
    lemma_one_role_each(base);
    if k == 0 {
        assert(base + values.subrange(0, 0) =~= base);
        assert(classify_spec(base).1.subrange(0, base.len() as int) =~= classify_spec(base).1);
    } else {
        lemma_follow_steps(base, values, n, (k - 1) as nat);
        let s = base + values.subrange(0, k as int);
        let p = base + values.subrange(0, k - 1);
        assert(s.drop_last() =~= p);
        assert(s.last() == values[k - 1]);
        reveal(step);
        lemma_one_role_each(p);
        let rp = classify_spec(p).1;
        let rs = classify_spec(s).1;
        assert(rs == rp.push(ArgRole::Verbatim));
        assert(rs.subrange(0, base.len() as int) =~= rp.subrange(0, base.len() as int));
        assert forall|j: int| base.len() <= j < base.len() + k implies #[trigger] rs[j]
            == ArgRole::Verbatim by {
            if j < base.len() + k - 1 {
                assert(rs[j] == rp[j]);
            }
        }
    }
}

proof fn lemma_flag_is_text(flag: Seq<u8>)
    requires
        param_size_spec(flag) is Some,
    ensures
        valid_utf8(flag),
        0 < param_size_spec(flag)->0 < 5,
{
    broadcast use vstd::utf8::encode_utf8_valid_utf8;

    reveal(param_size_spec);
}

proof fn lemma_flag_step(flag: Seq<u8>)
    requires
        param_size_spec(flag) is Some,
    ensures
        step(ArgState::Normal, flag) == (
            ArgState::FollowOn(param_size_spec(flag)->0 as usize),
            ArgRole::Verbatim,
        ),
{
    lemma_flag_is_text(flag);
    reveal(step);
}

/// A flag that takes `n` values, read where the classifier is in its normal
/// state, passes through, and so do the (up to `n`) arguments after it,
/// whatever they hold (even text that looks like a path or a flag). With all
/// `n` values present the classifier is back in its normal state; where they
/// run out it still waits for the missing ones, which is the warning case.
pub proof fn lemma_flag_values_pass(prefix: Seq<Seq<u8>>, flag: Seq<u8>, values: Seq<Seq<u8>>)
    requires
        classify_spec(prefix).0 == ArgState::Normal,
        param_size_spec(flag) is Some,
        values.len() <= param_size_spec(flag)->0,
    ensures
        classify_spec(prefix.push(flag) + values).1[prefix.len() as int] == ArgRole::Verbatim,
        forall|j: int|
            prefix.len() < j <= prefix.len() + values.len() ==> #[trigger] classify_spec(
                prefix.push(flag) + values,
            ).1[j] == ArgRole::Verbatim,
        values.len() == param_size_spec(flag)->0 ==> classify_spec(prefix.push(flag) + values).0
            == ArgState::Normal,
        values.len() < param_size_spec(flag)->0 ==> classify_spec(prefix.push(flag) + values).0
            == ArgState::FollowOn((param_size_spec(flag)->0 - values.len()) as usize),
{
    lemma_flag_is_text(flag);
    lemma_flag_step(flag);
    let n = param_size_spec(flag)->0;
    let base = prefix.push(flag);
    assert(base.drop_last() =~= prefix);
    lemma_follow_steps(base, values, n, values.len());
    assert(values.subrange(0, values.len() as int) =~= values);
    lemma_one_role_each(prefix);
    assert(classify_spec(base).1[prefix.len() as int] == ArgRole::Verbatim);
    let all = classify_spec(base + values).1;
    lemma_one_role_each(base + values);
    assert(all.subrange(0, base.len() as int)[prefix.len() as int] == all[prefix.len() as int]);
}

} // verus!
