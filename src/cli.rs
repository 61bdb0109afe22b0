//! Command-line argument handling: `--flag value` pairs fed to a configuration.
use vstd::prelude::*;
use crate::error::CliError;
use crate::text::{chars_of, eq_str, string_from_chars};

verus! {

/// A configuration filled from `--flag value` pairs. An implementation may
/// state what its two methods do through the two relations below; by
/// default they claim nothing.
pub trait CliConfig: Default + Sized {
    /// `set_arg(flag, value)` on `before` may leave `after` and return `r`.
    open spec fn spec_set_arg(
        before: Self,
        flag: Seq<char>,
        value: Seq<char>,
        after: Self,
        r: Result<(), CliError>,
    ) -> bool {
        true
    }

    /// `validate_args` on `config` may return `r`.
    open spec fn spec_validate(config: Self, r: Result<(), CliError>) -> bool {
        true
    }

    /// Sets the argument `flag` (given without its dashes) to `value`.
    fn set_arg(&mut self, flag: &str, value: String) -> (r: Result<(), CliError>)
        ensures
            Self::spec_set_arg(*old(self), flag@, value@, *final(self), r),
    ;

    /// Checks that every required argument was given.
    fn validate_args(&self) -> (r: Result<(), CliError>)
        ensures
            Self::spec_validate(*self, r),
    ;
}

/// `r` may be the outcome of feeding the arguments from position `i` on to
/// `config`: each `--flag value` pair goes to `set_arg` in order, then
/// `validate_args` runs once; the first error ends the run and is returned
/// as it is. An argument without `--`, or without a value after it, is an
/// error naming that argument.
pub open spec fn feeds<T: CliConfig>(config: T, args: Seq<String>, i: int, r: Result<T, CliError>) -> bool
    decreases args.len() - i,
{
    if i >= args.len() {
        exists|v: Result<(), CliError>|
            #[trigger] T::spec_validate(config, v) && match v {
                Ok(_) => r == Ok::<T, CliError>(config),
                Err(e) => r == Err::<T, CliError>(e),
            }
    } else if flag_of(args[i]@) is None {
        r == Err::<T, CliError>(CliError::UnknownArgument { name: args[i] })
    } else if i + 1 >= args.len() {
        r == Err::<T, CliError>(CliError::MissingValue { name: args[i] })
    } else {
        exists|after: T, v: Result<(), CliError>|
            #[trigger] T::spec_set_arg(config, flag_of(args[i]@)->0, args[i + 1]@, after, v)
                && match v {
                Ok(_) => feeds(after, args, i + 2, r),
                Err(e) => r == Err::<T, CliError>(e),
            }
    }
}

/// The flag that an argument names: the text after a leading `--`.
pub open spec fn flag_of(arg: Seq<char>) -> Option<Seq<char>> {
    if arg.len() >= 2 && arg[0] == '-' && arg[1] == '-' {
        Some(arg.skip(2))
    } else {
        None
    }
}

/// Every odd position up to the end holds a `--flag` followed by a value.
pub open spec fn well_formed(args: Seq<Seq<char>>) -> bool {
    forall|i: int|
        1 <= i < args.len() && i % 2 == 1 ==> (#[trigger] flag_of(args[i])) is Some && i + 1
            < args.len()
}

/// The views of a list of strings.
pub open spec fn arg_views(args: Seq<String>) -> Seq<Seq<char>> {
    args.map_values(|s: String| s@)
}

/// The flag of `arg` without its leading `--`, if it has one.
pub fn strip_dashes(arg: &str) -> (r: Option<String>)
    ensures
        match flag_of(arg@) {
            Some(f) => r matches Some(s) && s@ == f,
            None => r is None,
        },
{
    let cs = chars_of(arg);
    let n = cs.len();
    if n >= 2 && cs[0] == '-' && cs[1] == '-' {
        Some(string_from_chars(&cs[2..n]))
    } else {
        None
    }
}

/// The pair that starts at position `i`: the flag of `args[i]` and the
/// value after it; an argument without `--`, or without a value, is an error
/// naming that argument.
pub fn next_pair(args: &[String], i: usize) -> (r: Result<(String, String), CliError>)
    requires
        i < args@.len(),
    ensures
        match flag_of(args@[i as int]@) {
            None => r == Err::<(String, String), CliError>(
                CliError::UnknownArgument { name: args@[i as int] },
            ),
            Some(f) => if i + 1 < args@.len() {
                r matches Ok((flag, value)) && flag@ == f && value == args@[i + 1]
            } else {
                r == Err::<(String, String), CliError>(
                    CliError::MissingValue { name: args@[i as int] },
                )
            },
        },
{
    let arg = &args[i];
    let flag = match strip_dashes(arg.as_str()) {
        Some(f) => f,
        None => return Err(CliError::UnknownArgument { name: arg.clone() }),
    };
    if args.len() - i < 2 {
        return Err(CliError::MissingValue { name: arg.clone() });
    }
    Ok((flag, args[i + 1].clone()))
}

/// Feeds the `--flag value` pairs that follow the program name to a fresh
/// configuration, in order, and validates it.
pub fn parse_args<T: CliConfig>(args: &[String]) -> (r: Result<T, CliError>)
    ensures
        exists|initial: T| #[trigger] feeds(initial, args@, 1, r),
        r is Ok ==> well_formed(arg_views(args@)),
{
    let mut config = T::default();
    let ghost initial = config;
    let n = args.len();
    let mut i: usize = 1;
    while i < n
        invariant
            n == args@.len(),
            i >= 1,
            i % 2 == 1,
            forall|j: int|
                1 <= j < i && j % 2 == 1 ==> (#[trigger] flag_of(args@[j]@)) is Some && j + 1 < n,
            forall|q: Result<T, CliError>|
                #[trigger] feeds(config, args@, i as int, q) ==> feeds(initial, args@, 1, q),
        decreases n - i,
    {
        let ghost before = config;
        let (flag, value) = match next_pair(args, i) {
            Ok(pair) => pair,
            Err(e) => {
                proof {
                    assert(feeds(config, args@, i as int, Err(e)));
                }
                return Err(e);
            },
        };
        let ghost flag_view = flag@;
        let ghost value_view = value@;
        let res = config.set_arg(flag.as_str(), value);
        proof {
            assert(T::spec_set_arg(before, flag_view, value_view, config, res));
        }
        match res {
            Ok(()) => {
                proof {
                    assert forall|q: Result<T, CliError>|
                        #[trigger] feeds(config, args@, i + 2, q) implies feeds(
                        before,
                        args@,
                        i as int,
                        q,
                    ) by {
                        assert(T::spec_set_arg(before, flag_view, value_view, config, res));
                    }
                }
            },
            Err(e) => {
                proof {
                    assert(T::spec_set_arg(before, flag_view, value_view, config, Err(e)));
                    assert(feeds(before, args@, i as int, Err(e)));
                }
                return Err(e);
            },
        }
        i = i + 2;
    }
    let v = config.validate_args();
    let r = match v {
        Ok(()) => Ok(config),
        Err(e) => Err(e),
    };
    proof {
        assert(T::spec_validate(config, v));
        assert(feeds(config, args@, i as int, r));
        assert(feeds(initial, args@, 1, r));
        if r is Ok {
            let av = arg_views(args@);
            assert forall|j: int| 1 <= j < av.len() && j % 2 == 1 implies (#[trigger] flag_of(
                av[j],
            )) is Some && j + 1 < av.len() by {
                assert(av[j] == args@[j]@);
            }
        }
    }
    r
}

/// The first of positions `from..n` whose argument is empty, or `n`.
pub open spec fn first_empty(args: Seq<Seq<char>>, from: nat, n: nat) -> nat
    decreases n - from,
{
    if from >= n {
        n
    } else if args[from as int].len() == 0 {
        from
    } else {
        first_empty(args, from + 1, n)
    }
}

/// `--` followed by `flag`.
fn dashed(flag: &str) -> (r: String)
    ensures
        r@ == "--"@ + flag@,
{
    let mut s = "--".to_string();
    s.append(flag);
    s
}

/// Arguments of the converter program.
pub struct ConverterConfig {
    pub input: String,
    pub input_format: String,
    pub output_format: String,
    pub output: String,
}

impl ConverterConfig {
    /// The four arguments, in the order of their flags.
    pub open spec fn spec_args(&self) -> Seq<Seq<char>> {
        seq![self.input@, self.input_format@, self.output_format@, self.output@]
    }
}

/// The position of a converter flag, or 4 for an unknown one.
pub open spec fn converter_slot(flag: Seq<char>) -> int {
    if flag == "input"@ {
        0
    } else if flag == "input-format"@ {
        1
    } else if flag == "output-format"@ {
        2
    } else if flag == "output"@ {
        3
    } else {
        4
    }
}

/// The flag of required converter argument `k`.
pub open spec fn converter_required(k: int) -> Seq<char> {
    if k == 0 {
        "--input"@
    } else if k == 1 {
        "--input-format"@
    } else {
        "--output-format"@
    }
}

impl Default for ConverterConfig {
    fn default() -> (r: Self)
        ensures
            r.spec_args() == seq![Seq::<char>::empty(), Seq::empty(), Seq::empty(), Seq::empty()],
    {
        ConverterConfig {
            input: String::new(),
            input_format: String::new(),
            output_format: String::new(),
            output: String::new(),
        }
    }
}

impl CliConfig for ConverterConfig {
    open spec fn spec_set_arg(
        before: Self,
        flag: Seq<char>,
        value: Seq<char>,
        after: Self,
        r: Result<(), CliError>,
    ) -> bool {
        if converter_slot(flag) < 4 {
            r is Ok && after.spec_args() == before.spec_args().update(converter_slot(flag), value)
        } else {
            (r matches Err(CliError::UnknownArgument { name }) && name@ == "--"@ + flag)
                && after.spec_args() == before.spec_args()
        }
    }

    open spec fn spec_validate(config: Self, r: Result<(), CliError>) -> bool {
        let k = first_empty(config.spec_args(), 0, 3);
        &&& k == 3 ==> r is Ok
        &&& k < 3 ==> (r matches Err(CliError::MissingArgument { name }) && name@ == converter_required(k as int))
    }

    fn set_arg(&mut self, flag: &str, value: String) -> (r: Result<(), CliError>)
    {
        let cs = chars_of(flag);
        if eq_str(cs.as_slice(), "input") {
            self.input = value;
        } else if eq_str(cs.as_slice(), "input-format") {
            self.input_format = value;
        } else if eq_str(cs.as_slice(), "output-format") {
            self.output_format = value;
        } else if eq_str(cs.as_slice(), "output") {
            self.output = value;
        } else {
            return Err(CliError::UnknownArgument { name: dashed(flag) });
        }
        proof {
            assert(self.spec_args() =~= old(self).spec_args().update(converter_slot(flag@), value@));
        }
        Ok(())
    }

    fn validate_args(&self) -> (r: Result<(), CliError>)
    {
        proof {
            reveal_with_fuel(first_empty, 4);
        }
        if self.input.as_str().is_empty() {
            return Err(CliError::MissingArgument { name: "--input".to_string() });
        }
        if self.input_format.as_str().is_empty() {
            return Err(CliError::MissingArgument { name: "--input-format".to_string() });
        }
        if self.output_format.as_str().is_empty() {
            return Err(CliError::MissingArgument { name: "--output-format".to_string() });
        }
        Ok(())
    }
}

/// Arguments of the comparison program.
pub struct CompareConfig {
    pub file1: String,
    pub format1: String,
    pub file2: String,
    pub format2: String,
}

impl CompareConfig {
    /// The four arguments, in the order of their flags.
    pub open spec fn spec_args(&self) -> Seq<Seq<char>> {
        seq![self.file1@, self.format1@, self.file2@, self.format2@]
    }
}

/// The position of a comparison flag, or 4 for an unknown one.
pub open spec fn compare_slot(flag: Seq<char>) -> int {
    if flag == "file1"@ {
        0
    } else if flag == "format1"@ {
        1
    } else if flag == "file2"@ {
        2
    } else if flag == "format2"@ {
        3
    } else {
        4
    }
}

/// The flag of required comparison argument `k`.
pub open spec fn compare_required(k: int) -> Seq<char> {
    if k == 0 {
        "--file1"@
    } else if k == 1 {
        "--format1"@
    } else if k == 2 {
        "--file2"@
    } else {
        "--format2"@
    }
}

impl Default for CompareConfig {
    fn default() -> (r: Self)
        ensures
            r.spec_args() == seq![Seq::<char>::empty(), Seq::empty(), Seq::empty(), Seq::empty()],
    {
        CompareConfig {
            file1: String::new(),
            format1: String::new(),
            file2: String::new(),
            format2: String::new(),
        }
    }
}

impl CliConfig for CompareConfig {
    open spec fn spec_set_arg(
        before: Self,
        flag: Seq<char>,
        value: Seq<char>,
        after: Self,
        r: Result<(), CliError>,
    ) -> bool {
        if compare_slot(flag) < 4 {
            r is Ok && after.spec_args() == before.spec_args().update(compare_slot(flag), value)
        } else {
            (r matches Err(CliError::UnknownArgument { name }) && name@ == "--"@ + flag)
                && after.spec_args() == before.spec_args()
        }
    }

    open spec fn spec_validate(config: Self, r: Result<(), CliError>) -> bool {
        let k = first_empty(config.spec_args(), 0, 4);
        &&& k == 4 ==> r is Ok
        &&& k < 4 ==> (r matches Err(CliError::MissingArgument { name }) && name@ == compare_required(k as int))
    }

    fn set_arg(&mut self, flag: &str, value: String) -> (r: Result<(), CliError>)
    {
        let cs = chars_of(flag);
        if eq_str(cs.as_slice(), "file1") {
            self.file1 = value;
        } else if eq_str(cs.as_slice(), "format1") {
            self.format1 = value;
        } else if eq_str(cs.as_slice(), "file2") {
            self.file2 = value;
        } else if eq_str(cs.as_slice(), "format2") {
            self.format2 = value;
        } else {
            return Err(CliError::UnknownArgument { name: dashed(flag) });
        }
        proof {
            assert(self.spec_args() =~= old(self).spec_args().update(compare_slot(flag@), value@));
        }
        Ok(())
    }

    fn validate_args(&self) -> (r: Result<(), CliError>)
    {
        proof {
            reveal_with_fuel(first_empty, 5);
        }
        if self.file1.as_str().is_empty() {
            return Err(CliError::MissingArgument { name: "--file1".to_string() });
        }
        if self.format1.as_str().is_empty() {
            return Err(CliError::MissingArgument { name: "--format1".to_string() });
        }
        if self.file2.as_str().is_empty() {
            return Err(CliError::MissingArgument { name: "--file2".to_string() });
        }
        if self.format2.as_str().is_empty() {
            return Err(CliError::MissingArgument { name: "--format2".to_string() });
        }
        Ok(())
    }
}

} // verus!
