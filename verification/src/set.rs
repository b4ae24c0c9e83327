//! The modifiers of the SET command and their left-to-right parser.
use vstd::prelude::*;
use vstd::string::StringExecFns;

use crate::storage_result::{StorageError, StorageResult};
use crate::text::{
    fold_lowercase, join_strings, join_with, lower_of, parse_u64_string, spec_parse_u64, strs_view,
};

verus! {

broadcast use vstd::std_specs::vec::group_vec_axioms, vstd::seq::group_seq_axioms;

/// The existence constraint of a SET: create-only or update-only.
#[derive(Debug, PartialEq, Eq, Clone, Copy)]
pub enum KeyExistence {
    /// Write only if the key does not exist yet.
    NX,
    /// Write only if the key already exists.
    XX,
}

/// The expiry constraint of a SET, in seconds or in milliseconds.
#[derive(Debug, PartialEq, Eq, Clone, Copy)]
pub enum KeyExipry {
    EX(u64),
    PX(u64),
}

/// The parsed modifiers of a SET command. The existence and expiry
/// constraints are independently optional.
#[derive(Debug, PartialEq, Eq, Clone, Copy)]
pub struct SetArgs {
    pub expiry: Option<KeyExipry>,
    pub existence: Option<KeyExistence>,
    pub get: bool,
}

impl SetArgs {
    /// No constraints: an unconditional, non-expiring write.
    pub fn new() -> (r: Self)
        ensures
            r == (SetArgs { expiry: None, existence: None, get: false }),
    {
        Self { expiry: None, existence: None, get: false }
    }
}

/// One keyword handled: how the argument parser moves from `idx` with the
/// options collected so far. Keywords are matched case-insensitively;
/// `EX`/`PX` consume a numeric value token as well. An unrecognized token,
/// a dangling `EX`/`PX`, an unparseable value, `NX` against `XX`, or `EX`
/// against `PX` is a syntax error.
pub open spec fn spec_parse_set_args(args: Seq<Seq<char>>, idx: int, acc: SetArgs) -> Result<
    SetArgs,
    (),
>
    decreases args.len() - idx,
{
    if idx >= args.len() {
        Ok(acc)
    } else {
        let t = lower_of(args[idx]);
        if t == "nx"@ {
            if acc.existence == Some(KeyExistence::XX) {
                Err(())
            } else {
                spec_parse_set_args(
                    args,
                    idx + 1,
                    SetArgs { existence: Some(KeyExistence::NX), ..acc },
                )
            }
        } else if t == "xx"@ {
            if acc.existence == Some(KeyExistence::NX) {
                Err(())
            } else {
                spec_parse_set_args(
                    args,
                    idx + 1,
                    SetArgs { existence: Some(KeyExistence::XX), ..acc },
                )
            }
        } else if t == "ex"@ {
            if acc.expiry matches Some(KeyExipry::PX(_)) {
                Err(())
            } else if idx + 1 >= args.len() {
                Err(())
            } else {
                match spec_parse_u64(vstd::utf8::encode_utf8(args[idx + 1])) {
                    Some(v) => spec_parse_set_args(
                        args,
                        idx + 2,
                        SetArgs { expiry: Some(KeyExipry::EX(v)), ..acc },
                    ),
                    None => Err(()),
                }
            }
        } else if t == "px"@ {
            if acc.expiry matches Some(KeyExipry::EX(_)) {
                Err(())
            } else if idx + 1 >= args.len() {
                Err(())
            } else {
                match spec_parse_u64(vstd::utf8::encode_utf8(args[idx + 1])) {
                    Some(v) => spec_parse_set_args(
                        args,
                        idx + 2,
                        SetArgs { expiry: Some(KeyExipry::PX(v)), ..acc },
                    ),
                    None => Err(()),
                }
            }
        } else if t == "get"@ {
            spec_parse_set_args(args, idx + 1, SetArgs { get: true, ..acc })
        } else {
            Err(())
        }
    }
}

/// Parse the tail of a SET command's arguments into its modifiers, or fail
/// with a syntax error carrying the joined original arguments.
///
/// Two of the testable laws stand in the last two clauses: constraints that
/// exclude each other fail regardless of order — `NX` with `XX`, and `EX`
/// with `PX` (each with a value token between and after them).
#[verifier::loop_isolation(false)]
pub fn parse_set_arguments(arguments: &Vec<String>) -> (r: StorageResult<SetArgs>)
    ensures
        ({
            let spec_r = spec_parse_set_args(
                strs_view(arguments@),
                0,
                SetArgs { expiry: None, existence: None, get: false },
            );
            match r {
                Ok(a) => spec_r == Ok::<SetArgs, ()>(a),
                Err(e) => spec_r == Err::<SetArgs, ()>(()) && (e matches
                StorageError::CommandSyntaxError(s) && s@ == join_with(
                    strs_view(arguments@),
                    " "@,
                )),
            }
        }),
        arguments@.len() >= 2 && lower_of(arguments@[0]@) == "nx"@ && lower_of(arguments@[1]@)
            == "xx"@ ==> r is Err,
        arguments@.len() >= 2 && lower_of(arguments@[0]@) == "xx"@ && lower_of(arguments@[1]@)
            == "nx"@ ==> r is Err,
        arguments@.len() == 4 && lower_of(arguments@[0]@) == "ex"@ && lower_of(arguments@[2]@)
            == "px"@ ==> r is Err,
        arguments@.len() == 4 && lower_of(arguments@[0]@) == "px"@ && lower_of(arguments@[2]@)
            == "ex"@ ==> r is Err,
{
    proof {
        reveal_strlit("nx");
        reveal_strlit("xx");
        reveal_strlit("ex");
        reveal_strlit("px");
        reveal_strlit("get");
    }
    let mut args = SetArgs::new();
    let mut idx: usize = 0;
    let ghost all = strs_view(arguments@);
    while idx < arguments.len()
        invariant
            0 <= idx <= arguments@.len(),
            spec_parse_set_args(all, 0, SetArgs { expiry: None, existence: None, get: false })
                == spec_parse_set_args(all, idx as int, args),
        decreases arguments@.len() - idx,
    {
        let token = fold_lowercase(&arguments[idx]);
        if token == String::from_str("nx") {
            if matches!(args.existence, Some(KeyExistence::XX)) {
                return Err(StorageError::CommandSyntaxError(join_strings(arguments, " ")));
            }
            args.existence = Some(KeyExistence::NX);
            idx = idx + 1;
        } else if token == String::from_str("xx") {
            if matches!(args.existence, Some(KeyExistence::NX)) {
                return Err(StorageError::CommandSyntaxError(join_strings(arguments, " ")));
            }
            args.existence = Some(KeyExistence::XX);
            idx = idx + 1;
        } else if token == String::from_str("ex") {
            if matches!(args.expiry, Some(KeyExipry::PX(_))) {
                return Err(StorageError::CommandSyntaxError(join_strings(arguments, " ")));
            }
            if idx + 1 == arguments.len() {
                return Err(StorageError::CommandSyntaxError(join_strings(arguments, " ")));
            }
            let value = match parse_u64_string(&arguments[idx + 1]) {
                Some(v) => v,
                None => {
                    return Err(StorageError::CommandSyntaxError(join_strings(arguments, " ")));
                },
            };
            args.expiry = Some(KeyExipry::EX(value));
            idx = idx + 2;
        } else if token == String::from_str("px") {
            if matches!(args.expiry, Some(KeyExipry::EX(_))) {
                return Err(StorageError::CommandSyntaxError(join_strings(arguments, " ")));
            }
            if idx + 1 == arguments.len() {
                return Err(StorageError::CommandSyntaxError(join_strings(arguments, " ")));
            }
            let value = match parse_u64_string(&arguments[idx + 1]) {
                Some(v) => v,
                None => {
                    return Err(StorageError::CommandSyntaxError(join_strings(arguments, " ")));
                },
            };
            args.expiry = Some(KeyExipry::PX(value));
            idx = idx + 2;
        } else if token == String::from_str("get") {
            args.get = true;
            idx = idx + 1;
        } else {
            return Err(StorageError::CommandSyntaxError(join_strings(arguments, " ")));
        }
    }
    proof {
        reveal_with_fuel(spec_parse_set_args, 4);
        reveal_strlit("nx");
        reveal_strlit("xx");
        reveal_strlit("ex");
        reveal_strlit("px");
        assert("nx"@[0] == 'n' && "xx"@[0] == 'x' && "ex"@[0] == 'e' && "px"@[0] == 'p');
        assert("nx"@ != "xx"@ && "px"@ != "nx"@ && "px"@ != "xx"@ && "px"@ != "ex"@ && "ex"@
            != "nx"@ && "ex"@ != "xx"@);
        let init = SetArgs { expiry: None, existence: None, get: false };
        if all.len() >= 2 && lower_of(all[0]) == "nx"@ && lower_of(all[1]) == "xx"@ {
            assert(spec_parse_set_args(all, 0, init) == spec_parse_set_args(
                all,
                1,
                SetArgs { existence: Some(KeyExistence::NX), ..init },
            ));
            assert(spec_parse_set_args(all, 0, init) == Err::<SetArgs, ()>(()));
        }
        if all.len() >= 2 && lower_of(all[0]) == "xx"@ && lower_of(all[1]) == "nx"@ {
            assert(spec_parse_set_args(all, 0, init) == spec_parse_set_args(
                all,
                1,
                SetArgs { existence: Some(KeyExistence::XX), ..init },
            ));
            assert(spec_parse_set_args(all, 1, SetArgs { existence: Some(KeyExistence::XX), ..init })
                == Err::<SetArgs, ()>(()));
        }
        if all.len() == 4 && lower_of(all[0]) == "ex"@ && lower_of(all[2]) == "px"@ {
            if let Some(v) = spec_parse_u64(vstd::utf8::encode_utf8(all[1])) {
                assert(spec_parse_set_args(all, 0, init) == spec_parse_set_args(
                    all,
                    2,
                    SetArgs { expiry: Some(KeyExipry::EX(v)), ..init },
                ));
                assert(spec_parse_set_args(all, 2, SetArgs { expiry: Some(KeyExipry::EX(v)), ..init })
                    == Err::<SetArgs, ()>(()));
            } else {
                assert(spec_parse_set_args(all, 0, init) == Err::<SetArgs, ()>(()));
            }
        }
        if all.len() == 4 && lower_of(all[0]) == "px"@ && lower_of(all[2]) == "ex"@ {
            if let Some(v) = spec_parse_u64(vstd::utf8::encode_utf8(all[1])) {
                assert(spec_parse_set_args(all, 0, init) == spec_parse_set_args(
                    all,
                    2,
                    SetArgs { expiry: Some(KeyExipry::PX(v)), ..init },
                ));
                assert(spec_parse_set_args(all, 2, SetArgs { expiry: Some(KeyExipry::PX(v)), ..init })
                    == Err::<SetArgs, ()>(()));
            } else {
                assert(spec_parse_set_args(all, 0, init) == Err::<SetArgs, ()>(()));
            }
        }
    }
    Ok(args)
}

} // verus!
