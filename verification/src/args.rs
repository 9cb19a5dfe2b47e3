//! Arguments handed to the authentication shim, and their parsing.
use vstd::prelude::*;
use crate::error::Error;
use crate::text::{all_digits, digits_val, parse_u64_str};

verus! {

/// Options recognized by the authentication shim.
#[derive(Debug, Clone, PartialEq, Eq)]
pub struct Args {
    /// Session deadline in seconds, when given.
    pub timeout: Option<u64>,
}

/// Whether an argument is a timeout option.
pub open spec fn is_timeout_arg(a: Seq<char>) -> bool {
    a.len() >= 8 && a.subrange(0, 8) == "timeout="@
}

/// The result of folding the argument list left to right: each timeout
/// option overrides the previous value; an unparsable value fails.
pub open spec fn spec_parse_args(args: Seq<String>, acc: Option<u64>) -> Option<Option<u64>>
    decreases args.len(),
{
    if args.len() == 0 {
        Some(acc)
    } else {
        let a = args[0]@;
        if is_timeout_arg(a) {
            let t = a.subrange(8, a.len() as int);
            if t.len() >= 1 && all_digits(t) && digits_val(t) <= u64::MAX {
                spec_parse_args(args.drop_first(), Some(digits_val(t) as u64))
            } else {
                None
            }
        } else {
            spec_parse_args(args.drop_first(), acc)
        }
    }
}

/// Parse the module arguments; an invalid timeout value is an error.
pub fn parse_args(args: Vec<String>) -> (r: Result<Args, Error>)
    ensures
        match spec_parse_args(args@, None) {
            Some(t) => r matches Ok(a) && a.timeout == t,
            None => r matches Err(Error::Other(_)),
        },
{
    proof {
        reveal_strlit("timeout=");
        assert("timeout="@.len() == 8);
    }
    let mut cur: Option<u64> = None;
    let mut i: usize = 0;
    proof {
        assert(args@.skip(0) =~= args@);
    }
    while i < args.len()
        invariant
            i <= args@.len(),
            "timeout="@.len() == 8,
            spec_parse_args(args@, None) == spec_parse_args(args@.skip(i as int), cur),
        decreases args@.len() - i,
    {
        proof {
            assert(args@.skip(i as int)[0] == args@[i as int]);
            assert(args@.skip(i as int).drop_first() =~= args@.skip(i + 1));
        }
        let a = &args[i];
        let n = a.as_str().unicode_len();
        if n >= 8 {
            let head = a.as_str().substring_char(0, 8);
            if crate::text::str_eq(head, "timeout=") {
                let tail = a.as_str().substring_char(8, n);
                match parse_u64_str(tail) {
                    Some(v) => {
                        cur = Some(v);
                    },
                    None => {
                        return Err(
                            Error::Other(String::from_str("invalid timeout value in arguments")),
                        );
                    },
                }
            } else {
                proof {
                    assert(!is_timeout_arg(a@));
                }
            }
        } else {
            proof {
                assert(!is_timeout_arg(a@));
            }
        }
        i = i + 1;
    }
    proof {
        assert(args@.skip(args@.len() as int) =~= Seq::<String>::empty());
    }
    Ok(Args { timeout: cur })
}

} // verus!
