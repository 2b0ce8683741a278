//! Classification of the command-line invocation.
//!
//! The surrounding program hands over each argument as plain values: its raw
//! text, and the address it denotes if it denotes one (deciding that is the
//! address parser's job, outside this library). The classifier turns the
//! argument list into a validated scan request or exactly one input error,
//! and the worker-count text is read here, digit by digit, under a proved
//! contract.

use crate::partition::MAX_PORT;
use crate::scan::ScanRequest;
use crate::scan::IpAddress;
use vstd::prelude::*;

verus! {

/// The worker count used when the invocation names only an address.
pub const DEFAULT_WORKER_COUNT: u16 = 4;

/// Everything that can be wrong with an invocation. At most one of these is
/// reported, and nothing is scanned when one is.
#[derive(Clone, Copy, PartialEq, Eq, Structural, Debug)]
pub enum ArgError {
    TooFewArguments,
    TooManyArguments,
    HelpRequested,
    InvalidAddress,
    InvalidThreadCount,
    InvalidSyntax,
}

/// One command-line argument, as plain values: its text, and the address it
/// denotes if the address parser outside accepted it.
#[derive(Debug)]
pub struct CliArg {
    pub text: String,
    pub address: Option<IpAddress>,
}

/// A decimal digit.
pub open spec fn is_digit(c: char) -> bool {
    ('0' as int) <= c as int <= ('9' as int)
}

/// The value of a decimal digit.
pub open spec fn digit_value(c: char) -> int {
    c as int - ('0' as int)
}

/// Every character of `s` is a decimal digit.
pub open spec fn all_digits(s: Seq<char>) -> bool {
    forall|i: int| 0 <= i < s.len() ==> is_digit(s[i])
}

/// The number the digit string `s` denotes.
pub open spec fn decimal_value(s: Seq<char>) -> int
    decreases s.len(),
{
    if s.len() == 0 {
        0
    } else {
        10 * decimal_value(s.drop_last()) + digit_value(s.last())
    }
}

/// Text that denotes a usable worker count: all digits, with a value from 1
/// to the number of ports — more workers than ports would leave some idle.
pub open spec fn valid_count_text(s: Seq<char>) -> bool {
    s.len() > 0 && all_digits(s) && 1 <= decimal_value(s) <= MAX_PORT
}

/// A digit string denotes at least zero.
proof fn lemma_decimal_value_nonneg(s: Seq<char>)
    requires
        all_digits(s),
    ensures
        decimal_value(s) >= 0,
    decreases s.len(),
{
    if s.len() > 0 {
        assert(all_digits(s.drop_last())) by {
            assert forall|i: int| 0 <= i < s.drop_last().len() implies is_digit(
                s.drop_last()[i],
            ) by {
                assert(s.drop_last()[i] == s[i]);
            }
        }
        lemma_decimal_value_nonneg(s.drop_last());
    }
}

/// Dropping digits from the end of a digit string never raises its value.
proof fn lemma_decimal_value_prefix_le(s: Seq<char>, i: int)
    requires
        0 <= i <= s.len(),
        all_digits(s),
    ensures
        decimal_value(s.take(i)) <= decimal_value(s),
    decreases s.len() - i,
{
    if i == s.len() {
        assert(s.take(i) =~= s);
    } else {
        lemma_decimal_value_prefix_le(s, i + 1);
        assert(s.take(i + 1).drop_last() =~= s.take(i));
        assert(s.take(i + 1).last() == s[i]);
        assert(all_digits(s.take(i))) by {
            assert forall|m: int| 0 <= m < s.take(i).len() implies is_digit(s.take(i)[m]) by {
                assert(s.take(i)[m] == s[m]);
            }
        }
        lemma_decimal_value_nonneg(s.take(i));
    }
}

/// Reads a worker count from its decimal text: the denoted number if the
/// text is all digits and the number is a usable count, nothing otherwise.
pub fn parse_worker_count(text: &String) -> (r: Option<u16>)
    ensures
        valid_count_text(text@) ==> r == Some(decimal_value(text@) as u16),
        !valid_count_text(text@) ==> r is None,
{
    let s = text.as_str();
    let n = s.unicode_len();
    if n == 0 {
        return None;
    }
    let mut val: u32 = 0;
    let mut idx: usize = 0;
    while idx < n
        invariant
            s@ == text@,
            n == s@.len(),
            idx <= n,
            all_digits(s@.take(idx as int)),
            val == decimal_value(s@.take(idx as int)),
            val <= MAX_PORT,
        decreases n - idx,
    {
        let c = s.get_char(idx);
        let d = c as u32;
        if d < 48 || d > 57 {
            proof {
                assert(!is_digit(s@[idx as int]));
            }
            return None;
        }
        proof {
            assert(s@.take(idx as int + 1).drop_last() =~= s@.take(idx as int));
            assert(s@.take(idx as int + 1).last() == s@[idx as int]);
            assert(all_digits(s@.take(idx as int + 1))) by {
                assert forall|m: int|
                    #![trigger s@.take(idx as int + 1)[m]]
                    0 <= m < idx as int + 1 implies is_digit(s@.take(idx as int + 1)[m]) by {
                    assert(s@.take(idx as int + 1)[m] == s@[m]);
                    if m < idx as int {
                        assert(s@.take(idx as int)[m] == s@[m]);
                    }
                }
            }
        }
        val = val * 10 + (d - 48);
        if val > MAX_PORT as u32 {
            proof {
                if all_digits(s@) {
                    lemma_decimal_value_prefix_le(s@, idx as int + 1);
                }
            }
            return None;
        }
        idx = idx + 1;
    }
    proof {
        assert(s@.take(n as int) =~= s@);
    }
    if val == 0 {
        return None;
    }
    Some(val as u16)
}

/// Whether `s` and the literal `lit` hold the same text.
fn text_is(s: &String, lit: &str) -> (r: bool)
    ensures
        r == (s@ == lit@),
{
    let o: String = lit.to_owned();
    s.eq(&o)
}

/// Text that asks for the usage message.
pub open spec fn is_help_text(s: Seq<char>) -> bool {
    s == "-h"@ || s == "-help"@
}

/// Text that announces an explicit worker count.
pub open spec fn is_thread_flag_text(s: Seq<char>) -> bool {
    s == "-j"@
}

/// What the classifier decides for a given argument list (the program's own
/// name not included): an address alone scans with the default worker
/// count; the thread flag takes a count and then an address; the help flag
/// stands alone; everything else is one of the input errors.
pub open spec fn parse_spec(args: Seq<CliArg>) -> Result<ScanRequest, ArgError> {
    if args.len() == 0 {
        Err(ArgError::TooFewArguments)
    } else if args.len() == 1 {
        if args[0].address is Some {
            Ok(ScanRequest { target: args[0].address->Some_0, worker_count: DEFAULT_WORKER_COUNT })
        } else if is_help_text(args[0].text@) {
            Err(ArgError::HelpRequested)
        } else if is_thread_flag_text(args[0].text@) {
            Err(ArgError::TooFewArguments)
        } else {
            Err(ArgError::InvalidSyntax)
        }
    } else if args.len() == 2 {
        if is_help_text(args[0].text@) {
            Err(ArgError::TooManyArguments)
        } else if is_thread_flag_text(args[0].text@) {
            Err(ArgError::TooFewArguments)
        } else {
            Err(ArgError::InvalidSyntax)
        }
    } else if args.len() == 3 {
        if is_thread_flag_text(args[0].text@) {
            if args[2].address is None {
                Err(ArgError::InvalidAddress)
            } else if !valid_count_text(args[1].text@) {
                Err(ArgError::InvalidThreadCount)
            } else {
                Ok(
                    ScanRequest {
                        target: args[2].address->Some_0,
                        worker_count: decimal_value(args[1].text@) as u16,
                    },
                )
            }
        } else if is_help_text(args[0].text@) {
            Err(ArgError::TooManyArguments)
        } else {
            Err(ArgError::InvalidSyntax)
        }
    } else {
        Err(ArgError::TooManyArguments)
    }
}

/// Classifies an invocation: exactly the decision of `parse_spec`, and any
/// request handed back is well-formed, so a scan always has a worker.
pub fn parse_arguments(args: &Vec<CliArg>) -> (r: Result<ScanRequest, ArgError>)
    ensures
        r == parse_spec(args@),
        r matches Ok(req) ==> req.wf(),
{
    if args.len() == 0 {
        return Err(ArgError::TooFewArguments);
    }
    let first = &args[0];
    if args.len() == 1 {
        if let Some(target) = first.address {
            Ok(ScanRequest { target, worker_count: DEFAULT_WORKER_COUNT })
        } else if text_is(&first.text, "-h") || text_is(&first.text, "-help") {
            Err(ArgError::HelpRequested)
        } else if text_is(&first.text, "-j") {
            Err(ArgError::TooFewArguments)
        } else {
            Err(ArgError::InvalidSyntax)
        }
    } else if args.len() == 2 {
        if text_is(&first.text, "-h") || text_is(&first.text, "-help") {
            Err(ArgError::TooManyArguments)
        } else if text_is(&first.text, "-j") {
            Err(ArgError::TooFewArguments)
        } else {
            Err(ArgError::InvalidSyntax)
        }
    } else if args.len() == 3 {
        if text_is(&first.text, "-j") {
            if let Some(target) = args[2].address {
                match parse_worker_count(&args[1].text) {
                    Some(worker_count) => Ok(ScanRequest { target, worker_count }),
                    None => Err(ArgError::InvalidThreadCount),
                }
            } else {
                Err(ArgError::InvalidAddress)
            }
        } else if text_is(&first.text, "-h") || text_is(&first.text, "-help") {
            Err(ArgError::TooManyArguments)
        } else {
            Err(ArgError::InvalidSyntax)
        }
    } else {
        Err(ArgError::TooManyArguments)
    }
}

} // verus!
