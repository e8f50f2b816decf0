//! The argument builder: the command line handed to the external compiler
//! for one scale parameter. It names the fixed template source and output
//! artifact, and defines two macros: the count of generated enum constants
//! and the comma-separated list of that many distinct enumerators.

use vstd::prelude::*;

use crate::decimal::{dec_digits, u64_to_dec};

verus! {

/// The macro argument giving the count of generated enum constants.
pub open spec fn num_values_arg_spec(scale: u32) -> Seq<char> {
    "-DNUM_VALUES="@ + dec_digits(scale as nat)
}

/// The generated enumerators for a count of `n`: `E0`, then `, E1 = 1` up
/// to `, E{n-1} = {n-1}` — `n` distinct symbolic tokens.
pub open spec fn test_values_items(n: nat) -> Seq<char>
    decreases n,
{
    if n <= 1 {
        "E0"@
    } else {
        test_values_items((n - 1) as nat) + ", E"@ + dec_digits((n - 1) as nat) + " = "@
            + dec_digits((n - 1) as nat)
    }
}

/// The macro argument listing the generated enumerators.
pub open spec fn test_values_arg_spec(scale: u32) -> Seq<char> {
    "-DTEST_VALUES="@ + test_values_items(scale as nat)
}

/// The full command line for one scale parameter: include path, language
/// standard, template source, output artifact, and the two macro
/// definitions. Deterministic and pure; the scale must be at least one.
pub fn build_args(scale: u32) -> (args: Vec<String>)
    requires
        scale >= 1,
    ensures
        args@.len() == 7,
        args@[0]@ == "-Inav/include"@,
        args@[1]@ == "-std=c++20"@,
        args@[2]@ == "input/test_plain_enum.cpp"@,
        args@[3]@ == "-o"@,
        args@[4]@ == "output/test"@,
        args@[5]@ == test_values_arg_spec(scale),
        args@[6]@ == num_values_arg_spec(scale),
{
    let mut tv = String::from_str("-DTEST_VALUES=");
    tv.append("E0");
    let mut i: u32 = 1;
    while i < scale
        invariant
            1 <= i <= scale,
            tv@ == "-DTEST_VALUES="@ + test_values_items(i as nat),
        decreases scale - i,
    {
        let d = u64_to_dec(i as u64);
        tv.append(", E");
        tv.append(d.as_str());
        tv.append(" = ");
        tv.append(d.as_str());
        proof {
            assert(tv@ =~= "-DTEST_VALUES="@ + test_values_items((i + 1) as nat));
        }
        i = i + 1;
    }
    let mut nv = String::from_str("-DNUM_VALUES=");
    let d = u64_to_dec(scale as u64);
    nv.append(d.as_str());
    let mut args: Vec<String> = Vec::new();
    args.push(String::from_str("-Inav/include"));
    args.push(String::from_str("-std=c++20"));
    args.push(String::from_str("input/test_plain_enum.cpp"));
    args.push(String::from_str("-o"));
    args.push(String::from_str("output/test"));
    args.push(tv);
    args.push(nv);
    args
}

} // verus!
