//! Command line arguments.

use crate::text::{begins, chars_of, same_chars, starts_with, string_views};
use vstd::prelude::*;

verus! {

/// `--simulate` stands without a path after it.
#[derive(Debug, Clone, Copy, PartialEq, Eq, Structural)]
pub struct MissingBriefingPath;

/// Index of the first argument from `i` on that is `--simulate`.
pub open spec fn flag_from(args: Seq<Seq<char>>, i: int) -> Option<int>
    decreases args.len() - i,
{
    if i < 0 || i >= args.len() {
        None
    } else if args[i] == "--simulate"@ {
        Some(i)
    } else {
        flag_from(args, i + 1)
    }
}

/// The arguments from `i` on, up to the next option.
pub open spec fn paths_from(args: Seq<Seq<char>>, i: int) -> Seq<Seq<char>>
    decreases args.len() - i,
{
    if i < 0 || i >= args.len() || starts_with(args[i], "--"@) {
        Seq::empty()
    } else {
        seq![args[i]] + paths_from(args, i + 1)
    }
}

fn find_flag(args: &Vec<String>) -> (r: Option<usize>)
    ensures
        match r {
            Some(k) => k < args@.len() && flag_from(string_views(args@), 0) == Some(k as int),
            None => flag_from(string_views(args@), 0) is None,
        },
{
    let ghost g = string_views(args@);
    let flag = chars_of("--simulate");
    let mut i: usize = 0;
    while i < args.len()
        invariant
            g == string_views(args@),
            flag@ == "--simulate"@,
            i <= args@.len(),
            flag_from(g, i as int) == flag_from(g, 0),
        decreases args@.len() - i,
    {
        if same_chars(chars_of(args[i].as_str()).as_slice(), flag.as_slice()) {
            return Some(i);
        }
        i += 1;
    }
    None
}

/// The briefing paths of a `--simulate <path>...` argument, if there is one: the
/// arguments after it up to the next option.
pub fn parse_simulate_arg(args: &Vec<String>) -> (r: Result<
    Option<Vec<String>>,
    MissingBriefingPath,
>)
    ensures
        ({
            let g = string_views(args@);
            match (flag_from(g, 0), r) {
                (Some(k), Ok(Some(paths))) => paths@.len() > 0 && string_views(paths@)
                    == paths_from(g, k + 1),
                (Some(k), Err(_)) => paths_from(g, k + 1).len() == 0,
                (None, Ok(None)) => true,
                _ => false,
            }
        }),
{
    let ghost g = string_views(args@);
    let flag = match find_flag(args) {
        Some(k) => k,
        None => {
            return Ok(None);
        },
    };
    let dashes = chars_of("--");
    let mut paths: Vec<String> = Vec::new();
    assert(flag < args.len());
    let mut i: usize = flag + 1;
    proof {
        assert(string_views(paths@) + paths_from(g, flag + 1) =~= paths_from(g, flag + 1));
    }
    while i < args.len() && !begins(chars_of(args[i].as_str()).as_slice(), dashes.as_slice())
        invariant
            g == string_views(args@),
            dashes@ == "--"@,
            flag < i <= args@.len(),
            string_views(paths@) + paths_from(g, i as int) == paths_from(g, flag + 1),
        decreases args@.len() - i,
    {
        let path = args[i].clone();
        proof {
            assert(string_views(paths@.push(path)) =~= string_views(paths@).push(path@));
            assert(string_views(paths@) + (seq![path@] + paths_from(g, i + 1)) =~= string_views(
                paths@,
            ).push(path@) + paths_from(g, i + 1));
        }
        paths.push(path);
        i += 1;
    }
    proof {
        assert(string_views(paths@) + paths_from(g, i as int) =~= string_views(paths@));
    }
    if paths.len() == 0 {
        Err(MissingBriefingPath)
    } else {
        Ok(Some(paths))
    }
}

} // verus!
