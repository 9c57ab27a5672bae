//! The options that the service is started with.
use crate::text::{chars_of, parse_size, spells, unsigned_size};
use vstd::prelude::*;

verus! {

/// The workers that are started unless an option says otherwise: as many as
/// run in parallel, or four if that is not known, and at least two.
pub open spec fn default_workers(parallelism: Option<usize>) -> usize {
    let known = match parallelism {
        Some(n) => n,
        None => 4,
    };
    if known < 2 {
        2
    } else {
        known
    }
}

/// The workers after the option `--workers` with `value`: the number that it
/// writes, or as many as before if it writes none, and at least one.
pub open spec fn chosen_workers(value: Seq<char>, workers: usize) -> usize {
    let asked = match unsigned_size(value) {
        Some(n) => n,
        None => workers,
    };
    if asked < 1 {
        1
    } else {
        asked
    }
}

/// The address and the number of workers after `args`, starting from `addr` and
/// `workers`. An option takes the next argument as its value, and is dropped if
/// there is none; other arguments are passed over.
pub open spec fn options_after(args: Seq<Seq<char>>, addr: Seq<char>, workers: usize) -> (
    Seq<char>,
    usize,
)
    decreases args.len(),
{
    if args.len() == 0 {
        (addr, workers)
    } else if args[0] == "--addr"@ && args.len() > 1 {
        options_after(args.skip(2), args[1], workers)
    } else if args[0] == "--workers"@ && args.len() > 1 {
        options_after(args.skip(2), addr, chosen_workers(args[1], workers))
    } else {
        options_after(args.skip(1), addr, workers)
    }
}

/// The address to listen on and the number of workers to start.
pub fn parse_args(args: &Vec<String>, parallelism: Option<usize>) -> (options: (String, usize))
    ensures
        (options.0@, options.1) == options_after(
            args.deep_view(),
            "127.0.0.1:8080"@,
            default_workers(parallelism),
        ),
{
    let mut addr: String = "127.0.0.1:8080".to_string();
    let known: usize = match parallelism {
        Some(n) => n,
        None => 4,
    };
    let mut workers: usize = if known < 2 {
        2
    } else {
        known
    };
    let ghost all = args.deep_view();
    let ghost result = options_after(all, addr@, workers);
    assert(all.skip(0) =~= all);
    let mut i: usize = 0;
    while i < args.len()
        invariant
            i <= args.len(),
            all == args.deep_view(),
            result == options_after(all.skip(i as int), addr@, workers),
        decreases args.len() - i,
    {
        let ghost left = all.skip(i as int);
        assert(left[0] == args@[i as int]@);
        let arg = chars_of(args[i].as_str());
        let valued: bool = args.len() - i > 1;
        assert(valued ==> left[1] == args@[i + 1]@);
        if valued && spells(arg.as_slice(), "--addr") {
            addr = args[i + 1].clone();
            assert(left.skip(2) =~= all.skip(i + 2));
            i += 2;
        } else if valued && spells(arg.as_slice(), "--workers") {
            let value = chars_of(args[i + 1].as_str());
            let asked: usize = match parse_size(value.as_slice()) {
                Some(n) => n,
                None => workers,
            };
            workers = if asked < 1 {
                1
            } else {
                asked
            };
            assert(left.skip(2) =~= all.skip(i + 2));
            i += 2;
        } else {
            assert(left.skip(1) =~= all.skip(i + 1));
            i += 1;
        }
    }
    (addr, workers)
}

} // verus!
