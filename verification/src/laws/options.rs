//! Options: what each of them says, and which one counts.
use crate::laws::text::law_numbers_read_back;
use crate::options::{default_workers, options_after};
use crate::text::{decimal, unsigned_size};
use vstd::prelude::*;

verus! {

/// How many workers are started unless an option says otherwise.
pub proof fn law_workers_by_default(parallelism: usize)
    ensures
        default_workers(None) == 4,
        default_workers(Some(parallelism)) >= 2,
        parallelism >= 2 ==> default_workers(Some(parallelism)) == parallelism,
        parallelism < 2 ==> default_workers(Some(parallelism)) == 2,
{
}

proof fn lemma_options_differ()
    ensures
        "--addr"@ != "--workers"@,
{
    reveal_strlit("--addr");
    reveal_strlit("--workers");
    assert("--addr"@.len() != "--workers"@.len());
}

/// What the address is: what the argument behind `--addr` says, whatever it is.
pub proof fn law_the_address_is_an_option(
    value: Seq<char>,
    rest: Seq<Seq<char>>,
    addr: Seq<char>,
    workers: usize,
)
    ensures
        options_after(seq!["--addr"@, value] + rest, addr, workers) == options_after(
            rest,
            value,
            workers,
        ),
        options_after(seq!["--addr"@, value], addr, workers) == (value, workers),
        options_after(Seq::empty(), addr, workers) == (addr, workers),
{
    reveal_with_fuel(options_after, 2);
    let args = seq!["--addr"@, value] + rest;
    assert(args[0] == "--addr"@ && args[1] == value);
    assert(args.skip(2) =~= rest);
    assert(seq!["--addr"@, value].skip(2) =~= seq![]);
}

/// How many workers there are: as many as the argument behind `--workers` says, but
/// one if it says none. An argument that is no number leaves them as they are.
pub proof fn law_the_workers_are_an_option(
    n: nat,
    value: Seq<char>,
    rest: Seq<Seq<char>>,
    addr: Seq<char>,
    workers: usize,
)
    requires
        workers >= 1,
        unsigned_size(value) is None,
    ensures
        1 <= n <= usize::MAX ==> options_after(seq!["--workers"@, decimal(n)] + rest, addr, workers)
            == options_after(rest, addr, n as usize),
        options_after(seq!["--workers"@, decimal(0)] + rest, addr, workers) == options_after(
            rest,
            addr,
            1,
        ),
        options_after(seq!["--workers"@, value] + rest, addr, workers) == options_after(
            rest,
            addr,
            workers,
        ),
{
    lemma_options_differ();
    law_numbers_read_back(n);
    law_numbers_read_back(0);
    let args = seq!["--workers"@, decimal(n)] + rest;
    assert(args[0] == "--workers"@ && args[1] == decimal(n));
    assert(args.skip(2) =~= rest);
    let none = seq!["--workers"@, decimal(0)] + rest;
    assert(none[0] == "--workers"@ && none[1] == decimal(0));
    assert(none.skip(2) =~= rest);
    let odd = seq!["--workers"@, value] + rest;
    assert(odd[0] == "--workers"@ && odd[1] == value);
    assert(odd.skip(2) =~= rest);
    assert('0' <= decimal(n)[0] <= '9');
    assert('0' <= decimal(0)[0] <= '9');
}

/// Every other argument is passed over, and so is an option at the end that has no
/// value.
pub proof fn law_other_arguments_are_passed_over(
    arg: Seq<char>,
    rest: Seq<Seq<char>>,
    addr: Seq<char>,
    workers: usize,
)
    ensures
        arg != "--addr"@ && arg != "--workers"@ ==> options_after(seq![arg] + rest, addr, workers)
            == options_after(rest, addr, workers),
        options_after(seq![arg], addr, workers) == (addr, workers),
{
    reveal_with_fuel(options_after, 2);
    let args = seq![arg] + rest;
    assert(args[0] == arg);
    assert(args.skip(1) =~= rest);
    assert(seq![arg].skip(1) =~= seq![]);
}

} // verus!
