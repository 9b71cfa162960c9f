//! A simulation run: parameters, their validation, and the loop that feeds a
//! trace of addresses to a cache.
use vstd::arithmetic::div_mod::{lemma_div_denominator, lemma_fundamental_div_mod};
use vstd::arithmetic::power2::{lemma_pow2_pos, lemma_pow2_strictly_increases, lemma_pow2_unfold, pow2};
use crate::cache::{run, valid_trace, AccessResult, Cache, CacheModel, Kind, ReplacementPolicy};
use crate::decoder::{layout_for, AddressLayout};
use crate::is_power_of_two;
use crate::random::{draw_u32, seeded_generator};
use crate::text::{
    conversion_error, conversion_text, parse_u64, parse_u8, parse_usize, parses_within,
    policy_from_name, policy_named, power_of_two_error, power_of_two_text, unsigned_value,
};
use crate::{Either, TryPowerOfTwo};
use vstd::prelude::*;
use vstd::string::StringExecFns;

verus! {

/// Base-2 logarithm of `x`, rounded down.
pub fn log_2(x: usize) -> (r: usize)
    requires
        x > 0,
    ensures
        pow2(r as nat) <= x < pow2(r as nat + 1),
        crate::is_power_of_two(x as nat) ==> pow2(r as nat) == x,
{
    let mut m: usize = x;
    let mut r: usize = 0;
    proof {
        assert(pow2(0) == 1) by { vstd::arithmetic::power2::lemma2_to64(); }
    }
    while m > 1
        invariant
            m >= 1,
            r <= 64,
            m == x as nat / pow2(r as nat),
            pow2(r as nat) <= x,
        decreases m,
    {
        proof {
            lemma_pow2_pos(r as nat);
            lemma_pow2_unfold(r as nat + 1);
            lemma_div_denominator(x as int, pow2(r as nat) as int, 2);
            lemma_fundamental_div_mod(x as int, pow2(r as nat) as int);
            assert(pow2(r as nat) * m <= x) by (nonlinear_arith)
                requires
                    m == x as nat / pow2(r as nat),
                    x == pow2(r as nat) * (x as nat / pow2(r as nat)) + x as nat % pow2(r as nat),
                    x as nat % pow2(r as nat) >= 0,
            ;
            assert(pow2(r as nat + 1) <= x) by (nonlinear_arith)
                requires
                    pow2(r as nat) * m <= x,
                    m >= 2,
                    pow2(r as nat + 1) == 2 * pow2(r as nat),
            ;
            vstd::arithmetic::power2::lemma2_to64();
            if r + 1 > 64 {
                lemma_pow2_strictly_increases(64, r as nat + 1);
            }
        }
        m = m / 2;
        r = r + 1;
    }
    proof {
        lemma_pow2_pos(r as nat);
        lemma_pow2_unfold(r as nat + 1);
        lemma_fundamental_div_mod(x as int, pow2(r as nat) as int);
        let p = pow2(r as nat) as int;
        assert(p * (x as int / p) == p * 1);
        assert(x < pow2(r as nat + 1));
        if crate::is_power_of_two(x as nat) {
            let k = choose|k: nat| pow2(k) == x;
            if k < r {
                lemma_pow2_strictly_increases(k, r as nat);
            }
            if k > r {
                if k > r + 1 {
                    lemma_pow2_strictly_increases(r as nat + 1, k);
                }
            }
        }
    }
    r
}

/// Validated parameters of a run.
pub struct RunParams {
    pub nsets: usize,
    pub bsize: usize,
    pub assoc: usize,
    pub repl: ReplacementPolicy,
    pub verbosity: u8,
    pub input: Vec<u32>,
}

impl RunParams {
    /// The cache that a run starts from.
    pub open spec fn initial(&self) -> CacheModel {
        CacheModel::initial(self.nsets, self.bsize, self.repl, self.assoc, Kind::Both)
    }

    /// The accesses that the run makes.
    pub open spec fn trace(&self) -> Seq<(int, usize)> {
        accesses_of(layout_for(self.nsets, self.bsize), self.input@)
    }
}

/// The geometry can be simulated: sets and block size are powers of two,
/// there is at least one way per set, index and offset fit in an address, and
/// the capacity in bytes fits in a `usize`.
pub open spec fn runnable(nsets: usize, bsize: usize, assoc: usize) -> bool {
    &&& is_power_of_two(nsets as nat)
    &&& is_power_of_two(bsize as nat)
    &&& assoc >= 1
    &&& nsets * bsize <= pow2(32)
    &&& nsets * assoc <= usize::MAX
    &&& bsize * nsets * assoc <= usize::MAX
}

/// The (set index, tag) accesses that the addresses of `input` make.
pub open spec fn accesses_of(layout: AddressLayout, input: Seq<u32>) -> Seq<(int, usize)> {
    input.map_values(|a: u32| (layout.decoded(a).index as int, layout.decoded(a).tag))
}

/// Feeds the addresses of `input`, decoded with `layout`, to `cache` in
/// order, and returns the outcome of each access.
///
/// The cache ends as `run` says for some draws of random eviction, and the
/// `k`-th outcome is that of the `k`-th access on the cache that the first `k`
/// accesses left.
pub fn simulate(cache: &mut Cache, layout: &AddressLayout, input: &Vec<u32>) -> (r: Vec<AccessResult>)
    requires
        old(cache)@.wf(),
        layout.wf(),
        pow2(layout.nbits_index as nat) == old(cache)@.nsets,
        old(cache)@.performance.accesses + input@.len() <= usize::MAX,
    ensures
        final(cache)@.wf(),
        final(cache)@.performance.accesses == old(cache)@.performance.accesses + input@.len(),
        r@.len() == input@.len(),
        exists|draws: Seq<int>|
            {
                &&& valid_trace(old(cache)@, accesses_of(*layout, input@), draws)
                &&& final(cache)@ == run(old(cache)@, accesses_of(*layout, input@), draws)
                &&& forall|k: int|
                    0 <= k < input@.len() ==> r@[k] == #[trigger] run(
                        old(cache)@,
                        accesses_of(*layout, input@).take(k),
                        draws.take(k),
                    ).outcome(
                        accesses_of(*layout, input@)[k].0,
                        accesses_of(*layout, input@)[k].1,
                    )
            },
{
    let ghost start = cache@;
    let ghost trace = accesses_of(*layout, input@);
    let ghost mut draws: Seq<int> = Seq::empty();
    let mut results: Vec<AccessResult> = Vec::new();
    let mut i: usize = 0;
    proof {
        assert(trace.take(0) =~= Seq::<(int, usize)>::empty());
    }
    while i < input.len()
        invariant
            i <= input@.len(),
            trace == accesses_of(*layout, input@),
            layout.wf(),
            start.wf(),
            pow2(layout.nbits_index as nat) == start.nsets,
            start.performance.accesses + input@.len() <= usize::MAX,
            cache@.wf(),
            cache@.nsets == start.nsets,
            cache@.assoc == start.assoc,
            cache@.performance.accesses == start.performance.accesses + i,
            draws.len() == i,
            results@.len() == i,
            valid_trace(start, trace.take(i as int), draws),
            cache@ == run(start, trace.take(i as int), draws),
            forall|k: int|
                0 <= k < i ==> results@[k] == #[trigger] run(start, trace.take(k), draws.take(k)).outcome(
                    trace[k].0,
                    trace[k].1,
                ),
        decreases input@.len() - i,
    {
        let d = layout.decode(input[i]);
        let ghost before = cache@;
        let res = cache.access_with(d.index, d.tag, d.offset);
        proof {
            let w = choose|w: int| 0 <= w < before.assoc && cache@ == before.step(d.index as int, d.tag, w);
            let old_draws = draws;
            draws = draws.push(w);
            assert(trace[i as int] == (d.index as int, d.tag));
            assert(trace.take(i + 1).drop_last() =~= trace.take(i as int));
            assert(draws.drop_last() =~= old_draws);
            assert(old_draws.take(i as int) =~= old_draws);
            assert forall|k: int| 0 <= k < i implies draws.take(k) =~= old_draws.take(k) by {}
            assert forall|k: int| 0 <= k < i + 1 implies 0 <= #[trigger] trace.take(i + 1)[k].0 < start.nsets by {
                if k < i {
                    assert(trace.take(i + 1)[k] == trace.take(i as int)[k]);
                }
            }
        }
        results.push(res);
        i = i + 1;
    }
    proof {
        assert(trace.take(i as int) =~= trace);
    }
    results
}

/// Simulates `params.input` on a new cache of the given geometry and
/// policy, whose random evictions draw from a generator seeded from the
/// process's entropy source.
pub fn run_with(params: &RunParams) -> (r: Cache)
    requires
        runnable(params.nsets, params.bsize, params.assoc),
    ensures
        r@.wf(),
        r@.performance.accesses == params.input@.len(),
        exists|draws: Seq<int>|
            valid_trace(params.initial(), params.trace(), draws) && r@ == #[trigger] run(
                params.initial(),
                params.trace(),
                draws,
            ),
{
    let layout = AddressLayout::new(params.nsets, params.bsize);
    let mut cache = Cache::create(params.nsets, params.bsize, params.repl, params.assoc, Kind::Both);
    let ghost start = cache@;
    proof {
        assert(params.input.len() == params.input@.len());
    }
    let results = simulate(&mut cache, &layout, &params.input);
    proof {
        let draws = choose|draws: Seq<int>|
            {
                &&& valid_trace(start, accesses_of(layout, params.input@), draws)
                &&& cache@ == run(start, accesses_of(layout, params.input@), draws)
                &&& forall|k: int|
                    0 <= k < params.input@.len() ==> results@[k] == #[trigger] run(
                        start,
                        accesses_of(layout, params.input@).take(k),
                        draws.take(k),
                    ).outcome(
                        accesses_of(layout, params.input@)[k].0,
                        accesses_of(layout, params.input@)[k].1,
                    )
            };
        assert(valid_trace(params.initial(), params.trace(), draws));
        assert(cache@ == run(params.initial(), params.trace(), draws));
    }
    cache
}

/// Simulates `params.input` on a new cache of the given geometry and
/// policy, whose random evictions draw from a generator seeded with `seed`.
pub fn run_with_seed(params: &RunParams, seed: u64) -> (r: Cache)
    requires
        runnable(params.nsets, params.bsize, params.assoc),
    ensures
        r@.wf(),
        r@.performance.accesses == params.input@.len(),
        exists|draws: Seq<int>|
            valid_trace(params.initial(), params.trace(), draws) && r@ == #[trigger] run(
                params.initial(),
                params.trace(),
                draws,
            ),
{
    let layout = AddressLayout::new(params.nsets, params.bsize);
    let mut cache = Cache::create_with_seed(
        params.nsets,
        params.bsize,
        params.repl,
        params.assoc,
        Kind::Both,
        seed,
    );
    let ghost start = cache@;
    proof {
        assert(params.input.len() == params.input@.len());
    }
    let results = simulate(&mut cache, &layout, &params.input);
    proof {
        let draws = choose|draws: Seq<int>|
            {
                &&& valid_trace(start, accesses_of(layout, params.input@), draws)
                &&& cache@ == run(start, accesses_of(layout, params.input@), draws)
                &&& forall|k: int|
                    0 <= k < params.input@.len() ==> results@[k] == #[trigger] run(
                        start,
                        accesses_of(layout, params.input@).take(k),
                        draws.take(k),
                    ).outcome(
                        accesses_of(layout, params.input@)[k].0,
                        accesses_of(layout, params.input@)[k].1,
                    )
            };
        assert(valid_trace(params.initial(), params.trace(), draws));
        assert(cache@ == run(params.initial(), params.trace(), draws));
    }
    cache
}

/// The big-endian 32-bit word made of the four bytes of `b` from `i` on.
pub open spec fn be_word(b: Seq<u8>, i: int) -> u32 {
    (b[i] as nat * 0x100_0000 + b[i + 1] as nat * 0x1_0000 + b[i + 2] as nat * 0x100 + b[
        i + 3
    ] as nat) as u32
}

/// The big-endian 32-bit words that the bytes `b` hold, four bytes each.
pub open spec fn be_words(b: Seq<u8>) -> Seq<u32> {
    Seq::new(b.len() / 4, |k: int| be_word(b, 4 * k))
}

/// The message for a trace whose length is not a whole number of words.
pub open spec fn alignment_text() -> Seq<char> {
    "Input file has wrong byte alignment(cannot convert from Vec<u8> to Vec<u32> without clipping)"@
}

/// The addresses of a trace file: its bytes read as big-endian 32-bit words.
/// A length that is not a multiple of 4 is an error.
pub fn trace_from_bytes(bytes: &Vec<u8>) -> (r: Result<Vec<u32>, String>)
    ensures
        r is Err <==> bytes@.len() % 4 != 0,
        r matches Err(e) ==> e@ == alignment_text(),
        r matches Ok(words) ==> words@ == be_words(bytes@),
{
    if bytes.len() % 4 != 0 {
        return Err(String::from_str(
            "Input file has wrong byte alignment(cannot convert from Vec<u8> to Vec<u32> without clipping)",
        ));
    }
    let n = bytes.len() / 4;
    let mut words: Vec<u32> = Vec::with_capacity(n);
    let mut k: usize = 0;
    while k < n
        invariant
            n == bytes@.len() / 4,
            bytes@.len() <= usize::MAX,
            k <= n,
            words@ == be_words(bytes@).take(k as int),
        decreases n - k,
    {
        let i = 4 * k;
        let word = (bytes[i] as u32) * 0x100_0000 + (bytes[i + 1] as u32) * 0x1_0000 + (bytes[i + 2] as u32)
            * 0x100 + bytes[i + 3] as u32;
        words.push(word);
        proof {
            assert(words@ =~= be_words(bytes@).take(k + 1));
        }
        k = k + 1;
    }
    proof {
        assert(words@ =~= be_words(bytes@));
    }
    Ok(words)
}

/// `size` addresses drawn from a generator seeded with `seed`.
pub fn random_trace(size: usize, seed: u64) -> (r: Vec<u32>)
    ensures
        r@.len() == size,
{
    let mut rng = seeded_generator(seed);
    let mut v: Vec<u32> = Vec::new();
    let mut k: usize = 0;
    while k < size
        invariant
            k <= size,
            v@.len() == k,
        decreases size - k,
    {
        v.push(draw_u32(&mut rng));
        k = k + 1;
    }
    v
}

/// Whether the geometry can be simulated, as `runnable` says.
pub fn is_runnable(nsets: usize, bsize: usize, assoc: usize) -> (r: bool)
    ensures
        r == runnable(nsets, bsize, assoc),
{
    if nsets.try_power_of_two().is_err() || bsize.try_power_of_two().is_err() || assoc == 0 {
        return false;
    }
    proof {
        vstd::arithmetic::power2::lemma2_to64();
        assert(bsize * nsets * assoc >= nsets * bsize) by (nonlinear_arith)
            requires
                assoc >= 1,
        ;
    }
    let (sets_bytes, sets_ways) = match (nsets.checked_mul(bsize), nsets.checked_mul(assoc)) {
        (Some(a), Some(b)) => (a, b),
        _ => {
            return false;
        },
    };
    if sets_bytes as u64 > 0x1_0000_0000u64 {
        return false;
    }
    match bsize.checked_mul(sets_ways) {
        Some(_) => {
            assert(bsize * (nsets * assoc) == bsize * nsets * assoc) by (nonlinear_arith);
            true
        },
        None => {
            assert(bsize * (nsets * assoc) == bsize * nsets * assoc) by (nonlinear_arith);
            false
        },
    }
}

/// The error of the first field that fails validation, if any: each of the
/// three geometry fields must be a `usize` that is a power of two, the policy
/// must be named, and the verbosity must be a `u8`.
pub open spec fn config_error(
    nsets: Seq<char>,
    bsize: Seq<char>,
    assoc: Seq<char>,
    repl: Seq<char>,
    verbosity: Seq<char>,
) -> Option<Seq<char>> {
    if geometry_error("nsets"@, nsets) is Some {
        geometry_error("nsets"@, nsets)
    } else if geometry_error("bsize"@, bsize) is Some {
        geometry_error("bsize"@, bsize)
    } else if geometry_error("assoc"@, assoc) is Some {
        geometry_error("assoc"@, assoc)
    } else if policy_named(repl) is None {
        Some(conversion_text("repl"@, repl, "ReplacementPolicy"@))
    } else if !parses_within(verbosity, u8::MAX as nat) {
        Some(conversion_text("verbosity"@, verbosity, "u8"@))
    } else {
        None
    }
}

/// The error of a geometry field `name` with text `value`, if any.
pub open spec fn geometry_error(name: Seq<char>, value: Seq<char>) -> Option<Seq<char>> {
    if !parses_within(value, usize::MAX as nat) {
        Some(conversion_text(name, value, "usize"@))
    } else if !is_power_of_two(unsigned_value(value)) {
        Some(power_of_two_text(name, value))
    } else {
        None
    }
}

/// Parses a geometry field: a `usize` that is a power of two.
fn parse_geometry(name: &str, value: &str) -> (r: Result<usize, String>)
    ensures
        geometry_error(name@, value@) matches Some(e) ==> r matches Err(m) && m@ == e,
        geometry_error(name@, value@) is None ==> r == Ok::<usize, String>(
            unsigned_value(value@) as usize,
        ),
{
    match parse_usize(value) {
        None => Err(conversion_error(name, value, "usize")),
        Some(v) => match v.try_power_of_two() {
            Ok(p) => Ok(p),
            Err(_) => Err(power_of_two_error(name, value)),
        },
    }
}

/// Checks and converts the arguments of a run.
///
/// The first failing field gives the error, in the order nsets, bsize,
/// assoc, repl, verbosity (see `config_error`). Then the input: either the
/// outcome of reading a trace file, whose bytes must be whole big-endian
/// words, or a size and a seed for a synthetic trace, each of which must
/// parse (`inputsize` as a `usize`, `seed` as a `u64`).
pub fn parse_and_validate(
    nsets: &str,
    bsize: &str,
    assoc: &str,
    repl: &str,
    verbosity: &str,
    input: Either<Result<Vec<u8>, String>, (&str, String)>,
) -> (r: Result<RunParams, String>)
    ensures
        config_error(nsets@, bsize@, assoc@, repl@, verbosity@) matches Some(e) ==> r matches Err(
            m,
        ) && m@ == e,
        config_error(nsets@, bsize@, assoc@, repl@, verbosity@) is None ==> match input {
            Either::Left(Err(e)) => r == Err::<RunParams, String>(e),
            Either::Left(Ok(bytes)) => if bytes@.len() % 4 != 0 {
                r matches Err(m) && m@ == alignment_text()
            } else {
                r matches Ok(p) && p.input@ == be_words(bytes@)
            },
            Either::Right((size, seed)) => if !parses_within(size@, usize::MAX as nat) {
                r matches Err(m) && m@ == conversion_text("inputsize"@, size@, "usize"@)
            } else if !parses_within(seed@, u64::MAX as nat) {
                r matches Err(m) && m@ == conversion_text("seed"@, seed@, "u64"@)
            } else {
                r matches Ok(p) && p.input@.len() == unsigned_value(size@)
            },
        },
        r matches Ok(p) ==> {
            &&& p.nsets == unsigned_value(nsets@)
            &&& p.bsize == unsigned_value(bsize@)
            &&& p.assoc == unsigned_value(assoc@)
            &&& Some(p.repl) == policy_named(repl@)
            &&& p.verbosity == unsigned_value(verbosity@)
            &&& is_power_of_two(p.nsets as nat)
            &&& is_power_of_two(p.bsize as nat)
            &&& is_power_of_two(p.assoc as nat)
        },
{
    let nsets = match parse_geometry("nsets", nsets) {
        Ok(v) => v,
        Err(e) => {
            return Err(e);
        },
    };
    let bsize = match parse_geometry("bsize", bsize) {
        Ok(v) => v,
        Err(e) => {
            return Err(e);
        },
    };
    let assoc = match parse_geometry("assoc", assoc) {
        Ok(v) => v,
        Err(e) => {
            return Err(e);
        },
    };
    let repl = match policy_from_name(repl) {
        Some(p) => p,
        None => {
            return Err(conversion_error("repl", repl, "ReplacementPolicy"));
        },
    };
    let verbosity = match parse_u8(verbosity) {
        Some(v) => v,
        None => {
            return Err(conversion_error("verbosity", verbosity, "u8"));
        },
    };
    let input = match input {
        Either::Left(read) => match read {
            Ok(bytes) => match trace_from_bytes(&bytes) {
                Ok(words) => words,
                Err(e) => {
                    return Err(e);
                },
            },
            Err(e) => {
                return Err(e);
            },
        },
        Either::Right((vecsize, seed)) => {
            let size = match parse_usize(vecsize) {
                Some(v) => v,
                None => {
                    return Err(conversion_error("inputsize", vecsize, "usize"));
                },
            };
            let seed_value = match parse_u64(seed.as_str()) {
                Some(v) => v,
                None => {
                    return Err(conversion_error("seed", seed.as_str(), "u64"));
                },
            };
            random_trace(size, seed_value)
        },
    };
    Ok(RunParams { nsets, bsize, assoc, repl, verbosity, input })
}

} // verus!
