use csimlib::cache::{AccessResult, Cache, Kind, MissTypes, ReplacementPolicy};
use csimlib::decoder::AddressLayout;
use csimlib::regular::{
    is_runnable, log_2, parse_and_validate, random_trace, run_with, run_with_seed, simulate, trace_from_bytes,
    RunParams,
};
use csimlib::text::{conversion_error, policy_from_name, power_of_two_error};
use csimlib::{Either, TryPowerOfTwo};

fn args(
    nsets: &str,
    bsize: &str,
    assoc: &str,
    repl: &str,
    verbosity: &str,
    bytes: Vec<u8>,
) -> Result<RunParams, String> {
    parse_and_validate(nsets, bsize, assoc, repl, verbosity, Either::Left(Ok(bytes)))
}

#[test]
fn regression_trace_counts() {
    let input: Vec<u32> =
        (0..100u32).map(|k| ((k * 13) % 40) * 4 + ((k / 30) % 2) * 1024).collect();
    let params = RunParams {
        nsets: 256,
        bsize: 4,
        assoc: 1,
        repl: ReplacementPolicy::Random,
        verbosity: 1,
        input,
    };
    let cache = run_with(&params);
    let p = &cache.performance;
    assert_eq!(p.accesses, 100);
    assert_eq!(p.hits, 20);
    assert_eq!(p.misses, 80);
    assert_eq!(p.compulsory_misses, 40);
    assert_eq!(p.capacity_misses, 0);
    assert_eq!(p.conflict_misses, 40);
}

#[test]
fn simulate_reports_each_outcome() {
    let layout = AddressLayout::new(2, 4);
    let mut cache = Cache::create_with_seed(2, 4, ReplacementPolicy::Lru, 1, Kind::Both, 0);
    let input: Vec<u32> = vec![0x0, 0x4, 0x0, 0x8, 0x0];
    let results = simulate(&mut cache, &layout, &input);
    assert_eq!(
        results,
        vec![
            AccessResult::Miss(MissTypes::Compulsory),
            AccessResult::Miss(MissTypes::Compulsory),
            AccessResult::Hit,
            AccessResult::Miss(MissTypes::Capacity),
            AccessResult::Miss(MissTypes::Capacity),
        ]
    );
}

#[test]
fn log_2_values() {
    assert_eq!(log_2(1), 0);
    assert_eq!(log_2(2), 1);
    assert_eq!(log_2(3), 1);
    assert_eq!(log_2(256), 8);
    assert_eq!(log_2(1000), 9);
    assert_eq!(log_2(usize::MAX), usize::BITS as usize - 1);
}

#[test]
fn power_of_two_check() {
    assert_eq!(1usize.try_power_of_two(), Ok(1));
    assert_eq!(64usize.try_power_of_two(), Ok(64));
    assert_eq!(0usize.try_power_of_two(), Err(0));
    assert_eq!(12usize.try_power_of_two(), Err(12));
    assert_eq!((1usize << 40).try_power_of_two(), Ok(1usize << 40));
}

#[test]
fn error_messages() {
    assert_eq!(
        conversion_error("nsets", "abc", "usize"),
        "Malformed argument <nsets>: cannot convert 'abc' into usize"
    );
    assert_eq!(
        power_of_two_error("bsize", "012"),
        "Malformed argument <bsize>: '012' is not a power of 2"
    );
}

#[test]
fn policy_names() {
    assert_eq!(policy_from_name("l"), Some(ReplacementPolicy::Lru));
    assert_eq!(policy_from_name("LRU"), Some(ReplacementPolicy::Lru));
    assert_eq!(policy_from_name("F"), Some(ReplacementPolicy::Fifo));
    assert_eq!(policy_from_name("FiFo"), Some(ReplacementPolicy::Fifo));
    assert_eq!(policy_from_name("r"), Some(ReplacementPolicy::Random));
    assert_eq!(policy_from_name("Random"), Some(ReplacementPolicy::Random));
    assert_eq!(policy_from_name("lr"), None);
    assert_eq!(policy_from_name(""), None);
    assert_eq!(policy_from_name("x"), None);
}

#[test]
fn parse_accepts_valid_arguments() {
    let p = args("256", "+4", "2", "f", "2", vec![0x12, 0x34, 0x56, 0x78, 0, 0, 1, 0]).unwrap();
    assert_eq!(p.nsets, 256);
    assert_eq!(p.bsize, 4);
    assert_eq!(p.assoc, 2);
    assert_eq!(p.repl, ReplacementPolicy::Fifo);
    assert_eq!(p.verbosity, 2);
    assert_eq!(p.input, vec![0x1234_5678, 0x100]);
}

#[test]
fn parse_reports_the_first_bad_field() {
    let e = args("x", "3", "2", "q", "2", vec![]).err().unwrap();
    assert_eq!(e, "Malformed argument <nsets>: cannot convert 'x' into usize");
    let e = args("6", "3", "2", "q", "2", vec![]).err().unwrap();
    assert_eq!(e, "Malformed argument <nsets>: '6' is not a power of 2");
    let e = args("06", "3", "2", "q", "2", vec![]).err().unwrap();
    assert_eq!(e, "Malformed argument <nsets>: '06' is not a power of 2");
    let e = args("8", "+12", "2", "q", "2", vec![]).err().unwrap();
    assert_eq!(e, "Malformed argument <bsize>: '+12' is not a power of 2");
    let e = args("8", "3", "2", "q", "2", vec![]).err().unwrap();
    assert_eq!(e, "Malformed argument <bsize>: '3' is not a power of 2");
    let e = args("8", "4", "-2", "q", "2", vec![]).err().unwrap();
    assert_eq!(e, "Malformed argument <assoc>: cannot convert '-2' into usize");
    let e = args("8", "4", "0", "q", "2", vec![]).err().unwrap();
    assert_eq!(e, "Malformed argument <assoc>: '0' is not a power of 2");
    let e = args("8", "4", "2", "q", "2", vec![]).err().unwrap();
    assert_eq!(e, "Malformed argument <repl>: cannot convert 'q' into ReplacementPolicy");
    let e = args("8", "4", "2", "lru", "256", vec![]).err().unwrap();
    assert_eq!(e, "Malformed argument <verbosity>: cannot convert '256' into u8");
}

#[test]
fn parse_rejects_misaligned_trace() {
    let e = args("8", "4", "2", "lru", "1", vec![1, 2, 3]).err().unwrap();
    assert_eq!(
        e,
        "Input file has wrong byte alignment(cannot convert from Vec<u8> to Vec<u32> without clipping)"
    );
    assert!(trace_from_bytes(&vec![0, 0, 0, 0, 0]).is_err());
    assert_eq!(trace_from_bytes(&vec![]).unwrap(), Vec::<u32>::new());
    assert_eq!(trace_from_bytes(&vec![0xff, 0xff, 0xff, 0xfe]).unwrap(), vec![0xffff_fffe]);
}

#[test]
fn parse_passes_on_read_errors() {
    let r = parse_and_validate("8", "4", "2", "l", "1", Either::Left(Err("no such file".to_string())));
    assert_eq!(r.err().unwrap(), "no such file");
}

#[test]
fn parse_synthetic_input() {
    let p = parse_and_validate("8", "4", "2", "r", "0", Either::Right(("25", "42".to_string())))
        .unwrap();
    assert_eq!(p.input.len(), 25);
    let q = parse_and_validate("8", "4", "2", "r", "0", Either::Right(("25", "42".to_string())))
        .unwrap();
    assert_eq!(p.input, q.input);
    assert_eq!(random_trace(25, 42), p.input);
    assert_ne!(random_trace(25, 43), p.input);
    let e = parse_and_validate("8", "4", "2", "r", "0", Either::Right(("2.5", "42".to_string())))
        .err()
        .unwrap();
    assert_eq!(e, "Malformed argument <inputsize>: cannot convert '2.5' into usize");
    let e = parse_and_validate("8", "4", "2", "r", "0", Either::Right(("25", "-1".to_string())))
        .err()
        .unwrap();
    assert_eq!(e, "Malformed argument <seed>: cannot convert '-1' into u64");
}

#[test]
fn runnable_geometries() {
    assert!(is_runnable(256, 4, 1));
    assert!(is_runnable(1, 1, 1));
    assert!(!is_runnable(3, 4, 1));
    assert!(!is_runnable(4, 4, 0));
    assert!(!is_runnable(1 << 20, 1 << 13, 1));
    assert!(is_runnable(1 << 20, 1 << 12, 1));
}

#[test]
fn seeded_runs_replay() {
    let input: Vec<u32> = (0..400u32).map(|k| (k * 2654435761u32) & 0x0fff).collect();
    let params = RunParams {
        nsets: 4,
        bsize: 16,
        assoc: 4,
        repl: ReplacementPolicy::Random,
        verbosity: 0,
        input,
    };
    let a = run_with_seed(&params, 77);
    let b = run_with_seed(&params, 77);
    assert_eq!(a.performance, b.performance);
    assert_eq!(a.data, b.data);
    assert_eq!(a.performance.accesses, 400);
}
