use std::collections::BTreeMap;
use wr_core::automaton::Automaton;
use wr_core::convert::{common_root, convert_ns_bases, power_of};
use wr_core::fa::Fa;
use wr_core::logicalops::ConvertNsError;

fn epsilon_only(base: i32, msd: bool) -> Automaton {
    let fa = Fa::with_states(0, 1, base as usize, vec![1], vec![BTreeMap::new()]);
    Automaton::new(fa, vec![(0..base).collect()], vec!["x".to_string()], vec![Some(msd)])
}

#[test]
fn common_roots_of_bases() {
    assert_eq!(common_root(4, 8), Some(2));
    assert_eq!(common_root(4, 2), Some(2));
    assert_eq!(common_root(9, 27), Some(3));
    assert_eq!(common_root(16, 64), Some(2));
    assert_eq!(common_root(2, 6), None);
    assert_eq!(common_root(10, 1000), Some(10));
    assert_eq!(common_root(7, 7), Some(7));
    assert!(power_of(1024, 2));
    assert!(!power_of(1, 2));
    assert!(!power_of(12, 2));
}

#[test]
fn convert_ns_bases_reports_each_error_in_order() {
    let mut two = epsilon_only(2, true);
    two.msd = vec![Some(true), Some(true)];
    assert_eq!(convert_ns_bases(&two, true, 4), Err(ConvertNsError::NotSingleInput));
    for t in [true, false] {
        assert_eq!(convert_ns_bases(&Automaton::true_false(t), true, 4), Err(ConvertNsError::NotSingleInput));
    }
    let mut none = epsilon_only(2, true);
    none.msd = vec![None];
    assert_eq!(convert_ns_bases(&none, true, 4), Err(ConvertNsError::NoNumberSystem));
    let mut fib = epsilon_only(2, true);
    fib.set_ns_names(vec![Some("msd_fib".to_string())]);
    assert_eq!(
        convert_ns_bases(&fib, true, 2),
        Err(ConvertNsError::BaseNotAPositiveInt { found: "fib".to_string() })
    );
    assert_eq!(
        convert_ns_bases(&epsilon_only(2, true), true, 2),
        Err(ConvertNsError::IdenticalNumberSystems { name: "msd_2".to_string() })
    );
    assert_eq!(convert_ns_bases(&epsilon_only(2, true), true, 6), Err(ConvertNsError::NoCommonRoot));
}

#[test]
fn convert_ns_bases_gives_the_source_base_and_the_root() {
    assert_eq!(convert_ns_bases(&epsilon_only(2, true), false, 2), Ok((2, 2)));
    assert_eq!(convert_ns_bases(&epsilon_only(4, false), true, 2), Ok((4, 2)));
    assert_eq!(convert_ns_bases(&epsilon_only(4, true), true, 8), Ok((4, 2)));
    // the recorded name decides the base, not the alphabet
    let mut named = epsilon_only(2, true);
    named.set_ns_names(vec![Some("msd_4".to_string())]);
    assert_eq!(convert_ns_bases(&named, true, 2), Ok((4, 2)));
}
