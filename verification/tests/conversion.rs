use vcd2json::errors::Error;
use vcd2json::map::{Header, Scope, ScopeItem, SignalMap, VarDecl};
use vcd2json::output::Output;
use vcd2json::path::Path;
use vcd2json::value::{to_bitstring, Bit, ValueType};
use vcd2json::output::str_lt;
use vcd2json::{build_output, process_commands, run, Command};

fn var(code: u64, name: &str) -> ScopeItem {
    ScopeItem::Var(VarDecl { code, reference: String::from(name), size: 1 })
}

fn scope(name: &str, children: Vec<ScopeItem>) -> ScopeItem {
    ScopeItem::Scope(Scope { identifier: String::from(name), children })
}

fn leaf_values(out: &Output<u128>, segments: &[&str]) -> Vec<u128> {
    let mut node = out;
    for seg in segments {
        match node {
            Output::Scope(entries) => {
                let mut next = None;
                for (key, child) in entries {
                    if key.as_str() == *seg {
                        next = Some(child);
                    }
                }
                node = next.expect("missing scope entry");
            }
            Output::Timeseries(..) => panic!("leaf in the middle of a path"),
        }
    }
    match node {
        Output::Timeseries(vs) => vs.clone(),
        Output::Scope(..) => panic!("expected a leaf"),
    }
}

#[test]
fn numeric_decode_exact() {
    let v = vec![Bit::V1, Bit::V0, Bit::V1];
    assert_eq!(u128::from_vector(&v), Ok(Some(5)));
    let single = vec![Bit::V0];
    assert_eq!(u128::from_vector(&single), Ok(Some(0)));
}

#[test]
fn numeric_decode_unknown_bits_count_as_one() {
    let v = vec![Bit::X, Bit::Z, Bit::V0];
    assert_eq!(u128::from_vector(&v), Ok(Some(6)));
    assert_eq!(u128::from_scalar(Bit::X), Ok(Some(1)));
    assert_eq!(u128::from_scalar(Bit::Z), Ok(Some(1)));
}

#[test]
fn numeric_decode_empty_vector_fails() {
    let v: Vec<Bit> = vec![];
    assert_eq!(u128::from_vector(&v), Err(Error::ParseIntError));
}

#[test]
fn numeric_decode_overflow_fails() {
    let mut v = vec![Bit::V1];
    for _ in 0..128 {
        v.push(Bit::V0);
    }
    assert_eq!(u128::from_vector(&v), Err(Error::ParseIntError));
    let mut max = Vec::new();
    for _ in 0..128 {
        max.push(Bit::V1);
    }
    assert_eq!(u128::from_vector(&max), Ok(Some(u128::MAX)));
}

#[test]
fn numeric_declines_real_and_string() {
    assert_eq!(u128::from_real(String::from("1.5")), Ok(None));
    assert_eq!(u128::from_string(String::from("hi")), Ok(None));
}

#[test]
fn string_decode_preserves_markers() {
    let v = vec![Bit::V0, Bit::V1, Bit::X, Bit::Z];
    assert_eq!(String::from_vector(&v), Ok(Some(String::from("01XZ"))));
    assert_eq!(String::from_real(String::from("1.5")), Ok(Some(String::from("1.5"))));
    assert_eq!(String::from_string(String::from("hi")), Ok(Some(String::from("hi"))));
}

#[test]
fn bitstring_markers() {
    let v = vec![Bit::X, Bit::Z];
    assert_eq!(to_bitstring(&v, '1', '1'), String::from("11"));
    assert_eq!(to_bitstring(&v, 'X', 'Z'), String::from("XZ"));
}

#[test]
fn path_segments_in_order() {
    let root = std::rc::Rc::new(Path::<String>::empty());
    let a = std::rc::Rc::new(Path::extend(&root, String::from("a")));
    let ab = Path::extend(&a, String::from("b"));
    let segs = ab.to_vec();
    assert_eq!(segs.len(), 2);
    assert_eq!(segs[0], "a");
    assert_eq!(segs[1], "b");
    let ab2 = Path::extend(&a, String::from("b"));
    assert!(ab.equals(&ab2));
    let ac = Path::extend(&a, String::from("c"));
    assert!(!ab.equals(&ac));
    assert!(!ab.equals(&a));
}

#[test]
fn duplicate_path_rejected() {
    let header = Header { items: vec![scope("top", vec![var(0, "sig"), var(1, "sig")])] };
    match SignalMap::<u128>::new(header) {
        Err(Error::DuplicatePath) => {}
        _ => panic!("expected a duplicate path error"),
    }
}

#[test]
fn duplicate_id_rejected() {
    let header = Header { items: vec![scope("top", vec![var(0, "a"), var(0, "b")])] };
    match SignalMap::<u128>::new(header) {
        Err(Error::DuplicateId) => {}
        _ => panic!("expected a duplicate id error"),
    }
}

#[test]
fn same_name_in_different_scopes_is_fine() {
    let header = Header {
        items: vec![scope("a", vec![var(0, "sig")]), scope("b", vec![var(1, "sig")])],
    };
    assert!(SignalMap::<u128>::new(header).is_ok());
}

#[test]
fn histories_grow_in_lockstep() {
    let header = Header { items: vec![scope("top", vec![var(0, "a"), var(1, "b")])] };
    let mut map = SignalMap::<u128>::new(header).unwrap();
    let commands = vec![
        Command::Timestamp(0),
        Command::ChangeScalar(0, Bit::V1),
        Command::Timestamp(5),
        Command::Timestamp(9),
    ];
    process_commands(&mut map, &commands).unwrap();
    for (_, item) in &map.signals {
        assert_eq!(item.values.len(), 3);
    }
}

#[test]
fn carry_forward_between_timesteps() {
    let header = Header { items: vec![scope("top", vec![var(0, "a")])] };
    let mut map = SignalMap::<u128>::new(header).unwrap();
    let commands = vec![
        Command::Timestamp(0),
        Command::ChangeVector(0, vec![Bit::V1, Bit::V1]),
        Command::Timestamp(1),
        Command::Timestamp(2),
    ];
    process_commands(&mut map, &commands).unwrap();
    assert_eq!(map.signals[0].1.values, vec![3, 3, 3]);
}

#[test]
fn change_before_any_timestep_fails() {
    let header = Header { items: vec![scope("top", vec![var(0, "a")])] };
    let mut map = SignalMap::<u128>::new(header).unwrap();
    let commands = vec![Command::ChangeScalar(0, Bit::V1)];
    assert_eq!(process_commands(&mut map, &commands), Err(Error::ChangeValue));
}

#[test]
fn unknown_id_fails() {
    let header = Header { items: vec![scope("top", vec![var(0, "a")])] };
    let mut map = SignalMap::<u128>::new(header).unwrap();
    let commands = vec![Command::Timestamp(0), Command::ChangeScalar(7, Bit::V1)];
    assert_eq!(process_commands(&mut map, &commands), Err(Error::ChangeValue));
}

#[test]
fn real_change_dropped_by_numeric_representation() {
    let header = Header { items: vec![scope("top", vec![var(0, "a")])] };
    let mut map = SignalMap::<u128>::new(header).unwrap();
    let commands = vec![
        Command::Timestamp(0),
        Command::ChangeScalar(0, Bit::V1),
        Command::ChangeReal(0, String::from("2.5")),
    ];
    process_commands(&mut map, &commands).unwrap();
    assert_eq!(map.signals[0].1.values, vec![1]);
}

#[test]
fn real_change_kept_by_string_representation() {
    let header = Header { items: vec![scope("top", vec![var(0, "a")])] };
    let mut map = SignalMap::<String>::new(header).unwrap();
    let commands = vec![Command::Timestamp(0), Command::ChangeReal(0, String::from("2.5"))];
    process_commands(&mut map, &commands).unwrap();
    assert_eq!(map.signals[0].1.values, vec![String::from("2.5")]);
}

#[test]
fn last_change_within_a_timestep_wins() {
    let header = Header { items: vec![scope("top", vec![var(0, "a")])] };
    let mut map = SignalMap::<u128>::new(header).unwrap();
    let commands = vec![
        Command::Timestamp(0),
        Command::ChangeScalar(0, Bit::V1),
        Command::ChangeScalar(0, Bit::V0),
    ];
    process_commands(&mut map, &commands).unwrap();
    assert_eq!(map.signals[0].1.values, vec![0]);
}

#[test]
fn ignored_event_kinds_do_nothing() {
    let header = Header { items: vec![scope("top", vec![var(0, "a")])] };
    let mut map = SignalMap::<u128>::new(header).unwrap();
    let commands = vec![Command::Other, Command::Timestamp(0), Command::Other];
    process_commands(&mut map, &commands).unwrap();
    assert_eq!(map.signals[0].1.values, vec![0]);
}

#[test]
fn tree_has_one_leaf_per_signal() {
    let header = Header {
        items: vec![
            scope("a", vec![var(0, "x"), var(1, "y")]),
            scope("b", vec![var(2, "x")]),
            var(3, "top"),
        ],
    };
    let mut map = SignalMap::<u128>::new(header).unwrap();
    let commands = vec![Command::Timestamp(0)];
    process_commands(&mut map, &commands).unwrap();
    let out = build_output(map).unwrap();
    assert_eq!(leaf_values(&out, &["a", "x"]), vec![0]);
    assert_eq!(leaf_values(&out, &["a", "y"]), vec![0]);
    assert_eq!(leaf_values(&out, &["b", "x"]), vec![0]);
    assert_eq!(leaf_values(&out, &["top"]), vec![0]);
    fn count_leaves(out: &Output<u128>) -> usize {
        match out {
            Output::Timeseries(..) => 1,
            Output::Scope(entries) => {
                let mut n = 0;
                for (_, child) in entries {
                    n += count_leaves(child);
                }
                n
            }
        }
    }
    assert_eq!(count_leaves(&out), 4);
}

#[test]
fn scope_children_sorted_by_name() {
    let header = Header {
        items: vec![scope("top", vec![var(0, "zz"), var(1, "aa"), var(2, "mm")])],
    };
    let map = SignalMap::<u128>::new(header).unwrap();
    let out = build_output(map).unwrap();
    match &out {
        Output::Scope(entries) => {
            assert_eq!(entries.len(), 1);
            match &entries[0].1 {
                Output::Scope(inner) => {
                    let keys: Vec<&str> = inner.iter().map(|e| e.0.as_str()).collect();
                    assert_eq!(keys, vec!["aa", "mm", "zz"]);
                }
                Output::Timeseries(..) => panic!("expected a scope"),
            }
        }
        Output::Timeseries(..) => panic!("expected a scope"),
    }
}

#[test]
fn prefix_collision_rejected() {
    let mut out: Output<u128> = Output::Scope(Vec::new());
    let root = std::rc::Rc::new(Path::<String>::empty());
    let a = std::rc::Rc::new(Path::extend(&root, String::from("a")));
    let short = Path::extend(&a, String::from("b"));
    let ab = std::rc::Rc::new(Path::extend(&a, String::from("b")));
    let long = Path::extend(&ab, String::from("c"));
    assert_eq!(out.insert(short, vec![1]), Ok(()));
    assert_eq!(out.insert(long, vec![2]), Err(Error::PrefixCollision));
}

#[test]
fn worked_example_whole_run() {
    let header = Header {
        items: vec![scope(
            "scopeA",
            vec![var(0, "sig1"), scope("scopeB", vec![var(1, "sig2")])],
        )],
    };
    let commands = vec![
        Command::Timestamp(0),
        Command::ChangeScalar(0, Bit::V1),
        Command::ChangeScalar(1, Bit::V0),
        Command::Timestamp(1),
        Command::ChangeScalar(0, Bit::V0),
    ];
    let out = run::<u128>(header, commands).unwrap();
    assert_eq!(leaf_values(&out, &["scopeA", "sig1"]), vec![1, 0]);
    assert_eq!(leaf_values(&out, &["scopeA", "scopeB", "sig2"]), vec![0, 0]);
}

#[test]
fn string_representation_whole_run() {
    let header = Header { items: vec![scope("top", vec![var(0, "s")])] };
    let commands = vec![
        Command::Timestamp(0),
        Command::ChangeVector(0, vec![Bit::V1, Bit::X]),
        Command::Timestamp(1),
    ];
    let out = run::<String>(header, commands).unwrap();
    match &out {
        Output::Scope(entries) => match &entries[0].1 {
            Output::Scope(inner) => match &inner[0].1 {
                Output::Timeseries(vs) => {
                    assert_eq!(vs, &vec![String::from("1X"), String::from("1X")]);
                }
                Output::Scope(..) => panic!("expected a leaf"),
            },
            Output::Timeseries(..) => panic!("expected a scope"),
        },
        Output::Timeseries(..) => panic!("expected a scope"),
    }
}

#[test]
fn reinserting_a_path_replaces_the_leaf() {
    let mut out: Output<u128> = Output::Scope(Vec::new());
    let root = std::rc::Rc::new(Path::<String>::empty());
    let a = std::rc::Rc::new(Path::extend(&root, String::from("a")));
    let p1 = Path::extend(&a, String::from("b"));
    let p2 = Path::extend(&a, String::from("b"));
    assert_eq!(out.insert(p1, vec![1]), Ok(()));
    assert_eq!(out.insert(p2, vec![2]), Ok(()));
    assert_eq!(leaf_values(&out, &["a", "b"]), vec![2]);
}

#[test]
fn inserting_at_the_root_replaces_the_whole_tree() {
    let mut out: Output<u128> = Output::Scope(Vec::new());
    let root = Path::<String>::empty();
    assert_eq!(out.insert(root, vec![7]), Ok(()));
    match out {
        Output::Timeseries(vs) => assert_eq!(vs, vec![7]),
        Output::Scope(..) => panic!("expected a leaf"),
    }
}

#[test]
fn string_order_is_by_code_point() {
    assert!(str_lt(&String::from("aa"), &String::from("ab")));
    assert!(str_lt(&String::from("a"), &String::from("aa")));
    assert!(!str_lt(&String::from("aa"), &String::from("aa")));
    assert!(str_lt(&String::from("B"), &String::from("a")));
    assert!(!str_lt(&String::from("b"), &String::from("A")));
}

#[test]
fn empty_path_has_no_segments() {
    let root = Path::<String>::empty();
    assert_eq!(root.to_vec().len(), 0);
    let root2 = Path::<String>::empty();
    assert!(root.equals(&root2));
}
