use streamline::analysis::{Analysis, TargetFunction};
use streamline::grouping::ComplexityGroup;
use streamline::score::{ln_floor_of, rank_before, SCORE_SCALE};
use streamline::sensitive::{name_fragment, SensitiveTable};
use streamline::store::{ingest_function, Function, FunctionData, Operation, Reference};

fn reference(kind: &str, to: u64) -> Reference {
    Reference { kind: kind.to_string(), to }
}

fn operation(addr: u64, kind: &str) -> Operation {
    Operation { addr, kind: kind.to_string() }
}

fn data(name: &str, offset: u64, cc: u64, refs: Vec<Reference>, ops: Vec<Operation>) -> FunctionData {
    FunctionData { name: name.to_string(), offset, size: 16, cc, references: refs, operations: ops }
}

fn record(a: &Analysis, offset: u64) -> &Function {
    a.functions.iter().find(|f| f.offset == offset).expect("record exists")
}

fn chain_analysis() -> Analysis {
    let mut a = Analysis::new(SensitiveTable::new());
    a.set_functions(vec![
        data("A", 0x100, 4, vec![reference("CALL", 0x200)], vec![]),
        data(
            "B",
            0x200,
            1,
            vec![reference("CALL", 0x300)],
            vec![operation(0x200, "load"), operation(0x204, "store"), operation(0x208, "add")],
        ),
        data("C", 0x300, 8, vec![], vec![]),
    ]);
    a.analyze();
    a
}

#[test]
fn chain_scenario_counts_and_indexes() {
    let a = chain_analysis();
    assert_eq!(record(&a, 0x100).x_f, 0);
    assert_eq!(record(&a, 0x200).x_f, 1);
    assert_eq!(record(&a, 0x300).x_f, 1);
    assert_eq!(record(&a, 0x100).complex_f, 1);
    assert_eq!(record(&a, 0x200).complex_f, 1);
    assert_eq!(record(&a, 0x300).complex_f, 3);
}

#[test]
fn chain_scenario_groups_and_ranking() {
    let a = chain_analysis();
    assert_eq!(a.complexity_groups.len(), 2);
    assert_eq!(a.complexity_groups[0].complex_f, 1);
    assert_eq!(a.complexity_groups[0].functions, vec![0x200, 0x100]);
    assert_eq!(a.complexity_groups[1].complex_f, 3);
    assert_eq!(a.complexity_groups[1].functions, vec![0x300]);
}

#[test]
fn chain_scenario_scores_and_export() {
    let a = chain_analysis();
    let two_thirds = (2 * SCORE_SCALE as u128) / 3;
    assert_eq!(record(&a, 0x200).p_f, Some(two_thirds));
    assert_eq!(record(&a, 0x200).vulnerability_f, Some(two_thirds));
    assert_eq!(record(&a, 0x100).vulnerability_f, None);
    assert_eq!(record(&a, 0x300).vulnerability_f, None);
    let out = a.export();
    assert_eq!(out.len(), 1);
    assert_eq!(out[0].address, 0x200);
    assert_eq!(out[0].name, "B");
    assert_eq!(out[0].complexity, 1);
    assert_eq!(out[0].vulnerability, 666_666_666);
}

#[test]
fn sensitive_calls_weighted_per_call() {
    let mut table = SensitiveTable::new();
    table.insert("memcpy".to_string(), 5 * SCORE_SCALE);
    let mut a = Analysis::new(table);
    a.set_functions(vec![
        data(
            "F",
            0x10,
            3,
            vec![reference("CALL", 0x20), reference("CALL", 0x20), reference("CALL", 0x30)],
            vec![],
        ),
        data("lib.memcpy", 0x20, 1, vec![], vec![]),
        data("lib.strlen", 0x30, 1, vec![], vec![]),
    ]);
    a.analyze();
    assert_eq!(record(&a, 0x10).s_f, 10 * SCORE_SCALE as u128);
    assert_eq!(record(&a, 0x20).s_f, 0);
}

#[test]
fn zero_operations_leave_score_undefined() {
    let mut table = SensitiveTable::new();
    table.insert("memcpy".to_string(), SCORE_SCALE);
    let mut a = Analysis::new(table);
    a.set_functions(vec![
        data("F", 0x10, 20, vec![reference("CALL", 0x20)], vec![]),
        data("memcpy", 0x20, 1, vec![], vec![]),
    ]);
    a.analyze();
    assert_eq!(record(&a, 0x10).s_f, SCORE_SCALE as u128);
    assert_eq!(record(&a, 0x10).p_f, None);
    assert_eq!(record(&a, 0x10).vulnerability_f, None);
    assert!(a.export().is_empty());
}

#[test]
fn call_in_total_matches_call_edges() {
    let mut a = Analysis::new(SensitiveTable::new());
    a.set_functions(vec![
        data(
            "A",
            0x1,
            1,
            vec![reference("CALL", 0x2), reference("CALL", 0x2), reference("DATA", 0x3), reference("CALL", 0x9)],
            vec![],
        ),
        data("B", 0x2, 1, vec![reference("CALL", 0x1)], vec![]),
    ]);
    a.analyze();
    let ins: u64 = a.functions.iter().map(|f| f.x_f).sum();
    let edges: usize = a.functions.iter().map(|f| f.calls.len()).sum();
    assert_eq!(ins, 4);
    assert_eq!(edges, 4);
    assert_eq!(record(&a, 0x2).callers, vec![0x1, 0x1]);
    assert_eq!(record(&a, 0x9).name, "");
    assert!(a.functions.iter().all(|f| f.offset != 0x3));
}

#[test]
fn index_zero_functions_never_grouped_or_exported() {
    let mut a = Analysis::new(SensitiveTable::new());
    a.set_functions(vec![
        data("leaf", 0x40, 1, vec![], vec![operation(0x40, "load")]),
        data("zero", 0x50, 0, vec![], vec![operation(0x50, "store")]),
    ]);
    a.analyze();
    assert_eq!(record(&a, 0x40).complex_f, 0);
    assert_eq!(record(&a, 0x50).complex_f, 0);
    assert!(a.complexity_groups.is_empty());
    assert!(a.export().is_empty());
}

#[test]
fn export_one_per_class_in_increasing_order() {
    let mut a = Analysis::new(SensitiveTable::new());
    a.set_functions(vec![
        data("p", 0x1, 25, vec![], vec![operation(1, "load")]),
        data("q", 0x2, 3, vec![], vec![operation(2, "load"), operation(3, "add")]),
        data("r", 0x3, 4, vec![], vec![operation(4, "store")]),
        data("s", 0x4, 9, vec![], vec![operation(5, "add")]),
    ]);
    a.analyze();
    let out = a.export();
    let classes: Vec<u64> = out.iter().map(|t| t.complexity).collect();
    assert_eq!(classes, vec![1, 3]);
    assert_eq!(out[0].address, 0x3);
    assert_eq!(out[1].address, 0x1);
}

#[test]
fn export_repeats_on_identical_input() {
    let first: Vec<(u64, String, u64, u128)> =
        chain_analysis().export().into_iter().map(|t| (t.address, t.name, t.complexity, t.vulnerability)).collect();
    let second: Vec<(u64, String, u64, u128)> =
        chain_analysis().export().into_iter().map(|t| (t.address, t.name, t.complexity, t.vulnerability)).collect();
    assert_eq!(first, second);
}

#[test]
fn equal_scores_rank_by_ascending_address() {
    let mut a = Analysis::new(SensitiveTable::new());
    a.set_functions(vec![
        data("x", 0x30, 3, vec![], vec![operation(1, "load")]),
        data("y", 0x10, 3, vec![], vec![operation(2, "load")]),
        data("z", 0x20, 3, vec![], vec![]),
    ]);
    a.analyze();
    assert_eq!(a.complexity_groups[0].functions, vec![0x10, 0x30, 0x20]);
    assert_eq!(a.export()[0].address, 0x10);
}

#[test]
fn ln_floor_steps() {
    assert_eq!(ln_floor_of(0), 0);
    assert_eq!(ln_floor_of(1), 0);
    assert_eq!(ln_floor_of(2), 0);
    assert_eq!(ln_floor_of(3), 1);
    assert_eq!(ln_floor_of(4), 1);
    assert_eq!(ln_floor_of(7), 1);
    assert_eq!(ln_floor_of(8), 2);
    assert_eq!(ln_floor_of(20), 2);
    assert_eq!(ln_floor_of(21), 3);
    assert_eq!(ln_floor_of(u64::MAX), 44);
}

#[test]
fn bare_name_fragment() {
    assert_eq!(name_fragment(&"sym.imp.memcpy".to_string()), "memcpy");
    assert_eq!(name_fragment(&"memcpy".to_string()), "memcpy");
    assert_eq!(name_fragment(&"lib.".to_string()), "");
    assert_eq!(name_fragment(&"".to_string()), "");
}

#[test]
fn table_insert_replaces_weight() {
    let mut t = SensitiveTable::new();
    t.insert("strcpy".to_string(), 3);
    t.insert("strcpy".to_string(), 7);
    assert_eq!(t.weight(&"strcpy".to_string()), 7);
    assert_eq!(t.weight(&"gets".to_string()), 0);
}

#[test]
fn data_references_are_not_calls() {
    let mut fs: Vec<Function> = Vec::new();
    ingest_function(&mut fs, data("main", 0x1, 2, vec![reference("DATA", 0x5), reference("CALL", 0x6)], vec![]));
    assert_eq!(fs.len(), 2);
    assert_eq!(fs[0].calls, vec![0x6]);
    assert_eq!(fs[1].offset, 0x6);
    assert_eq!(fs[1].callers, vec![0x1]);
}

#[test]
fn rank_order_places_undefined_last() {
    assert!(rank_before(Some(0), 9, None, 1));
    assert!(!rank_before(None, 1, Some(0), 9));
    assert!(rank_before(Some(5), 9, Some(4), 1));
    assert!(rank_before(None, 1, None, 2));
}

#[test]
fn constructors_start_empty() {
    let g = ComplexityGroup::new(4);
    assert_eq!(g.complex_f, 4);
    assert!(g.functions.is_empty());
    let f = Function::new(0x99);
    assert_eq!(f.offset, 0x99);
    assert_eq!(f.vulnerability_f, None);
    let t = TargetFunction::new(1, "n".to_string(), 2, 3);
    assert_eq!((t.address, t.complexity, t.vulnerability), (1, 2, 3));
}

#[test]
fn repeated_definition_appends_calls_and_keeps_last_facts() {
    let mut a = Analysis::new(SensitiveTable::new());
    a.set_functions(vec![
        data("first", 0x7, 2, vec![reference("CALL", 0x8)], vec![operation(1, "load")]),
        FunctionData {
            name: "second".to_string(),
            offset: 0x7,
            size: 32,
            cc: 9,
            references: vec![reference("CALL", 0x9)],
            operations: vec![operation(2, "add")],
        },
    ]);
    let f = record(&a, 0x7);
    assert_eq!(f.name, "second");
    assert_eq!((f.size, f.cc), (32, 9));
    assert_eq!(f.calls, vec![0x8, 0x9]);
    assert_eq!(f.operation_list.len(), 2);
    let callee = record(&a, 0x9);
    assert_eq!(callee.name, "");
    assert_eq!(callee.size, 0);
    assert_eq!(callee.callers, vec![0x7]);
}
