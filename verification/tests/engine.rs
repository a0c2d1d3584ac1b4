use std::collections::HashMap;

use solution_similarity::utils::{
    get_instructions, mapping_operator_type, mapping_program, Grid, Input, MechState, Operator,
    OperatorType,
};
use solution_similarity::{
    generate_hash_family, has_duplicate_tokens, hash, map_solution, map_unique_grid,
    map_unique_operator, map_unique_values, min_hash, OFFSET_INSTRUCTIONS, OFFSET_MECHS,
    OFFSET_OPERATORS,
};

fn grid(x: u16, y: u16) -> Grid {
    Grid { x, y }
}

fn mech(x: u16, y: u16) -> MechState {
    MechState {
        id: "mech".to_string(),
        typ: "arm".to_string(),
        status: "idle".to_string(),
        index: grid(x, y),
        pc_next: 0,
    }
}

fn operator(symbol: &str, input: Vec<Grid>, output: Vec<Grid>) -> Operator {
    Operator {
        input,
        output,
        typ: OperatorType { symbol: symbol.to_string() },
    }
}

/// A small complete solution.
fn solution_one() -> Input {
    Input {
        mechs: vec![mech(0, 0), mech(1, 1), mech(2, 2)],
        programs: vec!["WWWAAA".to_string(), "SSSDDD".to_string()],
        operators: vec![operator("&", vec![grid(1, 2), grid(3, 4)], vec![grid(5, 6)])],
    }
}

/// A larger solution, structurally unrelated to `solution_one`.
fn solution_two() -> Input {
    Input {
        mechs: vec![mech(7, 0), mech(7, 1), mech(7, 2), mech(6, 0), mech(6, 1), mech(5, 0)],
        programs: vec![
            "ZZZZZZZZZZZZZZZ".to_string(),
            "XXXXXXXXXXXXXXX".to_string(),
            "GGGGGGGGGGGGGGG".to_string(),
            "HHHHHHHHHHHHHHH".to_string(),
        ],
        operators: vec![operator(
            "#",
            vec![grid(10, 10), grid(11, 12)],
            vec![grid(12, 1), grid(9, 3)],
        )],
    }
}

/// A hand-perturbed near-duplicate of `solution_two`: one instruction added.
fn solution_three() -> Input {
    let mut s = solution_two();
    s.programs[0].push('Z');
    s
}

#[test]
fn test_map_unique_values() {
    let data = solution_one();
    let instructions = get_instructions(&data.programs);
    let mut map_unique: HashMap<u16, u16> = HashMap::new();
    let mapping = map_unique_values(&instructions, 0, 128);
    mapping
        .iter()
        .for_each(|&x| *map_unique.entry(x).or_insert(0) += 1);
    assert_eq!(
        Ok(1u16),
        map_unique.into_iter().map(|(_, v)| v).max().ok_or(0)
    );
}

#[test]
fn test_map_unique_grid() {
    let data = solution_one();
    let mut map_unique: HashMap<u16, u16> = HashMap::new();
    let grids: Vec<Grid> = data.mechs.into_iter().map(|x| x.index).collect();
    let mapping = map_unique_grid(&grids, 0, 1);
    mapping
        .iter()
        .for_each(|&x| *map_unique.entry(x).or_insert(0) += 1);
    assert_eq!(
        Ok(1u16),
        map_unique.into_iter().map(|(_, v)| v).max().ok_or(0)
    );
}

#[test]
fn test_map_unique_operator() {
    let data = solution_one();
    let operators_types_it = data
        .clone()
        .operators
        .into_iter()
        .map(|x| mapping_operator_type(&x.typ.symbol).unwrap());
    let grids_operators: Vec<(Vec<Grid>, u16)> = data
        .operators
        .into_iter()
        .zip(operators_types_it)
        .map(|(x, t)| ([x.input, x.output].concat(), t))
        .collect();
    let mut map_unique: HashMap<u16, u16> = HashMap::new();
    let mapping = map_unique_operator(&grids_operators, 0);
    mapping
        .iter()
        .for_each(|&x| *map_unique.entry(x).or_insert(0) += 1);
    assert_eq!(
        Ok(1u16),
        map_unique.into_iter().map(|(_, v)| v).max().ok_or(0)
    );
}

#[test]
fn test_map_solution_to_unique() {
    let global_mapping = map_solution(&solution_one()).unwrap();
    let mut map_unique: HashMap<u16, u16> = HashMap::new();
    global_mapping
        .iter()
        .for_each(|&x| *map_unique.entry(x).or_insert(0) += 1);
    assert_eq!(
        Ok(1u16),
        map_unique.into_iter().map(|(_, v)| v).max().ok_or(0)
    );
}

#[test]
fn test_hashing() {
    let (a, b) = generate_hash_family(100);
    test_hash_same(a.clone(), b.clone());
    test_hash_similar(a.clone(), b.clone());
    test_hash_different(a, b);
}

fn test_hash_same(a: Vec<u32>, b: Vec<u32>) {
    let d1 = map_solution(&solution_one()).unwrap();
    let d2 = map_solution(&solution_one()).unwrap();
    let min_hash = min_hash(&d1, &d2, &a, &b);
    assert_eq!(100u16, min_hash);
}

fn test_hash_similar(a: Vec<u32>, b: Vec<u32>) {
    let d1 = map_solution(&solution_two()).unwrap();
    let d2 = map_solution(&solution_three()).unwrap();
    let min_hash = min_hash(&d1, &d2, &a, &b);
    assert!(min_hash >= 90);
}

fn test_hash_different(a: Vec<u32>, b: Vec<u32>) {
    let d1 = map_solution(&solution_one()).unwrap();
    let d2 = map_solution(&solution_three()).unwrap();
    let min_hash = min_hash(&d1, &d2, &a, &b);
    assert!(min_hash < 70);
}

#[test]
fn test_value_tokens_exact() {
    // slot within the 128-wide channel of each value, then the channel base
    assert_eq!(vec![128, 129, 256], map_unique_values(&[1, 1, 2], 0, 128));
    assert_eq!(vec![2048 + 128], map_unique_values(&[1], 2048, 128));
}

#[test]
fn test_grid_tokens_exact() {
    // (1,1) and (0,9) share the channel key 288, so they take slots 0, 1, 2
    let grids = vec![grid(1, 1), grid(1, 1), grid(0, 9)];
    assert_eq!(vec![2336, 2337, 2338], map_unique_grid(&grids, 2048, 1));
}

#[test]
fn test_operator_tokens_exact() {
    let pairs = vec![(vec![grid(1, 2), grid(3, 4)], 2u16)];
    assert_eq!(
        vec![4096 + 512 + 18, 4096 + 512 + 52],
        map_unique_operator(&pairs, 4096)
    );
}

#[test]
fn test_get_instructions_filters() {
    // '_' (code 9) and unknown characters (code 10) are dropped
    let programs = vec!["WA_q".to_string(), "SD".to_string()];
    assert_eq!(vec![1, 2, 3, 4], get_instructions(&programs));
}

#[test]
fn test_mapping_program_table() {
    assert_eq!(1, mapping_program(b"W"));
    assert_eq!(2, mapping_program(b"A"));
    assert_eq!(3, mapping_program(b"S"));
    assert_eq!(4, mapping_program(b"D"));
    assert_eq!(5, mapping_program(b"Z"));
    assert_eq!(6, mapping_program(b"X"));
    assert_eq!(7, mapping_program(b"G"));
    assert_eq!(8, mapping_program(b"H"));
    assert_eq!(9, mapping_program(b"_"));
    assert_eq!(10, mapping_program(b"w"));
    assert_eq!(10, mapping_program(b","));
}

#[test]
fn test_mapping_operator_type_table() {
    assert_eq!(Ok(0), mapping_operator_type("&"));
    assert_eq!(Ok(1), mapping_operator_type("%"));
    assert_eq!(Ok(2), mapping_operator_type("^"));
    assert_eq!(Ok(3), mapping_operator_type("#"));
}

#[test]
fn test_invalid_symbol_is_fatal() {
    // an operator symbol outside {&, %, ^, #} aborts the encoding run
    assert!(mapping_operator_type("@").is_err());
    assert!(mapping_operator_type("").is_err());
    assert!(mapping_operator_type("&&").is_err());
    let mut bad = solution_one();
    bad.operators.push(operator("@", vec![grid(0, 0)], vec![]));
    assert!(map_solution(&bad).is_err());
}

#[test]
fn test_encoding_deterministic() {
    let first = map_solution(&solution_two()).unwrap();
    let second = map_solution(&solution_two()).unwrap();
    assert_eq!(first, second);
}

#[test]
fn test_family_token_ranges() {
    let data = solution_two();
    let instructions = get_instructions(&data.programs);
    let instr_tokens = map_unique_values(&instructions, OFFSET_INSTRUCTIONS, 128);
    let grids: Vec<Grid> = data.mechs.iter().map(|x| x.index).collect();
    let mech_tokens = map_unique_grid(&grids, OFFSET_MECHS, 1);
    let pairs: Vec<(Vec<Grid>, u16)> = data
        .operators
        .iter()
        .map(|op| {
            (
                [op.input.clone(), op.output.clone()].concat(),
                mapping_operator_type(&op.typ.symbol).unwrap(),
            )
        })
        .collect();
    let op_tokens = map_unique_operator(&pairs, OFFSET_OPERATORS);
    assert!(instr_tokens.iter().all(|&t| t < 2048));
    assert!(mech_tokens.iter().all(|&t| (2048..4096).contains(&t)));
    assert!(op_tokens.iter().all(|&t| t >= 4096));
}

#[test]
fn test_hash_edge_cases() {
    // empty data has no minimum
    assert_eq!(None, hash(&[], 5, 7));
    // (2*3 + 5) mod 65537
    assert_eq!(Some(11), hash(&[3], 2, 5));
    // 1*65534 + 2 = 65536: the largest residue of the prime modulus is kept
    assert_eq!(Some(65536), hash(&[65534], 1, 2));
}

#[test]
fn test_empty_fingerprints_agree() {
    // both empty fingerprints take the default signature 0 everywhere
    let (a, b) = generate_hash_family(100);
    assert_eq!(100u16, min_hash(&[], &[], &a, &b));
}

#[test]
fn test_hash_family_ranges() {
    let (a, b) = generate_hash_family(100);
    assert_eq!(100, a.len());
    assert_eq!(100, b.len());
    assert!(a.iter().all(|&x| (1..=65535).contains(&x)));
    assert!(b.iter().all(|&x| (1..=65535).contains(&x)));
}

#[test]
fn test_duplicate_detection() {
    assert!(!has_duplicate_tokens(&[1, 2, 3]));
    assert!(has_duplicate_tokens(&[1, 2, 1]));
    let fingerprint = map_solution(&solution_two()).unwrap();
    assert!(!has_duplicate_tokens(&fingerprint));
}
