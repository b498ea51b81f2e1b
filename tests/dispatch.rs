use mcvm::dispatch::{gen_bin_search, is_power_of_two, DispatchError};
use mcvm::generate::decode_string;

fn actions(n: usize) -> Vec<String> {
    (0..n).map(|i| format!("say {i}")).collect()
}

#[test]
fn tree_over_four_actions() {
    let scripts = gen_bin_search("load", "Pointer", &actions(4)).unwrap();
    let names: Vec<&str> = scripts.iter().map(|s| s.name.as_str()).collect();
    assert_eq!(
        names,
        vec!["load", "load/SearchPoint_N1", "load/SearchPoint_N2", "load/SearchPoint_N3"]
    );
    assert_eq!(
        scripts[0].content,
        "execute if score MCVM_Memory Pointer matches 4.. run say mcvm fatal error: pointer out of range\n\
execute if score MCVM_Memory Pointer matches ..3 run function load/SearchPoint_N2"
    );
    assert_eq!(
        scripts[2].content,
        "execute if score MCVM_Memory Pointer matches 2.. run function load/SearchPoint_N3\n\
execute if score MCVM_Memory Pointer matches ..1 run function load/SearchPoint_N1"
    );
    assert_eq!(
        scripts[3].content,
        "execute if score MCVM_Memory Pointer matches 3 run say 3\n\
execute if score MCVM_Memory Pointer matches 2 run say 2"
    );
}

#[test]
fn tree_over_one_action() {
    let scripts = gen_bin_search("x", "P", &actions(1)).unwrap();
    assert_eq!(scripts.len(), 1);
    assert_eq!(
        scripts[0].content,
        "execute if score MCVM_Memory P matches 1.. run say mcvm fatal error: pointer out of range\n\
execute if score MCVM_Memory P matches ..0 run say 0"
    );
}

/// Follows the tree's text from the entry for pointer value `p`.
fn walk(scripts: &[mcvm::dispatch::Script], p: i64) -> Vec<String> {
    let mut fired = Vec::new();
    let mut current = scripts[0].content.clone();
    loop {
        let mut next = None;
        for line in current.lines() {
            let rest = line.split(" matches ").nth(1).unwrap();
            let (range, cmd) = rest.split_once(" run ").unwrap();
            let hit = match range.split_once("..") {
                Some((lo, hi)) => {
                    (lo.is_empty() || p >= lo.parse::<i64>().unwrap())
                        && (hi.is_empty() || p <= hi.parse::<i64>().unwrap())
                }
                None => p == range.parse::<i64>().unwrap(),
            };
            if hit {
                match cmd.strip_prefix("function ") {
                    Some(name) if name.contains("SearchPoint") => next = Some(name.to_string()),
                    _ => fired.push(cmd.to_string()),
                }
            }
        }
        match next {
            Some(name) => {
                current = scripts.iter().find(|s| s.name == name).unwrap().content.clone()
            }
            None => return fired,
        }
    }
}

#[test]
fn every_pointer_reaches_exactly_its_action() {
    for h in 0..8 {
        let n = 1usize << h;
        let scripts = gen_bin_search("t", "P", &actions(n)).unwrap();
        assert_eq!(scripts.len(), n);
        for s in &scripts {
            assert!(s.content.lines().count() <= 2);
        }
        for p in 0..n as i64 {
            assert_eq!(walk(&scripts, p), vec![format!("say {p}")]);
        }
        assert_eq!(walk(&scripts, n as i64), vec!["say mcvm fatal error: pointer out of range"]);
    }
}

#[test]
fn sizes_that_are_not_powers_of_two() {
    assert_eq!(gen_bin_search("t", "P", &actions(3)).unwrap_err(), DispatchError::NotPowerOfTwo);
    assert_eq!(gen_bin_search("t", "P", &actions(0)).unwrap_err(), DispatchError::NotPowerOfTwo);
    assert!(is_power_of_two(1024));
    assert!(!is_power_of_two(1000));
    assert!(!is_power_of_two(0));
}

#[test]
fn decoding_strips_backslashes() {
    assert_eq!(decode_string("a\\\"b\\\\c\\"), "a\"bc");
    assert_eq!(decode_string(""), "");
}
