use hardware_sim::{ChipDef, Circuit, LookupTable};

#[test]
fn acyclic_circuit_reduces_to_its_table() {
    // An imply gate wired straight through: the reduced table must
    // reproduce the original rows bit for bit, which pins down the
    // bit-significance convention of the enumeration.
    let imply = LookupTable::new(
        vec![vec![true, true, false, true]],
        vec!["a", "b"],
        vec!["out"],
        "Imply",
    )
    .unwrap();

    let def = ChipDef::new(
        "Imply",
        vec!["a", "b"],
        vec!["out"],
        vec![(vec![("a", "a"), ("b", "b")], vec![("out", "out")], "Imply")],
    );

    let circuit = Circuit::new(def, vec![imply]).unwrap();
    assert!(circuit.is_dag());
    let lut = circuit.to_lut().unwrap().unwrap();
    assert_eq!(lut.get_table(), vec![vec![true, true, false, true]]);
    assert_eq!(lut.name(), "Imply".to_string());
    assert_eq!(lut.in_map("a".to_string()), Some(0));
    assert_eq!(lut.in_map("b".to_string()), Some(1));
    assert_eq!(lut.out_map("out".to_string()), Some(0));
}

#[test]
fn reduced_and_can_reenter_the_library() {
    // AND built from two NANDs collapses back into the flat AND table,
    // which can then serve as a primitive at the next level.
    let nand = LookupTable::new(
        vec![vec![true, true, true, false]],
        vec!["a", "b"],
        vec!["out"],
        "Nand",
    )
    .unwrap();

    let def = ChipDef::new(
        "And",
        vec!["a", "b"],
        vec!["out"],
        vec![
            (vec![("a", "a"), ("b", "b")], vec![("out", "nand")], "Nand"),
            (
                vec![("a", "nand"), ("b", "nand")],
                vec![("out", "out")],
                "Nand",
            ),
        ],
    );

    let circuit = Circuit::new(def, vec![nand]).unwrap();
    let and = circuit.to_lut().unwrap().unwrap();
    assert_eq!(and.get_table(), vec![vec![false, false, false, true]]);

    let wrapper = ChipDef::new(
        "AndAgain",
        vec!["x", "y"],
        vec!["z"],
        vec![(vec![("a", "x"), ("b", "y")], vec![("out", "z")], "And")],
    );
    let mut again = Circuit::new(wrapper, vec![and]).unwrap();
    again.set("x", true).unwrap();
    again.set("y", true).unwrap();
    again.tick().unwrap();
    assert_eq!(again.get("z"), Ok(true));
}

#[test]
fn cyclic_circuit_is_not_reducible() {
    // The feedback oscillator: a NOT gate feeding an OR gate whose
    // output feeds back into the NOT. It ticks fine, but it has no
    // truth table.
    let not = LookupTable::new(vec![vec![true, false]], vec!["in"], vec!["out"], "not").unwrap();
    let or = LookupTable::new(
        vec![vec![false, true, true, true]],
        vec!["in1", "in2"],
        vec!["out"],
        "or",
    )
    .unwrap();

    let def = ChipDef::new(
        "clock",
        vec!["input"],
        vec!["output"],
        vec![
            (vec![("in", "in")], vec![("out", "output")], "not"),
            (
                vec![("in1", "input"), ("in2", "output")],
                vec![("out", "in")],
                "or",
            ),
        ],
    );

    let circuit = Circuit::new(def, vec![not, or]).unwrap();
    assert!(!circuit.is_dag());
    assert_eq!(circuit.to_lut().unwrap(), None);
}
