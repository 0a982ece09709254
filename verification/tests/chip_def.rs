use hardware_sim::{ChipDef, Component, LookupTable};

#[test]
fn common_from_nand() {
    let nand = LookupTable::new(
        vec![vec![true, true, true, false]],
        vec!["a", "b"],
        vec!["out"],
        "Nand",
    )
    .unwrap();

    let not_def = ChipDef::new(
        "Not",
        vec!["a"],
        vec!["out"],
        vec![(vec![("a", "a"), ("b", "a")], vec![("out", "out")], "Nand")],
    );

    let or_def = ChipDef::new(
        "Or",
        vec!["a", "b"],
        vec!["out"],
        vec![
            (vec![("a", "a")], vec![("out", "not_a")], "Not"),
            (vec![("a", "b")], vec![("out", "not_b")], "Not"),
            (
                vec![("a", "not_a")],
                vec![("b", "not_b"), ("out", "out")],
                "Nand",
            ),
        ],
    );

    let xor_def = ChipDef::new(
        "Xor",
        vec!["a", "b"],
        vec!["out"],
        vec![
            (vec![("a", "a")], vec![("out", "not_a")], "Not"),
            (vec![("a", "b")], vec![("out", "not_b")], "Not"),
            (
                vec![("a", "a"), ("b", "not_b")],
                vec![("out", "and_a")],
                "And",
            ),
            (
                vec![("a", "not_a"), ("b", "b")],
                vec![("out", "and_b")],
                "And",
            ),
            (
                vec![("a", "and_a"), ("b", "and_b")],
                vec![("out", "out")],
                "Or",
            ),
        ],
    );

    assert_eq!(nand.in_map("a".to_string()), Some(0));
    assert_eq!(not_def.name(), "Not".to_string());
    assert_eq!(or_def.inputs(), vec!["a".to_string(), "b".to_string()]);
    assert_eq!(xor_def.outputs(), vec!["out".to_string()]);
    assert_eq!(xor_def.parts().len(), 5);
}

#[test]
fn definition_round_trip() {
    let part = Component::Def {
        inputs: vec![("a".to_string(), "x".to_string())],
        outputs: vec![("out".to_string(), "y".to_string())],
        name: "Nand".to_string(),
    };
    assert_eq!(part.name(), "Nand".to_string());

    let def = ChipDef::new_string(
        "Wrap".to_string(),
        vec!["x".to_string()],
        vec!["y".to_string()],
        vec![part.clone()],
    );
    assert_eq!(def.name(), "Wrap".to_string());
    assert_eq!(def.inputs(), vec!["x".to_string()]);
    assert_eq!(def.outputs(), vec!["y".to_string()]);
    assert_eq!(def.parts(), vec![part]);
}
