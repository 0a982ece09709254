use hardware_sim::{Error, LookupTable};

#[test]
fn nand() {
    let mut nand = LookupTable::new(
        vec![vec![true, true, true, false]],
        vec!["a", "b"],
        vec!["out"],
        "Nand",
    )
    .unwrap();

    assert_eq!(nand.get("out"), Ok(true));
    assert_eq!(nand.set("a", true), Ok(()));
    assert_eq!(nand.get("out"), Ok(true));
    assert_eq!(nand.set("a", false), Ok(()));
    assert_eq!(nand.set("b", true), Ok(()));
    assert_eq!(nand.get("out"), Ok(true));
    assert_eq!(nand.set("a", true), Ok(()));
    assert_eq!(nand.get("out"), Ok(false));
}

#[test]
fn common_3_in_1() {
    let mut common = LookupTable::new(
        vec![
            vec![false, false, false, true],
            vec![false, true, true, true],
            vec![false, true, true, false],
        ],
        vec!["a", "b"],
        vec!["and", "or", "xor"],
        "Common",
    )
    .unwrap();

    assert_eq!(common.get("and"), Ok(false));
    assert_eq!(common.get("or"), Ok(false));
    assert_eq!(common.get("xor"), Ok(false));

    assert_eq!(common.set("a", true), Ok(()));

    assert_eq!(common.get("and"), Ok(false));
    assert_eq!(common.get("or"), Ok(true));
    assert_eq!(common.get("xor"), Ok(true));

    assert_eq!(common.set("a", false), Ok(()));
    assert_eq!(common.set("b", true), Ok(()));

    assert_eq!(common.get("and"), Ok(false));
    assert_eq!(common.get("or"), Ok(true));
    assert_eq!(common.get("xor"), Ok(true));

    assert_eq!(common.set("a", true), Ok(()));

    assert_eq!(common.get("and"), Ok(true));
    assert_eq!(common.get("or"), Ok(true));
    assert_eq!(common.get("xor"), Ok(false));
}

#[test]
fn shape_is_checked_exactly() {
    // Any m rows of length 2^k construct, for any k and m, zero included.
    assert!(LookupTable::new(vec![], vec![], vec![], "empty").is_ok());
    assert!(LookupTable::new(vec![vec![true]], vec![], vec!["out"], "const").is_ok());
    assert!(
        LookupTable::new(vec![vec![true, false]], vec!["a"], vec!["out"], "not").is_ok()
    );
    assert!(LookupTable::new(
        vec![vec![false; 8], vec![true; 8]],
        vec!["a", "b", "c"],
        vec!["x", "y"],
        "wide",
    )
    .is_ok());

    // A row count other than the output count never constructs.
    assert_eq!(
        LookupTable::new(vec![vec![true, false]], vec!["a"], vec![], "bad")
            .unwrap_err(),
        Error::ShapeMismatch
    );
    // A row length other than 2^k never constructs.
    assert_eq!(
        LookupTable::new(vec![vec![true, false, true]], vec!["a"], vec!["out"], "bad")
            .unwrap_err(),
        Error::ShapeMismatch
    );
    assert_eq!(
        LookupTable::new(vec![vec![true]], vec!["a"], vec!["out"], "bad").unwrap_err(),
        Error::ShapeMismatch
    );
}

#[test]
fn ports_resolve_by_name_and_index() {
    let mut lut = LookupTable::new(
        vec![vec![false, true, false, false]],
        vec!["a", "b"],
        vec!["out"],
        "imply",
    )
    .unwrap();

    assert_eq!(lut.in_map("a".to_string()), Some(0));
    assert_eq!(lut.in_map("b".to_string()), Some(1));
    assert_eq!(lut.in_map("c".to_string()), None);
    assert_eq!(lut.out_map("out".to_string()), Some(0));
    assert_eq!(lut.out_map("a".to_string()), None);
    assert_eq!(lut.name(), "imply".to_string());

    assert_eq!(lut.set("c", true), Err(Error::PortNotFound));
    assert_eq!(lut.get("c"), Err(Error::PortNotFound));
    assert_eq!(lut.set_id(2, true), Err(Error::PortNotFound));
    assert_eq!(lut.get_id(1), Err(Error::PortNotFound));

    // The first declared input is the most significant table index bit.
    assert_eq!(lut.set_id(0, false), Ok(()));
    assert_eq!(lut.set_id(1, true), Ok(()));
    assert_eq!(lut.get_id(0), Ok(true));
    assert_eq!(lut.set("a", true), Ok(()));
    assert_eq!(lut.get("out"), Ok(false));

    assert_eq!(lut.outputs(), vec![false]);
    assert_eq!(
        lut.get_table(),
        vec![vec![false, true, false, false]]
    );
}
