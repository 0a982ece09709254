use hardware_sim::{ChipDef, Circuit, Connection, Error, InOut, LookupTable, Node};

#[test]
fn circuit_nand() {
    let lut = LookupTable::new(
        vec![vec![true, true, true, false]],
        vec!["a", "b"],
        vec!["out"],
        "Nand",
    )
    .unwrap();

    let lut_map = vec![lut];

    let def = ChipDef::new(
        "Nand",
        vec!["a", "b"],
        vec!["out"],
        vec![(vec![("a", "a"), ("b", "b")], vec![("out", "out")], "Nand")],
    );

    let mut circuit = Circuit::new(def, lut_map).unwrap();

    assert_eq!(circuit.get("out"), Ok(false));
    assert_eq!(circuit.tick(), Ok(()));
    assert_eq!(circuit.get("out"), Ok(true));

    assert_eq!(circuit.set("a", true), Ok(()));
    assert_eq!(circuit.tick(), Ok(()));
    assert_eq!(circuit.get("out"), Ok(true));

    assert_eq!(circuit.set("b", true), Ok(()));
    assert_eq!(circuit.tick(), Ok(()));
    assert_eq!(circuit.get("out"), Ok(false));

    assert_eq!(circuit.set("a", false), Ok(()));
    assert_eq!(circuit.tick(), Ok(()));
    assert_eq!(circuit.get("out"), Ok(true));
}

#[test]
fn not_from_nand() {
    let lut = LookupTable::new(
        vec![vec![true, true, true, false]],
        vec!["a", "b"],
        vec!["out"],
        "Nand",
    )
    .unwrap();

    let lut_map = vec![lut];

    let def = ChipDef::new(
        "Not",
        vec!["input"],
        vec!["output"],
        vec![(
            vec![("a", "input"), ("b", "input")],
            vec![("out", "output")],
            "Nand",
        )],
    );

    let mut circuit = Circuit::new(def, lut_map).unwrap();

    assert_eq!(circuit.tick(), Ok(()));
    assert_eq!(circuit.get("output"), Ok(true));

    assert_eq!(circuit.set("input", true), Ok(()));
    assert_eq!(circuit.tick(), Ok(()));
    assert_eq!(circuit.get("output"), Ok(false));
}

#[test]
fn and_from_nand() {
    let lut = LookupTable::new(
        vec![vec![true, true, true, false]],
        vec!["a", "b"],
        vec!["out"],
        "Nand",
    )
    .unwrap();

    let lut_map = vec![lut];

    let def = ChipDef::new(
        "And",
        vec!["a", "b"],
        vec!["out"],
        vec![
            (
                vec![("a", "nand"), ("b", "nand")],
                vec![("out", "out")],
                "Nand",
            ),
            (vec![("a", "a"), ("b", "b")], vec![("out", "nand")], "Nand"),
        ],
    );

    let mut circuit = Circuit::new(def, lut_map).unwrap();

    assert_eq!(circuit.tick(), Ok(()));
    assert_eq!(circuit.tick(), Ok(()));
    assert_eq!(circuit.get("out"), Ok(false));
    assert_eq!(circuit.set("a", true), Ok(()));
    assert_eq!(circuit.tick(), Ok(()));
    assert_eq!(circuit.get("out"), Ok(false));
    assert_eq!(circuit.set("b", true), Ok(()));
    assert_eq!(circuit.tick(), Ok(()));
    assert_eq!(circuit.get("out"), Ok(true));
    assert_eq!(circuit.set("a", false), Ok(()));
    assert_eq!(circuit.tick(), Ok(()));
    assert_eq!(circuit.get("out"), Ok(false));
}

#[test]
fn circuit_ram() {
    let not = LookupTable::new(vec![vec![true, false]], vec!["in"], vec!["out"], "not").unwrap();
    let and = LookupTable::new(
        vec![vec![false, false, false, true]],
        vec!["in1", "in2"],
        vec!["out"],
        "and",
    )
    .unwrap();
    let or = LookupTable::new(
        vec![vec![false, true, true, true]],
        vec!["in1", "in2"],
        vec!["out"],
        "or",
    )
    .unwrap();

    let mut ram = Circuit::blank("ram".to_string());
    let not_id = ram.add_node(Node::Lut(not)).unwrap();
    let or_id = ram.add_node(Node::Lut(or)).unwrap();
    let and_id = ram.add_node(Node::Lut(and)).unwrap();
    let in_id = ram.add_node(Node::In(InOut::new("input"))).unwrap();
    let out_id = ram.add_node(Node::Out(InOut::new("output"))).unwrap();
    let res_id = ram.add_node(Node::In(InOut::new("reset"))).unwrap();

    ram.add_connection(res_id, not_id, Connection::new(0, 0, 1))
        .unwrap();
    ram.add_connection(not_id, and_id, Connection::new(0, 0, 1))
        .unwrap();
    ram.add_connection(and_id, out_id, Connection::new(0, 0, 1))
        .unwrap();
    ram.add_connection(in_id, or_id, Connection::new(0, 1, 1))
        .unwrap();
    ram.add_connection(or_id, and_id, Connection::new(0, 1, 1))
        .unwrap();
    ram.add_connection(and_id, or_id, Connection::new(0, 0, 1))
        .unwrap();

    assert_eq!(ram.get_id(out_id), Ok(false));

    ram.tick().unwrap();
    ram.set_id(in_id, true).unwrap();
    assert_eq!(ram.get_id(out_id), Ok(false));
    ram.tick().unwrap();
    ram.set_id(in_id, false).unwrap();
    assert_eq!(ram.get_id(out_id), Ok(true));
    ram.tick().unwrap();
    assert_eq!(ram.get_id(out_id), Ok(true));
    ram.tick().unwrap();

    ram.set_id(res_id, true).unwrap();
    ram.tick().unwrap();
    assert_eq!(ram.get_id(out_id), Ok(false));
    ram.set_id(res_id, false).unwrap();
    ram.tick().unwrap();
    assert_eq!(ram.get_id(out_id), Ok(false));
    ram.tick().unwrap();
    assert_eq!(ram.get_id(out_id), Ok(false));
    ram.tick().unwrap();
}

#[test]
fn circuit_clock() {
    let chip_def = ChipDef::new(
        "clock",
        vec!["input"],
        vec!["output"],
        vec![
            (vec![("in", "in")], vec![("out", "output")], "not"),
            (
                vec![("in1", "input"), ("in2", "output")],
                vec![("out", "in")],
                "or",
            ),
        ],
    );

    let not = LookupTable::new(vec![vec![true, false]], vec!["in"], vec!["out"], "not").unwrap();
    let or = LookupTable::new(
        vec![vec![false, true, true, true]],
        vec!["in1", "in2"],
        vec!["out"],
        "or",
    )
    .unwrap();

    let lut_map = vec![not.clone(), or.clone()];

    let circuit = Circuit::new(chip_def, lut_map).unwrap();

    let mut clock = Circuit::blank("clock".to_string());
    let not_id = clock.add_node(Node::Lut(not)).unwrap();
    let or_id = clock.add_node(Node::Lut(or)).unwrap();
    let in_id = clock.add_node(Node::In(InOut::new("input"))).unwrap();
    let out_id = clock.add_node(Node::Out(InOut::new("output"))).unwrap();

    clock
        .add_connection(in_id, or_id, Connection::new(0, 1, 1))
        .unwrap();
    clock
        .add_connection(or_id, not_id, Connection::new(0, 0, 1))
        .unwrap();
    clock
        .add_connection(not_id, out_id, Connection::new(0, 0, 1))
        .unwrap();
    clock
        .add_connection(not_id, or_id, Connection::new(0, 0, 1))
        .unwrap();

    assert_eq!(clock.get_id(out_id), Ok(false));
    assert_eq!(clock.get("output"), Ok(false));
    clock.tick().unwrap();
    assert_eq!(clock.get("output"), Ok(true));
    assert_eq!(clock.get_id(out_id), Ok(true));
    clock.tick().unwrap();
    assert_eq!(clock.get("output"), Ok(false));
    assert_eq!(clock.get_id(out_id), Ok(false));
    clock.tick().unwrap();
    assert_eq!(clock.get("output"), Ok(true));
    assert_eq!(clock.get_id(out_id), Ok(true));
    clock.tick().unwrap();
    assert_eq!(clock.get("output"), Ok(false));
    assert_eq!(clock.get_id(out_id), Ok(false));
    clock.tick().unwrap();
    assert_eq!(clock.get("output"), Ok(true));
    assert_eq!(clock.get_id(out_id), Ok(true));
    clock.tick().unwrap();
    assert_eq!(clock.get("output"), Ok(false));
    assert_eq!(clock.get_id(out_id), Ok(false));
    clock.tick().unwrap();
    assert_eq!(clock.get("output"), Ok(true));
    assert_eq!(clock.get_id(out_id), Ok(true));

    assert_eq!(circuit.edge_list(), clock.edge_list());
}

#[test]
fn and_graph() {
    let lut = LookupTable::new(
        vec![vec![false, false, false, true]],
        vec!["a", "b"],
        vec!["out"],
        "And",
    )
    .unwrap();

    let def = ChipDef::new(
        "And",
        vec!["a", "b"],
        vec!["out"],
        vec![(vec![("a", "a"), ("b", "b")], vec![("out", "out")], "And")],
    );

    let lut_map = vec![lut.clone()];

    let circuit_from_def = Circuit::new(def, lut_map).unwrap();

    let mut circuit = Circuit::blank("And".to_string());
    let in1 = circuit.add_node(Node::In(InOut::new(""))).unwrap();
    let in2 = circuit.add_node(Node::In(InOut::new(""))).unwrap();
    let output = circuit.add_node(Node::Out(InOut::new("out"))).unwrap();
    let lut_id = circuit.add_node(Node::Lut(lut)).unwrap();

    circuit
        .add_connection(in1, lut_id, Connection::new(0, 0, 1))
        .unwrap();
    circuit
        .add_connection(in2, lut_id, Connection::new(0, 1, 1))
        .unwrap();
    circuit
        .add_connection(lut_id, output, Connection::new(0, 0, 1))
        .unwrap();

    assert_eq!(circuit.edge_list(), circuit_from_def.edge_list());
}

#[test]
fn circuit_not() {
    let lut = LookupTable::new(
        vec![vec![true, true, true, false]],
        vec!["a", "b"],
        vec!["out"],
        "Nand",
    )
    .unwrap();

    let lut_map = vec![lut.clone()];

    let def = ChipDef::new(
        "Not",
        vec!["input"],
        vec!["output"],
        vec![(
            vec![("a", "input"), ("b", "input")],
            vec![("out", "output")],
            "Nand",
        )],
    );

    let circuit_from_def = Circuit::new(def, lut_map).unwrap();

    let mut circuit = Circuit::blank("Not".to_string());
    let input = circuit.add_node(Node::In(InOut::new("input"))).unwrap();
    let output = circuit.add_node(Node::Out(InOut::new("output"))).unwrap();
    let lut_id = circuit.add_node(Node::Lut(lut)).unwrap();

    circuit
        .add_connection(input, lut_id, Connection::new(0, 0, 1))
        .unwrap();
    circuit
        .add_connection(input, lut_id, Connection::new(0, 1, 1))
        .unwrap();
    circuit
        .add_connection(lut_id, output, Connection::new(0, 0, 1))
        .unwrap();

    assert_eq!(circuit.tick(), Ok(()));
    assert_eq!(circuit.get("output"), Ok(true));

    assert_eq!(circuit.set("input", true), Ok(()));
    assert_eq!(circuit.tick(), Ok(()));
    assert_eq!(circuit.get("output"), Ok(false));

    assert_eq!(circuit.edge_list(), circuit_from_def.edge_list());
}

#[test]
fn circuit_and_from_nand() {
    let lut = LookupTable::new(
        vec![vec![true, true, true, false]],
        vec!["a", "b"],
        vec!["out"],
        "Nand",
    )
    .unwrap();

    let lut_map = vec![lut.clone()];

    let def = ChipDef::new(
        "And",
        vec!["a", "b"],
        vec!["out"],
        vec![
            (vec![("a", "a"), ("b", "b")], vec![("out", "nand")], "Nand"),
            (
                vec![("a", "nand"), ("b", "nand")],
                vec![("out", "out")],
                "Nand",
            ),
        ],
    );

    let circuit_from_def = Circuit::new(def, lut_map).unwrap();

    let mut circuit = Circuit::blank("And".to_string());

    let a = circuit.add_node(Node::In(InOut::new("a"))).unwrap();
    let b = circuit.add_node(Node::In(InOut::new("b"))).unwrap();
    let out = circuit.add_node(Node::Out(InOut::new("out"))).unwrap();
    let nand = circuit.add_node(Node::Lut(lut.clone())).unwrap();
    let not = circuit.add_node(Node::Lut(lut.clone())).unwrap();

    circuit
        .add_connection(a, nand, Connection::new(0, 0, 1))
        .unwrap();
    circuit
        .add_connection(b, nand, Connection::new(0, 1, 1))
        .unwrap();
    circuit
        .add_connection(nand, not, Connection::new(0, 0, 1))
        .unwrap();
    circuit
        .add_connection(nand, not, Connection::new(0, 1, 1))
        .unwrap();
    circuit
        .add_connection(not, out, Connection::new(0, 0, 1))
        .unwrap();

    assert_eq!(circuit.tick(), Ok(()));
    assert_eq!(circuit.get("out"), Ok(false));
    assert_eq!(circuit.set("a", true), Ok(()));
    assert_eq!(circuit.tick(), Ok(()));
    assert_eq!(circuit.get("out"), Ok(false));
    assert_eq!(circuit.set("b", true), Ok(()));
    assert_eq!(circuit.tick(), Ok(()));
    assert_eq!(circuit.get("out"), Ok(true));
    assert_eq!(circuit.set("a", false), Ok(()));
    assert_eq!(circuit.tick(), Ok(()));
    assert_eq!(circuit.get("out"), Ok(false));

    assert_eq!(circuit.is_dag(), true);

    assert_eq!(circuit.edge_list(), circuit_from_def.edge_list());
}

#[test]
fn compile_reports_each_error() {
    let nand = LookupTable::new(
        vec![vec![true, true, true, false]],
        vec!["a", "b"],
        vec!["out"],
        "Nand",
    )
    .unwrap();

    let unknown = ChipDef::new(
        "Bad",
        vec!["x"],
        vec!["y"],
        vec![(vec![("a", "x")], vec![("out", "y")], "Missing")],
    );
    assert_eq!(
        Circuit::new(unknown, vec![nand.clone()]).unwrap_err(),
        Error::UnknownDevice
    );

    let arity = ChipDef::new(
        "Bad",
        vec!["x"],
        vec!["y"],
        vec![(vec![("a", "x")], vec![("out", "y")], "Nand")],
    );
    assert_eq!(
        Circuit::new(arity, vec![nand.clone()]).unwrap_err(),
        Error::ArityMismatch
    );

    let bad_in_port = ChipDef::new(
        "Bad",
        vec!["x"],
        vec!["y"],
        vec![(vec![("a", "x"), ("c", "x")], vec![("out", "y")], "Nand")],
    );
    assert_eq!(
        Circuit::new(bad_in_port, vec![nand.clone()]).unwrap_err(),
        Error::PortNotFound
    );

    let bad_out_port = ChipDef::new(
        "Bad",
        vec!["x"],
        vec!["y"],
        vec![(vec![("a", "x"), ("b", "x")], vec![("wrong", "y")], "Nand")],
    );
    assert_eq!(
        Circuit::new(bad_out_port, vec![nand]).unwrap_err(),
        Error::PortNotFound
    );
}

#[test]
fn access_checks_direction_and_names() {
    let not = LookupTable::new(vec![vec![true, false]], vec!["in"], vec!["out"], "not").unwrap();
    let mut c = Circuit::blank("probe".to_string());
    let in_id = c.add_node(Node::In(InOut::new("input"))).unwrap();
    let out_id = c.add_node(Node::Out(InOut::new("output"))).unwrap();
    let lut_id = c.add_node(Node::Lut(not)).unwrap();

    assert_eq!(c.get("nope"), Err(Error::PortNotFound));
    assert_eq!(c.set("nope", true), Err(Error::PortNotFound));
    assert_eq!(c.get_id(in_id), Err(Error::WrongDirection));
    assert_eq!(c.set_id(out_id, true), Err(Error::WrongDirection));

    // A wire into an input terminal, or out of an output terminal,
    // points against the flow of the circuit.
    assert_eq!(
        c.add_connection(lut_id, in_id, Connection::new(0, 0, 1)),
        Err(Error::WrongDirection)
    );
    assert_eq!(
        c.add_connection(out_id, lut_id, Connection::new(0, 0, 1)),
        Err(Error::WrongDirection)
    );
    // An output terminal has exactly one input port.
    assert_eq!(
        c.add_connection(lut_id, out_id, Connection::new(0, 1, 1)),
        Err(Error::WrongDirection)
    );
    // Port indices must fit the endpoints' arities.
    assert_eq!(
        c.add_connection(in_id, lut_id, Connection::new(1, 0, 1)),
        Err(Error::PortNotFound)
    );
    assert_eq!(
        c.add_connection(in_id, lut_id, Connection::new(0, 1, 1)),
        Err(Error::PortNotFound)
    );
    // An unknown node id never wires.
    assert_eq!(
        c.add_connection(in_id, 99, Connection::new(0, 0, 1)),
        Err(Error::PortNotFound)
    );
}

#[test]
fn replay_is_deterministic() {
    let build = || {
        let nand = LookupTable::new(
            vec![vec![true, true, true, false]],
            vec!["a", "b"],
            vec!["out"],
            "Nand",
        )
        .unwrap();
        let def = ChipDef::new(
            "Nand",
            vec!["a", "b"],
            vec!["out"],
            vec![(vec![("a", "a"), ("b", "b")], vec![("out", "out")], "Nand")],
        );
        Circuit::new(def, vec![nand]).unwrap()
    };
    let mut first = build();
    let mut second = build();
    let drive = [("a", true), ("b", false), ("b", true), ("a", false)];
    for (name, value) in drive {
        first.set(name, value).unwrap();
        second.set(name, value).unwrap();
        first.tick().unwrap();
        second.tick().unwrap();
        assert_eq!(first.get("out"), second.get("out"));
    }
}

#[test]
fn port_order_is_declaration_order() {
    let nand = LookupTable::new(
        vec![vec![true, true, true, false]],
        vec!["a", "b"],
        vec!["out"],
        "Nand",
    )
    .unwrap();
    let def = ChipDef::new(
        "Probe",
        vec!["b", "a"],
        vec!["out", "spare"],
        vec![(vec![("a", "a"), ("b", "b")], vec![("out", "out")], "Nand")],
    );
    let circuit = Circuit::new(def, vec![nand]).unwrap();
    assert_eq!(circuit.in_names(), vec!["b".to_string(), "a".to_string()]);
    assert_eq!(
        circuit.out_names(),
        vec!["out".to_string(), "spare".to_string()]
    );
    assert_eq!(circuit.name(), "Probe".to_string());
}
