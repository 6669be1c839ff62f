use circuitsim::device::constant::Constant;
use circuitsim::device::debugger::Debugger;
use circuitsim::device::memory::Memory;
use circuitsim::device::sequencer::Sequencer;
use circuitsim::device::Device;
use circuitsim::device::{PortIdentifier, PortValue};

#[test]
fn constant_can_be_instantiated() {
    _ = Constant::new("qq".to_owned(), 0);
}

#[test]
fn constant_outputs_value_on_given_port() {
    let port: PortIdentifier = "qq".to_owned();
    let value: PortValue = 1;
    let debugger = Constant::new(port.clone(), value);

    let result = debugger.get_port_value(&port);

    assert!(result.is_ok());
    let result = result.unwrap();
    assert_eq!(result, Some(value));
}

#[test]
fn constant_always_outputs_provided_value() {
    let port: PortIdentifier = "qq".to_owned();
    let value: PortValue = 1;
    let mut debugger = Constant::new(port.clone(), value);

    for _ in 0..3 {
        let val = debugger.get_port_value(&port).unwrap();
        assert_eq!(val, Some(value));
        let _ = debugger.tick().unwrap();
    }
}

#[test]
fn sequencer_debugger_cannot_be_instantiated_if_no_values_given() {
    let result = Sequencer::new("qq".to_owned(), &vec![]);
    assert!(result.is_err());
}

#[test]
fn sequencer_debugger_can_be_instantiated() {
    let result = Sequencer::new("qq".to_owned(), &vec![0]);
    assert!(result.is_ok());
}

#[test]
fn sequencer_debugger_outputs_values_on_given_port() {
    let port: PortIdentifier = "qq".to_owned();
    let value: PortValue = 1;
    let debugger = Sequencer::new(port.clone(), &vec![value]).unwrap();

    let result = debugger.get_port_value(&port);

    assert!(result.is_ok());
    let result = result.unwrap();
    assert_eq!(result, Some(value));
}

#[test]
fn sequencer_debugger_outputs_provided_values_in_order() {
    let port: PortIdentifier = "qq".to_owned();
    let values: Vec<PortValue> = vec![1, 2, 3];
    let mut debugger = Sequencer::new(port.clone(), &values).unwrap();

    for idx in 0..3 {
        let value = debugger.get_port_value(&port).unwrap();
        assert_eq!(value, Some(values[idx]));
        let _ = debugger.tick().unwrap();
    }
}

#[test]
fn sequencer_debugger_loops_when_end_of_values_reached() {
    let port: PortIdentifier = "qq".to_owned();
    let values: Vec<PortValue> = vec![1, 2, 3];
    let mut debugger = Sequencer::new(port.clone(), &values).unwrap();

    let expected: Vec<PortValue> = vec![1, 2, 3, 1, 2, 3, 1, 2, 3];
    for idx in 0..9 {
        let value = debugger.get_port_value(&port).unwrap();
        assert_eq!(value, Some(expected[idx]));
        let _ = debugger.tick().unwrap();
    }
}

#[test]
fn debugger_debugger_cannot_be_instantiated_if_no_values_given() {
    let result = Debugger::new("qq".to_owned(), &vec![]);
    assert!(result.is_err());
}

#[test]
fn debugger_debugger_can_be_instantiated() {
    let result = Debugger::new("qq".to_owned(), &vec![0]);
    assert!(result.is_ok());
}

#[test]
fn debugger_debugger_outputs_values_on_given_port() {
    let port: PortIdentifier = "qq".to_owned();
    let value: PortValue = 1;
    let debugger = Debugger::new(port.clone(), &vec![value]).unwrap();

    let result = debugger.get_port_value(&port);

    assert!(result.is_ok());
    let result = result.unwrap();
    assert_eq!(result, Some(value));
}

#[test]
fn debugger_debugger_outputs_provided_values_in_order() {
    let port: PortIdentifier = "qq".to_owned();
    let values: Vec<PortValue> = vec![1, 2, 3];
    let mut debugger = Debugger::new(port.clone(), &values).unwrap();

    for idx in 0..3 {
        let value = debugger.get_port_value(&port).unwrap();
        assert_eq!(value, Some(values[idx]));
        let _ = debugger.tick().unwrap();
    }
}

#[test]
fn debugger_debugger_loops_when_end_of_values_reached() {
    let port: PortIdentifier = "qq".to_owned();
    let values: Vec<PortValue> = vec![1, 2, 3];
    let mut debugger = Debugger::new(port.clone(), &values).unwrap();

    let expected: Vec<PortValue> = vec![1, 2, 3, 1, 2, 3, 1, 2, 3];
    for idx in 0..9 {
        let value = debugger.get_port_value(&port).unwrap();
        assert_eq!(value, Some(expected[idx]));
        let _ = debugger.tick().unwrap();
    }
}

#[test]
fn memory_can_be_instantiated() {
    let _ = Memory::new();
}

#[test]
fn memory_cannot_have_unknown_ports_specified() {
    let mut memory = Memory::new();
    let mut ports: Vec<(PortIdentifier, PortValue)> = Vec::new();
    ports.push(("qq".to_owned(), 0));
    let result = memory.provide_port_values(ports);
    assert!(result.is_err());
}

#[test]
fn memory_cannot_have_output_ports_specified() {
    let mut memory = Memory::new();
    let mut ports: Vec<(PortIdentifier, PortValue)> = Vec::new();
    ports.push(("rv".to_owned(), 0));
    let result = memory.provide_port_values(ports);
    assert!(result.is_err());
}

#[test]
fn memory_cannot_have_ports_specified_twice() {
    let mut memory = Memory::new();
    let mut ports: Vec<(PortIdentifier, PortValue)> = Vec::new();
    ports.push(("ra".to_owned(), 0));

    // First time
    let result = memory.provide_port_values(ports.to_owned());
    assert!(result.is_ok());

    // Second time
    let result = memory.provide_port_values(ports);
    assert!(result.is_err());
}

#[test]
fn memory_does_not_resolve_if_write_enable_not_given() {
    let mut memory = Memory::new();
    let result = memory.tick();
    assert!(result.is_err());
}

#[test]
fn memory_resolves_if_write_enable_is_zero_and_other_write_ports_not_given() {
    let mut memory = Memory::new();
    let mut ports: Vec<(PortIdentifier, PortValue)> = Vec::new();
    ports.push(("we".to_owned(), 0));
    let _ = memory.provide_port_values(ports).unwrap();
    let result = memory.tick();
    assert!(result.is_ok());
}

#[test]
fn memory_does_not_resolve_if_write_enable_is_nonzero_and_other_write_ports_not_given() {
    let mut memory = Memory::new();
    let mut ports: Vec<(PortIdentifier, PortValue)> = Vec::new();
    ports.push(("we".to_owned(), 1));
    let _ = memory.provide_port_values(ports).unwrap();
    let result = memory.tick();
    assert!(result.is_err());
}

#[test]
fn memory_can_be_written_to() {
    let address: PortValue = 2;
    let value: PortValue = 3;
    let mut memory = Memory::new();
    let mut ports: Vec<(PortIdentifier, PortValue)> = Vec::new();
    ports.push(("we".to_owned(), 1));
    ports.push(("wa".to_owned(), address));
    ports.push(("wv".to_owned(), value));

    let _ = memory.provide_port_values(ports).unwrap();
    let result = memory.tick();
    assert!(result.is_ok());
    assert_eq!(memory.data.get(&address).unwrap(), &value);
}

#[test]
fn memory_can_be_read() {
    let address: PortValue = 2;
    let value: PortValue = 3;
    let mut memory = Memory::new();
    memory.data.insert(address, value);
    let mut ports: Vec<(PortIdentifier, PortValue)> = Vec::new();
    ports.push(("ra".to_owned(), address));

    memory.provide_port_values(ports).unwrap();
    let result = memory.get_port_value(&"rv".to_owned());
    assert!(result.is_ok());
    let result = result.unwrap();
    assert!(result.is_some());
    assert_eq!(result.unwrap(), value);
}
