use circuitsim::controller::{Controller, ControllerError};
use circuitsim::device::constant::Constant;
use circuitsim::device::instance::DeviceInstance;
use circuitsim::device::memory::Memory;
use circuitsim::device::sequencer::Sequencer;
use circuitsim::device::{Device, DeviceError, PortIdentifier, PortValue};

fn wired_memory_circuit(read_address: PortValue, write_enable: PortValue) -> Controller {
    let mut controller = Controller::new();
    _ = controller.add_device("Memory".to_owned(), DeviceInstance::Memory(Memory::new()));
    _ = controller.add_device(
        "RA constant".to_owned(),
        DeviceInstance::Constant(Constant::new("qq".to_owned(), read_address)),
    );
    _ = controller.add_device(
        "WE constant".to_owned(),
        DeviceInstance::Constant(Constant::new("qq".to_owned(), write_enable)),
    );
    _ = controller.add_device(
        "WA constant".to_owned(),
        DeviceInstance::Constant(Constant::new("qq".to_owned(), 0)),
    );
    _ = controller.add_device(
        "WV constant".to_owned(),
        DeviceInstance::Constant(Constant::new("qq".to_owned(), 5)),
    );
    controller.add_connection(
        &"RA constant".to_owned(), &"qq".to_owned(),
        &"Memory".to_owned(), &"ra".to_owned(),
    ).unwrap();
    controller.add_connection(
        &"WE constant".to_owned(), &"qq".to_owned(),
        &"Memory".to_owned(), &"we".to_owned(),
    ).unwrap();
    controller.add_connection(
        &"WA constant".to_owned(), &"qq".to_owned(),
        &"Memory".to_owned(), &"wa".to_owned(),
    ).unwrap();
    controller.add_connection(
        &"WV constant".to_owned(), &"qq".to_owned(),
        &"Memory".to_owned(), &"wv".to_owned(),
    ).unwrap();
    controller
}

#[test]
fn unknown_port_is_reported_as_such() {
    let constant = Constant::new("qq".to_owned(), 1);
    assert_eq!(constant.get_port_value(&"zz".to_owned()), Err(DeviceError::UnknownPort));
}

#[test]
fn reading_an_input_port_is_a_kind_mismatch() {
    let memory = Memory::new();
    assert_eq!(memory.get_port_value(&"ra".to_owned()), Err(DeviceError::PortKindMismatch));
}

#[test]
fn feeding_an_output_port_is_a_kind_mismatch() {
    let mut memory = Memory::new();
    assert_eq!(
        memory.provide_port_value("rv".to_owned(), 0),
        Err(DeviceError::PortKindMismatch)
    );
}

#[test]
fn feeding_a_port_twice_is_already_supplied() {
    let mut memory = Memory::new();
    assert_eq!(memory.provide_port_value("ra".to_owned(), 1), Ok(()));
    assert_eq!(
        memory.provide_port_value("ra".to_owned(), 2),
        Err(DeviceError::AlreadySupplied)
    );
}

#[test]
fn ticking_without_write_enable_is_insufficient_inputs() {
    let mut memory = Memory::new();
    assert_eq!(memory.tick(), Err(DeviceError::InsufficientInputs));
}

#[test]
fn duplicate_feed_leaves_recorded_value_untouched() {
    let mut memory = Memory::new();
    memory.data.insert(1, 7);
    memory.data.insert(2, 9);
    memory.provide_port_value("ra".to_owned(), 1).unwrap();
    assert_eq!(memory.get_port_value(&"rv".to_owned()), Ok(Some(7)));
    // A second feed for the same port fails and must not move the read address.
    assert_eq!(
        memory.provide_port_value("ra".to_owned(), 2),
        Err(DeviceError::AlreadySupplied)
    );
    assert_eq!(memory.get_port_value(&"rv".to_owned()), Ok(Some(7)));
}

#[test]
fn connecting_an_unknown_endpoint_is_reported() {
    let mut controller = Controller::new();
    _ = controller.add_device("Memory".to_owned(), DeviceInstance::Memory(Memory::new()));
    assert_eq!(
        controller.add_connection(
            &"Missing".to_owned(), &"qq".to_owned(),
            &"Memory".to_owned(), &"ra".to_owned(),
        ),
        Err(ControllerError::UnknownEndpoint)
    );
    assert_eq!(
        controller.add_connection(
            &"Memory".to_owned(), &"rv".to_owned(),
            &"Memory".to_owned(), &"zz".to_owned(),
        ),
        Err(ControllerError::UnknownEndpoint)
    );
}

#[test]
fn connecting_ports_the_wrong_way_round_is_reported() {
    let mut controller = Controller::new();
    _ = controller.add_device("Memory".to_owned(), DeviceInstance::Memory(Memory::new()));
    _ = controller.add_device(
        "Constant".to_owned(),
        DeviceInstance::Constant(Constant::new("qq".to_owned(), 1)),
    );
    // From an input port rather than an output port.
    assert_eq!(
        controller.add_connection(
            &"Memory".to_owned(), &"ra".to_owned(),
            &"Memory".to_owned(), &"we".to_owned(),
        ),
        Err(ControllerError::PortDirection)
    );
    // Into an output port rather than an input port.
    assert_eq!(
        controller.add_connection(
            &"Constant".to_owned(), &"qq".to_owned(),
            &"Memory".to_owned(), &"rv".to_owned(),
        ),
        Err(ControllerError::PortDirection)
    );
}

#[test]
fn wiring_an_input_twice_is_reported() {
    let mut controller = Controller::new();
    _ = controller.add_device("Memory".to_owned(), DeviceInstance::Memory(Memory::new()));
    _ = controller.add_device(
        "A".to_owned(),
        DeviceInstance::Constant(Constant::new("qq".to_owned(), 1)),
    );
    _ = controller.add_device(
        "B".to_owned(),
        DeviceInstance::Constant(Constant::new("qq".to_owned(), 2)),
    );
    controller.add_connection(
        &"A".to_owned(), &"qq".to_owned(),
        &"Memory".to_owned(), &"ra".to_owned(),
    ).unwrap();
    assert_eq!(
        controller.add_connection(
            &"B".to_owned(), &"qq".to_owned(),
            &"Memory".to_owned(), &"ra".to_owned(),
        ),
        Err(ControllerError::DuplicateWire)
    );
}

#[test]
fn registering_a_duplicate_identifier_is_reported() {
    let mut controller = Controller::new();
    assert!(controller.add_device(
        "Memory".to_owned(),
        DeviceInstance::Memory(Memory::new())
    ).is_ok());
    assert_eq!(
        controller.add_device("Memory".to_owned(), DeviceInstance::Memory(Memory::new())),
        Err(ControllerError::DuplicateDevice)
    );
}

#[test]
fn wire_that_closes_a_loop_is_reported_and_changes_nothing() {
    let mut controller = wired_memory_circuit(0, 0);
    // Route a loop attempt through two devices: each memory's read value
    // depends on its read address, so the second wire would close a cycle.
    let mut looped = Controller::new();
    _ = looped.add_device("M1".to_owned(), DeviceInstance::Memory(Memory::new()));
    _ = looped.add_device("M2".to_owned(), DeviceInstance::Memory(Memory::new()));
    looped.add_connection(
        &"M1".to_owned(), &"rv".to_owned(),
        &"M2".to_owned(), &"ra".to_owned(),
    ).unwrap();
    assert_eq!(
        looped.add_connection(
            &"M2".to_owned(), &"rv".to_owned(),
            &"M1".to_owned(), &"ra".to_owned(),
        ),
        Err(ControllerError::WouldCreateCycle)
    );
    // The rejected wire left the working circuit untouched: a tick still
    // resolves every port.
    let result = controller.tick().unwrap();
    assert_eq!(result.len(), 9);
}

#[test]
fn ticking_with_an_unwired_input_is_reported() {
    let mut controller = Controller::new();
    _ = controller.add_device("Memory".to_owned(), DeviceInstance::Memory(Memory::new()));
    match controller.tick() {
        Err(e) => assert_eq!(e, ControllerError::UnresolvedInput),
        Ok(_) => panic!("tick must fail with an unwired input"),
    }
}

#[test]
fn registration_creates_one_node_per_declared_port() {
    // One memory (five ports) and four constants (one port each): the tick
    // reports exactly nine resolved ports.
    let mut controller = wired_memory_circuit(0, 0);
    let result = controller.tick().unwrap();
    assert_eq!(result.len(), 9);
    assert!(result.contains_key(&("Memory".to_owned(), "ra".to_owned())));
    assert!(result.contains_key(&("Memory".to_owned(), "rv".to_owned())));
    assert!(result.contains_key(&("RA constant".to_owned(), "qq".to_owned())));
}

#[test]
fn values_flow_along_wires() {
    let mut controller = wired_memory_circuit(3, 0);
    let result = controller.tick().unwrap();
    // The read address arrives at the memory exactly as the constant put it
    // on the wire.
    assert_eq!(result.get(&("Memory".to_owned(), "ra".to_owned())), Some(3));
    assert_eq!(result.get(&("RA constant".to_owned(), "qq".to_owned())), Some(3));
    // Nothing was ever written, so the read value is zero.
    assert_eq!(result.get(&("Memory".to_owned(), "rv".to_owned())), Some(0));
}

#[test]
fn sequencer_drives_a_circuit_cyclically() {
    let mut controller = Controller::new();
    let sequencer = Sequencer::new("qq".to_owned(), &vec![1, 2, 3]).unwrap();
    _ = controller.add_device("Seq".to_owned(), DeviceInstance::Sequencer(sequencer));
    let expected: Vec<PortValue> = vec![1, 2, 3, 1, 2, 3, 1, 2, 3];
    for idx in 0..9 {
        let result = controller.tick().unwrap();
        assert_eq!(result.get(&("Seq".to_owned(), "qq".to_owned())), Some(expected[idx]));
    }
}

#[test]
fn stale_values_from_a_failed_tick_are_rejected() {
    let mut controller = wired_memory_circuit(0, 1);
    // A second memory registered last, with all inputs unwired: the walk
    // feeds the first memory before it reaches the unwired input and fails.
    _ = controller.add_device("Broken".to_owned(), DeviceInstance::Memory(Memory::new()));
    match controller.tick() {
        Err(e) => assert_eq!(e, ControllerError::UnresolvedInput),
        Ok(_) => panic!("tick must fail with an unwired input"),
    }
    // The first memory kept the values it was fed, so a naive retry fails
    // on the very first already-fed input.
    match controller.tick() {
        Err(e) => assert_eq!(e, ControllerError::ValueRejected),
        Ok(_) => panic!("tick must fail on stale per-tick state"),
    }
}

#[test]
fn write_then_read_round_trip() {
    let mut controller = wired_memory_circuit(0, 1);
    // Writes 5 to address 0 on the first tick, reads it back on the second.
    let first = controller.tick().unwrap();
    assert_eq!(first.get(&("Memory".to_owned(), "rv".to_owned())), Some(0));
    let second = controller.tick().unwrap();
    assert_eq!(second.get(&("Memory".to_owned(), "rv".to_owned())), Some(5));
}

#[test]
fn ports_of_a_port_identifier_type() {
    let port: PortIdentifier = "qq".to_owned();
    let constant = Constant::new(port.clone(), 4);
    assert_eq!(constant.get_port_value(&port), Ok(Some(4)));
}
