use modbus_registers::json::{JsonDocument, JsonMember, JsonValue};
use modbus_registers::network::{IpAddress, Network};
use modbus_registers::register_manager::{RegisterError, RegisterManager, RegisterType};
use modbus_registers::service::{ExceptionCode, ModbusService, Request, Response};
use modbus_registers::validation::parse_whitelist;
use modbus_registers::words::AsWords;

fn object(members: &[(&str, i128)]) -> JsonDocument {
    JsonDocument::Object(
        members.iter().map(|(k, v)| JsonMember::new(k, JsonValue::Integer(*v))).collect(),
    )
}

fn v4(a: u8, b: u8, c: u8, d: u8) -> IpAddress {
    IpAddress::V4(u32::from_be_bytes([a, b, c, d]))
}

#[test]
pub fn read_register_test() {
    let json = object(&[("40007/Q", 42)]);

    let mut register_manager = RegisterManager::from_json(json).unwrap();
    let service = ModbusService::new(v4(0, 0, 0, 0), None, None);

    let value: u64 = 42;
    let value_arr = value.as_words();

    service
        .call(&mut register_manager, Request::WriteMultipleRegisters(40007, value_arr.clone()))
        .unwrap();

    let received = register_manager.read_register(RegisterType::HoldingRegisters, 40007, 4).unwrap();

    assert_eq!(value_arr, received);
}

#[test]
fn load_then_read() {
    let mut store = RegisterManager::from_json(object(&[("1", 1), ("100", 1), ("40001/Q", 42)])).unwrap();
    let service = ModbusService::new(v4(127, 0, 0, 1), None, None);
    assert_eq!(service.call(&mut store, Request::ReadCoils(1, 1)), Ok(Response::ReadCoils(vec![true])));
    assert_eq!(
        service.call(&mut store, Request::ReadHoldingRegisters(40001, 4)),
        Ok(Response::ReadHoldingRegisters(vec![0, 0, 0, 42]))
    );
}

#[test]
fn write_then_read_within_frame() {
    let mut store = RegisterManager::from_json(object(&[("40007/Q", 0)])).unwrap();
    let service = ModbusService::new(v4(127, 0, 0, 1), None, None);
    assert_eq!(
        service.call(&mut store, Request::WriteMultipleRegisters(40007, vec![0, 0, 0, 42])),
        Ok(Response::WriteMultipleRegisters(40007, 4))
    );
    assert_eq!(
        service.call(&mut store, Request::ReadHoldingRegisters(40007, 4)),
        Ok(Response::ReadHoldingRegisters(vec![0, 0, 0, 42]))
    );
}

#[test]
fn acl_denial() {
    let writers = vec![Network::V4 { addr: u32::from_be_bytes([10, 0, 0, 0]), prefix: 8 }];
    let mut store = RegisterManager::from_json(object(&[("40001", 5)])).unwrap();
    let outsider = ModbusService::new(v4(192, 0, 2, 1), None, Some(writers.clone()));
    assert_eq!(
        outsider.call(&mut store, Request::WriteSingleRegister(40001, 9)),
        Err(ExceptionCode::IllegalDataValue)
    );
    assert_eq!(
        outsider.call(&mut store, Request::ReadHoldingRegisters(40001, 1)),
        Ok(Response::ReadHoldingRegisters(vec![5]))
    );
    assert_eq!(outsider.call(&mut store, Request::WriteSingleCoil(1, true)), Err(ExceptionCode::IllegalDataValue));
    assert_eq!(
        outsider.call(&mut store, Request::WriteMultipleRegisters(40001, vec![1])),
        Err(ExceptionCode::IllegalDataValue)
    );
    let insider = ModbusService::new(v4(10, 9, 8, 7), None, Some(writers));
    assert_eq!(
        insider.call(&mut store, Request::WriteSingleRegister(40001, 9)),
        Ok(Response::WriteSingleRegister(40001, 1))
    );
    assert_eq!(store.read_register(RegisterType::HoldingRegisters, 40001, 1).unwrap(), vec![9]);
}

#[test]
fn lists_from_entries_gate_by_operation() {
    let (read, write) = parse_whitelist(vec!["10.0.0.0/8:r".to_string()]).unwrap();
    assert!(write.is_none());
    let mut store = RegisterManager::from_json(object(&[("40001", 5), ("1", 0)])).unwrap();
    let local = ModbusService::new(v4(127, 0, 0, 1), read.clone(), write.clone());
    assert_eq!(
        local.call(&mut store, Request::ReadHoldingRegisters(40001, 1)),
        Err(ExceptionCode::IllegalDataValue)
    );
    assert_eq!(
        local.call(&mut store, Request::WriteSingleRegister(40001, 6)),
        Ok(Response::WriteSingleRegister(40001, 1))
    );
    let (read, write) = parse_whitelist(vec!["10.0.0.0/8:w".to_string()]).unwrap();
    assert!(read.is_none());
    let local = ModbusService::new(v4(127, 0, 0, 1), read, write);
    assert_eq!(
        local.call(&mut store, Request::WriteSingleRegister(40001, 7)),
        Err(ExceptionCode::IllegalDataValue)
    );
    assert_eq!(
        local.call(&mut store, Request::ReadHoldingRegisters(40001, 1)),
        Ok(Response::ReadHoldingRegisters(vec![6]))
    );
    assert_eq!(local.call(&mut store, Request::ReadCoils(1, 1)), Ok(Response::ReadCoils(vec![false])));
}

#[test]
fn read_list_gates_reads() {
    let readers = vec![Network::V4 { addr: u32::from_be_bytes([10, 0, 0, 0]), prefix: 8 }];
    let mut store = RegisterManager::from_json(object(&[("1", 1), ("10001", 1), ("30001", 3), ("40001", 4)])).unwrap();
    let outsider = ModbusService::new(v4(11, 0, 0, 1), Some(readers.clone()), None);
    for request in [
        Request::ReadCoils(1, 1),
        Request::ReadDiscreteInputs(10001, 1),
        Request::ReadInputRegisters(30001, 1),
        Request::ReadHoldingRegisters(40001, 1),
    ] {
        assert_eq!(outsider.call(&mut store, request), Err(ExceptionCode::IllegalDataValue));
    }
    assert_eq!(outsider.call(&mut store, Request::WriteSingleCoil(1, false)), Ok(Response::WriteSingleCoil(1, false)));
    let insider = ModbusService::new(v4(10, 255, 0, 1), Some(readers), None);
    assert_eq!(insider.call(&mut store, Request::ReadCoils(1, 1)), Ok(Response::ReadCoils(vec![false])));
    assert_eq!(insider.call(&mut store, Request::ReadDiscreteInputs(10001, 1)), Ok(Response::ReadDiscreteInputs(vec![true])));
    assert_eq!(insider.call(&mut store, Request::ReadInputRegisters(30001, 1)), Ok(Response::ReadInputRegisters(vec![3])));
}

#[test]
fn illegal_function() {
    let mut store = RegisterManager::from_json(object(&[("40001", 5)])).unwrap();
    let open = ModbusService::new(v4(127, 0, 0, 1), None, None);
    for code in [0u8, 0x0F, 0x11, 0x16, 0x17, 0x2B, 0xFF] {
        assert_eq!(open.call(&mut store, Request::Other(code)), Err(ExceptionCode::IllegalFunction));
    }
    let nobody = vec![Network::V4 { addr: u32::from_be_bytes([10, 0, 0, 0]), prefix: 32 }];
    let closed = ModbusService::new(v4(127, 0, 0, 1), Some(nobody.clone()), Some(nobody));
    assert_eq!(closed.call(&mut store, Request::Other(0x0F)), Err(ExceptionCode::IllegalFunction));
}

#[test]
fn coil_bits_are_words_equal_to_one() {
    let mut store = RegisterManager::from_json(object(&[("1", 1), ("2", 0), ("3", 1), ("10001", 0), ("10002", 1)])).unwrap();
    let service = ModbusService::new(v4(127, 0, 0, 1), None, None);
    assert_eq!(service.call(&mut store, Request::ReadCoils(1, 3)), Ok(Response::ReadCoils(vec![true, false, true])));
    assert_eq!(
        service.call(&mut store, Request::ReadDiscreteInputs(10001, 2)),
        Ok(Response::ReadDiscreteInputs(vec![false, true]))
    );
    store.write_register(RegisterType::Coils, 2, &[2]).unwrap();
    assert_eq!(service.call(&mut store, Request::ReadCoils(1, 3)), Ok(Response::ReadCoils(vec![true, false, true])));
    assert_eq!(service.call(&mut store, Request::WriteSingleCoil(2, true)), Ok(Response::WriteSingleCoil(2, true)));
    assert_eq!(service.call(&mut store, Request::ReadCoils(2, 1)), Ok(Response::ReadCoils(vec![true])));
    assert_eq!(store.read_register(RegisterType::Coils, 2, 1).unwrap(), vec![1]);
}

#[test]
fn missing_addresses_are_illegal_data_addresses() {
    let mut store = RegisterManager::from_json(object(&[("40001", 5)])).unwrap();
    let service = ModbusService::new(v4(127, 0, 0, 1), None, None);
    assert_eq!(service.call(&mut store, Request::ReadHoldingRegisters(40001, 2)), Err(ExceptionCode::IllegalDataAddress));
    assert_eq!(service.call(&mut store, Request::ReadHoldingRegisters(1, 1)), Err(ExceptionCode::IllegalDataAddress));
    assert_eq!(service.call(&mut store, Request::ReadCoils(1, 1)), Err(ExceptionCode::IllegalDataAddress));
    assert_eq!(service.call(&mut store, Request::ReadInputRegisters(30001, 1)), Err(ExceptionCode::IllegalDataAddress));
    assert_eq!(service.call(&mut store, Request::WriteSingleRegister(40002, 1)), Err(ExceptionCode::IllegalDataAddress));
    assert_eq!(service.call(&mut store, Request::WriteSingleCoil(1, true)), Err(ExceptionCode::IllegalDataAddress));
    assert_eq!(
        service.call(&mut store, Request::WriteMultipleRegisters(40001, vec![1, 2])),
        Err(ExceptionCode::IllegalDataAddress)
    );
    assert_eq!(store.read_register(RegisterType::HoldingRegisters, 40001, 1).unwrap(), vec![1]);
}

#[test]
fn exception_of_a_register_error() {
    assert_eq!(ExceptionCode::from(RegisterError::OutOfBounds), ExceptionCode::IllegalDataAddress);
    assert_eq!(ExceptionCode::from(RegisterError::FileWriteError), ExceptionCode::ServerDeviceFailure);
}

#[test]
fn written_text_reads_back_as_the_store() {
    let mut store = RegisterManager::from_json(object(&[("1", 1), ("10001", 0), ("30001/h", -3), ("40007/Q", 0)])).unwrap();
    let service = ModbusService::new(v4(127, 0, 0, 1), None, None);
    service.call(&mut store, Request::WriteMultipleRegisters(40007, vec![0, 0, 1, 42])).unwrap();
    service.call(&mut store, Request::WriteSingleCoil(1, false)).unwrap();
    let text = modbus_registers::json::encode(&store.document().unwrap()).unwrap();
    let loaded = RegisterManager::from_loaded(modbus_registers::json::decode(&text)).unwrap();
    assert_eq!(loaded.snapshot(), store.snapshot());
    assert_eq!(loaded.read_register(RegisterType::HoldingRegisters, 40007, 4).unwrap(), vec![0, 0, 1, 42]);
    assert_eq!(text, "{\n  \"1\": 0,\n  \"10001\": 0,\n  \"30001/h\": -3,\n  \"40007/Q\": 65578\n}");
}
