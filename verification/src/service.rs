//! The request dispatcher: which peers may read and write, and what each
//! Modbus request does to the store.

use vstd::prelude::*;
use crate::network::{listed, IpAddress, Network};
use crate::register_manager::{
    lemma_written_words, read_outcome, write_fits, written_table, RegisterError, RegisterManager,
    RegisterType,
};

verus! {

/// A decoded Modbus request.
#[derive(Clone, Debug, PartialEq, Eq)]
pub enum Request {
    ReadCoils(u16, u16),
    ReadDiscreteInputs(u16, u16),
    WriteSingleCoil(u16, bool),
    ReadInputRegisters(u16, u16),
    ReadHoldingRegisters(u16, u16),
    WriteSingleRegister(u16, u16),
    WriteMultipleRegisters(u16, Vec<u16>),
    /// A request with another function code.
    Other(u8),
}

/// The answer to a request that was served.
#[derive(Clone, Debug, PartialEq, Eq)]
pub enum Response {
    ReadCoils(Vec<bool>),
    ReadDiscreteInputs(Vec<bool>),
    WriteSingleCoil(u16, bool),
    ReadInputRegisters(Vec<u16>),
    ReadHoldingRegisters(Vec<u16>),
    WriteSingleRegister(u16, u16),
    WriteMultipleRegisters(u16, u16),
}

/// A response as a mathematical value.
pub enum Reply {
    ReadCoils(Seq<bool>),
    ReadDiscreteInputs(Seq<bool>),
    WriteSingleCoil(u16, bool),
    ReadInputRegisters(Seq<u16>),
    ReadHoldingRegisters(Seq<u16>),
    WriteSingleRegister(u16, u16),
    WriteMultipleRegisters(u16, u16),
}

impl View for Response {
    type V = Reply;

    open spec fn view(&self) -> Reply {
        match *self {
            Response::ReadCoils(bits) => Reply::ReadCoils(bits@),
            Response::ReadDiscreteInputs(bits) => Reply::ReadDiscreteInputs(bits@),
            Response::WriteSingleCoil(address, bit) => Reply::WriteSingleCoil(address, bit),
            Response::ReadInputRegisters(words) => Reply::ReadInputRegisters(words@),
            Response::ReadHoldingRegisters(words) => Reply::ReadHoldingRegisters(words@),
            Response::WriteSingleRegister(address, word) => Reply::WriteSingleRegister(address, word),
            Response::WriteMultipleRegisters(address, count) => Reply::WriteMultipleRegisters(
                address,
                count,
            ),
        }
    }
}

/// The Modbus exception that refuses a request.
#[derive(Clone, Copy, Debug, PartialEq, Eq, Structural)]
pub enum ExceptionCode {
    IllegalFunction,
    IllegalDataAddress,
    IllegalDataValue,
    ServerDeviceFailure,
}

impl From<RegisterError> for ExceptionCode {
    fn from(value: RegisterError) -> (out: Self) {
        match value {
            RegisterError::OutOfBounds => ExceptionCode::IllegalDataAddress,
            RegisterError::FileWriteError => ExceptionCode::ServerDeviceFailure,
        }
    }
}

impl vstd::std_specs::convert::FromSpecImpl<RegisterError> for ExceptionCode {
    open spec fn obeys_from_spec() -> bool {
        true
    }

    open spec fn from_spec(value: RegisterError) -> Self {
        match value {
            RegisterError::OutOfBounds => ExceptionCode::IllegalDataAddress,
            RegisterError::FileWriteError => ExceptionCode::ServerDeviceFailure,
        }
    }
}

/// Whether a whitelist lets `ip` pass: there is no list, or one of its
/// networks holds the address.
pub open spec fn permits(list: Option<Seq<Network>>, ip: IpAddress) -> bool {
    match list {
        None => true,
        Some(networks) => some_holds(networks, ip),
    }
}

/// Whether one of `networks` holds `ip`.
pub open spec fn some_holds(networks: Seq<Network>, ip: IpAddress) -> bool {
    exists|i: int| 0 <= i < networks.len() && #[trigger] networks[i].holds(ip)
}

/// The bit that each word stands for: set where the word is 1.
pub open spec fn bits_of(words: Seq<u16>) -> Seq<bool> {
    words.map_values(|w: u16| w == 1)
}

impl Request {
    /// Whether this request reads registers.
    pub open spec fn reads(self) -> bool {
        self is ReadCoils || self is ReadDiscreteInputs || self is ReadInputRegisters
            || self is ReadHoldingRegisters
    }

    /// Whether this request writes registers.
    pub open spec fn writes(self) -> bool {
        self is WriteSingleCoil || self is WriteSingleRegister || self is WriteMultipleRegisters
    }
}

/// The dispatcher of one connection: the peer's address and the two
/// whitelists. A list that is absent restricts nothing.
pub struct ModbusService {
    read_whitelist: Option<Vec<Network>>,
    write_whitelist: Option<Vec<Network>>,
    ip: IpAddress,
}

/// Whether one of `networks` holds `ip`.
fn any_contains(networks: &Vec<Network>, ip: IpAddress) -> (out: bool)
    ensures
        out == permits(Some(networks@), ip),
{
    let mut i: usize = 0;
    while i < networks.len()
        invariant
            i <= networks.len(),
            forall|k: int| 0 <= k < i ==> !#[trigger] networks@[k].holds(ip),
        decreases networks.len() - i,
    {
        if networks[i].contains(ip) {
            assert(networks@[i as int].holds(ip));
            return true;
        }
        i = i + 1;
    }
    false
}

/// The bit of each word: set where the word is 1.
fn words_to_bits(words: &Vec<u16>) -> (out: Vec<bool>)
    ensures
        out@ == bits_of(words@),
{
    let mut out: Vec<bool> = Vec::new();
    let mut i: usize = 0;
    while i < words.len()
        invariant
            i <= words.len(),
            out@.len() == i,
            forall|k: int| 0 <= k < i ==> out@[k] == (words@[k] == 1),
        decreases words.len() - i,
    {
        out.push(words[i] == 1);
        i = i + 1;
    }
    assert(out@ =~= bits_of(words@));
    out
}

impl ModbusService {
    /// The address of the peer.
    pub closed spec fn peer(&self) -> IpAddress {
        self.ip
    }

    /// The networks that may read, if reading is restricted.
    pub closed spec fn readers(&self) -> Option<Seq<Network>> {
        listed(self.read_whitelist)
    }

    /// The networks that may write, if writing is restricted.
    pub closed spec fn writers(&self) -> Option<Seq<Network>> {
        listed(self.write_whitelist)
    }

    /// Whether the whitelists refuse `request`: it writes and the peer is in
    /// no network of the write list, or it reads and the peer is in no network
    /// of the read list.
    pub open spec fn denies(&self, request: Request) -> bool {
        ||| request.writes() && !permits(self.writers(), self.peer())
        ||| request.reads() && !permits(self.readers(), self.peer())
    }

    /// The dispatcher for the peer at `ip`.
    pub fn new(
        ip: IpAddress,
        read_whitelist: Option<Vec<Network>>,
        write_whitelist: Option<Vec<Network>>,
    ) -> (out: Self)
        ensures
            out.peer() == ip,
            out.readers() == listed(read_whitelist),
            out.writers() == listed(write_whitelist),
    {
        ModbusService { read_whitelist, write_whitelist, ip }
    }

    /// Whether `list` lets the peer pass.
    fn allowed(&self, list: &Option<Vec<Network>>) -> (out: bool)
        ensures
            out == permits(listed(*list), self.peer()),
    {
        match list {
            None => true,
            Some(networks) => any_contains(networks, self.ip),
        }
    }

    /// Reads `cnt` words of class `class` from `addr` on.
    fn read(manager: &RegisterManager, class: RegisterType, addr: u16, cnt: u16) -> (out: Result<
        Vec<u16>,
        ExceptionCode,
    >)
        ensures
            match read_outcome(manager.table(class), class, addr, cnt) {
                Ok(words) => out matches Ok(read) && read@ == words,
                Err(_) => out == Err::<Vec<u16>, ExceptionCode>(ExceptionCode::IllegalDataAddress),
            },
    {
        match manager.read_register(class, addr, cnt) {
            Ok(words) => Ok(words),
            Err(error) => Err(ExceptionCode::from(error)),
        }
    }

    /// Serves one request against the store.
    ///
    /// A request that the whitelists refuse is answered with
    /// `IllegalDataValue` and changes nothing. A read answers with the words of
    /// its span, or with the bit of each word for coils and discrete inputs.
    /// A write stores its values as `RegisterManager::write_register` does. A
    /// span that the store does not hold is answered with
    /// `IllegalDataAddress`, any other function code with `IllegalFunction`.
    pub fn call(&self, manager: &mut RegisterManager, req: Request) -> (out: Result<
        Response,
        ExceptionCode,
    >)
        ensures
            final(manager).wf(),
            final(manager).keys() == old(manager).keys(),
            old(manager).bits_clean() ==> final(manager).bits_clean(),
            req is Other ==> out == Err::<Response, ExceptionCode>(ExceptionCode::IllegalFunction),
            self.denies(req) ==> out == Err::<Response, ExceptionCode>(
                ExceptionCode::IllegalDataValue,
            ) && *final(manager) == *old(manager),
            !self.denies(req) ==> match req {
                Request::ReadCoils(addr, cnt) => *final(manager) == *old(manager) && match read_outcome(
                    old(manager).table(RegisterType::Coils),
                    RegisterType::Coils,
                    addr,
                    cnt,
                ) {
                    Ok(words) => out matches Ok(response) && response@ == Reply::ReadCoils(
                        bits_of(words),
                    ),
                    Err(_) => out == Err::<Response, ExceptionCode>(
                        ExceptionCode::IllegalDataAddress,
                    ),
                },
                Request::ReadDiscreteInputs(addr, cnt) => *final(manager) == *old(manager)
                    && match read_outcome(
                    old(manager).table(RegisterType::Inputs),
                    RegisterType::Inputs,
                    addr,
                    cnt,
                ) {
                    Ok(words) => out matches Ok(response) && response@
                        == Reply::ReadDiscreteInputs(bits_of(words)),
                    Err(_) => out == Err::<Response, ExceptionCode>(
                        ExceptionCode::IllegalDataAddress,
                    ),
                },
                Request::ReadInputRegisters(addr, cnt) => *final(manager) == *old(manager)
                    && match read_outcome(
                    old(manager).table(RegisterType::InputRegisters),
                    RegisterType::InputRegisters,
                    addr,
                    cnt,
                ) {
                    Ok(words) => out matches Ok(response) && response@
                        == Reply::ReadInputRegisters(words),
                    Err(_) => out == Err::<Response, ExceptionCode>(
                        ExceptionCode::IllegalDataAddress,
                    ),
                },
                Request::ReadHoldingRegisters(addr, cnt) => *final(manager) == *old(manager)
                    && match read_outcome(
                    old(manager).table(RegisterType::HoldingRegisters),
                    RegisterType::HoldingRegisters,
                    addr,
                    cnt,
                ) {
                    Ok(words) => out matches Ok(response) && response@
                        == Reply::ReadHoldingRegisters(words),
                    Err(_) => out == Err::<Response, ExceptionCode>(
                        ExceptionCode::IllegalDataAddress,
                    ),
                },
                Request::WriteSingleCoil(addr, bit) => writes_only(
                    *old(manager),
                    *final(manager),
                    RegisterType::Coils,
                    addr,
                    seq![if bit {
                        1u16
                    } else {
                        0u16
                    }],
                ) && if write_fits(old(manager).table(RegisterType::Coils), addr, 1) {
                    out matches Ok(response) && response@ == Reply::WriteSingleCoil(addr, bit)
                } else {
                    out == Err::<Response, ExceptionCode>(ExceptionCode::IllegalDataAddress)
                },
                Request::WriteSingleRegister(addr, word) => writes_only(
                    *old(manager),
                    *final(manager),
                    RegisterType::HoldingRegisters,
                    addr,
                    seq![word],
                ) && if write_fits(old(manager).table(RegisterType::HoldingRegisters), addr, 1) {
                    out matches Ok(response) && response@ == Reply::WriteSingleRegister(addr, 1)
                } else {
                    out == Err::<Response, ExceptionCode>(ExceptionCode::IllegalDataAddress)
                },
                Request::WriteMultipleRegisters(addr, values) => writes_only(
                    *old(manager),
                    *final(manager),
                    RegisterType::HoldingRegisters,
                    addr,
                    values@,
                ) && if write_fits(
                    old(manager).table(RegisterType::HoldingRegisters),
                    addr,
                    values@.len(),
                ) {
                    out matches Ok(response) && response@ == Reply::WriteMultipleRegisters(
                        addr,
                        values@.len() as u16,
                    ) && values@.len() <= 9999
                } else {
                    out == Err::<Response, ExceptionCode>(ExceptionCode::IllegalDataAddress)
                },
                Request::Other(_) => *final(manager) == *old(manager) && out == Err::<
                    Response,
                    ExceptionCode,
                >(ExceptionCode::IllegalFunction),
            },
    {
        proof {
            use_type_invariant(&*manager);
        }
        let refused = match &req {
            Request::WriteSingleCoil(_, _)
            | Request::WriteSingleRegister(_, _)
            | Request::WriteMultipleRegisters(_, _) => !self.allowed(&self.write_whitelist),
            Request::ReadCoils(_, _)
            | Request::ReadDiscreteInputs(_, _)
            | Request::ReadInputRegisters(_, _)
            | Request::ReadHoldingRegisters(_, _) => !self.allowed(&self.read_whitelist),
            Request::Other(_) => false,
        };
        if refused {
            return Err(ExceptionCode::IllegalDataValue);
        }
        match req {
            Request::ReadCoils(addr, cnt) => {
                match Self::read(manager, RegisterType::Coils, addr, cnt) {
                    Ok(words) => Ok(Response::ReadCoils(words_to_bits(&words))),
                    Err(code) => Err(code),
                }
            },
            Request::WriteSingleCoil(addr, val) => {
                let word: u16 = if val {
                    1
                } else {
                    0
                };
                let values: [u16; 1] = [word];
                assert(values@ =~= seq![word]);
                proof {
                    lemma_written_words(manager.table(RegisterType::Coils), addr, values@);
                }
                match manager.write_register(RegisterType::Coils, addr, values.as_slice()) {
                    Ok(()) => Ok(Response::WriteSingleCoil(addr, val)),
                    Err(error) => Err(ExceptionCode::from(error)),
                }
            },
            Request::ReadInputRegisters(addr, cnt) => {
                match Self::read(manager, RegisterType::InputRegisters, addr, cnt) {
                    Ok(words) => Ok(Response::ReadInputRegisters(words)),
                    Err(code) => Err(code),
                }
            },
            Request::ReadDiscreteInputs(addr, cnt) => {
                match Self::read(manager, RegisterType::Inputs, addr, cnt) {
                    Ok(words) => Ok(Response::ReadDiscreteInputs(words_to_bits(&words))),
                    Err(code) => Err(code),
                }
            },
            Request::ReadHoldingRegisters(addr, cnt) => {
                match Self::read(manager, RegisterType::HoldingRegisters, addr, cnt) {
                    Ok(words) => Ok(Response::ReadHoldingRegisters(words)),
                    Err(code) => Err(code),
                }
            },
            Request::WriteMultipleRegisters(addr, values) => {
                proof {
                    lemma_fitting_write(
                        manager.table(RegisterType::HoldingRegisters),
                        RegisterType::HoldingRegisters,
                        addr,
                        values@.len(),
                    );
                }
                match manager.write_register(
                    RegisterType::HoldingRegisters,
                    addr,
                    values.as_slice(),
                ) {
                    Ok(()) => Ok(Response::WriteMultipleRegisters(addr, values.len() as u16)),
                    Err(error) => Err(ExceptionCode::from(error)),
                }
            },
            Request::WriteSingleRegister(addr, value) => {
                let values: [u16; 1] = [value];
                assert(values@ =~= seq![value]);
                match manager.write_register(
                    RegisterType::HoldingRegisters,
                    addr,
                    values.as_slice(),
                ) {
                    Ok(()) => Ok(Response::WriteSingleRegister(addr, 1)),
                    Err(error) => Err(ExceptionCode::from(error)),
                }
            },
            Request::Other(_) => Err(ExceptionCode::IllegalFunction),
        }
    }
}

/// Whether `after` is `before` but for a write of `values` from `address` on
/// to the table of class `class`.
pub open spec fn writes_only(
    before: RegisterManager,
    after: RegisterManager,
    class: RegisterType,
    address: u16,
    values: Seq<u16>,
) -> bool {
    &&& after.table(class) == written_table(before.table(class), address, values)
    &&& forall|other: RegisterType|
        other != class ==> #[trigger] after.table(other) == before.table(other)
    &&& after.keys() == before.keys()
}

/// A write that finds every address of its span in a table whose addresses
/// lie in the range of a class is shorter than the range.
pub proof fn lemma_fitting_write(table: Map<u16, u16>, class: RegisterType, address: u16, count: nat)
    requires
        forall|a: u16| #[trigger] table.contains_key(a) ==> class.holds(a),
    ensures
        write_fits(table, address, count) ==> count <= 9999,
{
    crate::table::lemma_present_run(table, address as int, count);
    if write_fits(table, address, count) && count > 9999 {
        let first = (address + 0) as u16;
        let last = (address + 9998) as u16;
        let beyond = (address + 9999) as u16;
        assert(table.contains_key(first));
        assert(table.contains_key(last));
        assert(table.contains_key(beyond));
        assert(class.holds(first) && class.holds(beyond));
    }
}

} // verus!
