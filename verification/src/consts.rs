//! Register map, command opcodes, error codes and the card identifier.

use vstd::prelude::*;

verus! {

/// Register indices of the reader chip. Each is a 6-bit index; the transport
/// layer turns it into the address byte that goes on the wire.
pub struct PCDRegister;

#[allow(non_upper_case_globals)]
impl PCDRegister {
    pub const CommandReg: u8 = 0x01;
    pub const ComIEnReg: u8 = 0x02;
    pub const DivIEnReg: u8 = 0x03;
    pub const ComIrqReg: u8 = 0x04;
    pub const DivIrqReg: u8 = 0x05;
    pub const ErrorReg: u8 = 0x06;
    pub const Status1Reg: u8 = 0x07;
    pub const Status2Reg: u8 = 0x08;
    pub const FIFODataReg: u8 = 0x09;
    pub const FIFOLevelReg: u8 = 0x0A;
    pub const WaterLevelReg: u8 = 0x0B;
    pub const ControlReg: u8 = 0x0C;
    pub const BitFramingReg: u8 = 0x0D;
    pub const CollReg: u8 = 0x0E;
    pub const ModeReg: u8 = 0x11;
    pub const TxModeReg: u8 = 0x12;
    pub const RxModeReg: u8 = 0x13;
    pub const TxControlReg: u8 = 0x14;
    pub const TxASKReg: u8 = 0x15;
    pub const TxSelReg: u8 = 0x16;
    pub const RxSelReg: u8 = 0x17;
    pub const RxThresholdReg: u8 = 0x18;
    pub const DemodReg: u8 = 0x19;
    pub const MfTxReg: u8 = 0x1C;
    pub const MfRxReg: u8 = 0x1D;
    pub const SerialSpeedReg: u8 = 0x1F;
    pub const CRCResultRegH: u8 = 0x21;
    pub const CRCResultRegL: u8 = 0x22;
    pub const ModWidthReg: u8 = 0x24;
    pub const RFCfgReg: u8 = 0x26;
    pub const GsNReg: u8 = 0x27;
    pub const CWGsPReg: u8 = 0x28;
    pub const ModGsPReg: u8 = 0x29;
    pub const TModeReg: u8 = 0x2A;
    pub const TPrescalerReg: u8 = 0x2B;
    pub const TReloadRegH: u8 = 0x2C;
    pub const TReloadRegL: u8 = 0x2D;
    pub const TCounterValueRegH: u8 = 0x2E;
    pub const TCounterValueRegL: u8 = 0x2F;
    pub const TestSel1Reg: u8 = 0x31;
    pub const TestSel2Reg: u8 = 0x32;
    pub const TestPinEnReg: u8 = 0x33;
    pub const TestPinValueReg: u8 = 0x34;
    pub const TestBusReg: u8 = 0x35;
    pub const AutoTestReg: u8 = 0x36;
    pub const VersionReg: u8 = 0x37;
    pub const AnalogTestReg: u8 = 0x38;
    pub const TestDAC1Reg: u8 = 0x39;
    pub const TestDAC2Reg: u8 = 0x3A;
    pub const TestADCReg: u8 = 0x3B;
}

/// Command opcodes of the reader chip, written to the command register.
pub struct PCDCommand;

#[allow(non_upper_case_globals)]
impl PCDCommand {
    pub const Idle: u8 = 0x00;
    pub const Mem: u8 = 0x01;
    pub const GenerateRandomID: u8 = 0x02;
    pub const CalcCRC: u8 = 0x03;
    pub const Transmit: u8 = 0x04;
    pub const NoCmdChange: u8 = 0x07;
    pub const Receive: u8 = 0x08;
    pub const Transceive: u8 = 0x0C;
    pub const MFAuthent: u8 = 0x0E;
    pub const SoftReset: u8 = 0x0F;
}

/// Command bytes sent to a card.
pub struct PICCCommand;

#[allow(non_upper_case_globals)]
impl PICCCommand {
    /// Request, type A: invites idle cards to answer.
    pub const PICC_CMD_REQA: u8 = 0x26;
    /// Wake-up, type A: invites idle and halted cards to answer.
    pub const PICC_CMD_WUPA: u8 = 0x52;
    /// Cascade tag: marks a level whose four bytes hold only three identifier bytes.
    pub const PICC_CMD_CT: u8 = 0x88;
    pub const PICC_CMD_SEL_CL1: u8 = 0x93;
    pub const PICC_CMD_SEL_CL2: u8 = 0x95;
    pub const PICC_CMD_SEL_CL3: u8 = 0x97;
    /// Halt, type A.
    pub const PICC_CMD_HLTA: u8 = 0x50;
}

/// Why an operation of the driver failed.
#[derive(Clone, Copy, Debug, PartialEq, Eq, Structural)]
pub enum PCDErrorCode {
    /// A byte exchange or a chip-select change failed.
    Transport,
    /// The chip's timer ran out, or polling gave up.
    Timeout,
    /// The chip reported a protocol, parity or buffer-overflow error.
    Protocol,
    /// The chip saw a collision and could not say where.
    InvalidCollisionPosition,
    /// The chip reported a collision among bits that were already known.
    ProtocolInconsistency,
    /// A received checksum does not match the data.
    CrcMismatch,
    /// The chip holds more received bytes than the caller has room for.
    Overflow,
    /// The answer to a SELECT is not one status byte and a checksum.
    InvalidSak,
    /// The answer to a request is not two full bytes.
    InvalidAtqa,
    /// The card asked for a cascade level beyond the third.
    TooManyCascadeLevels,
    /// More known bits were claimed than an identifier can hold.
    BitsExceeded,
}

/// The coarse classes into which the error codes fall.
#[derive(Clone, Copy, Debug, PartialEq, Eq, Structural)]
pub enum ErrorClass {
    TransportError,
    Timeout,
    ProtocolError,
    CollisionError,
    CrcMismatch,
    Overflow,
    Malformed,
}

impl PCDErrorCode {
    /// The class into which each error code falls.
    pub open spec fn spec_class(self) -> ErrorClass {
        match self {
            PCDErrorCode::Transport => ErrorClass::TransportError,
            PCDErrorCode::Timeout => ErrorClass::Timeout,
            PCDErrorCode::Protocol => ErrorClass::ProtocolError,
            PCDErrorCode::InvalidCollisionPosition => ErrorClass::CollisionError,
            PCDErrorCode::ProtocolInconsistency => ErrorClass::CollisionError,
            PCDErrorCode::CrcMismatch => ErrorClass::CrcMismatch,
            PCDErrorCode::Overflow => ErrorClass::Overflow,
            PCDErrorCode::InvalidSak => ErrorClass::Malformed,
            PCDErrorCode::InvalidAtqa => ErrorClass::Malformed,
            PCDErrorCode::TooManyCascadeLevels => ErrorClass::Malformed,
            PCDErrorCode::BitsExceeded => ErrorClass::Malformed,
        }
    }

    /// The class of this error.
    #[verifier::when_used_as_spec(spec_class)]
    pub fn class(self) -> (c: ErrorClass)
        ensures
            c == self.spec_class(),
    {
        match self {
            PCDErrorCode::Transport => ErrorClass::TransportError,
            PCDErrorCode::Timeout => ErrorClass::Timeout,
            PCDErrorCode::Protocol => ErrorClass::ProtocolError,
            PCDErrorCode::InvalidCollisionPosition => ErrorClass::CollisionError,
            PCDErrorCode::ProtocolInconsistency => ErrorClass::CollisionError,
            PCDErrorCode::CrcMismatch => ErrorClass::CrcMismatch,
            PCDErrorCode::Overflow => ErrorClass::Overflow,
            PCDErrorCode::InvalidSak => ErrorClass::Malformed,
            PCDErrorCode::InvalidAtqa => ErrorClass::Malformed,
            PCDErrorCode::TooManyCascadeLevels => ErrorClass::Malformed,
            PCDErrorCode::BitsExceeded => ErrorClass::Malformed,
        }
    }
}

/// The length of a card identifier.
#[derive(Clone, Copy, Debug, PartialEq, Eq, Structural)]
pub enum UidSize {
    Four,
    Seven,
    Ten,
}

impl UidSize {
    /// The number of identifier bytes that each length stands for.
    pub open spec fn spec_to_byte(self) -> u8 {
        match self {
            UidSize::Four => 4,
            UidSize::Seven => 7,
            UidSize::Ten => 10,
        }
    }

    /// The number of identifier bytes.
    #[verifier::when_used_as_spec(spec_to_byte)]
    pub fn to_byte(self) -> (n: u8)
        ensures
            n == self.spec_to_byte(),
    {
        match self {
            UidSize::Four => 4,
            UidSize::Seven => 7,
            UidSize::Ten => 10,
        }
    }
}

/// A card identifier as the selection procedure assembles it.
#[derive(Clone, Copy, Debug)]
pub struct Uid {
    /// Number of identifier bytes in use: 4, 7 or 10.
    pub size: u8,
    /// The status byte with which the card acknowledged the selection.
    pub sak: u8,
    /// The identifier, first byte first. Bytes past `size` carry no meaning.
    pub uid_bytes: [u8; 10],
}

/// A card identifier as a plain value.
pub struct UidView {
    pub size: u8,
    pub sak: u8,
    pub bytes: Seq<u8>,
}

impl View for Uid {
    type V = UidView;

    open spec fn view(&self) -> UidView {
        UidView { size: self.size, sak: self.sak, bytes: self.uid_bytes@ }
    }
}

} // verus!
