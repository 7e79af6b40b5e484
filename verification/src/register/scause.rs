//! The `scause` supervisor register: decoding a raw register value into a
//! trap cause, and encoding a trap cause back into a raw value.

use bit_field::BitField;
use vstd::prelude::*;

verus! {

/// The value of the interrupt flag: the most significant bit of a `usize`.
pub open spec fn interrupt_flag() -> int {
    (usize::MAX as int + 1) / 2
}

/// The interrupt flag is the bit `usize::BITS - 1`.
proof fn lemma_interrupt_flag()
    ensures
        (1usize << ((usize::BITS - 1) as u32)) as int == interrupt_flag(),
        interrupt_flag() >= 0x8000_0000,
{
    let h: usize = 1usize << ((usize::BITS - 1) as u32);
    let m: usize = usize::MAX;
    let z: usize = !0usize;
    assert(m as int <= 2 * (h as int) - 1 && h >= 0x8000_0000usize) by (bit_vector)
        requires
            h == 1usize << ((usize::BITS - 1) as u32),
    ;
    assert(z as int == 2 * (h as int) - 1) by (bit_vector)
        requires
            h == 1usize << ((usize::BITS - 1) as u32),
            z == !0usize,
    ;
}

/// Reads one bit of a `usize` through `bit_field::BitField::get_bit`, which
/// asserts that the index is below the width and tests `value & (1 << bit)`.
#[verifier::external_body]
fn usize_get_bit(value: usize, bit: usize) -> (set: bool)
    requires
        bit < usize::BITS,
    ensures
        set == (value & (1usize << bit) != 0),
{
    value.get_bit(bit)
}

/// Trap Cause
#[derive(Copy, Clone, Debug, PartialEq, Eq, Structural)]
pub enum Trap {
    Interrupt(Interrupt),
    Exception(Exception),
}

/// Interrupt
#[derive(Copy, Clone, Debug, PartialEq, Eq, Structural)]
pub enum Interrupt {
    UserSoft,
    VirtualSupervisorSoft,
    SupervisorSoft,
    UserTimer,
    VirtualSupervisorTimer,
    SupervisorTimer,
    UserExternal,
    VirtualSupervisorExternal,
    SupervisorExternal,
    Unknown,
}

/// Exception
#[derive(Copy, Clone, Debug, PartialEq, Eq, Structural)]
pub enum Exception {
    InstructionMisaligned,
    InstructionFault,
    IllegalInstruction,
    Breakpoint,
    LoadFault,
    StoreMisaligned,
    StoreFault,
    UserEnvCall,
    VirtualSupervisorEnvCall,
    InstructionPageFault,
    LoadPageFault,
    StorePageFault,
    InstructionGuestPageFault,
    LoadGuestPageFault,
    VirtualInstruction,
    StoreGuestPageFault,
    Unknown,
}

impl Interrupt {
    /// The code that the hardware writes for this interrupt; `Unknown` has none.
    pub open spec fn spec_code(self) -> Option<int> {
        match self {
            Interrupt::UserSoft => Some(0),
            Interrupt::SupervisorSoft => Some(1),
            Interrupt::VirtualSupervisorSoft => Some(2),
            Interrupt::UserTimer => Some(4),
            Interrupt::SupervisorTimer => Some(5),
            Interrupt::VirtualSupervisorTimer => Some(6),
            Interrupt::UserExternal => Some(8),
            Interrupt::SupervisorExternal => Some(9),
            Interrupt::VirtualSupervisorExternal => Some(10),
            Interrupt::Unknown => None,
        }
    }

    /// The interrupt that a code stands for: the one whose code it is, or `Unknown`.
    pub open spec fn spec_decode(nr: int) -> Interrupt {
        if nr == 0 {
            Interrupt::UserSoft
        } else if nr == 1 {
            Interrupt::SupervisorSoft
        } else if nr == 2 {
            Interrupt::VirtualSupervisorSoft
        } else if nr == 4 {
            Interrupt::UserTimer
        } else if nr == 5 {
            Interrupt::SupervisorTimer
        } else if nr == 6 {
            Interrupt::VirtualSupervisorTimer
        } else if nr == 8 {
            Interrupt::UserExternal
        } else if nr == 9 {
            Interrupt::SupervisorExternal
        } else if nr == 10 {
            Interrupt::VirtualSupervisorExternal
        } else {
            Interrupt::Unknown
        }
    }

    pub fn from(nr: usize) -> (r: Self)
        ensures
            r == Interrupt::spec_decode(nr as int),
    {
        match nr {
            0 => Interrupt::UserSoft,
            1 => Interrupt::SupervisorSoft,
            2 => Interrupt::VirtualSupervisorSoft,
            4 => Interrupt::UserTimer,
            5 => Interrupt::SupervisorTimer,
            6 => Interrupt::VirtualSupervisorTimer,
            8 => Interrupt::UserExternal,
            9 => Interrupt::SupervisorExternal,
            10 => Interrupt::VirtualSupervisorExternal,
            _ => Interrupt::Unknown,
        }
    }
}

impl Exception {
    /// The code that the hardware writes for this exception; `Unknown` has none.
    pub open spec fn spec_code(self) -> Option<int> {
        match self {
            Exception::InstructionMisaligned => Some(0),
            Exception::InstructionFault => Some(1),
            Exception::IllegalInstruction => Some(2),
            Exception::Breakpoint => Some(3),
            Exception::LoadFault => Some(5),
            Exception::StoreMisaligned => Some(6),
            Exception::StoreFault => Some(7),
            Exception::UserEnvCall => Some(8),
            Exception::VirtualSupervisorEnvCall => Some(10),
            Exception::InstructionPageFault => Some(12),
            Exception::LoadPageFault => Some(13),
            Exception::StorePageFault => Some(15),
            Exception::InstructionGuestPageFault => Some(20),
            Exception::LoadGuestPageFault => Some(21),
            Exception::VirtualInstruction => Some(22),
            Exception::StoreGuestPageFault => Some(23),
            Exception::Unknown => None,
        }
    }

    /// The exception that a code stands for: the one whose code it is, or `Unknown`.
    pub open spec fn spec_decode(nr: int) -> Exception {
        if nr == 0 {
            Exception::InstructionMisaligned
        } else if nr == 1 {
            Exception::InstructionFault
        } else if nr == 2 {
            Exception::IllegalInstruction
        } else if nr == 3 {
            Exception::Breakpoint
        } else if nr == 5 {
            Exception::LoadFault
        } else if nr == 6 {
            Exception::StoreMisaligned
        } else if nr == 7 {
            Exception::StoreFault
        } else if nr == 8 {
            Exception::UserEnvCall
        } else if nr == 10 {
            Exception::VirtualSupervisorEnvCall
        } else if nr == 12 {
            Exception::InstructionPageFault
        } else if nr == 13 {
            Exception::LoadPageFault
        } else if nr == 15 {
            Exception::StorePageFault
        } else if nr == 20 {
            Exception::InstructionGuestPageFault
        } else if nr == 21 {
            Exception::LoadGuestPageFault
        } else if nr == 22 {
            Exception::VirtualInstruction
        } else if nr == 23 {
            Exception::StoreGuestPageFault
        } else {
            Exception::Unknown
        }
    }

    pub fn from(nr: usize) -> (r: Self)
        ensures
            r == Exception::spec_decode(nr as int),
    {
        match nr {
            0 => Exception::InstructionMisaligned,
            1 => Exception::InstructionFault,
            2 => Exception::IllegalInstruction,
            3 => Exception::Breakpoint,
            5 => Exception::LoadFault,
            6 => Exception::StoreMisaligned,
            7 => Exception::StoreFault,
            8 => Exception::UserEnvCall,
            10 => Exception::VirtualSupervisorEnvCall,
            12 => Exception::InstructionPageFault,
            13 => Exception::LoadPageFault,
            15 => Exception::StorePageFault,
            20 => Exception::InstructionGuestPageFault,
            21 => Exception::LoadGuestPageFault,
            22 => Exception::VirtualInstruction,
            23 => Exception::StoreGuestPageFault,
            _ => Exception::Unknown,
        }
    }
}

impl Trap {
    /// The raw register value that records this cause: the code, with the
    /// interrupt flag added for interrupts. `Unknown` causes have none.
    pub open spec fn spec_encoding(self) -> Option<int> {
        match self {
            Trap::Interrupt(i) => match i.spec_code() {
                Some(c) => Some(c + interrupt_flag()),
                None => None,
            },
            Trap::Exception(e) => e.spec_code(),
        }
    }

    /// The cause recorded by a raw register value.
    pub open spec fn spec_decode(bits: int) -> Trap {
        if bits >= interrupt_flag() {
            Trap::Interrupt(Interrupt::spec_decode(bits % interrupt_flag()))
        } else {
            Trap::Exception(Exception::spec_decode(bits))
        }
    }

    /// Is trap cause a timer.
    pub fn is_timer(&self) -> (r: bool)
        ensures
            r == (*self == Trap::Interrupt(Interrupt::SupervisorTimer)),
    {
        if let Trap::Interrupt(Interrupt::SupervisorTimer) = self {
            true
        } else {
            false
        }
    }

    /// Is trap cause a syscall.
    pub fn is_syscall(&self) -> (r: bool)
        ensures
            r == (*self == Trap::Exception(Exception::UserEnvCall)),
    {
        if let Trap::Exception(Exception::UserEnvCall) = self {
            true
        } else {
            false
        }
    }
}

/// scause register
#[derive(Clone, Copy)]
pub struct Scause {
    bits: usize,
}

impl Scause {
    /// The raw register contents this value was read as.
    pub closed spec fn spec_bits(&self) -> usize {
        self.bits
    }

    /// Wraps a raw register value, as reading the CSR does.
    pub fn from_bits(bits: usize) -> (s: Scause)
        ensures
            s.spec_bits() == bits,
    {
        Scause { bits }
    }

    /// Returns the contents of the register as raw bits
    pub fn bits(&self) -> (b: usize)
        ensures
            b == self.spec_bits(),
    {
        self.bits
    }

    /// Is trap cause an interrupt.
    pub fn is_interrupt(&self) -> (r: bool)
        ensures
            r == (self.spec_bits() >= interrupt_flag()),
    {
        let top: usize = (usize::BITS - 1) as usize;
        let r = usize_get_bit(self.bits, top);
        proof {
            let b = self.bits;
            assert((b & (1usize << ((usize::BITS - 1) as u32)) != 0) == (b >= (1usize << ((usize::BITS - 1) as u32)))) by (bit_vector);
            lemma_interrupt_flag();
        }
        r
    }

    /// Is trap cause an exception.
    pub fn is_exception(&self) -> (r: bool)
        ensures
            r == (self.spec_bits() < interrupt_flag()),
    {
        !self.is_interrupt()
    }

    /// Trap Cause
    pub fn cause(&self) -> (t: Trap)
        ensures
            t == Trap::spec_decode(self.spec_bits() as int),
    {
        if self.is_interrupt() {
            Trap::Interrupt(Interrupt::from(self.code()))
        } else {
            proof {
                assert(self.bits as int % interrupt_flag() == self.bits as int) by (nonlinear_arith)
                    requires
                        0 <= self.bits < interrupt_flag(),
                ;
            }
            Trap::Exception(Exception::from(self.code()))
        }
    }

    /// Returns the code field
    pub fn code(&self) -> (c: usize)
        ensures
            c == self.spec_bits() as int % interrupt_flag(),
    {
        let bit: usize = 1usize << ((usize::BITS - 1) as u32);
        let c = self.bits & !bit;
        proof {
            let b = self.bits;
            assert(b & !(1usize << ((usize::BITS - 1) as u32)) == b % (1usize << ((usize::BITS - 1) as u32))) by (bit_vector);
            lemma_interrupt_flag();
        }
        c
    }
}

/// The raw value that records a known cause: the computation that setting the
/// register performs before the write. An `Unknown` cause has no value.
pub fn cause_bits(cause: Trap) -> (bits: usize)
    requires
        cause.spec_encoding() is Some,
    ensures
        Some(bits as int) == cause.spec_encoding(),
{
    match cause {
        Trap::Interrupt(i) => {
            let code: usize = match i {
                Interrupt::UserSoft => 0,
                Interrupt::SupervisorSoft => 1,
                Interrupt::VirtualSupervisorSoft => 2,
                Interrupt::UserTimer => 4,
                Interrupt::SupervisorTimer => 5,
                Interrupt::VirtualSupervisorTimer => 6,
                Interrupt::UserExternal => 8,
                Interrupt::SupervisorExternal => 9,
                Interrupt::VirtualSupervisorExternal => 10,
                Interrupt::Unknown => {
                    proof {
                        assert(false);
                    }
                    0
                },
            };
            let flag: usize = 1usize << ((usize::BITS - 1) as u32);
            proof {
                lemma_interrupt_flag();
                assert(code | flag == code + flag) by (bit_vector)
                    requires
                        code < 16,
                        flag == 1usize << ((usize::BITS - 1) as u32),
                ;
            }
            code | flag
        },
        Trap::Exception(e) => match e {
            Exception::InstructionMisaligned => 0,
            Exception::InstructionFault => 1,
            Exception::IllegalInstruction => 2,
            Exception::Breakpoint => 3,
            Exception::LoadFault => 5,
            Exception::StoreMisaligned => 6,
            Exception::StoreFault => 7,
            Exception::UserEnvCall => 8,
            Exception::VirtualSupervisorEnvCall => 10,
            Exception::InstructionPageFault => 12,
            Exception::LoadPageFault => 13,
            Exception::StorePageFault => 15,
            Exception::InstructionGuestPageFault => 20,
            Exception::LoadGuestPageFault => 21,
            Exception::VirtualInstruction => 22,
            Exception::StoreGuestPageFault => 23,
            Exception::Unknown => {
                proof {
                    assert(false);
                }
                0
            },
        },
    }
}

/// Setting the register to a known cause and reading it back yields that
/// cause: decoding undoes encoding.
pub proof fn lemma_cause_round_trip(t: Trap)
    requires
        t.spec_encoding() is Some,
    ensures
        Trap::spec_decode(t.spec_encoding()->0) == t,
{
    lemma_interrupt_flag();
    let f = interrupt_flag();
    match t {
        Trap::Interrupt(i) => {
            let c = i.spec_code()->0;
            assert((c + f) % f == c) by (nonlinear_arith)
                requires
                    0 <= c < f,
            ;
        },
        Trap::Exception(e) => {},
    }
}

/// Reading a register whose cause is known and setting the register to that
/// cause restores the raw value: encoding undoes decoding.
pub proof fn lemma_bits_round_trip(bits: usize)
    requires
        Trap::spec_decode(bits as int).spec_encoding() is Some,
    ensures
        Trap::spec_decode(bits as int).spec_encoding() == Some(bits as int),
{
    lemma_interrupt_flag();
    let f = interrupt_flag();
    let b = bits as int;
    if b >= f {
        assert(b <= usize::MAX);
        assert(b % f + f == b) by (nonlinear_arith)
            requires
                f <= b < 2 * f,
        ;
    }
}

/// The cause of a raw value is an interrupt exactly when its interrupt flag
/// is set, and an exception exactly when it is not: `cause` agrees with
/// `is_interrupt` and `is_exception`.
pub proof fn lemma_cause_kind(bits: usize)
    ensures
        (Trap::spec_decode(bits as int) is Interrupt) == (bits >= interrupt_flag()),
        (Trap::spec_decode(bits as int) is Exception) == (bits < interrupt_flag()),
{
}

/// The exception codes of the supervisor trap-cause register, as the RISC-V
/// privileged architecture numbers them: each code decodes to its named
/// exception and each exception encodes to its code; every other code is
/// an unknown exception, which has no code.
pub proof fn lemma_exception_table()
    ensures
        Exception::spec_decode(0) == Exception::InstructionMisaligned,
        Exception::InstructionMisaligned.spec_code() == Some(0int),
        Exception::spec_decode(1) == Exception::InstructionFault,
        Exception::InstructionFault.spec_code() == Some(1int),
        Exception::spec_decode(2) == Exception::IllegalInstruction,
        Exception::IllegalInstruction.spec_code() == Some(2int),
        Exception::spec_decode(3) == Exception::Breakpoint,
        Exception::Breakpoint.spec_code() == Some(3int),
        Exception::spec_decode(5) == Exception::LoadFault,
        Exception::LoadFault.spec_code() == Some(5int),
        Exception::spec_decode(6) == Exception::StoreMisaligned,
        Exception::StoreMisaligned.spec_code() == Some(6int),
        Exception::spec_decode(7) == Exception::StoreFault,
        Exception::StoreFault.spec_code() == Some(7int),
        Exception::spec_decode(8) == Exception::UserEnvCall,
        Exception::UserEnvCall.spec_code() == Some(8int),
        Exception::spec_decode(10) == Exception::VirtualSupervisorEnvCall,
        Exception::VirtualSupervisorEnvCall.spec_code() == Some(10int),
        Exception::spec_decode(12) == Exception::InstructionPageFault,
        Exception::InstructionPageFault.spec_code() == Some(12int),
        Exception::spec_decode(13) == Exception::LoadPageFault,
        Exception::LoadPageFault.spec_code() == Some(13int),
        Exception::spec_decode(15) == Exception::StorePageFault,
        Exception::StorePageFault.spec_code() == Some(15int),
        Exception::spec_decode(20) == Exception::InstructionGuestPageFault,
        Exception::InstructionGuestPageFault.spec_code() == Some(20int),
        Exception::spec_decode(21) == Exception::LoadGuestPageFault,
        Exception::LoadGuestPageFault.spec_code() == Some(21int),
        Exception::spec_decode(22) == Exception::VirtualInstruction,
        Exception::VirtualInstruction.spec_code() == Some(22int),
        Exception::spec_decode(23) == Exception::StoreGuestPageFault,
        Exception::StoreGuestPageFault.spec_code() == Some(23int),
        forall|nr: int| nr != 0 && nr != 1 && nr != 2 && nr != 3 && nr != 5 && nr != 6 && nr != 7 && nr != 8 && nr != 10 && nr != 12 && nr != 13 && nr != 15 && nr != 20 && nr != 21 && nr != 22 && nr != 23 ==> #[trigger] Exception::spec_decode(nr) == Exception::Unknown,
        Exception::Unknown.spec_code() is None,
{
}

/// The interrupt codes of the supervisor trap-cause register, as the RISC-V
/// privileged architecture numbers them: each code decodes to its named
/// interrupt and each interrupt encodes to its code; every other code is an
/// unknown interrupt, which has no code.
pub proof fn lemma_interrupt_table()
    ensures
        Interrupt::spec_decode(0) == Interrupt::UserSoft,
        Interrupt::UserSoft.spec_code() == Some(0int),
        Interrupt::spec_decode(1) == Interrupt::SupervisorSoft,
        Interrupt::SupervisorSoft.spec_code() == Some(1int),
        Interrupt::spec_decode(2) == Interrupt::VirtualSupervisorSoft,
        Interrupt::VirtualSupervisorSoft.spec_code() == Some(2int),
        Interrupt::spec_decode(4) == Interrupt::UserTimer,
        Interrupt::UserTimer.spec_code() == Some(4int),
        Interrupt::spec_decode(5) == Interrupt::SupervisorTimer,
        Interrupt::SupervisorTimer.spec_code() == Some(5int),
        Interrupt::spec_decode(6) == Interrupt::VirtualSupervisorTimer,
        Interrupt::VirtualSupervisorTimer.spec_code() == Some(6int),
        Interrupt::spec_decode(8) == Interrupt::UserExternal,
        Interrupt::UserExternal.spec_code() == Some(8int),
        Interrupt::spec_decode(9) == Interrupt::SupervisorExternal,
        Interrupt::SupervisorExternal.spec_code() == Some(9int),
        Interrupt::spec_decode(10) == Interrupt::VirtualSupervisorExternal,
        Interrupt::VirtualSupervisorExternal.spec_code() == Some(10int),
        forall|nr: int| nr != 0 && nr != 1 && nr != 2 && nr != 4 && nr != 5 && nr != 6 && nr != 8 && nr != 9 && nr != 10 ==> #[trigger] Interrupt::spec_decode(nr) == Interrupt::Unknown,
        Interrupt::Unknown.spec_code() is None,
{
}

} // verus!
