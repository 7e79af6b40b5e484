use npucore::register::scause::{cause_bits, Exception, Interrupt, Scause, Trap};

const FLAG: usize = 1usize << (usize::BITS - 1);

fn all_interrupts() -> Vec<Interrupt> {
    vec![
        Interrupt::UserSoft,
        Interrupt::VirtualSupervisorSoft,
        Interrupt::SupervisorSoft,
        Interrupt::UserTimer,
        Interrupt::VirtualSupervisorTimer,
        Interrupt::SupervisorTimer,
        Interrupt::UserExternal,
        Interrupt::VirtualSupervisorExternal,
        Interrupt::SupervisorExternal,
    ]
}

fn all_exceptions() -> Vec<Exception> {
    vec![
        Exception::InstructionMisaligned,
        Exception::InstructionFault,
        Exception::IllegalInstruction,
        Exception::Breakpoint,
        Exception::LoadFault,
        Exception::StoreMisaligned,
        Exception::StoreFault,
        Exception::UserEnvCall,
        Exception::VirtualSupervisorEnvCall,
        Exception::InstructionPageFault,
        Exception::LoadPageFault,
        Exception::StorePageFault,
        Exception::InstructionGuestPageFault,
        Exception::LoadGuestPageFault,
        Exception::VirtualInstruction,
        Exception::StoreGuestPageFault,
    ]
}

#[test]
fn exception_value_decodes() {
    let s = Scause::from_bits(13);
    assert_eq!(s.bits(), 13);
    assert_eq!(s.code(), 13);
    assert!(!s.is_interrupt());
    assert!(s.is_exception());
    assert_eq!(s.cause(), Trap::Exception(Exception::LoadPageFault));
}

#[test]
fn interrupt_value_decodes() {
    let s = Scause::from_bits(FLAG | 5);
    assert!(s.is_interrupt());
    assert!(!s.is_exception());
    assert_eq!(s.code(), 5);
    assert_eq!(s.cause(), Trap::Interrupt(Interrupt::SupervisorTimer));
    assert!(s.cause().is_timer());
    assert!(!s.cause().is_syscall());
}

#[test]
fn syscall_is_user_env_call() {
    let s = Scause::from_bits(8);
    assert!(s.cause().is_syscall());
    assert!(!s.cause().is_timer());
    // The same code with the interrupt flag is the user external interrupt.
    let i = Scause::from_bits(FLAG | 8);
    assert_eq!(i.cause(), Trap::Interrupt(Interrupt::UserExternal));
    assert!(!i.cause().is_syscall());
}

#[test]
fn unknown_codes() {
    assert_eq!(Interrupt::from(3), Interrupt::Unknown);
    assert_eq!(Interrupt::from(11), Interrupt::Unknown);
    assert_eq!(Exception::from(4), Exception::Unknown);
    assert_eq!(Exception::from(24), Exception::Unknown);
    assert_eq!(Scause::from_bits(FLAG | 7).cause(), Trap::Interrupt(Interrupt::Unknown));
    assert_eq!(Scause::from_bits(9).cause(), Trap::Exception(Exception::Unknown));
}

#[test]
fn from_table() {
    assert_eq!(Interrupt::from(1), Interrupt::SupervisorSoft);
    assert_eq!(Interrupt::from(2), Interrupt::VirtualSupervisorSoft);
    assert_eq!(Interrupt::from(10), Interrupt::VirtualSupervisorExternal);
    assert_eq!(Exception::from(0), Exception::InstructionMisaligned);
    assert_eq!(Exception::from(23), Exception::StoreGuestPageFault);
}

#[test]
fn encode_values() {
    assert_eq!(cause_bits(Trap::Interrupt(Interrupt::SupervisorSoft)), FLAG | 1);
    assert_eq!(cause_bits(Trap::Interrupt(Interrupt::UserSoft)), FLAG);
    assert_eq!(cause_bits(Trap::Exception(Exception::StorePageFault)), 15);
    assert_eq!(cause_bits(Trap::Exception(Exception::VirtualInstruction)), 22);
}

#[test]
fn encode_then_decode_round_trip() {
    for i in all_interrupts() {
        let t = Trap::Interrupt(i);
        assert_eq!(Scause::from_bits(cause_bits(t)).cause(), t);
    }
    for e in all_exceptions() {
        let t = Trap::Exception(e);
        assert_eq!(Scause::from_bits(cause_bits(t)).cause(), t);
    }
}

#[test]
fn decode_then_encode_round_trip() {
    for bits in [0usize, 3, 8, 15, 23, FLAG, FLAG | 5, FLAG | 10] {
        let t = Scause::from_bits(bits).cause();
        assert_eq!(cause_bits(t), bits);
    }
}

#[test]
fn kind_agrees_with_flag() {
    for bits in [0usize, 1, 23, 100, FLAG, FLAG | 1, usize::MAX] {
        let s = Scause::from_bits(bits);
        let is_int = matches!(s.cause(), Trap::Interrupt(_));
        assert_eq!(is_int, s.is_interrupt());
        assert_eq!(!is_int, s.is_exception());
        assert_eq!(s.code(), bits & !FLAG);
    }
}
