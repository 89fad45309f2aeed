use breakcore::codec::{as_signed, as_unsigned, decode_words, encode_words};
use breakcore::logging::{color_id, Level};
use breakcore::sbi::{console_getchar, console_putchar, set_timer, shutdown, SbiCall};
use breakcore::timer::{get_time_ms, next_deadline};
use breakcore::trap::context::{TrapContext, TRAP_CONTEXT_SIZE, TRAP_CONTEXT_WORDS};

#[test]
fn words_are_encoded_low_byte_first() {
    let bytes = encode_words(&vec![0x0102_0304_0506_0708, 1]);
    assert_eq!(bytes, vec![8, 7, 6, 5, 4, 3, 2, 1, 1, 0, 0, 0, 0, 0, 0, 0]);
    assert_eq!(encode_words(&vec![]), Vec::<u8>::new());
}

#[test]
fn decoding_gives_the_words_back() {
    let words = vec![0, 1, u64::MAX, 0xdead_beef_0000_1234];
    assert_eq!(decode_words(&encode_words(&words)), words);
    assert_eq!(decode_words(&[1, 0, 0, 0, 0, 0, 0, 0, 9]), vec![1]);
    assert_eq!(decode_words(&[1, 2, 3]), Vec::<u64>::new());
}

#[test]
fn signed_and_unsigned_readings_of_a_word() {
    assert_eq!(as_signed(0), 0);
    assert_eq!(as_signed(10), 10);
    assert_eq!(as_signed(u64::MAX), -1);
    assert_eq!(as_signed((-10i64) as u64), -10);
    assert_eq!(as_signed(1 << 63), i64::MIN);
    assert_eq!(as_signed(i64::MAX as u64), i64::MAX);
    assert_eq!(as_unsigned(-1), u64::MAX);
    assert_eq!(as_unsigned(i64::MIN), 1 << 63);
    assert_eq!(as_unsigned(0x1000), 0x1000);
    for v in [0i64, 1, -1, 77, -77, i64::MAX, i64::MIN] {
        assert_eq!(as_signed(as_unsigned(v)), v);
    }
}

#[test]
fn log_colours() {
    assert_eq!(color_id(Level::Error), 31);
    assert_eq!(color_id(Level::Warn), 93);
    assert_eq!(color_id(Level::Info), 34);
    assert_eq!(color_id(Level::Debug), 32);
    assert_eq!(color_id(Level::Trace), 90);
}

#[test]
fn firmware_calls_carry_their_function_number() {
    assert_eq!(set_timer(1234), SbiCall { id: 0, arg0: 1234, arg1: 0, arg2: 0 });
    assert_eq!(console_putchar(65), SbiCall { id: 1, arg0: 65, arg1: 0, arg2: 0 });
    assert_eq!(console_getchar(), SbiCall { id: 2, arg0: 0, arg1: 0, arg2: 0 });
    assert_eq!(shutdown(), SbiCall { id: 8, arg0: 0, arg1: 0, arg2: 0 });
}

#[test]
fn time_in_milliseconds_and_the_next_deadline() {
    assert_eq!(get_time_ms(0), 0);
    assert_eq!(get_time_ms(12_500), 1);
    assert_eq!(get_time_ms(12_499), 0);
    assert_eq!(get_time_ms(12_500_000 * 3), 3000);
    assert_eq!(next_deadline(0), 125_000);
    assert_eq!(next_deadline(1_000_000), 1_125_000);
    assert_eq!(next_deadline(u64::MAX - 5), u64::MAX);
}

#[test]
fn new_trap_context_has_the_stack_pointer_and_the_entry_only() {
    let cx = TrapContext::new(0x1000, 0x8000, 0x8000_0000_0000_0122, 11, 22, 33, 44, 55, 66);
    let mut x = [0u64; 32];
    x[2] = 0x8000;
    assert_eq!(cx.x, x);
    assert_eq!(cx.sepc, 0x1000);
    assert_eq!(cx.sstatus, 0x8000_0000_0000_0022);
    assert_eq!(cx.trap_handler_address, 11);
    assert_eq!(cx.user_satp, 22);
    assert_eq!(cx.kernel_satp, 33);
    assert_eq!(cx.user_cx_addr, 44);
    assert_eq!(cx.kernel_cx_addr, 55);
    assert_eq!(cx.kernel_sp, 66);
}

#[test]
fn trap_context_words_round_trip() {
    let mut cx = TrapContext::new(1, 2, 3, 4, 5, 6, 7, 8, 9);
    cx.x[10] = 0xaaaa;
    cx.x[31] = 0xbbbb;
    cx.set_sp(0x7000);
    cx.set_pc(0x4000);
    let words = cx.to_words();
    assert_eq!(words.len(), TRAP_CONTEXT_WORDS);
    assert_eq!(TRAP_CONTEXT_SIZE, 8 * TRAP_CONTEXT_WORDS);
    assert_eq!(words[2], 0x7000);
    assert_eq!(words[10], 0xaaaa);
    assert_eq!(words[31], 0xbbbb);
    assert_eq!(&words[32..], &[3, 0x4000, 4, 5, 6, 7, 8, 9]);
    let back = TrapContext::from_words(&words);
    assert_eq!(back.to_words(), words);
    assert_eq!(back.x, cx.x);
    assert_eq!(back.sepc, 0x4000);
    assert_eq!(back.kernel_sp, 9);
}
