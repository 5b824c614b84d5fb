use nexos::arch::x86_64::serial::{
    init, output_ready, print_byte, print_str, PortWrite, DATA_PORT, FIFO_CONTROL_PORT,
    INTERRUPT_ENABLE_PORT, LINE_CONTROL_PORT, LINE_STATUS_PORT, MODEM_CONTROL_PORT,
};

#[test]
fn the_ports_follow_the_data_port() {
    assert_eq!(DATA_PORT, 0x3F8);
    assert_eq!(INTERRUPT_ENABLE_PORT, DATA_PORT + 1);
    assert_eq!(FIFO_CONTROL_PORT, DATA_PORT + 2);
    assert_eq!(LINE_CONTROL_PORT, DATA_PORT + 3);
    assert_eq!(MODEM_CONTROL_PORT, DATA_PORT + 4);
    assert_eq!(LINE_STATUS_PORT, DATA_PORT + 5);
}

#[test]
fn init_sets_the_divisor_then_the_line() {
    assert_eq!(
        init(),
        vec![
            PortWrite { port: 0x3FB, value: 0x80 },
            PortWrite { port: 0x3F8, value: 0x03 },
            PortWrite { port: 0x3F9, value: 0x00 },
            PortWrite { port: 0x3FB, value: 0x03 },
            PortWrite { port: 0x3FA, value: 0xC7 },
            PortWrite { port: 0x3FC, value: 0x0B },
        ]
    );
}

#[test]
fn output_is_ready_on_bit_five() {
    assert!(output_ready(0x20));
    assert!(output_ready(0xff));
    assert!(!output_ready(0x00));
    assert!(!output_ready(0xdf));
    assert!(!output_ready(0x01));
}

#[test]
fn backspace_goes_out_as_backspace_space_backspace() {
    assert_eq!(print_byte(8), vec![8, b' ', 8]);
    assert_eq!(print_byte(0xf7), vec![8, b' ', 8]);
    assert_eq!(print_byte(b'a'), vec![b'a']);
    assert_eq!(print_byte(0), vec![0]);
    assert_eq!(print_byte(0xf8), vec![0xf8]);
}

#[test]
fn print_str_sends_the_bytes_in_order() {
    assert_eq!(print_str(""), Vec::<u8>::new());
    assert_eq!(print_str("Booting"), b"Booting".to_vec());
    assert_eq!(print_str("ab\x08c\n"), vec![b'a', b'b', 8, b' ', 8, b'c', b'\n']);
    // The bytes of a character outside ASCII go out one by one.
    assert_eq!(print_str("\u{f7}"), vec![0xc3, 0xb7]);
}
