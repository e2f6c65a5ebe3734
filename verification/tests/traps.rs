use rustable::traps::syscall::{handle_syscall, Syscall, TrapFrame, ERR_NO_SYSCALL, X7};

fn frame(x0: u64) -> TrapFrame {
    let mut x1to29 = [0u64; 29];
    for (i, x) in x1to29.iter_mut().enumerate() {
        *x = 100 + i as u64;
    }
    TrapFrame { x0, x1to29 }
}

#[test]
fn known_calls_leave_the_frame_alone() {
    let cases = [
        (1u16, Syscall::Sleep(250)),
        (2, Syscall::Exec(250)),
        (3, Syscall::Print(250)),
        (4, Syscall::Fork),
        (5, Syscall::Exit),
    ];
    for (num, expected) in cases.iter() {
        let mut tf = frame(250);
        assert_eq!(handle_syscall(*num, &mut tf), *expected);
        assert_eq!(tf.x0, 250);
        assert_eq!(tf.x1to29, frame(250).x1to29);
    }
}

#[test]
fn arguments_are_cut_to_a_word() {
    let mut tf = frame(0x1_0000_0005);
    assert_eq!(handle_syscall(1, &mut tf), Syscall::Sleep(5));
    assert_eq!(handle_syscall(2, &mut tf), Syscall::Exec(5));
    assert_eq!(handle_syscall(3, &mut tf), Syscall::Print(0x1_0000_0005));
    let mut tf = frame(u64::MAX);
    assert_eq!(handle_syscall(1, &mut tf), Syscall::Sleep(u32::MAX));
}

#[test]
fn unknown_call_sets_x7() {
    for num in [0u16, 6, 7, 1000, u16::MAX] {
        let mut tf = frame(9);
        assert_eq!(handle_syscall(num, &mut tf), Syscall::Unknown);
        assert_eq!(tf.x0, 9);
        let mut expected = frame(9).x1to29;
        expected[X7] = ERR_NO_SYSCALL;
        assert_eq!(expected[6], 1);
        assert_eq!(tf.x1to29, expected);
    }
}
