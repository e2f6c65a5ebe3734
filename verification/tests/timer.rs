use rustable::timer::{
    current_time, spin_sleep_ms, spin_sleep_us, tick_in, Registers, SpinAction, SpinSleep, Timer,
};

fn registers(cs: u32, clo: u32, chi: u32) -> Registers {
    Registers { cs, clo, chi, compare: [11, 22, 33, 44] }
}

#[test]
fn read_joins_the_two_words() {
    assert_eq!(Timer::new(registers(0, 0, 0)).read(), 0);
    assert_eq!(Timer::new(registers(0, 7, 0)).read(), 7);
    assert_eq!(Timer::new(registers(0, 7, 1)).read(), 0x1_0000_0007);
    assert_eq!(Timer::new(registers(0, 0xdead_beef, 0x1234_5678)).read(), 0x1234_5678_dead_beef);
    assert_eq!(Timer::new(registers(0, u32::MAX, u32::MAX)).read(), u64::MAX);
}

#[test]
fn tick_in_arms_compare_1_and_sets_its_bit() {
    let mut timer = Timer::new(registers(0b0101, 1000, 3));
    timer.tick_in(500);
    let after = timer.registers();
    assert_eq!(after.compare, [11, 1500, 33, 44]);
    assert_eq!(after.cs, 0b0111);
    assert_eq!(after.clo, 1000);
    assert_eq!(after.chi, 3);
}

#[test]
fn tick_in_wraps_around() {
    let mut timer = Timer::new(registers(0b0010, u32::MAX - 1, 0));
    timer.tick_in(5);
    let after = timer.registers();
    assert_eq!(after.compare[1], 3);
    assert_eq!(after.cs, 0b0010);
}

#[test]
fn has_matched_reads_bit_1() {
    assert!(!Timer::new(registers(0, 0, 0)).has_matched());
    assert!(!Timer::new(registers(0b1101, 0, 0)).has_matched());
    assert!(Timer::new(registers(0b0010, 0, 0)).has_matched());
    assert!(Timer::new(registers(0b1111, 0, 0)).has_matched());
}

#[test]
fn current_time_reads_the_counter() {
    assert_eq!(current_time(registers(0, 5, 2)), 0x2_0000_0005);
}

#[test]
fn free_tick_in_gives_registers_to_write() {
    let armed = tick_in(registers(0b1000, 40, 9), 2);
    assert_eq!(armed.compare, [11, 42, 33, 44]);
    assert_eq!(armed.cs, 0b1010);
    assert_eq!(armed.clo, 40);
    assert_eq!(armed.chi, 9);
}

#[test]
fn spin_sleep_ms_is_a_thousand_times_us() {
    assert_eq!(spin_sleep_us(7), SpinSleep { remaining: 7, armed: false });
    assert_eq!(spin_sleep_ms(7), SpinSleep { remaining: 7000, armed: false });
    assert_eq!(spin_sleep_ms(0), spin_sleep_us(0));
}

#[test]
fn spin_sleep_arms_then_polls_once_per_microsecond() {
    let idle = registers(0, 100, 0);
    let matched = registers(0b0010, 101, 0);
    let mut sleep = spin_sleep_us(2);
    assert_eq!(sleep.step(&idle), SpinAction::Arm(101));
    assert!(sleep.armed);
    assert_eq!(sleep.step(&idle), SpinAction::Poll);
    assert_eq!(sleep.remaining, 2);
    assert_eq!(sleep.step(&matched), SpinAction::Poll);
    assert_eq!(sleep.remaining, 1);
    assert!(!sleep.armed);
    assert_eq!(sleep.step(&matched), SpinAction::Arm(102));
    assert_eq!(sleep.step(&matched), SpinAction::Done);
    assert_eq!(sleep.remaining, 0);
    assert_eq!(sleep.step(&idle), SpinAction::Done);
}

#[test]
fn spin_sleep_of_nothing_is_done_at_once() {
    let mut sleep = spin_sleep_us(0);
    assert_eq!(sleep.step(&registers(0, u32::MAX, 0)), SpinAction::Done);
}
