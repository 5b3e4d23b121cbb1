//! Typed input, stamped with the guest's clock.

use snemu::input::{deliver, InputLog};
use snemu::machine::Machine;
use snemu::mem::{Memory, RAM_BASE};

const SPIN: u32 = 0x0000_006F;

fn machine_running(program: &[u32]) -> Machine {
    let mut m = Machine::new(Memory::new(64 * 1024), 1);
    let mut image = Vec::new();
    for w in program {
        image.extend_from_slice(&w.to_le_bytes());
    }
    m.write_ram(RAM_BASE, &image).expect("program fits");
    m.set_pc(0, RAM_BASE);
    m
}

#[test]
fn input_is_stamped_with_the_instret_at_which_it_was_delivered() {
    let mut machine = machine_running(&[SPIN]);
    let mut log = InputLog::default();

    deliver(&mut machine, &mut log, "a");
    for _ in 0..16 {
        machine.step().expect("the spin loop keeps running");
    }
    deliver(&mut machine, &mut log, "b");

    let entries = log.entries();
    assert_eq!(entries.len(), 2, "both deliveries are recorded");
    assert_eq!(entries[0].text, "a", "oldest first");
    assert_eq!(entries[1].text, "b");
    assert_eq!(entries[0].instret, 0, "the first landed before the guest ran");
    assert_eq!(entries[1].instret, 16, "the second after sixteen instructions");
}

