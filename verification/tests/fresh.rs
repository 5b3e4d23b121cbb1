//! A machine that has not been stepped.

use snemu::machine::Machine;
use snemu::mem::Memory;

#[test]
fn a_fresh_machine_has_retired_nothing() {
    let machine = Machine::new(Memory::new(1024 * 1024), 1);
    assert_eq!(machine.instret(), 0);
}
