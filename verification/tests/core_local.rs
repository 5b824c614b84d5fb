use nexos::multicore::local::CoreLocal;

fn seven() -> u32 {
    7
}

#[test]
fn the_slots_are_made_on_the_first_access() {
    let mut local = CoreLocal::new(seven);
    assert!(!local.initialized());
    assert_eq!(local.number_of_slots(), 0);
    local.ensure_initialized(4);
    assert!(local.initialized());
    assert_eq!(local.number_of_slots(), 4);
    for core in 0..4 {
        assert!(local.read(core));
        assert_eq!(*local.get(core), 7);
        local.end_read(core);
    }
    // The number of cores counts once.
    local.ensure_initialized(8);
    assert_eq!(local.number_of_slots(), 4);
    local.ensure_initialized(0);
    assert_eq!(local.number_of_slots(), 4);
}

#[test]
fn a_machine_without_cores_has_no_slot() {
    let mut local = CoreLocal::new(seven);
    local.ensure_initialized(0);
    assert!(local.initialized());
    assert_eq!(local.number_of_slots(), 0);
    local.ensure_initialized(2);
    assert_eq!(local.number_of_slots(), 0);
}

#[test]
fn a_second_write_on_a_core_is_caught() {
    let mut local = CoreLocal::new(seven);
    local.ensure_initialized(2);
    assert!(local.write(0));
    assert!(!local.write(0));
    assert!(!local.read(0));
    local.set(0, 40);
    assert_eq!(*local.get(0), 40);
    local.end_write(0);
    assert!(local.write(0));
    local.set(0, 41);
    local.end_write(0);
    assert!(local.read(0));
    assert_eq!(*local.get(0), 41);
    local.end_read(0);
}

#[test]
fn readers_share_a_slot_and_keep_the_writer_out() {
    let mut local = CoreLocal::new(seven);
    local.ensure_initialized(2);
    assert!(local.read(1));
    assert!(local.read(1));
    assert!(!local.write(1));
    local.end_read(1);
    assert!(!local.write(1));
    local.end_read(1);
    assert!(local.write(1));
    local.end_write(1);
}

#[test]
fn the_slot_of_one_core_is_not_that_of_another() {
    let mut local = CoreLocal::new(|| String::from("idle"));
    local.ensure_initialized(3);
    assert!(local.write(2));
    local.set(2, String::from("busy"));
    // Core 0 reads and writes its own slot meanwhile.
    assert!(local.read(0));
    assert_eq!(local.get(0), "idle");
    local.end_read(0);
    assert!(local.write(0));
    local.end_write(0);
    local.end_write(2);
    assert!(local.read(2));
    assert_eq!(local.get(2), "busy");
    assert!(local.read(1));
    assert_eq!(local.get(1), "idle");
}
