use los::xtask::{get_target, names_riscv, need_pack};

#[test]
fn target_names() {
    assert!(names_riscv(None));
    assert!(names_riscv(Some("riscv")));
    assert!(!names_riscv(Some("x86")));
    assert!(!names_riscv(Some("riscv64")));
    assert_eq!(get_target(None), b"riscv64gc-unknown-none-elf".to_vec());
    assert_eq!(get_target(Some("riscv")), b"riscv64gc-unknown-none-elf".to_vec());
}

#[test]
fn pack_when_forced_or_stale() {
    assert!(need_pack(true, 100, &vec![]));
    assert!(!need_pack(false, 100, &vec![]));
    assert!(!need_pack(false, 100, &vec![50, 100]));
    assert!(need_pack(false, 100, &vec![50, 101]));
}
