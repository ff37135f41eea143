use initd::linux::{caps_to_drop, getbcap, str_as_cstr, syscall_result, to_str_vec, wexitstatus};

#[test]
fn syscall_return_values() {
    assert_eq!(syscall_result(5), Ok(5));
    assert_eq!(syscall_result(0), Ok(0));
    assert_eq!(syscall_result(-2), Err(2));
    assert_eq!(syscall_result(-4095), Err(4095));
}

#[test]
fn bounding_set_from_reads() {
    let mut reads: Vec<Result<isize, i32>> = vec![Ok(0); 64];
    reads[0] = Ok(1);
    reads[5] = Ok(1);
    reads[63] = Ok(1);
    reads[7] = Err(22);
    reads[8] = Ok(2);
    assert_eq!(getbcap(&reads), 1 | (1 << 5) | (1u64 << 63));
    assert_eq!(getbcap(&[]), 0);
    assert_eq!(getbcap(&[Ok(1), Ok(1)]), 3);
}

#[test]
fn capabilities_to_drop() {
    assert_eq!(caps_to_drop(u64::MAX), Vec::<u64>::new());
    assert_eq!(caps_to_drop(u64::MAX - 1), vec![0]);
    assert_eq!(caps_to_drop(0).len(), 64);
    let mask = 0x1fffbfbffffu64;
    let dropped = caps_to_drop(mask);
    assert!(dropped.contains(&18) && dropped.contains(&26) && dropped.contains(&41));
    assert!(!dropped.contains(&0) && !dropped.contains(&40));
}

#[test]
fn keeping_then_reading_gives_the_mask() {
    let mask = 0x1fffbfbffffu64;
    let dropped = caps_to_drop(mask);
    let reads: Vec<Result<isize, i32>> =
        (0..64u64).map(|i| if dropped.contains(&i) { Ok(0) } else { Ok(1) }).collect();
    assert_eq!(getbcap(&reads), mask);
}

#[test]
fn c_strings() {
    assert_eq!(str_as_cstr("ab"), vec![b'a', b'b', 0]);
    assert_eq!(str_as_cstr(""), vec![0]);
    assert_eq!(to_str_vec(&["/bin/sh", "-c"]), vec![b"/bin/sh\0".to_vec(), b"-c\0".to_vec()]);
    assert!(to_str_vec(&[]).is_empty());
}

#[test]
fn exit_status() {
    assert_eq!(wexitstatus(0x0100), 1);
    assert_eq!(wexitstatus(0x2a7f), 42);
    assert_eq!(wexitstatus(0x7f), 0);
    assert_eq!(wexitstatus(-1), 255);
}
