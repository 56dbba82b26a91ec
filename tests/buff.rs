use bfjit::Buff;

#[test]
fn push_append_and_stack() {
    let mut b = Buff::new();
    b.push(1);
    b.append(vec![2, 3]);
    b.stack(7);
    assert_eq!(b.data, vec![1, 2, 3]);
    assert_eq!(b.jmp_stack, vec![7]);
    assert_eq!(b.len(), 3);
}

#[test]
fn integers_are_little_endian() {
    let mut b = Buff::new();
    b.u32(0x0403_0201);
    b.u64(0x0c0b_0a09_0807_0605);
    assert_eq!(b.data, (1..=12).collect::<Vec<u8>>());
}

#[test]
fn replace_overwrites_in_place() {
    let mut b = Buff::new();
    b.append(vec![0; 10]);
    b.replace_u32(0xDDCC_BBAA, 1);
    assert_eq!(b.data, vec![0, 0xAA, 0xBB, 0xCC, 0xDD, 0, 0, 0, 0, 0]);
    b.replace_u64(0x0807_0605_0403_0201, 2);
    assert_eq!(b.data, vec![0, 0xAA, 1, 2, 3, 4, 5, 6, 7, 8]);
}

#[test]
fn replace_u32_past_the_end_is_cut_short() {
    let mut b = Buff::new();
    b.append(vec![9, 9, 9]);
    b.replace_u32(0x0403_0201, 1);
    assert_eq!(b.data, vec![9, 1, 2]);
    b.replace_u32(0x0403_0201, 100);
    assert_eq!(b.data, vec![9, 1, 2]);
}
