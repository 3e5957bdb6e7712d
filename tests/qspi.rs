use ecos_ssc1::qspi::{Qspi, QspiConfig, QspiError, QspiFlash, Transfer, START_TRANSFER, TRANSFER_POLLS};

fn frames(ts: &[Transfer]) -> Vec<(u32, Vec<u32>)> {
    ts.iter().map(|t| (t.bits, t.words.clone())).collect()
}

#[test]
fn single_word_transfers() {
    let t = Qspi::write_u8(0xAB);
    assert_eq!((t.bits, t.words.clone()), (8, vec![0xAB00_0000]));
    assert_eq!(t.len_register(), 8 << 20);
    let t = Qspi::write_u16(0x1234);
    assert_eq!((t.bits, t.words.clone()), (16, vec![0x1234_0000]));
    let t = Qspi::write_u32(0xDEAD_BEEF);
    assert_eq!((t.bits, t.words.clone()), (32, vec![0xDEAD_BEEF]));
    assert_eq!(t.len_register(), 0x0200_0000);
}

#[test]
fn multi_word_transfers() {
    let t = Qspi::write_u32x2(1, 2);
    assert_eq!((t.bits, t.words.clone()), (64, vec![1, 2]));
    let d8: [u32; 8] = core::array::from_fn(|i| i as u32 * 3);
    let t = Qspi::write_u32x8(d8);
    assert_eq!((t.bits, t.words.clone()), (256, d8.to_vec()));
    let d16: [u32; 16] = core::array::from_fn(|i| i as u32 + 100);
    let t = Qspi::write_u32x16(d16);
    assert_eq!((t.bits, t.words.clone()), (512, d16.to_vec()));
    let d32: [u32; 32] = core::array::from_fn(|i| !(i as u32));
    let t = Qspi::write_u32x32(d32);
    assert_eq!((t.bits, t.words.clone()), (1024, d32.to_vec()));
    assert_eq!(t.len_register(), 1024 << 20);
}

#[test]
fn write_bytes_packs_little_endian_words_and_tail() {
    assert!(Qspi::write_bytes(&[]).is_empty());
    assert_eq!(frames(&Qspi::write_bytes(&[1])), vec![(8, vec![0x0100_0000])]);
    assert_eq!(frames(&Qspi::write_bytes(&[1, 2])), vec![(16, vec![0x0201_0000])]);
    assert_eq!(frames(&Qspi::write_bytes(&[1, 2, 3])), vec![(32, vec![0x0003_0201])]);
    assert_eq!(frames(&Qspi::write_bytes(&[1, 2, 3, 4])), vec![(32, vec![0x0403_0201])]);
    assert_eq!(
        frames(&Qspi::write_bytes(&[1, 2, 3, 4, 5, 6, 7, 8, 9])),
        vec![(32, vec![0x0403_0201]), (32, vec![0x0807_0605]), (8, vec![0x0900_0000])]
    );
}

#[test]
fn read_bytes_unpacks_words() {
    let mut data = [0u8; 6];
    Qspi::read_bytes(&mut data, &[0x0403_0201, 0xAABB_0605]);
    assert_eq!(data, [1, 2, 3, 4, 5, 6]);
    let mut empty: [u8; 0] = [];
    Qspi::read_bytes(&mut empty, &[]);
}

#[test]
fn default_config_and_new() {
    let c = QspiConfig::default();
    assert_eq!(c, QspiConfig { clkdiv: 1, dummy_cycles: 0, interrupt_config: None });
    let q = Qspi::new(QspiConfig { clkdiv: 4, ..c });
    assert_eq!(q.config().clkdiv, 4);
    assert_ne!(QspiError::Timeout, QspiError::Busy);
}

#[test]
fn transfer_completion_reads_the_low_half_of_status() {
    assert!(Qspi::transfer_complete(1));
    assert!(Qspi::transfer_complete(0xFFFF_0001));
    assert!(!Qspi::transfer_complete(258));
    assert!(!Qspi::transfer_complete(0));
}

#[test]
fn command_sends_opcode_data_and_dummy_bytes() {
    assert_eq!(
        frames(&Qspi::command_transfers(QspiFlash::READ_ID, &[], 3)),
        vec![(8, vec![0x9F00_0000]), (32, vec![0])]
    );
    assert_eq!(
        frames(&Qspi::command_transfers(QspiFlash::PAGE_PROGRAM, &[0xAA, 0xBB], 0)),
        vec![(8, vec![0x0200_0000]), (16, vec![0xBBAA_0000])]
    );
    assert_eq!(frames(&Qspi::command_transfers(QspiFlash::WRITE_ENABLE, &[], 0)), vec![(8, vec![0x0600_0000])]);
}

#[test]
fn flash_status_and_page_checks() {
    assert!(QspiFlash::is_idle(0x02));
    assert!(!QspiFlash::is_idle(0x03));
    assert_eq!(QspiFlash::poll_count(100), 10_000);
    assert_eq!(QspiFlash::poll_count(u32::MAX), u32::MAX as u64 * 100);
    assert_eq!(QspiFlash::check_page(&[]), Err(QspiError::InvalidParameter));
    assert_eq!(QspiFlash::check_page(&[0u8; 257]), Err(QspiError::InvalidParameter));
    assert_eq!(QspiFlash::check_page(&[0u8; 256]), Ok(()));
    assert_eq!(QspiFlash::check_page(&[1]), Ok(()));
    let f = QspiFlash::new(QspiConfig::default());
    assert_eq!(f.qspi().config(), QspiConfig::default());
}

#[test]
fn transfer_polling_finishes_or_times_out() {
    assert_eq!(START_TRANSFER, 258);
    assert_eq!(Qspi::poll_transfer(1, 1), Some(Ok(())));
    assert_eq!(Qspi::poll_transfer(1, 258), None);
    assert_eq!(Qspi::poll_transfer(TRANSFER_POLLS - 1, 0), None);
    assert_eq!(Qspi::poll_transfer(TRANSFER_POLLS, 0), Some(Err(QspiError::Timeout)));
    assert_eq!(Qspi::poll_transfer(TRANSFER_POLLS, 0x0001), Some(Ok(())));
    assert_eq!(TRANSFER_POLLS, 100_000);
}
